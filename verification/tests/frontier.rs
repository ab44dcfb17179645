use dataflow_progress::progress::frontier::Antichain;
use dataflow_progress::progress::order::PartialOrder;
use dataflow_progress::progress::order::Product;

fn at(outer: u64, inner: u64) -> Product {
    Product { outer, inner }
}

#[test]
fn new_frontier_is_empty() {
    let frontier: Antichain<Product> = Antichain::new();
    assert_eq!(frontier.elements().len(), 0);
}

#[test]
fn from_elem_holds_one_element() {
    let frontier = Antichain::from_elem(at(2, 3));
    assert_eq!(frontier.elements(), &vec![at(2, 3)]);
}

#[test]
fn incomparable_elements_all_join() {
    let mut frontier: Antichain<Product> = Antichain::new();
    assert!(frontier.insert(at(0, 3)));
    assert!(frontier.insert(at(1, 2)));
    assert!(frontier.insert(at(3, 0)));
    assert_eq!(frontier.elements(), &vec![at(0, 3), at(1, 2), at(3, 0)]);
}

#[test]
fn a_dominated_element_does_not_join() {
    let mut frontier: Antichain<Product> = Antichain::new();
    frontier.insert(at(1, 1));
    assert!(!frontier.insert(at(2, 1)));
    assert!(!frontier.insert(at(1, 5)));
    assert_eq!(frontier.elements(), &vec![at(1, 1)]);
}

#[test]
fn an_element_drives_out_what_it_dominates() {
    let mut frontier: Antichain<Product> = Antichain::new();
    frontier.insert(at(0, 5));
    frontier.insert(at(2, 2));
    frontier.insert(at(3, 1));
    frontier.insert(at(5, 0));
    assert!(frontier.insert(at(1, 1)));
    assert_eq!(frontier.elements(), &vec![at(0, 5), at(5, 0), at(1, 1)]);
}

#[test]
fn an_element_offered_twice_is_held_once() {
    let mut frontier: Antichain<u64> = Antichain::new();
    assert!(frontier.insert(4));
    assert!(frontier.insert(4));
    assert_eq!(frontier.elements(), &vec![4]);
    assert!(!frontier.insert(9));
    assert!(frontier.insert(2));
    assert_eq!(frontier.elements(), &vec![2]);
}

#[test]
fn insertions_leave_a_minimal_frontier_that_dominates_them() {
    let offered = vec![
        at(4, 4),
        at(2, 6),
        at(6, 2),
        at(3, 3),
        at(2, 6),
        at(7, 7),
        at(0, 9),
        at(3, 2),
        at(9, 0),
        at(1, 8),
    ];
    let mut frontier: Antichain<Product> = Antichain::new();
    for element in offered.iter() {
        frontier.insert(*element);
    }
    let held = frontier.elements();
    for (i, a) in held.iter().enumerate() {
        for (j, b) in held.iter().enumerate() {
            if i != j {
                assert!(!a.less_equal(b));
            }
        }
    }
    for element in offered.iter() {
        assert!(held.iter().any(|h| h.less_equal(element)));
    }
    let mut sorted: Vec<(u64, u64)> = held.iter().map(|h| (h.outer, h.inner)).collect();
    sorted.sort();
    assert_eq!(sorted, vec![(0, 9), (1, 8), (2, 6), (3, 2), (9, 0)]);
}
