use dataflow_progress::progress::count_map::CountMap;

fn sorted(counts: &CountMap<u64>) -> Vec<(u64, i64)> {
    let mut list = counts.pairs();
    list.sort();
    list
}

#[test]
fn update_creates_changes_and_deletes() {
    let mut counts: CountMap<u64> = CountMap::new();
    assert!(counts.is_empty());
    assert_eq!(counts.update(&7, 3), 3);
    assert_eq!(counts.get(&7), 3);
    assert!(!counts.is_empty());
    assert_eq!(counts.update(&7, -1), 2);
    assert_eq!(sorted(&counts), vec![(7, 2)]);
    assert_eq!(counts.update(&7, -2), 0);
    assert_eq!(counts.get(&7), 0);
    assert!(counts.is_empty());
    assert_eq!(counts.pairs(), vec![]);
}

#[test]
fn update_by_zero_makes_no_entry() {
    let mut counts: CountMap<u64> = CountMap::new();
    assert_eq!(counts.update(&1, 0), 0);
    assert!(counts.is_empty());
    counts.update(&1, 4);
    assert_eq!(counts.update(&1, 0), 4);
    assert_eq!(sorted(&counts), vec![(1, 4)]);
}

#[test]
fn retired_and_activated_again_nets_to_nothing() {
    let mut counts: CountMap<u64> = CountMap::new();
    counts.update(&9, 1);
    counts.update(&9, -1);
    counts.update(&9, 1);
    counts.update(&9, -1);
    assert!(counts.is_empty());
}

#[test]
fn update_wraps_at_the_ends_of_the_range() {
    let mut counts: CountMap<u64> = CountMap::new();
    counts.update(&1, i64::MAX);
    assert_eq!(counts.update(&1, 1), i64::MIN);
    assert_eq!(counts.get(&1), i64::MIN);
    assert_eq!(counts.update(&1, i64::MIN), 0);
    assert!(counts.is_empty());
}

#[test]
fn updates_commute() {
    let deltas: Vec<(u64, i64)> =
        vec![(1, 2), (2, -1), (1, -2), (3, 5), (2, 4), (3, -5), (4, 1), (2, -3)];
    let mut forward: CountMap<u64> = CountMap::new();
    for (key, delta) in deltas.iter() {
        forward.update(key, *delta);
    }
    let mut backward: CountMap<u64> = CountMap::new();
    for (key, delta) in deltas.iter().rev() {
        backward.update(key, *delta);
    }
    let mut shuffled: CountMap<u64> = CountMap::new();
    for index in [3usize, 0, 7, 5, 1, 6, 2, 4] {
        shuffled.update(&deltas[index].0, deltas[index].1);
    }
    assert_eq!(sorted(&forward), vec![(4, 1)]);
    assert_eq!(sorted(&backward), vec![(4, 1)]);
    assert_eq!(sorted(&shuffled), vec![(4, 1)]);
}

#[test]
fn update_all_applies_first_to_last() {
    let mut counts: CountMap<u64> = CountMap::new();
    counts.update(&3, 1);
    counts.update_all(&vec![(3, -1), (6, 1), (8, 2), (8, -2)]);
    assert_eq!(sorted(&counts), vec![(6, 1)]);
}

#[test]
fn drain_into_adds_and_empties() {
    let mut source: CountMap<u64> = CountMap::new();
    source.update(&1, 2);
    source.update(&2, -3);
    source.update(&3, 7);
    let mut target: CountMap<u64> = CountMap::new();
    target.update(&2, 3);
    target.update(&3, 1);
    target.update(&4, 9);
    source.drain_into(&mut target);
    assert!(source.is_empty());
    assert_eq!(sorted(&target), vec![(1, 2), (3, 8), (4, 9)]);
    source.drain_into(&mut target);
    assert_eq!(sorted(&target), vec![(1, 2), (3, 8), (4, 9)]);
}

#[test]
fn clear_forgets_everything() {
    let mut counts: CountMap<u64> = CountMap::new();
    counts.update(&1, 2);
    counts.update(&2, 2);
    counts.clear();
    assert!(counts.is_empty());
    assert_eq!(counts.get(&1), 0);
}

#[test]
fn any_leq_looks_for_a_time_at_or_before() {
    let mut counts: CountMap<u64> = CountMap::new();
    assert!(!counts.any_leq(&5));
    counts.update(&6, 1);
    assert!(!counts.any_leq(&5));
    assert!(counts.any_leq(&6));
    counts.update(&3, 1);
    assert!(counts.any_leq(&5));
    counts.update(&3, -1);
    assert!(!counts.any_leq(&5));
}
