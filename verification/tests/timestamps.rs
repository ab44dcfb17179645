use dataflow_progress::communication::data::duplicate;
use dataflow_progress::progress::order::same;
use dataflow_progress::progress::order::PartialOrder;
use dataflow_progress::progress::order::Product;
use dataflow_progress::progress::timestamp::PathSummary;
use dataflow_progress::progress::timestamp::Timestamp;

#[test]
fn integers_are_ordered_as_usual() {
    assert!(PartialOrder::less_equal(&3u64, &5u64));
    assert!(PartialOrder::less_equal(&5u64, &5u64));
    assert!(!PartialOrder::less_equal(&6u64, &5u64));
    assert_eq!(<u64 as Timestamp>::minimum(), 0);
}

#[test]
fn products_are_ordered_by_both_parts() {
    let low = Product { outer: 1, inner: 1 };
    let high = Product { outer: 2, inner: 3 };
    let left = Product { outer: 0, inner: 1 };
    let right = Product { outer: 1, inner: 0 };
    assert!(low.less_equal(&high));
    assert!(!high.less_equal(&low));
    assert!(low.less_equal(&low));
    assert!(!left.less_equal(&right));
    assert!(!right.less_equal(&left));
    assert_eq!(<Product as Timestamp>::minimum(), Product { outer: 0, inner: 0 });
    assert!(<Product as Timestamp>::minimum().less_equal(&left));
    assert!(<Product as Timestamp>::minimum().less_equal(&right));
}

#[test]
fn same_agrees_with_equality() {
    assert!(same(&4u64, &4u64));
    assert!(!same(&4u64, &5u64));
    let left = Product { outer: 0, inner: 1 };
    let right = Product { outer: 1, inner: 0 };
    assert!(same(&left, &left));
    assert!(!same(&left, &right));
}

#[test]
fn duplicate_copies() {
    assert_eq!(duplicate(&17u64), 17);
    assert_eq!(duplicate(&"a".to_string()), "a".to_string());
    assert_eq!(duplicate(&"b"), "b");
    assert_eq!(duplicate(&Product { outer: 2, inner: 9 }), Product { outer: 2, inner: 9 });
}

#[test]
fn a_step_moves_a_time_forward() {
    assert_eq!(PathSummary::<u64>::results_in(&3u64, &5u64), 8);
    assert_eq!(PathSummary::<u64>::results_in(&0u64, &5u64), 5);
    assert_eq!(PathSummary::<u64>::results_in(&1u64, &u64::MAX), u64::MAX);
    assert_eq!(PathSummary::<u64>::results_in(&u64::MAX, &7u64), u64::MAX);
}

#[test]
fn steps_compose_by_adding() {
    assert_eq!(PathSummary::<u64>::followed_by(&3u64, &4u64), 7);
    assert_eq!(PathSummary::<u64>::followed_by(&u64::MAX, &4u64), u64::MAX);
    assert_eq!(<u64 as PathSummary<u64>>::identity(), 0);
    let a = 2u64;
    let b = 3u64;
    let c = 4u64;
    let left = PathSummary::<u64>::followed_by(&PathSummary::<u64>::followed_by(&a, &b), &c);
    let right = PathSummary::<u64>::followed_by(&a, &PathSummary::<u64>::followed_by(&b, &c));
    assert_eq!(PathSummary::<u64>::results_in(&left, &10u64), 19);
    assert_eq!(PathSummary::<u64>::results_in(&right, &10u64), 19);
}

#[test]
fn a_step_is_monotone() {
    let step = 5u64;
    let times = [0u64, 1, 7, u64::MAX - 5, u64::MAX - 1, u64::MAX];
    for a in times.iter() {
        for b in times.iter() {
            if a <= b {
                let moved_a = PathSummary::<u64>::results_in(&step, a);
                let moved_b = PathSummary::<u64>::results_in(&step, b);
                assert!(moved_a <= moved_b);
            }
        }
    }
}

#[test]
fn a_pair_of_steps_moves_both_parts() {
    let step = Product { outer: 1, inner: u64::MAX };
    let time = Product { outer: 4, inner: 2 };
    assert_eq!(step.results_in(&time), Product { outer: 5, inner: u64::MAX });
    assert_eq!(
        step.followed_by(&Product { outer: 2, inner: 0 }),
        Product { outer: 3, inner: u64::MAX }
    );
    assert_eq!(<Product as PathSummary<Product>>::identity(), Product { outer: 0, inner: 0 });
    assert_eq!(<Product as PathSummary<Product>>::identity().results_in(&time), time);
}
