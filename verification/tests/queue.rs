use dataflow_progress::communication::observer::Observer;
use dataflow_progress::communication::pushpull::PushableObserver;
use dataflow_progress::example::queue::QueueScope;
use dataflow_progress::example::queue::ScopeInputQueue;
use dataflow_progress::progress::count_map::CountMap;
use dataflow_progress::progress::order::Product;
use dataflow_progress::progress::scope::Scope;

type Sink = Vec<(u64, Vec<&'static str>)>;
type Queue = QueueScope<u64, u64, &'static str, PushableObserver<u64, &'static str, Sink>>;

fn queue_scope() -> Queue {
    QueueScope::new(PushableObserver::new(Vec::new()))
}

fn deliver(scope: &mut Queue, time: u64, records: &[&'static str]) {
    scope.open(&time);
    for record in records {
        scope.push(record);
    }
    scope.shut(&time);
}

fn counts() -> Vec<CountMap<u64>> {
    vec![CountMap::new()]
}

fn sorted(counts: &CountMap<u64>) -> Vec<(u64, i64)> {
    let mut list = counts.pairs();
    list.sort();
    list
}

fn batches_sorted(list: &Vec<(u64, Vec<&'static str>)>) -> Vec<(u64, Vec<&'static str>)> {
    let mut list = list.clone();
    list.sort();
    list
}

#[test]
fn a_new_input_holds_nothing() {
    let mut input: ScopeInputQueue<u64, String> = ScopeInputQueue::new_shared();
    assert_eq!(input.times(), Vec::<u64>::new());
    assert_eq!(input.queue(&0), None);
    let mut consumed = CountMap::new();
    let mut progress = CountMap::new();
    input.pull_progress(&mut consumed, &mut progress);
    assert!(consumed.is_empty());
    assert!(progress.is_empty());
}

#[test]
fn shut_queues_counts_and_activates() {
    let mut input: ScopeInputQueue<u64, String> = ScopeInputQueue::new_shared();
    input.open(&5);
    input.push(&"a".to_string());
    input.push(&"b".to_string());
    assert_eq!(input.queue(&5), None);
    input.shut(&5);
    assert_eq!(input.queue(&5), Some(&vec!["a".to_string(), "b".to_string()]));
    input.open(&5);
    input.push(&"c".to_string());
    input.shut(&5);
    input.open(&2);
    input.push(&"d".to_string());
    input.shut(&2);
    assert_eq!(
        input.queue(&5),
        Some(&vec!["a".to_string(), "b".to_string(), "c".to_string()])
    );
    assert_eq!(input.queue(&2), Some(&vec!["d".to_string()]));
    let mut times = input.times();
    times.sort();
    assert_eq!(times, vec![2, 5]);
    let mut consumed = CountMap::new();
    let mut progress = CountMap::new();
    input.pull_progress(&mut consumed, &mut progress);
    assert_eq!(sorted(&consumed), vec![(2, 1), (5, 3)]);
    assert_eq!(sorted(&progress), vec![(2, 1), (5, 1)]);
}

#[test]
fn an_empty_batch_leaves_no_trace() {
    let mut input: ScopeInputQueue<u64, String> = ScopeInputQueue::new_shared();
    input.open(&4);
    input.shut(&4);
    assert_eq!(input.queue(&4), None);
    assert_eq!(input.times(), Vec::<u64>::new());
    let mut consumed = CountMap::new();
    let mut progress = CountMap::new();
    input.pull_progress(&mut consumed, &mut progress);
    assert!(consumed.is_empty());
    assert!(progress.is_empty());
}

#[test]
fn pull_progress_adds_to_what_the_caller_holds() {
    let mut input: ScopeInputQueue<u64, String> = ScopeInputQueue::new_shared();
    input.open(&5);
    input.push(&"a".to_string());
    input.shut(&5);
    let mut consumed = CountMap::new();
    consumed.update(&5, 10);
    consumed.update(&1, 1);
    let mut progress = CountMap::new();
    progress.update(&5, -1);
    input.pull_progress(&mut consumed, &mut progress);
    assert_eq!(sorted(&consumed), vec![(1, 1), (5, 11)]);
    assert!(progress.is_empty());
}

#[test]
fn a_second_drain_yields_nothing() {
    let mut input: ScopeInputQueue<u64, String> = ScopeInputQueue::new_shared();
    input.open(&5);
    input.push(&"a".to_string());
    input.push(&"b".to_string());
    input.shut(&5);
    let mut consumed = CountMap::new();
    let mut progress = CountMap::new();
    input.pull_progress(&mut consumed, &mut progress);
    assert_eq!(sorted(&consumed), vec![(5, 2)]);
    assert_eq!(sorted(&progress), vec![(5, 1)]);
    let mut consumed_again = CountMap::new();
    let mut progress_again = CountMap::new();
    input.pull_progress(&mut consumed_again, &mut progress_again);
    assert!(consumed_again.is_empty());
    assert!(progress_again.is_empty());
    assert_eq!(input.queue(&5), Some(&vec!["a".to_string(), "b".to_string()]));
}

#[test]
fn a_queue_is_extracted_once() {
    let mut input: ScopeInputQueue<u64, String> = ScopeInputQueue::new_shared();
    assert_eq!(input.extract_queue(&5), None);
    input.open(&5);
    input.push(&"a".to_string());
    input.shut(&5);
    input.open(&6);
    input.push(&"b".to_string());
    input.shut(&6);
    assert_eq!(input.extract_queue(&5), Some(vec!["a".to_string()]));
    assert_eq!(input.extract_queue(&5), None);
    assert_eq!(input.queue(&5), None);
    assert_eq!(input.queue(&6), Some(&vec!["b".to_string()]));
    assert_eq!(input.times(), vec![6]);
}

#[test]
fn a_time_extracted_and_filled_again_is_active_again() {
    let mut input: ScopeInputQueue<u64, String> = ScopeInputQueue::new_shared();
    input.open(&5);
    input.push(&"a".to_string());
    input.shut(&5);
    assert_eq!(input.extract_queue(&5), Some(vec!["a".to_string()]));
    input.open(&5);
    input.push(&"b".to_string());
    input.shut(&5);
    let mut consumed = CountMap::new();
    let mut progress = CountMap::new();
    input.pull_progress(&mut consumed, &mut progress);
    assert_eq!(sorted(&consumed), vec![(5, 2)]);
    assert_eq!(sorted(&progress), vec![(5, 2)]);
    assert_eq!(input.extract_queue(&5), Some(vec!["b".to_string()]));
}

#[test]
fn the_queue_scope_describes_itself() {
    let mut scope = queue_scope();
    assert_eq!(scope.name(), "Queue".to_string());
    assert_eq!(scope.inputs(), 1);
    assert_eq!(scope.outputs(), 1);
    assert!(scope.notify_me());
    let (summaries, capabilities) = scope.get_internal_summary();
    assert_eq!(summaries.len(), 1);
    assert_eq!(summaries[0].len(), 1);
    assert_eq!(summaries[0][0].elements(), &vec![0u64]);
    assert_eq!(capabilities.len(), 1);
    assert!(capabilities[0].is_empty());
}

#[test]
fn nothing_is_released_early() {
    let mut scope = queue_scope();
    deliver(&mut scope, 5, &["a", "b"]);
    scope.push_external_progress(&vec![vec![(3, 1)]]);
    assert_eq!(scope.to_send(), &vec![]);
    assert_eq!(scope.input_queue().queue(&5), Some(&vec!["a", "b"]));
    assert_eq!(sorted(scope.guarantee_counts()), vec![(3, 1)]);
    scope.push_external_progress(&vec![vec![(3, -1), (6, 1)]]);
    assert_eq!(scope.to_send(), &vec![(5, vec!["a", "b"])]);
    assert_eq!(scope.input_queue().queue(&5), None);
    assert_eq!(sorted(scope.guarantee_counts()), vec![(6, 1)]);
}

#[test]
fn a_guarantee_at_the_time_itself_holds_it_back() {
    let mut scope = queue_scope();
    deliver(&mut scope, 5, &["a"]);
    scope.push_external_progress(&vec![vec![(5, 1)]]);
    assert_eq!(scope.to_send(), &vec![]);
    scope.push_external_progress(&vec![vec![(5, -1)]]);
    assert_eq!(scope.to_send(), &vec![(5, vec!["a"])]);
}

#[test]
fn only_the_times_before_the_guarantee_are_released() {
    let mut scope = queue_scope();
    scope.set_external_summary(Vec::new(), &vec![vec![(0, 1)]]);
    deliver(&mut scope, 7, &["g"]);
    deliver(&mut scope, 2, &["b"]);
    deliver(&mut scope, 4, &["d", "e"]);
    deliver(&mut scope, 2, &["c"]);
    scope.push_external_progress(&vec![vec![]]);
    assert_eq!(scope.to_send(), &vec![]);
    scope.push_external_progress(&vec![vec![(5, 1), (0, -1)]]);
    assert_eq!(
        batches_sorted(scope.to_send()),
        vec![(2, vec!["b", "c"]), (4, vec!["d", "e"])]
    );
    assert_eq!(scope.input_queue().times(), vec![7]);
    scope.push_external_progress(&vec![vec![(5, -1)]]);
    assert_eq!(
        batches_sorted(scope.to_send()),
        vec![(2, vec!["b", "c"]), (4, vec!["d", "e"]), (7, vec!["g"])]
    );
}

#[test]
fn a_batch_is_replayed_in_the_order_of_arrival() {
    let mut scope = queue_scope();
    deliver(&mut scope, 5, &["a", "b", "c"]);
    scope.push_external_progress(&vec![vec![]]);
    let mut internal = counts();
    let mut consumed = counts();
    let mut produced = counts();
    assert!(scope.pull_internal_progress(&mut internal, &mut consumed, &mut produced));
    assert_eq!(scope.output_observer().pushable, vec![(5, vec!["a", "b", "c"])]);
    assert_eq!(scope.to_send(), &vec![]);
    assert_eq!(sorted(&consumed[0]), vec![(5, 3)]);
    assert_eq!(sorted(&produced[0]), vec![(5, 3)]);
    assert!(internal[0].is_empty());
}

#[test]
fn progress_is_reported_as_it_happens() {
    let mut scope = queue_scope();
    scope.set_external_summary(Vec::new(), &vec![vec![(0, 1)]]);
    deliver(&mut scope, 5, &["a", "b"]);
    deliver(&mut scope, 6, &["c"]);
    let mut internal = counts();
    let mut consumed = counts();
    let mut produced = counts();
    assert!(scope.pull_internal_progress(&mut internal, &mut consumed, &mut produced));
    assert_eq!(sorted(&internal[0]), vec![(5, 1), (6, 1)]);
    assert_eq!(sorted(&consumed[0]), vec![(5, 2), (6, 1)]);
    assert!(produced[0].is_empty());
    assert_eq!(scope.output_observer().pushable, vec![]);
    scope.push_external_progress(&vec![vec![(6, 1), (0, -1)]]);
    let mut internal = counts();
    let mut consumed = counts();
    let mut produced = counts();
    assert!(scope.pull_internal_progress(&mut internal, &mut consumed, &mut produced));
    assert_eq!(sorted(&internal[0]), vec![(5, -1)]);
    assert!(consumed[0].is_empty());
    assert_eq!(sorted(&produced[0]), vec![(5, 2)]);
    assert_eq!(scope.output_observer().pushable, vec![(5, vec!["a", "b"])]);
    let mut internal = counts();
    let mut consumed = counts();
    let mut produced = counts();
    assert!(scope.pull_internal_progress(&mut internal, &mut consumed, &mut produced));
    assert!(internal[0].is_empty());
    assert!(consumed[0].is_empty());
    assert!(produced[0].is_empty());
}

#[test]
fn every_record_is_sent_exactly_once() {
    let mut scope = queue_scope();
    scope.set_external_summary(Vec::new(), &vec![vec![(0, 1)]]);
    let mut internal = counts();
    let mut consumed = counts();
    let mut produced = counts();
    deliver(&mut scope, 1, &["a", "b"]);
    deliver(&mut scope, 3, &["c"]);
    scope.pull_internal_progress(&mut internal, &mut consumed, &mut produced);
    scope.push_external_progress(&vec![vec![(2, 1), (0, -1)]]);
    deliver(&mut scope, 2, &["d", "e", "f"]);
    scope.pull_internal_progress(&mut internal, &mut consumed, &mut produced);
    deliver(&mut scope, 3, &["g"]);
    scope.push_external_progress(&vec![vec![(4, 1), (2, -1)]]);
    scope.pull_internal_progress(&mut internal, &mut consumed, &mut produced);
    scope.push_external_progress(&vec![vec![(4, -1)]]);
    scope.pull_internal_progress(&mut internal, &mut consumed, &mut produced);
    assert_eq!(sorted(&consumed[0]), vec![(1, 2), (2, 3), (3, 2)]);
    assert_eq!(sorted(&produced[0]), vec![(1, 2), (2, 3), (3, 2)]);
    assert!(internal[0].is_empty());
    assert_eq!(scope.input_queue().times(), Vec::<u64>::new());
    assert_eq!(scope.to_send(), &vec![]);
    let pushed: i64 = 7;
    assert_eq!(produced[0].pairs().iter().map(|pair| pair.1).sum::<i64>(), pushed);
    let sent = &scope.output_observer().pushable;
    assert_eq!(sent.iter().map(|batch| batch.1.len()).sum::<usize>(), 7);
    assert_eq!(sent[0], (1, vec!["a", "b"]));
    assert_eq!(
        batches_sorted(sent),
        vec![(1, vec!["a", "b"]), (2, vec!["d", "e", "f"]), (3, vec!["c", "g"])]
    );
}

#[test]
fn incomparable_times_do_not_hold_each_other_back() {
    let sink: Vec<(Product, Vec<u64>)> = Vec::new();
    let mut scope: QueueScope<Product, Product, u64, PushableObserver<Product, u64, Vec<(Product, Vec<u64>)>>> =
        QueueScope::new(PushableObserver::new(sink));
    let early = Product { outer: 0, inner: 5 };
    let late = Product { outer: 2, inner: 1 };
    scope.open(&early);
    scope.push(&1);
    scope.shut(&early);
    scope.open(&late);
    scope.push(&2);
    scope.shut(&late);
    scope.push_external_progress(&vec![vec![(Product { outer: 1, inner: 0 }, 1)]]);
    assert_eq!(scope.to_send(), &vec![(early, vec![1])]);
    assert_eq!(scope.input_queue().times(), vec![late]);
    scope.push_external_progress(&vec![vec![
        (Product { outer: 1, inner: 0 }, -1),
        (Product { outer: 2, inner: 2 }, 1),
    ]]);
    assert_eq!(scope.to_send(), &vec![(early, vec![1]), (late, vec![2])]);
}
