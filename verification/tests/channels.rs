use dataflow_progress::communication::observer::Observer;
use dataflow_progress::communication::pushpull::try_pull;
use dataflow_progress::communication::pushpull::try_push;
use dataflow_progress::communication::pushpull::Closed;
use dataflow_progress::communication::pushpull::Pullable;
use dataflow_progress::communication::pushpull::Pushable;
use dataflow_progress::communication::pushpull::PushableObserver;
use std::sync::mpsc::channel;

#[test]
fn a_vector_yields_the_last_first() {
    let mut buffer: Vec<u64> = Vec::new();
    assert_eq!(Pullable::pull(&mut buffer), None);
    Pushable::push(&mut buffer, 1);
    Pushable::push(&mut buffer, 2);
    Pushable::push(&mut buffer, 3);
    assert_eq!(buffer, vec![1, 2, 3]);
    assert_eq!(Pullable::pull(&mut buffer), Some(3));
    assert_eq!(Pullable::pull(&mut buffer), Some(2));
    Pushable::push(&mut buffer, 4);
    assert_eq!(Pullable::pull(&mut buffer), Some(4));
    assert_eq!(Pullable::pull(&mut buffer), Some(1));
    assert_eq!(Pullable::pull(&mut buffer), None);
}

#[test]
fn a_boxed_vector_is_the_vector() {
    let mut boxed: Box<Vec<u64>> = Box::new(Vec::new());
    Pushable::push(&mut boxed, 5);
    Pushable::push(&mut boxed, 6);
    assert_eq!(*boxed, vec![5, 6]);
    assert_eq!(Pullable::pull(&mut boxed), Some(6));
    assert_eq!(Pullable::pull(&mut boxed), Some(5));
    assert_eq!(Pullable::pull(&mut boxed), None);
}

#[test]
fn a_channel_yields_in_the_order_sent() {
    let (mut sender, mut receiver) = channel::<u64>();
    assert_eq!(receiver.pull(), None);
    sender.push(1);
    sender.push(2);
    assert_eq!(receiver.pull(), Some(1));
    assert_eq!(receiver.pull(), Some(2));
    assert_eq!(receiver.pull(), None);
}

#[test]
fn an_empty_channel_is_not_a_closed_one() {
    let (sender, receiver) = channel::<u64>();
    assert_eq!(try_pull(&receiver), Ok(None));
    assert_eq!(try_push(&sender, 8), Ok(()));
    assert_eq!(try_pull(&receiver), Ok(Some(8)));
    assert_eq!(try_push(&sender, 9), Ok(()));
    drop(sender);
    assert_eq!(try_pull(&receiver), Ok(Some(9)));
    assert_eq!(try_pull(&receiver), Err(Closed));
}

#[test]
fn a_closed_channel_pulls_nothing() {
    let (sender, mut receiver) = channel::<u64>();
    drop(sender);
    assert_eq!(receiver.pull(), None);
}

#[test]
fn a_value_sent_to_nobody_comes_back() {
    let (mut sender, receiver) = channel::<String>();
    drop(receiver);
    assert_eq!(try_push(&sender, "lost".to_string()), Err("lost".to_string()));
    sender.push("dropped".to_string());
}

#[test]
fn a_pushable_observer_hands_on_whole_batches() {
    let sink: Vec<(u64, Vec<&'static str>)> = Vec::new();
    let mut observer = PushableObserver::new(sink);
    observer.open(&5);
    observer.push(&"a");
    observer.push(&"b");
    assert_eq!(observer.data, vec!["a", "b"]);
    assert_eq!(observer.pushable, vec![]);
    observer.shut(&5);
    assert_eq!(observer.data, Vec::<&'static str>::new());
    assert_eq!(observer.pushable, vec![(5, vec!["a", "b"])]);
    observer.open(&7);
    observer.shut(&7);
    observer.open(&6);
    observer.push(&"c");
    observer.shut(&6);
    assert_eq!(observer.pushable, vec![(5, vec!["a", "b"]), (7, vec![]), (6, vec!["c"])]);
}

#[test]
fn a_pushable_observer_feeds_a_channel() {
    let (sender, mut receiver) = channel::<(u64, Vec<String>)>();
    let mut observer = PushableObserver::new(sender);
    observer.open(&3);
    observer.push(&"x".to_string());
    assert_eq!(receiver.pull(), None);
    observer.shut(&3);
    assert_eq!(receiver.pull(), Some((3, vec!["x".to_string()])));
    assert_eq!(receiver.pull(), None);
}
