//! Plain sinks and sources of values, and the observer that feeds a sink one
//! batch at a time.
use crate::communication::data::duplicate;
use crate::communication::data::Data;
use crate::communication::observer::Observer;
use std::sync::mpsc::Receiver;
use std::sync::mpsc::Sender;
use std::sync::mpsc::TryRecvError;
use vstd::prelude::*;

verus! {

/// A sink: something that takes values, one at a time.
pub trait Pushable<T> {
    /// How the sink may stand after it has taken `data`.
    spec fn pushed(&self, data: T, after: &Self) -> bool;

    /// Hands `data` to the sink.
    fn push(&mut self, data: T)
        ensures
            old(self).pushed(data, final(self)),
    ;
}

/// A source: something that yields values, one at a time, and never waits
/// for one.
pub trait Pullable<T> {
    /// How the source may stand after a pull, and what the pull may yield.
    spec fn pulled(&self, after: &Self, data: Option<T>) -> bool;

    /// Takes the next value, or `None` where none is ready.
    fn pull(&mut self) -> (data: Option<T>)
        ensures
            old(self).pulled(final(self), data),
    ;
}

/// A vector is a sink that appends.
impl<T> Pushable<T> for Vec<T> {
    open spec fn pushed(&self, data: T, after: &Self) -> bool {
        after@ == self@.push(data)
    }

    fn push(&mut self, data: T) {
        Vec::push(self, data);
    }
}

/// A vector is a source that yields what was appended last: values come out
/// in the reverse of the order in which they went in.
impl<T> Pullable<T> for Vec<T> {
    open spec fn pulled(&self, after: &Self, data: Option<T>) -> bool {
        if self@.len() == 0 {
            data is None && after@ == self@
        } else {
            data == Some(self@.last()) && after@ == self@.drop_last()
        }
    }

    fn pull(&mut self) -> (data: Option<T>) {
        self.pop()
    }
}

/// A boxed sink is the sink in the box.
impl<T, P: Pushable<T>> Pushable<T> for Box<P> {
    open spec fn pushed(&self, data: T, after: &Self) -> bool {
        (**self).pushed(data, &**after)
    }

    fn push(&mut self, data: T) {
        (**self).push(data);
    }
}

/// A boxed source is the source in the box.
impl<T, P: Pullable<T>> Pullable<T> for Box<P> {
    open spec fn pulled(&self, after: &Self, data: Option<T>) -> bool {
        (**self).pulled(&**after, data)
    }

    fn pull(&mut self) -> (data: Option<T>) {
        (**self).pull()
    }
}

/// The sending end of a channel between threads.
#[verifier::external_type_specification]
#[verifier::external_body]
#[verifier::reject_recursive_types(T)]
pub struct ExSender<T>(Sender<T>);

/// The receiving end of a channel between threads.
#[verifier::external_type_specification]
#[verifier::external_body]
#[verifier::reject_recursive_types(T)]
pub struct ExReceiver<T>(Receiver<T>);

/// The other end of a channel is gone.
#[derive(Clone, Copy, Debug, PartialEq, Eq, Structural)]
pub struct Closed;

/// `std::sync::mpsc::Sender::send`, which returns the value where it could
/// not be sent, as it can not once the receiving end is gone. Whether the
/// value is sent depends on the other threads, and nothing is claimed of
/// that. What is claimed is that a value that comes back is the one that
/// was handed in.
#[verifier::external_body]
fn channel_send<T>(sender: &Sender<T>, data: T) -> (sent: Result<(), T>)
    ensures
        sent matches Err(back) ==> back == data,
{
    sender.send(data).map_err(|refused| refused.0)
}

/// `std::sync::mpsc::Receiver::try_recv`, which does not wait. It yields a
/// value, or nothing while the channel is empty, or `Closed` once the
/// channel is empty and every sender is gone. Which of the three happens
/// depends on the other threads: nothing is claimed of the result.
#[verifier::external_body]
fn channel_try_recv<T>(receiver: &Receiver<T>) -> (got: Result<Option<T>, Closed>) {
    match receiver.try_recv() {
        Ok(data) => Ok(Some(data)),
        Err(TryRecvError::Empty) => Ok(None),
        Err(TryRecvError::Disconnected) => Err(Closed),
    }
}

/// Sends `data` down the channel, or hands it back where the receiving end
/// is gone: what comes back in `Err` is `data` itself, so that the caller
/// loses nothing and can tell a closed channel from an open one.
pub fn try_push<T>(sender: &Sender<T>, data: T) -> (sent: Result<(), T>)
    ensures
        sent matches Err(back) ==> back == data,
{
    channel_send(sender, data)
}

/// Takes the next value from the channel without waiting: `Ok(None)` says
/// that nothing is ready now, `Err(Closed)` that nothing will ever come.
pub fn try_pull<T>(receiver: &Receiver<T>) -> (got: Result<Option<T>, Closed>) {
    channel_try_recv(receiver)
}

/// What a pull makes of a look into a channel: the value that was ready,
/// and `None` both where the channel is empty and where it is closed.
pub fn ready_or_none<T>(got: Result<Option<T>, Closed>) -> (data: Option<T>)
    ensures
        data == match got {
            Ok(ready) => ready,
            Err(_) => None,
        },
{
    match got {
        Ok(ready) => ready,
        Err(_) => None,
    }
}

/// The sending end of a channel is a sink. What it takes may never arrive:
/// a value sent after the receiving end is gone is dropped.
impl<T> Pushable<T> for Sender<T> {
    open spec fn pushed(&self, data: T, after: &Self) -> bool {
        true
    }

    fn push(&mut self, data: T) {
        let _ = channel_send(self, data);
    }
}

/// The receiving end of a channel is a source. An empty channel and a
/// closed one both yield `None`: a sender that is slow is not an error.
impl<T> Pullable<T> for Receiver<T> {
    open spec fn pulled(&self, after: &Self, data: Option<T>) -> bool {
        true
    }

    fn pull(&mut self) -> (data: Option<T>) {
        ready_or_none(channel_try_recv(self))
    }
}

/// An observer that gathers the records of a batch and, when the batch is
/// shut, hands its time and records to a sink as one value.
pub struct PushableObserver<T, D, P> {
    /// The records of the open batch.
    pub data: Vec<D>,
    /// The sink that takes the batches.
    pub pushable: P,
    /// The time of the open batch, if one is open.
    pub time: Ghost<Option<T>>,
    /// The batches handed on so far, oldest first.
    pub log: Ghost<Seq<(T, Seq<D>)>>,
}

impl<T: Data, D: Data, P: Pushable<(T, Vec<D>)>> PushableObserver<T, D, P> {
    /// An observer in front of `pushable`, with no batch open.
    pub fn new(pushable: P) -> (observer: Self)
        ensures
            observer.inv(),
            observer.current() is None,
            observer.delivered() == Seq::<(T, Seq<D>)>::empty(),
            observer.pushable == pushable,
            observer.data@ == Seq::<D>::empty(),
    {
        PushableObserver {
            data: Vec::new(),
            pushable,
            time: Ghost(None),
            log: Ghost(Seq::empty()),
        }
    }
}

impl<T: Data, D: Data, P: Pushable<(T, Vec<D>)>> Observer for PushableObserver<T, D, P> {
    type Time = T;

    type Data = D;

    /// No records are held outside a batch.
    open spec fn inv(&self) -> bool {
        self.current() is None ==> self.data@.len() == 0
    }

    open spec fn current(&self) -> Option<(T, Seq<D>)> {
        match self.time@ {
            Some(time) => Some((time, self.data@)),
            None => None,
        }
    }

    open spec fn delivered(&self) -> Seq<(T, Seq<D>)> {
        self.log@
    }

    fn open(&mut self, time: &T)
        ensures
            final(self).pushable == old(self).pushable,
    {
        proof {
            self.time@ = Some(*time);
            assert(self.data@ =~= Seq::<D>::empty());
        }
    }

    fn push(&mut self, data: &D)
        ensures
            final(self).pushable == old(self).pushable,
    {
        self.data.push(duplicate(data));
    }

    /// Ends the batch and hands `(time, records)` to the sink, as one push.
    fn shut(&mut self, time: &T)
        ensures
            old(self).pushable.pushed((*time, old(self).data), &final(self).pushable),
            final(self).data@ == Seq::<D>::empty(),
    {
        let mut records: Vec<D> = Vec::new();
        std::mem::swap(&mut self.data, &mut records);
        proof {
            self.log@ = self.log@.push((*time, records@));
            self.time@ = None;
        }
        self.pushable.push((duplicate(time), records));
    }
}

} // verus!
