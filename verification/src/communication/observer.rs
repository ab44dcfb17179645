//! The sink through which timestamped records enter a vertex.
use vstd::prelude::*;

verus! {

/// A sink for batches of records. A batch is bracketed: `open` names its
/// time, `push` adds one record, and `shut` ends it under the time with
/// which it was opened. Brackets do not nest or interleave; a call out of
/// turn is ruled out by the preconditions.
pub trait Observer {
    /// The timestamps of the batches.
    type Time;

    /// The records.
    type Data;

    /// What the observer needs to hold of itself between calls.
    spec fn inv(&self) -> bool;

    /// The batch that is open, if one is: its time, and the records pushed
    /// so far.
    spec fn current(&self) -> Option<(Self::Time, Seq<Self::Data>)>;

    /// The batches that were shut, oldest first.
    spec fn delivered(&self) -> Seq<(Self::Time, Seq<Self::Data>)>;

    /// Begins a batch at `time`.
    fn open(&mut self, time: &Self::Time)
        requires
            old(self).inv(),
            old(self).current() is None,
        ensures
            final(self).inv(),
            final(self).current() == Some((*time, Seq::<Self::Data>::empty())),
            final(self).delivered() == old(self).delivered(),
    ;

    /// Adds one record to the open batch.
    fn push(&mut self, data: &Self::Data)
        requires
            old(self).inv(),
            old(self).current() is Some,
        ensures
            final(self).inv(),
            final(self).current() == Some(
                (old(self).current().unwrap().0, old(self).current().unwrap().1.push(*data)),
            ),
            final(self).delivered() == old(self).delivered(),
    ;

    /// Ends the batch that was opened at `time`.
    fn shut(&mut self, time: &Self::Time)
        requires
            old(self).inv(),
            old(self).current() is Some,
            old(self).current().unwrap().0 == *time,
        ensures
            final(self).inv(),
            final(self).current() is None,
            final(self).delivered() == old(self).delivered().push(old(self).current().unwrap()),
    ;
}

} // verus!
