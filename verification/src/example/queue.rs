//! A vertex that holds back the records of each time until no more of them
//! can arrive, and then sends them on as one batch.
use crate::communication::data::duplicate;
use crate::communication::data::Data;
use crate::communication::observer::Observer;
use crate::progress::count_map::any_leq;
use crate::progress::count_map::is_sparse;
use crate::progress::count_map::lemma_merged_empty;
use crate::progress::count_map::merged;
use crate::progress::count_map::updated;
use crate::progress::count_map::updated_all;
use crate::progress::count_map::CountMap;
use crate::progress::entries::as_map;
use crate::progress::entries::has_key;
use crate::progress::entries::keys_distinct;
use crate::progress::entries::lemma_as_map;
use crate::progress::entries::lemma_as_map_push;
use crate::progress::entries::lemma_as_map_remove;
use crate::progress::entries::lemma_as_map_update;
use crate::progress::entries::position;
use crate::progress::frontier::Antichain;
use crate::progress::order::same;
use crate::progress::scope::Scope;
use crate::progress::timestamp::PathSummary;
use crate::progress::timestamp::Timestamp;
use std::marker::PhantomData;
use vstd::prelude::*;

verus! {

/// A list of batches as plain values: each time with its records.
pub open spec fn batches<T, D>(list: Seq<(T, Vec<D>)>) -> Seq<(T, Seq<D>)> {
    list.map_values(|batch: (T, Vec<D>)| (batch.0, batch.1@))
}

/// The number of records in a list of batches.
pub open spec fn record_count<T, D>(list: Seq<(T, Seq<D>)>) -> nat
    decreases list.len(),
{
    if list.len() == 0 {
        0
    } else {
        record_count(list.drop_last()) + list.last().1.len()
    }
}

/// The records queued at `time`: none where the time has no queue.
pub open spec fn queue_at<T, D>(queued: Map<T, Seq<D>>, time: T) -> Seq<D> {
    if queued.contains_key(time) {
        queued[time]
    } else {
        Seq::empty()
    }
}

/// What taking the queue of `time` yields: the queue, or nothing where the
/// time has none.
pub open spec fn extracted<T, D>(queued: Map<T, Seq<D>>, time: T) -> Option<Seq<D>> {
    if queued.contains_key(time) {
        Some(queued[time])
    } else {
        None
    }
}

/// A queue is taken once: where the queue of `time` was taken, a second
/// attempt yields nothing.
pub proof fn lemma_extracted_once<T, D>(queued: Map<T, Seq<D>>, time: T)
    ensures
        extracted(queued.remove(time), time) is None,
        queued.remove(time).remove(time) == queued.remove(time),
{
    assert(queued.remove(time).remove(time) =~= queued.remove(time));
}

/// The records that a list of batches holds for `time`, in their order.
pub open spec fn records_at<T, D>(list: Seq<(T, Seq<D>)>, time: T) -> Seq<D>
    decreases list.len(),
{
    if list.len() == 0 {
        Seq::empty()
    } else if list.last().0 == time {
        records_at(list.drop_last(), time) + list.last().1
    } else {
        records_at(list.drop_last(), time)
    }
}

/// What a list with one more batch holds for a time.
proof fn lemma_records_at_push<T, D>(list: Seq<(T, Seq<D>)>, batch: (T, Seq<D>), time: T)
    ensures
        records_at(list.push(batch), time) == if batch.0 == time {
            records_at(list, time) + batch.1
        } else {
            records_at(list, time)
        },
{
    assert(list.push(batch).drop_last() =~= list);
}

/// What two lists hold for a time is what the one holds, then what the
/// other holds.
proof fn lemma_records_at_add<T, D>(first: Seq<(T, Seq<D>)>, second: Seq<(T, Seq<D>)>, time: T)
    ensures
        records_at(first + second, time) == records_at(first, time) + records_at(second, time),
    decreases second.len(),
{
    if second.len() == 0 {
        assert(first + second =~= first);
        assert(records_at(first, time) + records_at(second, time) =~= records_at(first, time));
    } else {
        lemma_records_at_add(first, second.drop_last(), time);
        assert((first + second).drop_last() =~= first + second.drop_last());
        assert((first + second).last() == second.last());
        if second.last().0 == time {
            assert(records_at(first + second, time) =~= records_at(first, time) + records_at(
                second,
                time,
            ));
        }
    }
}

/// A batch taken out of a list takes its records out of the count.
proof fn lemma_record_count_remove<T, D>(list: Seq<(T, Seq<D>)>, at: int)
    requires
        0 <= at < list.len(),
    ensures
        record_count(list) == record_count(list.remove(at)) + list[at].1.len(),
    decreases list.len(),
{
    if at == list.len() - 1 {
        assert(list.remove(at) =~= list.drop_last());
    } else {
        lemma_record_count_remove(list.drop_last(), at);
        assert(list.remove(at).drop_last() =~= list.drop_last().remove(at));
        assert(list.remove(at).last() == list.last());
    }
}

/// A batch changed in place changes the count by what it gained.
proof fn lemma_record_count_update<T, D>(list: Seq<(T, Seq<D>)>, at: int, batch: (T, Seq<D>))
    requires
        0 <= at < list.len(),
    ensures
        record_count(list.update(at, batch)) + list[at].1.len() == record_count(list)
            + batch.1.len(),
    decreases list.len(),
{
    if at == list.len() - 1 {
        assert(list.update(at, batch).drop_last() =~= list.drop_last());
    } else {
        lemma_record_count_update(list.drop_last(), at, batch);
        assert(list.update(at, batch).drop_last() =~= list.drop_last().update(at, batch));
        assert(list.update(at, batch).last() == list.last());
    }
}

/// The state of one input of a vertex: the records that have arrived, queued
/// by their time, and what has not yet been reported of them.
pub struct ScopeInputQueue<T, D> {
    consumed_messages: CountMap<T>,
    frontier_progress: CountMap<T>,
    queues: Vec<(T, Vec<D>)>,
    buffer: Vec<D>,
    time: Ghost<Option<T>>,
    log: Ghost<Seq<(T, Seq<D>)>>,
    handed: Ghost<Seq<(T, Seq<D>)>>,
}

impl<T: Timestamp, D: Data> ScopeInputQueue<T, D> {
    /// The messages taken in at each time and not yet reported.
    pub closed spec fn consumed(&self) -> Map<T, i64> {
        self.consumed_messages@
    }

    /// The times that came to hold records and were not yet reported as
    /// such: one up for each time that got the first record of a queue.
    pub closed spec fn frontier(&self) -> Map<T, i64> {
        self.frontier_progress@
    }

    /// The queue of each time that holds records, in their order of arrival.
    pub closed spec fn queued(&self) -> Map<T, Seq<D>> {
        as_map(batches(self.queues@))
    }

    /// The records of the batch that is open: none where no batch is.
    pub open spec fn buffered(&self) -> Seq<D> {
        match self.current() {
            Some(batch) => batch.1,
            None => Seq::empty(),
        }
    }

    /// The number of records in all the queues.
    pub closed spec fn stored(&self) -> nat {
        record_count(batches(self.queues@))
    }

    /// The queues that have left through `extract_queue`, oldest first.
    pub closed spec fn handed_out(&self) -> Seq<(T, Seq<D>)> {
        self.handed@
    }

    /// The representation is sound: each time has one queue, no queue is
    /// empty, nothing is buffered outside a batch, and the records that
    /// came in batches at a time are those that were handed out for it,
    /// then those in its queue.
    pub closed spec fn wf(&self) -> bool {
        &&& self.consumed_messages.wf()
        &&& self.frontier_progress.wf()
        &&& keys_distinct(batches(self.queues@))
        &&& forall|i: int| 0 <= i < self.queues@.len() ==> (#[trigger] self.queues@[i]).1@.len() > 0
        &&& self.time@ is None ==> self.buffer@.len() == 0
        &&& record_count(self.log@) == record_count(batches(self.queues@)) + record_count(
            self.handed@,
        )
        &&& forall|time: T| #[trigger]
            records_at(self.log@, time) == records_at(self.handed@, time) + queue_at(
                as_map(batches(self.queues@)),
                time,
            )
    }

    /// Whether `other` holds the same queues and reports as this state.
    pub open spec fn same_store(&self, other: &Self) -> bool {
        &&& other.consumed() == self.consumed()
        &&& other.frontier() == self.frontier()
        &&& other.queued() == self.queued()
        &&& other.stored() == self.stored()
        &&& other.handed_out() == self.handed_out()
    }

    /// Whether `after` is this state once its open batch was shut at `time`.
    /// An empty batch changes nothing. Otherwise the records of the batch
    /// are counted as consumed at `time` and join the queue of `time`; if
    /// that queue is new, the time is counted as one more that holds
    /// records.
    pub open spec fn shut_into(&self, time: T, after: &Self) -> bool {
        let records = self.buffered();
        &&& after.buffered() == Seq::<D>::empty()
        &&& after.handed_out() == self.handed_out()
        &&& after.stored() == self.stored() + records.len()
        &&& if records.len() > 0 {
            &&& after.consumed() == updated(self.consumed(), time, records.len() as i64)
            &&& after.frontier() == if self.queued().contains_key(time) {
                self.frontier()
            } else {
                updated(self.frontier(), time, 1)
            }
            &&& after.queued() == self.queued().insert(
                time,
                queue_at(self.queued(), time) + records,
            )
        } else {
            &&& after.consumed() == self.consumed()
            &&& after.frontier() == self.frontier()
            &&& after.queued() == self.queued()
        }
    }

    /// No queue is empty, and the count of the stored records is zero
    /// exactly where there is no queue.
    pub proof fn lemma_queues(&self)
        requires
            self.wf(),
        ensures
            forall|time: T| self.queued().contains_key(time) ==> (#[trigger] self.queued()[time]).len() > 0,
            self.stored() == 0 <==> self.queued() == Map::<T, Seq<D>>::empty(),
    {
        let list = batches(self.queues@);
        lemma_as_map(list);
        assert forall|time: T| self.queued().contains_key(time) implies (
        #[trigger] self.queued()[time]).len() > 0 by {
            let p = position(list, time);
            assert(list[p].1 == self.queues@[p].1@);
        }
        if list.len() == 0 {
            assert(self.queued() =~= Map::<T, Seq<D>>::empty());
        } else {
            let last = list.len() - 1;
            assert(self.queued().contains_key(list[last].0));
            assert(list[last].1 == self.queues@[last].1@);
        }
    }

    /// Every record that came in with a batch is in a queue or was handed
    /// out: the records that came in at a time are those handed out for
    /// it, then those in its queue.
    pub proof fn lemma_accounted(&self, time: T)
        requires
            self.wf(),
        ensures
            record_count(self.delivered()) == self.stored() + record_count(self.handed_out()),
            records_at(self.delivered(), time) == records_at(self.handed_out(), time) + queue_at(
                self.queued(),
                time,
            ),
    {
    }

    /// A second drain yields nothing: once the reports were pulled, what
    /// another pull adds to the caller's accumulators leaves them as they
    /// are.
    pub proof fn lemma_drained(&self, consumed: Map<T, i64>, progress: Map<T, i64>)
        requires
            self.consumed() == Map::<T, i64>::empty(),
            self.frontier() == Map::<T, i64>::empty(),
            is_sparse(consumed),
            is_sparse(progress),
        ensures
            merged(consumed, self.consumed()) == consumed,
            merged(progress, self.frontier()) == progress,
    {
        lemma_merged_empty(consumed);
        lemma_merged_empty(progress);
    }

    /// A state that holds nothing.
    pub fn new_shared() -> (input: Self)
        ensures
            input.wf(),
            input.consumed() == Map::<T, i64>::empty(),
            input.frontier() == Map::<T, i64>::empty(),
            input.queued() == Map::<T, Seq<D>>::empty(),
            input.buffered() == Seq::<D>::empty(),
            input.stored() == 0,
            input.handed_out() == Seq::<(T, Seq<D>)>::empty(),
            input.current() is None,
            input.delivered() == Seq::<(T, Seq<D>)>::empty(),
    {
        let input = ScopeInputQueue {
            consumed_messages: CountMap::new(),
            frontier_progress: CountMap::new(),
            queues: Vec::new(),
            buffer: Vec::new(),
            time: Ghost(None),
            log: Ghost(Seq::empty()),
            handed: Ghost(Seq::empty()),
        };
        proof {
            assert(input.queued() =~= Map::<T, Seq<D>>::empty());
            assert forall|time: T| #[trigger]
                records_at(input.log@, time) == records_at(input.handed@, time) + queue_at(
                    as_map(batches(input.queues@)),
                    time,
                ) by {
                assert(records_at(input.log@, time) =~= records_at(input.handed@, time)
                    + queue_at(as_map(batches(input.queues@)), time));
            }
        }
        input
    }

    /// Where the queue of `time` stands in the list, if it has one.
    fn find(&self, time: &T) -> (at: Option<usize>)
        ensures
            match at {
                Some(i) => i < self.queues@.len() && self.queues@[i as int].0 == *time,
                None => !has_key(batches(self.queues@), *time),
            },
    {
        let mut i: usize = 0;
        while i < self.queues.len()
            invariant
                i <= self.queues.len(),
                forall|j: int| 0 <= j < i ==> (#[trigger] self.queues@[j]).0 != *time,
            decreases self.queues.len() - i,
        {
            if same(&self.queues[i].0, time) {
                return Some(i);
            }
            i += 1;
        }
        proof {
            let list = batches(self.queues@);
            assert forall|j: int| 0 <= j < list.len() implies (#[trigger] list[j]).0 != *time by {
                assert(list[j].0 == self.queues@[j].0);
            }
        }
        None
    }

    /// Moves the reports that are due into the caller's accumulators:
    /// `consumed` takes the messages taken in, `progress` the changes of the
    /// set of times that hold records. Nothing is left to report.
    pub fn pull_progress(&mut self, consumed: &mut CountMap<T>, progress: &mut CountMap<T>)
        requires
            old(self).wf(),
            old(consumed).wf(),
            old(progress).wf(),
        ensures
            final(self).wf(),
            final(consumed).wf(),
            final(progress).wf(),
            final(consumed)@ == merged(old(consumed)@, old(self).consumed()),
            final(progress)@ == merged(old(progress)@, old(self).frontier()),
            final(self).consumed() == Map::<T, i64>::empty(),
            final(self).frontier() == Map::<T, i64>::empty(),
            final(self).queued() == old(self).queued(),
            final(self).stored() == old(self).stored(),
            final(self).handed_out() == old(self).handed_out(),
            final(self).buffered() == old(self).buffered(),
            final(self).current() == old(self).current(),
            final(self).delivered() == old(self).delivered(),
    {
        self.consumed_messages.drain_into(consumed);
        self.frontier_progress.drain_into(progress);
    }

    /// Takes the queue of `time` away and returns it, or `None` where the
    /// time has no queue: a queue can be taken once.
    pub fn extract_queue(&mut self, time: &T) -> (queue: Option<Vec<D>>)
        requires
            old(self).wf(),
        ensures
            final(self).wf(),
            match queue {
                Some(records) => extracted(old(self).queued(), *time) == Some(records@),
                None => extracted(old(self).queued(), *time) is None,
            },
            final(self).queued() == old(self).queued().remove(*time),
            final(self).stored() + queue_at(old(self).queued(), *time).len() == old(self).stored(),
            final(self).handed_out() == match queue {
                Some(records) => old(self).handed_out().push((*time, records@)),
                None => old(self).handed_out(),
            },
            final(self).consumed() == old(self).consumed(),
            final(self).frontier() == old(self).frontier(),
            final(self).buffered() == old(self).buffered(),
            final(self).current() == old(self).current(),
            final(self).delivered() == old(self).delivered(),
    {
        let ghost before = batches(self.queues@);
        proof {
            lemma_as_map(before);
        }
        match self.find(time) {
            Some(i) => {
                let entry = self.queues.remove(i);
                proof {
                    assert(batches(self.queues@) =~= before.remove(i as int));
                    assert(before[i as int] == (entry.0, entry.1@));
                    lemma_as_map_remove(before, i as int);
                    lemma_record_count_remove(before, i as int);
                    let ghost handed = self.handed@;
                    self.handed@ = handed.push((*time, entry.1@));
                    assert(handed.push((*time, entry.1@)).drop_last() =~= handed);
                    lemma_as_map(before);
                    assert forall|t: T| #[trigger]
                        records_at(self.log@, t) == records_at(self.handed@, t) + queue_at(
                            as_map(batches(self.queues@)),
                            t,
                        ) by {
                        lemma_records_at_push(handed, (*time, entry.1@), t);
                        assert(records_at(old(self).log@, t) == records_at(handed, t) + queue_at(
                            as_map(before),
                            t,
                        ));
                        assert(records_at(self.log@, t) =~= records_at(self.handed@, t)
                            + queue_at(as_map(batches(self.queues@)), t));
                    }
                }
                Some(entry.1)
            },
            None => {
                proof {
                    assert(self.queued().remove(*time) =~= self.queued());
                }
                None
            },
        }
    }

    /// The times that hold records, each once, in no particular order.
    pub fn times(&self) -> (list: Vec<T>)
        requires
            self.wf(),
        ensures
            forall|i: int, j: int| 0 <= i < j < list@.len() ==> list@[i] != list@[j],
            forall|i: int| 0 <= i < list@.len() ==> self.queued().contains_key(#[trigger] list@[i]),
            forall|time: T| self.queued().contains_key(time) ==> list@.contains(time),
    {
        let ghost all = batches(self.queues@);
        proof {
            lemma_as_map(all);
        }
        let mut list: Vec<T> = Vec::new();
        let mut i: usize = 0;
        while i < self.queues.len()
            invariant
                i <= self.queues.len(),
                list@.len() == i,
                forall|j: int| 0 <= j < i ==> (#[trigger] list@[j]) == self.queues@[j].0,
            decreases self.queues.len() - i,
        {
            list.push(duplicate(&self.queues[i].0));
            i += 1;
        }
        proof {
            assert forall|a: int, b: int| 0 <= a < b < list@.len() implies list@[a] != list@[b] by {
                assert(all[a].0 == list@[a]);
                assert(all[b].0 == list@[b]);
            }
            assert forall|a: int| 0 <= a < list@.len() implies self.queued().contains_key(
                #[trigger] list@[a],
            ) by {
                assert(all[a].0 == list@[a]);
            }
            assert forall|time: T| self.queued().contains_key(time) implies list@.contains(
                time,
            ) by {
                let p = position(all, time);
                assert(list@[p] == time);
            }
        }
        list
    }

    /// The queue of `time`, if the time holds records.
    pub fn queue(&self, time: &T) -> (queue: Option<&Vec<D>>)
        requires
            self.wf(),
        ensures
            match queue {
                Some(records) => self.queued().contains_key(*time) && records@
                    == self.queued()[*time],
                None => !self.queued().contains_key(*time),
            },
    {
        proof {
            lemma_as_map(batches(self.queues@));
        }
        match self.find(time) {
            Some(i) => {
                proof {
                    assert(batches(self.queues@)[i as int] == (*time, self.queues@[i as int].1@));
                }
                Some(&self.queues[i].1)
            },
            None => None,
        }
    }
}

impl<T: Timestamp, D: Data> Observer for ScopeInputQueue<T, D> {
    type Time = T;

    type Data = D;

    open spec fn inv(&self) -> bool {
        self.wf()
    }

    closed spec fn current(&self) -> Option<(T, Seq<D>)> {
        match self.time@ {
            Some(time) => Some((time, self.buffer@)),
            None => None,
        }
    }

    closed spec fn delivered(&self) -> Seq<(T, Seq<D>)> {
        self.log@
    }

    fn open(&mut self, time: &T)
        ensures
            old(self).same_store(final(self)),
    {
        proof {
            self.time@ = Some(*time);
            assert(self.buffer@ =~= Seq::<D>::empty());
        }
    }

    fn push(&mut self, data: &D)
        ensures
            old(self).same_store(final(self)),
            final(self).buffered() == old(self).buffered().push(*data),
    {
        self.buffer.push(duplicate(data));
    }

    /// Ends the batch: its records are counted and queued under `time`.
    fn shut(&mut self, time: &T)
        ensures
            old(self).shut_into(*time, final(self)),
    {
        let ghost before = batches(self.queues@);
        let ghost records = self.buffer@;
        proof {
            lemma_as_map(before);
        }
        let len = self.buffer.len();
        if len > 0 {
            self.consumed_messages.update(time, #[verifier::truncate] (len as i64));
            let at = match self.find(time) {
                Some(i) => i,
                None => {
                    self.queues.push((duplicate(time), Vec::new()));
                    self.frontier_progress.update(time, 1);
                    proof {
                        assert(batches(self.queues@) =~= before.push((*time, Seq::<D>::empty())));
                        lemma_as_map_push(before, *time, Seq::<D>::empty());
                        assert(before.push((*time, Seq::<D>::empty())).drop_last() =~= before);
                    }
                    self.queues.len() - 1
                },
            };
            let ghost middle = batches(self.queues@);
            self.queues[at].1.append(&mut self.buffer);
            proof {
                let after = batches(self.queues@);
                let joined = middle[at as int].1 + records;
                assert(after =~= middle.update(at as int, (*time, joined)));
                lemma_as_map_update(middle, at as int, joined);
                lemma_record_count_update(middle, at as int, (*time, joined));
                lemma_as_map(middle);
                assert(as_map(after) =~= as_map(before).insert(
                    *time,
                    queue_at(as_map(before), *time) + records,
                ));
                assert forall|i: int| 0 <= i < self.queues@.len() implies (
                #[trigger] self.queues@[i]).1@.len() > 0 by {
                    if i != at {
                        if i < old(self).queues@.len() {
                            assert(self.queues@[i] == old(self).queues@[i]);
                        }
                    }
                }
            }
        }
        proof {
            self.log@ = self.log@.push((*time, records));
            self.time@ = None;
            assert(self.buffer@ =~= Seq::<D>::empty());
            assert(self.log@.drop_last() =~= old(self).log@);
            assert forall|t: T| #[trigger]
                records_at(self.log@, t) == records_at(self.handed@, t) + queue_at(
                    as_map(batches(self.queues@)),
                    t,
                ) by {
                lemma_records_at_push(old(self).log@, (*time, records), t);
                assert(records_at(old(self).log@, t) == records_at(self.handed@, t) + queue_at(
                    as_map(before),
                    t,
                ));
                assert(records_at(self.log@, t) =~= records_at(self.handed@, t) + queue_at(
                    as_map(batches(self.queues@)),
                    t,
                ));
            }
        }
    }
}

/// The times that a guarantee lets go: those with no time of the guarantee
/// at or before them. No record can still arrive at such a time.
pub open spec fn releasable<T: Timestamp>(guarantee: Map<T, i64>) -> Set<T> {
    Set::new(|time: T| !any_leq(guarantee, time))
}

/// The times that a guarantee holds back: those that are not releasable.
pub open spec fn held_back<T: Timestamp>(guarantee: Map<T, i64>) -> Set<T> {
    Set::new(|time: T| any_leq(guarantee, time))
}

/// For each batch, the update that reports its records as produced.
pub open spec fn productions<T, D>(list: Seq<(T, Seq<D>)>) -> Seq<(T, i64)> {
    list.map_values(|batch: (T, Seq<D>)| (batch.0, batch.1.len() as i64))
}

/// For each batch, the update that retires its time.
pub open spec fn retirements<T, D>(list: Seq<(T, Seq<D>)>) -> Seq<(T, i64)> {
    list.map_values(|batch: (T, Seq<D>)| (batch.0, -1i64))
}

/// The sum of the deltas of a list of updates, as a plain number.
pub open spec fn delta_total<T>(updates: Seq<(T, i64)>) -> int
    decreases updates.len(),
{
    if updates.len() == 0 {
        0
    } else {
        delta_total(updates.drop_last()) + updates.last().1
    }
}

/// The deltas that report a list of batches as produced add up to the
/// number of records in the batches.
pub proof fn lemma_productions_total<T, D>(list: Seq<(T, Seq<D>)>)
    requires
        forall|i: int| 0 <= i < list.len() ==> (#[trigger] list[i]).1.len() <= i64::MAX,
    ensures
        delta_total(productions(list)) == record_count(list),
    decreases list.len(),
{
    if list.len() > 0 {
        let rest = list.drop_last();
        assert forall|i: int| 0 <= i < rest.len() implies (#[trigger] rest[i]).1.len()
            <= i64::MAX by {
            assert(rest[i] == list[i]);
        }
        lemma_productions_total(rest);
        assert(productions(list).drop_last() =~= productions(rest));
        assert(list[list.len() - 1].1.len() <= i64::MAX);
    }
}

/// The records of two lists of batches are those of the one and those of
/// the other.
proof fn lemma_record_count_add<T, D>(first: Seq<(T, Seq<D>)>, second: Seq<(T, Seq<D>)>)
    ensures
        record_count(first + second) == record_count(first) + record_count(second),
    decreases second.len(),
{
    if second.len() == 0 {
        assert(first + second =~= first);
    } else {
        lemma_record_count_add(first, second.drop_last());
        assert((first + second).drop_last() =~= first + second.drop_last());
        assert((first + second).last() == second.last());
    }
}

/// The first `count` times of a list, as a set.
spec fn taken<T>(times: Seq<T>, count: int) -> Set<T> {
    Set::new(|time: T| exists|j: int| 0 <= j < count && times[j] == time)
}

/// The first `count` times of a list, each with its queue.
spec fn taken_batches<T, D>(queued: Map<T, Seq<D>>, times: Seq<T>, count: int) -> Seq<
    (T, Seq<D>),
> {
    Seq::new(count as nat, |j: int| (times[j], queued[times[j]]))
}

/// A vertex with one input and one output that queues what arrives, time by
/// time, and sends the queue of a time on once the guarantee at its input
/// shows that the time is complete. Records enter through the vertex as an
/// observer; batches leave through `output`.
pub struct QueueScope<T, S, D, O> {
    input: ScopeInputQueue<T, D>,
    output: O,
    to_send: Vec<(T, Vec<D>)>,
    guarantee: CountMap<T>,
    emitted: Ghost<Seq<(T, Seq<D>)>>,
    sent_before: Ghost<Seq<(T, Seq<D>)>>,
    summary: PhantomData<S>,
}

impl<T, S, D, O> QueueScope<T, S, D, O> where
    T: Timestamp,
    S: PathSummary<T>,
    D: Data,
    O: Observer<Time = T, Data = D>,
 {
    /// The state of the input.
    pub closed spec fn input(&self) -> ScopeInputQueue<T, D> {
        self.input
    }

    /// The observer at the output.
    pub closed spec fn output(&self) -> O {
        self.output
    }

    /// The batches that were released and wait to be sent.
    pub closed spec fn pending(&self) -> Seq<(T, Seq<D>)> {
        batches(self.to_send@)
    }

    /// The times at which records may still arrive at the input, as far as
    /// the vertex was told.
    pub closed spec fn guarantee(&self) -> Map<T, i64> {
        self.guarantee@
    }

    /// The batches sent through the output so far, oldest first.
    pub closed spec fn emitted(&self) -> Seq<(T, Seq<D>)> {
        self.emitted@
    }

    /// The batches that the output had taken before the vertex got it.
    pub closed spec fn sent_before(&self) -> Seq<(T, Seq<D>)> {
        self.sent_before@
    }

    /// The vertex is sound: so are its parts, the output has no batch open,
    /// the queues that left the input are the batches that were sent, then
    /// those that wait, and the output has taken the batches that were
    /// sent, in their order.
    pub closed spec fn wf(&self) -> bool {
        &&& self.input.wf()
        &&& self.guarantee.wf()
        &&& self.output.inv()
        &&& self.output.current() is None
        &&& self.input.handed_out() == self.emitted@ + batches(self.to_send@)
        &&& self.output.delivered() == self.sent_before@ + self.emitted@
    }

    /// Whether `other` differs from this vertex in its input alone.
    pub open spec fn same_but_input(&self, other: &Self) -> bool {
        &&& other.output() == self.output()
        &&& other.pending() == self.pending()
        &&& other.guarantee() == self.guarantee()
        &&& other.emitted() == self.emitted()
        &&& other.sent_before() == self.sent_before()
    }

    /// No record is lost, none is made and none changes its place: the
    /// records that came in at a time are those that were sent for it, then
    /// those that wait to be sent, then those in its queue; and what was
    /// sent is what the output has taken since the vertex got it. So as
    /// many records came in as are queued, wait, or were sent.
    pub proof fn lemma_conservation(&self, time: T)
        requires
            self.wf(),
        ensures
            self.input().wf(),
            records_at(self.input().delivered(), time) == records_at(self.emitted(), time)
                + records_at(self.pending(), time) + queue_at(self.input().queued(), time),
            self.output().delivered() == self.sent_before() + self.emitted(),
            record_count(self.input().delivered()) == self.input().stored() + record_count(
                self.pending(),
            ) + record_count(self.emitted()),
    {
        self.input.lemma_accounted(time);
        lemma_records_at_add(self.emitted@, batches(self.to_send@), time);
        lemma_record_count_add(self.emitted@, batches(self.to_send@));
    }

    /// Once every queue is released and every batch sent, the records that
    /// were sent for a time are those that came in at it, in their order:
    /// each record was sent once.
    pub proof fn lemma_all_sent(&self, time: T)
        requires
            self.wf(),
            self.input().queued() == Map::<T, Seq<D>>::empty(),
            self.pending() == Seq::<(T, Seq<D>)>::empty(),
        ensures
            records_at(self.emitted(), time) == records_at(self.input().delivered(), time),
            record_count(self.emitted()) == record_count(self.input().delivered()),
            self.output().delivered() == self.sent_before() + self.emitted(),
    {
        self.lemma_conservation(time);
        self.input.lemma_queues();
        assert(records_at(self.emitted(), time) =~= records_at(self.emitted(), time)
            + records_at(self.pending(), time) + queue_at(self.input().queued(), time));
    }

    /// A vertex that holds nothing and sends to `output`.
    pub fn new(output: O) -> (scope: Self)
        requires
            output.inv(),
            output.current() is None,
        ensures
            scope.wf(),
            scope.output() == output,
            scope.pending() == Seq::<(T, Seq<D>)>::empty(),
            scope.guarantee() == Map::<T, i64>::empty(),
            scope.emitted() == Seq::<(T, Seq<D>)>::empty(),
            scope.sent_before() == output.delivered(),
            scope.input().queued() == Map::<T, Seq<D>>::empty(),
            scope.input().consumed() == Map::<T, i64>::empty(),
            scope.input().frontier() == Map::<T, i64>::empty(),
            scope.input().buffered() == Seq::<D>::empty(),
            scope.input().current() is None,
            scope.input().delivered() == Seq::<(T, Seq<D>)>::empty(),
    {
        let scope = QueueScope {
            input: ScopeInputQueue::new_shared(),
            output,
            to_send: Vec::new(),
            guarantee: CountMap::new(),
            emitted: Ghost(Seq::empty()),
            sent_before: Ghost(output.delivered()),
            summary: PhantomData,
        };
        proof {
            assert(scope.pending() =~= Seq::<(T, Seq<D>)>::empty());
            assert(scope.input.handed_out() =~= scope.emitted@ + batches(scope.to_send@));
            assert(scope.output.delivered() =~= scope.sent_before@ + scope.emitted@);
        }
        scope
    }

    /// The state of the input.
    pub fn input_queue(&self) -> (input: &ScopeInputQueue<T, D>)
        ensures
            *input == self.input(),
    {
        &self.input
    }

    /// The observer at the output.
    pub fn output_observer(&self) -> (output: &O)
        ensures
            *output == self.output(),
    {
        &self.output
    }

    /// The batches that were released and wait to be sent.
    pub fn to_send(&self) -> (list: &Vec<(T, Vec<D>)>)
        ensures
            batches(list@) == self.pending(),
    {
        &self.to_send
    }

    /// The guarantee at the input.
    pub fn guarantee_counts(&self) -> (counts: &CountMap<T>)
        ensures
            counts@ == self.guarantee(),
            self.wf() ==> counts.wf(),
    {
        &self.guarantee
    }
}

/// Records enter the vertex as they enter its input.
impl<T, S, D, O> Observer for QueueScope<T, S, D, O> where
    T: Timestamp,
    S: PathSummary<T>,
    D: Data,
    O: Observer<Time = T, Data = D>,
 {
    type Time = T;

    type Data = D;

    open spec fn inv(&self) -> bool {
        self.wf()
    }

    open spec fn current(&self) -> Option<(T, Seq<D>)> {
        self.input().current()
    }

    open spec fn delivered(&self) -> Seq<(T, Seq<D>)> {
        self.input().delivered()
    }

    fn open(&mut self, time: &T)
        ensures
            old(self).same_but_input(final(self)),
            old(self).input().same_store(&final(self).input()),
    {
        self.input.open(time);
    }

    fn push(&mut self, data: &D)
        ensures
            old(self).same_but_input(final(self)),
            old(self).input().same_store(&final(self).input()),
            final(self).input().buffered() == old(self).input().buffered().push(*data),
    {
        self.input.push(data);
    }

    fn shut(&mut self, time: &T)
        ensures
            old(self).same_but_input(final(self)),
            old(self).input().shut_into(*time, &final(self).input()),
    {
        self.input.shut(time);
    }
}

impl<T, S, D, O> Scope<T, S> for QueueScope<T, S, D, O> where
    T: Timestamp,
    S: PathSummary<T>,
    D: Data,
    O: Observer<Time = T, Data = D>,
 {
    open spec fn inv(&self) -> bool {
        self.wf()
    }

    open spec fn input_count(&self) -> u64 {
        1
    }

    open spec fn output_count(&self) -> u64 {
        1
    }

    fn inputs(&self) -> (n: u64) {
        1
    }

    fn outputs(&self) -> (n: u64) {
        1
    }

    fn name(&self) -> (name: String)
        ensures
            name@ == "Queue"@,
    {
        "Queue".to_owned()
    }

    /// Takes the frontier of the one input as the first guarantee.
    fn set_external_summary(
        &mut self,
        summaries: Vec<Vec<Antichain<S>>>,
        frontier: &Vec<Vec<(T, i64)>>,
    )
        ensures
            final(self).guarantee() == updated_all(old(self).guarantee(), frontier@[0]@),
            final(self).input() == old(self).input(),
            final(self).output() == old(self).output(),
            final(self).pending() == old(self).pending(),
            final(self).emitted() == old(self).emitted(),
            final(self).sent_before() == old(self).sent_before(),
    {
        self.guarantee.update_all(&frontier[0]);
    }

    /// Adds the changes at the one input to the guarantee, and releases
    /// every queue whose time the guarantee no longer holds back: the queue
    /// leaves the input and waits, as a batch, to be sent. A queue is never
    /// released while the guarantee counts a time at or before its own.
    fn push_external_progress(&mut self, external: &Vec<Vec<(T, i64)>>)
        ensures
            final(self).guarantee() == updated_all(old(self).guarantee(), external@[0]@),
            final(self).input().queued() == old(self).input().queued().restrict(
                held_back(final(self).guarantee()),
            ),
            final(self).pending().len() >= old(self).pending().len(),
            final(self).pending().take(old(self).pending().len() as int) == old(self).pending(),
            keys_distinct(final(self).pending().skip(old(self).pending().len() as int)),
            as_map(final(self).pending().skip(old(self).pending().len() as int)) == old(
                self,
            ).input().queued().restrict(releasable(final(self).guarantee())),
            forall|i: int|
                old(self).pending().len() <= i < final(self).pending().len() ==> !any_leq(
                    final(self).guarantee(),
                    (#[trigger] final(self).pending()[i]).0,
                ),
            final(self).input().consumed() == old(self).input().consumed(),
            final(self).input().frontier() == old(self).input().frontier(),
            final(self).input().buffered() == old(self).input().buffered(),
            final(self).input().current() == old(self).input().current(),
            final(self).input().delivered() == old(self).input().delivered(),
            final(self).output() == old(self).output(),
            final(self).emitted() == old(self).emitted(),
            final(self).sent_before() == old(self).sent_before(),
    {
        self.guarantee.update_all(&external[0]);
        let times = self.input.times();
        let ghost queued = self.input.queued();
        let ghost sent = batches(self.to_send@);
        let ghost start = *self;
        let mut sendable: Vec<T> = Vec::new();
        let mut i: usize = 0;
        while i < times.len()
            invariant
                i <= times.len(),
                *self == start,
                self.guarantee.wf(),
                forall|a: int, b: int| 0 <= a < b < times@.len() ==> times@[a] != times@[b],
                forall|a: int, b: int| 0 <= a < b < sendable@.len() ==> sendable@[a] != sendable@[b],
                forall|a: int|
                    0 <= a < sendable@.len() ==> !any_leq(self.guarantee@, #[trigger] sendable@[a])
                        && exists|k: int| 0 <= k < i && times@[k] == sendable@[a],
                forall|k: int|
                    0 <= k < i && !any_leq(self.guarantee@, #[trigger] times@[k])
                        ==> sendable@.contains(times@[k]),
            decreases times.len() - i,
        {
            if !self.guarantee.any_leq(&times[i]) {
                let ghost before = sendable@;
                sendable.push(duplicate(&times[i]));
                proof {
                    assert forall|k: int|
                        0 <= k < i + 1 && !any_leq(
                            self.guarantee@,
                            #[trigger] times@[k],
                        ) implies sendable@.contains(times@[k]) by {
                        if k < i {
                            let a = choose|a: int| 0 <= a < before.len() && before[a] == times@[k];
                            assert(sendable@[a] == times@[k]);
                        } else {
                            assert(sendable@[before.len() as int] == times@[k]);
                        }
                    }
                    assert forall|a: int, b: int| 0 <= a < b < sendable@.len() implies sendable@[a]
                        != sendable@[b] by {
                        if b == before.len() {
                            assert(sendable@[a] == before[a]);
                            let k = choose|k: int| 0 <= k < i && times@[k] == before[a];
                        } else {
                            assert(sendable@[a] == before[a]);
                            assert(sendable@[b] == before[b]);
                        }
                    }
                    assert forall|a: int| 0 <= a < sendable@.len() implies !any_leq(
                        self.guarantee@,
                        #[trigger] sendable@[a],
                    ) && exists|k: int| 0 <= k < i + 1 && times@[k] == sendable@[a] by {
                        if a < before.len() {
                            assert(sendable@[a] == before[a]);
                            let k = choose|k: int| 0 <= k < i && times@[k] == before[a];
                            assert(times@[k] == sendable@[a]);
                        } else {
                            assert(times@[i as int] == sendable@[a]);
                        }
                    }
                }
            }
            i += 1;
        }
        let mut k: usize = 0;
        proof {
            assert(self.input.queued() =~= queued.remove_keys(taken(sendable@, 0)));
            assert(batches(self.to_send@) =~= sent + taken_batches(queued, sendable@, 0));
            assert forall|a: int| 0 <= a < sendable@.len() implies queued.contains_key(
                #[trigger] sendable@[a],
            ) by {
                let k = choose|k: int| 0 <= k < times@.len() && times@[k] == sendable@[a];
                assert(queued.contains_key(times@[k]));
            }
            assert forall|time: T|
                queued.contains_key(time) && !any_leq(
                    self.guarantee@,
                    time,
                ) implies sendable@.contains(time) by {
                assert(times@.contains(time));
                let a = choose|a: int| 0 <= a < times@.len() && times@[a] == time;
                assert(!any_leq(self.guarantee@, times@[a]));
                assert(sendable@.contains(times@[a]));
            }
        }
        while k < sendable.len()
            invariant
                k <= sendable.len(),
                self.input.wf(),
                self.guarantee == start.guarantee,
                forall|a: int|
                    0 <= a < sendable@.len() ==> !any_leq(
                        start.guarantee@,
                        #[trigger] sendable@[a],
                    ),
                forall|time: T|
                    queued.contains_key(time) && !any_leq(start.guarantee@, time)
                        ==> sendable@.contains(time),
                self.input.queued() == queued.remove_keys(taken(sendable@, k as int)),
                batches(self.to_send@) == sent + taken_batches(queued, sendable@, k as int),
                self.input.handed_out() == self.emitted@ + batches(self.to_send@),
                self.emitted@ == old(self).emitted@,
                self.sent_before@ == old(self).sent_before@,
                self.output == old(self).output,
                self.input.consumed() == old(self).input.consumed(),
                self.input.frontier() == old(self).input.frontier(),
                self.input.buffered() == old(self).input.buffered(),
                self.input.current() == old(self).input.current(),
                self.input.delivered() == old(self).input.delivered(),
                forall|a: int, b: int| 0 <= a < b < sendable@.len() ==> sendable@[a] != sendable@[b],
                forall|a: int| 0 <= a < sendable@.len() ==> queued.contains_key(#[trigger] sendable@[a]),
            decreases sendable.len() - k,
        {
            let ghost before = batches(self.to_send@);
            proof {
                assert(!taken(sendable@, k as int).contains(sendable@[k as int]));
                assert(self.input.queued().contains_key(sendable@[k as int]));
            }
            let data = self.input.extract_queue(&sendable[k]).unwrap();
            self.to_send.push((duplicate(&sendable[k]), data));
            proof {
                let batch = (sendable@[k as int], data@);
                assert(batches(self.to_send@) =~= before.push(batch));
                assert(self.input.handed_out() =~= self.emitted@ + batches(self.to_send@));
                assert(batches(self.to_send@) =~= sent + taken_batches(
                    queued,
                    sendable@,
                    k as int + 1,
                ));
                assert forall|time: T|
                    taken(sendable@, k as int + 1).contains(time) <==> (taken(
                        sendable@,
                        k as int,
                    ).contains(time) || time == sendable@[k as int]) by {
                    if taken(sendable@, k as int).contains(time) {
                        let j = choose|j: int| 0 <= j < k && sendable@[j] == time;
                        assert(0 <= j < k + 1 && sendable@[j] == time);
                    }
                    if time == sendable@[k as int] {
                        assert(0 <= k < k + 1 && sendable@[k as int] == time);
                    }
                }
                assert(self.input.queued() =~= queued.remove_keys(taken(sendable@, k as int + 1)));
            }
            k += 1;
        }
        proof {
            let guarantee = self.guarantee@;
            let released = taken_batches(queued, sendable@, sendable@.len() as int);
            let all = batches(self.to_send@);
            assert(all.take(sent.len() as int) =~= sent);
            assert(all.skip(sent.len() as int) =~= released);
            assert forall|time: T|
                taken(sendable@, sendable@.len() as int).contains(time) <==> (queued.contains_key(
                    time,
                ) && !any_leq(guarantee, time)) by {
                if taken(sendable@, sendable@.len() as int).contains(time) {
                    let j = choose|j: int| 0 <= j < sendable@.len() && sendable@[j] == time;
                    assert(!any_leq(guarantee, sendable@[j]));
                }
                if queued.contains_key(time) && !any_leq(guarantee, time) {
                    assert(sendable@.contains(time));
                    let j = choose|j: int| 0 <= j < sendable@.len() && sendable@[j] == time;
                }
            }
            assert(self.input.queued() =~= queued.restrict(held_back(guarantee)));
            assert forall|a: int, b: int|
                #![trigger released[a], released[b]]
                0 <= a < b < released.len() implies released[a].0 != released[b].0 by {
                assert(released[a].0 == sendable@[a]);
                assert(released[b].0 == sendable@[b]);
            }
            lemma_as_map(released);
            assert forall|time: T| as_map(released).contains_key(time) <==> (queued.contains_key(
                time,
            ) && !any_leq(guarantee, time)) by {
                if has_key(released, time) {
                    let j = choose|j: int| 0 <= j < released.len() && (#[trigger] released[j]).0 == time;
                    assert(sendable@[j] == time);
                    assert(taken(sendable@, sendable@.len() as int).contains(time));
                }
                if queued.contains_key(time) && !any_leq(guarantee, time) {
                    assert(taken(sendable@, sendable@.len() as int).contains(time));
                    let j = choose|j: int| 0 <= j < sendable@.len() && sendable@[j] == time;
                    assert(released[j].0 == time);
                }
            }
            assert forall|time: T| as_map(released).contains_key(time) implies as_map(
                released,
            )[time] == queued[time] by {
                let j = choose|j: int| 0 <= j < released.len() && (#[trigger] released[j]).0 == time;
                assert(as_map(released)[released[j].0] == released[j].1);
            }
            assert(as_map(released) =~= queued.restrict(releasable(guarantee)));
            assert forall|i: int| sent.len() <= i < all.len() implies !any_leq(
                guarantee,
                (#[trigger] all[i]).0,
            ) by {
                assert(all[i] == released[i - sent.len()]);
                assert(released[i - sent.len()].0 == sendable@[i - sent.len()]);
            }
        }
    }

    /// Reports what the input took in, then sends every batch that waits:
    /// its records are reported as produced, its time as retired, and the
    /// batch goes through the output, record by record in the order of
    /// arrival. The answer is always `true`.
    fn pull_internal_progress(
        &mut self,
        internal: &mut Vec<CountMap<T>>,
        consumed: &mut Vec<CountMap<T>>,
        produced: &mut Vec<CountMap<T>>,
    ) -> (more: bool)
        ensures
            more,
            final(consumed)@[0]@ == merged(old(consumed)@[0]@, old(self).input().consumed()),
            final(internal)@[0]@ == updated_all(
                merged(old(internal)@[0]@, old(self).input().frontier()),
                retirements(old(self).pending()),
            ),
            final(produced)@[0]@ == updated_all(
                old(produced)@[0]@,
                productions(old(self).pending()),
            ),
            final(self).output().delivered() == old(self).output().delivered() + old(
                self,
            ).pending(),
            final(self).output().current() is None,
            final(self).pending() == Seq::<(T, Seq<D>)>::empty(),
            final(self).emitted() == old(self).emitted() + old(self).pending(),
            final(self).sent_before() == old(self).sent_before(),
            final(self).guarantee() == old(self).guarantee(),
            final(self).input().consumed() == Map::<T, i64>::empty(),
            final(self).input().frontier() == Map::<T, i64>::empty(),
            final(self).input().queued() == old(self).input().queued(),
            final(self).input().stored() == old(self).input().stored(),
            final(self).input().buffered() == old(self).input().buffered(),
            final(self).input().current() == old(self).input().current(),
            final(self).input().delivered() == old(self).input().delivered(),
    {
        self.input.pull_progress(&mut consumed[0], &mut internal[0]);
        let ghost waiting = batches(self.to_send@);
        let ghost reported = internal@[0]@;
        let ghost start = *self;
        let mut i: usize = 0;
        proof {
            assert(retirements(waiting.take(0)) =~= Seq::<(T, i64)>::empty());
            assert(productions(waiting.take(0)) =~= Seq::<(T, i64)>::empty());
            assert(self.output.delivered() =~= old(self).output.delivered() + waiting.take(0));
        }
        while i < self.to_send.len()
            invariant
                i <= self.to_send.len(),
                self.to_send == start.to_send,
                self.input == start.input,
                self.guarantee == start.guarantee,
                self.emitted == start.emitted,
                self.sent_before == start.sent_before,
                waiting == batches(self.to_send@),
                self.output.inv(),
                self.output.current() is None,
                internal@.len() == 1,
                produced@.len() == 1,
                internal@[0].wf(),
                produced@[0].wf(),
                internal@[0]@ == updated_all(reported, retirements(waiting.take(i as int))),
                produced@[0]@ == updated_all(
                    old(produced)@[0]@,
                    productions(waiting.take(i as int)),
                ),
                self.output.delivered() == old(self).output.delivered() + waiting.take(i as int),
            decreases self.to_send.len() - i,
        {
            let time = &self.to_send[i].0;
            let data = &self.to_send[i].1;
            produced[0].update(time, #[verifier::truncate] (data.len() as i64));
            internal[0].update(time, -1);
            self.output.open(time);
            let mut j: usize = 0;
            while j < data.len()
                invariant
                    j <= data.len(),
                    self.to_send == start.to_send,
                    self.input == start.input,
                    self.guarantee == start.guarantee,
                    self.emitted == start.emitted,
                    self.sent_before == start.sent_before,
                    self.output.inv(),
                    self.output.current() == Some((*time, data@.take(j as int))),
                    self.output.delivered() == old(self).output.delivered() + waiting.take(
                        i as int,
                    ),
                decreases data.len() - j,
            {
                self.output.push(&data[j]);
                proof {
                    assert(data@.take(j as int).push(data@[j as int]) =~= data@.take(j + 1));
                }
                j += 1;
            }
            self.output.shut(time);
            proof {
                assert(data@.take(data@.len() as int) =~= data@);
                assert(waiting[i as int] == (*time, data@));
                assert(waiting.take(i + 1) =~= waiting.take(i as int).push(waiting[i as int]));
                assert(waiting.take(i + 1).drop_last() =~= waiting.take(i as int));
                assert(retirements(waiting.take(i + 1)).drop_last() =~= retirements(
                    waiting.take(i as int),
                ));
                assert(productions(waiting.take(i + 1)).drop_last() =~= productions(
                    waiting.take(i as int),
                ));
                assert(self.output.delivered() =~= old(self).output.delivered() + waiting.take(
                    i + 1,
                ));
            }
            i += 1;
        }
        self.to_send.clear();
        proof {
            assert(waiting.take(waiting.len() as int) =~= waiting);
            self.emitted@ = self.emitted@ + waiting;
            assert(self.output.delivered() =~= self.sent_before@ + self.emitted@);
            assert(self.input.handed_out() =~= self.emitted@ + batches(self.to_send@));
            assert(batches(self.to_send@) =~= Seq::<(T, Seq<D>)>::empty());
        }
        true
    }
}

/// The hook by which a stream of a dataflow under construction gets a queue
/// put behind it.
pub trait QueueExtensionTrait: Sized {
    /// Attaches a queueing vertex to the stream and returns the stream of
    /// what the vertex sends.
    fn queue(&mut self) -> Self;
}

} // verus!
