//! Signed counts over timestamps: the currency in which vertices report
//! progress to one another.
use crate::communication::data::duplicate;
use crate::progress::entries::as_map;
use crate::progress::entries::has_key;
use crate::progress::entries::keys_distinct;
use crate::progress::entries::lemma_as_map;
use crate::progress::entries::lemma_as_map_push;
use crate::progress::entries::lemma_as_map_remove;
use crate::progress::entries::lemma_as_map_update;
use crate::progress::entries::position;
use crate::progress::order::same;
use crate::progress::timestamp::Timestamp;
use vstd::prelude::*;

verus! {

/// The sum of two counts, wrapping around at the ends of the integer range,
/// so that adding is defined for every pair of counts and no order of
/// additions matters.
pub open spec fn sum(a: i64, b: i64) -> i64 {
    if a + b > i64::MAX {
        (a + b - 0x1_0000_0000_0000_0000) as i64
    } else if a + b < i64::MIN {
        (a + b + 0x1_0000_0000_0000_0000) as i64
    } else {
        (a + b) as i64
    }
}

/// The count that a sparse map holds for `key`: zero where it has no entry.
pub open spec fn count_in<T>(counts: Map<T, i64>, key: T) -> i64 {
    if counts.contains_key(key) {
        counts[key]
    } else {
        0
    }
}

/// A sparse map holds no entry for a count of zero.
pub open spec fn is_sparse<T>(counts: Map<T, i64>) -> bool {
    forall|key: T| counts.contains_key(key) ==> #[trigger] counts[key] != 0
}

/// The map after `delta` has been added to the count of `key`: the entry is
/// made, changed, or, where the count comes to zero, taken away.
pub open spec fn updated<T>(counts: Map<T, i64>, key: T, delta: i64) -> Map<T, i64> {
    let net = sum(count_in(counts, key), delta);
    if net == 0 {
        counts.remove(key)
    } else {
        counts.insert(key, net)
    }
}

/// The map after a list of updates has been applied, first to last.
pub open spec fn updated_all<T>(counts: Map<T, i64>, updates: Seq<(T, i64)>) -> Map<T, i64>
    decreases updates.len(),
{
    if updates.len() == 0 {
        counts
    } else {
        updated(updated_all(counts, updates.drop_last()), updates.last().0, updates.last().1)
    }
}

/// The map that holds, for every key, the sum of its counts in `a` and `b`.
pub open spec fn merged<T>(a: Map<T, i64>, b: Map<T, i64>) -> Map<T, i64> {
    Map::new(
        |key: T| sum(count_in(a, key), count_in(b, key)) != 0,
        |key: T| sum(count_in(a, key), count_in(b, key)),
    )
}

/// Whether the map counts a time at or before `time`.
pub open spec fn any_leq<T: Timestamp>(counts: Map<T, i64>, time: T) -> bool {
    exists|key: T| counts.contains_key(key) && #[trigger] key.leq(&time)
}

/// What a list of updates adds to the count of `key`, all told.
pub open spec fn net_delta<T>(updates: Seq<(T, i64)>, key: T) -> i64
    decreases updates.len(),
{
    if updates.len() == 0 {
        0
    } else if updates.last().0 == key {
        sum(net_delta(updates.drop_last(), key), updates.last().1)
    } else {
        net_delta(updates.drop_last(), key)
    }
}

/// Whether a list of updates names `key`.
pub open spec fn touches<T>(updates: Seq<(T, i64)>, key: T) -> bool {
    exists|i: int| 0 <= i < updates.len() && (#[trigger] updates[i]).0 == key
}

spec fn counts_nonzero<T>(entries: Seq<(T, i64)>) -> bool {
    forall|i: int| 0 <= i < entries.len() ==> (#[trigger] entries[i]).1 != 0
}

proof fn lemma_nonzero_is_sparse<T>(entries: Seq<(T, i64)>)
    requires
        keys_distinct(entries),
        counts_nonzero(entries),
    ensures
        is_sparse(as_map(entries)),
{
    lemma_as_map(entries);
    assert forall|key: T| as_map(entries).contains_key(key) implies #[trigger] as_map(
        entries,
    )[key] != 0 by {
        let p = position(entries, key);
        assert(entries[p].1 != 0);
    }
}

/// A sparse map from timestamps to signed counts. No entry holds zero: counts
/// that cancel leave the map.
pub struct CountMap<T> {
    entries: Vec<(T, i64)>,
}

impl<T> View for CountMap<T> {
    type V = Map<T, i64>;

    /// The counts as a mathematical map, which holds the non-zero ones.
    closed spec fn view(&self) -> Map<T, i64> {
        as_map(self.entries@)
    }
}

impl<T: Timestamp> CountMap<T> {
    /// The representation is sound: each key has one entry, none of zero.
    pub closed spec fn wf(&self) -> bool {
        keys_distinct(self.entries@) && counts_nonzero(self.entries@)
    }

    /// The count of `key`, zero where the map has no entry.
    pub open spec fn count(&self, key: T) -> i64 {
        count_in(self@, key)
    }

    /// A well-formed map is sparse.
    pub proof fn lemma_sparse(&self)
        requires
            self.wf(),
        ensures
            is_sparse(self@),
    {
        lemma_nonzero_is_sparse(self.entries@);
    }

    /// An empty map.
    pub fn new() -> (counts: Self)
        ensures
            counts.wf(),
            counts@ == Map::<T, i64>::empty(),
    {
        let counts = CountMap { entries: Vec::new() };
        proof {
            assert(counts@ =~= Map::<T, i64>::empty());
        }
        counts
    }

    /// Whether no count differs from zero.
    pub fn is_empty(&self) -> (empty: bool)
        requires
            self.wf(),
        ensures
            empty == (self@ == Map::<T, i64>::empty()),
    {
        proof {
            lemma_as_map(self.entries@);
            if self.entries@.len() > 0 {
                assert(self@.contains_key(self.entries@[0].0));
            } else {
                assert(self@ =~= Map::<T, i64>::empty());
            }
        }
        self.entries.len() == 0
    }

    /// The count of `key`.
    pub fn get(&self, key: &T) -> (count: i64)
        requires
            self.wf(),
        ensures
            count == self.count(*key),
    {
        proof {
            lemma_as_map(self.entries@);
        }
        let mut i: usize = 0;
        while i < self.entries.len()
            invariant
                i <= self.entries.len(),
                forall|j: int| 0 <= j < i ==> (#[trigger] self.entries@[j]).0 != *key,
                forall|j: int|
                    0 <= j < self.entries.len() ==> self@.contains_key(
                        (#[trigger] self.entries@[j]).0,
                    ) && self@[self.entries@[j].0] == self.entries@[j].1,
            decreases self.entries.len() - i,
        {
            if same(&self.entries[i].0, key) {
                return self.entries[i].1;
            }
            i += 1;
        }
        0
    }

    /// Adds `delta` to the count of `key` and returns the new count. An entry
    /// that comes to zero leaves the map; a key without an entry gets one
    /// unless `delta` is zero.
    pub fn update(&mut self, key: &T, delta: i64) -> (net: i64)
        requires
            old(self).wf(),
        ensures
            final(self).wf(),
            final(self)@ == updated(old(self)@, *key, delta),
            net == sum(old(self).count(*key), delta),
    {
        proof {
            lemma_as_map(self.entries@);
        }
        let mut i: usize = 0;
        while i < self.entries.len()
            invariant
                i <= self.entries.len(),
                self.entries == old(self).entries,
                old(self).wf(),
                forall|j: int| 0 <= j < i ==> (#[trigger] self.entries@[j]).0 != *key,
            decreases self.entries.len() - i,
        {
            if same(&self.entries[i].0, key) {
                let net = self.entries[i].1.wrapping_add(delta);
                proof {
                    lemma_as_map(self.entries@);
                }
                if net == 0 {
                    self.entries.remove(i);
                    proof {
                        let before = old(self).entries@;
                        lemma_as_map_remove(before, i as int);
                        assert forall|a: int| 0 <= a < self.entries@.len() implies (
                        #[trigger] self.entries@[a]).1 != 0 by {
                            let a0 = if a < i { a } else { a + 1 };
                            assert(self.entries@[a] == before[a0]);
                        }
                    }
                } else {
                    self.entries[i].1 = net;
                    proof {
                        let before = old(self).entries@;
                        lemma_as_map_update(before, i as int, net);
                        assert(self.entries@ =~= before.update(i as int, (before[i as int].0, net)));
                        assert forall|a: int| 0 <= a < self.entries@.len() implies (
                        #[trigger] self.entries@[a]).1 != 0 by {
                            if a != i {
                                assert(self.entries@[a] == before[a]);
                            }
                        }
                    }
                }
                return net;
            }
            i += 1;
        }
        proof {
            assert(!has_key(self.entries@, *key));
            assert(sum(0, delta) == delta);
        }
        if delta != 0 {
            self.entries.push((duplicate(key), delta));
            proof {
                let before = old(self).entries@;
                lemma_as_map_push(before, *key, delta);
                assert forall|a: int| 0 <= a < self.entries@.len() implies (
                #[trigger] self.entries@[a]).1 != 0 by {
                    if a < before.len() {
                        assert(self.entries@[a] == before[a]);
                    }
                }
            }
        } else {
            proof {
                assert(self@.remove(*key) =~= self@);
            }
        }
        delta
    }
    /// Forgets every count.
    pub fn clear(&mut self)
        ensures
            final(self).wf(),
            final(self)@ == Map::<T, i64>::empty(),
    {
        self.entries.clear();
        proof {
            assert(self@ =~= Map::<T, i64>::empty());
        }
    }

    /// Whether the map counts a time at or before `time`.
    pub fn any_leq(&self, time: &T) -> (found: bool)
        requires
            self.wf(),
        ensures
            found == any_leq(self@, *time),
    {
        proof {
            lemma_as_map(self.entries@);
        }
        let mut i: usize = 0;
        while i < self.entries.len()
            invariant
                i <= self.entries.len(),
                forall|j: int| 0 <= j < i ==> !(#[trigger] self.entries@[j]).0.leq(time),
                forall|j: int|
                    0 <= j < self.entries.len() ==> self@.contains_key(
                        (#[trigger] self.entries@[j]).0,
                    ),
            decreases self.entries.len() - i,
        {
            if self.entries[i].0.less_equal(time) {
                return true;
            }
            i += 1;
        }
        proof {
            assert forall|key: T| self@.contains_key(key) implies !(#[trigger] key.leq(time)) by {
                let p = position(self.entries@, key);
                assert(!self.entries@[p].0.leq(time));
            }
        }
        false
    }

    /// The entries, each key once and with its count, in no particular order.
    pub fn pairs(&self) -> (list: Vec<(T, i64)>)
        requires
            self.wf(),
        ensures
            forall|i: int, j: int|
                0 <= i < j < list.len() ==> (#[trigger] list[i]).0 != (#[trigger] list[j]).0,
            forall|i: int|
                0 <= i < list.len() ==> self@.contains_key((#[trigger] list[i]).0)
                    && self@[list[i].0] == list[i].1,
            forall|key: T| self@.contains_key(key) ==> touches(list@, key),
    {
        proof {
            lemma_as_map(self.entries@);
        }
        let mut list: Vec<(T, i64)> = Vec::new();
        let mut i: usize = 0;
        while i < self.entries.len()
            invariant
                i <= self.entries.len(),
                list@ == self.entries@.take(i as int),
            decreases self.entries.len() - i,
        {
            list.push((duplicate(&self.entries[i].0), self.entries[i].1));
            proof {
                assert(list@ =~= self.entries@.take(i + 1));
            }
            i += 1;
        }
        proof {
            assert(list@ =~= self.entries@);
            assert forall|key: T| self@.contains_key(key) implies touches(list@, key) by {
                let p = position(self.entries@, key);
                assert(list@[p].0 == key);
            }
        }
        list
    }

    /// Applies a list of updates, first to last.
    pub fn update_all(&mut self, updates: &Vec<(T, i64)>)
        requires
            old(self).wf(),
        ensures
            final(self).wf(),
            final(self)@ == updated_all(old(self)@, updates@),
    {
        let mut i: usize = 0;
        while i < updates.len()
            invariant
                i <= updates.len(),
                self.wf(),
                self@ == updated_all(old(self)@, updates@.take(i as int)),
            decreases updates.len() - i,
        {
            self.update(&updates[i].0, updates[i].1);
            proof {
                assert(updates@.take(i + 1).drop_last() =~= updates@.take(i as int));
            }
            i += 1;
        }
        proof {
            assert(updates@.take(updates.len() as int) =~= updates@);
        }
    }

    /// Moves every count into `into`, where it is added to what is there,
    /// and leaves this map empty.
    pub fn drain_into(&mut self, into: &mut CountMap<T>)
        requires
            old(self).wf(),
            old(into).wf(),
        ensures
            final(self).wf(),
            final(into).wf(),
            final(self)@ == Map::<T, i64>::empty(),
            final(into)@ == merged(old(into)@, old(self)@),
    {
        while self.entries.len() > 0
            invariant
                self.wf(),
                into.wf(),
                merged(into@, self@) == merged(old(into)@, old(self)@),
            decreases self.entries.len(),
        {
            let ghost before = self.entries@;
            let ghost target = into@;
            let entry = self.entries.pop().unwrap();
            into.update(&entry.0, entry.1);
            proof {
                let after = self.entries@;
                let last = before.len() - 1;
                assert(after =~= before.remove(last));
                assert(before[last] == entry);
                lemma_as_map(before);
                lemma_as_map_remove(before, last);
                assert forall|a: int| 0 <= a < after.len() implies (#[trigger] after[a]).1
                    != 0 by {
                    assert(after[a] == before[a]);
                }
                assert(merged(into@, as_map(after)) =~= merged(target, as_map(before)));
            }
        }
        proof {
            into.lemma_sparse();
            assert(self@ =~= Map::<T, i64>::empty());
            assert(merged(into@, self@) =~= into@);
        }
    }
}

/// A key is named by a list that ends in it, or by the list before its
/// last update.
proof fn lemma_touches_last<T>(updates: Seq<(T, i64)>, key: T)
    requires
        updates.len() > 0,
    ensures
        touches(updates, key) <==> (touches(updates.drop_last(), key) || updates.last().0 == key),
{
    let rest = updates.drop_last();
    if touches(rest, key) {
        let i = choose|i: int| 0 <= i < rest.len() && (#[trigger] rest[i]).0 == key;
        assert(updates[i] == rest[i]);
    }
    if updates.last().0 == key {
        assert(updates[updates.len() - 1].0 == key);
    }
    if touches(updates, key) {
        let i = choose|i: int| 0 <= i < updates.len() && (#[trigger] updates[i]).0 == key;
        if i < rest.len() {
            assert(rest[i] == updates[i]);
        }
    }
}

/// How the count of one key stands after a list of updates: it is the old
/// count and all the deltas of that key, summed. A key that no update names
/// keeps its entry; one that is named has an entry unless its count is zero.
pub proof fn lemma_updated_all_entry<T>(counts: Map<T, i64>, updates: Seq<(T, i64)>, key: T)
    ensures
        count_in(updated_all(counts, updates), key) == sum(
            count_in(counts, key),
            net_delta(updates, key),
        ),
        touches(updates, key) ==> (updated_all(counts, updates).contains_key(key) <==> sum(
            count_in(counts, key),
            net_delta(updates, key),
        ) != 0),
        !touches(updates, key) ==> (updated_all(counts, updates).contains_key(key)
            <==> counts.contains_key(key)),
    decreases updates.len(),
{
    if updates.len() > 0 {
        let rest = updates.drop_last();
        lemma_updated_all_entry(counts, rest, key);
        lemma_touches_last(updates, key);
        let before = updated_all(counts, rest);
        let last = updates.last();
        assert(updated_all(counts, updates) == updated(before, last.0, last.1));
        if last.0 == key {
            assert(sum(sum(count_in(counts, key), net_delta(rest, key)), last.1) == sum(
                count_in(counts, key),
                sum(net_delta(rest, key), last.1),
            ));
        }
    } else {
        assert(!touches(updates, key));
    }
}

/// Taking one update out of a list takes its delta out of the net delta of
/// its key, and changes no other.
proof fn lemma_net_delta_remove<T>(updates: Seq<(T, i64)>, at: int, key: T)
    requires
        0 <= at < updates.len(),
    ensures
        net_delta(updates, key) == (if updates[at].0 == key {
            sum(net_delta(updates.remove(at), key), updates[at].1)
        } else {
            net_delta(updates.remove(at), key)
        }),
        touches(updates, key) <==> (touches(updates.remove(at), key) || updates[at].0 == key),
    decreases updates.len(),
{
    let without = updates.remove(at);
    assert(touches(updates, key) <==> (touches(without, key) || updates[at].0 == key)) by {
        if touches(without, key) {
            let i = choose|i: int| 0 <= i < without.len() && (#[trigger] without[i]).0 == key;
            let i0 = if i < at { i } else { i + 1 };
            assert(updates[i0] == without[i]);
        }
        if updates[at].0 == key {
            assert(touches(updates, key));
        }
        if touches(updates, key) {
            let i = choose|i: int| 0 <= i < updates.len() && (#[trigger] updates[i]).0 == key;
            if i != at {
                let i1 = if i < at { i } else { i - 1 };
                assert(without[i1] == updates[i]);
            }
        }
    }
    if at == updates.len() - 1 {
        assert(without =~= updates.drop_last());
    } else {
        lemma_net_delta_remove(updates.drop_last(), at, key);
        assert(without.drop_last() =~= updates.drop_last().remove(at));
        assert(without.last() == updates.last());
        assert(updates.drop_last()[at] == updates[at]);
    }
}

/// Two lists that hold the same updates, in whatever order, add the same to
/// every count and name the same keys.
proof fn lemma_net_delta_permuted<T>(first: Seq<(T, i64)>, second: Seq<(T, i64)>, key: T)
    requires
        first.to_multiset() == second.to_multiset(),
    ensures
        net_delta(first, key) == net_delta(second, key),
        touches(first, key) == touches(second, key),
    decreases first.len(),
{
    broadcast use vstd::seq_lib::group_to_multiset_ensures;

    if first.len() == 0 {
        first.to_multiset_ensures();
        second.to_multiset_ensures();
        assert(second.len() == 0);
        assert(!touches(first, key));
        assert(!touches(second, key));
    } else {
        let last = first.last();
        let rest = first.drop_last();
        assert(first =~= rest.push(last));
        assert(first.to_multiset().count(last) > 0);
        assert(second.contains(last));
        let at = choose|at: int| 0 <= at < second.len() && second[at] == last;
        assert(second.remove(at).to_multiset() =~= rest.to_multiset());
        lemma_net_delta_permuted(rest, second.remove(at), key);
        lemma_net_delta_remove(second, at, key);
        lemma_net_delta_remove(first, first.len() - 1, key);
        assert(first.remove(first.len() - 1) =~= rest);
    }
}

/// The order of updates does not matter: two lists that hold the same
/// updates, each as often as the other, leave the same map.
pub proof fn lemma_update_order_irrelevant<T>(
    counts: Map<T, i64>,
    first: Seq<(T, i64)>,
    second: Seq<(T, i64)>,
)
    requires
        first.to_multiset() == second.to_multiset(),
    ensures
        updated_all(counts, first) == updated_all(counts, second),
{
    let a = updated_all(counts, first);
    let b = updated_all(counts, second);
    assert forall|key: T| #[trigger]
        a.dom().contains(key) == b.dom().contains(key) && (a.contains_key(key) ==> a[key]
            == b[key]) by {
        lemma_net_delta_permuted(first, second, key);
        lemma_updated_all_entry(counts, first, key);
        lemma_updated_all_entry(counts, second, key);
    }
    assert(a =~= b);
}

/// Applying a list of updates last to first leaves the same map as applying
/// it first to last.
pub proof fn lemma_update_reversed<T>(counts: Map<T, i64>, updates: Seq<(T, i64)>)
    ensures
        updated_all(counts, updates.reverse()) == updated_all(counts, updates),
{
    updates.lemma_reverse_to_multiset();
    lemma_update_order_irrelevant(counts, updates.reverse(), updates);
}

/// Merging an empty map into a sparse one changes nothing.
pub proof fn lemma_merged_empty<T>(counts: Map<T, i64>)
    requires
        is_sparse(counts),
    ensures
        merged(counts, Map::<T, i64>::empty()) == counts,
{
    assert(merged(counts, Map::<T, i64>::empty()) =~= counts);
}

/// Two updates commute.
pub proof fn lemma_update_commutes<T>(counts: Map<T, i64>, k1: T, d1: i64, k2: T, d2: i64)
    ensures
        updated(updated(counts, k1, d1), k2, d2) == updated(updated(counts, k2, d2), k1, d1),
{
    assert(updated(updated(counts, k1, d1), k2, d2) =~= updated(updated(counts, k2, d2), k1, d1));
}

} // verus!
