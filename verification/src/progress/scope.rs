//! The protocol that every vertex of a dataflow graph speaks.
use crate::progress::count_map::CountMap;
use crate::progress::frontier::Antichain;
use crate::progress::timestamp::PathSummary;
use crate::progress::timestamp::Timestamp;
use vstd::prelude::*;

verus! {

/// Every accumulator of the list is well formed.
pub open spec fn all_wf<T: Timestamp>(counts: Seq<CountMap<T>>) -> bool {
    forall|i: int| 0 <= i < counts.len() ==> (#[trigger] counts[i]).wf()
}

/// A table of summaries with `inputs` rows of `outputs` frontiers each.
pub open spec fn is_summary_table<T: Timestamp, S: PathSummary<T>>(
    table: Seq<Vec<Antichain<S>>>,
    inputs: u64,
    outputs: u64,
) -> bool {
    &&& table.len() == inputs
    &&& forall|i: int| 0 <= i < table.len() ==> (#[trigger] table[i])@.len() == outputs
    &&& forall|i: int, j: int|
        0 <= i < table.len() && 0 <= j < table[i]@.len() ==> (#[trigger] table[i]@[j]).wf()
}

/// A row of `outputs` frontiers, each the one identity summary: whatever
/// comes in may go out at the same time.
pub fn identity_row<T: Timestamp, S: PathSummary<T>>(outputs: u64) -> (row: Vec<Antichain<S>>)
    ensures
        row@.len() == outputs,
        forall|j: int| 0 <= j < row@.len() ==> (#[trigger] row@[j])@ == seq![S::unit()],
        forall|j: int| 0 <= j < row@.len() ==> (#[trigger] row@[j]).wf(),
{
    let mut row: Vec<Antichain<S>> = Vec::new();
    let mut j: u64 = 0;
    while j < outputs
        invariant
            j <= outputs,
            row@.len() == j,
            forall|k: int| 0 <= k < row@.len() ==> (#[trigger] row@[k])@ == seq![S::unit()],
            forall|k: int| 0 <= k < row@.len() ==> (#[trigger] row@[k]).wf(),
        decreases outputs - j,
    {
        row.push(Antichain::from_elem(S::identity()));
        j += 1;
    }
    row
}

/// The table that connects every input to every output by the identity
/// summary.
pub fn full_connectivity<T: Timestamp, S: PathSummary<T>>(inputs: u64, outputs: u64) -> (table:
    Vec<Vec<Antichain<S>>>)
    ensures
        is_summary_table::<T, S>(table@, inputs, outputs),
        forall|i: int, j: int|
            0 <= i < table@.len() && 0 <= j < table@[i]@.len() ==> (#[trigger] table@[i]@[j])@
                == seq![S::unit()],
{
    let mut table: Vec<Vec<Antichain<S>>> = Vec::new();
    let mut i: u64 = 0;
    while i < inputs
        invariant
            i <= inputs,
            is_summary_table::<T, S>(table@, i, outputs),
            forall|a: int, b: int|
                0 <= a < table@.len() && 0 <= b < table@[a]@.len() ==> (#[trigger] table@[a]@[b])@
                    == seq![S::unit()],
        decreases inputs - i,
    {
        table.push(identity_row::<T, S>(outputs));
        i += 1;
    }
    table
}

/// A list of `outputs` empty accumulators: nothing is claimed.
pub fn no_capabilities<T: Timestamp>(outputs: u64) -> (list: Vec<CountMap<T>>)
    ensures
        list@.len() == outputs,
        all_wf(list@),
        forall|j: int| 0 <= j < list@.len() ==> (#[trigger] list@[j])@ == Map::<T, i64>::empty(),
{
    let mut list: Vec<CountMap<T>> = Vec::new();
    let mut j: u64 = 0;
    while j < outputs
        invariant
            j <= outputs,
            list@.len() == j,
            all_wf(list@),
            forall|k: int|
                0 <= k < list@.len() ==> (#[trigger] list@[k])@ == Map::<T, i64>::empty(),
        decreases outputs - j,
    {
        list.push(CountMap::new());
        j += 1;
    }
    list
}

/// A vertex of a dataflow graph, as the scheduler sees it. The scheduler
/// asks once for the summaries of the vertex, tells it once what lies
/// around it, and then, in turn and without end, tells it how the frontiers
/// at its inputs moved and asks what it did since.
pub trait Scope<T: Timestamp, S: PathSummary<T>>: Sized {
    /// What the vertex needs to hold of itself between calls.
    spec fn inv(&self) -> bool;

    /// The number of inputs.
    spec fn input_count(&self) -> u64;

    /// The number of outputs.
    spec fn output_count(&self) -> u64;

    /// The number of inputs to the vertex.
    fn inputs(&self) -> (n: u64)
        ensures
            n == self.input_count(),
    ;

    /// The number of outputs from the vertex.
    fn outputs(&self) -> (n: u64)
        ensures
            n == self.output_count(),
    ;

    /// For each input and output, a frontier of summaries of the paths that
    /// lead from the one to the other inside the vertex; and for each
    /// output the times at which the vertex may produce of its own accord.
    /// Unless a vertex says otherwise, every input reaches every output
    /// unchanged and nothing is produced unprompted.
    fn get_internal_summary(&mut self) -> (summary: (Vec<Vec<Antichain<S>>>, Vec<CountMap<T>>))
        requires
            old(self).inv(),
        ensures
            final(self).inv(),
            final(self).input_count() == old(self).input_count(),
            final(self).output_count() == old(self).output_count(),
            is_summary_table::<T, S>(summary.0@, old(self).input_count(), old(self).output_count()),
            summary.1@.len() == old(self).output_count(),
            all_wf(summary.1@),
        default_ensures
            *final(self) == *old(self),
            forall|i: int, j: int|
                0 <= i < summary.0@.len() && 0 <= j < summary.0@[i]@.len() ==> (
                #[trigger] summary.0@[i]@[j])@ == seq![S::unit()],
            forall|j: int|
                0 <= j < summary.1@.len() ==> (#[trigger] summary.1@[j])@ == Map::<
                    T,
                    i64,
                >::empty(),
    {
        let inputs = self.inputs();
        let outputs = self.outputs();
        (full_connectivity::<T, S>(inputs, outputs), no_capabilities::<T>(outputs))
    }

    /// Tells the vertex the summaries of the paths around it and, for each
    /// input, the frontier from which it starts. A vertex without interest
    /// lets the call pass.
    fn set_external_summary(
        &mut self,
        summaries: Vec<Vec<Antichain<S>>>,
        frontier: &Vec<Vec<(T, i64)>>,
    )
        requires
            old(self).inv(),
            frontier@.len() == old(self).input_count(),
        ensures
            final(self).inv(),
            final(self).input_count() == old(self).input_count(),
            final(self).output_count() == old(self).output_count(),
        default_ensures
            *final(self) == *old(self),
    {
    }

    /// Tells the vertex, for each input, how the frontier of what may still
    /// arrive there has changed.
    fn push_external_progress(&mut self, external: &Vec<Vec<(T, i64)>>)
        requires
            old(self).inv(),
            external@.len() == old(self).input_count(),
        ensures
            final(self).inv(),
            final(self).input_count() == old(self).input_count(),
            final(self).output_count() == old(self).output_count(),
        default_ensures
            *final(self) == *old(self),
    {
    }

    /// Asks the vertex what it did since it was last asked. It adds to
    /// `internal`, for each output, the changes in the work it holds; to
    /// `consumed`, for each input, the messages it took in; to `produced`,
    /// for each output, the messages it sent. It answers `false` only when
    /// it is certain to do nothing more until it hears of new input.
    fn pull_internal_progress(
        &mut self,
        internal: &mut Vec<CountMap<T>>,
        consumed: &mut Vec<CountMap<T>>,
        produced: &mut Vec<CountMap<T>>,
    ) -> (more: bool)
        requires
            old(self).inv(),
            old(internal)@.len() == old(self).output_count(),
            old(consumed)@.len() == old(self).input_count(),
            old(produced)@.len() == old(self).output_count(),
            all_wf(old(internal)@),
            all_wf(old(consumed)@),
            all_wf(old(produced)@),
        ensures
            final(self).inv(),
            final(self).input_count() == old(self).input_count(),
            final(self).output_count() == old(self).output_count(),
            final(internal)@.len() == old(internal)@.len(),
            final(consumed)@.len() == old(consumed)@.len(),
            final(produced)@.len() == old(produced)@.len(),
            all_wf(final(internal)@),
            all_wf(final(consumed)@),
            all_wf(final(produced)@),
    ;

    /// A name by which to tell the vertex from others.
    fn name(&self) -> String;

    /// Whether the vertex wants to hear of external progress at all.
    fn notify_me(&self) -> (notify: bool)
        default_ensures
            notify,
    {
        true
    }
}

} // verus!
