//! Frontiers: sets of mutually incomparable elements, kept minimal.
use crate::progress::order::PartialOrder;
use vstd::prelude::*;

verus! {

/// No element of the sequence is at or below another.
pub open spec fn is_antichain<S: PartialOrder>(elements: Seq<S>) -> bool {
    forall|i: int, j: int|
        #![trigger elements[i], elements[j]]
        0 <= i < elements.len() && 0 <= j < elements.len() && i != j ==> !elements[i].leq(
            &elements[j],
        )
}

/// Some element of the sequence is at or below `x`.
pub open spec fn dominated<S: PartialOrder>(elements: Seq<S>, x: S) -> bool {
    exists|i: int| 0 <= i < elements.len() && (#[trigger] elements[i]).leq(&x)
}

/// The elements that `x` does not dominate, in their order.
pub open spec fn survivors<S: PartialOrder>(elements: Seq<S>, x: S) -> Seq<S> {
    elements.filter(|e: S| !x.leq(&e))
}

/// The frontier after `x` has been offered to it: what `x` dominates
/// leaves, and `x` joins unless one of the others dominates it.
pub open spec fn inserted<S: PartialOrder>(elements: Seq<S>, x: S) -> Seq<S> {
    if dominated(survivors(elements, x), x) {
        survivors(elements, x)
    } else {
        survivors(elements, x).push(x)
    }
}

/// The frontier after a list of elements has been offered, first to last.
pub open spec fn inserted_all<S: PartialOrder>(elements: Seq<S>, items: Seq<S>) -> Seq<S>
    decreases items.len(),
{
    if items.len() == 0 {
        elements
    } else {
        inserted(inserted_all(elements, items.drop_last()), items.last())
    }
}

/// What the survivors are, one element at a time.
proof fn lemma_survivors_step<S: PartialOrder>(elements: Seq<S>, x: S)
    requires
        elements.len() > 0,
    ensures
        survivors(elements, x) == (if x.leq(&elements.last()) {
            survivors(elements.drop_last(), x)
        } else {
            survivors(elements.drop_last(), x).push(elements.last())
        }),
{
    reveal(Seq::filter);
}

/// Every survivor is an element that `x` does not dominate, and every such
/// element survives.
proof fn lemma_survivors<S: PartialOrder>(elements: Seq<S>, x: S)
    ensures
        forall|i: int|
            0 <= i < survivors(elements, x).len() ==> !x.leq(&#[trigger] survivors(elements, x)[i])
                && elements.contains(survivors(elements, x)[i]),
        forall|i: int|
            0 <= i < elements.len() && !x.leq(&#[trigger] elements[i]) ==> survivors(
                elements,
                x,
            ).contains(elements[i]),
        is_antichain(elements) ==> is_antichain(survivors(elements, x)),
    decreases elements.len(),
{
    let kept = survivors(elements, x);
    if elements.len() == 0 {
        reveal(Seq::filter);
    } else {
        let rest = elements.drop_last();
        let last = elements.last();
        let before = survivors(rest, x);
        lemma_survivors(rest, x);
        lemma_survivors_step(elements, x);
        assert forall|i: int| 0 <= i < kept.len() implies !x.leq(&#[trigger] kept[i])
            && elements.contains(kept[i]) by {
            if i < before.len() {
                assert(kept[i] == before[i]);
                assert(rest.contains(before[i]));
                let a = choose|a: int| 0 <= a < rest.len() && rest[a] == before[i];
                assert(elements[a] == kept[i]);
            } else {
                assert(elements[elements.len() - 1] == kept[i]);
            }
        }
        assert forall|i: int| 0 <= i < elements.len() && !x.leq(&#[trigger] elements[i]) implies kept.contains(
            elements[i],
        ) by {
            if i < rest.len() {
                assert(rest[i] == elements[i]);
                assert(before.contains(rest[i]));
                let b = choose|b: int| 0 <= b < before.len() && before[b] == rest[i];
                assert(kept[b] == elements[i]);
            } else {
                assert(kept[kept.len() - 1] == elements[i]);
            }
        }
        if is_antichain(elements) {
            assert(is_antichain(rest)) by {
                assert forall|i: int, j: int|
                    #![trigger rest[i], rest[j]]
                    0 <= i < rest.len() && 0 <= j < rest.len() && i != j implies !rest[i].leq(&rest[j]) by {
                    assert(rest[i] == elements[i]);
                    assert(rest[j] == elements[j]);
                }
            }
            assert forall|i: int, j: int|
                #![trigger kept[i], kept[j]]
                0 <= i < kept.len() && 0 <= j < kept.len() && i != j implies !kept[i].leq(&kept[j]) by {
                if i < before.len() && j < before.len() {
                    assert(kept[i] == before[i]);
                    assert(kept[j] == before[j]);
                } else {
                    let low = if i < before.len() { i } else { j };
                    assert(kept[low] == before[low]);
                    assert(rest.contains(before[low]));
                    let a = choose|a: int| 0 <= a < rest.len() && rest[a] == before[low];
                    assert(elements[a] == kept[low]);
                    assert(elements[elements.len() - 1] == last);
                }
            }
        }
    }
}

/// Offering an element to a frontier leaves a frontier.
pub proof fn lemma_inserted_is_antichain<S: PartialOrder>(elements: Seq<S>, x: S)
    requires
        is_antichain(elements),
    ensures
        is_antichain(inserted(elements, x)),
{
    lemma_survivors(elements, x);
    let kept = survivors(elements, x);
    if !dominated(kept, x) {
        let after = kept.push(x);
        assert forall|i: int, j: int|
            #![trigger after[i], after[j]]
            0 <= i < after.len() && 0 <= j < after.len() && i != j implies !after[i].leq(&after[j]) by {
            if i < kept.len() && j < kept.len() {
                assert(after[i] == kept[i]);
                assert(after[j] == kept[j]);
            } else if i < kept.len() {
                assert(after[i] == kept[i]);
            } else {
                assert(after[j] == kept[j]);
            }
        }
    }
}

/// An element that was offered is dominated by the frontier, whether it
/// joined or not; and what the frontier dominated before, it still does.
pub proof fn lemma_inserted_dominates<S: PartialOrder>(elements: Seq<S>, x: S, y: S)
    ensures
        dominated(inserted(elements, x), x),
        dominated(elements, y) ==> dominated(inserted(elements, x), y),
{
    lemma_survivors(elements, x);
    let kept = survivors(elements, x);
    let after = inserted(elements, x);
    if !dominated(kept, x) {
        S::leq_reflexive(&x);
        assert(after[kept.len() as int] == x);
    }
    if dominated(elements, y) {
        let i = choose|i: int| 0 <= i < elements.len() && (#[trigger] elements[i]).leq(&y);
        if !x.leq(&elements[i]) {
            assert(kept.contains(elements[i]));
            let a = choose|a: int| 0 <= a < kept.len() && kept[a] == elements[i];
            assert(after[a] == kept[a]);
        } else {
            S::leq_transitive(&x, &elements[i], &y);
            let b = choose|b: int| 0 <= b < after.len() && (#[trigger] after[b]).leq(&x);
            S::leq_transitive(&after[b], &x, &y);
        }
    }
}

/// After any list of insertions into a frontier, no two of its elements are
/// comparable, and each element that was offered is dominated by it.
pub proof fn lemma_inserted_all<S: PartialOrder>(elements: Seq<S>, items: Seq<S>)
    requires
        is_antichain(elements),
    ensures
        is_antichain(inserted_all(elements, items)),
        forall|i: int|
            0 <= i < items.len() ==> dominated(inserted_all(elements, items), #[trigger] items[i]),
        forall|y: S| dominated(elements, y) ==> dominated(inserted_all(elements, items), y),
    decreases items.len(),
{
    if items.len() > 0 {
        let rest = items.drop_last();
        let before = inserted_all(elements, rest);
        lemma_inserted_all(elements, rest);
        lemma_inserted_is_antichain(before, items.last());
        assert forall|i: int| 0 <= i < items.len() implies dominated(
            inserted_all(elements, items),
            #[trigger] items[i],
        ) by {
            lemma_inserted_dominates(before, items.last(), items[i]);
            if i < rest.len() {
                assert(rest[i] == items[i]);
            }
        }
        assert forall|y: S| dominated(elements, y) implies dominated(
            inserted_all(elements, items),
            y,
        ) by {
            lemma_inserted_dominates(before, items.last(), y);
        }
    }
}

/// A frontier: a set of elements, none of which is at or below another.
pub struct Antichain<S> {
    elements: Vec<S>,
}

impl<S> View for Antichain<S> {
    type V = Seq<S>;

    /// The elements, in the order in which they joined.
    closed spec fn view(&self) -> Seq<S> {
        self.elements@
    }
}

impl<S: PartialOrder> Antichain<S> {
    /// No two elements are comparable.
    pub open spec fn wf(&self) -> bool {
        is_antichain(self@)
    }

    /// The empty frontier.
    pub fn new() -> (frontier: Self)
        ensures
            frontier.wf(),
            frontier@ == Seq::<S>::empty(),
    {
        Antichain { elements: Vec::new() }
    }

    /// The frontier of one element.
    pub fn from_elem(element: S) -> (frontier: Self)
        ensures
            frontier.wf(),
            frontier@ == seq![element],
    {
        let mut elements = Vec::new();
        elements.push(element);
        Antichain { elements }
    }

    /// The elements of the frontier.
    pub fn elements(&self) -> (elements: &Vec<S>)
        ensures
            elements@ == self@,
    {
        &self.elements
    }

    /// Offers `element` to the frontier and says whether it joined. Every
    /// element that it dominates leaves first; it then joins unless one of
    /// those that are left dominates it.
    pub fn insert(&mut self, element: S) -> (joined: bool)
        requires
            old(self).wf(),
        ensures
            final(self).wf(),
            final(self)@ == inserted(old(self)@, element),
            joined == !dominated(survivors(old(self)@, element), element),
    {
        let ghost mut seen: int = 0;
        let mut i: usize = 0;
        proof {
            lemma_survivors(old(self)@.take(0), element);
            assert(old(self)@.skip(0) =~= old(self)@);
            assert(self@ =~= survivors(old(self)@.take(0), element) + old(self)@.skip(0));
        }
        while i < self.elements.len()
            invariant
                0 <= seen <= old(self)@.len(),
                i == survivors(old(self)@.take(seen), element).len(),
                self@ == survivors(old(self)@.take(seen), element) + old(self)@.skip(seen),
            decreases old(self)@.len() - seen,
        {
            proof {
                let all = old(self)@;
                assert(self@[i as int] == all.skip(seen)[0]);
                assert(all.take(seen + 1).drop_last() =~= all.take(seen));
                assert(all.take(seen + 1).last() == all[seen]);
                lemma_survivors_step(all.take(seen + 1), element);
            }
            if element.less_equal(&self.elements[i]) {
                self.elements.remove(i);
                proof {
                    let all = old(self)@;
                    assert(self@ =~= survivors(all.take(seen + 1), element) + all.skip(seen + 1));
                    seen = seen + 1;
                }
            } else {
                proof {
                    let all = old(self)@;
                    assert(self@ =~= survivors(all.take(seen + 1), element) + all.skip(seen + 1));
                    seen = seen + 1;
                }
                i += 1;
            }
        }
        proof {
            assert(old(self)@.take(seen) =~= old(self)@);
            assert(self@ =~= survivors(old(self)@, element));
            lemma_survivors(old(self)@, element);
            lemma_inserted_is_antichain(old(self)@, element);
        }
        let mut j: usize = 0;
        while j < self.elements.len()
            invariant
                j <= self.elements.len(),
                self@ == survivors(old(self)@, element),
                is_antichain(self@),
                forall|k: int| 0 <= k < j ==> !(#[trigger] self@[k]).leq(&element),
            decreases self.elements.len() - j,
        {
            if self.elements[j].less_equal(&element) {
                return false;
            }
            j += 1;
        }
        self.elements.push(element);
        true
    }
}

} // verus!
