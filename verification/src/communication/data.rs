//! Values that travel along the edges of a graph.
use vstd::prelude::*;

verus! {

/// A value that can be copied faithfully: every clone is indistinguishable
/// from the value it was made of. Records and timestamps are of this kind.
pub trait Data: Clone + Sized {
    /// Whatever `clone` returns is the value it was called on.
    proof fn clone_exact()
        ensures
            forall|a: Self, b: Self| #[trigger] cloned(a, b) ==> a == b,
    ;
}

impl Data for u64 {
    proof fn clone_exact() {
    }
}

impl Data for String {
    proof fn clone_exact() {
    }
}

impl Data for &'static str {
    proof fn clone_exact() {
    }
}

/// A fresh copy of `value`.
pub fn duplicate<D: Data>(value: &D) -> (copy: D)
    ensures
        copy == *value,
{
    let copy = value.clone();
    proof {
        D::clone_exact();
        assert(cloned(*value, copy));
    }
    copy
}

} // verus!
