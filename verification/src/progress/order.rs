//! Partial orders, the common ground of timestamps and path summaries.
use vstd::prelude::*;

verus! {

/// A type whose values are partially ordered.
pub trait PartialOrder: Sized {
    /// The order relation.
    spec fn leq(&self, other: &Self) -> bool;

    /// Decides the order relation.
    fn less_equal(&self, other: &Self) -> (r: bool)
        ensures
            r == self.leq(other),
    ;

    /// Every value is below itself.
    proof fn leq_reflexive(a: &Self)
        ensures
            a.leq(a),
    ;

    /// Two values below each other are the same value.
    proof fn leq_antisymmetric(a: &Self, b: &Self)
        requires
            a.leq(b),
            b.leq(a),
        ensures
            *a == *b,
    ;

    /// The relation is transitive.
    proof fn leq_transitive(a: &Self, b: &Self, c: &Self)
        requires
            a.leq(b),
            b.leq(c),
        ensures
            a.leq(c),
    ;
}

impl PartialOrder for u64 {
    open spec fn leq(&self, other: &Self) -> bool {
        *self <= *other
    }

    fn less_equal(&self, other: &Self) -> (r: bool) {
        *self <= *other
    }

    proof fn leq_reflexive(a: &Self) {
    }

    proof fn leq_antisymmetric(a: &Self, b: &Self) {
    }

    proof fn leq_transitive(a: &Self, b: &Self, c: &Self) {
    }
}

/// A pair of counters, the time of a loop nested in an outer computation.
#[derive(Clone, Copy, Debug, PartialEq, Eq, Structural)]
pub struct Product {
    /// The time of the outer computation.
    pub outer: u64,
    /// The round of the loop.
    pub inner: u64,
}

/// Pairs are ordered componentwise: the product order, in which `(0, 1)` and
/// `(1, 0)` are incomparable.
impl PartialOrder for Product {
    open spec fn leq(&self, other: &Self) -> bool {
        self.outer <= other.outer && self.inner <= other.inner
    }

    fn less_equal(&self, other: &Self) -> (r: bool) {
        self.outer <= other.outer && self.inner <= other.inner
    }

    proof fn leq_reflexive(a: &Self) {
    }

    proof fn leq_antisymmetric(a: &Self, b: &Self) {
    }

    proof fn leq_transitive(a: &Self, b: &Self, c: &Self) {
    }
}

/// Whether two values are the same, decided through the order alone.
pub fn same<P: PartialOrder>(a: &P, b: &P) -> (r: bool)
    ensures
        r == (*a == *b),
{
    proof {
        if *a == *b {
            P::leq_reflexive(a);
        }
        if a.leq(b) && b.leq(a) {
            P::leq_antisymmetric(a, b);
        }
    }
    a.less_equal(b) && b.less_equal(a)
}

} // verus!
