//! Logical times and the summaries of paths between them.
use crate::communication::data::Data;
use crate::progress::order::PartialOrder;
use crate::progress::order::Product;
use vstd::prelude::*;

verus! {

/// A logical time: a partially ordered value with a least element.
pub trait Timestamp: PartialOrder + Data {
    /// The least time.
    spec fn bottom() -> Self;

    /// Returns the least time, with which initial capabilities are seeded.
    fn minimum() -> (t: Self)
        ensures
            t == Self::bottom(),
    ;

    /// The least time is below every time.
    proof fn bottom_is_least(t: &Self)
        ensures
            Self::bottom().leq(t),
    ;
}

/// What a path through a vertex does to a time: a monotone function on
/// timestamps. Summaries compose along longer paths, and are themselves
/// partially ordered.
pub trait PathSummary<T: Timestamp>: PartialOrder {
    /// The time at which something that entered the path at `src` leaves it.
    spec fn apply(&self, src: &T) -> T;

    /// The summary of this path followed by `other`.
    spec fn compose(&self, other: &Self) -> Self;

    /// The summary of the empty path.
    spec fn unit() -> Self;

    /// Computes `apply`.
    fn results_in(&self, src: &T) -> (dst: T)
        ensures
            dst == self.apply(src),
    ;

    /// Computes `compose`.
    fn followed_by(&self, other: &Self) -> (both: Self)
        ensures
            both == self.compose(other),
    ;

    /// Returns the summary of the empty path.
    fn identity() -> (s: Self)
        ensures
            s == Self::unit(),
    ;

    /// A summary never reorders two times.
    proof fn apply_monotone(&self, a: &T, b: &T)
        requires
            a.leq(b),
        ensures
            self.apply(a).leq(&self.apply(b)),
    ;

    /// Following one path by another applies the first, then the second.
    proof fn compose_applies_in_turn(&self, other: &Self, src: &T)
        ensures
            self.compose(other).apply(src) == other.apply(&self.apply(src)),
    ;

    /// The empty path changes no time.
    proof fn unit_changes_nothing(src: &T)
        ensures
            Self::unit().apply(src) == *src,
    ;
}

/// Composition is associative: however a path of three parts is split, a
/// time that enters it leaves at the same time.
pub proof fn lemma_compose_associative<T: Timestamp, S: PathSummary<T>>(a: &S, b: &S, c: &S, src: &T)
    ensures
        a.compose(b).compose(c).apply(src) == a.compose(&b.compose(c)).apply(src),
{
    a.compose(b).compose_applies_in_turn(c, src);
    a.compose_applies_in_turn(b, src);
    a.compose_applies_in_turn(&b.compose(c), src);
    b.compose_applies_in_turn(c, &a.apply(src));
}

/// The empty path is a unit of composition on either side.
pub proof fn lemma_compose_unit<T: Timestamp, S: PathSummary<T>>(a: &S, src: &T)
    ensures
        S::unit().compose(a).apply(src) == a.apply(src),
        a.compose(&S::unit()).apply(src) == a.apply(src),
{
    S::unit().compose_applies_in_turn(a, src);
    S::unit_changes_nothing(src);
    a.compose_applies_in_turn(&S::unit(), src);
    S::unit_changes_nothing(&a.apply(src));
}

impl Timestamp for u64 {
    open spec fn bottom() -> Self {
        0
    }

    fn minimum() -> (t: Self) {
        0
    }

    proof fn bottom_is_least(t: &Self) {
    }
}

impl Data for Product {
    proof fn clone_exact() {
    }
}

impl Timestamp for Product {
    open spec fn bottom() -> Self {
        Product { outer: 0, inner: 0 }
    }

    fn minimum() -> (t: Self) {
        Product { outer: 0, inner: 0 }
    }

    proof fn bottom_is_least(t: &Self) {
    }
}

/// The sum of a time and a step, held at the largest time where it would
/// pass it.
pub open spec fn advance(time: u64, step: u64) -> u64 {
    if time + step > u64::MAX {
        u64::MAX
    } else {
        (time + step) as u64
    }
}

/// On integer times a summary is a step: the path moves every time forward
/// by that much, and never past the largest time.
impl PathSummary<u64> for u64 {
    open spec fn apply(&self, src: &u64) -> u64 {
        advance(*src, *self)
    }

    open spec fn compose(&self, other: &Self) -> Self {
        advance(*self, *other)
    }

    open spec fn unit() -> Self {
        0
    }

    fn results_in(&self, src: &u64) -> (dst: u64) {
        if *self > u64::MAX - *src {
            u64::MAX
        } else {
            *src + *self
        }
    }

    fn followed_by(&self, other: &Self) -> (both: Self) {
        if *other > u64::MAX - *self {
            u64::MAX
        } else {
            *self + *other
        }
    }

    fn identity() -> (s: Self) {
        0
    }

    proof fn apply_monotone(&self, a: &u64, b: &u64) {
    }

    proof fn compose_applies_in_turn(&self, other: &Self, src: &u64) {
    }

    proof fn unit_changes_nothing(src: &u64) {
    }
}

/// The sum of a time and a step, part by part.
pub open spec fn advance_both(time: Product, step: Product) -> Product {
    Product { outer: advance(time.outer, step.outer), inner: advance(time.inner, step.inner) }
}

/// On pairs a summary is a pair of steps, one for each part.
impl PathSummary<Product> for Product {
    open spec fn apply(&self, src: &Product) -> Product {
        advance_both(*src, *self)
    }

    open spec fn compose(&self, other: &Self) -> Self {
        advance_both(*self, *other)
    }

    open spec fn unit() -> Self {
        Product { outer: 0, inner: 0 }
    }

    fn results_in(&self, src: &Product) -> (dst: Product) {
        Product {
            outer: self.outer.results_in(&src.outer),
            inner: self.inner.results_in(&src.inner),
        }
    }

    fn followed_by(&self, other: &Self) -> (both: Self) {
        Product {
            outer: self.outer.followed_by(&other.outer),
            inner: self.inner.followed_by(&other.inner),
        }
    }

    fn identity() -> (s: Self) {
        Product { outer: 0, inner: 0 }
    }

    proof fn apply_monotone(&self, a: &Product, b: &Product) {
    }

    proof fn compose_applies_in_turn(&self, other: &Self, src: &Product) {
    }

    proof fn unit_changes_nothing(src: &Product) {
    }
}

} // verus!
