//! Summaries and how they combine.

use vstd::prelude::*;

verus! {

/// A commutative semigroup of summaries: `mapply` combines two of them.
///
/// Nanocubes merge summaries in whatever order their shared structure makes
/// cheapest, so the combination must be associative and commutative.
pub trait Monoid: Sized {
    /// The combination of two summaries.
    spec fn op(a: Self, b: Self) -> Self;

    proof fn lemma_op_associative(a: Self, b: Self, c: Self)
        ensures
            Self::op(Self::op(a, b), c) == Self::op(a, Self::op(b, c)),
    ;

    proof fn lemma_op_commutative(a: Self, b: Self)
        ensures
            Self::op(a, b) == Self::op(b, a),
    ;

    fn mapply(&self, other: &Self) -> (r: Self)
        ensures
            r == Self::op(*self, *other),
    ;
}

/// Counts: summaries add, modulo the width of `usize`.
impl Monoid for usize {
    open spec fn op(a: usize, b: usize) -> usize {
        if a + b <= usize::MAX {
            (a + b) as usize
        } else {
            (a + b - usize::MAX - 1) as usize
        }
    }

    proof fn lemma_op_associative(a: usize, b: usize, c: usize) {
    }

    proof fn lemma_op_commutative(a: usize, b: usize) {
    }

    fn mapply(&self, other: &usize) -> (r: usize) {
        if *other <= usize::MAX - *self {
            *self + *other
        } else {
            *other - (usize::MAX - *self) - 1
        }
    }
}

} // verus!
