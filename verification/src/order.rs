//! Keys with a strict total order, as the sorted collections need them.

use vstd::prelude::*;

verus! {

/// How one key stands to another.
#[derive(Clone, Copy, Debug, PartialEq, Eq, Structural)]
pub enum Rank {
    Before,
    Same,
    After,
}

/// A key type with a strict total order that both proofs and code can use.
pub trait Key: Copy {
    /// The strict order of the keys.
    spec fn before(self, other: Self) -> bool;

    /// No key stands before itself.
    proof fn before_irreflexive(a: Self)
        ensures
            !a.before(a),
    ;

    /// The order is transitive.
    proof fn before_transitive(a: Self, b: Self, c: Self)
        requires
            a.before(b),
            b.before(c),
        ensures
            a.before(c),
    ;

    /// Two different keys are ordered one way or the other.
    proof fn before_connected(a: Self, b: Self)
        ensures
            a.before(b) || b.before(a) || a == b,
    ;

    /// Compares two keys.
    fn rank(&self, other: &Self) -> (r: Rank)
        ensures
            (r == Rank::Before) == self.before(*other),
            (r == Rank::Same) == (*self == *other),
            (r == Rank::After) == other.before(*self),
    ;
}

impl Key for i32 {
    open spec fn before(self, other: Self) -> bool {
        self < other
    }

    proof fn before_irreflexive(a: Self) {
    }

    proof fn before_transitive(a: Self, b: Self, c: Self) {
    }

    proof fn before_connected(a: Self, b: Self) {
    }

    fn rank(&self, other: &Self) -> (r: Rank) {
        if *self < *other {
            Rank::Before
        } else if *self > *other {
            Rank::After
        } else {
            Rank::Same
        }
    }
}

} // verus!
