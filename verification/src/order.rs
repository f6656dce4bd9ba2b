//! A total order on the element types a `Counter` can tally.
//!
//! Ranking entries by frequency needs a deterministic tie-break, and the
//! tie-break chosen here orders tied elements by the elements themselves.
//! This module states what that order must satisfy: a trait with a spec-level
//! relation `le`, proof obligations that make it a total order agreeing with
//! spec equality, and an executable three-way comparison proved against the
//! relation.

use vstd::prelude::*;

verus! {

/// Outcome of a three-way comparison between two elements.
pub enum Cmp {
    Less,
    Equal,
    Greater,
}

/// An element type that a `Counter` can tally and rank.
///
/// `le` is a total order on the type that agrees with spec equality, and
/// `compare` is its executable three-way comparison. Every implementation
/// proves the order's laws, so code generic over `Element` may rely on them.
pub trait Element: Sized + Copy {
    /// The ordering on elements; used to break ties among equal counts.
    spec fn le(self, other: Self) -> bool;

    /// `le` is reflexive.
    proof fn lemma_le_reflexive(x: Self)
        ensures
            x.le(x),
    ;

    /// `le` is transitive.
    proof fn lemma_le_transitive(x: Self, y: Self, z: Self)
        requires
            x.le(y),
            y.le(z),
        ensures
            x.le(z),
    ;

    /// `le` is antisymmetric: two elements below each other are equal.
    proof fn lemma_le_antisymmetric(x: Self, y: Self)
        requires
            x.le(y),
            y.le(x),
        ensures
            x == y,
    ;

    /// `le` is total: any two elements are comparable.
    proof fn lemma_le_total(x: Self, y: Self)
        ensures
            x.le(y) || y.le(x),
    ;

    /// Three-way comparison, faithful to `le` and to spec equality.
    fn compare(&self, other: &Self) -> (c: Cmp)
        ensures
            (match c {
                Cmp::Less => self.le(*other) && *self != *other,
                Cmp::Equal => *self == *other,
                Cmp::Greater => other.le(*self) && *self != *other,
            }),
    ;
}

impl Element for u64 {
    open spec fn le(self, other: Self) -> bool {
        self <= other
    }

    proof fn lemma_le_reflexive(x: Self) {
    }

    proof fn lemma_le_transitive(x: Self, y: Self, z: Self) {
    }

    proof fn lemma_le_antisymmetric(x: Self, y: Self) {
    }

    proof fn lemma_le_total(x: Self, y: Self) {
    }

    fn compare(&self, other: &Self) -> (c: Cmp) {
        if *self < *other {
            Cmp::Less
        } else if *self == *other {
            Cmp::Equal
        } else {
            Cmp::Greater
        }
    }
}

impl Element for usize {
    open spec fn le(self, other: Self) -> bool {
        self <= other
    }

    proof fn lemma_le_reflexive(x: Self) {
    }

    proof fn lemma_le_transitive(x: Self, y: Self, z: Self) {
    }

    proof fn lemma_le_antisymmetric(x: Self, y: Self) {
    }

    proof fn lemma_le_total(x: Self, y: Self) {
    }

    fn compare(&self, other: &Self) -> (c: Cmp) {
        if *self < *other {
            Cmp::Less
        } else if *self == *other {
            Cmp::Equal
        } else {
            Cmp::Greater
        }
    }
}

impl Element for i64 {
    open spec fn le(self, other: Self) -> bool {
        self <= other
    }

    proof fn lemma_le_reflexive(x: Self) {
    }

    proof fn lemma_le_transitive(x: Self, y: Self, z: Self) {
    }

    proof fn lemma_le_antisymmetric(x: Self, y: Self) {
    }

    proof fn lemma_le_total(x: Self, y: Self) {
    }

    fn compare(&self, other: &Self) -> (c: Cmp) {
        if *self < *other {
            Cmp::Less
        } else if *self == *other {
            Cmp::Equal
        } else {
            Cmp::Greater
        }
    }
}

impl Element for char {
    open spec fn le(self, other: Self) -> bool {
        (self as int) <= (other as int)
    }

    proof fn lemma_le_reflexive(x: Self) {
    }

    proof fn lemma_le_transitive(x: Self, y: Self, z: Self) {
    }

    proof fn lemma_le_antisymmetric(x: Self, y: Self) {
    }

    proof fn lemma_le_total(x: Self, y: Self) {
    }

    fn compare(&self, other: &Self) -> (c: Cmp) {
        if *self < *other {
            Cmp::Less
        } else if *self == *other {
            Cmp::Equal
        } else {
            Cmp::Greater
        }
    }
}

} // verus!
