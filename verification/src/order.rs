//! A total order on element values, with an executable three-way comparison.
//!
//! Generic containers in this crate compare elements through this trait:
//! the `le` spec function gives the mathematical order, the proof methods
//! oblige every implementation to really be a total order, and `compare`
//! is the executable comparison that agrees with `le`.

use vstd::prelude::*;

verus! {

/// Result of an executable three-way comparison.
pub enum Comparison {
    Less,
    Equal,
    Greater,
}

/// A total order on a value type.
///
/// `le` is the order itself; the four proof methods are the laws that make
/// it total; `compare` is the executable comparison agreeing with `le`.
pub trait TotalOrder: Sized {
    /// `a.le(b)` holds when `a` sorts no later than `b`.
    spec fn le(self, other: Self) -> bool;

    /// Every value relates to itself.
    proof fn lemma_reflexive(a: Self)
        ensures
            a.le(a),
    ;

    /// The order composes.
    proof fn lemma_transitive(a: Self, b: Self, c: Self)
        requires
            a.le(b),
            b.le(c),
        ensures
            a.le(c),
    ;

    /// Values related both ways are the same value.
    proof fn lemma_antisymmetric(a: Self, b: Self)
        requires
            a.le(b),
            b.le(a),
        ensures
            a == b,
    ;

    /// Any two values are related one way or the other.
    proof fn lemma_total(a: Self, b: Self)
        ensures
            a.le(b) || b.le(a),
    ;

    /// Executable comparison agreeing with `le`.
    fn compare(&self, other: &Self) -> (c: Comparison)
        ensures
            (match c {
                Comparison::Less => self.le(*other) && *self != *other,
                Comparison::Equal => *self == *other,
                Comparison::Greater => other.le(*self) && *self != *other,
            }),
    ;
}

/// Executable test of `a.le(b)` for any total order.
pub fn le_test<T: TotalOrder>(a: &T, b: &T) -> (r: bool)
    ensures
        r == (*a).le(*b),
{
    let c = a.compare(b);
    proof {
        match c {
            Comparison::Less => {},
            Comparison::Equal => {
                T::lemma_reflexive(*a);
            },
            Comparison::Greater => {
                if (*a).le(*b) {
                    T::lemma_antisymmetric(*a, *b);
                }
            },
        }
    }
    matches!(c, Comparison::Less | Comparison::Equal)
}

impl TotalOrder for i32 {
    open spec fn le(self, other: Self) -> bool {
        self <= other
    }

    proof fn lemma_reflexive(a: Self) {
    }

    proof fn lemma_transitive(a: Self, b: Self, c: Self) {
    }

    proof fn lemma_antisymmetric(a: Self, b: Self) {
    }

    proof fn lemma_total(a: Self, b: Self) {
    }

    fn compare(&self, other: &Self) -> (c: Comparison) {
        if *self < *other {
            Comparison::Less
        } else if *other < *self {
            Comparison::Greater
        } else {
            Comparison::Equal
        }
    }
}

} // verus!
