//! Values with an identity and an associative combination, for measuring subtrees.
use vstd::prelude::*;

verus! {

/// An identity element and a combination of two values. The tree does not use it yet.
pub trait Monoid: Sized {
    /// The identity element.
    fn zero() -> Self;

    /// This value combined with `a`.
    fn append(&self, a: Self) -> Self;
}

} // verus!
