//! A persistent double-ended sequence: a finger tree whose versions share their unchanged parts.
pub mod digit;
pub mod fold;
pub mod monoid;
pub mod node;
pub mod tree;

pub use digit::Digit;
pub use fold::Foldable;
pub use monoid::Monoid;
pub use node::Node;
pub use tree::FingerTree;
