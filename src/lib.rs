//! A disjoint-set forest (union-find) over arbitrary hashable elements.
//!
//! Elements are registered once and receive consecutive indices starting at
//! zero. Each index has a parent pointer; an index that is its own parent is
//! the representative (root) of its subset.
pub mod forest;
pub mod lemmas;

pub use forest::DisjointSet;
