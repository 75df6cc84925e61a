//! An embeddable BK-tree for approximate word matching.
//!
//! A tree is built offline from a word list: every child slot index equals the
//! edit distance between the child's word and its parent's word, so a lookup
//! can prune whole subtrees through the triangle inequality of the metric.
//! The built tree is rendered to a textual literal fit for embedding, and the
//! query side walks the immutable tree without mutating it.

pub mod builder;
pub mod distance;
pub mod iter;
pub mod render;
pub mod search;
pub mod tree;
