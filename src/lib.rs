//! A rope: a string held as a binary tree of text leaves, with
//! concatenation, splitting, insertion and deletion that rebuild only one
//! path of the tree.
//!
//! The contents of every tree are modelled by the UTF-8 bytes they spell
//! (`Node::bytes`, `Rope@`), and every index into a rope is measured by a
//! [`metric::Metric`]: bytes (`usize`), grapheme clusters
//! ([`metric::Grapheme`]) or lines ([`metric::Line`]).

pub mod metric;
pub mod unicode;
pub mod internals;
pub mod rope;
pub mod laws;
pub mod lazy;
pub mod slice;

pub use rope::Rope;
pub use slice::{RopeSlice, RopeSliceMut};
