//! An ordered map backed by a skip list: a multi-level linked structure in
//! which every entry lives on level 0 in ascending key order, and each higher
//! level holds a sparser chain of shortcut links used to search in expected
//! logarithmic time. Nodes live in a growable arena and link to each other by
//! slot index, so the whole structure is owned by one vector.
use vstd::prelude::*;

pub mod data;
pub mod gen_level;
pub mod iter;
pub mod list;
pub mod model;
mod node;
pub mod render;

pub use gen_level::{DefaultGenerator, LevelGenerator};
pub use iter::{IntoIter, Iter, IterMut};
pub use list::SkipList;

verus! {

/// The greatest number of levels a node's tower may have.
pub const MAX_LEVEL: usize = 32;

} // verus!

