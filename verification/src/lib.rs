//! Derives a hierarchical command taxonomy from the paths of a REST API
//! description: it infers which operation-identifier fragments are verbs
//! and which are entity names, groups the operations by their constant
//! path segments, and folds the result into an entity-resolved tree,
//! merging sibling branches that denote the same entity.
//!
//! Every map in the tree is kept as a vector of pairs sorted by key, so
//! equal content means equal representation and traversal is
//! alphabetical at every level.

use vstd::prelude::*;

pub mod hierarchy;
pub mod operation;
pub mod path;
pub mod smap;
pub mod text;

verus! {

} // verus!
