//! A vector-backed tree whose nodes are addressed by tree-specific generational ids.
//!
//! - `slab`: the arena, with free-list recycling and one generation counter for all slots.
//! - `core_tree`: the arena bound to a process-unique tree identifier; ids of other trees are
//!   rejected.
//! - `node`: node records (payload plus parent, sibling and child links) and the read-only and
//!   read-write views.
//! - `tree`: the tree itself, the only code that writes links: insertion, removal, reordering
//!   and traversals, each with its contract and the tree's well-formedness proved.
pub mod behaviors;
pub mod core_tree;
pub mod error;
pub mod node;
pub mod slab;
pub mod tree;

pub use crate::behaviors::RemoveBehavior;
pub use crate::core_tree::NodeId;
pub use crate::error::NodeIdError;
pub use crate::node::NodeMut;
pub use crate::node::NodeRef;
pub use crate::tree::Tree;
pub use crate::tree::TreeBuilder;
