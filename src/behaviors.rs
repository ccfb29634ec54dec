use vstd::prelude::*;

verus! {

/// The ways of removing a node from a `Tree`, by what becomes of its descendants.
#[derive(Copy, Clone, Debug, PartialEq, Eq, Structural)]
pub enum RemoveBehavior {
    /// Every descendant of the removed node is removed with it: none of their ids resolves
    /// afterwards.
    DropChildren,
    /// Each direct child of the removed node stays in the tree with no parent, keeping its own
    /// subtree and its links to its siblings; it stays reachable by id only.
    OrphanChildren,
}

} // verus!
