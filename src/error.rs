use vstd::prelude::*;

verus! {

/// Why a `NodeId` could not be resolved.
#[derive(Copy, Clone, Debug, PartialEq, Eq, Structural)]
pub enum NodeIdError {
    /// The id was handed out by a different tree.
    WrongTree,
    /// The id does not point at anything: its node has been removed.
    BadNodeId,
}

impl NodeIdError {
    /// A sentence describing the error.
    pub fn to_string(&self) -> (r: &'static str)
        ensures
            *self is WrongTree ==> r == "The given NodeId belongs to a different Tree.",
            *self is BadNodeId ==> r
                == "The given NodeId does not point to any data in the Tree. The Node in question has most likely been removed.",
    {
        match self {
            NodeIdError::WrongTree => "The given NodeId belongs to a different Tree.",
            NodeIdError::BadNodeId => "The given NodeId does not point to any data in the Tree. The Node in question has most likely been removed.",
        }
    }
}

} // verus!
