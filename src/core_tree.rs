use crate::error::NodeIdError;
use crate::node::unlinked;
use crate::node::Node;
use crate::slab::Index;
use crate::slab::Slab;
use snowflake::ProcessUniqueId;
use vstd::prelude::*;

verus! {

/// The tree identifier: snowflake's process-unique id, carried as an opaque value.
#[verifier::external_type_specification]
#[verifier::external_body]
pub struct ExProcessUniqueId(ProcessUniqueId);

/// Relies on `snowflake::ProcessUniqueId::new`, which hands out an id that no other call in
/// this process returns. Nothing about the value can be stated.
pub assume_specification[ ProcessUniqueId::new ]() -> ProcessUniqueId;

/// Relies on snowflake's derived `PartialEq` for `ProcessUniqueId`, which compares both of its
/// fields and so holds exactly when the two ids are the same value.
pub assume_specification[ <ProcessUniqueId as core::cmp::PartialEq>::eq ](
    a: &ProcessUniqueId,
    b: &ProcessUniqueId,
) -> (r: bool)
    ensures
        r == (*a == *b),
;

/// An id of a node in one particular tree: the tree's identifier plus a generational handle
/// into that tree's arena. Two ids are equal only if both parts are.
#[derive(Copy, Clone, Eq, Debug, Hash)]
pub struct NodeId {
    pub tree_id: ProcessUniqueId,
    pub index: Index,
}

impl PartialEq for NodeId {
    fn eq(&self, other: &NodeId) -> (r: bool) {
        self.tree_id == other.tree_id && self.index == other.index
    }
}

impl vstd::std_specs::cmp::PartialEqSpecImpl for NodeId {
    open spec fn obeys_eq_spec() -> bool {
        true
    }

    open spec fn eq_spec(&self, other: &NodeId) -> bool {
        self.tree_id == other.tree_id && self.index == other.index
    }
}

/// Compares two ids.
pub fn same_node(a: NodeId, b: NodeId) -> (r: bool)
    ensures
        r == (a == b),
{
    a.tree_id == b.tree_id && a.index == b.index
}

/// Compares an optional id with an id.
pub fn is_node(a: Option<NodeId>, b: NodeId) -> (r: bool)
    ensures
        r == (a == Some(b)),
{
    match a {
        Some(a) => same_node(a, b),
        None => false,
    }
}

/// The tree-identity layer: an arena of node records bound to one tree identifier. It hands out
/// ids stamped with that identifier and rejects any id that carries another.
#[derive(Debug)]
pub struct CoreTree<T> {
    id: ProcessUniqueId,
    slab: Slab<Node<T>>,
}

impl<T> CoreTree<T> {
    /// This tree's identifier.
    pub closed spec fn tree_id(&self) -> ProcessUniqueId {
        self.id
    }

    /// The arena underneath.
    pub closed spec fn arena(&self) -> Slab<Node<T>> {
        self.slab
    }

    /// What an id resolves to: nothing if it belongs to another tree, else what its handle
    /// resolves to in the arena.
    pub open spec fn lookup(&self, node_id: NodeId) -> Option<Node<T>> {
        if node_id.tree_id == self.tree_id() {
            self.arena().lookup(node_id.index)
        } else {
            None
        }
    }

    pub open spec fn wf(&self) -> bool {
        self.arena().wf()
    }

    /// This tree's identifier.
    pub fn identifier(&self) -> (r: ProcessUniqueId)
        ensures
            r == self.tree_id(),
    {
        self.id
    }

    /// Creates an empty layer under a fresh identifier.
    pub fn new(capacity: usize) -> (r: CoreTree<T>)
        ensures
            r.wf(),
            forall|id: NodeId| #[trigger] r.lookup(id) is None,
            r.arena().slots().len() == 0,
            r.arena().current_generation() == 0,
    {
        CoreTree { id: ProcessUniqueId::new(), slab: Slab::new(capacity) }
    }

    pub fn capacity(&self) -> (r: usize)
        ensures
            r >= self.arena().slots().len(),
    {
        self.slab.capacity()
    }

    /// Stores a new, unlinked node holding `data` and returns its id.
    pub fn insert(&mut self, data: T) -> (r: NodeId)
        requires
            old(self).wf(),
        ensures
            final(self).wf(),
            final(self).tree_id() == old(self).tree_id(),
            r.tree_id == old(self).tree_id(),
            old(self).lookup(r) is None,
            final(self).lookup(r) == Some((Node { data, relatives: unlinked() })),
            forall|k: NodeId| k != r ==> final(self).lookup(k) == old(self).lookup(k),
            Slab::inserted(old(self).arena(), (Node { data, relatives: unlinked() }), final(self).arena(), r.index),
    {
        let index = self.slab.insert(Node::new(data));
        NodeId { tree_id: self.id, index }
    }

    /// Removes the node that `node_id` resolves to and returns its data; an id of another tree,
    /// or one that resolves to nothing, yields `None` and changes nothing.
    pub fn remove(&mut self, node_id: NodeId) -> (r: Option<T>)
        requires
            old(self).wf(),
            old(self).arena().current_generation() < u64::MAX,
        ensures
            final(self).wf(),
            final(self).tree_id() == old(self).tree_id(),
            old(self).lookup(node_id) is None ==> r is None && *final(self) == *old(self),
            old(self).lookup(node_id) is Some ==> {
                &&& r == Some(old(self).lookup(node_id)->Some_0.data)
                &&& final(self).lookup(node_id) is None
                &&& forall|k: NodeId| k != node_id ==> final(self).lookup(k) == old(self).lookup(k)
                &&& final(self).arena().current_generation() == old(self).arena().current_generation() + 1
                &&& final(self).arena().slots().len() == old(self).arena().slots().len()
            },
    {
        if !(node_id.tree_id == self.id) {
            return None;
        }
        match self.slab.remove(node_id.index) {
            Some(node) => Some(node.data),
            None => None,
        }
    }

    /// The node that `node_id` resolves to; `WrongTree` for an id of another tree, `BadNodeId`
    /// for one that resolves to nothing.
    pub fn get(&self, node_id: NodeId) -> (r: Result<&Node<T>, NodeIdError>)
        ensures
            node_id.tree_id != self.tree_id() <==> r == Err::<&Node<T>, NodeIdError>(
                NodeIdError::WrongTree,
            ),
            node_id.tree_id == self.tree_id() && self.lookup(node_id) is None <==> r == Err::<
                &Node<T>,
                NodeIdError,
            >(NodeIdError::BadNodeId),
            r is Ok <==> self.lookup(node_id) is Some,
            r is Ok ==> *r->Ok_0 == self.lookup(node_id)->Some_0,
    {
        if !(node_id.tree_id == self.id) {
            return Err(NodeIdError::WrongTree);
        }
        match self.slab.get(node_id.index) {
            Some(node) => Ok(node),
            None => Err(NodeIdError::BadNodeId),
        }
    }

    /// Mutable access to the node that `node_id` resolves to, with the same errors as `get`.
    pub fn get_mut(&mut self, node_id: NodeId) -> (r: Result<&mut Node<T>, NodeIdError>)
        ensures
            node_id.tree_id != old(self).tree_id() <==> r == Err::<&mut Node<T>, NodeIdError>(
                NodeIdError::WrongTree,
            ),
            node_id.tree_id == old(self).tree_id() && old(self).lookup(node_id) is None <==> r
                == Err::<&mut Node<T>, NodeIdError>(NodeIdError::BadNodeId),
            r is Ok <==> old(self).lookup(node_id) is Some,
            r is Ok ==> *r->Ok_0 == old(self).lookup(node_id)->Some_0,
            r is Ok ==> final(self).lookup(node_id) == Some(*final(r->Ok_0)),
            r is Ok ==> forall|k: NodeId| k != node_id ==> final(self).lookup(k) == old(self).lookup(k),
            r is Ok ==> final(self).arena().slots().len() == old(self).arena().slots().len(),
            r is Ok && old(self).wf() ==> final(self).wf(),
            r is Err ==> *final(self) == *old(self),
            final(self).tree_id() == old(self).tree_id(),
            final(self).arena().current_generation() == old(self).arena().current_generation(),
    {
        if !(node_id.tree_id == self.id) {
            return Err(NodeIdError::WrongTree);
        }
        match self.slab.get_mut(node_id.index) {
            Some(node) => Ok(node),
            None => Err(NodeIdError::BadNodeId),
        }
    }
}

/// An id whose tree identifier is not the layer's own is always rejected as `WrongTree`, never
/// resolved to a node of this layer.
pub proof fn lemma_foreign_id_rejected<T>(t: CoreTree<T>, node_id: NodeId)
    requires
        node_id.tree_id != t.tree_id(),
    ensures
        t.lookup(node_id) is None,
{
}

} // verus!
