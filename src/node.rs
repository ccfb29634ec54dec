use crate::behaviors::RemoveBehavior;
use crate::core_tree::NodeId;
use crate::tree::Tree;
use vstd::prelude::*;

verus! {

/// The five links that place a node in its tree.
#[derive(Copy, Clone, Debug)]
pub struct Relatives {
    pub parent: Option<NodeId>,
    pub prev_sibling: Option<NodeId>,
    pub next_sibling: Option<NodeId>,
    pub first_child: Option<NodeId>,
    pub last_child: Option<NodeId>,
}

/// A node record: the payload and its links.
#[derive(Debug)]
pub struct Node<T> {
    pub data: T,
    pub relatives: Relatives,
}

/// A node with no links at all.
pub open spec fn unlinked() -> Relatives {
    Relatives {
        parent: None,
        prev_sibling: None,
        next_sibling: None,
        first_child: None,
        last_child: None,
    }
}

impl<T> Node<T> {
    /// A node holding `data`, not yet linked to anything.
    pub fn new(data: T) -> (r: Node<T>)
        ensures
            r == (Node { data, relatives: unlinked() }),
    {
        Node {
            data,
            relatives: Relatives {
                parent: None,
                prev_sibling: None,
                next_sibling: None,
                first_child: None,
                last_child: None,
            },
        }
    }
}

} // verus!

verus! {

/// A read-only view of one node: its id plus a borrow of the tree that holds it. Every accessor
/// looks the node up afresh.
pub struct NodeRef<'a, T> {
    node_id: NodeId,
    tree: &'a Tree<T>,
}

impl<'a, T> NodeRef<'a, T> {
    /// The id of the viewed node.
    pub closed spec fn id(&self) -> NodeId {
        self.node_id
    }

    /// The tree the view borrows.
    pub closed spec fn owner(&self) -> Tree<T> {
        *self.tree
    }

    /// The view points at a node of a well-formed tree.
    pub open spec fn valid(&self) -> bool {
        self.owner().wf() && self.owner().contains(self.id())
    }

    pub(crate) fn new(node_id: NodeId, tree: &'a Tree<T>) -> (r: NodeRef<'a, T>)
        ensures
            r.id() == node_id,
            r.owner() == *tree,
    {
        NodeRef { node_id, tree }
    }

    /// The id of the viewed node.
    pub fn node_id(&self) -> (r: NodeId)
        ensures
            r == self.id(),
    {
        self.node_id
    }

    /// The links of the viewed node.
    fn links(&self) -> (r: Relatives)
        requires
            self.valid(),
        ensures
            r == self.owner().rel(self.id()),
    {
        match self.tree.get_node(self.node_id) {
            Some(node) => node.relatives,
            None => Relatives {
                parent: None,
                prev_sibling: None,
                next_sibling: None,
                first_child: None,
                last_child: None,
            },
        }
    }

    /// A view of the node that `link` names in the same tree.
    fn follow(&self, link: Option<NodeId>) -> (r: Option<NodeRef<'a, T>>)
        ensures
            r is Some <==> link is Some,
            r is Some ==> r->Some_0.id() == link->Some_0 && r->Some_0.owner() == self.owner(),
    {
        match link {
            Some(id) => Some(NodeRef { node_id: id, tree: self.tree }),
            None => None,
        }
    }

    /// The data of the viewed node.
    pub fn data(&self) -> (r: &'a T)
        requires
            self.valid(),
        ensures
            *r == self.owner().data_of(self.id()),
    {
        self.tree.get_node(self.node_id).unwrap().data_ref()
    }

    /// A view of the parent, if there is one.
    pub fn parent(&self) -> (r: Option<NodeRef<'a, T>>)
        requires
            self.valid(),
        ensures
            r is Some <==> self.owner().rel(self.id()).parent is Some,
            r is Some ==> r->Some_0.id() == self.owner().rel(self.id()).parent->Some_0
                && r->Some_0.owner() == self.owner() && r->Some_0.valid(),
    {
        proof {
            self.owner().lemma_links_resolve(self.id());
        }
        self.follow(self.links().parent)
    }

    /// A view of the previous sibling, if there is one.
    pub fn prev_sibling(&self) -> (r: Option<NodeRef<'a, T>>)
        requires
            self.valid(),
        ensures
            r is Some <==> self.owner().rel(self.id()).prev_sibling is Some,
            r is Some ==> r->Some_0.id() == self.owner().rel(self.id()).prev_sibling->Some_0
                && r->Some_0.owner() == self.owner() && r->Some_0.valid(),
    {
        proof {
            self.owner().lemma_links_resolve(self.id());
        }
        self.follow(self.links().prev_sibling)
    }

    /// A view of the next sibling, if there is one.
    pub fn next_sibling(&self) -> (r: Option<NodeRef<'a, T>>)
        requires
            self.valid(),
        ensures
            r is Some <==> self.owner().rel(self.id()).next_sibling is Some,
            r is Some ==> r->Some_0.id() == self.owner().rel(self.id()).next_sibling->Some_0
                && r->Some_0.owner() == self.owner() && r->Some_0.valid(),
    {
        proof {
            self.owner().lemma_links_resolve(self.id());
        }
        self.follow(self.links().next_sibling)
    }

    /// A view of the first child, if there is one.
    pub fn first_child(&self) -> (r: Option<NodeRef<'a, T>>)
        requires
            self.valid(),
        ensures
            r is Some <==> self.owner().rel(self.id()).first_child is Some,
            r is Some ==> r->Some_0.id() == self.owner().rel(self.id()).first_child->Some_0
                && r->Some_0.owner() == self.owner() && r->Some_0.valid(),
    {
        proof {
            self.owner().lemma_links_resolve(self.id());
        }
        self.follow(self.links().first_child)
    }

    /// A view of the last child, if there is one.
    pub fn last_child(&self) -> (r: Option<NodeRef<'a, T>>)
        requires
            self.valid(),
        ensures
            r is Some <==> self.owner().rel(self.id()).last_child is Some,
            r is Some ==> r->Some_0.id() == self.owner().rel(self.id()).last_child->Some_0
                && r->Some_0.owner() == self.owner() && r->Some_0.valid(),
    {
        proof {
            self.owner().lemma_links_resolve(self.id());
        }
        self.follow(self.links().last_child)
    }

    /// Views of the nodes that `ids` lists, in order.
    fn views(&self, ids: Vec<NodeId>) -> (r: Vec<NodeRef<'a, T>>)
        ensures
            r@.len() == ids@.len(),
            forall|i: int|
                0 <= i < ids@.len() ==> (#[trigger] r@[i]).id() == ids@[i] && r@[i].owner()
                    == self.owner(),
    {
        let mut out: Vec<NodeRef<'a, T>> = Vec::new();
        let mut i: usize = 0;
        while i < ids.len()
            invariant
                i <= ids@.len(),
                out@.len() == i,
                forall|j: int|
                    0 <= j < i ==> (#[trigger] out@[j]).id() == ids@[j] && out@[j].owner()
                        == self.owner(),
            decreases ids@.len() - i,
        {
            out.push(NodeRef { node_id: ids[i], tree: self.tree });
            i = i + 1;
        }
        out
    }

    /// Views of the children, first to last.
    pub fn children(&self) -> (r: Vec<NodeRef<'a, T>>)
        requires
            self.valid(),
        ensures
            r@.len() == self.owner().children_of(self.id()).len(),
            forall|i: int|
                0 <= i < r@.len() ==> (#[trigger] r@[i]).id() == self.owner().children_of(
                    self.id(),
                )[i] && r@[i].owner() == self.owner(),
    {
        let ids = self.tree.children_ids(self.node_id);
        self.views(ids)
    }

    /// Views of the walk up from this node: the node itself, then each parent in turn, stopping
    /// before the top of the tree.
    pub fn ancestors(&self) -> (r: Vec<NodeRef<'a, T>>)
        requires
            self.valid(),
        ensures
            r@.len() == self.owner().ancestors_of(self.id()).len(),
            forall|i: int|
                0 <= i < r@.len() ==> (#[trigger] r@[i]).id() == self.owner().ancestors_of(
                    self.id(),
                )[i] && r@[i].owner() == self.owner(),
    {
        let ids = self.tree.ancestor_ids(self.node_id);
        self.views(ids)
    }

    /// Views of the whole subtree in pre-order: each node before its children, the children
    /// first to last.
    pub fn traverse_pre_order(&self) -> (r: Vec<NodeRef<'a, T>>)
        requires
            self.valid(),
        ensures
            r@.len() == self.owner().pre_seq(self.id()).len(),
            forall|i: int|
                0 <= i < r@.len() ==> (#[trigger] r@[i]).id() == self.owner().pre_seq(self.id())[i]
                    && r@[i].owner() == self.owner(),
            self.owner().lists_subtree(self.id(), self.owner().pre_seq(self.id())),
    {
        let ids = self.tree.pre_order_ids(self.node_id);
        self.views(ids)
    }

    /// Views of the whole subtree in post-order: each node after its children, the children
    /// first to last, this node last.
    pub fn traverse_post_order(&self) -> (r: Vec<NodeRef<'a, T>>)
        requires
            self.valid(),
        ensures
            r@.len() == self.owner().post_seq(self.id()).len(),
            forall|i: int|
                0 <= i < r@.len() ==> (#[trigger] r@[i]).id() == self.owner().post_seq(self.id())[i]
                    && r@[i].owner() == self.owner(),
            self.owner().lists_subtree(self.id(), self.owner().post_seq(self.id())),
    {
        let ids = self.tree.post_order_ids(self.node_id);
        self.views(ids)
    }

    /// Views of the whole subtree, level by level and each level from left to right.
    pub fn traverse_level_order(&self) -> (r: Vec<NodeRef<'a, T>>)
        requires
            self.valid(),
        ensures
            exists|ids: Seq<NodeId>|
                self.owner().level_order_of(self.id(), ids) && ids.len() == r@.len() && forall|
                    i: int,
                |
                    0 <= i < ids.len() ==> (#[trigger] r@[i]).id() == ids[i] && r@[i].owner()
                        == self.owner(),
    {
        let ids = self.tree.level_order_ids(self.node_id);
        let ghost s = ids@;
        let r = self.views(ids);
        assert(self.owner().level_order_of(self.id(), s));
        r
    }
}

impl<T> Node<T> {
    /// The payload.
    pub fn data_ref(&self) -> (r: &T)
        ensures
            *r == self.data,
    {
        &self.data
    }
}

/// A read-write view of one node: its id plus the exclusive borrow of its tree. Structural
/// changes made through it go to the tree's engine; while it lives, nothing else can read or
/// change the tree.
pub struct NodeMut<'a, T> {
    node_id: NodeId,
    tree: &'a mut Tree<T>,
}

impl<'a, T> NodeMut<'a, T> {
    /// The id of the viewed node.
    pub closed spec fn id(&self) -> NodeId {
        self.node_id
    }

    /// The tree as the view currently sees it.
    pub closed spec fn owner(&self) -> Tree<T> {
        *self.tree
    }

    /// The borrow of the tree itself.
    pub closed spec fn tree_ref(&self) -> &'a mut Tree<T> {
        self.tree
    }

    /// The view points at a node of a well-formed tree.
    pub open spec fn valid(&self) -> bool {
        self.owner().wf() && self.owner().contains(self.id())
    }

    pub(crate) fn new(node_id: NodeId, tree: &'a mut Tree<T>) -> (r: NodeMut<'a, T>)
        ensures
            r.id() == node_id,
            r.owner() == *old(tree),
            *final(tree) == *final(r.tree_ref()),
            r.owner() == *r.tree_ref(),
    {
        NodeMut { node_id, tree }
    }

    /// The id of the viewed node.
    pub fn node_id(&self) -> (r: NodeId)
        ensures
            r == self.id(),
    {
        self.node_id
    }

    /// Mutable access to the data of the viewed node.
    pub fn data(&mut self) -> (r: &mut T)
        requires
            old(self).valid(),
        ensures
            *r == old(self).owner().data_of(old(self).id()),
            final(self).id() == old(self).id(),
            final(self).owner().node(old(self).id()) == Some(
                Node { data: *final(r), relatives: old(self).owner().rel(old(self).id()) },
            ),
            forall|k: NodeId|
                k != old(self).id() ==> #[trigger] final(self).owner().node(k) == old(
                    self,
                ).owner().node(k),
            *final(final(self).tree_ref()) == *final(old(self).tree_ref()),
    {
        self.tree.data_mut(self.node_id)
    }

    /// A read-only view of the same node.
    pub fn as_ref(&self) -> (r: NodeRef<'_, T>)
        ensures
            r.id() == self.id(),
            r.owner() == self.owner(),
    {
        NodeRef::new(self.node_id, self.tree)
    }

    /// A read-write view of the node that `link` names, borrowing the tree from this view.
    fn follow(&mut self, link: Option<NodeId>) -> (r: Option<NodeMut<'_, T>>)
        ensures
            r is Some <==> link is Some,
            r is Some ==> r->Some_0.id() == link->Some_0 && r->Some_0.owner() == old(self).owner()
                && *final(self).tree_ref() == *final(r->Some_0.tree_ref()),
            r is None ==> *final(self) == *old(self),
            final(self).id() == old(self).id(),
            *final(final(self).tree_ref()) == *final(old(self).tree_ref()),
    {
        match link {
            Some(id) => Some(NodeMut { node_id: id, tree: &mut *self.tree }),
            None => None,
        }
    }

    /// The links of the viewed node.
    fn links(&self) -> (r: Relatives)
        requires
            self.valid(),
        ensures
            r == self.owner().rel(self.id()),
    {
        self.as_ref().links()
    }

    /// A read-write view of the parent, if there is one.
    pub fn parent(&mut self) -> (r: Option<NodeMut<'_, T>>)
        requires
            old(self).valid(),
        ensures
            r is Some <==> old(self).owner().rel(old(self).id()).parent is Some,
            r is Some ==> r->Some_0.id() == old(self).owner().rel(old(self).id()).parent->Some_0
                && r->Some_0.owner() == old(self).owner(),
            final(self).id() == old(self).id(),
    {
        let link = self.links().parent;
        self.follow(link)
    }

    /// A read-write view of the previous sibling, if there is one.
    pub fn prev_sibling(&mut self) -> (r: Option<NodeMut<'_, T>>)
        requires
            old(self).valid(),
        ensures
            r is Some <==> old(self).owner().rel(old(self).id()).prev_sibling is Some,
            r is Some ==> r->Some_0.id() == old(self).owner().rel(old(self).id()).prev_sibling->Some_0
                && r->Some_0.owner() == old(self).owner(),
            final(self).id() == old(self).id(),
    {
        let link = self.links().prev_sibling;
        self.follow(link)
    }

    /// A read-write view of the next sibling, if there is one.
    pub fn next_sibling(&mut self) -> (r: Option<NodeMut<'_, T>>)
        requires
            old(self).valid(),
        ensures
            r is Some <==> old(self).owner().rel(old(self).id()).next_sibling is Some,
            r is Some ==> r->Some_0.id() == old(self).owner().rel(old(self).id()).next_sibling->Some_0
                && r->Some_0.owner() == old(self).owner(),
            final(self).id() == old(self).id(),
    {
        let link = self.links().next_sibling;
        self.follow(link)
    }

    /// A read-write view of the first child, if there is one.
    pub fn first_child(&mut self) -> (r: Option<NodeMut<'_, T>>)
        requires
            old(self).valid(),
        ensures
            r is Some <==> old(self).owner().rel(old(self).id()).first_child is Some,
            r is Some ==> r->Some_0.id() == old(self).owner().rel(old(self).id()).first_child->Some_0
                && r->Some_0.owner() == old(self).owner(),
            final(self).id() == old(self).id(),
    {
        let link = self.links().first_child;
        self.follow(link)
    }

    /// A read-write view of the last child, if there is one.
    pub fn last_child(&mut self) -> (r: Option<NodeMut<'_, T>>)
        requires
            old(self).valid(),
        ensures
            r is Some <==> old(self).owner().rel(old(self).id()).last_child is Some,
            r is Some ==> r->Some_0.id() == old(self).owner().rel(old(self).id()).last_child->Some_0
                && r->Some_0.owner() == old(self).owner(),
            final(self).id() == old(self).id(),
    {
        let link = self.links().last_child;
        self.follow(link)
    }

    /// Adds a node holding `data` as the last child of the viewed node and returns a view of it.
    pub fn append(&mut self, data: T) -> (r: NodeMut<'_, T>)
        requires
            old(self).valid(),
        ensures
            Tree::appended(old(self).owner(), old(self).id(), data, r.owner(), r.id()),
            r.valid(),
            final(self).id() == old(self).id(),
            *final(self).tree_ref() == *final(r.tree_ref()),
            *final(final(self).tree_ref()) == *final(old(self).tree_ref()),
    {
        let id = self.tree.append_child(self.node_id, data);
        NodeMut { node_id: id, tree: &mut *self.tree }
    }

    /// Adds a node holding `data` as the first child of the viewed node and returns a view of
    /// it.
    pub fn prepend(&mut self, data: T) -> (r: NodeMut<'_, T>)
        requires
            old(self).valid(),
        ensures
            Tree::prepended(old(self).owner(), old(self).id(), data, r.owner(), r.id()),
            r.valid(),
            final(self).id() == old(self).id(),
            *final(self).tree_ref() == *final(r.tree_ref()),
            *final(final(self).tree_ref()) == *final(old(self).tree_ref()),
    {
        let id = self.tree.prepend_child(self.node_id, data);
        NodeMut { node_id: id, tree: &mut *self.tree }
    }

    /// Removes the first child of the viewed node and returns its data; `None` if there is no
    /// child. With `OrphanChildren` exactly that one node is freed (its own children stay, with
    /// no parent); with `DropChildren` its whole subtree goes with it.
    pub fn remove_first(&mut self, behavior: RemoveBehavior) -> (r: Option<T>)
        requires
            old(self).valid(),
            old(self).owner().removals_left() >= old(self).owner().slot_count(),
        ensures
            final(self).id() == old(self).id(),
            final(self).owner().wf(),
            final(self).owner().contains(final(self).id()),
            match old(self).owner().rel(old(self).id()).first_child {
                None => r is None && final(self).owner() == old(self).owner(),
                Some(c) => Tree::removed_with(old(self).owner(), c, behavior, final(self).owner(), r),
            },
            *final(final(self).tree_ref()) == *final(old(self).tree_ref()),
    {
        let first = self.links().first_child;
        proof {
            self.owner().lemma_links_resolve(self.id());
            if let Some(c) = first {
                self.owner().lemma_child_not_removed(self.id(), c);
            }
        }
        match first {
            Some(c) => self.tree.remove(c, behavior),
            None => None,
        }
    }

    /// Removes the last child of the viewed node and returns its data; `None` if there is no
    /// child. With `OrphanChildren` exactly that one node is freed (its own children stay, with
    /// no parent); with `DropChildren` its whole subtree goes with it.
    pub fn remove_last(&mut self, behavior: RemoveBehavior) -> (r: Option<T>)
        requires
            old(self).valid(),
            old(self).owner().removals_left() >= old(self).owner().slot_count(),
        ensures
            final(self).id() == old(self).id(),
            final(self).owner().wf(),
            final(self).owner().contains(final(self).id()),
            match old(self).owner().rel(old(self).id()).last_child {
                None => r is None && final(self).owner() == old(self).owner(),
                Some(c) => Tree::removed_with(old(self).owner(), c, behavior, final(self).owner(), r),
            },
            *final(final(self).tree_ref()) == *final(old(self).tree_ref()),
    {
        let last = self.links().last_child;
        proof {
            self.owner().lemma_links_resolve(self.id());
            if let Some(c) = last {
                self.owner().lemma_child_not_removed(self.id(), c);
            }
        }
        match last {
            Some(c) => self.tree.remove(c, behavior),
            None => None,
        }
    }
    /// Exchanges the viewed node with its next sibling; `false`, changing nothing, if it has
    /// none.
    pub fn swap_next_sibling(&mut self) -> (r: bool)
        requires
            old(self).valid(),
        ensures
            final(self).id() == old(self).id(),
            final(self).owner().wf(),
            Tree::swapped_next(old(self).owner(), old(self).id(), final(self).owner(), r),
            *final(final(self).tree_ref()) == *final(old(self).tree_ref()),
    {
        self.tree.swap_with_next(self.node_id)
    }

    /// Exchanges the viewed node with its previous sibling; `false`, changing nothing, if it
    /// has none.
    pub fn swap_prev_sibling(&mut self) -> (r: bool)
        requires
            old(self).valid(),
        ensures
            final(self).id() == old(self).id(),
            final(self).owner().wf(),
            Tree::swapped_prev(old(self).owner(), old(self).id(), final(self).owner(), r),
            *final(final(self).tree_ref()) == *final(old(self).tree_ref()),
    {
        self.tree.swap_with_prev(self.node_id)
    }

    /// Moves the viewed node to the end of its sibling list; `false`, changing nothing, if it is
    /// already last or has no parent.
    pub fn make_last_sibling(&mut self) -> (r: bool)
        requires
            old(self).valid(),
        ensures
            final(self).id() == old(self).id(),
            final(self).owner().wf(),
            Tree::moved_last(old(self).owner(), old(self).id(), final(self).owner(), r),
            *final(final(self).tree_ref()) == *final(old(self).tree_ref()),
    {
        self.tree.make_last(self.node_id)
    }

    /// Moves the viewed node to the front of its sibling list; `false`, changing nothing, if it
    /// is already first or has no parent.
    pub fn make_first_sibling(&mut self) -> (r: bool)
        requires
            old(self).valid(),
        ensures
            final(self).id() == old(self).id(),
            final(self).owner().wf(),
            Tree::moved_first(old(self).owner(), old(self).id(), final(self).owner(), r),
            *final(final(self).tree_ref()) == *final(old(self).tree_ref()),
    {
        self.tree.make_first(self.node_id)
    }
}

} // verus!
