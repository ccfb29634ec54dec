use crate::behaviors::RemoveBehavior;
use crate::core_tree::is_node;
use crate::core_tree::same_node as same_node_ids;
use crate::core_tree::CoreTree;
use crate::core_tree::NodeId;
use crate::error::NodeIdError;
use crate::node::unlinked;
use crate::node::Node;
use crate::node::NodeMut;
use crate::node::NodeRef;
use crate::node::Relatives;
use snowflake::ProcessUniqueId;
use vstd::prelude::*;
use vstd::set_lib::lemma_int_range;
use vstd::set_lib::lemma_len_subset;
use vstd::set_lib::set_int_range;

verus! {

/// A tree of nodes that live in one arena and refer to each other by `NodeId`.
///
/// Besides the arena, a tree keeps (as ghost state, never compiled) the ordered list of each
/// node's children and a depth for each node. Its well-formedness says that the five links of
/// every node agree with those lists: a parent's first and last child are the ends of its list,
/// each child points back at its parent and at its neighbours in the list, and a child is one
/// level deeper than its parent, so that no chain of parent links ever comes back to where it
/// started. Nodes without a parent (the root, and orphans) keep reciprocal sibling links.
pub struct Tree<T> {
    root_id: Option<NodeId>,
    core_tree: CoreTree<T>,
    kids: Ghost<Map<NodeId, Seq<NodeId>>>,
    depth: Ghost<Map<NodeId, nat>>,
    bound: Ghost<nat>,
}

impl<T> Tree<T> {
    /// The node record that `id` resolves to in this tree.
    pub closed spec fn node(&self, id: NodeId) -> Option<Node<T>> {
        self.core_tree.lookup(id)
    }

    /// Whether `id` resolves in this tree.
    pub open spec fn contains(&self, id: NodeId) -> bool {
        self.node(id) is Some
    }

    /// The links of the node `id`.
    pub open spec fn rel(&self, id: NodeId) -> Relatives {
        self.node(id)->Some_0.relatives
    }

    /// The payload of the node `id`.
    pub open spec fn data_of(&self, id: NodeId) -> T {
        self.node(id)->Some_0.data
    }

    /// The id of the root, if there is one.
    pub closed spec fn root_node(&self) -> Option<NodeId> {
        self.root_id
    }

    /// The identifier that every id handed out by this tree carries.
    pub closed spec fn ident(&self) -> ProcessUniqueId {
        self.core_tree.tree_id()
    }

    /// The children of `id`, first to last.
    pub closed spec fn children_of(&self, id: NodeId) -> Seq<NodeId> {
        self.kids@[id]
    }

    /// How deep `id` sits: one more than its parent.
    pub closed spec fn depth_of(&self, id: NodeId) -> nat {
        self.depth@[id]
    }

    /// A number above the depth of every node.
    pub closed spec fn depth_bound(&self) -> nat {
        self.bound@
    }

    /// The number of slots in the arena, empty or filled.
    pub closed spec fn slot_count(&self) -> nat {
        self.core_tree.arena().slots().len()
    }

    /// How many more removals the arena's generation counter can take.
    pub closed spec fn removals_left(&self) -> int {
        u64::MAX - self.core_tree.arena().current_generation()
    }

    spec fn kid_links_ok(&self, p: NodeId, i: int) -> bool {
        let ks = self.children_of(p);
        let c = ks[i];
        &&& self.contains(c)
        &&& self.rel(c).parent == Some(p)
        &&& self.rel(c).prev_sibling == (if i == 0 {
            None
        } else {
            Some(ks[i - 1])
        })
        &&& self.rel(c).next_sibling == (if i == ks.len() - 1 {
            None
        } else {
            Some(ks[i + 1])
        })
        &&& self.depth_of(c) == self.depth_of(p) + 1
    }

    spec fn kids_ok(&self, p: NodeId) -> bool {
        let ks = self.children_of(p);
        &&& ks.no_duplicates()
        &&& self.rel(p).first_child == (if ks.len() == 0 {
            None
        } else {
            Some(ks[0])
        })
        &&& self.rel(p).last_child == (if ks.len() == 0 {
            None
        } else {
            Some(ks[ks.len() - 1])
        })
        &&& forall|i: int| 0 <= i < ks.len() ==> #[trigger] self.kid_links_ok(p, i)
    }

    spec fn parent_ok(&self, c: NodeId) -> bool {
        match self.rel(c).parent {
            Some(p) => self.contains(p) && self.children_of(p).contains(c),
            None => {
                &&& (self.rel(c).next_sibling matches Some(y) ==> self.contains(y)
                    && self.rel(y).parent is None && self.rel(y).prev_sibling == Some(c))
                &&& (self.rel(c).prev_sibling matches Some(y) ==> self.contains(y)
                    && self.rel(y).parent is None && self.rel(y).next_sibling == Some(c))
            },
        }
    }

    /// The tree's well-formedness (see the type's documentation).
    #[verifier::opaque]
    pub closed spec fn wf(&self) -> bool {
        &&& self.core_tree.wf()
        &&& (self.root_id matches Some(r) ==> {
            &&& self.contains(r)
            &&& self.rel(r).parent is None
            &&& self.rel(r).prev_sibling is None
            &&& self.rel(r).next_sibling is None
        })
        &&& forall|p: NodeId| #[trigger] self.contains(p) ==> self.kids_ok(p) && self.parent_ok(p)
        &&& forall|p: NodeId| #[trigger] self.contains(p) ==> self.depth_of(p) < self.depth_bound()
    }

    /// Every node that `post` holds is held by `pre` too, with the same record, except those in
    /// `changed`.
    pub open spec fn same_except(pre: Self, post: Self, changed: Set<NodeId>) -> bool {
        forall|k: NodeId| !changed.contains(k) ==> #[trigger] post.node(k) == pre.node(k)
    }

    /// Children lists stay the same, except those of the nodes in `changed`.
    pub open spec fn same_kids_except(pre: Self, post: Self, changed: Set<NodeId>) -> bool {
        forall|k: NodeId|
            !changed.contains(k) && pre.contains(k) ==> #[trigger] post.children_of(k)
                == pre.children_of(k)
    }

    /// What `append` does: a fresh node `r` holding `data` becomes the last child of `parent`,
    /// linked after the former last child; nothing else changes.
    pub open spec fn appended(pre: Self, parent: NodeId, data: T, post: Self, r: NodeId) -> bool {
        let ks = pre.children_of(parent);
        let pr = pre.rel(parent);
        &&& !pre.contains(r)
        &&& post.node(r) == Some(
            Node {
                data,
                relatives: Relatives {
                    parent: Some(parent),
                    prev_sibling: pr.last_child,
                    next_sibling: None,
                    first_child: None,
                    last_child: None,
                },
            },
        )
        &&& post.node(parent) == Some(
            Node {
                data: pre.data_of(parent),
                relatives: Relatives {
                    parent: pr.parent,
                    prev_sibling: pr.prev_sibling,
                    next_sibling: pr.next_sibling,
                    first_child: if ks.len() == 0 {
                        Some(r)
                    } else {
                        pr.first_child
                    },
                    last_child: Some(r),
                },
            },
        )
        &&& (pr.last_child matches Some(l) ==> post.node(l) == Some(
            Node {
                data: pre.data_of(l),
                relatives: Relatives {
                    parent: pre.rel(l).parent,
                    prev_sibling: pre.rel(l).prev_sibling,
                    next_sibling: Some(r),
                    first_child: pre.rel(l).first_child,
                    last_child: pre.rel(l).last_child,
                },
            },
        ))
        &&& Self::same_except(
            pre,
            post,
            if pr.last_child is Some {
                set![r, parent, pr.last_child->Some_0]
            } else {
                set![r, parent]
            },
        )
        &&& post.children_of(parent) == ks.push(r)
        &&& post.children_of(r) == Seq::<NodeId>::empty()
        &&& Self::same_kids_except(pre, post, set![parent])
        &&& post.root_node() == pre.root_node()
        &&& post.ident() == pre.ident()
        &&& pre.slot_count() <= post.slot_count() <= pre.slot_count() + 1
        &&& post.removals_left() == pre.removals_left()
    }

    /// What `prepend` does: a fresh node `r` holding `data` becomes the first child of
    /// `parent`, linked before the former first child; nothing else changes.
    pub open spec fn prepended(pre: Self, parent: NodeId, data: T, post: Self, r: NodeId) -> bool {
        let ks = pre.children_of(parent);
        let pr = pre.rel(parent);
        &&& !pre.contains(r)
        &&& post.node(r) == Some(
            Node {
                data,
                relatives: Relatives {
                    parent: Some(parent),
                    prev_sibling: None,
                    next_sibling: pr.first_child,
                    first_child: None,
                    last_child: None,
                },
            },
        )
        &&& post.node(parent) == Some(
            Node {
                data: pre.data_of(parent),
                relatives: Relatives {
                    parent: pr.parent,
                    prev_sibling: pr.prev_sibling,
                    next_sibling: pr.next_sibling,
                    first_child: Some(r),
                    last_child: if ks.len() == 0 {
                        Some(r)
                    } else {
                        pr.last_child
                    },
                },
            },
        )
        &&& (pr.first_child matches Some(f) ==> post.node(f) == Some(
            Node {
                data: pre.data_of(f),
                relatives: Relatives {
                    parent: pre.rel(f).parent,
                    prev_sibling: Some(r),
                    next_sibling: pre.rel(f).next_sibling,
                    first_child: pre.rel(f).first_child,
                    last_child: pre.rel(f).last_child,
                },
            },
        ))
        &&& Self::same_except(
            pre,
            post,
            if pr.first_child is Some {
                set![r, parent, pr.first_child->Some_0]
            } else {
                set![r, parent]
            },
        )
        &&& post.children_of(parent) == seq![r] + ks
        &&& post.children_of(r) == Seq::<NodeId>::empty()
        &&& Self::same_kids_except(pre, post, set![parent])
        &&& post.root_node() == pre.root_node()
        &&& post.ident() == pre.ident()
        &&& pre.slot_count() <= post.slot_count() <= pre.slot_count() + 1
        &&& post.removals_left() == pre.removals_left()
    }

    /// What `set_root` does: a fresh node `r` holding `data` becomes the root; the former root,
    /// if any, becomes its only child; nothing else changes.
    pub open spec fn root_set(pre: Self, data: T, post: Self, r: NodeId) -> bool {
        &&& !pre.contains(r)
        &&& post.root_node() == Some(r)
        &&& post.node(r) == Some(
            Node {
                data,
                relatives: Relatives {
                    parent: None,
                    prev_sibling: None,
                    next_sibling: None,
                    first_child: pre.root_node(),
                    last_child: pre.root_node(),
                },
            },
        )
        &&& (pre.root_node() matches Some(o) ==> post.node(o) == Some(
            Node {
                data: pre.data_of(o),
                relatives: Relatives {
                    parent: Some(r),
                    prev_sibling: pre.rel(o).prev_sibling,
                    next_sibling: pre.rel(o).next_sibling,
                    first_child: pre.rel(o).first_child,
                    last_child: pre.rel(o).last_child,
                },
            },
        ))
        &&& Self::same_except(
            pre,
            post,
            if pre.root_node() is Some {
                set![r, pre.root_node()->Some_0]
            } else {
                set![r]
            },
        )
        &&& post.children_of(r) == (if pre.root_node() is Some {
            seq![pre.root_node()->Some_0]
        } else {
            Seq::<NodeId>::empty()
        })
        &&& Self::same_kids_except(pre, post, set![r])
        &&& post.ident() == pre.ident()
        &&& pre.slot_count() <= post.slot_count() <= pre.slot_count() + 1
        &&& post.removals_left() == pre.removals_left()
    }

    /// Whether `d` lies in the subtree of `x`: following parent links upwards from `d` reaches
    /// `x` (every node is in its own subtree).
    pub open spec fn is_desc(&self, d: NodeId, x: NodeId) -> bool
        decreases self.depth_of(d),
    {
        if d == x {
            true
        } else if self.rel(d).parent is Some && self.depth_of(self.rel(d).parent->Some_0)
            < self.depth_of(d) {
            self.is_desc(self.rel(d).parent->Some_0, x)
        } else {
            false
        }
    }

    /// `y` has a parent other than itself, and it is among `s`.
    pub open spec fn parent_among(&self, y: NodeId, s: Seq<NodeId>) -> bool {
        &&& self.rel(y).parent is Some
        &&& s.contains(self.rel(y).parent->Some_0)
        &&& self.rel(y).parent->Some_0 != y
    }

    /// The nodes of the subtree of `start` that lie `d` levels below it, left to right: level
    /// `0` is `start`; each further level lists the children of the previous level's nodes, in
    /// that level's order, each node's children first to last.
    pub open spec fn level(&self, start: NodeId, d: nat) -> Seq<NodeId>
        decreases d,
    {
        if d == 0 {
            seq![start]
        } else {
            self.kids_concat(self.level(start, (d - 1) as nat))
        }
    }

    /// The children of the nodes of `s`, in the order of `s`, concatenated.
    pub open spec fn kids_concat(&self, s: Seq<NodeId>) -> Seq<NodeId>
        decreases s.len(),
    {
        if s.len() == 0 {
            Seq::empty()
        } else {
            self.kids_concat(s.drop_last()) + self.children_of(s.last())
        }
    }

    /// The first `d` levels below `start`, concatenated.
    pub open spec fn levels_upto(&self, start: NodeId, d: nat) -> Seq<NodeId>
        decreases d,
    {
        if d == 0 {
            Seq::empty()
        } else {
            self.levels_upto(start, (d - 1) as nat) + self.level(start, (d - 1) as nat)
        }
    }

    /// What a level-order walk from `start` yields: its levels one after the other, each left to
    /// right, until the first empty level; so `start` first, then every node of its subtree
    /// exactly once, never a deeper node before a shallower one.
    pub open spec fn level_order_of(&self, start: NodeId, r: Seq<NodeId>) -> bool {
        &&& exists|d: nat| r == self.levels_upto(start, d) && self.level(start, d).len() == 0
        &&& r.len() >= 1
        &&& r[0] == start
        &&& r.no_duplicates()
        &&& forall|j: int| 0 <= j < r.len() ==> #[trigger] self.is_desc(r[j], start)
        &&& forall|d: NodeId| #[trigger] self.contains(d) && self.is_desc(d, start) ==> r.contains(d)
        &&& forall|i: int, j: int|
            0 <= i <= j < r.len() ==> self.depth_of(#[trigger] r[i]) <= self.depth_of(
                #[trigger] r[j],
            )
        &&& forall|j: int|
            0 <= j < r.len() ==> #[trigger] self.contains(r[j])
        &&& forall|j: int|
            1 <= j < r.len() ==> #[trigger] self.parent_among(r[j], r)
    }

    /// The links of `k` once `x` has been spliced out of its sibling list: `x`'s parent gets a
    /// new first (last) child if `x` was its first (last), and `x`'s neighbours point past it.
    pub open spec fn spliced_rel(pre: Self, x: NodeId, k: NodeId) -> Relatives {
        let xr = pre.rel(x);
        let r0 = pre.rel(k);
        let r1 = if xr.parent == Some(k) {
            Relatives {
                first_child: if r0.first_child == Some(x) {
                    xr.next_sibling
                } else {
                    r0.first_child
                },
                last_child: if r0.last_child == Some(x) {
                    xr.prev_sibling
                } else {
                    r0.last_child
                },
                ..r0
            }
        } else {
            r0
        };
        let r2 = if xr.prev_sibling == Some(k) {
            Relatives { next_sibling: xr.next_sibling, ..r1 }
        } else {
            r1
        };
        if xr.next_sibling == Some(k) {
            Relatives { prev_sibling: xr.prev_sibling, ..r2 }
        } else {
            r2
        }
    }

    /// The record of `k` after `x` is removed with `behavior`: `x` is gone, and with the drop
    /// policy so is its whole subtree; with the orphan policy each child of `x` loses its parent
    /// link; the neighbours and the parent of `x` are re-linked around it; every other node is
    /// left as it was.
    pub open spec fn after_removal(pre: Self, x: NodeId, behavior: RemoveBehavior, k: NodeId) -> Option<
        Node<T>,
    > {
        if !pre.contains(k) || k == x || (behavior is DropChildren && pre.is_desc(k, x)) {
            None
        } else {
            let r = Self::spliced_rel(pre, x, k);
            Some(
                Node {
                    data: pre.data_of(k),
                    relatives: if behavior is OrphanChildren && r.parent == Some(x) {
                        Relatives { parent: None, ..r }
                    } else {
                        r
                    },
                },
            )
        }
    }

    /// What `remove` does. An id that does not resolve changes nothing and yields `None`.
    /// Otherwise the node's data is returned and every node ends up as `after_removal` says;
    /// the node leaves its parent's children list, and the tree loses its root if that was the
    /// node.
    pub open spec fn removed_with(
        pre: Self,
        x: NodeId,
        behavior: RemoveBehavior,
        post: Self,
        r: Option<T>,
    ) -> bool {
        if !pre.contains(x) {
            r is None && post == pre
        } else {
            &&& r == Some(pre.data_of(x))
            &&& forall|k: NodeId| #[trigger] post.node(k) == Self::after_removal(pre, x, behavior, k)
            &&& post.root_node() == (if pre.root_node() == Some(x) {
                None
            } else {
                pre.root_node()
            })
            &&& (pre.rel(x).parent matches Some(p) ==> post.children_of(p) == pre.children_of(
                p,
            ).remove(pre.children_of(p).index_of(x)))
            &&& forall|k: NodeId|
                post.contains(k) && Some(k) != pre.rel(x).parent ==> #[trigger] post.children_of(k)
                    == pre.children_of(k)
            &&& post.ident() == pre.ident()
            &&& post.slot_count() == pre.slot_count()
            &&& pre.removals_left() - pre.slot_count() <= post.removals_left() < pre.removals_left()
        }
    }

    /// The walk from `x` up its parent links: `x` itself first, then each parent in turn,
    /// stopping before the top of the tree (the ancestor that has no parent). A node without a
    /// parent gives the empty walk.
    pub open spec fn ancestors_of(&self, x: NodeId) -> Seq<NodeId>
        decreases self.depth_of(x),
    {
        if self.rel(x).parent is Some && self.depth_of(self.rel(x).parent->Some_0) < self.depth_of(
            x,
        ) {
            seq![x] + self.ancestors_of(self.rel(x).parent->Some_0)
        } else {
            Seq::empty()
        }
    }

    /// Whether `c` may be entered from its parent `n` by the orders below: it is one level
    /// deeper and within the depth bound (always so in a well-formed tree).
    pub open spec fn enters(&self, n: NodeId, c: NodeId) -> bool {
        self.depth_of(n) < self.depth_of(c) && self.depth_of(c) <= self.depth_bound()
    }

    /// The pre-order of the subtree of `n`: `n`, then the pre-order of each child, first child
    /// first.
    pub open spec fn pre_seq(&self, n: NodeId) -> Seq<NodeId>
        decreases self.depth_bound() - self.depth_of(n), 1int, 0int,
    {
        seq![n] + self.pre_forest(n, 0)
    }

    /// The pre-orders of the children of `n` from position `i` on, concatenated.
    pub open spec fn pre_forest(&self, n: NodeId, i: int) -> Seq<NodeId>
        decreases self.depth_bound() - self.depth_of(n), 0int, self.children_of(n).len() - i,
    {
        if 0 <= i < self.children_of(n).len() {
            let c = self.children_of(n)[i];
            (if self.enters(n, c) {
                self.pre_seq(c)
            } else {
                Seq::empty()
            }) + self.pre_forest(n, i + 1)
        } else {
            Seq::empty()
        }
    }

    /// The mirrored pre-order of the subtree of `n`: `n`, then the mirrored pre-order of each
    /// child, last child first.
    pub open spec fn mirror_pre_seq(&self, n: NodeId) -> Seq<NodeId>
        decreases self.depth_bound() - self.depth_of(n), 1int, 0int,
    {
        seq![n] + self.mirror_forest(n, self.children_of(n).len() - 1)
    }

    /// The mirrored pre-orders of the children of `n` from position `i` down to the first.
    pub open spec fn mirror_forest(&self, n: NodeId, i: int) -> Seq<NodeId>
        decreases self.depth_bound() - self.depth_of(n), 0int, i + 1,
    {
        if 0 <= i < self.children_of(n).len() {
            let c = self.children_of(n)[i];
            (if self.enters(n, c) {
                self.mirror_pre_seq(c)
            } else {
                Seq::empty()
            }) + self.mirror_forest(n, i - 1)
        } else {
            Seq::empty()
        }
    }

    /// The post-order of the subtree of `n`: the post-order of each child, first child first,
    /// then `n`.
    pub open spec fn post_seq(&self, n: NodeId) -> Seq<NodeId>
        decreases self.depth_bound() - self.depth_of(n), 1int, 0int,
    {
        self.post_forest(n, self.children_of(n).len() as int) + seq![n]
    }

    /// The post-orders of the first `i` children of `n`, concatenated.
    pub open spec fn post_forest(&self, n: NodeId, i: int) -> Seq<NodeId>
        decreases self.depth_bound() - self.depth_of(n), 0int, i,
    {
        if 0 < i <= self.children_of(n).len() {
            let c = self.children_of(n)[i - 1];
            self.post_forest(n, i - 1) + (if self.enters(n, c) {
                self.post_seq(c)
            } else {
                Seq::empty()
            })
        } else {
            Seq::empty()
        }
    }

    /// What the cursors of a depth-first walk still owe, the top cursor first: cursor `(q, i)`
    /// owes the (mirrored) pre-orders of the children of `q` from position `i` on.
    pub open spec fn pending(&self, mirror: bool, gs: Seq<(NodeId, int)>) -> Seq<NodeId>
        decreases gs.len(),
    {
        if gs.len() == 0 {
            Seq::empty()
        } else {
            let (q, i) = gs.last();
            (if mirror {
                self.mirror_forest(q, i)
            } else {
                self.pre_forest(q, i)
            }) + self.pending(mirror, gs.drop_last())
        }
    }

    /// The nodes of the subtree of `x`.
    pub open spec fn subtree(&self, x: NodeId) -> Set<NodeId> {
        Set::new(|d: NodeId| self.contains(d) && self.is_desc(d, x))
    }

    /// `r` lists the subtree of `start` exactly once each: nodes of the tree, all in the
    /// subtree, and every node of the subtree among them.
    pub open spec fn lists_subtree(&self, start: NodeId, r: Seq<NodeId>) -> bool {
        &&& r.no_duplicates()
        &&& forall|j: int| 0 <= j < r.len() ==> self.contains(#[trigger] r[j]) && self.is_desc(r[j], start)
        &&& forall|d: NodeId| #[trigger] self.contains(d) && self.is_desc(d, start) ==> r.contains(d)
    }

    /// Whether child position `j` is still ahead of a cursor at position `i`, walking forwards
    /// or, when `mirror`, backwards.
    pub open spec fn ahead(mirror: bool, i: int, j: int) -> bool {
        if mirror {
            j <= i
        } else {
            i <= j
        }
    }

    /// The links that a children list `ks` gives its `j`-th member: the neighbours in the list.
    pub open spec fn list_prev(ks: Seq<NodeId>, j: int) -> Option<NodeId> {
        if j == 0 {
            None
        } else {
            Some(ks[j - 1])
        }
    }

    pub open spec fn list_next(ks: Seq<NodeId>, j: int) -> Option<NodeId> {
        if j == ks.len() - 1 {
            None
        } else {
            Some(ks[j + 1])
        }
    }

    /// What reordering the children of `p` into `nks` does: every child gets the neighbours
    /// that `nks` gives it, `p` gets the ends of `nks` as its first and last child, and nothing
    /// else changes.
    pub open spec fn reordered(pre: Self, p: NodeId, nks: Seq<NodeId>, post: Self) -> bool {
        let ks = pre.children_of(p);
        &&& nks.len() == ks.len()
        &&& forall|j: int| 0 <= j < nks.len() ==> #[trigger] ks.contains(nks[j])
        &&& forall|k: NodeId| #[trigger] ks.contains(k) ==> nks.contains(k)
        &&& nks.no_duplicates()
        &&& post.children_of(p) == nks
        &&& post.node(p) == Some(
            Node {
                data: pre.data_of(p),
                relatives: Relatives {
                    first_child: if nks.len() == 0 {
                        None
                    } else {
                        Some(nks[0])
                    },
                    last_child: if nks.len() == 0 {
                        None
                    } else {
                        Some(nks[nks.len() - 1])
                    },
                    ..pre.rel(p)
                },
            },
        )
        &&& forall|j: int|
            0 <= j < nks.len() ==> post.node(#[trigger] nks[j]) == Some(
                Node {
                    data: pre.data_of(nks[j]),
                    relatives: Relatives {
                        prev_sibling: Self::list_prev(nks, j),
                        next_sibling: Self::list_next(nks, j),
                        ..pre.rel(nks[j])
                    },
                },
            )
        &&& forall|k: NodeId| k != p && !ks.contains(k) ==> #[trigger] post.node(k) == pre.node(k)
        &&& Self::same_kids_except(pre, post, set![p])
        &&& post.root_node() == pre.root_node()
        &&& post.ident() == pre.ident()
        &&& post.slot_count() == pre.slot_count()
        &&& post.removals_left() == pre.removals_left()
    }

    /// The links of `k` after the parentless node `x` trades places with its next sibling `y`
    /// in their sibling chain: `x`'s previous sibling and `y`'s next sibling are re-linked to
    /// the pair, which now runs `y` then `x`.
    pub open spec fn chain_swapped_rel(pre: Self, x: NodeId, k: NodeId) -> Relatives {
        let xr = pre.rel(x);
        let y = xr.next_sibling->Some_0;
        let a = xr.prev_sibling;
        let z = pre.rel(y).next_sibling;
        let r0 = pre.rel(k);
        let r1 = if a == Some(k) {
            Relatives { next_sibling: Some(y), ..r0 }
        } else {
            r0
        };
        let r2 = if k == y {
            Relatives { prev_sibling: a, next_sibling: Some(x), ..r1 }
        } else {
            r1
        };
        let r3 = if k == x {
            Relatives { prev_sibling: Some(y), next_sibling: z, ..r2 }
        } else {
            r2
        };
        if z == Some(k) {
            Relatives { prev_sibling: Some(x), ..r3 }
        } else {
            r3
        }
    }

    /// Whether a parentless `x` can trade places with its next sibling: it has one, and the two
    /// do not close a loop of one or two nodes.
    pub open spec fn chain_swappable(pre: Self, x: NodeId) -> bool {
        &&& pre.rel(x).parent is None
        &&& pre.rel(x).next_sibling is Some
        &&& pre.rel(x).next_sibling != Some(x)
        &&& pre.rel(x).prev_sibling != pre.rel(x).next_sibling
    }

    /// What `swap_with_next` does: when `x` has a next sibling the two trade places, within the
    /// parent's children list or, for a node without a parent, within its sibling chain;
    /// otherwise nothing changes and the answer is `false`.
    pub open spec fn swapped_next(pre: Self, x: NodeId, post: Self, r: bool) -> bool {
        &&& r == ((pre.rel(x).parent is Some && pre.rel(x).next_sibling is Some)
            || Self::chain_swappable(pre, x))
        &&& !r ==> post == pre
        &&& r && pre.rel(x).parent is None ==> {
            &&& forall|k: NodeId| #[trigger]
                post.node(k) == (if pre.contains(k) {
                    Some(Node { data: pre.data_of(k), relatives: Self::chain_swapped_rel(pre, x, k) })
                } else {
                    None
                })
            &&& forall|k: NodeId| #[trigger] post.children_of(k) == pre.children_of(k)
            &&& post.root_node() == pre.root_node()
            &&& post.ident() == pre.ident()
            &&& post.slot_count() == pre.slot_count()
            &&& post.removals_left() == pre.removals_left()
        }
        &&& r && pre.rel(x).parent is Some ==> ({
            let p = pre.rel(x).parent->Some_0;
            let ks = pre.children_of(p);
            let i = ks.index_of(x);
            Self::reordered(pre, p, ks.update(i, ks[i + 1]).update(i + 1, x), post)
        })
    }

    /// What `swap_with_prev` does: when `x` has a previous sibling the two trade places (for a
    /// node without a parent, as `swap_with_next` on that sibling does); otherwise nothing
    /// changes and the answer is `false`.
    pub open spec fn swapped_prev(pre: Self, x: NodeId, post: Self, r: bool) -> bool {
        &&& pre.rel(x).parent is None ==> if pre.rel(x).prev_sibling is Some {
            Self::swapped_next(pre, pre.rel(x).prev_sibling->Some_0, post, r)
        } else {
            !r && post == pre
        }
        &&& pre.rel(x).parent is Some ==> r == pre.rel(x).prev_sibling is Some
        &&& pre.rel(x).parent is Some && !r ==> post == pre
        &&& pre.rel(x).parent is Some && r ==> ({
            let p = pre.rel(x).parent->Some_0;
            let ks = pre.children_of(p);
            let i = ks.index_of(x);
            Self::reordered(pre, p, ks.update(i - 1, x).update(i, ks[i - 1]), post)
        })
    }

    /// What `make_last` does: when `x` has a parent and is not its last child it moves to the
    /// end of the list; otherwise nothing changes and the answer is `false`.
    pub open spec fn moved_last(pre: Self, x: NodeId, post: Self, r: bool) -> bool {
        &&& r == (pre.rel(x).parent is Some && pre.rel(x).next_sibling is Some)
        &&& !r ==> post == pre
        &&& r ==> ({
            let p = pre.rel(x).parent->Some_0;
            let ks = pre.children_of(p);
            Self::reordered(pre, p, ks.remove(ks.index_of(x)).push(x), post)
        })
    }

    /// What `make_first` does: when `x` has a parent and is not its first child it moves to the
    /// front of the list; otherwise nothing changes and the answer is `false`.
    pub open spec fn moved_first(pre: Self, x: NodeId, post: Self, r: bool) -> bool {
        &&& r == (pre.rel(x).parent is Some && pre.rel(x).prev_sibling is Some)
        &&& !r ==> post == pre
        &&& r ==> ({
            let p = pre.rel(x).parent->Some_0;
            let ks = pre.children_of(p);
            Self::reordered(pre, p, seq![x] + ks.remove(ks.index_of(x)), post)
        })
    }

    /// The links of `id`.
    fn relatives(&self, id: NodeId) -> (r: Relatives)
        requires
            self.contains(id),
        ensures
            r == self.rel(id),
    {
        match self.core_tree.get(id) {
            Ok(node) => node.relatives,
            Err(_) => unlinked_relatives(),
        }
    }

    /// Overwrites the links of `id`, leaving everything else as it was.
    fn set_relatives(&mut self, id: NodeId, rel: Relatives)
        requires
            old(self).core_tree.wf(),
            old(self).contains(id),
        ensures
            final(self).core_tree.wf(),
            final(self).node(id) == Some(Node { data: old(self).data_of(id), relatives: rel }),
            forall|k: NodeId| k != id ==> #[trigger] final(self).node(k) == old(self).node(k),
            final(self).root_id == old(self).root_id,
            final(self).kids == old(self).kids,
            final(self).depth == old(self).depth,
            final(self).bound == old(self).bound,
            final(self).ident() == old(self).ident(),
            final(self).slot_count() == old(self).slot_count(),
            final(self).removals_left() == old(self).removals_left(),
    {
        match self.core_tree.get_mut(id) {
            Ok(node) => {
                node.relatives = rel;
            },
            Err(_) => {},
        }
    }

    /// Creates an empty tree.
    pub fn new() -> (r: Tree<T>)
        ensures
            r.wf(),
            r.root_node() is None,
            forall|id: NodeId| !r.contains(id),
            r.removals_left() == u64::MAX,
            r.slot_count() == 0,
    {
        Self::with_settings(None, 0)
    }

    /// A tree with room for `capacity` nodes, holding `root` as its only node if given.
    fn with_settings(root: Option<T>, capacity: usize) -> (r: Tree<T>)
        ensures
            r.wf(),
            root is None ==> r.root_node() is None && forall|id: NodeId| !r.contains(id),
            root is Some ==> r.root_node() is Some && r.node(r.root_node()->Some_0) == Some(
                Node { data: root->Some_0, relatives: unlinked() },
            ) && forall|id: NodeId| r.contains(id) ==> id == r.root_node()->Some_0,
            r.removals_left() == u64::MAX,
            r.slot_count() == (if root is Some {
                1int
            } else {
                0
            }),
    {
        let mut tree = Tree {
            root_id: None,
            core_tree: CoreTree::new(capacity),
            kids: Ghost(Map::empty()),
            depth: Ghost(Map::empty()),
            bound: Ghost(1),
        };
        match root {
            Some(data) => {
                let id = tree.core_tree.insert(data);
                tree.root_id = Some(id);
                proof {
                    tree.kids@ = tree.kids@.insert(id, Seq::empty());
                    tree.depth@ = tree.depth@.insert(id, 0);
                    assert(tree.kids_ok(id));
                    reveal(Tree::wf);
                }
            },
            None => {
                proof {
                    reveal(Tree::wf);
                }
            },
        }
        tree
    }

    /// Every link of a node of a well-formed tree leads to a node of the tree.
    pub proof fn lemma_links_resolve(&self, id: NodeId)
        requires
            self.wf(),
            self.contains(id),
        ensures
            self.rel(id).parent matches Some(p) ==> self.contains(p),
            self.rel(id).prev_sibling matches Some(a) ==> self.contains(a),
            self.rel(id).next_sibling matches Some(b) ==> self.contains(b),
            self.rel(id).first_child matches Some(f) ==> self.contains(f),
            self.rel(id).last_child matches Some(l) ==> self.contains(l),
    {
        self.lemma_removal_facts(id);
        let ks = self.children_of(id);
        if ks.len() > 0 {
            assert(self.contains(ks[0]));
            assert(self.contains(ks[ks.len() - 1]));
        }
    }

    /// Removing a child, whatever the policy, leaves its parent in the tree.
    pub proof fn lemma_child_not_removed(&self, p: NodeId, c: NodeId)
        requires
            self.wf(),
            self.contains(p),
            self.rel(p).first_child == Some(c) || self.rel(p).last_child == Some(c),
        ensures
            self.contains(c),
            forall|b: RemoveBehavior| #[trigger] Self::after_removal(*self, c, b, p) is Some,
    {
        self.lemma_wf_parts(p);
        let ks = self.children_of(p);
        assert(ks.len() > 0);
        assert(self.kid_links_ok(p, 0));
        assert(self.kid_links_ok(p, ks.len() - 1));
        assert(self.depth_of(c) == self.depth_of(p) + 1);
        assert forall|b: RemoveBehavior| #[trigger] Self::after_removal(*self, c, b, p) is Some by {
            if self.is_desc(p, c) {
                self.lemma_desc_depth(p, c);
            }
        }
    }

    /// A read-only view of the node that `node_id` resolves to, or why it does not resolve:
    /// `WrongTree` for an id handed out by another tree, `BadNodeId` for an id of this tree
    /// whose node has been removed.
    pub fn resolve(&self, node_id: NodeId) -> (r: Result<NodeRef<'_, T>, NodeIdError>)
        ensures
            r is Ok <==> self.contains(node_id),
            r is Ok ==> r->Ok_0.id() == node_id && r->Ok_0.owner() == *self,
            r is Err ==> (r->Err_0 == NodeIdError::WrongTree <==> node_id.tree_id != self.ident()),
            r is Err ==> (r->Err_0 == NodeIdError::BadNodeId <==> node_id.tree_id == self.ident()),
    {
        match self.core_tree.get(node_id) {
            Ok(_) => Ok(NodeRef::new(node_id, self)),
            Err(e) => Err(e),
        }
    }

    /// The facts that a well-formed tree keeps about the children of `p`: its children list has
    /// no repeats and its first and last child are the ends of the list; each child is in the
    /// tree, points back at `p`, has its neighbours in the list as siblings, and sits one level
    /// deeper; and every node whose parent is `p` is in the list.
    pub proof fn lemma_children_links(&self, p: NodeId)
        requires
            self.wf(),
            self.contains(p),
        ensures
            ({
                let ks = self.children_of(p);
                &&& ks.no_duplicates()
                &&& self.rel(p).first_child == (if ks.len() == 0 {
                    None
                } else {
                    Some(ks[0])
                })
                &&& self.rel(p).last_child == (if ks.len() == 0 {
                    None
                } else {
                    Some(ks[ks.len() - 1])
                })
                &&& forall|j: int|
                    0 <= j < ks.len() ==> {
                        &&& self.contains(#[trigger] ks[j])
                        &&& self.rel(ks[j]).parent == Some(p)
                        &&& self.rel(ks[j]).prev_sibling == Self::list_prev(ks, j)
                        &&& self.rel(ks[j]).next_sibling == Self::list_next(ks, j)
                        &&& self.depth_of(ks[j]) == self.depth_of(p) + 1
                    }
                &&& forall|c: NodeId|
                    self.contains(c) && self.rel(c).parent == Some(p) ==> #[trigger] ks.contains(c)
            }),
    {
        self.lemma_removal_facts(p);
        let ks = self.children_of(p);
        assert forall|j: int| 0 <= j < ks.len() implies {
            &&& self.contains(#[trigger] ks[j])
            &&& self.rel(ks[j]).parent == Some(p)
            &&& self.rel(ks[j]).prev_sibling == Self::list_prev(ks, j)
            &&& self.rel(ks[j]).next_sibling == Self::list_next(ks, j)
            &&& self.depth_of(ks[j]) == self.depth_of(p) + 1
        } by {
            assert(self.kid_links_ok(p, j));
        }
        assert forall|c: NodeId| self.contains(c) && self.rel(c).parent == Some(p) implies #[trigger] ks.contains(c) by {
            self.lemma_wf_parts(c);
        }
    }

    /// How many nodes the tree can hold before its arena must reallocate.
    pub fn capacity(&self) -> (r: usize)
        ensures
            r >= self.slot_count(),
    {
        self.core_tree.capacity()
    }

    /// The id of the root, if there is one.
    pub fn root_id(&self) -> (r: Option<NodeId>)
        ensures
            r == self.root_node(),
    {
        self.root_id
    }

    /// The record of the node that `node_id` resolves to, if any.
    pub fn get_node(&self, node_id: NodeId) -> (r: Option<&Node<T>>)
        ensures
            r is Some <==> self.contains(node_id),
            r is Some ==> *r->Some_0 == self.node(node_id)->Some_0,
    {
        match self.core_tree.get(node_id) {
            Ok(node) => Some(node),
            Err(_) => None,
        }
    }

    /// A read-only view of the node that `node_id` resolves to; `None` for an id that is stale
    /// or belongs to another tree.
    pub fn get(&self, node_id: NodeId) -> (r: Option<NodeRef<'_, T>>)
        ensures
            r is Some <==> self.contains(node_id),
            r is Some ==> r->Some_0.id() == node_id && r->Some_0.owner() == *self,
    {
        if self.core_tree.get(node_id).is_ok() {
            Some(NodeRef::new(node_id, self))
        } else {
            None
        }
    }

    /// A read-write view of the node that `node_id` resolves to; `None` for an id that is stale
    /// or belongs to another tree.
    pub fn get_mut(&mut self, node_id: NodeId) -> (r: Option<NodeMut<'_, T>>)
        ensures
            r is Some <==> old(self).contains(node_id),
            r is Some ==> r->Some_0.id() == node_id && r->Some_0.owner() == *old(self)
                && *final(self) == *final(r->Some_0.tree_ref()),
            r is None ==> *final(self) == *old(self),
    {
        if self.core_tree.get(node_id).is_ok() {
            Some(NodeMut::new(node_id, self))
        } else {
            None
        }
    }

    /// A read-only view of the root, if there is one.
    pub fn root(&self) -> (r: Option<NodeRef<'_, T>>)
        requires
            self.wf(),
        ensures
            r is Some <==> self.root_node() is Some,
            r is Some ==> r->Some_0.id() == self.root_node()->Some_0 && r->Some_0.owner() == *self,
    {
        match self.root_id {
            Some(id) => Some(NodeRef::new(id, self)),
            None => None,
        }
    }

    /// A read-write view of the root, if there is one.
    pub fn root_mut(&mut self) -> (r: Option<NodeMut<'_, T>>)
        requires
            old(self).wf(),
        ensures
            r is Some <==> old(self).root_node() is Some,
            r is Some ==> r->Some_0.id() == old(self).root_node()->Some_0 && r->Some_0.owner()
                == *old(self) && *final(self) == *final(r->Some_0.tree_ref()),
            r is None ==> *final(self) == *old(self),
    {
        match self.root_id {
            Some(id) => Some(NodeMut::new(id, self)),
            None => None,
        }
    }

    /// Mutable access to the data of the node `id`; only that data can change through it.
    pub fn data_mut(&mut self, id: NodeId) -> (r: &mut T)
        requires
            old(self).contains(id),
        ensures
            *r == old(self).data_of(id),
            final(self).node(id) == Some(Node { data: *final(r), relatives: old(self).rel(id) }),
            forall|k: NodeId| k != id ==> #[trigger] final(self).node(k) == old(self).node(k),
            final(self).root_node() == old(self).root_node(),
            forall|k: NodeId| #[trigger] final(self).children_of(k) == old(self).children_of(k),
            forall|k: NodeId| #[trigger] final(self).depth_of(k) == old(self).depth_of(k),
            final(self).ident() == old(self).ident(),
            final(self).slot_count() == old(self).slot_count(),
            final(self).removals_left() == old(self).removals_left(),
    {
        &mut self.core_tree.get_mut(id).unwrap().data
    }

    /// A parent of a node of a well-formed tree is in the tree, one level up.
    proof fn lemma_parent_depth(&self, c: NodeId)
        requires
            self.wf(),
            self.contains(c),
        ensures
            self.rel(c).parent matches Some(p) ==> self.contains(p) && self.depth_of(p) + 1
                == self.depth_of(c),
    {
        self.lemma_wf_parts(c);
        if let Some(p) = self.rel(c).parent {
            self.lemma_wf_parts(p);
            let j = choose|j: int| 0 <= j < self.children_of(p).len() && self.children_of(p)[j] == c;
            assert(self.kid_links_ok(p, j));
        }
    }

    /// The ids of the children of `id`, first to last, found by walking the sibling links.
    pub fn children_ids(&self, id: NodeId) -> (r: Vec<NodeId>)
        requires
            self.wf(),
            self.contains(id),
        ensures
            r@ == self.children_of(id),
    {
        proof {
            self.lemma_wf_parts(id);
        }
        let ghost ks = self.children_of(id);
        let mut out: Vec<NodeId> = Vec::new();
        let mut cur = self.relatives(id).first_child;
        let ghost mut i: int = 0;
        while cur.is_some()
            invariant
                self.wf(),
                self.kids_ok(id),
                ks == self.children_of(id),
                0 <= i <= ks.len(),
                out@ == ks.subrange(0, i),
                cur == (if i < ks.len() {
                    Some(ks[i])
                } else {
                    None::<NodeId>
                }),
            decreases ks.len() - i,
        {
            let c = cur.unwrap();
            assert(self.kid_links_ok(id, i));
            out.push(c);
            cur = self.relatives(c).next_sibling;
            proof {
                assert(out@ == ks.subrange(0, i + 1));
                i = i + 1;
            }
        }
        assert(out@ =~= ks);
        out
    }

    /// The ids met walking up from `id`: `id` itself, then each parent in turn, stopping before
    /// the top of the tree.
    pub fn ancestor_ids(&self, id: NodeId) -> (r: Vec<NodeId>)
        requires
            self.wf(),
            self.contains(id),
        ensures
            r@ == self.ancestors_of(id),
    {
        let mut out: Vec<NodeId> = Vec::new();
        let mut cur = id;
        let mut next = self.relatives(cur).parent;
        while next.is_some()
            invariant
                self.wf(),
                self.contains(cur),
                next == self.rel(cur).parent,
                out@ + self.ancestors_of(cur) == self.ancestors_of(id),
            decreases self.depth_of(cur),
        {
            let p = next.unwrap();
            proof {
                self.lemma_parent_depth(cur);
                assert(self.ancestors_of(cur) == seq![cur] + self.ancestors_of(p));
                assert(out@.push(cur) + self.ancestors_of(p) == out@ + self.ancestors_of(cur));
            }
            out.push(cur);
            cur = p;
            next = self.relatives(cur).parent;
        }
        assert(self.ancestors_of(cur) == Seq::<NodeId>::empty());
        assert(out@ + Seq::<NodeId>::empty() == out@);
        out
    }

    /// The ids of the subtree of `start`, depth first: each node before its children, the
    /// children taken first to last or, when `mirror`, last to first.
    #[verifier::rlimit(100)]
    pub fn depth_first_ids(&self, start: NodeId, mirror: bool) -> (r: Vec<NodeId>)
        requires
            self.wf(),
            self.contains(start),
        ensures
            r@.len() >= 1,
            r@[0] == start,
            self.lists_subtree(start, r@),
            r@ == (if mirror {
                self.mirror_pre_seq(start)
            } else {
                self.pre_seq(start)
            }),
    {
        let ghost target = if mirror {
            self.mirror_pre_seq(start)
        } else {
            self.pre_seq(start)
        };
        let mut out: Vec<NodeId> = Vec::new();
        out.push(start);
        let mut stack: Vec<NodeId> = Vec::new();
        let ghost mut gs: Seq<(NodeId, int)> = Seq::empty();
        proof {
            self.lemma_wf_parts(start);
            self.lemma_distinct_nodes_bounded(out@);
        }
        let srel = self.relatives(start);
        let first = if mirror {
            srel.last_child
        } else {
            srel.first_child
        };
        match first {
            Some(f) => {
                stack.push(f);
                proof {
                    let ks = self.children_of(start);
                    let i = if mirror {
                        ks.len() - 1
                    } else {
                        0
                    };
                    gs = seq![(start, i)];
                    assert(self.kid_links_ok(start, i));
                }
            },
            None => {},
        }
        proof {
            assert(out@ == seq![start]);
            self.lemma_dfs_init(start, mirror, out@, stack@, gs);
            let ks = self.children_of(start);
            if ks.len() > 0 {
                assert(gs.len() == 1);
                assert(gs.last() == gs[0]);
                assert(gs[0] == (start, if mirror {
                    ks.len() - 1
                } else {
                    0
                }));
                assert(gs.drop_last() =~= Seq::<(NodeId, int)>::empty());
                assert(self.pending(mirror, Seq::<(NodeId, int)>::empty()) =~= Seq::<NodeId>::empty());
                assert(self.pending(mirror, gs) =~= (if mirror {
                    self.mirror_forest(start, ks.len() - 1)
                } else {
                    self.pre_forest(start, 0)
                }) + Seq::<NodeId>::empty());
            } else {
                assert(gs =~= Seq::<(NodeId, int)>::empty());
                assert(self.pending(mirror, gs) =~= Seq::<NodeId>::empty());
                assert(self.pre_forest(start, 0) =~= Seq::<NodeId>::empty());
                assert(self.mirror_forest(start, -1) =~= Seq::<NodeId>::empty());
            }
            assert(out@ + self.pending(mirror, gs) =~= target);
        }
        while stack.len() > 0
            invariant
                self.wf(),
                self.contains(start),
                self.dfs_inv(start, mirror, out@, stack@, gs),
                out@ + self.pending(mirror, gs) == target,
                target == (if mirror {
                    self.mirror_pre_seq(start)
                } else {
                    self.pre_seq(start)
                }),
            decreases self.slot_count() - out@.len(),
        {
            let ghost stack0 = stack@;
            proof {
                self.lemma_dfs_top(start, mirror, out@, stack@, gs);
            }
            let c = stack.pop().unwrap();
            let ghost gs0 = gs;
            let ghost out0 = out@;
            proof {
                assert(stack0 == stack@.push(c));
                gs = gs.drop_last();
            }
            out.push(c);
            let crel = self.relatives(c);
            let next = if mirror {
                crel.prev_sibling
            } else {
                crel.next_sibling
            };
            let down = if mirror {
                crel.last_child
            } else {
                crel.first_child
            };
            let ghost q = gs0.last().0;
            let ghost i = gs0.last().1;
            match next {
                Some(n) => {
                    stack.push(n);
                    proof {
                        gs = gs.push((q, if mirror { i - 1 } else { i + 1 }));
                    }
                },
                None => {},
            }
            match down {
                Some(f) => {
                    stack.push(f);
                    proof {
                        let ks = self.children_of(c);
                        gs = gs.push((c, if mirror { ks.len() - 1 } else { 0 }));
                    }
                },
                None => {},
            }
            proof {
                self.lemma_dfs_step(start, mirror, out0, stack0, gs0, out@, stack@, gs);
                assert(out0 + self.pending(mirror, gs0) == target);
                self.lemma_dfs_seq_step(start, mirror, out0, stack0, gs0, out@, stack@, gs);
            }
        }
        proof {
            self.lemma_dfs_done(start, mirror, out@, stack@, gs);
            assert(gs =~= Seq::<(NodeId, int)>::empty());
            assert(self.pending(mirror, gs) =~= Seq::<NodeId>::empty());
            assert(out@ + Seq::<NodeId>::empty() =~= out@);
        }
        out
    }

    /// The invariant of the depth-first walk: `out` has been yielded; `stack` holds cursors,
    /// each the child at position `gs[m].1` of `gs[m].0`.
    spec fn dfs_inv(
        &self,
        start: NodeId,
        mirror: bool,
        out: Seq<NodeId>,
        stack: Seq<NodeId>,
        gs: Seq<(NodeId, int)>,
    ) -> bool {
        &&& out.len() >= 1
        &&& out[0] == start
        &&& out.no_duplicates()
        &&& out.len() <= self.slot_count()
        &&& forall|j: int| 0 <= j < out.len() ==> self.contains(#[trigger] out[j]) && self.is_desc(out[j], start)
            && self.depth_of(out[j]) >= self.depth_of(start)
        &&& forall|j: int| 1 <= j < out.len() ==> #[trigger] self.parent_among(out[j], out)
        &&& gs.len() == stack.len()
        &&& forall|m: int| 0 <= m < stack.len() ==> {
            let q = (#[trigger] gs[m]).0;
            let i = gs[m].1;
            &&& out.contains(q)
            &&& 0 <= i < self.children_of(q).len()
            &&& stack[m] == self.children_of(q)[i]
            &&& forall|j: int|
                0 <= j < self.children_of(q).len() && Self::ahead(mirror, i, j) ==> !out.contains(
                    #[trigger] self.children_of(q)[j],
                )
        }
        &&& forall|m1: int, m2: int|
            0 <= m1 < stack.len() && 0 <= m2 < stack.len() && m1 != m2 ==> (#[trigger] gs[m1]).0
                != (#[trigger] gs[m2]).0
        &&& forall|k: int, j: int|
            0 <= k < out.len() && 0 <= j < self.children_of(out[k]).len() ==> out.contains(
                #[trigger] self.children_of(out[k])[j],
            ) || exists|m: int|
                0 <= m < stack.len() && (#[trigger] gs[m]).0 == out[k] && Self::ahead(mirror, gs[m].1, j)
    }

    /// The cursor on top of the depth-first walk's stack is a node of the tree, and its links
    /// lead to its neighbour in the walking direction and to its first child in that direction.
    proof fn lemma_dfs_top(
        &self,
        start: NodeId,
        mirror: bool,
        out: Seq<NodeId>,
        stack: Seq<NodeId>,
        gs: Seq<(NodeId, int)>,
    )
        requires
            self.wf(),
            self.dfs_inv(start, mirror, out, stack, gs),
            stack.len() > 0,
        ensures
            ({
                let c = stack.last();
                let q = gs.last().0;
                let i = gs.last().1;
                let ks = self.children_of(q);
                let ni = if mirror {
                    i - 1
                } else {
                    i + 1
                };
                let cs = self.children_of(c);
                let di = if mirror {
                    cs.len() - 1
                } else {
                    0
                };
                &&& self.contains(c)
                &&& (if mirror {
                    self.rel(c).prev_sibling
                } else {
                    self.rel(c).next_sibling
                }) == (if 0 <= ni < ks.len() {
                    Some(ks[ni])
                } else {
                    None
                })
                &&& (if mirror {
                    self.rel(c).last_child
                } else {
                    self.rel(c).first_child
                }) == (if cs.len() > 0 {
                    Some(cs[di])
                } else {
                    None
                })
            }),
    {
        let mm = stack.len() - 1;
        let q = gs.last().0;
        let i = gs.last().1;
        assert(gs[mm] == gs.last());
        assert(out.contains(q));
        let k = choose|k: int| 0 <= k < out.len() && out[k] == q;
        assert(self.contains(out[k]));
        self.lemma_wf_parts(q);
        assert(self.kid_links_ok(q, i));
        self.lemma_wf_parts(stack.last());
    }

    proof fn lemma_dfs_init(
        &self,
        start: NodeId,
        mirror: bool,
        out: Seq<NodeId>,
        stack: Seq<NodeId>,
        gs: Seq<(NodeId, int)>,
    )
        requires
            self.wf(),
            self.contains(start),
            out == seq![start],
            out.len() <= self.slot_count(),
            self.kids_ok(start),
            stack.len() == gs.len(),
            stack.len() == (if self.children_of(start).len() > 0 { 1int } else { 0 }),
            stack.len() == 1 ==> gs[0] == (start, if mirror {
                self.children_of(start).len() - 1
            } else {
                0
            }) && stack[0] == self.children_of(start)[gs[0].1],
        ensures
            self.dfs_inv(start, mirror, out, stack, gs),
    {
        let ks = self.children_of(start);
        assert(out[0] == start);
        assert(self.is_desc(start, start));
        assert forall|j: int| 0 <= j < ks.len() implies !out.contains(#[trigger] ks[j]) by {
            assert(self.kid_links_ok(start, j));
            if out.contains(ks[j]) {
                assert(out[0] == ks[j]);
            }
        }
        assert forall|k: int, j: int|
            0 <= k < out.len() && 0 <= j < self.children_of(out[k]).len() implies out.contains(
            #[trigger] self.children_of(out[k])[j],
        ) || exists|m: int|
            0 <= m < stack.len() && (#[trigger] gs[m]).0 == out[k] && Self::ahead(mirror, gs[m].1, j) by {
            assert(out[k] == start);
            assert(stack.len() == 1);
            assert(gs[0].0 == out[k] && Self::ahead(mirror, gs[0].1, j));
        }
    }

    #[verifier::rlimit(100)]
    proof fn lemma_dfs_step(
        &self,
        start: NodeId,
        mirror: bool,
        out0: Seq<NodeId>,
        stack0: Seq<NodeId>,
        gs0: Seq<(NodeId, int)>,
        out: Seq<NodeId>,
        stack: Seq<NodeId>,
        gs: Seq<(NodeId, int)>,
    )
        requires
            self.wf(),
            self.contains(start),
            self.dfs_inv(start, mirror, out0, stack0, gs0),
            stack0.len() > 0,
            ({
                let c = stack0.last();
                let q = gs0.last().0;
                let i = gs0.last().1;
                let ks = self.children_of(q);
                let ni = if mirror {
                    i - 1
                } else {
                    i + 1
                };
                let cs = self.children_of(c);
                let di = if mirror {
                    cs.len() - 1
                } else {
                    0
                };
                let s1 = if 0 <= ni < ks.len() {
                    stack0.drop_last().push(ks[ni])
                } else {
                    stack0.drop_last()
                };
                let g1 = if 0 <= ni < ks.len() {
                    gs0.drop_last().push((q, ni))
                } else {
                    gs0.drop_last()
                };
                &&& out == out0.push(c)
                &&& stack == (if cs.len() > 0 {
                    s1.push(cs[di])
                } else {
                    s1
                })
                &&& gs == (if cs.len() > 0 {
                    g1.push((c, di))
                } else {
                    g1
                })
            }),
        ensures
            self.dfs_inv(start, mirror, out, stack, gs),
            out.len() == out0.len() + 1,
    {
        let c = stack0.last();
        let q = gs0.last().0;
        let i = gs0.last().1;
        let ks = self.children_of(q);
        let mm = stack0.len() - 1;
        let ni = if mirror {
            i - 1
        } else {
            i + 1
        };
        let cs = self.children_of(c);
        let di = if mirror {
            cs.len() - 1
        } else {
            0
        };
        let has_next = 0 <= ni < ks.len();
        let n1 = if has_next {
            mm + 1
        } else {
            mm
        };
        assert(gs0[mm] == gs0.last());
        assert(out0.contains(q) && 0 <= i < ks.len() && stack0[mm] == ks[i]);
        assert(c == ks[i]);
        assert(!out0.contains(c)) by {
            assert(Self::ahead(mirror, i, i));
        }
        let k0 = choose|k: int| 0 <= k < out0.len() && out0[k] == q;
        assert(self.contains(out0[k0]) && self.is_desc(out0[k0], start));
        self.lemma_wf_parts(q);
        assert(self.kid_links_ok(q, i));
        assert(self.contains(c) && self.rel(c).parent == Some(q));
        assert(self.depth_of(c) == self.depth_of(q) + 1);
        assert(self.is_desc(c, start));
        self.lemma_wf_parts(c);
        // the sequence yielded so far
        assert(out.no_duplicates()) by {
            assert forall|a: int, b: int|
                0 <= a < out.len() && 0 <= b < out.len() && a != b implies out[a] != out[b] by {
                if a == out0.len() {
                    assert(out0.contains(out0[b]));
                } else if b == out0.len() {
                    assert(out0.contains(out0[a]));
                }
            }
        }
        assert forall|j: int| 0 <= j < out.len() implies self.contains(#[trigger] out[j]) && self.is_desc(
            out[j],
            start,
        ) && self.depth_of(out[j]) >= self.depth_of(start) by {
            if j < out0.len() {
                assert(out[j] == out0[j]);
            }
        }
        assert forall|j: int| 0 <= j < out.len() implies self.contains(#[trigger] out[j]) by {
            assert(self.contains(out[j]) && self.is_desc(out[j], start));
        }
        self.lemma_distinct_nodes_bounded(out);
        assert forall|j: int| 1 <= j < out.len() implies #[trigger] self.parent_among(out[j], out) by {
            if j < out0.len() {
                assert(out[j] == out0[j]);
                assert(self.parent_among(out0[j], out0));
                let pq = self.rel(out0[j]).parent->Some_0;
                let w = choose|w: int| 0 <= w < out0.len() && out0[w] == pq;
                assert(out[w] == pq);
            } else {
                assert(out[j] == c);
                assert(out[k0] == q);
            }
        }
        // the cursors
        assert forall|m: int| 0 <= m < stack.len() implies {
            let qq = (#[trigger] gs[m]).0;
            let ii = gs[m].1;
            &&& out.contains(qq)
            &&& 0 <= ii < self.children_of(qq).len()
            &&& stack[m] == self.children_of(qq)[ii]
            &&& forall|j: int|
                0 <= j < self.children_of(qq).len() && Self::ahead(mirror, ii, j) ==> !out.contains(
                    #[trigger] self.children_of(qq)[j],
                )
        } by {
            let qq = gs[m].0;
            let ii = gs[m].1;
            if m < mm {
                assert(gs[m] == gs0[m]);
                assert(stack[m] == stack0[m]);
                assert(gs0[m].0 != gs0[mm].0);
                let w = choose|w: int| 0 <= w < out0.len() && out0[w] == qq;
                assert(out[w] == qq);
                assert forall|j: int|
                    0 <= j < self.children_of(qq).len() && Self::ahead(mirror, ii, j) implies !out.contains(
                    #[trigger] self.children_of(qq)[j],
                ) by {
                    assert(!out0.contains(self.children_of(qq)[j]));
                    if self.children_of(qq)[j] == c {
                        self.lemma_wf_parts(qq);
                        assert(self.kid_links_ok(qq, j));
                    }
                    if out.contains(self.children_of(qq)[j]) {
                        let w2 = choose|w2: int| 0 <= w2 < out.len() && out[w2] == self.children_of(qq)[j];
                        if w2 < out0.len() {
                            assert(out0[w2] == out[w2]);
                        }
                    }
                }
            } else if m == mm && has_next {
                assert(gs[m] == (q, ni));
                assert(stack[m] == ks[ni]);
                assert(out[k0] == q);
                assert forall|j: int|
                    0 <= j < ks.len() && Self::ahead(mirror, ni, j) implies !out.contains(#[trigger] ks[j]) by {
                    assert(Self::ahead(mirror, i, j));
                    assert(!out0.contains(ks[j]));
                    assert(ks[j] != ks[i]);
                    if out.contains(ks[j]) {
                        let w2 = choose|w2: int| 0 <= w2 < out.len() && out[w2] == ks[j];
                        if w2 < out0.len() {
                            assert(out0[w2] == out[w2]);
                        }
                    }
                }
            } else {
                assert(m == n1 && cs.len() > 0);
                assert(gs[m] == (c, di));
                assert(stack[m] == cs[di]);
                assert(out[out0.len() as int] == c);
                assert forall|j: int|
                    0 <= j < cs.len() && Self::ahead(mirror, di, j) implies !out.contains(#[trigger] cs[j]) by {
                    assert(self.kid_links_ok(c, j));
                    let g = cs[j];
                    assert(self.rel(g).parent == Some(c));
                    if out.contains(g) {
                        let w2 = choose|w2: int| 0 <= w2 < out.len() && out[w2] == g;
                        if w2 == out0.len() {
                            assert(g == c);
                        } else if w2 == 0 {
                            assert(g == start);
                        } else {
                            assert(out0[w2] == g);
                            assert(self.parent_among(out0[w2], out0));
                        }
                    }
                }
            }
        }
        assert forall|m1: int, m2: int|
            0 <= m1 < stack.len() && 0 <= m2 < stack.len() && m1 != m2 implies (#[trigger] gs[m1]).0
            != (#[trigger] gs[m2]).0 by {
            if m1 < mm && m2 < mm {
                assert(gs[m1] == gs0[m1] && gs[m2] == gs0[m2]);
            }
            if m1 < mm {
                assert(gs[m1] == gs0[m1]);
                assert(gs0[m1].0 != gs0[mm].0);
                assert(out0.contains(gs0[m1].0));
            }
            if m2 < mm {
                assert(gs[m2] == gs0[m2]);
                assert(gs0[m2].0 != gs0[mm].0);
                assert(out0.contains(gs0[m2].0));
            }
        }
        // every child of a yielded node is yielded or still ahead of a cursor
        assert forall|k: int, j: int|
            0 <= k < out.len() && 0 <= j < self.children_of(out[k]).len() implies out.contains(
            #[trigger] self.children_of(out[k])[j],
        ) || exists|m: int|
            0 <= m < stack.len() && (#[trigger] gs[m]).0 == out[k] && Self::ahead(mirror, gs[m].1, j) by {
            let y = out[k];
            let g = self.children_of(y)[j];
            if k == out0.len() {
                assert(y == c);
                assert(gs[n1] == (c, di));
                assert(Self::ahead(mirror, di, j));
            } else {
                assert(y == out0[k]);
                if out0.contains(g) {
                    let w = choose|w: int| 0 <= w < out0.len() && out0[w] == g;
                    assert(out[w] == g);
                } else {
                    let m0 = choose|m0: int|
                        0 <= m0 < stack0.len() && (#[trigger] gs0[m0]).0 == out0[k] && Self::ahead(mirror, gs0[m0].1, j);
                    if m0 < mm {
                        assert(gs[m0] == gs0[m0]);
                    } else {
                        assert(y == q);
                        if j == i {
                            assert(out[out0.len() as int] == g);
                        } else {
                            assert(has_next);
                            assert(gs[mm] == (q, ni));
                            assert(Self::ahead(mirror, ni, j));
                        }
                    }
                }
            }
        }
    }

    /// One step of the depth-first walk keeps the yielded prefix, followed by what the cursors
    /// still owe, equal to the whole (mirrored) pre-order.
    #[verifier::rlimit(100)]
    proof fn lemma_dfs_seq_step(
        &self,
        start: NodeId,
        mirror: bool,
        out0: Seq<NodeId>,
        stack0: Seq<NodeId>,
        gs0: Seq<(NodeId, int)>,
        out: Seq<NodeId>,
        stack: Seq<NodeId>,
        gs: Seq<(NodeId, int)>,
    )
        requires
            self.wf(),
            self.contains(start),
            self.dfs_inv(start, mirror, out0, stack0, gs0),
            out0 + self.pending(mirror, gs0) == (if mirror {
                self.mirror_pre_seq(start)
            } else {
                self.pre_seq(start)
            }),
            stack0.len() > 0,
            ({
                let c = stack0.last();
                let q = gs0.last().0;
                let i = gs0.last().1;
                let ks = self.children_of(q);
                let ni = if mirror {
                    i - 1
                } else {
                    i + 1
                };
                let cs = self.children_of(c);
                let di = if mirror {
                    cs.len() - 1
                } else {
                    0
                };
                let s1 = if 0 <= ni < ks.len() {
                    stack0.drop_last().push(ks[ni])
                } else {
                    stack0.drop_last()
                };
                let g1 = if 0 <= ni < ks.len() {
                    gs0.drop_last().push((q, ni))
                } else {
                    gs0.drop_last()
                };
                &&& out == out0.push(c)
                &&& stack == (if cs.len() > 0 {
                    s1.push(cs[di])
                } else {
                    s1
                })
                &&& gs == (if cs.len() > 0 {
                    g1.push((c, di))
                } else {
                    g1
                })
            }),
        ensures
            out + self.pending(mirror, gs) == (if mirror {
                self.mirror_pre_seq(start)
            } else {
                self.pre_seq(start)
            }),
    {
        let c = stack0.last();
        let q = gs0.last().0;
        let i = gs0.last().1;
        let ks = self.children_of(q);
        let mm = stack0.len() - 1;
        let ni = if mirror {
            i - 1
        } else {
            i + 1
        };
        let cs = self.children_of(c);
        let di = if mirror {
            cs.len() - 1
        } else {
            0
        };
        let rest = gs0.drop_last();
        assert(gs0[mm] == gs0.last());
        assert(out0.contains(q) && 0 <= i < ks.len() && stack0[mm] == ks[i]);
        let k0 = choose|k: int| 0 <= k < out0.len() && out0[k] == q;
        assert(self.contains(out0[k0]));
        self.lemma_wf_parts(q);
        assert(self.kid_links_ok(q, i));
        self.lemma_wf_parts(c);
        assert(self.enters(q, c));
        let fq = if mirror {
            self.mirror_forest(q, ni)
        } else {
            self.pre_forest(q, ni)
        };
        let fc = if mirror {
            self.mirror_forest(c, di)
        } else {
            self.pre_forest(c, di)
        };
        // what the popped cursor owed
        assert(self.pending(mirror, gs0) == (if mirror {
            self.mirror_forest(q, i)
        } else {
            self.pre_forest(q, i)
        }) + self.pending(mirror, rest));
        assert((if mirror {
            self.mirror_forest(q, i)
        } else {
            self.pre_forest(q, i)
        }) == seq![c] + fc + fq) by {
            if mirror {
                assert(self.mirror_pre_seq(c) == seq![c] + self.mirror_forest(c, cs.len() - 1));
            } else {
                assert(self.pre_seq(c) == seq![c] + self.pre_forest(c, 0));
            }
            assert(seq![c] + fc + fq =~= seq![c] + (fc + fq));
        }
        // what the new cursors owe
        let g1 = if 0 <= ni < ks.len() {
            rest.push((q, ni))
        } else {
            rest
        };
        assert(self.pending(mirror, g1) == fq + self.pending(mirror, rest)) by {
            if 0 <= ni < ks.len() {
                assert(rest.push((q, ni)).drop_last() =~= rest);
            } else {
                assert(fq =~= Seq::<NodeId>::empty());
                assert(Seq::<NodeId>::empty() + self.pending(mirror, rest) =~= self.pending(mirror, rest));
            }
        }
        assert(self.pending(mirror, gs) == fc + self.pending(mirror, g1)) by {
            if cs.len() > 0 {
                assert(g1.push((c, di)).drop_last() =~= g1);
            } else {
                assert(fc =~= Seq::<NodeId>::empty());
                assert(Seq::<NodeId>::empty() + self.pending(mirror, g1) =~= self.pending(mirror, g1));
            }
        }
        assert(out + self.pending(mirror, gs) =~= out0 + self.pending(mirror, gs0));
    }

    proof fn lemma_dfs_done(
        &self,
        start: NodeId,
        mirror: bool,
        out: Seq<NodeId>,
        stack: Seq<NodeId>,
        gs: Seq<(NodeId, int)>,
    )
        requires
            self.wf(),
            self.contains(start),
            self.dfs_inv(start, mirror, out, stack, gs),
            stack.len() == 0,
        ensures
            self.lists_subtree(start, out),
    {
        assert forall|j: int, c: NodeId|
            0 <= j < out.len() && #[trigger] self.children_of(out[j]).contains(c) implies out.contains(c) by {
            let i = choose|i: int| 0 <= i < self.children_of(out[j]).len() && self.children_of(out[j])[i] == c;
            assert(out.contains(self.children_of(out[j])[i]));
        }
        assert forall|d: NodeId| #[trigger] self.contains(d) && self.is_desc(d, start) implies out.contains(d) by {
            assert(out[0] == start);
            self.lemma_closed_holds_subtree(out, start, d);
        }
    }

    /// The ids of the subtree of `start` in pre-order: each node before its children, the
    /// children first to last.
    pub fn pre_order_ids(&self, start: NodeId) -> (r: Vec<NodeId>)
        requires
            self.wf(),
            self.contains(start),
        ensures
            r@ == self.pre_seq(start),
            r@.len() >= 1,
            r@[0] == start,
            self.lists_subtree(start, r@),
    {
        self.depth_first_ids(start, false)
    }

    /// The ids of the subtree of `start` in post-order: each node after its children, the
    /// children first to last; `start` comes last.
    pub fn post_order_ids(&self, start: NodeId) -> (r: Vec<NodeId>)
        requires
            self.wf(),
            self.contains(start),
        ensures
            r@ == self.post_seq(start),
            r@.len() >= 1,
            r@[r@.len() - 1] == start,
            self.lists_subtree(start, r@),
    {
        let walk = self.depth_first_ids(start, true);
        let mut out: Vec<NodeId> = Vec::new();
        let mut i: usize = walk.len();
        while i > 0
            invariant
                i <= walk@.len(),
                out@.len() == walk@.len() - i,
                forall|j: int| 0 <= j < out@.len() ==> #[trigger] out@[j] == walk@[walk@.len() - 1 - j],
            decreases i,
        {
            i = i - 1;
            out.push(walk[i]);
        }
        proof {
            let n = walk@.len();
            assert forall|j: int| 0 <= j < n implies #[trigger] out@[j] == walk@[n - 1 - j] by {}
            assert(out@.no_duplicates()) by {
                assert forall|a: int, b: int|
                    0 <= a < n && 0 <= b < n && a != b implies out@[a] != out@[b] by {
                    assert(out@[a] == walk@[n - 1 - a]);
                    assert(out@[b] == walk@[n - 1 - b]);
                }
            }
            assert forall|j: int| 0 <= j < n implies self.contains(#[trigger] out@[j]) && self.is_desc(
                out@[j],
                start,
            ) by {
                assert(out@[j] == walk@[n - 1 - j]);
            }
            assert forall|d: NodeId| #[trigger] self.contains(d) && self.is_desc(d, start) implies out@.contains(d) by {
                assert(walk@.contains(d));
                let k = choose|k: int| 0 <= k < n && walk@[k] == d;
                assert(out@[n - 1 - k] == d);
            }
            assert(out@ =~= walk@.reverse());
            lemma_mirror_reversed(*self, start);
        }
        out
    }

    /// Adds a node holding `data` as the last child of `parent` and returns its id.
    #[verifier::rlimit(100)]
    pub fn append_child(&mut self, parent: NodeId, data: T) -> (r: NodeId)
        requires
            old(self).wf(),
            old(self).contains(parent),
        ensures
            final(self).wf(),
            Self::appended(*old(self), parent, data, *final(self), r),
    {
        let ghost pre = *self;
        proof {
            pre.lemma_wf_parts(parent);
        }
        let ghost ks = pre.children_of(parent);
        let new_id = self.core_tree.insert(data);
        let ghost s1 = *self;
        assert(self.node(parent) == pre.node(parent));
        let prel = self.relatives(parent);
        let prev = prel.last_child;
        assert(prel == pre.rel(parent));
        proof {
            if let Some(l) = prev {
                assert(pre.kid_links_ok(parent, ks.len() - 1));
            }
        }
        self.set_relatives(
            new_id,
            Relatives {
                parent: Some(parent),
                prev_sibling: prev,
                next_sibling: None,
                first_child: None,
                last_child: None,
            },
        );
        let first = match prel.first_child {
            Some(f) => Some(f),
            None => Some(new_id),
        };
        self.set_relatives(
            parent,
            Relatives {
                parent: prel.parent,
                prev_sibling: prel.prev_sibling,
                next_sibling: prel.next_sibling,
                first_child: first,
                last_child: Some(new_id),
            },
        );
        let ghost mid = *self;
        match prev {
            Some(l) => {
                let lrel = self.relatives(l);
                self.set_relatives(
                    l,
                    Relatives {
                        parent: lrel.parent,
                        prev_sibling: lrel.prev_sibling,
                        next_sibling: Some(new_id),
                        first_child: lrel.first_child,
                        last_child: lrel.last_child,
                    },
                );
            },
            None => {},
        }
        proof {
            let fin = *self;
            if let Some(l) = prev {
                assert(l != parent);
                assert(l != new_id);
            }
            assert(fin.node(new_id) == mid.node(new_id));
            assert(fin.node(parent) == mid.node(parent));
            assert forall|k: NodeId|
                k != new_id && k != parent && Some(k) != prev implies #[trigger] fin.node(k)
                == pre.node(k) by {
                assert(fin.node(k) == mid.node(k));
                assert(mid.node(k) == s1.node(k));
                assert(s1.core_tree.lookup(k) == pre.core_tree.lookup(k));
            }
            assert(!ks.contains(new_id)) by {
                assert forall|i: int| 0 <= i < ks.len() implies ks[i] != new_id by {
                    assert(pre.kid_links_ok(parent, i));
                }
            }
            self.kids@ = self.kids@.insert(parent, ks.push(new_id)).insert(new_id, Seq::empty());
            self.depth@ = self.depth@.insert(new_id, pre.depth_of(parent) + 1);
            self.bound@ = pre.bound@ + 1;
            assert forall|k: NodeId| #[trigger] self.node(k) == fin.node(k) by {}
            assert forall|k: NodeId| #[trigger] self.contains(k) implies self.depth_of(k) < self.depth_bound() by {
                if k != new_id {
                    assert(pre.contains(k));
                    pre.lemma_wf_parts(k);
                }
            }
            assert forall|p: NodeId| #[trigger] self.contains(p) implies self.kids_ok(p)
                && self.parent_ok(p) by {
                self.lemma_append_node_ok(pre, parent, new_id, p);
            }
            reveal(Tree::wf);
        }
        new_id
    }

    /// Adds a node holding `data` as the first child of `parent` and returns its id.
    #[verifier::rlimit(100)]
    pub fn prepend_child(&mut self, parent: NodeId, data: T) -> (r: NodeId)
        requires
            old(self).wf(),
            old(self).contains(parent),
        ensures
            final(self).wf(),
            Self::prepended(*old(self), parent, data, *final(self), r),
    {
        let ghost pre = *self;
        proof {
            pre.lemma_wf_parts(parent);
        }
        let ghost ks = pre.children_of(parent);
        let new_id = self.core_tree.insert(data);
        let ghost s1 = *self;
        assert(self.node(parent) == pre.node(parent));
        let prel = self.relatives(parent);
        let next = prel.first_child;
        assert(prel == pre.rel(parent));
        proof {
            if let Some(f) = next {
                assert(pre.kid_links_ok(parent, 0));
            }
        }
        self.set_relatives(
            new_id,
            Relatives {
                parent: Some(parent),
                prev_sibling: None,
                next_sibling: next,
                first_child: None,
                last_child: None,
            },
        );
        let last = match prel.last_child {
            Some(l) => Some(l),
            None => Some(new_id),
        };
        self.set_relatives(
            parent,
            Relatives {
                parent: prel.parent,
                prev_sibling: prel.prev_sibling,
                next_sibling: prel.next_sibling,
                first_child: Some(new_id),
                last_child: last,
            },
        );
        let ghost mid = *self;
        match next {
            Some(f) => {
                let frel = self.relatives(f);
                self.set_relatives(
                    f,
                    Relatives {
                        parent: frel.parent,
                        prev_sibling: Some(new_id),
                        next_sibling: frel.next_sibling,
                        first_child: frel.first_child,
                        last_child: frel.last_child,
                    },
                );
            },
            None => {},
        }
        proof {
            let fin = *self;
            if let Some(f) = next {
                assert(f != parent);
                assert(f != new_id);
            }
            assert(fin.node(new_id) == mid.node(new_id));
            assert(fin.node(parent) == mid.node(parent));
            assert forall|k: NodeId|
                k != new_id && k != parent && Some(k) != next implies #[trigger] fin.node(k)
                == pre.node(k) by {
                assert(fin.node(k) == mid.node(k));
                assert(mid.node(k) == s1.node(k));
                assert(s1.core_tree.lookup(k) == pre.core_tree.lookup(k));
            }
            assert(!ks.contains(new_id)) by {
                assert forall|i: int| 0 <= i < ks.len() implies ks[i] != new_id by {
                    assert(pre.kid_links_ok(parent, i));
                }
            }
            self.kids@ = self.kids@.insert(parent, seq![new_id] + ks).insert(new_id, Seq::empty());
            self.depth@ = self.depth@.insert(new_id, pre.depth_of(parent) + 1);
            self.bound@ = pre.bound@ + 1;
            assert forall|k: NodeId| #[trigger] self.node(k) == fin.node(k) by {}
            assert forall|k: NodeId| #[trigger] self.contains(k) implies self.depth_of(k) < self.depth_bound() by {
                if k != new_id {
                    assert(pre.contains(k));
                    pre.lemma_wf_parts(k);
                }
            }
            assert forall|p: NodeId| #[trigger] self.contains(p) implies self.kids_ok(p)
                && self.parent_ok(p) by {
                self.lemma_prepend_node_ok(pre, parent, new_id, p);
            }
            reveal(Tree::wf);
        }
        new_id
    }

    proof fn lemma_prepend_node_ok(&self, pre: Self, parent: NodeId, new_id: NodeId, p: NodeId)
        requires
            pre.wf(),
            pre.contains(parent),
            !pre.contains(new_id),
            !pre.children_of(parent).contains(new_id),
            self.core_tree.wf(),
            self.contains(p),
            self.root_id == pre.root_id,
            self.kids@ == pre.kids@.insert(parent, seq![new_id] + pre.children_of(parent)).insert(
                new_id,
                Seq::empty(),
            ),
            self.depth@ == pre.depth@.insert(new_id, pre.depth_of(parent) + 1),
            ({
                let ks = pre.children_of(parent);
                let pr = pre.rel(parent);
                &&& self.node(new_id) == Some(
                    Node {
                        data: self.data_of(new_id),
                        relatives: Relatives {
                            parent: Some(parent),
                            prev_sibling: None,
                            next_sibling: pr.first_child,
                            first_child: None,
                            last_child: None,
                        },
                    },
                )
                &&& self.rel(parent) == Relatives {
                    parent: pr.parent,
                    prev_sibling: pr.prev_sibling,
                    next_sibling: pr.next_sibling,
                    first_child: Some(new_id),
                    last_child: if ks.len() == 0 {
                        Some(new_id)
                    } else {
                        pr.last_child
                    },
                }
                &&& self.contains(parent)
                &&& (pr.first_child matches Some(f) ==> self.contains(f) && self.rel(f)
                    == Relatives {
                    parent: pre.rel(f).parent,
                    prev_sibling: Some(new_id),
                    next_sibling: pre.rel(f).next_sibling,
                    first_child: pre.rel(f).first_child,
                    last_child: pre.rel(f).last_child,
                })
                &&& forall|k: NodeId|
                    k != new_id && k != parent && Some(k) != pr.first_child ==> #[trigger] self.node(
                        k,
                    ) == pre.node(k)
            }),
        ensures
            self.kids_ok(p) && self.parent_ok(p),
    {
        reveal(Tree::wf);
        let ks = pre.children_of(parent);
        let pr = pre.rel(parent);
        assert(pre.kids_ok(parent));
        if p == new_id {
            assert(self.children_of(parent).contains(new_id)) by {
                assert(self.children_of(parent)[0] == new_id);
            }
        } else if p == parent {
            let nks = self.children_of(parent);
            assert(nks == seq![new_id] + ks);
            assert(nks.no_duplicates()) by {
                assert forall|i: int, j: int|
                    0 <= i < nks.len() && 0 <= j < nks.len() && i != j implies nks[i]
                    != nks[j] by {
                    if i > 0 && j > 0 {
                        assert(nks[i] == ks[i - 1]);
                        assert(nks[j] == ks[j - 1]);
                    } else if i > 0 {
                        assert(ks.contains(ks[i - 1]));
                    } else {
                        assert(ks.contains(ks[j - 1]));
                    }
                }
            }
            assert forall|i: int| 0 <= i < nks.len() implies #[trigger] self.kid_links_ok(
                parent,
                i,
            ) by {
                if i > 0 {
                    assert(pre.kid_links_ok(parent, i - 1));
                    let c = ks[i - 1];
                    assert(c != new_id);
                    if c == parent {
                        assert(pre.depth_of(c) == pre.depth_of(parent) + 1);
                    }
                    if i == 1 {
                        assert(pr.first_child == Some(c));
                    } else {
                        assert(Some(c) != pr.first_child) by {
                            assert(ks.no_duplicates());
                            assert(ks[0] != c);
                        }
                    }
                } else if ks.len() > 0 {
                    assert(nks[1] == ks[0]);
                }
            }
            assert(pre.parent_ok(parent));
            match pr.parent {
                Some(g) => {
                    assert(g != parent) by {
                        assert(pre.children_of(g).contains(parent));
                        let j = choose|j: int|
                            0 <= j < pre.children_of(g).len() && pre.children_of(g)[j] == parent;
                        assert(pre.contains(g) ==> pre.kids_ok(g));
                        assert(pre.kid_links_ok(g, j));
                    }
                },
                None => {
                    if let Some(y) = pr.next_sibling {
                        assert(pre.contains(y));
                        if Some(y) == pr.first_child {
                            assert(pre.kid_links_ok(parent, 0));
                        }
                    }
                    if let Some(y) = pr.prev_sibling {
                        assert(pre.contains(y));
                        if Some(y) == pr.first_child {
                            assert(pre.kid_links_ok(parent, 0));
                        }
                    }
                },
            }
        } else {
            if Some(p) == pr.first_child {
                assert(pre.kid_links_ok(parent, 0));
            }
            assert(pre.contains(p));
            assert(pre.kids_ok(p) && pre.parent_ok(p));
            let pks = pre.children_of(p);
            assert(self.children_of(p) == pks);
            assert forall|i: int| 0 <= i < pks.len() implies #[trigger] self.kid_links_ok(p, i) by {
                assert(pre.kid_links_ok(p, i));
                let c = pks[i];
                if Some(c) == pr.first_child {
                    assert(pre.kid_links_ok(parent, 0));
                }
            }
            match pre.rel(p).parent {
                Some(g) => {
                    if g == parent {
                        assert(self.children_of(parent).contains(p)) by {
                            let j = choose|j: int| 0 <= j < ks.len() && ks[j] == p;
                            assert(self.children_of(parent)[j + 1] == p);
                        }
                    }
                },
                None => {
                    if let Some(y) = pre.rel(p).next_sibling {
                        assert(pre.contains(y));
                        if Some(y) == pr.first_child {
                            assert(pre.kid_links_ok(parent, 0));
                        }
                    }
                    if let Some(y) = pre.rel(p).prev_sibling {
                        assert(pre.contains(y));
                        if Some(y) == pr.first_child {
                            assert(pre.kid_links_ok(parent, 0));
                        }
                    }
                },
            }
        }
    }

    /// Puts a new node holding `root` at the top of the tree: the former root, if any, becomes
    /// its only child. Returns the new root's id.
    #[verifier::rlimit(100)]
    pub fn set_root(&mut self, root: T) -> (r: NodeId)
        requires
            old(self).wf(),
        ensures
            final(self).wf(),
            Self::root_set(*old(self), root, *final(self), r),
    {
        let ghost pre = *self;
        let old_root = self.root_id;
        proof {
            reveal(Tree::wf);
            if let Some(o) = old_root {
                pre.lemma_wf_parts(o);
            }
        }
        let new_id = self.core_tree.insert(root);
        let ghost s1 = *self;
        self.root_id = Some(new_id);
        self.set_relatives(
            new_id,
            Relatives {
                parent: None,
                prev_sibling: None,
                next_sibling: None,
                first_child: old_root,
                last_child: old_root,
            },
        );
        let ghost mid = *self;
        match old_root {
            Some(o) => {
                assert(self.node(o) == pre.node(o));
                let orel = self.relatives(o);
                self.set_relatives(
                    o,
                    Relatives {
                        parent: Some(new_id),
                        prev_sibling: orel.prev_sibling,
                        next_sibling: orel.next_sibling,
                        first_child: orel.first_child,
                        last_child: orel.last_child,
                    },
                );
            },
            None => {},
        }
        proof {
            let fin = *self;
            assert(fin.node(new_id) == mid.node(new_id));
            assert forall|k: NodeId|
                k != new_id && Some(k) != old_root implies #[trigger] fin.node(k) == pre.node(
                k,
            ) by {
                assert(fin.node(k) == mid.node(k));
                assert(mid.node(k) == s1.node(k));
                assert(s1.core_tree.lookup(k) == pre.core_tree.lookup(k));
            }
            let kids_new = if old_root is Some {
                seq![old_root->Some_0]
            } else {
                Seq::<NodeId>::empty()
            };
            let base: nat = if old_root is Some {
                pre.depth_of(old_root->Some_0)
            } else {
                0
            };
            self.kids@ = self.kids@.insert(new_id, kids_new);
            self.depth@ = Map::new(|k: NodeId| true, |k: NodeId| pre.depth_of(k) + 1).insert(
                new_id,
                base,
            );
            self.bound@ = pre.bound@ + 1;
            assert forall|k: NodeId| #[trigger] self.node(k) == fin.node(k) by {}
            assert forall|k: NodeId| #[trigger] self.contains(k) implies self.depth_of(k) < self.depth_bound() by {
                if k != new_id {
                    assert(pre.contains(k));
                } else if let Some(o) = old_root {
                    assert(pre.contains(o));
                }
            }
            assert forall|p: NodeId| #[trigger] self.contains(p) implies self.kids_ok(p)
                && self.parent_ok(p) by {
                if p == new_id {
                    if let Some(o) = old_root {
                        assert(self.kid_links_ok(new_id, 0));
                    }
                } else {
                    if Some(p) == old_root {
                        assert(pre.contains(p));
                    }
                    assert(pre.contains(p));
                    assert(pre.kids_ok(p) && pre.parent_ok(p));
                    let pks = pre.children_of(p);
                    assert(self.children_of(p) == pks);
                    assert forall|i: int| 0 <= i < pks.len() implies #[trigger] self.kid_links_ok(
                        p,
                        i,
                    ) by {
                        assert(pre.kid_links_ok(p, i));
                        let c = pks[i];
                        assert(c != new_id);
                        if Some(c) == old_root {
                            assert(pre.rel(c).parent is None);
                        }
                    }
                    match pre.rel(p).parent {
                        Some(g) => {
                            assert(g != new_id);
                            assert(Some(p) != old_root);
                        },
                        None => {
                            if let Some(y) = pre.rel(p).next_sibling {
                                assert(pre.contains(y));
                                assert(y != new_id);
                                if Some(y) == old_root {
                                    assert(pre.rel(y).prev_sibling is None);
                                }
                            }
                            if let Some(y) = pre.rel(p).prev_sibling {
                                assert(pre.contains(y));
                                assert(y != new_id);
                                if Some(y) == old_root {
                                    assert(pre.rel(y).next_sibling is None);
                                }
                            }
                        },
                    }
                }
            }
        }
        new_id
    }

    /// Distinct nodes of a tree are no more than the slots of its arena.
    proof fn lemma_distinct_nodes_bounded(&self, s: Seq<NodeId>)
        requires
            s.no_duplicates(),
            forall|i: int| 0 <= i < s.len() ==> self.contains(#[trigger] s[i]),
        ensures
            s.len() <= self.slot_count(),
    {
        let n = self.slot_count() as int;
        let idx = s.map(|i: int, x: NodeId| x.index.index as int);
        assert(idx.no_duplicates()) by {
            assert forall|i: int, j: int|
                0 <= i < idx.len() && 0 <= j < idx.len() && i != j implies idx[i] != idx[j] by {
                assert(self.contains(s[i]));
                assert(self.contains(s[j]));
                if idx[i] == idx[j] {
                    assert(s[i].index == s[j].index);
                    assert(s[i] == s[j]);
                }
            }
        }
        idx.unique_seq_to_set();
        lemma_int_range(0, n);
        assert(idx.to_set().subset_of(set_int_range(0, n))) by {
            assert forall|v: int| idx.to_set().contains(v) implies set_int_range(0, n).contains(v) by {
                let i = choose|i: int| 0 <= i < idx.len() && idx[i] == v;
                assert(self.contains(s[i]));
            }
        }
        lemma_len_subset(idx.to_set(), set_int_range(0, n));
    }

    /// Following parent links from a node of a well-formed tree only meets nodes of the tree.
    proof fn lemma_desc_contains(&self, d: NodeId, x: NodeId)
        requires
            self.wf(),
            self.is_desc(d, x),
            d != x,
        ensures
            !self.contains(d) || self.contains(x),
        decreases self.depth_of(d),
    {
        if self.contains(d) {
            let p = self.rel(d).parent->Some_0;
            self.lemma_wf_parts(d);
            if p != x {
                self.lemma_desc_contains(p, x);
            }
        }
    }

    /// A node of the subtree of `x` is at least as deep as `x`.
    proof fn lemma_desc_depth(&self, d: NodeId, x: NodeId)
        requires
            self.is_desc(d, x),
        ensures
            self.depth_of(d) >= self.depth_of(x),
        decreases self.depth_of(d),
    {
        if d != x {
            self.lemma_desc_depth(self.rel(d).parent->Some_0, x);
        }
    }

    /// A subtree is closed under children: if a sequence holds `x` and, with each node, all of
    /// its children, it holds every node of `x`'s subtree.
    proof fn lemma_closed_holds_subtree(&self, r: Seq<NodeId>, x: NodeId, d: NodeId)
        requires
            self.wf(),
            r.contains(x),
            forall|j: int, c: NodeId|
                0 <= j < r.len() && #[trigger] self.children_of(r[j]).contains(c) ==> r.contains(c),
            self.contains(d),
            self.is_desc(d, x),
        ensures
            r.contains(d),
        decreases self.depth_of(d),
    {
        if d != x {
            let p = self.rel(d).parent->Some_0;
            self.lemma_wf_parts(d);
            assert(self.contains(p));
            self.lemma_closed_holds_subtree(r, x, p);
            let j = choose|j: int| 0 <= j < r.len() && r[j] == p;
            assert(self.children_of(r[j]).contains(d));
        }
    }

    /// The ids of the subtree of `start`, level by level, each level left to right.
    pub fn level_order_ids(&self, start: NodeId) -> (r: Vec<NodeId>)
        requires
            self.wf(),
            self.contains(start),
        ensures
            self.level_order_of(start, r@),
    {
        let mut order: Vec<NodeId> = Vec::new();
        order.push(start);
        let mut head: usize = 0;
        proof {
            self.lemma_wf_parts(start);
            assert(order@ == seq![start]);
            assert forall|c: NodeId| #[trigger] self.children_of(start).contains(c) implies c != start by {
                let m = choose|m: int| 0 <= m < self.children_of(start).len() && self.children_of(start)[m] == c;
                assert(self.kid_links_ok(start, m));
            }
            self.lemma_distinct_nodes_bounded(order@);
        }
        let ghost mut lv_d: nat = 0;
        let ghost mut lv_j: int = 0;
        proof {
            assert(self.levels_upto(start, 0) =~= Seq::<NodeId>::empty());
            assert(self.levels_upto(start, 1) =~= seq![start]);
            assert(self.level(start, 0).subrange(0, 0) =~= Seq::<NodeId>::empty());
            assert(self.kids_concat(Seq::<NodeId>::empty()) =~= Seq::<NodeId>::empty());
            assert(order@ =~= self.levels_upto(start, 1) + self.kids_concat(
                self.level(start, 0).subrange(0, 0),
            ));
        }
        while head < order.len()
            invariant
                self.wf(),
                self.contains(start),
                0 <= lv_j <= self.level(start, lv_d).len(),
                lv_j == self.level(start, lv_d).len() ==> lv_j == 0,
                head == self.levels_upto(start, lv_d).len() + lv_j,
                order@ == self.levels_upto(start, (lv_d + 1) as nat) + self.kids_concat(
                    self.level(start, lv_d).subrange(0, lv_j),
                ),
                1 <= order.len(),
                head <= order.len(),
                order@[0] == start,
                order@.no_duplicates(),
                order.len() <= self.slot_count(),
                forall|j: int|
                    0 <= j < order.len() ==> self.contains(#[trigger] order@[j]) && self.is_desc(
                        order@[j],
                        start,
                    ) && self.depth_of(order@[j]) >= self.depth_of(start),
                forall|j: int, c: NodeId|
                    0 <= j < head && #[trigger] self.children_of(order@[j]).contains(c)
                        ==> order@.contains(c),
                forall|j: int, c: NodeId|
                    head <= j < order.len() && #[trigger] self.children_of(order@[j]).contains(c)
                        ==> !order@.contains(c),
                forall|j: int|
                    1 <= j < order.len() ==> #[trigger] self.parent_among(order@[j], order@.subrange(0, head as int)),
                forall|i: int, j: int|
                    0 <= i <= j < order.len() ==> self.depth_of(#[trigger] order@[i])
                        <= self.depth_of(#[trigger] order@[j]),
                head > 0 ==> forall|j: int|
                    0 <= j < order.len() ==> self.depth_of(#[trigger] order@[j]) <= self.depth_of(
                        order@[head - 1],
                    ) + 1,
                head == 0 ==> order.len() == 1,
            decreases self.slot_count() - head,
        {
            proof {
                self.lemma_level_pick(start, lv_d, lv_j, order@);
            }
            let x = order[head];
            head = head + 1;
            let ghost base = order@;
            let ghost ks = self.children_of(x);
            proof {
                self.lemma_wf_parts(x);
            }
            let mut cur = self.relatives(x).first_child;
            let ghost mut i: int = 0;
            while cur.is_some()
                invariant
                    self.wf(),
                    self.contains(x),
                    self.kids_ok(x),
                    ks == self.children_of(x),
                    0 <= i <= ks.len(),
                    order@ == base + ks.subrange(0, i),
                    cur == (if i < ks.len() {
                        Some(ks[i])
                    } else {
                        None::<NodeId>
                    }),
                decreases ks.len() - i,
            {
                let c = cur.unwrap();
                assert(self.kid_links_ok(x, i));
                order.push(c);
                cur = self.relatives(c).next_sibling;
                proof {
                    assert(order@ == base + ks.subrange(0, i + 1));
                    i = i + 1;
                }
            }
            proof {
                assert(ks.subrange(0, i) == ks);
                self.lemma_bfs_step(start, base, head as int, x, order@);
                self.lemma_level_step(start, lv_d, lv_j, base);
                if lv_j + 1 == self.level(start, lv_d).len() {
                    lv_d = lv_d + 1;
                    lv_j = 0;
                } else {
                    lv_j = lv_j + 1;
                }
            }
        }
        proof {
            assert forall|d: NodeId| #[trigger] self.contains(d) && self.is_desc(d, start) implies order@.contains(d) by {
                assert(order@[0] == start);
                self.lemma_closed_holds_subtree(order@, start, d);
            }
            assert(order@.subrange(0, head as int) =~= order@);
            self.lemma_level_done(start, lv_d, lv_j, order@);
        }
        order
    }

    /// Where a level-order walk stands: the first `d` levels and the first `j` nodes of level
    /// `d` have been expanded; the node to expand next is the `j`-th of level `d`.
    proof fn lemma_level_pick(&self, start: NodeId, d: nat, j: int, order: Seq<NodeId>)
        requires
            0 <= j <= self.level(start, d).len(),
            j == self.level(start, d).len() ==> j == 0,
            order == self.levels_upto(start, (d + 1) as nat) + self.kids_concat(
                self.level(start, d).subrange(0, j),
            ),
            self.levels_upto(start, d).len() + j < order.len(),
        ensures
            j < self.level(start, d).len(),
            order[self.levels_upto(start, d).len() + j] == self.level(start, d)[j],
    {
        let lv = self.level(start, d);
        let up = self.levels_upto(start, d);
        assert(self.levels_upto(start, (d + 1) as nat) == up + lv);
        if j == lv.len() {
            assert(lv.subrange(0, j) =~= Seq::<NodeId>::empty());
            assert(self.kids_concat(lv.subrange(0, j)) =~= Seq::<NodeId>::empty());
        }
        assert(order[up.len() + j] == (up + lv)[up.len() + j]);
    }

    /// Expanding the next node of a level-order walk appends its children, and moves on to the
    /// next level when the current one is done.
    proof fn lemma_level_step(&self, start: NodeId, d: nat, j: int, base: Seq<NodeId>)
        requires
            0 <= j < self.level(start, d).len(),
            base == self.levels_upto(start, (d + 1) as nat) + self.kids_concat(
                self.level(start, d).subrange(0, j),
            ),
        ensures
            ({
                let lv = self.level(start, d);
                let next = base + self.children_of(lv[j]);
                &&& self.levels_upto(start, (d + 1) as nat).len() == self.levels_upto(start, d).len()
                    + lv.len()
                &&& j + 1 < lv.len() ==> next == self.levels_upto(start, (d + 1) as nat)
                    + self.kids_concat(lv.subrange(0, j + 1))
                &&& j + 1 == lv.len() ==> next == self.levels_upto(start, (d + 2) as nat)
                    + self.kids_concat(self.level(start, (d + 1) as nat).subrange(0, 0))
            }),
    {
        let lv = self.level(start, d);
        let up = self.levels_upto(start, d);
        assert(self.levels_upto(start, (d + 1) as nat) == up + lv);
        let sub = lv.subrange(0, j + 1);
        assert(sub.drop_last() =~= lv.subrange(0, j));
        assert(sub.last() == lv[j]);
        assert(self.kids_concat(sub) == self.kids_concat(lv.subrange(0, j)) + self.children_of(lv[j]));
        let next = base + self.children_of(lv[j]);
        assert(next =~= self.levels_upto(start, (d + 1) as nat) + self.kids_concat(sub));
        if j + 1 == lv.len() {
            assert(sub =~= lv);
            assert(self.level(start, (d + 1) as nat) == self.kids_concat(lv));
            assert(self.levels_upto(start, (d + 2) as nat) == self.levels_upto(start, (d + 1) as nat)
                + self.level(start, (d + 1) as nat));
            assert(self.level(start, (d + 1) as nat).subrange(0, 0) =~= Seq::<NodeId>::empty());
            assert(self.kids_concat(Seq::<NodeId>::empty()) =~= Seq::<NodeId>::empty());
            assert(next =~= self.levels_upto(start, (d + 2) as nat) + self.kids_concat(
                self.level(start, (d + 1) as nat).subrange(0, 0),
            ));
        }
    }

    /// When the level-order walk has nothing left to expand, it has listed every level up to the
    /// first empty one.
    proof fn lemma_level_done(&self, start: NodeId, d: nat, j: int, order: Seq<NodeId>)
        requires
            0 <= j <= self.level(start, d).len(),
            j == self.level(start, d).len() ==> j == 0,
            order == self.levels_upto(start, (d + 1) as nat) + self.kids_concat(
                self.level(start, d).subrange(0, j),
            ),
            self.levels_upto(start, d).len() + j == order.len(),
        ensures
            exists|e: nat| order == self.levels_upto(start, e) && self.level(start, e).len() == 0,
    {
        let lv = self.level(start, d);
        let up = self.levels_upto(start, d);
        assert(self.levels_upto(start, (d + 1) as nat) == up + lv);
        assert(lv.len() == 0);
        assert(lv.subrange(0, j) =~= Seq::<NodeId>::empty());
        assert(self.kids_concat(Seq::<NodeId>::empty()) =~= Seq::<NodeId>::empty());
        assert(order =~= up);
    }

    /// One round of the level-order walk: the node at `head - 1` is expanded by appending its
    /// children to the sequence.
    #[verifier::rlimit(100)]
    proof fn lemma_bfs_step(&self, start: NodeId, base: Seq<NodeId>, head: int, x: NodeId, order: Seq<NodeId>)
        requires
            self.wf(),
            self.contains(start),
            1 <= head <= base.len(),
            base[head - 1] == x,
            order == base + self.children_of(x),
            base[0] == start,
            base.no_duplicates(),
            base.len() <= self.slot_count(),
            forall|j: int|
                0 <= j < base.len() ==> self.contains(#[trigger] base[j]) && self.is_desc(
                    base[j],
                    start,
                ) && self.depth_of(base[j]) >= self.depth_of(start),
            forall|j: int, c: NodeId|
                0 <= j < head - 1 && #[trigger] self.children_of(base[j]).contains(c)
                    ==> base.contains(c),
            forall|j: int, c: NodeId|
                head - 1 <= j < base.len() && #[trigger] self.children_of(base[j]).contains(c)
                    ==> !base.contains(c),
            forall|j: int|
                1 <= j < base.len() ==> #[trigger] self.parent_among(base[j], base.subrange(0, head - 1)),
            forall|i: int, j: int|
                0 <= i <= j < base.len() ==> self.depth_of(#[trigger] base[i]) <= self.depth_of(
                    #[trigger] base[j],
                ),
            head - 1 > 0 ==> forall|j: int|
                0 <= j < base.len() ==> self.depth_of(#[trigger] base[j]) <= self.depth_of(
                    base[head - 2],
                ) + 1,
            head - 1 == 0 ==> base.len() == 1,
        ensures
            order[0] == start,
            order.no_duplicates(),
            order.len() <= self.slot_count(),
            forall|j: int|
                0 <= j < order.len() ==> self.contains(#[trigger] order[j]) && self.is_desc(
                    order[j],
                    start,
                ) && self.depth_of(order[j]) >= self.depth_of(start),
            forall|j: int, c: NodeId|
                0 <= j < head && #[trigger] self.children_of(order[j]).contains(c)
                    ==> order.contains(c),
            forall|j: int, c: NodeId|
                head <= j < order.len() && #[trigger] self.children_of(order[j]).contains(c)
                    ==> !order.contains(c),
            forall|j: int|
                1 <= j < order.len() ==> #[trigger] self.parent_among(order[j], order.subrange(0, head)),
            forall|i: int, j: int|
                0 <= i <= j < order.len() ==> self.depth_of(#[trigger] order[i]) <= self.depth_of(
                    #[trigger] order[j],
                ),
            forall|j: int|
                0 <= j < order.len() ==> self.depth_of(#[trigger] order[j]) <= self.depth_of(
                    order[head - 1],
                ) + 1,
    {
        let ks = self.children_of(x);
        let bl = base.len() as int;
        self.lemma_wf_parts(x);
        assert(self.contains(base[head - 1]));
        assert forall|m: int| 0 <= m < ks.len() implies #[trigger] self.contains(ks[m])
            && self.rel(ks[m]).parent == Some(x) && self.depth_of(ks[m]) == self.depth_of(x) + 1
            && !base.contains(ks[m]) by {
            assert(self.kid_links_ok(x, m));
            assert(self.children_of(base[head - 1]).contains(ks[m]));
        }
        // every node of `order` is in the tree, in the subtree of `start`, and not shallower
        assert forall|j: int|
            0 <= j < order.len() implies self.contains(#[trigger] order[j]) && self.is_desc(
                order[j],
                start,
            ) && self.depth_of(order[j]) >= self.depth_of(start) by {
            if j >= bl {
                let c = ks[j - bl];
                assert(order[j] == c);
                assert(self.contains(c));
                assert(self.is_desc(base[head - 1], start));
                assert(self.depth_of(x) >= self.depth_of(start));
                assert(self.rel(c).parent == Some(x));
                assert(self.depth_of(c) == self.depth_of(x) + 1);
                assert(self.is_desc(c, start));
            } else {
                assert(order[j] == base[j]);
                assert(self.contains(base[j]) && self.is_desc(base[j], start) && self.depth_of(base[j])
                    >= self.depth_of(start));
            }
        }
        assert(order.no_duplicates()) by {
            assert forall|i: int, j: int|
                0 <= i < order.len() && 0 <= j < order.len() && i != j implies order[i]
                != order[j] by {
                if i < bl && j < bl {
                } else if i >= bl && j >= bl {
                    assert(self.kids_ok(x));
                } else if i < bl {
                    assert(!base.contains(ks[j - bl]));
                    assert(order[j] == ks[j - bl]);
                } else {
                    assert(!base.contains(ks[i - bl]));
                    assert(order[i] == ks[i - bl]);
                }
            }
        }
        assert forall|i: int| 0 <= i < order.len() implies self.contains(#[trigger] order[i]) by {
            assert(self.contains(order[i]) && self.is_desc(order[i], start));
        }
        self.lemma_distinct_nodes_bounded(order);
        // expanded nodes have all of their children in the sequence
        assert forall|j: int, c: NodeId|
            0 <= j < head && #[trigger] self.children_of(order[j]).contains(c) implies order.contains(
            c,
        ) by {
            assert(order[j] == base[j]);
            if j < head - 1 {
                assert(base.contains(c));
                let m = choose|m: int| 0 <= m < bl && base[m] == c;
                assert(order[m] == c);
            } else {
                let m = choose|m: int| 0 <= m < ks.len() && ks[m] == c;
                assert(order[bl + m] == c);
            }
        }
        // pending nodes have none of their children in the sequence yet
        assert forall|j: int, c: NodeId|
            head <= j < order.len() && #[trigger] self.children_of(order[j]).contains(c) implies !order.contains(
            c,
        ) by {
            let y = order[j];
            assert(self.contains(y));
            self.lemma_wf_parts(y);
            let m = choose|m: int| 0 <= m < self.children_of(y).len() && self.children_of(y)[m] == c;
            assert(self.kid_links_ok(y, m));
            assert(self.rel(c).parent == Some(y));
            if order.contains(c) {
                let k = choose|k: int| 0 <= k < order.len() && order[k] == c;
                if k < bl {
                    if k == 0 {
                        assert(c == start);
                        self.lemma_desc_depth(y, start);
                    } else {
                        assert(base[k] == c);
                        assert(self.parent_among(base[k], base.subrange(0, head - 1)));
                        let n = choose|n: int| 0 <= n < head - 1 && #[trigger] base.subrange(0, head - 1)[n] == y;
                        assert(base[n] == y);
                        if j < bl {
                            assert(order[j] == base[j]);
                        } else {
                            assert(order[j] == ks[j - bl]);
                            assert(base.contains(ks[j - bl]));
                        }
                    }
                } else {
                    assert(order[k] == ks[k - bl]);
                    assert(self.rel(ks[k - bl]).parent == Some(x));
                    if j < bl {
                        assert(order[j] == base[j]);
                        assert(j != head - 1);
                    } else {
                        assert(order[j] == ks[j - bl]);
                        assert(self.depth_of(ks[j - bl]) == self.depth_of(x) + 1);
                    }
                }
            }
        }
        // every node after the first hangs below an expanded node
        assert forall|j: int|
            1 <= j < order.len() implies #[trigger] self.parent_among(order[j], order.subrange(0, head)) by {
            if j < bl {
                assert(order[j] == base[j]);
                assert(self.parent_among(base[j], base.subrange(0, head - 1)));
                let q = self.rel(base[j]).parent->Some_0;
                assert(base.subrange(0, head - 1).contains(q));
                let n = choose|n: int| 0 <= n < head - 1 && #[trigger] base.subrange(0, head - 1)[n] == q;
                assert(base[n] == q);
                assert(order[n] == q);
                assert(order.subrange(0, head)[n] == q);
            } else {
                assert(order[j] == ks[j - bl]);
                assert(order.subrange(0, head)[head - 1] == x);
                assert(self.depth_of(ks[j - bl]) == self.depth_of(x) + 1);
            }
        }
        // depths never decrease along the sequence
        assert forall|j: int|
            0 <= j < order.len() implies self.depth_of(#[trigger] order[j]) <= self.depth_of(
            order[head - 1],
        ) + 1 by {
            assert(order[head - 1] == x);
            if j >= bl {
                assert(order[j] == ks[j - bl]);
            } else {
                assert(order[j] == base[j]);
                if head - 1 > 0 {
                    assert(self.depth_of(base[head - 2]) <= self.depth_of(base[head - 1]));
                }
            }
        }
        assert forall|i: int, j: int|
            0 <= i <= j < order.len() implies self.depth_of(#[trigger] order[i]) <= self.depth_of(
            #[trigger] order[j],
        ) by {
            assert(order[head - 1] == x);
            if j >= bl && i >= bl {
                assert(order[j] == ks[j - bl]);
                assert(order[i] == ks[i - bl]);
            } else if j >= bl {
                assert(order[j] == ks[j - bl]);
                assert(order[i] == base[i]);
                if head - 1 > 0 {
                    assert(self.depth_of(base[head - 2]) <= self.depth_of(base[head - 1]));
                }
            } else {
                assert(order[j] == base[j]);
                assert(order[i] == base[i]);
            }
        }
    }

    /// Unlinks `x` from its parent and siblings: the parent's first or last child and the
    /// neighbours' links are re-stitched around it, as `spliced_rel` says.
    fn splice_out(&mut self, x: NodeId, xr: Relatives)
        requires
            old(self).core_tree.wf(),
            old(self).contains(x),
            xr == old(self).rel(x),
            xr.parent matches Some(p) ==> old(self).contains(p),
            xr.prev_sibling matches Some(a) ==> old(self).contains(a),
            xr.next_sibling matches Some(b) ==> old(self).contains(b),
        ensures
            final(self).core_tree.wf(),
            forall|k: NodeId| #[trigger]
                final(self).node(k) == (if old(self).contains(k) {
                    Some(
                        Node {
                            data: old(self).data_of(k),
                            relatives: Self::spliced_rel(*old(self), x, k),
                        },
                    )
                } else {
                    None
                }),
            final(self).root_id == old(self).root_id,
            final(self).kids == old(self).kids,
            final(self).depth == old(self).depth,
            final(self).bound == old(self).bound,
            final(self).ident() == old(self).ident(),
            final(self).slot_count() == old(self).slot_count(),
            final(self).removals_left() == old(self).removals_left(),
    {
        let ghost pre = *self;
        match xr.parent {
            Some(p) => {
                let pr = self.relatives(p);
                let first = if is_node(pr.first_child, x) {
                    xr.next_sibling
                } else {
                    pr.first_child
                };
                let last = if is_node(pr.last_child, x) {
                    xr.prev_sibling
                } else {
                    pr.last_child
                };
                self.set_relatives(p, Relatives { first_child: first, last_child: last, ..pr });
            },
            None => {},
        }
        let ghost s1 = *self;
        assert forall|k: NodeId| #[trigger] s1.node(k) == (if pre.contains(k) {
            Some(
                Node {
                    data: pre.data_of(k),
                    relatives: if xr.parent == Some(k) {
                        Relatives {
                            first_child: if pre.rel(k).first_child == Some(x) {
                                xr.next_sibling
                            } else {
                                pre.rel(k).first_child
                            },
                            last_child: if pre.rel(k).last_child == Some(x) {
                                xr.prev_sibling
                            } else {
                                pre.rel(k).last_child
                            },
                            ..pre.rel(k)
                        }
                    } else {
                        pre.rel(k)
                    },
                },
            )
        } else {
            None
        }) by {}
        match xr.prev_sibling {
            Some(a) => {
                let ar = self.relatives(a);
                self.set_relatives(a, Relatives { next_sibling: xr.next_sibling, ..ar });
            },
            None => {},
        }
        let ghost s2 = *self;
        match xr.next_sibling {
            Some(b) => {
                let br = self.relatives(b);
                self.set_relatives(b, Relatives { prev_sibling: xr.prev_sibling, ..br });
            },
            None => {},
        }
        assert forall|k: NodeId| #[trigger]
            self.node(k) == (if pre.contains(k) {
                Some(Node { data: pre.data_of(k), relatives: Self::spliced_rel(pre, x, k) })
            } else {
                None
            }) by {
            assert(s2.node(k) == (if pre.contains(k) {
                Some(
                    Node {
                        data: pre.data_of(k),
                        relatives: if xr.prev_sibling == Some(k) {
                            Relatives { next_sibling: xr.next_sibling, ..s1.rel(k) }
                        } else {
                            s1.rel(k)
                        },
                    },
                )
            } else {
                None
            }));
        }
    }

    /// Removes every node of `sub` but its first from the arena.
    fn drop_nodes(&mut self, sub: &Vec<NodeId>)
        requires
            old(self).core_tree.wf(),
            sub@.no_duplicates(),
            sub.len() >= 1,
            forall|j: int| 1 <= j < sub.len() ==> old(self).contains(#[trigger] sub@[j]),
            old(self).removals_left() >= sub.len(),
        ensures
            final(self).core_tree.wf(),
            forall|k: NodeId| #[trigger]
                final(self).node(k) == (if sub@.subrange(1, sub.len() as int).contains(k) {
                    None
                } else {
                    old(self).node(k)
                }),
            final(self).root_id == old(self).root_id,
            final(self).kids == old(self).kids,
            final(self).depth == old(self).depth,
            final(self).bound == old(self).bound,
            final(self).ident() == old(self).ident(),
            final(self).slot_count() == old(self).slot_count(),
            final(self).removals_left() == old(self).removals_left() - (sub.len() - 1),
    {
        let ghost pre = *self;
        let mut j: usize = 1;
        while j < sub.len()
            invariant
                self.core_tree.wf(),
                1 <= j <= sub.len(),
                sub@.no_duplicates(),
                forall|m: int| 1 <= m < sub.len() ==> pre.contains(#[trigger] sub@[m]),
                forall|k: NodeId| #[trigger]
                    self.node(k) == (if sub@.subrange(1, j as int).contains(k) {
                        None
                    } else {
                        pre.node(k)
                    }),
                self.removals_left() == pre.removals_left() - (j - 1),
                pre.removals_left() >= sub.len(),
                self.root_id == pre.root_id,
                self.kids == pre.kids,
                self.depth == pre.depth,
                self.bound == pre.bound,
                self.ident() == pre.ident(),
                self.slot_count() == pre.slot_count(),
            decreases sub.len() - j,
        {
            let id = sub[j];
            let ghost before = *self;
            proof {
                assert(!sub@.subrange(1, j as int).contains(id)) by {
                    if sub@.subrange(1, j as int).contains(id) {
                        let m = choose|m: int| 0 <= m < j - 1 && #[trigger] sub@.subrange(1, j as int)[m] == id;
                        assert(sub@[m + 1] == sub@[j as int]);
                    }
                }
                assert(self.node(id) == pre.node(id));
            }
            self.core_tree.remove(id);
            proof {
                assert forall|k: NodeId| #[trigger]
                    self.node(k) == (if sub@.subrange(1, j + 1).contains(k) {
                        None
                    } else {
                        pre.node(k)
                    }) by {
                    assert(before.node(k) == (if sub@.subrange(1, j as int).contains(k) {
                        None
                    } else {
                        pre.node(k)
                    }));
                    if k == id {
                        assert(sub@.subrange(1, j + 1)[j - 1] == id);
                    } else {
                        assert(sub@.subrange(1, j + 1).contains(k) == sub@.subrange(1, j as int).contains(
                            k,
                        )) by {
                            if sub@.subrange(1, j + 1).contains(k) {
                                let m = choose|m: int|
                                    0 <= m < j && #[trigger] sub@.subrange(1, j + 1)[m] == k;
                                assert(sub@.subrange(1, j as int)[m] == k);
                            }
                            if sub@.subrange(1, j as int).contains(k) {
                                let m = choose|m: int|
                                    0 <= m < j - 1 && #[trigger] sub@.subrange(1, j as int)[m] == k;
                                assert(sub@.subrange(1, j + 1)[m] == k);
                            }
                        }
                    }
                }
            }
            j = j + 1;
        }
    }

    /// Clears the parent link of each of `x`'s children, found by walking from its first child
    /// along next-sibling links.
    #[verifier::rlimit(100)]
    fn orphan_children(&mut self, x: NodeId, ks: Ghost<Seq<NodeId>>)
        requires
            old(self).core_tree.wf(),
            old(self).contains(x),
            ks@.no_duplicates(),
            old(self).rel(x).first_child == (if ks@.len() == 0 {
                None
            } else {
                Some(ks@[0])
            }),
            forall|i: int|
                0 <= i < ks@.len() ==> old(self).contains(#[trigger] ks@[i]) && ks@[i] != x
                    && old(self).rel(ks@[i]).next_sibling == (if i == ks@.len() - 1 {
                    None
                } else {
                    Some(ks@[i + 1])
                }),
        ensures
            final(self).core_tree.wf(),
            forall|k: NodeId| #[trigger]
                final(self).node(k) == (if ks@.contains(k) {
                    Some(
                        Node {
                            data: old(self).data_of(k),
                            relatives: Relatives { parent: None, ..old(self).rel(k) },
                        },
                    )
                } else {
                    old(self).node(k)
                }),
            final(self).root_id == old(self).root_id,
            final(self).kids == old(self).kids,
            final(self).depth == old(self).depth,
            final(self).bound == old(self).bound,
            final(self).ident() == old(self).ident(),
            final(self).slot_count() == old(self).slot_count(),
            final(self).removals_left() == old(self).removals_left(),
    {
        let ghost pre = *self;
        let mut cur = self.relatives(x).first_child;
        let ghost mut i: int = 0;
        while cur.is_some()
            invariant
                self.core_tree.wf(),
                0 <= i <= ks@.len(),
                ks@.no_duplicates(),
                forall|m: int|
                    0 <= m < ks@.len() ==> pre.contains(#[trigger] ks@[m]) && pre.rel(ks@[m]).next_sibling
                        == (if m == ks@.len() - 1 {
                        None
                    } else {
                        Some(ks@[m + 1])
                    }),
                cur == (if i < ks@.len() {
                    Some(ks@[i])
                } else {
                    None::<NodeId>
                }),
                forall|k: NodeId| #[trigger]
                    self.node(k) == (if ks@.subrange(0, i).contains(k) {
                        Some(
                            Node {
                                data: pre.data_of(k),
                                relatives: Relatives { parent: None, ..pre.rel(k) },
                            },
                        )
                    } else {
                        pre.node(k)
                    }),
                self.root_id == pre.root_id,
                self.kids == pre.kids,
                self.depth == pre.depth,
                self.bound == pre.bound,
                self.ident() == pre.ident(),
                self.slot_count() == pre.slot_count(),
                self.removals_left() == pre.removals_left(),
            decreases ks@.len() - i,
        {
            let c = cur.unwrap();
            let ghost before = *self;
            proof {
                assert(!ks@.subrange(0, i).contains(c)) by {
                    if ks@.subrange(0, i).contains(c) {
                        let m = choose|m: int| 0 <= m < i && #[trigger] ks@.subrange(0, i)[m] == c;
                        assert(ks@[m] == ks@[i]);
                    }
                }
                assert(self.node(c) == pre.node(c));
            }
            let cr = self.relatives(c);
            self.set_relatives(c, Relatives { parent: None, ..cr });
            cur = cr.next_sibling;
            proof {
                assert forall|k: NodeId| #[trigger]
                    self.node(k) == (if ks@.subrange(0, i + 1).contains(k) {
                        Some(
                            Node {
                                data: pre.data_of(k),
                                relatives: Relatives { parent: None, ..pre.rel(k) },
                            },
                        )
                    } else {
                        pre.node(k)
                    }) by {
                    if k == c {
                        assert(ks@.subrange(0, i + 1)[i] == c);
                    } else {
                        assert(before.node(k) == self.node(k));
                        assert(ks@.subrange(0, i + 1).contains(k) == ks@.subrange(0, i).contains(k)) by {
                            if ks@.subrange(0, i + 1).contains(k) {
                                let m = choose|m: int| 0 <= m < i + 1 && #[trigger] ks@.subrange(0, i + 1)[m] == k;
                                assert(ks@.subrange(0, i)[m] == k);
                            }
                            if ks@.subrange(0, i).contains(k) {
                                let m = choose|m: int| 0 <= m < i && #[trigger] ks@.subrange(0, i)[m] == k;
                                assert(ks@.subrange(0, i + 1)[m] == k);
                            }
                        }
                    }
                }
                i = i + 1;
            }
        }
        proof {
            assert(ks@.subrange(0, i) =~= ks@);
        }
    }

    /// Removes the node `node_id` and returns its data, handling its descendants as `behavior`
    /// says (see `after_removal`). An id that does not resolve in this tree changes nothing and
    /// yields `None`. The arena's generation counter must have room for one removal per slot.
    #[verifier::rlimit(100)]
    pub fn remove(&mut self, node_id: NodeId, behavior: RemoveBehavior) -> (r: Option<T>)
        requires
            old(self).wf(),
            old(self).removals_left() >= old(self).slot_count(),
        ensures
            final(self).wf(),
            Self::removed_with(*old(self), node_id, behavior, *final(self), r),
    {
        if self.core_tree.get(node_id).is_err() {
            return None;
        }
        let ghost pre = *self;
        let xr = self.relatives(node_id);
        proof {
            pre.lemma_removal_facts(node_id);
        }
        let sub: Vec<NodeId> = match behavior {
            RemoveBehavior::DropChildren => self.level_order_ids(node_id),
            RemoveBehavior::OrphanChildren => {
                let mut v: Vec<NodeId> = Vec::new();
                v.push(node_id);
                v
            },
        };
        proof {
            if behavior is DropChildren {
                assert forall|i: int| 0 <= i < sub@.len() implies self.contains(#[trigger] sub@[i]) by {
                    assert(self.level_order_of(node_id, sub@));
                }
                self.lemma_distinct_nodes_bounded(sub@);
            }
        }
        self.splice_out(node_id, xr);
        let ghost spliced = *self;
        proof {
            let kxs = pre.children_of(node_id);
            assert forall|i: int|
                0 <= i < kxs.len() implies self.contains(#[trigger] kxs[i]) && kxs[i] != node_id
                && self.rel(kxs[i]).next_sibling == (if i == kxs.len() - 1 {
                None
            } else {
                Some(kxs[i + 1])
            }) by {
                let c = kxs[i];
                assert(self.node(c) == Some(
                    Node { data: pre.data_of(c), relatives: Self::spliced_rel(pre, node_id, c) },
                ));
            }
            assert(self.node(node_id) == Some(
                Node {
                    data: pre.data_of(node_id),
                    relatives: Self::spliced_rel(pre, node_id, node_id),
                },
            ));
            if behavior is DropChildren {
                assert forall|j: int| 1 <= j < sub.len() implies self.contains(#[trigger] sub@[j]) by {
                    assert(pre.contains(sub@[j]));
                }
                assert(!sub@.subrange(1, sub@.len() as int).contains(node_id)) by {
                    if sub@.subrange(1, sub@.len() as int).contains(node_id) {
                        let m = choose|m: int|
                            0 <= m < sub@.len() - 1 && #[trigger] sub@.subrange(1, sub@.len() as int)[m] == node_id;
                        assert(sub@[m + 1] == sub@[0]);
                    }
                }
            }
        }
        match behavior {
            RemoveBehavior::DropChildren => {
                self.drop_nodes(&sub);
            },
            RemoveBehavior::OrphanChildren => {
                self.orphan_children(node_id, Ghost(pre.children_of(node_id)));
            },
        }
        proof {
            assert(!pre.children_of(node_id).contains(node_id)) by {
                if pre.children_of(node_id).contains(node_id) {
                    let m = choose|m: int|
                        0 <= m < pre.children_of(node_id).len() && pre.children_of(node_id)[m]
                            == node_id;
                    assert(pre.children_of(node_id)[m] != node_id);
                }
            }
            assert(self.node(node_id) == spliced.node(node_id));
        }
        let ghost dropped = *self;
        if is_node(self.root_id, node_id) {
            self.root_id = None;
        }
        assert(self.core_tree == dropped.core_tree);
        assert(self.node(node_id) is Some);
        let r = self.core_tree.remove(node_id);
        proof {
            let fin = *self;
            assert forall|k: NodeId| #[trigger] fin.node(k) == Self::after_removal(
                pre,
                node_id,
                behavior,
                k,
            ) by {
                if k != node_id {
                    assert(fin.node(k) == dropped.node(k));
                    if behavior is DropChildren {
                        assert(sub@[0] == node_id);
                        if pre.contains(k) && pre.is_desc(k, node_id) {
                            assert(sub@.contains(k));
                            let m = choose|m: int| 0 <= m < sub@.len() && sub@[m] == k;
                            assert(sub@.subrange(1, sub@.len() as int)[m - 1] == k);
                        }
                        if sub@.subrange(1, sub@.len() as int).contains(k) {
                            let m = choose|m: int|
                                0 <= m < sub@.len() - 1 && #[trigger] sub@.subrange(1, sub@.len() as int)[m] == k;
                            assert(sub@[m + 1] == k);
                            assert(pre.is_desc(sub@[m + 1], node_id));
                            assert(pre.contains(sub@[m + 1]));
                        }
                    } else {
                        if pre.contains(k) && pre.rel(k).parent == Some(node_id) {
                            assert(pre.children_of(node_id).contains(k));
                        }
                    }
                }
            }
            match xr.parent {
                Some(p) => {
                    let ks = pre.children_of(p);
                    self.kids@ = self.kids@.insert(p, ks.remove(ks.index_of(node_id)));
                },
                None => {},
            }
            assert forall|k: NodeId| #[trigger] self.node(k) == fin.node(k) by {}
            Self::lemma_removal_wf(pre, *self, node_id, behavior);
        }
        r
    }

    /// Facts about a node of a well-formed tree that removing it relies on.
    proof fn lemma_removal_facts(&self, x: NodeId)
        requires
            self.wf(),
            self.contains(x),
        ensures
            self.kids_ok(x),
            self.parent_ok(x),
            self.rel(x).parent matches Some(p) ==> self.contains(p) && p != x && self.kids_ok(p)
                && self.children_of(p).contains(x),
            self.rel(x).prev_sibling matches Some(a) ==> self.contains(a),
            self.rel(x).next_sibling matches Some(b) ==> self.contains(b),
            forall|i: int|
                0 <= i < self.children_of(x).len() ==> self.contains(
                    #[trigger] self.children_of(x)[i],
                ) && self.children_of(x)[i] != x && self.rel(self.children_of(x)[i]).next_sibling
                    == (if i == self.children_of(x).len() - 1 {
                    None
                } else {
                    Some(self.children_of(x)[i + 1])
                }),
            forall|k: NodeId|
                self.contains(k) && self.rel(k).parent == Some(x) ==> #[trigger] self.children_of(
                    x,
                ).contains(k),
            self.slot_count() >= 1,
            self.core_tree.wf(),
            forall|i: int|
                0 <= i < self.children_of(x).len() ==> self.rel(#[trigger] self.children_of(x)[i]).parent
                    == Some(x) && self.depth_of(self.children_of(x)[i]) == self.depth_of(x) + 1,
            self.rel(x).prev_sibling matches Some(a) ==> self.rel(a).parent == self.rel(x).parent,
            self.rel(x).next_sibling matches Some(b) ==> self.rel(b).parent == self.rel(x).parent,
            self.rel(x).parent matches Some(p) ==> self.depth_of(p) + 1 == self.depth_of(x),
    {
        reveal(Tree::wf);
        let ks = self.children_of(x);
        assert forall|i: int| 0 <= i < ks.len() implies self.contains(#[trigger] ks[i]) && ks[i] != x
            && self.rel(ks[i]).next_sibling == (if i == ks.len() - 1 {
            None
        } else {
            Some(ks[i + 1])
        }) && self.rel(ks[i]).parent == Some(x) && self.depth_of(ks[i]) == self.depth_of(x) + 1 by {
            assert(self.kid_links_ok(x, i));
        }
        assert(self.parent_ok(x));
        if let Some(p) = self.rel(x).parent {
            assert(self.kids_ok(p));
            let j = choose|j: int| 0 <= j < self.children_of(p).len() && self.children_of(p)[j] == x;
            assert(self.kid_links_ok(p, j));
            if j > 0 {
                assert(self.kid_links_ok(p, j - 1));
            }
            if j < self.children_of(p).len() - 1 {
                assert(self.kid_links_ok(p, j + 1));
            }
        }
        assert forall|k: NodeId| self.contains(k) && self.rel(k).parent == Some(x) implies #[trigger] self.children_of(
            x,
        ).contains(k) by {
            assert(self.parent_ok(k));
        }
    }

    /// Removing a node keeps the tree well-formed.
    #[verifier::rlimit(100)]
    proof fn lemma_removal_wf(pre: Self, post: Self, x: NodeId, behavior: RemoveBehavior)
        requires
            pre.wf(),
            pre.contains(x),
            post.core_tree.wf(),
            forall|k: NodeId| #[trigger] post.node(k) == Self::after_removal(pre, x, behavior, k),
            post.kids@ == (if pre.rel(x).parent is Some {
                pre.kids@.insert(
                    pre.rel(x).parent->Some_0,
                    pre.children_of(pre.rel(x).parent->Some_0).remove(
                        pre.children_of(pre.rel(x).parent->Some_0).index_of(x),
                    ),
                )
            } else {
                pre.kids@
            }),
            post.depth == pre.depth,
            post.bound == pre.bound,
            post.root_id == (if pre.root_id == Some(x) {
                None
            } else {
                pre.root_id
            }),
        ensures
            post.wf(),
    {
        reveal(Tree::wf);
        assert forall|k: NodeId| #[trigger] post.contains(k) implies post.depth_of(k) < post.depth_bound() by {
            assert(post.node(k) == Self::after_removal(pre, x, behavior, k));
            assert(pre.contains(k));
        }
        assert forall|k: NodeId| #[trigger] post.contains(k) implies post.kids_ok(k) && post.parent_ok(
            k,
        ) by {
            Self::lemma_removal_node_ok(pre, post, x, behavior, k);
        }
        if let Some(r) = post.root_id {
            let xr = pre.rel(x);
            assert(pre.contains(r) && pre.kids_ok(r) && pre.parent_ok(r));
            assert(pre.kids_ok(x) && pre.parent_ok(x));
            assert(r != x);
            assert(!pre.is_desc(r, x));
            assert(post.node(r) == Self::after_removal(pre, x, behavior, r));
            if let Some(p) = xr.parent {
                assert(pre.contains(p));
                assert(pre.kids_ok(p));
                let ks = pre.children_of(p);
                let i = ks.index_of(x);
                assert(0 <= i < ks.len() && ks[i] == x);
                assert(pre.kid_links_ok(p, i));
                if i > 0 {
                    assert(pre.kid_links_ok(p, i - 1));
                }
                if i < ks.len() - 1 {
                    assert(pre.kid_links_ok(p, i + 1));
                }
            }
            assert(pre.root_id == Some(r));
            assert(pre.rel(r).parent is None && pre.rel(r).prev_sibling is None && pre.rel(r).next_sibling is None);
            assert(xr.prev_sibling != Some(r));
            assert(xr.next_sibling != Some(r));
            assert(post.contains(r));
        }
    }

    #[verifier::rlimit(100)]
    proof fn lemma_removal_node_ok(pre: Self, post: Self, x: NodeId, behavior: RemoveBehavior, k: NodeId)
        requires
            pre.wf(),
            pre.contains(x),
            post.contains(k),
            forall|k: NodeId| #[trigger] post.node(k) == Self::after_removal(pre, x, behavior, k),
            post.kids@ == (if pre.rel(x).parent is Some {
                pre.kids@.insert(
                    pre.rel(x).parent->Some_0,
                    pre.children_of(pre.rel(x).parent->Some_0).remove(
                        pre.children_of(pre.rel(x).parent->Some_0).index_of(x),
                    ),
                )
            } else {
                pre.kids@
            }),
            post.depth == pre.depth,
            post.bound == pre.bound,
        ensures
            post.kids_ok(k) && post.parent_ok(k),
    {
        reveal(Tree::wf);
        let xr = pre.rel(x);
        assert(post.node(k) == Self::after_removal(pre, x, behavior, k));
        assert(pre.contains(k) && k != x);
        assert(pre.kids_ok(k) && pre.parent_ok(k));
        assert(pre.kids_ok(x) && pre.parent_ok(x));
        let kr = pre.rel(k);
        // the siblings of `x` hang from the same parent as `x`
        if let Some(p) = xr.parent {
            assert(pre.contains(p));
            assert(pre.kids_ok(p));
            let ks = pre.children_of(p);
            let i = ks.index_of(x);
            assert(0 <= i < ks.len() && ks[i] == x);
            assert(pre.kid_links_ok(p, i));
            if i > 0 {
                assert(pre.kid_links_ok(p, i - 1));
            }
            if i < ks.len() - 1 {
                assert(pre.kid_links_ok(p, i + 1));
            }
            assert(p != x);
        }
        // kids_ok
        if xr.parent == Some(k) {
            let ks = pre.children_of(k);
            let i = ks.index_of(x);
            let nks = ks.remove(i);
            ks.remove_ensures(i);
            assert(post.children_of(k) == nks);
            assert(pre.kid_links_ok(k, i));
            assert(nks.no_duplicates()) by {
                assert forall|a: int, b: int|
                    0 <= a < nks.len() && 0 <= b < nks.len() && a != b implies nks[a] != nks[b] by {
                    let a2 = if a < i {
                        a
                    } else {
                        a + 1
                    };
                    let b2 = if b < i {
                        b
                    } else {
                        b + 1
                    };
                    assert(nks[a] == ks[a2]);
                    assert(nks[b] == ks[b2]);
                }
            }
            assert forall|j: int| 0 <= j < nks.len() implies #[trigger] post.kid_links_ok(k, j) by {
                let j2 = if j < i {
                    j
                } else {
                    j + 1
                };
                let c = ks[j2];
                assert(nks[j] == c);
                assert(pre.kid_links_ok(k, j2));
                assert(c != x);
                assert(c != k);
                if pre.is_desc(c, x) {
                    assert(pre.is_desc(k, x));
                    pre.lemma_desc_depth(k, x);
                }
                assert(post.node(c) == Self::after_removal(pre, x, behavior, c));
                if j > 0 {
                    let j3 = if j - 1 < i {
                        j - 1
                    } else {
                        j
                    };
                    assert(nks[j - 1] == ks[j3]);
                }
                if j < nks.len() - 1 {
                    let j3 = if j + 1 < i {
                        j + 1
                    } else {
                        j + 2
                    };
                    assert(nks[j + 1] == ks[j3]);
                }
                if j2 != i - 1 {
                    assert(ks[j2] != ks[i - 1] || i == 0);
                }
                if j2 != i + 1 {
                    assert(i + 1 >= ks.len() || ks[j2] != ks[i + 1]);
                }
            }
            if nks.len() > 0 {
                assert(nks[0] == (if i == 0 {
                    ks[1]
                } else {
                    ks[0]
                }));
                assert(nks[nks.len() - 1] == (if i == ks.len() - 1 {
                    ks[ks.len() - 2]
                } else {
                    ks[ks.len() - 1]
                }));
            }
            if i == 0 && ks.len() > 1 {
                assert(ks[0] != ks[ks.len() - 1]);
            }
            if i == ks.len() - 1 && ks.len() > 1 {
                assert(ks[0] != ks[ks.len() - 1]);
            }
            assert(post.kids_ok(k));
        } else {
            let ks = pre.children_of(k);
            assert(post.children_of(k) == ks);
            assert forall|m: int| 0 <= m < ks.len() implies #[trigger] post.kid_links_ok(k, m) by {
                assert(pre.kid_links_ok(k, m));
                let c = ks[m];
                assert(c != x);
                if pre.is_desc(c, x) {
                    assert(pre.is_desc(k, x));
                }
                assert(post.node(c) == Self::after_removal(pre, x, behavior, c));
                if xr.prev_sibling == Some(c) {
                    if let Some(p) = xr.parent {
                        let i = pre.children_of(p).index_of(x);
                        assert(pre.kid_links_ok(p, i - 1));
                    }
                }
                if xr.next_sibling == Some(c) {
                    if let Some(p) = xr.parent {
                        let i = pre.children_of(p).index_of(x);
                        assert(pre.kid_links_ok(p, i + 1));
                    }
                }
            }
            assert(post.kids_ok(k));
        }
        // parent_ok
        assert(post.node(k) == Self::after_removal(pre, x, behavior, k));
        if xr.prev_sibling == Some(k) || xr.next_sibling == Some(k) {
            if let Some(p) = xr.parent {
                let i = pre.children_of(p).index_of(x);
                if xr.prev_sibling == Some(k) {
                    assert(pre.kid_links_ok(p, i - 1));
                }
                if xr.next_sibling == Some(k) {
                    assert(pre.kid_links_ok(p, i + 1));
                }
            }
        }
        match kr.parent {
            Some(q) => {
                if q == x {
                    assert(pre.children_of(x).contains(k));
                    let m = choose|m: int| 0 <= m < pre.children_of(x).len() && pre.children_of(x)[m] == k;
                    assert(pre.kid_links_ok(x, m));
                    if behavior is DropChildren {
                        assert(pre.depth_of(x) < pre.depth_of(k));
                        assert(pre.is_desc(x, x));
                        assert(pre.is_desc(k, x));
                    } else {
                        let kxs = pre.children_of(x);
                        if m < kxs.len() - 1 {
                            let y = kxs[m + 1];
                            assert(pre.kid_links_ok(x, m + 1));
                            assert(post.node(y) == Self::after_removal(pre, x, behavior, y));
                            if let Some(p) = xr.parent {
                                let i = pre.children_of(p).index_of(x);
                                if i > 0 {
                                    assert(pre.kid_links_ok(p, i - 1));
                                }
                                if i < pre.children_of(p).len() - 1 {
                                    assert(pre.kid_links_ok(p, i + 1));
                                }
                            }
                        }
                        if m > 0 {
                            let y = kxs[m - 1];
                            assert(pre.kid_links_ok(x, m - 1));
                            assert(post.node(y) == Self::after_removal(pre, x, behavior, y));
                            if let Some(p) = xr.parent {
                                let i = pre.children_of(p).index_of(x);
                                if i > 0 {
                                    assert(pre.kid_links_ok(p, i - 1));
                                }
                                if i < pre.children_of(p).len() - 1 {
                                    assert(pre.kid_links_ok(p, i + 1));
                                }
                            }
                        }
                    }
                } else {
                    assert(pre.contains(q));
                    assert(post.node(q) == Self::after_removal(pre, x, behavior, q));
                    if behavior is DropChildren && pre.is_desc(q, x) {
                        let m = choose|m: int| 0 <= m < pre.children_of(q).len() && pre.children_of(q)[m] == k;
                        assert(pre.kids_ok(q));
                        assert(pre.kid_links_ok(q, m));
                        assert(pre.is_desc(k, x));
                    }
                    assert(post.contains(q));
                    if xr.parent == Some(q) {
                        let ks = pre.children_of(q);
                        let i = ks.index_of(x);
                        ks.remove_ensures(i);
                        let m = choose|m: int| 0 <= m < ks.len() && ks[m] == k;
                        assert(m != i);
                        if m < i {
                            assert(ks.remove(i)[m] == k);
                        } else {
                            assert(ks.remove(i)[m - 1] == k);
                        }
                    }
                }
            },
            None => {
                if let Some(y) = post.rel(k).next_sibling {
                    if xr.prev_sibling == Some(k) {
                        assert(xr.parent is None);
                        assert(Some(y) == xr.next_sibling);
                        assert(y != x);
                    } else {
                        assert(kr.next_sibling == Some(y));
                        assert(y != x);
                    }
                    assert(pre.contains(y) && pre.parent_ok(y) && pre.kids_ok(y));
                    assert(post.node(y) == Self::after_removal(pre, x, behavior, y));
                    if xr.next_sibling == Some(y) {
                        assert(xr.parent is None) by {
                            if let Some(p) = xr.parent {
                                let i = pre.children_of(p).index_of(x);
                                assert(pre.kid_links_ok(p, i + 1));
                            }
                        }
                    }
                }
                if let Some(y) = post.rel(k).prev_sibling {
                    if xr.next_sibling == Some(k) {
                        assert(xr.parent is None);
                        assert(Some(y) == xr.prev_sibling);
                        assert(y != x);
                    } else {
                        assert(kr.prev_sibling == Some(y));
                        assert(y != x);
                    }
                    assert(pre.contains(y) && pre.parent_ok(y) && pre.kids_ok(y));
                    assert(post.node(y) == Self::after_removal(pre, x, behavior, y));
                    if xr.prev_sibling == Some(y) {
                        assert(xr.parent is None) by {
                            if let Some(p) = xr.parent {
                                let i = pre.children_of(p).index_of(x);
                                assert(pre.kid_links_ok(p, i - 1));
                            }
                        }
                    }
                }
            },
        }
    }

    /// Reordering the children of a node, with every link rewritten as the new order says, keeps
    /// the tree well-formed.
    #[verifier::rlimit(100)]
    proof fn lemma_reorder_wf(pre: Self, post: Self, p: NodeId, nks: Seq<NodeId>)
        requires
            pre.wf(),
            pre.contains(p),
            post.core_tree.wf(),
            Self::reordered(pre, p, nks, post),
            post.kids@ == pre.kids@.insert(p, nks),
            post.depth == pre.depth,
            post.bound == pre.bound,
            post.root_id == pre.root_id,
        ensures
            post.wf(),
    {
        reveal(Tree::wf);
        assert forall|k: NodeId| #[trigger] post.contains(k) implies post.depth_of(k) < post.depth_bound() by {
            if k != p && !pre.children_of(p).contains(k) {
                assert(post.node(k) == pre.node(k));
            } else if k != p {
                let m = choose|m: int| 0 <= m < pre.children_of(p).len() && pre.children_of(p)[m] == k;
                assert(pre.kids_ok(p));
                assert(pre.kid_links_ok(p, m));
            }
            assert(pre.contains(k));
        }
        let ks = pre.children_of(p);
        assert(pre.kids_ok(p) && pre.parent_ok(p));
        assert forall|k: NodeId| #[trigger] post.contains(k) implies post.kids_ok(k) && post.parent_ok(k) by {
            if k == p {
                assert forall|j: int| 0 <= j < nks.len() implies #[trigger] post.kid_links_ok(p, j) by {
                    let c = nks[j];
                    assert(ks.contains(c));
                    let m = choose|m: int| 0 <= m < ks.len() && ks[m] == c;
                    assert(pre.kid_links_ok(p, m));
                }
                assert(post.kids_ok(p));
                assert(pre.parent_ok(p));
                if let Some(g) = pre.rel(p).parent {
                    assert(g != p) by {
                        let j = choose|j: int| 0 <= j < pre.children_of(g).len() && pre.children_of(g)[j] == p;
                        assert(pre.kids_ok(g));
                        assert(pre.kid_links_ok(g, j));
                    }
                    if ks.contains(g) {
                        let m = choose|m: int| 0 <= m < ks.len() && ks[m] == g;
                        assert(pre.kid_links_ok(p, m));
                        let j = choose|j: int| 0 <= j < pre.children_of(g).len() && pre.children_of(g)[j] == p;
                        assert(pre.kids_ok(g));
                        assert(pre.kid_links_ok(g, j));
                    }
                } else {
                    if let Some(y) = pre.rel(p).next_sibling {
                        if ks.contains(y) {
                            let m = choose|m: int| 0 <= m < ks.len() && ks[m] == y;
                            assert(pre.kid_links_ok(p, m));
                        }
                    }
                    if let Some(y) = pre.rel(p).prev_sibling {
                        if ks.contains(y) {
                            let m = choose|m: int| 0 <= m < ks.len() && ks[m] == y;
                            assert(pre.kid_links_ok(p, m));
                        }
                    }
                }
            } else if ks.contains(k) {
                let m = choose|m: int| 0 <= m < ks.len() && ks[m] == k;
                assert(pre.kid_links_ok(p, m));
                assert(nks.contains(k));
                let j = choose|j: int| 0 <= j < nks.len() && nks[j] == k;
                assert(post.node(nks[j]) == Some(
                    Node {
                        data: pre.data_of(nks[j]),
                        relatives: Relatives {
                            prev_sibling: Self::list_prev(nks, j),
                            next_sibling: Self::list_next(nks, j),
                            ..pre.rel(nks[j])
                        },
                    },
                ));
                assert(pre.kids_ok(k) && pre.parent_ok(k));
                let cs = pre.children_of(k);
                assert forall|i: int| 0 <= i < cs.len() implies #[trigger] post.kid_links_ok(k, i) by {
                    assert(pre.kid_links_ok(k, i));
                    let c = cs[i];
                    if ks.contains(c) {
                        let m2 = choose|m2: int| 0 <= m2 < ks.len() && ks[m2] == c;
                        assert(pre.kid_links_ok(p, m2));
                    }
                    assert(c != p);
                    assert(post.node(c) == pre.node(c));
                }
            } else {
                assert(post.node(k) == pre.node(k));
                assert(pre.contains(k));
                assert(pre.kids_ok(k) && pre.parent_ok(k));
                let cs = pre.children_of(k);
                assert forall|i: int| 0 <= i < cs.len() implies #[trigger] post.kid_links_ok(k, i) by {
                    assert(pre.kid_links_ok(k, i));
                    let c = cs[i];
                    if ks.contains(c) {
                        let m2 = choose|m2: int| 0 <= m2 < ks.len() && ks[m2] == c;
                        assert(pre.kid_links_ok(p, m2));
                    }
                    if c == p {
                        assert(post.node(p) is Some);
                    } else {
                        assert(post.node(c) == pre.node(c));
                    }
                }
                match pre.rel(k).parent {
                    Some(q) => {
                        if q == p {
                            assert(ks.contains(k));
                        }
                    },
                    None => {
                        if let Some(y) = pre.rel(k).next_sibling {
                            if ks.contains(y) {
                                let m2 = choose|m2: int| 0 <= m2 < ks.len() && ks[m2] == y;
                                assert(pre.kid_links_ok(p, m2));
                            }
                            if y == p {
                                assert(post.node(p) is Some);
                            } else {
                                assert(post.node(y) == pre.node(y));
                            }
                        }
                        if let Some(y) = pre.rel(k).prev_sibling {
                            if ks.contains(y) {
                                let m2 = choose|m2: int| 0 <= m2 < ks.len() && ks[m2] == y;
                                assert(pre.kid_links_ok(p, m2));
                            }
                            if y == p {
                                assert(post.node(p) is Some);
                            } else {
                                assert(post.node(y) == pre.node(y));
                            }
                        }
                    },
                }
            }
        }
        if let Some(r) = post.root_id {
            if ks.contains(r) {
                let m = choose|m: int| 0 <= m < ks.len() && ks[m] == r;
                assert(pre.kid_links_ok(p, m));
            }
            if r != p && !ks.contains(r) {
                assert(post.node(r) == pre.node(r));
            }
        }
    }

    /// Overwrites the sibling links of `id`, leaving its other links and its data as they were.
    fn set_siblings(&mut self, id: NodeId, prev: Option<NodeId>, next: Option<NodeId>)
        requires
            old(self).core_tree.wf(),
            old(self).contains(id),
        ensures
            final(self).core_tree.wf(),
            final(self).node(id) == Some(
                Node {
                    data: old(self).data_of(id),
                    relatives: Relatives {
                        prev_sibling: prev,
                        next_sibling: next,
                        ..old(self).rel(id)
                    },
                },
            ),
            forall|k: NodeId| k != id ==> #[trigger] final(self).node(k) == old(self).node(k),
            final(self).root_id == old(self).root_id,
            final(self).kids == old(self).kids,
            final(self).depth == old(self).depth,
            final(self).bound == old(self).bound,
            final(self).ident() == old(self).ident(),
            final(self).slot_count() == old(self).slot_count(),
            final(self).removals_left() == old(self).removals_left(),
    {
        let r = self.relatives(id);
        self.set_relatives(id, Relatives { prev_sibling: prev, next_sibling: next, ..r });
    }

    /// Overwrites the first and last child links of `id`, leaving the rest as it was.
    fn set_ends(&mut self, id: NodeId, first: Option<NodeId>, last: Option<NodeId>)
        requires
            old(self).core_tree.wf(),
            old(self).contains(id),
        ensures
            final(self).core_tree.wf(),
            final(self).node(id) == Some(
                Node {
                    data: old(self).data_of(id),
                    relatives: Relatives { first_child: first, last_child: last, ..old(self).rel(id) },
                },
            ),
            forall|k: NodeId| k != id ==> #[trigger] final(self).node(k) == old(self).node(k),
            final(self).root_id == old(self).root_id,
            final(self).kids == old(self).kids,
            final(self).depth == old(self).depth,
            final(self).bound == old(self).bound,
            final(self).ident() == old(self).ident(),
            final(self).slot_count() == old(self).slot_count(),
            final(self).removals_left() == old(self).removals_left(),
    {
        let r = self.relatives(id);
        self.set_relatives(id, Relatives { first_child: first, last_child: last, ..r });
    }

    /// Facts about the sibling list that `x` sits in.
    proof fn lemma_sibling_facts(&self, x: NodeId)
        requires
            self.wf(),
            self.contains(x),
            self.rel(x).parent is Some,
        ensures
            ({
                let p = self.rel(x).parent->Some_0;
                let ks = self.children_of(p);
                let i = ks.index_of(x);
                &&& self.core_tree.wf()
                &&& self.contains(p)
                &&& 0 <= i < ks.len()
                &&& ks[i] == x
                &&& ks.no_duplicates()
                &&& self.rel(p).first_child == Some(ks[0])
                &&& self.rel(p).last_child == Some(ks[ks.len() - 1])
                &&& forall|j: int|
                    0 <= j < ks.len() ==> self.contains(#[trigger] ks[j]) && ks[j] != p && self.rel(
                        ks[j],
                    ).prev_sibling == Self::list_prev(ks, j) && self.rel(ks[j]).next_sibling
                        == Self::list_next(ks, j) && self.rel(ks[j]).parent == Some(p)
            }),
    {
        let p = self.rel(x).parent->Some_0;
        self.lemma_removal_facts(x);
        let ks = self.children_of(p);
        assert forall|j: int|
            0 <= j < ks.len() implies self.contains(#[trigger] ks[j]) && ks[j] != p && self.rel(
            ks[j],
        ).prev_sibling == Self::list_prev(ks, j) && self.rel(ks[j]).next_sibling == Self::list_next(
            ks,
            j,
        ) && self.rel(ks[j]).parent == Some(p) by {
            assert(self.kid_links_ok(p, j));
        }
    }

    /// Exchanges `x` with its next sibling, in its parent's children list or, without a parent,
    /// in its sibling chain. Returns `false`, changing nothing, when `x` has no next sibling.
    #[verifier::rlimit(100)]
    pub fn swap_with_next(&mut self, x: NodeId) -> (r: bool)
        requires
            old(self).wf(),
            old(self).contains(x),
        ensures
            final(self).wf(),
            Self::swapped_next(*old(self), x, *final(self), r),
    {
        let xr = self.relatives(x);
        let y = match xr.next_sibling {
            Some(y) => y,
            None => {
                return false;
            },
        };
        let p = match xr.parent {
            Some(p) => p,
            None => {
                return self.swap_in_chain(x, y, xr);
            },
        };
        let ghost pre = *self;
        let ghost ks = pre.children_of(p);
        let ghost i = ks.index_of(x);
        proof {
            pre.lemma_sibling_facts(x);
            assert(i + 1 < ks.len() && ks[i + 1] == y);
        }
        let yr = self.relatives(y);
        let pr = self.relatives(p);
        let first = if is_node(pr.first_child, x) {
            Some(y)
        } else {
            pr.first_child
        };
        let last = if is_node(pr.last_child, y) {
            Some(x)
        } else {
            pr.last_child
        };
        self.set_ends(p, first, last);
        match xr.prev_sibling {
            Some(a) => {
                let ar = self.relatives(a);
                self.set_siblings(a, ar.prev_sibling, Some(y));
            },
            None => {},
        }
        match yr.next_sibling {
            Some(z) => {
                proof {
                    assert(z == ks[i + 2]);
                }
                let zr = self.relatives(z);
                self.set_siblings(z, Some(x), zr.next_sibling);
            },
            None => {},
        }
        self.set_siblings(x, Some(y), yr.next_sibling);
        self.set_siblings(y, xr.prev_sibling, Some(x));
        proof {
            let nks = ks.update(i, y).update(i + 1, x);
            let fin = *self;
            self.kids@ = self.kids@.insert(p, nks);
            assert forall|k: NodeId| #[trigger] self.node(k) == fin.node(k) by {}
            assert(nks.no_duplicates()) by {
                assert forall|a: int, b: int|
                    0 <= a < nks.len() && 0 <= b < nks.len() && a != b implies nks[a] != nks[b] by {
                    let a2 = if a == i {
                        i + 1
                    } else if a == i + 1 {
                        i
                    } else {
                        a
                    };
                    let b2 = if b == i {
                        i + 1
                    } else if b == i + 1 {
                        i
                    } else {
                        b
                    };
                    assert(nks[a] == ks[a2]);
                    assert(nks[b] == ks[b2]);
                }
            }
            assert forall|j: int| 0 <= j < nks.len() implies #[trigger] ks.contains(nks[j]) by {
                let j2 = if j == i {
                    i + 1
                } else if j == i + 1 {
                    i
                } else {
                    j
                };
                assert(nks[j] == ks[j2]);
            }
            assert forall|k: NodeId| #[trigger] ks.contains(k) implies nks.contains(k) by {
                let j = choose|j: int| 0 <= j < ks.len() && ks[j] == k;
                let j2 = if j == i {
                    i + 1
                } else if j == i + 1 {
                    i
                } else {
                    j
                };
                assert(nks[j2] == k);
            }
            assert forall|j: int|
                0 <= j < nks.len() implies self.node(#[trigger] nks[j]) == Some(
                Node {
                    data: pre.data_of(nks[j]),
                    relatives: Relatives {
                        prev_sibling: Self::list_prev(nks, j),
                        next_sibling: Self::list_next(nks, j),
                        ..pre.rel(nks[j])
                    },
                },
            ) by {
                if j != i && j != i + 1 {
                    assert(nks[j] == ks[j]);
                }
                if j > 0 && j - 1 != i && j - 1 != i + 1 {
                    assert(nks[j - 1] == ks[j - 1]);
                }
                if j < nks.len() - 1 && j + 1 != i && j + 1 != i + 1 {
                    assert(nks[j + 1] == ks[j + 1]);
                }
            }
            assert forall|k: NodeId| k != p && !ks.contains(k) implies #[trigger] self.node(k) == pre.node(k) by {
                if xr.prev_sibling is Some {
                    assert(ks[i - 1] == xr.prev_sibling->Some_0);
                }
                if i + 2 < ks.len() {
                    assert(ks.contains(ks[i + 2]));
                }
                assert(ks.contains(ks[i]));
                assert(ks.contains(ks[i + 1]));
            }
            if i == 0 {
                assert(nks[0] == y);
            } else {
                assert(nks[0] == ks[0]);
                assert(ks[0] != x);
            }
            if i + 1 == ks.len() - 1 {
                assert(nks[nks.len() - 1] == x);
            } else {
                assert(nks[nks.len() - 1] == ks[ks.len() - 1]);
                assert(ks[ks.len() - 1] != y);
            }
            Self::lemma_reorder_wf(pre, *self, p, nks);
        }
        true
    }

    /// Exchanges the parentless node `x` with its next sibling `y` in their sibling chain.
    #[verifier::rlimit(100)]
    fn swap_in_chain(&mut self, x: NodeId, y: NodeId, xr: Relatives) -> (r: bool)
        requires
            old(self).wf(),
            old(self).contains(x),
            xr == old(self).rel(x),
            xr.parent is None,
            xr.next_sibling == Some(y),
        ensures
            final(self).wf(),
            Self::swapped_next(*old(self), x, *final(self), r),
    {
        if same_node_ids(x, y) || is_node(xr.prev_sibling, y) {
            return false;
        }
        let ghost pre = *self;
        proof {
            pre.lemma_wf_parts(x);
            pre.lemma_wf_parts(y);
            if let Some(a) = xr.prev_sibling {
                pre.lemma_wf_parts(a);
            }
            if let Some(z) = pre.rel(y).next_sibling {
                pre.lemma_wf_parts(z);
            }
        }
        let yr = self.relatives(y);
        match xr.prev_sibling {
            Some(a) => {
                let ar = self.relatives(a);
                self.set_siblings(a, ar.prev_sibling, Some(y));
            },
            None => {},
        }
        let ghost s1 = *self;
        self.set_siblings(y, xr.prev_sibling, Some(x));
        let ghost s2 = *self;
        self.set_siblings(x, Some(y), yr.next_sibling);
        let ghost s3 = *self;
        match yr.next_sibling {
            Some(z) => {
                let zr = self.relatives(z);
                self.set_siblings(z, Some(x), zr.next_sibling);
            },
            None => {},
        }
        proof {
            assert forall|k: NodeId| #[trigger]
                self.node(k) == (if pre.contains(k) {
                    Some(Node { data: pre.data_of(k), relatives: Self::chain_swapped_rel(pre, x, k) })
                } else {
                    None
                }) by {
                assert(s3.node(k) == (if pre.contains(k) {
                    Some(
                        Node {
                            data: pre.data_of(k),
                            relatives: {
                                let r0 = pre.rel(k);
                                let r1 = if xr.prev_sibling == Some(k) {
                                    Relatives { next_sibling: Some(y), ..r0 }
                                } else {
                                    r0
                                };
                                let r2 = if k == y {
                                    Relatives { prev_sibling: xr.prev_sibling, next_sibling: Some(x), ..r1 }
                                } else {
                                    r1
                                };
                                if k == x {
                                    Relatives { prev_sibling: Some(y), next_sibling: yr.next_sibling, ..r2 }
                                } else {
                                    r2
                                }
                            },
                        },
                    )
                } else {
                    None
                }));
            }
            Self::lemma_chain_swap_wf(pre, *self, x);
        }
        true
    }

    /// Exchanging two parentless neighbours in their sibling chain keeps the tree well-formed.
    #[verifier::rlimit(100)]
    proof fn lemma_chain_swap_wf(pre: Self, post: Self, x: NodeId)
        requires
            pre.wf(),
            pre.contains(x),
            Self::chain_swappable(pre, x),
            post.core_tree.wf(),
            forall|k: NodeId| #[trigger]
                post.node(k) == (if pre.contains(k) {
                    Some(Node { data: pre.data_of(k), relatives: Self::chain_swapped_rel(pre, x, k) })
                } else {
                    None
                }),
            post.kids == pre.kids,
            post.depth == pre.depth,
            post.bound == pre.bound,
            post.root_id == pre.root_id,
        ensures
            post.wf(),
    {
        reveal(Tree::wf);
        assert forall|k: NodeId| #[trigger] post.contains(k) implies post.depth_of(k) < post.depth_bound() by {
            assert(pre.contains(k));
        }
        let xr = pre.rel(x);
        let y = xr.next_sibling->Some_0;
        let yr = pre.rel(y);
        assert(pre.parent_ok(x));
        assert(pre.contains(y) && pre.parent_ok(y));
        if let Some(a) = xr.prev_sibling {
            assert(pre.contains(a) && pre.parent_ok(a));
        }
        if let Some(z) = yr.next_sibling {
            assert(pre.contains(z) && pre.parent_ok(z));
        }
        let changed = |k: NodeId| k == x || k == y || xr.prev_sibling == Some(k) || yr.next_sibling == Some(k);
        assert forall|k: NodeId| #[trigger] post.contains(k) implies post.kids_ok(k) && post.parent_ok(k) by {
            assert(pre.contains(k));
            assert(pre.kids_ok(k) && pre.parent_ok(k));
            let ks = pre.children_of(k);
            assert forall|i: int| 0 <= i < ks.len() implies #[trigger] post.kid_links_ok(k, i) by {
                assert(pre.kid_links_ok(k, i));
                let c = ks[i];
                assert(pre.rel(c).parent is Some);
                assert(!changed(c));
                assert(post.node(c) == pre.node(c));
            }
            let kr = pre.rel(k);
            if kr.parent is Some {
                assert(!changed(k));
                assert(post.node(k) == pre.node(k));
            } else {
                if let Some(w) = post.rel(k).next_sibling {
                    if !changed(k) {
                        assert(kr.next_sibling == Some(w));
                        assert(pre.contains(w) && pre.parent_ok(w));
                    }
                    assert(pre.contains(w));
                    assert(post.node(w) == Some(
                        Node { data: pre.data_of(w), relatives: Self::chain_swapped_rel(pre, x, w) },
                    ));
                }
                if let Some(w) = post.rel(k).prev_sibling {
                    if !changed(k) {
                        assert(kr.prev_sibling == Some(w));
                        assert(pre.contains(w) && pre.parent_ok(w));
                    }
                    assert(pre.contains(w));
                    assert(post.node(w) == Some(
                        Node { data: pre.data_of(w), relatives: Self::chain_swapped_rel(pre, x, w) },
                    ));
                }
            }
        }
        if let Some(r) = post.root_id {
            assert(pre.contains(r));
            assert(!changed(r));
            assert(post.node(r) == pre.node(r));
        }
    }

    /// Exchanges `x` with its previous sibling. Returns `false`, changing nothing, when `x` has
    /// no previous sibling.
    pub fn swap_with_prev(&mut self, x: NodeId) -> (r: bool)
        requires
            old(self).wf(),
            old(self).contains(x),
        ensures
            final(self).wf(),
            Self::swapped_prev(*old(self), x, *final(self), r),
    {
        let xr = self.relatives(x);
        if xr.parent.is_none() {
            return match xr.prev_sibling {
                Some(a) => {
                    proof {
                        self.lemma_wf_parts(x);
                    }
                    self.swap_with_next(a)
                },
                None => false,
            };
        }
        match xr.prev_sibling {
            Some(a) => {
                proof {
                    self.lemma_sibling_facts(x);
                    let p = xr.parent->Some_0;
                    let ks = self.children_of(p);
                    let i = ks.index_of(x);
                    assert(i > 0 && ks[i - 1] == a);
                    assert(self.rel(a).parent == Some(p));
                    self.lemma_sibling_facts(a);
                    assert(ks.index_of(a) == i - 1);
                }
                self.swap_with_next(a)
            },
            None => false,
        }
    }

    /// Moves `x` to the end of its sibling list. Returns `false`, changing nothing, when `x` is
    /// already the last child or has no parent.
    #[verifier::rlimit(100)]
    pub fn make_last(&mut self, x: NodeId) -> (r: bool)
        requires
            old(self).wf(),
            old(self).contains(x),
        ensures
            final(self).wf(),
            Self::moved_last(*old(self), x, *final(self), r),
    {
        let xr = self.relatives(x);
        let p = match xr.parent {
            Some(p) => p,
            None => {
                return false;
            },
        };
        let b = match xr.next_sibling {
            Some(b) => b,
            None => {
                return false;
            },
        };
        let ghost pre = *self;
        let ghost ks = pre.children_of(p);
        let ghost i = ks.index_of(x);
        let ghost n = ks.len();
        proof {
            pre.lemma_sibling_facts(x);
            assert(i + 1 < n && ks[i + 1] == b);
        }
        let pr = self.relatives(p);
        let l = match pr.last_child {
            Some(l) => l,
            None => {
                return false;
            },
        };
        let first = if is_node(pr.first_child, x) {
            Some(b)
        } else {
            pr.first_child
        };
        self.set_ends(p, first, Some(x));
        match xr.prev_sibling {
            Some(a) => {
                let ar = self.relatives(a);
                self.set_siblings(a, ar.prev_sibling, Some(b));
            },
            None => {},
        }
        if same_node_ids(b, l) {
            self.set_siblings(b, xr.prev_sibling, Some(x));
        } else {
            let br = self.relatives(b);
            self.set_siblings(b, xr.prev_sibling, br.next_sibling);
            let lr = self.relatives(l);
            self.set_siblings(l, lr.prev_sibling, Some(x));
        }
        self.set_siblings(x, Some(l), None);
        proof {
            let fin = *self;
            let nks = ks.remove(i).push(x);
            assert(l == ks[n - 1]);
            if i > 0 {
                assert(xr.prev_sibling == Some(ks[i - 1]));
            }
            assert forall|k: NodeId|
                k != p && k != x && k != b && k != l && Some(k) != xr.prev_sibling implies #[trigger] fin.node(k)
                == pre.node(k) by {}
            self.kids@ = self.kids@.insert(p, nks);
            assert forall|k: NodeId| #[trigger] self.node(k) == fin.node(k) by {}
            Self::lemma_make_last_done(pre, *self, p, x);
        }
        true
    }

    /// Moves `x` to the front of its sibling list. Returns `false`, changing nothing, when `x`
    /// is already the first child or has no parent.
    #[verifier::rlimit(100)]
    pub fn make_first(&mut self, x: NodeId) -> (r: bool)
        requires
            old(self).wf(),
            old(self).contains(x),
        ensures
            final(self).wf(),
            Self::moved_first(*old(self), x, *final(self), r),
    {
        let xr = self.relatives(x);
        let p = match xr.parent {
            Some(p) => p,
            None => {
                return false;
            },
        };
        let a = match xr.prev_sibling {
            Some(a) => a,
            None => {
                return false;
            },
        };
        let ghost pre = *self;
        let ghost ks = pre.children_of(p);
        let ghost i = ks.index_of(x);
        let ghost n = ks.len();
        proof {
            pre.lemma_sibling_facts(x);
            assert(i > 0 && ks[i - 1] == a);
        }
        let pr = self.relatives(p);
        let f = match pr.first_child {
            Some(f) => f,
            None => {
                return false;
            },
        };
        let last = if is_node(pr.last_child, x) {
            Some(a)
        } else {
            pr.last_child
        };
        self.set_ends(p, Some(x), last);
        match xr.next_sibling {
            Some(b) => {
                let br = self.relatives(b);
                self.set_siblings(b, Some(a), br.next_sibling);
            },
            None => {},
        }
        if same_node_ids(a, f) {
            self.set_siblings(a, Some(x), xr.next_sibling);
        } else {
            let ar = self.relatives(a);
            self.set_siblings(a, ar.prev_sibling, xr.next_sibling);
            let fr = self.relatives(f);
            self.set_siblings(f, Some(x), fr.next_sibling);
        }
        self.set_siblings(x, None, Some(f));
        proof {
            let fin = *self;
            let nks = seq![x] + ks.remove(i);
            assert(f == ks[0]);
            if i + 1 < n {
                assert(xr.next_sibling == Some(ks[i + 1]));
            }
            assert forall|k: NodeId|
                k != p && k != x && k != a && k != f && Some(k) != xr.next_sibling implies #[trigger] fin.node(k)
                == pre.node(k) by {}
            self.kids@ = self.kids@.insert(p, nks);
            assert forall|k: NodeId| #[trigger] self.node(k) == fin.node(k) by {}
            Self::lemma_make_first_done(pre, *self, p, x);
        }
        true
    }

    /// The links that `make_last` writes amount to reordering the children of `p` with `x`
    /// moved to the end.
    #[verifier::rlimit(100)]
    proof fn lemma_make_last_done(pre: Self, post: Self, p: NodeId, x: NodeId)
        requires
            pre.wf(),
            pre.contains(x),
            pre.rel(x).parent == Some(p),
            pre.rel(x).next_sibling is Some,
            post.core_tree.wf(),
            post.depth == pre.depth,
            post.bound == pre.bound,
            post.root_id == pre.root_id,
            post.ident() == pre.ident(),
            post.slot_count() == pre.slot_count(),
            post.removals_left() == pre.removals_left(),
            ({
                let ks = pre.children_of(p);
                let i = ks.index_of(x);
                let n = ks.len();
                let b = ks[i + 1];
                let l = ks[n - 1];
                let xr = pre.rel(x);
                &&& post.kids@ == pre.kids@.insert(p, ks.remove(i).push(x))
                &&& post.node(p) == Some(
                    Node {
                        data: pre.data_of(p),
                        relatives: Relatives {
                            first_child: if pre.rel(p).first_child == Some(x) {
                                Some(b)
                            } else {
                                pre.rel(p).first_child
                            },
                            last_child: Some(x),
                            ..pre.rel(p)
                        },
                    },
                )
                &&& post.node(x) == Some(
                    Node {
                        data: pre.data_of(x),
                        relatives: Relatives { prev_sibling: Some(l), next_sibling: None, ..xr },
                    },
                )
                &&& (xr.prev_sibling matches Some(aa) ==> post.node(aa) == Some(
                    Node {
                        data: pre.data_of(aa),
                        relatives: Relatives { next_sibling: Some(b), ..pre.rel(aa) },
                    },
                ))
                &&& post.node(b) == Some(
                    Node {
                        data: pre.data_of(b),
                        relatives: Relatives {
                            prev_sibling: xr.prev_sibling,
                            next_sibling: if b == l {
                                Some(x)
                            } else {
                                pre.rel(b).next_sibling
                            },
                            ..pre.rel(b)
                        },
                    },
                )
                &&& (b != l ==> post.node(l) == Some(
                    Node {
                        data: pre.data_of(l),
                        relatives: Relatives { next_sibling: Some(x), ..pre.rel(l) },
                    },
                ))
                &&& forall|k: NodeId|
                    k != p && k != x && k != b && k != l && Some(k) != xr.prev_sibling ==> #[trigger] post.node(k)
                        == pre.node(k)
            }),
        ensures
            post.wf(),
            Self::reordered(pre, p, pre.children_of(p).remove(pre.children_of(p).index_of(x)).push(x), post),
    {
        pre.lemma_sibling_facts(x);
        let ks = pre.children_of(p);
        let i = ks.index_of(x);
        let n = ks.len();
        let nks = ks.remove(i).push(x);
        ks.remove_ensures(i);
        Self::lemma_back_move_perm(ks, i);
        assert forall|j: int| 0 <= j < nks.len() implies post.node(#[trigger] nks[j]) == Some(
            Node {
                data: pre.data_of(nks[j]),
                relatives: Relatives {
                    prev_sibling: Self::list_prev(nks, j),
                    next_sibling: Self::list_next(nks, j),
                    ..pre.rel(nks[j])
                },
            },
        ) by {
            Self::lemma_make_last_link(pre, post, p, x, j);
        }
        assert forall|k: NodeId| k != p && !ks.contains(k) implies #[trigger] post.node(k) == pre.node(k) by {
            if i > 0 {
                assert(ks.contains(ks[i - 1]));
            }
            assert(ks.contains(ks[i]));
            assert(ks.contains(ks[i + 1]));
            assert(ks.contains(ks[n - 1]));
        }
        if i == 0 {
            assert(nks[0] == ks[1]);
        } else {
            assert(nks[0] == ks[0]);
            assert(ks[0] != x);
        }
        assert(nks[n - 1] == x);
        Self::lemma_reorder_wf(pre, post, p, nks);
    }

    /// One position of the reordered list that `make_last` produces carries the links that the
    /// new order gives it.
    #[verifier::rlimit(100)]
    proof fn lemma_make_last_link(pre: Self, post: Self, p: NodeId, x: NodeId, j: int)
        requires
            0 <= j < pre.children_of(p).len(),
            pre.wf(),
            pre.contains(x),
            pre.rel(x).parent == Some(p),
            pre.rel(x).next_sibling is Some,
            post.core_tree.wf(),
            post.depth == pre.depth,
            post.bound == pre.bound,
            post.root_id == pre.root_id,
            post.ident() == pre.ident(),
            post.slot_count() == pre.slot_count(),
            post.removals_left() == pre.removals_left(),
            ({
                let ks = pre.children_of(p);
                let i = ks.index_of(x);
                let n = ks.len();
                let b = ks[i + 1];
                let l = ks[n - 1];
                let xr = pre.rel(x);
                &&& post.kids@ == pre.kids@.insert(p, ks.remove(i).push(x))
                &&& post.node(p) == Some(
                    Node {
                        data: pre.data_of(p),
                        relatives: Relatives {
                            first_child: if pre.rel(p).first_child == Some(x) {
                                Some(b)
                            } else {
                                pre.rel(p).first_child
                            },
                            last_child: Some(x),
                            ..pre.rel(p)
                        },
                    },
                )
                &&& post.node(x) == Some(
                    Node {
                        data: pre.data_of(x),
                        relatives: Relatives { prev_sibling: Some(l), next_sibling: None, ..xr },
                    },
                )
                &&& (xr.prev_sibling matches Some(aa) ==> post.node(aa) == Some(
                    Node {
                        data: pre.data_of(aa),
                        relatives: Relatives { next_sibling: Some(b), ..pre.rel(aa) },
                    },
                ))
                &&& post.node(b) == Some(
                    Node {
                        data: pre.data_of(b),
                        relatives: Relatives {
                            prev_sibling: xr.prev_sibling,
                            next_sibling: if b == l {
                                Some(x)
                            } else {
                                pre.rel(b).next_sibling
                            },
                            ..pre.rel(b)
                        },
                    },
                )
                &&& (b != l ==> post.node(l) == Some(
                    Node {
                        data: pre.data_of(l),
                        relatives: Relatives { next_sibling: Some(x), ..pre.rel(l) },
                    },
                ))
                &&& forall|k: NodeId|
                    k != p && k != x && k != b && k != l && Some(k) != xr.prev_sibling ==> #[trigger] post.node(k)
                        == pre.node(k)
            }),
        ensures
            ({
                let ks = pre.children_of(p);
                let nks = ks.remove(ks.index_of(x)).push(x);
                post.node(nks[j]) == Some(
                    Node {
                        data: pre.data_of(nks[j]),
                        relatives: Relatives {
                            prev_sibling: Self::list_prev(nks, j),
                            next_sibling: Self::list_next(nks, j),
                            ..pre.rel(nks[j])
                        },
                    },
                )
            }),
    {
        pre.lemma_sibling_facts(x);
        let ks = pre.children_of(p);
        let i = ks.index_of(x);
        let n = ks.len();
        let nks = ks.remove(i).push(x);
        ks.remove_ensures(i);
        assert(i + 1 < n);
        let back = |j: int| if j == n - 1 { i } else if j < i { j } else { j + 1 };
        assert forall|m: int| 0 <= m < nks.len() implies #[trigger] nks[m] == ks[back(m)] by {}
        assert(nks[j] == ks[back(j)]);
        if j > 0 {
            assert(nks[j - 1] == ks[back(j - 1)]);
        }
        if j < n - 1 {
            assert(nks[j + 1] == ks[back(j + 1)]);
        }
        assert(ks[back(j)] != p);
        if i > 0 {
            assert(ks[i - 1] != ks[i + 1] && ks[i - 1] != ks[n - 1] && ks[i - 1] != x);
        }
        if back(j) != i && back(j) != i - 1 && back(j) != n - 1 && back(j) != i + 1 {
            assert(ks[back(j)] != x && ks[back(j)] != ks[i + 1] && ks[back(j)] != ks[n - 1]);
            assert(i > 0 ==> ks[back(j)] != ks[i - 1]);
        }
    }

    /// Moving the element at position `i` of a list without duplicates to the end gives a list
    /// without duplicates holding the same elements.
    proof fn lemma_back_move_perm(ks: Seq<NodeId>, i: int)
        requires
            0 <= i < ks.len(),
            ks.no_duplicates(),
        ensures
            ({
                let nks = ks.remove(i).push(ks[i]);
                &&& nks.len() == ks.len()
                &&& nks.no_duplicates()
                &&& forall|j: int| 0 <= j < nks.len() ==> #[trigger] ks.contains(nks[j])
                &&& forall|k: NodeId| #[trigger] ks.contains(k) ==> nks.contains(k)
            }),
    {
        let n = ks.len();
        let nks = ks.remove(i).push(ks[i]);
        ks.remove_ensures(i);
        let back = |j: int| if j == n - 1 { i } else if j < i { j } else { j + 1 };
        assert forall|j: int| 0 <= j < nks.len() implies #[trigger] nks[j] == ks[back(j)] by {}
        assert(nks.no_duplicates()) by {
            assert forall|u: int, c: int|
                0 <= u < nks.len() && 0 <= c < nks.len() && u != c implies nks[u] != nks[c] by {
                assert(nks[u] == ks[back(u)]);
                assert(nks[c] == ks[back(c)]);
            }
        }
        assert forall|j: int| 0 <= j < nks.len() implies #[trigger] ks.contains(nks[j]) by {
            assert(nks[j] == ks[back(j)]);
        }
        assert forall|k: NodeId| #[trigger] ks.contains(k) implies nks.contains(k) by {
            let j = choose|j: int| 0 <= j < ks.len() && ks[j] == k;
            if j == i {
                assert(nks[n - 1] == k);
            } else if j < i {
                assert(nks[j] == k);
            } else {
                assert(nks[j - 1] == k);
            }
        }
    }

    /// The links that `make_first` writes amount to reordering the children of `p` with `x`
    /// moved to the front.
    #[verifier::rlimit(100)]
    proof fn lemma_make_first_done(pre: Self, post: Self, p: NodeId, x: NodeId)
        requires
            pre.wf(),
            pre.contains(x),
            pre.rel(x).parent == Some(p),
            pre.rel(x).prev_sibling is Some,
            post.core_tree.wf(),
            post.depth == pre.depth,
            post.bound == pre.bound,
            post.root_id == pre.root_id,
            post.ident() == pre.ident(),
            post.slot_count() == pre.slot_count(),
            post.removals_left() == pre.removals_left(),
            ({
                let ks = pre.children_of(p);
                let i = ks.index_of(x);
                let n = ks.len();
                let a = ks[i - 1];
                let f = ks[0];
                let b = pre.rel(x).next_sibling;
                &&& post.kids@ == pre.kids@.insert(p, seq![x] + ks.remove(i))
                &&& post.node(p) == Some(
                    Node {
                        data: pre.data_of(p),
                        relatives: Relatives {
                            first_child: Some(x),
                            last_child: if pre.rel(p).last_child == Some(x) {
                                Some(a)
                            } else {
                                pre.rel(p).last_child
                            },
                            ..pre.rel(p)
                        },
                    },
                )
                &&& post.node(x) == Some(
                    Node {
                        data: pre.data_of(x),
                        relatives: Relatives {
                            prev_sibling: None,
                            next_sibling: Some(f),
                            ..pre.rel(x)
                        },
                    },
                )
                &&& (b matches Some(bb) ==> post.node(bb) == Some(
                    Node {
                        data: pre.data_of(bb),
                        relatives: Relatives { prev_sibling: Some(a), ..pre.rel(bb) },
                    },
                ))
                &&& post.node(a) == Some(
                    Node {
                        data: pre.data_of(a),
                        relatives: Relatives {
                            prev_sibling: if a == f {
                                Some(x)
                            } else {
                                pre.rel(a).prev_sibling
                            },
                            next_sibling: b,
                            ..pre.rel(a)
                        },
                    },
                )
                &&& (a != f ==> post.node(f) == Some(
                    Node {
                        data: pre.data_of(f),
                        relatives: Relatives { prev_sibling: Some(x), ..pre.rel(f) },
                    },
                ))
                &&& forall|k: NodeId|
                    k != p && k != x && k != a && k != f && Some(k) != b ==> #[trigger] post.node(k)
                        == pre.node(k)
            }),
        ensures
            post.wf(),
            Self::reordered(pre, p, seq![x] + pre.children_of(p).remove(pre.children_of(p).index_of(x)), post),
    {
        pre.lemma_sibling_facts(x);
        let ks = pre.children_of(p);
        let i = ks.index_of(x);
        let n = ks.len();
        let a = ks[i - 1];
        let f = ks[0];
        assert(i > 0);
        let nks = seq![x] + ks.remove(i);
        ks.remove_ensures(i);
        let back = |j: int| if j == 0 { i } else if j <= i { j - 1 } else { j };
        assert forall|j: int| 0 <= j < nks.len() implies #[trigger] nks[j] == ks[back(j)] by {}
        Self::lemma_front_move_perm(ks, i);
        assert forall|j: int|
            0 <= j < nks.len() implies post.node(#[trigger] nks[j]) == Some(
            Node {
                data: pre.data_of(nks[j]),
                relatives: Relatives {
                    prev_sibling: Self::list_prev(nks, j),
                    next_sibling: Self::list_next(nks, j),
                    ..pre.rel(nks[j])
                },
            },
        ) by {
            Self::lemma_make_first_link(pre, post, p, x, j);
        }
        assert forall|k: NodeId| k != p && !ks.contains(k) implies #[trigger] post.node(k) == pre.node(k) by {
            if i < n - 1 {
                assert(ks.contains(ks[i + 1]));
            }
            assert(ks.contains(ks[i]));
            assert(ks.contains(ks[i - 1]));
            assert(ks.contains(ks[0]));
        }
        if i == n - 1 {
            assert(nks[n - 1] == a);
        } else {
            assert(nks[n - 1] == ks[n - 1]);
            assert(ks[n - 1] != x);
        }
        Self::lemma_reorder_wf(pre, post, p, nks);
    }

    /// Moving the element at position `i` of a list without duplicates to the front gives a list
    /// without duplicates holding the same elements.
    proof fn lemma_front_move_perm(ks: Seq<NodeId>, i: int)
        requires
            0 <= i < ks.len(),
            ks.no_duplicates(),
        ensures
            ({
                let nks = seq![ks[i]] + ks.remove(i);
                &&& nks.len() == ks.len()
                &&& nks.no_duplicates()
                &&& forall|j: int| 0 <= j < nks.len() ==> #[trigger] ks.contains(nks[j])
                &&& forall|k: NodeId| #[trigger] ks.contains(k) ==> nks.contains(k)
            }),
    {
        let x = ks[i];
        let nks = seq![x] + ks.remove(i);
        ks.remove_ensures(i);
        let back = |j: int| if j == 0 { i } else if j <= i { j - 1 } else { j };
        assert forall|j: int| 0 <= j < nks.len() implies #[trigger] nks[j] == ks[back(j)] by {}
        assert(nks.no_duplicates()) by {
            assert forall|u: int, c: int|
                0 <= u < nks.len() && 0 <= c < nks.len() && u != c implies nks[u] != nks[c] by {
                assert(nks[u] == ks[back(u)]);
                assert(nks[c] == ks[back(c)]);
            }
        }
        assert forall|j: int| 0 <= j < nks.len() implies #[trigger] ks.contains(nks[j]) by {
            assert(nks[j] == ks[back(j)]);
        }
        assert forall|k: NodeId| #[trigger] ks.contains(k) implies nks.contains(k) by {
            let j = choose|j: int| 0 <= j < ks.len() && ks[j] == k;
            if j == i {
                assert(nks[0] == k);
            } else if j < i {
                assert(nks[j + 1] == k);
            } else {
                assert(nks[j] == k);
            }
        }
    }

    /// One position of the reordered list that `make_first` produces carries the links that
    /// the new order gives it.
    #[verifier::rlimit(100)]
    proof fn lemma_make_first_link(pre: Self, post: Self, p: NodeId, x: NodeId, j: int)
        requires
            0 <= j < pre.children_of(p).len(),
            pre.wf(),
            pre.contains(x),
            pre.rel(x).parent == Some(p),
            pre.rel(x).prev_sibling is Some,
            post.core_tree.wf(),
            post.depth == pre.depth,
            post.bound == pre.bound,
            post.root_id == pre.root_id,
            post.ident() == pre.ident(),
            post.slot_count() == pre.slot_count(),
            post.removals_left() == pre.removals_left(),
            ({
                let ks = pre.children_of(p);
                let i = ks.index_of(x);
                let n = ks.len();
                let a = ks[i - 1];
                let f = ks[0];
                let b = pre.rel(x).next_sibling;
                &&& post.kids@ == pre.kids@.insert(p, seq![x] + ks.remove(i))
                &&& post.node(p) == Some(
                    Node {
                        data: pre.data_of(p),
                        relatives: Relatives {
                            first_child: Some(x),
                            last_child: if pre.rel(p).last_child == Some(x) {
                                Some(a)
                            } else {
                                pre.rel(p).last_child
                            },
                            ..pre.rel(p)
                        },
                    },
                )
                &&& post.node(x) == Some(
                    Node {
                        data: pre.data_of(x),
                        relatives: Relatives {
                            prev_sibling: None,
                            next_sibling: Some(f),
                            ..pre.rel(x)
                        },
                    },
                )
                &&& (b matches Some(bb) ==> post.node(bb) == Some(
                    Node {
                        data: pre.data_of(bb),
                        relatives: Relatives { prev_sibling: Some(a), ..pre.rel(bb) },
                    },
                ))
                &&& post.node(a) == Some(
                    Node {
                        data: pre.data_of(a),
                        relatives: Relatives {
                            prev_sibling: if a == f {
                                Some(x)
                            } else {
                                pre.rel(a).prev_sibling
                            },
                            next_sibling: b,
                            ..pre.rel(a)
                        },
                    },
                )
                &&& (a != f ==> post.node(f) == Some(
                    Node {
                        data: pre.data_of(f),
                        relatives: Relatives { prev_sibling: Some(x), ..pre.rel(f) },
                    },
                ))
                &&& forall|k: NodeId|
                    k != p && k != x && k != a && k != f && Some(k) != b ==> #[trigger] post.node(k)
                        == pre.node(k)
            }),
        ensures
            ({
                let ks = pre.children_of(p);
                let nks = seq![x] + ks.remove(ks.index_of(x));
                post.node(nks[j]) == Some(
                    Node {
                        data: pre.data_of(nks[j]),
                        relatives: Relatives {
                            prev_sibling: Self::list_prev(nks, j),
                            next_sibling: Self::list_next(nks, j),
                            ..pre.rel(nks[j])
                        },
                    },
                )
            }),
    {
        pre.lemma_sibling_facts(x);
        let ks = pre.children_of(p);
        let i = ks.index_of(x);
        let n = ks.len();
        let nks = seq![x] + ks.remove(i);
        ks.remove_ensures(i);
        assert(i > 0);
        let back = |j: int| if j == 0 { i } else if j <= i { j - 1 } else { j };
        assert forall|m: int| 0 <= m < nks.len() implies #[trigger] nks[m] == ks[back(m)] by {}
        assert(nks[j] == ks[back(j)]);
        if j > 0 {
            assert(nks[j - 1] == ks[back(j - 1)]);
        }
        if j < n - 1 {
            assert(nks[j + 1] == ks[back(j + 1)]);
        }
        assert(ks[back(j)] != p);
        if i + 1 < n {
            assert(ks[i + 1] != ks[i - 1] && ks[i + 1] != ks[0] && ks[i + 1] != x);
        }
        if back(j) != i && back(j) != i - 1 && back(j) != 0 && back(j) != i + 1 {
            assert(ks[back(j)] != x && ks[back(j)] != ks[i - 1] && ks[back(j)] != ks[0]);
            assert(i + 1 < n ==> ks[back(j)] != ks[i + 1]);
        }
    }

    /// The parts of well-formedness that concern one node.
    proof fn lemma_wf_parts(&self, p: NodeId)
        requires
            self.wf(),
            self.contains(p),
        ensures
            self.core_tree.wf(),
            self.kids_ok(p),
            self.parent_ok(p),
            self.depth_of(p) < self.depth_bound(),
            self.root_id matches Some(r) ==> {
                &&& self.contains(r)
                &&& self.rel(r).parent is None
                &&& self.rel(r).prev_sibling is None
                &&& self.rel(r).next_sibling is None
            },
    {
        reveal(Tree::wf);
    }

    proof fn lemma_append_node_ok(&self, pre: Self, parent: NodeId, new_id: NodeId, p: NodeId)
        requires
            pre.wf(),
            pre.contains(parent),
            !pre.contains(new_id),
            !pre.children_of(parent).contains(new_id),
            self.core_tree.wf(),
            self.contains(p),
            self.root_id == pre.root_id,
            self.kids@ == pre.kids@.insert(parent, pre.children_of(parent).push(new_id)).insert(
                new_id,
                Seq::empty(),
            ),
            self.depth@ == pre.depth@.insert(new_id, pre.depth_of(parent) + 1),
            ({
                let ks = pre.children_of(parent);
                let pr = pre.rel(parent);
                &&& self.node(new_id) == Some(
                    Node {
                        data: self.data_of(new_id),
                        relatives: Relatives {
                            parent: Some(parent),
                            prev_sibling: pr.last_child,
                            next_sibling: None,
                            first_child: None,
                            last_child: None,
                        },
                    },
                )
                &&& self.rel(parent) == Relatives {
                    parent: pr.parent,
                    prev_sibling: pr.prev_sibling,
                    next_sibling: pr.next_sibling,
                    first_child: if ks.len() == 0 {
                        Some(new_id)
                    } else {
                        pr.first_child
                    },
                    last_child: Some(new_id),
                }
                &&& self.contains(parent)
                &&& (pr.last_child matches Some(l) ==> self.contains(l) && self.rel(l)
                    == Relatives {
                    parent: pre.rel(l).parent,
                    prev_sibling: pre.rel(l).prev_sibling,
                    next_sibling: Some(new_id),
                    first_child: pre.rel(l).first_child,
                    last_child: pre.rel(l).last_child,
                })
                &&& forall|k: NodeId|
                    k != new_id && k != parent && Some(k) != pr.last_child ==> #[trigger] self.node(
                        k,
                    ) == pre.node(k)
            }),
        ensures
            self.kids_ok(p) && self.parent_ok(p),
    {
        reveal(Tree::wf);
        let ks = pre.children_of(parent);
        let pr = pre.rel(parent);
        assert(pre.kids_ok(parent));
        if p == new_id {
            assert(self.children_of(parent).contains(new_id)) by {
                assert(self.children_of(parent)[ks.len() as int] == new_id);
            }
        } else if p == parent {
            let nks = self.children_of(parent);
            assert(nks == ks.push(new_id));
            assert(nks.no_duplicates()) by {
                assert forall|i: int, j: int|
                    0 <= i < nks.len() && 0 <= j < nks.len() && i != j implies nks[i]
                    != nks[j] by {
                    if i < ks.len() && j < ks.len() {
                    } else if i < ks.len() {
                        assert(ks.contains(ks[i]));
                    } else {
                        assert(ks.contains(ks[j]));
                    }
                }
            }
            assert forall|i: int| 0 <= i < nks.len() implies #[trigger] self.kid_links_ok(
                parent,
                i,
            ) by {
                if i < ks.len() {
                    assert(pre.kid_links_ok(parent, i));
                    let c = ks[i];
                    assert(c != new_id);
                    if c == parent {
                        assert(pre.depth_of(c) == pre.depth_of(parent) + 1);
                    }
                    if i == ks.len() - 1 {
                        assert(pr.last_child == Some(c));
                    } else {
                        assert(Some(c) != pr.last_child) by {
                            assert(ks.no_duplicates());
                            assert(ks[ks.len() - 1] != c);
                        }
                    }
                }
            }
            assert(pre.parent_ok(parent));
            match pr.parent {
                Some(g) => {
                    assert(g != parent) by {
                        assert(pre.children_of(g).contains(parent));
                        let j = choose|j: int|
                            0 <= j < pre.children_of(g).len() && pre.children_of(g)[j] == parent;
                        assert(pre.contains(g) ==> pre.kids_ok(g));
                        assert(pre.kid_links_ok(g, j));
                    }
                },
                None => {
                    if let Some(y) = pr.next_sibling {
                        assert(pre.contains(y));
                        if Some(y) == pr.last_child {
                            assert(pre.kid_links_ok(parent, ks.len() - 1));
                        }
                    }
                    if let Some(y) = pr.prev_sibling {
                        assert(pre.contains(y));
                        if Some(y) == pr.last_child {
                            assert(pre.kid_links_ok(parent, ks.len() - 1));
                        }
                    }
                },
            }
        } else {
            if Some(p) == pr.last_child {
                assert(pre.kid_links_ok(parent, ks.len() - 1));
            }
            assert(pre.contains(p));
            assert(pre.kids_ok(p) && pre.parent_ok(p));
            let pks = pre.children_of(p);
            assert(self.children_of(p) == pks);
            assert forall|i: int| 0 <= i < pks.len() implies #[trigger] self.kid_links_ok(p, i) by {
                assert(pre.kid_links_ok(p, i));
                let c = pks[i];
                if Some(c) == pr.last_child {
                    assert(pre.kid_links_ok(parent, ks.len() - 1));
                }
                if c == parent {
                }
            }
            match pre.rel(p).parent {
                Some(g) => {
                    if g == parent {
                        assert(self.children_of(parent).contains(p)) by {
                            let j = choose|j: int| 0 <= j < ks.len() && ks[j] == p;
                            assert(self.children_of(parent)[j] == p);
                        }
                    }
                },
                None => {
                    if let Some(y) = pre.rel(p).next_sibling {
                        assert(pre.contains(y));
                        if Some(y) == pr.last_child {
                            assert(pre.kid_links_ok(parent, ks.len() - 1));
                        }
                    }
                    if let Some(y) = pre.rel(p).prev_sibling {
                        assert(pre.contains(y));
                        if Some(y) == pr.last_child {
                            assert(pre.kid_links_ok(parent, ks.len() - 1));
                        }
                    }
                },
            }
        }
    }
}

/// Links that point nowhere.
fn unlinked_relatives() -> (r: Relatives)
    ensures
        r == unlinked(),
{
    Relatives {
        parent: None,
        prev_sibling: None,
        next_sibling: None,
        first_child: None,
        last_child: None,
    }
}

/// Appending to a parent with no children makes the new node both its first and its last
/// child; appending a second node then leaves the first one first, makes the second one last,
/// and links the two as neighbours.
pub proof fn lemma_append_twice<T>(
    t0: Tree<T>,
    p: NodeId,
    a: T,
    t1: Tree<T>,
    x: NodeId,
    b: T,
    t2: Tree<T>,
    y: NodeId,
)
    requires
        t0.wf(),
        t0.contains(p),
        t0.rel(p).first_child is None,
        Tree::appended(t0, p, a, t1, x),
        Tree::appended(t1, p, b, t2, y),
    ensures
        t1.rel(p).first_child == Some(x),
        t1.rel(p).last_child == Some(x),
        t2.rel(p).first_child == Some(x),
        t2.rel(p).last_child == Some(y),
        t2.rel(x).next_sibling == Some(y),
        t2.rel(y).prev_sibling == Some(x),
{
    t0.lemma_wf_parts(p);
    assert(t1.children_of(p).len() == 1);
    assert(x != p && y != p && x != y);
}

/// Settings for making a `Tree`: an optional root value and an optional capacity.
pub struct TreeBuilder<T> {
    pub root: Option<T>,
    pub capacity: Option<usize>,
}

impl<T> TreeBuilder<T> {
    /// A builder with no root and no capacity set.
    pub fn new() -> (r: TreeBuilder<T>)
        ensures
            r.root is None,
            r.capacity is None,
    {
        TreeBuilder { root: None, capacity: None }
    }

    /// Sets the value of the root.
    pub fn with_root(self, root: T) -> (r: TreeBuilder<T>)
        ensures
            r.root == Some(root),
            r.capacity == self.capacity,
    {
        TreeBuilder { root: Some(root), capacity: self.capacity }
    }

    /// Sets how many nodes the tree can hold before its arena reallocates.
    pub fn with_capacity(self, capacity: usize) -> (r: TreeBuilder<T>)
        ensures
            r.root == self.root,
            r.capacity == Some(capacity),
    {
        TreeBuilder { root: self.root, capacity: Some(capacity) }
    }

    /// Makes the tree: empty, or holding just the root value; with room for the capacity set
    /// (none if it was not).
    pub fn build(self) -> (r: Tree<T>)
        ensures
            r.wf(),
            self.root is None ==> r.root_node() is None && forall|id: NodeId| !r.contains(id),
            self.root is Some ==> r.root_node() is Some && r.node(r.root_node()->Some_0) == Some(
                Node { data: self.root->Some_0, relatives: unlinked() },
            ) && forall|id: NodeId| r.contains(id) ==> id == r.root_node()->Some_0,
            r.removals_left() == u64::MAX,
            r.slot_count() == (if self.root is Some {
                1int
            } else {
                0
            }),
    {
        let capacity = match self.capacity {
            Some(c) => c,
            None => 0,
        };
        Tree::with_settings(self.root, capacity)
    }
}

/// An empty tree.
impl<T> Default for Tree<T> {
    fn default() -> (r: Tree<T>)
        ensures
            r.wf(),
            r.root_node() is None,
            forall|id: NodeId| !r.contains(id),
            r.removals_left() == u64::MAX,
            r.slot_count() == 0,
    {
        Tree::new()
    }
}

/// An id that carries another tree's identifier never resolves in this tree: looking it up
/// gives nothing, whatever slot and generation it names.
pub proof fn lemma_foreign_id_absent<T>(t: Tree<T>, id: NodeId)
    requires
        id.tree_id != t.ident(),
    ensures
        !t.contains(id),
        t.node(id) is None,
{
}

/// Every id that a tree hands out carries that tree's identifier.
pub proof fn lemma_own_ids_carry_identifier<T>(t: Tree<T>, id: NodeId)
    requires
        t.contains(id),
    ensures
        id.tree_id == t.ident(),
{
}

/// A builder with no settings.
impl<T> Default for TreeBuilder<T> {
    fn default() -> (r: TreeBuilder<T>)
        ensures
            r.root is None,
            r.capacity is None,
    {
        TreeBuilder::new()
    }
}

/// Walking up from a node yields exactly its chain of parents: the walk starts at the node
/// itself (when it has a parent), each entry's parent is the next entry, the parent of the last
/// entry is the top of the tree (it has no parent), and the node lies in the subtree of every
/// entry.
pub proof fn lemma_ancestors_are_parent_chain<T>(t: Tree<T>, x: NodeId)
    requires
        t.wf(),
        t.contains(x),
    ensures
        ({
            let anc = t.ancestors_of(x);
            &&& (t.rel(x).parent is None <==> anc.len() == 0)
            &&& anc.len() > 0 ==> anc[0] == x
            &&& forall|i: int| 0 <= i < anc.len() - 1 ==> t.rel(#[trigger] anc[i]).parent == Some(anc[i + 1])
            &&& anc.len() > 0 ==> ({
                let last = anc[anc.len() - 1];
                &&& t.rel(last).parent is Some
                &&& t.contains(t.rel(last).parent->Some_0)
                &&& t.rel(t.rel(last).parent->Some_0).parent is None
            })
            &&& forall|i: int| 0 <= i < anc.len() ==> t.contains(#[trigger] anc[i]) && t.is_desc(x, anc[i])
        }),
    decreases t.depth_of(x),
{
    t.lemma_parent_depth(x);
    if let Some(p) = t.rel(x).parent {
        lemma_ancestors_are_parent_chain(t, p);
        t.lemma_parent_depth(p);
        let anc = t.ancestors_of(x);
        let up = t.ancestors_of(p);
        assert(anc == seq![x] + up);
        assert forall|i: int| 0 <= i < anc.len() - 1 implies t.rel(#[trigger] anc[i]).parent == Some(anc[i + 1]) by {
            if i > 0 {
                assert(anc[i] == up[i - 1]);
                assert(anc[i + 1] == up[i]);
            } else {
                assert(anc[1] == up[0]);
            }
        }
        assert forall|i: int| 0 <= i < anc.len() implies t.contains(#[trigger] anc[i]) && t.is_desc(x, anc[i]) by {
            if i > 0 {
                assert(anc[i] == up[i - 1]);
                assert(t.is_desc(p, up[i - 1]));
                assert(x != up[i - 1] ==> t.is_desc(x, up[i - 1]));
            }
        }
        if up.len() > 0 {
            assert(anc[anc.len() - 1] == up[up.len() - 1]);
        }
    }
}

/// Reversing a concatenation reverses the order of the parts.
proof fn lemma_reverse_concat(a: Seq<NodeId>, b: Seq<NodeId>)
    ensures
        (a + b).reverse() == b.reverse() + a.reverse(),
{
    assert((a + b).reverse() =~= b.reverse() + a.reverse());
}

/// Read backwards, the mirrored pre-order of a subtree is its post-order.
proof fn lemma_mirror_reversed<T>(t: Tree<T>, n: NodeId)
    ensures
        t.mirror_pre_seq(n).reverse() == t.post_seq(n),
    decreases t.depth_bound() - t.depth_of(n), 1int, 0int,
{
    let len = t.children_of(n).len() as int;
    lemma_mirror_forest_reversed(t, n, len - 1);
    lemma_reverse_concat(seq![n], t.mirror_forest(n, len - 1));
    assert(seq![n].reverse() =~= seq![n]);
}

proof fn lemma_mirror_forest_reversed<T>(t: Tree<T>, n: NodeId, i: int)
    requires
        -1 <= i < t.children_of(n).len(),
    ensures
        t.mirror_forest(n, i).reverse() == t.post_forest(n, i + 1),
    decreases t.depth_bound() - t.depth_of(n), 0int, i + 1,
{
    if i >= 0 {
        let c = t.children_of(n)[i];
        let part = if t.enters(n, c) {
            t.mirror_pre_seq(c)
        } else {
            Seq::empty()
        };
        if t.enters(n, c) {
            lemma_mirror_reversed(t, c);
        } else {
            assert(part.reverse() =~= Seq::<NodeId>::empty());
        }
        lemma_mirror_forest_reversed(t, n, i - 1);
        lemma_reverse_concat(part, t.mirror_forest(n, i - 1));
    } else {
        assert(t.mirror_forest(n, i).reverse() =~= Seq::<NodeId>::empty());
    }
}

/// A listing of a subtree that names each node once has as many entries as the subtree has
/// nodes: a pre-order (or any other such walk) visits exactly the subtree's size.
pub proof fn lemma_listing_counts_subtree<T>(t: Tree<T>, start: NodeId, r: Seq<NodeId>)
    requires
        t.lists_subtree(start, r),
    ensures
        t.subtree(start).finite(),
        r.len() == t.subtree(start).len(),
{
    assert(r.to_set() =~= t.subtree(start)) by {
        assert forall|d: NodeId| r.to_set().contains(d) implies t.subtree(start).contains(d) by {
            let k = choose|k: int| 0 <= k < r.len() && r[k] == d;
            assert(t.contains(r[k]) && t.is_desc(r[k], start));
        }
    }
    r.unique_seq_to_set();
}

/// Removing a node with the drop policy leaves no node of its subtree behind: every id of the
/// subtree resolves to nothing afterwards.
pub proof fn lemma_drop_removes_subtree<T>(
    t0: Tree<T>,
    x: NodeId,
    t1: Tree<T>,
    r: Option<T>,
    d: NodeId,
)
    requires
        t0.wf(),
        Tree::removed_with(t0, x, RemoveBehavior::DropChildren, t1, r),
        t0.is_desc(d, x),
    ensures
        !t1.contains(d),
{
    if t0.contains(x) {
        assert(t1.node(d) == Tree::after_removal(t0, x, RemoveBehavior::DropChildren, d));
    } else if d != x {
        t0.lemma_desc_contains(d, x);
    }
}

/// Removing a node with the orphan policy leaves each of its children in the tree with no
/// parent but with its own links (siblings and children) and its children list as they were;
/// the deeper nodes of its subtree are not touched at all.
pub proof fn lemma_orphan_keeps_subtrees<T>(
    t0: Tree<T>,
    x: NodeId,
    t1: Tree<T>,
    r: Option<T>,
    c: NodeId,
    g: NodeId,
)
    requires
        t0.wf(),
        t0.contains(x),
        Tree::removed_with(t0, x, RemoveBehavior::OrphanChildren, t1, r),
        t0.children_of(x).contains(c),
    ensures
        t1.node(c) == Some(
            Node {
                data: t0.data_of(c),
                relatives: Relatives {
                    parent: None,
                    prev_sibling: t0.rel(c).prev_sibling,
                    next_sibling: t0.rel(c).next_sibling,
                    first_child: t0.rel(c).first_child,
                    last_child: t0.rel(c).last_child,
                },
            },
        ),
        t1.children_of(c) == t0.children_of(c),
        t0.contains(g) && g != c && t0.is_desc(g, c) ==> t1.node(g) == t0.node(g),
{
    t0.lemma_removal_facts(x);
    let m = choose|m: int| 0 <= m < t0.children_of(x).len() && t0.children_of(x)[m] == c;
    assert(t0.contains(c) && t0.rel(c).parent == Some(x) && t0.depth_of(c) == t0.depth_of(x) + 1);
    assert(t0.kids_ok(c) && t0.parent_ok(c)) by {
        t0.lemma_wf_parts(c);
    }
    let xr = t0.rel(x);
    if let Some(p) = xr.parent {
        assert(c != p);
    }
    if let Some(a) = xr.prev_sibling {
        assert(t0.rel(a).parent == xr.parent);
    }
    if let Some(b) = xr.next_sibling {
        assert(t0.rel(b).parent == xr.parent);
    }
    assert(t1.node(c) == Tree::after_removal(t0, x, RemoveBehavior::OrphanChildren, c));
    assert(t1.contains(c));
    if t0.contains(g) && g != c && t0.is_desc(g, c) {
        let q = t0.rel(g).parent->Some_0;
        assert(t0.rel(g).parent is Some);
        t0.lemma_desc_depth(q, c);
        assert(t0.depth_of(g) > t0.depth_of(c));
        assert(g != x);
        assert(t1.node(g) == Tree::after_removal(t0, x, RemoveBehavior::OrphanChildren, g));
        if let Some(p) = xr.parent {
            assert(g != p);
        }
        if let Some(a) = xr.prev_sibling {
            assert(t0.rel(a).parent == xr.parent);
            if g == a {
                if let Some(p) = xr.parent {
                    t0.lemma_wf_parts(p);
                    assert(t0.depth_of(a) == t0.depth_of(x)) by {
                        t0.lemma_wf_parts(a);
                        assert(t0.children_of(p).contains(a));
                        let j = choose|j: int| 0 <= j < t0.children_of(p).len() && t0.children_of(p)[j] == a;
                        assert(t0.kid_links_ok(p, j));
                    }
                }
            }
        }
        if let Some(b) = xr.next_sibling {
            assert(t0.rel(b).parent == xr.parent);
            if g == b {
                if let Some(p) = xr.parent {
                    t0.lemma_wf_parts(p);
                    assert(t0.depth_of(b) == t0.depth_of(x)) by {
                        t0.lemma_wf_parts(b);
                        assert(t0.children_of(p).contains(b));
                        let j = choose|j: int| 0 <= j < t0.children_of(p).len() && t0.children_of(p)[j] == b;
                        assert(t0.kid_links_ok(p, j));
                    }
                }
            }
        }
        assert(t0.rel(g).parent != Some(x));
    }
}

} // verus!
