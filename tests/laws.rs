use slab_tree::slab::Slab;
use slab_tree::NodeId;
use slab_tree::RemoveBehavior::{DropChildren, OrphanChildren};
use slab_tree::Tree;
use slab_tree::TreeBuilder;

fn scenario() -> (Tree<i32>, Vec<NodeId>) {
    let mut tree = TreeBuilder::new().with_root(0).build();
    let mut ids = vec![tree.root_id().unwrap()];
    {
        let mut root = tree.root_mut().unwrap();
        let one = root.append(1).node_id();
        let five = root.append(5).node_id();
        let nine = root.append(9).node_id();
        ids.push(one);
        ids.push(five);
        ids.push(nine);
    }
    let two = tree.get_mut(ids[1]).unwrap().append(2).node_id();
    let three = tree.get_mut(two).unwrap().append(3).node_id();
    let four = tree.get_mut(two).unwrap().append(4).node_id();
    let six = tree.get_mut(ids[2]).unwrap().append(6).node_id();
    let seven = tree.get_mut(six).unwrap().append(7).node_id();
    let eight = tree.get_mut(ids[2]).unwrap().append(8).node_id();
    ids.extend([two, three, four, six, seven, eight]);
    (tree, ids)
}

fn values(nodes: Vec<slab_tree::NodeRef<'_, i32>>) -> Vec<i32> {
    nodes.into_iter().map(|n| *n.data()).collect()
}

#[test]
fn scenario_level_order() {
    let (tree, _) = scenario();
    let order = values(tree.root().unwrap().traverse_level_order());
    assert_eq!(order, vec![0, 1, 5, 9, 2, 6, 8, 3, 4, 7]);
}

#[test]
fn arena_handle_lifecycle() {
    let mut slab = Slab::new(0);
    let a = slab.insert(10);
    assert_eq!(slab.get(a), Some(&10));
    assert_eq!(slab.remove(a), Some(10));
    assert_eq!(slab.get(a), None);
    assert_eq!(slab.remove(a), None);
    let b = slab.insert(20);
    assert_eq!(b.index, a.index);
    assert_ne!(b.generation, a.generation);
    assert_eq!(slab.get(a), None);
    assert_eq!(slab.get(b), Some(&20));
}

#[test]
fn append_twice_links_siblings() {
    let mut tree = TreeBuilder::new().with_root(0).build();
    let root_id = tree.root_id().unwrap();
    let x = tree.root_mut().unwrap().append(1).node_id();
    {
        let root = tree.get_node(root_id).unwrap();
        assert_eq!(root.relatives.first_child, Some(x));
        assert_eq!(root.relatives.last_child, Some(x));
    }
    let y = tree.root_mut().unwrap().append(2).node_id();
    let root = tree.get_node(root_id).unwrap();
    assert_eq!(root.relatives.first_child, Some(x));
    assert_eq!(root.relatives.last_child, Some(y));
    assert_eq!(tree.get_node(x).unwrap().relatives.next_sibling, Some(y));
    assert_eq!(tree.get_node(y).unwrap().relatives.prev_sibling, Some(x));
}

#[test]
fn drop_removes_every_descendant() {
    let (mut tree, ids) = scenario();
    // the subtree of 5 is 5, 6, 7, 8
    let five = ids[2];
    assert_eq!(tree.remove(five, DropChildren), Some(5));
    for i in [2usize, 7, 8, 9] {
        assert!(tree.get(ids[i]).is_none());
    }
    for i in [0usize, 1, 3, 4, 5, 6] {
        assert!(tree.get(ids[i]).is_some());
    }
    let order = values(tree.root().unwrap().traverse_level_order());
    assert_eq!(order, vec![0, 1, 9, 2, 3, 4]);
}

#[test]
fn orphan_detaches_only_direct_children() {
    let (mut tree, ids) = scenario();
    let five = ids[2];
    let six = ids[7];
    let seven = ids[8];
    let eight = ids[9];
    assert_eq!(tree.remove(five, OrphanChildren), Some(5));
    let six_node = tree.get_node(six).unwrap();
    assert_eq!(six_node.relatives.parent, None);
    assert_eq!(six_node.relatives.next_sibling, Some(eight));
    assert_eq!(six_node.relatives.first_child, Some(seven));
    let eight_node = tree.get_node(eight).unwrap();
    assert_eq!(eight_node.relatives.parent, None);
    assert_eq!(eight_node.relatives.prev_sibling, Some(six));
    assert_eq!(tree.get_node(seven).unwrap().relatives.parent, Some(six));
    assert_eq!(*tree.get(seven).unwrap().data(), 7);
    let order = values(tree.root().unwrap().traverse_level_order());
    assert_eq!(order, vec![0, 1, 9, 2, 3, 4]);
}

#[test]
fn level_order_never_goes_back_up() {
    let (tree, _) = scenario();
    let nodes = tree.root().unwrap().traverse_level_order();
    let depths: Vec<usize> = nodes.iter().map(|n| n.ancestors().len()).collect();
    for w in depths.windows(2) {
        assert!(w[0] <= w[1]);
    }
    assert_eq!(nodes.len(), 10);
}

#[test]
fn ancestors_of_a_leaf() {
    let (tree, ids) = scenario();
    let seven = ids[8];
    let chain = values(tree.get(seven).unwrap().ancestors());
    assert_eq!(chain, vec![7, 6, 5]);
}

#[test]
fn children_in_order() {
    let (tree, ids) = scenario();
    let kids = values(tree.get(ids[2]).unwrap().children());
    assert_eq!(kids, vec![6, 8]);
}

#[test]
fn foreign_id_resolves_to_nothing() {
    let a = TreeBuilder::new().with_root(1).build();
    let b = TreeBuilder::new().with_root(1).build();
    let id = a.root_id().unwrap();
    assert!(a.get(id).is_some());
    assert!(b.get(id).is_none());
    assert!(b.get_node(id).is_none());
}

#[test]
fn set_root_grows_downward() {
    let mut tree = Tree::new();
    let first = tree.set_root(1);
    let second = tree.set_root(2);
    assert_eq!(tree.root_id(), Some(second));
    let top = tree.get_node(second).unwrap();
    assert_eq!(top.relatives.first_child, Some(first));
    assert_eq!(top.relatives.last_child, Some(first));
    assert_eq!(tree.get_node(first).unwrap().relatives.parent, Some(second));
}

#[test]
fn tree_usable_after_root_removed() {
    let mut tree = TreeBuilder::new().with_root(1).build();
    let root_id = tree.root_id().unwrap();
    assert_eq!(tree.remove(root_id, DropChildren), Some(1));
    assert!(tree.root_id().is_none());
    let new_root = tree.set_root(2);
    assert_eq!(tree.root_id(), Some(new_root));
    assert_eq!(*tree.root().unwrap().data(), 2);
    assert_ne!(new_root, root_id);
}

#[test]
fn prepend_puts_first() {
    let mut tree = TreeBuilder::new().with_root(0).build();
    let mut root = tree.root_mut().unwrap();
    root.append(2);
    root.prepend(1);
    let kids = values(tree.root().unwrap().children());
    assert_eq!(kids, vec![1, 2]);
}

#[test]
fn capacity_is_reserved() {
    let tree: Tree<i32> = TreeBuilder::new().with_capacity(7).build();
    assert!(tree.capacity() >= 7);
}

#[test]
fn scenario_pre_order() {
    let (tree, _) = scenario();
    let order = values(tree.root().unwrap().traverse_pre_order());
    assert_eq!(order, vec![0, 1, 2, 3, 4, 5, 6, 7, 8, 9]);
}

#[test]
fn post_order_ends_with_the_root() {
    let (tree, ids) = scenario();
    let order = values(tree.root().unwrap().traverse_post_order());
    assert_eq!(order, vec![3, 4, 2, 1, 7, 6, 8, 5, 9, 0]);
    let sub = values(tree.get(ids[2]).unwrap().traverse_post_order());
    assert_eq!(sub, vec![7, 6, 8, 5]);
}

#[test]
fn pre_order_counts_the_subtree() {
    let (tree, ids) = scenario();
    assert_eq!(tree.root().unwrap().traverse_pre_order().len(), 10);
    assert_eq!(tree.get(ids[2]).unwrap().traverse_pre_order().len(), 4);
    assert_eq!(tree.get(ids[3]).unwrap().traverse_pre_order().len(), 1);
}

#[test]
fn small_traversals() {
    let mut tree = TreeBuilder::new().with_root(0i64).build();
    let root_id = tree.root().unwrap().node_id();
    let one_id = tree.get_mut(root_id).unwrap().append(1).node_id();
    tree.get_mut(one_id).unwrap().append(2);
    tree.get_mut(one_id).unwrap().append(3);
    tree.get_mut(root_id).unwrap().append(4);
    let root = tree.root().unwrap();
    let pre: Vec<i64> = root.traverse_pre_order().into_iter().map(|n| *n.data()).collect();
    let post: Vec<i64> = root.traverse_post_order().into_iter().map(|n| *n.data()).collect();
    let level: Vec<i64> = root.traverse_level_order().into_iter().map(|n| *n.data()).collect();
    assert_eq!(pre, vec![0, 1, 2, 3, 4]);
    assert_eq!(post, vec![2, 3, 1, 4, 0]);
    assert_eq!(level, vec![0, 1, 4, 2, 3]);
}

fn kid_values(tree: &Tree<i32>, id: NodeId) -> Vec<i32> {
    values(tree.get(id).unwrap().children())
}

fn three_kids() -> (Tree<i32>, NodeId, NodeId, NodeId, NodeId) {
    let mut tree = TreeBuilder::new().with_root(0).build();
    let root = tree.root_id().unwrap();
    let a = tree.root_mut().unwrap().append(1).node_id();
    let b = tree.root_mut().unwrap().append(2).node_id();
    let c = tree.root_mut().unwrap().append(3).node_id();
    (tree, root, a, b, c)
}

#[test]
fn swap_next_sibling_exchanges_neighbours() {
    let (mut tree, root, a, b, c) = three_kids();
    assert!(tree.get_mut(a).unwrap().swap_next_sibling());
    assert_eq!(kid_values(&tree, root), vec![2, 1, 3]);
    let r = tree.get_node(root).unwrap();
    assert_eq!(r.relatives.first_child, Some(b));
    assert_eq!(tree.get_node(b).unwrap().relatives.prev_sibling, None);
    assert_eq!(tree.get_node(c).unwrap().relatives.prev_sibling, Some(a));
    let rev: Vec<i32> = {
        let mut out = vec![];
        let mut cur = tree.get(root).unwrap().last_child();
        while let Some(n) = cur {
            out.push(*n.data());
            cur = n.prev_sibling();
        }
        out
    };
    assert_eq!(rev, vec![3, 1, 2]);
    assert!(!tree.get_mut(c).unwrap().swap_next_sibling());
    assert!(!tree.get_mut(root).unwrap().swap_next_sibling());
}

#[test]
fn swap_prev_sibling_exchanges_neighbours() {
    let (mut tree, root, a, _b, c) = three_kids();
    assert!(tree.get_mut(c).unwrap().swap_prev_sibling());
    assert_eq!(kid_values(&tree, root), vec![1, 3, 2]);
    assert_eq!(tree.get_node(root).unwrap().relatives.last_child.map(|id| *tree.get(id).unwrap().data()), Some(2));
    assert!(!tree.get_mut(a).unwrap().swap_prev_sibling());
}

#[test]
fn make_last_and_first_sibling() {
    let (mut tree, root, a, b, c) = three_kids();
    assert!(tree.get_mut(a).unwrap().make_last_sibling());
    assert_eq!(kid_values(&tree, root), vec![2, 3, 1]);
    assert!(!tree.get_mut(a).unwrap().make_last_sibling());
    assert!(tree.get_mut(a).unwrap().make_first_sibling());
    assert_eq!(kid_values(&tree, root), vec![1, 2, 3]);
    assert!(!tree.get_mut(a).unwrap().make_first_sibling());
    assert!(tree.get_mut(b).unwrap().make_first_sibling());
    assert_eq!(kid_values(&tree, root), vec![2, 1, 3]);
    assert!(tree.get_mut(b).unwrap().make_last_sibling());
    assert_eq!(kid_values(&tree, root), vec![1, 3, 2]);
    let r = tree.get_node(root).unwrap();
    assert_eq!(r.relatives.first_child, Some(a));
    assert_eq!(r.relatives.last_child, Some(b));
    assert_eq!(tree.get_node(c).unwrap().relatives.next_sibling, Some(b));
    assert!(!tree.get_mut(root).unwrap().make_first_sibling());
}

#[test]
fn scenario_shape_through_children() {
    let (tree, _) = scenario();
    let root = tree.root().unwrap();
    let top = values(root.children());
    assert_eq!(top, vec![1, 5, 9]);
    let five = root.children().into_iter().nth(1).unwrap();
    assert_eq!(values(five.children()), vec![6, 8]);
    assert_eq!(values(five.children()[0].children()), vec![7]);
}

#[test]
fn orphans_can_be_swapped() {
    let mut tree = TreeBuilder::new().with_root(0).build();
    let mid = tree.root_mut().unwrap().append(1).node_id();
    let a = tree.get_mut(mid).unwrap().append(2).node_id();
    let b = tree.get_mut(mid).unwrap().append(3).node_id();
    let c = tree.get_mut(mid).unwrap().append(4).node_id();
    assert_eq!(tree.remove(mid, OrphanChildren), Some(1));
    assert!(tree.get_mut(a).unwrap().swap_next_sibling());
    assert_eq!(tree.get_node(b).unwrap().relatives.prev_sibling, None);
    assert_eq!(tree.get_node(b).unwrap().relatives.next_sibling, Some(a));
    assert_eq!(tree.get_node(a).unwrap().relatives.prev_sibling, Some(b));
    assert_eq!(tree.get_node(a).unwrap().relatives.next_sibling, Some(c));
    assert_eq!(tree.get_node(c).unwrap().relatives.prev_sibling, Some(a));
    assert!(tree.get_mut(c).unwrap().swap_prev_sibling());
    assert_eq!(tree.get_node(c).unwrap().relatives.prev_sibling, Some(b));
    assert_eq!(tree.get_node(a).unwrap().relatives.prev_sibling, Some(c));
    assert_eq!(tree.get_node(a).unwrap().relatives.next_sibling, None);
    assert_eq!(tree.get_node(c).unwrap().relatives.next_sibling, Some(a));
    assert!(!tree.get_mut(b).unwrap().swap_prev_sibling());
    assert!(!tree.get_mut(a).unwrap().swap_next_sibling());
    assert!(!tree.get_mut(b).unwrap().make_last_sibling());
}
