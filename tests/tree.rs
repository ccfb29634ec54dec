use slab_tree::RemoveBehavior::{DropChildren, OrphanChildren};
use slab_tree::Tree;
use slab_tree::TreeBuilder;

#[test]
fn node_id() {
    let mut tree = Tree::new();
    tree.set_root(1);
    let root_id = tree.root_id().expect("root doesn't exist?");

    let root_mut = tree.get_mut(root_id).unwrap();
    assert_eq!(root_id, root_mut.node_id());
}

#[test]
fn node_mut_data() {
    let mut tree = Tree::new();
    tree.set_root(1);
    let root_id = tree.root_id().expect("root doesn't exist?");

    let mut root_mut = tree.get_mut(root_id).unwrap();
    assert_eq!(root_mut.data(), &mut 1);

    *root_mut.data() = 2;
    assert_eq!(root_mut.data(), &mut 2);
}

#[test]
fn node_mut_parent() {
    let mut tree = Tree::new();
    tree.set_root(1);
    let root_id = tree.root_id().expect("root doesn't exist?");
    let mut root_mut = tree.get_mut(root_id).unwrap();
    assert!(root_mut.parent().is_none());
}

#[test]
fn node_mut_prev_sibling() {
    let mut tree = Tree::new();
    tree.set_root(1);
    let root_id = tree.root_id().expect("root doesn't exist?");
    let mut root_mut = tree.get_mut(root_id).unwrap();
    assert!(root_mut.prev_sibling().is_none());
}

#[test]
fn node_mut_next_sibling() {
    let mut tree = Tree::new();
    tree.set_root(1);
    let root_id = tree.root_id().expect("root doesn't exist?");
    let mut root_mut = tree.get_mut(root_id).unwrap();
    assert!(root_mut.next_sibling().is_none());
}

#[test]
fn node_mut_first_child() {
    let mut tree = Tree::new();
    tree.set_root(1);
    let root_id = tree.root_id().expect("root doesn't exist?");
    let mut root_mut = tree.get_mut(root_id).unwrap();
    assert!(root_mut.first_child().is_none());
}

#[test]
fn node_mut_last_child() {
    let mut tree = Tree::new();
    tree.set_root(1);
    let root_id = tree.root_id().expect("root doesn't exist?");
    let mut root_mut = tree.get_mut(root_id).unwrap();
    assert!(root_mut.last_child().is_none());
}

#[test]
fn append_no_children_present() {
    let mut tree = Tree::new();
    tree.set_root(1);
    let root_id = tree.root_id().expect("root doesn't exist?");

    let mut root_mut = tree.get_mut(root_id).unwrap();
    let new_id = root_mut.append(2).node_id();

    let root_node = tree.get_node(root_id);
    assert!(root_node.is_some());

    let root_node = root_node.unwrap();
    assert_eq!(root_node.relatives.first_child, Some(new_id));
    assert_eq!(root_node.relatives.last_child, Some(new_id));

    let new_node = tree.get_node(new_id);
    assert!(new_node.is_some());

    let new_node = new_node.unwrap();
    assert_eq!(new_node.relatives.parent, Some(root_id));
    assert_eq!(new_node.relatives.prev_sibling, None);
    assert_eq!(new_node.relatives.next_sibling, None);
    assert_eq!(new_node.relatives.first_child, None);
    assert_eq!(new_node.relatives.last_child, None);

    let root = tree.get(root_id).unwrap();
    assert_eq!(root.data(), &1);

    let new_node = root.first_child().unwrap();
    assert_eq!(new_node.data(), &2);
}

#[test]
fn append_single_child_present() {
    let mut tree = Tree::new();
    tree.set_root(1);
    let root_id = tree.root_id().expect("root doesn't exist?");

    let mut root_mut = tree.get_mut(root_id).unwrap();
    let new_id = root_mut.append(2).node_id();
    let new_id_2 = root_mut.append(3).node_id();

    let root_node = tree.get_node(root_id);
    assert!(root_node.is_some());

    let root_node = root_node.unwrap();
    assert_eq!(root_node.relatives.first_child, Some(new_id));
    assert_eq!(root_node.relatives.last_child, Some(new_id_2));

    let new_node = tree.get_node(new_id);
    assert!(new_node.is_some());

    let new_node = new_node.unwrap();
    assert_eq!(new_node.relatives.parent, Some(root_id));
    assert_eq!(new_node.relatives.prev_sibling, None);
    assert_eq!(new_node.relatives.next_sibling, Some(new_id_2));
    assert_eq!(new_node.relatives.first_child, None);
    assert_eq!(new_node.relatives.last_child, None);

    let new_node_2 = tree.get_node(new_id_2);
    assert!(new_node_2.is_some());

    let new_node_2 = new_node_2.unwrap();
    assert_eq!(new_node_2.relatives.parent, Some(root_id));
    assert_eq!(new_node_2.relatives.prev_sibling, Some(new_id));
    assert_eq!(new_node_2.relatives.next_sibling, None);
    assert_eq!(new_node_2.relatives.first_child, None);
    assert_eq!(new_node_2.relatives.last_child, None);

    let root = tree.get(root_id).unwrap();
    assert_eq!(root.data(), &1);

    let new_node = root.first_child().unwrap();
    assert_eq!(new_node.data(), &2);

    let new_node_2 = root.last_child().unwrap();
    assert_eq!(new_node_2.data(), &3);
}

#[test]
fn append_two_children_present() {
    let mut tree = Tree::new();
    tree.set_root(1);
    let root_id = tree.root_id().expect("root doesn't exist?");

    let mut root_mut = tree.get_mut(root_id).unwrap();
    let new_id = root_mut.append(2).node_id();
    let new_id_2 = root_mut.append(3).node_id();
    let new_id_3 = root_mut.append(4).node_id();

    let root_node = tree.get_node(root_id);
    assert!(root_node.is_some());

    let root_node = root_node.unwrap();
    assert_eq!(root_node.relatives.first_child, Some(new_id));
    assert_eq!(root_node.relatives.last_child, Some(new_id_3));

    let new_node = tree.get_node(new_id);
    assert!(new_node.is_some());

    let new_node = new_node.unwrap();
    assert_eq!(new_node.relatives.parent, Some(root_id));
    assert_eq!(new_node.relatives.prev_sibling, None);
    assert_eq!(new_node.relatives.next_sibling, Some(new_id_2));
    assert_eq!(new_node.relatives.first_child, None);
    assert_eq!(new_node.relatives.last_child, None);

    let new_node_2 = tree.get_node(new_id_2);
    assert!(new_node_2.is_some());

    let new_node_2 = new_node_2.unwrap();
    assert_eq!(new_node_2.relatives.parent, Some(root_id));
    assert_eq!(new_node_2.relatives.prev_sibling, Some(new_id));
    assert_eq!(new_node_2.relatives.next_sibling, Some(new_id_3));
    assert_eq!(new_node_2.relatives.first_child, None);
    assert_eq!(new_node_2.relatives.last_child, None);

    let new_node_3 = tree.get_node(new_id_3);
    assert!(new_node_3.is_some());

    let new_node_3 = new_node_3.unwrap();
    assert_eq!(new_node_3.relatives.parent, Some(root_id));
    assert_eq!(new_node_3.relatives.prev_sibling, Some(new_id_2));
    assert_eq!(new_node_3.relatives.next_sibling, None);
    assert_eq!(new_node_3.relatives.first_child, None);
    assert_eq!(new_node_3.relatives.last_child, None);

    let root = tree.get(root_id).unwrap();
    assert_eq!(root.data(), &1);

    // left to right
    let new_node = root.first_child().unwrap();
    let new_node_2 = new_node.next_sibling().unwrap();
    let new_node_3 = new_node_2.next_sibling().unwrap();
    assert_eq!(new_node.data(), &2);
    assert_eq!(new_node_2.data(), &3);
    assert_eq!(new_node_3.data(), &4);

    // right to left
    let new_node_3 = root.last_child().unwrap();
    let new_node_2 = new_node_3.prev_sibling().unwrap();
    let new_node = new_node_2.prev_sibling().unwrap();
    assert_eq!(new_node_3.data(), &4);
    assert_eq!(new_node_2.data(), &3);
    assert_eq!(new_node.data(), &2);
}

#[test]
fn prepend_no_children_present() {
    let mut tree = Tree::new();
    tree.set_root(1);
    let root_id = tree.root_id().expect("root doesn't exist?");

    let mut root_mut = tree.get_mut(root_id).unwrap();
    let new_id = root_mut.prepend(2).node_id();

    let root_node = tree.get_node(root_id);
    assert!(root_node.is_some());

    let root_node = root_node.unwrap();
    assert_eq!(root_node.relatives.first_child, Some(new_id));
    assert_eq!(root_node.relatives.last_child, Some(new_id));

    let new_node = tree.get_node(new_id);
    assert!(new_node.is_some());

    let new_node = new_node.unwrap();
    assert_eq!(new_node.relatives.parent, Some(root_id));
    assert_eq!(new_node.relatives.prev_sibling, None);
    assert_eq!(new_node.relatives.next_sibling, None);
    assert_eq!(new_node.relatives.first_child, None);
    assert_eq!(new_node.relatives.last_child, None);

    let root = tree.get(root_id).unwrap();
    assert_eq!(root.data(), &1);

    let new_node = root.first_child().unwrap();
    assert_eq!(new_node.data(), &2);
}

#[test]
fn prepend_single_child_present() {
    let mut tree = Tree::new();
    tree.set_root(1);
    let root_id = tree.root_id().expect("root doesn't exist?");

    let mut root_mut = tree.get_mut(root_id).unwrap();
    let new_id = root_mut.prepend(2).node_id();
    let new_id_2 = root_mut.prepend(3).node_id();

    let root_node = tree.get_node(root_id);
    assert!(root_node.is_some());

    let root_node = root_node.unwrap();
    assert_eq!(root_node.relatives.first_child, Some(new_id_2));
    assert_eq!(root_node.relatives.last_child, Some(new_id));

    let new_node = tree.get_node(new_id);
    assert!(new_node.is_some());

    let new_node = new_node.unwrap();
    assert_eq!(new_node.relatives.parent, Some(root_id));
    assert_eq!(new_node.relatives.prev_sibling, Some(new_id_2));
    assert_eq!(new_node.relatives.next_sibling, None);
    assert_eq!(new_node.relatives.first_child, None);
    assert_eq!(new_node.relatives.last_child, None);

    let new_node_2 = tree.get_node(new_id_2);
    assert!(new_node_2.is_some());

    let new_node_2 = new_node_2.unwrap();
    assert_eq!(new_node_2.relatives.parent, Some(root_id));
    assert_eq!(new_node_2.relatives.prev_sibling, None);
    assert_eq!(new_node_2.relatives.next_sibling, Some(new_id));
    assert_eq!(new_node_2.relatives.first_child, None);
    assert_eq!(new_node_2.relatives.last_child, None);

    let root = tree.get(root_id).unwrap();
    assert_eq!(root.data(), &1);

    let new_node = root.first_child().unwrap();
    assert_eq!(new_node.data(), &3);

    let new_node_2 = root.last_child().unwrap();
    assert_eq!(new_node_2.data(), &2);
}

#[test]
fn prepend_two_children_present() {
    let mut tree = Tree::new();
    tree.set_root(1);
    let root_id = tree.root_id().expect("root doesn't exist?");

    let mut root_mut = tree.get_mut(root_id).unwrap();
    let new_id = root_mut.prepend(2).node_id();
    let new_id_2 = root_mut.prepend(3).node_id();
    let new_id_3 = root_mut.prepend(4).node_id();

    let root_node = tree.get_node(root_id);
    assert!(root_node.is_some());

    let root_node = root_node.unwrap();
    assert_eq!(root_node.relatives.first_child, Some(new_id_3));
    assert_eq!(root_node.relatives.last_child, Some(new_id));

    let new_node = tree.get_node(new_id);
    assert!(new_node.is_some());

    let new_node = new_node.unwrap();
    assert_eq!(new_node.relatives.parent, Some(root_id));
    assert_eq!(new_node.relatives.prev_sibling, Some(new_id_2));
    assert_eq!(new_node.relatives.next_sibling, None);
    assert_eq!(new_node.relatives.first_child, None);
    assert_eq!(new_node.relatives.last_child, None);

    let new_node_2 = tree.get_node(new_id_2);
    assert!(new_node_2.is_some());

    let new_node_2 = new_node_2.unwrap();
    assert_eq!(new_node_2.relatives.parent, Some(root_id));
    assert_eq!(new_node_2.relatives.prev_sibling, Some(new_id_3));
    assert_eq!(new_node_2.relatives.next_sibling, Some(new_id));
    assert_eq!(new_node_2.relatives.first_child, None);
    assert_eq!(new_node_2.relatives.last_child, None);

    let new_node_3 = tree.get_node(new_id_3);
    assert!(new_node_3.is_some());

    let new_node_3 = new_node_3.unwrap();
    assert_eq!(new_node_3.relatives.parent, Some(root_id));
    assert_eq!(new_node_3.relatives.prev_sibling, None);
    assert_eq!(new_node_3.relatives.next_sibling, Some(new_id_2));
    assert_eq!(new_node_3.relatives.first_child, None);
    assert_eq!(new_node_3.relatives.last_child, None);

    let root = tree.get(root_id).unwrap();
    assert_eq!(root.data(), &1);

    // left to right
    let new_node_3 = root.first_child().unwrap();
    let new_node_2 = new_node_3.next_sibling().unwrap();
    let new_node = new_node_2.next_sibling().unwrap();
    assert_eq!(new_node_3.data(), &4);
    assert_eq!(new_node_2.data(), &3);
    assert_eq!(new_node.data(), &2);

    // right to left
    let new_node = root.last_child().unwrap();
    let new_node_2 = new_node.prev_sibling().unwrap();
    let new_node_3 = new_node_2.prev_sibling().unwrap();
    assert_eq!(new_node.data(), &2);
    assert_eq!(new_node_2.data(), &3);
    assert_eq!(new_node_3.data(), &4);
}

#[test]
fn remove_first_no_children_present() {
    let mut tree = Tree::new();
    tree.set_root(1);
    let root_id = tree.root_id().expect("root doesn't exist?");

    let mut root_mut = tree.get_mut(root_id).unwrap();
    let first_child_data = root_mut.remove_first(DropChildren);
    assert_eq!(first_child_data, None);

    let root_node = tree.get_node(root_id);
    assert!(root_node.is_some());

    let root_node = root_node.unwrap();
    assert_eq!(root_node.relatives.first_child, None);
    assert_eq!(root_node.relatives.last_child, None);
}

#[test]
fn remove_first_drop_single_child_present() {
    let mut tree = Tree::new();
    tree.set_root(1);
    let root_id = tree.root_id().expect("root doesn't exist?");

    let mut root_mut = tree.get_mut(root_id).unwrap();
    let two_id = root_mut.append(2).node_id();

    let removed = root_mut.remove_first(DropChildren);
    assert_eq!(removed, Some(2));

    let root_node = tree.get_node(root_id);
    assert!(root_node.is_some());

    let root_node = root_node.unwrap();
    assert_eq!(root_node.relatives.first_child, None);
    assert_eq!(root_node.relatives.last_child, None);

    let two = tree.get_node(two_id);
    assert!(two.is_none());
}

#[test]
fn remove_first_drop_two_children_present() {
    let mut tree = Tree::new();
    tree.set_root(1);
    let root_id = tree.root_id().expect("root doesn't exist?");

    let mut root_mut = tree.get_mut(root_id).unwrap();
    root_mut.append(2);
    let three_id = root_mut.append(3).node_id();

    let removed = root_mut.remove_first(DropChildren);
    assert_eq!(removed, Some(2));

    let root_node = tree.get_node(root_id);
    assert!(root_node.is_some());

    let root_node = root_node.unwrap();
    assert_eq!(root_node.relatives.first_child, Some(three_id));
    assert_eq!(root_node.relatives.last_child, Some(three_id));

    let three = tree.get_node(three_id);
    assert!(three.is_some());

    let three = three.unwrap();
    assert_eq!(three.relatives.parent, Some(root_id));
    assert_eq!(three.relatives.prev_sibling, None);
    assert_eq!(three.relatives.next_sibling, None);
    assert_eq!(three.relatives.first_child, None);
    assert_eq!(three.relatives.last_child, None);
}

#[test]
fn remove_first_drop_three_children_present() {
    let mut tree = Tree::new();
    tree.set_root(1);
    let root_id = tree.root_id().expect("root doesn't exist?");

    let mut root_mut = tree.get_mut(root_id).unwrap();
    root_mut.append(2);
    let three_id = root_mut.append(3).node_id();
    let four_id = root_mut.append(4).node_id();

    let removed = root_mut.remove_first(DropChildren);
    assert_eq!(removed, Some(2));

    let root_node = tree.get_node(root_id);
    assert!(root_node.is_some());

    let root_node = root_node.unwrap();
    assert_eq!(root_node.relatives.first_child, Some(three_id));
    assert_eq!(root_node.relatives.last_child, Some(four_id));

    let three = tree.get_node(three_id);
    assert!(three.is_some());

    let three = three.unwrap();
    assert_eq!(three.relatives.parent, Some(root_id));
    assert_eq!(three.relatives.prev_sibling, None);
    assert_eq!(three.relatives.next_sibling, Some(four_id));
    assert_eq!(three.relatives.first_child, None);
    assert_eq!(three.relatives.last_child, None);

    let four = tree.get_node(four_id);
    assert!(four.is_some());

    let four = four.unwrap();
    assert_eq!(four.relatives.parent, Some(root_id));
    assert_eq!(four.relatives.prev_sibling, Some(three_id));
    assert_eq!(four.relatives.next_sibling, None);
    assert_eq!(four.relatives.first_child, None);
    assert_eq!(four.relatives.last_child, None);
}

#[test]
fn remove_first_drop_grandchild_present() {
    let mut tree = Tree::new();
    tree.set_root(1);
    let root_id = tree.root_id().expect("root doesn't exist?");

    let mut root_mut = tree.get_mut(root_id).unwrap();
    let three_id = root_mut.append(2).append(3).node_id();

    let removed = root_mut.remove_first(DropChildren);
    assert_eq!(removed, Some(2));

    let root_node = tree.get_node(root_id);
    assert!(root_node.is_some());

    let root_node = root_node.unwrap();
    assert_eq!(root_node.relatives.first_child, None);
    assert_eq!(root_node.relatives.last_child, None);

    let three = tree.get_node(three_id);
    assert!(three.is_none());
}

#[test]
fn remove_first_orphan_grandchild_present() {
    let mut tree = Tree::new();
    tree.set_root(1);
    let root_id = tree.root_id().expect("root doesn't exist?");

    let mut root_mut = tree.get_mut(root_id).unwrap();
    let three_id = root_mut.append(2).append(3).node_id();

    let removed = root_mut.remove_first(OrphanChildren);
    assert_eq!(removed, Some(2));

    let root_node = tree.get_node(root_id);
    assert!(root_node.is_some());

    let root_node = root_node.unwrap();
    assert_eq!(root_node.relatives.first_child, None);
    assert_eq!(root_node.relatives.last_child, None);

    let three = tree.get_node(three_id);
    assert!(three.is_some());

    let three = three.unwrap();
    assert_eq!(three.relatives.parent, None);
}

#[test]
fn remove_last_no_children_present() {
    let mut tree = Tree::new();
    tree.set_root(1);
    let root_id = tree.root_id().expect("root doesn't exist?");

    let mut root_mut = tree.get_mut(root_id).unwrap();
    let removed = root_mut.remove_last(DropChildren);
    assert_eq!(removed, None);

    let root_node = tree.get_node(root_id);
    assert!(root_node.is_some());

    let root_node = root_node.unwrap();
    assert_eq!(root_node.relatives.first_child, None);
    assert_eq!(root_node.relatives.last_child, None);
}

#[test]
fn remove_last_single_child_present() {
    let mut tree = Tree::new();
    tree.set_root(1);
    let root_id = tree.root_id().expect("root doesn't exist?");

    let mut root_mut = tree.get_mut(root_id).unwrap();
    root_mut.append(2);
    let removed = root_mut.remove_last(DropChildren);
    assert_eq!(removed, Some(2));

    let root_node = tree.get_node(root_id);
    assert!(root_node.is_some());

    let root_node = root_node.unwrap();
    assert_eq!(root_node.relatives.first_child, None);
    assert_eq!(root_node.relatives.last_child, None);
}

#[test]
fn remove_last_two_children_present() {
    let mut tree = Tree::new();
    tree.set_root(1);
    let root_id = tree.root_id().expect("root doesn't exist?");

    let mut root_mut = tree.get_mut(root_id).unwrap();
    let two_id = root_mut.append(2).node_id();
    root_mut.append(3);

    let removed = root_mut.remove_last(DropChildren);
    assert_eq!(removed, Some(3));

    let root_node = tree.get_node(root_id);
    assert!(root_node.is_some());

    let root_node = root_node.unwrap();
    assert_eq!(root_node.relatives.first_child, Some(two_id));
    assert_eq!(root_node.relatives.last_child, Some(two_id));

    let two = tree.get_node(two_id);
    assert!(two.is_some());

    let two = two.unwrap();
    assert_eq!(two.relatives.parent, Some(root_id));
    assert_eq!(two.relatives.prev_sibling, None);
    assert_eq!(two.relatives.next_sibling, None);
    assert_eq!(two.relatives.first_child, None);
    assert_eq!(two.relatives.last_child, None);
}

#[test]
fn remove_last_three_children_present() {
    let mut tree = Tree::new();
    tree.set_root(1);
    let root_id = tree.root_id().expect("root doesn't exist?");

    let mut root_mut = tree.get_mut(root_id).unwrap();
    let two_id = root_mut.append(2).node_id();
    let three_id = root_mut.append(3).node_id();
    root_mut.append(4);

    let removed = root_mut.remove_last(DropChildren);
    assert_eq!(removed, Some(4));

    let root_node = tree.get_node(root_id);
    assert!(root_node.is_some());

    let root_node = root_node.unwrap();
    assert_eq!(root_node.relatives.first_child, Some(two_id));
    assert_eq!(root_node.relatives.last_child, Some(three_id));

    let two = tree.get_node(two_id);
    assert!(two.is_some());

    let two = two.unwrap();
    assert_eq!(two.relatives.parent, Some(root_id));
    assert_eq!(two.relatives.prev_sibling, None);
    assert_eq!(two.relatives.next_sibling, Some(three_id));
    assert_eq!(two.relatives.first_child, None);
    assert_eq!(two.relatives.last_child, None);

    let three = tree.get_node(three_id);
    assert!(three.is_some());

    let three = three.unwrap();
    assert_eq!(three.relatives.parent, Some(root_id));
    assert_eq!(three.relatives.prev_sibling, Some(two_id));
    assert_eq!(three.relatives.next_sibling, None);
    assert_eq!(three.relatives.first_child, None);
    assert_eq!(three.relatives.last_child, None);
}

#[test]
fn remove_last_orphan_grandchild_present() {
    let mut tree = Tree::new();
    tree.set_root(1);
    let root_id = tree.root_id().expect("root doesn't exist?");

    let mut root_mut = tree.get_mut(root_id).unwrap();
    let three_id = root_mut.append(2).append(3).node_id();

    let removed = root_mut.remove_last(OrphanChildren);
    assert_eq!(removed, Some(2));

    let root_node = tree.get_node(root_id);
    assert!(root_node.is_some());

    let root_node = root_node.unwrap();
    assert_eq!(root_node.relatives.first_child, None);
    assert_eq!(root_node.relatives.last_child, None);

    let three = tree.get_node(three_id);
    assert!(three.is_some());

    let three = three.unwrap();
    assert_eq!(three.relatives.parent, None);
}

#[test]
fn node_ref_data() {
    let mut tree = Tree::new();
    tree.set_root(1);
    let root_id = tree.root_id().expect("root doesn't exist?");
    let root_ref = tree.get(root_id).unwrap();
    assert_eq!(root_ref.data(), &1);
}

#[test]
fn node_ref_parent() {
    let mut tree = Tree::new();
    tree.set_root(1);
    let root_id = tree.root_id().expect("root doesn't exist?");
    let root_ref = tree.get(root_id).unwrap();
    assert!(root_ref.parent().is_none());
}

#[test]
fn node_ref_prev_sibling() {
    let mut tree = Tree::new();
    tree.set_root(1);
    let root_id = tree.root_id().expect("root doesn't exist?");
    let root_ref = tree.get(root_id).unwrap();
    assert!(root_ref.prev_sibling().is_none());
}

#[test]
fn node_ref_next_sibling() {
    let mut tree = Tree::new();
    tree.set_root(1);
    let root_id = tree.root_id().expect("root doesn't exist?");
    let root_ref = tree.get(root_id).unwrap();
    assert!(root_ref.next_sibling().is_none());
}

#[test]
fn node_ref_first_child() {
    let mut tree = Tree::new();
    tree.set_root(1);
    let root_id = tree.root_id().expect("root doesn't exist?");
    let root_ref = tree.get(root_id).unwrap();
    assert!(root_ref.first_child().is_none());
}

#[test]
fn node_ref_last_child() {
    let mut tree = Tree::new();
    tree.set_root(1);
    let root_id = tree.root_id().expect("root doesn't exist?");
    let root_ref = tree.get(root_id).unwrap();
    assert!(root_ref.last_child().is_none());
}

#[test]
fn ancestors() {
    let mut tree = Tree::new();
    tree.set_root(1);

    let mut root_mut = tree.root_mut().expect("root doesn't exist");
    let node_id = root_mut.append(2).append(3).append(4).append(5).node_id();

    let values = [5, 4, 3, 2];

    let bottom_node = tree.get(node_id).unwrap();
    for (i, node_ref) in bottom_node.ancestors().into_iter().enumerate() {
        assert_eq!(node_ref.data(), &values[i]);
    }
}

#[test]
fn children() {
    let mut tree = Tree::new();
    tree.set_root(1);

    let mut root = tree.root_mut().expect("root doesn't exist");
    root.append(2);
    root.append(3);
    root.append(4);
    root.append(5);

    let values = [2, 3, 4, 5];
    let root = root.as_ref();

    for (i, node_ref) in root.children().into_iter().enumerate() {
        assert_eq!(node_ref.data(), &values[i]);
    }
}

#[test]
fn tree_capacity() {
    let tree = TreeBuilder::new().with_root(1).with_capacity(5).build();
    assert_eq!(tree.capacity(), 5);
}

#[test]
fn tree_root_id() {
    let tree = TreeBuilder::new().with_root(1).build();
    let root_id = tree.root_id().expect("root doesn't exist?");
    let root = tree.get(root_id).unwrap();
    assert_eq!(root.data(), &1);
}

#[test]
fn remove_root_drop() {
    let mut tree = TreeBuilder::new().with_root(1).build();
    let root_id = tree.root_id().expect("root doesn't exist?");

    tree.remove(root_id, DropChildren);
    assert!(tree.root().is_none());
}

#[test]
fn remove_root_orphan() {
    let mut tree = TreeBuilder::new().with_root(1).build();
    let root_id = tree.root_id().expect("root doesn't exist?");

    tree.remove(root_id, OrphanChildren);
    assert!(tree.root().is_none());
}

#[test]
fn tree_root() {
    let tree = TreeBuilder::new().with_root(1).build();
    let root = tree.root().expect("root doesn't exist?");
    assert_eq!(root.data(), &1);
}

#[test]
fn tree_root_mut() {
    let mut tree = TreeBuilder::new().with_root(1).build();
    let mut root = tree.root_mut().expect("root doesn't exist?");

    assert_eq!(root.data(), &mut 1);

    *root.data() = 2;
    assert_eq!(root.data(), &mut 2);
}

#[test]
fn tree_get() {
    let tree = TreeBuilder::new().with_root(1).build();

    let root_id = tree.root_id().expect("root doesn't exist?");
    let root = tree.get(root_id);
    assert!(root.is_some());

    let root = root.unwrap();
    assert_eq!(root.data(), &1);
}

#[test]
fn tree_get_mut() {
    let mut tree = TreeBuilder::new().with_root(1).build();

    let root_id = tree.root_id().expect("root doesn't exist?");
    let root = tree.get_mut(root_id);
    assert!(root.is_some());

    let mut root = root.unwrap();
    assert_eq!(root.data(), &mut 1);

    *root.data() = 2;
    assert_eq!(root.data(), &mut 2);
}

#[test]
fn get_node() {
    let tree = TreeBuilder::new().with_root(1).build();

    let root_id = tree.root_id().expect("root doesn't exist?");
    let root = tree.get_node(root_id);
    assert!(root.is_some());

    let root = root.unwrap();
    assert_eq!(root.data, 1);
}

#[test]
fn remove_drop() {
    let mut tree = TreeBuilder::new().with_root(1).build();

    let two_id;
    let three_id;
    let four_id;
    let five_id;
    {
        let mut root = tree.root_mut().expect("root doesn't exist?");
        two_id = root.append(2).node_id();
        three_id = root.append(3).node_id();
        four_id = root.append(4).node_id();
    }
    {
        five_id = tree
            .get_mut(three_id)
            .expect("three doesn't exist?")
            .append(5)
            .node_id();
    }

    //        1
    //      / | \
    //     2  3  4
    //        |
    //        5

    tree.remove(three_id, DropChildren);

    let root = tree
        .get_node(tree.root_id().expect("tree doesn't exist?"))
        .unwrap();
    assert!(root.relatives.first_child.is_some());
    assert!(root.relatives.last_child.is_some());
    assert_eq!(root.relatives.first_child.unwrap(), two_id);
    assert_eq!(root.relatives.last_child.unwrap(), four_id);

    let two = tree.get_node(two_id);
    assert!(two.is_some());

    let two = two.unwrap();
    assert_eq!(two.relatives.next_sibling, Some(four_id));

    let four = tree.get_node(four_id);
    assert!(four.is_some());

    let four = four.unwrap();
    assert_eq!(four.relatives.prev_sibling, Some(two_id));

    let five = tree.get_node(five_id);
    assert!(five.is_none());
}

#[test]
fn address_dropped() {
    let mut tree = TreeBuilder::new().with_root(1).build();
    let two_id = tree.root_mut().expect("root doesn't exist").node_id();
    tree.remove(two_id, DropChildren);
    tree.remove(two_id, DropChildren);
}

#[test]
fn remove_orphan() {
    let mut tree = TreeBuilder::new().with_root(1).build();

    let two_id;
    let three_id;
    let four_id;
    let five_id;
    {
        let mut root = tree.root_mut().expect("root doesn't exist?");
        two_id = root.append(2).node_id();
        three_id = root.append(3).node_id();
        four_id = root.append(4).node_id();
    }
    {
        five_id = tree
            .get_mut(three_id)
            .expect("three doesn't exist?")
            .append(5)
            .node_id();
    }

    //        1
    //      / | \
    //     2  3  4
    //        |
    //        5

    tree.remove(three_id, OrphanChildren);

    let root = tree
        .get_node(tree.root_id().expect("tree doesn't exist?"))
        .unwrap();
    assert!(root.relatives.first_child.is_some());
    assert!(root.relatives.last_child.is_some());
    assert_eq!(root.relatives.first_child.unwrap(), two_id);
    assert_eq!(root.relatives.last_child.unwrap(), four_id);

    let two = tree.get_node(two_id);
    assert!(two.is_some());

    let two = two.unwrap();
    assert_eq!(two.relatives.next_sibling, Some(four_id));

    let four = tree.get_node(four_id);
    assert!(four.is_some());

    let four = four.unwrap();
    assert_eq!(four.relatives.prev_sibling, Some(two_id));

    let five = tree.get_node(five_id);
    assert!(five.is_some());

    let five = five.unwrap();
    assert_eq!(five.relatives.parent, None);
}

#[test]
fn get_node_mut() {
    let mut tree = TreeBuilder::new().with_root(1).build();

    let root_id = tree.root_id().expect("root doesn't exist?");
    assert!(tree.get_node(root_id).is_some());

    let root = tree.data_mut(root_id);
    assert_eq!(*root, 1);

    *root = 2;
    assert_eq!(*root, 2);
}
