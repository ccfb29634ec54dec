use slab_tree::core_tree::CoreTree;
use slab_tree::NodeIdError;
use slab_tree::RemoveBehavior::DropChildren;
use slab_tree::TreeBuilder;

#[test]
fn core_tree_capacity() {
    let capacity = 5;
    let tree = CoreTree::<i32>::new(capacity);
    assert_eq!(tree.capacity(), capacity);
}

#[test]
fn core_tree_insert() {
    let mut tree = CoreTree::new(0);

    let id = tree.insert(1);
    let id2 = tree.insert(3);

    assert_eq!(tree.get(id).unwrap().data, 1);
    assert_eq!(tree.get(id2).unwrap().data, 3);
}

#[test]
fn core_tree_remove() {
    let mut tree = CoreTree::new(0);

    let id = tree.insert(1);
    assert_eq!(tree.get(id).unwrap().data, 1);

    let one = tree.remove(id);
    assert!(one.is_some());

    let one = one.unwrap();
    assert_eq!(one, 1);
}

#[test]
fn core_tree_get() {
    let mut tree = CoreTree::new(0);

    let id = tree.insert(1);
    let id2 = tree.insert(3);

    assert_eq!(tree.get(id).unwrap().data, 1);
    assert_eq!(tree.get(id2).unwrap().data, 3);
}

#[test]
fn core_tree_get_mut() {
    let mut tree = CoreTree::new(0);

    let id = tree.insert(1);
    let id2 = tree.insert(3);

    assert_eq!(tree.get_mut(id).unwrap().data, 1);
    assert_eq!(tree.get_mut(id2).unwrap().data, 3);
}

#[test]
fn get_with_bad_id() {
    let mut tree = CoreTree::new(0);
    let tree2: CoreTree<i32> = CoreTree::new(0);

    let mut id = tree.insert(1);
    id.tree_id = tree2.identifier(); // oops, wrong tree id.

    let result = tree.get(id);

    assert!(result.is_err());
}

#[test]
fn core_capacity() {
    let capacity = 5;
    let tree = CoreTree::<i32>::new(capacity);
    assert_eq!(tree.capacity(), capacity);
}

#[test]
fn core_insert() {
    let mut tree = CoreTree::new(0);

    let id = tree.insert(1);
    let id2 = tree.insert(3);

    assert_eq!(tree.get(id).unwrap().data, 1);
    assert_eq!(tree.get(id2).unwrap().data, 3);
}

#[test]
fn core_remove() {
    let mut tree = CoreTree::new(0);

    let id = tree.insert(1);
    assert_eq!(tree.get(id).unwrap().data, 1);

    let one = tree.remove(id);
    assert_eq!(one, Some(1));
}

#[test]
fn core_get() {
    let mut tree = CoreTree::new(0);

    let id = tree.insert(1);
    let id2 = tree.insert(3);

    assert_eq!(tree.get(id).unwrap().data, 1);
    assert_eq!(tree.get(id2).unwrap().data, 3);
}

#[test]
fn core_get_mut() {
    let mut tree = CoreTree::new(0);

    let id = tree.insert(1);
    let id2 = tree.insert(3);

    assert_eq!(tree.get_mut(id).unwrap().data, 1);
    assert_eq!(tree.get_mut(id2).unwrap().data, 3);
}

#[test]
fn foreign_id_is_wrong_tree() {
    let mut a = CoreTree::new(0);
    let mut b: CoreTree<i32> = CoreTree::new(0);
    let id = a.insert(7);
    assert_eq!(b.get(id).err(), Some(NodeIdError::WrongTree));
    assert_eq!(b.get_mut(id).err(), Some(NodeIdError::WrongTree));
    assert_eq!(b.remove(id), None);
    assert_eq!(a.get(id).unwrap().data, 7);
}

#[test]
fn removed_id_is_bad_node_id() {
    let mut tree = CoreTree::new(0);
    let id = tree.insert(7);
    assert_eq!(tree.remove(id), Some(7));
    assert_eq!(tree.get(id).err(), Some(NodeIdError::BadNodeId));
    assert_eq!(tree.remove(id), None);
}

#[test]
fn error_messages() {
    assert_eq!(
        NodeIdError::WrongTree.to_string(),
        "The given NodeId belongs to a different Tree."
    );
    assert_eq!(
        NodeIdError::BadNodeId.to_string(),
        "The given NodeId does not point to any data in the Tree. The Node in question has most likely been removed."
    );
}

#[test]
fn tree_resolve_tells_errors_apart() {
    let mut a = TreeBuilder::new().with_root(1).build();
    let b = TreeBuilder::new().with_root(2).build();
    let a_root = a.root_id().unwrap();
    let child = a.root_mut().unwrap().append(3).node_id();
    assert_eq!(*a.resolve(child).ok().unwrap().data(), 3);
    assert_eq!(b.resolve(a_root).err(), Some(NodeIdError::WrongTree));
    assert_eq!(a.remove(child, DropChildren), Some(3));
    assert_eq!(a.resolve(child).err(), Some(NodeIdError::BadNodeId));
    assert!(a.resolve(a_root).is_ok());
}
