use slab_tree::Tree;
use slab_tree::TreeBuilder;

#[test]
fn with_root_and_capacity() {
    let tb = TreeBuilder::new().with_root(1).with_capacity(2);
    assert!(tb.root.is_some());
    assert_eq!(tb.root.unwrap(), 1);
    assert_eq!(tb.capacity.unwrap(), 2);
}

#[test]
fn build() {
    let tree = TreeBuilder::new().with_root(1).with_capacity(2).build();
    assert!(tree.root_id().is_some());
    assert_eq!(tree.capacity(), 2);
}

#[test]
fn mod_capacity() {
    let tree: Tree<i32> = Tree::new();
    assert_eq!(tree.capacity(), 0);

    let tree: Tree<i32> = TreeBuilder::new().with_capacity(5).build();
    assert_eq!(tree.capacity(), 5);
}

#[test]
fn mod_root_id() {
    let tree: Tree<i32> = Tree::new();
    assert!(tree.root_id().is_none());

    let tree = TreeBuilder::new().with_root(1).build();
    assert!(tree.root_id().is_some());
}

#[test]
fn mod_root() {
    let tree: Tree<i32> = Tree::new();
    assert!(tree.root().is_none());

    let tree = TreeBuilder::new().with_root(1).build();
    assert!(tree.root().is_some());
    assert_eq!(tree.root().unwrap().data(), &1);
}

#[test]
fn mod_root_mut() {
    let mut tree: Tree<i32> = Tree::new();
    assert!(tree.root_mut().is_none());

    let mut tree = TreeBuilder::new().with_root(1).build();
    assert!(tree.root().is_some());
    assert_eq!(tree.root_mut().unwrap().data(), &mut 1);

    *tree.root_mut().unwrap().data() = 2;
    assert_eq!(tree.root_mut().unwrap().data(), &mut 2);
}

#[test]
fn mod_get() {
    let tree = TreeBuilder::new().with_root(1).build();

    let root_id = tree.root_id();
    assert!(root_id.is_some());

    let root = tree.get(root_id.unwrap());
    assert!(root.is_some());

    let root = root.unwrap();
    assert_eq!(root.data(), &1);
}

#[test]
fn mod_get_mut() {
    let mut tree = TreeBuilder::new().with_root(1).build();

    let root_id = tree.root_id();
    assert!(root_id.is_some());

    let root = tree.get_mut(root_id.unwrap());
    assert!(root.is_some());

    let mut root = root.unwrap();
    assert_eq!(root.data(), &mut 1);

    *root.data() = 2;
    assert_eq!(root.data(), &mut 2);
}

#[test]
fn get_node_unchecked() {
    let tree = TreeBuilder::new().with_root(1).build();

    let root_id = tree.root_id();
    assert!(root_id.is_some());

    let root = tree.get_node(root_id.unwrap()).unwrap();

    assert_eq!(root.data, 1);
}

#[test]
fn builder_without_settings_makes_an_empty_tree() {
    let tree: Tree<i32> = TreeBuilder::default().build();
    assert!(tree.root_id().is_none());
    assert!(tree.root().is_none());
}

#[test]
fn get_node_unchecked_mut() {
    let mut tree = TreeBuilder::new().with_root(1).build();

    let root_id = tree.root_id();
    assert!(root_id.is_some());

    let root = tree.data_mut(root_id.unwrap());

    assert_eq!(*root, 1);

    *root = 2;
    assert_eq!(*root, 2);
}
