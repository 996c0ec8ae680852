use sakura::{Node, Tree, TreeBuilder};

#[test]
fn tree_builder_test_new() {
    let tb: TreeBuilder<i32> = TreeBuilder::new();
    assert!(tb.root.is_none());
    assert_eq!(tb.node_capacity, 0);
    assert_eq!(tb.swap_capacity, 0);
}

#[test]
fn test_with_root() {
    let tb: TreeBuilder<i32> = TreeBuilder::new().with_root(Node::new(5));

    assert_eq!(tb.root.unwrap().data(), &5);
    assert_eq!(tb.node_capacity, 0);
    assert_eq!(tb.swap_capacity, 0);
}

#[test]
fn test_with_node_capacity() {
    let tb: TreeBuilder<i32> = TreeBuilder::new().with_node_capacity(10);

    assert!(tb.root.is_none());
    assert_eq!(tb.node_capacity, 10);
    assert_eq!(tb.swap_capacity, 0);
}

#[test]
fn test_with_swap_capacity() {
    let tb: TreeBuilder<i32> = TreeBuilder::new().with_swap_capacity(10);

    assert!(tb.root.is_none());
    assert_eq!(tb.node_capacity, 0);
    assert_eq!(tb.swap_capacity, 10);
}

#[test]
fn test_with_all_settings() {
    let tb: TreeBuilder<i32> = TreeBuilder::new()
        .with_root(Node::new(5))
        .with_node_capacity(10)
        .with_swap_capacity(3);

    assert_eq!(tb.root.unwrap().data(), &5);
    assert_eq!(tb.node_capacity, 10);
    assert_eq!(tb.swap_capacity, 3);
}

#[test]
fn test_build() {
    let tree = TreeBuilder::new()
        .with_root(Node::new(5))
        .with_node_capacity(10)
        .with_swap_capacity(3)
        .build();

    let root = tree.get(tree.root_node_id().unwrap()).unwrap();

    assert_eq!(root.data(), &5);
    assert_eq!(tree.capacity(), 10);
    assert_eq!(tree.swap_capacity(), 3);
}

#[test]
fn builder_default_is_new() {
    let tb: TreeBuilder<i32> = TreeBuilder::default();
    assert!(tb.root.is_none());
    assert_eq!(tb.node_capacity, 0);
    assert_eq!(tb.swap_capacity, 0);
    let tree: Tree<i32> = Tree::default();
    assert!(tree.root_node_id().is_none());
    assert_eq!(tree.slot_count(), 0);
}

#[test]
fn build_without_root_is_empty() {
    let tree: Tree<i32> = TreeBuilder::new().with_node_capacity(4).build();
    assert!(tree.root_node_id().is_none());
    assert_eq!(tree.slot_count(), 0);
    assert_eq!(tree.free_count(), 0);
    assert_eq!(tree.live_count(), 0);
    assert_eq!(tree.height(), 0);
    assert!(tree.capacity() >= 4);
}

#[test]
fn capacity_is_at_least_the_slot_count() {
    let mut tree: Tree<i32> = Tree::new();
    let root = tree.insert(Node::new(0), sakura::InsertBehavior::AsRoot).unwrap();
    for value in 1..20 {
        tree.insert(Node::new(value), sakura::InsertBehavior::UnderNode(&root)).unwrap();
    }
    assert_eq!(tree.slot_count(), 20);
    assert!(tree.capacity() >= tree.slot_count());
    assert!(tree.swap_capacity() >= tree.free_count());
}
