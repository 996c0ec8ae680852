use sakura::{Node, NodeId};

#[test]
fn node_test_new() {
    let node = Node::new(10);
    assert_eq!(node.children().capacity(), 0);
}

#[test]
fn test_data() {
    let data = 0;
    let node = Node::new(data);

    assert_eq!(node.data(), &data);
}

#[test]
fn test_data_mut() {
    let mut data = 0;
    let mut node = Node::new(data);

    assert_eq!(node.data_mut(), &mut data);
}

#[test]
fn test_parent() {
    let mut node = Node::new(0);

    assert!(node.parent().is_none());

    let parent_id: NodeId = NodeId::new(100);

    node.set_parent(Some(parent_id.clone()));

    assert_eq!(node.parent().cloned(), Some(parent_id));
}

#[test]
fn test_children() {
    let mut node = Node::new(0);
    assert!(node.children().is_empty());

    let child_id: NodeId = NodeId::new(1);

    node.add_child(child_id.clone());

    assert_eq!(node.children().len(), 1);
    assert_eq!(node.children().first().unwrap(), &child_id);
}

#[test]
fn node_test_partial_eq() {
    let node1 = Node::new(32);
    let node2 = Node::new(32);
    let node3 = Node::new(64);

    assert_eq!(node1, node2);

    assert_ne!(node1, node3);
    assert_ne!(node2, node3);
}

#[test]
fn node_equality_ignores_links() {
    let mut linked = Node::new(7);
    linked.set_parent(Some(NodeId::new(3)));
    linked.add_child(NodeId::new(4));
    assert_eq!(linked, Node::new(7));
}

#[test]
fn node_replace_data_returns_previous() {
    let mut node = Node::new(10);
    let previous = node.replace_data(15);
    assert_eq!(previous, 10);
    assert_eq!(node.data(), &15);
    assert!(node.parent().is_none());
    assert!(node.children().is_empty());
}

#[test]
fn node_take_and_set_children() {
    let mut node = Node::new(0);
    node.add_child(NodeId::new(1));
    node.add_child(NodeId::new(2));
    let taken = node.take_children();
    assert_eq!(taken, vec![NodeId::new(1), NodeId::new(2)]);
    assert!(node.children().is_empty());
    node.set_children(vec![NodeId::new(2), NodeId::new(1)]);
    assert_eq!(node.children(), &vec![NodeId::new(2), NodeId::new(1)]);
    node.children_mut().push(NodeId::new(9));
    assert_eq!(node.children().len(), 3);
}

#[test]
fn node_id_index_round_trip() {
    assert_eq!(NodeId::new(0).index(), 0);
    assert_eq!(NodeId::new(41).index(), 41);
    assert!(NodeId::new(1) < NodeId::new(2));
    assert_eq!(NodeId::new(5), NodeId::new(5));
}
