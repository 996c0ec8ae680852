use sakura::InsertBehavior::{AsRoot, UnderNode};
use sakura::RemoveBehavior::{DropChildren, OrphanChildren};
use sakura::{Node, NodeId, Tree};

fn sample() -> (Tree<i32>, Vec<NodeId>) {
    let mut tree = Tree::new();
    let n0 = tree.insert(Node::new(0), AsRoot).unwrap();
    let n1 = tree.insert(Node::new(1), UnderNode(&n0)).unwrap();
    let n2 = tree.insert(Node::new(2), UnderNode(&n0)).unwrap();
    let n3 = tree.insert(Node::new(3), UnderNode(&n1)).unwrap();
    (tree, vec![n0, n1, n2, n3])
}

fn node(data: i32, parent: Option<usize>, children: &[usize]) -> Option<Node<i32>> {
    let mut n = Node::new(data);
    n.set_parent(parent.map(NodeId::new));
    n.set_children(children.iter().map(|c| NodeId::new(*c)).collect());
    Some(n)
}

#[test]
fn a_tree_taken_apart_and_put_together_is_the_same_tree() {
    let (mut tree, ids) = sample();
    tree.remove_node(ids[3], DropChildren).unwrap();
    let (copy, _) = sample();
    let mut copy = copy;
    copy.remove_node(ids[3], DropChildren).unwrap();

    let (root, nodes, free) = tree.into_parts();
    assert_eq!(root, Some(ids[0]));
    assert_eq!(nodes.len(), 4);
    assert!(nodes[3].is_none());
    assert_eq!(free, vec![ids[3]]);

    let again = Tree::from_parts(root, nodes, free).unwrap();
    assert_eq!(again, copy);
    assert_eq!(again.root_node_id(), Some(&ids[0]));
    assert_eq!(again.free_ids(), &vec![ids[3]]);
    assert_eq!(again.get(&ids[1]).unwrap().parent(), Some(&ids[0]));
    assert_eq!(again.get(&ids[0]).unwrap().children(), &vec![ids[1], ids[2]]);
    assert!(again.is_well_formed());
}

#[test]
fn trees_made_by_the_operations_are_well_formed() {
    let (mut tree, ids) = sample();
    assert!(tree.is_well_formed());
    tree.remove_node(ids[1], OrphanChildren).unwrap();
    assert!(tree.is_well_formed());
    tree.insert(Node::new(9), AsRoot).unwrap();
    assert!(tree.is_well_formed());
    assert!(Tree::<i32>::new().is_well_formed());
}

#[test]
fn taking_a_node_without_unlinking_it_breaks_the_invariant() {
    let (mut tree, ids) = sample();
    tree.take_node(ids[3]);
    assert!(!tree.is_well_formed());
}

#[test]
fn well_formed_parts_are_accepted() {
    let nodes = vec![node(0, None, &[2, 1]), node(1, Some(0), &[]), node(2, Some(0), &[]), None];
    let tree = Tree::from_parts(Some(NodeId::new(0)), nodes, vec![NodeId::new(3)]).unwrap();
    assert_eq!(tree.height(), 2);
    assert_eq!(tree.live_count(), 3);
    // A forest with no root is well formed too.
    let nodes = vec![node(0, None, &[]), node(1, None, &[])];
    assert!(Tree::from_parts(None, nodes, vec![]).is_some());
}

#[test]
fn a_cycle_is_refused() {
    let nodes = vec![node(0, Some(1), &[1]), node(1, Some(0), &[0])];
    assert!(Tree::from_parts(None, nodes, vec![]).is_none());
    let nodes = vec![node(0, Some(0), &[0])];
    assert!(Tree::from_parts(None, nodes, vec![]).is_none());
}

#[test]
fn links_that_do_not_agree_are_refused() {
    // The child does not name its parent.
    let nodes = vec![node(0, None, &[1]), node(1, None, &[])];
    assert!(Tree::from_parts(Some(NodeId::new(0)), nodes, vec![]).is_none());
    // The parent does not list its child.
    let nodes = vec![node(0, None, &[]), node(1, Some(0), &[])];
    assert!(Tree::from_parts(Some(NodeId::new(0)), nodes, vec![]).is_none());
    // A child is listed twice.
    let nodes = vec![node(0, None, &[1, 1]), node(1, Some(0), &[])];
    assert!(Tree::from_parts(Some(NodeId::new(0)), nodes, vec![]).is_none());
    // A child is listed that is not there.
    let nodes = vec![node(0, None, &[1]), None];
    assert!(Tree::from_parts(Some(NodeId::new(0)), nodes, vec![NodeId::new(1)]).is_none());
    let nodes = vec![node(0, None, &[5])];
    assert!(Tree::from_parts(Some(NodeId::new(0)), nodes, vec![]).is_none());
}

#[test]
fn a_root_that_has_a_parent_or_is_not_there_is_refused() {
    let nodes = vec![node(0, None, &[1]), node(1, Some(0), &[])];
    assert!(Tree::from_parts(Some(NodeId::new(1)), nodes, vec![]).is_none());
    let nodes = vec![node(0, None, &[]), None];
    assert!(Tree::from_parts(Some(NodeId::new(1)), nodes, vec![NodeId::new(1)]).is_none());
    let nodes = vec![node(0, None, &[])];
    assert!(Tree::from_parts(Some(NodeId::new(3)), nodes, vec![]).is_none());
}

#[test]
fn a_free_list_that_is_not_exact_is_refused() {
    // A vacant slot is missing from the list.
    let nodes = vec![node(0, None, &[]), None];
    assert!(Tree::from_parts(Some(NodeId::new(0)), nodes, vec![]).is_none());
    // An occupied slot is on the list.
    let nodes = vec![node(0, None, &[])];
    assert!(Tree::from_parts(Some(NodeId::new(0)), nodes, vec![NodeId::new(0)]).is_none());
    // A slot is on the list twice.
    let nodes = vec![node(0, None, &[]), None];
    let free = vec![NodeId::new(1), NodeId::new(1)];
    assert!(Tree::from_parts(Some(NodeId::new(0)), nodes, free).is_none());
    // A slot that does not exist is on the list.
    let nodes = vec![node(0, None, &[])];
    assert!(Tree::from_parts(Some(NodeId::new(0)), nodes, vec![NodeId::new(4)]).is_none());
}
