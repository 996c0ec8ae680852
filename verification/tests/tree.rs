use sakura::InsertBehavior::{AsRoot, UnderNode};
use sakura::MoveBehavior::ToParent;
use sakura::Node;
use sakura::NodeId;
use sakura::RemoveBehavior::{DropChildren, LiftChildren, OrphanChildren};
use sakura::Tree;
use sakura::TreeBuilder;

#[test]
fn tree_test_new() {
    let tree: Tree<i32> = Tree::new();

    assert_eq!(tree.root_node_id(), None);
    assert_eq!(tree.slot_count(), 0);
    assert_eq!(tree.free_count(), 0);
}

#[test]
fn test_get() {
    let tree = TreeBuilder::new().with_root(Node::new(5)).build();

    let root_id = tree.root_node_id().cloned().unwrap();
    let root = tree.get(&root_id).unwrap();

    assert_eq!(root.data(), &5);
}

#[test]
fn test_get_mut() {
    let mut tree = TreeBuilder::new().with_root(Node::new(5)).build();

    let root_id = tree.root_node_id().cloned().unwrap();

    {
        let root = tree.get(&root_id).unwrap();
        assert_eq!(root.data(), &5);
    }

    {
        let root = tree.get_mut(&root_id).unwrap();
        *root.data_mut() = 6;
    }

    let root = tree.get(&root_id).unwrap();
    assert_eq!(root.data(), &6);
}

#[test]
fn test_set_root() {
    let a = 5;
    let b = 6;
    let node_a = Node::new(a);
    let node_b = Node::new(b);

    let mut tree = TreeBuilder::new().build();

    let node_a_id = tree.insert(node_a, AsRoot).unwrap();
    let root_id = tree.root_node_id().cloned().unwrap();
    assert_eq!(node_a_id, root_id);

    {
        let node_a_ref = tree.get(&node_a_id).unwrap();
        let root_ref = tree.get(&root_id).unwrap();
        assert_eq!(node_a_ref.data(), &a);
        assert_eq!(root_ref.data(), &a);
    }

    let node_b_id = tree.insert(node_b, AsRoot).unwrap();
    let root_id = tree.root_node_id().cloned().unwrap();
    assert_eq!(node_b_id, root_id);

    {
        let node_b_ref = tree.get(&node_b_id).unwrap();
        let root_ref = tree.get(&root_id).unwrap();
        assert_eq!(node_b_ref.data(), &b);
        assert_eq!(root_ref.data(), &b);

        let node_b_child_id = node_b_ref.children().first().unwrap();
        let node_b_child_ref = tree.get(node_b_child_id).unwrap();
        assert_eq!(node_b_child_ref.data(), &a);
    }
}

#[test]
fn test_root_node_id() {
    let tree = TreeBuilder::new().with_root(Node::new(5)).build();

    let root_id = tree.root_node_id().cloned().unwrap();
    let root_node_id = tree.root_node_id().unwrap();

    assert_eq!(&root_id, root_node_id);
}

#[test]
fn test_insert_with_parent() {
    let a = 1;
    let b = 2;
    let r = 5;

    let mut tree = TreeBuilder::new().with_root(Node::new(r)).build();

    let node_a = Node::new(a);
    let node_b = Node::new(b);

    let root_id = tree.root_node_id().cloned().unwrap();
    let node_a_id = tree.insert(node_a, UnderNode(&root_id)).unwrap();
    let node_b_id = tree.insert(node_b, UnderNode(&root_id)).unwrap();

    let node_a_ref = tree.get(&node_a_id).unwrap();
    let node_b_ref = tree.get(&node_b_id).unwrap();
    assert_eq!(node_a_ref.data(), &a);
    assert_eq!(node_b_ref.data(), &b);

    assert_eq!(node_a_ref.parent().unwrap().clone(), root_id);
    assert_eq!(node_b_ref.parent().unwrap().clone(), root_id);

    let root_node_ref = tree.get(&root_id).unwrap();
    let root_children: &Vec<NodeId> = root_node_ref.children();

    let child_1_id = root_children.first().unwrap();
    let child_2_id = root_children.get(1).unwrap();

    let child_1_ref = tree.get(child_1_id).unwrap();
    let child_2_ref = tree.get(child_2_id).unwrap();

    assert_eq!(child_1_ref.data(), &a);
    assert_eq!(child_2_ref.data(), &b);
}

#[test]
fn test_remove_node_lift_children() {
    let mut tree = TreeBuilder::new().with_root(Node::new(5)).build();

    let root_id = tree.root_node_id().cloned().unwrap();

    let node_1_id = tree.insert(Node::new(1), UnderNode(&root_id)).unwrap();
    let node_2_id = tree.insert(Node::new(2), UnderNode(&node_1_id)).unwrap();
    let node_3_id = tree.insert(Node::new(3), UnderNode(&node_1_id)).unwrap();

    let node_1 = tree.remove_node(node_1_id.clone(), LiftChildren).unwrap();

    assert_eq!(Some(&root_id), tree.root_node_id());

    assert_eq!(node_1.data(), &1);
    assert_eq!(node_1.children().len(), 0);
    assert!(node_1.parent().is_none());
    assert!(tree.get(&node_1_id).is_err());

    let root_ref = tree.get(&root_id).unwrap();
    let node_2_ref = tree.get(&node_2_id).unwrap();
    let node_3_ref = tree.get(&node_3_id).unwrap();

    assert_eq!(node_2_ref.data(), &2);
    assert_eq!(node_3_ref.data(), &3);

    assert_eq!(node_2_ref.parent().unwrap(), &root_id);
    assert_eq!(node_3_ref.parent().unwrap(), &root_id);

    assert!(root_ref.children().contains(&node_2_id));
    assert!(root_ref.children().contains(&node_3_id));
}

#[test]
fn test_remove_node_orphan_children() {
    let mut tree = TreeBuilder::new().with_root(Node::new(5)).build();

    let root_id = tree.root_node_id().cloned().unwrap();

    let node_1_id = tree.insert(Node::new(1), UnderNode(&root_id)).unwrap();
    let node_2_id = tree.insert(Node::new(2), UnderNode(&node_1_id)).unwrap();
    let node_3_id = tree.insert(Node::new(3), UnderNode(&node_1_id)).unwrap();

    let node_1 = tree.remove_node(node_1_id.clone(), OrphanChildren).unwrap();

    assert_eq!(Some(&root_id), tree.root_node_id());

    assert_eq!(node_1.data(), &1);
    assert_eq!(node_1.children().len(), 0);
    assert!(node_1.parent().is_none());
    assert!(tree.get(&node_1_id).is_err());

    let node_2_ref = tree.get(&node_2_id).unwrap();
    let node_3_ref = tree.get(&node_3_id).unwrap();

    assert_eq!(node_2_ref.data(), &2);
    assert_eq!(node_3_ref.data(), &3);

    assert!(node_2_ref.parent().is_none());
    assert!(node_3_ref.parent().is_none());
}

#[test]
fn test_remove_root() {
    let mut tree = TreeBuilder::new().with_root(Node::new(5)).build();

    let root_id = tree.root_node_id().cloned().unwrap();
    tree.remove_node(root_id, OrphanChildren).unwrap();
    assert_eq!(None, tree.root_node_id());

    let mut tree = TreeBuilder::new().with_root(Node::new(5)).build();

    let root_id = tree.root_node_id().cloned().unwrap();
    tree.remove_node(root_id, LiftChildren).unwrap();
    assert_eq!(None, tree.root_node_id());
}

#[test]
fn test_move_node_to_parent() {
    let mut tree = Tree::new();

    let root_id = tree.insert(Node::new(0), AsRoot).unwrap();
    let node_1_id = tree.insert(Node::new(1), UnderNode(&root_id)).unwrap();
    let node_2_id = tree.insert(Node::new(2), UnderNode(&root_id)).unwrap();
    let node_3_id = tree.insert(Node::new(3), UnderNode(&node_1_id)).unwrap();

    // Move 3 "across" the tree.
    tree.move_node(&node_3_id, ToParent(&node_2_id)).unwrap();
    assert!(tree.get(&root_id).unwrap().children().contains(&node_1_id));
    assert!(tree.get(&root_id).unwrap().children().contains(&node_2_id));
    assert!(
        tree.get(&node_2_id,)
            .unwrap()
            .children()
            .contains(&node_3_id,)
    );

    // Move 3 "up" the tree.
    tree.move_node(&node_3_id, ToParent(&root_id)).unwrap();
    assert!(tree.get(&root_id).unwrap().children().contains(&node_1_id));
    assert!(tree.get(&root_id).unwrap().children().contains(&node_2_id));
    assert!(tree.get(&root_id).unwrap().children().contains(&node_3_id));

    // Move 3 "down" (really this is across though) the tree.
    tree.move_node(&node_3_id, ToParent(&node_1_id)).unwrap();
    assert!(tree.get(&root_id).unwrap().children().contains(&node_1_id));
    assert!(tree.get(&root_id).unwrap().children().contains(&node_2_id));
    assert!(
        tree.get(&node_1_id,)
            .unwrap()
            .children()
            .contains(&node_3_id,)
    );

    // Move 1 "down" the tree.
    tree.move_node(&node_1_id, ToParent(&node_3_id)).unwrap();
    assert!(tree.get(&root_id).unwrap().children().contains(&node_2_id));
    assert!(tree.get(&root_id).unwrap().children().contains(&node_3_id));
    assert!(
        tree.get(&node_3_id,)
            .unwrap()
            .children()
            .contains(&node_1_id,)
    );

    // Note: node_1 is at the lowest point in the tree before these insertions.
    let node_4_id = tree.insert(Node::new(4), UnderNode(&node_1_id)).unwrap();
    let node_5_id = tree.insert(Node::new(5), UnderNode(&node_4_id)).unwrap();

    // move 3 "down" the tree
    tree.move_node(&node_3_id, ToParent(&node_5_id)).unwrap();
    assert!(tree.get(&root_id).unwrap().children().contains(&node_2_id));
    assert!(tree.get(&root_id).unwrap().children().contains(&node_1_id));
    assert!(
        tree.get(&node_1_id,)
            .unwrap()
            .children()
            .contains(&node_4_id,)
    );
    assert!(
        tree.get(&node_4_id,)
            .unwrap()
            .children()
            .contains(&node_5_id,)
    );
    assert!(
        tree.get(&node_5_id,)
            .unwrap()
            .children()
            .contains(&node_3_id,)
    );

    // move root "down" the tree
    tree.move_node(&root_id, ToParent(&node_2_id)).unwrap();
    assert!(tree.get(&node_2_id).unwrap().children().contains(&root_id));
    assert!(tree.get(&root_id).unwrap().children().contains(&node_1_id));
    assert!(
        tree.get(&node_1_id,)
            .unwrap()
            .children()
            .contains(&node_4_id,)
    );
    assert!(
        tree.get(&node_4_id,)
            .unwrap()
            .children()
            .contains(&node_5_id,)
    );
    assert!(
        tree.get(&node_5_id,)
            .unwrap()
            .children()
            .contains(&node_3_id,)
    );
    assert_eq!(tree.root_node_id(), Some(&node_2_id));
}

#[test]
fn test_move_node_to_root() {
    // test move with existing root
    {
        let mut tree = Tree::new();
        let root_id = tree.insert(Node::new(0), AsRoot).unwrap();
        let node_1_id = tree.insert(Node::new(1), UnderNode(&root_id)).unwrap();
        let node_2_id = tree.insert(Node::new(2), UnderNode(&node_1_id)).unwrap();

        tree.move_node_to_root(&node_2_id);

        assert_eq!(tree.root_node_id(), Some(&node_2_id));
        assert!(tree.get(&node_2_id).unwrap().children().contains(&root_id));
        assert!(
            !tree
                .get(&node_1_id,)
                .unwrap()
                .children()
                .contains(&node_2_id,)
        );
    }

    // Test move with existing root and with orphan.
    {
        let mut tree = Tree::new();
        let root_id = tree.insert(Node::new(0), AsRoot).unwrap();
        let node_1_id = tree.insert(Node::new(1), UnderNode(&root_id)).unwrap();
        let node_2_id = tree.insert(Node::new(2), UnderNode(&node_1_id)).unwrap();

        tree.remove_node_orphan_children(node_1_id);
        tree.move_node_to_root(&node_2_id);

        assert_eq!(tree.root_node_id(), Some(&node_2_id));
        assert!(tree.get(&node_2_id).unwrap().children().contains(&root_id));
        assert_eq!(tree.get(&root_id).unwrap().children().len(), 0);
    }

    // Test move without root and with orphan.
    {
        let mut tree = Tree::new();
        let root_id = tree.insert(Node::new(0), AsRoot).unwrap();
        let node_1_id = tree.insert(Node::new(1), UnderNode(&root_id)).unwrap();
        let node_2_id = tree.insert(Node::new(2), UnderNode(&node_1_id)).unwrap();

        tree.remove_node_orphan_children(root_id);
        tree.move_node_to_root(&node_1_id);

        assert_eq!(tree.root_node_id(), Some(&node_1_id));
        assert!(
            tree.get(&node_1_id,)
                .unwrap()
                .children()
                .contains(&node_2_id,)
        );
        assert_eq!(tree.get(&node_1_id).unwrap().children().len(), 1);
    }
}

#[test]
fn test_find_subtree_root_below_upper_id() {
    let mut tree = Tree::new();

    let root_id = tree.insert(Node::new(0), AsRoot).unwrap();
    let node_1_id = tree.insert(Node::new(1), UnderNode(&root_id)).unwrap();
    let node_2_id = tree.insert(Node::new(2), UnderNode(&node_1_id)).unwrap();
    let node_3_id = tree.insert(Node::new(3), UnderNode(&node_1_id)).unwrap();
    let node_4_id = tree.insert(Node::new(4), UnderNode(&node_2_id)).unwrap();

    let sub_root = tree.find_subtree_root_between_ids(&node_1_id, &root_id);
    assert_eq!(sub_root, Some(&node_1_id));
    let sub_root = tree.find_subtree_root_between_ids(&root_id, &node_1_id); //invert for None
    assert_eq!(sub_root, None);

    let sub_root = tree.find_subtree_root_between_ids(&node_2_id, &root_id);
    assert_eq!(sub_root, Some(&node_1_id));
    let sub_root = tree.find_subtree_root_between_ids(&root_id, &node_2_id); //invert for None
    assert_eq!(sub_root, None);

    let sub_root = tree.find_subtree_root_between_ids(&node_3_id, &node_1_id);
    assert_eq!(sub_root, Some(&node_3_id));
    let sub_root = tree.find_subtree_root_between_ids(&node_1_id, &node_3_id); //invert for None
    assert_eq!(sub_root, None);

    let sub_root = tree.find_subtree_root_between_ids(&node_4_id, &root_id);
    assert_eq!(sub_root, Some(&node_1_id));
    let sub_root = tree.find_subtree_root_between_ids(&root_id, &node_4_id); //invert for None
    assert_eq!(sub_root, None);
}

#[test]
fn test_tree_height() {
    // Empty tree.
    let mut tree = Tree::new();
    assert_eq!(0, tree.height());

    // The tree with single root node.
    let root_id = tree.insert(Node::new(1), AsRoot).unwrap();
    assert_eq!(1, tree.height());

    // Root node with single child.
    let child_1_id = tree.insert(Node::new(2), UnderNode(&root_id)).unwrap();
    assert_eq!(2, tree.height());

    // Root node with two children.
    let child_2_id = tree.insert(Node::new(3), UnderNode(&root_id)).unwrap();
    assert_eq!(2, tree.height());

    // Grandson.
    tree.insert(Node::new(4), UnderNode(&child_1_id)).unwrap();
    assert_eq!(3, tree.height());

    // Remove child_1 and grandchild.
    tree.remove_node(child_1_id, DropChildren).unwrap();
    assert_eq!(2, tree.height());

    // Remove child_2.
    tree.remove_node(child_2_id, LiftChildren).unwrap();
    assert_eq!(1, tree.height());
}

#[test]
fn tree_test_partial_eq() {
    let mut tree = Tree::new();
    let root_id = tree.insert(Node::new(0), AsRoot).unwrap();
    let node_1_id = tree.insert(Node::new(1), UnderNode(&root_id)).unwrap();
    tree.insert(Node::new(2), UnderNode(&root_id)).unwrap();
    tree.insert(Node::new(3), UnderNode(&node_1_id)).unwrap();

    // Ensure PartialEq doesn't work when the number of used nodes are not equal.
    {
        let mut other = Tree::new();
        let root_id = other.insert(Node::new(0), AsRoot).unwrap();
        other.insert(Node::new(1), UnderNode(&root_id)).unwrap();
        other.insert(Node::new(2), UnderNode(&root_id)).unwrap();
        assert_ne!(tree, other);
    }

    // Ensure PartialEq doesn't work when the data is not equal.
    {
        let mut other = Tree::new();
        let root_id = other.insert(Node::new(0), AsRoot).unwrap();
        let id = other.insert(Node::new(1), UnderNode(&root_id)).unwrap();
        other.insert(Node::new(2), UnderNode(&root_id)).unwrap();
        other.insert(Node::new(4), UnderNode(&id)).unwrap();
        assert_ne!(tree, other);
    }

    // Ensure PartialEq doesn't work when the parents aren't equal.
    {
        let mut other = Tree::new();
        let root_id = other.insert(Node::new(0), AsRoot).unwrap();
        other.insert(Node::new(1), UnderNode(&root_id)).unwrap();
        let id = other.insert(Node::new(2), UnderNode(&root_id)).unwrap();
        other.insert(Node::new(3), UnderNode(&id)).unwrap();
        assert_ne!(tree, other);
    }

    // Ensure PartialEq works even if the number of free spots in Tree.
    // Node is different.
    {
        let mut other = Tree::new();
        let root_id = other.insert(Node::new(0), AsRoot).unwrap();
        let id = other.insert(Node::new(1), UnderNode(&root_id)).unwrap();
        other.insert(Node::new(2), UnderNode(&root_id)).unwrap();
        other.insert(Node::new(3), UnderNode(&id)).unwrap();
        let to_delete = other.insert(Node::new(42), UnderNode(&root_id)).unwrap();
        other.take_node(to_delete);
        assert_ne!(
            tree.slot_count() - tree.live_count(),
            other.slot_count() - other.live_count()
        );
        assert_eq!(tree, other);
    }

    // Ensure PartialEq doesn't work when the Node's index are different.
    {
        let mut other = Tree::new();
        let root_id = other.insert(Node::new(0), AsRoot).unwrap();
        let to_delete = other.insert(Node::new(42), UnderNode(&root_id)).unwrap();
        let id = other.insert(Node::new(1), UnderNode(&root_id)).unwrap();
        other.insert(Node::new(2), UnderNode(&root_id)).unwrap();
        other.insert(Node::new(3), UnderNode(&id)).unwrap();
        other.take_node(to_delete);
        assert_ne!(tree, other);
    }
}
