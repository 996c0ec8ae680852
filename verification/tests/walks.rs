use sakura::InsertBehavior::{AsRoot, UnderNode};
use sakura::MoveBehavior::{ToParent, ToRoot};
use sakura::RemoveBehavior::{DropChildren, LiftChildren, OrphanChildren};
use sakura::{Node, NodeId, NodeIdError, Tree};

// 0
// ├── 1
// │   ├── 3
// │   └── 4
// │       └── 6
// └── 2
//     └── 5
fn sample() -> (Tree<i32>, Vec<NodeId>) {
    let mut tree = Tree::new();
    let n0 = tree.insert(Node::new(0), AsRoot).unwrap();
    let n1 = tree.insert(Node::new(1), UnderNode(&n0)).unwrap();
    let n2 = tree.insert(Node::new(2), UnderNode(&n0)).unwrap();
    let n3 = tree.insert(Node::new(3), UnderNode(&n1)).unwrap();
    let n4 = tree.insert(Node::new(4), UnderNode(&n1)).unwrap();
    let n5 = tree.insert(Node::new(5), UnderNode(&n2)).unwrap();
    let n6 = tree.insert(Node::new(6), UnderNode(&n4)).unwrap();
    (tree, vec![n0, n1, n2, n3, n4, n5, n6])
}

fn pre_order_ids(tree: &Tree<i32>, from: &NodeId) -> Vec<NodeId> {
    let mut walk = tree.traverse_pre_order_ids(from).unwrap();
    let mut out = Vec::new();
    while let Some(id) = walk.next() {
        out.push(id);
    }
    out
}

fn pre_order_data(tree: &Tree<i32>, from: &NodeId) -> Vec<i32> {
    let mut walk = tree.traverse_pre_order(from).unwrap();
    let mut out = Vec::new();
    while let Some(node) = walk.next() {
        out.push(*node.data());
    }
    out
}

fn children_data(tree: &Tree<i32>, of: &NodeId) -> Vec<i32> {
    let mut walk = tree.children(of).unwrap();
    let mut out = Vec::new();
    while let Some(node) = walk.next() {
        out.push(*node.data());
    }
    out
}

fn children_of(tree: &Tree<i32>, of: &NodeId) -> Vec<NodeId> {
    let mut walk = tree.children_ids(of).unwrap();
    let mut out = Vec::new();
    while let Some(id) = walk.next() {
        out.push(*id);
    }
    out
}

fn ancestors_of(tree: &Tree<i32>, of: &NodeId) -> Vec<NodeId> {
    let mut walk = tree.ancestor_ids(of).unwrap();
    let mut out = Vec::new();
    while let Some(id) = walk.next() {
        out.push(*id);
    }
    out
}

fn rendered(tree: &Tree<i32>) -> String {
    let mut s = String::new();
    tree.write_formatted(&mut s).unwrap();
    s
}

#[test]
fn slots_are_handed_out_in_order() {
    let (tree, ids) = sample();
    for (i, id) in ids.iter().enumerate() {
        assert_eq!(id.index(), i);
        assert_eq!(tree.get(id).unwrap().data(), &(i as i32));
    }
    assert_eq!(tree.slot_count(), 7);
    assert_eq!(tree.live_count(), 7);
    assert_eq!(tree.free_count(), 0);
}

#[test]
fn pre_order_visits_a_node_before_its_children() {
    let (tree, ids) = sample();
    assert_eq!(pre_order_data(&tree, &ids[0]), vec![0, 1, 3, 4, 6, 2, 5]);
    assert_eq!(
        pre_order_ids(&tree, &ids[0]),
        vec![ids[0], ids[1], ids[3], ids[4], ids[6], ids[2], ids[5]]
    );
    assert_eq!(pre_order_data(&tree, &ids[1]), vec![1, 3, 4, 6]);
    assert_eq!(pre_order_data(&tree, &ids[5]), vec![5]);
}

#[test]
fn pre_order_is_the_same_when_walked_again() {
    let (tree, ids) = sample();
    let first = pre_order_ids(&tree, &ids[0]);
    let second = pre_order_ids(&tree, &ids[0]);
    assert_eq!(first, second);
    assert_eq!(first.len(), tree.live_count());
}

#[test]
fn children_come_in_insertion_order() {
    let (tree, ids) = sample();
    assert_eq!(children_data(&tree, &ids[0]), vec![1, 2]);
    assert_eq!(children_of(&tree, &ids[1]), vec![ids[3], ids[4]]);
    assert_eq!(children_of(&tree, &ids[6]), Vec::<NodeId>::new());
}

#[test]
fn children_walk_can_be_cloned_midway() {
    let (tree, ids) = sample();
    let mut walk = tree.children(&ids[0]).unwrap();
    assert_eq!(walk.next().unwrap().data(), &1);
    let mut copy = walk.clone();
    assert_eq!(walk.next().unwrap().data(), &2);
    assert!(walk.next().is_none());
    assert_eq!(copy.next().unwrap().data(), &2);
    assert!(copy.next().is_none());
}

#[test]
fn ancestors_go_up_to_the_root_and_leave_the_start_out() {
    let (tree, ids) = sample();
    assert_eq!(ancestors_of(&tree, &ids[6]), vec![ids[4], ids[1], ids[0]]);
    assert_eq!(ancestors_of(&tree, &ids[0]), Vec::<NodeId>::new());
    let mut walk = tree.ancestors(&ids[5]).unwrap();
    assert_eq!(walk.next().unwrap().data(), &2);
    let mut copy = walk.clone();
    assert_eq!(walk.next().unwrap().data(), &0);
    assert!(walk.next().is_none());
    assert!(walk.next().is_none());
    assert_eq!(copy.next().unwrap().data(), &0);
}

#[test]
fn walks_refuse_a_removed_handle() {
    let (mut tree, ids) = sample();
    tree.remove_node(ids[5], DropChildren).unwrap();
    assert!(matches!(tree.children(&ids[5]), Err(NodeIdError::NodeIdNoLongerValid)));
    assert!(matches!(tree.children_ids(&ids[5]), Err(NodeIdError::NodeIdNoLongerValid)));
    assert!(matches!(tree.ancestors(&ids[5]), Err(NodeIdError::NodeIdNoLongerValid)));
    assert!(matches!(tree.ancestor_ids(&ids[5]), Err(NodeIdError::NodeIdNoLongerValid)));
    assert!(matches!(tree.traverse_pre_order(&ids[5]), Err(NodeIdError::NodeIdNoLongerValid)));
    assert!(matches!(
        tree.traverse_pre_order_ids(&ids[5]),
        Err(NodeIdError::NodeIdNoLongerValid)
    ));
}

#[test]
fn a_handle_one_past_the_end_is_refused() {
    let (mut tree, _) = sample();
    let past = NodeId::new(7);
    assert_eq!(tree.get(&past).err(), Some(NodeIdError::NodeIdNoLongerValid));
    assert!(tree.get_mut(&past).is_err());
    assert_eq!(
        tree.insert(Node::new(9), UnderNode(&past)).err(),
        Some(NodeIdError::NodeIdNoLongerValid)
    );
    assert_eq!(tree.slot_count(), 7);
    assert_eq!(tree.remove_node(past, DropChildren).err(), Some(NodeIdError::NodeIdNoLongerValid));
    assert_eq!(tree.move_node(&past, ToRoot).err(), Some(NodeIdError::NodeIdNoLongerValid));
    assert_eq!(tree.sort_children_by_data(&past).err(), Some(NodeIdError::NodeIdNoLongerValid));
}

#[test]
fn error_text() {
    let e = NodeIdError::NodeIdNoLongerValid;
    assert_eq!(
        e.reason(),
        "The given NodeId is no longer valid. The Node in question has been removed."
    );
    assert_eq!(
        e.to_string(),
        "NodeIdError: The given NodeId is no longer valid. The Node in question has been removed."
    );
}

#[test]
fn insert_under_appends_as_last_child() {
    let (mut tree, ids) = sample();
    let new = tree.insert(Node::new(7), UnderNode(&ids[1])).unwrap();
    assert_eq!(children_of(&tree, &ids[1]), vec![ids[3], ids[4], new]);
    assert_eq!(tree.get(&new).unwrap().parent(), Some(&ids[1]));
    assert!(tree.get(&new).unwrap().children().is_empty());
}

#[test]
fn insert_as_root_wraps_the_old_root() {
    let (mut tree, ids) = sample();
    let new = tree.insert(Node::new(7), AsRoot).unwrap();
    assert_eq!(tree.root_node_id(), Some(&new));
    assert_eq!(children_of(&tree, &new), vec![ids[0]]);
    assert_eq!(tree.get(&ids[0]).unwrap().parent(), Some(&new));
    assert!(tree.get(&new).unwrap().parent().is_none());
    assert_eq!(tree.height(), 5);
}

#[test]
fn insert_under_a_removed_parent_changes_nothing() {
    let (mut tree, ids) = sample();
    tree.remove_node(ids[6], DropChildren).unwrap();
    let before = pre_order_ids(&tree, &ids[0]);
    let r = tree.insert(Node::new(9), UnderNode(&ids[6]));
    assert_eq!(r.err(), Some(NodeIdError::NodeIdNoLongerValid));
    assert_eq!(pre_order_ids(&tree, &ids[0]), before);
    assert_eq!(tree.free_count(), 1);
    assert_eq!(tree.live_count(), 6);
}

#[test]
fn drop_children_removes_the_whole_subtree() {
    let (mut tree, ids) = sample();
    let removed = tree.remove_node(ids[1], DropChildren).unwrap();
    assert_eq!(removed.data(), &1);
    assert!(removed.parent().is_none());
    assert!(removed.children().is_empty());
    for gone in [ids[1], ids[3], ids[4], ids[6]] {
        assert_eq!(tree.get(&gone).err(), Some(NodeIdError::NodeIdNoLongerValid));
    }
    assert_eq!(pre_order_ids(&tree, &ids[0]), vec![ids[0], ids[2], ids[5]]);
    assert_eq!(children_of(&tree, &ids[0]), vec![ids[2]]);
    assert_eq!(tree.live_count(), 3);
    assert_eq!(tree.free_count(), 4);
    assert_eq!(tree.slot_count(), 7);
    assert_eq!(tree.root_node_id(), Some(&ids[0]));
}

#[test]
fn vacated_slots_are_reused_last_vacated_first() {
    let (mut tree, ids) = sample();
    // Post-order of the subtree of 1 is 3, 6, 4, 1.
    tree.remove_node(ids[1], DropChildren).unwrap();
    let a = tree.insert(Node::new(10), UnderNode(&ids[0])).unwrap();
    let b = tree.insert(Node::new(11), UnderNode(&ids[0])).unwrap();
    let c = tree.insert(Node::new(12), UnderNode(&ids[0])).unwrap();
    let d = tree.insert(Node::new(13), UnderNode(&ids[0])).unwrap();
    let e = tree.insert(Node::new(14), UnderNode(&ids[0])).unwrap();
    assert_eq!(vec![a, b, c, d], vec![ids[1], ids[4], ids[6], ids[3]]);
    assert_eq!(e.index(), 7);
    assert_eq!(tree.free_count(), 0);
    assert_eq!(children_data(&tree, &ids[0]), vec![2, 10, 11, 12, 13, 14]);
}

#[test]
fn drop_children_of_the_root_empties_the_tree() {
    let (mut tree, ids) = sample();
    tree.remove_node(ids[0], DropChildren).unwrap();
    assert_eq!(tree.root_node_id(), None);
    assert_eq!(tree.live_count(), 0);
    assert_eq!(tree.height(), 0);
    assert_eq!(rendered(&tree), "");
}

#[test]
fn lift_children_appends_them_to_the_parent_in_order() {
    let (mut tree, ids) = sample();
    tree.remove_node(ids[1], LiftChildren).unwrap();
    assert_eq!(children_of(&tree, &ids[0]), vec![ids[2], ids[3], ids[4]]);
    assert_eq!(tree.get(&ids[3]).unwrap().parent(), Some(&ids[0]));
    assert_eq!(tree.get(&ids[4]).unwrap().parent(), Some(&ids[0]));
    assert_eq!(children_of(&tree, &ids[4]), vec![ids[6]]);
    assert_eq!(tree.height(), 3);
}

#[test]
fn lift_and_orphan_agree_without_a_parent() {
    let (mut lifted, ids) = sample();
    let (mut orphaned, _) = sample();
    lifted.remove_node(ids[0], LiftChildren).unwrap();
    orphaned.remove_node(ids[0], OrphanChildren).unwrap();
    assert_eq!(lifted.root_node_id(), None);
    assert_eq!(orphaned.root_node_id(), None);
    for id in [ids[1], ids[2]] {
        assert!(lifted.get(&id).unwrap().parent().is_none());
        assert!(orphaned.get(&id).unwrap().parent().is_none());
    }
    assert_eq!(lifted, orphaned);
    assert_eq!(pre_order_ids(&lifted, &ids[1]), pre_order_ids(&orphaned, &ids[1]));
    assert_eq!(lifted.free_count(), 1);
}

#[test]
fn orphaned_children_stay_reachable_by_handle() {
    let (mut tree, ids) = sample();
    tree.remove_node(ids[1], OrphanChildren).unwrap();
    assert_eq!(children_of(&tree, &ids[0]), vec![ids[2]]);
    assert!(tree.get(&ids[3]).unwrap().parent().is_none());
    assert!(tree.get(&ids[4]).unwrap().parent().is_none());
    assert_eq!(pre_order_ids(&tree, &ids[4]), vec![ids[4], ids[6]]);
    assert_eq!(tree.height(), 3);
}

#[test]
fn moving_a_node_under_its_descendant_promotes_the_child_on_the_path() {
    let (mut tree, ids) = sample();
    // 1 goes under 6: its child 4 takes its place, 3 travels with 1.
    tree.move_node(&ids[1], ToParent(&ids[6])).unwrap();
    assert_eq!(children_of(&tree, &ids[0]), vec![ids[2], ids[4]]);
    assert_eq!(tree.get(&ids[4]).unwrap().parent(), Some(&ids[0]));
    assert_eq!(children_of(&tree, &ids[4]), vec![ids[6]]);
    assert_eq!(children_of(&tree, &ids[6]), vec![ids[1]]);
    assert_eq!(tree.get(&ids[1]).unwrap().parent(), Some(&ids[6]));
    assert_eq!(children_of(&tree, &ids[1]), vec![ids[3]]);
    assert_eq!(pre_order_data(&tree, &ids[0]), vec![0, 2, 5, 4, 6, 1, 3]);
    assert_eq!(tree.height(), 5);
}

#[test]
fn moving_the_root_down_makes_the_child_on_the_path_the_root() {
    let (mut tree, ids) = sample();
    tree.move_node(&ids[0], ToParent(&ids[6])).unwrap();
    assert_eq!(tree.root_node_id(), Some(&ids[1]));
    assert!(tree.get(&ids[1]).unwrap().parent().is_none());
    assert_eq!(children_of(&tree, &ids[0]), vec![ids[2]]);
    assert_eq!(children_of(&tree, &ids[6]), vec![ids[0]]);
    assert_eq!(pre_order_data(&tree, &ids[1]), vec![1, 3, 4, 6, 0, 2, 5]);
}

#[test]
fn moving_across_appends_as_last_child() {
    let (mut tree, ids) = sample();
    tree.move_node(&ids[4], ToParent(&ids[2])).unwrap();
    assert_eq!(children_of(&tree, &ids[1]), vec![ids[3]]);
    assert_eq!(children_of(&tree, &ids[2]), vec![ids[5], ids[4]]);
    assert_eq!(tree.get(&ids[4]).unwrap().parent(), Some(&ids[2]));
    // Moving to the parent it already has puts it last.
    tree.move_node(&ids[5], ToParent(&ids[2])).unwrap();
    assert_eq!(children_of(&tree, &ids[2]), vec![ids[4], ids[5]]);
}

#[test]
fn moving_to_root_attaches_the_old_root_last() {
    let (mut tree, ids) = sample();
    tree.move_node(&ids[4], ToRoot).unwrap();
    assert_eq!(tree.root_node_id(), Some(&ids[4]));
    assert!(tree.get(&ids[4]).unwrap().parent().is_none());
    assert_eq!(children_of(&tree, &ids[4]), vec![ids[6], ids[0]]);
    assert_eq!(tree.get(&ids[0]).unwrap().parent(), Some(&ids[4]));
    assert_eq!(children_of(&tree, &ids[1]), vec![ids[3]]);
}

#[test]
fn move_with_a_removed_handle_changes_nothing() {
    let (mut tree, ids) = sample();
    tree.remove_node(ids[5], DropChildren).unwrap();
    let before = pre_order_ids(&tree, &ids[0]);
    assert_eq!(
        tree.move_node(&ids[5], ToParent(&ids[1])).err(),
        Some(NodeIdError::NodeIdNoLongerValid)
    );
    assert_eq!(
        tree.move_node(&ids[1], ToParent(&ids[5])).err(),
        Some(NodeIdError::NodeIdNoLongerValid)
    );
    assert_eq!(pre_order_ids(&tree, &ids[0]), before);
}

#[test]
fn sort_children_by_data_orders_by_payload() {
    let mut tree: Tree<i32> = Tree::new();
    let root_id = tree.insert(Node::new(100), AsRoot).unwrap();
    tree.insert(Node::new(1), UnderNode(&root_id)).unwrap();
    tree.insert(Node::new(2), UnderNode(&root_id)).unwrap();
    tree.insert(Node::new(0), UnderNode(&root_id)).unwrap();

    tree.sort_children_by_data(&root_id).unwrap();

    assert_eq!(children_data(&tree, &root_id), vec![0, 1, 2]);
    for id in children_of(&tree, &root_id) {
        assert_eq!(tree.get(&id).unwrap().parent(), Some(&root_id));
    }
}

#[test]
fn sort_children_by_is_stable() {
    let mut tree: Tree<(i32, char)> = Tree::new();
    let root = tree.insert(Node::new((0, 'r')), AsRoot).unwrap();
    let a = tree.insert(Node::new((2, 'a')), UnderNode(&root)).unwrap();
    let b = tree.insert(Node::new((1, 'b')), UnderNode(&root)).unwrap();
    let c = tree.insert(Node::new((2, 'c')), UnderNode(&root)).unwrap();
    let d = tree.insert(Node::new((1, 'd')), UnderNode(&root)).unwrap();
    let e = tree.insert(Node::new((0, 'e')), UnderNode(&root)).unwrap();

    tree.sort_children_by(&root, |x, y| x.data().0.cmp(&y.data().0)).unwrap();

    assert_eq!(tree.get(&root).unwrap().children(), &vec![e, b, d, a, c]);

    tree.sort_children_by(&root, |x, y| y.data().1.cmp(&x.data().1)).unwrap();
    assert_eq!(tree.get(&root).unwrap().children(), &vec![e, d, c, b, a]);
}

#[test]
fn write_formatted_draws_the_branches() {
    let (tree, _) = sample();
    assert_eq!(
        rendered(&tree),
        "\
0
├── 1
│   ├── 3
│   └── 4
│       └── 6
└── 2
    └── 5
"
    );
}

#[test]
fn write_formatted_appends_to_what_is_there() {
    let mut tree = Tree::<i32>::new();
    let root_id = tree.insert(Node::new(0), AsRoot).unwrap();
    let first_child_id = tree.insert(Node::new(1), UnderNode(&root_id)).unwrap();
    let _ = tree.insert(Node::new(2), UnderNode(&first_child_id)).unwrap();
    let _ = tree.insert(Node::new(3), UnderNode(&root_id)).unwrap();
    let mut s = String::from("tree:\n");
    tree.write_formatted(&mut s).unwrap();
    assert_eq!(&s, "tree:\n0\n├── 1\n│   └── 2\n└── 3\n");
}

#[test]
fn write_formatted_of_an_empty_tree_writes_nothing() {
    let tree = Tree::<i32>::new();
    assert_eq!(rendered(&tree), "");
}

#[test]
fn write_labeled_uses_the_labels_by_slot() {
    let (tree, _) = sample();
    let labels: Vec<String> =
        ["a", "b", "c", "d", "e", "f", "g"].iter().map(|s| s.to_string()).collect();
    let mut s = String::new();
    tree.write_labeled(&mut s, &labels);
    assert_eq!(s, "a\n├── b\n│   ├── d\n│   └── e\n│       └── g\n└── c\n    └── f\n");
}

#[test]
fn write_formatted_leaves_orphans_out() {
    let (mut tree, ids) = sample();
    tree.remove_node(ids[1], OrphanChildren).unwrap();
    assert_eq!(rendered(&tree), "0\n└── 2\n    └── 5\n");
}

#[test]
fn height_grows_by_one_with_each_new_level() {
    let mut tree: Tree<u8> = Tree::new();
    assert_eq!(tree.height(), 0);
    let mut last = tree.insert(Node::new(0), AsRoot).unwrap();
    assert_eq!(tree.height(), 1);
    for depth in 2..10usize {
        last = tree.insert(Node::new(depth as u8), UnderNode(&last)).unwrap();
        assert_eq!(tree.height(), depth);
    }
    tree.remove_node(last, DropChildren).unwrap();
    assert_eq!(tree.height(), 8);
}

#[test]
fn equal_trees_may_differ_in_vacant_slots() {
    let (a, _) = sample();
    let (mut b, ids) = sample();
    let extra = b.insert(Node::new(99), UnderNode(&ids[0])).unwrap();
    assert_ne!(a, b);
    b.remove_node(extra, DropChildren).unwrap();
    assert_eq!(b.free_count(), 1);
    assert_eq!(a.free_count(), 0);
    assert_eq!(a, b);
    assert_eq!(b, a);
}

#[test]
fn trees_with_other_parents_differ() {
    let (a, _) = sample();
    let (mut b, ids) = sample();
    b.move_node(&ids[5], ToParent(&ids[1])).unwrap();
    assert_ne!(a, b);
}

#[test]
fn get_mut_changes_only_the_payload() {
    let (mut tree, ids) = sample();
    let previous = tree.get_mut(&ids[1]).unwrap().replace_data(42);
    assert_eq!(previous, 1);
    assert_eq!(tree.get(&ids[1]).unwrap().data(), &42);
    assert_eq!(children_of(&tree, &ids[1]), vec![ids[3], ids[4]]);
    assert_eq!(tree.get(&ids[1]).unwrap().parent(), Some(&ids[0]));
}

#[test]
fn the_root_has_no_parent() {
    let (mut tree, ids) = sample();
    assert!(tree.get(tree.root_node_id().unwrap()).unwrap().parent().is_none());
    tree.move_node(&ids[3], ToRoot).unwrap();
    assert!(tree.get(tree.root_node_id().unwrap()).unwrap().parent().is_none());
    tree.insert(Node::new(8), AsRoot).unwrap();
    assert!(tree.get(tree.root_node_id().unwrap()).unwrap().parent().is_none());
    assert_eq!(tree.is_valid_node_id(&ids[3]), Ok(()));
}

#[test]
fn is_below_follows_the_parents() {
    let (tree, ids) = sample();
    assert!(tree.is_below(&ids[0], &ids[6]));
    assert!(tree.is_below(&ids[1], &ids[6]));
    assert!(tree.is_below(&ids[6], &ids[6]));
    assert!(!tree.is_below(&ids[2], &ids[6]));
    assert!(!tree.is_below(&ids[6], &ids[1]));
}

#[test]
fn moves_that_would_break_the_tree_are_told_apart() {
    let (mut tree, ids) = sample();
    assert!(tree.can_move_under(&ids[1], &ids[6]));
    assert!(tree.can_move_under(&ids[0], &ids[6]));
    assert!(tree.can_move_under(&ids[6], &ids[0]));
    assert!(!tree.can_move_under(&ids[3], &ids[3]));
    // The root cannot go under a node that is not below it.
    tree.remove_node(ids[1], OrphanChildren).unwrap();
    assert!(!tree.can_move_under(&ids[0], &ids[4]));
    assert!(tree.can_move_under(&ids[4], &ids[0]));
}

#[test]
fn moving_the_root_to_the_root_changes_nothing() {
    let mut t = Tree::<i32>::new();
    let r = t.insert(Node::new(0), AsRoot).unwrap();
    let a = t.insert(Node::new(1), UnderNode(&r)).unwrap();
    assert_eq!(t.move_node(&r, ToRoot), Ok(()));
    assert_eq!(t.root_node_id(), Some(&r));
    assert_eq!(t.get(&r).unwrap().parent(), None);
    assert_eq!(t.get(&r).unwrap().children(), &vec![a]);
    assert_eq!(t.get(&a).unwrap().parent(), Some(&r));
    assert!(t.is_well_formed());

    let mut single = Tree::<i32>::new();
    let only = single.insert(Node::new(7), AsRoot).unwrap();
    single.move_node_to_root(&only);
    assert_eq!(single.root_node_id(), Some(&only));
    assert!(single.get(&only).unwrap().children().is_empty());
    assert!(single.get(&only).unwrap().parent().is_none());
    assert_eq!(single.height(), 1);
}

#[test]
fn moving_to_root_keeps_the_tree_well_formed() {
    let (mut tree, ids) = sample();
    tree.move_node(&ids[6], ToRoot).unwrap();
    assert!(tree.is_well_formed());
    assert_eq!(tree.root_node_id(), Some(&ids[6]));
    assert_eq!(children_of(&tree, &ids[6]), vec![ids[0]]);
    assert_eq!(children_of(&tree, &ids[4]), Vec::<NodeId>::new());
    assert_eq!(tree.get(&ids[0]).unwrap().parent(), Some(&ids[6]));
    assert_eq!(pre_order_ids(&tree, &ids[6]).len(), 7);
}

struct Stubborn(i32);

impl std::fmt::Debug for Stubborn {
    fn fmt(&self, f: &mut std::fmt::Formatter<'_>) -> std::fmt::Result {
        if self.0 < 0 {
            Err(std::fmt::Error)
        } else {
            f.write_str(&format!("<{}>", self.0))
        }
    }
}

#[test]
fn write_formatted_hands_back_the_error_of_the_payload() {
    let mut tree: Tree<Stubborn> = Tree::new();
    let root = tree.insert(Node::new(Stubborn(1)), AsRoot).unwrap();
    tree.insert(Node::new(Stubborn(2)), UnderNode(&root)).unwrap();
    let mut s = String::from("before");
    assert_eq!(tree.write_formatted(&mut s), Ok(()));
    assert_eq!(s, "before<1>\n└── <2>\n");

    tree.insert(Node::new(Stubborn(-3)), UnderNode(&root)).unwrap();
    let mut s = String::from("before");
    assert_eq!(tree.write_formatted(&mut s), Err(std::fmt::Error));
    assert_eq!(s, "before");

    let empty: Tree<Stubborn> = Tree::new();
    let mut s = String::new();
    assert_eq!(empty.write_formatted(&mut s), Ok(()));
    assert_eq!(s, "");
}

#[test]
fn pre_order_holds_each_node_of_the_subtree_once_and_the_top_first() {
    let (tree, ids) = sample();
    for top in &ids {
        let walk = pre_order_ids(&tree, top);
        assert_eq!(walk[0], *top);
        for id in &ids {
            let count = walk.iter().filter(|x| *x == id).count();
            assert_eq!(count, usize::from(tree.is_below(top, id)));
        }
    }
}

#[test]
fn removing_a_subtree_does_not_raise_the_tree() {
    let (mut tree, ids) = sample();
    assert_eq!(tree.height(), 4);
    // Removing the deepest node lowers the tree by the level it made.
    tree.remove_node(ids[6], DropChildren).unwrap();
    assert_eq!(tree.height(), 3);
    // Removing a node that is not on a longest path leaves the height.
    tree.remove_node(ids[5], DropChildren).unwrap();
    assert_eq!(tree.height(), 3);
    let new = tree.insert(Node::new(9), UnderNode(&ids[4])).unwrap();
    assert_eq!(tree.height(), 4);
    tree.remove_node(new, DropChildren).unwrap();
    assert_eq!(tree.height(), 3);
    tree.remove_node(ids[0], DropChildren).unwrap();
    assert_eq!(tree.height(), 0);
}
