use vstd::prelude::*;
use vstd::std_specs::cmp::PartialEqSpec;
use crate::id::NodeId;
use crate::id::group_node_id;
use crate::model::TreeView;
use crate::model::count_live;
use crate::node::NodeView;
use crate::seqs::lemma_without_contains;
use crate::seqs::without;

verus! {

broadcast use group_node_id;

impl<T> TreeView<T> {
    /// A tree that has a root has exactly one: the root is a node of the
    /// tree, and it has no parent.
    pub proof fn law_root_has_no_parent(self)
        requires
            self.wf(),
            self.root is Some,
        ensures
            self.contains(self.root->0),
            self.parent_of(self.root->0) is None,
    {
    }

    /// After a node has been inserted under `parent`, its handle is the
    /// last of the children of `parent`, the children that were there come
    /// before it in their order, and `parent` is its parent. Nothing else
    /// changes.
    pub proof fn law_inserted_under(self, parent: NodeId, node: NodeView<T>)
        requires
            self.wf(),
            self.has_room(),
            self.contains(parent),
            node.detached(),
        ensures
            ({
                let after = self.inserted_under(parent, node);
                let id = self.next_id();
                &&& !self.contains(id)
                &&& after.contains(id)
                &&& after.children_of(parent) == self.children_of(parent).push(id)
                &&& after.children_of(parent).last() == id
                &&& after.parent_of(id) == Some(parent)
                &&& after.data_of(id) == node.data
                &&& after.children_of(id).len() == 0
                &&& after.root == self.root
                &&& forall|x: NodeId|
                    self.contains(x) ==> #[trigger] after.contains(x) && after.data_of(x)
                        == self.data_of(x) && after.parent_of(x) == self.parent_of(x) && (x
                        != parent ==> after.children_of(x) == self.children_of(x))
            }),
    {
        self.lemma_next_id();
    }

    /// After a node has been inserted as the root of a tree that had the
    /// root `r`, the children of the new root are `r` alone, and the new
    /// root is the parent of `r`. In a tree without a root the new root has
    /// no children.
    pub proof fn law_inserted_as_root(self, node: NodeView<T>)
        requires
            self.wf(),
            self.has_room(),
            node.detached(),
        ensures
            ({
                let after = self.inserted_as_root(node);
                let id = self.next_id();
                &&& !self.contains(id)
                &&& after.contains(id)
                &&& after.root == Some(id)
                &&& after.parent_of(id) is None
                &&& after.data_of(id) == node.data
                &&& match self.root {
                    Some(r) => after.children_of(id) == seq![r] && after.children_of(id)[0] == r
                        && after.parent_of(r) == Some(id),
                    None => after.children_of(id).len() == 0,
                }
                &&& forall|x: NodeId|
                    self.contains(x) ==> #[trigger] after.contains(x) && after.data_of(x)
                        == self.data_of(x) && after.children_of(x) == self.children_of(x) && (
                    Some(x) != self.root ==> after.parent_of(x) == self.parent_of(x))
            }),
    {
        self.lemma_next_id();
        if let Some(r) = self.root {
            let after = self.inserted_as_root(node);
            assert(after.children_of(self.next_id()) =~= seq![r]);
        }
    }

    /// Removing a node with its subtree leaves none of the nodes of the
    /// subtree in the tree, and every other node where it was.
    pub proof fn law_removed_dropping(self, id: NodeId)
        requires
            self.wf(),
            self.contains(id),
        ensures
            forall|x: NodeId|
                self.contains(x) && self.in_subtree(id, x) ==> !(
                #[trigger] self.removed_dropping(id).contains(x)),
            forall|x: NodeId|
                self.contains(x) && !self.in_subtree(id, x) ==> #[trigger] self.removed_dropping(
                    id,
                ).contains(x),
    {
        self.lemma_removed_dropping_wf(id);
    }

    /// Removing a node that has a parent and lifting its children makes
    /// that parent the parent of each of them and appends them to its
    /// children in their order. The children stay in the tree, and so does
    /// what lies below them.
    pub proof fn law_removed_lifting(self, id: NodeId)
        requires
            self.wf(),
            self.contains(id),
            self.parent_of(id) is Some,
        ensures
            ({
                let after = self.removed_lifting(id);
                let p = self.parent_of(id)->0;
                &&& !after.contains(id)
                &&& after.children_of(p) == without(self.children_of(p), id) + self.children_of(id)
                &&& forall|c: NodeId|
                    self.children_of(id).contains(c) ==> #[trigger] after.contains(c)
                        && after.parent_of(c) == Some(p) && after.children_of(c)
                        == self.children_of(c) && after.data_of(c) == self.data_of(c)
                &&& forall|x: NodeId| self.contains(x) && x != id ==> #[trigger] after.contains(x)
            }),
    {
        let after = self.removed_lifting(id);
        let p = self.parent_of(id)->0;
        let kids = self.children_of(id);
        self.lemma_measures(id);
        self.lemma_unaffected_by_parents(id);
        assert(self.parent_link_ok(id));
        assert(self.child_links_ok(id));
        assert(!kids.contains(p) && !kids.contains(id)) by {
            if kids.contains(p) {
                self.lemma_children_member(id, p);
                self.lemma_measures(p);
            }
            if kids.contains(id) {
                self.lemma_children_member(id, id);
            }
        }
        lemma_without_concat_absent(self.children_of(p), kids, id);
        assert forall|c: NodeId| kids.contains(c) implies #[trigger] after.contains(c)
            && after.parent_of(c) == Some(p) && after.children_of(c) == self.children_of(c)
            && after.data_of(c) == self.data_of(c) by {
            self.lemma_children_member(id, c);
            assert(NodeId::at(c.slot()) == c);
        }
        assert forall|x: NodeId| self.contains(x) && x != id implies #[trigger] after.contains(
            x,
        ) by {
            assert(NodeId::at(x.slot()) == x);
        }
    }

    /// Removing a node and orphaning its children leaves each of them in
    /// the tree, without a parent and with its own children.
    pub proof fn law_removed_orphaning(self, id: NodeId)
        requires
            self.wf(),
            self.contains(id),
        ensures
            ({
                let after = self.removed_orphaning(id);
                &&& !after.contains(id)
                &&& forall|c: NodeId|
                    self.children_of(id).contains(c) ==> #[trigger] after.contains(c)
                        && after.parent_of(c) is None && after.children_of(c)
                        == self.children_of(c) && after.data_of(c) == self.data_of(c)
                &&& forall|x: NodeId| self.contains(x) && x != id ==> #[trigger] after.contains(x)
            }),
    {
        let after = self.removed_orphaning(id);
        let kids = self.children_of(id);
        self.lemma_unaffected_by_parents(id);
        assert(self.parent_link_ok(id));
        if let Some(p) = self.parent_of(id) {
            self.lemma_measures(id);
            assert(!kids.contains(p)) by {
                if kids.contains(p) {
                    self.lemma_children_member(id, p);
                    self.lemma_measures(p);
                }
            }
        }
        assert forall|c: NodeId| kids.contains(c) implies #[trigger] after.contains(c)
            && after.parent_of(c) is None && after.children_of(c) == self.children_of(c)
            && after.data_of(c) == self.data_of(c) by {
            self.lemma_children_member(id, c);
            assert(NodeId::at(c.slot()) == c);
        }
        assert forall|x: NodeId| self.contains(x) && x != id implies #[trigger] after.contains(
            x,
        ) by {
            assert(NodeId::at(x.slot()) == x);
        }
    }

    /// For a node without a parent, lifting its children and orphaning them
    /// are the same.
    pub proof fn law_lifting_without_parent_is_orphaning(self, id: NodeId)
        requires
            self.parent_of(id) is None,
        ensures
            self.removed_lifting(id) == self.removed_orphaning(id),
    {
    }

    /// Moving a node under one of its own descendants: the child `s` of the
    /// node on the path to the target takes the node's place, as the root
    /// if the node was the root, else as the last child of the node's
    /// parent if it had one, else without a parent. The node keeps its other
    /// children and ends up as the last child of the target.
    pub proof fn law_moved_below_itself(self, id: NodeId, target: NodeId)
        requires
            self.wf(),
            self.contains(id),
            self.contains(target),
            self.in_subtree(id, target),
            id != target,
        ensures
            self.subtree_root_between(target, id) is Some,
            ({
                let after = self.moved_to_parent(id, target);
                let s = self.subtree_root_between(target, id)->0;
                &&& self.parent_of(s) == Some(id)
                &&& self.in_subtree(s, target)
                &&& after.parent_of(s) == self.parent_of(id)
                &&& after.root == if self.root == Some(id) {
                    Some(s)
                } else {
                    self.root
                }
                &&& (self.parent_of(id) matches Some(op) ==> after.children_of(op) == without(
                    self.children_of(op),
                    id,
                ).push(s))
                &&& after.children_of(id) == without(self.children_of(id), s)
                &&& after.parent_of(id) == Some(target)
                &&& after.children_of(target).last() == id
                &&& after.children_of(target).drop_last() == if target == s {
                    self.children_of(s)
                } else {
                    self.children_of(target)
                }
            }),
    {
        self.lemma_subtree_root_between(target, id);
        self.lemma_subtree_root_between_of_subtree(target, id);
        let s = self.subtree_root_between(target, id)->0;
        let after = self.moved_to_parent(id, target);
        self.lemma_ranking();
        self.lemma_in_subtree_rank(self.ranking(), s, target);
        self.lemma_measures(s);
        assert(self.parent_link_ok(id));
        if let Some(op) = self.parent_of(id) {
            self.lemma_measures(id);
            assert(op != id && op != s && op != target);
        }
        if target == s {
            assert(after.children_of(target).drop_last() =~= self.children_of(s));
        } else {
            assert(after.children_of(target).drop_last() =~= self.children_of(target));
        }
    }

    /// Moving a node under a node that does not lie below it takes it out
    /// of its parent's children and makes it the last child of the target.
    pub proof fn law_moved_across(self, id: NodeId, target: NodeId)
        requires
            self.wf(),
            self.contains(id),
            self.contains(target),
            !self.in_subtree(id, target),
        ensures
            ({
                let after = self.moved_to_parent(id, target);
                &&& after.parent_of(id) == Some(target)
                &&& after.children_of(target).last() == id
                &&& after.children_of(target).drop_last() == without(self.children_of(target), id)
                &&& after.children_of(id) == self.children_of(id)
                &&& after.root == self.root
                &&& (self.parent_of(id) matches Some(op) ==> op != target ==> after.children_of(op)
                    == without(self.children_of(op), id))
            }),
    {
        let after = self.moved_to_parent(id, target);
        self.lemma_subtree_root_between(target, id);
        self.lemma_in_subtree_step(id, id);
        assert(id != target);
        assert(self.subtree_root_between(target, id) is None);
        assert(self.parent_link_ok(id));
        assert(self.child_links_ok(target));
        if self.parent_of(id) != Some(target) {
            assert(!self.children_of(target).contains(id)) by {
                if self.children_of(target).contains(id) {
                    self.lemma_children_member(target, id);
                }
            }
            crate::seqs::lemma_without_absent(self.children_of(target), id);
            assert(after.children_of(target).drop_last() =~= self.children_of(target));
        } else {
            assert(after.children_of(target).drop_last() =~= without(
                self.children_of(target),
                id,
            ));
        }
        if let Some(op) = self.parent_of(id) {
            self.lemma_measures(id);
            if op == target {
            } else {
                assert(after.children_of(op) == without(self.children_of(op), id));
            }
        }
    }

    /// Moving a node that is not the root to the root: it becomes the root
    /// and has no parent, its former parent no longer lists it, it keeps its
    /// children, and the root that was there becomes its last child. So the
    /// tree has one root again.
    pub proof fn law_moved_to_root(self, id: NodeId)
        requires
            self.wf(),
            self.contains(id),
            self.root != Some(id),
        ensures
            ({
                let after = self.moved_to_root(id);
                &&& after.wf()
                &&& after.root == Some(id)
                &&& after.contains(id)
                &&& after.parent_of(id) is None
                &&& after.data_of(id) == self.data_of(id)
                &&& match self.root {
                    Some(r) => after.children_of(id) == self.children_of(id).push(r)
                        && after.children_of(id).last() == r && after.parent_of(r) == Some(id),
                    None => after.children_of(id) == self.children_of(id),
                }
                &&& (self.parent_of(id) matches Some(op) ==> after.children_of(op) == without(
                    self.children_of(op),
                    id,
                ))
                &&& forall|x: NodeId| self.contains(x) <==> #[trigger] after.contains(x)
            }),
    {
        let after = self.moved_to_root(id);
        let cut = self.cut_to_root(id);
        self.lemma_moved_to_root_wf(id);
        assert(self.parent_link_ok(id));
        if let Some(op) = self.parent_of(id) {
            self.lemma_measures(id);
        }
        match self.root {
            Some(r) => {
                assert(cut.contains(r) && cut.contains(id));
                assert(cut.parent_of(id) is None);
                assert(cut.subtree_root_between(id, r) is None);
                assert(cut.parent_of(r) is None);
                assert(after == cut.attach(id, r));
            },
            None => {},
        }
    }

    /// The height of a tree without a root is 0, and a tree whose only node
    /// is its root has height 1.
    pub proof fn law_height_of_small_trees(node: NodeView<T>)
        requires
            node.detached(),
        ensures
            TreeView::<T>::empty().height() == 0,
            TreeView::<T>::empty().inserted_as_root(node).height() == 1,
    {
        let t = TreeView::<T>::empty();
        t.lemma_small_wf();
        t.lemma_inserted_as_root_wf(node);
        let after = t.inserted_as_root(node);
        let id = t.next_id();
        assert(after.contains(id));
        assert(after.children_of(id).len() == 0);
        assert(after.max_child_height(id, 0) == 0);
    }

    /// The pre-order of a subtree is told by the shape of the tree alone:
    /// two trees with the same nodes and the same children lists give the
    /// same sequence. So a walk that is repeated on a tree that has not
    /// changed hands out the same handles again.
    pub proof fn law_pre_order_repeatable(self, other: TreeView<T>, id: NodeId)
        requires
            self.wf(),
            other.wf(),
            self.contains(id),
            forall|x: NodeId| self.contains(x) <==> other.contains(x),
            forall|x: NodeId|
                self.contains(x) ==> #[trigger] self.children_of(x) == other.children_of(x),
        ensures
            self.pre_order(id) == other.pre_order(id),
        decreases self.down(id), self.children_of(id).len() + 1,
    {
        self.law_pre_order_children_repeatable(other, id, self.children_of(id).len());
    }

    /// The same for the first `k` children of a node.
    pub proof fn law_pre_order_children_repeatable(self, other: TreeView<T>, id: NodeId, k: nat)
        requires
            self.wf(),
            other.wf(),
            self.contains(id),
            k <= self.children_of(id).len(),
            forall|x: NodeId| self.contains(x) <==> other.contains(x),
            forall|x: NodeId|
                self.contains(x) ==> #[trigger] self.children_of(x) == other.children_of(x),
        ensures
            self.pre_order_children(id, k) == other.pre_order_children(id, k),
        decreases self.down(id), k,
    {
        if k > 0 {
            self.lemma_measures_child(id, k - 1);
            self.law_pre_order_children_repeatable(other, id, (k - 1) as nat);
            self.law_pre_order_repeatable(other, self.children_of(id)[k - 1]);
        }
    }

    /// Every node of the tree lies below the root or is the root: no node
    /// has been left without a parent by a removal.
    pub open spec fn rooted(self) -> bool {
        forall|x: NodeId| #[trigger]
            self.contains(x) ==> self.root is Some && self.in_subtree(self.root->0, x)
    }

    /// A rooted tree that is not empty has exactly one node without a
    /// parent, which is its root.
    pub proof fn law_rooted_has_one_top(self, x: NodeId)
        requires
            self.wf(),
            self.rooted(),
            self.contains(x),
        ensures
            self.root is Some,
            self.contains(self.root->0),
            self.parent_of(self.root->0) is None,
            self.parent_of(x) is None <==> self.root == Some(x),
    {
        self.lemma_in_subtree_step(self.root->0, x);
    }

    /// The empty tree is rooted.
    pub proof fn law_empty_rooted()
        ensures
            TreeView::<T>::empty().wf(),
            TreeView::<T>::empty().rooted(),
    {
        TreeView::<T>::empty().lemma_small_wf();
    }

    /// A node that lies below `top` here lies below `top` in a second tree
    /// that has kept the node, and every node above it up to `top`, with
    /// its parent.
    pub proof fn lemma_in_subtree_kept(self, other: TreeView<T>, top: NodeId, y: NodeId)
        requires
            self.wf(),
            other.wf(),
            self.contains(y),
            self.in_subtree(top, y),
            other.contains(top),
            forall|z: NodeId| #[trigger]
                self.in_subtree(z, y) && self.contains(z) && z != top ==> other.contains(z)
                    && other.parent_of(z) == self.parent_of(z),
        ensures
            other.in_subtree(top, y),
        decreases self.up(y),
    {
        if y != top {
            self.lemma_in_subtree_step(y, y);
            self.lemma_measures(y);
            let q = self.parent_of(y)->0;
            assert forall|z: NodeId| #[trigger]
                self.in_subtree(z, q) && self.contains(z) && z != top implies other.contains(z)
                && other.parent_of(z) == self.parent_of(z) by {
                self.lemma_in_subtree_step(z, y);
                assert(self.in_subtree(z, y));
            }
            self.lemma_in_subtree_kept(other, top, q);
            other.lemma_in_subtree_step(top, y);
        } else {
            other.lemma_in_subtree_step(top, top);
        }
    }

    /// Inserting under a node keeps a rooted tree rooted.
    pub proof fn law_inserted_under_rooted(self, parent: NodeId, node: NodeView<T>)
        requires
            self.wf(),
            self.rooted(),
            self.has_room(),
            self.contains(parent),
            node.detached(),
        ensures
            self.inserted_under(parent, node).rooted(),
    {
        let after = self.inserted_under(parent, node);
        let id = self.next_id();
        let r = self.root->0;
        self.lemma_inserted_under_wf(parent, node);
        self.law_inserted_under(parent, node);
        assert(self.contains(r));
        assert forall|x: NodeId| #[trigger] after.contains(x) implies after.root is Some
            && after.in_subtree(after.root->0, x) by {
            if x == id {
                self.lemma_in_subtree_kept(after, r, parent);
                after.lemma_in_subtree_step(r, id);
            } else {
                assert(self.contains(x));
                self.lemma_in_subtree_kept(after, r, x);
            }
        }
    }

    /// Inserting a root keeps a rooted tree rooted.
    pub proof fn law_inserted_as_root_rooted(self, node: NodeView<T>)
        requires
            self.wf(),
            self.rooted(),
            self.has_room(),
            node.detached(),
        ensures
            self.inserted_as_root(node).rooted(),
    {
        let after = self.inserted_as_root(node);
        let id = self.next_id();
        self.lemma_inserted_as_root_wf(node);
        self.law_inserted_as_root(node);
        assert forall|x: NodeId| #[trigger] after.contains(x) implies after.root is Some
            && after.in_subtree(after.root->0, x) by {
            after.lemma_in_subtree_step(id, id);
            if x != id {
                assert(self.contains(x));
                let r = self.root->0;
                assert(self.contains(r));
                self.lemma_in_subtree_kept(after, r, x);
                after.lemma_in_subtree_step(id, r);
                after.lemma_in_subtree_transitive(id, r, x);
            }
        }
    }

    /// Removing a node with its subtree leaves every node outside of the
    /// subtree with the parent, the payload and the children it had, but
    /// that the parent of the removed node no longer lists it.
    pub proof fn lemma_removed_dropping_keeps_parents(self, id: NodeId)
        requires
            self.wf(),
            self.contains(id),
        ensures
            self.removed_dropping(id).root == if self.root == Some(id) {
                None
            } else {
                self.root
            },
            forall|x: NodeId| #[trigger]
                self.in_subtree(id, x) || !self.contains(x) || (self.removed_dropping(id).contains(
                    x,
                ) && self.removed_dropping(id).parent_of(x) == self.parent_of(x)
                    && self.removed_dropping(id).data_of(x) == self.data_of(x)
                    && self.removed_dropping(id).children_of(x) == if self.parent_of(id) == Some(
                    x,
                ) {
                    without(self.children_of(x), id)
                } else {
                    self.children_of(x)
                }),
    {
        let after = self.removed_dropping(id);
        self.lemma_removed_dropping_wf(id);
        self.lemma_post_order(id);
        assert(self.parent_link_ok(id));
        assert forall|x: NodeId| #[trigger]
            self.in_subtree(id, x) || !self.contains(x) || (after.contains(x) && after.parent_of(x)
                == self.parent_of(x) && after.data_of(x) == self.data_of(x) && after.children_of(x)
                == if self.parent_of(id) == Some(x) {
                without(self.children_of(x), id)
            } else {
                self.children_of(x)
            }) by {
            if self.contains(x) && !self.in_subtree(id, x) {
                assert(NodeId::at(x.slot()) == x);
                assert(!self.post_order(id).contains(x));
            }
        }
    }

    /// Removing a node with its subtree keeps a rooted tree rooted.
    pub proof fn law_removed_dropping_rooted(self, id: NodeId)
        requires
            self.wf(),
            self.rooted(),
            self.contains(id),
        ensures
            self.removed_dropping(id).rooted(),
    {
        let after = self.removed_dropping(id);
        let r = self.root->0;
        self.lemma_removed_dropping_wf(id);
        self.lemma_removed_dropping_keeps_parents(id);
        assert(self.contains(r));
        assert forall|x: NodeId| #[trigger] after.contains(x) implies after.root is Some
            && after.in_subtree(after.root->0, x) by {
            assert(self.contains(x) && !self.in_subtree(id, x));
            assert(self.in_subtree(r, x));
            if self.in_subtree(id, r) {
                self.lemma_in_subtree_transitive(id, r, x);
            }
            self.lemma_in_subtree_step(id, id);
            assert(id != r);
            assert forall|z: NodeId| #[trigger]
                self.in_subtree(z, x) && self.contains(z) && z != r implies after.contains(z)
                && after.parent_of(z) == self.parent_of(z) by {
                if self.in_subtree(id, z) {
                    self.lemma_in_subtree_transitive(id, z, x);
                }
            }
            self.lemma_in_subtree_kept(after, r, x);
        }
    }
}

/// Slot `i` of `slots` holds a node.
pub open spec fn live_at<T>(slots: Seq<Option<NodeView<T>>>, i: int) -> bool {
    0 <= i < slots.len() && slots[i] is Some
}

/// Two lists of slots that hold nodes at the same places hold the same
/// number of nodes, however many vacant slots each has.
pub proof fn lemma_count_live_same_places<T>(
    a: Seq<Option<NodeView<T>>>,
    b: Seq<Option<NodeView<T>>>,
)
    requires
        forall|i: int| live_at(a, i) <==> live_at(b, i),
    ensures
        count_live(a) == count_live(b),
    decreases a.len() + b.len(),
{
    if a.len() == 0 && b.len() == 0 {
    } else if a.len() > b.len() || (a.len() == b.len() && a.last() is None) {
        let rest = a.drop_last();
        assert(!live_at(a, a.len() - 1)) by {
            if a.len() > b.len() {
                assert(!live_at(b, a.len() - 1));
            }
        }
        assert forall|i: int| live_at(rest, i) <==> live_at(b, i) by {
            if 0 <= i < rest.len() {
                assert(rest[i] == a[i]);
                assert(live_at(a, i) <==> live_at(rest, i));
            } else {
                assert(live_at(a, i) <==> live_at(b, i));
            }
        }
        lemma_count_live_same_places(rest, b);
    } else if b.len() > a.len() || b.last() is None {
        let rest = b.drop_last();
        assert(!live_at(b, b.len() - 1)) by {
            if b.len() > a.len() {
                assert(!live_at(a, b.len() - 1));
            }
        }
        assert forall|i: int| live_at(a, i) <==> live_at(rest, i) by {
            if 0 <= i < rest.len() {
                assert(rest[i] == b[i]);
                assert(live_at(b, i) <==> live_at(rest, i));
            } else {
                assert(live_at(a, i) <==> live_at(b, i));
            }
        }
        lemma_count_live_same_places(a, rest);
    } else {
        let ra = a.drop_last();
        let rb = b.drop_last();
        assert forall|i: int| live_at(ra, i) <==> live_at(rb, i) by {
            if 0 <= i < ra.len() {
                assert(ra[i] == a[i] && rb[i] == b[i]);
                assert(live_at(a, i) <==> live_at(b, i));
            }
        }
        lemma_count_live_same_places(ra, rb);
    }
}

impl<T: PartialEq> TreeView<T> {
    /// Two trees are equal exactly when they hold the same number of nodes
    /// and every slot that holds a node in the first holds one in the
    /// second, with an equal payload and with a parent of equal payload:
    /// both without a parent in the tree, or both with one, of equal
    /// payloads. The handles of the parents, the order of children, the
    /// roots and the free lists are not compared.
    pub proof fn law_same_as(self, other: TreeView<T>)
        ensures
            self.same_as(other) <==> {
                &&& count_live(self.slots) == count_live(other.slots)
                &&& forall|i: int|
                    #![trigger self.slots[i]]
                    0 <= i < self.slots.len() && self.slots[i] is Some ==> {
                        &&& i < other.slots.len()
                        &&& other.slots[i] is Some
                        &&& self.slots[i]->0.data.eq_spec(&other.slots[i]->0.data)
                        &&& match (self.parent_data_at(i), other.parent_data_at(i)) {
                            (None, None) => true,
                            (Some(x), Some(y)) => x.eq_spec(&y),
                            _ => false,
                        }
                    }
            },
    {
        if self.same_as(other) {
            assert forall|i: int|
                #![trigger self.slots[i]]
                0 <= i < self.slots.len() && self.slots[i] is Some implies {
                &&& i < other.slots.len()
                &&& other.slots[i] is Some
                &&& self.slots[i]->0.data.eq_spec(&other.slots[i]->0.data)
                &&& match (self.parent_data_at(i), other.parent_data_at(i)) {
                    (None, None) => true,
                    (Some(x), Some(y)) => x.eq_spec(&y),
                    _ => false,
                }
            } by {
                assert(self.same_at(other, i));
            }
        }
    }

    /// Two trees that hold the same nodes in the same slots are equal,
    /// whatever their vacant slots, free lists and roots are, if every
    /// payload is equal to itself.
    pub proof fn law_same_as_ignores_vacant_slots(self, other: TreeView<T>)
        requires
            forall|x: T| #[trigger] x.eq_spec(&x),
            forall|i: int| live_at(self.slots, i) <==> live_at(other.slots, i),
            forall|i: int| live_at(self.slots, i) ==> self.slots[i] == other.slots[i],
        ensures
            self.same_as(other),
            other.same_as(self),
    {
        lemma_count_live_same_places(self.slots, other.slots);
        assert forall|i: int| 0 <= i < self.slots.len() implies #[trigger] self.same_at(other, i) by {
            if self.slots[i] is Some {
                assert(live_at(self.slots, i));
                let d = self.slots[i]->0.data;
                assert(d.eq_spec(&d));
                if let Some(p) = self.slots[i]->0.parent {
                    assert(live_at(self.slots, p.slot()) <==> live_at(other.slots, p.slot()));
                    if self.contains(p) {
                        assert(live_at(self.slots, p.slot()));
                        let pd = self.data_of(p);
                        assert(pd.eq_spec(&pd));
                    }
                }
            }
        }
        assert forall|i: int| 0 <= i < other.slots.len() implies #[trigger] other.same_at(self, i) by {
            if other.slots[i] is Some {
                assert(live_at(other.slots, i));
                assert(live_at(self.slots, i));
                let d = other.slots[i]->0.data;
                assert(d.eq_spec(&d));
                if let Some(p) = other.slots[i]->0.parent {
                    assert(live_at(self.slots, p.slot()) <==> live_at(other.slots, p.slot()));
                    if other.contains(p) {
                        assert(live_at(other.slots, p.slot()));
                        assert(live_at(self.slots, p.slot()));
                        let pd = other.data_of(p);
                        assert(pd.eq_spec(&pd));
                    }
                }
            }
        }
    }
}

/// Taking `x` out of two sequences joined, where the second does not hold
/// it, takes it out of the first.
pub proof fn lemma_without_concat_absent(a: Seq<NodeId>, b: Seq<NodeId>, x: NodeId)
    requires
        !b.contains(x),
    ensures
        without(a + b, x) == without(a, x) + b,
    decreases b.len(),
{
    if b.len() == 0 {
        assert(a + b =~= a);
        assert(without(a, x) + b =~= without(a, x));
    } else {
        assert((a + b).drop_last() =~= a + b.drop_last());
        assert((a + b).last() == b.last());
        assert(b[b.len() - 1] == b.last());
        assert forall|j: int| 0 <= j < b.drop_last().len() implies b.drop_last()[j] != x by {
            assert(b[j] == b.drop_last()[j]);
        }
        lemma_without_concat_absent(a, b.drop_last(), x);
        assert(without(a + b, x) =~= without(a, x) + b);
    }
}

} // verus!
