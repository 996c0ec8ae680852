use vstd::prelude::*;
use crate::id::NodeId;
use crate::id::group_node_id;
use crate::model::TreeView;
use crate::node::NodeView;
use crate::seqs::lemma_without_absent;
use crate::seqs::lemma_without_contains;
use crate::seqs::lemma_without_push;

verus! {

broadcast use group_node_id;

/// The greater of two numbers.
pub open spec fn larger(a: nat, b: nat) -> nat {
    if a >= b {
        a
    } else {
        b
    }
}

impl<T> TreeView<T> {
    /// The number of nodes on the path from the top of the tree down to
    /// `id`, both counted.
    pub open spec fn depth_of(self, id: NodeId) -> nat {
        self.ancestors(id).len() + 1
    }

    /// A child is one level deeper than its parent.
    pub proof fn lemma_depth_of_child(self, c: NodeId)
        requires
            self.wf(),
            self.contains(c),
            self.parent_of(c) is Some,
        ensures
            self.depth_of(c) == self.depth_of(self.parent_of(c)->0) + 1,
    {
    }

    /// Every node of the subtree of `id` is a node of `other` too and has
    /// the same children there.
    pub open spec fn agrees_below(self, other: TreeView<T>, id: NodeId) -> bool {
        forall|y: NodeId| #[trigger]
            self.in_subtree(id, y) && self.contains(y) ==> other.contains(y) && other.children_of(
                y,
            ) == self.children_of(y)
    }

    /// The height of a subtree is told by the children lists inside it: a
    /// second tree that has the same children lists there gives the same
    /// height.
    pub proof fn lemma_height_frame(self, other: TreeView<T>, id: NodeId)
        requires
            self.wf(),
            other.wf(),
            self.contains(id),
            self.agrees_below(other, id),
        ensures
            other.height_of(id) == self.height_of(id),
        decreases self.down(id), self.children_of(id).len() + 1,
    {
        self.lemma_in_subtree_step(id, id);
        assert(other.children_of(id) == self.children_of(id));
        self.lemma_max_child_height_frame(other, id, self.children_of(id).len());
    }

    /// The same for the first `k` children of `id`.
    pub proof fn lemma_max_child_height_frame(self, other: TreeView<T>, id: NodeId, k: nat)
        requires
            self.wf(),
            other.wf(),
            self.contains(id),
            k <= self.children_of(id).len(),
            self.agrees_below(other, id),
        ensures
            other.max_child_height(id, k) == self.max_child_height(id, k),
        decreases self.down(id), k,
    {
        self.lemma_in_subtree_step(id, id);
        assert(other.children_of(id) == self.children_of(id));
        if k > 0 {
            let c = self.children_of(id)[k - 1];
            self.lemma_measures_child(id, k - 1);
            self.lemma_max_child_height_frame(other, id, (k - 1) as nat);
            self.lemma_in_subtree_step(id, c);
            assert forall|y: NodeId| #[trigger]
                self.in_subtree(c, y) && self.contains(y) implies other.contains(y)
                && other.children_of(y) == self.children_of(y) by {
                self.lemma_in_subtree_transitive(id, c, y);
                assert(self.in_subtree(id, y));
            }
            self.lemma_height_frame(other, c);
        }
    }

    /// Where a second tree gives every child of `id` the height it has
    /// here, but for the child at position `j`, which it gives the height
    /// `raised` that is no less: the greatest height among the first `k`
    /// children is the same in both, or `raised` where that is greater and
    /// the child at `j` is among them.
    pub proof fn lemma_max_child_height_raised(
        self,
        other: TreeView<T>,
        id: NodeId,
        j: int,
        raised: nat,
        k: nat,
    )
        requires
            self.wf(),
            other.wf(),
            self.contains(id),
            other.contains(id),
            other.children_of(id) == self.children_of(id),
            0 <= j < self.children_of(id).len(),
            k <= self.children_of(id).len(),
            other.height_of(self.children_of(id)[j]) == raised,
            raised >= self.height_of(self.children_of(id)[j]),
            forall|i: int|
                0 <= i < self.children_of(id).len() && i != j ==> other.height_of(
                    #[trigger] self.children_of(id)[i],
                ) == self.height_of(self.children_of(id)[i]),
        ensures
            other.max_child_height(id, k) == if k > j {
                larger(self.max_child_height(id, k), raised)
            } else {
                self.max_child_height(id, k)
            },
        decreases k,
    {
        if k > 0 {
            self.lemma_max_child_height_raised(other, id, j, raised, (k - 1) as nat);
        }
    }

    /// Inserting a root makes the tree one level higher.
    pub proof fn law_height_after_inserted_as_root(self, node: NodeView<T>)
        requires
            self.wf(),
            self.has_room(),
            node.detached(),
        ensures
            self.inserted_as_root(node).height() == self.height() + 1,
    {
        let after = self.inserted_as_root(node);
        let id = self.next_id();
        self.lemma_inserted_as_root_wf(node);
        self.law_inserted_as_root(node);
        match self.root {
            Some(r) => {
                assert(self.agrees_below(after, r));
                self.lemma_height_frame(after, r);
                assert(after.children_of(id).len() == 1);
                assert(after.max_child_height(id, 0) == 0);
                assert(after.max_child_height(id, 1) == after.height_of(r));
                self.lemma_height_le_post_order(r);
            },
            None => {
                assert(after.max_child_height(id, 0) == 0);
            },
        }
    }

    /// After a node has been inserted under `parent`, every node `top`
    /// above `parent`, and `parent` itself, has the height it had, or the
    /// height that the new node gives it where that is greater: two more
    /// than the number of steps from `top` down to `parent`.
    pub proof fn lemma_height_above_inserted(self, parent: NodeId, node: NodeView<T>, top: NodeId)
        requires
            self.wf(),
            self.has_room(),
            self.contains(parent),
            self.contains(top),
            self.in_subtree(top, parent),
            node.detached(),
        ensures
            self.depth_of(parent) >= self.depth_of(top),
            self.inserted_under(parent, node).height_of(top) == larger(
                self.height_of(top),
                (self.depth_of(parent) - self.depth_of(top) + 2) as nat,
            ),
        decreases self.down(top),
    {
        let after = self.inserted_under(parent, node);
        let id = self.next_id();
        self.lemma_inserted_under_wf(parent, node);
        self.law_inserted_under(parent, node);
        self.lemma_height_le_post_order(top);
        let kids = self.children_of(top);
        if top == parent {
            assert forall|i: int| 0 <= i < kids.len() implies after.height_of(#[trigger] kids[i])
                == self.height_of(kids[i]) by {
                self.lemma_unchanged_below_sibling(parent, node, top, i);
            }
            self.lemma_max_child_height_same(after, top, kids.len());
            assert(after.children_of(top) == kids.push(id));
            assert(after.children_of(id).len() == 0);
            assert(after.max_child_height(id, 0) == 0);
            assert(after.height_of(id) == 1);
            assert(after.max_child_height(top, (kids.len() + 1) as nat) == larger(
                after.max_child_height(top, kids.len()),
                1,
            ));
        } else {
            self.lemma_subtree_root_between_of_subtree(parent, top);
            let s = self.subtree_root_between(parent, top)->0;
            self.lemma_subtree_root_between(parent, top);
            self.lemma_children_index(top, s);
            let j = choose|j: int| 0 <= j < kids.len() && kids[j] == s;
            self.lemma_measures_child(top, j);
            self.lemma_height_above_inserted(parent, node, s);
            self.lemma_depth_of_child(s);
            self.lemma_height_le_post_order(s);
            assert forall|i: int| 0 <= i < kids.len() && i != j implies after.height_of(
                #[trigger] kids[i],
            ) == self.height_of(kids[i]) by {
                self.lemma_siblings_disjoint(top, j, i, parent);
                self.lemma_unchanged_below_sibling(parent, node, top, i);
            }
            let raised = after.height_of(s);
            self.lemma_max_child_height_raised(after, top, j, raised, kids.len());
            self.lemma_max_child_height_reaches(top, j, kids.len());
        }
    }

    /// A child of `top` whose subtree does not hold `parent` has the same
    /// height after a node has been inserted under `parent`.
    pub proof fn lemma_unchanged_below_sibling(
        self,
        parent: NodeId,
        node: NodeView<T>,
        top: NodeId,
        i: int,
    )
        requires
            self.wf(),
            self.has_room(),
            self.contains(parent),
            self.contains(top),
            node.detached(),
            0 <= i < self.children_of(top).len(),
            top == parent || !self.in_subtree(self.children_of(top)[i], parent),
        ensures
            self.inserted_under(parent, node).height_of(self.children_of(top)[i])
                == self.height_of(self.children_of(top)[i]),
    {
        let after = self.inserted_under(parent, node);
        let c = self.children_of(top)[i];
        self.lemma_inserted_under_wf(parent, node);
        self.law_inserted_under(parent, node);
        self.lemma_measures_child(top, i);
        if top == parent {
            self.lemma_in_subtree_step(parent, c);
            self.lemma_in_subtree_step(parent, parent);
            if self.in_subtree(c, parent) {
                self.lemma_in_subtree_antisymmetric(c, parent);
            }
        }
        assert forall|y: NodeId| #[trigger]
            self.in_subtree(c, y) && self.contains(y) implies after.contains(y)
            && after.children_of(y) == self.children_of(y) by {
            assert(y != parent);
        }
        self.lemma_height_frame(after, c);
    }

    /// Where a second tree gives the first `k` children of `id` the heights
    /// they have here, the greatest height among them is the same.
    pub proof fn lemma_max_child_height_same(self, other: TreeView<T>, id: NodeId, k: nat)
        requires
            self.wf(),
            other.wf(),
            self.contains(id),
            other.contains(id),
            k <= self.children_of(id).len(),
            k <= other.children_of(id).len(),
            forall|i: int| 0 <= i < k ==> other.children_of(id)[i] == self.children_of(id)[i],
            forall|i: int|
                0 <= i < k ==> other.height_of(#[trigger] self.children_of(id)[i])
                    == self.height_of(self.children_of(id)[i]),
        ensures
            other.max_child_height(id, k) == self.max_child_height(id, k),
        decreases k,
    {
        if k > 0 {
            self.lemma_max_child_height_same(other, id, (k - 1) as nat);
        }
    }

    /// The greatest height among the first `k` children is no less than the
    /// height of any one of them.
    pub proof fn lemma_max_child_height_reaches(self, id: NodeId, j: int, k: nat)
        requires
            self.wf(),
            self.contains(id),
            0 <= j < k <= self.children_of(id).len(),
        ensures
            self.max_child_height(id, k) >= self.height_of(self.children_of(id)[j]),
        decreases k,
    {
        if j < k - 1 {
            self.lemma_max_child_height_reaches(id, j, (k - 1) as nat);
        }
    }

    /// Inserting a node under a node below the root, or under the root,
    /// leaves the height of the tree as it is, unless the new node is
    /// deeper than any node before it: then the height is its depth. So a
    /// node inserted under a deepest node makes the tree one level higher.
    pub proof fn law_height_after_inserted_under(self, parent: NodeId, node: NodeView<T>)
        requires
            self.wf(),
            self.has_room(),
            self.contains(parent),
            self.root is Some,
            self.in_subtree(self.root->0, parent),
            node.detached(),
        ensures
            self.inserted_under(parent, node).height() == larger(
                self.height(),
                self.depth_of(parent) + 1,
            ),
            self.depth_of(parent) == self.height() ==> self.inserted_under(parent, node).height()
                == self.height() + 1,
    {
        let r = self.root->0;
        self.lemma_height_above_inserted(parent, node, r);
        assert(self.ancestors(r).len() == 0);
    }

    /// Where each of the first `k` children of `id` has a height of at most
    /// `bound`, so has the greatest among them.
    pub proof fn lemma_max_child_height_bounded(self, id: NodeId, k: nat, bound: nat)
        requires
            self.wf(),
            self.contains(id),
            k <= self.children_of(id).len(),
            forall|i: int| 0 <= i < k ==> self.height_of(#[trigger] self.children_of(id)[i]) <= bound,
        ensures
            self.max_child_height(id, k) <= bound,
        decreases k,
    {
        if k > 0 {
            self.lemma_max_child_height_bounded(id, (k - 1) as nat, bound);
        }
    }

    /// Removing a subtree makes no node outside of it higher.
    pub proof fn lemma_height_after_removed_dropping(self, id: NodeId, top: NodeId)
        requires
            self.wf(),
            self.contains(id),
            self.contains(top),
            !self.in_subtree(id, top),
        ensures
            self.removed_dropping(id).height_of(top) <= self.height_of(top),
        decreases self.down(top),
    {
        let after = self.removed_dropping(id);
        self.lemma_removed_dropping_wf(id);
        self.lemma_removed_dropping_keeps_parents(id);
        let kids = self.children_of(top);
        let left = after.children_of(top);
        let bound = self.max_child_height(top, kids.len());
        lemma_without_contains(kids, id);
        assert(after.contains(top));
        assert forall|i: int| 0 <= i < left.len() implies after.height_of(#[trigger] left[i])
            <= bound by {
            let c = left[i];
            assert(left.contains(c));
            assert(kids.contains(c));
            let j = choose|j: int| 0 <= j < kids.len() && kids[j] == c;
            self.lemma_measures_child(top, j);
            self.lemma_in_subtree_step(id, c);
            assert(c != id);
            self.lemma_height_after_removed_dropping(id, c);
            self.lemma_max_child_height_reaches(top, j, kids.len());
        }
        after.lemma_max_child_height_bounded(top, left.len(), bound);
    }

    /// Removing a node with its subtree does not make the tree higher, and
    /// removing the root with its subtree leaves a tree of height 0.
    pub proof fn law_height_after_removed_dropping(self, id: NodeId)
        requires
            self.wf(),
            self.contains(id),
        ensures
            self.removed_dropping(id).height() <= self.height(),
            self.root == Some(id) ==> self.removed_dropping(id).height() == 0,
    {
        self.lemma_removed_dropping_keeps_parents(id);
        if let Some(r) = self.root {
            if r != id {
                self.lemma_in_subtree_step(id, r);
                self.lemma_height_after_removed_dropping(id, r);
            }
        }
    }

    /// Removing the node that was inserted last gives the tree the height
    /// it had before: where the node had made the tree one level higher, its
    /// removal makes the tree one level lower again.
    pub proof fn law_height_after_inserted_and_removed(self, parent: NodeId, node: NodeView<T>)
        requires
            self.wf(),
            self.has_room(),
            self.contains(parent),
            node.detached(),
        ensures
            self.inserted_under(parent, node).removed_dropping(self.next_id()).height()
                == self.height(),
    {
        let id = self.next_id();
        let grown = self.inserted_under(parent, node);
        let after = grown.removed_dropping(id);
        self.lemma_inserted_under_wf(parent, node);
        self.law_inserted_under(parent, node);
        grown.lemma_removed_dropping_wf(id);
        grown.lemma_removed_dropping_keeps_parents(id);
        lemma_without_push(self.children_of(parent), id, id);
        lemma_without_absent(self.children_of(parent), id);
        if let Some(r) = self.root {
            assert(self.contains(r));
            assert forall|y: NodeId| #[trigger]
                self.in_subtree(r, y) && self.contains(y) implies after.contains(y)
                && after.children_of(y) == self.children_of(y) by {
                assert(y != id);
                assert(grown.contains(y));
                grown.lemma_in_subtree_step(id, y);
                if grown.in_subtree(id, y) {
                    grown.lemma_below_a_childless_node(id, y);
                }
                if y != parent {
                    self.lemma_children_member(y, id);
                    lemma_without_absent(self.children_of(y), id);
                }
            }
            self.lemma_height_frame(after, r);
        }
    }

    /// Only a node itself lies in the subtree of a node without children.
    pub proof fn lemma_below_a_childless_node(self, top: NodeId, y: NodeId)
        requires
            self.wf(),
            self.contains(y),
            self.contains(top),
            self.children_of(top).len() == 0,
            self.in_subtree(top, y),
        ensures
            y == top,
        decreases self.up(y),
    {
        if y != top {
            self.lemma_measures(y);
            let p = self.parent_of(y)->0;
            self.lemma_below_a_childless_node(top, p);
            assert(self.parent_link_ok(y));
            self.lemma_children_index(top, y);
        }
    }
}

} // verus!
