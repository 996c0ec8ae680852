use vstd::prelude::*;
use crate::id::NodeId;
use crate::id::group_node_id;
use crate::model::Ranking;
use crate::model::TreeView;
use crate::seqs::lemma_push_contains;
use crate::seqs::lemma_push_no_duplicates;
use crate::seqs::lemma_without_contains;
use crate::seqs::lemma_without_no_duplicates;
use crate::seqs::without;

verus! {

broadcast use group_node_id;

impl<T> TreeView<T> {
    /// The tree after the node of `id` has been made the last child of
    /// `target`.
    ///
    /// Where `target` lies below `id`, the child of `id` on the path to
    /// `target` first takes the place of `id`: it becomes the root if `id`
    /// was the root, else the last child of the parent of `id`, or a node
    /// without a parent if `id` had none. The other children of `id` stay
    /// with it. Where `target` does not lie below `id`, the node of `id` is
    /// only taken out of its parent's children.
    pub open spec fn moved_to_parent(self, id: NodeId, target: NodeId) -> TreeView<T> {
        (match self.subtree_root_between(target, id) {
            Some(s) => if self.root == Some(id) {
                self.detach(id, s).with_parent(s, None).with_root(Some(s))
            } else {
                (match self.parent_of(id) {
                    Some(op) => self.detach(op, id).attach(op, s),
                    None => self.with_parent(s, None),
                }).detach(id, s)
            },
            None => match self.parent_of(id) {
                Some(op) => self.detach(op, id),
                None => self,
            },
        }).attach(target, id)
    }

    /// The tree after the node of `id`, which is not the root, has been made
    /// the root with its subtree: the root that was there becomes its last
    /// child.
    pub open spec fn moved_to_root(self, id: NodeId) -> TreeView<T> {
        let cut = self.cut_to_root(id);
        match self.root {
            Some(r) => cut.moved_to_parent(r, id),
            None => cut,
        }
    }

    /// The numbering that lifts the nodes of `moved` above all others.
    pub open spec fn lifted_ranking(self, moved: spec_fn(NodeId) -> bool) -> Ranking {
        let r = self.ranking();
        Ranking {
            rank: |x: NodeId|
                if moved(x) {
                    ((r.rank)(x) + r.bound) as nat
                } else {
                    (r.rank)(x)
                },
            bound: 2 * r.bound,
        }
    }

    /// Moving a node under one that does not lie below it keeps the tree
    /// well formed.
    pub proof fn lemma_moved_across_wf(self, id: NodeId, target: NodeId)
        requires
            self.wf(),
            self.contains(id),
            self.contains(target),
            id != target,
            self.root != Some(id),
            self.subtree_root_between(target, id) is None,
        ensures
            self.moved_to_parent(id, target).wf(),
    {
        let t = self.moved_to_parent(id, target);
        self.lemma_subtree_root_between(target, id);
        assert(!self.in_subtree(id, target));
        assert(self.parent_link_ok(id));
        assert(self.child_links_ok(id));
        assert(self.parent_link_ok(target));
        assert(self.child_links_ok(target));
        self.lemma_in_subtree_step(id, target);
        assert(self.parent_of(target) != Some(id)) by {
            if self.parent_of(target) == Some(id) {
                self.lemma_in_subtree_step(id, id);
            }
        }
        let before = match self.parent_of(id) {
            Some(op) => self.detach(op, id),
            None => self,
        };
        match self.parent_of(id) {
            Some(op) => {
                self.lemma_measures(id);
                assert(self.child_links_ok(op));
                lemma_without_contains(self.children_of(op), id);
                lemma_without_no_duplicates(self.children_of(op), id);
            },
            None => {},
        }
        assert(!before.children_of(target).contains(id)) by {
            if self.parent_of(id) != Some(target) {
                if self.children_of(target).contains(id) {
                    let i = choose|i: int|
                        0 <= i < self.children_of(target).len() && self.children_of(target)[i]
                            == id;
                    assert(self.parent_of(self.children_of(target)[i]) == Some(target));
                }
            }
        }
        assert(before.children_of(target).no_duplicates());
        lemma_push_no_duplicates(before.children_of(target), id);
        assert(t.children_of(target) == before.children_of(target).push(id));
        assert forall|x: NodeId| #[trigger] t.contains(x) implies t.parent_link_ok(x)
            && t.child_links_ok(x) by {
            assert(self.contains(x));
            assert(self.parent_link_ok(x));
            assert(self.child_links_ok(x));
            if x != id {
                if let Some(q) = self.parent_of(x) {
                    assert(self.children_of(q).contains(x));
                    assert(t.children_of(q).contains(x));
                }
            }
            assert forall|i: int| 0 <= i < t.children_of(x).len() implies t.contains(
                #[trigger] t.children_of(x)[i],
            ) && t.parent_of(t.children_of(x)[i]) == Some(x) by {
                let c = t.children_of(x)[i];
                assert(t.children_of(x).contains(c));
                if c != id {
                    assert(self.children_of(x).contains(c));
                    let j = choose|j: int|
                        0 <= j < self.children_of(x).len() && self.children_of(x)[j] == c;
                    assert(self.contains(self.children_of(x)[j]));
                } else {
                    if x != target {
                        if self.children_of(x).contains(c) {
                            let j = choose|j: int|
                                0 <= j < self.children_of(x).len() && self.children_of(x)[j] == c;
                            assert(self.parent_of(self.children_of(x)[j]) == Some(x));
                        }
                    }
                }
            }
        }
        self.lemma_ranking();
        let r = self.ranking();
        let r2 = self.lifted_ranking(|x: NodeId| self.in_subtree(id, x));
        assert(t.ranked_by(r2)) by {
            assert forall|x: NodeId| #[trigger] t.contains(x) implies (r2.rank)(x) < r2.bound by {
                assert(self.contains(x));
            }
            assert forall|x: NodeId| #[trigger] t.contains(x) && t.parent_of(x) is Some implies (
            r2.rank)(t.parent_of(x)->0) < (r2.rank)(x) by {
                assert(self.contains(x));
                assert(self.contains(target));
                self.lemma_in_subtree_step(id, x);
                if x != id {
                    assert(self.parent_link_ok(x));
                }
            }
        }
        self.lemma_same_occupancy_free_ok(t);
    }

    /// Moving a node under one of its own descendants keeps the tree well
    /// formed.
    pub proof fn lemma_moved_down_wf(self, id: NodeId, target: NodeId)
        requires
            self.wf(),
            self.contains(id),
            self.contains(target),
            self.subtree_root_between(target, id) is Some,
        ensures
            self.moved_to_parent(id, target).wf(),
    {
        let t = self.moved_to_parent(id, target);
        let s = self.subtree_root_between(target, id)->0;
        self.lemma_subtree_root_between(target, id);
        self.lemma_ranking();
        let r = self.ranking();
        self.lemma_in_subtree_rank(r, s, target);
        self.lemma_measures(s);
        assert(id != s && id != target);
        assert(self.parent_link_ok(id));
        assert(self.child_links_ok(id));
        assert(self.parent_link_ok(s));
        assert(self.child_links_ok(s));
        assert(self.parent_link_ok(target));
        assert(self.child_links_ok(target));
        lemma_without_contains(self.children_of(id), s);
        lemma_without_no_duplicates(self.children_of(id), s);
        let kept = without(self.children_of(id), s);
        assert(!self.children_of(target).contains(id)) by {
            if self.children_of(target).contains(id) {
                let i = choose|i: int|
                    0 <= i < self.children_of(target).len() && self.children_of(target)[i] == id;
                assert(self.parent_of(self.children_of(target)[i]) == Some(target));
                self.lemma_measures(id);
            }
        }
        lemma_push_no_duplicates(self.children_of(target), id);
        match self.parent_of(id) {
            Some(op) => {
                self.lemma_measures(id);
                assert(op != id && op != s && op != target);
                assert(self.root != Some(id));
                assert(self.child_links_ok(op));
                lemma_without_contains(self.children_of(op), id);
                lemma_without_no_duplicates(self.children_of(op), id);
                let rest = without(self.children_of(op), id);
                assert(!rest.contains(s)) by {
                    if self.children_of(op).contains(s) {
                        let i = choose|i: int|
                            0 <= i < self.children_of(op).len() && self.children_of(op)[i] == s;
                        assert(self.parent_of(self.children_of(op)[i]) == Some(op));
                    }
                }
                lemma_push_no_duplicates(rest, s);
                assert(t.children_of(op) == rest.push(s));
                assert(t.children_of(id) == kept);
                assert(t.children_of(target) == self.children_of(target).push(id));
                assert(t.parent_of(s) == Some(op));
                assert(t.parent_of(id) == Some(target));
                assert forall|x: NodeId| #[trigger] t.contains(x) implies t.parent_link_ok(x)
                    && t.child_links_ok(x) by {
                    assert(self.contains(x));
                    assert(self.parent_link_ok(x));
                    assert(self.child_links_ok(x));
                    if x != id && x != s {
                        if let Some(q) = self.parent_of(x) {
                            assert(self.children_of(q).contains(x));
                            assert(t.children_of(q).contains(x));
                        }
                    }
                    assert forall|i: int| 0 <= i < t.children_of(x).len() implies t.contains(
                        #[trigger] t.children_of(x)[i],
                    ) && t.parent_of(t.children_of(x)[i]) == Some(x) by {
                        let c = t.children_of(x)[i];
                        assert(t.children_of(x).contains(c));
                        self.lemma_children_member(x, c);
                    }
                }
            },
            None => {
                assert(t.children_of(id) == kept);
                assert(t.children_of(target) == self.children_of(target).push(id));
                assert(t.parent_of(s) == None::<NodeId>);
                assert(t.parent_of(id) == Some(target));
                assert forall|x: NodeId| #[trigger] t.contains(x) implies t.parent_link_ok(x)
                    && t.child_links_ok(x) by {
                    assert(self.contains(x));
                    assert(self.parent_link_ok(x));
                    assert(self.child_links_ok(x));
                    if x != id && x != s {
                        if let Some(q) = self.parent_of(x) {
                            assert(self.children_of(q).contains(x));
                            assert(t.children_of(q).contains(x));
                        }
                    }
                    assert forall|i: int| 0 <= i < t.children_of(x).len() implies t.contains(
                        #[trigger] t.children_of(x)[i],
                    ) && t.parent_of(t.children_of(x)[i]) == Some(x) by {
                        let c = t.children_of(x)[i];
                        assert(t.children_of(x).contains(c));
                        self.lemma_children_member(x, c);
                    }
                }
            },
        }
        let r2 = self.lifted_ranking(|x: NodeId| self.in_subtree(id, x) && !self.in_subtree(s, x));
        self.lemma_in_subtree_step(id, id);
        self.lemma_in_subtree_step(s, id);
        self.lemma_in_subtree_step(s, s);
        if self.in_subtree(s, id) {
            self.lemma_in_subtree_rank(r, s, id);
        }
        assert(t.ranked_by(r2)) by {
            assert forall|x: NodeId| #[trigger] t.contains(x) implies (r2.rank)(x) < r2.bound by {
                assert(self.contains(x));
            }
            assert forall|x: NodeId| #[trigger] t.contains(x) && t.parent_of(x) is Some implies (
            r2.rank)(t.parent_of(x)->0) < (r2.rank)(x) by {
                assert(self.contains(x));
                assert(self.contains(target));
                self.lemma_in_subtree_step(id, x);
                self.lemma_in_subtree_step(s, x);
                if x == s {
                    let op = self.parent_of(id)->0;
                    self.lemma_measures(id);
                    if self.in_subtree(id, op) {
                        self.lemma_in_subtree_rank(r, id, op);
                    }
                } else if x != id {
                    assert(self.parent_link_ok(x));
                }
            }
        }
        self.lemma_same_occupancy_free_ok(t);
    }

    /// The tree after the node of `id` has been cut from its parent and
    /// named the root.
    pub open spec fn cut_to_root(self, id: NodeId) -> TreeView<T> {
        (match self.parent_of(id) {
            Some(op) => self.detach(op, id),
            None => self,
        }).with_parent(id, None).with_root(Some(id))
    }

    /// Cutting a node from its parent and naming it the root keeps the tree
    /// well formed.
    pub proof fn lemma_cut_to_root_wf(self, id: NodeId)
        requires
            self.wf(),
            self.contains(id),
        ensures
            self.cut_to_root(id).wf(),
    {
        let t = self.cut_to_root(id);
        assert(self.parent_link_ok(id));
        assert(self.child_links_ok(id));
        match self.parent_of(id) {
            Some(op) => {
                self.lemma_measures(id);
                assert(self.child_links_ok(op));
                lemma_without_contains(self.children_of(op), id);
                lemma_without_no_duplicates(self.children_of(op), id);
            },
            None => {},
        }
        assert forall|x: NodeId| #[trigger] t.contains(x) implies t.parent_link_ok(x)
            && t.child_links_ok(x) by {
            assert(self.contains(x));
            assert(self.parent_link_ok(x));
            assert(self.child_links_ok(x));
            if x != id {
                if let Some(q) = self.parent_of(x) {
                    assert(self.children_of(q).contains(x));
                    assert(t.children_of(q).contains(x));
                }
            }
            assert forall|i: int| 0 <= i < t.children_of(x).len() implies t.contains(
                #[trigger] t.children_of(x)[i],
            ) && t.parent_of(t.children_of(x)[i]) == Some(x) by {
                let c = t.children_of(x)[i];
                assert(t.children_of(x).contains(c));
                self.lemma_children_member(x, c);
            }
        }
        self.lemma_ranking();
        let r = self.ranking();
        assert(t.ranked_by(r)) by {
            assert forall|x: NodeId| #[trigger] t.contains(x) implies (r.rank)(x) < r.bound by {
                assert(self.contains(x));
            }
            assert forall|x: NodeId| #[trigger] t.contains(x) && t.parent_of(x) is Some implies (
            r.rank)(t.parent_of(x)->0) < (r.rank)(x) by {
                assert(self.contains(x));
            }
        }
        self.lemma_same_occupancy_free_ok(t);
    }

    /// Moving a node to a parent keeps the tree well formed, unless the
    /// node is the target itself, or is the root and the target does not lie
    /// below it.
    pub proof fn lemma_moved_to_parent_wf(self, id: NodeId, target: NodeId)
        requires
            self.wf(),
            self.contains(id),
            self.contains(target),
            self.can_move_under(id, target),
        ensures
            self.moved_to_parent(id, target).wf(),
    {
        self.lemma_subtree_root_between(target, id);
        if self.subtree_root_between(target, id) is Some {
            self.lemma_moved_down_wf(id, target);
        } else {
            self.lemma_moved_across_wf(id, target);
        }
    }

    /// Moving the node of `id` under `target` is possible: the two differ,
    /// and if the node is the root then `target` lies below it.
    pub open spec fn can_move_under(self, id: NodeId, target: NodeId) -> bool {
        id != target && (self.root == Some(id) ==> self.in_subtree(id, target))
    }

    /// Moving a node that is not the root to the root keeps the tree well
    /// formed.
    pub proof fn lemma_moved_to_root_wf(self, id: NodeId)
        requires
            self.wf(),
            self.contains(id),
            self.root != Some(id),
        ensures
            self.cut_to_root(id).wf(),
            self.moved_to_root(id).wf(),
            self.root matches Some(r) ==> self.cut_to_root(id).can_move_under(r, id)
                && self.cut_to_root(id).contains(r),
    {
        self.lemma_cut_to_root_wf(id);
        let cut = self.cut_to_root(id);
        match self.root {
            Some(r) => {
                assert(cut.subtree_root_between(id, r) is None);
                cut.lemma_moved_across_wf(r, id);
            },
            None => {},
        }
    }
}

} // verus!
