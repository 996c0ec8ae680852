use vstd::prelude::*;
use crate::id::NodeId;
use crate::id::group_node_id;
use crate::model::Ranking;
use crate::model::TreeView;
use crate::node::NodeView;
use crate::seqs::lemma_push_no_duplicates;
use crate::seqs::lemma_without_contains;
use crate::seqs::lemma_without_no_duplicates;
use crate::seqs::without;

verus! {

broadcast use group_node_id;

impl<T> TreeView<T> {
    /// The slot that the next node will get is not occupied, and a handle
    /// can name it.
    pub proof fn lemma_next_id(self)
        requires
            self.wf(),
            self.has_room(),
        ensures
            !self.contains(self.next_id()),
            self.next_id().slot() <= self.slots.len(),
            self.free.len() == 0 ==> self.next_id().slot() == self.slots.len(),
            self.free.len() > 0 ==> self.in_bounds(self.next_id()),
    {
        if self.free.len() > 0 {
            assert(self.free[self.free.len() - 1] == self.free.last());
        }
    }

    /// The tree after `node` has been stored as the last child of `parent`.
    pub open spec fn inserted_under(self, parent: NodeId, node: NodeView<T>) -> TreeView<T> {
        self.stored(node).attach(parent, self.next_id())
    }

    /// The tree after `node` has been stored as the root: a root that was
    /// there becomes its only child.
    pub open spec fn inserted_as_root(self, node: NodeView<T>) -> TreeView<T> {
        let stored = self.stored(node);
        (match self.root {
            Some(r) => stored.attach(self.next_id(), r),
            None => stored,
        }).with_root(Some(self.next_id()))
    }

    /// Storing a node keeps the free list exact.
    pub proof fn lemma_stored_free_ok(self, node: NodeView<T>)
        requires
            self.wf(),
            self.has_room(),
        ensures
            self.stored(node).free_ok(),
            forall|x: NodeId|
                #[trigger] self.stored(node).contains(x) <==> self.contains(x) || x
                    == self.next_id(),
            forall|x: NodeId|
                #[trigger] self.contains(x) ==> self.stored(node).node(x) == self.node(x),
            self.stored(node).node(self.next_id()) == node,
            self.stored(node).root == self.root,
    {
        self.lemma_next_id();
        let id = self.next_id();
        let t = self.stored(node);
        if self.free.len() > 0 {
            let n = self.free.len() - 1;
            assert(self.free[n] == id);
            assert forall|i: int| 0 <= i < t.free.len() implies t.in_bounds(#[trigger] t.free[i])
                && !t.contains(t.free[i]) by {
                assert(t.free[i] == self.free[i]);
                assert(self.free[i] != self.free[n]);
            }
            assert forall|x: NodeId| #[trigger] t.in_bounds(x) && !t.contains(x) implies t.free.contains(
                x,
            ) by {
                assert(self.in_bounds(x) && !self.contains(x));
                assert(self.free.contains(x));
                let j = choose|j: int| 0 <= j < self.free.len() && self.free[j] == x;
                assert(t.free[j] == x);
            }
        } else {
            assert forall|x: NodeId| #[trigger] t.in_bounds(x) && !t.contains(x) implies t.free.contains(
                x,
            ) by {
                assert(self.in_bounds(x) && !self.contains(x));
            }
        }
    }

    /// Inserting under a node of the tree keeps the tree well formed.
    pub proof fn lemma_inserted_under_wf(self, parent: NodeId, node: NodeView<T>)
        requires
            self.wf(),
            self.has_room(),
            self.contains(parent),
            node.detached(),
        ensures
            self.inserted_under(parent, node).wf(),
    {
        self.lemma_next_id();
        self.lemma_stored_free_ok(node);
        let id = self.next_id();
        let s = self.stored(node);
        let t = self.inserted_under(parent, node);
        assert(self.child_links_ok(parent));
        assert(!self.children_of(parent).contains(id)) by {
            if self.children_of(parent).contains(id) {
                let i = choose|i: int|
                    0 <= i < self.children_of(parent).len() && self.children_of(parent)[i] == id;
                assert(self.contains(self.children_of(parent)[i]));
            }
        }
        lemma_push_no_duplicates(self.children_of(parent), id);
        assert forall|x: NodeId| #[trigger] t.contains(x) implies t.parent_link_ok(x)
            && t.child_links_ok(x) by {
            if x == id {
                assert(t.children_of(parent).contains(id));
            } else if x == parent {
                assert(self.parent_link_ok(x));
            } else {
                assert(self.contains(x));
                assert(self.parent_link_ok(x));
                assert(self.child_links_ok(x));
            }
        }
        let r = self.ranking();
        self.lemma_ranking();
        let r2 = Ranking {
            rank: |x: NodeId|
                if x == id {
                    ((r.rank)(parent) + 1) as nat
                } else {
                    (r.rank)(x)
                },
            bound: r.bound + 1,
        };
        assert(t.ranked_by(r2)) by {
            assert forall|x: NodeId| #[trigger] t.contains(x) implies (r2.rank)(x) < r2.bound by {
                if x != id {
                    assert(self.contains(x));
                }
            }
            assert forall|x: NodeId| #[trigger] t.contains(x) && t.parent_of(x) is Some implies (
            r2.rank)(t.parent_of(x)->0) < (r2.rank)(x) by {
                if x != id {
                    assert(self.contains(x));
                    assert(self.parent_link_ok(x));
                }
            }
        }
        s.lemma_same_occupancy_free_ok(t);
    }

    /// Inserting a root keeps the tree well formed.
    pub proof fn lemma_inserted_as_root_wf(self, node: NodeView<T>)
        requires
            self.wf(),
            self.has_room(),
            node.detached(),
        ensures
            self.inserted_as_root(node).wf(),
    {
        self.lemma_next_id();
        self.lemma_stored_free_ok(node);
        let id = self.next_id();
        let s = self.stored(node);
        let t = self.inserted_as_root(node);
        let r = self.ranking();
        self.lemma_ranking();
        let r2 = Ranking {
            rank: |x: NodeId|
                if x == id {
                    0nat
                } else {
                    ((r.rank)(x) + 1) as nat
                },
            bound: r.bound + 1,
        };
        match self.root {
            Some(old_root) => {
                assert(seq![old_root] =~= Seq::<NodeId>::empty().push(old_root));
                assert(t.children_of(id) =~= seq![old_root]);
                assert(self.child_links_ok(old_root));
                assert forall|x: NodeId| #[trigger] t.contains(x) implies t.parent_link_ok(x)
                    && t.child_links_ok(x) by {
                    if x == id {
                    } else if x == old_root {
                        assert(t.children_of(id)[0] == old_root);
                    } else {
                        assert(self.contains(x));
                        assert(self.parent_link_ok(x));
                        assert(self.child_links_ok(x));
                    }
                }
            },
            None => {
                assert forall|x: NodeId| #[trigger] t.contains(x) implies t.parent_link_ok(x)
                    && t.child_links_ok(x) by {
                    if x != id {
                        assert(self.contains(x));
                        assert(self.parent_link_ok(x));
                        assert(self.child_links_ok(x));
                    }
                }
            },
        }
        assert(t.ranked_by(r2)) by {
            assert forall|x: NodeId| #[trigger] t.contains(x) implies (r2.rank)(x) < r2.bound by {
                if x != id {
                    assert(self.contains(x));
                }
            }
            assert forall|x: NodeId| #[trigger] t.contains(x) && t.parent_of(x) is Some implies (
            r2.rank)(t.parent_of(x)->0) < (r2.rank)(x) by {
                if x != id {
                    assert(self.contains(x));
                    assert(self.parent_link_ok(x));
                }
            }
        }
        s.lemma_same_occupancy_free_ok(t);
    }

    /// The tree after the node of `id` has been taken out: its slot is
    /// vacant, its parent no longer lists it, and if it was the root the
    /// tree has none. Its children are not touched.
    pub open spec fn unlinked(self, id: NodeId) -> TreeView<T> {
        let vacated = (if self.root == Some(id) {
            self.with_root(None)
        } else {
            self
        }).vacate(id);
        match self.parent_of(id) {
            Some(p) => vacated.detach(p, id),
            None => vacated,
        }
    }

    /// The tree after the node of `id` has been removed and its children
    /// have been left in the tree without a parent.
    pub open spec fn removed_orphaning(self, id: NodeId) -> TreeView<T> {
        self.with_parents(self.children_of(id), None).unlinked(id)
    }

    /// The tree after the node of `id` has been removed and its children
    /// have been appended, in their order, to the children of its parent.
    /// Without a parent the children are left without one.
    pub open spec fn removed_lifting(self, id: NodeId) -> TreeView<T> {
        match self.parent_of(id) {
            Some(p) => self.with_children(p, self.children_of(p) + self.children_of(id))
                .with_parents(self.children_of(id), Some(p)).unlinked(id),
            None => self.removed_orphaning(id),
        }
    }

    /// Vacating an occupied slot keeps the free list exact.
    pub proof fn lemma_vacate_free_ok(self, id: NodeId)
        requires
            self.free_ok(),
            self.contains(id),
        ensures
            self.vacate(id).free_ok(),
    {
        let t = self.vacate(id);
        assert(!self.free.contains(id)) by {
            if self.free.contains(id) {
                let j = choose|j: int| 0 <= j < self.free.len() && self.free[j] == id;
                assert(!self.contains(self.free[j]));
            }
        }
        lemma_push_no_duplicates(self.free, id);
        assert forall|i: int| 0 <= i < t.free.len() implies t.in_bounds(#[trigger] t.free[i])
            && !t.contains(t.free[i]) by {
            if i < self.free.len() {
                assert(self.in_bounds(self.free[i]) && !self.contains(self.free[i]));
            }
        }
        assert forall|x: NodeId| #[trigger] t.in_bounds(x) && !t.contains(x) implies t.free.contains(
            x,
        ) by {
            if x != id {
                assert(self.in_bounds(x) && !self.contains(x));
            }
        }
    }

    /// A change that leaves the slots' occupancy and the free list alone
    /// keeps the free list exact.
    pub proof fn lemma_same_occupancy_free_ok(self, t: TreeView<T>)
        requires
            self.free_ok(),
            t.free == self.free,
            t.slots.len() == self.slots.len(),
            forall|i: int| 0 <= i < self.slots.len() ==> (t.slots[i] is Some <==> self.slots[i] is Some),
        ensures
            t.free_ok(),
    {
        assert forall|i: int| 0 <= i < t.free.len() implies t.in_bounds(#[trigger] t.free[i])
            && !t.contains(t.free[i]) by {
            assert(self.in_bounds(self.free[i]) && !self.contains(self.free[i]));
        }
        assert forall|x: NodeId| #[trigger] t.in_bounds(x) && !t.contains(x) implies t.free.contains(
            x,
        ) by {
            assert(self.in_bounds(x) && !self.contains(x));
        }
    }

    /// Removing a node and orphaning its children keeps the tree well formed.
    pub proof fn lemma_removed_orphaning_wf(self, id: NodeId)
        requires
            self.wf(),
            self.contains(id),
        ensures
            self.removed_orphaning(id).wf(),
    {
        let kids = self.children_of(id);
        let a = self.with_parents(kids, None);
        let t = self.removed_orphaning(id);
        assert(self.parent_link_ok(id));
        assert(self.child_links_ok(id));
        assert(a.parent_of(id) == self.parent_of(id)) by {
            if kids.contains(id) {
                let i = choose|i: int| 0 <= i < kids.len() && kids[i] == id;
                assert(self.parent_of(kids[i]) == Some(id));
                self.lemma_measures(id);
            }
        }
        match self.parent_of(id) {
            Some(p) => {
                self.lemma_measures(id);
                assert(self.child_links_ok(p));
                lemma_without_contains(self.children_of(p), id);
                lemma_without_no_duplicates(self.children_of(p), id);
                assert(!kids.contains(p)) by {
                    if kids.contains(p) {
                        let i = choose|i: int| 0 <= i < kids.len() && kids[i] == p;
                        self.lemma_measures_child(id, i);
                    }
                }
            },
            None => {},
        }
        assert forall|x: NodeId| #[trigger] t.contains(x) implies t.parent_link_ok(x)
            && t.child_links_ok(x) by {
            assert(self.contains(x) && x != id);
            assert(self.parent_link_ok(x));
            assert(self.child_links_ok(x));
            if !kids.contains(x) {
                if let Some(q) = self.parent_of(x) {
                    assert(q != id);
                    assert(t.children_of(q).contains(x));
                }
            }
            assert forall|i: int| 0 <= i < t.children_of(x).len() implies t.contains(
                #[trigger] t.children_of(x)[i],
            ) && t.parent_of(t.children_of(x)[i]) == Some(x) by {
                let c = t.children_of(x)[i];
                assert(t.children_of(x).contains(c));
                assert(self.children_of(x).contains(c));
                let j = choose|j: int|
                    0 <= j < self.children_of(x).len() && self.children_of(x)[j] == c;
                assert(self.contains(self.children_of(x)[j]));
                assert(self.parent_of(c) == Some(x));
                if kids.contains(c) {
                    let k = choose|k: int| 0 <= k < kids.len() && kids[k] == c;
                    assert(self.parent_of(kids[k]) == Some(id));
                }
            }
        }
        self.lemma_ranking();
        let r = self.ranking();
        assert(t.ranked_by(r)) by {
            assert forall|x: NodeId| #[trigger] t.contains(x) implies (r.rank)(x) < r.bound by {
                assert(self.contains(x));
            }
            assert forall|x: NodeId| #[trigger] t.contains(x) && t.parent_of(x) is Some implies (
            r.rank)(t.parent_of(x)->0) < (r.rank)(x) by {
                assert(self.contains(x));
            }
        }
        self.lemma_vacate_free_ok(id);
        self.vacate(id).lemma_same_occupancy_free_ok(t);
    }

    /// Removing a node and lifting its children keeps the tree well formed.
    pub proof fn lemma_removed_lifting_wf(self, id: NodeId)
        requires
            self.wf(),
            self.contains(id),
        ensures
            self.removed_lifting(id).wf(),
    {
        let kids = self.children_of(id);
        let t = self.removed_lifting(id);
        match self.parent_of(id) {
            None => {
                self.lemma_removed_orphaning_wf(id);
            },
            Some(p) => {
                let joined = self.children_of(p) + kids;
                let a = self.with_children(p, joined).with_parents(kids, Some(p));
                assert(self.parent_link_ok(id));
                assert(self.child_links_ok(id));
                assert(self.child_links_ok(p));
                self.lemma_measures(id);
                assert(!kids.contains(id) && !kids.contains(p)) by {
                    if kids.contains(id) {
                        let i = choose|i: int| 0 <= i < kids.len() && kids[i] == id;
                        self.lemma_measures_child(id, i);
                    }
                    if kids.contains(p) {
                        let i = choose|i: int| 0 <= i < kids.len() && kids[i] == p;
                        self.lemma_measures_child(id, i);
                    }
                }
                assert(a.parent_of(id) == Some(p));
                assert(a.children_of(p) == joined);
                assert forall|i: int, j: int|
                    0 <= i < self.children_of(p).len() && 0 <= j < kids.len() implies self.children_of(
                    p,
                )[i] != kids[j] by {
                    assert(self.parent_of(self.children_of(p)[i]) == Some(p));
                    assert(self.parent_of(kids[j]) == Some(id));
                }
                vstd::seq_lib::lemma_no_dup_in_concat(self.children_of(p), kids);
                lemma_without_contains(joined, id);
                lemma_without_no_duplicates(joined, id);
                assert(t.children_of(p) == without(joined, id));
                assert forall|x: NodeId| #[trigger] t.contains(x) implies t.parent_link_ok(x)
                    && t.child_links_ok(x) by {
                    assert(self.contains(x) && x != id);
                    assert(self.parent_link_ok(x));
                    assert(self.child_links_ok(x));
                    if kids.contains(x) {
                        let k = choose|k: int| 0 <= k < kids.len() && kids[k] == x;
                        assert(joined[self.children_of(p).len() + k] == x);
                        assert(joined.contains(x));
                        assert(t.children_of(p).contains(x));
                    } else {
                        if let Some(q) = self.parent_of(x) {
                            assert(q != id);
                            if q == p {
                                let k = choose|k: int|
                                    0 <= k < self.children_of(p).len() && self.children_of(p)[k]
                                        == x;
                                assert(joined[k] == x);
                                assert(joined.contains(x));
                            }
                            assert(t.children_of(q).contains(x));
                        }
                    }
                    assert forall|i: int| 0 <= i < t.children_of(x).len() implies t.contains(
                        #[trigger] t.children_of(x)[i],
                    ) && t.parent_of(t.children_of(x)[i]) == Some(x) by {
                        let c = t.children_of(x)[i];
                        assert(t.children_of(x).contains(c));
                        if x == p {
                            assert(joined.contains(c) && c != id);
                            let j = choose|j: int| 0 <= j < joined.len() && joined[j] == c;
                            if j < self.children_of(p).len() {
                                assert(self.contains(self.children_of(p)[j]));
                                assert(self.parent_of(c) == Some(p));
                                if kids.contains(c) {
                                    let k = choose|k: int| 0 <= k < kids.len() && kids[k] == c;
                                    assert(self.parent_of(kids[k]) == Some(id));
                                }
                            } else {
                                let k = j - self.children_of(p).len();
                                assert(kids[k] == c);
                                assert(self.contains(kids[k]));
                                assert(kids.contains(c));
                            }
                        } else {
                            assert(self.children_of(x).contains(c));
                            let j = choose|j: int|
                                0 <= j < self.children_of(x).len() && self.children_of(x)[j] == c;
                            assert(self.contains(self.children_of(x)[j]));
                            assert(self.parent_of(c) == Some(x));
                            if kids.contains(c) {
                                let k = choose|k: int| 0 <= k < kids.len() && kids[k] == c;
                                assert(self.parent_of(kids[k]) == Some(id));
                            }
                        }
                    }
                }
                self.lemma_ranking();
                let r = self.ranking();
                assert(t.ranked_by(r)) by {
                    assert forall|x: NodeId| #[trigger] t.contains(x) implies (r.rank)(x)
                        < r.bound by {
                        assert(self.contains(x));
                    }
                    assert forall|x: NodeId| #[trigger]
                        t.contains(x) && t.parent_of(x) is Some implies (r.rank)(
                        t.parent_of(x)->0,
                    ) < (r.rank)(x) by {
                        assert(self.contains(x));
                        assert(self.contains(id) && self.parent_of(id) is Some);
                        if kids.contains(x) {
                            let k = choose|k: int| 0 <= k < kids.len() && kids[k] == x;
                            assert(self.parent_of(kids[k]) == Some(id));
                        }
                    }
                }
                self.lemma_vacate_free_ok(id);
                self.vacate(id).lemma_same_occupancy_free_ok(t);
            },
        }
    }

    /// Re-parenting the children of a node changes neither the node's own
    /// parent nor whether that parent is in the tree.
    pub proof fn lemma_unaffected_by_parents(self, id: NodeId)
        requires
            self.wf(),
            self.contains(id),
        ensures
            forall|parent: Option<NodeId>|
                {
                    let a = #[trigger] self.with_parents(self.children_of(id), parent);
                    &&& a.contains(id)
                    &&& a.node(id) == self.node(id)
                    &&& forall|x: NodeId| a.contains(x) == self.contains(x)
                    &&& (self.parent_of(id) matches Some(p) ==> p != id && a.contains(p))
                },
    {
        let kids = self.children_of(id);
        assert(self.parent_link_ok(id));
        assert(!kids.contains(id)) by {
            if kids.contains(id) {
                let i = choose|i: int| 0 <= i < kids.len() && kids[i] == id;
                self.lemma_measures_child(id, i);
            }
        }
        if self.parent_of(id) is Some {
            self.lemma_measures(id);
        }
    }

    /// Putting the children of a node in another order keeps the tree well
    /// formed.
    pub proof fn lemma_reordered_children_wf(self, id: NodeId, children: Seq<NodeId>)
        requires
            self.wf(),
            self.contains(id),
            children.to_multiset() == self.children_of(id).to_multiset(),
        ensures
            self.with_children(id, children).wf(),
            self.with_children(id, self.children_of(id)) == self,
    {
        broadcast use vstd::seq_lib::to_multiset_contains;

        let t = self.with_children(id, children);
        let before = self.children_of(id);
        assert(self.child_links_ok(id));
        assert(self.parent_link_ok(id));
        before.lemma_multiset_has_no_duplicates();
        children.lemma_multiset_has_no_duplicates_conv();
        assert forall|x: NodeId| children.contains(x) <==> before.contains(x) by {
            assert(children.to_multiset().count(x) == before.to_multiset().count(x));
        }
        assert forall|x: NodeId| #[trigger] t.contains(x) implies t.parent_link_ok(x)
            && t.child_links_ok(x) by {
            assert(self.contains(x));
            assert(self.parent_link_ok(x));
            assert(self.child_links_ok(x));
            if let Some(q) = self.parent_of(x) {
                assert(self.children_of(q).contains(x));
                assert(t.children_of(q).contains(x));
            }
            assert forall|i: int| 0 <= i < t.children_of(x).len() implies t.contains(
                #[trigger] t.children_of(x)[i],
            ) && t.parent_of(t.children_of(x)[i]) == Some(x) by {
                let c = t.children_of(x)[i];
                assert(t.children_of(x).contains(c));
                assert(self.children_of(x).contains(c));
                self.lemma_children_member(x, c);
            }
        }
        self.lemma_ranking();
        let r = self.ranking();
        assert(t.ranked_by(r)) by {
            assert forall|x: NodeId| #[trigger] t.contains(x) implies (r.rank)(x) < r.bound by {
                assert(self.contains(x));
            }
            assert forall|x: NodeId| #[trigger] t.contains(x) && t.parent_of(x) is Some implies (
            r.rank)(t.parent_of(x)->0) < (r.rank)(x) by {
                assert(self.contains(x));
            }
        }
        self.lemma_same_occupancy_free_ok(t);
        assert(self.with_children(id, before).slots =~= self.slots);
    }

    /// Writing the payload of a node, or writing the node back with the
    /// links it had, keeps the tree well formed.
    pub proof fn lemma_with_node_wf(self, id: NodeId, node: NodeView<T>)
        requires
            self.wf(),
            self.contains(id),
            node.parent == self.parent_of(id),
            node.children == self.children_of(id),
        ensures
            self.with_node(id, node).wf(),
            self.with_node(id, node) == self.with_data(id, node.data),
    {
        let t = self.with_node(id, node);
        assert forall|x: NodeId| #[trigger] t.contains(x) implies t.parent_link_ok(x)
            && t.child_links_ok(x) by {
            assert(self.contains(x));
            assert(self.parent_link_ok(x));
            assert(self.child_links_ok(x));
        }
        self.lemma_ranking();
        let r = self.ranking();
        assert(t.ranked_by(r)) by {
            assert forall|x: NodeId| #[trigger] t.contains(x) implies (r.rank)(x) < r.bound by {
                assert(self.contains(x));
            }
            assert forall|x: NodeId| #[trigger] t.contains(x) && t.parent_of(x) is Some implies (
            r.rank)(t.parent_of(x)->0) < (r.rank)(x) by {
                assert(self.contains(x));
            }
        }
        self.lemma_same_occupancy_free_ok(t);
    }
}

} // verus!
