use vstd::prelude::*;
use crate::id::NodeId;
use crate::id::group_node_id;
use crate::model::TreeView;
use crate::seqs::lemma_bounded_no_duplicates_len;
use crate::seqs::lemma_reverse_concat;
use crate::seqs::lemma_without_contains;
use crate::seqs::lemma_without_no_duplicates;
use crate::seqs::without;

verus! {

broadcast use group_node_id;

impl<T> TreeView<T> {
    /// The handles of the subtree of `id` in post-order: the subtrees of the
    /// children from first to last, then `id`.
    pub open spec fn post_order(self, id: NodeId) -> Seq<NodeId>
        decreases self.down(id), self.children_of(id).len() + 1,
        when self.wf() && self.contains(id)
    {
        self.post_order_children(id, self.children_of(id).len()) + seq![id]
    }

    /// The post-orders of the first `k` children of `id`, one after another.
    pub open spec fn post_order_children(self, id: NodeId, k: nat) -> Seq<NodeId>
        decreases self.down(id), k,
        when self.wf() && self.contains(id) && k <= self.children_of(id).len()
    {
        if k == 0 {
            Seq::empty()
        } else {
            proof {
                self.lemma_measures_child(id, k - 1);
            }
            self.post_order_children(id, (k - 1) as nat) + self.post_order(
                self.children_of(id)[k - 1],
            )
        }
    }

    /// The handles of the subtree of `id` in pre-order: `id`, then the
    /// subtrees of the children from first to last.
    pub open spec fn pre_order(self, id: NodeId) -> Seq<NodeId>
        decreases self.down(id), self.children_of(id).len() + 1,
        when self.wf() && self.contains(id)
    {
        seq![id] + self.pre_order_children(id, self.children_of(id).len())
    }

    /// The pre-orders of the first `k` children of `id`, one after another.
    pub open spec fn pre_order_children(self, id: NodeId, k: nat) -> Seq<NodeId>
        decreases self.down(id), k,
        when self.wf() && self.contains(id) && k <= self.children_of(id).len()
    {
        if k == 0 {
            Seq::empty()
        } else {
            proof {
                self.lemma_measures_child(id, k - 1);
            }
            self.pre_order_children(id, (k - 1) as nat) + self.pre_order(
                self.children_of(id)[k - 1],
            )
        }
    }

    /// The number of nodes on the longest path from `id` down to a node
    /// without children.
    pub open spec fn height_of(self, id: NodeId) -> nat
        decreases self.down(id), self.children_of(id).len() + 1,
        when self.wf() && self.contains(id)
    {
        1 + self.max_child_height(id, self.children_of(id).len())
    }

    /// The greatest height among the first `k` children of `id`; 0 for none.
    pub open spec fn max_child_height(self, id: NodeId, k: nat) -> nat
        decreases self.down(id), k,
        when self.wf() && self.contains(id) && k <= self.children_of(id).len()
    {
        if k == 0 {
            0
        } else {
            proof {
                self.lemma_measures_child(id, k - 1);
            }
            let rest = self.max_child_height(id, (k - 1) as nat);
            let last = self.height_of(self.children_of(id)[k - 1]);
            if rest >= last {
                rest
            } else {
                last
            }
        }
    }

    /// The height of the tree: 0 without a root, else the height of the
    /// root.
    pub open spec fn height(self) -> nat {
        match self.root {
            Some(r) => self.height_of(r),
            None => 0,
        }
    }

    /// Two nodes whose subtrees share a node lie one below the other.
    pub proof fn lemma_in_subtree_linear(self, a: NodeId, b: NodeId, x: NodeId)
        requires
            self.wf(),
            self.contains(x),
            self.in_subtree(a, x),
            self.in_subtree(b, x),
        ensures
            self.in_subtree(a, b) || self.in_subtree(b, a),
        decreases self.up(x),
    {
        if x != a && x != b {
            self.lemma_measures(x);
            self.lemma_in_subtree_linear(a, b, self.parent_of(x)->0);
        }
    }

    /// The subtrees of two different children of one node share no node.
    pub proof fn lemma_siblings_disjoint(self, p: NodeId, i: int, j: int, x: NodeId)
        requires
            self.wf(),
            self.contains(p),
            self.contains(x),
            0 <= i < self.children_of(p).len(),
            0 <= j < self.children_of(p).len(),
            i != j,
            self.in_subtree(self.children_of(p)[i], x),
        ensures
            !self.in_subtree(self.children_of(p)[j], x),
    {
        let a = self.children_of(p)[i];
        let b = self.children_of(p)[j];
        self.lemma_measures_child(p, i);
        self.lemma_measures_child(p, j);
        assert(self.child_links_ok(p));
        assert(a != b);
        if self.in_subtree(b, x) {
            self.lemma_in_subtree_linear(a, b, x);
            self.lemma_in_subtree_step(a, b);
            self.lemma_in_subtree_step(b, a);
            self.lemma_in_subtree_step(p, a);
            self.lemma_in_subtree_step(p, b);
            self.lemma_in_subtree_step(p, p);
            if self.in_subtree(a, b) {
                self.lemma_in_subtree_antisymmetric(a, p);
            } else {
                self.lemma_in_subtree_antisymmetric(b, p);
            }
        }
    }

    /// The post-order of a subtree holds exactly the nodes of the subtree,
    /// each once.
    pub proof fn lemma_post_order(self, id: NodeId)
        requires
            self.wf(),
            self.contains(id),
        ensures
            self.post_order(id).no_duplicates(),
            self.post_order(id).len() > 0,
            self.post_order(id).last() == id,
            forall|x: NodeId| #[trigger]
                self.post_order(id).contains(x) <==> self.contains(x) && self.in_subtree(id, x),
        decreases self.down(id), self.children_of(id).len() + 1,
    {
        let n = self.children_of(id).len();
        let below = self.post_order_children(id, n);
        let all = self.post_order(id);
        self.lemma_post_order_children(id, n);
        self.lemma_in_subtree_step(id, id);
        assert(all =~= below.push(id));
        assert(all[all.len() - 1] == id);
        assert forall|x: NodeId| #[trigger] all.contains(x) <==> self.contains(x)
            && self.in_subtree(id, x) by {
            if all.contains(x) {
                let i = choose|i: int| 0 <= i < all.len() && all[i] == x;
                if i < below.len() {
                    assert(below[i] == x);
                    assert(below.contains(x));
                    let j = choose|j: int|
                        0 <= j < n && #[trigger] self.in_subtree(self.children_of(id)[j], x);
                    let c = self.children_of(id)[j];
                    self.lemma_measures_child(id, j);
                    self.lemma_in_subtree_step(id, c);
                    self.lemma_in_subtree_transitive(id, c, x);
                }
            }
            if self.contains(x) && self.in_subtree(id, x) {
                if x == id {
                    assert(all[all.len() - 1] == x);
                } else {
                    self.lemma_subtree_root_between_of_subtree(x, id);
                    let s = self.subtree_root_between(x, id)->0;
                    self.lemma_children_index(id, s);
                    let j = choose|j: int|
                        0 <= j < self.children_of(id).len() && self.children_of(id)[j] == s;
                    assert(self.in_subtree(self.children_of(id)[j], x));
                    assert(below.contains(x));
                    let i = choose|i: int| 0 <= i < below.len() && below[i] == x;
                    assert(all[i] == x);
                }
            }
        }
        assert(!below.contains(id)) by {
            if below.contains(id) {
                let j = choose|j: int|
                    0 <= j < n && #[trigger] self.in_subtree(self.children_of(id)[j], id);
                self.lemma_measures_child(id, j);
                self.lemma_in_subtree_step(id, self.children_of(id)[j]);
                self.lemma_in_subtree_antisymmetric(id, self.children_of(id)[j]);
            }
        }
        assert forall|i: int, j: int| 0 <= i < all.len() && 0 <= j < all.len() && i != j implies all[i]
            != all[j] by {
            if i < below.len() && j < below.len() {
                assert(below[i] != below[j]);
            } else if i < below.len() {
                assert(below[i] == all[i]);
                assert(below.contains(all[i]));
            } else {
                assert(below[j] == all[j]);
                assert(below.contains(all[j]));
            }
        }
    }

    /// The post-orders of the first `k` children hold exactly the nodes of
    /// those children's subtrees, each once.
    pub proof fn lemma_post_order_children(self, id: NodeId, k: nat)
        requires
            self.wf(),
            self.contains(id),
            k <= self.children_of(id).len(),
        ensures
            self.post_order_children(id, k).no_duplicates(),
            forall|x: NodeId| #[trigger]
                self.post_order_children(id, k).contains(x) <==> self.contains(x) && exists|j: int|
                    0 <= j < k && #[trigger] self.in_subtree(self.children_of(id)[j], x),
        decreases self.down(id), k,
    {
        let cur = self.post_order_children(id, k);
        if k == 0 {
        } else {
            let c = self.children_of(id)[k - 1];
            self.lemma_measures_child(id, k - 1);
            let prev = self.post_order_children(id, (k - 1) as nat);
            let sub = self.post_order(c);
            self.lemma_post_order_children(id, (k - 1) as nat);
            self.lemma_post_order(c);
            assert(cur == prev + sub);
            assert forall|x: NodeId| #[trigger] cur.contains(x) <==> self.contains(x) && exists|
                j: int,
            |
                0 <= j < k && #[trigger] self.in_subtree(self.children_of(id)[j], x) by {
                if cur.contains(x) {
                    let i = choose|i: int| 0 <= i < cur.len() && cur[i] == x;
                    if i < prev.len() {
                        assert(prev[i] == x);
                        assert(prev.contains(x));
                    } else {
                        assert(sub[i - prev.len()] == x);
                        assert(sub.contains(x));
                        assert(self.in_subtree(self.children_of(id)[k - 1], x));
                    }
                }
                if self.contains(x) && exists|j: int|
                    0 <= j < k && #[trigger] self.in_subtree(self.children_of(id)[j], x) {
                    let j = choose|j: int|
                        0 <= j < k && #[trigger] self.in_subtree(self.children_of(id)[j], x);
                    if j < k - 1 {
                        assert(prev.contains(x));
                        let i = choose|i: int| 0 <= i < prev.len() && prev[i] == x;
                        assert(cur[i] == x);
                    } else {
                        assert(sub.contains(x));
                        let i = choose|i: int| 0 <= i < sub.len() && sub[i] == x;
                        assert(cur[prev.len() + i] == x);
                    }
                }
            }
            assert forall|i: int, j: int| 0 <= i < prev.len() && 0 <= j < sub.len() implies prev[i]
                != sub[j] by {
                if prev[i] == sub[j] {
                    let x = prev[i];
                    assert(prev.contains(x));
                    assert(sub.contains(x));
                    let m = choose|m: int|
                        0 <= m < k - 1 && #[trigger] self.in_subtree(self.children_of(id)[m], x);
                    self.lemma_siblings_disjoint(id, m, k - 1, x);
                }
            }
            vstd::seq_lib::lemma_no_dup_in_concat(prev, sub);
        }
    }

    /// The pre-order of a subtree starts with the top of the subtree and
    /// holds exactly the nodes of the subtree, each once.
    pub proof fn law_pre_order(self, id: NodeId)
        requires
            self.wf(),
            self.contains(id),
        ensures
            self.pre_order(id).no_duplicates(),
            self.pre_order(id).len() > 0,
            self.pre_order(id)[0] == id,
            forall|x: NodeId| #[trigger]
                self.pre_order(id).contains(x) <==> self.contains(x) && self.in_subtree(id, x),
        decreases self.down(id), self.children_of(id).len() + 1,
    {
        let n = self.children_of(id).len();
        let below = self.pre_order_children(id, n);
        let all = self.pre_order(id);
        self.law_pre_order_children(id, n);
        self.lemma_in_subtree_step(id, id);
        assert(all =~= seq![id] + below);
        assert forall|x: NodeId| #[trigger] all.contains(x) <==> self.contains(x)
            && self.in_subtree(id, x) by {
            if all.contains(x) {
                let i = choose|i: int| 0 <= i < all.len() && all[i] == x;
                if i > 0 {
                    assert(below[i - 1] == x);
                    assert(below.contains(x));
                    let j = choose|j: int|
                        0 <= j < n && #[trigger] self.in_subtree(self.children_of(id)[j], x);
                    let c = self.children_of(id)[j];
                    self.lemma_measures_child(id, j);
                    self.lemma_in_subtree_step(id, c);
                    self.lemma_in_subtree_transitive(id, c, x);
                }
            }
            if self.contains(x) && self.in_subtree(id, x) {
                if x == id {
                    assert(all[0] == x);
                } else {
                    self.lemma_subtree_root_between_of_subtree(x, id);
                    let s = self.subtree_root_between(x, id)->0;
                    self.lemma_children_index(id, s);
                    let j = choose|j: int|
                        0 <= j < self.children_of(id).len() && self.children_of(id)[j] == s;
                    assert(self.in_subtree(self.children_of(id)[j], x));
                    assert(below.contains(x));
                    let i = choose|i: int| 0 <= i < below.len() && below[i] == x;
                    assert(all[i + 1] == x);
                }
            }
        }
        assert(!below.contains(id)) by {
            if below.contains(id) {
                let j = choose|j: int|
                    0 <= j < n && #[trigger] self.in_subtree(self.children_of(id)[j], id);
                self.lemma_measures_child(id, j);
                self.lemma_in_subtree_step(id, self.children_of(id)[j]);
                self.lemma_in_subtree_antisymmetric(id, self.children_of(id)[j]);
            }
        }
        assert forall|i: int, j: int| 0 <= i < all.len() && 0 <= j < all.len() && i != j implies all[i]
            != all[j] by {
            if i > 0 && j > 0 {
                assert(below[i - 1] != below[j - 1]);
            } else if i > 0 {
                assert(below[i - 1] == all[i]);
                assert(below.contains(all[i]));
            } else {
                assert(below[j - 1] == all[j]);
                assert(below.contains(all[j]));
            }
        }
    }

    /// The pre-orders of the first `k` children hold exactly the nodes of
    /// those children's subtrees, each once.
    pub proof fn law_pre_order_children(self, id: NodeId, k: nat)
        requires
            self.wf(),
            self.contains(id),
            k <= self.children_of(id).len(),
        ensures
            self.pre_order_children(id, k).no_duplicates(),
            forall|x: NodeId| #[trigger]
                self.pre_order_children(id, k).contains(x) <==> self.contains(x) && exists|j: int|
                    0 <= j < k && #[trigger] self.in_subtree(self.children_of(id)[j], x),
        decreases self.down(id), k,
    {
        let cur = self.pre_order_children(id, k);
        if k == 0 {
        } else {
            let c = self.children_of(id)[k - 1];
            self.lemma_measures_child(id, k - 1);
            let prev = self.pre_order_children(id, (k - 1) as nat);
            let sub = self.pre_order(c);
            self.law_pre_order_children(id, (k - 1) as nat);
            self.law_pre_order(c);
            assert(cur == prev + sub);
            assert forall|x: NodeId| #[trigger] cur.contains(x) <==> self.contains(x) && exists|
                j: int,
            |
                0 <= j < k && #[trigger] self.in_subtree(self.children_of(id)[j], x) by {
                if cur.contains(x) {
                    let i = choose|i: int| 0 <= i < cur.len() && cur[i] == x;
                    if i < prev.len() {
                        assert(prev[i] == x);
                        assert(prev.contains(x));
                    } else {
                        assert(sub[i - prev.len()] == x);
                        assert(sub.contains(x));
                        assert(self.in_subtree(self.children_of(id)[k - 1], x));
                    }
                }
                if self.contains(x) && exists|j: int|
                    0 <= j < k && #[trigger] self.in_subtree(self.children_of(id)[j], x) {
                    let j = choose|j: int|
                        0 <= j < k && #[trigger] self.in_subtree(self.children_of(id)[j], x);
                    if j < k - 1 {
                        assert(prev.contains(x));
                        let i = choose|i: int| 0 <= i < prev.len() && prev[i] == x;
                        assert(cur[i] == x);
                    } else {
                        assert(sub.contains(x));
                        let i = choose|i: int| 0 <= i < sub.len() && sub[i] == x;
                        assert(cur[prev.len() + i] == x);
                    }
                }
            }
            assert forall|i: int, j: int| 0 <= i < prev.len() && 0 <= j < sub.len() implies prev[i]
                != sub[j] by {
                if prev[i] == sub[j] {
                    let x = prev[i];
                    assert(prev.contains(x));
                    assert(sub.contains(x));
                    let m = choose|m: int|
                        0 <= m < k - 1 && #[trigger] self.in_subtree(self.children_of(id)[m], x);
                    self.lemma_siblings_disjoint(id, m, k - 1, x);
                }
            }
            vstd::seq_lib::lemma_no_dup_in_concat(prev, sub);
        }
    }

    /// Where `x` lies properly below `top`, `subtree_root_between` finds the
    /// child of `top` whose subtree holds `x`.
    pub proof fn lemma_subtree_root_between_of_subtree(self, x: NodeId, top: NodeId)
        requires
            self.wf(),
            self.contains(x),
            self.in_subtree(top, x),
            x != top,
        ensures
            self.subtree_root_between(x, top) is Some,
            self.contains(top),
            self.children_of(top).contains(self.subtree_root_between(x, top)->0),
            self.in_subtree(self.subtree_root_between(x, top)->0, x),
    {
        self.lemma_subtree_root_between(x, top);
        let s = self.subtree_root_between(x, top)->0;
        assert(self.parent_link_ok(s));
    }

    /// A handle among the children of a node stands at some position there.
    pub proof fn lemma_children_index(self, p: NodeId, c: NodeId)
        requires
            self.children_of(p).contains(c),
        ensures
            exists|j: int| 0 <= j < self.children_of(p).len() && self.children_of(p)[j] == c,
    {
    }

    /// What a depth-first walk that takes its next node from the end of
    /// `ids` and visits a node before its children, the last child first,
    /// still has to visit: the reversed post-orders of `ids`, last first.
    pub open spec fn reverse_post_order_all(self, ids: Seq<NodeId>) -> Seq<NodeId>
        decreases ids.len(),
    {
        if ids.len() == 0 {
            Seq::empty()
        } else {
            self.post_order(ids.last()).reverse() + self.reverse_post_order_all(ids.drop_last())
        }
    }

    /// Handles added at the end of the list are visited first.
    pub proof fn lemma_reverse_post_order_all_concat(self, ids: Seq<NodeId>, more: Seq<NodeId>)
        ensures
            self.reverse_post_order_all(ids + more) == self.reverse_post_order_all(more)
                + self.reverse_post_order_all(ids),
        decreases more.len(),
    {
        if more.len() == 0 {
            assert(ids + more =~= ids);
            assert(self.reverse_post_order_all(more) + self.reverse_post_order_all(ids)
                =~= self.reverse_post_order_all(ids));
        } else {
            assert((ids + more).drop_last() =~= ids + more.drop_last());
            assert((ids + more).last() == more.last());
            self.lemma_reverse_post_order_all_concat(ids, more.drop_last());
            assert(self.reverse_post_order_all(ids + more) =~= self.reverse_post_order_all(more)
                + self.reverse_post_order_all(ids));
        }
    }

    /// The reversed post-order of a subtree is its top, then what the walk
    /// has to visit for the children of the top.
    pub proof fn lemma_reverse_post_order(self, id: NodeId)
        requires
            self.wf(),
            self.contains(id),
        ensures
            self.post_order(id).reverse() == seq![id] + self.reverse_post_order_all(
                self.children_of(id),
            ),
    {
        let n = self.children_of(id).len();
        self.lemma_reverse_post_order_children(id, n);
        assert(self.children_of(id).take(n as int) =~= self.children_of(id));
        lemma_reverse_concat(self.post_order_children(id, n), seq![id]);
        assert(seq![id].reverse() =~= seq![id]);
    }

    /// The same for the first `k` children.
    pub proof fn lemma_reverse_post_order_children(self, id: NodeId, k: nat)
        requires
            self.wf(),
            self.contains(id),
            k <= self.children_of(id).len(),
        ensures
            self.post_order_children(id, k).reverse() == self.reverse_post_order_all(
                self.children_of(id).take(k as int),
            ),
        decreases k,
    {
        let kids = self.children_of(id);
        if k == 0 {
            assert(self.post_order_children(id, k).reverse() =~= Seq::<NodeId>::empty());
        } else {
            self.lemma_reverse_post_order_children(id, (k - 1) as nat);
            assert(kids.take(k as int).drop_last() =~= kids.take(k - 1));
            assert(kids.take(k as int).last() == kids[k - 1]);
            lemma_reverse_concat(
                self.post_order_children(id, (k - 1) as nat),
                self.post_order(kids[k - 1]),
            );
        }
    }

    /// The tree with the slots of `ids` emptied and `ids` appended to the
    /// free list.
    pub open spec fn vacate_all(self, ids: Seq<NodeId>) -> TreeView<T> {
        TreeView {
            slots: Seq::new(
                self.slots.len(),
                |i: int|
                    if ids.contains(NodeId::at(i)) {
                        None
                    } else {
                        self.slots[i]
                    },
            ),
            free: self.free + ids,
            ..self
        }
    }

    /// The tree after the node of `id` has been removed together with the
    /// whole subtree below it. The slots are vacated in post-order, so that
    /// the slot of `id` itself is the one vacated last.
    pub open spec fn removed_dropping(self, id: NodeId) -> TreeView<T> {
        let vacated = (if self.root == Some(id) {
            self.with_root(None)
        } else {
            self
        }).vacate_all(self.post_order(id));
        match self.parent_of(id) {
            Some(p) => vacated.detach(p, id),
            None => vacated,
        }
    }

    /// Removing a node with its subtree keeps the tree well formed, and
    /// leaves exactly the nodes outside of the subtree.
    pub proof fn lemma_removed_dropping_wf(self, id: NodeId)
        requires
            self.wf(),
            self.contains(id),
        ensures
            self.removed_dropping(id).wf(),
            forall|x: NodeId| #[trigger]
                self.removed_dropping(id).contains(x) <==> self.contains(x) && !self.in_subtree(
                    id,
                    x,
                ),
    {
        let t = self.removed_dropping(id);
        let gone = self.post_order(id);
        self.lemma_post_order(id);
        self.lemma_in_subtree_step(id, id);
        assert(self.parent_link_ok(id));
        match self.parent_of(id) {
            Some(p) => {
                self.lemma_measures(id);
                assert(self.child_links_ok(p));
                lemma_without_contains(self.children_of(p), id);
                lemma_without_no_duplicates(self.children_of(p), id);
                self.lemma_in_subtree_step(id, p);
                if self.in_subtree(id, p) {
                    self.lemma_in_subtree_step(p, id);
                    self.lemma_in_subtree_step(p, p);
                    self.lemma_in_subtree_antisymmetric(id, p);
                }
                assert(!gone.contains(p));
                assert(NodeId::at(p.slot()) == p);
                assert(t.children_of(p) == without(self.children_of(p), id));
            },
            None => {},
        }
        assert forall|x: NodeId| #[trigger] t.contains(x) <==> self.contains(x) && !self.in_subtree(
            id,
            x,
        ) by {
            assert(NodeId::at(x.slot()) == x);
            if self.contains(x) {
                assert(gone.contains(x) <==> self.in_subtree(id, x));
            }
        }
        assert forall|x: NodeId| #[trigger] t.contains(x) implies t.parent_link_ok(x)
            && t.child_links_ok(x) by {
            assert(self.contains(x) && !self.in_subtree(id, x));
            assert(NodeId::at(x.slot()) == x);
            assert(self.parent_link_ok(x));
            assert(self.child_links_ok(x));
            self.lemma_in_subtree_step(id, x);
            if let Some(q) = self.parent_of(x) {
                assert(self.children_of(q).contains(x));
                assert(NodeId::at(q.slot()) == q);
                assert(t.children_of(q).contains(x));
            }
            assert forall|i: int| 0 <= i < t.children_of(x).len() implies t.contains(
                #[trigger] t.children_of(x)[i],
            ) && t.parent_of(t.children_of(x)[i]) == Some(x) by {
                let c = t.children_of(x)[i];
                assert(t.children_of(x).contains(c));
                self.lemma_children_member(x, c);
                assert(self.children_of(x).contains(c));
                assert(NodeId::at(c.slot()) == c);
                self.lemma_in_subtree_step(id, c);
            }
        }
        self.lemma_ranking();
        let r = self.ranking();
        assert(t.ranked_by(r)) by {
            assert forall|x: NodeId| #[trigger] t.contains(x) implies (r.rank)(x) < r.bound by {
                assert(self.contains(x));
            }
            assert forall|x: NodeId| #[trigger] t.contains(x) && t.parent_of(x) is Some implies (
            r.rank)(t.parent_of(x)->0) < (r.rank)(x) by {
                assert(self.contains(x));
                assert(NodeId::at(x.slot()) == x);
            }
        }
        assert(t.free_ok()) by {
            assert forall|i: int, j: int|
                0 <= i < self.free.len() && 0 <= j < gone.len() implies self.free[i]
                != gone[j] by {
                assert(!self.contains(self.free[i]));
                assert(gone.contains(gone[j]));
            }
            vstd::seq_lib::lemma_no_dup_in_concat(self.free, gone);
            assert(t.free == self.free + gone);
            assert forall|i: int| 0 <= i < t.free.len() implies t.in_bounds(#[trigger] t.free[i])
                && !t.contains(t.free[i]) by {
                if i < self.free.len() {
                    assert(self.in_bounds(self.free[i]) && !self.contains(self.free[i]));
                } else {
                    assert(gone[i - self.free.len()] == t.free[i]);
                    assert(gone.contains(t.free[i]));
                }
            }
            assert forall|x: NodeId| #[trigger] t.in_bounds(x) && !t.contains(x) implies t.free.contains(
                x,
            ) by {
                if self.contains(x) {
                    assert(gone.contains(x));
                    let j = choose|j: int| 0 <= j < gone.len() && gone[j] == x;
                    assert(t.free[self.free.len() + j] == x);
                } else {
                    assert(self.in_bounds(x));
                    assert(self.free.contains(x));
                    let j = choose|j: int| 0 <= j < self.free.len() && self.free[j] == x;
                    assert(t.free[j] == x);
                }
            }
        }
    }

    /// Vacating no slots changes nothing.
    pub proof fn lemma_vacate_none(self)
        ensures
            self.vacate_all(Seq::empty()) == self,
    {
        let t = self.vacate_all(Seq::empty());
        assert(t.slots =~= self.slots);
        assert(t.free =~= self.free);
    }

    /// The pre-orders of the subtrees of `ids`, one after another.
    pub open spec fn pre_order_all(self, ids: Seq<NodeId>) -> Seq<NodeId>
        decreases ids.len(),
    {
        if ids.len() == 0 {
            Seq::empty()
        } else {
            self.pre_order_all(ids.drop_last()) + self.pre_order(ids.last())
        }
    }

    /// The pre-orders of two lists, one after the other, are the pre-orders
    /// of the joined list.
    pub proof fn lemma_pre_order_all_concat(self, ids: Seq<NodeId>, more: Seq<NodeId>)
        ensures
            self.pre_order_all(ids + more) == self.pre_order_all(ids) + self.pre_order_all(more),
        decreases more.len(),
    {
        if more.len() == 0 {
            assert(ids + more =~= ids);
            assert(self.pre_order_all(ids) + self.pre_order_all(more) =~= self.pre_order_all(ids));
        } else {
            assert((ids + more).drop_last() =~= ids + more.drop_last());
            assert((ids + more).last() == more.last());
            self.lemma_pre_order_all_concat(ids, more.drop_last());
            assert(self.pre_order_all(ids + more) =~= self.pre_order_all(ids) + self.pre_order_all(
                more,
            ));
        }
    }

    /// The pre-order of a list that starts with `id` is `id`, then the
    /// pre-orders of its children and of the rest of the list.
    pub proof fn lemma_pre_order_all_first(self, id: NodeId, rest: Seq<NodeId>)
        requires
            self.wf(),
            self.contains(id),
        ensures
            self.pre_order_all(seq![id] + rest) == seq![id] + self.pre_order_all(
                self.children_of(id) + rest,
            ),
            self.pre_order(id) == seq![id] + self.pre_order_all(self.children_of(id)),
    {
        let kids = self.children_of(id);
        self.lemma_pre_order_all_concat(seq![id], rest);
        self.lemma_pre_order_all_concat(kids, rest);
        self.lemma_pre_order_children(id, kids.len());
        assert(kids.take(kids.len() as int) =~= kids);
        assert(seq![id].drop_last() =~= Seq::<NodeId>::empty());
        assert(self.pre_order_all(Seq::<NodeId>::empty()) =~= Seq::<NodeId>::empty());
        assert(self.pre_order_all(seq![id]) =~= self.pre_order(id));
        assert(self.pre_order_all(seq![id] + rest) =~= seq![id] + self.pre_order_all(kids + rest));
    }

    /// The pre-orders of the first `k` children, told by a list.
    pub proof fn lemma_pre_order_children(self, id: NodeId, k: nat)
        requires
            self.wf(),
            self.contains(id),
            k <= self.children_of(id).len(),
        ensures
            self.pre_order_children(id, k) == self.pre_order_all(
                self.children_of(id).take(k as int),
            ),
        decreases k,
    {
        let kids = self.children_of(id);
        if k == 0 {
        } else {
            self.lemma_pre_order_children(id, (k - 1) as nat);
            assert(kids.take(k as int).drop_last() =~= kids.take(k - 1));
            assert(kids.take(k as int).last() == kids[k - 1]);
        }
    }

    /// A subtree has at least as many nodes as its height.
    pub proof fn lemma_height_le_post_order(self, id: NodeId)
        requires
            self.wf(),
            self.contains(id),
        ensures
            self.height_of(id) <= self.post_order(id).len(),
            1 <= self.height_of(id),
        decreases self.down(id), self.children_of(id).len() + 1,
    {
        self.lemma_max_child_height_le(id, self.children_of(id).len());
    }

    /// The same for the first `k` children.
    pub proof fn lemma_max_child_height_le(self, id: NodeId, k: nat)
        requires
            self.wf(),
            self.contains(id),
            k <= self.children_of(id).len(),
        ensures
            self.max_child_height(id, k) <= self.post_order_children(id, k).len(),
        decreases self.down(id), k,
    {
        if k > 0 {
            self.lemma_measures_child(id, k - 1);
            self.lemma_max_child_height_le(id, (k - 1) as nat);
            self.lemma_height_le_post_order(self.children_of(id)[k - 1]);
        }
    }

    /// The height of a subtree is at most the number of storage slots.
    pub proof fn lemma_height_bound(self, id: NodeId)
        requires
            self.wf(),
            self.contains(id),
        ensures
            1 <= self.height_of(id) <= self.slots.len(),
    {
        self.lemma_height_le_post_order(id);
        self.lemma_post_order(id);
        let order = self.post_order(id);
        assert forall|i: int| 0 <= i < order.len() implies (#[trigger] order[i]).slot()
            < self.slots.len() by {
            assert(order.contains(order[i]));
        }
        lemma_bounded_no_duplicates_len(order, self.slots.len());
    }
}

} // verus!
