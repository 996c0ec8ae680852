use vstd::prelude::*;
use vstd::std_specs::cmp::PartialEqSpec;
use crate::id::NodeId;
use crate::id::group_node_id;
use crate::node::NodeView;
use crate::seqs::without;

verus! {

broadcast use group_node_id;

/// A tree as a mathematical value: the root handle, the storage slots in
/// order (a removed node leaves `None` behind), and the handles of the empty
/// slots in the order in which they were vacated.
pub struct TreeView<T> {
    pub root: Option<NodeId>,
    pub slots: Seq<Option<NodeView<T>>>,
    pub free: Seq<NodeId>,
}

/// A witness that following parent links never comes back: every node has a
/// number below `bound`, and a child's number is above its parent's.
pub struct Ranking {
    pub rank: spec_fn(NodeId) -> nat,
    pub bound: nat,
}

impl<T> TreeView<T> {
    /// The tree with nothing in it.
    pub open spec fn empty() -> TreeView<T> {
        TreeView { root: None, slots: Seq::empty(), free: Seq::empty() }
    }

    /// `id` names a slot of the storage, occupied or not.
    pub open spec fn in_bounds(self, id: NodeId) -> bool {
        id.slot() < self.slots.len()
    }

    /// `id` names a slot that holds a node.
    pub open spec fn contains(self, id: NodeId) -> bool {
        id.slot() < self.slots.len() && self.slots[id.slot()] is Some
    }

    /// The node in the slot that `id` names.
    pub open spec fn node(self, id: NodeId) -> NodeView<T> {
        self.slots[id.slot()]->0
    }

    /// The payload of the node of `id`.
    pub open spec fn data_of(self, id: NodeId) -> T {
        self.node(id).data
    }

    /// The parent that the node of `id` records.
    pub open spec fn parent_of(self, id: NodeId) -> Option<NodeId> {
        self.node(id).parent
    }

    /// The children of the node of `id`, in order.
    pub open spec fn children_of(self, id: NodeId) -> Seq<NodeId> {
        self.node(id).children
    }

    /// The root, if there is one, holds a node that has no parent.
    pub open spec fn root_ok(self) -> bool {
        self.root matches Some(r) ==> self.contains(r) && self.parent_of(r) is None
    }

    /// The parent of `c`, if it has one, holds a node and lists `c` among its
    /// children.
    pub open spec fn parent_link_ok(self, c: NodeId) -> bool {
        self.parent_of(c) matches Some(p) ==> self.contains(p) && self.children_of(p).contains(c)
    }

    /// No handle occurs twice among the children of `p`, each of them holds a
    /// node, and each of those nodes names `p` as its parent.
    pub open spec fn child_links_ok(self, p: NodeId) -> bool {
        &&& self.children_of(p).no_duplicates()
        &&& forall|i: int|
            0 <= i < self.children_of(p).len() ==> {
                &&& self.contains(#[trigger] self.children_of(p)[i])
                &&& self.parent_of(self.children_of(p)[i]) == Some(p)
            }
    }

    /// Parent and child links agree everywhere.
    pub open spec fn links_ok(self) -> bool {
        forall|id: NodeId| #[trigger]
            self.contains(id) ==> self.parent_link_ok(id) && self.child_links_ok(id)
    }

    /// The free list names exactly the empty slots, each once, and every slot
    /// can be named by a handle.
    pub open spec fn free_ok(self) -> bool {
        &&& self.slots.len() <= u32::MAX + 1
        &&& self.free.no_duplicates()
        &&& forall|i: int|
            0 <= i < self.free.len() ==> self.in_bounds(#[trigger] self.free[i]) && !self.contains(
                self.free[i],
            )
        &&& forall|id: NodeId|
            #[trigger] self.in_bounds(id) && !self.contains(id) ==> self.free.contains(id)
    }

    /// `r` numbers the nodes so that every child is above its parent.
    pub open spec fn ranked_by(self, r: Ranking) -> bool {
        &&& forall|id: NodeId| #[trigger] self.contains(id) ==> (r.rank)(id) < r.bound
        &&& forall|id: NodeId| #[trigger]
            self.contains(id) && self.parent_of(id) is Some ==> (r.rank)(self.parent_of(id)->0) < (
            r.rank)(id)
    }

    /// Following parent links from any node ends: no node is its own ancestor.
    pub open spec fn acyclic(self) -> bool {
        exists|r: Ranking| self.ranked_by(r)
    }

    /// The invariant of a tree: at most one root and it has no parent, parent
    /// and child links agree, no node is its own ancestor, and the free list
    /// names exactly the empty slots.
    pub open spec fn wf(self) -> bool {
        &&& self.root_ok()
        &&& self.links_ok()
        &&& self.free_ok()
        &&& self.acyclic()
    }

    /// Some numbering that witnesses `acyclic`.
    pub closed spec fn ranking(self) -> Ranking {
        choose|r: Ranking| self.ranked_by(r)
    }

    /// A number that gets smaller with every step from a node to its parent.
    pub closed spec fn up(self, id: NodeId) -> nat {
        (self.ranking().rank)(id)
    }

    /// A number that gets smaller with every step from a node to a child.
    pub closed spec fn down(self, id: NodeId) -> nat {
        (self.ranking().bound - (self.ranking().rank)(id)) as nat
    }

    /// The chosen numbering is one that witnesses `acyclic`.
    pub proof fn lemma_ranking(self)
        requires
            self.acyclic(),
        ensures
            self.ranked_by(self.ranking()),
    {
    }

    /// In a well-formed tree both measures move strictly along a link.
    pub proof fn lemma_measures(self, c: NodeId)
        requires
            self.wf(),
            self.contains(c),
            self.parent_of(c) is Some,
        ensures
            self.contains(self.parent_of(c)->0),
            self.up(self.parent_of(c)->0) < self.up(c),
            self.down(c) < self.down(self.parent_of(c)->0),
    {
        let r = self.ranking();
        assert(self.ranked_by(r));
        assert(self.parent_link_ok(c));
    }

    /// The same, told from the parent's side.
    pub proof fn lemma_measures_child(self, p: NodeId, i: int)
        requires
            self.wf(),
            self.contains(p),
            0 <= i < self.children_of(p).len(),
        ensures
            self.contains(self.children_of(p)[i]),
            self.parent_of(self.children_of(p)[i]) == Some(p),
            self.down(self.children_of(p)[i]) < self.down(p),
            self.up(p) < self.up(self.children_of(p)[i]),
    {
        assert(self.child_links_ok(p));
        self.lemma_measures(self.children_of(p)[i]);
    }

    /// The ancestors of `id`, nearest first: its parent, its parent's parent,
    /// and so on up to a node without a parent.
    pub open spec fn ancestors(self, id: NodeId) -> Seq<NodeId>
        decreases self.up(id),
        when self.wf() && self.contains(id)
    {
        match self.parent_of(id) {
            Some(p) => {
                proof {
                    self.lemma_measures(id);
                }
                seq![p] + self.ancestors(p)
            },
            None => Seq::empty(),
        }
    }

    /// `id` is `top` or lies below it.
    pub open spec fn in_subtree(self, top: NodeId, id: NodeId) -> bool
        decreases self.up(id),
        when self.wf() && self.contains(id)
    {
        id == top || match self.parent_of(id) {
            Some(p) => {
                proof {
                    self.lemma_measures(id);
                }
                self.in_subtree(top, p)
            },
            None => false,
        }
    }

    /// Where `upper` is a proper ancestor of `lower`: the child of `upper`
    /// on the path down to `lower`.
    pub open spec fn subtree_root_between(self, lower: NodeId, upper: NodeId) -> Option<NodeId>
        decreases self.up(lower),
        when self.wf() && self.contains(lower)
    {
        match self.parent_of(lower) {
            Some(p) => {
                if p == upper {
                    Some(lower)
                } else {
                    proof {
                        self.lemma_measures(lower);
                    }
                    self.subtree_root_between(p, upper)
                }
            },
            None => None,
        }
    }
}

} // verus!

verus! {

impl<T> TreeView<T> {
    /// The handle that the next node to be stored will get: the slot vacated
    /// last, or a new slot at the end where none is vacant.
    pub open spec fn next_id(self) -> NodeId {
        if self.free.len() > 0 {
            self.free.last()
        } else {
            NodeId::at(self.slots.len() as int)
        }
    }

    /// The storage can take one more node.
    pub open spec fn has_room(self) -> bool {
        self.free.len() > 0 || self.slots.len() <= u32::MAX
    }

    /// The tree with `node` stored under `next_id()`.
    pub open spec fn stored(self, node: NodeView<T>) -> TreeView<T> {
        if self.free.len() > 0 {
            TreeView {
                slots: self.slots.update(self.free.last().slot(), Some(node)),
                free: self.free.drop_last(),
                ..self
            }
        } else {
            TreeView { slots: self.slots.push(Some(node)), ..self }
        }
    }

    /// The tree with the slot of `id` emptied and `id` put on the free list.
    pub open spec fn vacate(self, id: NodeId) -> TreeView<T> {
        TreeView { slots: self.slots.update(id.slot(), None), free: self.free.push(id), ..self }
    }

    /// The tree with `root` as its root.
    pub open spec fn with_root(self, root: Option<NodeId>) -> TreeView<T> {
        TreeView { root, ..self }
    }

    /// The tree with `node` in the slot of `id`.
    pub open spec fn with_node(self, id: NodeId, node: NodeView<T>) -> TreeView<T> {
        TreeView { slots: self.slots.update(id.slot(), Some(node)), ..self }
    }

    /// The tree with `data` as the payload of the node of `id`.
    pub open spec fn with_data(self, id: NodeId, data: T) -> TreeView<T> {
        self.with_node(id, NodeView { data, ..self.node(id) })
    }

    /// The tree with `parent` recorded as the parent of the node of `id`.
    pub open spec fn with_parent(self, id: NodeId, parent: Option<NodeId>) -> TreeView<T> {
        self.with_node(id, NodeView { parent, ..self.node(id) })
    }

    /// The tree with `children` as the children of the node of `id`.
    pub open spec fn with_children(self, id: NodeId, children: Seq<NodeId>) -> TreeView<T> {
        self.with_node(id, NodeView { children, ..self.node(id) })
    }

    /// `parent` recorded as the parent of every node that `ids` names.
    pub open spec fn with_parents(self, ids: Seq<NodeId>, parent: Option<NodeId>) -> TreeView<T> {
        TreeView {
            slots: Seq::new(
                self.slots.len(),
                |i: int|
                    match self.slots[i] {
                        Some(node) => if ids.contains(NodeId::at(i)) {
                            Some(NodeView { parent, ..node })
                        } else {
                            Some(node)
                        },
                        None => None,
                    },
            ),
            ..self
        }
    }

    /// `child` appended to the children of `parent`, and `parent` recorded as
    /// the parent of `child`.
    pub open spec fn attach(self, parent: NodeId, child: NodeId) -> TreeView<T> {
        self.with_children(parent, self.children_of(parent).push(child)).with_parent(
            child,
            Some(parent),
        )
    }

    /// `child` taken out of the children of `parent`. What `child` records
    /// as its parent stays.
    pub open spec fn detach(self, parent: NodeId, child: NodeId) -> TreeView<T> {
        self.with_children(parent, without(self.children_of(parent), child))
    }
}

} // verus!

verus! {

impl<T> TreeView<T> {
    /// A tree with no nodes, or with one node that is the root and is linked
    /// to nothing, is well formed.
    pub proof fn lemma_small_wf(self)
        requires
            self.free.len() == 0,
            self.slots.len() == 0 && self.root is None || {
                &&& self.slots.len() == 1
                &&& self.slots[0] is Some
                &&& self.slots[0]->0.detached()
                &&& self.root == Some(NodeId::at(0))
            },
        ensures
            self.wf(),
    {
        let r = Ranking { rank: |id: NodeId| 0nat, bound: 1 };
        assert(self.ranked_by(r));
    }
}

} // verus!

verus! {

impl<T> TreeView<T> {
    /// A node lies in a subtree exactly when it is the top of it or its
    /// parent lies in it.
    pub proof fn lemma_in_subtree_step(self, top: NodeId, id: NodeId)
        requires
            self.wf(),
            self.contains(id),
        ensures
            self.in_subtree(top, id) <==> id == top || (self.parent_of(id) matches Some(p)
                && self.in_subtree(top, p)),
            self.parent_of(id) matches Some(p) ==> self.contains(p),
    {
        assert(self.parent_link_ok(id));
    }

    /// Any numbering that puts children above their parents puts every node
    /// of a subtree at or above the top of it.
    pub proof fn lemma_in_subtree_rank(self, r: Ranking, top: NodeId, id: NodeId)
        requires
            self.wf(),
            self.contains(id),
            self.ranked_by(r),
            self.in_subtree(top, id),
        ensures
            (r.rank)(top) <= (r.rank)(id),
            id != top ==> (r.rank)(top) < (r.rank)(id),
        decreases self.up(id),
    {
        if id != top {
            self.lemma_measures(id);
            let p = self.parent_of(id)->0;
            self.lemma_in_subtree_rank(r, top, p);
        }
    }

    /// No node lies in the subtree of one of its own descendants.
    pub proof fn lemma_in_subtree_antisymmetric(self, a: NodeId, b: NodeId)
        requires
            self.wf(),
            self.contains(a),
            self.contains(b),
            self.in_subtree(a, b),
            self.in_subtree(b, a),
        ensures
            a == b,
    {
        self.lemma_ranking();
        self.lemma_in_subtree_rank(self.ranking(), a, b);
        self.lemma_in_subtree_rank(self.ranking(), b, a);
    }

    /// The top of a subtree that holds a node of the tree is itself a node
    /// of the tree.
    pub proof fn lemma_in_subtree_contains(self, top: NodeId, id: NodeId)
        requires
            self.wf(),
            self.contains(id),
            self.in_subtree(top, id),
        ensures
            self.contains(top),
        decreases self.up(id),
    {
        if id != top {
            self.lemma_measures(id);
            self.lemma_in_subtree_contains(top, self.parent_of(id)->0);
        }
    }

    /// Lying below is transitive.
    pub proof fn lemma_in_subtree_transitive(self, a: NodeId, b: NodeId, c: NodeId)
        requires
            self.wf(),
            self.contains(c),
            self.in_subtree(b, c),
            self.in_subtree(a, b),
        ensures
            self.in_subtree(a, c),
        decreases self.up(c),
    {
        if c != b {
            self.lemma_measures(c);
            self.lemma_in_subtree_transitive(a, b, self.parent_of(c)->0);
        }
    }

    /// What `subtree_root_between` finds: the child of `upper` whose subtree
    /// holds `lower`, exactly where `lower` lies properly below `upper`.
    pub proof fn lemma_subtree_root_between(self, lower: NodeId, upper: NodeId)
        requires
            self.wf(),
            self.contains(lower),
        ensures
            match self.subtree_root_between(lower, upper) {
                Some(s) => {
                    &&& self.contains(s)
                    &&& self.contains(upper)
                    &&& self.parent_of(s) == Some(upper)
                    &&& self.in_subtree(s, lower)
                    &&& self.in_subtree(upper, lower)
                    &&& lower != upper
                },
                None => self.in_subtree(upper, lower) ==> lower == upper,
            },
        decreases self.up(lower),
    {
        match self.parent_of(lower) {
            Some(p) => {
                self.lemma_measures(lower);
                if p == upper {
                } else {
                    self.lemma_subtree_root_between(p, upper);
                }
                if self.subtree_root_between(lower, upper) is Some {
                    self.lemma_ranking();
                    self.lemma_in_subtree_rank(self.ranking(), upper, p);
                    self.lemma_measures(lower);
                }
            },
            None => {},
        }
    }

    /// A handle among the children of a node names a node of the tree whose
    /// parent is that node.
    pub proof fn lemma_children_member(self, p: NodeId, c: NodeId)
        requires
            self.wf(),
            self.contains(p),
        ensures
            self.children_of(p).contains(c) ==> self.contains(c) && self.parent_of(c) == Some(p)
                && c != p,
    {
        if self.children_of(p).contains(c) {
            let i = choose|i: int| 0 <= i < self.children_of(p).len() && self.children_of(p)[i] == c;
            self.lemma_measures_child(p, i);
        }
    }
}

} // verus!

verus! {

/// The number of slots that hold a node.
pub open spec fn count_live<T>(slots: Seq<Option<NodeView<T>>>) -> nat
    decreases slots.len(),
{
    if slots.len() == 0 {
        0
    } else {
        count_live(slots.drop_last()) + if slots.last() is Some {
            1nat
        } else {
            0nat
        }
    }
}

/// No more slots hold a node than there are slots.
pub proof fn lemma_count_live_le<T>(slots: Seq<Option<NodeView<T>>>)
    ensures
        count_live(slots) <= slots.len(),
    decreases slots.len(),
{
    if slots.len() > 0 {
        lemma_count_live_le(slots.drop_last());
    }
}

impl<T> TreeView<T> {
    /// The number of nodes in the tree.
    pub open spec fn live_count(self) -> nat {
        count_live(self.slots)
    }

    /// The payload of the parent of the node in slot `i`, where it records
    /// a parent and that parent is in the tree.
    pub open spec fn parent_data_at(self, i: int) -> Option<T> {
        match self.slots[i]->0.parent {
            Some(p) => if self.contains(p) {
                Some(self.data_of(p))
            } else {
                None
            },
            None => None,
        }
    }
}

impl<T: PartialEq> TreeView<T> {
    /// Two payloads that may be absent are equal: both are absent, or both
    /// are there and equal.
    pub open spec fn same_payload(a: Option<T>, b: Option<T>) -> bool {
        match (a, b) {
            (None, None) => true,
            (Some(x), Some(y)) => x.eq_spec(&y),
            _ => false,
        }
    }

    /// Slot `i` holds no node in `self`, or it holds a node in both trees,
    /// with equal payloads and with parents of equal payloads.
    pub open spec fn same_at(self, other: TreeView<T>, i: int) -> bool {
        self.slots[i] is Some ==> {
            &&& i < other.slots.len()
            &&& other.slots[i] is Some
            &&& self.slots[i]->0.data.eq_spec(&other.slots[i]->0.data)
            &&& Self::same_payload(self.parent_data_at(i), other.parent_data_at(i))
        }
    }

    /// The two trees are equal: they hold the same number of nodes, and
    /// every slot that holds a node in `self` holds one in `other`, with an
    /// equal payload and with a parent of equal payload. Which slots are
    /// vacant, and in which order they were vacated, does not count.
    pub open spec fn same_as(self, other: TreeView<T>) -> bool {
        &&& self.live_count() == other.live_count()
        &&& forall|i: int| 0 <= i < self.slots.len() ==> #[trigger] self.same_at(other, i)
    }
}

} // verus!

verus! {

/// Two lists of slots of one length are the same list if they hold the same
/// in every slot that a handle names, where a handle can name each slot.
pub proof fn lemma_slots_by_handle<T>(a: Seq<Option<NodeView<T>>>, b: Seq<Option<NodeView<T>>>)
    requires
        a.len() == b.len(),
        a.len() <= u32::MAX + 1,
        forall|x: NodeId| #[trigger] x.slot() < a.len() ==> a[x.slot()] == b[x.slot()],
    ensures
        a == b,
{
    assert forall|i: int| 0 <= i < a.len() implies a[i] == b[i] by {
        let x = NodeId::at(i);
        assert(x.slot() == i);
    }
    assert(a =~= b);
}

} // verus!
