use vstd::prelude::*;
use crate::id::NodeId;
use crate::id::group_node_id;
use crate::model::Ranking;
use crate::model::TreeView;
use crate::node::Node;
use crate::seqs::lemma_bounded_no_duplicates_len;
use crate::tree::slots_view;

verus! {

broadcast use group_node_id;

/// The tree that the three parts of a snapshot describe.
pub open spec fn parts_view<T>(
    root: Option<NodeId>,
    nodes: Seq<Option<Node<T>>>,
    free_ids: Seq<NodeId>,
) -> TreeView<T> {
    TreeView { root, slots: slots_view(nodes), free: free_ids }
}

impl<T> TreeView<T> {
    /// Following parent links from `id` reaches a node without a parent in
    /// at most `steps` steps.
    pub open spec fn top_within(self, id: NodeId, steps: nat) -> bool
        decreases steps,
    {
        self.contains(id) && match self.parent_of(id) {
            None => true,
            Some(p) => steps > 0 && self.top_within(p, (steps - 1) as nat),
        }
    }

    /// The number of parent links followed from `id`, up to a node without
    /// a parent or until `steps` have been made.
    pub open spec fn climb_len(self, id: NodeId, steps: nat) -> nat
        decreases steps,
    {
        match self.parent_of(id) {
            None => 0,
            Some(p) => if steps == 0 {
                0
            } else {
                1 + self.climb_len(p, (steps - 1) as nat)
            },
        }
    }

    /// Where the top is reached within `steps`, more steps change nothing.
    pub proof fn lemma_climb_len_settles(self, id: NodeId, steps: nat, more: nat)
        requires
            self.top_within(id, steps),
            steps <= more,
        ensures
            self.top_within(id, more),
            self.climb_len(id, more) == self.climb_len(id, steps),
            self.climb_len(id, steps) <= steps,
        decreases steps,
    {
        if let Some(p) = self.parent_of(id) {
            self.lemma_climb_len_settles(p, (steps - 1) as nat, (more - 1) as nat);
        }
    }

    /// If every node reaches a top within as many steps as there are slots,
    /// no node is its own ancestor.
    pub proof fn lemma_tops_give_acyclic(self)
        requires
            forall|id: NodeId| #[trigger] self.contains(id) ==> self.top_within(id, self.slots.len()),
        ensures
            self.acyclic(),
    {
        let n = self.slots.len();
        let r = Ranking { rank: |id: NodeId| self.climb_len(id, n), bound: n + 1 };
        assert forall|id: NodeId| #[trigger] self.contains(id) implies (r.rank)(id) < r.bound by {
            self.lemma_climb_len_settles(id, n, n);
        }
        assert forall|id: NodeId| #[trigger] self.contains(id) && self.parent_of(id) is Some implies (
        r.rank)(self.parent_of(id)->0) < (r.rank)(id) by {
            let p = self.parent_of(id)->0;
            assert(self.top_within(id, n));
            self.lemma_climb_len_settles(p, (n - 1) as nat, n);
        }
        assert(self.ranked_by(r));
    }

    /// In a well-formed tree the ancestors of a node are nodes of the tree,
    /// all above it, and none occurs twice.
    pub proof fn lemma_ancestors(self, id: NodeId)
        requires
            self.wf(),
            self.contains(id),
        ensures
            self.ancestors(id).no_duplicates(),
            forall|i: int|
                0 <= i < self.ancestors(id).len() ==> self.contains(#[trigger] self.ancestors(id)[i])
                    && self.up(self.ancestors(id)[i]) < self.up(id),
            self.top_within(id, self.ancestors(id).len()),
            self.ancestors(id).len() <= self.slots.len(),
        decreases self.up(id),
    {
        let anc = self.ancestors(id);
        match self.parent_of(id) {
            Some(p) => {
                self.lemma_measures(id);
                self.lemma_ancestors(p);
                let above = self.ancestors(p);
                assert(anc =~= seq![p] + above);
                assert forall|i: int| 0 <= i < anc.len() implies self.contains(#[trigger] anc[i])
                    && self.up(anc[i]) < self.up(id) by {
                    if i > 0 {
                        assert(anc[i] == above[i - 1]);
                    }
                }
                assert forall|i: int, j: int| 0 <= i < anc.len() && 0 <= j < anc.len() && i != j implies anc[i]
                    != anc[j] by {
                    if i > 0 {
                        assert(anc[i] == above[i - 1]);
                    }
                    if j > 0 {
                        assert(anc[j] == above[j - 1]);
                    }
                }
            },
            None => {},
        }
        assert forall|i: int| 0 <= i < anc.len() implies (#[trigger] anc[i]).slot()
            < self.slots.len() by {}
        lemma_bounded_no_duplicates_len(anc, self.slots.len());
    }

    /// In a well-formed tree every node reaches a top within as many steps
    /// as there are slots.
    pub proof fn lemma_wf_gives_tops(self)
        requires
            self.wf(),
        ensures
            forall|id: NodeId| #[trigger] self.contains(id) ==> self.top_within(id, self.slots.len()),
    {
        assert forall|id: NodeId| #[trigger] self.contains(id) implies self.top_within(
            id,
            self.slots.len(),
        ) by {
            self.lemma_ancestors(id);
            self.lemma_climb_len_settles(id, self.ancestors(id).len(), self.slots.len());
        }
    }
}

/// A list of `n` marks, none of them set.
fn new_marks(n: usize) -> (marks: Vec<bool>)
    ensures
        marks@.len() == n,
        forall|i: int| 0 <= i < n ==> !marks@[i],
{
    let mut marks: Vec<bool> = Vec::with_capacity(n);
    let mut i: usize = 0;
    while i < n
        invariant
            i <= n,
            marks@.len() == i,
            forall|k: int| 0 <= k < i ==> !marks@[k],
        decreases n - i,
    {
        marks.push(false);
        i += 1;
    }
    marks
}

/// Whether the free list names exactly the vacant slots, each once.
fn free_list_exact<T>(root: &Option<NodeId>, nodes: &Vec<Option<Node<T>>>, free_ids: &Vec<NodeId>) -> (ok:
    bool)
    requires
        nodes@.len() <= u32::MAX + 1,
    ensures
        ok == parts_view(*root, nodes@, free_ids@).free_ok(),
{
    let ghost t = parts_view(*root, nodes@, free_ids@);
    let n = nodes.len();
    let mut marks = new_marks(n);
    let mut k: usize = 0;
    while k < free_ids.len()
        invariant
            k <= free_ids@.len(),
            n == nodes@.len(),
            marks@.len() == n,
            t == parts_view(*root, nodes@, free_ids@),
            forall|i: int|
                0 <= i < n ==> (marks@[i] <==> exists|j: int|
                    0 <= j < k && (#[trigger] free_ids@[j]).slot() == i),
            forall|j: int|
                0 <= j < k ==> (#[trigger] free_ids@[j]).slot() < n && nodes@[free_ids@[j].slot()] is None,
            forall|j1: int, j2: int| 0 <= j1 < j2 < k ==> free_ids@[j1] != free_ids@[j2],
        decreases free_ids@.len() - k,
    {
        let f = free_ids[k];
        let idx = f.index();
        if idx >= n {
            assert(!t.in_bounds(t.free[k as int]));
            return false;
        }
        if nodes[idx].is_some() {
            assert(t.contains(t.free[k as int]));
            return false;
        }
        if marks[idx] {
            proof {
                let j = choose|j: int| 0 <= j < k && (#[trigger] free_ids@[j]).slot() == idx;
                assert(t.free[j] == t.free[k as int]);
            }
            return false;
        }
        let ghost before = marks@;
        marks.set(idx, true);
        proof {
            assert forall|i: int| 0 <= i < n implies (marks@[i] <==> exists|j: int|
                0 <= j < k + 1 && (#[trigger] free_ids@[j]).slot() == i) by {
                if i == idx {
                    assert(free_ids@[k as int].slot() == i);
                } else {
                    if before[i] {
                        let j = choose|j: int| 0 <= j < k && (#[trigger] free_ids@[j]).slot() == i;
                        assert(0 <= j < k + 1 && free_ids@[j].slot() == i);
                    }
                    if exists|j: int| 0 <= j < k + 1 && (#[trigger] free_ids@[j]).slot() == i {
                        let j = choose|j: int|
                            0 <= j < k + 1 && (#[trigger] free_ids@[j]).slot() == i;
                        assert(j < k);
                    }
                }
            }
            assert forall|j1: int, j2: int| 0 <= j1 < j2 < k + 1 implies free_ids@[j1]
                != free_ids@[j2] by {
                if j2 == k {
                    assert(free_ids@[j1].slot() != idx);
                }
            }
        }
        k += 1;
    }
    let mut i: usize = 0;
    while i < n
        invariant
            i <= n,
            n == nodes@.len(),
            n <= u32::MAX + 1,
            marks@.len() == n,
            t == parts_view(*root, nodes@, free_ids@),
            forall|x: int|
                0 <= x < n ==> (marks@[x] <==> exists|j: int|
                    0 <= j < free_ids@.len() && (#[trigger] free_ids@[j]).slot() == x),
            forall|x: int| 0 <= x < i && nodes@[x] is None ==> marks@[x],
        decreases n - i,
    {
        if nodes[i].is_none() && !marks[i] {
            proof {
                let id = NodeId::at(i as int);
                assert(id.slot() == i);
                assert(t.in_bounds(id) && !t.contains(id));
                if t.free.contains(id) {
                    let j = choose|j: int| 0 <= j < t.free.len() && t.free[j] == id;
                    assert(free_ids@[j].slot() == i);
                }
            }
            return false;
        }
        i += 1;
    }
    proof {
        assert forall|id: NodeId| #[trigger] t.in_bounds(id) && !t.contains(id) implies t.free.contains(
            id,
        ) by {
            let x = id.slot();
            assert(marks@[x]);
            let j = choose|j: int| 0 <= j < free_ids@.len() && (#[trigger] free_ids@[j]).slot() == x;
            assert(t.free[j] == id);
        }
        assert forall|j: int| 0 <= j < t.free.len() implies t.in_bounds(#[trigger] t.free[j])
            && !t.contains(t.free[j]) by {
            assert(free_ids@[j].slot() < n);
        }
    }
    true
}

/// Whether the root, if there is one, is a node without a parent.
fn root_is_top<T>(root: &Option<NodeId>, nodes: &Vec<Option<Node<T>>>, free_ids: &Vec<NodeId>) -> (ok:
    bool)
    ensures
        ok == parts_view(*root, nodes@, free_ids@).root_ok(),
{
    match root {
        Some(r) => {
            let idx = r.index();
            if idx < nodes.len() {
                match &nodes[idx] {
                    Some(node) => node.parent().is_none(),
                    None => false,
                }
            } else {
                false
            }
        },
        None => true,
    }
}

/// The handle at position `j` among the children of the node in slot `q`.
pub open spec fn child_in<T>(t: TreeView<T>, q: int, j: int) -> NodeId {
    t.slots[q]->0.children[j]
}

/// Slot `q` holds a node that has a child at position `j`.
pub open spec fn has_child_at<T>(t: TreeView<T>, q: int, j: int) -> bool {
    0 <= q < t.slots.len() && t.slots[q] is Some && 0 <= j < t.slots[q]->0.children.len()
}

/// Position `j` of slot `q` comes before position `i` of slot `p`.
pub open spec fn comes_before(q: int, j: int, p: int, i: int) -> bool {
    q < p || (q == p && j < i)
}

/// What the walk over all children lists has found up to position `i` of
/// slot `p`: every child met names a node whose parent is the node that
/// lists it, no child was met twice, and `seen` marks the children met.
pub open spec fn children_checked<T>(t: TreeView<T>, seen: Seq<bool>, p: int, i: int) -> bool {
    &&& seen.len() == t.slots.len()
    &&& forall|q: int, j: int|
        has_child_at(t, q, j) && comes_before(q, j, p, i) ==> t.contains(#[trigger] child_in(t, q, j))
            && t.parent_of(child_in(t, q, j)) == Some(NodeId::at(q))
    &&& forall|x: int|
        0 <= x < seen.len() ==> (#[trigger] seen[x] <==> exists|q: int, j: int|
            has_child_at(t, q, j) && comes_before(q, j, p, i) && (#[trigger] child_in(t, q, j)).slot()
                == x)
    &&& forall|q: int, j: int, q2: int, j2: int|
        has_child_at(t, q, j) && comes_before(q, j, p, i) && has_child_at(t, q2, j2) && comes_before(
            q2,
            j2,
            p,
            i,
        ) && (q != q2 || j != j2) ==> #[trigger] child_in(t, q, j) != #[trigger] child_in(t, q2, j2)
}

/// Whether parent and child links agree everywhere.
fn links_agree<T>(root: &Option<NodeId>, nodes: &Vec<Option<Node<T>>>, free_ids: &Vec<NodeId>) -> (ok:
    bool)
    requires
        nodes@.len() <= u32::MAX + 1,
    ensures
        ok == parts_view(*root, nodes@, free_ids@).links_ok(),
{
    let ghost t = parts_view(*root, nodes@, free_ids@);
    let n = nodes.len();
    let mut seen = new_marks(n);
    let mut p: usize = 0;
    while p < n
        invariant
            p <= n,
            n == nodes@.len(),
            n <= u32::MAX + 1,
            t == parts_view(*root, nodes@, free_ids@),
            children_checked(t, seen@, p as int, 0),
        decreases n - p,
    {
        match &nodes[p] {
            Some(node) => {
                let children = node.children();
                let ghost owner = NodeId::at(p as int);
                assert(owner.slot() == p && t.contains(owner));
                let mut i: usize = 0;
                while i < children.len()
                    invariant
                        i <= children@.len(),
                        p < n,
                        n == nodes@.len(),
                        n <= u32::MAX + 1,
                        t == parts_view(*root, nodes@, free_ids@),
                        nodes@[p as int] == Some(*node),
                        children@ == t.slots[p as int]->0.children,
                        owner == NodeId::at(p as int),
                        owner.slot() == p,
                        t.contains(owner),
                        children_checked(t, seen@, p as int, i as int),
                    decreases children@.len() - i,
                {
                    let c = children[i];
                    let ci = c.index();
                    assert(c == child_in(t, p as int, i as int));
                    assert(t.children_of(owner)[i as int] == c);
                    if ci >= n {
                        assert(!t.contains(t.children_of(owner)[i as int]));
                        assert(!t.child_links_ok(owner));
                        return false;
                    }
                    let parent_ok = match &nodes[ci] {
                        Some(child) => match child.parent() {
                            Some(pp) => pp.index() == p,
                            None => false,
                        },
                        None => false,
                    };
                    if !parent_ok {
                        assert(!(t.contains(c) && t.parent_of(c) == Some(owner)));
                        assert(!t.child_links_ok(owner));
                        return false;
                    }
                    if seen[ci] {
                        proof {
                            let (q, j) = choose|q: int, j: int|
                                has_child_at(t, q, j) && comes_before(q, j, p as int, i as int) && (
                                #[trigger] child_in(t, q, j)).slot() == ci;
                            assert(child_in(t, q, j) == c);
                            assert(t.parent_of(c) == Some(NodeId::at(q)));
                            assert(NodeId::at(q).slot() == q);
                            assert(q == p);
                            assert(t.children_of(owner)[j] == t.children_of(owner)[i as int]);
                            assert(!t.children_of(owner).no_duplicates());
                            assert(!t.child_links_ok(owner));
                        }
                        return false;
                    }
                    let ghost before = seen@;
                    seen.set(ci, true);
                    proof {
                        lemma_children_checked_step(t, before, seen@, p as int, i as int);
                    }
                    i += 1;
                }
                proof {
                    lemma_children_checked_next(t, seen@, p as int, i as int);
                }
            },
            None => {
                proof {
                    lemma_children_checked_next(t, seen@, p as int, 0);
                }
            },
        }
        p += 1;
    }
    let mut c: usize = 0;
    while c < n
        invariant
            c <= n,
            n == nodes@.len(),
            n <= u32::MAX + 1,
            t == parts_view(*root, nodes@, free_ids@),
            children_checked(t, seen@, n as int, 0),
            forall|x: int|
                0 <= x < c && t.slots[x] is Some ==> #[trigger] t.parent_link_ok(NodeId::at(x)),
        decreases n - c,
    {
        let ghost id = NodeId::at(c as int);
        assert(id.slot() == c);
        match &nodes[c] {
            Some(node) => {
                match node.parent() {
                    Some(pp) => {
                        let pi = pp.index();
                        let parent_live = pi < n && nodes[pi].is_some();
                        if !parent_live {
                            assert(!t.parent_link_ok(id));
                            assert(t.contains(id));
                            return false;
                        }
                        if !seen[c] {
                            proof {
                                assert(t.contains(id));
                                if t.children_of(*pp).contains(id) {
                                    let j = choose|j: int|
                                        0 <= j < t.children_of(*pp).len() && t.children_of(*pp)[j]
                                            == id;
                                    assert(has_child_at(t, pi as int, j));
                                    assert(comes_before(pi as int, j, n as int, 0));
                                    assert(child_in(t, pi as int, j).slot() == c);
                                }
                                assert(!t.parent_link_ok(id));
                            }
                            return false;
                        }
                        proof {
                            let (q, j) = choose|q: int, j: int|
                                has_child_at(t, q, j) && comes_before(q, j, n as int, 0) && (
                                #[trigger] child_in(t, q, j)).slot() == c;
                            assert(child_in(t, q, j) == id);
                            assert(NodeId::at(q).slot() == q);
                            assert(q == pi);
                            assert(t.children_of(*pp)[j] == id);
                        }
                    },
                    None => {},
                }
            },
            None => {},
        }
        c += 1;
    }
    proof {
        assert forall|id: NodeId| #[trigger] t.contains(id) implies t.parent_link_ok(id)
            && t.child_links_ok(id) by {
            let q = id.slot();
            assert(NodeId::at(q) == id);
            assert(t.parent_link_ok(NodeId::at(q)));
            assert forall|i: int| 0 <= i < t.children_of(id).len() implies t.contains(
                #[trigger] t.children_of(id)[i],
            ) && t.parent_of(t.children_of(id)[i]) == Some(id) by {
                assert(has_child_at(t, q, i));
                assert(comes_before(q, i, n as int, 0));
                assert(t.children_of(id)[i] == child_in(t, q, i));
            }
            assert forall|i: int, j: int|
                0 <= i < t.children_of(id).len() && 0 <= j < t.children_of(id).len() && i
                    != j implies t.children_of(id)[i] != t.children_of(id)[j] by {
                assert(has_child_at(t, q, i) && comes_before(q, i, n as int, 0));
                assert(has_child_at(t, q, j) && comes_before(q, j, n as int, 0));
                assert(child_in(t, q, i) != child_in(t, q, j));
            }
        }
    }
    true
}

/// One more child has been checked and marked.
proof fn lemma_children_checked_step<T>(
    t: TreeView<T>,
    before: Seq<bool>,
    after: Seq<bool>,
    p: int,
    i: int,
)
    requires
        children_checked(t, before, p, i),
        has_child_at(t, p, i),
        t.slots.len() <= u32::MAX + 1,
        t.contains(child_in(t, p, i)),
        t.parent_of(child_in(t, p, i)) == Some(NodeId::at(p)),
        !before[child_in(t, p, i).slot()],
        after == before.update(child_in(t, p, i).slot(), true),
    ensures
        children_checked(t, after, p, i + 1),
{
    let c = child_in(t, p, i);
    assert forall|q: int, j: int| has_child_at(t, q, j) && comes_before(q, j, p, i + 1) implies t.contains(
        #[trigger] child_in(t, q, j),
    ) && t.parent_of(child_in(t, q, j)) == Some(NodeId::at(q)) by {
        if !(q == p && j == i) {
            assert(comes_before(q, j, p, i));
        }
    }
    assert forall|x: int| 0 <= x < after.len() implies (#[trigger] after[x] <==> exists|
        q: int,
        j: int,
    |
        has_child_at(t, q, j) && comes_before(q, j, p, i + 1) && (#[trigger] child_in(t, q, j)).slot()
            == x) by {
        if x == c.slot() {
            assert(has_child_at(t, p, i) && comes_before(p, i, p, i + 1) && child_in(t, p, i).slot()
                == x);
        } else {
            if before[x] {
                let (q, j) = choose|q: int, j: int|
                    has_child_at(t, q, j) && comes_before(q, j, p, i) && (#[trigger] child_in(
                        t,
                        q,
                        j,
                    )).slot() == x;
                assert(has_child_at(t, q, j) && comes_before(q, j, p, i + 1) && child_in(
                    t,
                    q,
                    j,
                ).slot() == x);
            }
            if exists|q: int, j: int|
                has_child_at(t, q, j) && comes_before(q, j, p, i + 1) && (#[trigger] child_in(
                    t,
                    q,
                    j,
                )).slot() == x {
                let (q, j) = choose|q: int, j: int|
                    has_child_at(t, q, j) && comes_before(q, j, p, i + 1) && (#[trigger] child_in(
                        t,
                        q,
                        j,
                    )).slot() == x;
                assert(!(q == p && j == i));
                assert(has_child_at(t, q, j) && comes_before(q, j, p, i) && child_in(t, q, j).slot()
                    == x);
            }
        }
    }
    assert forall|q: int, j: int, q2: int, j2: int|
        has_child_at(t, q, j) && comes_before(q, j, p, i + 1) && has_child_at(t, q2, j2)
            && comes_before(q2, j2, p, i + 1) && (q != q2 || j != j2) implies #[trigger] child_in(
        t,
        q,
        j,
    ) != #[trigger] child_in(t, q2, j2) by {
        if q == p && j == i {
            assert(comes_before(q2, j2, p, i));
            if child_in(t, q2, j2) == c {
                assert(has_child_at(t, q2, j2) && comes_before(q2, j2, p, i) && child_in(
                    t,
                    q2,
                    j2,
                ).slot() == c.slot());
            }
        } else if q2 == p && j2 == i {
            assert(comes_before(q, j, p, i));
            if child_in(t, q, j) == c {
                assert(has_child_at(t, q, j) && comes_before(q, j, p, i) && child_in(t, q, j).slot()
                    == c.slot());
            }
        } else {
            assert(comes_before(q, j, p, i) && comes_before(q2, j2, p, i));
        }
    }
}

/// When the children of slot `p` are done, or slot `p` holds no node, the
/// walk stands at the start of the next slot.
proof fn lemma_children_checked_next<T>(t: TreeView<T>, seen: Seq<bool>, p: int, i: int)
    requires
        children_checked(t, seen, p, i),
        0 <= p < t.slots.len(),
        t.slots[p] is Some ==> i == t.slots[p]->0.children.len(),
    ensures
        children_checked(t, seen, p + 1, 0),
{
    assert forall|q: int, j: int| has_child_at(t, q, j) implies (comes_before(q, j, p, i)
        <==> comes_before(q, j, p + 1, 0)) by {}
    assert forall|x: int| 0 <= x < seen.len() implies (#[trigger] seen[x] <==> exists|q: int, j: int|
        has_child_at(t, q, j) && comes_before(q, j, p + 1, 0) && (#[trigger] child_in(t, q, j)).slot()
            == x) by {
        if seen[x] {
            let (q, j) = choose|q: int, j: int|
                has_child_at(t, q, j) && comes_before(q, j, p, i) && (#[trigger] child_in(t, q, j)).slot()
                    == x;
            assert(has_child_at(t, q, j) && comes_before(q, j, p + 1, 0) && child_in(t, q, j).slot()
                == x);
        }
        if exists|q: int, j: int|
            has_child_at(t, q, j) && comes_before(q, j, p + 1, 0) && (#[trigger] child_in(
                t,
                q,
                j,
            )).slot() == x {
            let (q, j) = choose|q: int, j: int|
                has_child_at(t, q, j) && comes_before(q, j, p + 1, 0) && (#[trigger] child_in(
                    t,
                    q,
                    j,
                )).slot() == x;
            assert(has_child_at(t, q, j) && comes_before(q, j, p, i) && child_in(t, q, j).slot()
                == x);
        }
    }
}

/// Whether following parent links from the node in slot `start` reaches a
/// node without a parent within `steps` steps.
fn reaches_top<T>(
    root: &Option<NodeId>,
    nodes: &Vec<Option<Node<T>>>,
    free_ids: &Vec<NodeId>,
    start: usize,
    steps: usize,
) -> (ok: bool)
    requires
        start < nodes@.len(),
        nodes@[start as int] is Some,
        nodes@.len() <= u32::MAX + 1,
        parts_view(*root, nodes@, free_ids@).links_ok(),
    ensures
        ok == parts_view(*root, nodes@, free_ids@).top_within(NodeId::at(start as int), steps as nat),
{
    let ghost t = parts_view(*root, nodes@, free_ids@);
    let mut current: usize = start;
    let mut left: usize = steps;
    loop
        invariant
            current < nodes@.len(),
            nodes@[current as int] is Some,
            nodes@.len() <= u32::MAX + 1,
            t == parts_view(*root, nodes@, free_ids@),
            t.links_ok(),
            t.top_within(NodeId::at(current as int), left as nat) == t.top_within(
                NodeId::at(start as int),
                steps as nat,
            ),
        decreases left,
    {
        let ghost id = NodeId::at(current as int);
        assert(id.slot() == current && t.contains(id));
        assert(t.parent_link_ok(id));
        match &nodes[current] {
            Some(node) => {
                match node.parent() {
                    Some(p) => {
                        if left == 0 {
                            return false;
                        }
                        left -= 1;
                        assert(NodeId::at(p.slot()) == *p);
                        current = p.index();
                    },
                    None => {
                        return true;
                    },
                }
            },
            None => {
                return false;
            },
        }
    }
}

/// Whether no node is its own ancestor.
fn no_cycles<T>(root: &Option<NodeId>, nodes: &Vec<Option<Node<T>>>, free_ids: &Vec<NodeId>) -> (ok:
    bool)
    requires
        nodes@.len() <= u32::MAX + 1,
        parts_view(*root, nodes@, free_ids@).root_ok(),
        parts_view(*root, nodes@, free_ids@).links_ok(),
        parts_view(*root, nodes@, free_ids@).free_ok(),
    ensures
        ok == parts_view(*root, nodes@, free_ids@).acyclic(),
{
    let ghost t = parts_view(*root, nodes@, free_ids@);
    let n = nodes.len();
    let mut x: usize = 0;
    while x < n
        invariant
            x <= n,
            n == nodes@.len(),
            n <= u32::MAX + 1,
            t == parts_view(*root, nodes@, free_ids@),
            t.root_ok(),
            t.links_ok(),
            t.free_ok(),
            forall|y: int|
                0 <= y < x && t.slots[y] is Some ==> #[trigger] t.top_within(NodeId::at(y), n as nat),
        decreases n - x,
    {
        if nodes[x].is_some() {
            if !reaches_top(root, nodes, free_ids, x, n) {
                proof {
                    let id = NodeId::at(x as int);
                    assert(id.slot() == x && t.contains(id));
                    if t.acyclic() {
                        t.lemma_wf_gives_tops();
                    }
                }
                return false;
            }
        }
        x += 1;
    }
    proof {
        assert forall|id: NodeId| #[trigger] t.contains(id) implies t.top_within(
            id,
            t.slots.len(),
        ) by {
            assert(NodeId::at(id.slot()) == id);
            assert(t.top_within(NodeId::at(id.slot()), n as nat));
        }
        t.lemma_tops_give_acyclic();
    }
    true
}

/// Whether the three parts of a snapshot describe a well-formed tree.
pub fn parts_well_formed<T>(
    root: &Option<NodeId>,
    nodes: &Vec<Option<Node<T>>>,
    free_ids: &Vec<NodeId>,
) -> (ok: bool)
    ensures
        ok == parts_view(*root, nodes@, free_ids@).wf(),
{
    let n = nodes.len();
    if n > 0 && n - 1 > u32::MAX as usize {
        return false;
    }
    if !free_list_exact(root, nodes, free_ids) {
        return false;
    }
    if !root_is_top(root, nodes, free_ids) {
        return false;
    }
    if !links_agree(root, nodes, free_ids) {
        return false;
    }
    no_cycles(root, nodes, free_ids)
}

} // verus!
