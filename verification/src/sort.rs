use core::cmp::Ordering;
use vstd::prelude::*;
use vstd::std_specs::cmp::OrdSpec;
use crate::id::NodeId;
use crate::node::Node;
use crate::seqs::first_n;
use crate::seqs::lemma_first_n_push;
use crate::seqs::lemma_position_in_run;
use crate::seqs::lemma_runs_join;
use crate::seqs::nth;
use crate::seqs::run;
use crate::seqs::to_int;

verus! {

/// `order` says what `compare` returns: `compare` may be called on any two
/// nodes, and whatever its contract lets it return for them is what `order`
/// gives.
pub open spec fn agrees<T, F: Fn(&Node<T>, &Node<T>) -> Ordering>(
    compare: F,
    order: spec_fn(Node<T>, Node<T>) -> Ordering,
) -> bool {
    forall|a: Node<T>, b: Node<T>|
        {
            &&& #[trigger] call_requires(compare, (&a, &b))
            &&& forall|o: Ordering| #[trigger]
                call_ensures(compare, (&a, &b), o) ==> o == order(a, b)
        }
}

/// `order` is a total order: turning the arguments round turns the result
/// round, and "before" and "equal" are both transitive.
pub open spec fn is_total_order<T>(order: spec_fn(Node<T>, Node<T>) -> Ordering) -> bool {
    &&& forall|a: Node<T>, b: Node<T>|
        (#[trigger] order(a, b) == Ordering::Less) <==> order(b, a) == Ordering::Greater
    &&& forall|a: Node<T>, b: Node<T>, c: Node<T>|
        #[trigger] order(a, b) == Ordering::Less && #[trigger] order(b, c) == Ordering::Less
            ==> order(a, c) == Ordering::Less
    &&& forall|a: Node<T>, b: Node<T>, c: Node<T>|
        #[trigger] order(a, b) == Ordering::Equal && #[trigger] order(b, c) == Ordering::Equal
            ==> order(a, c) == Ordering::Equal
}

/// `compare` implements some total order.
pub open spec fn orders_totally<T, F: Fn(&Node<T>, &Node<T>) -> Ordering>(compare: F) -> bool {
    exists|order: spec_fn(Node<T>, Node<T>) -> Ordering| #[trigger]
        agrees(compare, order) && is_total_order(order)
}

/// The slot that `id` names holds a node.
pub open spec fn occupied<T>(nodes: Seq<Option<Node<T>>>, id: NodeId) -> bool {
    id.slot() < nodes.len() && nodes[id.slot()] is Some
}

/// The node in the slot that `id` names.
pub open spec fn stored<T>(nodes: Seq<Option<Node<T>>>, id: NodeId) -> Node<T> {
    nodes[id.slot()]->0
}

/// `out` is `inp` sorted by `order` on the nodes that the handles name: it
/// holds the same handles, none comes after one that `order` puts behind it,
/// and handles whose nodes are equal in `order` keep the order they had in
/// `inp`.
pub open spec fn sorted_stably<T>(
    out: Seq<NodeId>,
    inp: Seq<NodeId>,
    nodes: Seq<Option<Node<T>>>,
    order: spec_fn(Node<T>, Node<T>) -> Ordering,
) -> bool {
    &&& out.to_multiset() == inp.to_multiset()
    &&& forall|i: int, j: int|
        0 <= i < j < out.len() ==> order(stored(nodes, #[trigger] out[i]), stored(nodes, #[trigger] out[j]))
            != Ordering::Greater
    &&& forall|i: int, j: int|
        0 <= i < j < out.len() && order(stored(nodes, #[trigger] out[i]), stored(nodes, #[trigger] out[j]))
            == Ordering::Equal ==> inp.index_of(out[i]) < inp.index_of(out[j])
}

/// What `compare` returns for the nodes of two handles.
pub fn compare_stored<T, F: Fn(&Node<T>, &Node<T>) -> Ordering>(
    nodes: &Vec<Option<Node<T>>>,
    compare: &F,
    a: &NodeId,
    b: &NodeId,
) -> (o: Ordering)
    requires
        occupied(nodes@, *a),
        occupied(nodes@, *b),
        call_requires(*compare, (&stored(nodes@, *a), &stored(nodes@, *b))),
    ensures
        call_ensures(*compare, (&stored(nodes@, *a), &stored(nodes@, *b)), o),
{
    match (&nodes[a.index()], &nodes[b.index()]) {
        (Some(x), Some(y)) => compare(x, y),
        _ => vstd::pervasive::unreached(),
    }
}

/// `a` comes before `b` in the sorted order: its node is less in `order`,
/// or equal and `a` stands before `b` in `inp`.
pub open spec fn precedes<T>(
    order: spec_fn(Node<T>, Node<T>) -> Ordering,
    nodes: Seq<Option<Node<T>>>,
    inp: Seq<NodeId>,
    a: NodeId,
    b: NodeId,
) -> bool {
    let o = order(stored(nodes, a), stored(nodes, b));
    o == Ordering::Less || (o == Ordering::Equal && inp.index_of(a) < inp.index_of(b))
}

/// Every element of `out` comes before the ones after it.
pub open spec fn rising<T>(
    out: Seq<NodeId>,
    order: spec_fn(Node<T>, Node<T>) -> Ordering,
    nodes: Seq<Option<Node<T>>>,
    inp: Seq<NodeId>,
) -> bool {
    forall|i: int, j: int|
        0 <= i < j < out.len() ==> precedes(order, nodes, inp, #[trigger] out[i], #[trigger] out[j])
}

/// Where a merge stands: what has been put out is rising, and all of it
/// comes before what is left of the two runs.
pub open spec fn merging<T>(
    out: Seq<NodeId>,
    left: Seq<NodeId>,
    right: Seq<NodeId>,
    i: int,
    j: int,
    order: spec_fn(Node<T>, Node<T>) -> Ordering,
    nodes: Seq<Option<Node<T>>>,
    inp: Seq<NodeId>,
) -> bool {
    &&& rising(out, order, nodes, inp)
    &&& forall|k: int, m: int|
        0 <= k < out.len() && i <= m < left.len() ==> precedes(
            order,
            nodes,
            inp,
            #[trigger] out[k],
            #[trigger] left[m],
        )
    &&& forall|k: int, m: int|
        0 <= k < out.len() && j <= m < right.len() ==> precedes(
            order,
            nodes,
            inp,
            #[trigger] out[k],
            #[trigger] right[m],
        )
}

/// Coming before is transitive.
pub proof fn lemma_precedes_transitive<T>(
    order: spec_fn(Node<T>, Node<T>) -> Ordering,
    nodes: Seq<Option<Node<T>>>,
    inp: Seq<NodeId>,
    a: NodeId,
    b: NodeId,
    c: NodeId,
)
    requires
        is_total_order(order),
        precedes(order, nodes, inp, a, b),
        precedes(order, nodes, inp, b, c),
    ensures
        precedes(order, nodes, inp, a, c),
{
    let x = stored(nodes, a);
    let y = stored(nodes, b);
    let z = stored(nodes, c);
    lemma_turned(order, x, y);
    lemma_turned(order, y, z);
    lemma_turned(order, x, z);
    lemma_turned(order, z, y);
    lemma_turned(order, y, x);
    lemma_turned(order, z, x);
    if order(x, y) == Ordering::Less && order(y, z) == Ordering::Less {
    } else if order(x, y) == Ordering::Less {
        // x < y and y == z
        if order(x, z) == Ordering::Greater {
            assert(order(z, x) == Ordering::Less);
            assert(order(z, y) == Ordering::Less);
        } else if order(x, z) == Ordering::Equal {
            assert(order(z, y) == Ordering::Equal);
            assert(order(x, y) == Ordering::Equal);
        }
    } else if order(y, z) == Ordering::Less {
        // x == y and y < z
        if order(x, z) == Ordering::Greater {
            assert(order(z, x) == Ordering::Less);
            assert(order(y, x) == Ordering::Less);
        } else if order(x, z) == Ordering::Equal {
            assert(order(y, x) == Ordering::Equal);
            assert(order(y, z) == Ordering::Equal);
        }
    } else {
        assert(order(x, z) == Ordering::Equal);
    }
}

/// Turning the arguments of a total order round turns the result round.
pub proof fn lemma_turned<T>(order: spec_fn(Node<T>, Node<T>) -> Ordering, a: Node<T>, b: Node<T>)
    requires
        is_total_order(order),
    ensures
        order(a, b) == Ordering::Less <==> order(b, a) == Ordering::Greater,
        order(a, b) == Ordering::Greater <==> order(b, a) == Ordering::Less,
        order(a, b) == Ordering::Equal <==> order(b, a) == Ordering::Equal,
{
    assert(order(a, b) == Ordering::Less <==> order(b, a) == Ordering::Greater);
    assert(order(b, a) == Ordering::Less <==> order(a, b) == Ordering::Greater);
}

/// Putting out the next element of the left run keeps the merge in order.
pub proof fn lemma_merge_left<T>(
    out: Seq<NodeId>,
    left: Seq<NodeId>,
    right: Seq<NodeId>,
    i: int,
    j: int,
    order: spec_fn(Node<T>, Node<T>) -> Ordering,
    nodes: Seq<Option<Node<T>>>,
    inp: Seq<NodeId>,
)
    requires
        is_total_order(order),
        merging(out, left, right, i, j, order, nodes, inp),
        rising(left, order, nodes, inp),
        rising(right, order, nodes, inp),
        0 <= i < left.len(),
        0 <= j <= right.len(),
        j < right.len() ==> precedes(order, nodes, inp, left[i], right[j]),
    ensures
        merging(out.push(left[i]), left, right, i + 1, j, order, nodes, inp),
{
    let x = left[i];
    let next = out.push(x);
    assert forall|k: int, m: int| 0 <= k < m < next.len() implies precedes(
        order,
        nodes,
        inp,
        #[trigger] next[k],
        #[trigger] next[m],
    ) by {
        if m == out.len() {
            assert(next[k] == out[k]);
            assert(precedes(order, nodes, inp, out[k], left[i]));
        } else {
            assert(next[k] == out[k] && next[m] == out[m]);
        }
    }
    assert forall|k: int, m: int| 0 <= k < next.len() && i + 1 <= m < left.len() implies precedes(
        order,
        nodes,
        inp,
        #[trigger] next[k],
        #[trigger] left[m],
    ) by {
        if k == out.len() {
            assert(precedes(order, nodes, inp, left[i], left[m]));
        } else {
            assert(next[k] == out[k]);
        }
    }
    assert forall|k: int, m: int| 0 <= k < next.len() && j <= m < right.len() implies precedes(
        order,
        nodes,
        inp,
        #[trigger] next[k],
        #[trigger] right[m],
    ) by {
        if k == out.len() {
            if m > j {
                assert(precedes(order, nodes, inp, right[j], right[m]));
                lemma_precedes_transitive(order, nodes, inp, x, right[j], right[m]);
            }
        } else {
            assert(next[k] == out[k]);
        }
    }
}

/// Putting out the next element of the right run keeps the merge in order.
pub proof fn lemma_merge_right<T>(
    out: Seq<NodeId>,
    left: Seq<NodeId>,
    right: Seq<NodeId>,
    i: int,
    j: int,
    order: spec_fn(Node<T>, Node<T>) -> Ordering,
    nodes: Seq<Option<Node<T>>>,
    inp: Seq<NodeId>,
)
    requires
        is_total_order(order),
        merging(out, left, right, i, j, order, nodes, inp),
        rising(left, order, nodes, inp),
        rising(right, order, nodes, inp),
        0 <= i <= left.len(),
        0 <= j < right.len(),
        i < left.len() ==> precedes(order, nodes, inp, right[j], left[i]),
    ensures
        merging(out.push(right[j]), left, right, i, j + 1, order, nodes, inp),
{
    let y = right[j];
    let next = out.push(y);
    assert forall|k: int, m: int| 0 <= k < m < next.len() implies precedes(
        order,
        nodes,
        inp,
        #[trigger] next[k],
        #[trigger] next[m],
    ) by {
        if m == out.len() {
            assert(next[k] == out[k]);
            assert(precedes(order, nodes, inp, out[k], right[j]));
        } else {
            assert(next[k] == out[k] && next[m] == out[m]);
        }
    }
    assert forall|k: int, m: int| 0 <= k < next.len() && j + 1 <= m < right.len() implies precedes(
        order,
        nodes,
        inp,
        #[trigger] next[k],
        #[trigger] right[m],
    ) by {
        if k == out.len() {
            assert(precedes(order, nodes, inp, right[j], right[m]));
        } else {
            assert(next[k] == out[k]);
        }
    }
    assert forall|k: int, m: int| 0 <= k < next.len() && i <= m < left.len() implies precedes(
        order,
        nodes,
        inp,
        #[trigger] next[k],
        #[trigger] left[m],
    ) by {
        if k == out.len() {
            if m > i {
                assert(precedes(order, nodes, inp, left[i], left[m]));
                lemma_precedes_transitive(order, nodes, inp, y, left[i], left[m]);
            }
        } else {
            assert(next[k] == out[k]);
        }
    }
}

/// A sequence that holds the handles of `inp` and is rising is `inp`
/// sorted stably.
pub proof fn lemma_rising_is_sorted<T>(
    out: Seq<NodeId>,
    inp: Seq<NodeId>,
    nodes: Seq<Option<Node<T>>>,
    order: spec_fn(Node<T>, Node<T>) -> Ordering,
)
    requires
        out.to_multiset() == inp.to_multiset(),
        rising(out, order, nodes, inp),
    ensures
        sorted_stably(out, inp, nodes, order),
{
    assert forall|i: int, j: int| 0 <= i < j < out.len() implies order(
        stored(nodes, #[trigger] out[i]),
        stored(nodes, #[trigger] out[j]),
    ) != Ordering::Greater by {
        assert(precedes(order, nodes, inp, out[i], out[j]));
    }
    assert forall|i: int, j: int|
        0 <= i < j < out.len() && order(stored(nodes, #[trigger] out[i]), stored(nodes, #[trigger] out[j]))
            == Ordering::Equal implies inp.index_of(out[i]) < inp.index_of(out[j]) by {
        assert(precedes(order, nodes, inp, out[i], out[j]));
    }
}

/// Merges two sorted runs of `inp` that meet at `mid` into one sorted run.
/// Where an element of the left run and one of the right run are equal,
/// the one of the left run comes first.
fn merge<T, F: Fn(&Node<T>, &Node<T>) -> Ordering>(
    left: &Vec<NodeId>,
    right: &Vec<NodeId>,
    nodes: &Vec<Option<Node<T>>>,
    compare: &F,
    Ghost(inp): Ghost<Seq<NodeId>>,
    Ghost(lo): Ghost<usize>,
    Ghost(mid): Ghost<usize>,
    Ghost(hi): Ghost<usize>,
) -> (out: Vec<NodeId>)
    requires
        inp.no_duplicates(),
        lo <= mid <= hi <= inp.len(),
        forall|k: int| 0 <= k < inp.len() ==> occupied(nodes@, #[trigger] inp[k]),
        left@.to_multiset() == run(inp, lo, mid).to_multiset(),
        right@.to_multiset() == run(inp, mid, hi).to_multiset(),
        left@.len() + right@.len() <= usize::MAX,
        orders_totally(*compare),
        forall|order: spec_fn(Node<T>, Node<T>) -> Ordering| #[trigger]
            agrees(*compare, order) && is_total_order(order) ==> rising(left@, order, nodes@, inp)
                && rising(right@, order, nodes@, inp),
    ensures
        out@.to_multiset() == run(inp, lo, hi).to_multiset(),
        forall|order: spec_fn(Node<T>, Node<T>) -> Ordering| #[trigger]
            agrees(*compare, order) && is_total_order(order) ==> rising(out@, order, nodes@, inp),
{
    let mut out: Vec<NodeId> = Vec::new();
    let mut i: usize = 0;
    let mut j: usize = 0;
    proof {
        assert(first_n(left@, 0) =~= Seq::<NodeId>::empty());
        assert(first_n(right@, 0) =~= Seq::<NodeId>::empty());
        vstd::seq_lib::to_multiset_len(Seq::<NodeId>::empty());
        vstd::multiset::lemma_multiset_empty_len(Seq::<NodeId>::empty().to_multiset());
        assert(out@ =~= Seq::<NodeId>::empty());
        assert(out@.to_multiset() =~= first_n(left@, i).to_multiset().add(
            first_n(right@, j).to_multiset(),
        ));
    }
    while i < left.len() || j < right.len()
        invariant
            i <= left@.len(),
            j <= right@.len(),
            out@.len() == i + j,
            inp.no_duplicates(),
            lo <= mid <= hi <= inp.len(),
            forall|k: int| 0 <= k < inp.len() ==> occupied(nodes@, #[trigger] inp[k]),
            left@.to_multiset() == run(inp, lo, mid).to_multiset(),
            right@.to_multiset() == run(inp, mid, hi).to_multiset(),
            left@.len() + right@.len() <= usize::MAX,
            orders_totally(*compare),
            forall|order: spec_fn(Node<T>, Node<T>) -> Ordering| #[trigger]
                agrees(*compare, order) && is_total_order(order) ==> rising(
                    left@,
                    order,
                    nodes@,
                    inp,
                ) && rising(right@, order, nodes@, inp),
            out@.to_multiset() == first_n(left@, i).to_multiset().add(
                first_n(right@, j).to_multiset(),
            ),
            forall|order: spec_fn(Node<T>, Node<T>) -> Ordering| #[trigger]
                agrees(*compare, order) && is_total_order(order) ==> merging(
                    out@,
                    left@,
                    right@,
                    to_int(i),
                    to_int(j),
                    order,
                    nodes@,
                    inp,
                ),
        decreases left@.len() + right@.len() - i - j,
    {
        if i < left.len() {
            proof {
                assert(left@.contains(nth(left@, i)));
                lemma_position_in_run(inp, lo, mid, left@, nth(left@, i));
            }
        }
        if j < right.len() {
            proof {
                assert(right@.contains(nth(right@, j)));
                lemma_position_in_run(inp, mid, hi, right@, nth(right@, j));
            }
        }
        let from_left = if i >= left.len() {
            false
        } else if j >= right.len() {
            true
        } else {
            let result = compare_stored(nodes, compare, &left[i], &right[j]);
            proof {
                let a = nth(left@, i);
                let b = nth(right@, j);
                assert forall|order: spec_fn(Node<T>, Node<T>) -> Ordering| #[trigger]
                    agrees(*compare, order) && is_total_order(order) implies order(
                    stored(nodes@, a),
                    stored(nodes@, b),
                ) == result by {
                    assert(call_requires(*compare, (&stored(nodes@, a), &stored(nodes@, b))));
                }
            }
            match result {
                Ordering::Greater => false,
                _ => true,
            }
        };
        if from_left {
            proof {
                assert forall|order: spec_fn(Node<T>, Node<T>) -> Ordering| #[trigger]
                    agrees(*compare, order) && is_total_order(order) implies merging(
                    out@.push(nth(left@, i)),
                    left@,
                    right@,
                    to_int(i) + 1,
                    to_int(j),
                    order,
                    nodes@,
                    inp,
                ) by {
                    lemma_merge_left(
                        out@,
                        left@,
                        right@,
                        to_int(i),
                        to_int(j),
                        order,
                        nodes@,
                        inp,
                    );
                }
                lemma_first_n_push(left@, i);
                assert(out@.push(nth(left@, i)).to_multiset() =~= left@.take(to_int(i) + 1).to_multiset().add(
                    first_n(right@, j).to_multiset(),
                )) by {
                    vstd::seq_lib::to_multiset_build(out@, nth(left@, i));
                }
            }
            out.push(left[i]);
            i += 1;
        } else {
            proof {
                assert forall|order: spec_fn(Node<T>, Node<T>) -> Ordering| #[trigger]
                    agrees(*compare, order) && is_total_order(order) implies merging(
                    out@.push(nth(right@, j)),
                    left@,
                    right@,
                    to_int(i),
                    to_int(j) + 1,
                    order,
                    nodes@,
                    inp,
                ) by {
                    if i < left@.len() {
                        lemma_turned(
                            order,
                            stored(nodes@, nth(left@, i)),
                            stored(nodes@, nth(right@, j)),
                        );
                    }
                    lemma_merge_right(
                        out@,
                        left@,
                        right@,
                        to_int(i),
                        to_int(j),
                        order,
                        nodes@,
                        inp,
                    );
                }
                lemma_first_n_push(right@, j);
                assert(out@.push(nth(right@, j)).to_multiset() =~= first_n(left@, i).to_multiset().add(
                    right@.take(to_int(j) + 1).to_multiset(),
                )) by {
                    vstd::seq_lib::to_multiset_build(out@, nth(right@, j));
                }
            }
            out.push(right[j]);
            j += 1;
        }
    }
    proof {
        assert(first_n(left@, i) =~= left@);
        assert(first_n(right@, j) =~= right@);
        lemma_runs_join(inp, lo, mid, hi);
    }
    out
}

/// The run of `ids` from `lo` to `hi`, sorted stably: the run is halved,
/// the halves are sorted, and the sorted halves are merged.
fn merge_sort<T, F: Fn(&Node<T>, &Node<T>) -> Ordering>(
    ids: &Vec<NodeId>,
    lo: usize,
    hi: usize,
    nodes: &Vec<Option<Node<T>>>,
    compare: &F,
) -> (out: Vec<NodeId>)
    requires
        ids@.no_duplicates(),
        lo <= hi <= ids@.len(),
        forall|k: int| 0 <= k < ids@.len() ==> occupied(nodes@, #[trigger] ids@[k]),
        orders_totally(*compare),
    ensures
        out@.len() == hi - lo,
        out@.to_multiset() == run(ids@, lo, hi).to_multiset(),
        forall|order: spec_fn(Node<T>, Node<T>) -> Ordering| #[trigger]
            agrees(*compare, order) && is_total_order(order) ==> rising(out@, order, nodes@, ids@),
    decreases hi - lo,
{
    if hi - lo <= 1 {
        let mut out: Vec<NodeId> = Vec::new();
        if hi > lo {
            out.push(ids[lo]);
        }
        proof {
            assert(out@ =~= run(ids@, lo, hi));
        }
        out
    } else {
        let mid = lo + (hi - lo) / 2;
        let left = merge_sort(ids, lo, mid, nodes, compare);
        let right = merge_sort(ids, mid, hi, nodes, compare);
        let out = merge(&left, &right, nodes, compare, Ghost(ids@), Ghost(lo), Ghost(mid), Ghost(hi));
        proof {
            lemma_runs_join(ids@, lo, mid, hi);
            vstd::seq_lib::to_multiset_len(out@);
            vstd::seq_lib::to_multiset_len(run(ids@, lo, hi));
        }
        out
    }
}

/// Sorts the handles by `compare` on their nodes: a merge sort, which is
/// stable. For a comparison that implements a total order it leaves the
/// handles sorted by that order, and handles whose nodes are equal in it
/// in the order they came in.
pub(crate) fn sort_ids_by<T, F: Fn(&Node<T>, &Node<T>) -> Ordering>(
    ids: &mut Vec<NodeId>,
    nodes: &Vec<Option<Node<T>>>,
    compare: &F,
)
    requires
        old(ids)@.no_duplicates(),
        forall|i: int| 0 <= i < old(ids)@.len() ==> occupied(nodes@, #[trigger] old(ids)@[i]),
        orders_totally(*compare),
    ensures
        forall|order: spec_fn(Node<T>, Node<T>) -> Ordering| #[trigger]
            agrees(*compare, order) && is_total_order(order) ==> sorted_stably(
                final(ids)@,
                old(ids)@,
                nodes@,
                order,
            ),
{
    let n = ids.len();
    let sorted = merge_sort(ids, 0, n, nodes, compare);
    proof {
        assert(run(ids@, 0, n) =~= ids@);
        assert forall|order: spec_fn(Node<T>, Node<T>) -> Ordering| #[trigger]
            agrees(*compare, order) && is_total_order(order) implies sorted_stably(
            sorted@,
            ids@,
            nodes@,
            order,
        ) by {
            lemma_rising_is_sorted(sorted@, ids@, nodes@, order);
        }
    }
    *ids = sorted;
}

/// The order of nodes by the order of their payloads.
pub open spec fn data_order<T: Ord>() -> spec_fn(Node<T>, Node<T>) -> Ordering {
    |a: Node<T>, b: Node<T>| a@.data.cmp_spec(&b@.data)
}

/// Being sorted depends only on the nodes of the handles that are sorted.
pub proof fn lemma_sorted_stably_elsewhere<T>(
    out: Seq<NodeId>,
    inp: Seq<NodeId>,
    nodes: Seq<Option<Node<T>>>,
    others: Seq<Option<Node<T>>>,
    order: spec_fn(Node<T>, Node<T>) -> Ordering,
)
    requires
        sorted_stably(out, inp, nodes, order),
        forall|i: int| 0 <= i < inp.len() ==> stored(nodes, #[trigger] inp[i]) == stored(others, inp[i]),
    ensures
        sorted_stably(out, inp, others, order),
{
    broadcast use vstd::seq_lib::to_multiset_contains;

    assert forall|i: int| 0 <= i < out.len() implies stored(nodes, #[trigger] out[i]) == stored(
        others,
        out[i],
    ) by {
        assert(out.contains(out[i]));
        assert(out.to_multiset().count(out[i]) > 0);
        assert(inp.to_multiset().count(out[i]) > 0);
        assert(inp.contains(out[i]));
        let k = choose|k: int| 0 <= k < inp.len() && inp[k] == out[i];
        assert(stored(nodes, inp[k]) == stored(others, inp[k]));
    }
}

} // verus!
