use vstd::prelude::*;
use crate::id::NodeId;

verus! {

/// `s` with every occurrence of `x` taken out; the rest keeps its order.
pub open spec fn without(s: Seq<NodeId>, x: NodeId) -> Seq<NodeId>
    decreases s.len(),
{
    if s.len() == 0 {
        s
    } else if s.last() == x {
        without(s.drop_last(), x)
    } else {
        without(s.drop_last(), x).push(s.last())
    }
}

/// Taking `x` out of a sequence that ends in `y`.
pub proof fn lemma_without_push(s: Seq<NodeId>, y: NodeId, x: NodeId)
    ensures
        without(s.push(y), x) == if y == x {
            without(s, x)
        } else {
            without(s, x).push(y)
        },
{
    assert(s.push(y).drop_last() =~= s);
}

/// What is left holds exactly the other elements.
pub proof fn lemma_without_contains(s: Seq<NodeId>, x: NodeId)
    ensures
        forall|y: NodeId| #[trigger] without(s, x).contains(y) <==> s.contains(y) && y != x,
        without(s, x).len() <= s.len(),
    decreases s.len(),
{
    if s.len() == 0 {
        assert(without(s, x) =~= s);
    } else {
        let front = s.drop_last();
        let y0 = s.last();
        assert(s =~= front.push(y0));
        lemma_without_push(front, y0, x);
        lemma_without_contains(front, x);
        assert forall|y: NodeId| #[trigger] without(s, x).contains(y) <==> s.contains(y) && y
            != x by {
            if without(s, x).contains(y) {
                let i = choose|i: int| 0 <= i < without(s, x).len() && without(s, x)[i] == y;
                if y0 != x && i == without(s, x).len() - 1 {
                    assert(s[s.len() - 1] == y);
                } else {
                    assert(without(front, x)[i] == y);
                    assert(without(front, x).contains(y));
                    let j = choose|j: int| 0 <= j < front.len() && front[j] == y;
                    assert(s[j] == y);
                }
            }
            if s.contains(y) && y != x {
                let j = choose|j: int| 0 <= j < s.len() && s[j] == y;
                if j == s.len() - 1 {
                    assert(without(s, x)[without(s, x).len() - 1] == y);
                } else {
                    assert(front[j] == y);
                    assert(front.contains(y));
                    assert(without(front, x).contains(y));
                    let i = choose|i: int|
                        0 <= i < without(front, x).len() && without(front, x)[i] == y;
                    assert(without(s, x)[i] == y);
                }
            }
        }
    }
}

/// Nothing is taken out of a sequence that does not hold `x`.
pub proof fn lemma_without_absent(s: Seq<NodeId>, x: NodeId)
    requires
        !s.contains(x),
    ensures
        without(s, x) == s,
    decreases s.len(),
{
    if s.len() == 0 {
        assert(without(s, x) =~= s);
    } else {
        let front = s.drop_last();
        let y0 = s.last();
        assert(s =~= front.push(y0));
        lemma_without_push(front, y0, x);
        assert(s[s.len() - 1] == y0);
        assert forall|j: int| 0 <= j < front.len() implies front[j] != x by {
            assert(s[j] == front[j]);
        }
        lemma_without_absent(front, x);
    }
}

/// What is left of a sequence without repetitions has none either.
pub proof fn lemma_without_no_duplicates(s: Seq<NodeId>, x: NodeId)
    requires
        s.no_duplicates(),
    ensures
        without(s, x).no_duplicates(),
    decreases s.len(),
{
    if s.len() == 0 {
        assert(without(s, x) =~= s);
    } else {
        let front = s.drop_last();
        let y0 = s.last();
        assert(s =~= front.push(y0));
        lemma_without_push(front, y0, x);
        lemma_without_no_duplicates(front, x);
        lemma_without_contains(front, x);
        if y0 != x {
            assert(!front.contains(y0));
            assert(!without(front, x).contains(y0));
        }
    }
}

/// Appending keeps a sequence free of repetitions when the new element is
/// not yet in it.
pub proof fn lemma_push_no_duplicates(s: Seq<NodeId>, x: NodeId)
    requires
        s.no_duplicates(),
        !s.contains(x),
    ensures
        s.push(x).no_duplicates(),
        forall|y: NodeId| #[trigger] s.push(x).contains(y) <==> s.contains(y) || y == x,
{
    lemma_push_contains(s, x);
}

/// A sequence with `x` appended holds what it held before, and `x`.
pub proof fn lemma_push_contains(s: Seq<NodeId>, x: NodeId)
    ensures
        forall|y: NodeId| #[trigger] s.push(x).contains(y) <==> s.contains(y) || y == x,
{
    assert forall|y: NodeId| #[trigger] s.push(x).contains(y) <==> s.contains(y) || y == x by {
        if s.contains(y) {
            let j = choose|j: int| 0 <= j < s.len() && s[j] == y;
            assert(s.push(x)[j] == y);
        }
        if y == x {
            assert(s.push(x)[s.len() as int] == y);
        }
        if s.push(x).contains(y) {
            let j = choose|j: int| 0 <= j < s.push(x).len() && s.push(x)[j] == y;
            if j < s.len() {
                assert(s[j] == y);
            }
        }
    }
}

} // verus!

verus! {

/// Reversing a concatenation reverses the parts and swaps them.
pub proof fn lemma_reverse_concat(a: Seq<NodeId>, b: Seq<NodeId>)
    ensures
        (a + b).reverse() == b.reverse() + a.reverse(),
{
    assert((a + b).reverse() =~= b.reverse() + a.reverse());
}

/// A sequence and its reverse hold the same elements, and one has a
/// repetition exactly when the other has.
pub proof fn lemma_reverse_members(s: Seq<NodeId>)
    ensures
        forall|x: NodeId| #[trigger] s.reverse().contains(x) <==> s.contains(x),
        s.no_duplicates() ==> s.reverse().no_duplicates(),
        s.reverse().len() == s.len(),
{
    let r = s.reverse();
    assert forall|x: NodeId| #[trigger] r.contains(x) <==> s.contains(x) by {
        if r.contains(x) {
            let i = choose|i: int| 0 <= i < r.len() && r[i] == x;
            assert(s[s.len() - 1 - i] == x);
        }
        if s.contains(x) {
            let i = choose|i: int| 0 <= i < s.len() && s[i] == x;
            assert(r[s.len() - 1 - i] == x);
        }
    }
}

} // verus!

verus! {

/// A sequence without repetitions whose handles all name slots below `n`
/// has at most `n` elements.
pub proof fn lemma_bounded_no_duplicates_len(s: Seq<NodeId>, n: nat)
    requires
        s.no_duplicates(),
        forall|i: int| 0 <= i < s.len() ==> (#[trigger] s[i]).slot() < n,
    ensures
        s.len() <= n,
{
    broadcast use crate::id::group_node_id;

    let slots = Seq::new(s.len(), |i: int| s[i].slot());
    assert forall|i: int, j: int|
        0 <= i < slots.len() && 0 <= j < slots.len() && i != j implies slots[i] != slots[j] by {
        assert(s[i] != s[j]);
    }
    slots.unique_seq_to_set();
    vstd::set_lib::lemma_int_range(0, n as int);
    assert forall|v: int| slots.to_set().contains(v) implies vstd::set_lib::set_int_range(
        0,
        n as int,
    ).contains(v) by {
        let i = choose|i: int| 0 <= i < slots.len() && slots[i] == v;
        assert(s[i].slot() < n);
    }
    vstd::set_lib::lemma_len_subset(slots.to_set(), vstd::set_lib::set_int_range(0, n as int));
}

} // verus!

verus! {

/// The number `i` as an integer.
pub open spec fn to_int(i: usize) -> int {
    i as int
}

/// The element at position `i`.
pub open spec fn nth(s: Seq<NodeId>, i: usize) -> NodeId {
    s[i as int]
}

/// The first `n` elements.
pub open spec fn first_n(s: Seq<NodeId>, n: usize) -> Seq<NodeId> {
    s.take(n as int)
}

/// The elements from position `lo` up to position `hi`, which is left out.
pub open spec fn run(s: Seq<NodeId>, lo: usize, hi: usize) -> Seq<NodeId> {
    s.subrange(lo as int, hi as int)
}

/// The position of an element of a run of a sequence without repetitions
/// lies inside the run.
pub proof fn lemma_position_in_run(s: Seq<NodeId>, lo: usize, hi: usize, part: Seq<NodeId>, x: NodeId)
    requires
        s.no_duplicates(),
        lo <= hi <= s.len(),
        part.to_multiset() == run(s, lo, hi).to_multiset(),
        part.contains(x),
    ensures
        lo <= s.index_of(x) < hi,
        s[s.index_of(x)] == x,
        s.contains(x),
{
    broadcast use vstd::seq_lib::to_multiset_contains;

    assert(part.to_multiset().count(x) > 0);
    assert(run(s, lo, hi).contains(x));
    let k = choose|k: int| 0 <= k < run(s, lo, hi).len() && run(s, lo, hi)[k] == x;
    assert(s[lo + k] == x);
    s.index_of_first_ensures(x);
    let p = s.index_of(x);
    assert(s.index_of_first(x) matches Some(q) && s[q] == x);
    assert(0 <= p < s.len() && s[p] == x);
    assert(p == lo + k);
}

/// Two runs that meet make one run.
pub proof fn lemma_runs_join(s: Seq<NodeId>, lo: usize, mid: usize, hi: usize)
    requires
        lo <= mid <= hi <= s.len(),
    ensures
        run(s, lo, hi).to_multiset() == run(s, lo, mid).to_multiset().add(
            run(s, mid, hi).to_multiset(),
        ),
{
    assert(run(s, lo, hi) =~= run(s, lo, mid) + run(s, mid, hi));
    vstd::seq_lib::lemma_multiset_commutative(run(s, lo, mid), run(s, mid, hi));
}

/// A run of at most one element, copied, is the run.
pub proof fn lemma_first_n_push(s: Seq<NodeId>, n: usize)
    requires
        n < s.len(),
    ensures
        s.take(n + 1) == first_n(s, n).push(nth(s, n)),
        s.take(n + 1).to_multiset() == first_n(s, n).to_multiset().insert(nth(s, n)),
{
    broadcast use vstd::seq_lib::to_multiset_build;

    assert(s.take(n + 1) =~= first_n(s, n).push(nth(s, n)));
}

} // verus!
