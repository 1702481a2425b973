//! Laws relating the operations of the queues, stated over the sequences of pairs that
//! the operations' contracts speak of.
use vstd::prelude::*;
use vstd::multiset::Multiset;
use crate::order::{lt, is_weak_order, is_min_key, lemma_asym};
use crate::priority_queue::{popped, pushed, push_then_popped, PriorityQueue};
use crate::priority_queue_deckey::{revised, PriorityQueueDecKey};
use crate::daryheap_index::DaryHeapOfIndices;
use crate::has_index::HasIndex;

verus! {

broadcast use vstd::seq_lib::group_to_multiset_ensures;

/// Pushing a pair into an empty queue and popping returns exactly that pair and leaves the
/// queue empty.
pub proof fn lemma_push_pop_on_empty<N, K: PartialOrd>(
    s0: Seq<(N, K)>,
    s1: Seq<(N, K)>,
    s2: Seq<(N, K)>,
    node: N,
    key: K,
    r: Option<(N, K)>,
)
    requires
        s0.len() == 0,
        pushed(s0, s1, node, key),
        popped(s1, s2, r),
    ensures
        r == Some((node, key)),
        s2.len() == 0,
{
    broadcast use vstd::multiset::group_multiset_axioms;

    assert(s0.to_multiset() =~= Multiset::<(N, K)>::empty());
    assert(s1 =~= seq![s1[0]]);
    assert(seq![s1[0]].to_multiset() =~= Multiset::<(N, K)>::empty().insert(s1[0])) by {
        assert(seq![s1[0]] =~= Seq::<(N, K)>::empty().push(s1[0]));
    }
    assert(s1.to_multiset().count(s1[0]) > 0);
}

/// Two successive pops, each of the least key, return keys in non-decreasing order.
pub proof fn lemma_pops_in_order<N, K: PartialOrd>(
    s0: Seq<(N, K)>,
    s1: Seq<(N, K)>,
    s2: Seq<(N, K)>,
    x1: (N, K),
    x2: (N, K),
)
    requires
        is_weak_order::<K>(),
        popped(s0, s1, Some(x1)),
        is_min_key(x1.1, s0),
        popped(s1, s2, Some(x2)),
    ensures
        !lt(x2.1, x1.1),
{
    broadcast use vstd::multiset::group_multiset_axioms;

    assert(s1.to_multiset().count(x2) > 0);
    assert(s0.to_multiset().count(x2) > 0);
    assert(s0.contains(x2));
    let j = choose|j: int| 0 <= j < s0.len() && s0[j] == x2;
    assert(!lt(s0[j].1, x1.1));
}

/// Popping a whole sequence of times returns keys in non-decreasing order: given the
/// successive queues `qs` and the pairs `xs` that each pop returned, each of the least key.
pub proof fn lemma_pop_sequence_sorted<N, K: PartialOrd>(
    qs: Seq<Seq<(N, K)>>,
    xs: Seq<(N, K)>,
)
    requires
        is_weak_order::<K>(),
        qs.len() == xs.len() + 1,
        forall|i: int| 0 <= i < xs.len() ==> popped(qs[i], qs[i + 1], Some(#[trigger] xs[i])),
        forall|i: int| 0 <= i < xs.len() ==> is_min_key(#[trigger] xs[i].1, qs[i]),
    ensures
        forall|i: int| 0 < i < xs.len() ==> !lt(#[trigger] xs[i].1, xs[i - 1].1),
{
    assert forall|i: int| 0 < i < xs.len() implies !lt(#[trigger] xs[i].1, xs[i - 1].1) by {
        lemma_pops_in_order(qs[i - 1], qs[i], qs[i + 1], xs[i - 1], xs[i]);
    }
}

/// `push_then_pop(node, key)` on a queue returns what pushing (`node`, `key`) into a copy
/// of it and popping returns, unless the queue holds a key equivalent to `key` at its
/// root (there push-then-pop hands back the new pair, a push and a pop the old root).
pub proof fn lemma_push_then_pop_is_push_and_pop<N, K: PartialOrd>(
    s: Seq<(N, K)>,
    node: N,
    key: K,
    after_ptp: Seq<(N, K)>,
    r: (N, K),
    after_push: Seq<(N, K)>,
    after_pop: Seq<(N, K)>,
    x: Option<(N, K)>,
)
    requires
        is_weak_order::<K>(),
        s.len() == 0 || lt(key, s[0].1) || lt(s[0].1, key),
        push_then_popped(s, after_ptp, node, key, r),
        pushed(s, after_push, node, key),
        popped(after_push, after_pop, x),
    ensures
        x == Some(r),
{
    if s.len() > 0 && lt(key, s[0].1) {
        lemma_asym(key, s[0].1);
    }
}

/// Decreasing the key of an element to the key it already has leaves the queue unchanged
/// as a multiset.
pub proof fn lemma_decrease_to_same_key<N, K>(
    before: Seq<(N, K)>,
    after: Seq<(N, K)>,
    i: int,
)
    requires
        0 <= i < before.len(),
        revised(before, after, i, before[i].1),
    ensures
        after.to_multiset() == before.to_multiset(),
{
    broadcast use vstd::multiset::group_multiset_axioms;

    assert(before.to_multiset().count(before[i]) > 0);
    assert(after.to_multiset() =~= before.to_multiset());
}

/// A cleared queue that is cleared again is as it was: no pair, the same elements
/// accepted, the same index bound.
pub proof fn lemma_clear_idempotent<N, K: PartialOrd, Q: PriorityQueue<N, K>>(q0: Q, q1: Q, q2: Q)
    requires
        q1.slots() == Seq::<(N, K)>::empty(),
        forall|n: N| #[trigger] q1.accepts(n) == q0.accepts(n),
        q2.slots() == Seq::<(N, K)>::empty(),
        forall|n: N| #[trigger] q2.accepts(n) == q1.accepts(n),
        q1.limit() == q0.limit(),
        q2.limit() == q1.limit(),
    ensures
        q2.slots() == q1.slots(),
        forall|n: N| #[trigger] q2.accepts(n) == q1.accepts(n),
        q2.limit() == q1.limit(),
{
}

/// A cleared queue holds no element and accepts what it accepted before: the state of a
/// fresh queue of the same bound.
pub proof fn lemma_cleared_is_fresh<N: Clone, K: PartialOrd + Clone, Q: PriorityQueueDecKey<N, K>>(
    q0: Q,
    q1: Q,
)
    requires
        q1.well_formed(),
        q1.slots() == Seq::<(N, K)>::empty(),
        forall|n: N| #[trigger] q1.accepts(n) == q0.accepts(n),
        q1.limit() == q0.limit(),
    ensures
        q1.limit() == q0.limit(),
        forall|n: N| #[trigger] q1.slot_of(n) is None,
        forall|n: N| q0.accepts(n) ==> #[trigger] q1.admits(n),
{
    q1.lemma_positions();
    assert forall|n: N| #[trigger] q1.slot_of(n) is None by {
        if q1.slot_of(n) is Some {
            assert(0 <= q1.slot_of(n).unwrap() < q1.slots().len());
        }
    }
    assert forall|n: N| q0.accepts(n) implies #[trigger] q1.admits(n) by {
        assert(q1.slot_of(n) is None);
    }
}

/// An indexed heap with room for one more element admits exactly the absent elements
/// whose index is below its bound: `index_bound - 1` is admitted, `index_bound` is not.
pub proof fn lemma_indexed_push_bound<N: HasIndex, K: PartialOrd + Clone, const D: usize>(
    q: DaryHeapOfIndices<N, K, D>,
    node: N,
)
    requires
        q.well_formed(),
        q.slot_of(node) is None,
        q.slots().len() < usize::MAX,
    ensures
        q.admits(node) <==> node.index_spec() < q.bound(),
{
    q.lemma_positions();
}

/// In a queue whose elements form a set, a pair found in the queue is found at the slot of
/// its element: after a push, the pushed element is present with the pushed key.
pub proof fn lemma_member_is_found<N: Clone, K: PartialOrd + Clone, Q: PriorityQueueDecKey<N, K>>(
    q: Q,
    node: N,
    key: K,
)
    requires
        q.well_formed(),
        q.slots().to_multiset().count((node, key)) > 0,
    ensures
        q.slot_of(node) is Some,
        q.slots()[q.slot_of(node).unwrap()] == (node, key),
{
    q.lemma_positions();
    assert(q.slots().contains((node, key)));
    let i = choose|i: int| 0 <= i < q.slots().len() && q.slots()[i] == (node, key);
    assert(q.slot_of(q.slots()[i].0) == Some(i));
}

} // verus!
