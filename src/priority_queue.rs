//! The basic capability of a priority queue: push, and pop the element of least key.
use vstd::prelude::*;
use crate::order::{lt, is_weak_order, heap_ordered, is_min_key};
use vstd::std_specs::slice::into_iter_elts;

verus! {

/// The queue after a pop that returned `r` from the queue `before`: nothing from an
/// empty queue, else the root, taken out of the multiset.
pub open spec fn popped<N, K>(before: Seq<(N, K)>, after: Seq<(N, K)>, r: Option<(N, K)>) -> bool {
    match r {
        None => before.len() == 0 && after == before,
        Some(x) => {
            &&& before.len() > 0
            &&& x == before[0]
            &&& after.len() == before.len() - 1
            &&& after.to_multiset() == before.to_multiset().remove(x)
        },
    }
}

/// The queue after pushing (`node`, `key`) into `before`: one more entry, and the root is
/// the new pair exactly when its key is less than the prior root's.
pub open spec fn pushed<N, K: PartialOrd>(before: Seq<(N, K)>, after: Seq<(N, K)>, node: N, key: K) -> bool {
    &&& after.len() == before.len() + 1
    &&& after.to_multiset() == before.to_multiset().insert((node, key))
    &&& is_weak_order::<K>() ==> after[0] == (if before.len() == 0 || lt(key, before[0].1) {
        (node, key)
    } else {
        before[0]
    })
}

/// The queue after `push_then_pop(node, key)` on `before` returned `r`: the pair itself,
/// queue unchanged, when the queue is empty or its key is not greater than the foremost
/// key; otherwise the foremost pair, which the new pair replaces in the multiset.
pub open spec fn push_then_popped<N, K: PartialOrd>(
    before: Seq<(N, K)>,
    after: Seq<(N, K)>,
    node: N,
    key: K,
    r: (N, K),
) -> bool {
    &&& (r == (node, key) && after == before) || (before.len() > 0 && r == before[0]
        && after.len() == before.len() && after.to_multiset() == before.to_multiset().remove(
        r,
    ).insert((node, key)))
    &&& before.len() == 0 ==> r == (node, key) && after == before
    &&& before.len() > 0 && is_weak_order::<K>() ==> r == (if lt(before[0].1, key) {
        before[0]
    } else {
        (node, key)
    })
}

/// A queue that takes (element, key) pairs and hands back the pair of least key first.
pub trait PriorityQueue<N, K: PartialOrd>: Sized {
    /// The queue's invariant.
    spec fn well_formed(&self) -> bool;

    /// The (element, key) pairs in the queue, the foremost first, the rest in no given order.
    spec fn slots(&self) -> Seq<(N, K)>;

    /// Whether the queue can hold `node` at all (its index within bound); every operation
    /// keeps this.
    spec fn accepts(&self, node: N) -> bool;

    /// Whether `node` may be pushed now: accepted, not present where elements form a set,
    /// and room for one more.
    spec fn admits(&self, node: N) -> bool;

    /// The strict bound on the indices of the elements, for a queue that has one; zero
    /// otherwise. Every operation keeps it.
    spec fn limit(&self) -> nat;

    /// The largest number of children of a node of the underlying tree.
    spec fn branching(&self) -> int;

    /// The pairs form a heap: no key is less than its parent's, hence none is less than
    /// the foremost key.
    proof fn lemma_heap_order(&self)
        requires
            self.well_formed(),
            is_weak_order::<K>(),
        ensures
            self.branching() >= 1,
            heap_ordered(self.slots(), self.branching()),
            self.slots().len() > 0 ==> is_min_key(self.slots()[0].1, self.slots()),
    ;

    /// Number of elements in the queue.
    fn len(&self) -> (r: usize)
        requires
            self.well_formed(),
        ensures
            r == self.slots().len(),
    ;

    /// Number of elements the queue can hold without reallocating.
    fn capacity(&self) -> (r: usize)
        requires
            self.well_formed(),
        ensures
            r >= self.slots().len(),
    ;

    /// Whether the queue is empty.
    fn is_empty(&self) -> (r: bool)
        requires
            self.well_formed(),
        ensures
            r == (self.slots().len() == 0),
    {
        self.len() == 0
    }

    /// The foremost pair, not taken out; nothing when the queue is empty.
    fn peek(&self) -> (r: Option<&(N, K)>)
        requires
            self.well_formed(),
        ensures
            r == (if self.slots().len() == 0 {
                None::<&(N, K)>
            } else {
                Some(&self.slots()[0])
            }),
            is_weak_order::<K>() && self.slots().len() > 0 ==> is_min_key(
                self.slots()[0].1,
                self.slots(),
            ),
    ;

    /// An iterator over the pairs of the queue, in the order of `slots`.
    fn iter(&self) -> (r: std::slice::Iter<'_, (N, K)>)
        requires
            self.well_formed(),
        ensures
            into_iter_elts(r) == self.slots(),
    ;

    /// Empties the queue.
    fn clear(&mut self)
        requires
            old(self).well_formed(),
        ensures
            final(self).well_formed(),
            forall|n: N| #[trigger] final(self).accepts(n) == old(self).accepts(n),
            final(self).limit() == old(self).limit(),
            final(self).slots() == Seq::<(N, K)>::empty(),
    ;

    /// Takes out and returns the foremost pair; nothing when the queue is empty.
    fn pop(&mut self) -> (r: Option<(N, K)>)
        requires
            old(self).well_formed(),
        ensures
            final(self).well_formed(),
            forall|n: N| #[trigger] final(self).accepts(n) == old(self).accepts(n),
            final(self).limit() == old(self).limit(),
            popped(old(self).slots(), final(self).slots(), r),
            is_weak_order::<K>() && r.is_some() ==> is_min_key(r.unwrap().1, old(self).slots()),
    ;

    /// Takes out the foremost pair and returns its element; nothing when the queue is empty.
    fn pop_node(&mut self) -> (r: Option<N>)
        requires
            old(self).well_formed(),
        ensures
            final(self).well_formed(),
            forall|n: N| #[trigger] final(self).accepts(n) == old(self).accepts(n),
            final(self).limit() == old(self).limit(),
            r.is_none() ==> popped(old(self).slots(), final(self).slots(), None),
            r.is_some() ==> popped(old(self).slots(), final(self).slots(), Some(old(self).slots()[0]))
                && r.unwrap() == old(self).slots()[0].0,
    ;

    /// Takes out the foremost pair and returns its key; nothing when the queue is empty.
    fn pop_key(&mut self) -> (r: Option<K>)
        requires
            old(self).well_formed(),
        ensures
            final(self).well_formed(),
            forall|n: N| #[trigger] final(self).accepts(n) == old(self).accepts(n),
            final(self).limit() == old(self).limit(),
            r.is_none() ==> popped(old(self).slots(), final(self).slots(), None),
            r.is_some() ==> popped(old(self).slots(), final(self).slots(), Some(old(self).slots()[0]))
                && r.unwrap() == old(self).slots()[0].1,
    ;

    /// Adds (`node`, `key`) to the queue.
    fn push(&mut self, node: N, key: K)
        requires
            old(self).well_formed(),
            old(self).admits(node),
        ensures
            final(self).well_formed(),
            forall|n: N| #[trigger] final(self).accepts(n) == old(self).accepts(n),
            final(self).limit() == old(self).limit(),
            pushed(old(self).slots(), final(self).slots(), node, key),
    ;

    /// Pushes (`node`, `key`) and then pops, in one pass: returns the pair itself when the
    /// queue is empty or its key is not greater than the foremost key, else the foremost
    /// pair, which the new one replaces.
    fn push_then_pop(&mut self, node: N, key: K) -> (r: (N, K))
        requires
            old(self).well_formed(),
            old(self).slots().len() > 0 ==> old(self).admits(node),
        ensures
            final(self).well_formed(),
            forall|n: N| #[trigger] final(self).accepts(n) == old(self).accepts(n),
            final(self).limit() == old(self).limit(),
            push_then_popped(old(self).slots(), final(self).slots(), node, key, r),
    ;
}

} // verus!
