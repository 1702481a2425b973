//! The mapped heap: the positions of its elements are kept in a hash map.
use vstd::prelude::*;
use crate::heap::{Heap, lemma_root_is_min};
use crate::heap_positions::HeapPositions;
use crate::order::{lt, is_weak_order};
use crate::positions_map::{HeapPositionsMap, Index, is_plain_key};
use crate::priority_queue::PriorityQueue;
use crate::priority_queue_deckey::PriorityQueueDecKey;
use crate::results::ResUpdateKey;

verus! {

/// A d-ary heap with `D` children per node whose elements are located through a hash
/// map; it offers the revise operations, and its elements form a set.
#[derive(Clone, Debug)]
pub struct DaryHeapWithMap<N, K, const D: usize> {
    heap: Heap<N, K, HeapPositionsMap<N>, D>,
}

/// A mapped heap with two children per node.
pub type BinaryHeapWithMap<N, K> = DaryHeapWithMap<N, K, 2>;

/// A mapped heap with four children per node.
pub type QuaternaryHeapWithMap<N, K> = DaryHeapWithMap<N, K, 4>;

impl<N: Index, K: PartialOrd + Clone, const D: usize> DaryHeapWithMap<N, K, D> {
    /// The slot that holds `node`, if it is in the queue.
    pub closed spec fn located(&self, node: N) -> Option<int> {
        match self.heap.node_slot(node) {
            Some(i) => Some(i as int),
            None => None,
        }
    }

    /// Creates an empty heap.
    pub fn new() -> (r: Self)
        requires
            D >= 1,
            is_plain_key::<N>(),
        ensures
            r.well_formed(),
            r.slots() == Seq::<(N, K)>::empty(),
            forall|n: N| #[trigger] r.located(n) is None,
    {
        DaryHeapWithMap { heap: Heap::new(None, HeapPositionsMap::new()) }
    }

    /// Creates an empty heap with room for `capacity` elements.
    pub fn with_capacity(capacity: usize) -> (r: Self)
        requires
            D >= 1,
            is_plain_key::<N>(),
        ensures
            r.well_formed(),
            r.slots() == Seq::<(N, K)>::empty(),
            forall|n: N| #[trigger] r.located(n) is None,
    {
        DaryHeapWithMap { heap: Heap::new(Some(capacity), HeapPositionsMap::with_capacity(capacity)) }
    }

    /// The largest number of children of a node: `D`.
    pub fn d() -> (r: usize)
        ensures
            r == D,
    {
        D
    }

    /// The pairs of the queue, in no given order but the foremost first.
    pub fn as_slice(&self) -> (r: &[(N, K)])
        requires
            self.well_formed(),
        ensures
            r@ == self.slots(),
    {
        self.heap.as_slice()
    }
}

impl<N: Index, K: PartialOrd + Clone, const D: usize> Default for DaryHeapWithMap<N, K, D> {
    fn default() -> (r: Self)
        ensures
            D >= 1 && is_plain_key::<N>() ==> r.well_formed() && r.slots() == Seq::<(N, K)>::empty()
                && forall|n: N| #[trigger] r.located(n) is None,
    {
        let positions = HeapPositionsMap::<N>::default();
        DaryHeapWithMap { heap: Heap { tree: Vec::new(), positions } }
    }
}

impl<N: Index, K: PartialOrd + Clone, const D: usize> PriorityQueue<N, K> for DaryHeapWithMap<N, K, D> {
    closed spec fn well_formed(&self) -> bool {
        self.heap.wf()
    }

    closed spec fn slots(&self) -> Seq<(N, K)> {
        self.heap.tree@
    }

    open spec fn accepts(&self, node: N) -> bool {
        true
    }

    open spec fn admits(&self, node: N) -> bool {
        &&& self.accepts(node)
        &&& self.located(node) is None
        &&& self.slots().len() < usize::MAX
    }

    open spec fn limit(&self) -> nat {
        0
    }

    open spec fn branching(&self) -> int {
        D as int
    }

    proof fn lemma_heap_order(&self) {
        let s = self.heap.tree@;
        assert forall|j: int| 0 <= j < s.len() implies !lt(#[trigger] s[j].1, s[0].1) by {
            lemma_root_is_min(s, D as int, j);
        }
    }

    fn len(&self) -> (r: usize) {
        self.heap.len()
    }

    fn capacity(&self) -> (r: usize) {
        self.heap.capacity()
    }

    fn peek(&self) -> (r: Option<&(N, K)>) {
        proof {
            if is_weak_order::<K>() {
                self.lemma_heap_order();
            }
        }
        self.heap.peek()
    }

    fn iter(&self) -> (r: std::slice::Iter<'_, (N, K)>) {
        let r = self.heap.as_slice().iter();
        proof {
            broadcast use vstd::std_specs::slice::axiom_spec_slice_iter;
        }
        r
    }

    fn clear(&mut self) {
        self.heap.clear()
    }

    fn pop(&mut self) -> (r: Option<(N, K)>) {
        proof {
            if is_weak_order::<K>() {
                self.lemma_heap_order();
            }
        }
        self.heap.pop()
    }

    fn pop_node(&mut self) -> (r: Option<N>) {
        match self.pop() {
            Some(x) => Some(x.0),
            None => None,
        }
    }

    fn pop_key(&mut self) -> (r: Option<K>) {
        match self.pop() {
            Some(x) => Some(x.1),
            None => None,
        }
    }

    fn push(&mut self, node: N, key: K) {
        self.heap.push(node, key)
    }

    fn push_then_pop(&mut self, node: N, key: K) -> (r: (N, K)) {
        self.heap.push_then_pop(node, key)
    }
}

impl<N: Index, K: PartialOrd + Clone, const D: usize> PriorityQueueDecKey<N, K> for DaryHeapWithMap<N, K, D> {
    open spec fn same_node(a: N, b: N) -> bool {
        a == b
    }

    open spec fn slot_of(&self, node: N) -> Option<int> {
        self.located(node)
    }

    proof fn lemma_positions(&self) {
        assert forall|n: N| #[trigger] self.slot_of(n) is Some implies 0 <= self.slot_of(n).unwrap()
            < self.slots().len() && Self::same_node(self.slots()[self.slot_of(n).unwrap()].0, n) by {
            self.heap.lemma_member_of_slot(n);
        }
        assert forall|i: int| 0 <= i < self.slots().len() implies self.slot_of(
            #[trigger] self.slots()[i].0,
        ) == Some(i) by {
            self.heap.lemma_slot_of_member(i);
        }
    }

    fn contains(&self, node: &N) -> (r: bool) {
        self.heap.contains(node)
    }

    fn key_of(&self, node: &N) -> (r: Option<K>) {
        self.heap.key_of(node)
    }

    fn decrease_key(&mut self, node: &N, decreased_key: K) {
        proof {
            self.heap.lemma_member_of_slot(*node);
        }
        self.heap.decrease_key(node, decreased_key);
        proof {
            assert forall|n: N| (#[trigger] self.slot_of(n)) is Some == old(self).slot_of(n) is Some by {
                assert(self.heap.positions.slots_map().dom().contains(n) == old(self).heap.positions.slots_map().dom().contains(n));
            }
        }
    }

    fn update_key(&mut self, node: &N, new_key: K) -> (r: ResUpdateKey) {
        proof {
            self.heap.lemma_member_of_slot(*node);
        }
        let r = self.heap.update_key(node, new_key);
        proof {
            assert forall|n: N| (#[trigger] self.slot_of(n)) is Some == old(self).slot_of(n) is Some by {
                assert(self.heap.positions.slots_map().dom().contains(n) == old(self).heap.positions.slots_map().dom().contains(n));
            }
        }
        r
    }

    fn remove(&mut self, node: &N) -> (r: K) {
        proof {
            self.heap.lemma_member_of_slot(*node);
        }
        self.heap.remove(node)
    }
}

} // verus!
