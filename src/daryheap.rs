//! The plain d-ary heap: no position tracker, so an element may be pushed many times.
use vstd::prelude::*;
use crate::heap::{Heap, lemma_root_is_min};
use crate::order::is_weak_order;
use crate::positions_none::HeapPositionsNone;
use crate::priority_queue::PriorityQueue;

verus! {

/// A d-ary heap with `D` children per node; a priority queue without the revise
/// operations. Its elements form a multiset.
#[derive(Clone, Debug)]
pub struct DaryHeap<N, K, const D: usize> {
    heap: Heap<N, K, HeapPositionsNone, D>,
}

/// A d-ary heap with two children per node.
pub type BinaryHeap<N, K> = DaryHeap<N, K, 2>;

/// A d-ary heap with four children per node.
pub type QuaternaryHeap<N, K> = DaryHeap<N, K, 4>;

impl<N, K: PartialOrd, const D: usize> DaryHeap<N, K, D> {
    /// Creates an empty heap.
    pub fn new() -> (r: Self)
        requires
            D >= 1,
        ensures
            r.well_formed(),
            r.slots() == Seq::<(N, K)>::empty(),
    {
        DaryHeap { heap: Heap::new(None, HeapPositionsNone) }
    }

    /// Creates an empty heap with room for `capacity` elements.
    pub fn with_capacity(capacity: usize) -> (r: Self)
        requires
            D >= 1,
        ensures
            r.well_formed(),
            r.slots() == Seq::<(N, K)>::empty(),
    {
        DaryHeap { heap: Heap::new(Some(capacity), HeapPositionsNone) }
    }

    /// The largest number of children of a node: `D`.
    pub fn d() -> (r: usize)
        ensures
            r == D,
    {
        D
    }

    /// The pairs of the queue, in no given order but the foremost first.
    pub fn as_slice(&self) -> (r: &[(N, K)])
        requires
            self.well_formed(),
        ensures
            r@ == self.slots(),
    {
        self.heap.as_slice()
    }
}

impl<N, K: PartialOrd, const D: usize> Default for DaryHeap<N, K, D> {
    fn default() -> (r: Self)
        ensures
            D >= 1 ==> r.well_formed() && r.slots() == Seq::<(N, K)>::empty(),
    {
        DaryHeap { heap: Heap { tree: Vec::new(), positions: HeapPositionsNone } }
    }
}

impl<N, K: PartialOrd, const D: usize> PriorityQueue<N, K> for DaryHeap<N, K, D> {
    closed spec fn well_formed(&self) -> bool {
        self.heap.wf()
    }

    closed spec fn slots(&self) -> Seq<(N, K)> {
        self.heap.tree@
    }

    open spec fn accepts(&self, node: N) -> bool {
        true
    }

    open spec fn admits(&self, node: N) -> bool {
        self.slots().len() < usize::MAX
    }

    open spec fn limit(&self) -> nat {
        0
    }

    open spec fn branching(&self) -> int {
        D as int
    }

    proof fn lemma_heap_order(&self) {
        let s = self.heap.tree@;
        assert forall|j: int| 0 <= j < s.len() implies !crate::order::lt(#[trigger] s[j].1, s[0].1) by {
            lemma_root_is_min(s, D as int, j);
        }
    }

    fn len(&self) -> (r: usize) {
        self.heap.len()
    }

    fn capacity(&self) -> (r: usize) {
        self.heap.capacity()
    }

    fn peek(&self) -> (r: Option<&(N, K)>) {
        proof {
            if is_weak_order::<K>() {
                self.lemma_heap_order();
            }
        }
        self.heap.peek()
    }

    fn iter(&self) -> (r: std::slice::Iter<'_, (N, K)>) {
        let r = self.heap.as_slice().iter();
        proof {
            broadcast use vstd::std_specs::slice::axiom_spec_slice_iter;
        }
        r
    }

    fn clear(&mut self) {
        self.heap.clear()
    }

    fn pop(&mut self) -> (r: Option<(N, K)>) {
        proof {
            if is_weak_order::<K>() {
                self.lemma_heap_order();
            }
        }
        self.heap.pop()
    }

    fn pop_node(&mut self) -> (r: Option<N>) {
        match self.pop() {
            Some(x) => Some(x.0),
            None => None,
        }
    }

    fn pop_key(&mut self) -> (r: Option<K>) {
        match self.pop() {
            Some(x) => Some(x.1),
            None => None,
        }
    }

    fn push(&mut self, node: N, key: K) {
        proof {
            assert(self.heap.node_slot(node).is_none());
        }
        self.heap.push(node, key)
    }

    fn push_then_pop(&mut self, node: N, key: K) -> (r: (N, K)) {
        proof {
            assert(self.heap.node_slot(node).is_none());
        }
        self.heap.push_then_pop(node, key)
    }
}

} // verus!
