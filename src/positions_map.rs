//! The tracker of the mapped heap: a hash map from element to slot.
use vstd::prelude::*;
use std::collections::HashMap;
use std::hash::Hash;
use crate::heap_positions::HeapPositions;
use crate::order::clone_is_exact;
use vstd::std_specs::hash::obeys_key_model;

verus! {

broadcast use vstd::std_specs::hash::group_hash_axioms;

/// What an element of a mapped heap must offer: equality, hashing and duplication.
pub trait Index: Eq + Clone + Hash {}

impl<T: Eq + Clone + Hash> Index for T {}

/// The element types whose equality, hashing and cloning behave as values do, so that a
/// hash map keyed by them acts as a map of values (true of the integer types).
pub open spec fn is_plain_key<N: Clone>() -> bool {
    &&& obeys_key_model::<N>()
    &&& clone_is_exact::<N>()
}

/// A tracker holding the slot of each element in a hash map.
#[derive(Clone, Debug)]
pub struct HeapPositionsMap<N> {
    map: HashMap<N, usize>,
}

impl<N: Index> HeapPositionsMap<N> {
    /// Creates an empty tracker.
    pub fn new() -> (r: Self)
        requires
            is_plain_key::<N>(),
        ensures
            r.inv(),
            r.slots_map() == Map::<N, usize>::empty(),
    {
        Self { map: HashMap::new() }
    }

    /// Creates an empty tracker with room for `capacity` elements.
    pub fn with_capacity(capacity: usize) -> (r: Self)
        requires
            is_plain_key::<N>(),
        ensures
            r.inv(),
            r.slots_map() == Map::<N, usize>::empty(),
    {
        Self { map: HashMap::with_capacity(capacity) }
    }
}

impl<N: Index> Default for HeapPositionsMap<N> {
    fn default() -> (r: Self)
        ensures
            is_plain_key::<N>() ==> r.inv(),
            r.slots_map() == Map::<N, usize>::empty(),
    {
        Self { map: HashMap::new() }
    }
}

impl<N: Index> HeapPositions<N> for HeapPositionsMap<N> {
    type Id = N;

    open spec fn id_of(n: N) -> N {
        n
    }

    open spec fn inv(&self) -> bool {
        is_plain_key::<N>()
    }

    open spec fn tracks(&self) -> bool {
        true
    }

    open spec fn limit(&self) -> nat {
        0
    }

    open spec fn admits(&self, n: N) -> bool {
        true
    }

    closed spec fn slots_map(&self) -> Map<N, usize> {
        self.map@
    }

    fn contains(&self, node: &N) -> (r: bool) {
        self.map.contains_key(node)
    }

    fn position_of(&self, node: &N) -> (r: Option<usize>) {
        match self.map.get(node) {
            Some(p) => Some(*p),
            None => None,
        }
    }

    fn clear(&mut self) {
        self.map.clear();
    }

    fn insert(&mut self, node: &N, position: usize) {
        let key = node.clone();
        proof {
            assert(vstd::pervasive::strictly_cloned(*node, key));
        }
        self.map.insert(key, position);
    }

    fn remove(&mut self, node: &N) {
        self.map.remove(node);
        proof {
            assert(self.map@ =~= old(self).map@.remove(*node));
        }
    }

    fn update_position_of(&mut self, node: &N, position: usize) {
        let key = node.clone();
        proof {
            assert(vstd::pervasive::strictly_cloned(*node, key));
        }
        self.map.insert(key, position);
    }
}

} // verus!
