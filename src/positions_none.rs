//! The tracker of the plain heap: it records nothing.
use vstd::prelude::*;
use crate::heap_positions::HeapPositions;

verus! {

/// A tracker that records no position; every query answers "absent".
#[derive(Clone, Copy, Debug)]
pub struct HeapPositionsNone;

impl<N> HeapPositions<N> for HeapPositionsNone {
    type Id = ();

    open spec fn id_of(n: N) -> () {
        ()
    }

    open spec fn inv(&self) -> bool {
        true
    }

    open spec fn tracks(&self) -> bool {
        false
    }

    open spec fn limit(&self) -> nat {
        0
    }

    open spec fn admits(&self, n: N) -> bool {
        true
    }

    open spec fn slots_map(&self) -> Map<(), usize> {
        Map::empty()
    }

    fn contains(&self, _node: &N) -> (r: bool) {
        false
    }

    fn position_of(&self, _node: &N) -> (r: Option<usize>) {
        None
    }

    fn clear(&mut self) {
    }

    fn insert(&mut self, _node: &N, _position: usize) {
    }

    fn remove(&mut self, _node: &N) {
        proof {
            assert(Map::<(), usize>::empty().remove(()) =~= Map::<(), usize>::empty());
        }
    }

    fn update_position_of(&mut self, _node: &N, _position: usize) {
    }
}

} // verus!
