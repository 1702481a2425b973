//! The tracker of the indexed heap: an array of slots indexed by element identity.
use vstd::prelude::*;
use crate::has_index::HasIndex;
use crate::heap_positions::HeapPositions;

verus! {

/// Marks an index that has no recorded slot.
pub const NONE: usize = usize::MAX;

/// A tracker holding, for each index below a fixed bound, the slot of the element with that
/// index, or `NONE`.
#[derive(Clone, Debug)]
pub struct HeapPositionsHasIndex {
    positions: Vec<usize>,
}

impl HeapPositionsHasIndex {
    /// The array of recorded slots.
    pub closed spec fn cells(&self) -> Seq<usize> {
        self.positions@
    }

    /// The recorded slots, by index.
    pub open spec fn index_map(&self) -> Map<usize, usize> {
        Map::new(
            |i: usize| (i as int) < self.cells().len() && self.cells()[i as int] != NONE,
            |i: usize| self.cells()[i as int],
        )
    }

    /// Creates a tracker for the indices `0..index_bound`, all absent.
    pub fn with_index_bound(index_bound: usize) -> (r: Self)
        ensures
            r.cells().len() == index_bound,
            r.cells() == Seq::new(index_bound as nat, |i: int| NONE),
    {
        let positions = vec![NONE; index_bound];
        let r = Self { positions };
        proof {
            assert(r.cells() =~= Seq::new(index_bound as nat, |i: int| NONE));
        }
        r
    }

    /// The strict upper bound on the indices that the tracker holds.
    pub fn index_bound(&self) -> (r: usize)
        ensures
            r == self.cells().len(),
    {
        self.positions.len()
    }
}

impl<N: HasIndex> HeapPositions<N> for HeapPositionsHasIndex {
    type Id = usize;

    open spec fn id_of(n: N) -> usize {
        n.index_spec()
    }

    open spec fn inv(&self) -> bool {
        true
    }

    open spec fn tracks(&self) -> bool {
        true
    }

    open spec fn limit(&self) -> nat {
        self.cells().len()
    }

    open spec fn admits(&self, n: N) -> bool {
        n.index_spec() < self.cells().len()
    }

    open spec fn slots_map(&self) -> Map<usize, usize> {
        self.index_map()
    }

    fn contains(&self, node: &N) -> (r: bool) {
        let i = node.index();
        i < self.positions.len() && self.positions[i] != NONE
    }

    fn position_of(&self, node: &N) -> (r: Option<usize>) {
        let i = node.index();
        if i >= self.positions.len() {
            None
        } else {
            let position = self.positions[i];
            if position == NONE {
                None
            } else {
                Some(position)
            }
        }
    }

    fn clear(&mut self) {
        let ghost old_len = self.positions@.len();
        let mut i: usize = 0;
        while i < self.positions.len()
            invariant
                self.positions@.len() == old_len,
                i <= old_len,
                forall|j: int| 0 <= j < i ==> self.positions@[j] == NONE,
            decreases old_len - i,
        {
            self.positions[i] = NONE;
            i += 1;
        }
        proof {
            assert(self.index_map() =~= Map::<usize, usize>::empty());
        }
    }

    fn insert(&mut self, node: &N, position: usize) {
        let i = node.index();
        self.positions[i] = position;
        proof {
            assert(self.index_map() =~= old(self).index_map().insert(i, position));
        }
    }

    fn remove(&mut self, node: &N) {
        let i = node.index();
        if i < self.positions.len() {
            self.positions[i] = NONE;
        }
        proof {
            assert(self.index_map() =~= old(self).index_map().remove(i));
        }
    }

    fn update_position_of(&mut self, node: &N, position: usize) {
        let i = node.index();
        self.positions[i] = position;
        proof {
            assert(self.index_map() =~= old(self).index_map().insert(i, position));
        }
    }
}

} // verus!
