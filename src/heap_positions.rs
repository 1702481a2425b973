//! The position tracker that a heap notifies on every move of a slot.
use vstd::prelude::*;

verus! {

/// A side structure that maps each element of a heap to the slot that holds it.
///
/// Its content is a map from the identity of an element (`Id`) to a slot. A tracker that
/// does not track (`tracks` is false) keeps that map empty and ignores every update.
pub trait HeapPositions<N>: Sized {
    /// What identifies an element for this tracker.
    type Id;

    /// The identity of an element.
    spec fn id_of(n: N) -> Self::Id;

    /// Internal consistency of the tracker.
    spec fn inv(&self) -> bool;

    /// Whether this tracker records positions.
    spec fn tracks(&self) -> bool;

    /// Whether the tracker can hold the element at all (an index within bound).
    spec fn admits(&self, n: N) -> bool;

    /// The strict bound on identities, for a tracker that has one; otherwise zero.
    spec fn limit(&self) -> nat;

    /// The recorded slots.
    spec fn slots_map(&self) -> Map<Self::Id, usize>;

    /// Whether `node` has a recorded slot.
    fn contains(&self, node: &N) -> (r: bool)
        requires
            self.inv(),
        ensures
            r == self.slots_map().contains_key(Self::id_of(*node)),
    ;

    /// The recorded slot of `node`.
    fn position_of(&self, node: &N) -> (r: Option<usize>)
        requires
            self.inv(),
        ensures
            r == (if self.slots_map().contains_key(Self::id_of(*node)) {
                Some(self.slots_map()[Self::id_of(*node)])
            } else {
                None
            }),
    ;

    /// Forgets every recorded slot.
    fn clear(&mut self)
        requires
            old(self).inv(),
        ensures
            final(self).inv(),
            final(self).tracks() == old(self).tracks(),
            final(self).limit() == old(self).limit(),
            final(self).slots_map() == Map::<Self::Id, usize>::empty(),
            forall|n: N| final(self).admits(n) == old(self).admits(n),
    ;

    /// Records that `node` now sits at `position`.
    fn insert(&mut self, node: &N, position: usize)
        requires
            old(self).inv(),
            old(self).admits(*node),
            position < usize::MAX,
        ensures
            final(self).inv(),
            final(self).tracks() == old(self).tracks(),
            final(self).limit() == old(self).limit(),
            final(self).slots_map() == (if old(self).tracks() {
                old(self).slots_map().insert(Self::id_of(*node), position)
            } else {
                old(self).slots_map()
            }),
            forall|n: N| final(self).admits(n) == old(self).admits(n),
    ;

    /// Forgets the slot of `node`.
    fn remove(&mut self, node: &N)
        requires
            old(self).inv(),
        ensures
            final(self).inv(),
            final(self).tracks() == old(self).tracks(),
            final(self).limit() == old(self).limit(),
            final(self).slots_map() == old(self).slots_map().remove(Self::id_of(*node)),
            forall|n: N| final(self).admits(n) == old(self).admits(n),
    ;

    /// Records that `node`, already present, moved to `position`.
    fn update_position_of(&mut self, node: &N, position: usize)
        requires
            old(self).inv(),
            old(self).admits(*node),
            position < usize::MAX,
        ensures
            final(self).inv(),
            final(self).tracks() == old(self).tracks(),
            final(self).limit() == old(self).limit(),
            final(self).slots_map() == (if old(self).tracks() {
                old(self).slots_map().insert(Self::id_of(*node), position)
            } else {
                old(self).slots_map()
            }),
            forall|n: N| final(self).admits(n) == old(self).admits(n),
    ;
}

/// The tracker agrees with the tree `s`: every element of the tree is admitted, and a
/// tracking tracker maps exactly the identities of the tree's elements to their slots.
pub open spec fn agrees<N, K, P: HeapPositions<N>>(p: P, s: Seq<(N, K)>) -> bool {
    &&& forall|i: int| 0 <= i < s.len() ==> p.admits(#[trigger] s[i].0)
    &&& p.tracks() ==> {
        &&& forall|i: int|
            0 <= i < s.len() ==> p.slots_map().contains_key(P::id_of(#[trigger] s[i].0))
                && p.slots_map()[P::id_of(s[i].0)] == i
        &&& forall|k: P::Id|
            #[trigger] p.slots_map().contains_key(k) ==> p.slots_map()[k] < s.len()
                && P::id_of(s[p.slots_map()[k] as int].0) == k
    }
    &&& !p.tracks() ==> p.slots_map() == Map::<P::Id, usize>::empty()
}

} // verus!
