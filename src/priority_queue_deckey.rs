//! The revise capability: find an enqueued element and change or remove its key.
use vstd::prelude::*;
use crate::order::{lt, is_weak_order, less, clone_is_exact};
use vstd::std_specs::cmp::PartialOrdSpec;
use crate::priority_queue::{PriorityQueue, pushed};
use crate::results::{
    ResUpdateKey, ResTryDecreaseKey, ResDecreaseKeyOrPush, ResUpdateKeyOrPush,
    ResTryDecreaseKeyOrPush,
};

verus! {

/// `after` is `before` with the key of entry `i` replaced by `key`, as multisets.
pub open spec fn revised<N, K>(before: Seq<(N, K)>, after: Seq<(N, K)>, i: int, key: K) -> bool {
    &&& after.len() == before.len()
    &&& after.to_multiset() == before.to_multiset().remove(before[i]).insert((before[i].0, key))
}

/// A priority queue whose elements form a set, and whose enqueued elements can be found,
/// given a new key, or removed.
pub trait PriorityQueueDecKey<N: Clone, K: PartialOrd + Clone>: PriorityQueue<N, K> {
    /// Whether two values are one element to this queue.
    spec fn same_node(a: N, b: N) -> bool;

    /// The slot that holds `node`, if it is in the queue.
    spec fn slot_of(&self, node: N) -> Option<int>;

    /// The positions known for the elements agree with the slots: each element in the
    /// queue is found at its own slot, and every slot found holds that element.
    proof fn lemma_positions(&self)
        requires
            self.well_formed(),
        ensures
            forall|i: int|
                0 <= i < self.slots().len() ==> self.slot_of(#[trigger] self.slots()[i].0) == Some(i),
            forall|n: N| #[trigger]
                self.slot_of(n) is Some ==> 0 <= self.slot_of(n).unwrap() < self.slots().len()
                    && Self::same_node(self.slots()[self.slot_of(n).unwrap()].0, n),
            forall|i: int| 0 <= i < self.slots().len() ==> self.accepts(#[trigger] self.slots()[i].0),
            forall|n: N| #[trigger]
                self.admits(n) <==> self.accepts(n) && self.slot_of(n) is None && self.slots().len()
                    < usize::MAX,
    ;

    /// Whether `node` is in the queue.
    fn contains(&self, node: &N) -> (r: bool)
        requires
            self.well_formed(),
        ensures
            r == self.slot_of(*node) is Some,
    ;

    /// A clone of the key of `node` if it is in the queue; nothing otherwise.
    fn key_of(&self, node: &N) -> (r: Option<K>)
        requires
            self.well_formed(),
        ensures
            r is Some == self.slot_of(*node) is Some,
            clone_is_exact::<K>() && r is Some ==> r.unwrap() == self.slots()[self.slot_of(*node).unwrap()].1,
    ;

    /// Sets the key of `node`, which is in the queue, to `decreased_key`, which is not
    /// greater than its key.
    fn decrease_key(&mut self, node: &N, decreased_key: K)
        requires
            old(self).well_formed(),
            old(self).slot_of(*node) is Some,
            K::obeys_partial_cmp_spec() ==> !lt(old(self).slots()[old(self).slot_of(*node).unwrap()].1, decreased_key),
        ensures
            final(self).well_formed(),
            forall|n: N| #[trigger] final(self).accepts(n) == old(self).accepts(n),
            final(self).limit() == old(self).limit(),
            revised(old(self).slots(), final(self).slots(), old(self).slot_of(*node).unwrap(), decreased_key),
            final(self).slot_of(*node) is Some && final(self).slots()[final(self).slot_of(*node).unwrap()].1 == decreased_key,
            forall|n: N| (#[trigger] final(self).slot_of(n)) is Some == old(self).slot_of(n) is Some,
    ;

    /// Sets the key of `node`, which is in the queue, to `new_key`; tells whether the key
    /// decreased.
    fn update_key(&mut self, node: &N, new_key: K) -> (r: ResUpdateKey)
        requires
            old(self).well_formed(),
            old(self).slot_of(*node) is Some,
        ensures
            final(self).well_formed(),
            forall|n: N| #[trigger] final(self).accepts(n) == old(self).accepts(n),
            final(self).limit() == old(self).limit(),
            revised(old(self).slots(), final(self).slots(), old(self).slot_of(*node).unwrap(), new_key),
            final(self).slot_of(*node) is Some && final(self).slots()[final(self).slot_of(*node).unwrap()].1 == new_key,
            forall|n: N| (#[trigger] final(self).slot_of(n)) is Some == old(self).slot_of(n) is Some,
            is_weak_order::<K>() ==> (r == ResUpdateKey::Decreased <==> lt(
                new_key,
                old(self).slots()[old(self).slot_of(*node).unwrap()].1)),
    ;

    /// Takes `node`, which is in the queue, out and returns its key.
    fn remove(&mut self, node: &N) -> (r: K)
        requires
            old(self).well_formed(),
            old(self).slot_of(*node) is Some,
        ensures
            final(self).well_formed(),
            forall|n: N| #[trigger] final(self).accepts(n) == old(self).accepts(n),
            final(self).limit() == old(self).limit(),
            r == old(self).slots()[old(self).slot_of(*node).unwrap()].1,
            final(self).slots().len() == old(self).slots().len() - 1,
            final(self).slots().to_multiset() == old(self).slots().to_multiset().remove(
                old(self).slots()[old(self).slot_of(*node).unwrap()],
            ),
            final(self).slot_of(*node) is None,
    ;

    /// Decreases the key of `node`, which is in the queue, to `new_key` when that is less
    /// than its key; otherwise leaves the queue as it is.
    fn try_decrease_key(&mut self, node: &N, new_key: K) -> (r: ResTryDecreaseKey)
        requires
            old(self).well_formed(),
            old(self).slot_of(*node) is Some,
            clone_is_exact::<K>(),
        ensures
            final(self).well_formed(),
            forall|n: N| #[trigger] final(self).accepts(n) == old(self).accepts(n),
            final(self).limit() == old(self).limit(),
            r == ResTryDecreaseKey::Decreased ==> revised(
                old(self).slots(),
                final(self).slots(),
                old(self).slot_of(*node).unwrap(),
                new_key,
            ) && final(self).slot_of(*node) is Some && final(self).slots()[final(self).slot_of(*node).unwrap()].1 == new_key,
            r == ResTryDecreaseKey::Unchanged ==> *final(self) == *old(self),
            is_weak_order::<K>() ==> (r == ResTryDecreaseKey::Decreased <==> lt(
                new_key,
                old(self).slots()[old(self).slot_of(*node).unwrap()].1)),
    {
        let old_key = self.key_of(node).unwrap();
        if less(&new_key, &old_key) {
            self.update_key(node, new_key);
            ResTryDecreaseKey::Decreased
        } else {
            ResTryDecreaseKey::Unchanged
        }
    }

    /// Pushes (`node`, `key`) when `node` is absent; otherwise decreases its key to `key`,
    /// which must not be greater than its key.
    fn decrease_key_or_push(&mut self, node: &N, key: K) -> (r: ResDecreaseKeyOrPush)
        requires
            old(self).well_formed(),
            clone_is_exact::<N>(),
            old(self).slot_of(*node) is None ==> old(self).admits(*node),
            old(self).slot_of(*node) is Some && K::obeys_partial_cmp_spec() ==> !lt(
                old(self).slots()[old(self).slot_of(*node).unwrap()].1,
                key,
            ),
        ensures
            final(self).well_formed(),
            forall|n: N| #[trigger] final(self).accepts(n) == old(self).accepts(n),
            final(self).limit() == old(self).limit(),
            (r == ResDecreaseKeyOrPush::Pushed) == old(self).slot_of(*node) is None,
            r == ResDecreaseKeyOrPush::Pushed ==> pushed(old(self).slots(), final(self).slots(), *node, key),
            r == ResDecreaseKeyOrPush::Decreased ==> revised(
                old(self).slots(),
                final(self).slots(),
                old(self).slot_of(*node).unwrap(),
                key,
            ) && final(self).slot_of(*node) is Some && final(self).slots()[final(self).slot_of(*node).unwrap()].1 == key,
    {
        if self.contains(node) {
            self.decrease_key(node, key);
            ResDecreaseKeyOrPush::Decreased
        } else {
            let n = node.clone();
            proof {
                assert(vstd::pervasive::strictly_cloned(*node, n));
            }
            self.push(n, key);
            ResDecreaseKeyOrPush::Pushed
        }
    }

    /// Pushes (`node`, `key`) when `node` is absent; otherwise sets its key to `key`.
    fn update_key_or_push(&mut self, node: &N, key: K) -> (r: ResUpdateKeyOrPush)
        requires
            old(self).well_formed(),
            clone_is_exact::<N>(),
            old(self).slot_of(*node) is None ==> old(self).admits(*node),
        ensures
            final(self).well_formed(),
            forall|n: N| #[trigger] final(self).accepts(n) == old(self).accepts(n),
            final(self).limit() == old(self).limit(),
            (r == ResUpdateKeyOrPush::Pushed) == old(self).slot_of(*node) is None,
            r == ResUpdateKeyOrPush::Pushed ==> pushed(old(self).slots(), final(self).slots(), *node, key),
            r != ResUpdateKeyOrPush::Pushed ==> revised(
                old(self).slots(),
                final(self).slots(),
                old(self).slot_of(*node).unwrap(),
                key,
            ) && final(self).slot_of(*node) is Some && final(self).slots()[final(self).slot_of(*node).unwrap()].1 == key,
            r != ResUpdateKeyOrPush::Pushed && is_weak_order::<K>() ==> (r
                == ResUpdateKeyOrPush::Decreased <==> lt(key, old(self).slots()[old(self).slot_of(*node).unwrap()].1)),
    {
        if self.contains(node) {
            match self.update_key(node, key) {
                ResUpdateKey::Decreased => ResUpdateKeyOrPush::Decreased,
                ResUpdateKey::Increased => ResUpdateKeyOrPush::Increased,
            }
        } else {
            let n = node.clone();
            proof {
                assert(vstd::pervasive::strictly_cloned(*node, n));
            }
            self.push(n, key);
            ResUpdateKeyOrPush::Pushed
        }
    }

    /// Pushes (`node`, `key`) when `node` is absent; otherwise decreases its key to `key`
    /// when that is less than its key, and leaves the queue as it is when not.
    fn try_decrease_key_or_push(&mut self, node: &N, key: K) -> (r: ResTryDecreaseKeyOrPush)
        requires
            old(self).well_formed(),
            clone_is_exact::<N>(),
            clone_is_exact::<K>(),
            old(self).slot_of(*node) is None ==> old(self).admits(*node),
        ensures
            final(self).well_formed(),
            forall|n: N| #[trigger] final(self).accepts(n) == old(self).accepts(n),
            final(self).limit() == old(self).limit(),
            (r == ResTryDecreaseKeyOrPush::Pushed) == old(self).slot_of(*node) is None,
            r == ResTryDecreaseKeyOrPush::Pushed ==> pushed(
                old(self).slots(),
                final(self).slots(),
                *node,
                key,
            ),
            r == ResTryDecreaseKeyOrPush::Decreased ==> revised(
                old(self).slots(),
                final(self).slots(),
                old(self).slot_of(*node).unwrap(),
                key,
            ) && final(self).slot_of(*node) is Some && final(self).slots()[final(self).slot_of(*node).unwrap()].1 == key,
            r == ResTryDecreaseKeyOrPush::Unchanged ==> *final(self) == *old(self),
            r != ResTryDecreaseKeyOrPush::Pushed && is_weak_order::<K>() ==> (r
                == ResTryDecreaseKeyOrPush::Decreased <==> lt(
                key,
                old(self).slots()[old(self).slot_of(*node).unwrap()].1)),
    {
        match self.key_of(node) {
            Some(old_key) => {
                if less(&key, &old_key) {
                    self.update_key(node, key);
                    ResTryDecreaseKeyOrPush::Decreased
                } else {
                    ResTryDecreaseKeyOrPush::Unchanged
                }
            },
            None => {
                let n = node.clone();
                proof {
                    assert(vstd::pervasive::strictly_cloned(*node, n));
                }
                self.push(n, key);
                ResTryDecreaseKeyOrPush::Pushed
            },
        }
    }
}

} // verus!
