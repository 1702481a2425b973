//! The engine shared by every heap: an array-backed `D`-ary tree of (element, key) slots
//! and a position tracker that is told of every move.
use vstd::prelude::*;
use vstd::std_specs::cmp::PartialOrdSpec;
use crate::order::{lt, is_weak_order, parent, heap_ordered, less, lemma_lt_le, lemma_asym};
use crate::dary::{parent_of, left_child_of, has_child, lemma_child_parent, lemma_parent_child};
use crate::heap_positions::{HeapPositions, agrees};
use crate::order::clone_is_exact;
use crate::results::ResUpdateKey;

verus! {

broadcast use vstd::seq_lib::group_to_multiset_ensures;

/// Heap order holds except between slot `c` and its parent; the children of `c` are not
/// less than the parent of `c`.
pub open spec fn ordered_except_up<N, K: PartialOrd>(s: Seq<(N, K)>, c: int, d: int) -> bool {
    &&& forall|i: int| 0 < i < s.len() && i != c ==> !lt(#[trigger] s[i].1, s[parent(i, d)].1)
    &&& c > 0 ==> forall|i: int|
        0 < i < s.len() && parent(i, d) == c ==> !lt(#[trigger] s[i].1, s[parent(c, d)].1)
}

/// Heap order holds except between slot `p` and its children; when `p` has a parent, the
/// children of `p` are not less than it.
pub open spec fn ordered_except_down<N, K: PartialOrd>(s: Seq<(N, K)>, p: int, d: int) -> bool {
    &&& forall|i: int|
        0 < i < s.len() && parent(i, d) != p ==> !lt(#[trigger] s[i].1, s[parent(i, d)].1)
    &&& p > 0 ==> forall|i: int|
        0 < i < s.len() && parent(i, d) == p ==> !lt(#[trigger] s[i].1, s[parent(p, d)].1)
}

/// Whether slot `i` lies in the subtree rooted at slot `p` of a `d`-ary tree.
pub open spec fn in_subtree(i: int, p: int, d: int) -> bool
    decreases i,
{
    if i <= p {
        i == p
    } else if d >= 1 && 0 <= parent(i, d) < i {
        in_subtree(parent(i, d), p, d)
    } else {
        false
    }
}

/// Among the `n` slots from `first`, the leftmost one of least key.
pub open spec fn scan_best<N, K: PartialOrd>(s: Seq<(N, K)>, first: int, n: int) -> int
    decreases n,
{
    if n <= 1 {
        first
    } else {
        let b = scan_best(s, first, n - 1);
        if lt(s[first + n - 1].1, s[b].1) {
            first + n - 1
        } else {
            b
        }
    }
}

/// The best child of slot `p`: the leftmost of its children of least key.
pub open spec fn best_child<N, K: PartialOrd>(s: Seq<(N, K)>, p: int, d: int) -> int {
    let first = d * p + 1;
    scan_best(s, first, if d < s.len() - first { d } else { s.len() - first })
}

/// Slot `p` has a child whose key is less than its own, so a sift down moves it.
pub open spec fn sinks<N, K: PartialOrd>(s: Seq<(N, K)>, p: int, d: int) -> bool {
    d * p + 1 < s.len() && lt(s[best_child(s, p, d)].1, s[p].1)
}

/// Slot `c` lies in the subtree of its parent's subtree roots: whatever holds `x` below `c`
/// holds it below the parent of `c`.
pub proof fn lemma_subtree_parent(x: int, c: int, d: int)
    requires
        d >= 1,
        c > 0,
        in_subtree(x, c, d),
    ensures
        in_subtree(x, parent(c, d), d),
    decreases x,
{
    lemma_parent_child(c, d);
    let g = parent(c, d);
    if x > c {
        lemma_parent_child(x, d);
        assert(in_subtree(parent(x, d), c, d));
        lemma_subtree_parent(parent(x, d), c, d);
        assert(in_subtree(x, g, d));
    } else {
        assert(x == c);
        assert(in_subtree(g, g, d));
        assert(in_subtree(x, g, d));
    }
}

/// A child of a slot in the subtree of `pos` is in that subtree too, and lies past `pos`.
pub proof fn lemma_child_in_subtree(b: int, p: int, pos: int, d: int)
    requires
        d >= 1,
        b > 0,
        parent(b, d) == p,
        in_subtree(p, pos, d),
    ensures
        in_subtree(b, pos, d),
        b > pos,
{
    lemma_parent_child(b, d);
    assert(p >= pos);
}

/// In a tree ordered except at `c`, no slot but `c` holds a key less than the root's.
pub proof fn lemma_root_le_except_up<N, K: PartialOrd>(s: Seq<(N, K)>, c: int, d: int, j: int)
    requires
        is_weak_order::<K>(),
        d >= 1,
        ordered_except_up(s, c, d),
        0 <= j < s.len(),
        j != c,
    ensures
        !lt(s[j].1, s[0].1),
    decreases j,
{
    if j > 0 {
        lemma_parent_child(j, d);
        let p = parent(j, d);
        if p != c {
            lemma_root_le_except_up(s, c, d, p);
            assert(!lt(s[j].1, s[p].1));
        } else if c == 0 {
            assert(!lt(s[j].1, s[p].1));
        } else {
            lemma_parent_child(c, d);
            lemma_root_le_except_up(s, c, d, parent(c, d));
            assert(!lt(s[j].1, s[parent(c, d)].1));
        }
    }
}

/// In a heap-ordered tree, no key is less than the root's.
pub proof fn lemma_root_is_min<N, K: PartialOrd>(s: Seq<(N, K)>, d: int, j: int)
    requires
        is_weak_order::<K>(),
        d >= 1,
        heap_ordered(s, d),
        0 <= j < s.len(),
    ensures
        !lt(s[j].1, s[0].1),
    decreases j,
{
    if j > 0 {
        lemma_parent_child(j, d);
        lemma_root_is_min(s, d, parent(j, d));
        assert(!lt(s[j].1, s[parent(j, d)].1));
    }
}

/// Exchanging two entries keeps the multiset of a sequence.
pub proof fn lemma_swap_multiset<A>(s: Seq<A>, i: int, j: int)
    requires
        0 <= i < s.len(),
        0 <= j < s.len(),
    ensures
        s.update(i, s[j]).update(j, s[i]).to_multiset() =~= s.to_multiset(),
{
    let s1 = s.update(i, s[j]);
    assert(s1.to_multiset() == s.to_multiset().insert(s[j]).remove(s[i]));
    assert(s1.update(j, s[i]).to_multiset() == s1.to_multiset().insert(s[i]).remove(s1[j]));
    if i == j {
        assert(s.update(i, s[j]) =~= s);
    }
}

/// Replacing entry `i` by the last one and dropping the last removes entry `i` from the
/// multiset.
pub proof fn lemma_swap_remove_multiset<A>(s: Seq<A>, i: int)
    requires
        0 <= i < s.len(),
    ensures
        s.update(i, s.last()).drop_last().to_multiset() =~= s.to_multiset().remove(s[i]),
{
    broadcast use vstd::multiset::group_multiset_axioms;

    let u = s.update(i, s.last());
    let x = u.drop_last().to_multiset();
    let ms = s.to_multiset();
    assert(u.drop_last().push(u.last()) =~= u);
    assert(u.to_multiset() == ms.insert(s.last()).remove(s[i]));
    assert(u.last() == s.last());
    assert(x.insert(s.last()) == ms.insert(s.last()).remove(s[i]));
    assert forall|v: A| #[trigger] x.count(v) == ms.remove(s[i]).count(v) by {
        assert(x.insert(s.last()).count(v) == ms.insert(s.last()).remove(s[i]).count(v));
        assert(ms.count(s[i]) > 0);
    }
}

/// Relies on `Vec::capacity`: the number of elements the vector can hold without
/// reallocating, which is at least its length.
#[verifier::external_body]
fn vec_capacity<T>(v: &Vec<T>) -> (r: usize)
    ensures
        r >= v@.len(),
{
    v.capacity()
}

/// The engine: `tree` holds the live slots, root first.
#[derive(Clone, Debug)]
pub(crate) struct Heap<N, K, P, const D: usize> {
    pub(crate) tree: Vec<(N, K)>,
    pub(crate) positions: P,
}

impl<N, K: PartialOrd, P: HeapPositions<N>, const D: usize> Heap<N, K, P, D> {
    /// The live (element, key) slots in tree order.
    pub(crate) open spec fn slots(&self) -> Seq<(N, K)> {
        self.tree@
    }

    /// The structure without the order: tracker consistent and in agreement with the tree.
    pub(crate) open spec fn structure_ok(&self) -> bool {
        &&& D >= 1
        &&& self.positions.inv()
        &&& agrees(self.positions, self.tree@)
    }

    /// The engine's invariant.
    pub(crate) open spec fn wf(&self) -> bool {
        &&& self.structure_ok()
        &&& is_weak_order::<K>() ==> heap_ordered(self.tree@, D as int)
    }

    /// Tracker settings that an operation keeps.
    pub(crate) open spec fn same_tracker_kind(&self, other: &Self) -> bool {
        &&& self.positions.tracks() == other.positions.tracks()
        &&& self.positions.limit() == other.positions.limit()
        &&& forall|n: N| #[trigger] self.positions.admits(n) == other.positions.admits(n)
    }

    /// Creates an empty engine with the given tracker.
    pub(crate) fn new(capacity: Option<usize>, positions: P) -> (r: Self)
        requires
            D >= 1,
            positions.inv(),
            positions.slots_map() == Map::<P::Id, usize>::empty(),
        ensures
            r.wf(),
            r.slots() == Seq::<(N, K)>::empty(),
            r.positions == positions,
    {
        let tree = match capacity {
            Some(c) => Vec::with_capacity(c),
            None => Vec::new(),
        };
        Self { tree, positions }
    }

    /// The tracker.
    pub(crate) fn positions(&self) -> (r: &P)
        ensures
            *r == self.positions,
    {
        &self.positions
    }

    /// Number of live slots.
    pub(crate) fn len(&self) -> (r: usize)
        ensures
            r == self.slots().len(),
    {
        self.tree.len()
    }

    /// The root slot, if any.
    pub(crate) fn peek(&self) -> (r: Option<&(N, K)>)
        ensures
            r == (if self.slots().len() == 0 {
                None::<&(N, K)>
            } else {
                Some(&self.slots()[0])
            }),
    {
        if self.tree.len() == 0 {
            None
        } else {
            Some(&self.tree[0])
        }
    }

    /// The live slots.
    pub(crate) fn as_slice(&self) -> (r: &[(N, K)])
        ensures
            r@ == self.slots(),
    {
        self.tree.as_slice()
    }

    /// Exchanges slots `i` and `j` and tells the tracker.
    fn swap_slots(&mut self, i: usize, j: usize)
        requires
            old(self).structure_ok(),
            i < old(self).tree@.len(),
            j < old(self).tree@.len(),
            i != j,
        ensures
            final(self).structure_ok(),
            final(self).same_tracker_kind(old(self)),
            final(self).tree@ == old(self).tree@.update(i as int, old(self).tree@[j as int]).update(
                j as int,
                old(self).tree@[i as int],
            ),
            final(self).positions.slots_map().dom() == old(self).positions.slots_map().dom(),
    {
        let ghost s = self.tree@;
        let ghost m = self.positions.slots_map();
        let n = self.tree.len();
        let (lo, hi) = if i < j {
            (i, j)
        } else {
            (j, i)
        };
        {
            let (a, b) = self.tree.as_mut_slice().split_at_mut(hi);
            std::mem::swap(&mut a[lo], &mut b[0]);
        }
        assert(self.tree@ =~= s.update(i as int, s[j as int]).update(j as int, s[i as int]));
        self.positions.update_position_of(&self.tree[i].0, i);
        self.positions.update_position_of(&self.tree[j].0, j);
        proof {
            let t = self.tree@;
            let p = self.positions;
            if p.tracks() {
                let ki = P::id_of(s[i as int].0);
                let kj = P::id_of(s[j as int].0);
                assert(m[ki] == i && m[kj] == j);
                assert(ki != kj);
                assert(p.slots_map() == m.insert(kj, i).insert(ki, j));
                assert(p.slots_map().dom() =~= m.dom());
                assert forall|x: int| 0 <= x < t.len() implies p.slots_map().contains_key(
                    P::id_of(#[trigger] t[x].0),
                ) && p.slots_map()[P::id_of(t[x].0)] == x by {
                    if x != i && x != j {
                        assert(t[x] == s[x]);
                        assert(m[P::id_of(s[x].0)] == x);
                    }
                }
                assert forall|k: P::Id| #[trigger] p.slots_map().contains_key(k) implies p.slots_map()[k]
                    < t.len() && P::id_of(t[p.slots_map()[k] as int].0) == k by {
                    if k != ki && k != kj {
                        assert(m.contains_key(k));
                        let x = m[k] as int;
                        assert(x != i && x != j);
                    }
                }
            }
            assert forall|x: int| 0 <= x < t.len() implies p.admits(#[trigger] t[x].0) by {
                assert(old(self).positions.admits(s[x].0));
                assert(p.admits(s[x].0));
            }
        }
    }

    /// Moves the slot at `pos` toward the root while its key is less than its parent's.
    pub(crate) fn heapify_up(&mut self, pos: usize)
        requires
            old(self).structure_ok(),
            pos < old(self).tree@.len(),
            is_weak_order::<K>() ==> ordered_except_up(old(self).tree@, pos as int, D as int),
        ensures
            final(self).wf(),
            final(self).same_tracker_kind(old(self)),
            final(self).tree@.len() == old(self).tree@.len(),
            final(self).tree@.to_multiset() == old(self).tree@.to_multiset(),
            final(self).positions.slots_map().dom() == old(self).positions.slots_map().dom(),
            pos == 0 ==> final(self).tree@ == old(self).tree@,
            K::obeys_partial_cmp_spec() && pos > 0 && !lt(
                old(self).tree@[pos as int].1,
                old(self).tree@[parent(pos as int, D as int)].1,
            ) ==> final(self).tree@ == old(self).tree@,
            forall|i: int|
                0 <= i < old(self).tree@.len() && !in_subtree(pos as int, i, D as int) ==> final(self).tree@[i] == old(self).tree@[i],
            pos > 0 && is_weak_order::<K>() ==> final(self).tree@[0] == (if lt(
                old(self).tree@[pos as int].1,
                old(self).tree@[0].1,
            ) {
                old(self).tree@[pos as int]
            } else {
                old(self).tree@[0]
            }),
    {
        let ghost s0 = self.tree@;
        let ghost x = s0[pos as int];
        let ghost d = D as int;
        let mut child = pos;
        let mut done = false;
        while child > 0 && !done
            invariant
                self.structure_ok(),
                self.same_tracker_kind(old(self)),
                s0 == old(self).tree@,
                x == s0[pos as int],
                d == D as int,
                child <= pos < self.tree@.len() == s0.len(),
                self.tree@.to_multiset() == s0.to_multiset(),
                self.positions.slots_map().dom() == old(self).positions.slots_map().dom(),
                self.tree@[child as int] == x,
                pos == 0 ==> self.tree@ == s0,
                child == pos ==> self.tree@ == s0,
                in_subtree(pos as int, child as int, d),
                forall|i: int|
                    0 <= i < s0.len() && !in_subtree(pos as int, i, d) ==> self.tree@[i] == s0[i],
                K::obeys_partial_cmp_spec() && child < pos ==> lt(
                    s0[pos as int].1,
                    s0[parent(pos as int, d)].1,
                ),
                K::obeys_partial_cmp_spec() && child == pos && done ==> !lt(
                    s0[pos as int].1,
                    s0[parent(pos as int, d)].1,
                ),
                child > 0 ==> self.tree@[0] == s0[0],
                is_weak_order::<K>() ==> ordered_except_up(self.tree@, child as int, d),
                is_weak_order::<K>() && child == 0 && pos > 0 ==> lt(x.1, s0[0].1),
                is_weak_order::<K>() && done ==> child > 0 && !lt(
                    x.1,
                    self.tree@[parent(child as int, d)].1,
                ),
            decreases child as int * 2 + (if done { 0int } else { 1int }),
        {
            let p = parent_of::<D>(child);
            if less(&self.tree[child].1, &self.tree[p].1) {
                let ghost s = self.tree@;
                self.swap_slots(child, p);
                proof {
                    lemma_swap_multiset(s, child as int, p as int);
                    lemma_subtree_parent(pos as int, child as int, d);
                    assert forall|i: int|
                        0 <= i < s0.len() && !in_subtree(pos as int, i, d) implies self.tree@[i]
                        == s0[i] by {
                        assert(i != child as int && i != p as int);
                    }
                    let t = self.tree@;
                    if is_weak_order::<K>() {
                        let c = child as int;
                        let pi = p as int;
                        assert(lt(x.1, s[pi].1));
                        lemma_asym(x.1, s[pi].1);
                        assert forall|i: int| 0 < i < t.len() && i != pi implies !lt(
                            #[trigger] t[i].1,
                            t[parent(i, d)].1,
                        ) by {
                            lemma_parent_child(i, d);
                            if i == c {
                            } else if parent(i, d) == c {
                                assert(!lt(s[i].1, s[parent(c, d)].1));
                            } else if parent(i, d) == pi {
                                assert(!lt(s[i].1, s[pi].1));
                                if lt(s[i].1, x.1) {
                                    assert(lt(s[i].1, s[pi].1));
                                }
                            } else {
                                assert(t[i] == s[i]);
                                assert(!lt(s[i].1, s[parent(i, d)].1));
                            }
                        }
                        if pi > 0 {
                            lemma_parent_child(pi, d);
                            let g = parent(pi, d);
                            assert(!lt(s[pi].1, s[g].1));
                            assert forall|i: int| 0 < i < t.len() && parent(i, d) == pi implies !lt(
                                #[trigger] t[i].1,
                                t[g].1,
                            ) by {
                                lemma_parent_child(i, d);
                                if i == c {
                                } else {
                                    assert(!lt(s[i].1, s[pi].1));
                                }
                            }
                        }
                        if pi == 0 {
                            assert(s[0] == s0[0]);
                        }
                    }
                }
                child = p;
            } else {
                done = true;
            }
        }
        proof {
            let t = self.tree@;
            if is_weak_order::<K>() {
                assert forall|i: int| 0 < i < t.len() implies !lt(
                    #[trigger] t[i].1,
                    t[parent(i, d)].1,
                ) by {
                    if i == child as int {
                    }
                }
                if pos > 0 && child > 0 {
                    lemma_parent_child(child as int, d);
                    lemma_root_le_except_up(t, child as int, d, parent(child as int, d));
                    if lt(x.1, s0[0].1) {
                        lemma_lt_le(x.1, s0[0].1, t[parent(child as int, d)].1);
                    }
                }
            }
        }
    }

    /// Moves the slot at `pos` toward the leaves, each time exchanging it with its best
    /// child (the leftmost child of least key) while that child's key is less than its own.
    pub(crate) fn heapify_down(&mut self, pos: usize)
        requires
            old(self).structure_ok(),
            pos < old(self).tree@.len(),
            is_weak_order::<K>() ==> ordered_except_down(old(self).tree@, pos as int, D as int),
        ensures
            final(self).wf(),
            final(self).same_tracker_kind(old(self)),
            final(self).tree@.len() == old(self).tree@.len(),
            final(self).tree@.to_multiset() == old(self).tree@.to_multiset(),
            final(self).positions.slots_map().dom() == old(self).positions.slots_map().dom(),
            forall|i: int|
                0 <= i < old(self).tree@.len() && !in_subtree(i, pos as int, D as int) ==> final(self).tree@[i] == old(self).tree@[i],
            K::obeys_partial_cmp_spec() ==> if sinks(old(self).tree@, pos as int, D as int) {
                final(self).tree@[pos as int] == old(self).tree@[best_child(
                    old(self).tree@,
                    pos as int,
                    D as int,
                )]
            } else {
                final(self).tree@ == old(self).tree@
            },
    {
        let ghost s0 = self.tree@;
        let ghost d = D as int;
        let len = self.tree.len();
        let mut p = pos;
        let mut done = false;
        while !done
            invariant
                self.structure_ok(),
                self.same_tracker_kind(old(self)),
                s0 == old(self).tree@,
                d == D as int,
                d >= 1,
                p < len == self.tree@.len() == s0.len(),
                self.tree@.to_multiset() == s0.to_multiset(),
                self.positions.slots_map().dom() == old(self).positions.slots_map().dom(),
                is_weak_order::<K>() ==> ordered_except_down(self.tree@, p as int, d),
                is_weak_order::<K>() && done ==> heap_ordered(self.tree@, d),
                in_subtree(p as int, pos as int, d),
                forall|i: int|
                    0 <= i < s0.len() && !in_subtree(i, pos as int, d) ==> self.tree@[i] == s0[i],
                p == pos ==> self.tree@ == s0,
                K::obeys_partial_cmp_spec() && p == pos && done ==> !sinks(s0, pos as int, d),
                p != pos ==> p > pos,
                K::obeys_partial_cmp_spec() && p != pos ==> sinks(s0, pos as int, d)
                    && self.tree@[pos as int] == s0[best_child(s0, pos as int, d)],
            decreases len - p + (if done { 0int } else { 1int }),
        {
            if !has_child::<D>(p, len) {
                proof {
                    let t = self.tree@;
                    if is_weak_order::<K>() {
                        assert forall|i: int| 0 < i < t.len() implies !lt(
                            #[trigger] t[i].1,
                            t[parent(i, d)].1,
                        ) by {
                            lemma_parent_child(i, d);
                        }
                    }
                }
                done = true;
            } else {
                let first = left_child_of::<D>(p, len);
                assert(d * p as int >= p as int) by (nonlinear_arith)
                    requires d >= 1, p >= 0;
                let mut best = first;
                let mut j: usize = 1;
                while j < D && j < len - first
                    invariant
                        first == d * p + 1,
                        first < len == self.tree@.len(),
                        1 <= j <= D,
                        j <= len - first,
                        first <= best < first + j,
                        K::obeys_partial_cmp_spec() ==> best == scan_best(
                            self.tree@,
                            first as int,
                            j as int,
                        ),
                        is_weak_order::<K>() ==> forall|t: int|
                            first <= t < first + j ==> !lt(
                                #[trigger] self.tree@[t].1,
                                self.tree@[best as int].1,
                            ),
                    decreases D - j,
                {
                    let next = first + j;
                    if less(&self.tree[next].1, &self.tree[best].1) {
                        proof {
                            let t = self.tree@;
                            if is_weak_order::<K>() {
                                assert forall|u: int| first <= u < first + j + 1 implies !lt(
                                    #[trigger] t[u].1,
                                    t[next as int].1,
                                ) by {
                                    if u < next {
                                        assert(!lt(t[u].1, t[best as int].1));
                                        lemma_lt_le(t[next as int].1, t[best as int].1, t[u].1);
                                        lemma_asym(t[next as int].1, t[u].1);
                                    }
                                }
                            }
                        }
                        best = next;
                    }
                    j += 1;
                }
                assert(j as int == (if d < len - first {
                    d
                } else {
                    len - first
                }));
                if less(&self.tree[best].1, &self.tree[p].1) {
                    let ghost s = self.tree@;
                    self.swap_slots(p, best);
                    proof {
                        lemma_swap_multiset(s, p as int, best as int);
                        let t = self.tree@;
                        let pi = p as int;
                        let b = best as int;
                        lemma_child_parent(pi, b - first, d);
                        assert(parent(b, d) == pi);
                        lemma_child_in_subtree(b, pi, pos as int, d);
                        assert forall|i: int|
                            0 <= i < s0.len() && !in_subtree(i, pos as int, d) implies t[i]
                            == s0[i] by {
                            assert(i != pi && i != b);
                        }
                        if pi != pos as int {
                            assert(t[pos as int] == s[pos as int]);
                        }
                        if is_weak_order::<K>() {
                            assert(lt(s[b].1, s[pi].1));
                            lemma_asym(s[b].1, s[pi].1);
                            assert forall|i: int| 0 < i < t.len() && parent(i, d) != b implies !lt(
                                #[trigger] t[i].1,
                                t[parent(i, d)].1,
                            ) by {
                                lemma_parent_child(i, d);
                                if i == b {
                                } else if i == pi {
                                    assert(!lt(s[b].1, s[parent(pi, d)].1));
                                } else if parent(i, d) == pi {
                                    assert(first <= i < first + d);
                                    assert(!lt(s[i].1, s[b].1));
                                } else {
                                    assert(t[i] == s[i]);
                                    assert(!lt(s[i].1, s[parent(i, d)].1));
                                }
                            }
                            assert forall|i: int| 0 < i < t.len() && parent(i, d) == b implies !lt(
                                #[trigger] t[i].1,
                                t[parent(b, d)].1,
                            ) by {
                                lemma_parent_child(i, d);
                                assert(!lt(s[i].1, s[b].1));
                            }
                        }
                    }
                    p = best;
                } else {
                    proof {
                        let t = self.tree@;
                        if is_weak_order::<K>() {
                            assert forall|i: int| 0 < i < t.len() implies !lt(
                                #[trigger] t[i].1,
                                t[parent(i, d)].1,
                            ) by {
                                lemma_parent_child(i, d);
                                if parent(i, d) == p as int {
                                    assert(first <= i < first + d);
                                    assert(!lt(t[i].1, t[best as int].1));
                                }
                            }
                        }
                    }
                    done = true;
                }
            }
        }
    }

    /// The slot that the tracker records for `node`.
    pub(crate) open spec fn node_slot(&self, node: N) -> Option<usize> {
        if self.positions.slots_map().contains_key(P::id_of(node)) {
            Some(self.positions.slots_map()[P::id_of(node)])
        } else {
            None
        }
    }

    /// `node` may be pushed: the tracker admits it and does not hold it yet.
    pub(crate) open spec fn can_push(&self, node: N) -> bool {
        &&& self.positions.admits(node)
        &&& self.node_slot(node).is_none()
        &&& self.tree@.len() < usize::MAX
    }

    /// Under a tracking tracker, every element of the tree sits at its recorded slot.
    pub(crate) proof fn lemma_slot_of_member(&self, i: int)
        requires
            self.structure_ok(),
            self.positions.tracks(),
            0 <= i < self.tree@.len(),
        ensures
            self.node_slot(self.tree@[i].0) == Some(i as usize),
    {
    }

    /// Under a tracking tracker, a recorded slot holds an element of that identity.
    pub(crate) proof fn lemma_member_of_slot(&self, node: N)
        requires
            self.structure_ok(),
            self.node_slot(node).is_some(),
        ensures
            self.positions.tracks(),
            self.node_slot(node).unwrap() < self.tree@.len(),
            P::id_of(self.tree@[self.node_slot(node).unwrap() as int].0) == P::id_of(node),
    {
        if !self.positions.tracks() {
            assert(self.positions.slots_map() == Map::<P::Id, usize>::empty());
        }
    }

    /// Appends a slot and sifts it up.
    pub(crate) fn push(&mut self, node: N, key: K)
        requires
            old(self).wf(),
            old(self).can_push(node),
        ensures
            final(self).wf(),
            final(self).same_tracker_kind(old(self)),
            final(self).tree@.len() == old(self).tree@.len() + 1,
            final(self).tree@.to_multiset() == old(self).tree@.to_multiset().insert((node, key)),
            is_weak_order::<K>() ==> final(self).tree@[0] == (if old(self).tree@.len() == 0 || lt(
                key,
                old(self).tree@[0].1,
            ) {
                (node, key)
            } else {
                old(self).tree@[0]
            }),
    {
        let ghost s = self.tree@;
        let position = self.tree.len();
        self.positions.insert(&node, position);
        self.tree.push((node, key));
        proof {
            let t = self.tree@;
            let p = self.positions;
            let d = D as int;
            assert(t =~= s.push((node, key)));
            if p.tracks() {
                assert forall|k: P::Id| #[trigger] p.slots_map().contains_key(k) implies p.slots_map()[k]
                    < t.len() && P::id_of(t[p.slots_map()[k] as int].0) == k by {
                    if k != P::id_of(node) {
                        assert(old(self).positions.slots_map().contains_key(k));
                    }
                }
                assert forall|x: int| 0 <= x < t.len() implies p.slots_map().contains_key(
                    P::id_of(#[trigger] t[x].0),
                ) && p.slots_map()[P::id_of(t[x].0)] == x by {
                    if x < s.len() {
                        assert(t[x] == s[x]);
                        assert(old(self).positions.slots_map().contains_key(P::id_of(s[x].0)));
                    }
                }
            }
            assert forall|x: int| 0 <= x < t.len() implies p.admits(#[trigger] t[x].0) by {
                if x < s.len() {
                    assert(t[x] == s[x]);
                    assert(old(self).positions.admits(s[x].0));
                }
            }
            if is_weak_order::<K>() {
                assert forall|i: int| 0 < i < t.len() && parent(i, d) == position as int implies false by {
                    lemma_parent_child(i, d);
                }
                assert forall|i: int| 0 < i < t.len() && i != position as int implies !lt(
                    #[trigger] t[i].1,
                    t[parent(i, d)].1,
                ) by {
                    lemma_parent_child(i, d);
                    assert(t[i] == s[i]);
                    assert(t[parent(i, d)] == s[parent(i, d)]);
                }
            }
        }
        self.heapify_up(position);
    }

    /// Takes slot `pos` out of the tree: the last slot moves into it (swap-remove), and
    /// the tracker forgets the removed element and records the move.
    fn swap_out(&mut self, pos: usize) -> (r: (N, K))
        requires
            old(self).structure_ok(),
            pos < old(self).tree@.len(),
        ensures
            final(self).structure_ok(),
            final(self).same_tracker_kind(old(self)),
            r == old(self).tree@[pos as int],
            final(self).tree@ == old(self).tree@.update(pos as int, old(self).tree@.last()).drop_last(),
            final(self).tree@.to_multiset() == old(self).tree@.to_multiset().remove(r),
            forall|n: N|
                P::id_of(n) == P::id_of(r.0) ==> (#[trigger] final(self).node_slot(n)).is_none(),
    {
        let ghost s = self.tree@;
        let ghost m = self.positions.slots_map();
        let last = self.tree.len() - 1;
        proof {
            lemma_swap_remove_multiset(s, pos as int);
        }
        self.positions.remove(&self.tree[pos].0);
        if pos != last {
            self.positions.update_position_of(&self.tree[last].0, pos);
        }
        let removed = self.tree.swap_remove(pos);
        proof {
            let t = self.tree@;
            let p = self.positions;
            let kp = P::id_of(s[pos as int].0);
            let kl = P::id_of(s[last as int].0);
            if !p.tracks() {
                assert(p.slots_map() =~= Map::<P::Id, usize>::empty());
            }
            if p.tracks() {
                assert(m[kp] == pos && m[kl] == last);
                assert(pos != last ==> kp != kl);
                assert forall|k: P::Id| #[trigger] p.slots_map().contains_key(k) implies p.slots_map()[k]
                    < t.len() && P::id_of(t[p.slots_map()[k] as int].0) == k by {
                    if k != kl {
                        assert(m.contains_key(k));
                        assert(m[k] != pos && m[k] != last);
                    }
                }
                assert forall|x: int| 0 <= x < t.len() implies p.slots_map().contains_key(
                    P::id_of(#[trigger] t[x].0),
                ) && p.slots_map()[P::id_of(t[x].0)] == x by {
                    if x != pos {
                        assert(t[x] == s[x]);
                        assert(m[P::id_of(s[x].0)] == x);
                    }
                }
            }
            assert forall|x: int| 0 <= x < t.len() implies p.admits(#[trigger] t[x].0) by {
                if x == pos {
                    assert(old(self).positions.admits(s[last as int].0));
                } else {
                    assert(t[x] == s[x]);
                    assert(old(self).positions.admits(s[x].0));
                }
            }
        }
        removed
    }

    /// Takes slot `pos` out: the last slot moves into it and is sifted up when its key is
    /// less than its new parent's, down otherwise.
    pub(crate) fn remove_and_heapify(&mut self, pos: usize) -> (r: (N, K))
        requires
            old(self).wf(),
            pos < old(self).tree@.len(),
        ensures
            final(self).wf(),
            final(self).same_tracker_kind(old(self)),
            r == old(self).tree@[pos as int],
            final(self).tree@.len() == old(self).tree@.len() - 1,
            final(self).tree@.to_multiset() == old(self).tree@.to_multiset().remove(r),
            pos == old(self).tree@.len() - 1 ==> final(self).tree@ == old(self).tree@.drop_last(),
            forall|n: N|
                P::id_of(n) == P::id_of(r.0) ==> (#[trigger] final(self).node_slot(n)).is_none(),
    {
        let ghost s = self.tree@;
        let ghost d = D as int;
        let last = self.tree.len() - 1;
        let removed = self.swap_out(pos);
        if pos == last {
            proof {
                let t = self.tree@;
                assert(t =~= s.drop_last());
                if is_weak_order::<K>() {
                    assert forall|i: int| 0 < i < t.len() implies !lt(
                        #[trigger] t[i].1,
                        t[parent(i, d)].1,
                    ) by {
                        lemma_parent_child(i, d);
                        assert(t[i] == s[i]);
                        assert(t[parent(i, d)] == s[parent(i, d)]);
                    }
                }
            }
        } else if pos > 0 && less(&self.tree[pos].1, &self.tree[parent_of::<D>(pos)].1) {
            proof {
                let t = self.tree@;
                let c = pos as int;
                if is_weak_order::<K>() {
                    lemma_parent_child(c, d);
                    let g = parent(c, d);
                    assert(!lt(s[c].1, s[g].1));
                    assert forall|i: int| 0 < i < t.len() && parent(i, d) == c implies !lt(
                        #[trigger] t[i].1,
                        t[g].1,
                    ) by {
                        lemma_parent_child(i, d);
                        assert(t[i] == s[i]);
                        assert(!lt(s[i].1, s[c].1));
                    }
                    assert forall|i: int| 0 < i < t.len() && i != c implies !lt(
                        #[trigger] t[i].1,
                        t[parent(i, d)].1,
                    ) by {
                        lemma_parent_child(i, d);
                        assert(t[i] == s[i]);
                        if parent(i, d) == c {
                            assert(!lt(t[i].1, t[g].1));
                            lemma_lt_le(t[c].1, t[g].1, t[i].1);
                            lemma_asym(t[c].1, t[i].1);
                        } else {
                            assert(!lt(s[i].1, s[parent(i, d)].1));
                        }
                    }
                }
            }
            let ghost before = *self;
            self.heapify_up(pos);
            proof {
                assert forall|n: N| P::id_of(n) == P::id_of(removed.0) implies (
                #[trigger] self.node_slot(n)).is_none() by {
                    assert(before.node_slot(n).is_none());
                    assert(!before.positions.slots_map().dom().contains(P::id_of(n)));
                }
            }
        } else {
            proof {
                let t = self.tree@;
                let c = pos as int;
                if is_weak_order::<K>() {
                    assert forall|i: int| 0 < i < t.len() && parent(i, d) != c implies !lt(
                        #[trigger] t[i].1,
                        t[parent(i, d)].1,
                    ) by {
                        lemma_parent_child(i, d);
                        if i != c {
                            assert(t[i] == s[i]);
                            assert(t[parent(i, d)] == s[parent(i, d)]);
                        }
                    }
                    if c > 0 {
                        lemma_parent_child(c, d);
                        let g = parent(c, d);
                        assert forall|i: int| 0 < i < t.len() && parent(i, d) == c implies !lt(
                            #[trigger] t[i].1,
                            t[g].1,
                        ) by {
                            lemma_parent_child(i, d);
                            assert(t[i] == s[i]);
                            assert(!lt(s[i].1, s[c].1));
                            assert(!lt(s[c].1, s[g].1));
                        }
                    }
                }
            }
            let ghost before = *self;
            self.heapify_down(pos);
            proof {
                assert forall|n: N| P::id_of(n) == P::id_of(removed.0) implies (
                #[trigger] self.node_slot(n)).is_none() by {
                    assert(before.node_slot(n).is_none());
                    assert(!before.positions.slots_map().dom().contains(P::id_of(n)));
                }
            }
        }
        removed
    }

    /// The key of the slot that the tracker records for `node`.
    pub(crate) open spec fn key_for(&self, node: N) -> Option<K> {
        match self.node_slot(node) {
            Some(i) => Some(self.tree@[i as int].1),
            None => None,
        }
    }

    /// An element of the tree is found, with its key, at its recorded slot.
    pub(crate) proof fn lemma_key_for_member(&self, e: (N, K))
        requires
            self.structure_ok(),
            self.positions.tracks(),
            self.tree@.to_multiset().count(e) > 0,
        ensures
            self.key_for(e.0) == Some(e.1),
            self.node_slot(e.0).is_some(),
    {
        assert(self.tree@.contains(e));
        let x = choose|x: int| 0 <= x < self.tree@.len() && self.tree@[x] == e;
        self.lemma_slot_of_member(x);
    }

    /// Number of slots that the tree can hold without reallocating.
    pub(crate) fn capacity(&self) -> (r: usize)
        ensures
            r >= self.slots().len(),
    {
        vec_capacity(&self.tree)
    }

    /// Empties the tree and the tracker.
    pub(crate) fn clear(&mut self)
        requires
            old(self).wf(),
        ensures
            final(self).wf(),
            final(self).same_tracker_kind(old(self)),
            final(self).tree@ == Seq::<(N, K)>::empty(),
            final(self).positions.slots_map() == Map::<P::Id, usize>::empty(),
    {
        self.tree.clear();
        self.positions.clear();
    }

    /// Removes the root and returns it.
    pub(crate) fn pop(&mut self) -> (r: Option<(N, K)>)
        requires
            old(self).wf(),
        ensures
            final(self).wf(),
            final(self).same_tracker_kind(old(self)),
            old(self).tree@.len() == 0 ==> r.is_none() && final(self).tree@ == old(self).tree@,
            old(self).tree@.len() > 0 ==> {
                &&& r == Some(old(self).tree@[0])
                &&& final(self).tree@.len() == old(self).tree@.len() - 1
                &&& final(self).tree@.to_multiset() == old(self).tree@.to_multiset().remove(
                    old(self).tree@[0],
                )
                &&& forall|n: N|
                    P::id_of(n) == P::id_of(old(self).tree@[0].0) ==> (
                    #[trigger] final(self).node_slot(n)).is_none()
            },
    {
        if self.tree.len() == 0 {
            None
        } else {
            Some(self.remove_and_heapify(0))
        }
    }

    /// Pushes (`node`, `key`) and pops the root, in one pass.
    pub(crate) fn push_then_pop(&mut self, node: N, key: K) -> (r: (N, K))
        requires
            old(self).wf(),
            old(self).tree@.len() > 0 ==> old(self).can_push(node),
        ensures
            final(self).wf(),
            final(self).same_tracker_kind(old(self)),
            (r == (node, key) && final(self).tree@ == old(self).tree@) || (old(self).tree@.len() > 0
                && r == old(self).tree@[0] && final(self).tree@.len() == old(self).tree@.len()
                && final(self).tree@.to_multiset() == old(self).tree@.to_multiset().remove(
                r,
            ).insert((node, key))),
            old(self).tree@.len() == 0 ==> r == (node, key) && final(self).tree@ == old(self).tree@,
            old(self).tree@.len() > 0 && is_weak_order::<K>() ==> r == (if lt(
                old(self).tree@[0].1,
                key,
            ) {
                old(self).tree@[0]
            } else {
                (node, key)
            }),
    {
        if self.tree.len() == 0 || !less(&self.tree[0].1, &key) {
            (node, key)
        } else {
            let ghost s = self.tree@;
            let ghost m = self.positions.slots_map();
            let ghost d = D as int;
            self.positions.remove(&self.tree[0].0);
            self.positions.insert(&node, 0);
            let mut slot = (node, key);
            std::mem::swap(&mut self.tree[0], &mut slot);
            proof {
                let t = self.tree@;
                let p = self.positions;
                assert(t == s.update(0, (node, key)));
                lemma_swap_multiset(s.push((node, key)), 0, s.len() as int);
                assert(s.push((node, key)).update(0, (node, key)).update(s.len() as int, s[0])
                    =~= t.push(s[0]));
                assert(t.to_multiset().insert(s[0]) == s.to_multiset().insert((node, key)));
                assert(t.to_multiset() =~= s.to_multiset().remove(s[0]).insert((node, key))) by {
                    broadcast use vstd::multiset::group_multiset_axioms;

                    assert(s.to_multiset().count(s[0]) > 0);
                    assert forall|v: (N, K)| #[trigger] t.to_multiset().count(v)
                        == s.to_multiset().remove(s[0]).insert((node, key)).count(v) by {
                        assert(t.to_multiset().insert(s[0]).count(v) == s.to_multiset().insert(
                            (node, key),
                        ).count(v));
                    }
                }
                if !p.tracks() {
                    assert(p.slots_map() =~= Map::<P::Id, usize>::empty());
                } else {
                    let k0 = P::id_of(s[0].0);
                    let kn = P::id_of(node);
                    assert(m[k0] == 0);
                    assert(!m.contains_key(kn));
                    assert forall|k: P::Id| #[trigger] p.slots_map().contains_key(k) implies p.slots_map()[k]
                        < t.len() && P::id_of(t[p.slots_map()[k] as int].0) == k by {
                        if k != kn {
                            assert(m.contains_key(k));
                            assert(m[k] != 0);
                        }
                    }
                    assert forall|x: int| 0 <= x < t.len() implies p.slots_map().contains_key(
                        P::id_of(#[trigger] t[x].0),
                    ) && p.slots_map()[P::id_of(t[x].0)] == x by {
                        if x != 0 {
                            assert(t[x] == s[x]);
                            assert(m[P::id_of(s[x].0)] == x);
                        }
                    }
                }
                assert forall|x: int| 0 <= x < t.len() implies p.admits(#[trigger] t[x].0) by {
                    if x != 0 {
                        assert(t[x] == s[x]);
                        assert(old(self).positions.admits(s[x].0));
                    }
                }
                if is_weak_order::<K>() {
                    assert forall|i: int| 0 < i < t.len() && parent(i, d) != 0 implies !lt(
                        #[trigger] t[i].1,
                        t[parent(i, d)].1,
                    ) by {
                        lemma_parent_child(i, d);
                        assert(t[i] == s[i]);
                        assert(t[parent(i, d)] == s[parent(i, d)]);
                    }
                }
            }
            self.heapify_down(0);
            slot
        }
    }

    /// Whether the tracker holds `node`.
    pub(crate) fn contains(&self, node: &N) -> (r: bool)
        requires
            self.wf(),
        ensures
            r == self.node_slot(*node).is_some(),
    {
        self.positions.contains(node)
    }

    /// A clone of the key of `node`, if the tracker holds it.
    pub(crate) fn key_of(&self, node: &N) -> (r: Option<K>)
        where
            K: Clone,
        requires
            self.wf(),
        ensures
            r.is_some() == self.key_for(*node).is_some(),
            clone_is_exact::<K>() ==> r == self.key_for(*node),
    {
        match self.positions.position_of(node) {
            Some(i) => {
                proof {
                    self.lemma_member_of_slot(*node);
                }
                let k = self.tree[i].1.clone();
                proof {
                    assert(vstd::pervasive::strictly_cloned(self.tree@[i as int].1, k));
                }
                Some(k)
            },
            None => None,
        }
    }

    /// Replaces the key of slot `i` by `key`.
    fn set_key(&mut self, i: usize, key: K)
        requires
            old(self).structure_ok(),
            i < old(self).tree@.len(),
        ensures
            final(self).structure_ok(),
            final(self).positions == old(self).positions,
            final(self).tree@ == old(self).tree@.update(i as int, (old(self).tree@[i as int].0, key)),
    {
        let ghost s = self.tree@;
        self.tree[i].1 = key;
        proof {
            let t = self.tree@;
            assert(t =~= s.update(i as int, (s[i as int].0, key)));
            assert forall|x: int| 0 <= x < t.len() implies self.positions.admits(#[trigger] t[x].0) by {
                assert(t[x].0 == s[x].0);
            }
            if self.positions.tracks() {
                assert forall|x: int| 0 <= x < t.len() implies self.positions.slots_map().contains_key(
                    P::id_of(#[trigger] t[x].0),
                ) && self.positions.slots_map()[P::id_of(t[x].0)] == x by {
                    assert(t[x].0 == s[x].0);
                }
                assert forall|k: P::Id| #[trigger] self.positions.slots_map().contains_key(k) implies self.positions.slots_map()[k]
                    < t.len() && P::id_of(t[self.positions.slots_map()[k] as int].0) == k by {
                    assert(t[self.positions.slots_map()[k] as int].0 == s[self.positions.slots_map()[k] as int].0);
                }
            }
        }
    }

    /// Sets the key of the present `node` to `key`, not greater than its key, and sifts up.
    pub(crate) fn decrease_key(&mut self, node: &N, key: K)
        requires
            old(self).wf(),
            old(self).key_for(*node).is_some(),
            K::obeys_partial_cmp_spec() ==> !lt(old(self).key_for(*node).unwrap(), key),
        ensures
            final(self).wf(),
            final(self).same_tracker_kind(old(self)),
            final(self).tree@.len() == old(self).tree@.len(),
            final(self).tree@.to_multiset() == old(self).tree@.to_multiset().remove(
                old(self).tree@[old(self).node_slot(*node).unwrap() as int],
            ).insert((old(self).tree@[old(self).node_slot(*node).unwrap() as int].0, key)),
            final(self).key_for(*node) == Some(key),
            final(self).positions.slots_map().dom() == old(self).positions.slots_map().dom(),
    {
        let position = self.positions.position_of(node).unwrap();
        let ghost s = self.tree@;
        let ghost d = D as int;
        proof {
            self.lemma_member_of_slot(*node);
        }
        self.set_key(position, key);
        proof {
            let t = self.tree@;
            let c = position as int;
            assert(t.to_multiset() == s.to_multiset().insert((s[c].0, key)).remove(s[c]));
            assert(t.to_multiset() =~= s.to_multiset().remove(s[c]).insert((s[c].0, key))) by {
                broadcast use vstd::multiset::group_multiset_axioms;

                assert(s.to_multiset().count(s[c]) > 0);
            }
            if is_weak_order::<K>() {
                assert forall|i: int| 0 < i < t.len() && i != c implies !lt(
                    #[trigger] t[i].1,
                    t[parent(i, d)].1,
                ) by {
                    lemma_parent_child(i, d);
                    assert(t[i] == s[i]);
                    if parent(i, d) == c {
                        assert(!lt(s[i].1, s[c].1));
                    } else {
                        assert(!lt(s[i].1, s[parent(i, d)].1));
                    }
                }
                if c > 0 {
                    lemma_parent_child(c, d);
                    assert forall|i: int| 0 < i < t.len() && parent(i, d) == c implies !lt(
                        #[trigger] t[i].1,
                        t[parent(c, d)].1,
                    ) by {
                        lemma_parent_child(i, d);
                        assert(t[i] == s[i]);
                        assert(!lt(s[i].1, s[c].1));
                        assert(!lt(s[c].1, s[parent(c, d)].1));
                    }
                }
            }
        }
        self.heapify_up(position);
        proof {
            let e = (s[position as int].0, key);
            assert(self.tree@.to_multiset().count(e) > 0) by {
                broadcast use vstd::multiset::group_multiset_axioms;
            }
            self.lemma_key_for_member(e);
        }
    }

    /// Sets the key of the present `node` to `key` and sifts up when the key decreased,
    /// down otherwise.
    pub(crate) fn update_key(&mut self, node: &N, key: K) -> (r: ResUpdateKey)
        requires
            old(self).wf(),
            old(self).key_for(*node).is_some(),
        ensures
            final(self).wf(),
            final(self).same_tracker_kind(old(self)),
            final(self).tree@.len() == old(self).tree@.len(),
            final(self).tree@.to_multiset() == old(self).tree@.to_multiset().remove(
                old(self).tree@[old(self).node_slot(*node).unwrap() as int],
            ).insert((old(self).tree@[old(self).node_slot(*node).unwrap() as int].0, key)),
            final(self).key_for(*node) == Some(key),
            final(self).positions.slots_map().dom() == old(self).positions.slots_map().dom(),
            is_weak_order::<K>() ==> (r == ResUpdateKey::Decreased <==> lt(
                key,
                old(self).key_for(*node).unwrap(),
            )),
    {
        let position = self.positions.position_of(node).unwrap();
        let ghost s = self.tree@;
        let ghost d = D as int;
        proof {
            self.lemma_member_of_slot(*node);
        }
        let up = less(&key, &self.tree[position].1);
        self.set_key(position, key);
        proof {
            let t = self.tree@;
            let c = position as int;
            assert(t.to_multiset() == s.to_multiset().insert((s[c].0, key)).remove(s[c]));
            assert(t.to_multiset() =~= s.to_multiset().remove(s[c]).insert((s[c].0, key))) by {
                broadcast use vstd::multiset::group_multiset_axioms;

                assert(s.to_multiset().count(s[c]) > 0);
            }
        }
        let ghost mid = *self;
        if up {
            proof {
                let t = self.tree@;
                let c = position as int;
                if is_weak_order::<K>() {
                    lemma_asym(key, s[c].1);
                    assert forall|i: int| 0 < i < t.len() && i != c implies !lt(
                        #[trigger] t[i].1,
                        t[parent(i, d)].1,
                    ) by {
                        lemma_parent_child(i, d);
                        assert(t[i] == s[i]);
                        if parent(i, d) == c {
                            assert(!lt(s[i].1, s[c].1));
                        } else {
                            assert(!lt(s[i].1, s[parent(i, d)].1));
                        }
                    }
                    if c > 0 {
                        lemma_parent_child(c, d);
                        assert forall|i: int| 0 < i < t.len() && parent(i, d) == c implies !lt(
                            #[trigger] t[i].1,
                            t[parent(c, d)].1,
                        ) by {
                            lemma_parent_child(i, d);
                            assert(t[i] == s[i]);
                            assert(!lt(s[i].1, s[c].1));
                            assert(!lt(s[c].1, s[parent(c, d)].1));
                        }
                    }
                }
            }
            self.heapify_up(position);
        } else {
            proof {
                let t = self.tree@;
                let c = position as int;
                if is_weak_order::<K>() {
                    assert forall|i: int| 0 < i < t.len() && parent(i, d) != c implies !lt(
                        #[trigger] t[i].1,
                        t[parent(i, d)].1,
                    ) by {
                        lemma_parent_child(i, d);
                        if i == c {
                            assert(!lt(s[c].1, s[parent(c, d)].1));
                        } else {
                            assert(t[i] == s[i]);
                            assert(t[parent(i, d)] == s[parent(i, d)]);
                        }
                    }
                    if c > 0 {
                        lemma_parent_child(c, d);
                        assert forall|i: int| 0 < i < t.len() && parent(i, d) == c implies !lt(
                            #[trigger] t[i].1,
                            t[parent(c, d)].1,
                        ) by {
                            lemma_parent_child(i, d);
                            assert(t[i] == s[i]);
                            assert(!lt(s[i].1, s[c].1));
                            assert(!lt(s[c].1, s[parent(c, d)].1));
                        }
                    }
                }
            }
            self.heapify_down(position);
        }
        proof {
            let e = (s[position as int].0, key);
            assert(self.tree@.to_multiset().count(e) > 0) by {
                broadcast use vstd::multiset::group_multiset_axioms;
            }
            self.lemma_key_for_member(e);
        }
        if up {
            ResUpdateKey::Decreased
        } else {
            ResUpdateKey::Increased
        }
    }

    /// Takes the present `node` out and returns its key.
    pub(crate) fn remove(&mut self, node: &N) -> (r: K)
        requires
            old(self).wf(),
            old(self).key_for(*node).is_some(),
        ensures
            final(self).wf(),
            final(self).same_tracker_kind(old(self)),
            r == old(self).key_for(*node).unwrap(),
            final(self).tree@.len() == old(self).tree@.len() - 1,
            final(self).tree@.to_multiset() == old(self).tree@.to_multiset().remove(
                old(self).tree@[old(self).node_slot(*node).unwrap() as int],
            ),
            final(self).node_slot(*node).is_none(),
    {
        let position = self.positions.position_of(node).unwrap();
        proof {
            self.lemma_member_of_slot(*node);
        }
        let removed = self.remove_and_heapify(position);
        removed.1
    }
}

} // verus!
