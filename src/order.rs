//! The key order that the heaps rely on, and the heap-order property of a tree.
use vstd::prelude::*;
use vstd::std_specs::cmp::PartialOrdSpec;
use vstd::pervasive::strictly_cloned;
use std::cmp::Ordering;

verus! {

/// `a` is strictly less than `b`.
pub open spec fn lt<K: PartialOrd>(a: K, b: K) -> bool {
    a.partial_cmp_spec(&b) == Some(Ordering::Less)
}

/// The key type's `<` is a strict weak order: irreflexive, transitive, and with
/// "not less than" transitive as well. Integer keys are such; keys with incomparable
/// values (a NaN) are not, and then the heaps keep their structure but not their order.
pub open spec fn is_weak_order<K: PartialOrd>() -> bool {
    &&& K::obeys_partial_cmp_spec()
    &&& forall|a: K| !#[trigger] lt(a, a)
    &&& forall|a: K, b: K, c: K| #[trigger] lt(a, b) && #[trigger] lt(b, c) ==> lt(a, c)
    &&& forall|a: K, b: K, c: K| !#[trigger] lt(b, a) && !#[trigger] lt(c, b) ==> !lt(c, a)
}

/// Logical index of the parent of the non-root slot `i` in a `d`-ary tree.
pub open spec fn parent(i: int, d: int) -> int {
    (i - 1) / d
}

/// Every non-root slot has a key that is not less than its parent's.
pub open spec fn heap_ordered<N, K: PartialOrd>(s: Seq<(N, K)>, d: int) -> bool {
    forall|i: int| 0 < i < s.len() ==> !lt(#[trigger] s[i].1, s[parent(i, d)].1)
}

/// No key of `s` is less than `k`.
pub open spec fn is_min_key<N, K: PartialOrd>(k: K, s: Seq<(N, K)>) -> bool {
    forall|i: int| 0 <= i < s.len() ==> !lt(#[trigger] s[i].1, k)
}

/// Cloning a value of `T` gives an equal value (true of the integer types).
pub open spec fn clone_is_exact<T: Clone>() -> bool {
    forall|a: T, b: T| #[trigger] strictly_cloned(a, b) ==> a == b
}

/// Compares two keys with `<`.
pub fn less<K: PartialOrd>(a: &K, b: &K) -> (r: bool)
    ensures
        K::obeys_partial_cmp_spec() ==> r == lt(*a, *b),
{
    *a < *b
}

/// Under a weak order, `a < b` and `b <= c` give `a < c`.
pub proof fn lemma_lt_le<K: PartialOrd>(a: K, b: K, c: K)
    requires
        is_weak_order::<K>(),
        lt(a, b),
        !lt(c, b),
    ensures
        lt(a, c),
{
}

/// Under a weak order, `<` is asymmetric.
pub proof fn lemma_asym<K: PartialOrd>(a: K, b: K)
    requires
        is_weak_order::<K>(),
        lt(a, b),
    ensures
        !lt(b, a),
{
    if lt(b, a) {
        assert(lt(a, a));
    }
}

/// `usize` keys are ordered by a weak order.
pub proof fn lemma_usize_weak_order()
    ensures
        is_weak_order::<usize>(),
{
}

/// `u64` keys are ordered by a weak order.
pub proof fn lemma_u64_weak_order()
    ensures
        is_weak_order::<u64>(),
{
}

/// `u32` keys are ordered by a weak order.
pub proof fn lemma_u32_weak_order()
    ensures
        is_weak_order::<u32>(),
{
}

/// `i64` keys are ordered by a weak order.
pub proof fn lemma_i64_weak_order()
    ensures
        is_weak_order::<i64>(),
{
}

} // verus!
