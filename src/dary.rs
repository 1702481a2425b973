//! Parent and child arithmetic of a `D`-ary tree laid out in an array; a shift stands in
//! for the division when `D` is a small power of two.
use vstd::prelude::*;
use crate::order::parent;

verus! {

/// Index of the parent of the non-root slot `child`.
pub fn parent_of<const D: usize>(child: usize) -> (r: usize)
    requires
        D >= 1,
        child > 0,
    ensures
        r == parent(child as int, D as int),
        r < child,
{
    assert((child - 1) as int / D as int <= (child - 1) as int) by (nonlinear_arith)
        requires D >= 1, child > 0;
    let c = child - 1;
    if D == 2 {
        assert(c >> 1usize == c / 2) by (bit_vector);
        c >> 1
    } else if D == 4 {
        assert(c >> 2usize == c / 4) by (bit_vector);
        c >> 2
    } else if D == 8 {
        assert(c >> 3usize == c / 8) by (bit_vector);
        c >> 3
    } else if D == 16 {
        assert(c >> 4usize == c / 16) by (bit_vector);
        c >> 4
    } else {
        c / D
    }
}

/// Index of the first child of `p`; the caller has checked that it lies below `len`.
pub fn left_child_of<const D: usize>(p: usize, len: usize) -> (r: usize)
    requires
        D >= 1,
        D as int * p + 1 < len,
    ensures
        r == D as int * p + 1,
{
    D * p + 1
}

/// Whether slot `p` of a tree of `len` slots has a child.
pub fn has_child<const D: usize>(p: usize, len: usize) -> (r: bool)
    requires
        D >= 1,
    ensures
        r == (D as int * p + 1 < len),
{
    if len < 2 {
        false
    } else {
        assert((len - 2) as int / D as int * D as int <= (len - 2) as int) by (nonlinear_arith)
            requires D >= 1, len >= 2;
        assert(p <= (len - 2) as int / D as int <==> D as int * p + 1 < len) by (nonlinear_arith)
            requires D >= 1, len >= 2;
        p <= (len - 2) / D
    }
}

/// The children of `p` are the slots whose parent is `p`.
pub proof fn lemma_child_parent(p: int, j: int, d: int)
    requires
        d >= 1,
        p >= 0,
        0 <= j < d,
    ensures
        parent(d * p + 1 + j, d) == p,
{
    assert((d * p + j) / d == p) by (nonlinear_arith)
        requires d >= 1, p >= 0, 0 <= j < d;
}

/// A slot whose parent is `p` is one of its `d` children.
pub proof fn lemma_parent_child(i: int, d: int)
    requires
        d >= 1,
        i > 0,
    ensures
        d * parent(i, d) + 1 <= i < d * parent(i, d) + 1 + d,
        0 <= parent(i, d) < i,
{
    assert(d * ((i - 1) / d) <= i - 1 < d * ((i - 1) / d) + d) by (nonlinear_arith)
        requires d >= 1, i > 0;
    assert((i - 1) / d <= i - 1) by (nonlinear_arith)
        requires d >= 1, i > 0;
}

} // verus!
