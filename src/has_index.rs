//! Elements that carry a stable integer identity.
use vstd::prelude::*;

verus! {

/// An element identified by an index, its unchanging position in a closed collection
/// known in advance (cities 0, 1, 2 of a tour). An indexed heap keeps positions in an
/// array by this index instead of a map.
pub trait HasIndex: Clone {
    /// The index of the element.
    spec fn index_spec(&self) -> usize;

    /// Returns the index of the element.
    fn index(&self) -> (r: usize)
        ensures
            r == self.index_spec(),
    ;
}

impl HasIndex for usize {
    open spec fn index_spec(&self) -> usize {
        *self
    }

    fn index(&self) -> (r: usize) {
        *self
    }
}

impl HasIndex for u64 {
    open spec fn index_spec(&self) -> usize {
        *self as usize
    }

    fn index(&self) -> (r: usize) {
        *self as usize
    }
}

impl HasIndex for u32 {
    open spec fn index_spec(&self) -> usize {
        *self as usize
    }

    fn index(&self) -> (r: usize) {
        *self as usize
    }
}

impl HasIndex for u16 {
    open spec fn index_spec(&self) -> usize {
        *self as usize
    }

    fn index(&self) -> (r: usize) {
        *self as usize
    }
}

impl HasIndex for u8 {
    open spec fn index_spec(&self) -> usize {
        *self as usize
    }

    fn index(&self) -> (r: usize) {
        *self as usize
    }
}

} // verus!
