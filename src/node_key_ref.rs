//! Read access to an (element, key) pair held by a queue.
use vstd::prelude::*;

verus! {

/// A reference to an (element, key) pair of a queue.
pub trait NodeKeyRef<'a, N: 'a, K: 'a> {
    /// The pair referred to.
    spec fn pair(&self) -> (N, K);

    /// The element.
    fn node(&self) -> (r: &'a N)
        ensures
            *r == self.pair().0,
    ;

    /// The key.
    fn key(&self) -> (r: &'a K)
        ensures
            *r == self.pair().1,
    ;
}

impl<'a, N: 'a, K: 'a> NodeKeyRef<'a, N, K> for &'a (N, K) {
    open spec fn pair(&self) -> (N, K) {
        **self
    }

    fn node(&self) -> (r: &'a N) {
        &self.0
    }

    fn key(&self) -> (r: &'a K) {
        &self.1
    }
}

impl<'a, N: 'a, K: 'a> NodeKeyRef<'a, N, K> for (&'a N, &'a K) {
    open spec fn pair(&self) -> (N, K) {
        (*self.0, *self.1)
    }

    fn node(&self) -> (r: &'a N) {
        self.0
    }

    fn key(&self) -> (r: &'a K) {
        self.1
    }
}

} // verus!
