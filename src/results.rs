//! Outcomes of the operations that revise the key of an element.
use vstd::prelude::*;

verus! {

/// Result of `update_key`.
#[derive(Debug, Clone, Copy, PartialEq, Eq, Structural)]
pub enum ResUpdateKey {
    /// The prior key was greater than the new key, which is now in place.
    Decreased,
    /// The prior key was not greater than the new key, which is now in place.
    Increased,
}

/// Result of `try_decrease_key`.
#[derive(Debug, Clone, Copy, PartialEq, Eq, Structural)]
pub enum ResTryDecreaseKey {
    /// The prior key was greater than the new key, which is now in place.
    Decreased,
    /// The prior key was not greater than the new key; the queue is unchanged.
    Unchanged,
}

/// Result of `decrease_key_or_push`.
#[derive(Debug, Clone, Copy, PartialEq, Eq, Structural)]
pub enum ResDecreaseKeyOrPush {
    /// The element was absent and has been pushed with the given key.
    Pushed,
    /// The element was present and its key has been decreased to the given key.
    Decreased,
}

/// Result of `update_key_or_push`.
#[derive(Debug, Clone, Copy, PartialEq, Eq, Structural)]
pub enum ResUpdateKeyOrPush {
    /// The element was absent and has been pushed with the given key.
    Pushed,
    /// The element was present with a greater key, now decreased to the given key.
    Decreased,
    /// The element was present with a key not greater than the given key, now replaced.
    Increased,
}

/// Result of `try_decrease_key_or_push`.
#[derive(Debug, Clone, Copy, PartialEq, Eq, Structural)]
pub enum ResTryDecreaseKeyOrPush {
    /// The element was absent and has been pushed with the given key.
    Pushed,
    /// The element was present with a greater key, now decreased to the given key.
    Decreased,
    /// The element was present with a key not greater than the given key; nothing changed.
    Unchanged,
}

impl vstd::std_specs::convert::FromSpecImpl<ResUpdateKey> for ResUpdateKeyOrPush {
    open spec fn obeys_from_spec() -> bool {
        true
    }

    open spec fn from_spec(v: ResUpdateKey) -> Self {
        match v {
            ResUpdateKey::Decreased => ResUpdateKeyOrPush::Decreased,
            ResUpdateKey::Increased => ResUpdateKeyOrPush::Increased,
        }
    }
}

impl From<ResUpdateKey> for ResUpdateKeyOrPush {
    fn from(value: ResUpdateKey) -> (r: Self) {
        match value {
            ResUpdateKey::Decreased => ResUpdateKeyOrPush::Decreased,
            ResUpdateKey::Increased => ResUpdateKeyOrPush::Increased,
        }
    }
}

impl vstd::std_specs::convert::FromSpecImpl<ResTryDecreaseKey> for ResTryDecreaseKeyOrPush {
    open spec fn obeys_from_spec() -> bool {
        true
    }

    open spec fn from_spec(v: ResTryDecreaseKey) -> Self {
        match v {
            ResTryDecreaseKey::Decreased => ResTryDecreaseKeyOrPush::Decreased,
            ResTryDecreaseKey::Unchanged => ResTryDecreaseKeyOrPush::Unchanged,
        }
    }
}

impl From<ResTryDecreaseKey> for ResTryDecreaseKeyOrPush {
    fn from(value: ResTryDecreaseKey) -> (r: Self) {
        match value {
            ResTryDecreaseKey::Decreased => ResTryDecreaseKeyOrPush::Decreased,
            ResTryDecreaseKey::Unchanged => ResTryDecreaseKeyOrPush::Unchanged,
        }
    }
}

} // verus!
