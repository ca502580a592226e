//! What an element must provide to be stored: a key derived from itself.
use vstd::prelude::*;

verus! {

/// The capability that every stored element provides: it derives its own key.
///
/// `key` is deterministic and has no effect: its result is always
/// `spec_key`. An implementation outside verified code writes `spec_key` as a
/// method with the same body as `key`.
pub trait Lookup {
    /// The key type. Collections compare keys with `==`; their contracts hold
    /// where `==` on keys is equality of values.
    type Key: Eq + Clone + core::hash::Hash + core::fmt::Debug;

    /// The key that this element derives.
    spec fn spec_key(&self) -> Self::Key;

    /// Derives this element's key.
    fn key(&self) -> (k: Self::Key)
        ensures
            k == self.spec_key(),
    ;
}

} // verus!
