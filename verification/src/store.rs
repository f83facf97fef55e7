//! Definition of the `Store` trait.
use crate::ser::Encode;
use vstd::prelude::*;

pub mod json;

verus! {

/// A `Store` is where Casserole puts the values it breaks off: byte strings filed
/// under keys.
///
/// Its contents are modelled as a map from the keys' views to byte strings. A store
/// may refuse to overwrite a key it already holds (a content-addressed store keeps the
/// first bytes filed under a key); when a `put` returns a key under which other bytes
/// than those it was given are kept, the store records a clash, and `clashed` stays
/// true from then on.
pub trait Store: Sized {
    /// Error returned by the Store's operations.
    type Error;

    /// The keys used to fetch stored values; a key can itself be encoded, to be kept
    /// in a folded value.
    type Key: View + Encode;

    /// The store's internal invariant.
    spec fn valid(&self) -> bool;

    /// The byte strings held, by key.
    spec fn contents(&self) -> Map<<Self::Key as View>::V, Seq<u8>>;

    /// Whether some `put` returned a key under which other bytes are kept.
    spec fn clashed(&self) -> bool;

    /// Whether the store's operations never fail: a store states so where its error
    /// type has no value or its operations never return one. By default it states
    /// nothing.
    open spec fn never_fails() -> bool {
        false
    }

    /// Save a value to the store and return a key. Only the returned key's entry can
    /// change, an entry that was there stays, and the key leads to the value unless the
    /// store has clashed.
    fn put(&mut self, value: &[u8]) -> (res: Result<Self::Key, Self::Error>)
        requires
            old(self).valid(),
        ensures
            final(self).valid(),
            old(self).clashed() ==> final(self).clashed(),
            Self::never_fails() ==> res is Ok,
            match res {
                Ok(key) => {
                    &&& final(self).contents().contains_key(key@)
                    &&& final(self).contents() == old(self).contents().insert(
                        key@,
                        final(self).contents()[key@],
                    )
                    &&& old(self).contents().contains_key(key@) ==> final(self).contents()[key@]
                        == old(self).contents()[key@]
                    &&& final(self).contents()[key@] == value@ || final(self).clashed()
                },
                Err(_) => final(self).contents() == old(self).contents(),
            },
    ;

    /// Fetch a value from the store based on a key: the bytes filed under it, or `None`
    /// where there are none. The store is left as it was.
    fn get(&mut self, key: &Self::Key) -> (res: Result<Option<Vec<u8>>, Self::Error>)
        requires
            old(self).valid(),
        ensures
            final(self).valid(),
            final(self).contents() == old(self).contents(),
            final(self).clashed() == old(self).clashed(),
            Self::never_fails() ==> res is Ok,
            res matches Ok(found) ==> match found {
                Some(bytes) => old(self).contents().contains_key(key@) && bytes@
                    == old(self).contents()[key@],
                None => !old(self).contents().contains_key(key@),
            },
    ;
}

} // verus!
