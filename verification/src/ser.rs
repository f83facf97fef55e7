//! The `Casserole` trait, the `Encode` trait through which folded values become
//! bytes, and the handling of values that are kept in a store under a key.
use crate::store::Store;
use vstd::prelude::*;

verus! {

/// What a store of type `S` holds: byte strings by the view of their key.
pub type Contents<S> = Map<<<S as Store>::Key as View>::V, Seq<u8>>;

/// A byte encoding of values: what a store holds of a value that was broken off.
///
/// A type that states its encoding (`encodes()`) promises that `encode` writes
/// `encoding()` and that what `decode` gives back is encoded by the bytes it was given;
/// one that also states `decodes_all()` promises that `decode` reads back every
/// encoding. By default a type states nothing, and its contracts say nothing.
pub trait Encode: Sized {
    /// Whether the type states its encoding.
    open spec fn encodes() -> bool {
        false
    }

    /// Whether `decode` reads back every encoding: by default, where the type states its
    /// encoding.
    open spec fn decodes_all() -> bool {
        Self::encodes()
    }

    /// The bytes that encode `self`.
    open spec fn encoding(&self) -> Seq<u8> {
        Seq::empty()
    }

    /// Encode the value.
    fn encode(&self) -> (bytes: Vec<u8>)
        ensures
            Self::encodes() ==> bytes@ == self.encoding(),
    ;

    /// Decode a value: `Some` of a value that `bytes` encode, `None` where they encode
    /// none.
    fn decode(bytes: &[u8]) -> (res: Option<Self>)
        ensures
            Self::encodes() ==> (res matches Some(v) ==> v.encoding() == bytes@),
            Self::decodes_all() ==> ((exists|v: Self| v.encoding() == bytes@) ==> res is Some),
    ;
}

/// The type states its encoding, reads back every encoding, and distinct values have
/// distinct encodings.
pub open spec fn faithful_encoding<T: Encode>() -> bool {
    &&& T::encodes()
    &&& T::decodes_all()
    &&& forall|a: T, b: T| #[trigger] a.encoding() == #[trigger] b.encoding() ==> a == b
}

/// The Casserole trait provides reduction and restoration of values to compact
/// form where sub-values are stored in a Store, which can be a content-addressable
/// database.
///
/// `restores(target, contents, value)` says that `target` stands for `value` when read
/// back through a store that holds `contents`. Folding a value gives a target that
/// restores it, unless the store clashed; restoring a target gives a value that it
/// restores. For a type that is `lawful`, a target restores only values that are the
/// `same`, so what `decasserole` gives back of what `casserole` made is the `same` as
/// the value that was folded. Where the store never fails, both succeed.
///
/// A type states its model through `exact`, `restores` and `same`; by default it states
/// none (`exact()` is false), and the contracts say nothing of it.
pub trait Casserole<S: Store>: Sized {
    /// The target type. Usually contains all the details of the folded type
    /// except some sub-values which are stored in a DB and are only accessible
    /// via a key.
    type Target;

    /// Whether the type states its model, and its parts behave as the laws need.
    open spec fn exact() -> bool {
        false
    }

    /// `target` stands for `value` in a store holding `contents`.
    open spec fn restores(target: Self::Target, contents: Contents<S>, value: Self) -> bool {
        false
    }

    /// Equality of values as the type's users see it: `==` for plain values, equal
    /// contents for maps.
    open spec fn same(a: Self, b: Self) -> bool {
        a == b
    }

    /// Serialization that handles folding. The returned value is a folded
    /// representation of the given type, where the folded portions are
    /// saved in a store.
    fn casserole(&self, store: &mut S) -> (res: Result<Self::Target, S::Error>)
        requires
            old(store).valid(),
            Self::exact(),
        ensures
            final(store).valid(),
            old(store).contents().submap_of(final(store).contents()),
            old(store).clashed() ==> final(store).clashed(),
            S::never_fails() ==> res is Ok,
            res matches Ok(target) ==> Self::restores(target, final(store).contents(), *self)
                || final(store).clashed(),
    ;

    /// The reverse of `casserole`, returning the object that was folded, read through the
    /// store, which it leaves as it was.
    fn decasserole(target: &Self::Target, store: &mut S) -> (res: Result<Self, S::Error>)
        requires
            old(store).valid(),
            Self::exact(),
            exists|v: Self| Self::restores(*target, old(store).contents(), v),
        ensures
            final(store).valid(),
            final(store).contents() == old(store).contents(),
            final(store).clashed() == old(store).clashed(),
            S::never_fails() ==> res is Ok,
            res matches Ok(value) ==> Self::restores(*target, old(store).contents(), value),
    ;
}

/// The type states its model, a target restores only values that are the `same`, and
/// what a target restores in a store it restores in any store that holds more.
pub open spec fn lawful<S: Store, T: Casserole<S>>() -> bool {
    &&& T::exact()
    &&& forall|target: T::Target, contents: Contents<S>, a: T, b: T|
        #![trigger T::restores(target, contents, a), T::restores(target, contents, b)]
        T::restores(target, contents, a) && T::restores(target, contents, b) ==> T::same(a, b)
    &&& forall|target: T::Target, small: Contents<S>, large: Contents<S>, value: T|
        #![trigger T::restores(target, small, value), small.submap_of(large)]
        T::restores(target, small, value) && small.submap_of(large) ==> T::restores(
            target,
            large,
            value,
        )
}

/// A target of a lawful type restores only values that are the `same`.
pub proof fn lemma_restores_unique<S: Store, T: Casserole<S>>(
    target: T::Target,
    contents: Contents<S>,
    a: T,
    b: T,
)
    requires
        lawful::<S, T>(),
        T::restores(target, contents, a),
        T::restores(target, contents, b),
    ensures
        T::same(a, b),
{
}

/// What a target of a lawful type restores, it restores in any store that holds more.
pub proof fn lemma_restores_kept<S: Store, T: Casserole<S>>(
    target: T::Target,
    small: Contents<S>,
    large: Contents<S>,
    value: T,
)
    requires
        lawful::<S, T>(),
        T::restores(target, small, value),
        small.submap_of(large),
    ensures
        T::restores(target, large, value),
{
}

/// Restoring what was folded gives back the folded value. When `target` stands for
/// `value` in a store holding `contents` (what `casserole` ensures, unless the store
/// clashed), then in that store and in any store that holds more, `decasserole` can be
/// called on `target`, and whatever it returns is the `same` as `value`.
pub proof fn law_roundtrip<S: Store, T: Casserole<S>>(
    target: T::Target,
    contents: Contents<S>,
    later: Contents<S>,
    value: T,
)
    requires
        lawful::<S, T>(),
        T::restores(target, contents, value),
        contents.submap_of(later),
    ensures
        exists|v: T| T::restores(target, later, v),
        forall|v: T| T::restores(target, later, v) ==> T::same(v, value),
{
    lemma_restores_kept::<S, T>(target, contents, later, value);
    assert forall|v: T| T::restores(target, later, v) implies T::same(v, value) by {
        lemma_restores_unique::<S, T>(target, later, v, value);
    }
}

/// `key` leads, in a store holding `contents`, to the encoding of a target that
/// restores `value`: how a value that was broken off into the store is held.
pub open spec fn restores_stored<S: Store, T: Casserole<S>>(
    key: <S::Key as View>::V,
    contents: Contents<S>,
    value: T,
) -> bool where T::Target: Encode {
    &&& contents.contains_key(key)
    &&& exists|target: T::Target|
        #[trigger] target.encoding() == contents[key] && T::restores(target, contents, value)
}

/// What a key restores in a store, it restores in any store that holds more.
pub proof fn lemma_restores_stored_kept<S: Store, T: Casserole<S>>(
    key: <S::Key as View>::V,
    small: Contents<S>,
    large: Contents<S>,
    value: T,
) where T::Target: Encode
    requires
        lawful::<S, T>(),
        restores_stored::<S, T>(key, small, value),
        small.submap_of(large),
    ensures
        restores_stored::<S, T>(key, large, value),
{
    let target = choose|target: T::Target|
        #[trigger] target.encoding() == small[key] && T::restores(target, small, value);
    lemma_restores_kept::<S, T>(target, small, large, value);
}

/// Targets of `T` can be kept in a store: their encoding is stated, `decode` reads
/// back every encoding, and what a target restores is told by its encoding alone (two
/// targets with the same encoding restore the same values).
pub open spec fn stored_apart<S: Store, T: Casserole<S>>() -> bool where T::Target: Encode {
    &&& T::Target::encodes()
    &&& T::Target::decodes_all()
    &&& forall|t1: T::Target, t2: T::Target, contents: Contents<S>, value: T|
        #![trigger t1.encoding(), t2.encoding(), T::restores(t1, contents, value)]
        t1.encoding() == t2.encoding() && T::restores(t1, contents, value) ==> T::restores(
            t2,
            contents,
            value,
        )
}

/// A faithful encoding of the targets lets them be kept in a store.
pub proof fn lemma_faithful_stored_apart<S: Store, T: Casserole<S>>() where T::Target: Encode
    requires
        faithful_encoding::<T::Target>(),
    ensures
        stored_apart::<S, T>(),
{
}

/// A key restores only values that are the `same`.
pub proof fn lemma_restores_stored_unique<S: Store, T: Casserole<S>>(
    key: <S::Key as View>::V,
    contents: Contents<S>,
    a: T,
    b: T,
) where T::Target: Encode
    requires
        lawful::<S, T>(),
        stored_apart::<S, T>(),
        restores_stored::<S, T>(key, contents, a),
        restores_stored::<S, T>(key, contents, b),
    ensures
        T::same(a, b),
{
    let ta = choose|target: T::Target|
        #[trigger] target.encoding() == contents[key] && T::restores(target, contents, a);
    let tb = choose|target: T::Target|
        #[trigger] target.encoding() == contents[key] && T::restores(target, contents, b);
    assert(ta.encoding() == tb.encoding());
    assert(T::restores(ta, contents, b));
    lemma_restores_unique::<S, T>(ta, contents, a, b);
}

/// Fold `value` and put its encoded target in the store: what a field marked to be
/// stored, or a value of a map, becomes. Returns the key.
pub fn casserole_stored<S: Store, T: Casserole<S>>(value: &T, store: &mut S) -> (res: Result<
    S::Key,
    S::Error,
>) where T::Target: Encode
    requires
        old(store).valid(),
        lawful::<S, T>(),
        T::Target::encodes(),
    ensures
        final(store).valid(),
        old(store).contents().submap_of(final(store).contents()),
        old(store).clashed() ==> final(store).clashed(),
        S::never_fails() ==> res is Ok,
        res matches Ok(key) ==> restores_stored::<S, T>(key@, final(store).contents(), *value)
            || final(store).clashed(),
{
    let target = match value.casserole(store) {
        Ok(target) => target,
        Err(e) => return Err(e),
    };
    let ghost middle = store.contents();
    let bytes = target.encode();
    let key = match store.put(bytes.as_slice()) {
        Ok(key) => key,
        Err(e) => return Err(e),
    };
    proof {
        assert(middle.submap_of(store.contents()));
        if !store.clashed() {
            lemma_restores_kept::<S, T>(target, middle, store.contents(), *value);
            assert(target.encoding() == store.contents()[key@]);
        }
    }
    Ok(key)
}

/// Fetch the bytes under `key`, decode the target they hold and restore the value
/// from it: the reverse of `casserole_stored`. The store is left as it was.
pub fn decasserole_stored<S: Store, T: Casserole<S>>(key: &S::Key, store: &mut S) -> (res: Result<
    T,
    S::Error,
>) where T::Target: Encode
    requires
        old(store).valid(),
        lawful::<S, T>(),
        stored_apart::<S, T>(),
        exists|v: T| restores_stored::<S, T>(key@, old(store).contents(), v),
    ensures
        final(store).valid(),
        final(store).contents() == old(store).contents(),
        final(store).clashed() == old(store).clashed(),
        S::never_fails() ==> res is Ok,
        res matches Ok(value) ==> restores_stored::<S, T>(key@, old(store).contents(), value),
{
    let ghost contents = store.contents();
    let ghost v = choose|v: T| restores_stored::<S, T>(key@, contents, v);
    let ghost witness = choose|target: T::Target|
        #[trigger] target.encoding() == contents[key@] && T::restores(target, contents, v);
    let found = match store.get(key) {
        Ok(found) => found,
        Err(e) => return Err(e),
    };
    let bytes = match found {
        Some(bytes) => bytes,
        None => {
            return vstd::pervasive::unreached();
        },
    };
    let target = match T::Target::decode(bytes.as_slice()) {
        Some(target) => target,
        None => {
            assert(witness.encoding() == bytes@);
            return vstd::pervasive::unreached();
        },
    };
    proof {
        assert(target.encoding() == witness.encoding());
    }
    let res = T::decasserole(&target, store);
    proof {
        assert(target.encoding() == contents[key@]);
    }
    res
}

} // verus!
