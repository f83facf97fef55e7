//! `Option` and `Result` fold variant by variant: the payload is folded, the variant
//! kept.
use crate::ser::{lawful, Casserole, Contents};
use crate::store::Store;
use vstd::prelude::*;

verus! {

impl<S: Store, T: Casserole<S>> Casserole<S> for Option<T> {
    type Target = Option<T::Target>;

    open spec fn exact() -> bool {
        lawful::<S, T>()
    }

    open spec fn restores(target: Option<T::Target>, contents: Contents<S>, value: Option<T>) -> bool {
        match (target, value) {
            (None, None) => true,
            (Some(t), Some(v)) => T::restores(t, contents, v),
            _ => false,
        }
    }

    open spec fn same(a: Option<T>, b: Option<T>) -> bool {
        match (a, b) {
            (None, None) => true,
            (Some(x), Some(y)) => T::same(x, y),
            _ => false,
        }
    }

    fn casserole(&self, store: &mut S) -> (res: Result<Option<T::Target>, S::Error>)
        ensures
            *self is None ==> res == Ok::<Option<T::Target>, S::Error>(None) && *final(store)
                == *old(store),
    {
        match self {
            None => Ok(None),
            Some(f0) => match f0.casserole(store) {
                Ok(t) => Ok(Some(t)),
                Err(e) => Err(e),
            },
        }
    }

    fn decasserole(target: &Option<T::Target>, store: &mut S) -> (res: Result<Option<T>, S::Error>)
        ensures
            *target is None ==> res == Ok::<Option<T>, S::Error>(None) && *final(store)
                == *old(store),
    {
        let ghost v = choose|v: Option<T>| Self::restores(*target, old(store).contents(), v);
        match target {
            None => Ok(None),
            Some(f0) => match T::decasserole(f0, store) {
                Ok(x) => Ok(Some(x)),
                Err(e) => Err(e),
            },
        }
    }
}

impl<S: Store, T: Casserole<S>, E: Casserole<S>> Casserole<S> for Result<T, E> {
    type Target = Result<T::Target, E::Target>;

    open spec fn exact() -> bool {
        lawful::<S, T>() && lawful::<S, E>()
    }

    open spec fn restores(
        target: Result<T::Target, E::Target>,
        contents: Contents<S>,
        value: Result<T, E>,
    ) -> bool {
        match (target, value) {
            (Ok(t), Ok(v)) => T::restores(t, contents, v),
            (Err(t), Err(v)) => E::restores(t, contents, v),
            _ => false,
        }
    }

    open spec fn same(a: Result<T, E>, b: Result<T, E>) -> bool {
        match (a, b) {
            (Ok(x), Ok(y)) => T::same(x, y),
            (Err(x), Err(y)) => E::same(x, y),
            _ => false,
        }
    }

    fn casserole(&self, store: &mut S) -> (res: Result<Result<T::Target, E::Target>, S::Error>) {
        match self {
            Ok(f0) => match f0.casserole(store) {
                Ok(t) => Ok(Ok(t)),
                Err(e) => Err(e),
            },
            Err(f0) => match f0.casserole(store) {
                Ok(t) => Ok(Err(t)),
                Err(e) => Err(e),
            },
        }
    }

    fn decasserole(target: &Result<T::Target, E::Target>, store: &mut S) -> (res: Result<
        Result<T, E>,
        S::Error,
    >) {
        let ghost v = choose|v: Result<T, E>| Self::restores(*target, old(store).contents(), v);
        match target {
            Ok(f0) => match T::decasserole(f0, store) {
                Ok(x) => Ok(Ok(x)),
                Err(e) => Err(e),
            },
            Err(f0) => match E::decasserole(f0, store) {
                Ok(x) => Ok(Err(x)),
                Err(e) => Err(e),
            },
        }
    }
}

/// An `Option` of a lawful type is lawful.
pub proof fn lemma_lawful_option<S: Store, T: Casserole<S>>()
    requires
        lawful::<S, T>(),
    ensures
        lawful::<S, Option<T>>(),
{
    assert forall|target: Option<T::Target>, contents: Contents<S>, a: Option<T>, b: Option<T>|
        #[trigger] <Option<T> as Casserole<S>>::restores(target, contents, a)
            && #[trigger] <Option<T> as Casserole<S>>::restores(
            target,
            contents,
            b,
        ) implies <Option<T> as Casserole<S>>::same(a, b) by {
        if let (Some(t), Some(x), Some(y)) = (target, a, b) {
            assert(T::restores(t, contents, x) && T::restores(t, contents, y));
        }
    }
    assert forall|target: Option<T::Target>, small: Contents<S>, large: Contents<S>, value: Option<T>|
        #[trigger] <Option<T> as Casserole<S>>::restores(target, small, value)
            && #[trigger] small.submap_of(large) implies <Option<T> as Casserole<
        S,
    >>::restores(target, large, value) by {
        if let (Some(t), Some(v)) = (target, value) {
            assert(T::restores(t, small, v));
        }
    }
}

/// A `Result` of lawful types is lawful.
pub proof fn lemma_lawful_result<S: Store, T: Casserole<S>, E: Casserole<S>>()
    requires
        lawful::<S, T>(),
        lawful::<S, E>(),
    ensures
        lawful::<S, Result<T, E>>(),
{
    assert forall|
        target: Result<T::Target, E::Target>,
        contents: Contents<S>,
        a: Result<T, E>,
        b: Result<T, E>,
    |
        #[trigger] <Result<T, E> as Casserole<S>>::restores(target, contents, a)
            && #[trigger] <Result<T, E> as Casserole<S>>::restores(
            target,
            contents,
            b,
        ) implies <Result<T, E> as Casserole<S>>::same(a, b) by {
        match (target, a, b) {
            (Ok(t), Ok(x), Ok(y)) => {
                assert(T::restores(t, contents, x) && T::restores(t, contents, y));
            },
            (Err(t), Err(x), Err(y)) => {
                assert(E::restores(t, contents, x) && E::restores(t, contents, y));
            },
            _ => {},
        }
    }
    assert forall|
        target: Result<T::Target, E::Target>,
        small: Contents<S>,
        large: Contents<S>,
        value: Result<T, E>,
    |
        #[trigger] <Result<T, E> as Casserole<S>>::restores(target, small, value)
            && #[trigger] small.submap_of(large) implies <Result<T, E> as Casserole<
        S,
    >>::restores(target, large, value) by {
        match (target, value) {
            (Ok(t), Ok(v)) => {
                assert(T::restores(t, small, v));
            },
            (Err(t), Err(v)) => {
                assert(E::restores(t, small, v));
            },
            _ => {},
        }
    }
}

} // verus!
