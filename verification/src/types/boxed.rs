//! A box folds to a box of the folded value.
use crate::ser::{lawful, Casserole, Contents};
use crate::store::Store;
use vstd::prelude::*;

verus! {

impl<S: Store, T: Casserole<S>> Casserole<S> for Box<T> {
    type Target = Box<T::Target>;

    open spec fn exact() -> bool {
        lawful::<S, T>()
    }

    open spec fn restores(target: Box<T::Target>, contents: Contents<S>, value: Box<T>) -> bool {
        T::restores(*target, contents, *value)
    }

    open spec fn same(a: Box<T>, b: Box<T>) -> bool {
        T::same(*a, *b)
    }

    fn casserole(&self, store: &mut S) -> (res: Result<Box<T::Target>, S::Error>) {
        match (**self).casserole(store) {
            Ok(target) => Ok(Box::new(target)),
            Err(e) => Err(e),
        }
    }

    fn decasserole(target: &Box<T::Target>, store: &mut S) -> (res: Result<Box<T>, S::Error>) {
        proof {
            let v = choose|v: Box<T>| Self::restores(*target, old(store).contents(), v);
            assert(T::restores(**target, store.contents(), *v));
        }
        match T::decasserole(&**target, store) {
            Ok(value) => Ok(Box::new(value)),
            Err(e) => Err(e),
        }
    }
}

/// A `Box` of a lawful type is lawful.
pub proof fn lemma_lawful_box<S: Store, T: Casserole<S>>()
    requires
        lawful::<S, T>(),
    ensures
        lawful::<S, Box<T>>(),
{
    assert forall|target: Box<T::Target>, contents: Contents<S>, a: Box<T>, b: Box<T>|
        #[trigger] <Box<T> as Casserole<S>>::restores(target, contents, a)
            && #[trigger] <Box<T> as Casserole<S>>::restores(target, contents, b) implies <Box<T> as Casserole<S>>::same(a, b) by {
        assert(T::restores(*target, contents, *a));
        assert(T::restores(*target, contents, *b));
    }
    assert forall|target: Box<T::Target>, small: Contents<S>, large: Contents<S>, value: Box<T>|
        #[trigger] <Box<T> as Casserole<S>>::restores(target, small, value)
            && #[trigger] small.submap_of(large) implies <Box<T> as Casserole<S>>::restores(target, large, value) by {
        assert(T::restores(*target, small, *value));
    }
}

} // verus!
