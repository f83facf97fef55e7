//! A shared pointer folds to a shared pointer to the folded value.
use crate::ser::{lawful, Casserole, Contents};
use crate::store::Store;
use std::sync::Arc;
use vstd::prelude::*;

verus! {

/// The value an `Arc` points to.
pub open spec fn arc_inner<T>(a: Arc<T>) -> T {
    *a
}

impl<S: Store, T: Casserole<S>> Casserole<S> for Arc<T> {
    type Target = Arc<T::Target>;

    open spec fn exact() -> bool {
        lawful::<S, T>()
    }

    open spec fn restores(target: Arc<T::Target>, contents: Contents<S>, value: Arc<T>) -> bool {
        T::restores(arc_inner(target), contents, arc_inner(value))
    }

    open spec fn same(a: Arc<T>, b: Arc<T>) -> bool {
        T::same(arc_inner(a), arc_inner(b))
    }

    fn casserole(&self, store: &mut S) -> (res: Result<Arc<T::Target>, S::Error>) {
        match (**self).casserole(store) {
            Ok(target) => Ok(Arc::new(target)),
            Err(e) => Err(e),
        }
    }

    fn decasserole(target: &Arc<T::Target>, store: &mut S) -> (res: Result<Arc<T>, S::Error>) {
        proof {
            let v = choose|v: Arc<T>| Self::restores(*target, old(store).contents(), v);
            assert(T::restores(arc_inner(*target), store.contents(), arc_inner(v)));
        }
        match T::decasserole(&**target, store) {
            Ok(value) => Ok(Arc::new(value)),
            Err(e) => Err(e),
        }
    }
}

/// A `Arc` of a lawful type is lawful.
pub proof fn lemma_lawful_arc<S: Store, T: Casserole<S>>()
    requires
        lawful::<S, T>(),
    ensures
        lawful::<S, Arc<T>>(),
{
    assert forall|target: Arc<T::Target>, contents: Contents<S>, a: Arc<T>, b: Arc<T>|
        #[trigger] <Arc<T> as Casserole<S>>::restores(target, contents, a)
            && #[trigger] <Arc<T> as Casserole<S>>::restores(target, contents, b) implies <Arc<T> as Casserole<S>>::same(a, b) by {
        assert(T::restores(arc_inner(target), contents, arc_inner(a)));
        assert(T::restores(arc_inner(target), contents, arc_inner(b)));
    }
    assert forall|target: Arc<T::Target>, small: Contents<S>, large: Contents<S>, value: Arc<T>|
        #[trigger] <Arc<T> as Casserole<S>>::restores(target, small, value)
            && #[trigger] small.submap_of(large) implies <Arc<T> as Casserole<S>>::restores(target, large, value) by {
        assert(T::restores(arc_inner(target), small, arc_inner(value)));
    }
}

} // verus!
