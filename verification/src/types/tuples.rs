//! A tuple folds to the tuple of its folded parts.
use crate::ser::{lawful, lemma_restores_kept, Casserole, Contents};
use crate::store::Store;
use vstd::prelude::*;

verus! {

broadcast use vstd::map_lib::lemma_submap_of_trans;

impl<S: Store, A: Casserole<S>, B: Casserole<S>> Casserole<S> for (A, B) {
    type Target = (A::Target, B::Target);

    open spec fn exact() -> bool {
        lawful::<S, A>()
        && lawful::<S, B>()
    }

    open spec fn restores(target: (A::Target, B::Target), contents: Contents<S>, value: (A, B)) -> bool {
        A::restores(target.0, contents, value.0)
            && B::restores(target.1, contents, value.1)
    }

    open spec fn same(a: (A, B), b: (A, B)) -> bool {
        A::same(a.0, b.0) && B::same(a.1, b.1)
    }

    fn casserole(&self, store: &mut S) -> (res: Result<(A::Target, B::Target), S::Error>) {
        let a = match self.0.casserole(store) {
            Ok(t) => t,
            Err(e) => return Err(e),
        };
        let ghost after_a = store.contents();
        let b = match self.1.casserole(store) {
            Ok(t) => t,
            Err(e) => return Err(e),
        };
        let ghost after_b = store.contents();
        proof {
            if !store.clashed() {
                lemma_restores_kept::<S, A>(a, after_a, store.contents(), self.0);
            }
        }
        Ok((a, b))
    }

    fn decasserole(target: &(A::Target, B::Target), store: &mut S) -> (res: Result<(A, B), S::Error>) {
        let ghost v = choose|v: (A, B)| Self::restores(*target, old(store).contents(), v);
        let a = match A::decasserole(&target.0, store) {
            Ok(x) => x,
            Err(e) => return Err(e),
        };
        let b = match B::decasserole(&target.1, store) {
            Ok(x) => x,
            Err(e) => return Err(e),
        };
        Ok((a, b))
    }
}

/// A tuple of lawful types is lawful.
pub proof fn lemma_lawful_tuple2<S: Store, A: Casserole<S>, B: Casserole<S>>()
    requires
        lawful::<S, A>(),
        lawful::<S, B>(),
    ensures
        lawful::<S, (A, B)>(),
{
    assert forall|target: (A::Target, B::Target), contents: Contents<S>, a: (A, B), b: (A, B)|
        #[trigger] <(A, B) as Casserole<S>>::restores(target, contents, a) && #[trigger] <(A, B) as Casserole<S>>::restores(
            target,
            contents,
            b,
        ) implies <(A, B) as Casserole<S>>::same(a, b) by {
        assert(A::restores(target.0, contents, a.0) && A::restores(target.0, contents, b.0));
        assert(B::restores(target.1, contents, a.1) && B::restores(target.1, contents, b.1));
    }
    assert forall|target: (A::Target, B::Target), small: Contents<S>, large: Contents<S>, value: (A, B)|
        #[trigger] <(A, B) as Casserole<S>>::restores(target, small, value) && #[trigger] small.submap_of(large) implies <(A, B) as Casserole<S>>::restores(
            target,
            large,
            value,
        ) by {
        assert(A::restores(target.0, small, value.0));
        assert(B::restores(target.1, small, value.1));
    }
}

impl<S: Store, A: Casserole<S>, B: Casserole<S>, C: Casserole<S>> Casserole<S> for (A, B, C) {
    type Target = (A::Target, B::Target, C::Target);

    open spec fn exact() -> bool {
        lawful::<S, A>()
        && lawful::<S, B>()
        && lawful::<S, C>()
    }

    open spec fn restores(target: (A::Target, B::Target, C::Target), contents: Contents<S>, value: (A, B, C)) -> bool {
        A::restores(target.0, contents, value.0)
            && B::restores(target.1, contents, value.1)
            && C::restores(target.2, contents, value.2)
    }

    open spec fn same(a: (A, B, C), b: (A, B, C)) -> bool {
        A::same(a.0, b.0) && B::same(a.1, b.1) && C::same(a.2, b.2)
    }

    fn casserole(&self, store: &mut S) -> (res: Result<(A::Target, B::Target, C::Target), S::Error>) {
        let a = match self.0.casserole(store) {
            Ok(t) => t,
            Err(e) => return Err(e),
        };
        let ghost after_a = store.contents();
        let b = match self.1.casserole(store) {
            Ok(t) => t,
            Err(e) => return Err(e),
        };
        let ghost after_b = store.contents();
        let c = match self.2.casserole(store) {
            Ok(t) => t,
            Err(e) => return Err(e),
        };
        let ghost after_c = store.contents();
        proof {
            if !store.clashed() {
                lemma_restores_kept::<S, A>(a, after_a, store.contents(), self.0);
                lemma_restores_kept::<S, B>(b, after_b, store.contents(), self.1);
            }
        }
        Ok((a, b, c))
    }

    fn decasserole(target: &(A::Target, B::Target, C::Target), store: &mut S) -> (res: Result<(A, B, C), S::Error>) {
        let ghost v = choose|v: (A, B, C)| Self::restores(*target, old(store).contents(), v);
        let a = match A::decasserole(&target.0, store) {
            Ok(x) => x,
            Err(e) => return Err(e),
        };
        let b = match B::decasserole(&target.1, store) {
            Ok(x) => x,
            Err(e) => return Err(e),
        };
        let c = match C::decasserole(&target.2, store) {
            Ok(x) => x,
            Err(e) => return Err(e),
        };
        Ok((a, b, c))
    }
}

/// A tuple of lawful types is lawful.
pub proof fn lemma_lawful_tuple3<S: Store, A: Casserole<S>, B: Casserole<S>, C: Casserole<S>>()
    requires
        lawful::<S, A>(),
        lawful::<S, B>(),
        lawful::<S, C>(),
    ensures
        lawful::<S, (A, B, C)>(),
{
    assert forall|target: (A::Target, B::Target, C::Target), contents: Contents<S>, a: (A, B, C), b: (A, B, C)|
        #[trigger] <(A, B, C) as Casserole<S>>::restores(target, contents, a) && #[trigger] <(A, B, C) as Casserole<S>>::restores(
            target,
            contents,
            b,
        ) implies <(A, B, C) as Casserole<S>>::same(a, b) by {
        assert(A::restores(target.0, contents, a.0) && A::restores(target.0, contents, b.0));
        assert(B::restores(target.1, contents, a.1) && B::restores(target.1, contents, b.1));
        assert(C::restores(target.2, contents, a.2) && C::restores(target.2, contents, b.2));
    }
    assert forall|target: (A::Target, B::Target, C::Target), small: Contents<S>, large: Contents<S>, value: (A, B, C)|
        #[trigger] <(A, B, C) as Casserole<S>>::restores(target, small, value) && #[trigger] small.submap_of(large) implies <(A, B, C) as Casserole<S>>::restores(
            target,
            large,
            value,
        ) by {
        assert(A::restores(target.0, small, value.0));
        assert(B::restores(target.1, small, value.1));
        assert(C::restores(target.2, small, value.2));
    }
}

impl<S: Store, A: Casserole<S>, B: Casserole<S>, C: Casserole<S>, D: Casserole<S>> Casserole<S> for (A, B, C, D) {
    type Target = (A::Target, B::Target, C::Target, D::Target);

    open spec fn exact() -> bool {
        lawful::<S, A>()
        && lawful::<S, B>()
        && lawful::<S, C>()
        && lawful::<S, D>()
    }

    open spec fn restores(target: (A::Target, B::Target, C::Target, D::Target), contents: Contents<S>, value: (A, B, C, D)) -> bool {
        A::restores(target.0, contents, value.0)
            && B::restores(target.1, contents, value.1)
            && C::restores(target.2, contents, value.2)
            && D::restores(target.3, contents, value.3)
    }

    open spec fn same(a: (A, B, C, D), b: (A, B, C, D)) -> bool {
        A::same(a.0, b.0) && B::same(a.1, b.1) && C::same(a.2, b.2) && D::same(a.3, b.3)
    }

    fn casserole(&self, store: &mut S) -> (res: Result<(A::Target, B::Target, C::Target, D::Target), S::Error>) {
        let a = match self.0.casserole(store) {
            Ok(t) => t,
            Err(e) => return Err(e),
        };
        let ghost after_a = store.contents();
        let b = match self.1.casserole(store) {
            Ok(t) => t,
            Err(e) => return Err(e),
        };
        let ghost after_b = store.contents();
        let c = match self.2.casserole(store) {
            Ok(t) => t,
            Err(e) => return Err(e),
        };
        let ghost after_c = store.contents();
        let d = match self.3.casserole(store) {
            Ok(t) => t,
            Err(e) => return Err(e),
        };
        let ghost after_d = store.contents();
        proof {
            if !store.clashed() {
                lemma_restores_kept::<S, A>(a, after_a, store.contents(), self.0);
                lemma_restores_kept::<S, B>(b, after_b, store.contents(), self.1);
                lemma_restores_kept::<S, C>(c, after_c, store.contents(), self.2);
            }
        }
        Ok((a, b, c, d))
    }

    fn decasserole(target: &(A::Target, B::Target, C::Target, D::Target), store: &mut S) -> (res: Result<(A, B, C, D), S::Error>) {
        let ghost v = choose|v: (A, B, C, D)| Self::restores(*target, old(store).contents(), v);
        let a = match A::decasserole(&target.0, store) {
            Ok(x) => x,
            Err(e) => return Err(e),
        };
        let b = match B::decasserole(&target.1, store) {
            Ok(x) => x,
            Err(e) => return Err(e),
        };
        let c = match C::decasserole(&target.2, store) {
            Ok(x) => x,
            Err(e) => return Err(e),
        };
        let d = match D::decasserole(&target.3, store) {
            Ok(x) => x,
            Err(e) => return Err(e),
        };
        Ok((a, b, c, d))
    }
}

/// A tuple of lawful types is lawful.
pub proof fn lemma_lawful_tuple4<S: Store, A: Casserole<S>, B: Casserole<S>, C: Casserole<S>, D: Casserole<S>>()
    requires
        lawful::<S, A>(),
        lawful::<S, B>(),
        lawful::<S, C>(),
        lawful::<S, D>(),
    ensures
        lawful::<S, (A, B, C, D)>(),
{
    assert forall|target: (A::Target, B::Target, C::Target, D::Target), contents: Contents<S>, a: (A, B, C, D), b: (A, B, C, D)|
        #[trigger] <(A, B, C, D) as Casserole<S>>::restores(target, contents, a) && #[trigger] <(A, B, C, D) as Casserole<S>>::restores(
            target,
            contents,
            b,
        ) implies <(A, B, C, D) as Casserole<S>>::same(a, b) by {
        assert(A::restores(target.0, contents, a.0) && A::restores(target.0, contents, b.0));
        assert(B::restores(target.1, contents, a.1) && B::restores(target.1, contents, b.1));
        assert(C::restores(target.2, contents, a.2) && C::restores(target.2, contents, b.2));
        assert(D::restores(target.3, contents, a.3) && D::restores(target.3, contents, b.3));
    }
    assert forall|target: (A::Target, B::Target, C::Target, D::Target), small: Contents<S>, large: Contents<S>, value: (A, B, C, D)|
        #[trigger] <(A, B, C, D) as Casserole<S>>::restores(target, small, value) && #[trigger] small.submap_of(large) implies <(A, B, C, D) as Casserole<S>>::restores(
            target,
            large,
            value,
        ) by {
        assert(A::restores(target.0, small, value.0));
        assert(B::restores(target.1, small, value.1));
        assert(C::restores(target.2, small, value.2));
        assert(D::restores(target.3, small, value.3));
    }
}

} // verus!
