//! Sequences in increasing order: a finite set of an ordered type is listed in
//! increasing order in exactly one way.
use vstd::laws_cmp::{obeys_cmp, obeys_cmp_ord, obeys_cmp_partial_ord, obeys_partial_cmp_spec_properties};
use vstd::laws_eq::obeys_concrete_eq;
use vstd::prelude::*;
use vstd::std_specs::btree::increasing_seq;
use vstd::std_specs::cmp::{OrdSpec, PartialEqSpec, PartialOrdSpec};

verus! {

broadcast use vstd::std_specs::btree::group_btree_axioms;

/// Each element of `s` is less than every later one.
pub open spec fn strictly_increasing<K: Ord>(s: Seq<K>) -> bool {
    forall|i: int, j: int| #![trigger s[i], s[j]] 0 <= i < j < s.len() ==> s[i].cmp_spec(&s[j]) is Less
}

/// The elements of `d` in increasing order.
pub open spec fn in_order<K: Ord>(d: Set<K>) -> Seq<K> {
    choose|s: Seq<K>| strictly_increasing(s) && s.to_set() == d
}

/// What `increasing_seq` says of an ordered type.
pub proof fn lemma_increasing_seq_strict<K: Ord>(s: Seq<K>)
    requires
        obeys_cmp::<K>(),
        increasing_seq(s),
    ensures
        strictly_increasing(s),
{
}

/// No element is less than itself, and less-than is transitive.
proof fn lemma_less_laws<K: Ord>(x: K, y: K, z: K)
    requires
        obeys_cmp::<K>(),
    ensures
        !(x.cmp_spec(&x) is Less),
        x.cmp_spec(&y) is Less && y.cmp_spec(&z) is Less ==> x.cmp_spec(&z) is Less,
{
    reveal(obeys_partial_cmp_spec_properties);
    reveal(obeys_cmp_ord);
    assert(x.partial_cmp_spec(&x) == Some(x.cmp_spec(&x)));
    assert(x.partial_cmp_spec(&y) == Some(x.cmp_spec(&y)));
    assert(y.partial_cmp_spec(&z) == Some(y.cmp_spec(&z)));
    assert(x.partial_cmp_spec(&z) == Some(x.cmp_spec(&z)));
}

/// An increasing sequence has no element twice.
proof fn lemma_increasing_distinct<K: Ord>(s: Seq<K>)
    requires
        obeys_cmp::<K>(),
        strictly_increasing(s),
    ensures
        s.no_duplicates(),
{
    assert forall|i: int, j: int| 0 <= i < s.len() && 0 <= j < s.len() && i != j implies s[i] != s[j] by {
        lemma_less_laws(s[i], s[j], s[j]);
        if i < j {
            assert(s[i].cmp_spec(&s[j]) is Less);
        } else {
            assert(s[j].cmp_spec(&s[i]) is Less);
        }
    }
}

/// Two increasing sequences of the same elements are equal.
pub proof fn lemma_increasing_unique<K: Ord>(a: Seq<K>, b: Seq<K>)
    requires
        obeys_cmp::<K>(),
        strictly_increasing(a),
        strictly_increasing(b),
        a.to_set() == b.to_set(),
    ensures
        a == b,
    decreases a.len(),
{
    if a.len() == 0 {
        if b.len() > 0 {
            assert(b.to_set().contains(b[0]));
        }
        assert(b.len() == 0);
    } else {
        assert(a.to_set().contains(a[0]));
        assert(b.to_set().contains(a[0]));
        let j = choose|j: int| 0 <= j < b.len() && b[j] == a[0];
        assert(b.to_set().contains(b[0]));
        assert(a.to_set().contains(b[0]));
        let i = choose|i: int| 0 <= i < a.len() && a[i] == b[0];
        if j > 0 {
            assert(b[0].cmp_spec(&b[j]) is Less);
            lemma_less_laws(a[0], b[0], a[0]);
            if i > 0 {
                assert(a[0].cmp_spec(&a[i]) is Less);
            }
            assert(false);
        }
        let ra = a.drop_first();
        let rb = b.drop_first();
        lemma_increasing_distinct(a);
        lemma_increasing_distinct(b);
        assert(ra.to_set() =~= a.to_set().remove(a[0])) by {
            assert forall|x: K| ra.to_set().contains(x) implies a.to_set().remove(a[0]).contains(x) by {
                let k = choose|k: int| 0 <= k < ra.len() && ra[k] == x;
                assert(a[k + 1] == x);
            }
            assert forall|x: K| a.to_set().remove(a[0]).contains(x) implies ra.to_set().contains(x) by {
                let k = choose|k: int| 0 <= k < a.len() && a[k] == x;
                assert(k != 0);
                assert(ra[k - 1] == x);
            }
        }
        assert(rb.to_set() =~= b.to_set().remove(b[0])) by {
            assert forall|x: K| rb.to_set().contains(x) implies b.to_set().remove(b[0]).contains(x) by {
                let k = choose|k: int| 0 <= k < rb.len() && rb[k] == x;
                assert(b[k + 1] == x);
            }
            assert forall|x: K| b.to_set().remove(b[0]).contains(x) implies rb.to_set().contains(x) by {
                let k = choose|k: int| 0 <= k < b.len() && b[k] == x;
                assert(k != 0);
                assert(rb[k - 1] == x);
            }
        }
        assert(strictly_increasing(ra)) by {
            assert forall|p: int, q: int| #![trigger ra[p], ra[q]] 0 <= p < q < ra.len() implies ra[p].cmp_spec(&ra[q]) is Less by {
                assert(ra[p] == a[p + 1] && ra[q] == a[q + 1]);
            }
        }
        assert(strictly_increasing(rb)) by {
            assert forall|p: int, q: int| #![trigger rb[p], rb[q]] 0 <= p < q < rb.len() implies rb[p].cmp_spec(&rb[q]) is Less by {
                assert(rb[p] == b[p + 1] && rb[q] == b[q + 1]);
            }
        }
        lemma_increasing_unique(ra, rb);
        assert(a =~= seq![a[0]] + ra);
        assert(b =~= seq![b[0]] + rb);
    }
}

/// An increasing sequence of the elements of `d` is `in_order(d)`.
pub proof fn lemma_in_order<K: Ord>(s: Seq<K>, d: Set<K>)
    requires
        obeys_cmp::<K>(),
        strictly_increasing(s),
        s.to_set() == d,
    ensures
        in_order(d) == s,
{
    let t = in_order(d);
    assert(strictly_increasing(t) && t.to_set() == d);
    lemma_increasing_unique(s, t);
}

/// Of two distinct elements of a type whose order and equality behave, one is less
/// than the other.
proof fn lemma_less_total<K: Ord>(x: K, y: K)
    requires
        obeys_cmp::<K>(),
        obeys_concrete_eq::<K>(),
        x != y,
    ensures
        x.cmp_spec(&y) is Less || y.cmp_spec(&x) is Less,
{
    reveal(obeys_partial_cmp_spec_properties);
    reveal(obeys_cmp_ord);
    reveal(obeys_cmp_partial_ord);
    reveal(obeys_concrete_eq);
    assert(x.partial_cmp_spec(&y) == Some(x.cmp_spec(&y)));
    assert(y.partial_cmp_spec(&x) == Some(y.cmp_spec(&x)));
    assert(!x.eq_spec(&y));
}

/// A finite set that is not empty has a least element.
proof fn lemma_least<K: Ord>(d: Set<K>) -> (m: K)
    requires
        obeys_cmp::<K>(),
        obeys_concrete_eq::<K>(),
        d.finite(),
        d.len() > 0,
    ensures
        d.contains(m),
        forall|x: K| #[trigger] d.contains(x) && x != m ==> m.cmp_spec(&x) is Less,
    decreases d.len(),
{
    let x = d.choose();
    let rest = d.remove(x);
    if rest.len() == 0 {
        assert forall|y: K| #[trigger] d.contains(y) && y != x implies x.cmp_spec(&y) is Less by {
            assert(rest.contains(y));
        }
        x
    } else {
        let m = lemma_least(rest);
        if x.cmp_spec(&m) is Less {
            assert forall|y: K| #[trigger] d.contains(y) && y != x implies x.cmp_spec(&y) is Less by {
                if y != m {
                    assert(rest.contains(y));
                    lemma_less_laws(x, m, y);
                }
            }
            x
        } else {
            lemma_less_total(x, m);
            assert forall|y: K| #[trigger] d.contains(y) && y != m implies m.cmp_spec(&y) is Less by {
                if y != x {
                    assert(rest.contains(y));
                }
            }
            m
        }
    }
}

/// A finite set of a type whose order and equality behave is listed by `in_order` in
/// increasing order.
pub proof fn lemma_in_order_exists<K: Ord>(d: Set<K>)
    requires
        obeys_cmp::<K>(),
        obeys_concrete_eq::<K>(),
        d.finite(),
    ensures
        strictly_increasing(in_order(d)),
        in_order(d).to_set() == d,
    decreases d.len(),
{
    if d.len() == 0 {
        let s = Seq::<K>::empty();
        assert(s.to_set() =~= d);
        assert(strictly_increasing(s));
    } else {
        let m = lemma_least(d);
        let rest = d.remove(m);
        lemma_in_order_exists(rest);
        let r = in_order(rest);
        let s = seq![m] + r;
        assert(strictly_increasing(s)) by {
            assert forall|i: int, j: int| #![trigger s[i], s[j]] 0 <= i < j < s.len() implies s[i].cmp_spec(
                &s[j],
            ) is Less by {
                if i == 0 {
                    assert(r.to_set().contains(r[j - 1]));
                    assert(s[j] == r[j - 1]);
                } else {
                    assert(s[i] == r[i - 1] && s[j] == r[j - 1]);
                }
            }
        }
        assert(s.to_set() =~= d) by {
            assert forall|x: K| s.to_set().contains(x) implies d.contains(x) by {
                let k = choose|k: int| 0 <= k < s.len() && s[k] == x;
                if k > 0 {
                    assert(r[k - 1] == x);
                    assert(r.to_set().contains(x));
                }
            }
            assert forall|x: K| d.contains(x) implies s.to_set().contains(x) by {
                if x == m {
                    assert(s[0] == x);
                } else {
                    assert(rest.contains(x));
                    assert(r.to_set().contains(x));
                    let k = choose|k: int| 0 <= k < r.len() && r[k] == x;
                    assert(s[k + 1] == x);
                }
            }
        }
    }
}

} // verus!
