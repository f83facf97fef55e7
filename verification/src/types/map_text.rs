//! The text of a folded map, `{"map":{..}}` with its entries in order, and how it is
//! read back: an entry's folded key ends at the first `:` where what comes before reads
//! as an object key, and its store key at the first `,` (or the end) where what comes
//! before reads as a store key. Where no object key is a prefix of another and no store
//! key encoding a prefix of another, this reading finds each entry.
use crate::ser::Encode;
use crate::encoding::{
    bytes_equal,
    decimal,
    json_integer,
    json_string,
    lemma_decimal_shape,
    lemma_json_integer_injective,
    lemma_json_string_prefix,
};
use vstd::prelude::*;

verus! {

/// `{"map":{`, which opens the encoding of a folded map.
pub open spec fn map_head() -> Seq<u8> {
    seq![123u8, 34u8, 109u8, 97u8, 112u8, 34u8, 58u8, 123u8]
}

/// `}}`, which closes the encoding of a folded map.
pub open spec fn map_tail() -> Seq<u8> {
    seq![125u8, 125u8]
}

/// How the encoding `e` of a folded key is written as a JSON object key: as it is
/// where it is a JSON string (opens with a quote), else between quotes.
pub open spec fn key_text(e: Seq<u8>) -> Seq<u8> {
    if e.len() > 0 && e[0] == 34u8 {
        e
    } else {
        seq![34u8] + e + seq![34u8]
    }
}

/// One entry of a folded map's encoding: the folded key as an object key, a colon, and
/// the encoding of the store key.
pub open spec fn entry_text<F: Encode, Q: Encode>(folded: F, key: Q) -> Seq<u8> {
    key_text(folded.encoding()) + seq![58u8] + key.encoding()
}

/// The entries of `m` under the keys `ks`, in order, with a comma between each two.
pub open spec fn entries_text<F: Encode, Q: Encode>(ks: Seq<F>, m: Map<F, Q>) -> Seq<u8>
    decreases ks.len(),
{
    if ks.len() == 0 {
        Seq::empty()
    } else if ks.len() == 1 {
        entry_text(ks[0], m[ks[0]])
    } else {
        entries_text(ks.drop_last(), m) + seq![44u8] + entry_text(ks.last(), m[ks.last()])
    }
}

/// No object key written for a value is a prefix of the one written for another value.
pub open spec fn key_texts_apart<F: Encode>() -> bool {
    forall|a: F, b: F|
        #![trigger key_text(a.encoding()), key_text(b.encoding())]
        key_text(a.encoding()).is_prefix_of(key_text(b.encoding())) ==> a == b
}

/// No encoding is a proper prefix of another, and values with equal encodings have
/// equal views.
pub open spec fn encodings_apart<Q: Encode + View>() -> bool {
    forall|a: Q, b: Q|
        #![trigger a.encoding(), b.encoding()]
        a.encoding().is_prefix_of(b.encoding()) ==> a.encoding() == b.encoding() && a@ == b@
}

/// Of two texts that agree on what both hold, the shorter is a prefix of the longer.
proof fn lemma_prefix_of_longer(s: Seq<u8>, t: Seq<u8>, x: Seq<u8>, y: Seq<u8>)
    requires
        s + x == t + y,
        s.len() <= t.len(),
    ensures
        s.is_prefix_of(t),
{
    assert forall|i: int| 0 <= i < s.len() implies s[i] == t[i] by {
        assert((s + x)[i] == s[i]);
        assert((t + y)[i] == t[i]);
        assert((s + x)[i] == (t + y)[i]);
    }
    assert(s =~= t.subrange(0, s.len() as int));
}

/// An object key followed by anything tells the key.
pub proof fn lemma_key_text_split<F: Encode>(a: F, b: F, x: Seq<u8>, y: Seq<u8>)
    requires
        key_texts_apart::<F>(),
        key_text(a.encoding()) + x == key_text(b.encoding()) + y,
    ensures
        a == b,
        x == y,
{
    let ta = key_text(a.encoding());
    let tb = key_text(b.encoding());
    if ta.len() <= tb.len() {
        lemma_prefix_of_longer(ta, tb, x, y);
        assert(a == b);
    } else {
        lemma_prefix_of_longer(tb, ta, y, x);
        assert(b == a);
    }
    assert(x =~= (ta + x).subrange(ta.len() as int, (ta + x).len() as int));
    assert(y =~= (tb + y).subrange(tb.len() as int, (tb + y).len() as int));
}

/// An encoding followed by anything tells the encoding and the view.
pub proof fn lemma_encoding_split<Q: Encode + View>(a: Q, b: Q, x: Seq<u8>, y: Seq<u8>)
    requires
        encodings_apart::<Q>(),
        a.encoding() + x == b.encoding() + y,
    ensures
        a.encoding() == b.encoding(),
        a@ == b@,
        x == y,
{
    let ea = a.encoding();
    let eb = b.encoding();
    if ea.len() <= eb.len() {
        lemma_prefix_of_longer(ea, eb, x, y);
    } else {
        lemma_prefix_of_longer(eb, ea, y, x);
    }
    assert(x =~= (ea + x).subrange(ea.len() as int, (ea + x).len() as int));
    assert(y =~= (eb + y).subrange(eb.len() as int, (eb + y).len() as int));
}

/// The entries' text read from the front: the first entry, then, where there are more,
/// a comma and the text of the rest.
pub proof fn lemma_entries_front<F: Encode, Q: Encode>(ks: Seq<F>, m: Map<F, Q>)
    requires
        ks.len() >= 1,
    ensures
        entries_text(ks, m) == entry_text(ks[0], m[ks[0]]) + (if ks.len() == 1 {
            Seq::<u8>::empty()
        } else {
            seq![44u8] + entries_text(ks.drop_first(), m)
        }),
    decreases ks.len(),
{
    if ks.len() == 1 {
        assert(entry_text(ks[0], m[ks[0]]) + Seq::<u8>::empty() =~= entry_text(ks[0], m[ks[0]]));
    } else if ks.len() == 2 {
        let r = ks.drop_first();
        assert(r.len() == 1 && r[0] == ks.last());
        assert(ks.drop_last().len() == 1 && ks.drop_last()[0] == ks[0]);
        assert(entries_text(ks.drop_last(), m) == entry_text(ks[0], m[ks[0]]));
        assert(entries_text(r, m) == entry_text(ks.last(), m[ks.last()]));
        assert(entries_text(ks, m) =~= entry_text(ks[0], m[ks[0]]) + (seq![44u8] + entries_text(
            r,
            m,
        )));
    } else {
        let d = ks.drop_last();
        lemma_entries_front(d, m);
        let r = ks.drop_first();
        assert(r.drop_last() =~= d.drop_first());
        assert(r.last() == ks.last());
        assert(d[0] == ks[0]);
        assert(entries_text(r, m) == entries_text(r.drop_last(), m) + seq![44u8] + entry_text(
            r.last(),
            m[r.last()],
        ));
        assert(entries_text(ks, m) =~= entry_text(ks[0], m[ks[0]]) + (seq![44u8] + entries_text(
            r,
            m,
        )));
    }
}

/// The entries' text depends on the store keys only through their encodings.
pub proof fn lemma_entries_congruent<F: Encode, Q: Encode>(
    ks: Seq<F>,
    m1: Map<F, Q>,
    m2: Map<F, Q>,
)
    requires
        forall|i: int| 0 <= i < ks.len() ==> #[trigger] m1[ks[i]].encoding() == m2[ks[i]].encoding(),
    ensures
        entries_text(ks, m1) == entries_text(ks, m2),
    decreases ks.len(),
{
    if ks.len() >= 1 {
        let d = ks.drop_last();
        assert forall|i: int| 0 <= i < d.len() implies #[trigger] m1[d[i]].encoding()
            == m2[d[i]].encoding() by {
            assert(d[i] == ks[i]);
        }
        lemma_entries_congruent(d, m1, m2);
        assert(m1[ks[ks.len() - 1]].encoding() == m2[ks[ks.len() - 1]].encoding());
        assert(m1[ks[0]].encoding() == m2[ks[0]].encoding());
    }
}

/// The text of at least one entry is not empty.
pub proof fn lemma_entries_nonempty<F: Encode, Q: Encode>(ks: Seq<F>, m: Map<F, Q>)
    ensures
        (entries_text(ks, m).len() == 0) == (ks.len() == 0),
{
    if ks.len() >= 1 {
        lemma_entries_front(ks, m);
        assert(key_text(ks[0].encoding()).len() > 0);
    }
}

/// An entry followed by anything tells its folded key, and the encoding and view of
/// its store key.
proof fn lemma_entry_split<F: Encode, Q: Encode + View>(
    a: F,
    ka: Q,
    x: Seq<u8>,
    b: F,
    kb: Q,
    y: Seq<u8>,
)
    requires
        key_texts_apart::<F>(),
        encodings_apart::<Q>(),
        entry_text(a, ka) + x == entry_text(b, kb) + y,
    ensures
        a == b,
        ka.encoding() == kb.encoding(),
        ka@ == kb@,
        x == y,
{
    let t1 = seq![58u8] + ka.encoding() + x;
    let t2 = seq![58u8] + kb.encoding() + y;
    assert(key_text(a.encoding()) + t1 =~= entry_text(a, ka) + x);
    assert(key_text(b.encoding()) + t2 =~= entry_text(b, kb) + y);
    lemma_key_text_split(a, b, t1, t2);
    assert(ka.encoding() + x =~= t1.drop_first());
    assert(kb.encoding() + y =~= t2.drop_first());
    lemma_encoding_split(ka, kb, x, y);
}

/// Equal entries' texts list the same keys, with store keys of equal encodings and
/// views.
pub proof fn lemma_entries_apart<F: Encode, Q: Encode + View>(
    ks1: Seq<F>,
    m1: Map<F, Q>,
    ks2: Seq<F>,
    m2: Map<F, Q>,
)
    requires
        key_texts_apart::<F>(),
        encodings_apart::<Q>(),
        entries_text(ks1, m1) == entries_text(ks2, m2),
    ensures
        ks1 == ks2,
        forall|i: int|
            0 <= i < ks1.len() ==> #[trigger] m1[ks1[i]].encoding() == m2[ks1[i]].encoding()
                && m1[ks1[i]]@ == m2[ks1[i]]@,
    decreases ks1.len(),
{
    lemma_entries_nonempty(ks1, m1);
    lemma_entries_nonempty(ks2, m2);
    if ks1.len() == 0 {
        assert(ks1 =~= ks2);
    } else {
        lemma_entries_front(ks1, m1);
        lemma_entries_front(ks2, m2);
        let a = ks1[0];
        let b = ks2[0];
        let r1 = if ks1.len() == 1 {
            Seq::<u8>::empty()
        } else {
            seq![44u8] + entries_text(ks1.drop_first(), m1)
        };
        let r2 = if ks2.len() == 1 {
            Seq::<u8>::empty()
        } else {
            seq![44u8] + entries_text(ks2.drop_first(), m2)
        };
        lemma_entry_split(a, m1[a], r1, b, m2[b], r2);
        if ks1.len() == 1 || ks2.len() == 1 {
            assert(r1.len() == 0 && r2.len() == 0);
            assert(ks1.len() == 1 && ks2.len() == 1);
            assert(ks1 =~= ks2);
        } else {
            assert(entries_text(ks1.drop_first(), m1) =~= r1.drop_first());
            assert(entries_text(ks2.drop_first(), m2) =~= r2.drop_first());
            lemma_entries_apart(ks1.drop_first(), m1, ks2.drop_first(), m2);
            assert(ks1 =~= seq![a] + ks1.drop_first());
            assert(ks2 =~= seq![b] + ks2.drop_first());
            assert forall|i: int| 0 <= i < ks1.len() implies #[trigger] m1[ks1[i]].encoding()
                == m2[ks1[i]].encoding() && m1[ks1[i]]@ == m2[ks1[i]]@ by {
                if i > 0 {
                    assert(ks1[i] == ks1.drop_first()[i - 1]);
                }
            }
        }
    }
}

/// Whether `text` is the object key written for the encoding `e`.
fn key_text_is(e: &[u8], text: &[u8]) -> (is: bool)
    ensures
        is == (key_text(e@) == text@),
{
    if e.len() > 0 && e[0] == 34u8 {
        bytes_equal(e, text)
    } else {
        let n = text.len();
        let ghost quoted = seq![34u8] + e@ + seq![34u8];
        assert(key_text(e@) == quoted);
        if n < 2 || text[0] != 34u8 || text[n - 1] != 34u8 {
            assert(quoted[0] == 34u8 && quoted[quoted.len() - 1] == 34u8);
            return false;
        }
        let inner = vstd::slice::slice_subrange(text, 1, n - 1);
        let same = bytes_equal(inner, e);
        proof {
            if same {
                assert(text@ =~= quoted);
            } else if key_text(e@) == text@ {
                assert(inner@ =~= e@);
            }
        }
        same
    }
}

/// Decodes a folded key written as a JSON object key: a value whose object key is
/// `text`, read from `text` itself or from what stands between its quotes.
fn decode_key<F: Encode>(text: &[u8]) -> (res: Option<F>)
    ensures
        F::encodes() ==> (res matches Some(v) ==> key_text(v.encoding()) == text@),
        F::encodes() && F::decodes_all() && (exists|v: F| key_text(v.encoding()) == text@)
            ==> res is Some,
{
    let ghost readable = F::encodes() && F::decodes_all() && exists|v: F|
        key_text(v.encoding()) == text@;
    let ghost w = choose|v: F| key_text(v.encoding()) == text@;
    match F::decode(text) {
        Some(v) => {
            let e = v.encode();
            if key_text_is(e.as_slice(), text) {
                return Some(v);
            }
            proof {
                if readable && w.encoding().len() > 0 && w.encoding()[0] == 34u8 {
                    assert(v.encoding() == text@);
                    assert(key_text(e@) == text@);
                }
            }
        },
        None => {
            proof {
                if readable && w.encoding().len() > 0 && w.encoding()[0] == 34u8 {
                    assert(w.encoding() == text@);
                }
            }
        },
    }
    let n = text.len();
    if n < 2 {
        proof {
            if readable {
                assert(key_text(w.encoding()).len() >= 2);
            }
        }
        return None;
    }
    let inner = vstd::slice::slice_subrange(text, 1, n - 1);
    proof {
        if readable {
            assert(inner@ =~= w.encoding());
        }
    }
    match F::decode(inner) {
        Some(v) => {
            let e = v.encode();
            if key_text_is(e.as_slice(), text) {
                Some(v)
            } else {
                None
            }
        },
        None => None,
    }
}

/// Reads the folded key of an entry that starts at `pos`: the first `:` past `pos`
/// where what comes before reads as an object key. Gives the position of that `:` and
/// the key.
pub(crate) fn read_key_at<F: Encode>(mid: &[u8], pos: usize) -> (res: Option<(usize, F)>)
    requires
        pos < mid@.len(),
    ensures
        res matches Some((p, f)) ==> pos < p < mid@.len() && mid@[p as int] == 58u8 && (
        F::encodes() ==> key_text(f.encoding()) == mid@.subrange(pos as int, p as int)),
        forall|g: F|
            #![trigger key_text(g.encoding())]
            F::encodes() && F::decodes_all() && key_texts_apart::<F>() && pos + key_text(
                g.encoding(),
            ).len() < mid@.len() && mid@.subrange(
                pos as int,
                pos + key_text(g.encoding()).len(),
            ) == key_text(g.encoding()) && mid@[pos + key_text(g.encoding()).len()] == 58u8
                ==> res == Some(((pos + key_text(g.encoding()).len()) as usize, g)),
{
    let n = mid.len();
    let mut p = pos + 1;
    while p < n
        invariant
            pos < p <= n,
            n == mid@.len(),
            forall|v: F, q: int|
                #![trigger key_text(v.encoding()), mid@.subrange(pos as int, q)]
                pos < q < p && F::encodes() && F::decodes_all() && key_text(v.encoding())
                    == mid@.subrange(pos as int, q) ==> mid@[q] != 58u8,
        decreases n - p,
    {
        if mid[p] == 58u8 {
            let text = vstd::slice::slice_subrange(mid, pos, p);
            match decode_key::<F>(text) {
                Some(f) => {
                    proof {
                        assert forall|g: F|
                            F::encodes() && F::decodes_all() && key_texts_apart::<F>() && pos
                                + key_text(g.encoding()).len() < mid@.len() && mid@.subrange(
                                pos as int,
                                pos + key_text(g.encoding()).len(),
                            ) == key_text(g.encoding()) && mid@[pos + key_text(
                                g.encoding(),
                            ).len()] == 58u8 implies Some((p, f)) == Some(
                            ((pos + key_text(g.encoding()).len()) as usize, g),
                        ) by {
                            let kf = key_text(f.encoding());
                            let kg = key_text(g.encoding());
                            let l = kg.len() as int;
                            if p - pos <= l {
                                assert(kf =~= kg.subrange(0, p - pos));
                                assert(kf.is_prefix_of(kg));
                            } else {
                                assert(kg =~= kf.subrange(0, l));
                                assert(kg.is_prefix_of(kf));
                            }
                        }
                    }
                    return Some((p, f));
                },
                None => {},
            }
        }
        p = p + 1;
    }
    proof {
        assert forall|g: F|
            F::encodes() && F::decodes_all() && key_texts_apart::<F>() && pos + key_text(
                g.encoding(),
            ).len() < mid@.len() && mid@.subrange(
                pos as int,
                pos + key_text(g.encoding()).len(),
            ) == key_text(g.encoding()) && mid@[pos + key_text(g.encoding()).len()] == 58u8
            implies false by {
            let q = pos + key_text(g.encoding()).len();
            assert(key_text(g.encoding()).len() > 0);
            assert(key_text(g.encoding()) == mid@.subrange(pos as int, q));
        }
    }
    None
}

/// Reads the store key of an entry whose store key starts at `start`: the first place,
/// from `start` on, that is the end or a `,` and where what comes before reads as a store
/// key. Gives that place and the key.
pub(crate) fn read_value_at<Q: Encode + View>(mid: &[u8], start: usize) -> (res: Option<(usize, Q)>)
    requires
        start <= mid@.len(),
    ensures
        res matches Some((q, k)) ==> start <= q <= mid@.len() && (q == mid@.len() || mid@[q as int]
            == 44u8) && (Q::encodes() ==> k.encoding() == mid@.subrange(start as int, q as int)),
        forall|k0: Q|
            #![trigger k0.encoding()]
            Q::encodes() && Q::decodes_all() && encodings_apart::<Q>() && start
                + k0.encoding().len() <= mid@.len() && mid@.subrange(
                start as int,
                start + k0.encoding().len(),
            ) == k0.encoding() && (start + k0.encoding().len() == mid@.len() || mid@[start
                + k0.encoding().len()] == 44u8) ==> (res matches Some((q, k)) && q == start
                + k0.encoding().len() && k.encoding() == k0.encoding() && k@ == k0@),
{
    let n = mid.len();
    let mut q = start;
    loop
        invariant
            start <= q <= n,
            n == mid@.len(),
            forall|v: Q, r: int|
                #![trigger v.encoding(), mid@.subrange(start as int, r)]
                start <= r < q && Q::encodes() && Q::decodes_all() && v.encoding()
                    == mid@.subrange(start as int, r) ==> !(r == n || mid@[r] == 44u8),
        decreases n - q,
    {
        if q == n || mid[q] == 44u8 {
            let text = vstd::slice::slice_subrange(mid, start, q);
            match Q::decode(text) {
                Some(k) => {
                    proof {
                        assert forall|k0: Q|
                            Q::encodes() && Q::decodes_all() && encodings_apart::<Q>() && start
                                + k0.encoding().len() <= mid@.len() && mid@.subrange(
                                start as int,
                                start + k0.encoding().len(),
                            ) == k0.encoding() && (start + k0.encoding().len() == mid@.len()
                                || mid@[start + k0.encoding().len()] == 44u8) implies q == start
                            + k0.encoding().len() && k.encoding() == k0.encoding() && k@ == k0@ by {
                            let ek = k.encoding();
                            let e0 = k0.encoding();
                            let r0 = start + e0.len();
                            if q <= r0 {
                                assert(ek =~= e0.subrange(0, q - start));
                                assert(ek.is_prefix_of(e0));
                            } else {
                                assert(e0 =~= ek.subrange(0, e0.len() as int));
                                assert(e0.is_prefix_of(ek));
                            }
                        }
                    }
                    return Some((q, k));
                },
                None => {},
            }
        }
        if q == n {
            proof {
                assert forall|k0: Q|
                    Q::encodes() && Q::decodes_all() && encodings_apart::<Q>() && start
                        + k0.encoding().len() <= mid@.len() && mid@.subrange(
                        start as int,
                        start + k0.encoding().len(),
                    ) == k0.encoding() && (start + k0.encoding().len() == mid@.len() || mid@[start
                        + k0.encoding().len()] == 44u8) implies false by {
                    let r = start + k0.encoding().len();
                    assert(k0.encoding() == mid@.subrange(start as int, r));
                    if r == n {
                        assert(mid@.subrange(start as int, q as int) == k0.encoding());
                    }
                }
            }
            return None;
        }
        q = q + 1;
    }
}

/// Object keys are apart where encodings hold no quote and distinct values have
/// distinct encodings: each key is its encoding between quotes.
pub proof fn lemma_key_texts_apart_quoted<F: Encode>()
    requires
        forall|a: F, i: int| 0 <= i < a.encoding().len() ==> #[trigger] a.encoding()[i] != 34u8,
        forall|a: F, b: F| #[trigger] a.encoding() == #[trigger] b.encoding() ==> a == b,
    ensures
        key_texts_apart::<F>(),
{
    assert forall|a: F, b: F|
        key_text(a.encoding()).is_prefix_of(key_text(b.encoding())) implies a == b by {
        let da = a.encoding();
        let db = b.encoding();
        if da.len() > 0 {
            assert(da[0] != 34u8);
        }
        if db.len() > 0 {
            assert(db[0] != 34u8);
        }
        let ta = key_text(da);
        let tb = key_text(db);
        assert(ta == seq![34u8] + da + seq![34u8]);
        assert(tb == seq![34u8] + db + seq![34u8]);
        assert(ta[da.len() + 1int] == 34u8);
        if da.len() < db.len() {
            assert(tb[da.len() + 1int] == db[da.len() as int]);
            assert(ta[da.len() + 1int] == tb[da.len() + 1int]);
        }
        assert(da.len() == db.len());
        assert forall|i: int| 0 <= i < da.len() implies da[i] == db[i] by {
            assert(ta[i + 1] == da[i]);
            assert(tb[i + 1] == db[i]);
            assert(ta[i + 1] == tb[i + 1]);
        }
        assert(da =~= db);
    }
}

/// The JSON text of an integer holds no quote.
proof fn lemma_json_integer_unquoted(n: int)
    ensures
        forall|i: int| 0 <= i < json_integer(n).len() ==> #[trigger] json_integer(n)[i] != 34u8,
{
    if n < 0 {
        lemma_decimal_shape((-n) as nat);
        assert forall|i: int| 0 <= i < json_integer(n).len() implies #[trigger] json_integer(n)[i]
            != 34u8 by {
            if i > 0 {
                assert(json_integer(n)[i] == decimal((-n) as nat)[i - 1]);
            }
        }
    } else {
        lemma_decimal_shape(n as nat);
    }
}

/// Object keys written for `u64` values are apart: a quote, the digits, a quote.
pub proof fn lemma_key_texts_apart_u64()
    ensures
        key_texts_apart::<u64>(),
{
    assert forall|a: u64, i: int| 0 <= i < a.encoding().len() implies #[trigger] a.encoding()[i]
        != 34u8 by {
        lemma_json_integer_unquoted(a as int);
    }
    assert forall|a: u64, b: u64| #[trigger] a.encoding() == #[trigger] b.encoding() implies a == b by {
        lemma_json_integer_injective(a as int, b as int);
    }
    lemma_key_texts_apart_quoted::<u64>();
}

/// Object keys written for `i64` values are apart: a quote, the sign and digits, a quote.
pub proof fn lemma_key_texts_apart_i64()
    ensures
        key_texts_apart::<i64>(),
{
    assert forall|a: i64, i: int| 0 <= i < a.encoding().len() implies #[trigger] a.encoding()[i]
        != 34u8 by {
        lemma_json_integer_unquoted(a as int);
    }
    assert forall|a: i64, b: i64| #[trigger] a.encoding() == #[trigger] b.encoding() implies a == b by {
        lemma_json_integer_injective(a as int, b as int);
    }
    lemma_key_texts_apart_quoted::<i64>();
}

/// Strings are encoded apart: no JSON string is a proper prefix of another.
pub proof fn lemma_encodings_apart_string()
    ensures
        encodings_apart::<String>(),
{
    assert forall|a: String, b: String| a.encoding().is_prefix_of(b.encoding()) implies a.encoding()
        == b.encoding() && a@ == b@ by {
        let ea = json_string(a@);
        let eb = json_string(b@);
        let rest = eb.subrange(ea.len() as int, eb.len() as int);
        assert(ea + rest =~= eb + Seq::<u8>::empty());
        lemma_json_string_prefix(a@, b@, rest, Seq::<u8>::empty());
    }
}

} // verus!
