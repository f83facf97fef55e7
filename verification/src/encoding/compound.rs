//! Encodings of tuples, `Result` and `Option`, as `serde_json` writes them: a tuple as a
//! JSON array, `[a,b]`; a `Result` as a one-entry object, `{"Ok":v}` or `{"Err":e}`; an
//! `Option` as the variants of an enum, the string `"None"` or `{"Some":v}`.
use crate::encoding::{bytes_equal, json_integer, lemma_decimal_shape};
use crate::ser::{faithful_encoding, Encode};
use vstd::prelude::*;

verus! {

/// The encoding of an `A` followed by a comma ends at the first such comma: no encoding
/// of an `A`, followed by a comma, is a proper prefix of another followed by a comma.
/// Without this, the parts of a tuple's encoding could be split in more than one way.
pub open spec fn ends_before_comma<A: Encode>() -> bool {
    forall|a1: A, a2: A, x: Seq<u8>, y: Seq<u8>|
        #[trigger] (a1.encoding() + seq![44u8] + x) == #[trigger] (a2.encoding() + seq![44u8] + y)
            ==> a1.encoding() == a2.encoding()
}

/// `bytes` are the encoding of `a`, a comma, and the encoding of `b`.
pub open spec fn is_pair<A: Encode, B: Encode>(bytes: Seq<u8>, a: A, b: B) -> bool {
    a.encoding() + seq![44u8] + b.encoding() == bytes
}

/// Decodes `bytes` as the encoding of an `A`, a comma and the encoding of a `B`, trying
/// each comma in turn as the one between them.
pub fn decode_pair<A: Encode, B: Encode>(bytes: &[u8]) -> (res: Option<(A, B)>)
    ensures
        A::encodes() && B::encodes() ==> (res matches Some((a, b)) ==> is_pair(bytes@, a, b)),
        A::encodes() && B::encodes() && A::decodes_all() && B::decodes_all() ==> ((exists|a: A, b: B| #[trigger] is_pair(bytes@, a, b))
            ==> res is Some),
{
    let mut p: usize = 0;
    while p < bytes.len()
        invariant
            p <= bytes@.len(),
            A::encodes() && B::encodes() && A::decodes_all() && B::decodes_all() ==> forall|a: A, b: B|
                #[trigger] is_pair(bytes@, a, b) ==> a.encoding().len() >= p,
        decreases bytes@.len() - p,
    {
        if bytes[p] == 44u8 {
            let left = vstd::slice::slice_subrange(bytes, 0, p);
            let right = vstd::slice::slice_subrange(bytes, p + 1, bytes.len());
            assert(bytes@ =~= left@ + seq![44u8] + right@);
            let da = A::decode(left);
            let db = B::decode(right);
            match (da, db) {
                (Some(a), Some(b)) => {
                    return Some((a, b));
                },
                _ => {},
            }
            proof {
                if A::encodes() && B::encodes() && A::decodes_all() && B::decodes_all() {
                    assert forall|a: A, b: B| #[trigger] is_pair(bytes@, a, b) implies a.encoding().len()
                        >= p + 1 by {
                        if a.encoding().len() == p {
                            let whole = a.encoding() + seq![44u8] + b.encoding();
                            assert(a.encoding() =~= whole.subrange(0, p as int));
                            assert(b.encoding() =~= whole.subrange(p + 1, whole.len() as int));
                            assert(left@ =~= bytes@.subrange(0, p as int));
                            assert(right@ =~= bytes@.subrange(p + 1, bytes@.len() as int));
                            assert(a.encoding() == left@);
                            assert(b.encoding() == right@);
                        }
                    }
                }
            }
        } else {
            proof {
                if A::encodes() && B::encodes() && A::decodes_all() && B::decodes_all() {
                    assert forall|a: A, b: B| #[trigger] is_pair(bytes@, a, b) implies a.encoding().len()
                        >= p + 1 by {
                        if a.encoding().len() == p {
                            let whole = a.encoding() + seq![44u8] + b.encoding();
                            assert(whole[p as int] == 44u8);
                        }
                    }
                }
            }
        }
        p = p + 1;
    }
    proof {
        if A::encodes() && B::encodes() && A::decodes_all() && B::decodes_all() {
            assert forall|a: A, b: B| #[trigger] is_pair(bytes@, a, b) implies false by {
                assert((a.encoding() + seq![44u8] + b.encoding()).len() > a.encoding().len());
            }
        }
    }
    None
}

/// `bytes` are an opening bracket, `inner` and a closing bracket.
pub open spec fn bracketed(inner: Seq<u8>) -> Seq<u8> {
    seq![91u8] + inner + seq![93u8]
}

/// The bytes between the first and the last of `bytes`, where there are at least two
/// and they are `[` and `]`.
fn strip_brackets(bytes: &[u8]) -> (inner: Option<&[u8]>)
    ensures
        match inner {
            Some(i) => bytes@ == bracketed(i@),
            None => forall|x: Seq<u8>| bytes@ != #[trigger] bracketed(x),
        },
{
    let n = bytes.len();
    if n >= 2 && bytes[0] == 91u8 && bytes[n - 1] == 93u8 {
        let inner = vstd::slice::slice_subrange(bytes, 1, n - 1);
        assert(bytes@ =~= bracketed(inner@));
        Some(inner)
    } else {
        proof {
            assert forall|x: Seq<u8>| bytes@ != #[trigger] bracketed(x) by {
                if bytes@ == bracketed(x) {
                    assert(bracketed(x)[0] == 91u8);
                    assert(bracketed(x)[bracketed(x).len() - 1] == 93u8);
                }
            }
        }
        None
    }
}

/// Appends the bytes of `b` to `v`.
fn append_bytes(v: &mut Vec<u8>, b: Vec<u8>)
    ensures
        final(v)@ == old(v)@ + b@,
{
    let mut b = b;
    v.append(&mut b);
}

impl<A: Encode, B: Encode> Encode for (A, B) {
    open spec fn encodes() -> bool {
        A::encodes() && B::encodes()
    }

    open spec fn decodes_all() -> bool {
        A::encodes() && B::encodes() && A::decodes_all() && B::decodes_all()
    }

    open spec fn encoding(&self) -> Seq<u8> {
        bracketed(self.0.encoding() + seq![44u8] + self.1.encoding())
    }

    fn encode(&self) -> (bytes: Vec<u8>) {
        let mut bytes: Vec<u8> = Vec::new();
        bytes.push(91u8);
        append_bytes(&mut bytes, self.0.encode());
        bytes.push(44u8);
        append_bytes(&mut bytes, self.1.encode());
        bytes.push(93u8);
        proof {
            if Self::encodes() {
                assert(bytes@ =~= self.encoding());
            }
        }
        bytes
    }

    fn decode(bytes: &[u8]) -> (res: Option<(A, B)>) {
        match strip_brackets(bytes) {
            Some(inner) => {
                proof {
                    if Self::decodes_all() && exists|v: (A, B)| v.encoding() == bytes@ {
                        let v = choose|v: (A, B)| v.encoding() == bytes@;
                        assert(bracketed(inner@) == bracketed(v.0.encoding() + seq![44u8] + v.1.encoding()));
                        let x = v.0.encoding() + seq![44u8] + v.1.encoding();
                        assert(inner@ =~= bracketed(inner@).subrange(1, bracketed(inner@).len() - 1));
                        assert(x =~= bracketed(x).subrange(1, bracketed(x).len() - 1));
                        assert(is_pair(inner@, v.0, v.1));
                    }
                }
                decode_pair::<A, B>(inner)
            },
            None => None,
        }
    }
}

/// A pair of faithfully encoded types, the first of which ends before a comma, is
/// faithfully encoded.
pub proof fn lemma_faithful_tuple2<A: Encode, B: Encode>()
    requires
        faithful_encoding::<A>(),
        faithful_encoding::<B>(),
        ends_before_comma::<A>(),
    ensures
        faithful_encoding::<(A, B)>(),
{
    assert forall|p: (A, B), q: (A, B)| #[trigger] p.encoding() == #[trigger] q.encoding() implies p
        == q by {
        let ip = p.0.encoding() + seq![44u8] + p.1.encoding();
        let iq = q.0.encoding() + seq![44u8] + q.1.encoding();
        assert(ip =~= bracketed(ip).subrange(1, bracketed(ip).len() - 1));
        assert(iq =~= bracketed(iq).subrange(1, bracketed(iq).len() - 1));
        assert(ip == iq);
        assert(p.0.encoding() == q.0.encoding());
        assert(p.1.encoding() =~= ip.subrange(p.0.encoding().len() as int + 1, ip.len() as int));
        assert(q.1.encoding() =~= iq.subrange(q.0.encoding().len() as int + 1, iq.len() as int));
    }
}

/// `bytes` are the encodings of `a`, `b` and `c`, with a comma between each two.
pub open spec fn is_triple<A: Encode, B: Encode, C: Encode>(bytes: Seq<u8>, a: A, b: B, c: C) -> bool {
    a.encoding() + seq![44u8] + (b.encoding() + seq![44u8] + c.encoding()) == bytes
}

/// Decodes `bytes` as the encodings of an `A`, a `B` and a `C` with commas between them,
/// trying each comma in turn as the one after the `A`.
pub fn decode_triple<A: Encode, B: Encode, C: Encode>(bytes: &[u8]) -> (res: Option<(A, B, C)>)
    ensures
        A::encodes() && B::encodes() && C::encodes() ==> (res matches Some((a, b, c)) ==> is_triple(
            bytes@,
            a,
            b,
            c,
        )),
        A::encodes() && B::encodes() && C::encodes() && A::decodes_all() && B::decodes_all() && C::decodes_all() ==> ((exists|a: A, b: B, c: C|
            #[trigger] is_triple(bytes@, a, b, c)) ==> res is Some),
{
    let mut p: usize = 0;
    while p < bytes.len()
        invariant
            p <= bytes@.len(),
            A::encodes() && B::encodes() && C::encodes() && A::decodes_all() && B::decodes_all() && C::decodes_all() ==> forall|a: A, b: B, c: C|
                #[trigger] is_triple(bytes@, a, b, c) ==> a.encoding().len() >= p,
        decreases bytes@.len() - p,
    {
        if bytes[p] == 44u8 {
            let left = vstd::slice::slice_subrange(bytes, 0, p);
            let right = vstd::slice::slice_subrange(bytes, p + 1, bytes.len());
            assert(bytes@ =~= left@ + seq![44u8] + right@);
            let da = A::decode(left);
            let dbc = decode_pair::<B, C>(right);
            match (da, dbc) {
                (Some(a), Some((b, c))) => {
                    return Some((a, b, c));
                },
                _ => {},
            }
            proof {
                if A::encodes() && B::encodes() && C::encodes() && A::decodes_all() && B::decodes_all() && C::decodes_all() {
                    assert forall|a: A, b: B, c: C| #[trigger] is_triple(bytes@, a, b, c) implies a.encoding().len()
                        >= p + 1 by {
                        if a.encoding().len() == p {
                            let rest = b.encoding() + seq![44u8] + c.encoding();
                            let whole = a.encoding() + seq![44u8] + rest;
                            assert(a.encoding() =~= whole.subrange(0, p as int));
                            assert(rest =~= whole.subrange(p + 1, whole.len() as int));
                            assert(left@ =~= bytes@.subrange(0, p as int));
                            assert(right@ =~= bytes@.subrange(p + 1, bytes@.len() as int));
                            assert(a.encoding() == left@);
                            assert(is_pair(right@, b, c));
                        }
                    }
                }
            }
        } else {
            proof {
                if A::encodes() && B::encodes() && C::encodes() && A::decodes_all() && B::decodes_all() && C::decodes_all() {
                    assert forall|a: A, b: B, c: C| #[trigger] is_triple(bytes@, a, b, c) implies a.encoding().len()
                        >= p + 1 by {
                        if a.encoding().len() == p {
                            let whole = a.encoding() + seq![44u8] + (b.encoding() + seq![44u8]
                                + c.encoding());
                            assert(whole[p as int] == 44u8);
                        }
                    }
                }
            }
        }
        p = p + 1;
    }
    proof {
        if A::encodes() && B::encodes() && C::encodes() && A::decodes_all() && B::decodes_all() && C::decodes_all() {
            assert forall|a: A, b: B, c: C| #[trigger] is_triple(bytes@, a, b, c) implies false by {
                assert((a.encoding() + seq![44u8] + (b.encoding() + seq![44u8] + c.encoding())).len()
                    > a.encoding().len());
            }
        }
    }
    None
}

impl<A: Encode, B: Encode, C: Encode> Encode for (A, B, C) {
    open spec fn encodes() -> bool {
        A::encodes() && B::encodes() && C::encodes()
    }

    open spec fn decodes_all() -> bool {
        A::encodes() && B::encodes() && C::encodes() && A::decodes_all() && B::decodes_all() && C::decodes_all()
    }

    open spec fn encoding(&self) -> Seq<u8> {
        bracketed(self.0.encoding() + seq![44u8] + (self.1.encoding() + seq![44u8] + self.2.encoding()))
    }

    fn encode(&self) -> (bytes: Vec<u8>) {
        let mut bytes: Vec<u8> = Vec::new();
        bytes.push(91u8);
        append_bytes(&mut bytes, self.0.encode());
        bytes.push(44u8);
        append_bytes(&mut bytes, self.1.encode());
        bytes.push(44u8);
        append_bytes(&mut bytes, self.2.encode());
        bytes.push(93u8);
        proof {
            if Self::encodes() {
                assert(bytes@ =~= self.encoding());
            }
        }
        bytes
    }

    fn decode(bytes: &[u8]) -> (res: Option<(A, B, C)>) {
        match strip_brackets(bytes) {
            Some(inner) => {
                proof {
                    if Self::decodes_all() && exists|v: (A, B, C)| v.encoding() == bytes@ {
                        let v = choose|v: (A, B, C)| v.encoding() == bytes@;
                        let x = v.0.encoding() + seq![44u8] + (v.1.encoding() + seq![44u8]
                            + v.2.encoding());
                        assert(inner@ =~= bracketed(inner@).subrange(1, bracketed(inner@).len() - 1));
                        assert(x =~= bracketed(x).subrange(1, bracketed(x).len() - 1));
                        assert(is_triple(inner@, v.0, v.1, v.2));
                    }
                }
                decode_triple::<A, B, C>(inner)
            },
            None => None,
        }
    }
}

/// A triple of faithfully encoded types, the first two of which end before a comma, is
/// faithfully encoded.
pub proof fn lemma_faithful_tuple3<A: Encode, B: Encode, C: Encode>()
    requires
        faithful_encoding::<A>(),
        faithful_encoding::<B>(),
        faithful_encoding::<C>(),
        ends_before_comma::<A>(),
        ends_before_comma::<B>(),
    ensures
        faithful_encoding::<(A, B, C)>(),
{
    assert forall|p: (A, B, C), q: (A, B, C)| #[trigger] p.encoding() == #[trigger] q.encoding()
        implies p == q by {
        let rp = p.1.encoding() + seq![44u8] + p.2.encoding();
        let rq = q.1.encoding() + seq![44u8] + q.2.encoding();
        let ip = p.0.encoding() + seq![44u8] + rp;
        let iq = q.0.encoding() + seq![44u8] + rq;
        assert(ip =~= bracketed(ip).subrange(1, bracketed(ip).len() - 1));
        assert(iq =~= bracketed(iq).subrange(1, bracketed(iq).len() - 1));
        assert(ip == iq);
        assert(p.0.encoding() == q.0.encoding());
        assert(rp =~= ip.subrange(p.0.encoding().len() as int + 1, ip.len() as int));
        assert(rq =~= iq.subrange(q.0.encoding().len() as int + 1, iq.len() as int));
        assert(rp == rq);
        assert(p.1.encoding() == q.1.encoding());
        assert(p.2.encoding() =~= rp.subrange(p.1.encoding().len() as int + 1, rp.len() as int));
        assert(q.2.encoding() =~= rq.subrange(q.1.encoding().len() as int + 1, rq.len() as int));
    }
}

/// `bytes` are the encodings of `a`, `b`, `c` and `d`, with a comma between each two.
pub open spec fn is_quad<A: Encode, B: Encode, C: Encode, D: Encode>(
    bytes: Seq<u8>,
    a: A,
    b: B,
    c: C,
    d: D,
) -> bool {
    a.encoding() + seq![44u8] + (b.encoding() + seq![44u8] + (c.encoding() + seq![44u8]
        + d.encoding())) == bytes
}

/// Decodes `bytes` as the encodings of an `A`, a `B`, a `C` and a `D` with commas
/// between them, trying each comma in turn as the one after the `A`.
pub fn decode_quad<A: Encode, B: Encode, C: Encode, D: Encode>(bytes: &[u8]) -> (res: Option<
    (A, B, C, D),
>)
    ensures
        A::encodes() && B::encodes() && C::encodes() && D::encodes() ==> (res matches Some(
            (a, b, c, d),
        ) ==> is_quad(bytes@, a, b, c, d)),
        A::encodes() && B::encodes() && C::encodes() && D::encodes() && A::decodes_all() && B::decodes_all() && C::decodes_all() && D::decodes_all() ==> ((exists|
            a: A,
            b: B,
            c: C,
            d: D,
        | #[trigger] is_quad(bytes@, a, b, c, d)) ==> res is Some),
{
    let mut p: usize = 0;
    while p < bytes.len()
        invariant
            p <= bytes@.len(),
            A::encodes() && B::encodes() && C::encodes() && D::encodes() && A::decodes_all() && B::decodes_all() && C::decodes_all() && D::decodes_all() ==> forall|
                a: A,
                b: B,
                c: C,
                d: D,
            | #[trigger] is_quad(bytes@, a, b, c, d) ==> a.encoding().len() >= p,
        decreases bytes@.len() - p,
    {
        if bytes[p] == 44u8 {
            let left = vstd::slice::slice_subrange(bytes, 0, p);
            let right = vstd::slice::slice_subrange(bytes, p + 1, bytes.len());
            assert(bytes@ =~= left@ + seq![44u8] + right@);
            let da = A::decode(left);
            let dbcd = decode_triple::<B, C, D>(right);
            match (da, dbcd) {
                (Some(a), Some((b, c, d))) => {
                    return Some((a, b, c, d));
                },
                _ => {},
            }
            proof {
                if A::encodes() && B::encodes() && C::encodes() && D::encodes() && A::decodes_all() && B::decodes_all() && C::decodes_all() && D::decodes_all() {
                    assert forall|a: A, b: B, c: C, d: D| #[trigger]
                        is_quad(bytes@, a, b, c, d) implies a.encoding().len() >= p + 1 by {
                        if a.encoding().len() == p {
                            let rest = b.encoding() + seq![44u8] + (c.encoding() + seq![44u8]
                                + d.encoding());
                            let whole = a.encoding() + seq![44u8] + rest;
                            assert(a.encoding() =~= whole.subrange(0, p as int));
                            assert(rest =~= whole.subrange(p + 1, whole.len() as int));
                            assert(left@ =~= bytes@.subrange(0, p as int));
                            assert(right@ =~= bytes@.subrange(p + 1, bytes@.len() as int));
                            assert(a.encoding() == left@);
                            assert(is_triple(right@, b, c, d));
                        }
                    }
                }
            }
        } else {
            proof {
                if A::encodes() && B::encodes() && C::encodes() && D::encodes() && A::decodes_all() && B::decodes_all() && C::decodes_all() && D::decodes_all() {
                    assert forall|a: A, b: B, c: C, d: D| #[trigger]
                        is_quad(bytes@, a, b, c, d) implies a.encoding().len() >= p + 1 by {
                        if a.encoding().len() == p {
                            let whole = a.encoding() + seq![44u8] + (b.encoding() + seq![44u8] + (
                            c.encoding() + seq![44u8] + d.encoding()));
                            assert(whole[p as int] == 44u8);
                        }
                    }
                }
            }
        }
        p = p + 1;
    }
    proof {
        if A::encodes() && B::encodes() && C::encodes() && D::encodes() && A::decodes_all() && B::decodes_all() && C::decodes_all() && D::decodes_all() {
            assert forall|a: A, b: B, c: C, d: D| #[trigger] is_quad(bytes@, a, b, c, d) implies false by {
                assert((a.encoding() + seq![44u8] + (b.encoding() + seq![44u8] + (c.encoding()
                    + seq![44u8] + d.encoding()))).len() > a.encoding().len());
            }
        }
    }
    None
}

impl<A: Encode, B: Encode, C: Encode, D: Encode> Encode for (A, B, C, D) {
    open spec fn encodes() -> bool {
        A::encodes() && B::encodes() && C::encodes() && D::encodes()
    }

    open spec fn decodes_all() -> bool {
        A::encodes() && B::encodes() && C::encodes() && D::encodes() && A::decodes_all() && B::decodes_all() && C::decodes_all() && D::decodes_all()
    }

    open spec fn encoding(&self) -> Seq<u8> {
        bracketed(
            self.0.encoding() + seq![44u8] + (self.1.encoding() + seq![44u8] + (self.2.encoding()
                + seq![44u8] + self.3.encoding())),
        )
    }

    fn encode(&self) -> (bytes: Vec<u8>) {
        let mut bytes: Vec<u8> = Vec::new();
        bytes.push(91u8);
        append_bytes(&mut bytes, self.0.encode());
        bytes.push(44u8);
        append_bytes(&mut bytes, self.1.encode());
        bytes.push(44u8);
        append_bytes(&mut bytes, self.2.encode());
        bytes.push(44u8);
        append_bytes(&mut bytes, self.3.encode());
        bytes.push(93u8);
        proof {
            if Self::encodes() {
                assert(bytes@ =~= self.encoding());
            }
        }
        bytes
    }

    fn decode(bytes: &[u8]) -> (res: Option<(A, B, C, D)>) {
        match strip_brackets(bytes) {
            Some(inner) => {
                proof {
                    if Self::decodes_all() && exists|v: (A, B, C, D)| v.encoding() == bytes@ {
                        let v = choose|v: (A, B, C, D)| v.encoding() == bytes@;
                        let x = v.0.encoding() + seq![44u8] + (v.1.encoding() + seq![44u8] + (
                        v.2.encoding() + seq![44u8] + v.3.encoding()));
                        assert(inner@ =~= bracketed(inner@).subrange(1, bracketed(inner@).len() - 1));
                        assert(x =~= bracketed(x).subrange(1, bracketed(x).len() - 1));
                        assert(is_quad(inner@, v.0, v.1, v.2, v.3));
                    }
                }
                decode_quad::<A, B, C, D>(inner)
            },
            None => None,
        }
    }
}

/// A quadruple of faithfully encoded types, the first three of which end before a comma,
/// is faithfully encoded.
pub proof fn lemma_faithful_tuple4<A: Encode, B: Encode, C: Encode, D: Encode>()
    requires
        faithful_encoding::<A>(),
        faithful_encoding::<B>(),
        faithful_encoding::<C>(),
        faithful_encoding::<D>(),
        ends_before_comma::<A>(),
        ends_before_comma::<B>(),
        ends_before_comma::<C>(),
    ensures
        faithful_encoding::<(A, B, C, D)>(),
{
    assert forall|p: (A, B, C, D), q: (A, B, C, D)| #[trigger] p.encoding() == #[trigger] q.encoding()
        implies p == q by {
        let sp = p.2.encoding() + seq![44u8] + p.3.encoding();
        let sq = q.2.encoding() + seq![44u8] + q.3.encoding();
        let rp = p.1.encoding() + seq![44u8] + sp;
        let rq = q.1.encoding() + seq![44u8] + sq;
        let ip = p.0.encoding() + seq![44u8] + rp;
        let iq = q.0.encoding() + seq![44u8] + rq;
        assert(ip =~= bracketed(ip).subrange(1, bracketed(ip).len() - 1));
        assert(iq =~= bracketed(iq).subrange(1, bracketed(iq).len() - 1));
        assert(ip == iq);
        assert(p.0.encoding() == q.0.encoding());
        assert(rp =~= ip.subrange(p.0.encoding().len() as int + 1, ip.len() as int));
        assert(rq =~= iq.subrange(q.0.encoding().len() as int + 1, iq.len() as int));
        assert(rp == rq);
        assert(p.1.encoding() == q.1.encoding());
        assert(sp =~= rp.subrange(p.1.encoding().len() as int + 1, rp.len() as int));
        assert(sq =~= rq.subrange(q.1.encoding().len() as int + 1, rq.len() as int));
        assert(sp == sq);
        assert(p.2.encoding() == q.2.encoding());
        assert(p.3.encoding() =~= sp.subrange(p.2.encoding().len() as int + 1, sp.len() as int));
        assert(q.3.encoding() =~= sq.subrange(q.2.encoding().len() as int + 1, sq.len() as int));
    }
}

/// `{"Ok":`, which opens the encoding of an `Ok`.
pub open spec fn ok_head() -> Seq<u8> {
    seq![123u8, 34u8, 79u8, 107u8, 34u8, 58u8]
}

/// `{"Err":`, which opens the encoding of an `Err`.
pub open spec fn err_head() -> Seq<u8> {
    seq![123u8, 34u8, 69u8, 114u8, 114u8, 34u8, 58u8]
}

/// `head`, then `inner`, then `}`.
pub open spec fn framed(head: Seq<u8>, inner: Seq<u8>) -> Seq<u8> {
    head + inner + seq![125u8]
}

/// The bytes between `head` and a closing `}` that end `bytes`, where `bytes` are so made.
fn strip_frame<'a>(bytes: &'a [u8], head: &[u8]) -> (inner: Option<&'a [u8]>)
    ensures
        match inner {
            Some(i) => bytes@ == framed(head@, i@),
            None => forall|x: Seq<u8>| bytes@ != #[trigger] framed(head@, x),
        },
{
    let n = bytes.len();
    let h = head.len();
    if n > h && bytes[n - 1] == 125u8 {
        let front = vstd::slice::slice_subrange(bytes, 0, h);
        if bytes_equal(front, head) {
            let inner = vstd::slice::slice_subrange(bytes, h, n - 1);
            assert(bytes@ =~= framed(head@, inner@));
            return Some(inner);
        }
        proof {
            assert forall|x: Seq<u8>| bytes@ != #[trigger] framed(head@, x) by {
                if bytes@ == framed(head@, x) {
                    assert(front@ =~= framed(head@, x).subrange(0, h as int));
                    assert(front@ =~= head@);
                }
            }
        }
        None
    } else {
        proof {
            assert forall|x: Seq<u8>| bytes@ != #[trigger] framed(head@, x) by {
                if bytes@ == framed(head@, x) {
                    assert(framed(head@, x)[framed(head@, x).len() - 1] == 125u8);
                }
            }
        }
        None
    }
}

impl<T: Encode, E: Encode> Encode for Result<T, E> {
    open spec fn encodes() -> bool {
        T::encodes() && E::encodes()
    }

    open spec fn decodes_all() -> bool {
        T::encodes() && E::encodes() && T::decodes_all() && E::decodes_all()
    }

    open spec fn encoding(&self) -> Seq<u8> {
        match self {
            Ok(v) => framed(ok_head(), v.encoding()),
            Err(e) => framed(err_head(), e.encoding()),
        }
    }

    fn encode(&self) -> (bytes: Vec<u8>) {
        let mut bytes: Vec<u8> = Vec::new();
        match self {
            Ok(v) => {
                bytes = vec![123u8, 34u8, 79u8, 107u8, 34u8, 58u8];
                append_bytes(&mut bytes, v.encode());
            },
            Err(e) => {
                bytes = vec![123u8, 34u8, 69u8, 114u8, 114u8, 34u8, 58u8];
                append_bytes(&mut bytes, e.encode());
            },
        }
        bytes.push(125u8);
        proof {
            if Self::encodes() {
                assert(bytes@ =~= self.encoding());
            }
        }
        bytes
    }

    /// `{"Ok":..}` decodes to `Ok` of what it holds; `{"Err":..}` to `Err`.
    fn decode(bytes: &[u8]) -> (res: Option<Result<T, E>>) {
        let ok = vec![123u8, 34u8, 79u8, 107u8, 34u8, 58u8];
        let err = vec![123u8, 34u8, 69u8, 114u8, 114u8, 34u8, 58u8];
        assert(ok@ =~= ok_head());
        assert(err@ =~= err_head());
        match strip_frame(bytes, ok.as_slice()) {
            Some(inner) => {
                proof {
                    if Self::decodes_all() && exists|v: Result<T, E>| v.encoding() == bytes@ {
                        let v = choose|v: Result<T, E>| v.encoding() == bytes@;
                        if v is Err {
                            assert(bytes@[2] == 69u8);
                            assert(bytes@[2] == 79u8);
                        }
                        let x = v->Ok_0.encoding();
                        assert(inner@ =~= framed(ok_head(), inner@).subrange(6, bytes@.len() - 1));
                        assert(x =~= framed(ok_head(), x).subrange(6, bytes@.len() - 1));
                        assert(x == inner@);
                    }
                }
                match T::decode(inner) {
                    Some(v) => Some(Ok(v)),
                    None => None,
                }
            },
            None => match strip_frame(bytes, err.as_slice()) {
                Some(inner) => {
                    proof {
                        if Self::decodes_all() && exists|v: Result<T, E>| v.encoding() == bytes@ {
                            let v = choose|v: Result<T, E>| v.encoding() == bytes@;
                            assert(v is Err);
                            let x = v->Err_0.encoding();
                            assert(inner@ =~= framed(err_head(), inner@).subrange(7, bytes@.len() - 1));
                            assert(x =~= framed(err_head(), x).subrange(7, bytes@.len() - 1));
                            assert(x == inner@);
                        }
                    }
                    match E::decode(inner) {
                        Some(e) => Some(Err(e)),
                        None => None,
                    }
                },
                None => {
                    proof {
                        if exists|v: Result<T, E>| v.encoding() == bytes@ {
                            let v = choose|v: Result<T, E>| v.encoding() == bytes@;
                            match v {
                                Ok(x) => assert(bytes@ == framed(ok@, x.encoding())),
                                Err(x) => assert(bytes@ == framed(err@, x.encoding())),
                            }
                        }
                    }
                    None
                },
            },
        }
    }
}

/// A `Result` of faithfully encoded types is faithfully encoded.
pub proof fn lemma_faithful_result<T: Encode, E: Encode>()
    requires
        faithful_encoding::<T>(),
        faithful_encoding::<E>(),
    ensures
        faithful_encoding::<Result<T, E>>(),
{
    assert forall|p: Result<T, E>, q: Result<T, E>| #[trigger] p.encoding() == #[trigger] q.encoding()
        implies p == q by {
        let n = p.encoding().len();
        match (p, q) {
            (Ok(x), Ok(y)) => {
                assert(x.encoding() =~= p.encoding().subrange(6, n - 1));
                assert(y.encoding() =~= q.encoding().subrange(6, n - 1));
            },
            (Err(x), Err(y)) => {
                assert(x.encoding() =~= p.encoding().subrange(7, n - 1));
                assert(y.encoding() =~= q.encoding().subrange(7, n - 1));
            },
            (Ok(x), Err(y)) => {
                assert(p.encoding()[2] == 79u8);
                assert(q.encoding()[2] == 69u8);
            },
            (Err(x), Ok(y)) => {
                assert(p.encoding()[2] == 69u8);
                assert(q.encoding()[2] == 79u8);
            },
        }
    }
}

/// `"None"`, the encoding of `None`.
pub open spec fn none_text() -> Seq<u8> {
    seq![34u8, 78u8, 111u8, 110u8, 101u8, 34u8]
}

/// `{"Some":`, which opens the encoding of a `Some`.
pub open spec fn some_head() -> Seq<u8> {
    seq![123u8, 34u8, 83u8, 111u8, 109u8, 101u8, 34u8, 58u8]
}

/// An `Option` is encoded as the enum that stands for it in a folded value: `None` as the
/// string `"None"`, `Some(v)` as `{"Some":v}`.
impl<T: Encode> Encode for Option<T> {
    open spec fn encodes() -> bool {
        T::encodes()
    }

    open spec fn decodes_all() -> bool {
        T::encodes() && T::decodes_all()
    }

    open spec fn encoding(&self) -> Seq<u8> {
        match self {
            Some(v) => framed(some_head(), v.encoding()),
            None => none_text(),
        }
    }

    fn encode(&self) -> (bytes: Vec<u8>) {
        match self {
            Some(v) => {
                let mut bytes = vec![123u8, 34u8, 83u8, 111u8, 109u8, 101u8, 34u8, 58u8];
                append_bytes(&mut bytes, v.encode());
                bytes.push(125u8);
                proof {
                    if Self::encodes() {
                        assert(bytes@ =~= self.encoding());
                    }
                }
                bytes
            },
            None => {
                let bytes = vec![34u8, 78u8, 111u8, 110u8, 101u8, 34u8];
                assert(bytes@ =~= none_text());
                bytes
            },
        }
    }

    /// `"None"` decodes to `None`; `{"Some":..}` to `Some` of what it holds.
    fn decode(bytes: &[u8]) -> (res: Option<Option<T>>) {
        let none = vec![34u8, 78u8, 111u8, 110u8, 101u8, 34u8];
        let some = vec![123u8, 34u8, 83u8, 111u8, 109u8, 101u8, 34u8, 58u8];
        assert(none@ =~= none_text());
        assert(some@ =~= some_head());
        if bytes_equal(none.as_slice(), bytes) {
            return Some(None);
        }
        match strip_frame(bytes, some.as_slice()) {
            Some(inner) => {
                proof {
                    if Self::decodes_all() && exists|v: Option<T>| v.encoding() == bytes@ {
                        let v = choose|v: Option<T>| v.encoding() == bytes@;
                        assert(v is Some);
                        let x = v->0.encoding();
                        assert(inner@ =~= framed(some_head(), inner@).subrange(8, bytes@.len() - 1));
                        assert(x =~= framed(some_head(), x).subrange(8, bytes@.len() - 1));
                        assert(x == inner@);
                    }
                }
                match T::decode(inner) {
                    Some(v) => Some(Some(v)),
                    None => None,
                }
            },
            None => {
                proof {
                    if exists|v: Option<T>| v.encoding() == bytes@ {
                        let v = choose|v: Option<T>| v.encoding() == bytes@;
                        assert(v is Some);
                        assert(bytes@ == framed(some@, v->0.encoding()));
                    }
                }
                None
            },
        }
    }
}

/// An `Option` of a faithfully encoded type is faithfully encoded.
pub proof fn lemma_faithful_option<T: Encode>()
    requires
        faithful_encoding::<T>(),
    ensures
        faithful_encoding::<Option<T>>(),
{
    assert forall|a: Option<T>, b: Option<T>| #[trigger] a.encoding() == #[trigger] b.encoding()
        implies a == b by {
        let n = a.encoding().len();
        match (a, b) {
            (Some(x), Some(y)) => {
                assert(x.encoding() =~= a.encoding().subrange(8, n - 1));
                assert(y.encoding() =~= b.encoding().subrange(8, n - 1));
            },
            (Some(x), None) => {
                assert(a.encoding()[0] == 123u8);
                assert(b.encoding()[0] == 34u8);
            },
            (None, Some(y)) => {
                assert(a.encoding()[0] == 34u8);
                assert(b.encoding()[0] == 123u8);
            },
            (None, None) => {},
        }
    }
}

/// The JSON text of an integer holds no comma.
proof fn lemma_json_integer_no_comma(n: int)
    ensures
        forall|i: int| 0 <= i < json_integer(n).len() ==> #[trigger] json_integer(n)[i] != 44u8,
{
    if n < 0 {
        lemma_decimal_shape((-n) as nat);
        assert forall|i: int| 0 <= i < json_integer(n).len() implies #[trigger] json_integer(n)[i]
            != 44u8 by {
            if i > 0 {
                assert(json_integer(n)[i] == crate::encoding::decimal((-n) as nat)[i - 1]);
            }
        }
    } else {
        lemma_decimal_shape(n as nat);
    }
}

/// Two byte strings without a comma, each followed by a comma, can be told apart only
/// where they are equal: the comma ends both.
proof fn lemma_comma_free_prefix(a: Seq<u8>, b: Seq<u8>, x: Seq<u8>, y: Seq<u8>)
    requires
        forall|i: int| 0 <= i < a.len() ==> #[trigger] a[i] != 44u8,
        forall|i: int| 0 <= i < b.len() ==> #[trigger] b[i] != 44u8,
        a + seq![44u8] + x == b + seq![44u8] + y,
    ensures
        a == b,
{
    let w = a + seq![44u8] + x;
    if a.len() < b.len() {
        assert(w[a.len() as int] == 44u8);
        assert(b[a.len() as int] == w[a.len() as int]);
    } else if b.len() < a.len() {
        assert(w[b.len() as int] == 44u8);
        assert(a[b.len() as int] == w[b.len() as int]);
    }
    assert(a =~= w.subrange(0, a.len() as int));
    assert(b =~= w.subrange(0, b.len() as int));
}

/// The encoding of a `u64` ends before a comma.
pub proof fn lemma_u64_ends_before_comma()
    ensures
        ends_before_comma::<u64>(),
{
    assert forall|a1: u64, a2: u64, x: Seq<u8>, y: Seq<u8>|
        #[trigger] (a1.encoding() + seq![44u8] + x) == #[trigger] (a2.encoding() + seq![44u8] + y)
        implies a1.encoding() == a2.encoding() by {
        lemma_json_integer_no_comma(a1 as int);
        lemma_json_integer_no_comma(a2 as int);
        lemma_comma_free_prefix(a1.encoding(), a2.encoding(), x, y);
    }
}

/// The encoding of an `i64` ends before a comma.
pub proof fn lemma_i64_ends_before_comma()
    ensures
        ends_before_comma::<i64>(),
{
    assert forall|a1: i64, a2: i64, x: Seq<u8>, y: Seq<u8>|
        #[trigger] (a1.encoding() + seq![44u8] + x) == #[trigger] (a2.encoding() + seq![44u8] + y)
        implies a1.encoding() == a2.encoding() by {
        lemma_json_integer_no_comma(a1 as int);
        lemma_json_integer_no_comma(a2 as int);
        lemma_comma_free_prefix(a1.encoding(), a2.encoding(), x, y);
    }
}

/// The encoding of a `bool` ends before a comma.
pub proof fn lemma_bool_ends_before_comma()
    ensures
        ends_before_comma::<bool>(),
{
    assert forall|a1: bool, a2: bool, x: Seq<u8>, y: Seq<u8>|
        #[trigger] (a1.encoding() + seq![44u8] + x) == #[trigger] (a2.encoding() + seq![44u8] + y)
        implies a1.encoding() == a2.encoding() by {
        lemma_comma_free_prefix(a1.encoding(), a2.encoding(), x, y);
    }
}

/// Pairs of `u64` are faithfully encoded.
pub proof fn lemma_faithful_u64_pair()
    ensures
        faithful_encoding::<(u64, u64)>(),
{
    crate::encoding::lemma_faithful_u64();
    lemma_u64_ends_before_comma();
    lemma_faithful_tuple2::<u64, u64>();
}

} // verus!
