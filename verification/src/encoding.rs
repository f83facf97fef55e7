//! JSON encodings of the plain types, through `serde_json`: integers as their decimal
//! digits, `bool` and `()` as the JSON literals, strings as JSON strings.
use crate::ser::{faithful_encoding, Encode};
use std::sync::Arc;
use vstd::prelude::*;

pub mod compound;

verus! {

/// The ASCII character of the decimal digit `d`.
pub open spec fn digit(d: nat) -> u8 {
    if d == 0 {
        48u8
    } else if d == 1 {
        49u8
    } else if d == 2 {
        50u8
    } else if d == 3 {
        51u8
    } else if d == 4 {
        52u8
    } else if d == 5 {
        53u8
    } else if d == 6 {
        54u8
    } else if d == 7 {
        55u8
    } else if d == 8 {
        56u8
    } else {
        57u8
    }
}

/// The ASCII decimal digits of `n`, without leading zeros.
pub open spec fn decimal(n: nat) -> Seq<u8>
    decreases n,
{
    if n < 10 {
        seq![digit(n)]
    } else {
        decimal(n / 10) + seq![digit(n % 10)]
    }
}

/// JSON text of an integer: its decimal digits, after `-` where it is negative.
pub open spec fn json_integer(n: int) -> Seq<u8> {
    if n < 0 {
        seq![45u8] + decimal((-n) as nat)
    } else {
        decimal(n as nat)
    }
}

/// JSON text of a `u64`.
pub open spec fn json_u64(n: u64) -> Seq<u8> {
    json_integer(n as int)
}

/// JSON text of an `i64`.
pub open spec fn json_i64(n: i64) -> Seq<u8> {
    json_integer(n as int)
}

/// The lowercase hexadecimal digit of `d < 16`.
pub open spec fn hex_digit(d: nat) -> u8 {
    if d < 10 {
        (48 + d) as u8
    } else {
        (87 + d) as u8
    }
}

/// A character that a JSON string writes with a backslash: the quote, the backslash,
/// and the control characters below `0x20`.
pub open spec fn is_escaped(c: char) -> bool {
    c == '"' || c == '\\' || (c as u32) < 32
}

/// How `serde_json` writes the character `c` inside a string: `\"` and `\\`; `\b`, `\t`,
/// `\n`, `\f`, `\r` for those controls; `\u00` and two lowercase hex digits for the
/// other controls; any other character as its UTF-8 bytes.
pub open spec fn escape_char(c: char) -> Seq<u8> {
    let u = c as u32;
    if c == '"' {
        seq![92u8, 34u8]
    } else if c == '\\' {
        seq![92u8, 92u8]
    } else if u == 8 {
        seq![92u8, 98u8]
    } else if u == 9 {
        seq![92u8, 116u8]
    } else if u == 10 {
        seq![92u8, 110u8]
    } else if u == 12 {
        seq![92u8, 102u8]
    } else if u == 13 {
        seq![92u8, 114u8]
    } else if u < 32 {
        seq![92u8, 117u8, 48u8, 48u8, hex_digit((u / 16) as nat), hex_digit((u % 16) as nat)]
    } else {
        vstd::utf8::encode_utf8(seq![c])
    }
}

/// The characters of `s`, each written as `escape_char` says.
pub open spec fn escaped(s: Seq<char>) -> Seq<u8>
    decreases s.len(),
{
    if s.len() == 0 {
        Seq::empty()
    } else {
        escape_char(s[0]) + escaped(s.drop_first())
    }
}

/// What `serde_json` writes for the string `s`: its escaped characters between quotes.
pub open spec fn json_string(s: Seq<char>) -> Seq<u8> {
    seq![34u8] + escaped(s) + seq![34u8]
}

/// The written form of a character is never empty, opens with a backslash exactly
/// where the character is escaped, and never opens with a quote.
proof fn lemma_escape_char_shape(c: char)
    ensures
        escape_char(c).len() >= 1,
        (escape_char(c)[0] == 92u8) == is_escaped(c),
        escape_char(c)[0] != 34u8,
{
    let e = vstd::utf8::encode_utf8(seq![c]);
    if !is_escaped(c) {
        vstd::utf8::encode_utf8_first_scalar(seq![c]);
        assert(e.len() >= 1);
        if e[0] == 34u8 {
            assert(vstd::utf8::is_leading_byte_width_1(e[0]));
            assert(vstd::utf8::length_of_first_codepoint(e) == 1);
            assert(vstd::utf8::decode_first_codepoint(e) == vstd::utf8::codepoint_width_1(34u8));
            assert((34u8 & 0x7Fu8) == 34u8) by (bit_vector);
            assert(c as u32 == 34u32);
            vstd::utf8::char_u32_cast(c, 34u32);
            assert(c == '"');
        }
        if e[0] == 92u8 {
            assert(vstd::utf8::is_leading_byte_width_1(e[0]));
            assert(vstd::utf8::length_of_first_codepoint(e) == 1);
            assert(vstd::utf8::decode_first_codepoint(e) == vstd::utf8::codepoint_width_1(92u8));
            assert((92u8 & 0x7Fu8) == 92u8) by (bit_vector);
            assert(c as u32 == 92u32);
            vstd::utf8::char_u32_cast(c, 92u32);
            assert(c == '\\');
        }
    }
}

/// The lowercase hex digit of `d < 16` tells `d`.
proof fn lemma_hex_digit_injective(a: nat, b: nat)
    requires
        a < 16,
        b < 16,
        hex_digit(a) == hex_digit(b),
    ensures
        a == b,
{
}

/// The written form of a character, followed by anything, tells the character.
proof fn lemma_escape_char_prefix(c1: char, c2: char, r1: Seq<u8>, r2: Seq<u8>)
    requires
        escape_char(c1) + r1 == escape_char(c2) + r2,
    ensures
        c1 == c2,
        r1 == r2,
{
    let x = escape_char(c1) + r1;
    let e1 = escape_char(c1);
    let e2 = escape_char(c2);
    lemma_escape_char_shape(c1);
    lemma_escape_char_shape(c2);
    assert(x[0] == e1[0]);
    assert(x[0] == e2[0]);
    let u1 = c1 as u32;
    let u2 = c2 as u32;
    if is_escaped(c1) {
        assert(e1.len() >= 2 && e2.len() >= 2);
        assert(x[1] == e1[1] && x[1] == e2[1]);
        if u1 < 32 && u1 != 8 && u1 != 9 && u1 != 10 && u1 != 12 && u1 != 13 {
            assert(e1[1] == 117u8);
            assert(u2 < 32 && u2 != 8 && u2 != 9 && u2 != 10 && u2 != 12 && u2 != 13);
            assert(x[4] == e1[4] && x[4] == e2[4]);
            assert(x[5] == e1[5] && x[5] == e2[5]);
            lemma_hex_digit_injective((u1 / 16) as nat, (u2 / 16) as nat);
            lemma_hex_digit_injective((u1 % 16) as nat, (u2 % 16) as nat);
            assert(u1 == u2);
        } else {
            assert(u1 == u2);
        }
        vstd::utf8::char_u32_cast(c1, u1);
        vstd::utf8::char_u32_cast(c2, u2);
    } else {
        vstd::utf8::encode_utf8_first_scalar(seq![c1]);
        vstd::utf8::encode_utf8_first_scalar(seq![c2]);
        assert(seq![c1].drop_first() =~= Seq::<char>::empty());
        assert(seq![c2].drop_first() =~= Seq::<char>::empty());
        assert(vstd::utf8::encode_utf8(Seq::<char>::empty()) =~= Seq::<u8>::empty());
        assert(vstd::utf8::encode_utf8(seq![c1]) =~= vstd::utf8::encode_scalar(u1));
        assert(vstd::utf8::encode_utf8(seq![c2]) =~= vstd::utf8::encode_scalar(u2));
        assert(vstd::utf8::length_of_first_codepoint(e1) == vstd::utf8::length_of_first_codepoint(e2));
        assert(e1.len() == e2.len());
        assert(e1 =~= x.subrange(0, e1.len() as int));
        assert(e2 =~= x.subrange(0, e2.len() as int));
        assert(u1 == u2);
        vstd::utf8::char_u32_cast(c1, u1);
        vstd::utf8::char_u32_cast(c2, u2);
    }
    assert(e1 == e2);
    assert(r1 =~= x.subrange(e1.len() as int, x.len() as int));
    assert(r2 =~= x.subrange(e2.len() as int, x.len() as int));
}

/// Distinct strings are written differently.
proof fn lemma_escaped_injective(a: Seq<char>, b: Seq<char>)
    requires
        escaped(a) == escaped(b),
    ensures
        a == b,
    decreases a.len(),
{
    if a.len() == 0 && b.len() == 0 {
    } else if a.len() == 0 {
        lemma_escape_char_shape(b[0]);
        assert(escaped(b).len() >= 1);
    } else if b.len() == 0 {
        lemma_escape_char_shape(a[0]);
        assert(escaped(a).len() >= 1);
    } else {
        lemma_escape_char_prefix(a[0], b[0], escaped(a.drop_first()), escaped(b.drop_first()));
        lemma_escaped_injective(a.drop_first(), b.drop_first());
        assert(a =~= seq![a[0]] + a.drop_first());
        assert(b =~= seq![b[0]] + b.drop_first());
    }
}

/// Written characters followed by a quote tell the characters: no run of written
/// characters, closed by a quote, is a proper prefix of another so closed.
proof fn lemma_escaped_prefix(a: Seq<char>, b: Seq<char>, x: Seq<u8>, y: Seq<u8>)
    requires
        escaped(a) + seq![34u8] + x == escaped(b) + seq![34u8] + y,
    ensures
        a == b,
        x == y,
    decreases a.len(),
{
    let l = escaped(a) + seq![34u8] + x;
    if a.len() == 0 && b.len() == 0 {
        assert(x =~= l.subrange(1, l.len() as int));
        assert(y =~= (escaped(b) + seq![34u8] + y).subrange(1, l.len() as int));
    } else if a.len() == 0 {
        lemma_escape_char_shape(b[0]);
        assert(l[0] == 34u8);
        assert((escaped(b) + seq![34u8] + y)[0] == escape_char(b[0])[0]);
    } else if b.len() == 0 {
        lemma_escape_char_shape(a[0]);
        assert((escaped(b) + seq![34u8] + y)[0] == 34u8);
        assert(l[0] == escape_char(a[0])[0]);
    } else {
        let ra = escaped(a.drop_first()) + seq![34u8] + x;
        let rb = escaped(b.drop_first()) + seq![34u8] + y;
        assert(l =~= escape_char(a[0]) + ra);
        assert(escaped(b) + seq![34u8] + y =~= escape_char(b[0]) + rb);
        lemma_escape_char_prefix(a[0], b[0], ra, rb);
        lemma_escaped_prefix(a.drop_first(), b.drop_first(), x, y);
        assert(a =~= seq![a[0]] + a.drop_first());
        assert(b =~= seq![b[0]] + b.drop_first());
    }
}

/// A JSON string followed by anything tells the string: no JSON string is a proper
/// prefix of another.
pub proof fn lemma_json_string_prefix(a: Seq<char>, b: Seq<char>, x: Seq<u8>, y: Seq<u8>)
    requires
        json_string(a) + x == json_string(b) + y,
    ensures
        a == b,
        x == y,
{
    let l = json_string(a) + x;
    let r = json_string(b) + y;
    assert(l.subrange(1, l.len() as int) =~= escaped(a) + seq![34u8] + x);
    assert(r.subrange(1, r.len() as int) =~= escaped(b) + seq![34u8] + y);
    lemma_escaped_prefix(a, b, x, y);
}

/// Distinct strings have distinct JSON texts.
pub proof fn lemma_json_string_injective(a: Seq<char>, b: Seq<char>)
    requires
        json_string(a) == json_string(b),
    ensures
        a == b,
{
    let ja = json_string(a);
    assert(escaped(a) =~= ja.subrange(1, ja.len() - 1));
    assert(escaped(b) =~= json_string(b).subrange(1, json_string(b).len() - 1));
    lemma_escaped_injective(a, b);
}

/// `serde_json::ser::to_vec` on a `u64`. Claimed: its decimal digits.
#[verifier::external_body]
fn u64_to_json(n: u64) -> (bytes: Vec<u8>)
    ensures
        bytes@ == json_u64(n),
{
    serde_json::ser::to_vec(&n).expect("an integer serializes")
}

/// `serde_json::de::from_slice::<u64>`, `Ok` taken as `Some`. Claimed: on the decimal
/// digits of `n` it gives `n`. What it gives on other text is not stated.
#[verifier::external_body]
fn u64_from_json(bytes: &[u8]) -> (res: Option<u64>)
    ensures
        forall|n: u64| bytes@ == #[trigger] json_u64(n) ==> res == Some(n),
{
    serde_json::de::from_slice::<u64>(bytes).ok()
}

/// `serde_json::ser::to_vec` on an `i64`. Claimed: its decimal digits, after `-` where
/// it is negative.
#[verifier::external_body]
fn i64_to_json(n: i64) -> (bytes: Vec<u8>)
    ensures
        bytes@ == json_i64(n),
{
    serde_json::ser::to_vec(&n).expect("an integer serializes")
}

/// `serde_json::de::from_slice::<i64>`, `Ok` taken as `Some`. Claimed: on the JSON text
/// of `n` it gives `n`. What it gives on other text is not stated.
#[verifier::external_body]
fn i64_from_json(bytes: &[u8]) -> (res: Option<i64>)
    ensures
        forall|n: i64| bytes@ == #[trigger] json_i64(n) ==> res == Some(n),
{
    serde_json::de::from_slice::<i64>(bytes).ok()
}

/// `serde_json::ser::to_vec` on a string. Claimed: `json_string` of its characters, as
/// `format_escaped_str` writes them (its `ESCAPE` table and `write_char_escape`).
#[verifier::external_body]
fn string_to_json(s: &str) -> (bytes: Vec<u8>)
    ensures
        bytes@ == json_string(s@),
{
    serde_json::ser::to_vec(s).expect("a string serializes")
}

/// `serde_json::de::from_slice::<String>`, `Ok` taken as `Some`. Claimed: on the JSON
/// string of `s` it gives a string with the characters of `s`. What it gives on other
/// text is not stated.
#[verifier::external_body]
fn string_from_json(bytes: &[u8]) -> (res: Option<String>)
    ensures
        forall|s: Seq<char>|
            bytes@ == #[trigger] json_string(s) ==> res.is_some() && res.unwrap()@ == s,
{
    serde_json::de::from_slice::<String>(bytes).ok()
}

/// Whether two byte strings are equal.
pub fn bytes_equal(a: &[u8], b: &[u8]) -> (equal: bool)
    ensures
        equal == (a@ == b@),
{
    if a.len() != b.len() {
        return false;
    }
    let n = a.len();
    for i in 0..n
        invariant
            n == a@.len(),
            n == b@.len(),
            forall|j: int| 0 <= j < i ==> a@[j] == b@[j],
    {
        if a[i] != b[i] {
            return false;
        }
    }
    assert(a@ =~= b@);
    true
}

/// A decimal text has at least one digit, and at least two from ten on; all its bytes
/// are digits.
pub proof fn lemma_decimal_shape(n: nat)
    ensures
        decimal(n).len() >= 1,
        n >= 10 ==> decimal(n).len() >= 2,
        forall|i: int| 0 <= i < decimal(n).len() ==> 48 <= #[trigger] decimal(n)[i] <= 57,
    decreases n,
{
    if n >= 10 {
        lemma_decimal_shape(n / 10);
    }
}

/// Distinct numbers have distinct decimal texts.
pub proof fn lemma_decimal_injective(a: nat, b: nat)
    requires
        decimal(a) == decimal(b),
    ensures
        a == b,
    decreases a,
{
    lemma_decimal_shape(a);
    lemma_decimal_shape(b);
    if a >= 10 && b >= 10 {
        let da = decimal(a);
        assert(da.last() == digit(a % 10));
        assert(decimal(b).last() == digit(b % 10));
        assert(a % 10 == b % 10);
        assert(decimal(a / 10) =~= da.drop_last());
        assert(decimal(b / 10) =~= decimal(b).drop_last());
        lemma_decimal_injective(a / 10, b / 10);
        assert(a == 10 * (a / 10) + a % 10) by (nonlinear_arith);
        assert(b == 10 * (b / 10) + b % 10) by (nonlinear_arith);
        assert(a == b);
    } else if a < 10 && b < 10 {
        assert(decimal(a) == seq![digit(a)]);
        assert(decimal(b) == seq![digit(b)]);
        assert(digit(a) == decimal(a)[0]);
        assert(digit(a) == digit(b));
        assert(a == b);
    } else {
        assert(decimal(a).len() == decimal(b).len());
    }
}

/// Distinct integers have distinct JSON texts.
pub proof fn lemma_json_integer_injective(a: int, b: int)
    requires
        json_integer(a) == json_integer(b),
    ensures
        a == b,
{
    if a < 0 {
        lemma_decimal_shape((-a) as nat);
    } else {
        lemma_decimal_shape(a as nat);
    }
    if b < 0 {
        lemma_decimal_shape((-b) as nat);
    } else {
        lemma_decimal_shape(b as nat);
    }
    if a < 0 && b < 0 {
        assert(decimal((-a) as nat) =~= json_integer(a).drop_first());
        assert(decimal((-b) as nat) =~= json_integer(b).drop_first());
        lemma_decimal_injective((-a) as nat, (-b) as nat);
        assert(a == b);
    } else if a >= 0 && b >= 0 {
        lemma_decimal_injective(a as nat, b as nat);
        assert(a == b);
    } else if a < 0 {
        assert(json_integer(a)[0] == 45u8);
        assert(48 <= decimal(b as nat)[0] <= 57);
        assert(json_integer(a)[0] == json_integer(b)[0]);
    } else {
        assert(json_integer(b)[0] == 45u8);
        assert(48 <= decimal(a as nat)[0] <= 57);
        assert(json_integer(a)[0] == json_integer(b)[0]);
    }
}

impl Encode for u64 {
    open spec fn encodes() -> bool {
        true
    }

    open spec fn encoding(&self) -> Seq<u8> {
        json_u64(*self)
    }

    fn encode(&self) -> (bytes: Vec<u8>) {
        u64_to_json(*self)
    }

    fn decode(bytes: &[u8]) -> (res: Option<u64>) {
        match u64_from_json(bytes) {
            Some(n) => {
                let canonical = u64_to_json(n);
                if bytes_equal(canonical.as_slice(), bytes) {
                    Some(n)
                } else {
                    None
                }
            },
            None => None,
        }
    }
}

impl Encode for i64 {
    open spec fn encodes() -> bool {
        true
    }

    open spec fn encoding(&self) -> Seq<u8> {
        json_i64(*self)
    }

    fn encode(&self) -> (bytes: Vec<u8>) {
        i64_to_json(*self)
    }

    fn decode(bytes: &[u8]) -> (res: Option<i64>) {
        match i64_from_json(bytes) {
            Some(n) => {
                let canonical = i64_to_json(n);
                if bytes_equal(canonical.as_slice(), bytes) {
                    Some(n)
                } else {
                    None
                }
            },
            None => None,
        }
    }
}

impl Encode for String {
    open spec fn encodes() -> bool {
        true
    }

    open spec fn encoding(&self) -> Seq<u8> {
        json_string(self@)
    }

    fn encode(&self) -> (bytes: Vec<u8>) {
        string_to_json(self.as_str())
    }

    fn decode(bytes: &[u8]) -> (res: Option<String>) {
        match string_from_json(bytes) {
            Some(s) => {
                let canonical = string_to_json(s.as_str());
                if bytes_equal(canonical.as_slice(), bytes) {
                    Some(s)
                } else {
                    None
                }
            },
            None => None,
        }
    }
}

/// `u64` values have distinct encodings.
pub proof fn lemma_faithful_u64()
    ensures
        faithful_encoding::<u64>(),
{
    assert forall|a: u64, b: u64| #[trigger] a.encoding() == #[trigger] b.encoding() implies a
        == b by {
        lemma_json_integer_injective(a as int, b as int);
    }
}

/// `i64` values have distinct encodings.
pub proof fn lemma_faithful_i64()
    ensures
        faithful_encoding::<i64>(),
{
    assert forall|a: i64, b: i64| #[trigger] a.encoding() == #[trigger] b.encoding() implies a
        == b by {
        lemma_json_integer_injective(a as int, b as int);
    }
}

/// The unsigned integer no greater than `max` whose JSON text `bytes` are, if any.
fn decode_unsigned(bytes: &[u8], max: u64) -> (res: Option<u64>)
    ensures
        res matches Some(n) ==> n <= max && json_integer(n as int) == bytes@,
        (exists|n: u64| n <= max && #[trigger] json_integer(n as int) == bytes@) ==> res is Some,
{
    proof {
        if exists|n: u64| n <= max && #[trigger] json_integer(n as int) == bytes@ {
            let n = choose|n: u64| n <= max && #[trigger] json_integer(n as int) == bytes@;
            assert(json_u64(n) == bytes@);
        }
    }
    match u64_from_json(bytes) {
        Some(n) => {
            if n <= max {
                let canonical = u64_to_json(n);
                if bytes_equal(canonical.as_slice(), bytes) {
                    Some(n)
                } else {
                    None
                }
            } else {
                None
            }
        },
        None => None,
    }
}

/// The signed integer from `min` to `max` whose JSON text `bytes` are, if any.
fn decode_signed(bytes: &[u8], min: i64, max: i64) -> (res: Option<i64>)
    ensures
        res matches Some(n) ==> min <= n <= max && json_integer(n as int) == bytes@,
        (exists|n: i64| min <= n <= max && #[trigger] json_integer(n as int) == bytes@) ==> res is Some,
{
    proof {
        if exists|n: i64| min <= n <= max && #[trigger] json_integer(n as int) == bytes@ {
            let n = choose|n: i64| min <= n <= max && #[trigger] json_integer(n as int) == bytes@;
            assert(json_i64(n) == bytes@);
        }
    }
    match i64_from_json(bytes) {
        Some(n) => {
            if min <= n && n <= max {
                let canonical = i64_to_json(n);
                if bytes_equal(canonical.as_slice(), bytes) {
                    Some(n)
                } else {
                    None
                }
            } else {
                None
            }
        },
        None => None,
    }
}

impl Encode for u8 {
    open spec fn encodes() -> bool {
        true
    }

    open spec fn encoding(&self) -> Seq<u8> {
        json_integer(*self as int)
    }

    fn encode(&self) -> (bytes: Vec<u8>) {
        u64_to_json(*self as u64)
    }

    fn decode(bytes: &[u8]) -> (res: Option<u8>) {
        proof {
            if exists|v: u8| v.encoding() == bytes@ {
                let v = choose|v: u8| v.encoding() == bytes@;
                assert(json_integer((v as u64) as int) == bytes@);
            }
        }
        match decode_unsigned(bytes, u8::MAX as u64) {
            Some(n) => Some(n as u8),
            None => None,
        }
    }
}

/// `u8` values have distinct encodings.
pub proof fn lemma_faithful_u8()
    ensures
        faithful_encoding::<u8>(),
{
    assert forall|a: u8, b: u8| #[trigger] a.encoding() == #[trigger] b.encoding() implies a
        == b by {
        lemma_json_integer_injective(a as int, b as int);
    }
}

impl Encode for u16 {
    open spec fn encodes() -> bool {
        true
    }

    open spec fn encoding(&self) -> Seq<u8> {
        json_integer(*self as int)
    }

    fn encode(&self) -> (bytes: Vec<u8>) {
        u64_to_json(*self as u64)
    }

    fn decode(bytes: &[u8]) -> (res: Option<u16>) {
        proof {
            if exists|v: u16| v.encoding() == bytes@ {
                let v = choose|v: u16| v.encoding() == bytes@;
                assert(json_integer((v as u64) as int) == bytes@);
            }
        }
        match decode_unsigned(bytes, u16::MAX as u64) {
            Some(n) => Some(n as u16),
            None => None,
        }
    }
}

/// `u16` values have distinct encodings.
pub proof fn lemma_faithful_u16()
    ensures
        faithful_encoding::<u16>(),
{
    assert forall|a: u16, b: u16| #[trigger] a.encoding() == #[trigger] b.encoding() implies a
        == b by {
        lemma_json_integer_injective(a as int, b as int);
    }
}

impl Encode for u32 {
    open spec fn encodes() -> bool {
        true
    }

    open spec fn encoding(&self) -> Seq<u8> {
        json_integer(*self as int)
    }

    fn encode(&self) -> (bytes: Vec<u8>) {
        u64_to_json(*self as u64)
    }

    fn decode(bytes: &[u8]) -> (res: Option<u32>) {
        proof {
            if exists|v: u32| v.encoding() == bytes@ {
                let v = choose|v: u32| v.encoding() == bytes@;
                assert(json_integer((v as u64) as int) == bytes@);
            }
        }
        match decode_unsigned(bytes, u32::MAX as u64) {
            Some(n) => Some(n as u32),
            None => None,
        }
    }
}

/// `u32` values have distinct encodings.
pub proof fn lemma_faithful_u32()
    ensures
        faithful_encoding::<u32>(),
{
    assert forall|a: u32, b: u32| #[trigger] a.encoding() == #[trigger] b.encoding() implies a
        == b by {
        lemma_json_integer_injective(a as int, b as int);
    }
}

impl Encode for usize {
    open spec fn encodes() -> bool {
        true
    }

    open spec fn encoding(&self) -> Seq<u8> {
        json_integer(*self as int)
    }

    fn encode(&self) -> (bytes: Vec<u8>) {
        u64_to_json(*self as u64)
    }

    fn decode(bytes: &[u8]) -> (res: Option<usize>) {
        proof {
            if exists|v: usize| v.encoding() == bytes@ {
                let v = choose|v: usize| v.encoding() == bytes@;
                assert(json_integer((v as u64) as int) == bytes@);
            }
        }
        match decode_unsigned(bytes, usize::MAX as u64) {
            Some(n) => Some(n as usize),
            None => None,
        }
    }
}

/// `usize` values have distinct encodings.
pub proof fn lemma_faithful_usize()
    ensures
        faithful_encoding::<usize>(),
{
    assert forall|a: usize, b: usize| #[trigger] a.encoding() == #[trigger] b.encoding() implies a
        == b by {
        lemma_json_integer_injective(a as int, b as int);
    }
}

impl Encode for i8 {
    open spec fn encodes() -> bool {
        true
    }

    open spec fn encoding(&self) -> Seq<u8> {
        json_integer(*self as int)
    }

    fn encode(&self) -> (bytes: Vec<u8>) {
        i64_to_json(*self as i64)
    }

    fn decode(bytes: &[u8]) -> (res: Option<i8>) {
        proof {
            if exists|v: i8| v.encoding() == bytes@ {
                let v = choose|v: i8| v.encoding() == bytes@;
                assert(json_integer((v as i64) as int) == bytes@);
            }
        }
        match decode_signed(bytes, i8::MIN as i64, i8::MAX as i64) {
            Some(n) => Some(n as i8),
            None => None,
        }
    }
}

/// `i8` values have distinct encodings.
pub proof fn lemma_faithful_i8()
    ensures
        faithful_encoding::<i8>(),
{
    assert forall|a: i8, b: i8| #[trigger] a.encoding() == #[trigger] b.encoding() implies a
        == b by {
        lemma_json_integer_injective(a as int, b as int);
    }
}

impl Encode for i16 {
    open spec fn encodes() -> bool {
        true
    }

    open spec fn encoding(&self) -> Seq<u8> {
        json_integer(*self as int)
    }

    fn encode(&self) -> (bytes: Vec<u8>) {
        i64_to_json(*self as i64)
    }

    fn decode(bytes: &[u8]) -> (res: Option<i16>) {
        proof {
            if exists|v: i16| v.encoding() == bytes@ {
                let v = choose|v: i16| v.encoding() == bytes@;
                assert(json_integer((v as i64) as int) == bytes@);
            }
        }
        match decode_signed(bytes, i16::MIN as i64, i16::MAX as i64) {
            Some(n) => Some(n as i16),
            None => None,
        }
    }
}

/// `i16` values have distinct encodings.
pub proof fn lemma_faithful_i16()
    ensures
        faithful_encoding::<i16>(),
{
    assert forall|a: i16, b: i16| #[trigger] a.encoding() == #[trigger] b.encoding() implies a
        == b by {
        lemma_json_integer_injective(a as int, b as int);
    }
}

impl Encode for i32 {
    open spec fn encodes() -> bool {
        true
    }

    open spec fn encoding(&self) -> Seq<u8> {
        json_integer(*self as int)
    }

    fn encode(&self) -> (bytes: Vec<u8>) {
        i64_to_json(*self as i64)
    }

    fn decode(bytes: &[u8]) -> (res: Option<i32>) {
        proof {
            if exists|v: i32| v.encoding() == bytes@ {
                let v = choose|v: i32| v.encoding() == bytes@;
                assert(json_integer((v as i64) as int) == bytes@);
            }
        }
        match decode_signed(bytes, i32::MIN as i64, i32::MAX as i64) {
            Some(n) => Some(n as i32),
            None => None,
        }
    }
}

/// `i32` values have distinct encodings.
pub proof fn lemma_faithful_i32()
    ensures
        faithful_encoding::<i32>(),
{
    assert forall|a: i32, b: i32| #[trigger] a.encoding() == #[trigger] b.encoding() implies a
        == b by {
        lemma_json_integer_injective(a as int, b as int);
    }
}

impl Encode for isize {
    open spec fn encodes() -> bool {
        true
    }

    open spec fn encoding(&self) -> Seq<u8> {
        json_integer(*self as int)
    }

    fn encode(&self) -> (bytes: Vec<u8>) {
        i64_to_json(*self as i64)
    }

    fn decode(bytes: &[u8]) -> (res: Option<isize>) {
        proof {
            if exists|v: isize| v.encoding() == bytes@ {
                let v = choose|v: isize| v.encoding() == bytes@;
                assert(json_integer((v as i64) as int) == bytes@);
            }
        }
        match decode_signed(bytes, isize::MIN as i64, isize::MAX as i64) {
            Some(n) => Some(n as isize),
            None => None,
        }
    }
}

/// `isize` values have distinct encodings.
pub proof fn lemma_faithful_isize()
    ensures
        faithful_encoding::<isize>(),
{
    assert forall|a: isize, b: isize| #[trigger] a.encoding() == #[trigger] b.encoding() implies a
        == b by {
        lemma_json_integer_injective(a as int, b as int);
    }
}

/// The JSON literal `true`.
pub open spec fn json_true() -> Seq<u8> {
    seq![116u8, 114u8, 117u8, 101u8]
}

/// The JSON literal `false`.
pub open spec fn json_false() -> Seq<u8> {
    seq![102u8, 97u8, 108u8, 115u8, 101u8]
}

/// The JSON literal `null`.
pub open spec fn json_null() -> Seq<u8> {
    seq![110u8, 117u8, 108u8, 108u8]
}

impl Encode for bool {
    open spec fn encodes() -> bool {
        true
    }

    open spec fn encoding(&self) -> Seq<u8> {
        if *self {
            json_true()
        } else {
            json_false()
        }
    }

    fn encode(&self) -> (bytes: Vec<u8>) {
        let bytes = if *self {
            vec![116u8, 114u8, 117u8, 101u8]
        } else {
            vec![102u8, 97u8, 108u8, 115u8, 101u8]
        };
        assert(bytes@ =~= self.encoding());
        bytes
    }

    fn decode(bytes: &[u8]) -> (res: Option<bool>) {
        let t = vec![116u8, 114u8, 117u8, 101u8];
        let f = vec![102u8, 97u8, 108u8, 115u8, 101u8];
        assert(t@ =~= json_true());
        assert(f@ =~= json_false());
        if bytes_equal(t.as_slice(), bytes) {
            Some(true)
        } else if bytes_equal(f.as_slice(), bytes) {
            Some(false)
        } else {
            None
        }
    }
}

impl Encode for () {
    open spec fn encodes() -> bool {
        true
    }

    open spec fn encoding(&self) -> Seq<u8> {
        json_null()
    }

    fn encode(&self) -> (bytes: Vec<u8>) {
        let bytes = vec![110u8, 117u8, 108u8, 108u8];
        assert(bytes@ =~= json_null());
        bytes
    }

    fn decode(bytes: &[u8]) -> (res: Option<()>) {
        let n = vec![110u8, 117u8, 108u8, 108u8];
        assert(n@ =~= json_null());
        if bytes_equal(n.as_slice(), bytes) {
            Some(())
        } else {
            None
        }
    }
}

/// `bool` values have distinct encodings.
pub proof fn lemma_faithful_bool()
    ensures
        faithful_encoding::<bool>(),
{
    assert(json_true() != json_false()) by {
        assert(json_true().len() != json_false().len());
    }
}

/// `()` has a single encoding.
pub proof fn lemma_faithful_unit()
    ensures
        faithful_encoding::<()>(),
{
}

impl<T: Encode> Encode for Box<T> {
    open spec fn encodes() -> bool {
        T::encodes()
    }

    open spec fn decodes_all() -> bool {
        T::encodes() && T::decodes_all()
    }

    open spec fn encoding(&self) -> Seq<u8> {
        (**self).encoding()
    }

    fn encode(&self) -> (bytes: Vec<u8>) {
        (**self).encode()
    }

    fn decode(bytes: &[u8]) -> (res: Option<Box<T>>) {
        proof {
            if exists|v: Box<T>| v.encoding() == bytes@ {
                let v = choose|v: Box<T>| v.encoding() == bytes@;
                assert((*v).encoding() == bytes@);
            }
        }
        match T::decode(bytes) {
            Some(v) => Some(Box::new(v)),
            None => None,
        }
    }
}

/// A box of a faithfully encoded type is faithfully encoded.
pub proof fn lemma_faithful_box<T: Encode>()
    requires
        faithful_encoding::<T>(),
    ensures
        faithful_encoding::<Box<T>>(),
{
    assert forall|a: Box<T>, b: Box<T>| #[trigger] a.encoding() == #[trigger] b.encoding() implies a
        == b by {
        assert((*a).encoding() == (*b).encoding());
    }
}

impl<T: Encode> Encode for Arc<T> {
    open spec fn encodes() -> bool {
        T::encodes()
    }

    open spec fn decodes_all() -> bool {
        T::encodes() && T::decodes_all()
    }

    open spec fn encoding(&self) -> Seq<u8> {
        crate::types::sync::arc_inner(*self).encoding()
    }

    fn encode(&self) -> (bytes: Vec<u8>) {
        (**self).encode()
    }

    fn decode(bytes: &[u8]) -> (res: Option<Arc<T>>) {
        proof {
            if exists|v: Arc<T>| v.encoding() == bytes@ {
                let v = choose|v: Arc<T>| v.encoding() == bytes@;
                assert(crate::types::sync::arc_inner(v).encoding() == bytes@);
            }
        }
        match T::decode(bytes) {
            Some(v) => Some(Arc::new(v)),
            None => None,
        }
    }
}

/// An `Arc` of a faithfully encoded type is faithfully encoded.
pub proof fn lemma_faithful_arc<T: Encode>()
    requires
        faithful_encoding::<T>(),
    ensures
        faithful_encoding::<Arc<T>>(),
{
    assert forall|a: Arc<T>, b: Arc<T>| #[trigger] a.encoding() == #[trigger] b.encoding() implies a
        == b by {
        assert(crate::types::sync::arc_inner(a).encoding() == crate::types::sync::arc_inner(
            b,
        ).encoding());
    }
}

} // verus!
