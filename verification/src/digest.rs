//! Content keys: the SHA-1 digest of a byte string, written in Ascii85.
use vstd::prelude::*;

verus! {

/// What SHA-1 computes for `data`: 20 bytes.
pub uninterp spec fn sha1_digest(data: Seq<u8>) -> Seq<u8>;

/// `85` raised to `e`.
pub open spec fn pow85(e: nat) -> nat
    decreases e,
{
    if e == 0 {
        1
    } else {
        85 * pow85((e - 1) as nat)
    }
}

/// The big-endian number held by the first four bytes of `b`.
pub open spec fn be_word(b: Seq<u8>) -> nat {
    (b[0] as nat) * 16777216 + (b[1] as nat) * 65536 + (b[2] as nat) * 256 + (b[3] as nat)
}

/// The `i`-th of the five base-85 digits of `n`, most significant first, as a character.
pub open spec fn ascii85_digit(n: nat, i: nat) -> char {
    (((n / pow85((4 - i) as nat)) % 85) + 33) as char
}

/// The first `count` base-85 digits of the word `n`.
pub open spec fn ascii85_group(n: nat, count: nat) -> Seq<char> {
    Seq::new(count, |i: int| ascii85_digit(n, i as nat))
}

/// Ascii85 digits of `bytes`: five per full group of four bytes; a last group of
/// `k < 4` bytes is padded with zero bytes and gives its first `k + 1` digits.
pub open spec fn ascii85_body(bytes: Seq<u8>) -> Seq<char>
    decreases bytes.len(),
{
    if bytes.len() == 0 {
        Seq::empty()
    } else if bytes.len() >= 4 {
        ascii85_group(be_word(bytes), 5) + ascii85_body(bytes.skip(4))
    } else {
        let padded = bytes + Seq::new((4 - bytes.len()) as nat, |i: int| 0u8);
        ascii85_group(be_word(padded), bytes.len() + 1)
    }
}

/// The Ascii85 text of `bytes`, framed by `<~` and `~>`.
pub open spec fn ascii85_text(bytes: Seq<u8>) -> Seq<char> {
    seq!['<', '~'] + ascii85_body(bytes) + seq!['~', '>']
}

/// The key under which a content-addressed store files `bytes`.
pub open spec fn content_key(bytes: Seq<u8>) -> Seq<char> {
    ascii85_text(sha1_digest(bytes))
}

/// SHA-1 of `data`, computed by `crypto::sha1::Sha1` (`input`, then `result` into a buffer
/// of `output_bytes()` bytes). Claimed: the result is `sha1_digest(data)`, and it is 20
/// bytes long (`output_bits` is 160 for SHA-1).
#[verifier::external_body]
fn sha1(data: &[u8]) -> (digest: Vec<u8>)
    ensures
        digest@ == sha1_digest(data@),
        digest@.len() == 20,
{
    let mut hasher = crypto::sha1::Sha1::new();
    crypto::digest::Digest::input(&mut hasher, data);
    let mut digest: Vec<u8> = vec![0u8; crypto::digest::Digest::output_bytes(&hasher)];
    crypto::digest::Digest::result(&mut hasher, &mut digest);
    digest
}

/// `ascii85::encode`. Claimed: the text is `ascii85_text(bytes)`, as the crate's
/// source computes it (no `z` abbreviation, `<~ ~>` framing).
#[verifier::external_body]
fn ascii85_encode(bytes: &[u8]) -> (text: String)
    ensures
        text@ == ascii85_text(bytes@),
{
    ascii85::encode(bytes)
}

/// The content key of `bytes`: the Ascii85 text of their SHA-1 digest.
pub fn content_key_of(bytes: &[u8]) -> (key: String)
    ensures
        key@ == content_key(bytes@),
{
    let digest = sha1(bytes);
    ascii85_encode(digest.as_slice())
}

} // verus!
