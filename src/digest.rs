//! Content hashes: SHA-1 digests written as lowercase hexadecimal.
use sha1::Digest;
use vstd::prelude::*;
use vstd::string::StringSliceAdditionalSpecFns;
use vstd::utf8::{encode_utf8, is_ascii_chars, is_ascii_chars_encode_utf8};

verus! {

/// The sixteen lowercase hexadecimal digits.
pub open spec fn hex_digits() -> Seq<char> {
    seq!['0', '1', '2', '3', '4', '5', '6', '7', '8', '9', 'a', 'b', 'c', 'd', 'e', 'f']
}

/// Two lowercase hex digits per byte, the high nibble first.
pub open spec fn lower_hex(b: Seq<u8>) -> Seq<char> {
    Seq::new(
        2 * b.len(),
        |i: int|
            if i % 2 == 0 {
                hex_digits()[(b[i / 2] / 16) as int]
            } else {
                hex_digits()[(b[i / 2] % 16) as int]
            },
    )
}

pub open spec fn is_hex_byte(c: u8) -> bool {
    (48 <= c <= 57) || (97 <= c <= 102) || (65 <= c <= 70)
}

pub open spec fn hex_value(c: u8) -> int {
    if 48 <= c <= 57 {
        c - 48
    } else if 97 <= c <= 102 {
        c - 87
    } else {
        c - 55
    }
}

/// Text that hex decoding accepts: an even number of hex digits, in either case.
pub open spec fn valid_hex(s: Seq<u8>) -> bool {
    &&& s.len() % 2 == 0
    &&& forall|i: int| 0 <= i < s.len() ==> is_hex_byte(#[trigger] s[i])
}

/// The bytes that a valid hex text stands for.
pub open spec fn unhex(s: Seq<u8>) -> Seq<u8> {
    Seq::new(s.len() / 2, |i: int| (16 * hex_value(s[2 * i]) + hex_value(s[2 * i + 1])) as u8)
}

/// Forty lowercase hex digits: the text form of a content hash.
pub open spec fn is_object_id(s: Seq<char>) -> bool {
    &&& s.len() == 40
    &&& forall|i: int| 0 <= i < s.len() ==> hex_digits().contains(#[trigger] s[i])
}

pub proof fn lemma_hex_digit_char(c: char)
    requires
        hex_digits().contains(c),
    ensures
        '\0' <= c <= '\u{7f}',
        is_hex_byte(c as u8),
        0 <= hex_value(c as u8) < 16,
        hex_digits()[hex_value(c as u8)] == c,
{
    let k = choose|k: int| 0 <= k < 16 && hex_digits()[k] == c;
    assert(hex_digits()[k] == c);
}

/// The text of a content hash decodes to twenty bytes that encode back to it.
pub proof fn lemma_object_id_hex(s: Seq<char>)
    requires
        is_object_id(s),
    ensures
        valid_hex(encode_utf8(s)),
        unhex(encode_utf8(s)).len() == 20,
        lower_hex(unhex(encode_utf8(s))) == s,
{
    assert forall|i: int| 0 <= i < s.len() implies '\0' <= #[trigger] s[i] <= '\u{7f}' by {
        lemma_hex_digit_char(s[i]);
    }
    assert(is_ascii_chars(s));
    is_ascii_chars_encode_utf8(s);
    let b = encode_utf8(s);
    assert forall|i: int| 0 <= i < b.len() implies is_hex_byte(#[trigger] b[i]) by {
        lemma_hex_digit_char(s[i]);
        assert(s[i] as u8 == b[i]);
    }
    let u = unhex(b);
    let h = lower_hex(u);
    assert forall|i: int| 0 <= i < s.len() implies #[trigger] h[i] == s[i] by {
        let j = i / 2;
        lemma_hex_digit_char(s[2 * j]);
        lemma_hex_digit_char(s[2 * j + 1]);
        assert(s[2 * j] as u8 == b[2 * j]);
        assert(s[2 * j + 1] as u8 == b[2 * j + 1]);
        let hi = hex_value(b[2 * j]);
        let lo = hex_value(b[2 * j + 1]);
        assert(u[j] == (16 * hi + lo) as u8);
        assert((16 * hi + lo) / 16 == hi && (16 * hi + lo) % 16 == lo) by (nonlinear_arith)
            requires
                0 <= hi < 16,
                0 <= lo < 16,
        ;
    }
    assert(h =~= s);
}

/// Twenty bytes in lowercase hex are a content hash's text.
pub proof fn lemma_lower_hex_is_object_id(b: Seq<u8>)
    requires
        b.len() == 20,
    ensures
        is_object_id(lower_hex(b)),
{
    let h = lower_hex(b);
    assert forall|i: int| 0 <= i < h.len() implies hex_digits().contains(#[trigger] h[i]) by {
        let k: int = if i % 2 == 0 { (b[i / 2] / 16) as int } else { (b[i / 2] % 16) as int };
        assert(h[i] == hex_digits()[k]);
    }
}

/// The SHA-1 digest of a byte string.
pub uninterp spec fn sha1_digest(data: Seq<u8>) -> Seq<u8>;

/// The identity of stored content: its SHA-1 digest in lowercase hex.
pub open spec fn content_id(data: Seq<u8>) -> Seq<char> {
    lower_hex(sha1_digest(data))
}

/// Relies on sha1::Sha1 (through digest::Digest): the SHA-1 digest of the
/// input, which the output type fixes at twenty bytes.
#[verifier::external_body]
fn sha1_of(data: &[u8]) -> (r: Vec<u8>)
    ensures
        r@ == sha1_digest(data@),
        r@.len() == 20,
{
    let mut hasher = sha1::Sha1::new();
    hasher.update(data);
    hasher.finalize().to_vec()
}

/// Relies on hex::encode: two lowercase digits per byte, high nibble first.
#[verifier::external_body]
pub(crate) fn hex_encode(data: &[u8]) -> (r: String)
    ensures
        r@ == lower_hex(data@),
{
    hex::encode(data)
}

/// Relies on hex::decode: it fails on an odd length or on a byte that is
/// not a hex digit, and otherwise turns each pair of digits into one byte.
#[verifier::external_body]
pub(crate) fn hex_decode(text: &str) -> (r: Option<Vec<u8>>)
    ensures
        r is Some <==> valid_hex(text.spec_bytes()),
        r matches Some(v) ==> v@ == unhex(text.spec_bytes()),
{
    hex::decode(text).ok()
}

/// The content hash of `data`: forty lowercase hex digits.
pub fn content_hash(data: &[u8]) -> (r: String)
    ensures
        r@ == content_id(data@),
        is_object_id(r@),
{
    let digest = sha1_of(data);
    proof {
        lemma_lower_hex_is_object_id(digest@);
    }
    hex_encode(digest.as_slice())
}

} // verus!
