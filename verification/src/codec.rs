//! Encodings the session protocol relies on: standard base64 (`base64`),
//! SHA-256 (`sha2`), constant-time comparison (`subtle`), lowercase hex and
//! UTF-16LE.
use vstd::prelude::*;
use base64::Engine;
use sha2::Digest;
use subtle::ConstantTimeEq;
use crate::text::{chars_of, utf16_units};

verus! {

/// Standard base64 (RFC 4648 alphabet, `=` padding) of `bytes`.
pub uninterp spec fn base64_encoding(bytes: Seq<u8>) -> Seq<char>;

/// Standard base64 decoding of `text` with canonical padding required, or
/// `None` when `text` is not valid base64.
pub uninterp spec fn base64_decoding(text: Seq<char>) -> Option<Seq<u8>>;

/// SHA-256 digest of `data`.
pub uninterp spec fn sha256_digest(data: Seq<u8>) -> Seq<u8>;

/// `base64::engine::general_purpose::STANDARD.encode`. Its result is named
/// [`base64_encoding`]; the standard engine pads canonically, which its own
/// decoder accepts, so decoding the result gives the bytes back. The length
/// limit keeps the encoder's length computation from overflowing, which
/// would panic.
#[verifier::external_body]
pub(crate) fn base64_encode(bytes: &[u8]) -> (r: String)
    requires
        bytes@.len() <= usize::MAX / 4 * 3,
    ensures
        r@ == base64_encoding(bytes@),
        base64_decoding(r@) == Some(bytes@),
{
    base64::engine::general_purpose::STANDARD.encode(bytes)
}

/// `base64::engine::general_purpose::STANDARD.decode` of the text's bytes:
/// the bytes, named [`base64_decoding`], or, when the text is not valid
/// base64, the decoder's error as its `Display` text. Nothing is stated of
/// that text.
#[verifier::external_body]
pub(crate) fn base64_decode(text: &str) -> (r: Result<Vec<u8>, String>)
    ensures
        match r {
            Ok(v) => base64_decoding(text@) == Some(v@),
            Err(_) => base64_decoding(text@) is None,
        },
{
    match base64::engine::general_purpose::STANDARD.decode(text) {
        Ok(bytes) => Ok(bytes),
        Err(error) => Err(error.to_string()),
    }
}

/// `sha2::Sha256::digest`: the 32-byte digest, named [`sha256_digest`].
#[verifier::external_body]
pub(crate) fn sha256(data: &[u8]) -> (r: Vec<u8>)
    ensures
        r@ == sha256_digest(data@),
        r@.len() == 32,
{
    sha2::Sha256::digest(data).to_vec()
}

/// `subtle::ConstantTimeEq::ct_eq` on byte slices, as a `bool`: true exactly
/// when both slices hold the same bytes (lengths are compared first).
#[verifier::external_body]
pub(crate) fn constant_time_eq(a: &[u8], b: &[u8]) -> (r: bool)
    ensures
        r == (a@ == b@),
{
    bool::from(a.ct_eq(b))
}

pub open spec fn hex_digit(v: nat) -> char {
    if v < 10 {
        (48 + v) as char
    } else {
        (87 + v) as char
    }
}

/// Lowercase hexadecimal, two digits per byte.
pub open spec fn lower_hex(bytes: Seq<u8>) -> Seq<char>
    decreases bytes.len(),
{
    if bytes.len() == 0 {
        seq![]
    } else {
        lower_hex(bytes.drop_last()) + seq![
            hex_digit((bytes.last() / 16) as nat),
            hex_digit((bytes.last() % 16) as nat),
        ]
    }
}

/// The little-endian bytes of the UTF-16 encoding of `s`.
pub open spec fn utf16le(s: Seq<char>) -> Seq<u8>
    decreases s.len(),
{
    if s.len() == 0 {
        seq![]
    } else {
        utf16le(s.drop_last()) + units_le(utf16_units(s.last() as u32 as nat))
    }
}

pub open spec fn units_le(units: Seq<u16>) -> Seq<u8>
    decreases units.len(),
{
    if units.len() == 0 {
        seq![]
    } else {
        seq![(units[0] % 256) as u8, (units[0] / 256) as u8] + units_le(units.drop_first())
    }
}

fn hex_char(v: u8) -> (c: char)
    requires
        v < 16,
    ensures
        c == hex_digit(v as nat),
{
    if v < 10 {
        (48 + v) as char
    } else {
        (87 + v) as char
    }
}

/// Lowercase hex of `bytes`.
pub fn to_lower_hex(bytes: &[u8]) -> (r: Vec<char>)
    ensures
        r@ == lower_hex(bytes@),
{
    let mut r: Vec<char> = Vec::new();
    let mut i: usize = 0;
    while i < bytes.len()
        invariant
            i <= bytes@.len(),
            r@ == lower_hex(bytes@.take(i as int)),
        decreases bytes@.len() - i,
    {
        let b = bytes[i];
        r.push(hex_char(b / 16));
        r.push(hex_char(b % 16));
        assert(bytes@.take(i + 1).drop_last() =~= bytes@.take(i as int));
        assert(r@ =~= lower_hex(bytes@.take(i + 1)));
        i = i + 1;
    }
    assert(bytes@.take(i as int) =~= bytes@);
    r
}

/// The UTF-16LE bytes of `text`.
pub fn utf16le_bytes(text: &str) -> (r: Vec<u8>)
    ensures
        r@ == utf16le(text@),
{
    let chars = chars_of(text);
    let mut r: Vec<u8> = Vec::new();
    let mut i: usize = 0;
    while i < chars.len()
        invariant
            i <= chars@.len(),
            chars@ == text@,
            r@ == utf16le(chars@.take(i as int)),
        decreases chars@.len() - i,
    {
        let v = chars[i] as u32;
        let ghost before = r@;
        let ghost u = utf16_units(v as nat);
        if v < 0x10000 {
            r.push((v % 256) as u8);
            r.push((v / 256) as u8);
            proof {
                assert(u =~= seq![v as u16]);
                assert((v as u16) as nat == v as nat);
                assert(u.drop_first() =~= Seq::<u16>::empty());
                assert(units_le(u.drop_first()) =~= Seq::<u8>::empty());
                assert(units_le(u) =~= seq![(u[0] % 256) as u8, (u[0] / 256) as u8]);
                assert(r@ =~= before + units_le(u));
            }
        } else {
            let w = v - 0x10000;
            let hi = 0xD800 + w / 1024;
            let lo = 0xDC00 + w % 1024;
            r.push((hi % 256) as u8);
            r.push((hi / 256) as u8);
            r.push((lo % 256) as u8);
            r.push((lo / 256) as u8);
            proof {
                vstd::utf8::char_is_scalar(chars@[i as int]);
                assert(v <= 0x10ffff);
                assert(hi < 0x10000 && lo < 0x10000);
                assert(u =~= seq![hi as u16, lo as u16]);
                let u1 = u.drop_first();
                assert(u1 =~= seq![lo as u16]);
                assert(u1.drop_first() =~= Seq::<u16>::empty());
                assert(units_le(u1.drop_first()) =~= Seq::<u8>::empty());
                assert(units_le(u1) =~= seq![(u1[0] % 256) as u8, (u1[0] / 256) as u8]);
                assert(units_le(u) =~= seq![(u[0] % 256) as u8, (u[0] / 256) as u8, (u[1] % 256) as u8, (u[1] / 256) as u8]);
                assert(r@ =~= before + units_le(u));
            }
        }
        proof {
            let c = chars@[i as int];
            assert(c as u32 == v);
            let t = chars@.take(i + 1);
            assert(t.drop_last() =~= chars@.take(i as int));
            assert(t.last() == c);
        }
        i = i + 1;
    }
    assert(chars@.take(i as int) =~= chars@);
    r
}

/// A PowerShell `-EncodedCommand` argument: base64 of the script's UTF-16LE
/// bytes.
pub fn encoded_command(script: &str) -> (r: String)
    requires
        utf16le(script@).len() <= usize::MAX / 4 * 3,
    ensures
        r@ == base64_encoding(utf16le(script@)),
{
    let bytes = utf16le_bytes(script);
    base64_encode(bytes.as_slice())
}

} // verus!
