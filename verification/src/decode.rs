//! Turning the bytes of a downloaded subtitle file into text: UTF-8 (with
//! or without a byte-order mark), UTF-16 with a byte-order mark, and
//! Windows-1252 as the last resort.
use vstd::prelude::*;
use vstd::utf8::{decode_utf8, valid_utf8};

verus! {

/// The encodings tried after UTF-8.
#[derive(Clone, Copy, Debug, PartialEq, Eq, Structural)]
pub enum Codec {
    Utf16Le,
    Utf16Be,
    Windows1252,
}

/// What `encoding_rs::Encoding::decode` makes of bytes with the given
/// encoding: the text and whether malformed input was replaced.
pub uninterp spec fn decoded_with(codec: Codec, b: Seq<u8>) -> (Seq<char>, bool);

/// `std::str::from_utf8`: accepts exactly the well-formed UTF-8 byte
/// strings and decodes them.
#[verifier::external_body]
fn utf8_text(b: &[u8]) -> (r: Option<String>)
    ensures
        r is Some <==> valid_utf8(b@),
        r matches Some(s) ==> s@ == decode_utf8(b@),
{
    std::str::from_utf8(b).ok().map(|s| s.to_string())
}

/// `encoding_rs::UTF_16LE.decode`; the text and error flag are named by
/// `decoded_with(Codec::Utf16Le, ..)`.
#[verifier::external_body]
fn decode_utf16le(b: &[u8]) -> (r: (String, bool))
    ensures
        (r.0@, r.1) == decoded_with(Codec::Utf16Le, b@),
{
    let (text, _, had_errors) = encoding_rs::UTF_16LE.decode(b);
    (text.into_owned(), had_errors)
}

/// `encoding_rs::UTF_16BE.decode`; named by `decoded_with(Codec::Utf16Be, ..)`.
#[verifier::external_body]
fn decode_utf16be(b: &[u8]) -> (r: (String, bool))
    ensures
        (r.0@, r.1) == decoded_with(Codec::Utf16Be, b@),
{
    let (text, _, had_errors) = encoding_rs::UTF_16BE.decode(b);
    (text.into_owned(), had_errors)
}

/// `encoding_rs::WINDOWS_1252.decode`; named by
/// `decoded_with(Codec::Windows1252, ..)`.
#[verifier::external_body]
fn decode_windows1252(b: &[u8]) -> (r: (String, bool))
    ensures
        (r.0@, r.1) == decoded_with(Codec::Windows1252, b@),
{
    let (text, _, had_errors) = encoding_rs::WINDOWS_1252.decode(b);
    (text.into_owned(), had_errors)
}

pub open spec fn starts_with_bytes(b: Seq<u8>, p: Seq<u8>) -> bool {
    p.len() <= b.len() && b.take(p.len() as int) == p
}

/// The UTF-8 byte-order mark.
pub open spec fn utf8_bom() -> Seq<u8> {
    seq![0xEFu8, 0xBBu8, 0xBFu8]
}

/// The text of `b`: UTF-8 once a leading UTF-8 byte-order mark is dropped;
/// else UTF-16 (little- or big-endian, after its byte-order mark) when it
/// decodes without errors; else Windows-1252 of all the bytes.
pub open spec fn decoded_text(b: Seq<u8>) -> Seq<char> {
    let stripped = if starts_with_bytes(b, utf8_bom()) {
        b.skip(3)
    } else {
        b
    };
    if valid_utf8(stripped) {
        decode_utf8(stripped)
    } else if starts_with_bytes(b, seq![0xFFu8, 0xFEu8]) && !decoded_with(
        Codec::Utf16Le,
        b.skip(2),
    ).1 {
        decoded_with(Codec::Utf16Le, b.skip(2)).0
    } else if starts_with_bytes(b, seq![0xFEu8, 0xFFu8]) && !decoded_with(
        Codec::Utf16Be,
        b.skip(2),
    ).1 {
        decoded_with(Codec::Utf16Be, b.skip(2)).0
    } else {
        decoded_with(Codec::Windows1252, b).0
    }
}

/// The bytes of `b` from `from` on.
fn bytes_from(b: &[u8], from: usize) -> (r: Vec<u8>)
    requires
        from <= b@.len(),
    ensures
        r@ == b@.skip(from as int),
{
    let mut r: Vec<u8> = Vec::new();
    let mut i = from;
    while i < b.len()
        invariant
            from <= i <= b@.len(),
            r@ == b@.subrange(from as int, i as int),
        decreases b@.len() - i,
    {
        r.push(b[i]);
        i += 1;
        assert(r@ =~= b@.subrange(from as int, i as int));
    }
    assert(b@.subrange(from as int, b@.len() as int) =~= b@.skip(from as int));
    r
}

fn starts_with2(b: &[u8], x: u8, y: u8) -> (r: bool)
    ensures
        r == starts_with_bytes(b@, seq![x, y]),
{
    let r = b.len() >= 2 && b[0] == x && b[1] == y;
    proof {
        if b@.len() >= 2 {
            if r {
                assert(b@.take(2) =~= seq![x, y]);
            } else {
                assert(b@.take(2)[0] == b@[0]);
                assert(b@.take(2)[1] == b@[1]);
            }
        }
    }
    r
}

/// Decodes subtitle bytes to text (see `decoded_text`).
pub fn try_decode(bytes: &[u8]) -> (r: String)
    ensures
        r@ == decoded_text(bytes@),
{
    let has_bom = bytes.len() >= 3 && bytes[0] == 0xEF && bytes[1] == 0xBB && bytes[2] == 0xBF;
    proof {
        if bytes@.len() >= 3 {
            if has_bom {
                assert(bytes@.take(3) =~= utf8_bom());
            } else {
                assert(bytes@.take(3)[0] == bytes@[0]);
                assert(bytes@.take(3)[1] == bytes@[1]);
                assert(bytes@.take(3)[2] == bytes@[2]);
            }
        }
    }
    let stripped = if has_bom {
        bytes_from(bytes, 3)
    } else {
        bytes_from(bytes, 0)
    };
    assert(bytes@.skip(0) =~= bytes@);
    if let Some(s) = utf8_text(stripped.as_slice()) {
        return s;
    }
    if starts_with2(bytes, 0xFF, 0xFE) {
        let rest = bytes_from(bytes, 2);
        let (decoded, had_errors) = decode_utf16le(rest.as_slice());
        if !had_errors {
            return decoded;
        }
    }
    if starts_with2(bytes, 0xFE, 0xFF) {
        let rest = bytes_from(bytes, 2);
        let (decoded, had_errors) = decode_utf16be(rest.as_slice());
        if !had_errors {
            return decoded;
        }
    }
    let (decoded, _) = decode_windows1252(bytes);
    decoded
}

} // verus!
