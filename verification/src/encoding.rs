//! Character-set detection: a byte-order mark decides first, then strict UTF-8, and
//! Shift_JIS is the fallback.

use vstd::prelude::*;
use vstd::slice::slice_subrange;
use vstd::utf8::{
    codepoint_width_3, decode_first_scalar, decode_utf8, encode_utf8, encode_utf8_decode_utf8,
    encode_utf8_first_scalar, encode_utf8_valid_utf8, valid_utf8,
};

verus! {

/// A decoded document and the name of the encoding it was read in.
pub struct Decoded {
    pub text: String,
    pub encoding: &'static str,
}

/// The text of `bytes` read as UTF-8 with malformed sequences replaced by U+FFFD
/// (`String::from_utf8_lossy`).
pub uninterp spec fn utf8_lossy(bytes: Seq<u8>) -> Seq<char>;

/// The text of `bytes` read as UTF-16 little-endian without BOM handling, malformed
/// sequences replaced (`encoding_rs::UTF_16LE.decode_without_bom_handling`).
pub uninterp spec fn utf16le_text(bytes: Seq<u8>) -> Seq<char>;

/// The text of `bytes` read as UTF-16 big-endian without BOM handling, malformed
/// sequences replaced (`encoding_rs::UTF_16BE.decode_without_bom_handling`).
pub uninterp spec fn utf16be_text(bytes: Seq<u8>) -> Seq<char>;

/// The text of `bytes` read as Shift_JIS with BOM sniffing, malformed sequences replaced
/// (`encoding_rs::SHIFT_JIS.decode`).
pub uninterp spec fn shift_jis_text(bytes: Seq<u8>) -> Seq<char>;

/// Inputs small enough that no decoder's output buffer overflows (`encoding_rs` panics
/// when its buffer-size computation overflows, and a `String` holds at most
/// `isize::MAX` bytes; every decoder here writes at most three bytes per input byte, plus
/// a few).
pub open spec fn decodable_len(len: nat) -> bool {
    3 * len + 8 <= isize::MAX
}

/// Calls `String::from_utf8_lossy`; the result is named `utf8_lossy`. As its
/// documentation says, valid UTF-8 comes back unchanged.
#[verifier::external_body]
fn utf8_lossy_string(bytes: &[u8]) -> (r: String)
    requires
        decodable_len(bytes@.len()),
    ensures
        r@ == utf8_lossy(bytes@),
        valid_utf8(bytes@) ==> r@ == decode_utf8(bytes@),
{
    String::from_utf8_lossy(bytes).into_owned()
}

/// Calls `std::str::from_utf8`: `Some` exactly when the bytes are valid UTF-8, with the
/// characters they encode.
#[verifier::external_body]
fn strict_utf8(bytes: &[u8]) -> (r: Option<String>)
    ensures
        r is Some <==> valid_utf8(bytes@),
        r matches Some(s) ==> s@ == decode_utf8(bytes@),
{
    match std::str::from_utf8(bytes) {
        Ok(text) => Some(text.to_owned()),
        Err(_) => None,
    }
}

/// Calls `encoding_rs::UTF_16LE.decode_without_bom_handling`; the text is named
/// `utf16le_text`.
#[verifier::external_body]
fn decode_utf16le(bytes: &[u8]) -> (r: String)
    requires
        decodable_len(bytes@.len()),
    ensures
        r@ == utf16le_text(bytes@),
{
    encoding_rs::UTF_16LE.decode_without_bom_handling(bytes).0.into_owned()
}

/// Calls `encoding_rs::UTF_16BE.decode_without_bom_handling`; the text is named
/// `utf16be_text`.
#[verifier::external_body]
fn decode_utf16be(bytes: &[u8]) -> (r: String)
    requires
        decodable_len(bytes@.len()),
    ensures
        r@ == utf16be_text(bytes@),
{
    encoding_rs::UTF_16BE.decode_without_bom_handling(bytes).0.into_owned()
}

/// Calls `encoding_rs::SHIFT_JIS.decode`; the text is named `shift_jis_text`.
#[verifier::external_body]
fn decode_shift_jis(bytes: &[u8]) -> (r: String)
    requires
        decodable_len(bytes@.len()),
    ensures
        r@ == shift_jis_text(bytes@),
{
    encoding_rs::SHIFT_JIS.decode(bytes).0.into_owned()
}

/// The byte-order marks the detection knows.
pub enum Bom {
    Utf8,
    Utf16Le,
    Utf16Be,
}

/// `bytes` starts with `prefix`.
pub open spec fn starts_with(bytes: Seq<u8>, prefix: Seq<u8>) -> bool {
    prefix.len() <= bytes.len() && bytes.subrange(0, prefix.len() as int) == prefix
}

/// The byte-order mark at the start of `bytes`, if any: `EF BB BF` for UTF-8, then
/// `FF FE` for UTF-16 LE, then `FE FF` for UTF-16 BE.
pub open spec fn bom_of(bytes: Seq<u8>) -> Option<Bom> {
    if starts_with(bytes, seq![0xEFu8, 0xBBu8, 0xBFu8]) {
        Some(Bom::Utf8)
    } else if starts_with(bytes, seq![0xFFu8, 0xFEu8]) {
        Some(Bom::Utf16Le)
    } else if starts_with(bytes, seq![0xFEu8, 0xFFu8]) {
        Some(Bom::Utf16Be)
    } else {
        None
    }
}

/// Length of a byte-order mark.
pub open spec fn bom_len(bom: Bom) -> nat {
    match bom {
        Bom::Utf8 => 3,
        Bom::Utf16Le => 2,
        Bom::Utf16Be => 2,
    }
}

/// Detects the byte-order mark at the start of `bytes`.
pub fn detect_bom(bytes: &[u8]) -> (r: Option<Bom>)
    ensures
        r == bom_of(bytes@),
{
    let n = bytes.len();
    if n >= 3 && bytes[0] == 0xEF && bytes[1] == 0xBB && bytes[2] == 0xBF {
        assert(bytes@.subrange(0, 3) =~= seq![0xEFu8, 0xBBu8, 0xBFu8]);
        return Some(Bom::Utf8);
    }
    assert(!starts_with(bytes@, seq![0xEFu8, 0xBBu8, 0xBFu8])) by {
        if n >= 3 {
            assert(bytes@.subrange(0, 3)[0] == bytes@[0]);
            assert(bytes@.subrange(0, 3)[1] == bytes@[1]);
            assert(bytes@.subrange(0, 3)[2] == bytes@[2]);
        }
    }
    if n >= 2 && bytes[0] == 0xFF && bytes[1] == 0xFE {
        assert(bytes@.subrange(0, 2) =~= seq![0xFFu8, 0xFEu8]);
        return Some(Bom::Utf16Le);
    }
    assert(!starts_with(bytes@, seq![0xFFu8, 0xFEu8])) by {
        if n >= 2 {
            assert(bytes@.subrange(0, 2)[0] == bytes@[0]);
            assert(bytes@.subrange(0, 2)[1] == bytes@[1]);
        }
    }
    if n >= 2 && bytes[0] == 0xFE && bytes[1] == 0xFF {
        assert(bytes@.subrange(0, 2) =~= seq![0xFEu8, 0xFFu8]);
        return Some(Bom::Utf16Be);
    }
    assert(!starts_with(bytes@, seq![0xFEu8, 0xFFu8])) by {
        if n >= 2 {
            assert(bytes@.subrange(0, 2)[0] == bytes@[0]);
            assert(bytes@.subrange(0, 2)[1] == bytes@[1]);
        }
    }
    None
}

/// The text that [`decode`] produces for `bytes`: after a BOM, the rest read in the
/// BOM's encoding (UTF-8 leniently); without one, strict UTF-8 if the bytes are valid
/// UTF-8, else Shift_JIS.
pub open spec fn decoded_text(bytes: Seq<u8>) -> Seq<char> {
    match bom_of(bytes) {
        Some(Bom::Utf8) => utf8_lossy(bytes.skip(3)),
        Some(Bom::Utf16Le) => utf16le_text(bytes.skip(2)),
        Some(Bom::Utf16Be) => utf16be_text(bytes.skip(2)),
        None => if valid_utf8(bytes) {
            decode_utf8(bytes)
        } else {
            shift_jis_text(bytes)
        },
    }
}

/// The encoding name that [`decode`] reports for `bytes`.
pub open spec fn encoding_name(bytes: Seq<u8>) -> Seq<char> {
    match bom_of(bytes) {
        Some(Bom::Utf8) => "UTF-8 (BOM)"@,
        Some(Bom::Utf16Le) => "UTF-16 LE"@,
        Some(Bom::Utf16Be) => "UTF-16 BE"@,
        None => if valid_utf8(bytes) {
            "UTF-8"@
        } else {
            "Shift_JIS"@
        },
    }
}

/// Detects the encoding of a document and decodes it: BOM first, then strict UTF-8,
/// Shift_JIS as the fallback.
pub fn decode(bytes: &[u8]) -> (d: Decoded)
    requires
        decodable_len(bytes@.len()),
    ensures
        d.text@ == decoded_text(bytes@),
        d.encoding@ == encoding_name(bytes@),
        bom_of(bytes@) == Some(Bom::Utf8) && valid_utf8(bytes@.skip(3)) ==> d.text@ == decode_utf8(
            bytes@.skip(3),
        ),
{
    let n = bytes.len();
    match detect_bom(bytes) {
        Some(Bom::Utf8) => {
            let rest = slice_subrange(bytes, 3, n);
            assert(rest@ =~= bytes@.skip(3));
            Decoded { text: utf8_lossy_string(rest), encoding: "UTF-8 (BOM)" }
        },
        Some(Bom::Utf16Le) => {
            let rest = slice_subrange(bytes, 2, n);
            assert(rest@ =~= bytes@.skip(2));
            Decoded { text: decode_utf16le(rest), encoding: "UTF-16 LE" }
        },
        Some(Bom::Utf16Be) => {
            let rest = slice_subrange(bytes, 2, n);
            assert(rest@ =~= bytes@.skip(2));
            Decoded { text: decode_utf16be(rest), encoding: "UTF-16 BE" }
        },
        None => match strict_utf8(bytes) {
            Some(text) => Decoded { text, encoding: "UTF-8" },
            None => Decoded { text: decode_shift_jis(bytes), encoding: "Shift_JIS" },
        },
    }
}


/// The byte-order mark as a character.
pub open spec fn bom_char() -> char {
    '\u{FEFF}'
}

/// Text saved as UTF-8 without a byte-order mark (so not starting with U+FEFF) is read
/// back unchanged, and reported as UTF-8.
pub proof fn lemma_utf8_roundtrip(text: Seq<char>)
    requires
        text.len() == 0 || text[0] != bom_char(),
    ensures
        decoded_text(encode_utf8(text)) == text,
        encoding_name(encode_utf8(text)) == "UTF-8"@,
{
    let bytes = encode_utf8(text);
    encode_utf8_valid_utf8(text);
    encode_utf8_decode_utf8(text);
    if text.len() > 0 {
        encode_utf8_first_scalar(text);
        let b0 = bytes[0];
        assert(b0 != 0xFFu8 && b0 != 0xFEu8);
        assert(!starts_with(bytes, seq![0xFFu8, 0xFEu8])) by {
            if starts_with(bytes, seq![0xFFu8, 0xFEu8]) {
                assert(bytes.subrange(0, 2)[0] == bytes[0]);
            }
        }
        assert(!starts_with(bytes, seq![0xFEu8, 0xFFu8])) by {
            if starts_with(bytes, seq![0xFEu8, 0xFFu8]) {
                assert(bytes.subrange(0, 2)[0] == bytes[0]);
            }
        }
        assert(!starts_with(bytes, seq![0xEFu8, 0xBBu8, 0xBFu8])) by {
            if starts_with(bytes, seq![0xEFu8, 0xBBu8, 0xBFu8]) {
                assert(bytes.subrange(0, 3)[0] == bytes[0]);
                assert(bytes.subrange(0, 3)[1] == bytes[1]);
                assert(bytes.subrange(0, 3)[2] == bytes[2]);
                assert(codepoint_width_3(0xEFu8, 0xBBu8, 0xBFu8) == 0xFEFFu32) by (bit_vector);
                assert(decode_first_scalar(bytes) == 0xFEFFu32);
                assert(text[0] as u32 == 0xFEFFu32);
                assert(bom_char() as u32 == 0xFEFFu32);
            }
        }
    } else {
        assert(bytes.len() == 0);
    }
}

} // verus!
