//! Bytes as text, which the `base64` and `hex` crates read and write.

use vstd::prelude::*;

use base64::Engine as _;

use crate::digits::{all_hex, bytes_are_spelled_in_hexadecimal, hex_bytes, hex_digit, lemma_hex_bytes};

verus! {

/// What base64 with the alphabet for URLs and no padding makes of these bytes.
pub uninterp spec fn base64_url(bytes: Seq<u8>) -> Seq<char>;

/// The bytes that a text in base64 with the alphabet for URLs and no padding stands for.
pub uninterp spec fn base64_url_decoded(text: Seq<char>) -> Option<Seq<u8>>;

/// What base64 with the standard alphabet and padding makes of these bytes.
pub uninterp spec fn base64_standard(bytes: Seq<u8>) -> Seq<char>;

/// The bytes that a text in base64 with the standard alphabet and padding stands for, or how the
/// error reads.
pub uninterp spec fn base64_standard_decoded(text: Seq<char>) -> core::result::Result<Seq<u8>, Seq<char>>;

/// How the `hex` crate's error on this text reads.
pub uninterp spec fn hex_error(text: Seq<char>) -> Seq<char>;

/// The bytes that a text of hexadecimal digits stands for, two digits for each.
pub open spec fn hex_decoded(text: Seq<char>) -> Option<Seq<u8>> {
    if text.len() % 2 == 0 && all_hex(text) {
        Some(
            Seq::new(
                text.len() / 2,
                |i: int| (hex_digit(text[2 * i])->0 * 16 + hex_digit(text[2 * i + 1])->0) as u8,
            ),
        )
    } else {
        None
    }
}

/// The length of this many bytes in base64 with padding.
pub open spec fn base64_len(n: nat) -> nat {
    (n + 2) / 3 * 4
}

/// Calls `encode` of `URL_SAFE_NO_PAD`. The text goes by the name [`base64_url`], and decoding it
/// gives the bytes back.
#[verifier::external_body]
pub(crate) fn encode_base64_url(bytes: &[u8]) -> (text: String)
    requires
        base64_len(bytes@.len()) <= isize::MAX,
    ensures
        text@ == base64_url(bytes@),
        base64_url_decoded(text@) == Some(bytes@),
{
    base64::engine::general_purpose::URL_SAFE_NO_PAD.encode(bytes)
}

/// Calls `decode` of `URL_SAFE_NO_PAD`. What it gives goes by the name [`base64_url_decoded`].
#[verifier::external_body]
pub(crate) fn decode_base64_url(text: &str) -> (bytes: Option<Vec<u8>>)
    ensures
        match bytes {
            Some(bytes) => base64_url_decoded(text@) == Some(bytes@),
            None => base64_url_decoded(text@) is None,
        },
{
    base64::engine::general_purpose::URL_SAFE_NO_PAD.decode(text).ok()
}

/// Calls `encode` of `STANDARD`. The text goes by the name [`base64_standard`].
#[verifier::external_body]
pub(crate) fn encode_base64(bytes: &[u8]) -> (text: String)
    requires
        base64_len(bytes@.len()) <= isize::MAX,
    ensures
        text@ == base64_standard(bytes@),
{
    base64::engine::general_purpose::STANDARD.encode(bytes)
}

/// Calls `decode` of `STANDARD`. What it gives, or how its error reads, goes by the name
/// [`base64_standard_decoded`].
#[verifier::external_body]
pub(crate) fn decode_base64(text: &str) -> (bytes: core::result::Result<Vec<u8>, String>)
    ensures
        match bytes {
            Ok(bytes) => base64_standard_decoded(text@) == Ok::<Seq<u8>, Seq<char>>(bytes@),
            Err(err) => base64_standard_decoded(text@) == Err::<Seq<u8>, Seq<char>>(err@),
        },
{
    base64::engine::general_purpose::STANDARD.decode(text).map_err(|err| err.to_string())
}

/// Calls `hex::decode`, which takes an even number of hexadecimal digits of either case and gives
/// a byte for each two. How its error reads goes by the name [`hex_error`].
#[verifier::external_body]
pub(crate) fn decode_hex(text: &str) -> (bytes: core::result::Result<Vec<u8>, String>)
    ensures
        match bytes {
            Ok(bytes) => hex_decoded(text@) == Some(bytes@),
            Err(err) => hex_decoded(text@) is None && err@ == hex_error(text@),
        },
{
    hex::decode(text).map_err(|err| err.to_string())
}

/// Bytes are read back from their hexadecimal text.
#[verifier::rlimit(40)]
pub proof fn hexadecimal_text_is_read_back(bytes: Seq<u8>)
    ensures
        hex_decoded(hex_bytes(bytes)) == Some(bytes),
{
    let text = hex_bytes(bytes);
    lemma_hex_bytes(bytes);
    assert forall|i: int| 0 <= i < text.len() implies hex_digit(#[trigger] text[i]) is Some by {
        bytes_are_spelled_in_hexadecimal(bytes, i / 2);
        assert(i == 2 * (i / 2) || i == 2 * (i / 2) + 1);
    }
    assert forall|i: int| 0 <= i < bytes.len() implies hex_decoded(text)->0[i] == bytes[i] by {
        bytes_are_spelled_in_hexadecimal(bytes, i);
    }
    assert(hex_decoded(text)->0 =~= bytes);
}

/// Texts of an odd length, and texts that hold anything but hexadecimal digits, spell no bytes.
pub proof fn other_texts_spell_no_bytes(text: Seq<char>, i: int)
    ensures
        text.len() % 2 == 1 ==> hex_decoded(text) is None,
        0 <= i < text.len() && hex_digit(text[i]) is None ==> hex_decoded(text) is None,
        text.len() % 2 == 0 && all_hex(text) ==> hex_decoded(text) is Some && hex_decoded(text)->0.len() == text.len() / 2,
        text.len() % 2 == 0 && all_hex(text) && 0 <= i < text.len() / 2 ==> hex_decoded(text)->0[i] == hex_digit(
            text[2 * i],
        )->0 * 16 + hex_digit(text[2 * i + 1])->0,
{
    if text.len() % 2 == 0 && all_hex(text) && 0 <= i < text.len() / 2 {
        assert(hex_digit(text[2 * i]) is Some && hex_digit(text[2 * i + 1]) is Some);
        crate::digits::hexadecimal_digits_have_their_values(text[2 * i]);
        crate::digits::hexadecimal_digits_have_their_values(text[2 * i + 1]);
    }
}

} // verus!
