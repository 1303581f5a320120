//! Byte strings as text.
//!
//! The runtime's strings are text, so bytes travel in base64. The alphabet
//! work is done by the `base64` crate; what it returns is named here and the
//! rest of the library reasons over those names.

use vstd::prelude::*;
use vstd::string::StringSliceAdditionalSpecFns;

verus! {

/// The error of the `base64` crate's decoder.
#[verifier::external_type_specification]
#[verifier::external_body]
pub struct ExDecodeError(base64::DecodeError);

/// The base64 text of a byte string: standard alphabet, with padding.
pub uninterp spec fn base64_text(bytes: Seq<u8>) -> Seq<char>;

/// The byte string that a base64 text stands for, if the text is valid:
/// standard alphabet, padded, no stray bits in the last symbol.
pub uninterp spec fn base64_bytes(text: Seq<char>) -> Option<Seq<u8>>;

/// The length of the base64 text of `len` bytes: four symbols for every three
/// bytes, the last group padded.
pub open spec fn base64_len(len: nat) -> nat {
    (len / 3) * 4 + if len % 3 > 0 {
        4nat
    } else {
        0nat
    }
}

/// Whether the base64 text of so many bytes is one that a string can hold:
/// no allocation is longer than `isize::MAX` bytes.
pub open spec fn text_fits(len: nat) -> bool {
    base64_len(len) <= isize::MAX
}

/// Whether a text is short enough to be taken for base64: what it stands for
/// is written to one allocation, of at most as many bytes as the text has.
pub open spec fn text_is_short(text: Seq<char>) -> bool {
    vstd::utf8::encode_utf8(text).len() <= isize::MAX
}

/// `base64::encode`: the standard base64 text of `bytes`. The crate panics
/// where the length of that text overflows `usize`, and it allocates the text
/// at once, so input whose text no allocation can hold is left out.
#[verifier::external_body]
pub(crate) fn encode_base64(bytes: &[u8]) -> (text: String)
    requires
        text_fits(bytes@.len()),
    ensures
        text@ == base64_text(bytes@),
{
    base64::encode(bytes)
}

/// `base64::decode`: the bytes that `text` stands for in standard base64, or
/// the crate's error where `text` is no valid encoding. The crate panics where
/// rounding the length of `text` up to whole chunks overflows `usize`, and it
/// allocates room for the bytes at once, so text that is longer than an
/// allocation can be is left out.
#[verifier::external_body]
pub(crate) fn decode_base64(text: &str) -> (decoded: Result<Vec<u8>, base64::DecodeError>)
    requires
        text_is_short(text@),
    ensures
        match decoded {
            Ok(bytes) => base64_bytes(text@) == Some(bytes@),
            Err(_) => base64_bytes(text@) is None,
        },
{
    base64::decode(text)
}

} // verus!
