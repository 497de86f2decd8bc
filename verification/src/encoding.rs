//! Encodings between bytes and text: base64 in the standard alphabet with
//! padding, as the `base64` crate computes it, and the reading of bytes as
//! UTF-8.

use base64::prelude::BASE64_STANDARD;
use base64::DecodeError;
use base64::Engine;
use vstd::prelude::*;

verus! {

/// `base64::DecodeError`, which says why a text is no base64.
#[verifier::external_type_specification]
#[verifier::external_body]
pub struct ExDecodeError(base64::DecodeError);

/// The base64 text of `data`, in the standard alphabet with padding.
pub uninterp spec fn base64_encoding(data: Seq<u8>) -> Seq<u8>;

/// The bytes that the base64 text `text` stands for, if it is one.
pub uninterp spec fn base64_decoding(text: Seq<u8>) -> Option<Seq<u8>>;

/// The length of the base64 text of `len` bytes: four characters for every
/// three bytes or part of three.
pub open spec fn base64_len(len: nat) -> nat {
    4 * ((len + 2) / 3)
}

/// `Engine::encode` of `base64::prelude::BASE64_STANDARD`: the base64 text
/// of `data`, here as bytes. Its length is what `base64::encoded_len`
/// computes for a padded encoding, and the call fails where that length does
/// not fit a `usize`.
#[verifier::external_body]
pub(crate) fn base64_encode(data: &[u8]) -> (text: Vec<u8>)
    requires
        base64_len(data@.len()) <= usize::MAX,
    ensures
        text@ == base64_encoding(data@),
        text@.len() == base64_len(data@.len()),
{
    BASE64_STANDARD.encode(data).into_bytes()
}

/// `Engine::decode` of `base64::prelude::BASE64_STANDARD`: the bytes that
/// `text` stands for, or an error where it is no base64 text.
#[verifier::external_body]
pub(crate) fn base64_decode(text: &[u8]) -> (r: Result<Vec<u8>, DecodeError>)
    ensures
        match r {
            Ok(data) => base64_decoding(text@) == Some(data@),
            Err(_) => base64_decoding(text@) is None,
        },
{
    BASE64_STANDARD.decode(text)
}

/// The text that bytes are read as: their UTF-8 decoding, with U+FFFD in the
/// place of each sequence that is no UTF-8.
pub uninterp spec fn lossy_text(bytes: Seq<u8>) -> Seq<char>;

/// `String::from_utf8_lossy`: the bytes as text, with the replacement
/// character for what is no UTF-8.
#[verifier::external_body]
pub(crate) fn text_of_bytes(bytes: &[u8]) -> (r: String)
    ensures
        r@ == lossy_text(bytes@),
{
    String::from_utf8_lossy(bytes).into_owned()
}

} // verus!
