//! Entry names: UTF-8 where the bytes are valid UTF-8, CP949 otherwise.

use vstd::prelude::*;
use vstd::utf8::{decode_utf8, encode_utf8, valid_utf8};

verus! {

/// The longest input that is no UTF-8 and that `cp949_to_utf8` accepts. The
/// decoder sizes its output buffer at three times the input, which must fit
/// in a `usize`. Valid UTF-8 of any length is accepted.
pub const MAX_NAME_BYTES: usize = 0x1000_0000;

/// The text that `encoding_rs::EUC_KR.decode_without_bom_handling` gives for
/// `bytes`: the bytes read as CP949, each malformed sequence replaced by
/// U+FFFD. A byte-order mark at the start is read as CP949 like any other
/// bytes.
pub uninterp spec fn euc_kr_decode(bytes: Seq<u8>) -> Seq<char>;

/// The text of an entry name stored as `bytes`.
pub open spec fn name_text(bytes: Seq<u8>) -> Seq<char> {
    if valid_utf8(bytes) {
        decode_utf8(bytes)
    } else {
        euc_kr_decode(bytes)
    }
}

/// `std::str::from_utf8`: the text of `bytes` where they are valid UTF-8,
/// nothing where they are not.
#[verifier::external_body]
fn utf8_text(bytes: &[u8]) -> (r: Option<String>)
    ensures
        r is Some <==> valid_utf8(bytes@),
        r matches Some(s) ==> s@ == decode_utf8(bytes@),
{
    match std::str::from_utf8(bytes) {
        Ok(s) => Some(s.to_string()),
        Err(_) => None,
    }
}

/// `encoding_rs::EUC_KR.decode_without_bom_handling`, keeping the text and
/// dropping the malformed-input flag. The length bound keeps the decoder's
/// buffer size computation from overflowing.
#[verifier::external_body]
fn decode_euc_kr(bytes: &[u8]) -> (s: String)
    requires
        bytes@.len() <= MAX_NAME_BYTES,
    ensures
        s@ == euc_kr_decode(bytes@),
{
    let (text, _had_errors) = encoding_rs::EUC_KR.decode_without_bom_handling(bytes);
    text.into_owned()
}

/// UTF-8 passes through: the name stored as the UTF-8 encoding of a text is
/// that text, whatever its length, and is never read as CP949.
pub proof fn lemma_utf8_passes_through(text: Seq<char>)
    ensures
        name_text(encode_utf8(text)) == text,
{
    vstd::utf8::encode_utf8_valid_utf8(text);
    vstd::utf8::encode_utf8_decode_utf8(text);
}

/// Decodes an entry name: UTF-8 is accepted as it is, anything else is read
/// as CP949.
pub fn cp949_to_utf8(bytes: &[u8]) -> (s: String)
    requires
        valid_utf8(bytes@) || bytes@.len() <= MAX_NAME_BYTES,
    ensures
        s@ == name_text(bytes@),
        valid_utf8(bytes@) ==> s@ == decode_utf8(bytes@),
{
    match utf8_text(bytes) {
        Some(s) => s,
        None => decode_euc_kr(bytes),
    }
}

} // verus!
