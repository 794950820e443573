//! Base64 encoding of image bodies, through the `base64` crate's standard
//! engine.
use vstd::prelude::*;

verus! {

/// The text that the `base64` crate's `STANDARD` engine returns for the given
/// bytes: canonical base64 with `+`, `/` and `=` padding. The result depends
/// on the input bytes alone.
pub uninterp spec fn base64_of(b: Seq<u8>) -> Seq<char>;

/// What the `base64` crate's `STANDARD` engine returns when asked to decode
/// the given text: the decoded bytes, or `None` where the text is not valid
/// base64 for this engine. The result depends on the input text alone.
pub uninterp spec fn base64_decode_of(s: Seq<char>) -> Option<Seq<u8>>;

/// Relies on `base64::Engine::encode` with the `STANDARD` engine: it returns
/// four characters for every three bytes of input (the last group padded with
/// `=`), and `Engine::decode` with the same engine inverts it, giving back
/// exactly the input bytes. `encode` panics when the encoded length
/// overflows `usize`, so that input is excluded here.
#[verifier::external_body]
pub(crate) fn b64_encode(b: &Vec<u8>) -> (r: String)
    requires
        4 * ((b@.len() + 2) / 3) <= usize::MAX,
    ensures
        r@ == base64_of(b@),
        r@.len() == 4 * ((b@.len() + 2) / 3),
        base64_decode_of(r@) == Some(b@),
{
    base64::Engine::encode(&base64::engine::general_purpose::STANDARD, b.as_slice())
}

} // verus!
