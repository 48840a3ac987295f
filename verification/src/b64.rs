//! The one call into the `base64` crate: decoding a model-file token field.

use vstd::prelude::*;

verus! {

/// What the standard, padded base64 alphabet decodes a byte string to, or
/// `None` where the input is rejected. The decoding is computed by the
/// outside `base64` crate; this name only ties its uses together.
pub uninterp spec fn base64_decoded(s: Seq<u8>) -> Option<Seq<u8>>;

/// Relies on `base64::engine::general_purpose::STANDARD` (`Engine::decode`):
/// the standard alphabet with canonical padding, a pure function of the
/// input bytes.
#[verifier::external_body]
pub fn base64_decode(input: &[u8]) -> (r: Option<Vec<u8>>)
    ensures
        r is Some <==> base64_decoded(input@) is Some,
        r is Some ==> r.unwrap()@ == base64_decoded(input@).unwrap(),
{
    match base64::Engine::decode(&base64::engine::general_purpose::STANDARD, input) {
        Ok(v) => Some(v),
        Err(_) => None,
    }
}

} // verus!
