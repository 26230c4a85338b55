//! Base64 decoding, which the `base64` crate does.

use vstd::prelude::*;
use crate::document::Error;

verus! {

/// The error with which the `base64` crate refuses text that it cannot decode.
#[verifier::external_type_specification]
#[verifier::external_body]
pub struct ExDecodeError(base64::DecodeError);

/// The bytes that `encoded` stands for in base64 with the standard alphabet
/// and padding, or `None` where it stands for none.
pub uninterp spec fn base64_decoded(encoded: Seq<u8>) -> Option<Seq<u8>>;

/// Calls `base64::Engine::decode` on the engine
/// `base64::engine::general_purpose::STANDARD`. Unproved: the bytes that
/// come back are the ones that `base64_decoded` names for `encoded`, and an
/// error comes back where it names none. The call does not panic, and what
/// it returns depends on `encoded` alone.
#[verifier::external_body]
pub(crate) fn decode_standard(encoded: &[u8]) -> (r: Result<Vec<u8>, base64::DecodeError>)
    ensures
        match r {
            Ok(bytes) => base64_decoded(encoded@) == Some(bytes@),
            Err(_) => base64_decoded(encoded@) is None,
        },
{
    base64::Engine::decode(&base64::engine::general_purpose::STANDARD, encoded)
}

/// What an object is once the decoder has answered: the bytes that it
/// decoded, or the error `InvalidBase64` where it refused the text.
pub fn decoded_object(decoding: Result<Vec<u8>, base64::DecodeError>) -> (r: Result<Vec<u8>, Error>)
    ensures
        match decoding {
            Ok(bytes) => r == Ok::<Vec<u8>, Error>(bytes),
            Err(_) => r == Err::<Vec<u8>, Error>(Error::InvalidBase64),
        },
{
    match decoding {
        Ok(bytes) => Ok(bytes),
        Err(_) => Err(Error::InvalidBase64),
    }
}

} // verus!
