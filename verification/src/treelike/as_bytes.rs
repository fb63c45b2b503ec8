//! The key codec: keys are stored and compared through a byte encoding.
//!
//! Every backend models its bindings as a map keyed by the byte encoding
//! of the key, so the codec's spec-level encoding `sp_bytes` is the
//! anchor of all the contracts in this crate.

use vstd::prelude::*;

verus! {

use vstd::string::StringSliceAdditionalSpecFns;
use vstd::utf8::{encode_utf8, valid_utf8};

/// A key that can be converted to and from a byte sequence.
///
/// `sp_bytes` is the specification-level encoding; `as_bytes` produces
/// exactly that encoding, and `read_from` only ever decodes to a key
/// that encodes back to the bytes it was given.
pub trait AsFromBytes: Sized {
    /// The byte encoding of this key, at the specification level.
    spec fn sp_bytes(&self) -> Seq<u8>;

    /// Encode the key.
    fn as_bytes(&self) -> (r: &[u8])
        ensures
            r@ == self.sp_bytes(),
    ;

    /// Decode a key from bytes.  Decoding is lossless: a decoded key
    /// encodes back to the very bytes it was read from.
    fn read_from(bytes: &[u8]) -> (r: Option<Self>)
        ensures
            r matches Some(k) ==> k.sp_bytes() == bytes@,
    ;
}

/// Relies on core::str::from_utf8: it returns `Ok` exactly on valid
/// UTF-8, and the returned slice views the same bytes it was given.
#[verifier::external_body]
fn utf8_from_bytes(bytes: &[u8]) -> (r: Option<&str>)
    ensures
        r matches Some(s) ==> s.spec_bytes() == bytes@,
        valid_utf8(bytes@) ==> r is Some,
{
    core::str::from_utf8(bytes).ok()
}

impl AsFromBytes for String {
    open spec fn sp_bytes(&self) -> Seq<u8> {
        encode_utf8(self@)
    }

    fn as_bytes(&self) -> (r: &[u8])
        ensures
            r@ == self.sp_bytes(),
    {
        self.as_str().as_bytes()
    }

    fn read_from(bytes: &[u8]) -> (r: Option<String>)
        ensures
            r matches Some(k) ==> k.sp_bytes() == bytes@,
            valid_utf8(bytes@) ==> r is Some,
    {
        match utf8_from_bytes(bytes) {
            None => None,
            Some(s) => Some(s.to_owned()),
        }
    }
}

} // verus!
