//! Digest computation for object identity. The hash itself is computed by an
//! outside library; this module gives its result a name that the store's
//! contracts are stated over.
use vstd::prelude::*;
use crate::bytes::is_hex_lower;
use crypto::digest::Digest;
use crypto::sha1::Sha1;

verus! {

/// The SHA-1 digest of `data`, rendered as 40 lowercase hexadecimal
/// characters. Uninterpreted: the digest is a function of the input bytes
/// alone, and nothing else is assumed of it.
pub uninterp spec fn sha1_hex_of(data: Seq<u8>) -> Seq<u8>;

/// Relies on crypto's `Sha1` together with `Digest::result_str`: a 160-bit
/// digest whose hexadecimal rendering is 40 lowercase characters, computed
/// from the input bytes alone.
#[verifier::external_body]
pub(crate) fn sha1_hex(data: &Vec<u8>) -> (r: Vec<u8>)
    ensures
        r@ == sha1_hex_of(data@),
        r@.len() == 40,
        forall|i: int| 0 <= i < r@.len() ==> is_hex_lower(#[trigger] r@[i]),
{
    let mut hasher = Sha1::new();
    hasher.input(data);
    hasher.result_str().into_bytes()
}

} // verus!
