//! The BLAKE3 functions this crate relies on.

use vstd::prelude::*;

verus! {

/// What `blake3::hash` gives for an input.
pub uninterp spec fn blake3_hash(input: Seq<u8>) -> Seq<u8>;

/// What `blake3::keyed_hash` gives for a key and an input.
pub uninterp spec fn blake3_keyed_hash(key: Seq<u8>, input: Seq<u8>) -> Seq<u8>;

/// What `blake3::derive_key` gives for a context and key material.
pub uninterp spec fn blake3_derive_key(context: Seq<char>, material: Seq<u8>) -> Seq<u8>;

/// `blake3::hash`: the 32-byte digest depends on the input bytes alone.
#[verifier::external_body]
pub(crate) fn hash(input: &[u8]) -> (digest: [u8; 32])
    ensures
        digest@ == blake3_hash(input@),
{
    *blake3::hash(input).as_bytes()
}

/// `blake3::keyed_hash`: the 32-byte digest depends on the key and the input
/// bytes alone.
#[verifier::external_body]
pub(crate) fn keyed_hash(key: &[u8; 32], input: &[u8]) -> (digest: [u8; 32])
    ensures
        digest@ == blake3_keyed_hash(key@, input@),
{
    *blake3::keyed_hash(key, input).as_bytes()
}

/// `blake3::derive_key`: the 32 derived bytes depend on the context string and
/// the key material alone.
#[verifier::external_body]
pub(crate) fn derive_key(context: &str, material: &[u8]) -> (key: [u8; 32])
    ensures
        key@ == blake3_derive_key(context@, material@),
{
    blake3::derive_key(context, material)
}

} // verus!
