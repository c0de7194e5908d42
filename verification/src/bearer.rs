//! Key confirmation between the holder of a blob and one who asks for it.
//!
//! Both sides show that they know the handle of the blob, each bound to the two
//! endpoints, without sending the handle.

use vstd::prelude::*;
use vstd::string::{StrSliceExecFns, StringSliceAdditionalSpecFns};

use crate::collection_blob_inventory::RawHash;
use crate::hash::{blake3_keyed_hash, keyed_hash};
use crate::keys::same;
use crate::provider::PeerId;

verus! {

/// What every proof of a provider is computed over first.
pub open spec fn provider_proof_context() -> Seq<u8> {
    "triblespace.net/provider-proof/v1\0".spec_bytes()
}

/// What every proof of a requester is computed over first.
pub open spec fn requester_proof_context() -> Seq<u8> {
    "triblespace.net/requester-proof/v1\0".spec_bytes()
}

/// What a provider of `handle` sends to a requester.
pub open spec fn provider_confirmation(
    handle: RawHash,
    requester: PeerId,
    provider: PeerId,
) -> Seq<u8> {
    blake3_keyed_hash(handle@, provider_proof_context() + requester@ + provider@)
}

/// What a requester of `handle` sends to a provider.
pub open spec fn requester_confirmation(
    handle: RawHash,
    requester: PeerId,
    provider: PeerId,
) -> Seq<u8> {
    blake3_keyed_hash(handle@, requester_proof_context() + requester@ + provider@)
}

/// Show to `requester` that `provider` knows the handle.
pub fn provider_proof(handle: &RawHash, requester: &PeerId, provider: &PeerId) -> (shown: RawHash)
    ensures
        shown@ == provider_confirmation(*handle, *requester, *provider),
{
    let mut input: Vec<u8> = "triblespace.net/provider-proof/v1\0".as_bytes_vec();
    input.extend_from_slice(requester);
    input.extend_from_slice(provider);
    assert(input@ =~= provider_proof_context() + requester@ + provider@);
    keyed_hash(handle, &input)
}

/// Show to `provider` that `requester` knows the handle.
pub fn requester_proof(handle: &RawHash, requester: &PeerId, provider: &PeerId) -> (shown: RawHash)
    ensures
        shown@ == requester_confirmation(*handle, *requester, *provider),
{
    let mut input: Vec<u8> = "triblespace.net/requester-proof/v1\0".as_bytes_vec();
    input.extend_from_slice(requester);
    input.extend_from_slice(provider);
    assert(input@ =~= requester_proof_context() + requester@ + provider@);
    keyed_hash(handle, &input)
}

/// Whether what was shown is what was expected.
pub fn proof_matches(supplied: &RawHash, expected: &RawHash) -> (matching: bool)
    ensures
        matching == (*supplied == *expected),
{
    same(supplied, expected)
}

} // verus!
