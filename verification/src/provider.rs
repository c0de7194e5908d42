//! Exact soft-state provider leases for collections and bearer blobs.
//!
//! Collections and resident blob handles map to separate opaque full-width
//! rendezvous keys. Directory nodes receive neither raw collection handles nor
//! raw blob handles.

use vstd::prelude::*;
use vstd::string::{StrSliceExecFns, StringSliceAdditionalSpecFns};

use crate::clock::SECOND;
use crate::hash::{blake3_derive_key, blake3_keyed_hash, derive_key, keyed_hash};
use crate::key_map::KeyMap;
use crate::keys::lemma_same_bytes;

verus! {

/// Opaque rendezvous key for one exact collection or bearer identity.
pub type ProviderKey = [u8; 32];

/// Endpoint-bound directory proof.
pub type ProviderToken = [u8; 32];

/// The hidden identity behind a rendezvous key: a blob or a collection handle.
pub type ProviderIdentity = [u8; 32];

/// The public key that names a peer.
pub type PeerId = [u8; 32];

/// Receiver-chosen lifetime of one exact provider lease, in nanoseconds.
pub const PROVIDER_LEASE_LIFETIME: u64 = 24 * 60 * 60 * SECOND;

/// One deterministic renewal traversal takes one third of a lease, in
/// nanoseconds. The first sweep therefore finishes with at least eight hours of
/// latency margin before even its last initial lease can expire.
pub const PROVIDER_RENEWAL_PERIOD: u64 = 8 * 60 * 60 * SECOND;

/// Delay before a failed publication is tried again, in nanoseconds.
pub const RETRY_BACKOFF_BASE: u64 = SECOND;

/// Longest delay between two probes of an unreachable network, in nanoseconds.
pub const RETRY_BACKOFF_CAP: u64 = 60 * SECOND;

/// The domain in which collections become rendezvous keys.
pub open spec fn collection_key_domain() -> Seq<char> {
    "triblespace.net/collection-provider-key/v1"@
}

/// The domain in which blob handles become rendezvous keys.
pub open spec fn blob_locator_domain() -> Seq<char> {
    "triblespace.net/blob-locator/v1"@
}

/// What every provider token is computed over first.
pub open spec fn provider_token_context() -> Seq<u8> {
    "triblespace.net/provider-token/v1\0".spec_bytes()
}

/// The rendezvous key of a collection.
pub open spec fn collection_key(collection: Seq<u8>) -> Seq<u8> {
    blake3_derive_key(collection_key_domain(), collection)
}

/// The rendezvous key of a blob.
pub open spec fn locator(handle: Seq<u8>) -> Seq<u8> {
    blake3_derive_key(blob_locator_domain(), handle)
}

/// The token by which `provider` shows that it knows the identity behind `key`.
pub open spec fn lease_token(identity: Seq<u8>, key: Seq<u8>, provider: Seq<u8>) -> Seq<u8> {
    blake3_keyed_hash(identity, provider_token_context() + key + provider)
}

/// Derive the opaque provider rendezvous key for one collection session.
pub fn collection_provider_key(collection: [u8; 32]) -> (key: ProviderKey)
    ensures
        key@ == collection_key(collection@),
{
    derive_key("triblespace.net/collection-provider-key/v1", &collection)
}

/// Derive the opaque rendezvous key of one bearer blob from its handle.
pub fn blob_locator(handle: [u8; 32]) -> (key: ProviderKey)
    ensures
        key@ == locator(handle@),
{
    derive_key("triblespace.net/blob-locator/v1", &handle)
}

/// Endpoint-bound directory proof for one opaque rendezvous key.
///
/// `identity` is the handle of the blob for an exact blob lease and the
/// collection for a collection-participant hint. Keying by it makes the blob
/// token a proof of knowledge of the handle; including the rendezvous key keeps
/// both lease roles distinct.
pub fn provider_lease_token(
    identity: [u8; 32],
    key: ProviderKey,
    provider: PeerId,
) -> (token: ProviderToken)
    ensures
        token@ == lease_token(identity@, key@, provider@),
{
    let mut input: Vec<u8> = "triblespace.net/provider-token/v1\0".as_bytes_vec();
    input.extend_from_slice(&key);
    input.extend_from_slice(&provider);
    assert(input@ =~= provider_token_context() + key@ + provider@);
    keyed_hash(&identity, &input)
}

/// The endpoint-bound directory token of one collection participant.
pub fn collection_provider_token(identity: [u8; 32], provider: PeerId) -> (token: ProviderToken)
    ensures
        token@ == lease_token(identity@, collection_key(identity@), provider@),
{
    provider_lease_token(identity, collection_provider_key(identity), provider)
}

/// Derive the expected endpoint-bound directory token for one exact blob.
///
/// A reader who knows the bearer handle can compare this value with the answer
/// of a directory without fetching the blob or sending the handle. A matching
/// token proves knowledge of the handle, not current provider reachability or
/// residency. Never log the input handle.
pub fn blob_provider_token(identity: [u8; 32], provider: PeerId) -> (token: [u8; 32])
    ensures
        token@ == lease_token(identity@, locator(identity@), provider@),
{
    provider_lease_token(identity, blob_locator(identity), provider)
}

/// Canonical exact publication set for one serving snapshot: rendezvous keys
/// and the hidden identity behind each. Endpoint-bound tokens are derived only
/// when the publisher schedules a key.
#[derive(Debug, PartialEq, Eq)]
pub struct ProviderSet {
    pub leases: KeyMap<32, ProviderIdentity>,
}

impl View for ProviderSet {
    type V = Map<ProviderKey, ProviderIdentity>;

    open spec fn view(&self) -> Map<ProviderKey, ProviderIdentity> {
        self.leases@
    }
}

impl Clone for ProviderSet {
    fn clone(&self) -> (copy: Self)
        ensures
            copy@ == self@,
    {
        ProviderSet { leases: self.leases.clone() }
    }
}

impl Default for ProviderSet {
    fn default() -> (set: Self)
        ensures
            set@ == Map::<ProviderKey, ProviderIdentity>::empty(),
    {
        ProviderSet { leases: KeyMap::new() }
    }
}

impl ProviderSet {
    /// Whether `key` is published.
    pub fn contains(&self, key: &ProviderKey) -> (found: bool)
        ensures
            found == self@.contains_key(*key),
    {
        self.leases.contains_key(key)
    }

    /// How many keys are published.
    pub fn len(&self) -> (count: u64)
        ensures
            count == self@.dom().len(),
            self@.dom().finite(),
    {
        self.leases.len() as u64
    }

    /// The identity behind `key`.
    pub fn identity(&self, key: &ProviderKey) -> (identity: Option<ProviderIdentity>)
        ensures
            identity == self@.get(*key),
    {
        self.leases.get(key)
    }
}

/// The last of `collections` whose rendezvous key is `key`.
pub open spec fn collection_at(collections: Seq<[u8; 32]>, key: Seq<u8>) -> Option<[u8; 32]>
    decreases collections.len(),
{
    if collections.len() == 0 {
        None
    } else if collection_key(collections.last()@) == key {
        Some(collections.last())
    } else {
        collection_at(collections.drop_last(), key)
    }
}

/// Whether `set` publishes the identities at the locators and the served
/// collections at their rendezvous keys, a collection winning over a locator.
pub open spec fn publishes(
    locators: Map<ProviderKey, ProviderIdentity>,
    collections: Seq<[u8; 32]>,
    set: Map<ProviderKey, ProviderIdentity>,
) -> bool {
    forall|key: ProviderKey| #[trigger]
        set.get(key) == match collection_at(collections, key@) {
            Some(collection) => Some(collection),
            None => locators.get(key),
        }
}

/// One snapshot-bound set of exact rendezvous keys and their hidden identity.
#[derive(Debug, PartialEq, Eq)]
pub struct ProviderObservation {
    pub set: ProviderSet,
}

impl ProviderObservation {
    /// Add the keys of the served collections to the resident locators.
    ///
    /// Exact blob transport is independent of the collection-repair direction,
    /// so every resident locator remains publishable even when this peer does
    /// not serve collection repair.
    pub fn from_locators(
        collections: &[[u8; 32]],
        serves_collections: bool,
        locators: &KeyMap<32, ProviderIdentity>,
    ) -> (observation: Self)
        ensures
            publishes(
                locators@,
                if serves_collections {
                    collections@
                } else {
                    Seq::empty()
                },
                observation.set@,
            ),
    {
        let mut set = ProviderSet { leases: locators.clone() };
        if serves_collections {
            let mut i: usize = 0;
            assert(collections@.take(0) =~= Seq::empty());
            while i < collections.len()
                invariant
                    i <= collections@.len(),
                    publishes(locators@, collections@.take(i as int), set@),
                decreases collections@.len() - i,
            {
                let collection = collections[i];
                let key = collection_provider_key(collection);
                let ghost before = set@;
                set.leases.insert(key, collection);
                i = i + 1;
                proof {
                    let front = collections@.take(i as int);
                    assert(front.drop_last() =~= collections@.take(i - 1));
                    assert(front.last() == collection);
                    assert forall|k: ProviderKey| #[trigger]
                        set@.get(k) == match collection_at(front, k@) {
                            Some(collection) => Some(collection),
                            None => locators@.get(k),
                        } by {
                        assert(before.get(k) == match collection_at(front.drop_last(), k@) {
                            Some(collection) => Some(collection),
                            None => locators@.get(k),
                        });
                        if k@ == key@ {
                            lemma_same_bytes(k, key);
                        }
                    }
                }
            }
            assert(collections@.take(i as int) =~= collections@);
        }
        ProviderObservation { set }
    }

    /// The observed set.
    pub fn into_set(self) -> (set: ProviderSet)
        ensures
            set == self.set,
    {
        self.set
    }
}

} // verus!
