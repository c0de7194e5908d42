//! Exact acquisition and local storage, without serving the local inventory.

use vstd::prelude::*;
use vstd::string::StringExecFns;

use crate::clock::Mono;
use crate::collection_blob_inventory::{BlobBodies, BlobReader, MemoryBlobs, RawHash};
use crate::hash::{blake3_hash, hash};
use crate::health::{HealthSnapshot, PublicationHealth, ReconcileDirection, StoreHealth};
use crate::key_map::KeyMap;
use crate::provider::PeerId;

verus! {

/// The public key that `ed25519_dalek` derives from a secret key.
pub uninterp spec fn ed25519_public_key(secret: Seq<u8>) -> Seq<u8>;

/// `ed25519_dalek::SigningKey::from_bytes` and `SigningKey::verifying_key`: the
/// public key depends on the 32 secret bytes alone.
#[verifier::external_body]
fn public_key(secret: &[u8; 32]) -> (key: [u8; 32])
    ensures
        key@ == ed25519_public_key(secret@),
{
    ed25519_dalek::SigningKey::from_bytes(secret).verifying_key().to_bytes()
}

/// Why a store cannot be observed, if it cannot.
pub type StoreFailure = Option<Seq<char>>;

/// The bytes of one blob.
pub type BlobBody = Seq<u8>;

/// A local store of blobs.
pub trait BlobStore {
    type Snapshot: BlobReader;

    /// The bodies of the stored blobs.
    spec fn stored(&self) -> BlobBodies;

    /// Why the store cannot be observed, if it cannot.
    spec fn failure(&self) -> StoreFailure;

    /// Why the store does not take these bytes, if it does not.
    spec fn refusal(&self, bytes: BlobBody) -> StoreFailure;

    /// Observe the stored blobs. Later writes do not change the snapshot.
    fn snapshot(&mut self) -> (result: Result<Self::Snapshot, String>)
        ensures
            final(self).stored() == old(self).stored(),
            final(self).failure() == old(self).failure(),
            match result {
                Ok(snapshot) => old(self).failure() is None && snapshot.blobs() == old(
                    self,
                ).stored(),
                Err(error) => old(self).failure() == Some(error@),
            },
    ;

    /// Store a blob under the hash of its bytes, unless the store refuses it.
    fn put(&mut self, bytes: Vec<u8>) -> (result: Result<RawHash, String>)
        ensures
            match result {
                Ok(handle) => {
                    &&& old(self).refusal(bytes@) is None
                    &&& handle@ == blake3_hash(bytes@)
                    &&& final(self).stored() == old(self).stored().insert(handle, bytes@)
                },
                Err(error) => {
                    &&& old(self).refusal(bytes@) == Some(error@)
                    &&& final(self).stored() == old(self).stored()
                },
            },
    ;
}

/// A store in memory.
#[derive(Debug)]
pub struct MemoryStore {
    pub blobs: MemoryBlobs,
}

impl Default for MemoryStore {
    fn default() -> (store: Self)
        ensures
            store.stored() == Map::<RawHash, Seq<u8>>::empty(),
    {
        let store = MemoryStore { blobs: MemoryBlobs { bodies: KeyMap::new() } };
        assert(store.stored() =~= Map::<RawHash, Seq<u8>>::empty());
        store
    }
}

impl BlobStore for MemoryStore {
    type Snapshot = MemoryBlobs;

    open spec fn stored(&self) -> BlobBodies {
        self.blobs.blobs()
    }

    open spec fn failure(&self) -> StoreFailure {
        None
    }

    open spec fn refusal(&self, bytes: BlobBody) -> StoreFailure {
        None
    }

    fn snapshot(&mut self) -> (result: Result<MemoryBlobs, String>) {
        let keys = self.blobs.bodies.keys();
        let mut bodies: KeyMap<32, Vec<u8>> = KeyMap::new();
        let ghost all = self.blobs.blobs();
        for i in 0..keys.len()
            invariant
                all == self.blobs.blobs(),
                self.blobs == old(self).blobs,
                crate::key_map::lists_keys(keys@, self.blobs.bodies@),
                forall|key: RawHash| #[trigger]
                    bodies@.contains_key(key) <==> exists|j: int| 0 <= j < i && keys@[j] == key,
                forall|key: RawHash| #[trigger]
                    bodies@.contains_key(key) ==> bodies@[key]@ == all[key],
        {
            match self.blobs.read(&keys[i]) {
                Some(body) => {
                    bodies.insert(keys[i], body);
                },
                None => {},
            }
        }
        let copy = MemoryBlobs { bodies };
        assert(copy.blobs() =~= all);
        Ok(copy)
    }

    fn put(&mut self, bytes: Vec<u8>) -> (result: Result<RawHash, String>) {
        let handle = hash(&bytes);
        self.blobs.bodies.insert(handle, bytes);
        assert(self.stored() =~= old(self).stored().insert(handle, bytes@));
        Ok(handle)
    }
}

/// How a peer takes part in the network.
#[derive(Debug)]
pub struct PeerConfig {
    pub peers: Vec<PeerId>,
    pub direction: ReconcileDirection,
    pub provider_publication_budget: Option<usize>,
}

/// Why a blob could not be acquired.
#[derive(Debug)]
pub struct PeerAcquireError {
    pub message: String,
}

/// What an acquisition needs.
#[derive(Debug)]
pub enum AcquireStep {
    /// The blob is resident; these are its bytes.
    Resident(Vec<u8>),
    /// The blob is to be fetched from the network. The host runs from here on.
    Fetch,
}

/// What the host of a leech and its store can tell at run time.
#[derive(Clone, Copy, Debug, PartialEq, Eq)]
pub struct HostEvidence {
    pub direction: Option<ReconcileDirection>,
    pub started_at: Option<Mono>,
    pub observed_at: Option<Mono>,
    pub snapshot_observed_at: Option<Mono>,
    pub snapshot_failed_at: Option<Mono>,
    pub resident_blobs: u64,
}

/// An error message with its cause.
fn caused(context: &str, cause: &str) -> (error: PeerAcquireError)
    ensures
        error.message@ == context@ + cause@,
{
    let mut message: String = context.to_string();
    message.append(cause);
    PeerAcquireError { message }
}

/// A locally writable store with lazy acquisition of exact blobs and no serving
/// of the local inventory.
///
/// Local reads and writes do not start its host; the first acquisition of a
/// missing blob does. It never serves, advertises resident handles or activates
/// collection repair.
#[derive(Debug)]
pub struct Leech<S> {
    pub store: S,
    pub endpoint: PeerId,
    pub config: PeerConfig,
    pub health: HealthSnapshot,
    pub host_started: bool,
}

impl<S: BlobStore> Leech<S> {
    /// Whether nothing but the local store, and whether the host runs, differs
    /// from before.
    pub open spec fn same_peer(&self, before: &Self) -> bool {
        &&& self.endpoint == before.endpoint
        &&& self.config == before.config
        &&& self.health == before.health
    }

    /// Attach lazy exact acquisition without starting a host or serving the
    /// store. The identity is the public key of `key`.
    pub fn lazy(store: S, key: [u8; 32], config: PeerConfig) -> (leech: Self)
        ensures
            leech.store == store,
            leech.endpoint@ == ed25519_public_key(key@),
            leech.config == config,
            !leech.host_started,
            serves_nothing(leech.health),
    {
        Leech {
            store,
            endpoint: public_key(&key),
            config,
            health: HealthSnapshot::default(),
            host_started: false,
        }
    }

    /// The public identity.
    pub fn id(&self) -> (id: PeerId)
        ensures
            id == self.endpoint,
    {
        self.endpoint
    }

    /// Inspect runtime evidence without starting the host or refreshing the
    /// store.
    pub fn health(&self) -> (health: &HealthSnapshot)
        ensures
            *health == self.health,
    {
        &self.health
    }

    /// Take new runtime evidence, as the host and the store come to know it.
    pub fn take_evidence(&mut self, evidence: HostEvidence)
        ensures
            final(self).health == told(old(self).health, evidence),
            final(self).endpoint == old(self).endpoint,
            final(self).config == old(self).config,
            final(self).host_started == old(self).host_started,
            final(self).store == old(self).store,
    {
        self.health.direction = evidence.direction;
        self.health.started_at = evidence.started_at;
        self.health.observed_at = evidence.observed_at;
        self.health.store.last_snapshot_observed_at = evidence.snapshot_observed_at;
        self.health.store.last_failure_at = evidence.snapshot_failed_at;
        self.health.store.resident_blobs = evidence.resident_blobs;
    }

    /// Borrow the local store. Writes through it do not start the host.
    pub fn store(&mut self) -> (store: &mut S)
        ensures
            *store == old(self).store,
            *final(self) == (Leech { store: *final(store), ..*old(self) }),
    {
        &mut self.store
    }

    /// Close acquisition and return the local store.
    pub fn into_store(self) -> (store: S)
        ensures
            store == self.store,
    {
        self.store
    }

    /// Observe the local store.
    pub fn snapshot(&mut self) -> (result: Result<S::Snapshot, String>)
        ensures
            final(self).same_peer(old(self)),
            final(self).host_started == old(self).host_started,
            final(self).store.stored() == old(self).store.stored(),
            final(self).store.failure() == old(self).store.failure(),
            match result {
                Ok(snapshot) => old(self).store.failure() is None && snapshot.blobs() == old(
                    self,
                ).store.stored(),
                Err(error) => old(self).store.failure() == Some(error@),
            },
    {
        self.store.snapshot()
    }

    /// Store a blob locally. It fails exactly where the store refuses the blob,
    /// for the reason that the store gives.
    pub fn put(&mut self, bytes: Vec<u8>) -> (result: Result<RawHash, String>)
        ensures
            final(self).same_peer(old(self)),
            final(self).host_started == old(self).host_started,
            match result {
                Ok(handle) => {
                    &&& old(self).store.refusal(bytes@) is None
                    &&& handle@ == blake3_hash(bytes@)
                    &&& final(self).store.stored() == old(self).store.stored().insert(
                        handle,
                        bytes@,
                    )
                },
                Err(error) => {
                    &&& old(self).store.refusal(bytes@) == Some(error@)
                    &&& final(self).store.stored() == old(self).store.stored()
                },
            },
    {
        self.store.put(bytes)
    }

    /// The bytes of a resident blob.
    pub fn try_local(&mut self, handle: RawHash) -> (bytes: Option<Vec<u8>>)
        ensures
            final(self).same_peer(old(self)),
            final(self).host_started == old(self).host_started,
            final(self).store.stored() == old(self).store.stored(),
            final(self).store.failure() == old(self).store.failure(),
            match bytes {
                Some(bytes) => old(self).store.failure() is None && old(
                    self,
                ).store.stored().contains_key(handle) && bytes@ == old(self).store.stored()[handle],
                None => old(self).store.failure() is Some || !old(
                    self,
                ).store.stored().contains_key(handle),
            },
    {
        match self.snapshot() {
            Ok(snapshot) => snapshot.read(&handle),
            Err(_) => None,
        }
    }

    /// Begin to read or acquire a blob. Only a missing blob starts the host.
    pub fn acquire(&mut self, handle: RawHash) -> (result: Result<AcquireStep, PeerAcquireError>)
        ensures
            final(self).same_peer(old(self)),
            final(self).store.stored() == old(self).store.stored(),
            final(self).store.failure() == old(self).store.failure(),
            match (
                result,
                acquisition(old(self).store.failure(), old(self).store.stored(), handle),
            ) {
                (Ok(AcquireStep::Resident(bytes)), Acquisition::Resident(wanted)) => {
                    &&& bytes@ == wanted
                    &&& final(self).host_started == old(self).host_started
                },
                (Ok(AcquireStep::Fetch), Acquisition::Missing) => final(self).host_started,
                (Err(error), Acquisition::Unobserved(cause)) => {
                    &&& error.message@ == "cannot observe resident blob: "@ + cause
                    &&& final(self).host_started == old(self).host_started
                },
                _ => false,
            },
    {
        match self.snapshot() {
            Ok(snapshot) => match snapshot.read(&handle) {
                Some(bytes) => Ok(AcquireStep::Resident(bytes)),
                None => {
                    self.host_started = true;
                    Ok(AcquireStep::Fetch)
                },
            },
            Err(error) => Err(caused("cannot observe resident blob: ", error.as_str())),
        }
    }

    /// Take what the network gave for a missing blob. It is cached locally and
    /// read back through a fresh observation of the store.
    pub fn acquired(&mut self, handle: RawHash, fetched: Option<Vec<u8>>) -> (result: Result<
        Option<Vec<u8>>,
        PeerAcquireError,
    >)
        ensures
            final(self).same_peer(old(self)),
            final(self).host_started == old(self).host_started,
            match (fetched, result) {
                (None, Ok(None)) => final(self).store == old(self).store,
                (Some(fetched), Ok(Some(bytes))) => {
                    &&& old(self).store.refusal(fetched@) is None
                    &&& final(self).store.failure() is None
                    &&& final(self).store.stored().contains_key(handle)
                    &&& bytes@ == final(self).store.stored()[handle]
                    &&& blake3_hash(fetched@) == handle@ ==> bytes@ == fetched@
                    &&& cached(old(self).store.stored(), final(self).store.stored(), fetched@)
                },
                (Some(fetched), Err(error)) => match old(self).store.refusal(fetched@) {
                    Some(cause) => {
                        &&& final(self).store.stored() == old(self).store.stored()
                        &&& error.message@ == "cannot cache acquired blob: "@ + cause
                    },
                    None => {
                        &&& cached(old(self).store.stored(), final(self).store.stored(), fetched@)
                        &&& match final(self).store.failure() {
                            Some(cause) => error.message@ == "cannot read acquired blob: "@ + cause,
                            None => !final(self).store.stored().contains_key(handle)
                                && error.message@ == "cannot read acquired blob: "@
                                + "not resident"@,
                        }
                    },
                },
                _ => false,
            },
    {
        let bytes = match fetched {
            None => {
                return Ok(None);
            },
            Some(bytes) => bytes,
        };
        let ghost sent = bytes@;
        match self.put(bytes) {
            Ok(stored) => {
                assert(cached(old(self).store.stored(), self.store.stored(), sent)) by {
                    assert(is_handle(stored, sent));
                }
                proof {
                    if blake3_hash(sent) == handle@ {
                        crate::keys::lemma_same_bytes(stored, handle);
                    }
                }
            },
            Err(error) => {
                return Err(caused("cannot cache acquired blob: ", error.as_str()));
            },
        }
        match self.snapshot() {
            Ok(snapshot) => match snapshot.read(&handle) {
                Some(bytes) => Ok(Some(bytes)),
                None => Err(caused("cannot read acquired blob: ", "not resident")),
            },
            Err(error) => Err(caused("cannot read acquired blob: ", error.as_str())),
        }
    }
}

/// What a store says of a blob that is to be acquired.
pub enum Acquisition {
    Resident(BlobBody),
    Missing,
    Unobserved(Seq<char>),
}

/// What a store says of a blob that is to be acquired.
pub open spec fn acquisition(
    failure: StoreFailure,
    stored: BlobBodies,
    handle: RawHash,
) -> Acquisition {
    match failure {
        Some(cause) => Acquisition::Unobserved(cause),
        None => if stored.contains_key(handle) {
            Acquisition::Resident(stored[handle])
        } else {
            Acquisition::Missing
        },
    }
}

/// A resident blob is never fetched, a missing one always is, and a store that
/// cannot be observed says why.
pub proof fn law_only_a_missing_blob_is_fetched(
    failure: StoreFailure,
    stored: BlobBodies,
    handle: RawHash,
)
    ensures
        failure is None && stored.contains_key(handle) ==> acquisition(failure, stored, handle)
            == Acquisition::Resident(stored[handle]),
        acquisition(failure, stored, handle) == Acquisition::Missing <==> failure is None
            && !stored.contains_key(handle),
        failure matches Some(cause) ==> acquisition(failure, stored, handle)
            == Acquisition::Unobserved(cause),
{
}

/// What a host tells is shown field by field, and nothing else changes.
pub proof fn law_a_leech_shows_what_it_was_told(health: HealthSnapshot, evidence: HostEvidence)
    ensures
        ({
            let shown = told(health, evidence);
            &&& shown.direction == evidence.direction
            &&& shown.started_at == evidence.started_at
            &&& shown.observed_at == evidence.observed_at
            &&& shown.store.last_snapshot_observed_at == evidence.snapshot_observed_at
            &&& shown.store.last_failure_at == evidence.snapshot_failed_at
            &&& shown.store.resident_blobs == evidence.resident_blobs
            &&& shown.store.serving_snapshot == health.store.serving_snapshot
            &&& shown.store.last_snapshot_published_at == health.store.last_snapshot_published_at
            &&& shown.collections == health.collections
            &&& shown.publication == health.publication
        }),
{
}

/// Runtime evidence after a series of new evidence.
pub open spec fn told_all(health: HealthSnapshot, series: Seq<HostEvidence>) -> HealthSnapshot
    decreases series.len(),
{
    if series.len() == 0 {
        health
    } else {
        told(told_all(health, series.drop_last()), series.last())
    }
}

/// A leech never serves, whatever its host and its store tell: it starts with
/// evidence of no serving, and neither new evidence nor any other operation adds
/// some. What was told last is what is shown.
pub proof fn law_leech_never_serves<S: BlobStore>(
    lazy: Leech<S>,
    series: Seq<HostEvidence>,
    after: Leech<S>,
)
    requires
        serves_nothing(lazy.health),
        after.health == told_all(lazy.health, series),
    ensures
        serves_nothing(after.health),
        series.len() > 0 ==> {
            &&& after.health.started_at == series.last().started_at
            &&& after.health.observed_at == series.last().observed_at
            &&& after.health.direction == series.last().direction
        },
    decreases series.len(),
{
    if series.len() > 0 {
        let before = Leech { health: told_all(lazy.health, series.drop_last()), ..after };
        law_leech_never_serves(lazy, series.drop_last(), before);
    }
}

/// A blob that was acquired is resident from then on: acquiring it again
/// needs no network.
pub proof fn law_acquired_blob_is_resident(
    before: BlobBodies,
    after: BlobBodies,
    handle: RawHash,
    bytes: Seq<u8>,
)
    requires
        is_handle(handle, bytes),
        cached(before, after, bytes),
    ensures
        after.contains_key(handle),
        after[handle] == bytes,
        forall|other: RawHash| #[trigger] before.contains_key(other) ==> after.contains_key(other),
{
    let stored = choose|stored: RawHash|
        #[trigger] is_handle(stored, bytes) && after == before.insert(stored, bytes);
    crate::keys::lemma_same_bytes(stored, handle);
}

/// Whether `handle` is the hash of `bytes`.
pub open spec fn is_handle(handle: RawHash, bytes: Seq<u8>) -> bool {
    handle@ == blake3_hash(bytes)
}

/// Whether `bytes` were stored under their hash, and nothing else changed.
pub open spec fn cached(
    before: BlobBodies,
    after: BlobBodies,
    bytes: Seq<u8>,
) -> bool {
    exists|handle: RawHash|
        #[trigger] is_handle(handle, bytes) && after == before.insert(handle, bytes)
}

/// Whether a host serves no snapshot, never published one, is active for no
/// collection and attempted no publication.
pub open spec fn serves_nothing(health: HealthSnapshot) -> bool {
    &&& !health.store.serving_snapshot
    &&& health.store.last_snapshot_published_at is None
    &&& health.collections@.len() == 0
    &&& health.publication == PublicationHealth::unobserved()
}

/// Runtime evidence after a host told something new: nothing that it can tell
/// makes a leech serve, publish or repair.
pub open spec fn told(health: HealthSnapshot, evidence: HostEvidence) -> HealthSnapshot {
    HealthSnapshot {
        direction: evidence.direction,
        started_at: evidence.started_at,
        observed_at: evidence.observed_at,
        store: StoreHealth {
            last_snapshot_observed_at: evidence.snapshot_observed_at,
            last_failure_at: evidence.snapshot_failed_at,
            resident_blobs: evidence.resident_blobs,
            ..health.store
        },
        ..health
    }
}

} // verus!
