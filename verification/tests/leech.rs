use triblespace_net::clock::Mono;
use triblespace_net::collection_blob_inventory::{BlobBodies, BlobReader, MemoryBlobs};
use triblespace_net::health::ReconcileDirection;
use triblespace_net::leech::{
    AcquireStep, BlobBody, BlobStore, HostEvidence, Leech, MemoryStore, PeerConfig, StoreFailure,
};

fn config() -> PeerConfig {
    PeerConfig {
        peers: Vec::new(),
        direction: ReconcileDirection::Bidirectional,
        provider_publication_budget: Some(1),
    }
}

fn resident(count: u64) -> MemoryStore {
    let mut store = MemoryStore::default();
    for index in 0..count {
        store.put(index.to_le_bytes().to_vec()).unwrap();
    }
    store
}

fn assert_leech_has_no_serving_inventory<S: BlobStore>(leech: &Leech<S>) {
    let health = leech.health();
    assert!(!health.store.serving_snapshot);
    assert!(health.store.last_snapshot_published_at.is_none());
    assert!(health.collections.is_empty());
    assert_eq!(health.publication.attempts, 0);
}

#[test]
fn leech_public_lazy_resident_snapshots_and_writes_remain_dormant() {
    for count in [0, 8, 128] {
        // No zero-budget or read-only policy is needed for this boundary.
        let mut leech = Leech::lazy(resident(count), [87; 32], config());
        assert_eq!(leech.config.direction, ReconcileDirection::Bidirectional);
        assert!(!leech.host_started);
        assert_leech_has_no_serving_inventory(&leech);

        let frozen = leech.snapshot().unwrap();
        for _ in 0..3 {
            leech.snapshot().unwrap();
        }
        let bytes = b"local leech payload".to_vec();
        let handle = leech.put(bytes.clone()).unwrap();
        assert!(!frozen.can_read(&handle));
        assert_eq!(leech.try_local(handle), Some(bytes.clone()));
        let reader = leech.snapshot().unwrap();
        assert!(reader.can_read(&handle));
        assert_eq!(reader.read(&handle), Some(bytes));
        assert_leech_has_no_serving_inventory(&leech);
        assert!(!leech.host_started);
        let store = leech.into_store();
        assert_eq!(store.blobs.bodies.len(), count as usize + 1);
    }
}

#[test]
fn leech_first_and_repeated_exact_acquire_never_build_serving_inventory() {
    for count in [0, 8, 128] {
        let mut leech = Leech::lazy(resident(count), [87; 32], config());
        let frozen = leech.snapshot().unwrap();
        let remote = b"remote payload".to_vec();
        let handle = *blake3::hash(&remote).as_bytes();
        let mut requests = 0;
        assert!(leech.try_local(handle).is_none());
        assert!(!leech.host_started);
        assert_leech_has_no_serving_inventory(&leech);

        match leech.acquire(handle).unwrap() {
            AcquireStep::Fetch => requests += 1,
            AcquireStep::Resident(_) => panic!("the blob is not resident yet"),
        }
        assert!(leech.host_started);
        let acquired = leech.acquired(handle, Some(remote.clone())).unwrap();
        assert_eq!(acquired, Some(remote.clone()));
        assert!(!frozen.can_read(&handle));
        assert_leech_has_no_serving_inventory(&leech);

        for _ in 0..3 {
            let reader = leech.snapshot().unwrap();
            assert!(reader.can_read(&handle));
            assert_eq!(leech.try_local(handle), Some(remote.clone()));
            match leech.acquire(handle).unwrap() {
                AcquireStep::Resident(bytes) => assert_eq!(bytes, remote),
                AcquireStep::Fetch => requests += 1,
            }
            assert_leech_has_no_serving_inventory(&leech);
        }
        assert!(!frozen.can_read(&handle));

        let local_bytes = b"local write after leech startup".to_vec();
        let local = leech.put(local_bytes.clone()).unwrap();
        assert!(!frozen.can_read(&local));
        match leech.acquire(local).unwrap() {
            AcquireStep::Resident(bytes) => assert_eq!(bytes, local_bytes),
            AcquireStep::Fetch => requests += 1,
        }
        assert!(leech.snapshot().unwrap().can_read(&local));
        assert_leech_has_no_serving_inventory(&leech);
        assert_eq!(requests, 1);
    }
}

#[test]
fn what_the_network_does_not_have_is_not_cached() {
    let mut leech = Leech::lazy(resident(2), [87; 32], config());
    assert!(matches!(
        leech.acquire([9; 32]).unwrap(),
        AcquireStep::Fetch
    ));
    assert_eq!(leech.acquired([9; 32], None).unwrap(), None);
    assert_eq!(leech.into_store().blobs.bodies.len(), 2);
}

#[test]
fn bytes_of_another_blob_are_not_returned() {
    let mut leech = Leech::lazy(resident(0), [87; 32], config());
    leech.acquire([9; 32]).unwrap();
    let error = leech
        .acquired([9; 32], Some(b"other".to_vec()))
        .unwrap_err();
    assert_eq!(error.message, "cannot read acquired blob: not resident");
}

#[test]
fn the_identity_is_the_public_key() {
    let leech = Leech::lazy(resident(0), [87; 32], config());
    let key = ed25519_dalek::SigningKey::from_bytes(&[87; 32]).verifying_key();
    assert_eq!(leech.id(), key.to_bytes());
}

#[test]
fn writes_to_the_borrowed_store_are_seen() {
    let mut leech = Leech::lazy(resident(0), [87; 32], config());
    let handle = leech.store().put(b"direct".to_vec()).unwrap();
    assert_eq!(leech.try_local(handle), Some(b"direct".to_vec()));
    assert!(!leech.host_started);
}

#[test]
fn new_evidence_is_shown_and_never_tells_of_serving() {
    let mut leech = Leech::lazy(resident(2), [87; 32], config());
    let at = Mono { nanos: 5 };
    assert_eq!(leech.health().started_at, None);
    let evidence = HostEvidence {
        direction: Some(ReconcileDirection::ReadOnly),
        started_at: Some(at),
        observed_at: Some(at.plus(1)),
        snapshot_observed_at: Some(at.plus(2)),
        snapshot_failed_at: None,
        resident_blobs: 2,
    };
    leech.take_evidence(evidence);
    assert_eq!(leech.health().started_at, Some(at));
    assert_eq!(leech.health().observed_at, Some(at.plus(1)));
    assert_eq!(leech.health().store.resident_blobs, 2);
    assert_leech_has_no_serving_inventory(&leech);
    assert!(!leech.host_started);
    leech.acquire([9; 32]).unwrap();
    assert_eq!(leech.health().started_at, Some(at));
    leech.take_evidence(HostEvidence {
        observed_at: Some(at.plus(9)),
        ..evidence
    });
    assert_eq!(leech.health().observed_at, Some(at.plus(9)));
    assert_leech_has_no_serving_inventory(&leech);
}

struct Broken;

impl BlobStore for Broken {
    type Snapshot = MemoryBlobs;

    fn stored(&self) -> BlobBodies {
        unreachable!()
    }

    fn failure(&self) -> StoreFailure {
        unreachable!()
    }

    fn refusal(&self, _bytes: BlobBody) -> StoreFailure {
        unreachable!()
    }

    fn snapshot(&mut self) -> Result<MemoryBlobs, String> {
        Err("disk gone".to_string())
    }

    fn put(&mut self, _bytes: Vec<u8>) -> Result<[u8; 32], String> {
        Err("disk full".to_string())
    }
}

#[test]
fn failures_of_the_store_are_told() {
    let mut leech = Leech::lazy(Broken, [87; 32], config());
    assert_eq!(leech.try_local([1; 32]), None);
    let error = leech.acquire([1; 32]).unwrap_err();
    assert_eq!(error.message, "cannot observe resident blob: disk gone");
    assert!(!leech.host_started);
    assert_eq!(leech.put(vec![1]), Err("disk full".to_string()));
    let error = leech.acquired([1; 32], Some(vec![1])).unwrap_err();
    assert_eq!(error.message, "cannot cache acquired blob: disk full");
}
