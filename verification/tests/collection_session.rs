use std::collections::BTreeSet;

use triblespace_net::clock::Mono;
use triblespace_net::collection_activation::{
    collection_repair_overlay, AdmissionPolicy, CapabilityPolicy, CapabilityProof,
    CapabilityProofError, CollectionAuthorizationEvidenceError, CollectionDescriptor,
    CollectionRepairOverlay, ProofLink, ResidentDefinitions, ResourceEntity,
};
use triblespace_net::collection_blob_inventory::ResidentBlobPatch;
use triblespace_net::collection_delta::{CollectionDeltaError, CollectionRecord, RecordDecodeError};
use triblespace_net::collection_session::{
    admission, admitted_manifest, evidence_leaf, manifest, node_response_wire_len, record_leaf,
    retained_bootstrap, validate_authorization_leaf_bytes, validate_inventory_leaf_bytes,
    CollectionPull, CollectionRepairAdmission, CollectionRepairComponent, CollectionRepairDelta,
    CollectionRepairManifest, CollectionRepairRefusal, InventoryRepairCursor, LeafError, PatchChild,
    PatchNode, PatchNodeResponse, PullError, PullStage, ServerRepairError, ServerSession,
    MAX_BLOB_INVENTORY_NODE_REQUESTS, MAX_SERVER_NODE_RESPONSE_BYTES, MAX_SERVER_REPAIR_COMMANDS,
};
use triblespace_net::key_map::KeyMap;
use triblespace_net::patch_summary::PatchSummary;

type Key = [u8; 32];

const READ: Key = [0xD1; 32];
const WRITE: Key = [0xD2; 32];

fn key(byte: u8) -> Key {
    ed25519_dalek::SigningKey::from_bytes(&[byte; 32])
        .verifying_key()
        .to_bytes()
}

fn grant_of(root: Key, subject: Key, capability: Key, resource: Key) -> CapabilityProof {
    let mut bytes = Vec::new();
    for part in [resource, root, capability, subject] {
        bytes.extend_from_slice(&part);
    }
    CapabilityProof {
        id: *blake3::hash(&bytes).as_bytes(),
        resource,
        root_key: root,
        links: vec![ProofLink {
            capability,
            subject,
        }],
        bytes,
        signature_error: None,
    }
}

fn record(collection: Key, byte: u8) -> CollectionRecord {
    let bytes = vec![byte; 128];
    CollectionRecord {
        collection,
        fingerprint: *blake3::hash(&bytes).as_bytes(),
        bytes,
    }
}

fn direct(root: Key) -> AdmissionPolicy {
    AdmissionPolicy::Quorum {
        roots: vec![root],
        threshold: 1,
    }
}

/// What a store holds of one collection.
struct Store {
    collection: Key,
    bindings: Vec<(Key, AdmissionPolicy)>,
    routes: Vec<(Key, AdmissionPolicy)>,
    proofs: Vec<CapabilityProof>,
    records: Vec<CollectionRecord>,
    blobs: Vec<Key>,
}

fn digest(keys: &[Key]) -> Key {
    let mut hasher = blake3::Hasher::new();
    for key in keys {
        hasher.update(key);
    }
    *hasher.finalize().as_bytes()
}

impl Store {
    fn new(collection: Key, bindings: Vec<(Key, AdmissionPolicy)>) -> Self {
        Store {
            collection,
            bindings,
            routes: Vec::new(),
            proofs: Vec::new(),
            records: Vec::new(),
            blobs: Vec::new(),
        }
    }

    fn open(collection: Key) -> Self {
        Store::new(
            collection,
            vec![
                (READ, AdmissionPolicy::Open),
                (WRITE, AdmissionPolicy::Open),
            ],
        )
    }

    fn overlay(&self) -> CollectionRepairOverlay {
        let of_action = |action: Key| -> Vec<AdmissionPolicy> {
            self.bindings
                .iter()
                .filter(|(capability, _)| *capability == action)
                .map(|(_, policy)| policy.clone())
                .collect()
        };
        let mut routes: KeyMap<32, Vec<ResourceEntity>> = KeyMap::new();
        for (resource, policy) in &self.routes {
            routes.insert(
                *resource,
                vec![ResourceEntity {
                    collections: vec![self.collection],
                    policies: vec![policy.clone()],
                }],
            );
        }
        let mut overlay = collection_repair_overlay::<String, String, String>(
            self.collection,
            Ok(CollectionDescriptor {
                policy: Err(RecordDecodeError::Descriptor),
                capability_policies: self
                    .bindings
                    .iter()
                    .map(|(capability, policy)| CapabilityPolicy {
                        capability: *capability,
                        policy: policy.clone(),
                    })
                    .collect(),
            }),
            ResidentDefinitions {
                read_policies: of_action(READ),
                write_policies: of_action(WRITE),
                routes,
            },
            Ok(self.proofs.clone()),
            Ok(self.records.clone()),
        )
        .unwrap();
        overlay.records.root = digest(&fingerprints(&overlay));
        let ids: Vec<Key> = overlay
            .authorization_evidence
            .proofs()
            .iter()
            .map(|proof| proof.id)
            .collect();
        overlay.authorization_evidence.root = digest(&ids);
        let mut inventory: ResidentBlobPatch = KeyMap::new();
        for blob in &self.blobs {
            inventory.insert(*blob, ());
        }
        let root = digest(&inventory.keys());
        overlay.with_blob_inventory(inventory, root)
    }
}

fn admits(overlay: &CollectionRepairOverlay, reader: Key) -> bool {
    let evidence = overlay.authorization_evidence();
    let proofs = evidence.proofs();
    let verdicts: Vec<bool> = evidence
        .read_policies()
        .iter()
        .map(|policy| match policy {
            AdmissionPolicy::Open => true,
            AdmissionPolicy::Quorum { roots, .. } => roots.iter().any(|root| {
                *root == reader
                    || proofs.iter().any(|proof| {
                        proof.root_key == *root
                            && proof.links[0].capability == READ
                            && proof.links[0].subject == reader
                    })
            }),
        })
        .collect();
    evidence.reader_is_admitted_by(&verdicts)
}

fn fingerprints(overlay: &CollectionRepairOverlay) -> Vec<Key> {
    overlay
        .records()
        .records()
        .iter()
        .map(|record| record.fingerprint)
        .collect()
}

/// The sorted keys of one set.
fn set_keys(overlay: &CollectionRepairOverlay, component: CollectionRepairComponent) -> Vec<Key> {
    match component {
        CollectionRepairComponent::Record => fingerprints(overlay),
        CollectionRepairComponent::AuthorizationEvidence => overlay
            .authorization_evidence()
            .proofs()
            .iter()
            .map(|proof| proof.id)
            .collect(),
        CollectionRepairComponent::ResidentBlob => overlay.blob_inventory().keys(),
    }
}

fn below(keys: &[Key], prefix: &[u8]) -> Vec<Key> {
    keys.iter()
        .filter(|key| key.starts_with(prefix))
        .copied()
        .collect()
}

fn leaf_value(
    overlay: &CollectionRepairOverlay,
    component: CollectionRepairComponent,
    key: &Key,
) -> Vec<u8> {
    let collection = overlay.collection();
    match component {
        CollectionRepairComponent::Record => {
            record_leaf(&collection, key, overlay.records().get(key).unwrap()).unwrap()
        }
        CollectionRepairComponent::AuthorizationEvidence => {
            let mut absolute = collection.to_vec();
            absolute.extend_from_slice(key);
            let proof = overlay.authorization_evidence().get(key).unwrap();
            evidence_leaf(&collection, &absolute, proof).unwrap()
        }
        CollectionRepairComponent::ResidentBlob => Vec::new(),
    }
}

fn node_response(
    overlay: &CollectionRepairOverlay,
    component: CollectionRepairComponent,
    keys: &[Key],
    prefix: &[u8],
) -> PatchNodeResponse {
    let found = below(keys, prefix);
    match found.len() {
        0 => PatchNodeResponse::PrefixAbsent,
        1 => PatchNodeResponse::Found(PatchNode::Leaf {
            digest: digest(&found),
            key: found[0].to_vec(),
            value: leaf_value(overlay, component, &found[0]),
        }),
        _ => {
            let depth = (0..32)
                .find(|depth| found.iter().any(|key| key[*depth] != found[0][*depth]))
                .unwrap();
            let bytes: BTreeSet<u8> = found.iter().map(|key| key[depth]).collect();
            let children = bytes
                .into_iter()
                .map(|byte| {
                    let mut prefix = found[0][..depth].to_vec();
                    prefix.push(byte);
                    let child = below(&found, &prefix);
                    PatchChild {
                        byte,
                        digest: digest(&child),
                        leaf_count: child.len() as u64,
                    }
                })
                .collect();
            PatchNodeResponse::Found(PatchNode::Branch {
                digest: digest(&found),
                leaf_count: found.len() as u64,
                representative: found[0].to_vec(),
                depth: depth as u8,
                children,
            })
        }
    }
}

fn node_digest(response: &PatchNodeResponse) -> Option<Key> {
    match response {
        PatchNodeResponse::Found(PatchNode::Leaf { digest, .. }) => Some(*digest),
        PatchNodeResponse::Found(PatchNode::Branch { digest, .. }) => Some(*digest),
        _ => None,
    }
}

/// A depth-first walk of a remote set.
struct Walk {
    pending: Vec<(Vec<u8>, Key)>,
}

impl Walk {
    fn new(summary: PatchSummary) -> Self {
        Walk {
            pending: summary
                .root()
                .map(|root| (Vec::new(), root))
                .into_iter()
                .collect(),
        }
    }

    /// The next node that differs from the local set and is not behind the bound.
    fn next(&mut self, local: &[Key], bound: Option<Key>) -> Option<(Vec<u8>, Key)> {
        while let Some((prefix, expected)) = self.pending.pop() {
            let mut last = prefix.clone();
            last.resize(32, 0xFF);
            let behind = bound.is_some_and(|bound| last.as_slice() <= bound.as_slice());
            let held = below(local, &prefix);
            if !behind && (held.is_empty() || digest(&held) != expected) {
                return Some((prefix, expected));
            }
        }
        None
    }

    fn accept(&mut self, response: &PatchNodeResponse) {
        if let PatchNodeResponse::Found(PatchNode::Branch {
            representative,
            depth,
            children,
            ..
        }) = response
        {
            for child in children.iter().rev() {
                let mut prefix = representative[..*depth as usize].to_vec();
                prefix.push(child.byte);
                self.pending.push((prefix, child.digest));
            }
        }
    }
}

#[derive(Debug, PartialEq)]
enum Failure {
    Refused(CollectionRepairRefusal),
    Pull(PullError),
}

/// One session over a faultless wire. The retained walk belongs to the cursor.
fn pull_with_cursor(
    local: &CollectionRepairOverlay,
    remote: &CollectionRepairOverlay,
    reader: Key,
    resume: Option<(InventoryRepairCursor, Walk)>,
) -> Result<(CollectionRepairDelta, Option<Walk>), Failure> {
    let answer = admission(Some(remote), admits(remote, reader));
    let shown = admitted_manifest(answer).map_err(Failure::Refused)?;
    let mut server = ServerSession::begin(&answer).unwrap();
    let (cursor, kept) = match resume {
        Some((cursor, walk)) => (Some(cursor), Some(walk)),
        None => (None, None),
    };
    let mut retained = kept;
    let mut pull = CollectionPull::begin(shown, cursor);
    let mut inventory_walk = None;
    while pull.stage != PullStage::Done {
        let component = match pull.stage {
            PullStage::Authorization => CollectionRepairComponent::AuthorizationEvidence,
            PullStage::Records => CollectionRepairComponent::Record,
            _ => CollectionRepairComponent::ResidentBlob,
        };
        let remote_keys = set_keys(remote, component);
        let mut walk = Walk::new(shown.component(component));
        let mut local_keys = set_keys(local, component);
        let mut bound = None;
        if let Some(inventory) = &pull.inventory {
            local_keys = inventory.cursor.local.keys();
            bound = inventory.cursor.resume_after;
            if !inventory.fresh_walk {
                walk = retained.take().unwrap();
            }
        }
        let mut ended = false;
        while pull.wants_request() {
            let (prefix, expected) = match walk.next(&local_keys, bound) {
                Some(request) => request,
                None => {
                    ended = true;
                    break;
                }
            };
            pull.requested();
            server.begin_command().unwrap();
            server.check_request(component, &prefix, &expected).unwrap();
            let response = node_response(remote, component, &remote_keys, &prefix);
            server.charge_response(&response).unwrap();
            let valid = node_digest(&response) == Some(expected);
            let leaf = match &response {
                PatchNodeResponse::Found(PatchNode::Leaf { key, .. }) => Some(key.clone()),
                _ => None,
            };
            let result = match pull.stage {
                PullStage::Authorization => {
                    let candidate = match leaf {
                        Some(key) => {
                            let id: Key = key.try_into().unwrap();
                            Ok(remote.authorization_evidence().get(&id).unwrap().clone())
                        }
                        None => Err(CapabilityProofError::Encoding),
                    };
                    pull.received_evidence(local, &response, valid, candidate)
                }
                PullStage::Records => {
                    let decoded = match leaf {
                        Some(key) => {
                            let id: Key = key.try_into().unwrap();
                            Ok(remote.records().get(&id).unwrap().clone())
                        }
                        None => Err(RecordDecodeError::Framing),
                    };
                    pull.received_record(local, &response, valid, decoded)
                }
                _ => pull.received_hint(&response, valid),
            };
            result.map_err(Failure::Pull)?;
            walk.accept(&response);
        }
        if pull.stage == PullStage::Inventory {
            inventory_walk = Some(if ended {
                Walk::new(shown.resident_blobs)
            } else {
                walk
            });
        }
        pull.next_stage(local, ended);
    }
    server.begin_command().unwrap();
    let delta = pull.finish(Mono { nanos: 7 }, local);
    Ok((delta, inventory_walk))
}

fn pull(
    local: &CollectionRepairOverlay,
    remote: &CollectionRepairOverlay,
    reader: Key,
) -> Result<CollectionRepairDelta, Failure> {
    pull_with_cursor(local, remote, reader, None).map(|(delta, _)| delta)
}

#[test]
fn resident_inventory_returns_positive_hints_without_payloads_or_writes() {
    let collection = [1; 32];
    let mut store = Store::open(collection);
    store.blobs = vec![[2; 32], [4; 32]];
    let local = store.overlay();
    store.blobs = vec![[1; 32], [2; 32], [3; 32]];
    let remote = store.overlay();
    let pinned_root = remote.wake_root();
    store.blobs.push([5; 32]);
    assert_eq!(remote.wake_root(), pinned_root);
    assert_ne!(local.wake_root(), pinned_root);
    assert_ne!(store.overlay().wake_root(), pinned_root);
    let delta = pull(&local, &remote, key(90)).unwrap();
    assert_eq!(delta.blob_handles, vec![[1; 32], [3; 32]]);
    assert!(delta.records.is_empty());
    assert!(delta.authorization_evidence.is_empty());
    assert!(!delta.more);
    assert!(delta.inventory_cursor.is_none());
    assert!(!delta.retry_immediately());
    assert_eq!(delta.remote.resident_blobs.leaf_count(), 3);
    assert_eq!(delta.local.records, delta.remote.records);
    assert_eq!(
        delta.local.authorization_evidence,
        delta.remote.authorization_evidence
    );
    assert_eq!(delta.compared_at, Mono { nanos: 7 });
}

fn hashed(count: u32) -> Vec<Key> {
    (0..count)
        .map(|index| *blake3::hash(&index.to_be_bytes()).as_bytes())
        .collect()
}

#[test]
fn inventory_cursor_enumerates_large_patch_without_local_residency_progress() {
    let mut store = Store::open([1; 32]);
    let local = store.overlay();
    let handles: BTreeSet<Key> = hashed(2048).into_iter().collect();
    store.blobs = handles.iter().copied().collect();
    let remote = store.overlay();
    let reader = key(91);
    let mut resume = None;
    let mut received = BTreeSet::new();
    let mut sessions = 0;
    loop {
        let (delta, walk) = pull_with_cursor(&local, &remote, reader, resume).unwrap();
        sessions += 1;
        assert!(sessions < 64, "retained frontier must reach every leaf");
        assert!(!delta.more);
        assert!(
            !delta.retry_immediately(),
            "hints alone must not create a hot loop"
        );
        assert!(delta.blob_handles.len() <= MAX_BLOB_INVENTORY_NODE_REQUESTS);
        for handle in delta.blob_handles {
            assert!(
                received.insert(handle),
                "a continued walk must not repeat hints"
            );
        }
        resume = match delta.inventory_cursor {
            Some(cursor) => Some((cursor, walk.unwrap())),
            None => break,
        };
    }
    assert!(sessions > 1);
    assert_eq!(received, handles);
    assert!(local.blob_inventory().is_empty());
}

#[test]
fn changed_inventory_summary_reauthenticates_then_wraps_to_earlier_keys() {
    let mut store = Store::open([1; 32]);
    let local = store.overlay();
    store.blobs = hashed(512);
    let remote = store.overlay();
    let reader = key(92);
    let (first, walk) = pull_with_cursor(&local, &remote, reader, None).unwrap();
    let cursor = first.inventory_cursor.unwrap();
    store.blobs = vec![[0; 32]];
    let changed = store.overlay();
    let resume = Some((cursor, walk.unwrap()));
    let (suffix, walk) = pull_with_cursor(&local, &changed, reader, resume).unwrap();
    assert!(suffix.blob_handles.is_empty());
    let cursor = suffix
        .inventory_cursor
        .expect("a changed-root suffix must wrap");
    let resume = Some((cursor, walk.unwrap()));
    let (delta, _) = pull_with_cursor(&local, &changed, reader, resume).unwrap();
    assert_eq!(delta.blob_handles, vec![[0; 32]]);
    assert!(delta.inventory_cursor.is_none());
}

#[test]
fn inventory_cursor_reaches_late_original_handles_while_every_session_appends() {
    let mut store = Store::open([1; 32]);
    let local = store.overlay();
    let originals: BTreeSet<Key> = hashed(2048)
        .into_iter()
        .map(|mut hash| {
            hash[0] |= 128;
            hash
        })
        .collect();
    let mut handles = originals.clone();
    let reader = key(96);
    let mut resume = None;
    let mut received = BTreeSet::new();
    let mut wrapped = false;
    for session in 0_u32..64 {
        // Every root differs. These new low keys must not send traversal back to
        // its beginning before it reaches old high handles.
        let mut added = [0; 32];
        added[28..].copy_from_slice(&session.to_be_bytes());
        assert!(handles.insert(added));
        store.blobs = handles.iter().copied().collect();
        let remote = store.overlay();
        let (delta, walk) = pull_with_cursor(&local, &remote, reader, resume).unwrap();
        assert!(!delta.more);
        assert!(!delta.retry_immediately());
        assert!(delta.blob_handles.len() <= MAX_BLOB_INVENTORY_NODE_REQUESTS);
        received.extend(delta.blob_handles);
        resume = delta.inventory_cursor.map(|cursor| (cursor, walk.unwrap()));
        if originals.is_subset(&received) {
            assert!(session > 0);
            wrapped = true;
            break;
        }
        assert!(resume.is_some());
    }
    assert!(
        wrapped,
        "root churn must not starve the original late prefixes"
    );
    assert!(
        local.blob_inventory().is_empty(),
        "no hinted payload landed"
    );

    // Once the suffix ends, the continuation wraps and exposes additions that
    // were behind the watermark.
    store.blobs = handles.iter().copied().collect();
    let remote = store.overlay();
    for _ in 0..64 {
        let (delta, walk) = pull_with_cursor(&local, &remote, reader, resume).unwrap();
        received.extend(delta.blob_handles);
        resume = delta.inventory_cursor.map(|cursor| (cursor, walk.unwrap()));
        if resume.is_none() {
            break;
        }
    }
    assert!(resume.is_none());
    assert_eq!(received, handles);
}

#[test]
fn a_cursor_of_another_collection_is_not_taken_up() {
    let mut store = Store::open([1; 32]);
    let local = store.overlay();
    store.blobs = hashed(512);
    let remote = store.overlay();
    let (first, walk) = pull_with_cursor(&local, &remote, key(92), None).unwrap();
    let cursor = first.inventory_cursor.unwrap();
    let mut other = Store::open([2; 32]);
    let other_local = other.overlay();
    other.blobs = vec![[0; 32]];
    let resume = Some((cursor, walk.unwrap()));
    let (delta, _) = pull_with_cursor(&other_local, &other.overlay(), key(92), resume).unwrap();
    assert_eq!(delta.blob_handles, vec![[0; 32]]);
    assert!(delta.inventory_cursor.is_none());
}

#[test]
fn inventory_leaf_binds_exact_handle_and_requires_empty_value() {
    assert_eq!(validate_inventory_leaf_bytes(&[94; 32], &[]), Ok(()));
    assert_eq!(
        validate_inventory_leaf_bytes(&[94; 32], &[1]),
        Err(PullError::InvalidInventoryLeaf)
    );
    assert_eq!(
        validate_inventory_leaf_bytes(&[94; 31], &[]),
        Err(PullError::InvalidInventoryLeaf)
    );
    let mut store = Store::open([95; 32]);
    let local = store.overlay();
    store.blobs = vec![[94; 32]];
    let shown = manifest(&store.overlay());
    for changed_key in [false, true] {
        let mut pull = CollectionPull::begin(shown, None);
        pull.next_stage(&local, true);
        pull.next_stage(&local, true);
        pull.requested();
        let mut leaf = [94; 32];
        let mut value = Vec::new();
        if changed_key {
            leaf[0] ^= 1;
        } else {
            value.push(1);
        }
        let response = PatchNodeResponse::Found(PatchNode::Leaf {
            digest: digest(&[leaf]),
            key: leaf.to_vec(),
            value,
        });
        let valid = node_digest(&response) == shown.resident_blobs.root();
        assert!(pull.received_hint(&response, valid).is_err());
    }
}

#[test]
fn custom_capability_repairs_without_definition_blobs_but_never_admits_read() {
    for open_read in [false, true] {
        let root = key(80);
        let reader = key(81);
        let custom = [82; 32];
        let collection = [79; 32];
        let mut bindings = vec![(custom, direct(root))];
        if open_read {
            bindings.push((READ, AdmissionPolicy::Open));
        }
        let mut store = Store::new(collection, bindings);
        let client = store.overlay();
        let grant = grant_of(root, reader, custom, collection);
        store.proofs.push(grant.clone());
        store.blobs = vec![[87; 32], [88; 32]];
        let server = store.overlay();
        assert_eq!(server.authorization_evidence().len(), 1);
        assert!(
            retained_bootstrap(&server, &reader, vec![grant.clone()]).is_empty(),
            "custom evidence is not READ bootstrap"
        );
        let result = pull(&client, &server, reader);
        if open_read {
            let delta = result.unwrap();
            assert_eq!(delta.authorization_evidence, vec![grant]);
            assert!(delta.records.is_empty());
            assert_eq!(delta.blob_handles, vec![[87; 32], [88; 32]]);
        } else {
            let refusal = match result.unwrap_err() {
                Failure::Refused(refusal) => refusal,
                Failure::Pull(_) => panic!("nothing was pulled"),
            };
            assert!(refusal.message().contains("rejected READ(C)"));
            assert!(
                ServerSession::begin(&admission(Some(&server), admits(&server, reader))).is_none(),
                "no manifest, evidence or inventory before READ admission"
            );
        }
    }
}

#[test]
fn subordinate_proof_defers_until_its_resource_arrives_without_blocking_records() {
    let resource_root = key(97);
    let reader = key(98);
    let collection = [1; 32];
    let capability = [99; 32];
    let resource = [100; 32];
    let mut server_store = Store::open(collection);
    let mut client_store = Store::open(collection);
    server_store.routes.push((resource, direct(resource_root)));
    let grant = grant_of(resource_root, reader, capability, resource);
    server_store.proofs.push(grant.clone());
    server_store.records.push(record(collection, 5));
    let remote = server_store.overlay();
    assert_eq!(remote.authorization_evidence().len(), 1);

    let local = client_store.overlay();
    let first = pull(&local, &remote, reader).unwrap();
    assert!(first.authorization_evidence.is_empty());
    assert_eq!(
        first.records.len(),
        1,
        "a missing resource must not suppress independent records"
    );
    assert!(
        first.more,
        "skipped evidence is not a reconciled remote root"
    );
    assert!(first.retry_immediately(), "new records are useful progress");
    client_store.records.extend(first.records);

    let local = client_store.overlay();
    for _ in 0..3 {
        let deferred = pull(&local, &remote, reader).unwrap();
        assert!(deferred.more, "evidence remains explicitly incomplete");
        assert!(deferred.authorization_evidence.is_empty());
        assert!(deferred.records.is_empty());
        assert!(
            !deferred.retry_immediately(),
            "unchanged deferred evidence waits for periodic repair"
        );
    }

    // Stand in for the ordinary blob acquisition path, outside repair.
    client_store.routes.push((resource, direct(resource_root)));
    let local = client_store.overlay();
    assert!(
        local.authorization_evidence().is_empty(),
        "the first incoming proof is not cached locally"
    );
    let second = pull(&local, &remote, reader).unwrap();
    assert_eq!(second.authorization_evidence, vec![grant.clone()]);
    assert!(second.records.is_empty());
    assert!(!second.more);
    client_store.proofs.push(grant.clone());

    let local = client_store.overlay();
    assert_eq!(
        local.authorization_evidence().get(&grant.id),
        Some(&grant)
    );
    assert_eq!(local.wake_root(), remote.wake_root());
    let final_delta = pull(&local, &remote, reader).unwrap();
    assert!(final_delta.authorization_evidence.is_empty());
    assert!(final_delta.records.is_empty());
    assert!(!final_delta.more);
}

#[test]
fn many_absent_resource_descriptors_cannot_starve_collection_records() {
    let root = key(100);
    let reader = key(101);
    let collection = [1; 32];
    let capability = [102; 32];
    let mut server_store = Store::open(collection);
    let mut client_store = Store::open(collection);
    // Even the leaves alone exceed the complete stream's request budget. None can
    // be ingested until its immutable routing descriptor arrives.
    for index in 0..MAX_SERVER_REPAIR_COMMANDS {
        let resource = *blake3::hash(&(index as u128 + 1).to_le_bytes()).as_bytes();
        server_store.routes.push((resource, direct(root)));
        server_store
            .proofs
            .push(grant_of(root, reader, capability, resource));
    }
    let commit = record(collection, 103);
    server_store.records.push(commit.clone());
    server_store.blobs = hashed(2048);
    let remote = server_store.overlay();
    assert_eq!(
        remote.authorization_evidence().len(),
        MAX_SERVER_REPAIR_COMMANDS as u64
    );
    let local = client_store.overlay();
    let first = pull(&local, &remote, reader).unwrap();
    assert_eq!(
        first.records,
        vec![commit.clone()],
        "evidence leaves a budget for records"
    );
    assert!(first.authorization_evidence.is_empty());
    assert!(
        !first.blob_handles.is_empty(),
        "inventory has a separate reservation"
    );
    assert!(first.inventory_cursor.is_some());
    assert!(first.more);
    assert!(first.retry_immediately());
    client_store.records.push(commit);

    let local = client_store.overlay();
    for _ in 0..2 {
        let deferred = pull(&local, &remote, reader).unwrap();
        assert!(deferred.more);
        assert!(deferred.records.is_empty());
        assert!(deferred.authorization_evidence.is_empty());
        assert!(!deferred.retry_immediately());
    }
}

#[test]
fn received_auth_leaf_rejects_wrong_resource_root_or_signature_even_with_valid_hash() {
    let root = key(83);
    let stranger = key(84);
    let reader = key(85);
    let custom = [86; 32];
    let collection = [1; 32];
    let local = Store::new(
        collection,
        vec![(READ, AdmissionPolicy::Open), (custom, direct(root))],
    )
    .overlay();
    let mut bad_signature = grant_of(root, reader, custom, collection);
    *bad_signature.bytes.last_mut().unwrap() ^= 1;
    bad_signature.id = *blake3::hash(&bad_signature.bytes).as_bytes();
    bad_signature.signature_error = Some(CapabilityProofError::InvalidSignature { index: 0 });
    let cases = [
        (true, grant_of(root, reader, custom, collection)),
        (true, grant_of(root, reader, WRITE, collection)),
        (false, grant_of(root, reader, custom, [87; 32])),
        (false, grant_of(stranger, reader, custom, collection)),
        (false, bad_signature),
    ];
    for (valid, candidate) in cases {
        let mut absolute = collection.to_vec();
        absolute.extend_from_slice(&candidate.id);
        let evidence = local.authorization_evidence().validate_proof(&candidate);
        let decoded = Ok(candidate);
        let leaf = validate_authorization_leaf_bytes(&collection, &absolute, &decoded);
        assert_eq!(leaf.is_none() && evidence.is_ok(), valid);
        absolute[0] ^= 1;
        assert_eq!(
            validate_authorization_leaf_bytes(&collection, &absolute, &decoded),
            Some(PullError::EvidenceMismatch)
        );
        assert_eq!(
            validate_authorization_leaf_bytes(
                &collection,
                &absolute,
                &Err(CapabilityProofError::Encoding)
            ),
            Some(PullError::Proof(CapabilityProofError::Encoding))
        );
    }
}

#[test]
fn repair_disclosure_uses_read_alternatives_and_never_open_write() {
    for allowed in [false, true] {
        let root_a = key(20);
        let root_b = key(21);
        let reader = key(22);
        let collection = [19; 32];
        let mut bindings = vec![(WRITE, AdmissionPolicy::Open)];
        if allowed {
            bindings.push((READ, direct(root_a)));
            bindings.push((READ, direct(root_b)));
        }
        let mut store = Store::new(collection, bindings);
        store.proofs.push(grant_of(root_b, reader, READ, collection));
        let client = store.overlay();
        store.records.push(record(collection, 23));
        let server = store.overlay();
        let result = pull(&client, &server, reader);
        if allowed {
            assert_eq!(result.unwrap().records.len(), 1);
        } else {
            assert_eq!(
                result.unwrap_err(),
                Failure::Refused(CollectionRepairRefusal::Rejected)
            );
            let answer = admission(Some(&server), admits(&server, reader));
            assert_eq!(answer, CollectionRepairAdmission::Rejected);
            assert!(
                ServerSession::begin(&answer).is_none(),
                "denial must not disclose a manifest or records"
            );
        }
    }
}

#[test]
fn one_stream_repairs_records_without_global_inventory() {
    let collection = [1; 32];
    let mut server_store = Store::open(collection);
    server_store.records.push(record(collection, 9));
    let server = server_store.overlay();
    let client = Store::open(collection).overlay();
    let expected_remote = manifest(&server);
    let expected_local = manifest(&client);
    let delta = pull(&client, &server, key(8)).unwrap();
    assert_eq!(delta.records.len(), 1);
    assert!(delta.authorization_evidence.is_empty());
    assert_eq!(delta.local, expected_local);
    assert_eq!(delta.remote, expected_remote);
    assert_ne!(delta.local, delta.remote);
}

#[test]
fn pinned_local_read_evidence_admits_and_repairs_only_native_proof_bytes() {
    let root = key(10);
    let reader = key(11);
    let collection = [1; 32];
    let bindings = || vec![(READ, direct(root)), (WRITE, AdmissionPolicy::Open)];
    let mut server_store = Store::new(collection, bindings());
    let grant = grant_of(root, reader, READ, collection);
    server_store.proofs.push(grant.clone());
    let server = server_store.overlay();
    let client = Store::new(collection, bindings()).overlay();
    assert!(retained_bootstrap(&server, &reader, Vec::new()).is_empty());
    let delta = pull(&client, &server, reader).unwrap();
    assert_eq!(delta.authorization_evidence, vec![grant]);
    assert!(delta.records.is_empty());
}

#[test]
fn cold_native_read_proof_is_returned_for_ingest_and_current_session_is_rejected() {
    let root = key(12);
    let reader = key(13);
    let other_reader = key(14);
    let collection = [1; 32];
    let bindings = || vec![(READ, direct(root)), (WRITE, AdmissionPolicy::Open)];
    let grant = grant_of(root, reader, READ, collection);
    let other_grant = grant_of(root, other_reader, READ, collection);
    let server = Store::new(collection, bindings()).overlay();
    let client = Store::new(collection, bindings()).overlay();
    let retained = retained_bootstrap(&server, &reader, vec![grant.clone(), other_grant]);
    let error = pull(&client, &server, reader).unwrap_err();
    assert_eq!(error, Failure::Refused(CollectionRepairRefusal::Rejected));
    assert_eq!(retained, vec![grant]);
}

#[test]
fn a_collection_that_is_not_retained_is_unavailable() {
    assert_eq!(admission(None, true), CollectionRepairAdmission::Unavailable);
    let refusal = admitted_manifest(CollectionRepairAdmission::Unavailable).unwrap_err();
    assert_eq!(refusal, CollectionRepairRefusal::Unavailable);
    assert_eq!(
        refusal.message(),
        "remote does not retain the requested collection"
    );
}

fn some_manifest() -> CollectionRepairManifest {
    let mut store = Store::open([1; 32]);
    store.records.push(record([1; 32], 9));
    manifest(&store.overlay())
}

#[test]
fn the_server_checks_each_request() {
    let shown = some_manifest();
    let session = ServerSession::new(shown);
    let root = shown.records.root().unwrap();
    let component = CollectionRepairComponent::Record;
    assert_eq!(session.check_request(component, &[], &root), Ok(()));
    assert_eq!(
        session.check_request(component, &[], &[0; 32]),
        Err(ServerRepairError::UnpinnedRoot)
    );
    assert_eq!(session.check_request(component, &[1], &[0; 32]), Ok(()));
    assert_eq!(
        session.check_request(component, &[1; 33], &root),
        Err(ServerRepairError::InvalidPrefix)
    );
    assert_eq!(
        session.check_request(CollectionRepairComponent::ResidentBlob, &[], &root),
        Err(ServerRepairError::EmptyPatch)
    );
    assert_eq!(
        ServerRepairError::EmptyPatch.message(),
        "client requested a node from an empty collection PATCH"
    );
}

#[test]
fn the_server_bounds_commands_and_answers() {
    let mut session = ServerSession::new(some_manifest());
    for _ in 0..MAX_SERVER_REPAIR_COMMANDS {
        session.begin_command().unwrap();
    }
    assert_eq!(
        session.begin_command(),
        Err(ServerRepairError::CommandBudget)
    );
    session.response_bytes = MAX_SERVER_NODE_RESPONSE_BYTES - 1;
    assert_eq!(
        session.charge_response(&PatchNodeResponse::PrefixAbsent),
        Ok(())
    );
    assert_eq!(
        session.charge_response(&PatchNodeResponse::PrefixAbsent),
        Err(ServerRepairError::ResponseBudget)
    );
}

#[test]
fn answers_have_their_length_on_the_wire() {
    assert_eq!(
        node_response_wire_len(&PatchNodeResponse::SnapshotUnavailable),
        1
    );
    let leaf = PatchNodeResponse::Found(PatchNode::Leaf {
        digest: [0; 32],
        key: vec![0; 32],
        value: vec![0; 5],
    });
    assert_eq!(node_response_wire_len(&leaf), 75);
    let child = PatchChild {
        byte: 0,
        digest: [0; 32],
        leaf_count: 1,
    };
    let branch = PatchNodeResponse::Found(PatchNode::Branch {
        digest: [0; 32],
        leaf_count: 2,
        representative: vec![0; 32],
        depth: 0,
        children: vec![child, child],
    });
    assert_eq!(node_response_wire_len(&branch), 161);
}

#[test]
fn answers_that_do_not_fit_end_the_session() {
    let local = Store::open([1; 32]).overlay();
    let shown = some_manifest();
    let begin = || {
        let mut pull = CollectionPull::begin(shown, None);
        pull.next_stage(&local, true);
        pull.requested();
        pull
    };
    assert_eq!(
        begin().received_record(
            &local,
            &PatchNodeResponse::PrefixAbsent,
            true,
            Err(RecordDecodeError::Framing)
        ),
        Err(PullError::OmittedPrefix)
    );
    assert_eq!(
        begin().received_record(
            &local,
            &PatchNodeResponse::SnapshotUnavailable,
            true,
            Err(RecordDecodeError::Framing)
        ),
        Err(PullError::LostSnapshot)
    );
    let good = record([1; 32], 9);
    let leaf = |key: Key| {
        PatchNodeResponse::Found(PatchNode::Leaf {
            digest: [0; 32],
            key: key.to_vec(),
            value: good.bytes.clone(),
        })
    };
    assert_eq!(
        begin().received_record(&local, &leaf(good.fingerprint), false, Ok(good.clone())),
        Err(PullError::InvalidNode)
    );
    assert_eq!(
        begin().received_record(&local, &leaf([3; 32]), true, Ok(good.clone())),
        Err(PullError::RecordMismatch)
    );
    let foreign = record([2; 32], 9);
    assert_eq!(
        begin().received_record(&local, &leaf(foreign.fingerprint), true, Ok(foreign)),
        Err(PullError::Record(CollectionDeltaError::WrongCollection))
    );
    let mut pull = begin();
    assert_eq!(
        pull.received_record(&local, &leaf(good.fingerprint), true, Ok(good.clone())),
        Ok(())
    );
    assert_eq!(pull.records.missing, vec![good.clone()]);
    assert_eq!(
        record_leaf(&[1; 32], &[3; 32], &good),
        Err(LeafError::RecordMismatch)
    );
    assert_eq!(
        record_leaf(&[2; 32], &good.fingerprint, &good),
        Err(LeafError::Record(CollectionDeltaError::WrongCollection))
    );
}

#[test]
fn evidence_over_the_collection_from_another_root_is_an_error() {
    let local = Store::new([1; 32], vec![(READ, direct(key(1)))]).overlay();
    let stranger = grant_of(key(2), key(3), READ, [1; 32]);
    let mut pull = CollectionPull::begin(some_manifest(), None);
    pull.requested();
    let response = PatchNodeResponse::Found(PatchNode::Leaf {
        digest: [0; 32],
        key: stranger.id.to_vec(),
        value: stranger.bytes.clone(),
    });
    assert_eq!(
        pull.received_evidence(&local, &response, true, Ok(stranger.clone())),
        Err(PullError::Evidence(
            CollectionAuthorizationEvidenceError::WrongRoot
        ))
    );
    assert_eq!(
        pull.received_evidence(
            &local,
            &response,
            true,
            Err(CapabilityProofError::Encoding)
        ),
        Err(PullError::Proof(CapabilityProofError::Encoding))
    );
    assert_eq!(
        evidence_leaf(&[1; 32], &[0; 64], &stranger),
        Err(LeafError::EvidenceMismatch)
    );
}
