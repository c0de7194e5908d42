use triblespace_net::collection_activation::{
    canonical_authorization_evidence, collection_authorization_evidence,
    collection_read_bootstrap_proofs, collection_repair_overlay, evidence_key, repair_root,
    validate_authorization_evidence_proof, AdmissionPolicy, CapabilityPolicy, CapabilityProof,
    CapabilityProofError, CollectionAuthorizationEvidenceDiscoveryError,
    CollectionAuthorizationEvidenceError, CollectionAuthorizationEvidencePatch,
    CollectionDescriptor, CollectionPolicy, CollectionReadAudience, CollectionReadBootstrapError,
    CollectionRepairOverlay, CollectionRepairOverlayError, PrefixWitness, ProofLink,
    ResidentDefinitions, ResourceEntity,
};
use triblespace_net::collection_delta::{CollectionRecord, RecordDecodeError};
use triblespace_net::key_map::KeyMap;
use triblespace_net::patch_summary::PatchSummary;

type Key = [u8; 32];

const READ: Key = [0xD1; 32];
const WRITE: Key = [0xD2; 32];
const READ_AND_DELEGATE: Key = [0xD3; 32];
const DELEGATE_READ: Key = [0xD4; 32];
const DELEGATE_WRITE: Key = [0xD5; 32];

fn key(byte: u8) -> Key {
    ed25519_dalek::SigningKey::from_bytes(&[byte; 32])
        .verifying_key()
        .to_bytes()
}

/// Whether a definition grants an action, and whether it lets it be delegated.
fn grants(capability: Key, action: Key, known: &[Key]) -> (bool, bool) {
    if !known.contains(&capability) {
        return (false, false);
    }
    match (capability, action) {
        (READ, READ) | (WRITE, WRITE) => (true, false),
        (READ_AND_DELEGATE, READ) => (true, true),
        (DELEGATE_READ, READ) | (DELEGATE_WRITE, WRITE) => (false, true),
        _ => (false, false),
    }
}

/// Whether a chain lets its last subject perform an action.
fn chain_grants(links: &[ProofLink], action: Key, known: &[Key]) -> bool {
    let (last, before) = match links.split_last() {
        Some(parts) => parts,
        None => return false,
    };
    before
        .iter()
        .all(|link| grants(link.capability, action, known).1)
        && grants(last.capability, action, known).0
}

fn policy_admits(
    policy: &AdmissionPolicy,
    proofs: &[CapabilityProof],
    subject: Key,
    action: Key,
    known: &[Key],
) -> bool {
    match policy {
        AdmissionPolicy::Open => true,
        AdmissionPolicy::Quorum { roots, threshold } => {
            let shares = roots
                .iter()
                .filter(|root| {
                    **root == subject
                        || proofs.iter().any(|proof| {
                            proof.root_key == **root
                                && (1..=proof.links.len()).any(|count| {
                                    proof.links[count - 1].subject == subject
                                        && chain_grants(&proof.links[..count], action, known)
                                })
                        })
                })
                .count();
            shares >= *threshold as usize
        }
    }
}

fn sealed_proof(resource: Key, root_key: Key, links: Vec<ProofLink>) -> CapabilityProof {
    let mut bytes = Vec::new();
    bytes.extend_from_slice(&resource);
    bytes.extend_from_slice(&root_key);
    for link in &links {
        bytes.extend_from_slice(&link.capability);
        bytes.extend_from_slice(&link.subject);
    }
    CapabilityProof {
        id: *blake3::hash(&bytes).as_bytes(),
        resource,
        root_key,
        links,
        bytes,
        signature_error: None,
    }
}

fn root_proof(root: Key, subject: Key, (capability, resource): (Key, Key)) -> CapabilityProof {
    sealed_proof(
        resource,
        root,
        vec![ProofLink {
            capability,
            subject,
        }],
    )
}

fn delegate(proof: &CapabilityProof, capability: Key, subject: Key) -> CapabilityProof {
    let mut links = proof.links.clone();
    links.push(ProofLink {
        capability,
        subject,
    });
    sealed_proof(proof.resource, proof.root_key, links)
}

fn broken(mut proof: CapabilityProof) -> CapabilityProof {
    *proof.bytes.last_mut().unwrap() ^= 1;
    proof.id = *blake3::hash(&proof.bytes).as_bytes();
    proof.signature_error = Some(CapabilityProofError::InvalidSignature { index: 0 });
    proof
}

fn direct(root: Key) -> AdmissionPolicy {
    AdmissionPolicy::Quorum {
        roots: vec![root],
        threshold: 1,
    }
}

fn quorum(roots: &[Key], threshold: u32) -> AdmissionPolicy {
    AdmissionPolicy::Quorum {
        roots: roots.to_vec(),
        threshold,
    }
}

fn binding(capability: Key, policy: AdmissionPolicy) -> CapabilityPolicy {
    CapabilityPolicy { capability, policy }
}

fn described(capability_policies: Vec<CapabilityPolicy>) -> CollectionDescriptor {
    CollectionDescriptor {
        policy: Err(RecordDecodeError::Descriptor),
        capability_policies,
    }
}

/// A descriptor with one policy for each action.
fn scalar(read: AdmissionPolicy, write: AdmissionPolicy) -> CollectionDescriptor {
    CollectionDescriptor {
        policy: Ok(CollectionPolicy {
            read: read.clone(),
            write: write.clone(),
        }),
        capability_policies: vec![binding(READ, read), binding(WRITE, write)],
    }
}

/// What the resident definitions make of a descriptor.
fn definitions(descriptor: &CollectionDescriptor, known: &[Key]) -> ResidentDefinitions {
    let bound = |action: Key| {
        descriptor
            .capability_policies
            .iter()
            .filter(|binding| grants(binding.capability, action, known).0)
            .map(|binding| binding.policy.clone())
            .collect::<Vec<_>>()
    };
    ResidentDefinitions {
        read_policies: bound(READ),
        write_policies: bound(WRITE),
        routes: KeyMap::new(),
    }
}

const STANDARD: [Key; 2] = [READ, WRITE];

fn evidence_of(
    collection: Key,
    descriptor: CollectionDescriptor,
    known: &[Key],
    proofs: Vec<CapabilityProof>,
) -> CollectionAuthorizationEvidencePatch {
    let definitions = definitions(&descriptor, known);
    canonical_authorization_evidence(collection, descriptor, definitions, proofs).unwrap()
}

fn digest(keys: impl IntoIterator<Item = Key>) -> Key {
    let mut hasher = blake3::Hasher::new();
    for key in keys {
        hasher.update(&key);
    }
    *hasher.finalize().as_bytes()
}

/// The overlay of one observation, its sets summarised by a digest of their keys.
fn overlay_of(
    collection: Key,
    descriptor: CollectionDescriptor,
    known: &[Key],
    proofs: Vec<CapabilityProof>,
    records: Vec<CollectionRecord>,
) -> CollectionRepairOverlay {
    let definitions = definitions(&descriptor, known);
    let mut overlay = collection_repair_overlay::<String, String, String>(
        collection,
        Ok(descriptor),
        definitions,
        Ok(proofs),
        Ok(records),
    )
    .unwrap();
    overlay.records.root = digest(
        overlay
            .records
            .records()
            .iter()
            .map(|record| record.fingerprint),
    );
    let ids: Vec<Key> = overlay
        .authorization_evidence
        .proofs()
        .iter()
        .map(|proof| proof.id)
        .collect();
    overlay.authorization_evidence.root = digest(ids);
    overlay
}

fn reader_is_admitted(
    evidence: &CollectionAuthorizationEvidencePatch,
    known: &[Key],
    subject: Key,
    proofs: &[CapabilityProof],
) -> bool {
    let verdicts: Vec<bool> = evidence
        .read_policies()
        .iter()
        .map(|policy| policy_admits(policy, proofs, subject, READ, known))
        .collect();
    evidence.reader_is_admitted_by(&verdicts)
}

fn audience_of(
    evidence: &CollectionAuthorizationEvidencePatch,
    known: &[Key],
) -> CollectionReadAudience {
    let proofs = evidence.proofs();
    let audiences: Vec<CollectionReadAudience> = evidence
        .read_policies()
        .iter()
        .map(|policy| match policy {
            AdmissionPolicy::Open => CollectionReadAudience::Open,
            AdmissionPolicy::Quorum { roots, .. } => {
                let mut candidates = roots.clone();
                for proof in &proofs {
                    candidates.extend(proof.links.iter().map(|link| link.subject));
                }
                candidates
                    .retain(|candidate| policy_admits(policy, &proofs, *candidate, READ, known));
                CollectionReadAudience::Restricted(candidates)
            }
        })
        .collect();
    evidence.authorized_readers(&audiences)
}

fn bootstrap(
    evidence: &CollectionAuthorizationEvidencePatch,
    known: &[Key],
    subject: Key,
    limit: usize,
) -> Result<Vec<CapabilityProof>, CollectionReadBootstrapError<String, String>> {
    let prefixes: Vec<Vec<PrefixWitness>> = evidence
        .proofs()
        .iter()
        .map(|proof| {
            (1..=proof.links.len())
                .map(|count| PrefixWitness {
                    subject: proof.links[count - 1].subject,
                    witness: sealed_proof(
                        proof.resource,
                        proof.root_key,
                        proof.links[..count].to_vec(),
                    ),
                    reads: chain_grants(&proof.links[..count], READ, known),
                })
                .collect()
        })
        .collect();
    let mut selection = evidence.read_bootstrap_proofs(&subject, &prefixes);
    while !selection.is_done() {
        let admitted = reader_is_admitted(evidence, known, subject, &selection.selected);
        selection.answer(admitted);
    }
    collection_read_bootstrap_proofs(Ok(selection.into_selected()), limit)
}

fn record(collection: Key, byte: u8) -> CollectionRecord {
    let bytes = vec![byte; 128];
    CollectionRecord {
        collection,
        fingerprint: *blake3::hash(&bytes).as_bytes(),
        bytes,
    }
}

#[test]
fn discovery_keeps_descriptor_roots_without_definitions_proofs_or_admission() {
    let first = key(110);
    let second = key(111);
    let missing_definition = [113; 32];
    let descriptor = described(vec![
        binding(missing_definition, quorum(&[first, second], 2)),
        binding(WRITE, AdmissionPolicy::Open),
    ]);
    let overlay = overlay_of([9; 32], descriptor, &[], Vec::new(), Vec::new());
    let evidence = overlay.authorization_evidence();
    assert!(evidence.is_empty());
    assert_eq!(evidence.read_policies().len(), 0);
    assert!(!reader_is_admitted(evidence, &[], first, &[]));
    let mut expected = vec![first, second];
    expected.sort();
    let mut actual = overlay.discovery_candidates();
    actual.sort();
    assert_eq!(actual, expected, "unbound policy roots are not candidates");
    assert_eq!(
        overlay.discovery_candidates(),
        evidence.discovery_candidates()
    );
}

#[test]
fn discovery_keeps_exact_resource_proof_chain_but_not_unrelated_or_invalid_proofs() {
    let root = key(114);
    let intermediate = key(115);
    let leaf = key(116);
    let unrelated = key(117);
    let unconfigured = key(118);
    let invalid_subject = key(119);
    let collection = [120; 32];
    let missing_definition = [121; 32];
    let chain = delegate(
        &root_proof(root, intermediate, (missing_definition, collection)),
        missing_definition,
        leaf,
    );
    let wrong_resource = root_proof(root, unrelated, (missing_definition, [122; 32]));
    let wrong_root = root_proof(unconfigured, unrelated, (missing_definition, collection));
    let invalid = broken(root_proof(
        root,
        invalid_subject,
        (missing_definition, collection),
    ));
    let evidence = evidence_of(
        collection,
        scalar(direct(root), AdmissionPolicy::Open),
        &[],
        vec![chain.clone(), wrong_resource, wrong_root, invalid],
    );
    assert_eq!(evidence.len(), 1);
    assert!(!reader_is_admitted(&evidence, &[], leaf, &[chain]));
    assert_eq!(
        evidence.discovery_candidates(),
        vec![root, root, intermediate, leaf],
        "raw hint projection preserves duplicates and every chain principal"
    );
}

#[test]
fn proof_membership_requires_resource_and_root_but_not_definition_residency() {
    let root = key(60);
    let subject = key(61);
    let custom = [62; 32];
    let collection = [63; 32];
    let bound = root_proof(root, subject, (custom, collection));
    let unknown_definition = root_proof(root, subject, ([65; 32], collection));
    let invalid = [
        root_proof(root, subject, (custom, [64; 32])),
        root_proof(key(66), subject, (custom, collection)),
    ];
    let evidence = evidence_of(
        collection,
        described(vec![binding(custom, direct(root))]),
        &STANDARD,
        vec![
            bound.clone(),
            unknown_definition.clone(),
            invalid[0].clone(),
            invalid[1].clone(),
        ],
    );
    assert_eq!(evidence.len(), 2);
    for proof in [bound, unknown_definition] {
        evidence.validate_proof(&proof).unwrap();
        assert_eq!(evidence.get(&proof.id), Some(&proof));
        assert!(!reader_is_admitted(&evidence, &STANDARD, subject, &[proof]));
    }
    for proof in invalid {
        assert!(evidence.validate_proof(&proof).is_err());
        assert!(evidence.get(&proof.id).is_none());
    }
}

#[test]
fn generic_inventory_keeps_shares_without_combining_different_actions() {
    let a = key(67);
    let b = key(68);
    let subject = key(69);
    let collection = [70; 32];
    let evidence = evidence_of(
        collection,
        scalar(quorum(&[a, b], 2), quorum(&[a, b], 2)),
        &STANDARD,
        vec![
            root_proof(a, subject, (READ, collection)),
            root_proof(b, subject, (WRITE, collection)),
        ],
    );
    assert_eq!(evidence.len(), 2, "incomplete shares remain repairable");
    let proofs = evidence.proofs();
    for action in [READ, WRITE] {
        assert!(!policy_admits(
            &quorum(&[a, b], 2),
            &proofs,
            subject,
            action,
            &STANDARD
        ));
    }
    assert_eq!(evidence.capability_policies().len(), 2);
}

#[test]
fn resource_prefix_hides_other_members_and_keeps_its_summary_stable() {
    let root = key(73);
    let subject = key(74);
    let collection = [75; 32];
    let other = [76; 32];
    let valid = root_proof(root, subject, (WRITE, collection));
    let unrelated = root_proof(root, subject, (WRITE, other));
    let mut evidence = evidence_of(
        collection,
        scalar(AdmissionPolicy::Open, direct(root)),
        &STANDARD,
        vec![valid.clone()],
    )
    .with_root([9; 32]);
    let before = evidence.summary();
    // Exercise a shared physical index without disclosing its outer root.
    evidence
        .proofs
        .insert(evidence_key(&other, &unrelated.id), unrelated.clone());
    assert_eq!(evidence.summary(), before);
    assert_eq!(evidence.len(), 1);
    assert_eq!(evidence.proofs(), vec![valid.clone()]);
    assert!(evidence.get(&unrelated.id).is_none());
    let mut absolute = collection.to_vec();
    assert_eq!(evidence.absolute_prefix(&[]), Some(absolute.clone()));
    absolute.extend_from_slice(&valid.id);
    assert_eq!(evidence.absolute_prefix(&valid.id), Some(absolute.clone()));
    assert_eq!(
        evidence_key(&collection, &valid.id).to_vec(),
        absolute
    );
    assert_eq!(evidence.absolute_prefix(&[0; 33]), None);
}

#[test]
fn read_policy_alternatives_shape_evidence_and_bootstrap_independently_of_write() {
    let root_a = key(40);
    let root_b = key(41);
    let reader_a = key(42);
    let reader_b = key(43);
    let collection = [39; 32];
    let proof_a = root_proof(root_a, reader_a, (READ, collection));
    let proof_b = root_proof(root_b, reader_b, (READ, collection));
    let wrong_action = root_proof(root_a, reader_a, (WRITE, collection));
    let overlay = overlay_of(
        collection,
        described(vec![
            binding(READ, direct(root_a)),
            binding(READ, direct(root_b)),
        ]),
        &STANDARD,
        vec![proof_a, proof_b.clone(), wrong_action],
        Vec::new(),
    );
    assert_eq!(
        overlay.policy(),
        Err(RecordDecodeError::Descriptor),
        "scalar diagnostics remain explicit"
    );
    let evidence = overlay.authorization_evidence();
    assert_eq!(evidence.len(), 3);
    assert_eq!(evidence.write_policies().len(), 0);
    let proofs = evidence.proofs();
    for reader in [reader_a, reader_b] {
        assert!(reader_is_admitted(evidence, &STANDARD, reader, &proofs));
    }
    assert!(!reader_is_admitted(evidence, &STANDARD, key(44), &proofs));
    match audience_of(evidence, &STANDARD) {
        CollectionReadAudience::Restricted(audience) => {
            assert!(audience.contains(&reader_a));
            assert!(audience.contains(&reader_b));
        }
        CollectionReadAudience::Open => {
            panic!("restricted READ alternatives must not become Open")
        }
    }
    assert_eq!(
        bootstrap(evidence, &STANDARD, reader_b, 1).unwrap(),
        vec![proof_b]
    );
}

/// The bindings whose policy is of a supported kind.
fn recognised(bindings: Vec<(Key, Option<AdmissionPolicy>)>) -> CollectionDescriptor {
    described(
        bindings
            .into_iter()
            .filter_map(|(capability, policy)| Some(binding(capability, policy?)))
            .collect(),
    )
}

#[test]
fn absent_or_unknown_read_policy_never_borrows_open_write_or_unrelated_read() {
    let absent = recognised(vec![(WRITE, Some(AdmissionPolicy::Open))]);
    let unknown = recognised(vec![(READ, None), (WRITE, Some(AdmissionPolicy::Open))]);
    for descriptor in [absent, unknown] {
        let overlay = overlay_of([39; 32], descriptor, &STANDARD, Vec::new(), Vec::new());
        let evidence = overlay.authorization_evidence();
        assert_eq!(evidence.read_policies().len(), 0);
        assert!(evidence.write_policies().contains(&AdmissionPolicy::Open));
        assert!(!reader_is_admitted(evidence, &STANDARD, key(44), &[]));
        assert_eq!(
            audience_of(evidence, &STANDARD),
            CollectionReadAudience::Restricted(Vec::new())
        );
    }
}

#[test]
fn a_copy_holds_the_same_and_decides_the_same() {
    let root = key(1);
    let collection = [2; 32];
    let grant = root_proof(root, key(3), (WRITE, collection));
    let overlay = overlay_of(
        collection,
        scalar(direct(root), direct(root)),
        &STANDARD,
        vec![grant.clone()],
        vec![record(collection, 4)],
    );
    let copy = overlay.clone();
    assert_eq!(copy.wake_root(), overlay.wake_root());
    assert_eq!(copy.policy(), overlay.policy());
    assert_eq!(copy.records().records(), overlay.records().records());
    assert_eq!(
        copy.authorization_evidence().proofs(),
        overlay.authorization_evidence().proofs()
    );
    for candidate in [grant, root_proof(key(9), key(3), (WRITE, collection))] {
        assert_eq!(
            copy.authorization_evidence().validate_proof(&candidate),
            overlay.authorization_evidence().validate_proof(&candidate)
        );
    }
}

#[test]
fn explicit_open_read_does_not_require_a_write_policy() {
    let overlay = overlay_of(
        [39; 32],
        described(vec![binding(READ, AdmissionPolicy::Open)]),
        &STANDARD,
        Vec::new(),
        Vec::new(),
    );
    assert!(overlay.policy().is_err());
    let evidence = overlay.authorization_evidence();
    assert!(evidence.is_empty());
    assert_eq!(evidence.write_policies().len(), 0);
    assert!(reader_is_admitted(evidence, &STANDARD, key(44), &[]));
    assert_eq!(
        audience_of(evidence, &STANDARD),
        CollectionReadAudience::Open
    );
    assert!(bootstrap(evidence, &STANDARD, key(44), 0)
        .unwrap()
        .is_empty());
}

#[test]
fn commit_and_later_write_proof_are_independent_repair_components() {
    let root = key(1);
    let writer = key(2);
    let collection = [3; 32];
    let observe = |proofs: Vec<CapabilityProof>| {
        overlay_of(
            collection,
            scalar(AdmissionPolicy::Open, direct(root)),
            &STANDARD,
            proofs,
            vec![record(collection, 3)],
        )
    };
    let grant = root_proof(root, writer, (WRITE, collection));
    let before = observe(Vec::new());
    let after = observe(vec![grant]);
    assert_eq!(before.records().summary().leaf_count(), 1);
    assert_eq!(after.records().summary().leaf_count(), 1);
    assert_eq!(before.records().summary(), after.records().summary());
    assert_ne!(
        before.authorization_evidence().summary(),
        after.authorization_evidence().summary()
    );
    assert_ne!(before.wake_root(), after.wake_root());
}

#[test]
fn record_and_authorization_evidence_converge_in_either_arrival_order() {
    let root = key(32);
    let collection = [31; 32];
    let grants = [
        root_proof(root, key(33), (WRITE, collection)),
        root_proof(root, key(34), (WRITE, collection)),
    ];
    let records = [record(collection, 34), record(collection, 35)];
    let observe = |proofs: Vec<CapabilityProof>, records: Vec<CollectionRecord>| {
        overlay_of(
            collection,
            scalar(AdmissionPolicy::Open, direct(root)),
            &STANDARD,
            proofs,
            records,
        )
    };
    let first = observe(grants.to_vec(), records.to_vec());
    let second = observe(
        vec![grants[1].clone(), grants[0].clone()],
        vec![records[1].clone(), records[0].clone()],
    );
    assert_eq!(first.records().summary(), second.records().summary());
    assert_eq!(
        first.authorization_evidence().summary(),
        second.authorization_evidence().summary()
    );
    assert_eq!(first.wake_root(), second.wake_root());
}

#[test]
fn read_proof_changes_wake_root_without_changing_records() {
    let root = key(29);
    let reader = key(30);
    let collection = [28; 32];
    let observe = |proofs: Vec<CapabilityProof>| {
        overlay_of(
            collection,
            scalar(direct(root), AdmissionPolicy::Open),
            &STANDARD,
            proofs,
            Vec::new(),
        )
    };
    let before = observe(Vec::new());
    let after = observe(vec![root_proof(root, reader, (READ, collection))]);
    assert_eq!(before.records().summary(), after.records().summary());
    assert_eq!(before.authorization_evidence().len(), 0);
    assert_eq!(after.authorization_evidence().len(), 1);
    assert_ne!(before.wake_root(), after.wake_root());
}

#[test]
fn merge_and_derive_equations_participate_in_collection_repair() {
    let collection = [30; 32];
    let commit = record(collection, 31);
    let merge = record(collection, 33);
    let derive = record(collection, 34);
    let observe = |records: Vec<CollectionRecord>| {
        overlay_of(
            collection,
            scalar(AdmissionPolicy::Open, AdmissionPolicy::Open),
            &STANDARD,
            Vec::new(),
            records,
        )
    };
    let before = observe(vec![commit.clone()]);
    let after = observe(vec![commit.clone(), merge.clone(), derive.clone()]);
    assert_ne!(before.records().summary(), after.records().summary());
    assert_ne!(before.wake_root(), after.wake_root());
    assert_eq!(after.records().len(), 3);
    for record in [commit, merge, derive] {
        assert_eq!(after.records().get(&record.fingerprint), Some(&record));
    }
}

#[test]
fn unchanged_observations_preserve_evidence_and_admission() {
    let root = key(4);
    let reader = key(5);
    let collection = [6; 32];
    let proof = root_proof(root, reader, (READ, collection));
    let observe = || {
        overlay_of(
            collection,
            scalar(direct(root), AdmissionPolicy::Open),
            &STANDARD,
            vec![proof.clone()],
            Vec::new(),
        )
    };
    let first = observe();
    let second = observe();
    assert_eq!(first.wake_root(), second.wake_root());
    for overlay in [&first, &second] {
        assert!(reader_is_admitted(
            overlay.authorization_evidence(),
            &STANDARD,
            reader,
            &[proof.clone()]
        ));
    }
}

#[test]
fn definition_arrival_changes_admission_without_changing_repair_membership() {
    let root = key(32);
    let reader = key(33);
    let collection = [31; 32];
    let proof = root_proof(root, reader, (READ, collection));
    let observe = |known: &[Key]| {
        overlay_of(
            collection,
            described(vec![binding(READ, direct(root))]),
            known,
            vec![proof.clone()],
            Vec::new(),
        )
    };
    let admitted = |overlay: &CollectionRepairOverlay, known: &[Key]| {
        reader_is_admitted(
            overlay.authorization_evidence(),
            known,
            reader,
            &[proof.clone()],
        )
    };
    let before = observe(&[]);
    assert_eq!(
        before.authorization_evidence().get(&proof.id),
        Some(&proof)
    );
    assert!(!admitted(&before, &[]));
    let after = observe(&[READ]);
    assert_eq!(before.wake_root(), after.wake_root());
    assert!(admitted(&after, &[READ]));
    assert!(!admitted(&before, &[READ]));
    let arrived = definitions(&described(vec![binding(READ, direct(root))]), &[READ]);
    let refreshed = before.with_definitions(arrived);
    assert_eq!(refreshed.wake_root(), after.wake_root());
    assert!(admitted(&refreshed, &[READ]));
}

#[test]
fn incoming_grant_can_use_a_resident_definition_absent_from_local_proofs() {
    let root = key(90);
    let reader = key(91);
    let collection = [89; 32];
    let known = [READ, WRITE, READ_AND_DELEGATE];
    let descriptor = scalar(direct(root), AdmissionPolicy::Open);
    let resident = definitions(&descriptor, &known);
    let evidence = collection_authorization_evidence::<String, String>(
        collection,
        Ok(descriptor),
        resident,
        Ok(Vec::new()),
    )
    .unwrap();
    assert!(evidence.is_empty());
    let proof = root_proof(root, reader, (READ_AND_DELEGATE, collection));
    evidence.validate_proof(&proof).unwrap();
    assert!(reader_is_admitted(&evidence, &known, reader, &[proof]));
}

#[test]
fn subordinate_resources_use_immutable_same_entity_routes_and_their_own_roots() {
    let collection_root = key(92);
    let resource_root = key(93);
    let reader = key(94);
    let collection = [1; 32];
    let unknown_definition = [95; 32];
    let resource = [2; 32];
    let same_root_resource = [3; 32];
    let wrong_audience = [4; 32];
    let split_resource = [5; 32];
    let descriptor = scalar(direct(collection_root), direct(collection_root));
    let mut resident = definitions(&descriptor, &STANDARD);
    let other = [6; 32];
    let entity = |collections: &[Key], policies: &[AdmissionPolicy]| ResourceEntity {
        collections: collections.to_vec(),
        policies: policies.to_vec(),
    };
    resident.routes.insert(
        resource,
        vec![entity(&[collection], &[direct(resource_root)])],
    );
    resident.routes.insert(
        same_root_resource,
        vec![entity(&[collection], &[direct(collection_root)])],
    );
    resident
        .routes
        .insert(wrong_audience, vec![entity(&[other], &[direct(resource_root)])]);
    // The backlink and the binding are of two entities.
    resident.routes.insert(
        split_resource,
        vec![
            entity(&[collection], &[]),
            entity(&[], &[direct(resource_root)]),
        ],
    );
    let accepted = vec![
        root_proof(resource_root, reader, (unknown_definition, resource)),
        root_proof(collection_root, reader, (READ, same_root_resource)),
    ];
    let rejected = vec![
        root_proof(collection_root, key(97), (unknown_definition, resource)),
        root_proof(resource_root, key(98), (READ, wrong_audience)),
        root_proof(resource_root, key(99), (READ, split_resource)),
        root_proof(resource_root, key(100), (READ, [96; 32])),
    ];
    let mut proofs = accepted.clone();
    proofs.extend(rejected.clone());
    let overlay = collection_repair_overlay::<String, String, String>(
        collection,
        Ok(descriptor),
        resident,
        Ok(proofs),
        Ok(Vec::new()),
    )
    .unwrap();
    let evidence = overlay.authorization_evidence();
    assert_eq!(evidence.len(), 2);
    for proof in &accepted {
        evidence.validate_proof(proof).unwrap();
        assert_eq!(evidence.get(&proof.id), Some(proof));
    }
    for proof in &rejected {
        assert!(evidence.validate_proof(proof).is_err());
        assert!(evidence.get(&proof.id).is_none());
    }
    assert_eq!(
        evidence.validate_proof(&rejected[3]),
        Err(CollectionAuthorizationEvidenceError::ResourceDescriptorUnavailable([96; 32]))
    );
    let mut candidates = overlay.discovery_candidates();
    candidates.sort();
    candidates.dedup();
    let mut expected = vec![collection_root, resource_root, reader];
    expected.sort();
    assert_eq!(
        candidates, expected,
        "only routed evidence contributes; wrong roots, other audiences, split routes and missing descriptors do not"
    );
    assert!(bootstrap(evidence, &STANDARD, reader, 16)
        .unwrap()
        .is_empty());
}

#[test]
fn read_audience_keeps_intermediate_authority_despite_restricted_suffix() {
    let root = key(34);
    let intermediate = key(35);
    let leaf = key(36);
    let delegate_only_key = key(37);
    let invalid_leaf = key(38);
    let collection = [39; 32];
    let known = [READ, WRITE, READ_AND_DELEGATE, DELEGATE_READ];
    let parent = root_proof(root, intermediate, (READ_AND_DELEGATE, collection));
    let child = delegate(&parent, READ, leaf);
    let restricted = delegate(&parent, WRITE, invalid_leaf);
    let delegate_only = root_proof(root, delegate_only_key, (DELEGATE_READ, collection));
    let evidence = evidence_of(
        collection,
        scalar(direct(root), AdmissionPolicy::Open),
        &known,
        vec![child, delegate_only, restricted],
    );
    assert_eq!(
        evidence.len(),
        3,
        "byte-valid evidence remains repairable even when its suffix does not grant READ"
    );
    match audience_of(&evidence, &known) {
        CollectionReadAudience::Restricted(readers) => {
            for key in [root, intermediate, leaf] {
                assert!(readers.contains(&key));
            }
            assert!(!readers.contains(&delegate_only_key));
            assert!(!readers.contains(&invalid_leaf));
            let mut distinct = readers.clone();
            distinct.sort();
            distinct.dedup();
            assert_eq!(distinct.len(), readers.len());
        }
        CollectionReadAudience::Open => panic!("restricted policy became open"),
    }
}

#[test]
fn authorization_membership_rejects_wrong_resource_root_and_signature() {
    let root = key(7);
    let writer = key(9);
    let collection = [10; 32];
    let policy = CollectionPolicy {
        read: direct(root),
        write: direct(root),
    };
    let proof = root_proof(root, writer, (WRITE, collection));
    validate_authorization_evidence_proof(&collection, &policy, &proof).unwrap();
    assert_eq!(
        validate_authorization_evidence_proof(&[11; 32], &policy, &proof),
        Err(CollectionAuthorizationEvidenceError::WrongResource)
    );
    let unknown_definition = root_proof(root, writer, ([12; 32], collection));
    validate_authorization_evidence_proof(&collection, &policy, &unknown_definition).unwrap();
    let wrong_root = root_proof(key(8), writer, (WRITE, collection));
    assert_eq!(
        validate_authorization_evidence_proof(&collection, &policy, &wrong_root),
        Err(CollectionAuthorizationEvidenceError::WrongRoot)
    );
    assert_eq!(
        validate_authorization_evidence_proof(&collection, &policy, &broken(proof.clone())),
        Err(CollectionAuthorizationEvidenceError::Invalid(
            CapabilityProofError::InvalidSignature { index: 0 }
        ))
    );
    let open = CollectionPolicy {
        read: AdmissionPolicy::Open,
        write: AdmissionPolicy::Open,
    };
    assert_eq!(
        validate_authorization_evidence_proof(&collection, &open, &proof),
        Err(CollectionAuthorizationEvidenceError::OpenPolicies)
    );
}

#[test]
fn canonical_patch_ignores_arrival_order_duplicates_and_irrelevant_proofs() {
    let root = key(13);
    let other_root = key(14);
    let a = key(15);
    let b = key(16);
    let collection = [17; 32];
    let first = root_proof(root, a, (WRITE, collection));
    let second = root_proof(root, b, (WRITE, collection));
    let read = root_proof(root, b, (READ, collection));
    let irrelevant = root_proof(other_root, b, (WRITE, collection));
    let collect = |proofs: Vec<CapabilityProof>| {
        evidence_of(
            collection,
            scalar(direct(root), direct(root)),
            &STANDARD,
            proofs,
        )
    };
    let left = collect(vec![
        first.clone(),
        read.clone(),
        second.clone(),
        first.clone(),
        irrelevant,
    ]);
    let right = collect(vec![second, first, read]);
    assert_eq!(left.len(), 3);
    assert_eq!(left.proofs(), right.proofs());
    assert_eq!(left.summary(), right.summary());
}

#[test]
fn every_independent_root_path_needed_by_quorum_is_preserved() {
    let root_a = key(18);
    let root_b = key(19);
    let bridge = key(20);
    let writer = key(21);
    let collection = [22; 32];
    let known = [READ, WRITE, DELEGATE_WRITE];
    let delegated = |root: Key| {
        delegate(
            &root_proof(root, bridge, (DELEGATE_WRITE, collection)),
            WRITE,
            writer,
        )
    };
    let evidence = evidence_of(
        collection,
        scalar(AdmissionPolicy::Open, quorum(&[root_a, root_b], 2)),
        &known,
        vec![delegated(root_a), delegated(root_b)],
    );
    assert_eq!(evidence.len(), 2);
    assert!(policy_admits(
        &quorum(&[root_a, root_b], 2),
        &evidence.proofs(),
        writer,
        WRITE,
        &known
    ));
}

#[test]
fn missing_descriptor_fails_closed_before_overlay_exists() {
    let absent = definitions(&described(Vec::new()), &STANDARD);
    let result = collection_repair_overlay::<String, String, &str>(
        [23; 32],
        Err("not found"),
        absent,
        Ok(Vec::new()),
        Ok(Vec::new()),
    );
    assert!(matches!(
        result,
        Err(CollectionRepairOverlayError::Descriptor("not found"))
    ));
}

#[test]
fn failures_of_a_store_are_told_apart() {
    let empty = || definitions(&described(Vec::new()), &STANDARD);
    let proofs = collection_repair_overlay::<&str, &str, &str>(
        [23; 32],
        Ok(described(Vec::new())),
        empty(),
        Err("proofs"),
        Ok(Vec::new()),
    );
    assert!(matches!(
        proofs,
        Err(CollectionRepairOverlayError::Proofs("proofs"))
    ));
    let records = collection_repair_overlay::<&str, &str, &str>(
        [23; 32],
        Ok(described(Vec::new())),
        empty(),
        Ok(Vec::new()),
        Err("records"),
    );
    assert!(matches!(
        records,
        Err(CollectionRepairOverlayError::Records(_))
    ));
    assert!(matches!(
        collection_authorization_evidence::<&str, &str>(
            [23; 32],
            Err("descriptor"),
            empty(),
            Ok(Vec::new())
        ),
        Err(CollectionAuthorizationEvidenceDiscoveryError::Descriptor(
            "descriptor"
        ))
    ));
}

#[test]
fn distinct_proofs_with_one_identity_are_refused() {
    let root = key(1);
    let collection = [2; 32];
    let proof = root_proof(root, key(3), (WRITE, collection));
    let mut imitation = root_proof(root, key(4), (WRITE, collection));
    imitation.id = proof.id;
    let descriptor = scalar(direct(root), direct(root));
    let resident = definitions(&descriptor, &STANDARD);
    let error = canonical_authorization_evidence(
        collection,
        descriptor,
        resident,
        vec![proof.clone(), imitation],
    )
    .unwrap_err();
    assert_eq!(
        error,
        CollectionAuthorizationEvidenceError::ProofIdCollision(proof.id)
    );
}

#[test]
fn read_bootstrap_is_exact_deterministic_and_transport_bounded() {
    let root = key(24);
    let other_root = key(25);
    let reader = key(26);
    let collection = [27; 32];
    let relevant = root_proof(root, reader, (READ, collection));
    let wrong_action = root_proof(root, reader, (WRITE, collection));
    let wrong_root = root_proof(other_root, reader, (READ, collection));
    let unrelated_reader = root_proof(root, key(28), (READ, collection));
    let overlay = overlay_of(
        collection,
        scalar(direct(root), AdmissionPolicy::Open),
        &STANDARD,
        vec![
            wrong_root,
            unrelated_reader,
            relevant.clone(),
            wrong_action,
        ],
        Vec::new(),
    );
    let evidence = overlay.authorization_evidence();
    assert_eq!(
        bootstrap(evidence, &STANDARD, reader, 1).unwrap(),
        vec![relevant.clone()]
    );
    assert!(reader_is_admitted(evidence, &STANDARD, reader, &[relevant]));
    assert!(matches!(
        bootstrap(evidence, &STANDARD, reader, 0),
        Err(CollectionReadBootstrapError::TooMany { count: 1, limit: 0 })
    ));
}

#[test]
fn read_bootstrap_trims_suffixes_without_losing_independent_root_shares() {
    let roots = [key(80), key(81)];
    let reader = key(82);
    let later = key(83);
    let collection = [84; 32];
    let known = [READ, WRITE, READ_AND_DELEGATE];
    let mut stored = Vec::new();
    let witnesses = roots.map(|root| {
        let parent = root_proof(root, reader, (READ_AND_DELEGATE, collection));
        // Store only longer paths. One suffix is a legal READ grant and another is
        // signed but exceeds its parent's delegated action.
        for capability in [READ, WRITE] {
            stored.push(delegate(&parent, capability, later));
        }
        parent
    });
    let overlay = overlay_of(
        collection,
        scalar(quorum(&roots, 2), AdmissionPolicy::Open),
        &known,
        stored,
        Vec::new(),
    );
    let evidence = overlay.authorization_evidence();
    let selected = bootstrap(evidence, &known, reader, 2).unwrap();
    assert_eq!(selected.len(), 2, "duplicate suffixes are not extra shares");
    for witness in &witnesses {
        assert!(selected.contains(witness));
    }
    for witness in &selected {
        assert_eq!(witness.links.len(), 1);
        assert_eq!(witness.links[0].subject, reader);
        assert_eq!(witness.links[0].capability, READ_AND_DELEGATE);
    }
    assert!(reader_is_admitted(evidence, &known, reader, &selected));
    assert!(!reader_is_admitted(evidence, &known, reader, &selected[..1]));
    assert!(matches!(
        bootstrap(evidence, &known, reader, 1),
        Err(CollectionReadBootstrapError::TooMany { count: 2, limit: 1 })
    ));
}

#[test]
fn read_bootstrap_skips_an_earlier_delegation_only_occurrence_of_the_subject() {
    let root = key(84);
    let reader = key(85);
    let later = key(86);
    let collection = [87; 32];
    let known = [READ, DELEGATE_READ, READ_AND_DELEGATE];
    let delegation = root_proof(root, reader, (DELEGATE_READ, collection));
    let witness = delegate(&delegation, READ_AND_DELEGATE, reader);
    let stored = delegate(&witness, READ, later);
    let overlay = overlay_of(
        collection,
        scalar(direct(root), AdmissionPolicy::Open),
        &known,
        vec![stored],
        Vec::new(),
    );
    assert_eq!(
        bootstrap(overlay.authorization_evidence(), &known, reader, 1).unwrap(),
        vec![witness]
    );
}

#[test]
fn open_read_policy_needs_no_bootstrap_evidence() {
    let overlay = overlay_of(
        [26; 32],
        scalar(AdmissionPolicy::Open, AdmissionPolicy::Open),
        &STANDARD,
        Vec::new(),
        Vec::new(),
    );
    let evidence = overlay.authorization_evidence();
    assert!(bootstrap(evidence, &STANDARD, key(27), 0)
        .unwrap()
        .is_empty());
    assert!(reader_is_admitted(evidence, &STANDARD, key(27), &[]));
}

#[test]
fn the_repair_root_is_a_hash_of_its_components() {
    let records = PatchSummary::new(Some([1; 32]), 2).unwrap();
    let none = PatchSummary::empty();
    let root = repair_root(&[9; 32], &records, &none, &none);
    let mut input = b"triblespace.collection.repair-overlay\0".to_vec();
    input.extend_from_slice(&2_u32.to_be_bytes());
    input.extend_from_slice(&[9; 32]);
    input.push(1);
    input.extend_from_slice(&[1; 32]);
    input.extend_from_slice(&2_u64.to_be_bytes());
    for _ in 0..2 {
        input.push(0);
        input.extend_from_slice(&[0; 32]);
        input.extend_from_slice(&0_u64.to_be_bytes());
    }
    assert_eq!(root, *blake3::hash(&input).as_bytes());
    assert_ne!(root, repair_root(&[9; 32], &none, &records, &none));
}

#[test]
fn errors_are_told_in_words() {
    let missing = CollectionAuthorizationEvidenceError::ResourceDescriptorUnavailable([0xAB; 32]);
    assert_eq!(
        missing.message(""),
        format!(
            "capability resource descriptor is unavailable: blake3:{}",
            "ab".repeat(32)
        )
    );
    let twice = CollectionAuthorizationEvidenceError::ProofIdCollision([0xAB; 32]);
    assert_eq!(
        twice.message(""),
        format!(
            "distinct collection authorization proofs share id {}",
            "AB".repeat(32)
        )
    );
    let invalid = CollectionAuthorizationEvidenceError::Invalid(
        CapabilityProofError::InvalidSignature { index: 1 },
    );
    assert_eq!(
        invalid.message("bad signature"),
        "invalid collection authorization proof: bad signature"
    );
}
