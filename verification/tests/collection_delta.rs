use triblespace_net::collection_delta::{
    canonical_records, collection_record_patch, decode_record, encode_record, CollectionDeltaError,
    CollectionRecord, CollectionRecordPatchError, RecordDecodeError,
};

const COMMIT: u8 = 1;
const MERGE: u8 = 2;
const DERIVE: u8 = 3;

/// A self-tagged record: its kind, its collection and what it says.
fn record(kind: u8, collection: [u8; 32], says: &[u8]) -> CollectionRecord {
    let mut bytes = vec![kind];
    bytes.extend_from_slice(&collection);
    bytes.extend_from_slice(says);
    CollectionRecord {
        collection,
        fingerprint: *blake3::hash(&bytes).as_bytes(),
        bytes,
    }
}

/// What a strict decoder makes of the bytes of one of the known records.
fn decoded(
    known: &[CollectionRecord],
    bytes: &[u8],
) -> Result<CollectionRecord, RecordDecodeError> {
    for record in known {
        if record.bytes == bytes {
            return Ok(record.clone());
        }
        if record.bytes.len() == bytes.len() {
            return Err(RecordDecodeError::Verification);
        }
    }
    Err(RecordDecodeError::Framing)
}

fn collection(byte: u8) -> [u8; 32] {
    [byte; 32]
}

fn records(expected: [u8; 32]) -> [CollectionRecord; 3] {
    [
        record(COMMIT, expected, &[1; 32]),
        record(MERGE, expected, &[2; 96]),
        record(DERIVE, expected, &[4; 64]),
    ]
}

#[test]
fn all_sparse_record_variants_roundtrip_for_the_implicit_collection() {
    let expected = collection(1);
    let all = records(expected);
    for record in &all {
        let bytes = encode_record(&expected, record).unwrap();
        assert_eq!(
            decode_record(&expected, decoded(&all, &bytes)).unwrap(),
            *record
        );
    }
}

#[test]
fn framing_collection_and_signatures_fail_before_admission() {
    let expected = collection(1);
    let all = records(expected);
    let bytes = encode_record(&expected, &all[0]).unwrap();

    assert_eq!(
        decode_record(&collection(2), decoded(&all, &bytes)),
        Err(CollectionDeltaError::WrongCollection)
    );
    for record in &all {
        let mut tampered = encode_record(&expected, record).unwrap();
        *tampered.last_mut().unwrap() ^= 1;
        assert_eq!(
            decode_record(&expected, decoded(&all, &tampered)),
            Err(CollectionDeltaError::Decode(
                RecordDecodeError::Verification
            ))
        );
    }
    let mut trailing = bytes.clone();
    trailing.push(0);
    assert!(matches!(
        decode_record(&expected, decoded(&all, &trailing)),
        Err(CollectionDeltaError::Decode(_))
    ));
    assert!(decode_record(&expected, decoded(&all, &bytes[..bytes.len() - 1])).is_err());
    assert!(decode_record(&expected, decoded(&all, &[99])).is_err());
    assert_eq!(
        encode_record(&collection(2), &all[0]),
        Err(CollectionDeltaError::WrongCollection)
    );
}

#[test]
fn trusted_local_index_and_outbound_encoding_do_not_reverify() {
    let expected = collection(1);
    let all = records(expected);
    let mut evidence = all[1].clone();
    let at = evidence.bytes.len() - 2;
    evidence.bytes[at] ^= 1;
    let patch = canonical_records(expected, vec![evidence.clone()]).unwrap();
    assert_eq!(patch.get(&evidence.fingerprint), Some(&evidence));
    let outbound = encode_record(&expected, &evidence).unwrap();
    assert_eq!(outbound, evidence.bytes);
    assert!(decode_record(&expected, decoded(&all, &outbound)).is_err());
}

#[test]
fn witness_bound_derives_roundtrip_before_witnesses_or_proofs_are_present() {
    let target = collection(45);
    let derive = record(DERIVE, target, &[47; 96]);
    let all = [derive.clone()];
    let bytes = encode_record(&target, &derive).unwrap();
    let accepted = decode_record(&target, decoded(&all, &bytes)).unwrap();
    assert_eq!(accepted, derive);
    assert_eq!(canonical_records(target, vec![accepted]).unwrap().len(), 1);
    let mut tampered = bytes;
    tampered[1 + 3 * 32] ^= 1;
    assert!(decode_record(&target, decoded(&all, &tampered)).is_err());
}

#[test]
fn noncanonical_merge_inputs_fail_before_admission() {
    assert_eq!(
        decode_record(
            &collection(1),
            Err(RecordDecodeError::NonCanonicalMergeInputs)
        ),
        Err(CollectionDeltaError::Decode(
            RecordDecodeError::NonCanonicalMergeInputs
        ))
    );
}

#[test]
fn relay_roundtrip_preserves_the_embedded_commit_author() {
    let expected = collection(1);
    let all = records(expected);
    let before = &all[0];
    let bytes = encode_record(&expected, before).unwrap();
    let after = decode_record(&expected, decoded(&all, &bytes)).unwrap();
    assert_eq!(after.bytes, before.bytes);
    assert_eq!(after, *before);
}

#[test]
fn overlay_patch_uses_only_the_exact_collection_selector() {
    let expected = collection(1);
    let selected = records(expected).to_vec();
    let overlay = collection_record_patch::<String>(expected, Ok(selected.clone())).unwrap();
    assert_eq!(overlay.len(), selected.len() as u64);
    assert_eq!(overlay.collection(), expected);
    for record in &selected {
        assert_eq!(overlay.get(&record.fingerprint), Some(record));
    }
}

#[test]
fn order_and_repetition_of_records_do_not_matter() {
    let expected = collection(1);
    let [commit, merge, derive] = records(expected);
    let a = canonical_records(expected, vec![commit.clone(), merge.clone(), derive.clone()]);
    let b = canonical_records(
        expected,
        vec![derive, commit.clone(), merge.clone(), commit.clone(), merge],
    );
    let (a, b) = (a.unwrap(), b.unwrap());
    assert_eq!(a.records(), b.records());
    assert_eq!(a.len(), 3);
    let fingerprints: Vec<_> = a
        .records()
        .iter()
        .map(|record| record.fingerprint)
        .collect();
    let mut sorted = fingerprints.clone();
    sorted.sort_unstable();
    assert_eq!(fingerprints, sorted);
    assert_eq!(
        a.with_root([9; 32]).summary(),
        b.with_root([9; 32]).summary()
    );
}

#[test]
fn records_that_contradict_each_other_are_refused() {
    let expected = collection(1);
    let [commit, merge, _] = records(expected);
    let mut imitation = merge.clone();
    imitation.fingerprint = commit.fingerprint;
    assert_eq!(
        canonical_records(expected, vec![commit.clone(), imitation]).unwrap_err(),
        CollectionDeltaError::FingerprintCollision(commit.fingerprint)
    );
    let foreign = record(COMMIT, collection(2), &[1; 32]);
    assert_eq!(
        canonical_records(expected, vec![commit, foreign.clone()]).unwrap_err(),
        CollectionDeltaError::WrongCollection
    );
    assert_eq!(
        collection_record_patch::<String>(expected, Ok(vec![foreign])).unwrap_err(),
        CollectionRecordPatchError::Evidence(CollectionDeltaError::WrongCollection)
    );
    assert_eq!(
        collection_record_patch(expected, Err("offline")).unwrap_err(),
        CollectionRecordPatchError::Store("offline")
    );
}

#[test]
fn the_empty_set_has_no_root() {
    let patch = canonical_records(collection(1), Vec::new()).unwrap();
    assert!(patch.is_empty());
    assert_eq!(patch.len(), 0);
    let patch = patch.with_root([9; 32]);
    assert_eq!(patch.summary().root(), None);
    assert_eq!(patch.summary().leaf_count(), 0);
}
