//! Policy-independent collection-record delta mechanics.
//!
//! This module owns only the immutable evidence boundary: intrinsic collection
//! matching and canonical fingerprint ordering. It deliberately does not
//! resolve referenced blobs or decide READ or WRITE policy.

use vstd::prelude::*;

use crate::bytes::{copy_bytes, same_bytes};
use crate::key_map::{lemma_contents, lists_keys, KeyMap};
use crate::keys::{rank, same};
use crate::patch_summary::PatchSummary;

verus! {

/// One native record: the collection it names, its full-width fingerprint, and
/// its complete self-tagged bytes.
#[derive(Debug, PartialEq, Eq)]
pub struct CollectionRecord {
    pub collection: [u8; 32],
    pub fingerprint: [u8; 32],
    pub bytes: Vec<u8>,
}

/// A record as a value.
pub struct RecordState {
    pub collection: [u8; 32],
    pub fingerprint: [u8; 32],
    pub bytes: Seq<u8>,
}

impl View for CollectionRecord {
    type V = RecordState;

    open spec fn view(&self) -> RecordState {
        RecordState {
            collection: self.collection,
            fingerprint: self.fingerprint,
            bytes: self.bytes@,
        }
    }
}

impl Clone for CollectionRecord {
    fn clone(&self) -> (copy: Self)
        ensures
            copy@ == self@,
    {
        CollectionRecord {
            collection: self.collection,
            fingerprint: self.fingerprint,
            bytes: copy_bytes(&self.bytes),
        }
    }
}

impl CollectionRecord {
    /// Whether two records are the same.
    pub fn agrees(&self, other: &Self) -> (equal: bool)
        ensures
            equal == (self@ == other@),
    {
        same(&self.collection, &other.collection) && same(&self.fingerprint, &other.fingerprint)
            && same_bytes(&self.bytes, &other.bytes)
    }
}

/// Why the bytes of a record are not a record.
#[derive(Clone, Copy, Debug, PartialEq, Eq, Structural)]
pub enum RecordDecodeError {
    /// The bytes are not one complete self-tagged record.
    Framing,
    /// The inputs of a merge are not in canonical order.
    NonCanonicalMergeInputs,
    /// A signature does not verify.
    Verification,
    /// The facts of a descriptor do not name one unambiguous policy.
    Descriptor,
}

/// Failure at the sparse immutable-evidence boundary.
#[derive(Clone, Copy, Debug, PartialEq, Eq)]
pub enum CollectionDeltaError {
    Decode(RecordDecodeError),
    WrongCollection,
    FingerprintCollision([u8; 32]),
}

/// Failure while constructing an exact per-collection set of records.
#[derive(Debug, PartialEq, Eq)]
pub enum CollectionRecordPatchError<E> {
    Store(E),
    Evidence(CollectionDeltaError),
}

/// The records of a map, as values.
pub open spec fn record_values(records: Map<[u8; 32], CollectionRecord>) -> Map<
    [u8; 32],
    RecordState,
> {
    records.map_values(|record: CollectionRecord| record@)
}

/// The records of a list, as values.
pub open spec fn record_states(records: Seq<CollectionRecord>) -> Seq<RecordState> {
    records.map_values(|record: CollectionRecord| record@)
}

/// Records by fingerprint: a record of another collection is refused, and so is
/// one whose fingerprint a different record has.
pub open spec fn canonical(
    expected: [u8; 32],
    records: Seq<RecordState>,
) -> Result<Map<[u8; 32], RecordState>, CollectionDeltaError>
    decreases records.len(),
{
    if records.len() == 0 {
        Ok(Map::empty())
    } else {
        let record = records.last();
        match canonical(expected, records.drop_last()) {
            Err(error) => Err(error),
            Ok(known) => if record.collection != expected {
                Err(CollectionDeltaError::WrongCollection)
            } else if known.contains_key(record.fingerprint) && known[record.fingerprint]
                != record {
                Err(CollectionDeltaError::FingerprintCollision(record.fingerprint))
            } else {
                Ok(known.insert(record.fingerprint, record))
            },
        }
    }
}

/// Canonical set of the records naming one exact collection.
#[derive(Debug)]
pub struct CollectionRecordPatch {
    pub collection: [u8; 32],
    pub records: KeyMap<32, CollectionRecord>,
    /// The Merkle root of the records, if there are any.
    pub root: [u8; 32],
}

impl CollectionRecordPatch {
    /// The records by fingerprint.
    pub open spec fn contents(&self) -> Map<[u8; 32], RecordState> {
        record_values(self.records@)
    }

    /// Exact collection named by every record.
    pub fn collection(&self) -> (collection: [u8; 32])
        ensures
            collection == self.collection,
    {
        self.collection
    }

    /// The same records under the Merkle root that summarises them.
    pub fn with_root(self, root: [u8; 32]) -> (patch: Self)
        ensures
            patch.collection == self.collection,
            patch.records == self.records,
            patch.root == root,
    {
        CollectionRecordPatch { collection: self.collection, records: self.records, root }
    }

    /// Root and count of the records.
    pub fn summary(&self) -> (summary: PatchSummary)
        ensures
            summary.leaves() == self.contents().dom().len(),
            summary.root_spec() == if self.contents().dom().len() == 0 {
                None
            } else {
                Some(self.root)
            },
    {
        proof {
            assert(self.contents().dom() =~= self.records@.dom());
        }
        let count: usize = self.records.len();
        let root = if count == 0 {
            None
        } else {
            Some(self.root)
        };
        match PatchSummary::new(root, count as u64) {
            Some(summary) => summary,
            None => PatchSummary::empty(),
        }
    }

    /// Number of canonical records.
    pub fn len(&self) -> (count: u64)
        ensures
            count == self.contents().dom().len(),
    {
        proof {
            assert(self.contents().dom() =~= self.records@.dom());
        }
        self.records.len() as u64
    }

    /// Whether there are no known records.
    pub fn is_empty(&self) -> (empty: bool)
        ensures
            empty == (self.contents() == Map::<[u8; 32], RecordState>::empty()),
    {
        let empty = self.records.is_empty();
        proof {
            if empty {
                assert(self.contents() =~= Map::<[u8; 32], RecordState>::empty());
            } else {
                assert(!(self.records@ =~= Map::<[u8; 32], CollectionRecord>::empty()));
                let key = choose|key: [u8; 32]| self.records@.contains_key(key);
                assert(self.contents().contains_key(key));
            }
        }
        empty
    }

    /// Look up one record by its fingerprint.
    pub fn get(&self, fingerprint: &[u8; 32]) -> (record: Option<&CollectionRecord>)
        ensures
            match record {
                Some(record) => self.contents().contains_key(*fingerprint)
                    && self.contents()[*fingerprint] == record@,
                None => !self.contents().contains_key(*fingerprint),
            },
    {
        self.records.get_ref(fingerprint)
    }

    /// The records, in ascending order of their fingerprints.
    pub fn records(&self) -> (records: Vec<CollectionRecord>)
        ensures
            lists_records(record_states(records@), self.contents()),
    {
        let entries = self.records.entries();
        let mut records: Vec<CollectionRecord> = Vec::new();
        let mut i: usize = 0;
        while i < entries.len()
            invariant
                i <= entries@.len(),
                records@.len() == i,
                forall|j: int| 0 <= j < i ==> (#[trigger] records@[j])@ == entries@[j].1@,
            decreases entries@.len() - i,
        {
            let copy = entries[i].1.clone();
            records.push(copy);
            i = i + 1;
        }
        proof {
            let states = record_states(records@);
            let keys = entries@.map_values(|entry: ([u8; 32], CollectionRecord)| entry.0);
            lemma_contents(entries@);
            assert forall|k: int, l: int| 0 <= k < l < keys.len() implies rank(#[trigger] keys[k])
                < rank(#[trigger] keys[l]) by {
                assert(rank(entries@[k].0) < rank(entries@[l].0));
            }
            assert forall|k: int| 0 <= k < keys.len() implies self.contents().contains_key(
                #[trigger] keys[k],
            ) && states[k] == self.contents()[keys[k]] by {
                assert(self.records@.contains_key(entries@[k].0));
                assert(states[k] == records@[k]@);
            }
            assert forall|key: [u8; 32]| #[trigger] self.contents().contains_key(
                key,
            ) implies keys.contains(key) by {
                let k = choose|k: int| 0 <= k < entries@.len() && #[trigger] entries@[k].0 == key;
                assert(keys[k] == key);
            }
            assert(lists_keys(keys, self.contents()));
        }
        records
    }
}

/// Whether records are exactly those of a set, in the order of its keys.
pub open spec fn lists_records(
    records: Seq<RecordState>,
    set: Map<[u8; 32], RecordState>,
) -> bool {
    exists|keys: Seq<[u8; 32]>|
        {
            &&& #[trigger] lists_keys(keys, set)
            &&& keys.len() == records.len()
            &&& forall|i: int| 0 <= i < keys.len() ==> records[i] == set[#[trigger] keys[i]]
        }
}

/// Whether a record names the expected collection.
fn validate_record(expected: &[u8; 32], record: &CollectionRecord) -> (result: Result<
    (),
    CollectionDeltaError,
>)
    ensures
        result == if record.collection == *expected {
            Ok::<(), CollectionDeltaError>(())
        } else {
            Err(CollectionDeltaError::WrongCollection)
        },
{
    if same(&record.collection, expected) {
        Ok(())
    } else {
        Err(CollectionDeltaError::WrongCollection)
    }
}

/// Encode one trusted local record after checking its intrinsic collection.
/// Signatures are not verified again on output, and WRITE authorization plays no
/// part: it governs derived admission, not whether inert evidence may exist.
pub fn encode_record(expected: &[u8; 32], record: &CollectionRecord) -> (result: Result<
    Vec<u8>,
    CollectionDeltaError,
>)
    ensures
        match result {
            Ok(bytes) => record.collection == *expected && bytes@ == record.bytes@,
            Err(error) => record.collection != *expected && error
                == CollectionDeltaError::WrongCollection,
        },
{
    match validate_record(expected, record) {
        Ok(()) => Ok(copy_bytes(&record.bytes)),
        Err(error) => Err(error),
    }
}

/// Accept one strictly decoded record for an implicit collection overlay. Bytes
/// that are no record and records of another collection fail before insertion.
pub fn decode_record(
    expected: &[u8; 32],
    decoded: Result<CollectionRecord, RecordDecodeError>,
) -> (result: Result<CollectionRecord, CollectionDeltaError>)
    ensures
        match (decoded, result) {
            (Ok(record), Ok(accepted)) => record.collection == *expected && accepted == record,
            (Ok(record), Err(error)) => record.collection != *expected && error
                == CollectionDeltaError::WrongCollection,
            (Err(reason), Err(error)) => error == CollectionDeltaError::Decode(reason),
            (Err(_), Ok(_)) => false,
        },
{
    match decoded {
        Ok(record) => match validate_record(expected, &record) {
            Ok(()) => Ok(record),
            Err(error) => Err(error),
        },
        Err(reason) => Err(CollectionDeltaError::Decode(reason)),
    }
}

/// Collect records by fingerprint.
pub fn canonical_records(
    expected: [u8; 32],
    records: Vec<CollectionRecord>,
) -> (result: Result<CollectionRecordPatch, CollectionDeltaError>)
    ensures
        match (result, canonical(expected, record_states(records@))) {
            (Ok(patch), Ok(wanted)) => patch.collection == expected && patch.contents() == wanted,
            (Err(error), Err(wanted)) => error == wanted,
            _ => false,
        },
{
    let ghost states = record_states(records@);
    let mut known: KeyMap<32, CollectionRecord> = KeyMap::new();
    let mut i: usize = 0;
    proof {
        assert(states.take(0) =~= Seq::empty());
        assert(record_values(known@) =~= Map::<[u8; 32], RecordState>::empty());
    }
    while i < records.len()
        invariant
            i <= records@.len(),
            states == record_states(records@),
            canonical(expected, states.take(i as int)) == Ok::<
                Map<[u8; 32], RecordState>,
                CollectionDeltaError,
            >(record_values(known@)),
        decreases records@.len() - i,
    {
        let record = &records[i];
        let ghost before = known@;
        let ghost more = states.take(i + 1);
        proof {
            assert(more.drop_last() =~= states.take(i as int));
            assert(more.last() == record@);
        }
        if let Err(error) = validate_record(&expected, record) {
            proof {
                lemma_canonical_fails(expected, states, i + 1);
            }
            return Err(error);
        }
        match known.get_ref(&record.fingerprint) {
            Some(existing) => {
                if !existing.agrees(record) {
                    proof {
                        lemma_canonical_fails(expected, states, i + 1);
                    }
                    return Err(CollectionDeltaError::FingerprintCollision(record.fingerprint));
                }
                assert(record_values(known@).insert(record.fingerprint, record@) =~= record_values(
                    known@,
                ));
            },
            None => {
                let copy = record.clone();
                known.insert(record.fingerprint, copy);
                assert(record_values(known@) =~= record_values(before).insert(
                    record.fingerprint,
                    record@,
                ));
            },
        }
        i = i + 1;
    }
    assert(states.take(i as int) =~= states);
    Ok(CollectionRecordPatch { collection: expected, records: known, root: [0; 32] })
}

/// A list whose beginning is refused is refused for the same reason.
proof fn lemma_canonical_fails(expected: [u8; 32], records: Seq<RecordState>, count: int)
    requires
        0 <= count <= records.len(),
        canonical(expected, records.take(count)) is Err,
    ensures
        canonical(expected, records) == canonical(expected, records.take(count)),
    decreases records.len(),
{
    if count == records.len() {
        assert(records.take(count) =~= records);
    } else {
        let front = records.drop_last();
        assert(front.take(count) =~= records.take(count));
        lemma_canonical_fails(expected, front, count);
    }
}

/// Build the exact set of one collection from what its selector returned.
pub fn collection_record_patch<E>(
    collection: [u8; 32],
    selected: Result<Vec<CollectionRecord>, E>,
) -> (result: Result<CollectionRecordPatch, CollectionRecordPatchError<E>>)
    ensures
        match selected {
            Err(error) => result == Err::<CollectionRecordPatch, CollectionRecordPatchError<E>>(
                CollectionRecordPatchError::Store(error),
            ),
            Ok(records) => match (result, canonical(collection, record_states(records@))) {
                (Ok(patch), Ok(wanted)) => patch.collection == collection && patch.contents()
                    == wanted,
                (Err(error), Err(wanted)) => error == CollectionRecordPatchError::<E>::Evidence(
                    wanted,
                ),
                _ => false,
            },
        },
{
    match selected {
        Err(error) => Err(CollectionRecordPatchError::Store(error)),
        Ok(records) => match canonical_records(collection, records) {
            Ok(patch) => Ok(patch),
            Err(error) => Err(CollectionRecordPatchError::Evidence(error)),
        },
    }
}

/// Whether records can form one canonical set: all of them name the collection,
/// and no two of them share a fingerprint.
pub open spec fn consistent(expected: [u8; 32], records: Set<RecordState>) -> bool {
    &&& forall|record: RecordState| #[trigger]
        records.contains(record) ==> record.collection == expected
    &&& forall|a: RecordState, b: RecordState| #[trigger]
        records.contains(a) && #[trigger] records.contains(b) && a.fingerprint == b.fingerprint
            ==> a == b
}

/// Neither the order nor the repetition of records matters: they are accepted
/// exactly if they are consistent, and then exactly they are held.
pub proof fn law_canonical_set(expected: [u8; 32], records: Seq<RecordState>)
    ensures
        canonical(expected, records) is Ok <==> consistent(expected, records.to_set()),
        canonical(expected, records) matches Ok(known) ==> forall|record: RecordState|
            #[trigger] records.contains(record) <==> known.contains_pair(
                record.fingerprint,
                record,
            ),
        canonical(expected, records) matches Ok(known) ==> forall|fingerprint: [u8; 32]|
            #[trigger] known.contains_key(fingerprint) ==> records.contains(known[fingerprint])
                && known[fingerprint].fingerprint == fingerprint,
    decreases records.len(),
{
    if records.len() == 0 {
        assert(records.to_set() =~= Set::empty());
    } else {
        let front = records.drop_last();
        let last = records.last();
        law_canonical_set(expected, front);
        assert forall|record: RecordState| #[trigger] records.contains(record) <==> front.contains(
            record,
        ) || record == last by {
            if records.contains(record) {
                let i = choose|i: int| 0 <= i < records.len() && records[i] == record;
                if i < front.len() {
                    assert(front[i] == record);
                }
            }
            if front.contains(record) {
                let i = choose|i: int| 0 <= i < front.len() && front[i] == record;
                assert(records[i] == record);
            }
            assert(records[records.len() - 1] == last);
        }
        if consistent(expected, records.to_set()) {
            assert(consistent(expected, front.to_set())) by {
                assert forall|record: RecordState| front.to_set().contains(
                    record,
                ) implies records.to_set().contains(record) by {
                    assert(front.contains(record));
                    assert(records.contains(record));
                }
            }
            assert(records.contains(last));
            assert(records.to_set().contains(last));
            let known = canonical(expected, front)->Ok_0;
            if known.contains_key(last.fingerprint) {
                let other = known[last.fingerprint];
                assert(front.contains(other));
                assert(records.contains(other));
                assert(records.to_set().contains(other));
            }
        }
        if canonical(expected, records) is Ok {
            let known = canonical(expected, front)->Ok_0;
            assert(consistent(expected, records.to_set())) by {
                assert forall|record: RecordState| records.to_set().contains(
                    record,
                ) implies record.collection == expected by {
                    assert(records.contains(record));
                    if record != last {
                        assert(front.to_set().contains(record)) by {
                            assert(front.contains(record));
                        }
                    }
                }
                assert forall|a: RecordState, b: RecordState|
                    records.to_set().contains(a) && records.to_set().contains(b) && a.fingerprint
                        == b.fingerprint implies a == b by {
                    assert(records.contains(a) && records.contains(b));
                    if front.contains(a) {
                        assert(known.contains_pair(a.fingerprint, a));
                    }
                    if front.contains(b) {
                        assert(known.contains_pair(b.fingerprint, b));
                    }
                }
            }
            let after = known.insert(last.fingerprint, last);
            assert forall|record: RecordState| #[trigger]
                records.contains(record) <==> after.contains_pair(record.fingerprint, record) by {
                assert(front.contains(record) <==> known.contains_pair(record.fingerprint, record));
            }
            assert forall|fingerprint: [u8; 32]| #[trigger]
                after.contains_key(fingerprint) implies records.contains(after[fingerprint])
                && after[fingerprint].fingerprint == fingerprint by {
                if fingerprint == last.fingerprint {
                    assert(records.contains(last));
                } else {
                    assert(known.contains_key(fingerprint));
                    assert(front.contains(known[fingerprint]));
                }
            }
        }
    }
}

} // verus!
