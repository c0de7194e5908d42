//! What a repair session asks, accepts and discloses.

use vstd::prelude::*;

use crate::collection_activation::{
    CapabilityProof, CapabilityProofError, CollectionAuthorizationEvidenceError,
    CollectionRepairOverlay, ProofState,
};
use crate::collection_blob_inventory::RawHash;
use crate::collection_delta::{
    CollectionDeltaError, CollectionRecord, RecordDecodeError, RecordState,
};
use crate::collection_session::{
    charged, evidence_leaf_value, evidence_step, hint_result, is_admission, is_manifest, leaf_key,
    leaves_more, record_leaf_value, record_step, request_check, understood, wire_len,
    worth_continuing, AuthorizationPull, CollectionPull, CollectionRepairAdmission,
    CollectionRepairComponent, CollectionRepairManifest, CollectionRepairRefusal, InventoryPull,
    InventoryRepairCursor, LeafError, PatchNode, PatchNodeResponse, PullBudget, PullError,
    PullStage, RecordPull, ServerRepairError, ServerSession,
};
use crate::keys::rank;
use crate::patch_summary::PatchSummary;

verus! {

/// A manifest is shown exactly to an admitted client of a retained collection.
/// A client that is not admitted learns that the collection is retained and
/// nothing else, and of a collection that is not retained nobody learns anything,
/// admitted or not.
pub proof fn law_only_an_admitted_client_sees_a_manifest(
    answer: CollectionRepairAdmission,
    retained: Option<CollectionRepairOverlay>,
    admitted: bool,
)
    requires
        is_admission(answer, retained, admitted),
    ensures
        answer is Admitted <==> retained is Some && admitted,
        answer is Rejected <==> retained is Some && !admitted,
        answer is Unavailable <==> retained is None,
        answer matches CollectionRepairAdmission::Admitted(manifest) ==> is_manifest(
            manifest,
            retained->0,
        ),
{
}

/// A manifest counts the records, the proofs and the blobs that are held, each
/// under its own root, and shows no root of an empty set. Its wake root is the repair
/// root of what is held.
pub proof fn law_manifest_counts_what_is_held(
    manifest: CollectionRepairManifest,
    overlay: CollectionRepairOverlay,
)
    requires
        is_manifest(manifest, overlay),
    ensures
        ({
            let records = manifest.part(CollectionRepairComponent::Record);
            let evidence = manifest.part(CollectionRepairComponent::AuthorizationEvidence);
            let blobs = manifest.part(CollectionRepairComponent::ResidentBlob);
            &&& records.leaves() == overlay.records.contents().dom().len()
            &&& evidence.leaves() == overlay.authorization_evidence.held().dom().len()
            &&& blobs.leaves() == overlay.blob_inventory@.dom().len()
            &&& records.leaves() > 0 ==> records.root_spec() == Some(overlay.records.root)
            &&& evidence.leaves() > 0 ==> evidence.root_spec() == Some(
                overlay.authorization_evidence.root,
            )
            &&& blobs.leaves() > 0 ==> blobs.root_spec() == Some(overlay.blob_root)
            &&& overlay.woken_by(manifest.wake_root)
            &&& records.leaves() == 0 <==> records.root_spec() is None
            &&& evidence.leaves() == 0 <==> evidence.root_spec() is None
            &&& blobs.leaves() == 0 <==> blobs.root_spec() is None
        }),
{
}

/// A request is served exactly if the set is not empty, its prefix is no longer
/// than a key, and one for the root names the pinned root. Of what is wrong with
/// it, the emptiness is told first, then the length.
pub proof fn law_requests_pin_the_manifest(
    pinned: PatchSummary,
    prefix: Seq<u8>,
    expected_digest: [u8; 32],
)
    ensures
        pinned.root_spec() is None <==> request_check(pinned, prefix, expected_digest) == Err::<
            (),
            ServerRepairError,
        >(ServerRepairError::EmptyPatch),
        pinned.root_spec() is Some && prefix.len() > 32 <==> request_check(
            pinned,
            prefix,
            expected_digest,
        ) == Err::<(), ServerRepairError>(ServerRepairError::InvalidPrefix),
        pinned.root_spec() is Some && prefix == Seq::<u8>::empty() && pinned.root_spec()->0
            != expected_digest <==> request_check(pinned, prefix, expected_digest) == Err::<
            (),
            ServerRepairError,
        >(ServerRepairError::UnpinnedRoot),
        pinned.root_spec() == Some(expected_digest) && prefix.len() <= 32 ==> request_check(
            pinned,
            prefix,
            expected_digest,
        ) is Ok,
        pinned.root_spec() is Some && 0 < prefix.len() <= 32 ==> request_check(
            pinned,
            prefix,
            expected_digest,
        ) is Ok,
{
    if prefix.len() == 0 {
        assert(prefix =~= Seq::<u8>::empty());
    }
}

/// An answer without a node takes one byte. A leaf takes thirty-eight, its key and
/// its value; a branch forty-seven, its representative, and forty-one for each
/// child.
pub proof fn law_answers_are_charged_by_what_they_carry(response: PatchNodeResponse)
    ensures
        response is SnapshotUnavailable || response is PrefixAbsent ==> wire_len(response) == 1,
        response matches PatchNodeResponse::Found(PatchNode::Leaf { key, value, .. }) ==> wire_len(
            response,
        ) == 38 + key@.len() + value@.len(),
        response matches PatchNodeResponse::Found(
            PatchNode::Branch { representative, children, .. },
        ) ==> wire_len(response) == 47 + representative@.len() + 41 * children@.len(),
        wire_len(response) > 0,
{
}

/// Charging adds up, and a charge that cannot be told is the greatest that can.
pub proof fn law_charges_add_up(bytes: usize, more: nat)
    ensures
        bytes + more <= usize::MAX ==> charged(bytes, more) == bytes + more,
        charged(bytes, more) >= bytes,
        bytes + more > usize::MAX ==> charged(bytes, more) == usize::MAX,
{
}

/// Receiving an answer costs its length and no request.
pub proof fn law_receiving_costs_bytes_only(budget: PullBudget, response: PatchNodeResponse)
    requires
        budget.response_bytes + wire_len(response) <= usize::MAX,
    ensures
        budget.after(response).response_bytes == budget.response_bytes + wire_len(response),
        budget.after(response).remaining_requests == budget.remaining_requests,
{
}

/// Records are asked for while fewer than sixteen thousand three hundred and
/// eighty-four requests and four thousand and ninety-six records have gone, a
/// request is left, and less than sixty-four mebibytes have come. Proofs are asked
/// for while fewer than two hundred and fifty-five requests and sixteen proofs have
/// gone, a request is left, and less than half of those bytes have come.
pub proof fn law_pulls_are_bounded(
    records: RecordPull,
    evidence: AuthorizationPull,
    budget: PullBudget,
)
    ensures
        records.may_request(budget) <==> records.requests < 16384 && records.missing@.len() < 4096
            && budget.remaining_requests > 0 && budget.response_bytes < 64 * 1024 * 1024,
        evidence.may_request(budget) <==> evidence.requests < 255 && evidence.missing@.len() < 16
            && budget.remaining_requests > 0 && budget.response_bytes < 32 * 1024 * 1024,
{
}

/// Hints are asked for while fewer than a hundred and twenty-eight requests have
/// gone, less than two mebibytes have come since the inventory was taken up, and
/// less than sixty-six in all. No request for records or proofs is spent.
pub proof fn law_hints_are_bounded(pull: InventoryPull, budget: PullBudget)
    ensures
        pull.may_request(budget) <==> pull.requests < 128 && budget.response_bytes
            < pull.started_bytes + 2 * 1024 * 1024 && budget.response_bytes < 66 * 1024 * 1024,
{
}

/// A session makes at most five hundred and eleven requests for proofs and
/// records, two hundred and fifty-five of them for proofs, and a hundred and
/// twenty-eight for hints, whatever came back.
pub proof fn law_a_session_is_bounded(pull: CollectionPull)
    requires
        pull.well_formed(),
    ensures
        pull.authorization.requests + pull.records.requests <= 511,
        pull.authorization.requests <= 255,
        pull.inventory_requests <= 128,
        pull.asked() <= 639,
        pull.stage == PullStage::Done ==> !pull.may_request(),
{
}

/// Whether an answer is a valid leaf.
pub open spec fn is_valid_leaf(response: PatchNodeResponse, node_valid: bool) -> bool {
    node_valid && response matches PatchNodeResponse::Found(PatchNode::Leaf { .. })
}

/// An answer that is no valid node ends a pull of any kind, for the reason that it
/// gives, and brings nothing. A valid branch is passed over.
pub proof fn law_unusable_answers_bring_nothing(
    local: CollectionRepairOverlay,
    response: PatchNodeResponse,
    node_valid: bool,
    decoded: Result<CollectionRecord, RecordDecodeError>,
    candidate: Result<CapabilityProof, CapabilityProofError>,
)
    requires
        !is_valid_leaf(response, node_valid),
    ensures
        ({
            let (record_result, record_found) = record_step(local, response, node_valid, decoded);
            let (proof_result, proof_found, proof_deferred) = evidence_step(
                local,
                response,
                node_valid,
                candidate,
            );
            let hint = hint_result(response, node_valid);
            &&& !record_found && !proof_found && !proof_deferred
            &&& response is PrefixAbsent ==> record_result == Err::<(), PullError>(
                PullError::OmittedPrefix,
            )
            &&& response is SnapshotUnavailable ==> record_result == Err::<(), PullError>(
                PullError::LostSnapshot,
            )
            &&& response is Found && !node_valid ==> record_result == Err::<(), PullError>(
                PullError::InvalidNode,
            )
            &&& response is Found && node_valid ==> record_result is Ok
            &&& proof_result == record_result
            &&& hint == record_result
        }),
{
}

/// A record leaf is accepted exactly if its value is a record of the collection
/// under the leaf's own key, and brings it exactly if it is not held yet. Of what is
/// wrong with it, that it is no record is told first, then the collection.
pub proof fn law_record_leaves_bring_missing_records(
    local: CollectionRepairOverlay,
    response: PatchNodeResponse,
    decoded: Result<CollectionRecord, RecordDecodeError>,
)
    requires
        is_valid_leaf(response, true),
    ensures
        ({
            let (result, found) = record_step(local, response, true, decoded);
            let key = leaf_key(response)->0;
            match decoded {
                Err(error) => !found && result == Err::<(), PullError>(
                    PullError::Record(CollectionDeltaError::Decode(error)),
                ),
                Ok(record) => {
                    &&& record.collection != local.collection ==> result == Err::<(), PullError>(
                        PullError::Record(CollectionDeltaError::WrongCollection),
                    )
                    &&& record.collection == local.collection && record.fingerprint@ != key
                        ==> result == Err::<(), PullError>(PullError::RecordMismatch)
                    &&& record.collection == local.collection && record.fingerprint@ == key
                        ==> result is Ok
                    &&& found <==> record.collection == local.collection && record.fingerprint@
                        == key && !local.records.contents().contains_key(record.fingerprint)
                },
            }
        }),
{
}

/// The key of a leaf is what the leaf says.
pub proof fn law_leaf_key_is_the_leafs(response: PatchNodeResponse)
    ensures
        response matches PatchNodeResponse::Found(PatchNode::Leaf { key, .. }) ==> leaf_key(
            response,
        ) == Some(key@),
        leaf_key(response) is Some ==> response is Found,
        response matches PatchNodeResponse::Found(PatchNode::Branch { .. }) ==> leaf_key(
            response,
        ) is None,
{
}

/// An evidence leaf must be a validly signed proof under its own identity. One that
/// is held already brings nothing; a new one is brought if it is evidence here. One
/// over another resource that is not, or not yet, routed here is deferred, and any
/// other that is no evidence ends the pull.
pub proof fn law_evidence_leaves_bring_missing_proofs(
    local: CollectionRepairOverlay,
    response: PatchNodeResponse,
    candidate: Result<CapabilityProof, CapabilityProofError>,
)
    requires
        is_valid_leaf(response, true),
    ensures
        ({
            let (result, found, deferred) = evidence_step(local, response, true, candidate);
            let key = leaf_key(response)->0;
            match candidate {
                Err(error) => result == Err::<(), PullError>(PullError::Proof(error)) && !found
                    && !deferred,
                Ok(candidate) => {
                    let held = local.authorization_evidence.held().contains_key(candidate.id);
                    let sound = candidate.id@ == key && candidate.signature_error is None;
                    let judged = local.authorization_evidence.check(candidate@);
                    &&& candidate.id@ != key ==> result == Err::<(), PullError>(
                        PullError::EvidenceMismatch,
                    )
                    &&& candidate.id@ == key && candidate.signature_error is Some ==> result
                        == Err::<(), PullError>(PullError::Proof(candidate.signature_error->0))
                    &&& !sound || held ==> !found && !deferred
                    &&& sound && held ==> result is Ok
                    &&& sound && !held ==> {
                        &&& found <==> judged is Ok
                        &&& deferred <==> candidate.resource != local.collection && (judged
                            == Err::<(), CollectionAuthorizationEvidenceError>(
                            CollectionAuthorizationEvidenceError::WrongRoot,
                        ) || (judged is Err
                            && judged->Err_0 is ResourceDescriptorUnavailable))
                        &&& result is Ok <==> found || deferred
                        &&& result is Err ==> result == Err::<(), PullError>(
                            PullError::Evidence(judged->Err_0),
                        )
                    }
                },
            }
        }),
{
    if candidate is Ok {
        let key = leaf_key(response)->0;
        let id = (candidate->Ok_0).id@;
        let whole = local.collection@ + key;
        let expected = local.collection@ + id;
        if whole == expected {
            assert(whole.len() == 32 + key.len() && expected.len() == 32 + id.len());
            assert forall|i: int| 0 <= i < key.len() implies key[i] == id[i] by {
                assert(whole[32 + i] == expected[32 + i]);
            }
            assert(key =~= id);
        }
    }
}

/// An inventory leaf is accepted exactly if its key is a handle and its value is
/// empty.
pub proof fn law_hints_are_bare_handles(response: PatchNodeResponse)
    requires
        is_valid_leaf(response, true),
    ensures
        response matches PatchNodeResponse::Found(PatchNode::Leaf { key, value, .. }) ==> {
            &&& hint_result(response, true) is Ok <==> key@.len() == 32 && value@
                == Seq::<u8>::empty()
            &&& hint_result(response, true) is Err ==> hint_result(response, true) == Err::<
                (),
                PullError,
            >(PullError::InvalidInventoryLeaf)
        },
{
    if let PatchNodeResponse::Found(PatchNode::Leaf { key, value, .. }) = response {
        if value@.len() == 0 {
            assert(value@ =~= Seq::<u8>::empty());
        }
    }
}

/// An accepted handle becomes a hint exactly if it lies above the bound of the walk
/// and is not held; then it is the last of the hints. In either case the walk has
/// come as far as it, or was further already.
pub proof fn law_an_accepted_handle_is_hinted_if_missing(
    before: InventoryPull,
    after: InventoryPull,
    response: PatchNodeResponse,
    handle: RawHash,
)
    requires
        after.hinted(before, response, true),
        leaf_key(response) == Some(handle@),
    ensures
        ({
            let above = match before.cursor.resume_after {
                Some(bound) => rank(bound) < rank(handle),
                None => true,
            };
            let held = before.cursor.local@.contains_key(handle);
            &&& above && !held ==> after.missing@ == before.missing@.push(handle)
            &&& !above || held ==> after.missing@ == before.missing@
            &&& after.cursor.visited is Some
            &&& rank(after.cursor.visited->0) >= rank(handle)
            &&& before.cursor.visited matches Some(prior) ==> rank(after.cursor.visited->0)
                >= rank(prior)
            &&& after.cursor.visited == Some(handle) || after.cursor.visited
                == before.cursor.visited
            &&& after.cursor.local == before.cursor.local
            &&& after.cursor.resume_after == before.cursor.resume_after
            &&& after.requests == before.requests && after.started_bytes == before.started_bytes
        }),
{
    let other = choose|other: RawHash|
        {
            &&& #[trigger] other@ == leaf_key(response)->0
            &&& after.cursor.visited == crate::collection_session::furthest(
                before.cursor.visited,
                other,
            )
            &&& after.missing@ == if crate::collection_session::at_most(
                other,
                before.cursor.resume_after,
            ) || before.cursor.local@.contains_key(other) {
                before.missing@
            } else {
                before.missing@.push(other)
            }
        };
    crate::keys::lemma_same_bytes(other, handle);
}

/// An answer that was not accepted, or is no leaf, leaves the hints and the walk
/// where they were.
pub proof fn law_other_answers_leave_the_hints(
    before: InventoryPull,
    after: InventoryPull,
    response: PatchNodeResponse,
    accepted: bool,
)
    requires
        after.hinted(before, response, accepted),
        !accepted || leaf_key(response) is None,
    ensures
        after.missing@ == before.missing@,
        after.cursor == before.cursor,
        after.requests == before.requests && after.started_bytes == before.started_bytes,
{
}

/// An inventory is taken up where it was left if the remote one is unchanged. If it
/// changed, the walk begins anew, above the last key that was visited, and is due
/// for a second pass from the first key. A cursor of another collection is not taken
/// up.
pub proof fn law_inventory_resumes_where_it_was_left(
    pull: InventoryPull,
    cursor: InventoryRepairCursor,
    local: CollectionRepairOverlay,
    remote: PatchSummary,
)
    requires
        pull.takes_up(Some(cursor), local, remote),
    ensures
        pull.missing@.len() == 0 && pull.requests == 0,
        pull.cursor.remote == remote && pull.cursor.collection == local.collection,
        cursor.collection == local.collection && cursor.remote == remote ==> pull.cursor == cursor
            && !pull.fresh_walk,
        cursor.collection == local.collection && cursor.remote != remote ==> {
            &&& pull.fresh_walk
            &&& pull.cursor.local == cursor.local
            &&& pull.cursor.visited == cursor.visited
            &&& pull.cursor.resume_after == cursor.visited
            &&& cursor.visited is Some ==> pull.cursor.wrap
            &&& cursor.visited is None ==> pull.cursor.wrap == cursor.wrap
        },
        cursor.collection != local.collection ==> {
            &&& pull.fresh_walk && !pull.cursor.wrap
            &&& pull.cursor.visited is None && pull.cursor.resume_after is None
            &&& pull.cursor.local@ == local.blob_inventory@
        },
{
}

/// Without a cursor the walk begins at the first key and compares with what is
/// resident now.
pub proof fn law_first_inventory_begins_at_the_first_key(
    pull: InventoryPull,
    local: CollectionRepairOverlay,
    remote: PatchSummary,
)
    requires
        pull.takes_up(None, local, remote),
    ensures
        pull.fresh_walk && !pull.cursor.wrap,
        pull.cursor.visited is None && pull.cursor.resume_after is None,
        pull.cursor.local@ == local.blob_inventory@,
        pull.cursor.remote == remote && pull.cursor.collection == local.collection,
        pull.missing@.len() == 0 && pull.requests == 0,
{
}

/// A walk that covered everything leaves no cursor. One that was confined to a
/// suffix leaves one that begins at the first key and needs no further pass.
pub proof fn law_a_confined_walk_is_followed_by_another(pull: InventoryPull)
    ensures
        !pull.cursor.wrap <==> pull.cursor_after_walk() is None,
        pull.cursor_after_walk() matches Some(next) ==> {
            &&& next.visited is None && next.resume_after is None && !next.wrap
            &&& next.local == pull.cursor.local && next.remote == pull.cursor.remote
            &&& next.collection == pull.cursor.collection
        },
{
}

/// A session leaves nothing behind exactly if both walks came to their end and no
/// proof was deferred.
pub proof fn law_a_complete_session_leaves_nothing(
    evidence_complete: bool,
    deferred: bool,
    records_complete: bool,
)
    ensures
        !leaves_more(evidence_complete, deferred, records_complete) <==> evidence_complete
            && records_complete && !deferred,
{
}

/// The client takes an answer for what the server meant: a manifest as admission,
/// and each refusal as itself.
pub proof fn law_answers_are_understood(
    answer: CollectionRepairAdmission,
    retained: Option<CollectionRepairOverlay>,
    admitted: bool,
)
    requires
        is_admission(answer, retained, admitted),
    ensures
        understood(answer) is Ok <==> retained is Some && admitted,
        understood(answer) matches Ok(manifest) ==> is_manifest(manifest, retained->0),
        understood(answer) == Err::<CollectionRepairManifest, CollectionRepairRefusal>(
            CollectionRepairRefusal::Rejected,
        ) <==> retained is Some && !admitted,
        understood(answer) == Err::<CollectionRepairManifest, CollectionRepairRefusal>(
            CollectionRepairRefusal::Unavailable,
        ) <==> retained is None,
{
}

/// A server takes six hundred and forty commands on a stream and no more, and sends
/// answers until sixty-six mebibytes have gone. What it refuses changes nothing.
pub proof fn law_a_server_is_bounded(session: ServerSession, length: nat)
    requires
        session.well_formed(),
        session.response_bytes + length <= usize::MAX,
    ensures
        session.commanded().0 is Ok <==> session.commands < 640,
        session.commands < 640 ==> session.commanded().1 == (ServerSession {
            commands: (session.commands + 1) as usize,
            ..session
        }),
        session.commands == 640 ==> session.commanded() == (
            Err::<(), ServerRepairError>(ServerRepairError::CommandBudget),
            session,
        ),
        session.responded(length).0 is Ok <==> session.response_bytes < 66 * 1024 * 1024,
        session.response_bytes < 66 * 1024 * 1024 ==> session.responded(length).1 == (
        ServerSession { response_bytes: (session.response_bytes + length) as usize, ..session }),
        session.response_bytes >= 66 * 1024 * 1024 ==> session.responded(length) == (
            Err::<(), ServerRepairError>(ServerRepairError::ResponseBudget),
            session,
        ),
{
}

/// What a server serves as a record leaf is accepted by a client that asked for it,
/// and brought if it is missing there.
pub proof fn law_served_records_are_accepted(
    local: CollectionRepairOverlay,
    response: PatchNodeResponse,
    record: CollectionRecord,
)
    requires
        is_valid_leaf(response, true),
        record_leaf_value(local.collection, leaf_key(response)->0, record@) is Ok,
    ensures
        record_leaf_value(local.collection, leaf_key(response)->0, record@) == Ok::<
            Seq<u8>,
            LeafError,
        >(record.bytes@),
        record_step(local, response, true, Ok(record)).0 is Ok,
        record_step(local, response, true, Ok(record)).1
            <==> !local.records.contents().contains_key(record.fingerprint),
{
}

/// A leaf is served exactly under its own key: a record under its fingerprint in its
/// collection, a proof under the collection and its identity.
pub proof fn law_leaves_are_served_under_their_keys(
    collection: [u8; 32],
    key: Seq<u8>,
    record: RecordState,
    candidate: ProofState,
)
    ensures
        record_leaf_value(collection, key, record) is Ok <==> record.fingerprint@ == key
            && record.collection == collection,
        record.fingerprint@ != key ==> record_leaf_value(collection, key, record) == Err::<
            Seq<u8>,
            LeafError,
        >(LeafError::RecordMismatch),
        record.fingerprint@ == key && record.collection != collection ==> record_leaf_value(
            collection,
            key,
            record,
        ) == Err::<Seq<u8>, LeafError>(LeafError::Record(CollectionDeltaError::WrongCollection)),
        evidence_leaf_value(collection, key, candidate) is Ok <==> key == collection@
            + candidate.id@,
        evidence_leaf_value(collection, key, candidate) matches Ok(bytes) ==> bytes
            == candidate.bytes,
        evidence_leaf_value(collection, key, candidate) matches Err(error) ==> error
            == LeafError::EvidenceMismatch,
{
}

/// A session is followed by another at once exactly if it left something and also
/// brought a record or a proof. Hints alone are no progress.
pub proof fn law_only_progress_is_continued_at_once(
    more: bool,
    records: nat,
    evidence: nat,
    hints: nat,
)
    ensures
        worth_continuing(more, records, evidence, hints) <==> more && records + evidence > 0,
        !worth_continuing(more, 0, 0, hints),
        !worth_continuing(false, records, evidence, hints),
{
}

} // verus!
