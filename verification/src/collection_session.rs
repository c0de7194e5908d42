//! READ-authorized, stream-pinned repair of one collection overlay.

use vstd::prelude::*;

use crate::bytes::same_bytes;
use crate::clock::Mono;
use crate::collection_activation::{
    is_summary, proof_reaches, proof_states, CapabilityProof, CapabilityProofError,
    CollectionAuthorizationEvidenceError, CollectionRepairOverlay, ProofState, VerifyingKey,
};
use crate::collection_blob_inventory::{RawHash, ResidentBlobPatch};
use crate::collection_delta::{
    decode_record, encode_record, record_states, CollectionDeltaError, CollectionRecord,
    RecordDecodeError, RecordState,
};
use crate::keys::{lemma_same_bytes, position, rank, same, Position};
use crate::patch_summary::PatchSummary;

verus! {

pub const MAX_REPAIR_RECORD_ITEMS: usize = 4_096;

pub const MAX_REPAIR_AUTHORIZATION_EVIDENCE_ITEMS: usize = 16;

pub const MAX_REPAIR_NODE_REQUESTS: usize = 16_384;

pub const MAX_SEMANTIC_REPAIR_NODE_REQUESTS: usize = 511;

pub const MAX_BLOB_INVENTORY_NODE_REQUESTS: usize = 128;

/// Every node request that a client may make, and its closing command.
pub const MAX_SERVER_REPAIR_COMMANDS: usize = MAX_SEMANTIC_REPAIR_NODE_REQUESTS
    + MAX_BLOB_INVENTORY_NODE_REQUESTS + 1;

pub const MAX_SEMANTIC_NODE_RESPONSE_BYTES: usize = 67_108_864;

pub const MAX_BLOB_INVENTORY_RESPONSE_BYTES: usize = 2_097_152;

pub const MAX_SERVER_NODE_RESPONSE_BYTES: usize = MAX_SEMANTIC_NODE_RESPONSE_BYTES
    + MAX_BLOB_INVENTORY_RESPONSE_BYTES;

/// Authorization runs first, but deferred leaves must not consume the entire
/// stream and prevent independent collection records from making progress.
pub const MAX_AUTHORIZATION_REPAIR_NODE_REQUESTS: usize = 255;

pub const MAX_AUTHORIZATION_NODE_RESPONSE_BYTES: usize = 33_554_432;

/// A valid, collection-scoped reply, not a broken shared transport.
#[derive(Clone, Copy, Debug, PartialEq, Eq, Structural)]
pub enum CollectionRepairRefusal {
    Rejected,
    Unavailable,
}

impl CollectionRepairRefusal {
    /// The refusal in words.
    pub fn message(&self) -> (text: &'static str)
        ensures
            text@ == match *self {
                CollectionRepairRefusal::Rejected => "remote rejected READ(C) evidence"@,
                CollectionRepairRefusal::Unavailable =>
                    "remote does not retain the requested collection"@,
            },
    {
        match self {
            CollectionRepairRefusal::Rejected => "remote rejected READ(C) evidence",
            CollectionRepairRefusal::Unavailable => {
                "remote does not retain the requested collection"
            },
        }
    }
}

/// One of the sets that repair compares.
#[derive(Clone, Copy, Debug, PartialEq, Eq, Structural)]
pub enum CollectionRepairComponent {
    Record,
    AuthorizationEvidence,
    ResidentBlob,
}

/// The width of the keys of a component, behind its base.
pub const COMPONENT_KEY_LEN: usize = 32;

/// What a node holds of one collection, pinned for one stream.
#[derive(Clone, Copy, Debug, PartialEq, Eq)]
pub struct CollectionRepairManifest {
    pub wake_root: [u8; 32],
    pub records: PatchSummary,
    pub authorization_evidence: PatchSummary,
    pub resident_blobs: PatchSummary,
}

impl CollectionRepairManifest {
    /// The summary of one component.
    pub open spec fn part(self, component: CollectionRepairComponent) -> PatchSummary {
        match component {
            CollectionRepairComponent::Record => self.records,
            CollectionRepairComponent::AuthorizationEvidence => self.authorization_evidence,
            CollectionRepairComponent::ResidentBlob => self.resident_blobs,
        }
    }

    /// The summary of one component.
    pub fn component(&self, component: CollectionRepairComponent) -> (summary: PatchSummary)
        ensures
            summary == self.part(component),
    {
        match component {
            CollectionRepairComponent::Record => self.records,
            CollectionRepairComponent::AuthorizationEvidence => self.authorization_evidence,
            CollectionRepairComponent::ResidentBlob => self.resident_blobs,
        }
    }
}

/// Whether a manifest tells what an overlay holds.
pub open spec fn is_manifest(
    manifest: CollectionRepairManifest,
    overlay: CollectionRepairOverlay,
) -> bool {
    &&& is_summary(
        manifest.records,
        overlay.records.contents().dom().len(),
        overlay.records.root,
    )
    &&& is_summary(
        manifest.authorization_evidence,
        overlay.authorization_evidence.held().dom().len(),
        overlay.authorization_evidence.root,
    )
    &&& is_summary(
        manifest.resident_blobs,
        overlay.blob_inventory@.dom().len(),
        overlay.blob_root,
    )
    &&& manifest.wake_root@ == crate::hash::blake3_hash(
        crate::collection_activation::repair_bytes(
            overlay.collection,
            manifest.records,
            manifest.authorization_evidence,
            manifest.resident_blobs,
        ),
    )
}

/// What an overlay holds.
pub fn manifest(overlay: &CollectionRepairOverlay) -> (manifest: CollectionRepairManifest)
    ensures
        is_manifest(manifest, *overlay),
{
    let records = overlay.records.summary();
    let authorization_evidence = overlay.authorization_evidence.summary();
    let resident_blobs = overlay.inventory_summary();
    CollectionRepairManifest {
        wake_root: crate::collection_activation::repair_root(
            &overlay.collection,
            &records,
            &authorization_evidence,
            &resident_blobs,
        ),
        records,
        authorization_evidence,
        resident_blobs,
    }
}

/// One child of a branch: the byte that leads to it, its digest and its leaves.
#[derive(Clone, Copy, Debug, PartialEq, Eq)]
pub struct PatchChild {
    pub byte: u8,
    pub digest: [u8; 32],
    pub leaf_count: u64,
}

/// One node of a Merkle-summarised set.
#[derive(Debug)]
pub enum PatchNode {
    Leaf { digest: [u8; 32], key: Vec<u8>, value: Vec<u8> },
    Branch {
        digest: [u8; 32],
        leaf_count: u64,
        representative: Vec<u8>,
        depth: u8,
        children: Vec<PatchChild>,
    },
}

/// The answer to a request for a node.
#[derive(Debug)]
pub enum PatchNodeResponse {
    SnapshotUnavailable,
    PrefixAbsent,
    Found(PatchNode),
}

/// How many bytes an answer takes on the wire: a status; for a node also its
/// kind and digest; for a leaf its key and its value with a length; for a branch
/// its leaves, its representative, its depth, and its children with a count.
pub open spec fn wire_len(response: PatchNodeResponse) -> nat {
    match response {
        PatchNodeResponse::SnapshotUnavailable => 1,
        PatchNodeResponse::PrefixAbsent => 1,
        PatchNodeResponse::Found(PatchNode::Leaf { key, value, .. }) => {
            (1 + 1 + 32 + key@.len() + 4 + value@.len()) as nat
        },
        PatchNodeResponse::Found(PatchNode::Branch { representative, children, .. }) => {
            (1 + 1 + 32 + 8 + representative@.len() + 1 + 4 + children@.len() * 41) as nat
        },
    }
}

/// How many bytes an answer takes on the wire.
pub fn node_response_wire_len(response: &PatchNodeResponse) -> (length: usize)
    requires
        wire_len(*response) <= usize::MAX,
    ensures
        length == wire_len(*response),
{
    match response {
        PatchNodeResponse::SnapshotUnavailable => 1,
        PatchNodeResponse::PrefixAbsent => 1,
        PatchNodeResponse::Found(PatchNode::Leaf { key, value, .. }) => {
            1 + 1 + 32 + key.len() + 4 + value.len()
        },
        PatchNodeResponse::Found(PatchNode::Branch { representative, children, .. }) => {
            1 + 1 + 32 + 8 + representative.len() + 1 + 4 + children.len() * 41
        },
    }
}

/// What a server answers to a client that asks for a collection.
#[derive(Clone, Copy, Debug, PartialEq, Eq)]
pub enum CollectionRepairAdmission {
    Admitted(CollectionRepairManifest),
    Rejected,
    Unavailable,
}

/// Whether an answer decides on a client: with a manifest of what is retained, or
/// with a refusal.
pub open spec fn is_admission(
    answer: CollectionRepairAdmission,
    retained: Option<CollectionRepairOverlay>,
    admitted: bool,
) -> bool {
    match retained {
        None => answer == CollectionRepairAdmission::Unavailable,
        Some(overlay) => if admitted {
            answer matches CollectionRepairAdmission::Admitted(manifest) && is_manifest(
                manifest,
                overlay,
            )
        } else {
            answer == CollectionRepairAdmission::Rejected
        },
    }
}

/// Decide on a client: nothing is disclosed of a collection that is not
/// retained, or to a client that may not read it.
pub fn admission(overlay: Option<&CollectionRepairOverlay>, admitted: bool) -> (answer:
    CollectionRepairAdmission)
    ensures
        is_admission(
            answer,
            match overlay {
                Some(overlay) => Some(*overlay),
                None => None,
            },
            admitted,
        ),
{
    match overlay {
        None => CollectionRepairAdmission::Unavailable,
        Some(overlay) => if admitted {
            CollectionRepairAdmission::Admitted(manifest(overlay))
        } else {
            CollectionRepairAdmission::Rejected
        },
    }
}

/// What an admission means to the client.
pub open spec fn understood(answer: CollectionRepairAdmission) -> Result<
    CollectionRepairManifest,
    CollectionRepairRefusal,
> {
    match answer {
        CollectionRepairAdmission::Admitted(manifest) => Ok(manifest),
        CollectionRepairAdmission::Rejected => Err(CollectionRepairRefusal::Rejected),
        CollectionRepairAdmission::Unavailable => Err(CollectionRepairRefusal::Unavailable),
    }
}

/// What an admission means to the client.
pub fn admitted_manifest(answer: CollectionRepairAdmission) -> (result: Result<
    CollectionRepairManifest,
    CollectionRepairRefusal,
>)
    ensures
        result == understood(answer),
{
    match answer {
        CollectionRepairAdmission::Admitted(manifest) => Ok(manifest),
        CollectionRepairAdmission::Rejected => Err(CollectionRepairRefusal::Rejected),
        CollectionRepairAdmission::Unavailable => Err(CollectionRepairRefusal::Unavailable),
    }
}

/// Whether a proof that a client sent is kept for a later observation: it is
/// new, over the collection itself, reaches the client, and is evidence.
pub open spec fn is_kept(
    overlay: CollectionRepairOverlay,
    remote: VerifyingKey,
    candidate: ProofState,
) -> bool {
    &&& !overlay.authorization_evidence.held().contains_key(candidate.id)
    &&& candidate.resource == overlay.collection
    &&& proof_reaches(candidate, remote)
    &&& overlay.authorization_evidence.check(candidate) is Ok
}

/// The proofs that are kept, in order.
pub open spec fn kept(
    overlay: CollectionRepairOverlay,
    remote: VerifyingKey,
    candidates: Seq<ProofState>,
) -> Seq<ProofState>
    decreases candidates.len(),
{
    if candidates.len() == 0 {
        Seq::empty()
    } else {
        let front = kept(overlay, remote, candidates.drop_last());
        if is_kept(overlay, remote, candidates.last()) {
            front.push(candidates.last())
        } else {
            front
        }
    }
}

/// The proofs of a client's hello that are kept for a later coherent
/// authorization observation. They never authorize the session they came with.
pub fn retained_bootstrap(
    overlay: &CollectionRepairOverlay,
    remote: &VerifyingKey,
    candidates: Vec<CapabilityProof>,
) -> (retained: Vec<CapabilityProof>)
    ensures
        proof_states(retained@) == kept(*overlay, *remote, proof_states(candidates@)),
{
    let ghost states = proof_states(candidates@);
    let mut retained: Vec<CapabilityProof> = Vec::new();
    let mut i: usize = 0;
    proof {
        assert(states.take(0) =~= Seq::empty());
        assert(proof_states(retained@) =~= Seq::<ProofState>::empty());
    }
    while i < candidates.len()
        invariant
            i <= candidates@.len(),
            states == proof_states(candidates@),
            proof_states(retained@) == kept(*overlay, *remote, states.take(i as int)),
        decreases candidates@.len() - i,
    {
        let candidate = &candidates[i];
        proof {
            assert(states.take(i + 1).drop_last() =~= states.take(i as int));
            assert(states.take(i + 1).last() == candidate@);
        }
        let evidence = &overlay.authorization_evidence;
        if evidence.get(&candidate.id).is_none() && same(&candidate.resource, &overlay.collection)
            && candidate.reaches(remote) && evidence.validate_proof(candidate).is_ok() {
            let ghost before = proof_states(retained@);
            let copy = candidate.clone();
            retained.push(copy);
            assert(proof_states(retained@) =~= before.push(candidate@));
        }
        i = i + 1;
    }
    assert(states.take(i as int) =~= states);
    retained
}

/// Why a server gives up on a stream.
#[derive(Clone, Copy, Debug, PartialEq, Eq, Structural)]
pub enum ServerRepairError {
    CommandBudget,
    EmptyPatch,
    InvalidPrefix,
    UnpinnedRoot,
    ResponseBudget,
}

impl ServerRepairError {
    /// The reason in words.
    pub fn message(&self) -> (text: &'static str)
        ensures
            text@ == match *self {
                ServerRepairError::CommandBudget => "collection repair command budget exhausted"@,
                ServerRepairError::EmptyPatch =>
                    "client requested a node from an empty collection PATCH"@,
                ServerRepairError::InvalidPrefix =>
                    "collection repair request prefix exceeds the key length"@,
                ServerRepairError::UnpinnedRoot =>
                    "collection repair request does not pin the manifest root"@,
                ServerRepairError::ResponseBudget => "collection repair response budget exhausted"@,
            },
    {
        match self {
            ServerRepairError::CommandBudget => "collection repair command budget exhausted",
            ServerRepairError::EmptyPatch => {
                "client requested a node from an empty collection PATCH"
            },
            ServerRepairError::InvalidPrefix => {
                "collection repair request prefix exceeds the key length"
            },
            ServerRepairError::UnpinnedRoot => {
                "collection repair request does not pin the manifest root"
            },
            ServerRepairError::ResponseBudget => "collection repair response budget exhausted",
        }
    }
}

/// Why a request for a node of a pinned set is refused, if it is.
pub open spec fn request_check(
    pinned: PatchSummary,
    prefix: Seq<u8>,
    expected_digest: [u8; 32],
) -> Result<(), ServerRepairError> {
    match pinned.root_spec() {
        None => Err(ServerRepairError::EmptyPatch),
        Some(root) => if prefix.len() > COMPONENT_KEY_LEN {
            Err(ServerRepairError::InvalidPrefix)
        } else if prefix.len() == 0 && expected_digest != root {
            Err(ServerRepairError::UnpinnedRoot)
        } else {
            Ok(())
        },
    }
}

/// One admitted stream at the server: what it pinned, and how much it served.
#[derive(Clone, Copy, Debug, PartialEq, Eq)]
pub struct ServerSession {
    pub manifest: CollectionRepairManifest,
    pub commands: usize,
    pub response_bytes: usize,
}

impl ServerSession {
    /// No more commands than allowed were taken.
    pub open spec fn well_formed(self) -> bool {
        self.commands <= MAX_SERVER_REPAIR_COMMANDS
    }

    /// What a further command comes to: whether it is taken, and the stream then.
    pub open spec fn commanded(self) -> (Result<(), ServerRepairError>, ServerSession) {
        if self.commands == MAX_SERVER_REPAIR_COMMANDS {
            (Err(ServerRepairError::CommandBudget), self)
        } else {
            (Ok(()), ServerSession { commands: (self.commands + 1) as usize, ..self })
        }
    }

    /// What an answer of so many bytes comes to: whether it is sent, and the stream
    /// then.
    pub open spec fn responded(self, length: nat) -> (
        Result<(), ServerRepairError>,
        ServerSession,
    ) {
        if self.response_bytes >= MAX_SERVER_NODE_RESPONSE_BYTES {
            (Err(ServerRepairError::ResponseBudget), self)
        } else {
            (
                Ok(()),
                ServerSession { response_bytes: charged(self.response_bytes, length), ..self },
            )
        }
    }

    /// A stream that was just admitted.
    pub fn new(manifest: CollectionRepairManifest) -> (session: Self)
        ensures
            session == (ServerSession { manifest, commands: 0, response_bytes: 0 }),
            session.well_formed(),
    {
        ServerSession { manifest, commands: 0, response_bytes: 0 }
    }

    /// What follows an answer to a client: a stream of commands if it was
    /// admitted, nothing at all if it was refused.
    pub fn begin(answer: &CollectionRepairAdmission) -> (session: Option<Self>)
        ensures
            session == match *answer {
                CollectionRepairAdmission::Admitted(manifest) => Some(
                    ServerSession { manifest, commands: 0, response_bytes: 0 },
                ),
                _ => None,
            },
            session matches Some(session) ==> session.well_formed(),
    {
        match answer {
            CollectionRepairAdmission::Admitted(manifest) => Some(ServerSession::new(*manifest)),
            _ => None,
        }
    }

    /// Charge the next command, before it is read.
    pub fn begin_command(&mut self) -> (result: Result<(), ServerRepairError>)
        requires
            old(self).well_formed(),
        ensures
            final(self).well_formed(),
            result == old(self).commanded().0,
            *final(self) == old(self).commanded().1,
    {
        if self.commands == MAX_SERVER_REPAIR_COMMANDS {
            return Err(ServerRepairError::CommandBudget);
        }
        self.commands = self.commands + 1;
        Ok(())
    }

    /// Check a request for a node: there is something to ask for, the prefix can
    /// lead to it, and a request for the root pins the root of the manifest.
    pub fn check_request(
        &self,
        component: CollectionRepairComponent,
        prefix: &[u8],
        expected_digest: &[u8; 32],
    ) -> (result: Result<(), ServerRepairError>)
        ensures
            result == request_check(self.manifest.part(component), prefix@, *expected_digest),
    {
        match self.manifest.component(component).root() {
            None => Err(ServerRepairError::EmptyPatch),
            Some(root) => if prefix.len() > COMPONENT_KEY_LEN {
                Err(ServerRepairError::InvalidPrefix)
            } else if prefix.len() == 0 && !same(expected_digest, &root) {
                Err(ServerRepairError::UnpinnedRoot)
            } else {
                Ok(())
            },
        }
    }

    /// Charge an answer, before it is sent.
    pub fn charge_response(&mut self, response: &PatchNodeResponse) -> (result: Result<
        (),
        ServerRepairError,
    >)
        requires
            wire_len(*response) <= usize::MAX,
        ensures
            result == old(self).responded(wire_len(*response)).0,
            *final(self) == old(self).responded(wire_len(*response)).1,
    {
        if self.response_bytes >= MAX_SERVER_NODE_RESPONSE_BYTES {
            return Err(ServerRepairError::ResponseBudget);
        }
        self.response_bytes = charge(self.response_bytes, node_response_wire_len(response));
        Ok(())
    }
}

/// A byte count with more bytes, as far as it can be told.
pub open spec fn charged(bytes: usize, more: nat) -> usize {
    if bytes + more <= usize::MAX {
        (bytes + more) as usize
    } else {
        usize::MAX
    }
}

fn charge(bytes: usize, more: usize) -> (sum: usize)
    ensures
        sum == charged(bytes, more as nat),
{
    if bytes <= usize::MAX - more {
        bytes + more
    } else {
        usize::MAX
    }
}

/// Why a client gives up on a stream.
#[derive(Clone, Copy, Debug, PartialEq, Eq)]
pub enum PullError {
    /// The remote omitted a prefix that it had authenticated.
    OmittedPrefix,
    /// The remote lost a set that it had pinned.
    LostSnapshot,
    /// The node does not follow from the digest that was asked for.
    InvalidNode,
    /// The leaf is no record of the collection.
    Record(CollectionDeltaError),
    /// The record is not the one that its leaf names.
    RecordMismatch,
    /// The proof is not the one that its leaf names.
    EvidenceMismatch,
    /// The leaf is no proof, or the signatures of that proof do not hold.
    Proof(CapabilityProofError),
    /// The proof is no evidence for the collection.
    Evidence(CollectionAuthorizationEvidenceError),
    /// The leaf is no exact handle with an empty value.
    InvalidInventoryLeaf,
}

/// What one stream may still cost.
#[derive(Clone, Copy, Debug, PartialEq, Eq, Structural)]
pub struct PullBudget {
    pub remaining_requests: usize,
    pub response_bytes: usize,
}

impl PullBudget {
    /// The budget after an answer was received.
    pub open spec fn after(self, response: PatchNodeResponse) -> Self {
        PullBudget {
            response_bytes: charged(self.response_bytes, wire_len(response)),
            ..self
        }
    }

    /// What a fresh stream may cost.
    pub fn new() -> (budget: Self)
        ensures
            budget == (PullBudget {
                remaining_requests: MAX_SEMANTIC_REPAIR_NODE_REQUESTS,
                response_bytes: 0,
            }),
    {
        PullBudget {
            remaining_requests: MAX_SEMANTIC_REPAIR_NODE_REQUESTS,
            response_bytes: 0,
        }
    }

    fn receive(&mut self, response: &PatchNodeResponse)
        requires
            wire_len(*response) <= usize::MAX,
        ensures
            *final(self) == old(self).after(*response),
    {
        self.response_bytes = charge(self.response_bytes, node_response_wire_len(response));
    }
}

/// Whether an answer can be used at all: it must be a node, and that node must
/// follow from the digest that was asked for.
pub open spec fn response_error(response: PatchNodeResponse, node_valid: bool) -> Option<PullError> {
    match response {
        PatchNodeResponse::PrefixAbsent => Some(PullError::OmittedPrefix),
        PatchNodeResponse::SnapshotUnavailable => Some(PullError::LostSnapshot),
        PatchNodeResponse::Found(_) => if node_valid {
            None
        } else {
            Some(PullError::InvalidNode)
        },
    }
}

fn validate_response(response: &PatchNodeResponse, node_valid: bool) -> (error: Option<PullError>)
    ensures
        error == response_error(*response, node_valid),
{
    match response {
        PatchNodeResponse::PrefixAbsent => Some(PullError::OmittedPrefix),
        PatchNodeResponse::SnapshotUnavailable => Some(PullError::LostSnapshot),
        PatchNodeResponse::Found(_) => if node_valid {
            None
        } else {
            Some(PullError::InvalidNode)
        },
    }
}

/// The key of the leaf that an answer is.
pub open spec fn leaf_key(response: PatchNodeResponse) -> Option<Seq<u8>> {
    match response {
        PatchNodeResponse::Found(PatchNode::Leaf { key, .. }) => Some(key@),
        _ => None,
    }
}

/// What an answer means for the pull of records: its result, and whether the
/// record is missing.
pub open spec fn record_step(
    local: CollectionRepairOverlay,
    response: PatchNodeResponse,
    node_valid: bool,
    decoded: Result<CollectionRecord, RecordDecodeError>,
) -> (Result<(), PullError>, bool) {
    match (response_error(response, node_valid), leaf_key(response), decoded) {
        (Some(error), _, _) => (Err(error), false),
        (None, None, _) => (Ok(()), false),
        (None, Some(_), Err(reason)) => (
            Err(PullError::Record(CollectionDeltaError::Decode(reason))),
            false,
        ),
        (None, Some(key), Ok(record)) => if record.collection != local.collection {
            (Err(PullError::Record(CollectionDeltaError::WrongCollection)), false)
        } else if record.fingerprint@ != key {
            (Err(PullError::RecordMismatch), false)
        } else {
            (Ok(()), !local.records.contents().contains_key(record.fingerprint))
        },
    }
}

/// The pull of missing records. Requests for nodes are made while the budget
/// lasts and the walk of the remote set has not ended.
#[derive(Debug)]
pub struct RecordPull {
    pub requests: usize,
    pub missing: Vec<CollectionRecord>,
    pub complete: bool,
}

impl RecordPull {
    /// Whether another node may be asked for.
    pub open spec fn may_request(self, budget: PullBudget) -> bool {
        &&& self.requests < MAX_REPAIR_NODE_REQUESTS
        &&& budget.remaining_requests > 0
        &&& budget.response_bytes < MAX_SEMANTIC_NODE_RESPONSE_BYTES
        &&& self.missing@.len() < MAX_REPAIR_RECORD_ITEMS
    }

    /// A pull that has asked for nothing yet.
    pub fn new() -> (pull: Self)
        ensures
            pull.requests == 0,
            pull.missing@.len() == 0,
            !pull.complete,
    {
        RecordPull { requests: 0, missing: Vec::new(), complete: false }
    }

    /// Whether another node may be asked for.
    pub fn wants_request(&self, budget: &PullBudget) -> (wants: bool)
        ensures
            wants == self.may_request(*budget),
    {
        self.requests < MAX_REPAIR_NODE_REQUESTS && budget.remaining_requests > 0
            && budget.response_bytes < MAX_SEMANTIC_NODE_RESPONSE_BYTES && self.missing.len()
            < MAX_REPAIR_RECORD_ITEMS
    }

    /// The walk of the remote set has ended.
    pub fn walk_ended(&mut self)
        ensures
            final(self).requests == old(self).requests,
            final(self).missing == old(self).missing,
            final(self).complete,
    {
        self.complete = true;
    }

    /// Charge a request.
    pub fn requested(&mut self, budget: &mut PullBudget)
        requires
            old(self).may_request(*old(budget)),
        ensures
            final(self).requests == old(self).requests + 1,
            final(self).missing == old(self).missing,
            final(self).complete == old(self).complete,
            *final(budget) == (PullBudget {
                remaining_requests: (old(budget).remaining_requests - 1) as usize,
                ..*old(budget)
            }),
    {
        self.requests = self.requests + 1;
        budget.remaining_requests = budget.remaining_requests - 1;
    }

    /// Take an answer. `node_valid` tells whether the node follows from the
    /// digest that was asked for, and `decoded` what the value of a leaf decodes
    /// to.
    pub fn received(
        &mut self,
        budget: &mut PullBudget,
        local: &CollectionRepairOverlay,
        response: &PatchNodeResponse,
        node_valid: bool,
        decoded: Result<CollectionRecord, RecordDecodeError>,
    ) -> (result: Result<(), PullError>)
        requires
            wire_len(*response) <= usize::MAX,
        ensures
            final(self).requests == old(self).requests,
            final(self).complete == old(self).complete,
            *final(budget) == old(budget).after(*response),
            ({
                let step = record_step(*local, *response, node_valid, decoded);
                &&& result == step.0
                &&& record_states(final(self).missing@) == if step.1 {
                    record_states(old(self).missing@).push((decoded->Ok_0)@)
                } else {
                    record_states(old(self).missing@)
                }
            }),
    {
        budget.receive(response);
        if let Some(error) = validate_response(response, node_valid) {
            return Err(error);
        }
        match response {
            PatchNodeResponse::Found(PatchNode::Leaf { key, .. }) => {
                let record = match decode_record(&local.collection, decoded) {
                    Ok(record) => record,
                    Err(error) => {
                        return Err(PullError::Record(error));
                    },
                };
                if !same_bytes(&record.fingerprint, key) {
                    return Err(PullError::RecordMismatch);
                }
                if local.records.get(&record.fingerprint).is_none() {
                    let ghost before = record_states(self.missing@);
                    let ghost state = record@;
                    self.missing.push(record);
                    assert(record_states(self.missing@) =~= before.push(state));
                }
                Ok(())
            },
            _ => Ok(()),
        }
    }
}

/// Why an authorization leaf is refused, if it is: its value is no proof, its key
/// is not the audience and the identity of that proof, or the signatures of the
/// proof do not hold.
pub open spec fn evidence_leaf_error(
    audience: [u8; 32],
    key: Seq<u8>,
    candidate: Result<CapabilityProof, CapabilityProofError>,
) -> Option<PullError> {
    match candidate {
        Err(error) => Some(PullError::Proof(error)),
        Ok(candidate) => if key != audience@ + candidate.id@ {
            Some(PullError::EvidenceMismatch)
        } else {
            match candidate.signature_error {
                Some(error) => Some(PullError::Proof(error)),
                None => None,
            }
        },
    }
}

/// Check an authorization leaf, given what its value decodes to.
pub fn validate_authorization_leaf_bytes(
    audience: &[u8; 32],
    key: &[u8],
    candidate: &Result<CapabilityProof, CapabilityProofError>,
) -> (error: Option<PullError>)
    ensures
        error == evidence_leaf_error(*audience, key@, *candidate),
{
    match candidate {
        Err(error) => Some(PullError::Proof(*error)),
        Ok(candidate) => {
            let expected = crate::collection_activation::evidence_key(audience, &candidate.id);
            if !same_bytes(&expected, key) {
                return Some(PullError::EvidenceMismatch);
            }
            match candidate.signature_error {
                Some(error) => Some(PullError::Proof(error)),
                None => None,
            }
        },
    }
}

/// Whether a proof that is no evidence yet may become some: it is over another
/// resource, whose descriptor may still arrive.
pub open spec fn may_be_routed(
    collection: [u8; 32],
    candidate: ProofState,
    error: CollectionAuthorizationEvidenceError,
) -> bool {
    candidate.resource != collection && (error == CollectionAuthorizationEvidenceError::WrongRoot
        || error is ResourceDescriptorUnavailable)
}

/// The pull of missing authorization evidence.
#[derive(Debug)]
pub struct AuthorizationPull {
    pub requests: usize,
    pub missing: Vec<CapabilityProof>,
    pub complete: bool,
    /// Some proof cannot be judged yet. It is neither kept nor counted as
    /// repaired.
    pub deferred: bool,
}

impl AuthorizationPull {
    /// Whether another node may be asked for.
    pub open spec fn may_request(self, budget: PullBudget) -> bool {
        &&& self.requests < MAX_AUTHORIZATION_REPAIR_NODE_REQUESTS
        &&& budget.remaining_requests > 0
        &&& budget.response_bytes < MAX_AUTHORIZATION_NODE_RESPONSE_BYTES
        &&& self.missing@.len() < MAX_REPAIR_AUTHORIZATION_EVIDENCE_ITEMS
    }

    /// A pull that has asked for nothing yet.
    pub fn new() -> (pull: Self)
        ensures
            pull.requests == 0,
            pull.missing@.len() == 0,
            !pull.complete,
            !pull.deferred,
    {
        AuthorizationPull { requests: 0, missing: Vec::new(), complete: false, deferred: false }
    }

    /// Whether another node may be asked for.
    pub fn wants_request(&self, budget: &PullBudget) -> (wants: bool)
        ensures
            wants == self.may_request(*budget),
    {
        self.requests < MAX_AUTHORIZATION_REPAIR_NODE_REQUESTS && budget.remaining_requests > 0
            && budget.response_bytes < MAX_AUTHORIZATION_NODE_RESPONSE_BYTES && self.missing.len()
            < MAX_REPAIR_AUTHORIZATION_EVIDENCE_ITEMS
    }

    /// The walk of the remote set has ended.
    pub fn walk_ended(&mut self)
        ensures
            final(self).requests == old(self).requests,
            final(self).missing == old(self).missing,
            final(self).deferred == old(self).deferred,
            final(self).complete,
    {
        self.complete = true;
    }

    /// Charge a request.
    pub fn requested(&mut self, budget: &mut PullBudget)
        requires
            old(self).may_request(*old(budget)),
        ensures
            final(self).requests == old(self).requests + 1,
            final(self).missing == old(self).missing,
            final(self).complete == old(self).complete,
            final(self).deferred == old(self).deferred,
            *final(budget) == (PullBudget {
                remaining_requests: (old(budget).remaining_requests - 1) as usize,
                ..*old(budget)
            }),
    {
        self.requests = self.requests + 1;
        budget.remaining_requests = budget.remaining_requests - 1;
    }

    /// Whether evidence is left that was not repaired.
    pub fn more(&self) -> (more: bool)
        ensures
            more == leaves_more(self.complete, self.deferred, true),
    {
        !self.complete || self.deferred
    }

    /// Take an answer. `node_valid` tells whether the node follows from the
    /// digest that was asked for, and `candidate` what the value of a leaf decodes
    /// to.
    pub fn received(
        &mut self,
        budget: &mut PullBudget,
        local: &CollectionRepairOverlay,
        response: &PatchNodeResponse,
        node_valid: bool,
        candidate: Result<CapabilityProof, CapabilityProofError>,
    ) -> (result: Result<(), PullError>)
        requires
            wire_len(*response) <= usize::MAX,
        ensures
            final(self).requests == old(self).requests,
            final(self).complete == old(self).complete,
            *final(budget) == old(budget).after(*response),
            ({
                let step = evidence_step(*local, *response, node_valid, candidate);
                &&& result == step.0
                &&& proof_states(final(self).missing@) == if step.1 {
                    proof_states(old(self).missing@).push((candidate->Ok_0)@)
                } else {
                    proof_states(old(self).missing@)
                }
                &&& final(self).deferred == (old(self).deferred || step.2)
            }),
    {
        budget.receive(response);
        if let Some(error) = validate_response(response, node_valid) {
            return Err(error);
        }
        match response {
            PatchNodeResponse::Found(PatchNode::Leaf { key, .. }) => {
                let mut absolute: Vec<u8> = Vec::new();
                absolute.extend_from_slice(&local.collection);
                absolute.extend_from_slice(key);
                assert(absolute@ =~= local.collection@ + key@);
                if let Some(error) = validate_authorization_leaf_bytes(
                    &local.collection,
                    &absolute,
                    &candidate,
                ) {
                    return Err(error);
                }
                let candidate = match candidate {
                    Ok(candidate) => candidate,
                    Err(error) => {
                        return Err(PullError::Proof(error));
                    },
                };
                let evidence = &local.authorization_evidence;
                if evidence.get(&candidate.id).is_some() {
                    return Ok(());
                }
                match evidence.validate_proof(&candidate) {
                    Ok(()) => {
                        let ghost before = proof_states(self.missing@);
                        let ghost state = candidate@;
                        self.missing.push(candidate);
                        assert(proof_states(self.missing@) =~= before.push(state));
                        Ok(())
                    },
                    Err(error) => {
                        let routable = match error {
                            CollectionAuthorizationEvidenceError::WrongRoot => true,
                            CollectionAuthorizationEvidenceError::ResourceDescriptorUnavailable(
                                _,
                            ) => true,
                            _ => false,
                        };
                        if routable && !same(&candidate.resource, &local.collection) {
                            // The resource may arrive through ordinary blob
                            // acquisition after this pinned observation. Do not
                            // ingest unrouted proofs, block independent records,
                            // or claim convergence.
                            self.deferred = true;
                            Ok(())
                        } else {
                            Err(PullError::Evidence(error))
                        }
                    },
                }
            },
            _ => Ok(()),
        }
    }
}

/// What an answer means for the pull of evidence: its result, whether the proof
/// is missing evidence, and whether it is deferred. The key of a leaf on the wire
/// is what follows the collection.
pub open spec fn evidence_step(
    local: CollectionRepairOverlay,
    response: PatchNodeResponse,
    node_valid: bool,
    candidate: Result<CapabilityProof, CapabilityProofError>,
) -> (Result<(), PullError>, bool, bool) {
    match (response_error(response, node_valid), leaf_key(response)) {
        (Some(error), _) => (Err(error), false, false),
        (None, None) => (Ok(()), false, false),
        (None, Some(key)) => match evidence_leaf_error(
            local.collection,
            local.collection@ + key,
            candidate,
        ) {
            Some(error) => (Err(error), false, false),
            None => {
                let proven = (candidate->Ok_0)@;
                if local.authorization_evidence.held().contains_key(proven.id) {
                    (Ok(()), false, false)
                } else {
                    match local.authorization_evidence.check(proven) {
                        Ok(()) => (Ok(()), true, false),
                        Err(error) => if may_be_routed(local.collection, proven, error) {
                            (Ok(()), false, true)
                        } else {
                            (Err(PullError::Evidence(error)), false, false)
                        },
                    }
                }
            },
        },
    }
}

/// Whether a leaf of the inventory is an exact handle with an empty value.
pub fn validate_inventory_leaf_bytes(key: &[u8], bytes: &[u8]) -> (result: Result<(), PullError>)
    ensures
        result == if key@.len() == 32 && bytes@.len() == 0 {
            Ok::<(), PullError>(())
        } else {
            Err(PullError::InvalidInventoryLeaf)
        },
{
    if key.len() != 32 || bytes.len() != 0 {
        return Err(PullError::InvalidInventoryLeaf);
    }
    Ok(())
}

fn exact_handle(key: &[u8]) -> (handle: RawHash)
    requires
        key@.len() == 32,
    ensures
        handle@ == key@,
{
    let mut handle: RawHash = [0; 32];
    let mut i: usize = 0;
    while i < 32
        invariant
            i <= 32,
            key@.len() == 32,
            forall|j: int| 0 <= j < i ==> #[trigger] handle@[j] == key@[j],
        decreases 32 - i,
    {
        handle[i] = key[i];
        i = i + 1;
    }
    assert(handle@ =~= key@);
    handle
}

/// Whether an answer to a request for the inventory is accepted.
pub open spec fn hint_result(response: PatchNodeResponse, node_valid: bool) -> Result<
    (),
    PullError,
> {
    match response_error(response, node_valid) {
        Some(error) => Err(error),
        None => match response {
            PatchNodeResponse::Found(PatchNode::Leaf { key, value, .. }) => if key@.len() == 32
                && value@.len() == 0 {
                Ok(())
            } else {
                Err(PullError::InvalidInventoryLeaf)
            },
            _ => Ok(()),
        },
    }
}

/// Bounded frontier of one remote inventory, reusable across admitted streams.
/// A changed summary starts a freshly authenticated walk above the last visited
/// key, then wraps to low keys after that suffix completes. Local comparisons
/// stay on the inventory that the walk started with.
#[derive(Debug)]
pub struct InventoryRepairCursor {
    pub collection: [u8; 32],
    pub remote: PatchSummary,
    pub local: ResidentBlobPatch,
    pub visited: Option<RawHash>,
    /// Lower bound only for a freshly pinned walk; never an old proof.
    pub resume_after: Option<RawHash>,
    pub wrap: bool,
}

/// Whether a key is at or below a bound.
pub open spec fn at_most(key: RawHash, bound: Option<RawHash>) -> bool {
    match bound {
        Some(bound) => rank(key) <= rank(bound),
        None => false,
    }
}

/// The greater of a key and what was visited.
pub open spec fn furthest(visited: Option<RawHash>, key: RawHash) -> Option<RawHash> {
    match visited {
        Some(prior) => if rank(prior) < rank(key) {
            Some(key)
        } else {
            Some(prior)
        },
        None => Some(key),
    }
}

/// The pull of resident-blob hints.
#[derive(Debug)]
pub struct InventoryPull {
    pub cursor: InventoryRepairCursor,
    /// Whether the walk of the remote set starts anew.
    pub fresh_walk: bool,
    pub requests: usize,
    pub started_bytes: usize,
    pub missing: Vec<RawHash>,
}

impl InventoryPull {
    /// Whether another node may be asked for.
    pub open spec fn may_request(self, budget: PullBudget) -> bool {
        &&& self.requests < MAX_BLOB_INVENTORY_NODE_REQUESTS
        &&& budget.response_bytes - self.started_bytes < MAX_BLOB_INVENTORY_RESPONSE_BYTES
        &&& budget.response_bytes < MAX_SERVER_NODE_RESPONSE_BYTES
    }

    /// Whether a fresh pull takes up a cursor of the collection, or begins at the
    /// first key where there is none.
    pub open spec fn takes_up(
        self,
        cursor: Option<InventoryRepairCursor>,
        local: CollectionRepairOverlay,
        remote: PatchSummary,
    ) -> bool {
        &&& self.requests == 0
        &&& self.missing@ == Seq::<RawHash>::empty()
        &&& self.cursor.collection == local.collection
        &&& self.cursor.remote == remote
        &&& match cursor {
            Some(cursor) if cursor.collection == local.collection => {
                &&& self.cursor.local == cursor.local
                &&& self.cursor.visited == cursor.visited
                &&& self.fresh_walk == (cursor.remote != remote)
                &&& self.cursor.resume_after == if cursor.remote == remote {
                    cursor.resume_after
                } else {
                    cursor.visited
                }
                &&& self.cursor.wrap == (cursor.wrap || (cursor.remote != remote
                    && cursor.visited is Some))
            },
            _ => {
                &&& self.cursor.local@ == local.blob_inventory@
                &&& self.cursor.visited is None
                &&& self.cursor.resume_after is None
                &&& !self.cursor.wrap
                &&& self.fresh_walk
            },
        }
    }

    /// The cursor that a walk leaves at its end: none, or one that begins at the
    /// first key where the walk was confined to a suffix.
    pub open spec fn cursor_after_walk(self) -> Option<InventoryRepairCursor> {
        if self.cursor.wrap {
            Some(
                InventoryRepairCursor {
                    visited: None,
                    resume_after: None,
                    wrap: false,
                    ..self.cursor
                },
            )
        } else {
            None
        }
    }

    /// What an answer changes: an accepted leaf was visited, and is a hint unless
    /// it is behind the bound or held locally.
    pub open spec fn hinted(
        self,
        before: InventoryPull,
        response: PatchNodeResponse,
        accepted: bool,
    ) -> bool {
        &&& self.requests == before.requests
        &&& self.started_bytes == before.started_bytes
        &&& self.fresh_walk == before.fresh_walk
        &&& self.cursor == (InventoryRepairCursor { visited: self.cursor.visited, ..before.cursor })
        &&& if accepted && leaf_key(response) is Some {
            exists|handle: RawHash|
                {
                    &&& #[trigger] handle@ == leaf_key(response)->0
                    &&& self.cursor.visited == furthest(before.cursor.visited, handle)
                    &&& self.missing@ == if at_most(handle, before.cursor.resume_after)
                        || before.cursor.local@.contains_key(handle) {
                        before.missing@
                    } else {
                        before.missing@.push(handle)
                    }
                }
        } else {
            self.cursor.visited == before.cursor.visited && self.missing@ == before.missing@
        }
    }

    /// Continue from a cursor of the collection, or begin at the first key. A
    /// cursor whose remote summary changed resumes behind what it visited.
    pub fn begin(
        cursor: Option<InventoryRepairCursor>,
        local: &CollectionRepairOverlay,
        remote: PatchSummary,
        budget: &PullBudget,
    ) -> (pull: Self)
        ensures
            pull.takes_up(cursor, *local, remote),
            pull.started_bytes == budget.response_bytes,
    {
        if let Some(cursor) = cursor {
            if same(&cursor.collection, &local.collection) {
                let changed = !cursor.remote.agrees(&remote);
                let resume_after = if changed {
                    cursor.visited
                } else {
                    cursor.resume_after
                };
                return InventoryPull {
                    fresh_walk: changed,
                    requests: 0,
                    started_bytes: budget.response_bytes,
                    missing: Vec::new(),
                    cursor: InventoryRepairCursor {
                        collection: cursor.collection,
                        remote,
                        local: cursor.local,
                        visited: cursor.visited,
                        resume_after,
                        wrap: cursor.wrap || (changed && resume_after.is_some()),
                    },
                };
            }
        }
        InventoryPull {
            fresh_walk: true,
            requests: 0,
            started_bytes: budget.response_bytes,
            missing: Vec::new(),
            cursor: InventoryRepairCursor {
                collection: local.collection,
                remote,
                local: local.blob_inventory.clone(),
                visited: None,
                resume_after: None,
                wrap: false,
            },
        }
    }

    /// Whether another node may be asked for.
    pub fn wants_request(&self, budget: &PullBudget) -> (wants: bool)
        ensures
            wants == self.may_request(*budget),
    {
        let received_enough = budget.response_bytes >= self.started_bytes && budget.response_bytes
            - self.started_bytes >= MAX_BLOB_INVENTORY_RESPONSE_BYTES;
        self.requests < MAX_BLOB_INVENTORY_NODE_REQUESTS && !received_enough
            && budget.response_bytes < MAX_SERVER_NODE_RESPONSE_BYTES
    }

    /// Charge a request. It does not consume what semantic repair may ask for.
    pub fn requested(&mut self)
        requires
            old(self).requests < MAX_BLOB_INVENTORY_NODE_REQUESTS,
        ensures
            *final(self) == (InventoryPull {
                requests: (old(self).requests + 1) as usize,
                ..*old(self)
            }),
    {
        self.requests = self.requests + 1;
    }

    /// Take an answer: a leaf is a hint unless it is behind the bound or held
    /// locally.
    pub fn received(
        &mut self,
        budget: &mut PullBudget,
        response: &PatchNodeResponse,
        node_valid: bool,
    ) -> (result: Result<(), PullError>)
        requires
            wire_len(*response) <= usize::MAX,
        ensures
            *final(budget) == old(budget).after(*response),
            result == hint_result(*response, node_valid),
            final(self).hinted(*old(self), *response, result is Ok),
    {
        budget.receive(response);
        if let Some(error) = validate_response(response, node_valid) {
            return Err(error);
        }
        match response {
            PatchNodeResponse::Found(PatchNode::Leaf { key, value, .. }) => {
                if let Err(error) = validate_inventory_leaf_bytes(key, value) {
                    return Err(error);
                }
                let handle = exact_handle(key);
                let further = match &self.cursor.visited {
                    Some(prior) => match position(prior, &handle) {
                        Position::Before => true,
                        _ => false,
                    },
                    None => true,
                };
                if further {
                    self.cursor.visited = Some(handle);
                }
                let behind = match &self.cursor.resume_after {
                    Some(bound) => match position(&handle, bound) {
                        Position::After => false,
                        _ => true,
                    },
                    None => false,
                };
                if !behind && !self.cursor.local.contains_key(&handle) {
                    self.missing.push(handle);
                }
                assert(handle@ == leaf_key(*response)->0);
                Ok(())
            },
            _ => Ok(()),
        }
    }

    /// The walk of the remote set has ended. A walk that was confined to a suffix
    /// leaves a cursor that begins at the first key, for a subsequent session.
    pub fn walk_ended(self) -> (outcome: (Vec<RawHash>, Option<InventoryRepairCursor>))
        ensures
            outcome == (self.missing, self.cursor_after_walk()),
    {
        if self.cursor.wrap {
            (
                self.missing,
                Some(
                    InventoryRepairCursor {
                        collection: self.cursor.collection,
                        remote: self.cursor.remote,
                        local: self.cursor.local,
                        visited: None,
                        resume_after: None,
                        wrap: false,
                    },
                ),
            )
        } else {
            (self.missing, None)
        }
    }

    /// The budget of the session is spent. The frontier is kept instead of
    /// revisiting the same early missing leaves in every session. No payload
    /// must land for the traversal to progress.
    pub fn suspended(self) -> (outcome: (Vec<RawHash>, Option<InventoryRepairCursor>))
        ensures
            outcome == (self.missing, Some(self.cursor)),
    {
        (self.missing, Some(self.cursor))
    }
}

/// Evidence missing from the caller's immutable local observation.
#[derive(Debug)]
pub struct CollectionRepairDelta {
    /// When the remote manifest was observed, not when the repair completed.
    pub compared_at: Mono,
    pub local: CollectionRepairManifest,
    pub remote: CollectionRepairManifest,
    pub records: Vec<CollectionRecord>,
    pub authorization_evidence: Vec<CapabilityProof>,
    /// Positive hints from the peer's pinned resident inventory, never payloads.
    pub blob_handles: Vec<RawHash>,
    pub inventory_cursor: Option<InventoryRepairCursor>,
    /// Semantic evidence remains incomplete, independently of inventory hints.
    pub more: bool,
}

impl CollectionRepairDelta {
    /// What the three pulls of a session found.
    pub fn new(
        compared_at: Mono,
        local: &CollectionRepairOverlay,
        remote: CollectionRepairManifest,
        authorization: AuthorizationPull,
        records: RecordPull,
        inventory: (Vec<RawHash>, Option<InventoryRepairCursor>),
    ) -> (delta: Self)
        ensures
            delta.compared_at == compared_at,
            is_manifest(delta.local, *local),
            delta.remote == remote,
            delta.records == records.missing,
            delta.authorization_evidence == authorization.missing,
            delta.blob_handles == inventory.0,
            delta.inventory_cursor == inventory.1,
            delta.more == leaves_more(
                authorization.complete,
                authorization.deferred,
                records.complete,
            ),
    {
        let more = authorization.more() || !records.complete;
        CollectionRepairDelta {
            compared_at,
            local: manifest(local),
            remote,
            records: records.missing,
            authorization_evidence: authorization.missing,
            blob_handles: inventory.0,
            inventory_cursor: inventory.1,
            more,
        }
    }

    /// Incompleteness alone is not progress: absent resource descriptors can
    /// leave authorization deferred indefinitely. Retry those on the ordinary
    /// cadence, while immediately continuing a bounded pass that actually added
    /// data. Inventory hints alone do not prove that any body was acquired.
    pub fn retry_immediately(&self) -> (retry: bool)
        ensures
            retry == worth_continuing(
                self.more,
                self.records@.len(),
                self.authorization_evidence@.len(),
                self.blob_handles@.len(),
            ),
    {
        self.more && (self.records.len() > 0 || self.authorization_evidence.len() > 0)
    }
}

/// Whether a session left evidence or records behind, given whether each walk came
/// to its end and whether some proof was deferred.
pub open spec fn leaves_more(evidence_complete: bool, deferred: bool, records_complete: bool) -> bool {
    !evidence_complete || deferred || !records_complete
}

/// Whether a session that found so many records, proofs and hints, and left
/// something or nothing, should be followed by another at once.
pub open spec fn worth_continuing(more: bool, records: nat, evidence: nat, hints: nat) -> bool {
    more && (records > 0 || evidence > 0)
}

/// Why a leaf cannot be served.
#[derive(Clone, Copy, Debug, PartialEq, Eq)]
pub enum LeafError {
    /// The record is not the one that its leaf names.
    RecordMismatch,
    /// The proof is not the one that its leaf names.
    EvidenceMismatch,
    /// The record names another collection.
    Record(CollectionDeltaError),
}

/// The value of a record leaf, or why it cannot be served.
pub open spec fn record_leaf_value(
    collection: [u8; 32],
    key: Seq<u8>,
    record: RecordState,
) -> Result<Seq<u8>, LeafError> {
    if record.fingerprint@ != key {
        Err(LeafError::RecordMismatch)
    } else if record.collection != collection {
        Err(LeafError::Record(CollectionDeltaError::WrongCollection))
    } else {
        Ok(record.bytes)
    }
}

/// The value of an authorization leaf, or why it cannot be served.
pub open spec fn evidence_leaf_value(
    collection: [u8; 32],
    key: Seq<u8>,
    candidate: ProofState,
) -> Result<Seq<u8>, LeafError> {
    if key == collection@ + candidate.id@ {
        Ok(candidate.bytes)
    } else {
        Err(LeafError::EvidenceMismatch)
    }
}

/// The value of a record leaf.
pub fn record_leaf(collection: &[u8; 32], key: &[u8], record: &CollectionRecord) -> (result: Result<
    Vec<u8>,
    LeafError,
>)
    ensures
        match (result, record_leaf_value(*collection, key@, record@)) {
            (Ok(bytes), Ok(wanted)) => bytes@ == wanted,
            (Err(error), Err(wanted)) => error == wanted,
            _ => false,
        },
{
    if !same_bytes(&record.fingerprint, key) {
        return Err(LeafError::RecordMismatch);
    }
    match encode_record(collection, record) {
        Ok(bytes) => Ok(bytes),
        Err(error) => Err(LeafError::Record(error)),
    }
}

/// The value of an authorization leaf.
pub fn evidence_leaf(collection: &[u8; 32], key: &[u8], candidate: &CapabilityProof) -> (result:
    Result<Vec<u8>, LeafError>)
    ensures
        match (result, evidence_leaf_value(*collection, key@, candidate@)) {
            (Ok(bytes), Ok(wanted)) => bytes@ == wanted,
            (Err(error), Err(wanted)) => error == wanted,
            _ => false,
        },
{
    let expected = crate::collection_activation::evidence_key(collection, &candidate.id);
    if !same_bytes(&expected, key) {
        return Err(LeafError::EvidenceMismatch);
    }
    Ok(crate::bytes::copy_bytes(&candidate.bytes))
}

/// What a session repairs at the moment.
#[derive(Clone, Copy, Debug, PartialEq, Eq, Structural)]
pub enum PullStage {
    Authorization,
    Records,
    Inventory,
    Done,
}

/// One admitted session of a client. Authorization evidence comes first, then
/// records, then hints of resident blobs; the hints do not consume what the
/// other two may ask for.
#[derive(Debug)]
pub struct CollectionPull {
    pub remote: CollectionRepairManifest,
    pub stage: PullStage,
    pub budget: PullBudget,
    pub authorization: AuthorizationPull,
    pub records: RecordPull,
    /// Where an earlier session left the inventory, until it is taken up.
    pub cursor: Option<InventoryRepairCursor>,
    pub inventory: Option<InventoryPull>,
    /// How many nodes of the inventory were asked for.
    pub inventory_requests: usize,
    /// What the inventory came to, once it is left.
    pub hints: Option<(Vec<RawHash>, Option<InventoryRepairCursor>)>,
}

impl CollectionPull {
    /// What was asked for and what may still be asked for is the budget, the
    /// stages are entered in order, and each is within its bounds.
    pub open spec fn well_formed(self) -> bool {
        &&& self.authorization.requests + self.records.requests + self.budget.remaining_requests
            == MAX_SEMANTIC_REPAIR_NODE_REQUESTS
        &&& self.authorization.requests <= MAX_AUTHORIZATION_REPAIR_NODE_REQUESTS
        &&& self.stage == PullStage::Authorization ==> self.records.requests == 0
            && self.records.missing@.len() == 0
        &&& self.stage == PullStage::Inventory <==> self.inventory is Some
        &&& self.stage == PullStage::Done <==> self.hints is Some
        &&& self.inventory_requests <= MAX_BLOB_INVENTORY_NODE_REQUESTS
        &&& self.inventory matches Some(inventory) ==> inventory.requests
            == self.inventory_requests
        &&& self.stage == PullStage::Authorization || self.stage == PullStage::Records
            ==> self.inventory_requests == 0
    }

    /// Every request of the session so far.
    pub open spec fn asked(self) -> nat {
        (self.authorization.requests + self.records.requests + self.inventory_requests) as nat
    }

    /// Whether another node may be asked for in this stage.
    pub open spec fn may_request(self) -> bool {
        match self.stage {
            PullStage::Authorization => self.authorization.may_request(self.budget),
            PullStage::Records => self.records.may_request(self.budget),
            PullStage::Inventory => self.inventory matches Some(inventory)
                && inventory.may_request(self.budget),
            PullStage::Done => false,
        }
    }

    /// Begin a session that the remote admitted with its manifest.
    pub fn begin(
        remote: CollectionRepairManifest,
        cursor: Option<InventoryRepairCursor>,
    ) -> (pull: Self)
        ensures
            pull.well_formed(),
            pull.remote == remote,
            pull.stage == PullStage::Authorization,
            pull.cursor == cursor,
            pull.asked() == 0,
            pull.budget.response_bytes == 0,
            pull.authorization.missing@.len() == 0,
            pull.records.missing@.len() == 0,
            !pull.authorization.complete && !pull.authorization.deferred && !pull.records.complete,
            pull.may_request(),
    {
        CollectionPull {
            remote,
            stage: PullStage::Authorization,
            budget: PullBudget::new(),
            authorization: AuthorizationPull::new(),
            records: RecordPull::new(),
            cursor,
            inventory: None,
            inventory_requests: 0,
            hints: None,
        }
    }

    /// Whether another node may be asked for in this stage.
    pub fn wants_request(&self) -> (wants: bool)
        ensures
            wants == self.may_request(),
    {
        match self.stage {
            PullStage::Authorization => self.authorization.wants_request(&self.budget),
            PullStage::Records => self.records.wants_request(&self.budget),
            PullStage::Inventory => match &self.inventory {
                Some(inventory) => inventory.wants_request(&self.budget),
                None => false,
            },
            PullStage::Done => false,
        }
    }

    /// Charge a request of this stage.
    pub fn requested(&mut self)
        requires
            old(self).well_formed(),
            old(self).may_request(),
        ensures
            final(self).well_formed(),
            final(self).asked() == old(self).asked() + 1,
            final(self).stage == old(self).stage,
            final(self).authorization.requests == old(self).authorization.requests + if old(
                self,
            ).stage == PullStage::Authorization {
                1int
            } else {
                0int
            },
            final(self).records.requests == old(self).records.requests + if old(self).stage
                == PullStage::Records {
                1int
            } else {
                0int
            },
            final(self).inventory_requests == old(self).inventory_requests + if old(self).stage
                == PullStage::Inventory {
                1int
            } else {
                0int
            },
            final(self).remote == old(self).remote,
            final(self).cursor == old(self).cursor,
            final(self).hints == old(self).hints,
            final(self).authorization.missing == old(self).authorization.missing,
            final(self).authorization.complete == old(self).authorization.complete,
            final(self).authorization.deferred == old(self).authorization.deferred,
            final(self).records.missing == old(self).records.missing,
            final(self).records.complete == old(self).records.complete,
            final(self).budget.response_bytes == old(self).budget.response_bytes,
            match (final(self).inventory, old(self).inventory) {
                (Some(after), Some(before)) => after == (InventoryPull {
                    requests: (before.requests + 1) as usize,
                    ..before
                }),
                (None, None) => true,
                _ => false,
            },
    {
        match self.stage {
            PullStage::Authorization => self.authorization.requested(&mut self.budget),
            PullStage::Records => self.records.requested(&mut self.budget),
            PullStage::Inventory => {
                let mut inventory: Option<InventoryPull> = None;
                core::mem::swap(&mut self.inventory, &mut inventory);
                if let Some(mut pull) = inventory {
                    pull.requested();
                    self.inventory = Some(pull);
                    self.inventory_requests = self.inventory_requests + 1;
                }
            },
            PullStage::Done => {},
        }
    }

    /// Take an answer to a request for authorization evidence.
    pub fn received_evidence(
        &mut self,
        local: &CollectionRepairOverlay,
        response: &PatchNodeResponse,
        node_valid: bool,
        candidate: Result<CapabilityProof, CapabilityProofError>,
    ) -> (result: Result<(), PullError>)
        requires
            old(self).well_formed(),
            old(self).stage == PullStage::Authorization,
            wire_len(*response) <= usize::MAX,
        ensures
            final(self).well_formed(),
            ({
                let step = evidence_step(*local, *response, node_valid, candidate);
                let authorization = final(self).authorization;
                &&& result == step.0
                &&& proof_states(authorization.missing@) == if step.1 {
                    proof_states(old(self).authorization.missing@).push((candidate->Ok_0)@)
                } else {
                    proof_states(old(self).authorization.missing@)
                }
                &&& authorization.deferred == (old(self).authorization.deferred || step.2)
                &&& *final(self) == (CollectionPull {
                    authorization: AuthorizationPull {
                        requests: old(self).authorization.requests,
                        complete: old(self).authorization.complete,
                        ..authorization
                    },
                    budget: old(self).budget.after(*response),
                    ..*old(self)
                })
            }),
    {
        self.authorization.received(&mut self.budget, local, response, node_valid, candidate)
    }

    /// Take an answer to a request for records.
    pub fn received_record(
        &mut self,
        local: &CollectionRepairOverlay,
        response: &PatchNodeResponse,
        node_valid: bool,
        decoded: Result<CollectionRecord, RecordDecodeError>,
    ) -> (result: Result<(), PullError>)
        requires
            old(self).well_formed(),
            old(self).stage == PullStage::Records,
            wire_len(*response) <= usize::MAX,
        ensures
            final(self).well_formed(),
            ({
                let step = record_step(*local, *response, node_valid, decoded);
                let records = final(self).records;
                &&& result == step.0
                &&& record_states(records.missing@) == if step.1 {
                    record_states(old(self).records.missing@).push((decoded->Ok_0)@)
                } else {
                    record_states(old(self).records.missing@)
                }
                &&& *final(self) == (CollectionPull {
                    records: RecordPull {
                        requests: old(self).records.requests,
                        complete: old(self).records.complete,
                        ..records
                    },
                    budget: old(self).budget.after(*response),
                    ..*old(self)
                })
            }),
    {
        self.records.received(&mut self.budget, local, response, node_valid, decoded)
    }

    /// Take an answer to a request for the inventory.
    pub fn received_hint(&mut self, response: &PatchNodeResponse, node_valid: bool) -> (result:
        Result<(), PullError>)
        requires
            old(self).well_formed(),
            old(self).stage == PullStage::Inventory,
            wire_len(*response) <= usize::MAX,
        ensures
            final(self).well_formed(),
            result == hint_result(*response, node_valid),
            *final(self) == (CollectionPull {
                inventory: final(self).inventory,
                budget: old(self).budget.after(*response),
                ..*old(self)
            }),
            (final(self).inventory->0).hinted(old(self).inventory->0, *response, result is Ok),
    {
        let mut inventory: Option<InventoryPull> = None;
        core::mem::swap(&mut self.inventory, &mut inventory);
        match inventory {
            Some(mut pull) => {
                let result = pull.received(&mut self.budget, response, node_valid);
                self.inventory = Some(pull);
                result
            },
            None => Ok(()),
        }
    }

    /// Leave a stage because its walk has ended or because nothing more may be
    /// asked for. The inventory is taken up where an earlier session left it.
    pub fn next_stage(&mut self, local: &CollectionRepairOverlay, walk_ended: bool)
        requires
            old(self).well_formed(),
            old(self).stage != PullStage::Done,
        ensures
            final(self).well_formed(),
            final(self).remote == old(self).remote,
            final(self).budget == old(self).budget,
            final(self).authorization.requests == old(self).authorization.requests,
            final(self).authorization.missing == old(self).authorization.missing,
            final(self).authorization.deferred == old(self).authorization.deferred,
            final(self).records.requests == old(self).records.requests,
            final(self).records.missing == old(self).records.missing,
            final(self).inventory_requests == old(self).inventory_requests,
            match old(self).stage {
                PullStage::Authorization => {
                    &&& final(self).stage == PullStage::Records
                    &&& final(self).authorization.complete == (old(self).authorization.complete
                        || walk_ended)
                    &&& final(self).records.complete == old(self).records.complete
                    &&& final(self).cursor == old(self).cursor
                },
                PullStage::Records => {
                    &&& final(self).stage == PullStage::Inventory
                    &&& final(self).authorization.complete == old(self).authorization.complete
                    &&& final(self).records.complete == (old(self).records.complete || walk_ended)
                    &&& final(self).inventory matches Some(inventory) && inventory.takes_up(
                        old(self).cursor,
                        *local,
                        old(self).remote.resident_blobs,
                    ) && inventory.started_bytes == old(self).budget.response_bytes
                },
                PullStage::Inventory => {
                    &&& final(self).stage == PullStage::Done
                    &&& final(self).authorization.complete == old(self).authorization.complete
                    &&& final(self).records.complete == old(self).records.complete
                    &&& final(self).hints == Some(
                        (
                            (old(self).inventory->0).missing,
                            if walk_ended {
                                (old(self).inventory->0).cursor_after_walk()
                            } else {
                                Some((old(self).inventory->0).cursor)
                            },
                        ),
                    )
                },
                PullStage::Done => true,
            },
    {
        match self.stage {
            PullStage::Authorization => {
                if walk_ended {
                    self.authorization.walk_ended();
                }
                self.stage = PullStage::Records;
            },
            PullStage::Records => {
                if walk_ended {
                    self.records.walk_ended();
                }
                let mut cursor: Option<InventoryRepairCursor> = None;
                core::mem::swap(&mut self.cursor, &mut cursor);
                self.inventory = Some(
                    InventoryPull::begin(cursor, local, self.remote.resident_blobs, &self.budget),
                );
                self.stage = PullStage::Inventory;
            },
            PullStage::Inventory => {
                let mut inventory: Option<InventoryPull> = None;
                core::mem::swap(&mut self.inventory, &mut inventory);
                if let Some(pull) = inventory {
                    self.hints = Some(
                        if walk_ended {
                            pull.walk_ended()
                        } else {
                            pull.suspended()
                        },
                    );
                }
                self.stage = PullStage::Done;
            },
            PullStage::Done => {},
        }
    }

    /// What the session found.
    pub fn finish(self, compared_at: Mono, local: &CollectionRepairOverlay) -> (delta:
        CollectionRepairDelta)
        requires
            self.well_formed(),
            self.stage == PullStage::Done,
        ensures
            delta.compared_at == compared_at,
            is_manifest(delta.local, *local),
            delta.remote == self.remote,
            delta.records == self.records.missing,
            delta.authorization_evidence == self.authorization.missing,
            self.hints == Some((delta.blob_handles, delta.inventory_cursor)),
            delta.more == leaves_more(
                self.authorization.complete,
                self.authorization.deferred,
                self.records.complete,
            ),
    {
        let hints = match self.hints {
            Some(hints) => hints,
            None => (Vec::new(), None),
        };
        CollectionRepairDelta::new(
            compared_at,
            local,
            self.remote,
            self.authorization,
            self.records,
            hints,
        )
    }
}

/// A client stays within the budget of the server: all its requests and its
/// closing command are taken.
pub proof fn law_client_fits_server_budget(pull: CollectionPull)
    requires
        pull.well_formed(),
    ensures
        pull.asked() + 1 <= MAX_SERVER_REPAIR_COMMANDS,
{
}

/// Authorization never consumes the whole stream: when it ends, more than half
/// of the requests are left, and unless its last answer was larger than all that
/// is allowed, records can be asked for.
pub proof fn law_authorization_leaves_room_for_records(
    pull: CollectionPull,
)
    requires
        pull.well_formed(),
        pull.stage == PullStage::Authorization,
    ensures
        2 * pull.budget.remaining_requests > MAX_SEMANTIC_REPAIR_NODE_REQUESTS,
        pull.budget.response_bytes < MAX_SEMANTIC_NODE_RESPONSE_BYTES ==> pull.records.may_request(
            pull.budget,
        ),
{
}

/// What a walk has visited only grows, and includes every key it came to.
pub proof fn law_visited_only_grows(visited: Option<RawHash>, key: RawHash)
    ensures
        furthest(visited, key) is Some,
        at_most(key, furthest(visited, key)),
        visited matches Some(prior) ==> at_most(prior, furthest(visited, key)),
{
}

/// The handle that a key of 32 bytes is.
pub open spec fn handle_of(key: Seq<u8>) -> RawHash {
    choose|handle: RawHash| #[trigger] handle@ == key
}

/// The leaves among the answers of a walk, in order.
pub open spec fn leaves(answers: Seq<PatchNodeResponse>) -> Seq<RawHash>
    decreases answers.len(),
{
    if answers.len() == 0 {
        Seq::empty()
    } else {
        let front = leaves(answers.drop_last());
        match leaf_key(answers.last()) {
            Some(key) => front.push(handle_of(key)),
            None => front,
        }
    }
}

/// The handles that are not held, in order.
pub open spec fn not_held(handles: Seq<RawHash>, held: Set<RawHash>) -> Seq<RawHash>
    decreases handles.len(),
{
    if handles.len() == 0 {
        Seq::empty()
    } else {
        let front = not_held(handles.drop_last(), held);
        if held.contains(handles.last()) {
            front
        } else {
            front.push(handles.last())
        }
    }
}

/// Whether handles stand in strictly ascending order.
pub open spec fn ascending_handles(handles: Seq<RawHash>) -> bool {
    forall|i: int, j: int|
        0 <= i < j < handles.len() ==> rank(#[trigger] handles[i]) < rank(#[trigger] handles[j])
}

impl InventoryPull {
    /// With one more request charged.
    pub open spec fn asking(self) -> InventoryPull {
        InventoryPull { requests: (self.requests + 1) as usize, ..self }
    }
}

/// The inventory part of one session: its accepted answers, and the pull and the
/// budget before and after each of them.
pub struct InventorySession {
    pub pulls: Seq<InventoryPull>,
    pub budgets: Seq<PullBudget>,
    pub answers: Seq<PatchNodeResponse>,
}

impl InventorySession {
    /// Where the inventory was taken up.
    pub open spec fn begun(self) -> InventoryPull {
        self.pulls[0]
    }

    /// Where the inventory was left.
    pub open spec fn ended(self) -> InventoryPull {
        self.pulls[self.answers.len() as int]
    }

    /// Whether answer `i` was asked for while that was allowed, was accepted, and
    /// leads from one pull to the next.
    pub open spec fn steps(self, i: int) -> bool {
        &&& self.pulls[i].may_request(self.budgets[i])
        &&& hint_result(self.answers[i], true) is Ok
        &&& self.pulls[i + 1].hinted(self.pulls[i].asking(), self.answers[i], true)
        &&& self.budgets[i + 1] == self.budgets[i].after(self.answers[i])
    }

    /// Whether the session is what a pull makes of its answers.
    pub open spec fn well_formed(self) -> bool {
        &&& self.pulls.len() == self.budgets.len() == self.answers.len() + 1
        &&& self.begun().started_bytes == self.budgets[0].response_bytes
        &&& forall|i: int| 0 <= i < self.answers.len() ==> #[trigger] self.steps(i)
    }

    /// Whether evidence and records left room for an answer.
    pub open spec fn starts_with_room(self) -> bool {
        self.budgets[0].response_bytes < MAX_SERVER_NODE_RESPONSE_BYTES
    }

    /// Whether a session on the inventory that was local at first stayed within its
    /// bounds, and leaves that inventory as the one to compare with.
    pub open spec fn left_for(self, local: CollectionRepairOverlay, remote: PatchSummary) -> bool {
        let cursor = self.ended().cursor;
        &&& cursor.collection == local.collection
        &&& cursor.remote == remote
        &&& cursor.local@ == local.blob_inventory@
        &&& cursor.resume_after is None
        &&& !cursor.wrap
        &&& self.begun().requests == 0
        &&& self.ended().requests == self.answers.len() <= MAX_BLOB_INVENTORY_NODE_REQUESTS
        &&& self.ended().missing@.len() <= self.answers.len()
    }

    /// Whether another node might be asked for in the end.
    pub open spec fn has_room(self) -> bool {
        self.ended().may_request(self.budgets[self.answers.len() as int])
    }
}

/// Whether sessions follow one another on one unchanged remote inventory: the
/// first without a cursor, each later one with the cursor of the one before, which
/// was left because nothing more might be asked for.
pub open spec fn consecutive(
    sessions: Seq<InventorySession>,
    locals: Seq<CollectionRepairOverlay>,
    remote: PatchSummary,
) -> bool {
    &&& 0 < sessions.len() == locals.len()
    &&& forall|i: int|
        0 <= i < locals.len() ==> (#[trigger] locals[i]).collection == locals[0].collection
    &&& sessions[0].begun().takes_up(None, locals[0], remote)
    &&& forall|i: int|
        0 < i < sessions.len() ==> (#[trigger] sessions[i]).begun().takes_up(
            Some(sessions[i - 1].ended().cursor),
            locals[i],
            remote,
        )
    &&& forall|i: int| 0 <= i < sessions.len() ==> (#[trigger] sessions[i]).well_formed()
    &&& forall|i: int| 0 <= i < sessions.len() - 1 ==> !(#[trigger] sessions[i]).has_room()
}

/// The answers of all sessions, in order.
pub open spec fn all_answers(sessions: Seq<InventorySession>) -> Seq<PatchNodeResponse>
    decreases sessions.len(),
{
    if sessions.len() == 0 {
        Seq::empty()
    } else {
        all_answers(sessions.drop_last()) + sessions.last().answers
    }
}

/// The hints of all sessions, in order.
pub open spec fn all_hints(sessions: Seq<InventorySession>) -> Seq<RawHash>
    decreases sessions.len(),
{
    if sessions.len() == 0 {
        Seq::empty()
    } else {
        all_hints(sessions.drop_last()) + sessions.last().ended().missing@
    }
}

/// A handle is the handle of its own bytes.
pub proof fn lemma_handle_of(handle: RawHash)
    ensures
        handle_of(handle@) == handle,
{
    let chosen = handle_of(handle@);
    assert(handle@ == handle@);
    assert(chosen@ == handle@);
    lemma_same_bytes(chosen, handle);
}

/// Leaving out what is held keeps the rest of two lists in order.
proof fn lemma_not_held_concat(a: Seq<RawHash>, b: Seq<RawHash>, held: Set<RawHash>)
    ensures
        not_held(a + b, held) == not_held(a, held) + not_held(b, held),
    decreases b.len(),
{
    if b.len() == 0 {
        assert(a + b =~= a);
        assert(not_held(a, held) + not_held(b, held) =~= not_held(a, held));
    } else {
        assert((a + b).drop_last() =~= a + b.drop_last());
        lemma_not_held_concat(a, b.drop_last(), held);
        assert(not_held(a + b, held) =~= not_held(a, held) + not_held(b, held));
    }
}

proof fn lemma_leaves_concat(a: Seq<PatchNodeResponse>, b: Seq<PatchNodeResponse>)
    ensures
        leaves(a + b) == leaves(a) + leaves(b),
    decreases b.len(),
{
    if b.len() == 0 {
        assert(a + b =~= a);
        assert(leaves(a) + leaves(b) =~= leaves(a));
    } else {
        assert((a + b).drop_last() =~= a + b.drop_last());
        lemma_leaves_concat(a, b.drop_last());
        assert(leaves(a + b) =~= leaves(a) + leaves(b));
    }
}

/// Leaving out what is held leaves the others, in the same order.
proof fn lemma_not_held(handles: Seq<RawHash>, held: Set<RawHash>)
    ensures
        forall|handle: RawHash| #[trigger]
            not_held(handles, held).contains(handle) <==> handles.contains(handle)
                && !held.contains(handle),
        ascending_handles(handles) ==> ascending_handles(not_held(handles, held)),
        not_held(handles, held).len() <= handles.len(),
    decreases handles.len(),
{
    if handles.len() > 0 {
        let front = handles.drop_last();
        let last = handles.last();
        let kept = not_held(front, held);
        let all = not_held(handles, held);
        lemma_not_held(front, held);
        assert forall|handle: RawHash| #[trigger] all.contains(handle) <==> handles.contains(handle)
            && !held.contains(handle) by {
            assert(kept.contains(handle) <==> front.contains(handle) && !held.contains(handle));
            assert(handles.contains(handle) <==> front.contains(handle) || handle == last) by {
                if handles.contains(handle) {
                    let i = choose|i: int| 0 <= i < handles.len() && handles[i] == handle;
                    if i < front.len() {
                        assert(front[i] == handle);
                    }
                }
                if front.contains(handle) {
                    let i = choose|i: int| 0 <= i < front.len() && front[i] == handle;
                    assert(handles[i] == handle);
                }
                assert(handles[handles.len() - 1] == last);
            }
            if !held.contains(last) {
                assert(all == kept.push(last));
                if all.contains(handle) {
                    let i = choose|i: int| 0 <= i < all.len() && all[i] == handle;
                    if i < kept.len() {
                        assert(kept[i] == handle);
                    }
                }
                if kept.contains(handle) {
                    let i = choose|i: int| 0 <= i < kept.len() && kept[i] == handle;
                    assert(all[i] == handle);
                }
                assert(all[kept.len() as int] == last);
            }
        }
        if ascending_handles(handles) {
            assert forall|i: int, j: int| 0 <= i < j < front.len() implies rank(#[trigger] front[i])
                < rank(#[trigger] front[j]) by {
                assert(rank(handles[i]) < rank(handles[j]));
            }
            assert forall|i: int, j: int| 0 <= i < j < all.len() implies rank(#[trigger] all[i])
                < rank(#[trigger] all[j]) by {
                if j < kept.len() {
                    assert(rank(kept[i]) < rank(kept[j]));
                } else {
                    assert(all[i] == kept[i] && all[j] == last);
                    assert(kept.contains(kept[i]));
                    let k = choose|k: int| 0 <= k < front.len() && front[k] == kept[i];
                    assert(rank(handles[k]) < rank(handles[handles.len() - 1]));
                }
            }
        }
    }
}

/// What a session without a bound adds: every leaf that is not held.
proof fn lemma_session(session: InventorySession, count: int)
    requires
        session.well_formed(),
        session.begun().cursor.resume_after is None,
        session.begun().requests == 0,
        session.begun().missing@.len() == 0,
        0 <= count <= session.answers.len(),
    ensures
        session.pulls[count].missing@ == not_held(
            leaves(session.answers.take(count)),
            session.begun().cursor.local@.dom(),
        ),
        session.pulls[count].cursor == (InventoryRepairCursor {
            visited: session.pulls[count].cursor.visited,
            ..session.begun().cursor
        }),
        session.pulls[count].requests == count,
        count <= MAX_BLOB_INVENTORY_NODE_REQUESTS,
        leaves(session.answers.take(count)).len() <= count,
    decreases count,
{
    let held = session.begun().cursor.local@.dom();
    let answers = session.answers.take(count);
    if count == 0 {
        assert(session.pulls[0].missing@ =~= not_held(leaves(answers), held));
    } else {
        let front = session.answers.take(count - 1);
        let last = session.answers[count - 1];
        let pull = session.pulls[count - 1];
        let ended = session.pulls[count];
        assert(answers.drop_last() =~= front);
        assert(answers.last() == last);
        lemma_session(session, count - 1);
        assert(session.steps(count - 1));
        assert(ended.hinted(pull.asking(), last, true));
        if leaf_key(last) is Some {
            let handle = choose|handle: RawHash|
                {
                    &&& #[trigger] handle@ == leaf_key(last)->0
                    &&& ended.cursor.visited == furthest(pull.asking().cursor.visited, handle)
                    &&& ended.missing@ == if at_most(handle, pull.asking().cursor.resume_after)
                        || pull.asking().cursor.local@.contains_key(handle) {
                        pull.asking().missing@
                    } else {
                        pull.asking().missing@.push(handle)
                    }
                };
            lemma_handle_of(handle);
            assert(leaves(answers) == leaves(front).push(handle));
            assert(leaves(answers).drop_last() =~= leaves(front));
            assert(leaves(answers).last() == handle);
        }
    }
}

/// The sessions so far hint at every leaf that was not held at first.
proof fn lemma_sessions(
    sessions: Seq<InventorySession>,
    locals: Seq<CollectionRepairOverlay>,
    remote: PatchSummary,
    count: int,
)
    requires
        consecutive(sessions, locals, remote),
        0 < count <= sessions.len(),
    ensures
        sessions[count - 1].left_for(locals[0], remote),
        all_hints(sessions.take(count)) == not_held(
            leaves(all_answers(sessions.take(count))),
            locals[0].blob_inventory@.dom(),
        ),
        (forall|i: int| 0 <= i < sessions.len() ==> (#[trigger] sessions[i]).starts_with_room())
            ==> count - 1 <= all_answers(sessions.take(count - 1)).len(),
    decreases count,
{
    let held = locals[0].blob_inventory@.dom();
    let last = sessions[count - 1];
    let before = sessions.take(count - 1);
    let all = sessions.take(count);
    assert(all.drop_last() =~= before);
    assert(all.last() == last);
    assert(locals[count - 1].collection == locals[0].collection);
    assert(last.well_formed());
    if count > 1 {
        lemma_sessions(sessions, locals, remote, count - 1);
        let previous = sessions[count - 2];
        assert(previous.well_formed());
        assert(last.begun().takes_up(Some(previous.ended().cursor), locals[count - 1], remote));
        assert(!previous.has_room());
        assert(previous.starts_with_room() ==> previous.answers.len() > 0);
        assert(before.drop_last() =~= sessions.take(count - 2));
        assert(before.last() == previous);
    } else {
        assert(before =~= Seq::empty());
    }
    let end = last.answers.len() as int;
    lemma_session(last, end);
    assert(last.answers.take(end) =~= last.answers);
    lemma_not_held(leaves(last.answers), held);
    lemma_leaves_concat(all_answers(before), last.answers);
    lemma_not_held_concat(leaves(all_answers(before)), leaves(last.answers), held);
    assert(all_answers(all) == all_answers(before) + last.answers);
    assert(all_hints(all) == all_hints(before) + last.ended().missing@);
    assert(last.ended().missing@ == not_held(leaves(last.answers), held));
    if count == 1 {
        assert(all_hints(before) =~= not_held(leaves(all_answers(before)), held));
    }
}

/// Over all sessions of one cursor on one unchanged remote inventory, whose walk
/// hands its leaves in ascending order, no handle is hinted at twice, and the
/// hints are exactly the remote handles that were not held locally at first.
/// Each session asks for and hints at a bounded number, and the end of the walk
/// leaves no cursor. Where evidence and records leave room in each session, there
/// are no more sessions than nodes of the walk, and one to notice its end.
pub proof fn law_sessions_hint_at_what_is_missing(
    sessions: Seq<InventorySession>,
    locals: Seq<CollectionRepairOverlay>,
    remote: PatchSummary,
    resident: Set<RawHash>,
)
    requires
        consecutive(sessions, locals, remote),
        ascending_handles(leaves(all_answers(sessions))),
        forall|handle: RawHash| #[trigger]
            leaves(all_answers(sessions)).contains(handle) ==> resident.contains(handle),
        forall|handle: RawHash| #[trigger]
            resident.contains(handle) && !locals[0].blob_inventory@.contains_key(handle)
                ==> leaves(all_answers(sessions)).contains(handle),
    ensures
        ascending_handles(all_hints(sessions)),
        all_hints(sessions).no_duplicates(),
        forall|handle: RawHash| #[trigger]
            all_hints(sessions).contains(handle) <==> resident.contains(handle)
                && !locals[0].blob_inventory@.contains_key(handle),
        forall|i: int|
            0 <= i < sessions.len() ==> (#[trigger] sessions[i]).ended().requests
                <= MAX_BLOB_INVENTORY_NODE_REQUESTS && sessions[i].ended().missing@.len()
                <= MAX_BLOB_INVENTORY_NODE_REQUESTS && sessions[i].ended().cursor.local@
                == locals[0].blob_inventory@,
        (forall|i: int| 0 <= i < sessions.len() ==> (#[trigger] sessions[i]).starts_with_room())
            ==> sessions.len() <= all_answers(sessions).len() + 1,
        sessions.last().ended().cursor_after_walk() is None,
{
    let held = locals[0].blob_inventory@.dom();
    let count = sessions.len() as int;
    lemma_sessions(sessions, locals, remote, count);
    assert(sessions.take(count) =~= sessions);
    assert(sessions.last().left_for(locals[0], remote));
    assert(sessions.take(count - 1) =~= sessions.drop_last());
    let handed = leaves(all_answers(sessions));
    let hints = all_hints(sessions);
    lemma_not_held(handed, held);
    assert(hints.no_duplicates()) by {
        assert forall|i: int, j: int|
            0 <= i < hints.len() && 0 <= j < hints.len() && i != j implies hints[i] != hints[j] by {
            if i < j {
                assert(rank(hints[i]) < rank(hints[j]));
            } else {
                assert(rank(hints[j]) < rank(hints[i]));
            }
        }
    }
    assert forall|handle: RawHash| #[trigger] hints.contains(handle) <==> resident.contains(handle)
        && !locals[0].blob_inventory@.contains_key(handle) by {
        assert(hints.contains(handle) <==> handed.contains(handle) && !held.contains(handle));
    }
    assert forall|i: int| 0 <= i < sessions.len() implies (#[trigger] sessions[i]).ended().requests
        <= MAX_BLOB_INVENTORY_NODE_REQUESTS && sessions[i].ended().missing@.len()
        <= MAX_BLOB_INVENTORY_NODE_REQUESTS && sessions[i].ended().cursor.local@
        == locals[0].blob_inventory@ by {
        lemma_sessions(sessions, locals, remote, i + 1);
    }
}

} // verus!
