//! Exact per-collection semantic repair state.
//!
//! Collection records and authorization proofs are independent grow-only sets.
//! A newly arrived proof may activate an old commit or admit a new reader
//! without changing the records. A collection wake commits to both and to its
//! pinned positive resident-blob inventory, without disclosing those handles.
//! The authorization projection contains byte-valid proofs for the exact
//! collection and its configured roots. Whether a capability definition is
//! resident determines authority, not membership.

use vstd::prelude::*;
use vstd::string::{StrSliceExecFns, StringExecFns, StringSliceAdditionalSpecFns};

use crate::bytes::{copy_bytes, same_bytes};
use crate::collection_blob_inventory::ResidentBlobPatch;
use crate::collection_delta::{
    canonical, collection_record_patch, record_states, CollectionRecord, CollectionRecordPatch,
    CollectionRecordPatchError, RecordDecodeError,
};
use crate::hash::{blake3_hash, hash};
use crate::hex_text::{encode, encode_upper, hex_text, hex_text_upper};
use crate::encoded::{
    decoded, lemma_decoded, lemma_decoded_empty, lemma_decoded_insert, lists_exactly, unambiguous,
};
use crate::key_map::{lists_keys, KeyMap};
use crate::keys::{
    be_bytes, lemma_be_bytes, lemma_eight_bytes, lemma_same_bytes, rank, same, u32_bytes,
    u64_bytes, zero_key,
};
use crate::patch_summary::{lemma_summary_equal, PatchSummary};
use crate::segments::{holds_joined, is_joined, join, second_segments};

verus! {

/// A public key that may sign or be granted something.
pub type VerifyingKey = [u8; 32];

/// One signed step of a capability proof: what is granted, and to whom.
#[derive(Clone, Copy, Debug, PartialEq, Eq)]
pub struct ProofLink {
    pub capability: [u8; 32],
    pub subject: VerifyingKey,
}

/// Why bytes are no proof, or why the signatures of one do not hold.
#[derive(Clone, Copy, Debug, PartialEq, Eq, Structural)]
pub enum CapabilityProofError {
    /// The bytes are not one complete proof.
    Encoding,
    /// The signature of one step is invalid.
    InvalidSignature { index: usize },
}

/// One self-contained capability proof: the resource it names, the key it
/// starts at, its signed steps, and its canonical bytes. The identity is the
/// hash of the bytes; `signature_error` tells where the signed chain breaks, if it
/// does.
#[derive(Debug, PartialEq, Eq)]
pub struct CapabilityProof {
    pub id: [u8; 32],
    pub resource: [u8; 32],
    pub root_key: VerifyingKey,
    pub links: Vec<ProofLink>,
    pub bytes: Vec<u8>,
    pub signature_error: Option<CapabilityProofError>,
}

/// A proof as a value.
pub struct ProofState {
    pub id: [u8; 32],
    pub resource: [u8; 32],
    pub root_key: VerifyingKey,
    pub links: Seq<ProofLink>,
    pub bytes: Seq<u8>,
    pub signature_error: Option<CapabilityProofError>,
}

impl View for CapabilityProof {
    type V = ProofState;

    open spec fn view(&self) -> ProofState {
        ProofState {
            id: self.id,
            resource: self.resource,
            root_key: self.root_key,
            links: self.links@,
            bytes: self.bytes@,
            signature_error: self.signature_error,
        }
    }
}

impl Clone for CapabilityProof {
    fn clone(&self) -> (copy: Self)
        ensures
            copy@ == self@,
    {
        let mut links: Vec<ProofLink> = Vec::new();
        let mut i: usize = 0;
        while i < self.links.len()
            invariant
                i <= self.links@.len(),
                links@ == self.links@.take(i as int),
            decreases self.links@.len() - i,
        {
            links.push(self.links[i]);
            i = i + 1;
            assert(self.links@.take(i as int) =~= self.links@.take(i - 1).push(self.links@[i - 1]));
        }
        assert(links@ =~= self.links@);
        CapabilityProof {
            id: self.id,
            resource: self.resource,
            root_key: self.root_key,
            links,
            bytes: copy_bytes(&self.bytes),
            signature_error: self.signature_error,
        }
    }
}

fn same_links(a: &[ProofLink], b: &[ProofLink]) -> (equal: bool)
    ensures
        equal == (a@ == b@),
{
    if a.len() != b.len() {
        return false;
    }
    let mut i: usize = 0;
    while i < a.len()
        invariant
            i <= a@.len() == b@.len(),
            forall|j: int| 0 <= j < i ==> a@[j] == b@[j],
        decreases a@.len() - i,
    {
        if !same(&a[i].capability, &b[i].capability) || !same(&a[i].subject, &b[i].subject) {
            return false;
        }
        i = i + 1;
    }
    assert(a@ =~= b@);
    true
}

/// Whether a key is in a list.
fn holds_key(keys: &[VerifyingKey], key: &VerifyingKey) -> (found: bool)
    ensures
        found == keys@.contains(*key),
{
    let mut i: usize = 0;
    while i < keys.len()
        invariant
            i <= keys@.len(),
            forall|j: int| 0 <= j < i ==> keys@[j] != *key,
        decreases keys@.len() - i,
    {
        if same(&keys[i], key) {
            assert(keys@[i as int] == *key);
            return true;
        }
        i = i + 1;
    }
    false
}

impl CapabilityProof {
    /// Whether two proofs are the same.
    pub fn agrees(&self, other: &Self) -> (equal: bool)
        ensures
            equal == (self@ == other@),
    {
        if !same(&self.id, &other.id) || !same(&self.resource, &other.resource) || !same(
            &self.root_key,
            &other.root_key,
        ) || !same_bytes(&self.bytes, &other.bytes) {
            return false;
        }
        let signatures = match (self.signature_error, other.signature_error) {
            (None, None) => true,
            (Some(a), Some(b)) => a == b,
            _ => false,
        };
        if !signatures {
            return false;
        }
        same_links(&self.links, &other.links)
    }

    /// Whether some step of the proof grants something to `subject`.
    pub fn reaches(&self, subject: &VerifyingKey) -> (reaches: bool)
        ensures
            reaches == proof_reaches(self@, *subject),
    {
        let mut i: usize = 0;
        while i < self.links.len()
            invariant
                i <= self.links@.len(),
                forall|j: int| 0 <= j < i ==> (#[trigger] self.links@[j]).subject != *subject,
            decreases self.links@.len() - i,
        {
            if same(&self.links[i].subject, subject) {
                assert(self@.links[i as int].subject == *subject);
                return true;
            }
            i = i + 1;
        }
        false
    }
}

/// Whether some step of a proof grants something to `subject`.
pub open spec fn proof_reaches(proof: ProofState, subject: VerifyingKey) -> bool {
    exists|i: int| 0 <= i < proof.links.len() && (#[trigger] proof.links[i]).subject == subject
}

/// Who may do something: anybody, or whoever enough of the roots have granted it.
#[derive(Debug, PartialEq, Eq)]
pub enum AdmissionPolicy {
    Open,
    Quorum { roots: Vec<VerifyingKey>, threshold: u32 },
}

/// Whether `root` is one of the roots of a policy.
pub open spec fn relevant(policy: AdmissionPolicy, root: VerifyingKey) -> bool {
    match policy {
        AdmissionPolicy::Open => false,
        AdmissionPolicy::Quorum { roots, .. } => roots@.contains(root),
    }
}

/// Whether `root` is one of the roots of a policy.
fn root_is_relevant(policy: &AdmissionPolicy, root: &VerifyingKey) -> (found: bool)
    ensures
        found == relevant(*policy, *root),
{
    match policy {
        AdmissionPolicy::Open => false,
        AdmissionPolicy::Quorum { roots, .. } => holds_key(roots, root),
    }
}

/// Whether `root` is a root of one of the policies.
pub open spec fn any_relevant(policies: Seq<AdmissionPolicy>, root: VerifyingKey) -> bool {
    exists|i: int| 0 <= i < policies.len() && relevant(#[trigger] policies[i], root)
}

fn some_root_is_relevant(policies: &[AdmissionPolicy], root: &VerifyingKey) -> (found: bool)
    ensures
        found == any_relevant(policies@, *root),
{
    let mut i: usize = 0;
    while i < policies.len()
        invariant
            i <= policies@.len(),
            forall|j: int| 0 <= j < i ==> !relevant(#[trigger] policies@[j], *root),
        decreases policies@.len() - i,
    {
        if root_is_relevant(&policies[i], root) {
            assert(relevant(policies@[i as int], *root));
            return true;
        }
        i = i + 1;
    }
    false
}

/// Whether one of the policies is open.
pub open spec fn any_open(policies: Seq<AdmissionPolicy>) -> bool {
    exists|i: int| 0 <= i < policies.len() && #[trigger] policies[i] is Open
}

fn some_policy_is_open(policies: &[AdmissionPolicy]) -> (found: bool)
    ensures
        found == any_open(policies@),
{
    let mut i: usize = 0;
    while i < policies.len()
        invariant
            i <= policies@.len(),
            forall|j: int| 0 <= j < i ==> !(#[trigger] policies@[j] is Open),
        decreases policies@.len() - i,
    {
        if let AdmissionPolicy::Open = &policies[i] {
            assert(policies@[i as int] is Open);
            return true;
        }
        i = i + 1;
    }
    false
}

/// A proof is not collection-scoped authorization evidence.
#[derive(Clone, Copy, Debug, PartialEq, Eq)]
pub enum CollectionAuthorizationEvidenceError {
    /// Both collection policies are open and need no proof evidence.
    OpenPolicies,
    /// The proof names a different opaque resource.
    WrongResource,
    /// The subordinate resource's immutable routing descriptor is not resident.
    ResourceDescriptorUnavailable([u8; 32]),
    /// The proof starts outside all descriptor-local roots.
    WrongRoot,
    /// A signature in the prefix chain is invalid.
    Invalid(CapabilityProofError),
    /// Distinct proof values share one proof identity.
    ProofIdCollision([u8; 32]),
}

/// Whether a proof is evidence, and if not, why.
pub type EvidenceResult = Result<(), CollectionAuthorizationEvidenceError>;

/// Why a proof is no evidence for a resource under policies, if it is not: the
/// resource is checked first, then the root, then the signatures.
pub open spec fn evidence_for_policies(
    resource: [u8; 32],
    policies: Seq<AdmissionPolicy>,
    proof: ProofState,
) -> EvidenceResult {
    if proof.resource != resource {
        Err(CollectionAuthorizationEvidenceError::WrongResource)
    } else if !any_relevant(policies, proof.root_key) {
        Err(CollectionAuthorizationEvidenceError::WrongRoot)
    } else {
        match proof.signature_error {
            None => Ok(()),
            Some(error) => Err(CollectionAuthorizationEvidenceError::Invalid(error)),
        }
    }
}

/// Check a proof over the right resource, given whether some policy names its
/// root.
fn validate_evidence_for_policies(rooted: bool, proof: &CapabilityProof) -> (result: EvidenceResult)
    ensures
        forall|policies: Seq<AdmissionPolicy>|
            any_relevant(policies, proof.root_key) == rooted ==> result == #[trigger] evidence_for_policies(
                proof.resource,
                policies,
                proof@,
            ),
{
    // Header filters are cheap; they assign no authority and acquire no blobs.
    if !rooted {
        return Err(CollectionAuthorizationEvidenceError::WrongRoot);
    }
    match proof.signature_error {
        None => Ok(()),
        Some(error) => Err(CollectionAuthorizationEvidenceError::Invalid(error)),
    }
}

/// One unambiguous policy for reading and one for writing.
#[derive(Debug, PartialEq, Eq)]
pub struct CollectionPolicy {
    pub read: AdmissionPolicy,
    pub write: AdmissionPolicy,
}

/// Why a proof is no evidence for a collection under one policy for each action, if
/// it is not.
pub open spec fn evidence_for_policy(
    collection: [u8; 32],
    policy: CollectionPolicy,
    proof: ProofState,
) -> EvidenceResult {
    if policy.read is Open && policy.write is Open {
        Err(CollectionAuthorizationEvidenceError::OpenPolicies)
    } else {
        evidence_for_policies(collection, seq![policy.read, policy.write], proof)
    }
}

/// Validate byte-only proof membership for an exact resource and configured
/// root. This does not establish READ or WRITE authority without its
/// definitions.
pub fn validate_authorization_evidence_proof(
    collection: &[u8; 32],
    policy: &CollectionPolicy,
    proof: &CapabilityProof,
) -> (result: EvidenceResult)
    ensures
        result == evidence_for_policy(*collection, *policy, proof@),
{
    let read_open = match &policy.read {
        AdmissionPolicy::Open => true,
        _ => false,
    };
    let write_open = match &policy.write {
        AdmissionPolicy::Open => true,
        _ => false,
    };
    if read_open && write_open {
        return Err(CollectionAuthorizationEvidenceError::OpenPolicies);
    }
    let ghost policies = seq![policy.read, policy.write];
    proof {
        assert(policies[0] == policy.read && policies[1] == policy.write);
        if relevant(policy.read, proof.root_key) {
            assert(relevant(policies[0], proof.root_key));
        }
        if relevant(policy.write, proof.root_key) {
            assert(relevant(policies[1], proof.root_key));
        }
    }
    if !same(&proof.resource, collection) {
        return Err(CollectionAuthorizationEvidenceError::WrongResource);
    }
    let rooted = root_is_relevant(&policy.read, &proof.root_key) || root_is_relevant(
        &policy.write,
        &proof.root_key,
    );
    validate_evidence_for_policies(rooted, proof)
}

/// A policy that a descriptor binds to a capability.
#[derive(Debug, PartialEq, Eq)]
pub struct CapabilityPolicy {
    pub capability: [u8; 32],
    pub policy: AdmissionPolicy,
}

/// What a collection descriptor declares, as far as it is recognised.
#[derive(Debug)]
pub struct CollectionDescriptor {
    /// The unambiguous scalar policy, or why there is none.
    pub policy: Result<CollectionPolicy, RecordDecodeError>,
    /// Every supported capability-policy binding.
    pub capability_policies: Vec<CapabilityPolicy>,
}

/// One entity of the immutable descriptor of a subordinate resource: the
/// collections that it names, and the policies that it binds.
#[derive(Debug, PartialEq, Eq)]
pub struct ResourceEntity {
    pub collections: Vec<[u8; 32]>,
    pub policies: Vec<AdmissionPolicy>,
}

/// What the blobs resident at one observation add to a descriptor. A capability
/// definition that is resident makes a binding a READ or WRITE policy. A
/// subordinate resource whose descriptor is resident has a route: the entities of
/// that descriptor.
#[derive(Debug)]
pub struct ResidentDefinitions {
    pub read_policies: Vec<AdmissionPolicy>,
    pub write_policies: Vec<AdmissionPolicy>,
    pub routes: KeyMap<32, Vec<ResourceEntity>>,
}

/// The policies that a resource binds for a collection: those of the entities
/// that themselves name the collection. An entity that names another collection,
/// or none, routes nothing here.
pub open spec fn routed_policies(
    entities: Seq<ResourceEntity>,
    collection: [u8; 32],
) -> Seq<AdmissionPolicy>
    decreases entities.len(),
{
    if entities.len() == 0 {
        Seq::empty()
    } else {
        let front = routed_policies(entities.drop_last(), collection);
        if entities.last().collections@.contains(collection) {
            front + entities.last().policies@
        } else {
            front
        }
    }
}

/// A root is relevant to one of two lists of policies exactly if it is to their
/// concatenation.
proof fn lemma_any_relevant(a: Seq<AdmissionPolicy>, b: Seq<AdmissionPolicy>, root: VerifyingKey)
    ensures
        any_relevant(a + b, root) == (any_relevant(a, root) || any_relevant(b, root)),
{
    let all = a + b;
    if any_relevant(all, root) {
        let i = choose|i: int| 0 <= i < all.len() && relevant(#[trigger] all[i], root);
        if i < a.len() {
            assert(relevant(a[i], root));
        } else {
            assert(relevant(b[i - a.len()], root));
        }
    }
    if any_relevant(a, root) {
        let i = choose|i: int| 0 <= i < a.len() && relevant(#[trigger] a[i], root);
        assert(relevant(all[i], root));
    }
    if any_relevant(b, root) {
        let i = choose|i: int| 0 <= i < b.len() && relevant(#[trigger] b[i], root);
        assert(relevant(all[a.len() + i], root));
    }
}

/// Backlink and binding belong to the same entity: a resource routes a root to a
/// collection exactly if one of its entities both names the collection and binds a
/// policy with that root.
pub proof fn law_routes_need_one_entity(
    entities: Seq<ResourceEntity>,
    collection: [u8; 32],
    root: VerifyingKey,
)
    ensures
        any_relevant(routed_policies(entities, collection), root) <==> exists|i: int|
            0 <= i < entities.len() && (#[trigger] entities[i]).collections@.contains(collection)
                && any_relevant(entities[i].policies@, root),
    decreases entities.len(),
{
    if entities.len() > 0 {
        let front = entities.drop_last();
        let last = entities.last();
        law_routes_need_one_entity(front, collection, root);
        lemma_any_relevant(routed_policies(front, collection), last.policies@, root);
        if any_relevant(routed_policies(front, collection), root) {
            let i = choose|i: int|
                0 <= i < front.len() && (#[trigger] front[i]).collections@.contains(collection)
                    && any_relevant(front[i].policies@, root);
            assert(entities[i] == front[i]);
        }
        if last.collections@.contains(collection) && any_relevant(last.policies@, root) {
            assert(entities[entities.len() - 1] == last);
        }
        if exists|i: int|
            0 <= i < entities.len() && (#[trigger] entities[i]).collections@.contains(collection)
                && any_relevant(entities[i].policies@, root) {
            let i = choose|i: int|
                0 <= i < entities.len() && (#[trigger] entities[i]).collections@.contains(
                    collection,
                ) && any_relevant(entities[i].policies@, root);
            if i < front.len() {
                assert(front[i] == entities[i]);
            }
        }
    }
}

/// Whether a resource routes a root to a collection.
fn routes_root(entities: &[ResourceEntity], collection: &[u8; 32], root: &VerifyingKey) -> (found:
    bool)
    ensures
        found == any_relevant(routed_policies(entities@, *collection), *root),
{
    let mut found = false;
    let mut i: usize = 0;
    assert(entities@.take(0) =~= Seq::empty());
    while i < entities.len()
        invariant
            i <= entities@.len(),
            found == any_relevant(routed_policies(entities@.take(i as int), *collection), *root),
        decreases entities@.len() - i,
    {
        let entity = &entities[i];
        proof {
            let more = entities@.take(i + 1);
            assert(more.drop_last() =~= entities@.take(i as int));
            assert(more.last() == *entity);
            lemma_any_relevant(
                routed_policies(entities@.take(i as int), *collection),
                entity.policies@,
                *root,
            );
        }
        if holds_key(&entity.collections, collection) && some_root_is_relevant(
            &entity.policies,
            root,
        ) {
            found = true;
        }
        i = i + 1;
    }
    assert(entities@.take(i as int) =~= entities@);
    found
}

/// The policies that a descriptor binds.
pub open spec fn bound_policies(bindings: Seq<CapabilityPolicy>) -> Seq<AdmissionPolicy> {
    bindings.map_values(|binding: CapabilityPolicy| binding.policy)
}

/// Whether a proof is evidence for a collection, and if not, why: a proof over
/// the collection goes by the policies of its descriptor, a proof over another
/// resource by the route of that resource.
pub open spec fn evidence_check(
    collection: [u8; 32],
    bindings: Seq<CapabilityPolicy>,
    routes: Map<[u8; 32], Vec<ResourceEntity>>,
    proof: ProofState,
) -> EvidenceResult {
    if proof.resource == collection {
        evidence_for_policies(collection, bound_policies(bindings), proof)
    } else if routes.contains_key(proof.resource) {
        evidence_for_policies(
            proof.resource,
            routed_policies(routes[proof.resource]@, collection),
            proof,
        )
    } else {
        Err(CollectionAuthorizationEvidenceError::ResourceDescriptorUnavailable(proof.resource))
    }
}

/// The evidence among candidates, by proof identity: what is no evidence is
/// passed over, and different evidence of one identity is refused.
pub open spec fn collected(
    collection: [u8; 32],
    bindings: Seq<CapabilityPolicy>,
    routes: Map<[u8; 32], Vec<ResourceEntity>>,
    candidates: Seq<ProofState>,
) -> Result<Map<[u8; 32], ProofState>, CollectionAuthorizationEvidenceError>
    decreases candidates.len(),
{
    if candidates.len() == 0 {
        Ok(Map::empty())
    } else {
        let candidate = candidates.last();
        match collected(collection, bindings, routes, candidates.drop_last()) {
            Err(error) => Err(error),
            Ok(held) => if evidence_check(collection, bindings, routes, candidate) is Err {
                Ok(held)
            } else if held.contains_key(candidate.id) && held[candidate.id] != candidate {
                Err(CollectionAuthorizationEvidenceError::ProofIdCollision(candidate.id))
            } else {
                Ok(held.insert(candidate.id, candidate))
            },
        }
    }
}

/// The proofs of a list, as values.
pub open spec fn proof_states(proofs: Seq<CapabilityProof>) -> Seq<ProofState> {
    proofs.map_values(|proof: CapabilityProof| proof@)
}

/// Whether `list` holds exactly the given proofs, in the order of identities.
pub open spec fn lists_proofs(list: Seq<ProofState>, held: Map<[u8; 32], ProofState>) -> bool {
    &&& forall|i: int, j: int|
        0 <= i < j < list.len() ==> rank((#[trigger] list[i]).id) < rank((#[trigger] list[j]).id)
    &&& forall|i: int|
        0 <= i < list.len() ==> held.contains_pair((#[trigger] list[i]).id, list[i])
    &&& forall|id: [u8; 32]| #[trigger]
        held.contains_key(id) ==> exists|i: int| 0 <= i < list.len() && (#[trigger] list[i]).id
            == id
}

/// The keys that an admission policy names.
pub open spec fn policy_roots(policy: AdmissionPolicy) -> Seq<VerifyingKey> {
    match policy {
        AdmissionPolicy::Open => Seq::empty(),
        AdmissionPolicy::Quorum { roots, .. } => roots@,
    }
}

/// The keys that the bindings of a descriptor name, in order.
pub open spec fn declared_keys(bindings: Seq<CapabilityPolicy>) -> Seq<VerifyingKey>
    decreases bindings.len(),
{
    if bindings.len() == 0 {
        Seq::empty()
    } else {
        declared_keys(bindings.drop_last()) + policy_roots(bindings.last().policy)
    }
}

/// The keys that a proof names: its root, then every delegate.
pub open spec fn chain_keys(proof: ProofState) -> Seq<VerifyingKey> {
    seq![proof.root_key] + proof.links.map_values(|link: ProofLink| link.subject)
}

/// The keys that proofs name, in order.
pub open spec fn evidence_keys(proofs: Seq<ProofState>) -> Seq<VerifyingKey>
    decreases proofs.len(),
{
    if proofs.len() == 0 {
        Seq::empty()
    } else {
        evidence_keys(proofs.drop_last()) + chain_keys(proofs.last())
    }
}

/// Who may read a collection: anybody, or a finite list.
#[derive(Debug, PartialEq, Eq)]
pub enum CollectionReadAudience {
    Open,
    Restricted(Vec<VerifyingKey>),
}

/// Canonical collection-scoped set of structurally relevant authorization
/// proofs.
///
/// Keys are the collection and the proof identity, not the proof's resource: that
/// remains part of its signed bytes. Only the proofs of the selected collection
/// are exposed, never the enclosing index.
#[derive(Debug)]
pub struct CollectionAuthorizationEvidencePatch {
    pub collection: [u8; 32],
    pub descriptor: CollectionDescriptor,
    pub definitions: ResidentDefinitions,
    pub proofs: KeyMap<64, CapabilityProof>,
    /// The Merkle root of the proofs of the collection, if there are any.
    pub root: [u8; 32],
}

/// The key under which a proof is held for a collection.
pub fn evidence_key(collection: &[u8; 32], id: &[u8; 32]) -> (key: [u8; 64])
    ensures
        is_joined(key, *collection, *id),
{
    join(collection, id)
}

/// The proofs that an index holds for a collection, by identity.
pub open spec fn proofs_in(
    index: Map<[u8; 64], CapabilityProof>,
    collection: [u8; 32],
) -> Map<[u8; 32], ProofState> {
    decoded(
        index.map_values(|proof: CapabilityProof| proof@),
        |id: [u8; 32]| collection@ + id@,
    )
}

proof fn lemma_evidence_keys_unambiguous(collection: [u8; 32])
    ensures
        unambiguous(|id: [u8; 32]| collection@ + id@),
{
    let encode = |id: [u8; 32]| collection@ + id@;
    assert forall|a: [u8; 32], b: [u8; 32]| #[trigger] encode(a) == #[trigger] encode(
        b,
    ) implies a == b by {
        assert((collection@ + a@).subrange(32, 64) =~= a@);
        assert((collection@ + b@).subrange(32, 64) =~= b@);
        lemma_same_bytes(a, b);
    }
}

proof fn lemma_proof_held(
    index: Map<[u8; 64], CapabilityProof>,
    collection: [u8; 32],
    key: [u8; 64],
    id: [u8; 32],
)
    requires
        is_joined(key, collection, id),
    ensures
        proofs_in(index, collection).contains_key(id) == index.contains_key(key),
        index.contains_key(key) ==> proofs_in(index, collection)[id] == index[key]@,
{
    let values = index.map_values(|proof: CapabilityProof| proof@);
    lemma_decoded(values, |id: [u8; 32]| collection@ + id@, key, id);
    assert(values.dom() =~= index.dom());
}

impl CollectionAuthorizationEvidencePatch {
    /// The proofs held for the collection, by identity.
    pub open spec fn held(&self) -> Map<[u8; 32], ProofState> {
        proofs_in(self.proofs@, self.collection)
    }

    /// Every proof is held under its own identity.
    pub open spec fn well_formed(&self) -> bool {
        forall|id: [u8; 32]| #[trigger] self.held().contains_key(id) ==> self.held()[id].id == id
    }

    /// Whether a proof would be evidence here.
    pub open spec fn check(&self, proof: ProofState) -> EvidenceResult {
        evidence_check(
            self.collection,
            self.descriptor.capability_policies@,
            self.definitions.routes@,
            proof,
        )
    }

    /// Exact collection whose declared capabilities shaped this evidence set.
    pub fn collection(&self) -> (collection: [u8; 32])
        ensures
            collection == self.collection,
    {
        self.collection
    }

    /// Inspect one unambiguous scalar policy for diagnostics. Ordinary admission
    /// queries the capability-specific alternatives instead.
    pub fn policy(&self) -> (policy: Result<&CollectionPolicy, RecordDecodeError>)
        ensures
            match policy {
                Ok(policy) => self.descriptor.policy == Ok::<CollectionPolicy, RecordDecodeError>(
                    *policy,
                ),
                Err(error) => self.descriptor.policy == Err::<CollectionPolicy, RecordDecodeError>(
                    error,
                ),
            },
    {
        match &self.descriptor.policy {
            Ok(policy) => Ok(policy),
            Err(error) => Err(*error),
        }
    }

    /// Explicitly recognised READ policies.
    pub fn read_policies(&self) -> (policies: &Vec<AdmissionPolicy>)
        ensures
            *policies == self.definitions.read_policies,
    {
        &self.definitions.read_policies
    }

    /// Explicitly recognised WRITE policies.
    pub fn write_policies(&self) -> (policies: &Vec<AdmissionPolicy>)
        ensures
            *policies == self.definitions.write_policies,
    {
        &self.definitions.write_policies
    }

    /// Every supported capability-policy binding declared by the descriptor.
    pub fn capability_policies(&self) -> (policies: &Vec<CapabilityPolicy>)
        ensures
            *policies == self.descriptor.capability_policies,
    {
        &self.descriptor.capability_policies
    }

    fn declares_root(&self, root: &VerifyingKey) -> (found: bool)
        ensures
            found == any_relevant(bound_policies(self.descriptor.capability_policies@), *root),
    {
        let bindings = &self.descriptor.capability_policies;
        let ghost policies = bound_policies(bindings@);
        let mut i: usize = 0;
        while i < bindings.len()
            invariant
                i <= bindings@.len(),
                bindings@ == self.descriptor.capability_policies@,
                policies == bound_policies(bindings@),
                forall|j: int| 0 <= j < i ==> !relevant(#[trigger] policies[j], *root),
            decreases bindings@.len() - i,
        {
            assert(policies[i as int] == bindings@[i as int].policy);
            if root_is_relevant(&bindings[i].policy, root) {
                assert(relevant(policies[i as int], *root));
                return true;
            }
            i = i + 1;
        }
        false
    }

    /// Validate exact resource, configured root, and the signed byte chain.
    /// Capability definitions need not be resident for evidence to be repaired.
    pub fn validate_proof(&self, proof: &CapabilityProof) -> (result: EvidenceResult)
        ensures
            result == self.check(proof@),
    {
        if same(&proof.resource, &self.collection) {
            return validate_evidence_for_policies(self.declares_root(&proof.root_key), proof);
        }
        // Backlink and binding belong to the same entity of the immutable
        // descriptor. A mutable fact can neither create nor change this route.
        match self.definitions.routes.get_ref(&proof.resource) {
            Some(entities) => validate_evidence_for_policies(
                routes_root(entities, &self.collection, &proof.root_key),
                proof,
            ),
            None => Err(
                CollectionAuthorizationEvidenceError::ResourceDescriptorUnavailable(
                    proof.resource,
                ),
            ),
        }
    }

    /// Look up one exact proof by identity.
    pub fn get(&self, id: &[u8; 32]) -> (found: Option<&CapabilityProof>)
        ensures
            match found {
                Some(found) => self.held().contains_key(*id) && self.held()[*id] == found@,
                None => !self.held().contains_key(*id),
            },
    {
        let key = evidence_key(&self.collection, id);
        proof {
            lemma_proof_held(self.proofs@, self.collection, key, *id);
        }
        self.proofs.get_ref(&key)
    }

    /// The identities of the proofs held for the collection, in ascending order.
    fn ids(&self) -> (ids: Vec<[u8; 32]>)
        ensures
            lists_keys(ids@, self.held()),
            self.held().dom().finite(),
            ids@.len() == self.held().dom().len(),
    {
        let ids = second_segments(&self.proofs, &self.collection);
        proof {
            let held = self.held();
            assert forall|id: [u8; 32]| ids@.contains(id) <==> held.contains_key(id) by {
                if ids@.contains(id) {
                    let key = choose|key: [u8; 64]| #[trigger]
                        self.proofs@.contains_key(key) && is_joined(key, self.collection, id);
                    lemma_proof_held(self.proofs@, self.collection, key, id);
                }
                if held.contains_key(id) {
                    let values = self.proofs@.map_values(|proof: CapabilityProof| proof@);
                    let key = choose|key: [u8; 64]| #[trigger]
                        values.contains_key(key) && key@ == self.collection@ + id@;
                    assert(self.proofs@.contains_key(key));
                    assert(is_joined(key, self.collection, id));
                    assert(holds_joined(self.proofs@, self.collection, id));
                }
            }
            assert forall|i: int| 0 <= i < ids@.len() implies held.contains_key(
                #[trigger] ids@[i],
            ) by {
                assert(ids@.contains(ids@[i]));
            }
            assert forall|i: int, j: int|
                0 <= i < ids@.len() && 0 <= j < ids@.len() && i != j implies ids@[i] != ids@[j] by {
                if i < j {
                    assert(rank(ids@[i]) < rank(ids@[j]));
                } else {
                    assert(rank(ids@[j]) < rank(ids@[i]));
                }
            }
            ids@.unique_seq_to_set();
            vstd::seq_lib::seq_to_set_is_finite(ids@);
            assert(ids@.to_set() =~= held.dom());
        }
        ids
    }

    /// Number of distinct self-contained proofs.
    pub fn len(&self) -> (count: u64)
        ensures
            count == self.held().dom().len(),
            self.held().dom().finite(),
    {
        self.ids().len() as u64
    }

    /// Whether the projection contains no proof evidence.
    pub fn is_empty(&self) -> (empty: bool)
        ensures
            empty == (self.held() == Map::<[u8; 32], ProofState>::empty()),
    {
        let ids = self.ids();
        let empty = ids.len() == 0;
        proof {
            if empty {
                assert(self.held().dom() =~= Set::empty());
                assert(self.held() =~= Map::<[u8; 32], ProofState>::empty());
            } else {
                assert(self.held().contains_key(ids@[0]));
            }
        }
        empty
    }

    /// Every retained proof, in the order of identities.
    pub fn proofs(&self) -> (proofs: Vec<CapabilityProof>)
        requires
            self.well_formed(),
        ensures
            lists_proofs(proof_states(proofs@), self.held()),
            proofs@.len() == self.held().dom().len(),
    {
        let ids = self.ids();
        let mut proofs: Vec<CapabilityProof> = Vec::new();
        let mut i: usize = 0;
        while i < ids.len()
            invariant
                i <= ids@.len(),
                lists_keys(ids@, self.held()),
                proofs@.len() == i,
                forall|j: int| 0 <= j < i ==> (#[trigger] proofs@[j])@ == self.held()[ids@[j]],
            decreases ids@.len() - i,
        {
            assert(self.held().contains_key(ids@[i as int]));
            if let Some(proof) = self.get(&ids[i]) {
                proofs.push(proof.clone());
            }
            i = i + 1;
        }
        proof {
            let list = proof_states(proofs@);
            assert forall|i: int, j: int| 0 <= i < j < list.len() implies rank(
                (#[trigger] list[i]).id,
            ) < rank((#[trigger] list[j]).id) by {
                assert(proofs@[i]@ == self.held()[ids@[i]] && proofs@[j]@ == self.held()[ids@[j]]);
                assert(self.held().contains_key(ids@[i]) && self.held().contains_key(ids@[j]));
                assert(rank(ids@[i]) < rank(ids@[j]));
            }
            assert forall|i: int| 0 <= i < list.len() implies self.held().contains_pair(
                (#[trigger] list[i]).id,
                list[i],
            ) by {
                assert(proofs@[i]@ == self.held()[ids@[i]]);
                assert(self.held().contains_key(ids@[i]));
            }
            assert forall|id: [u8; 32]| #[trigger] self.held().contains_key(id) implies exists|
                i: int,
            |
                0 <= i < list.len() && (#[trigger] list[i]).id == id by {
                assert(ids@.contains(id));
                let i = choose|i: int| 0 <= i < ids@.len() && ids@[i] == id;
                assert(proofs@[i]@ == self.held()[ids@[i]]);
                assert(list[i].id == id);
            }
        }
        proofs
    }

    /// Root and count of the proofs of the collection.
    pub fn summary(&self) -> (summary: PatchSummary)
        ensures
            summary.leaves() == self.held().dom().len(),
            summary.root_spec() == if self.held().dom().len() == 0 {
                None
            } else {
                Some(self.root)
            },
    {
        let count: u64 = self.len();
        let root = if count == 0 {
            None
        } else {
            Some(self.root)
        };
        match PatchSummary::new(root, count) {
            Some(summary) => summary,
            None => PatchSummary::empty(),
        }
    }

    /// The prefix of an evidence key that a prefix within this collection stands
    /// for. Proof ids have 32 bytes, so longer prefixes stand for none.
    pub fn absolute_prefix(&self, prefix: &[u8]) -> (absolute: Option<Vec<u8>>)
        ensures
            match absolute {
                Some(absolute) => prefix@.len() <= 32 && absolute@ == self.collection@ + prefix@,
                None => prefix@.len() > 32,
            },
    {
        if prefix.len() > 32 {
            return None;
        }
        let mut absolute: Vec<u8> = Vec::new();
        absolute.extend_from_slice(&self.collection);
        absolute.extend_from_slice(prefix);
        assert(absolute@ =~= self.collection@ + prefix@);
        Some(absolute)
    }

    /// Plausible endpoint keys named by this collection's authority evidence.
    ///
    /// Descriptor-declared policy roots are followed by the root and every
    /// delegate of each retained proof, including intermediate issuers. These
    /// are routing hints, not authorization or evidence that an endpoint is
    /// online. Duplicates and the caller's own key are retained.
    pub fn discovery_candidates(&self) -> (keys: Vec<VerifyingKey>)
        requires
            self.well_formed(),
        ensures
            exists|proofs: Seq<ProofState>| #[trigger]
                lists_proofs(proofs, self.held()) && keys@ == declared_keys(
                    self.descriptor.capability_policies@,
                ) + evidence_keys(proofs),
    {
        let mut keys: Vec<VerifyingKey> = Vec::new();
        let bindings = &self.descriptor.capability_policies;
        let mut i: usize = 0;
        assert(bindings@.take(0) =~= Seq::empty());
        while i < bindings.len()
            invariant
                i <= bindings@.len(),
                keys@ == declared_keys(bindings@.take(i as int)),
            decreases bindings@.len() - i,
        {
            proof {
                assert(bindings@.take(i + 1).drop_last() =~= bindings@.take(i as int));
                assert(bindings@.take(i + 1).last() == bindings@[i as int]);
            }
            let ghost before = keys@;
            match &bindings[i].policy {
                AdmissionPolicy::Open => {
                    assert(before + Seq::<VerifyingKey>::empty() =~= before);
                },
                AdmissionPolicy::Quorum { roots, .. } => {
                    append_keys(&mut keys, roots);
                },
            }
            i = i + 1;
        }
        assert(bindings@.take(i as int) =~= bindings@);
        let ghost declared = keys@;
        let proofs = self.proofs();
        let ghost states = proof_states(proofs@);
        let mut j: usize = 0;
        assert(states.take(0) =~= Seq::empty());
        assert(declared + evidence_keys(states.take(0)) =~= declared);
        while j < proofs.len()
            invariant
                j <= proofs@.len(),
                states == proof_states(proofs@),
                keys@ == declared + evidence_keys(states.take(j as int)),
            decreases proofs@.len() - j,
        {
            let ghost before = keys@;
            proof {
                assert(states.take(j + 1).drop_last() =~= states.take(j as int));
                assert(states.take(j + 1).last() == proofs@[j as int]@);
            }
            append_chain(&mut keys, &proofs[j]);
            j = j + 1;
            assert(keys@ =~= declared + evidence_keys(states.take(j as int)));
        }
        assert(states.take(j as int) =~= states);
        keys
    }

    /// The same evidence, with what resident blobs define at another
    /// observation.
    pub fn with_definitions(self, definitions: ResidentDefinitions) -> (patch: Self)
        ensures
            patch == (CollectionAuthorizationEvidencePatch { definitions, ..self }),
    {
        CollectionAuthorizationEvidencePatch {
            collection: self.collection,
            descriptor: self.descriptor,
            definitions,
            proofs: self.proofs,
            root: self.root,
        }
    }

    /// The same evidence under the Merkle root that summarises it.
    pub fn with_root(self, root: [u8; 32]) -> (patch: Self)
        ensures
            patch == (CollectionAuthorizationEvidencePatch { root, ..self }),
    {
        CollectionAuthorizationEvidencePatch {
            collection: self.collection,
            descriptor: self.descriptor,
            definitions: self.definitions,
            proofs: self.proofs,
            root,
        }
    }
}

fn append_keys(keys: &mut Vec<VerifyingKey>, more: &[VerifyingKey])
    ensures
        final(keys)@ == old(keys)@ + more@,
{
    let ghost before = keys@;
    let mut i: usize = 0;
    assert(more@.take(0) =~= Seq::empty());
    while i < more.len()
        invariant
            i <= more@.len(),
            keys@ == before + more@.take(i as int),
        decreases more@.len() - i,
    {
        keys.push(more[i]);
        i = i + 1;
        assert(more@.take(i as int) =~= more@.take(i - 1).push(more@[i - 1]));
        assert(keys@ =~= before + more@.take(i as int));
    }
    assert(more@.take(i as int) =~= more@);
}

fn append_chain(keys: &mut Vec<VerifyingKey>, proof: &CapabilityProof)
    ensures
        final(keys)@ == old(keys)@ + chain_keys(proof@),
{
    let ghost before = keys@;
    let ghost chain = chain_keys(proof@);
    keys.push(proof.root_key);
    let mut i: usize = 0;
    assert(keys@ =~= before + chain.take(1));
    while i < proof.links.len()
        invariant
            i <= proof.links@.len(),
            chain == chain_keys(proof@),
            keys@ == before + chain.take(1 + i),
        decreases proof.links@.len() - i,
    {
        keys.push(proof.links[i].subject);
        i = i + 1;
        assert(chain[i as int] == proof.links@[i - 1].subject);
        assert(chain.take(1 + i) =~= chain.take(i as int).push(chain[i as int]));
        assert(keys@ =~= before + chain.take(1 + i));
    }
    assert(chain.take(1 + i) =~= chain);
}

/// Collect the evidence for a collection among candidate proofs.
pub fn canonical_authorization_evidence(
    collection: [u8; 32],
    descriptor: CollectionDescriptor,
    definitions: ResidentDefinitions,
    candidates: Vec<CapabilityProof>,
) -> (result: Result<CollectionAuthorizationEvidencePatch, CollectionAuthorizationEvidenceError>)
    ensures
        match (
            result,
            collected(
                collection,
                descriptor.capability_policies@,
                definitions.routes@,
                proof_states(candidates@),
            ),
        ) {
            (Ok(evidence), Ok(held)) => {
                &&& evidence.collection == collection
                &&& evidence.descriptor == descriptor
                &&& evidence.definitions == definitions
                &&& evidence.held() == held
                &&& evidence.well_formed()
            },
            (Err(error), Err(wanted)) => error == wanted,
            _ => false,
        },
{
    let ghost bindings = descriptor.capability_policies@;
    let ghost routes = definitions.routes@;
    let ghost states = proof_states(candidates@);
    let ghost encode = |id: [u8; 32]| collection@ + id@;
    let mut evidence = CollectionAuthorizationEvidencePatch {
        collection,
        descriptor,
        definitions,
        proofs: KeyMap::new(),
        root: [0; 32],
    };
    let mut i: usize = 0;
    proof {
        lemma_evidence_keys_unambiguous(collection);
        lemma_decoded_empty::<[u8; 32], ProofState, 64>(encode);
        assert(Map::<[u8; 64], CapabilityProof>::empty().map_values(
            |proof: CapabilityProof| proof@,
        ) =~= Map::<[u8; 64], ProofState>::empty());
        assert(states.take(0) =~= Seq::empty());
    }
    while i < candidates.len()
        invariant
            i <= candidates@.len(),
            evidence.collection == collection,
            evidence.descriptor == descriptor,
            evidence.definitions == definitions,
            bindings == descriptor.capability_policies@,
            routes == definitions.routes@,
            states == proof_states(candidates@),
            encode == (|id: [u8; 32]| collection@ + id@),
            unambiguous(encode),
            evidence.well_formed(),
            collected(collection, bindings, routes, states.take(i as int)) == Ok::<
                Map<[u8; 32], ProofState>,
                CollectionAuthorizationEvidenceError,
            >(evidence.held()),
        decreases candidates@.len() - i,
    {
        let proof = &candidates[i];
        let ghost more = states.take(i + 1);
        let ghost before = evidence.proofs@;
        proof {
            assert(more.drop_last() =~= states.take(i as int));
            assert(more.last() == proof@);
        }
        if evidence.validate_proof(proof).is_ok() {
            let key = evidence_key(&collection, &proof.id);
            proof {
                lemma_proof_held(before, collection, key, proof.id);
            }
            match evidence.proofs.get_ref(&key) {
                Some(existing) => {
                    if !existing.agrees(proof) {
                        proof {
                            lemma_collected_fails(collection, bindings, routes, states, i + 1);
                        }
                        return Err(
                            CollectionAuthorizationEvidenceError::ProofIdCollision(proof.id),
                        );
                    }
                    assert(evidence.held().insert(proof.id, proof@) =~= evidence.held());
                },
                None => {
                    let copy = proof.clone();
                    proof {
                        let values = before.map_values(|proof: CapabilityProof| proof@);
                        lemma_decoded_insert(values, encode, key, proof.id, proof@);
                        assert(before.insert(key, copy).map_values(
                            |proof: CapabilityProof| proof@,
                        ) =~= values.insert(key, proof@));
                    }
                    evidence.proofs.insert(key, copy);
                },
            }
        }
        i = i + 1;
    }
    assert(states.take(i as int) =~= states);
    Ok(evidence)
}

proof fn lemma_collected_fails(
    collection: [u8; 32],
    bindings: Seq<CapabilityPolicy>,
    routes: Map<[u8; 32], Vec<ResourceEntity>>,
    candidates: Seq<ProofState>,
    count: int,
)
    requires
        0 <= count <= candidates.len(),
        collected(collection, bindings, routes, candidates.take(count)) is Err,
    ensures
        collected(collection, bindings, routes, candidates) == collected(
            collection,
            bindings,
            routes,
            candidates.take(count),
        ),
    decreases candidates.len(),
{
    if count == candidates.len() {
        assert(candidates.take(count) =~= candidates);
    } else {
        let front = candidates.drop_last();
        assert(front.take(count) =~= candidates.take(count));
        lemma_collected_fails(collection, bindings, routes, front, count);
    }
}

/// Whether the given proofs can be evidence of one collection: no two pieces of
/// evidence among them share an identity.
pub open spec fn compatible(
    collection: [u8; 32],
    bindings: Seq<CapabilityPolicy>,
    routes: Map<[u8; 32], Vec<ResourceEntity>>,
    candidates: Seq<ProofState>,
) -> bool {
    forall|a: ProofState, b: ProofState| #[trigger]
        candidates.contains(a) && #[trigger] candidates.contains(b) && evidence_check(
            collection,
            bindings,
            routes,
            a,
        ) is Ok && evidence_check(collection, bindings, routes, b) is Ok && a.id == b.id ==> a == b
}

/// Neither the arrival order nor the repetition of proofs matters, and what is
/// no evidence is inert: exactly the evidence among the candidates is held.
pub proof fn law_evidence_set(
    collection: [u8; 32],
    bindings: Seq<CapabilityPolicy>,
    routes: Map<[u8; 32], Vec<ResourceEntity>>,
    candidates: Seq<ProofState>,
)
    ensures
        collected(collection, bindings, routes, candidates) is Ok <==> compatible(
            collection,
            bindings,
            routes,
            candidates,
        ),
        collected(collection, bindings, routes, candidates) matches Ok(held) ==> forall|
            proof: ProofState,
        | #[trigger]
            held.contains_pair(proof.id, proof) <==> candidates.contains(proof) && evidence_check(
                collection,
                bindings,
                routes,
                proof,
            ) is Ok,
        collected(collection, bindings, routes, candidates) matches Ok(held) ==> forall|
            id: [u8; 32],
        | #[trigger]
            held.contains_key(id) ==> held[id].id == id,
    decreases candidates.len(),
{
    if candidates.len() > 0 {
        let front = candidates.drop_last();
        let last = candidates.last();
        law_evidence_set(collection, bindings, routes, front);
        assert forall|candidate: ProofState| #[trigger] candidates.contains(
            candidate,
        ) <==> front.contains(candidate) || candidate == last by {
            if candidates.contains(candidate) {
                let i = choose|i: int| 0 <= i < candidates.len() && candidates[i] == candidate;
                if i < front.len() {
                    assert(front[i] == candidate);
                }
            }
            if front.contains(candidate) {
                let i = choose|i: int| 0 <= i < front.len() && front[i] == candidate;
                assert(candidates[i] == candidate);
            }
            assert(candidates[candidates.len() - 1] == last);
        }
        if compatible(collection, bindings, routes, candidates) {
            assert(compatible(collection, bindings, routes, front)) by {
                assert forall|a: ProofState, b: ProofState|
                    front.contains(a) && front.contains(b) && evidence_check(
                        collection,
                        bindings,
                        routes,
                        a,
                    ) is Ok && evidence_check(collection, bindings, routes, b) is Ok && a.id
                        == b.id implies a == b by {
                    assert(candidates.contains(a) && candidates.contains(b));
                }
            }
            let held = collected(collection, bindings, routes, front)->Ok_0;
            if evidence_check(collection, bindings, routes, last) is Ok && held.contains_key(
                last.id,
            ) {
                let other = held[last.id];
                assert(held.contains_pair(other.id, other));
                assert(candidates.contains(other) && candidates.contains(last));
            }
        }
        if collected(collection, bindings, routes, candidates) is Ok {
            let held = collected(collection, bindings, routes, front)->Ok_0;
            let after = collected(collection, bindings, routes, candidates)->Ok_0;
            assert forall|candidate: ProofState| #[trigger]
                after.contains_pair(candidate.id, candidate) <==> candidates.contains(candidate)
                    && evidence_check(collection, bindings, routes, candidate) is Ok by {
                assert(held.contains_pair(candidate.id, candidate) <==> front.contains(candidate)
                    && evidence_check(collection, bindings, routes, candidate) is Ok);
            }
            assert(compatible(collection, bindings, routes, candidates)) by {
                assert forall|a: ProofState, b: ProofState|
                    candidates.contains(a) && candidates.contains(b) && evidence_check(
                        collection,
                        bindings,
                        routes,
                        a,
                    ) is Ok && evidence_check(collection, bindings, routes, b) is Ok && a.id
                        == b.id implies a == b by {
                    assert(after.contains_pair(a.id, a));
                    assert(after.contains_pair(b.id, b));
                }
            }
        }
    }
}

/// Whether a key is among the restricted audiences.
pub open spec fn in_audience(
    audiences: Seq<CollectionReadAudience>,
    key: VerifyingKey,
) -> bool {
    exists|i: int|
        0 <= i < audiences.len() && (#[trigger] audiences[i] matches CollectionReadAudience::Restricted(
            readers,
        ) && readers@.contains(key))
}

/// Whether one of the audiences is open.
pub open spec fn open_audience(audiences: Seq<CollectionReadAudience>) -> bool {
    exists|i: int| 0 <= i < audiences.len() && #[trigger] audiences[i] is Open
}

/// Whether `readers` is the audience of several policies together.
pub open spec fn is_joint_audience(
    readers: CollectionReadAudience,
    audiences: Seq<CollectionReadAudience>,
) -> bool {
    match readers {
        CollectionReadAudience::Open => open_audience(audiences),
        CollectionReadAudience::Restricted(list) => !open_audience(audiences) && lists_exactly(
            list@,
            Set::new(|key: VerifyingKey| in_audience(audiences, key)),
        ),
    }
}

impl CollectionAuthorizationEvidencePatch {
    /// The finite READ-authorized audience, from that of each READ policy.
    ///
    /// Restricted policies give a deterministic, deduplicated list. Open READ is
    /// explicit because no finite list can enumerate its audience.
    pub fn authorized_readers(&self, audiences: &[CollectionReadAudience]) -> (readers:
        CollectionReadAudience)
        requires
            audiences@.len() == self.definitions.read_policies@.len(),
        ensures
            is_joint_audience(readers, audiences@),
    {
        let mut readers: KeyMap<32, ()> = KeyMap::new();
        let mut i: usize = 0;
        while i < audiences.len()
            invariant
                i <= audiences@.len(),
                forall|j: int| 0 <= j < i ==> !(#[trigger] audiences@[j] is Open),
                forall|key: VerifyingKey| #[trigger]
                    readers@.contains_key(key) <==> in_audience(audiences@.take(i as int), key),
            decreases audiences@.len() - i,
        {
            let ghost before = readers@;
            let ghost less = audiences@.take(i as int);
            let ghost more = audiences@.take(i + 1);
            match &audiences[i] {
                CollectionReadAudience::Open => {
                    assert(audiences@[i as int] is Open);
                    return CollectionReadAudience::Open;
                },
                CollectionReadAudience::Restricted(subjects) => {
                    add_readers(&mut readers, subjects);
                    proof {
                        assert forall|key: VerifyingKey| #[trigger] readers@.contains_key(
                            key,
                        ) <==> in_audience(more, key) by {
                            assert(before.contains_key(key) <==> in_audience(less, key));
                            if in_audience(less, key) {
                                let j = choose|j: int|
                                    0 <= j < less.len() && (
                                    #[trigger] less[j] matches CollectionReadAudience::Restricted(
                                        list,
                                    ) && list@.contains(key));
                                assert(more[j] == less[j]);
                            }
                            if in_audience(more, key) {
                                let j = choose|j: int|
                                    0 <= j < more.len() && (
                                    #[trigger] more[j] matches CollectionReadAudience::Restricted(
                                        list,
                                    ) && list@.contains(key));
                                if j < i {
                                    assert(less[j] == more[j]);
                                }
                            }
                            assert(more[i as int] == audiences@[i as int]);
                        }
                    }
                },
            }
            i = i + 1;
        }
        assert(audiences@.take(i as int) =~= audiences@);
        let list = readers.keys();
        proof {
            assert forall|key: VerifyingKey| #[trigger] list@.contains(key) <==> in_audience(
                audiences@,
                key,
            ) by {
                if list@.contains(key) {
                    let j = choose|j: int| 0 <= j < list@.len() && list@[j] == key;
                    assert(readers@.contains_key(list@[j]));
                }
                assert(readers@.contains_key(key) <==> in_audience(audiences@, key));
            }
        }
        CollectionReadAudience::Restricted(list)
    }
}

fn add_readers(readers: &mut KeyMap<32, ()>, subjects: &[VerifyingKey])
    ensures
        forall|key: VerifyingKey| #[trigger]
            final(readers)@.contains_key(key) <==> old(readers)@.contains_key(key)
                || subjects@.contains(key),
{
    let mut i: usize = 0;
    while i < subjects.len()
        invariant
            i <= subjects@.len(),
            forall|key: VerifyingKey| #[trigger]
                readers@.contains_key(key) <==> old(readers)@.contains_key(key) || exists|j: int|
                    0 <= j < i && subjects@[j] == key,
        decreases subjects@.len() - i,
    {
        let ghost before = readers@;
        readers.insert(subjects[i], ());
        proof {
            assert forall|key: VerifyingKey| #[trigger]
                readers@.contains_key(key) <==> old(readers)@.contains_key(key) || exists|j: int|
                    0 <= j < i + 1 && subjects@[j] == key by {
                assert(before.contains_key(key) <==> old(readers)@.contains_key(key) || exists|
                    j: int,
                |
                    0 <= j < i && subjects@[j] == key);
                assert(subjects@[i as int] == subjects@[i as int]);
            }
        }
        i = i + 1;
    }
}

/// One beginning of a proof: whom it reaches, the proof that it is by itself,
/// and whether that proof lets the one it reaches read.
#[derive(Debug)]
pub struct PrefixWitness {
    pub subject: VerifyingKey,
    pub witness: CapabilityProof,
    pub reads: bool,
}

/// The earliest beginning of a proof that lets `subject` read.
pub open spec fn earliest_witness(
    prefixes: Seq<PrefixWitness>,
    subject: VerifyingKey,
) -> Option<ProofState>
    decreases prefixes.len(),
{
    if prefixes.len() == 0 {
        None
    } else {
        match earliest_witness(prefixes.drop_last(), subject) {
            Some(witness) => Some(witness),
            None => if prefixes.last().subject == subject && prefixes.last().reads {
                Some(prefixes.last().witness@)
            } else {
                None
            },
        }
    }
}

/// The witnesses for `subject` among the proofs that are over the collection
/// and start at a root of a READ policy: the earliest of each proof.
pub open spec fn witnesses(
    collection: [u8; 32],
    read_policies: Seq<AdmissionPolicy>,
    subject: VerifyingKey,
    proofs: Seq<ProofState>,
    prefixes: Seq<Vec<PrefixWitness>>,
) -> Seq<ProofState>
    decreases proofs.len(),
{
    if proofs.len() == 0 {
        Seq::empty()
    } else {
        let front = witnesses(
            collection,
            read_policies,
            subject,
            proofs.drop_last(),
            prefixes,
        );
        let last = proofs.last();
        if last.resource == collection && any_relevant(read_policies, last.root_key) {
            match earliest_witness(prefixes[proofs.len() - 1]@, subject) {
                Some(witness) => front.push(witness),
                None => front,
            }
        } else {
            front
        }
    }
}

fn find_witness(prefixes: &Vec<PrefixWitness>, subject: &VerifyingKey) -> (found: Option<
    CapabilityProof,
>)
    ensures
        match found {
            Some(found) => earliest_witness(prefixes@, *subject) == Some(found@),
            None => earliest_witness(prefixes@, *subject) is None,
        },
{
    let mut i: usize = 0;
    assert(prefixes@.take(0) =~= Seq::empty());
    while i < prefixes.len()
        invariant
            i <= prefixes@.len(),
            earliest_witness(prefixes@.take(i as int), *subject) is None,
        decreases prefixes@.len() - i,
    {
        proof {
            assert(prefixes@.take(i + 1).drop_last() =~= prefixes@.take(i as int));
            assert(prefixes@.take(i + 1).last() == prefixes@[i as int]);
        }
        if prefixes[i].reads && same(&prefixes[i].subject, subject) {
            proof {
                lemma_witness_found(prefixes@, *subject, i + 1);
            }
            return Some(prefixes[i].witness.clone());
        }
        i = i + 1;
    }
    assert(prefixes@.take(i as int) =~= prefixes@);
    None
}

proof fn lemma_witness_found(prefixes: Seq<PrefixWitness>, subject: VerifyingKey, count: int)
    requires
        0 <= count <= prefixes.len(),
        earliest_witness(prefixes.take(count), subject) is Some,
    ensures
        earliest_witness(prefixes, subject) == earliest_witness(prefixes.take(count), subject),
    decreases prefixes.len(),
{
    if count == prefixes.len() {
        assert(prefixes.take(count) =~= prefixes);
    } else {
        let front = prefixes.drop_last();
        assert(front.take(count) =~= prefixes.take(count));
        lemma_witness_found(front, subject, count);
    }
}

/// What is left of a selection after its elements before `index` were tried, the
/// last one first: an element stays exactly if the rest is not admitted without
/// it.
pub open spec fn trimmed(
    selected: Seq<ProofState>,
    index: nat,
    admits: spec_fn(Seq<ProofState>) -> bool,
) -> Seq<ProofState>
    decreases index,
{
    if index == 0 {
        selected
    } else {
        let without = selected.remove(index - 1);
        if admits(without) {
            trimmed(without, (index - 1) as nat, admits)
        } else {
            trimmed(selected, (index - 1) as nat, admits)
        }
    }
}

/// The READ witness to send: nothing where READ is open or the witnesses do not
/// admit the subject, else the witnesses without those that are not needed.
pub open spec fn bootstrap(
    open: bool,
    found: Seq<ProofState>,
    admits: spec_fn(Seq<ProofState>) -> bool,
) -> Seq<ProofState> {
    if open || !admits(found) {
        Seq::empty()
    } else {
        trimmed(found, found.len(), admits)
    }
}

/// Whether more proofs never revoke an admission.
pub open spec fn monotone(admits: spec_fn(Seq<ProofState>) -> bool) -> bool {
    forall|proofs: Seq<ProofState>, index: int|
        0 <= index < proofs.len() && admits(#[trigger] proofs.remove(index)) ==> admits(proofs)
}

proof fn lemma_trimmed(
    selected: Seq<ProofState>,
    index: nat,
    admits: spec_fn(Seq<ProofState>) -> bool,
)
    requires
        index <= selected.len(),
        admits(selected),
        monotone(admits),
        forall|j: int| index <= j < selected.len() ==> !admits(#[trigger] selected.remove(j)),
    ensures
        admits(trimmed(selected, index, admits)),
        forall|j: int|
            0 <= j < trimmed(selected, index, admits).len() ==> !admits(
                #[trigger] trimmed(selected, index, admits).remove(j),
            ),
    decreases index,
{
    if index > 0 {
        let at = index - 1;
        let without = selected.remove(at);
        if admits(without) {
            assert forall|j: int| at <= j < without.len() implies !admits(
                #[trigger] without.remove(j),
            ) by {
                let other = selected.remove(j + 1);
                assert(!admits(other));
                assert(without.remove(j) =~= other.remove(at));
            }
            lemma_trimmed(without, at as nat, admits);
        } else {
            lemma_trimmed(selected, at as nat, admits);
        }
    }
}

/// A selected READ witness admits its subject, and none of its proofs can be
/// left out.
pub proof fn law_bootstrap_is_minimal(
    open: bool,
    found: Seq<ProofState>,
    admits: spec_fn(Seq<ProofState>) -> bool,
)
    requires
        monotone(admits),
    ensures
        ({
            let sent = bootstrap(open, found, admits);
            &&& !open && admits(found) ==> admits(sent)
            &&& forall|j: int|
                0 <= j < sent.len() ==> !admits(#[trigger] sent.remove(j))
        }),
{
    if !open && admits(found) {
        lemma_trimmed(found, found.len(), admits);
    }
}

/// How far the selection of a READ witness has come.
#[derive(Clone, Copy, Debug, PartialEq, Eq, Structural)]
pub enum SelectionStage {
    /// Whether the selected proofs admit the subject at all is open.
    Checking,
    /// Whether the selected proofs admit the subject without the one that was
    /// taken out is open.
    Trimming,
    /// The selection is final.
    Done,
}

/// The selection of a READ witness. It asks whether sets of proofs admit the
/// subject, one question at a time, and takes the answers.
#[derive(Debug)]
pub struct BootstrapSelection {
    pub stage: SelectionStage,
    pub selected: Vec<CapabilityProof>,
    pub taken: Option<CapabilityProof>,
    pub index: usize,
}

impl BootstrapSelection {
    /// The position of the proof that was taken out is in range.
    pub open spec fn well_formed(&self) -> bool {
        self.stage == SelectionStage::Trimming ==> self.taken is Some && self.index
            <= self.selected@.len()
    }

    /// What is selected in the end, if the questions are answered by `admits`.
    pub open spec fn outcome(&self, admits: spec_fn(Seq<ProofState>) -> bool) -> Seq<ProofState> {
        let selected = proof_states(self.selected@);
        match self.stage {
            SelectionStage::Done => selected,
            SelectionStage::Checking => if admits(selected) {
                trimmed(selected, selected.len(), admits)
            } else {
                Seq::empty()
            },
            SelectionStage::Trimming => if admits(selected) {
                trimmed(selected, self.index as nat, admits)
            } else {
                trimmed(
                    selected.insert(self.index as int, self.taken->0@),
                    self.index as nat,
                    admits,
                )
            },
        }
    }

    /// The most questions that are still to come.
    pub open spec fn questions(&self) -> nat {
        match self.stage {
            SelectionStage::Done => 0,
            SelectionStage::Checking => self.selected@.len() + 1,
            SelectionStage::Trimming => (self.index + 1) as nat,
        }
    }

    /// Begin a selection among witnesses. An open policy needs none.
    pub fn new(open: bool, found: Vec<CapabilityProof>) -> (selection: Self)
        ensures
            selection.well_formed(),
            forall|admits: spec_fn(Seq<ProofState>) -> bool| #[trigger]
                selection.outcome(admits) == bootstrap(open, proof_states(found@), admits),
            selection.questions() <= found@.len() + 1,
    {
        if open {
            let selection = BootstrapSelection {
                stage: SelectionStage::Done,
                selected: Vec::new(),
                taken: None,
                index: 0,
            };
            assert(proof_states(selection.selected@) =~= Seq::<ProofState>::empty());
            selection
        } else {
            BootstrapSelection {
                stage: SelectionStage::Checking,
                selected: found,
                taken: None,
                index: 0,
            }
        }
    }

    /// Whether the selection is final. If not, the question is whether the
    /// selected proofs admit the subject.
    pub fn is_done(&self) -> (done: bool)
        ensures
            done == (self.stage == SelectionStage::Done),
            done <==> self.questions() == 0,
    {
        self.stage == SelectionStage::Done
    }

    fn try_without(&mut self, index: usize)
        requires
            index <= old(self).selected@.len(),
        ensures
            final(self).well_formed(),
            forall|admits: spec_fn(Seq<ProofState>) -> bool| #[trigger]
                final(self).outcome(admits) == trimmed(
                    proof_states(old(self).selected@),
                    index as nat,
                    admits,
                ),
            final(self).questions() <= index,
    {
        let ghost before = proof_states(self.selected@);
        if index == 0 {
            self.stage = SelectionStage::Done;
            self.taken = None;
        } else {
            let removed = self.selected.remove(index - 1);
            let ghost removed_state = removed@;
            self.taken = Some(removed);
            self.index = index - 1;
            self.stage = SelectionStage::Trimming;
            proof {
                assert(proof_states(self.selected@) =~= before.remove(index - 1));
                assert(before.remove(index - 1).insert(index - 1, removed_state) =~= before);
            }
        }
    }

    /// Take an answer: whether the selected proofs admit the subject.
    pub fn answer(&mut self, admitted: bool)
        requires
            old(self).well_formed(),
            old(self).stage != SelectionStage::Done,
        ensures
            final(self).well_formed(),
            forall|admits: spec_fn(Seq<ProofState>) -> bool|
                admits(proof_states(old(self).selected@)) == admitted
                    ==> #[trigger] final(self).outcome(admits) == old(self).outcome(admits),
            final(self).questions() < old(self).questions(),
    {
        let ghost start = *self;
        match self.stage {
            SelectionStage::Done => {},
            SelectionStage::Checking => {
                if admitted {
                    let count: usize = self.selected.len();
                    self.try_without(count);
                } else {
                    self.selected = Vec::new();
                    self.stage = SelectionStage::Done;
                    self.taken = None;
                    assert(proof_states(self.selected@) =~= Seq::<ProofState>::empty());
                }
            },
            SelectionStage::Trimming => {
                let index: usize = self.index;
                if !admitted {
                    if let Some(removed) = self.taken.take() {
                        let ghost before = proof_states(self.selected@);
                        let ghost removed_state = removed@;
                        self.selected.insert(index, removed);
                        proof {
                            assert(proof_states(self.selected@) =~= before.insert(
                                index as int,
                                removed_state,
                            ));
                        }
                    }
                }
                self.try_without(index);
            },
        }
    }

    /// The selected proofs.
    pub fn into_selected(self) -> (selected: Vec<CapabilityProof>)
        requires
            self.stage == SelectionStage::Done,
        ensures
            forall|admits: spec_fn(Seq<ProofState>) -> bool| #[trigger]
                self.outcome(admits) == proof_states(selected@),
    {
        self.selected
    }
}

impl CollectionAuthorizationEvidencePatch {
    /// Begin to select the local READ witness for `subject` from this evidence.
    /// `prefixes` tells of each retained proof, in the order of identities, what
    /// its beginnings grant.
    pub fn read_bootstrap_proofs(
        &self,
        subject: &VerifyingKey,
        prefixes: &Vec<Vec<PrefixWitness>>,
    ) -> (selection: BootstrapSelection)
        requires
            self.well_formed(),
            prefixes@.len() == self.held().dom().len(),
        ensures
            selection.well_formed(),
            exists|proofs: Seq<ProofState>| #[trigger]
                lists_proofs(proofs, self.held()) && forall|
                    admits: spec_fn(Seq<ProofState>) -> bool,
                | #[trigger]
                    selection.outcome(admits) == bootstrap(
                        any_open(self.definitions.read_policies@),
                        witnesses(
                            self.collection,
                            self.definitions.read_policies@,
                            *subject,
                            proofs,
                            prefixes@,
                        ),
                        admits,
                    ),
    {
        let policies = &self.definitions.read_policies;
        let open = some_policy_is_open(policies);
        let proofs = self.proofs();
        let ghost states = proof_states(proofs@);
        let mut found: Vec<CapabilityProof> = Vec::new();
        let mut i: usize = 0;
        proof {
            assert(states.take(0) =~= Seq::empty());
            assert(proof_states(found@) =~= Seq::<ProofState>::empty());
        }
        while i < proofs.len()
            invariant
                i <= proofs@.len() == prefixes@.len(),
                states == proof_states(proofs@),
                policies@ == self.definitions.read_policies@,
                proof_states(found@) == witnesses(
                    self.collection,
                    policies@,
                    *subject,
                    states.take(i as int),
                    prefixes@,
                ),
            decreases proofs@.len() - i,
        {
            let candidate = &proofs[i];
            proof {
                assert(states.take(i + 1).drop_last() =~= states.take(i as int));
                assert(states.take(i + 1).last() == candidate@);
            }
            if same(&candidate.resource, &self.collection) && some_root_is_relevant(
                policies,
                &candidate.root_key,
            ) {
                if let Some(witness) = find_witness(&prefixes[i], subject) {
                    let ghost before = proof_states(found@);
                    let ghost state = witness@;
                    found.push(witness);
                    assert(proof_states(found@) =~= before.push(state));
                }
            }
            i = i + 1;
        }
        assert(states.take(i as int) =~= states);
        BootstrapSelection::new(open, found)
    }
}

impl CollectionAuthorizationEvidencePatch {
    /// Whether a subject may read, given what each READ policy says of it.
    pub fn reader_is_admitted_by(&self, verdicts: &[bool]) -> (admitted: bool)
        requires
            verdicts@.len() == self.definitions.read_policies@.len(),
        ensures
            admitted == admitted_by(verdicts@),
    {
        let mut i: usize = 0;
        while i < verdicts.len()
            invariant
                i <= verdicts@.len(),
                forall|j: int| 0 <= j < i ==> !verdicts@[j],
            decreases verdicts@.len() - i,
        {
            if verdicts[i] {
                assert(verdicts@[i as int] == true);
                return true;
            }
            i = i + 1;
        }
        false
    }
}

/// Whether what the READ policies say of a subject admits it.
pub open spec fn admitted_by(verdicts: Seq<bool>) -> bool {
    verdicts.contains(true)
}

/// The version of the repair root.
pub const COLLECTION_REPAIR_ROOT_VERSION: u32 = 2;

/// What every repair root is computed over first.
pub open spec fn repair_root_domain() -> Seq<u8> {
    "triblespace.collection.repair-overlay\0".spec_bytes()
}

/// A summary written down: whether there is a root, the root or zeros, and the
/// number of leaves.
pub open spec fn summary_bytes(summary: PatchSummary) -> Seq<u8> {
    (match summary.root_spec() {
        Some(root) => seq![1u8] + root@,
        None => seq![0u8] + Seq::new(32, |i: int| 0u8),
    }) + be_bytes(summary.leaves() as nat, 8)
}

/// What the repair root of a collection is computed over.
pub open spec fn repair_bytes(
    collection: [u8; 32],
    records: PatchSummary,
    authorization_evidence: PatchSummary,
    resident_blobs: PatchSummary,
) -> Seq<u8> {
    repair_root_domain() + be_bytes(COLLECTION_REPAIR_ROOT_VERSION as nat, 4) + collection@
        + summary_bytes(records) + summary_bytes(authorization_evidence) + summary_bytes(
        resident_blobs,
    )
}

fn append_summary(input: &mut Vec<u8>, summary: &PatchSummary)
    ensures
        final(input)@ == old(input)@ + summary_bytes(*summary),
{
    let ghost before = input@;
    match summary.root() {
        Some(root) => {
            input.push(1);
            input.extend_from_slice(&root);
            assert(input@ =~= before + (seq![1u8] + root@));
        },
        None => {
            let zeros: [u8; 32] = zero_key();
            input.push(0);
            input.extend_from_slice(&zeros);
            assert(input@ =~= before + (seq![0u8] + Seq::new(32, |i: int| 0u8)));
        },
    }
    input.extend_from_slice(&u64_bytes(summary.leaf_count()));
    assert(input@ =~= before + summary_bytes(*summary));
}

/// The digest that commits to a collection and to the summaries of what is held
/// of it.
pub fn repair_root(
    collection: &[u8; 32],
    records: &PatchSummary,
    authorization_evidence: &PatchSummary,
    resident_blobs: &PatchSummary,
) -> (root: [u8; 32])
    ensures
        root@ == blake3_hash(
            repair_bytes(*collection, *records, *authorization_evidence, *resident_blobs),
        ),
{
    let mut input: Vec<u8> = "triblespace.collection.repair-overlay\0".as_bytes_vec();
    input.extend_from_slice(&u32_bytes(COLLECTION_REPAIR_ROOT_VERSION));
    input.extend_from_slice(collection);
    assert(input@ =~= repair_root_domain() + be_bytes(COLLECTION_REPAIR_ROOT_VERSION as nat, 4)
        + collection@);
    append_summary(&mut input, records);
    append_summary(&mut input, authorization_evidence);
    append_summary(&mut input, resident_blobs);
    hash(&input)
}

proof fn lemma_summary_bytes(a: PatchSummary, b: PatchSummary)
    requires
        summary_bytes(a) == summary_bytes(b),
    ensures
        a.root_spec() == b.root_spec(),
        a.leaves() == b.leaves(),
{
    let x = summary_bytes(a);
    let y = summary_bytes(b);
    lemma_be_bytes(a.leaves() as nat, 8);
    lemma_be_bytes(b.leaves() as nat, 8);
    lemma_eight_bytes();
    assert(x[0] == if a.root_spec() is Some {
        1u8
    } else {
        0u8
    });
    assert(y[0] == if b.root_spec() is Some {
        1u8
    } else {
        0u8
    });
    assert(x.subrange(33, 41) =~= be_bytes(a.leaves() as nat, 8));
    assert(y.subrange(33, 41) =~= be_bytes(b.leaves() as nat, 8));
    if a.root_spec() is Some {
        assert(x.subrange(1, 33) =~= a.root_spec()->0@);
        assert(y.subrange(1, 33) =~= b.root_spec()->0@);
        lemma_same_bytes(a.root_spec()->0, b.root_spec()->0);
    }
}

/// A repair root commits to everything that it is computed over: other records,
/// other proofs, other blobs or another collection are hashed from other bytes.
pub proof fn law_repair_root_commits(
    collection: [u8; 32],
    records: PatchSummary,
    authorization_evidence: PatchSummary,
    resident_blobs: PatchSummary,
    other_collection: [u8; 32],
    other_records: PatchSummary,
    other_authorization_evidence: PatchSummary,
    other_resident_blobs: PatchSummary,
)
    ensures
        repair_bytes(collection, records, authorization_evidence, resident_blobs) == repair_bytes(
            other_collection,
            other_records,
            other_authorization_evidence,
            other_resident_blobs,
        ) <==> {
            &&& collection == other_collection
            &&& records == other_records
            &&& authorization_evidence == other_authorization_evidence
            &&& resident_blobs == other_resident_blobs
        },
{
    let x = repair_bytes(collection, records, authorization_evidence, resident_blobs);
    let y = repair_bytes(
        other_collection,
        other_records,
        other_authorization_evidence,
        other_resident_blobs,
    );
    let n = repair_root_domain().len() as int + 4;
    lemma_be_bytes(COLLECTION_REPAIR_ROOT_VERSION as nat, 4);
    lemma_summary_len(records);
    lemma_summary_len(authorization_evidence);
    lemma_summary_len(resident_blobs);
    lemma_summary_len(other_records);
    lemma_summary_len(other_authorization_evidence);
    lemma_summary_len(other_resident_blobs);
    if x == y {
        assert(x.subrange(n, n + 32) =~= collection@);
        assert(y.subrange(n, n + 32) =~= other_collection@);
        assert(x.subrange(n + 32, n + 73) =~= summary_bytes(records));
        assert(y.subrange(n + 32, n + 73) =~= summary_bytes(other_records));
        assert(x.subrange(n + 73, n + 114) =~= summary_bytes(authorization_evidence));
        assert(y.subrange(n + 73, n + 114) =~= summary_bytes(other_authorization_evidence));
        assert(x.subrange(n + 114, n + 155) =~= summary_bytes(resident_blobs));
        assert(y.subrange(n + 114, n + 155) =~= summary_bytes(other_resident_blobs));
        lemma_same_bytes(collection, other_collection);
        lemma_summary_bytes(records, other_records);
        lemma_summary_bytes(authorization_evidence, other_authorization_evidence);
        lemma_summary_bytes(resident_blobs, other_resident_blobs);
        lemma_summary_equal(records, other_records);
        lemma_summary_equal(authorization_evidence, other_authorization_evidence);
        lemma_summary_equal(resident_blobs, other_resident_blobs);
    }
}

proof fn lemma_summary_len(summary: PatchSummary)
    ensures
        summary_bytes(summary).len() == 41,
{
    lemma_be_bytes(summary.leaves() as nat, 8);
}

/// Pinned semantic repair evidence and positive resident-blob inventory.
#[derive(Debug)]
pub struct CollectionRepairOverlay {
    pub collection: [u8; 32],
    pub records: CollectionRecordPatch,
    pub authorization_evidence: CollectionAuthorizationEvidencePatch,
    pub blob_inventory: ResidentBlobPatch,
    /// The Merkle root of the inventory, if there is anything in it.
    pub blob_root: [u8; 32],
}

/// The summary of a set of so many leaves.
pub open spec fn is_summary(summary: PatchSummary, leaves: nat, root: [u8; 32]) -> bool {
    &&& summary.leaves() == leaves
    &&& summary.root_spec() == if leaves == 0 {
        None
    } else {
        Some(root)
    }
}

impl CollectionRepairOverlay {
    /// Put the components of one observation together. A component whose raw
    /// inputs are unchanged may be one of an earlier observation.
    pub fn observe<R, P, G>(
        collection: [u8; 32],
        evidence: Result<
            CollectionAuthorizationEvidencePatch,
            CollectionAuthorizationEvidenceDiscoveryError<P, G>,
        >,
        records: Result<CollectionRecordPatch, CollectionRecordPatchError<R>>,
    ) -> (result: Result<Self, CollectionRepairOverlayError<R, P, G>>)
        ensures
            match evidence {
                Err(CollectionAuthorizationEvidenceDiscoveryError::Descriptor(error)) => result
                    == Err::<Self, CollectionRepairOverlayError<R, P, G>>(
                    CollectionRepairOverlayError::Descriptor(error),
                ),
                Err(CollectionAuthorizationEvidenceDiscoveryError::Proofs(error)) => result
                    == Err::<Self, CollectionRepairOverlayError<R, P, G>>(
                    CollectionRepairOverlayError::Proofs(error),
                ),
                Err(CollectionAuthorizationEvidenceDiscoveryError::Evidence(error)) => result
                    == Err::<Self, CollectionRepairOverlayError<R, P, G>>(
                    CollectionRepairOverlayError::Evidence(error),
                ),
                Ok(evidence) => match records {
                    Err(error) => result == Err::<Self, CollectionRepairOverlayError<R, P, G>>(
                        CollectionRepairOverlayError::Records(error),
                    ),
                    Ok(records) => result matches Ok(overlay) && {
                        &&& overlay.collection == collection
                        &&& overlay.records == records
                        &&& overlay.authorization_evidence == evidence
                        &&& overlay.blob_inventory@ == Map::<[u8; 32], ()>::empty()
                    },
                },
            },
    {
        match evidence {
            Err(CollectionAuthorizationEvidenceDiscoveryError::Descriptor(error)) => Err(
                CollectionRepairOverlayError::Descriptor(error),
            ),
            Err(CollectionAuthorizationEvidenceDiscoveryError::Proofs(error)) => Err(
                CollectionRepairOverlayError::Proofs(error),
            ),
            Err(CollectionAuthorizationEvidenceDiscoveryError::Evidence(error)) => Err(
                CollectionRepairOverlayError::Evidence(error),
            ),
            Ok(authorization_evidence) => match records {
                Err(error) => Err(CollectionRepairOverlayError::Records(error)),
                Ok(records) => Ok(
                    CollectionRepairOverlay {
                        collection,
                        records,
                        authorization_evidence,
                        blob_inventory: KeyMap::new(),
                        blob_root: [0; 32],
                    },
                ),
            },
        }
    }

    /// Every proof is held under its own identity.
    pub open spec fn well_formed(&self) -> bool {
        self.authorization_evidence.well_formed()
    }

    /// Whether `root` is the repair root of what is held.
    pub open spec fn woken_by(&self, root: [u8; 32]) -> bool {
        exists|records: PatchSummary, evidence: PatchSummary, blobs: PatchSummary|
            {
                &&& is_summary(records, self.records.contents().dom().len(), self.records.root)
                &&& is_summary(
                    evidence,
                    self.authorization_evidence.held().dom().len(),
                    self.authorization_evidence.root,
                )
                &&& is_summary(blobs, self.blob_inventory@.dom().len(), self.blob_root)
                &&& root@ == blake3_hash(
                    #[trigger] repair_bytes(self.collection, records, evidence, blobs),
                )
            }
    }

    /// Exact collection represented by this repair observation.
    pub fn collection(&self) -> (collection: [u8; 32])
        ensures
            collection == self.collection,
    {
        self.collection
    }

    /// Inspect one unambiguous scalar policy for diagnostics.
    pub fn policy(&self) -> (policy: Result<&CollectionPolicy, RecordDecodeError>)
        ensures
            match policy {
                Ok(policy) => self.authorization_evidence.descriptor.policy == Ok::<
                    CollectionPolicy,
                    RecordDecodeError,
                >(*policy),
                Err(error) => self.authorization_evidence.descriptor.policy == Err::<
                    CollectionPolicy,
                    RecordDecodeError,
                >(error),
            },
    {
        self.authorization_evidence.policy()
    }

    /// Structurally valid collection records naming this collection.
    ///
    /// WRITE admission is deliberately derived by each receiver, so that records
    /// and proofs may arrive in either order.
    pub fn records(&self) -> (records: &CollectionRecordPatch)
        ensures
            *records == self.records,
    {
        &self.records
    }

    /// Structurally relevant proofs for descriptor-declared capabilities.
    pub fn authorization_evidence(&self) -> (evidence: &CollectionAuthorizationEvidencePatch)
        ensures
            *evidence == self.authorization_evidence,
    {
        &self.authorization_evidence
    }

    /// Positive resident handles associated with this collection observation.
    /// Absence is not evidence of deletion or unavailability elsewhere.
    pub fn blob_inventory(&self) -> (inventory: &ResidentBlobPatch)
        ensures
            *inventory == self.blob_inventory,
    {
        &self.blob_inventory
    }

    /// Bind inventory from the same immutable observation as the repair
    /// evidence. Its handles are disclosed only inside a READ-authorized session.
    pub fn with_blob_inventory(self, inventory: ResidentBlobPatch, root: [u8; 32]) -> (overlay: Self)
        ensures
            overlay == (CollectionRepairOverlay {
                blob_inventory: inventory,
                blob_root: root,
                ..self
            }),
    {
        CollectionRepairOverlay {
            collection: self.collection,
            records: self.records,
            authorization_evidence: self.authorization_evidence,
            blob_inventory: inventory,
            blob_root: root,
        }
    }

    /// Rebind what resident blobs define, without changing fixed evidence.
    pub fn with_definitions(self, definitions: ResidentDefinitions) -> (overlay: Self)
        ensures
            overlay.collection == self.collection,
            overlay.records == self.records,
            overlay.blob_inventory == self.blob_inventory,
            overlay.blob_root == self.blob_root,
            overlay.authorization_evidence == (CollectionAuthorizationEvidencePatch {
                definitions,
                ..self.authorization_evidence
            }),
    {
        CollectionRepairOverlay {
            collection: self.collection,
            records: self.records,
            authorization_evidence: self.authorization_evidence.with_definitions(definitions),
            blob_inventory: self.blob_inventory,
            blob_root: self.blob_root,
        }
    }

    /// Root and count of the inventory.
    pub fn inventory_summary(&self) -> (summary: PatchSummary)
        ensures
            is_summary(summary, self.blob_inventory@.dom().len(), self.blob_root),
    {
        let count: usize = self.blob_inventory.len();
        let root = if count == 0 {
            None
        } else {
            Some(self.blob_root)
        };
        match PatchSummary::new(root, count as u64) {
            Some(summary) => summary,
            None => PatchSummary::empty(),
        }
    }

    /// Route candidates from descriptor roots and structurally relevant proofs.
    pub fn discovery_candidates(&self) -> (keys: Vec<VerifyingKey>)
        requires
            self.well_formed(),
        ensures
            exists|proofs: Seq<ProofState>| #[trigger]
                lists_proofs(proofs, self.authorization_evidence.held()) && keys@ == declared_keys(
                    self.authorization_evidence.descriptor.capability_policies@,
                ) + evidence_keys(proofs),
    {
        self.authorization_evidence.discovery_candidates()
    }

    /// Opaque digest suitable for the collection gossip wake root.
    ///
    /// Counts participate alongside roots, so that the digest commits to the
    /// same component summaries that repair uses. Neither a proof, record, blob
    /// handle, count, nor component root is disclosed by this value.
    pub fn wake_root(&self) -> (root: [u8; 32])
        ensures
            self.woken_by(root),
    {
        let records = self.records.summary();
        let evidence = self.authorization_evidence.summary();
        let blobs = self.inventory_summary();
        repair_root(&self.collection, &records, &evidence, &blobs)
    }
}

/// A repair root depends on nothing but the collection, the records, the proofs
/// and the resident blobs. Neither who may read or write, nor which capability
/// definitions are resident, nor the order in which anything arrived changes it.
pub proof fn law_wake_root_tells_only_what_is_held(
    a: CollectionRepairOverlay,
    b: CollectionRepairOverlay,
    root: [u8; 32],
    other: [u8; 32],
)
    requires
        a.collection == b.collection,
        a.records.contents() == b.records.contents(),
        a.records.root == b.records.root,
        a.authorization_evidence.held() == b.authorization_evidence.held(),
        a.authorization_evidence.root == b.authorization_evidence.root,
        a.blob_inventory@ == b.blob_inventory@,
        a.blob_root == b.blob_root,
        a.woken_by(root),
        b.woken_by(other),
    ensures
        root == other,
{
    let (r1, e1, b1) = choose|
        records: PatchSummary,
        evidence: PatchSummary,
        blobs: PatchSummary,
    |
        {
            &&& is_summary(records, a.records.contents().dom().len(), a.records.root)
            &&& is_summary(
                evidence,
                a.authorization_evidence.held().dom().len(),
                a.authorization_evidence.root,
            )
            &&& is_summary(blobs, a.blob_inventory@.dom().len(), a.blob_root)
            &&& root@ == blake3_hash(
                #[trigger] repair_bytes(a.collection, records, evidence, blobs),
            )
        };
    let (r2, e2, b2) = choose|
        records: PatchSummary,
        evidence: PatchSummary,
        blobs: PatchSummary,
    |
        {
            &&& is_summary(records, b.records.contents().dom().len(), b.records.root)
            &&& is_summary(
                evidence,
                b.authorization_evidence.held().dom().len(),
                b.authorization_evidence.root,
            )
            &&& is_summary(blobs, b.blob_inventory@.dom().len(), b.blob_root)
            &&& other@ == blake3_hash(
                #[trigger] repair_bytes(b.collection, records, evidence, blobs),
            )
        };
    lemma_summary_equal(r1, r2);
    lemma_summary_equal(e1, e2);
    lemma_summary_equal(b1, b2);
    lemma_same_bytes(root, other);
}

/// Failure while constructing collection-scoped authorization evidence.
#[derive(Debug)]
pub enum CollectionAuthorizationEvidenceDiscoveryError<ProofsError, GetError> {
    /// The descriptor is absent or structurally invalid.
    Descriptor(GetError),
    /// The coherent proof-store observation failed.
    Proofs(ProofsError),
    /// Canonical evidence construction found a proof-id collision.
    Evidence(CollectionAuthorizationEvidenceError),
}

/// Failure while selecting bounded READ proofs for a collection.
#[derive(Debug)]
pub enum CollectionReadBootstrapError<ProofsError, GetError> {
    /// The descriptor is absent or structurally invalid.
    Descriptor(GetError),
    /// The coherent proof-store observation failed.
    Proofs(ProofsError),
    /// More relevant proofs exist than the caller's transport bound permits.
    TooMany {
        /// Exact number of canonical relevant proofs.
        count: usize,
        /// Caller-supplied maximum.
        limit: usize,
    },
    /// Collection-scoped authorization evidence discovery failed.
    Authorization(CollectionAuthorizationEvidenceError),
}

/// Failure while freezing the repair overlay of one collection.
#[derive(Debug)]
pub enum CollectionRepairOverlayError<RecordsError, ProofsError, GetError> {
    /// Exact collection-record selection failed.
    Records(CollectionRecordPatchError<RecordsError>),
    /// The descriptor is absent or structurally invalid.
    Descriptor(GetError),
    /// The coherent proof-store observation failed.
    Proofs(ProofsError),
    /// Canonical evidence construction found a proof-id collision.
    Evidence(CollectionAuthorizationEvidenceError),
}

/// Freeze all structurally relevant proofs for the descriptor's declared roots
/// over the exact collection, from one coherent store observation. Missing
/// capability definitions remain repairable evidence without granting any
/// authority.
pub fn collection_authorization_evidence<P, G>(
    collection: [u8; 32],
    descriptor: Result<CollectionDescriptor, G>,
    definitions: ResidentDefinitions,
    proofs: Result<Vec<CapabilityProof>, P>,
) -> (result: Result<
    CollectionAuthorizationEvidencePatch,
    CollectionAuthorizationEvidenceDiscoveryError<P, G>,
>)
    ensures
        match (descriptor, proofs) {
            (Err(error), _) => result == Err::<
                CollectionAuthorizationEvidencePatch,
                CollectionAuthorizationEvidenceDiscoveryError<P, G>,
            >(CollectionAuthorizationEvidenceDiscoveryError::Descriptor(error)),
            (Ok(_), Err(error)) => result == Err::<
                CollectionAuthorizationEvidencePatch,
                CollectionAuthorizationEvidenceDiscoveryError<P, G>,
            >(CollectionAuthorizationEvidenceDiscoveryError::Proofs(error)),
            (Ok(descriptor), Ok(proofs)) => match (
                result,
                collected(
                    collection,
                    descriptor.capability_policies@,
                    definitions.routes@,
                    proof_states(proofs@),
                ),
            ) {
                (Ok(evidence), Ok(held)) => {
                    &&& evidence.collection == collection
                    &&& evidence.descriptor == descriptor
                    &&& evidence.definitions == definitions
                    &&& evidence.held() == held
                    &&& evidence.well_formed()
                },
                (Err(error), Err(wanted)) => error
                    == CollectionAuthorizationEvidenceDiscoveryError::<P, G>::Evidence(wanted),
                _ => false,
            },
        },
{
    match descriptor {
        Err(error) => Err(CollectionAuthorizationEvidenceDiscoveryError::Descriptor(error)),
        Ok(descriptor) => match proofs {
            Err(error) => Err(CollectionAuthorizationEvidenceDiscoveryError::Proofs(error)),
            Ok(proofs) => match canonical_authorization_evidence(
                collection,
                descriptor,
                definitions,
                proofs,
            ) {
                Ok(evidence) => Ok(evidence),
                Err(error) => Err(CollectionAuthorizationEvidenceDiscoveryError::Evidence(error)),
            },
        },
    }
}

/// Freeze exact collection records and the structurally relevant
/// descriptor-declared capability proofs.
///
/// Missing descriptor bytes or invalid archives fail closed. Invalid or
/// irrelevant ambient proofs are inert. Record inclusion is independent of WRITE
/// admission and time.
pub fn collection_repair_overlay<R, P, G>(
    collection: [u8; 32],
    descriptor: Result<CollectionDescriptor, G>,
    definitions: ResidentDefinitions,
    proofs: Result<Vec<CapabilityProof>, P>,
    records: Result<Vec<CollectionRecord>, R>,
) -> (result: Result<CollectionRepairOverlay, CollectionRepairOverlayError<R, P, G>>)
    ensures
        match (descriptor, proofs) {
            (Err(error), _) => result == Err::<
                CollectionRepairOverlay,
                CollectionRepairOverlayError<R, P, G>,
            >(CollectionRepairOverlayError::Descriptor(error)),
            (Ok(_), Err(error)) => result == Err::<
                CollectionRepairOverlay,
                CollectionRepairOverlayError<R, P, G>,
            >(CollectionRepairOverlayError::Proofs(error)),
            (Ok(descriptor), Ok(proofs)) => match collected(
                collection,
                descriptor.capability_policies@,
                definitions.routes@,
                proof_states(proofs@),
            ) {
                Err(error) => result == Err::<
                    CollectionRepairOverlay,
                    CollectionRepairOverlayError<R, P, G>,
                >(CollectionRepairOverlayError::Evidence(error)),
                Ok(held) => match records {
                    Err(error) => result == Err::<
                        CollectionRepairOverlay,
                        CollectionRepairOverlayError<R, P, G>,
                    >(
                        CollectionRepairOverlayError::Records(
                            CollectionRecordPatchError::Store(error),
                        ),
                    ),
                    Ok(records) => match (
                        result,
                        canonical(collection, record_states(records@)),
                    ) {
                        (Ok(overlay), Ok(known)) => {
                            &&& overlay.collection == collection
                            &&& overlay.records.collection == collection
                            &&& overlay.records.contents() == known
                            &&& overlay.authorization_evidence.collection == collection
                            &&& overlay.authorization_evidence.descriptor == descriptor
                            &&& overlay.authorization_evidence.definitions == definitions
                            &&& overlay.authorization_evidence.held() == held
                            &&& overlay.blob_inventory@ == Map::<[u8; 32], ()>::empty()
                            &&& overlay.well_formed()
                        },
                        (Err(error), Err(wanted)) => error
                            == CollectionRepairOverlayError::<R, P, G>::Records(
                            CollectionRecordPatchError::Evidence(wanted),
                        ),
                        _ => false,
                    },
                },
            },
        },
{
    CollectionRepairOverlay::observe(
        collection,
        collection_authorization_evidence(collection, descriptor, definitions, proofs),
        collection_record_patch(collection, records),
    )
}

/// Whether a witness of so many proofs is more than the transport permits.
pub open spec fn exceeds(count: nat, limit: usize) -> bool {
    count > limit
}

/// Bound a selected READ witness. A larger one fails rather than silently
/// dropping paths required by quorum.
pub fn collection_read_bootstrap_proofs<P, G>(
    selected: Result<
        Vec<CapabilityProof>,
        CollectionAuthorizationEvidenceDiscoveryError<P, G>,
    >,
    max_proofs: usize,
) -> (result: Result<Vec<CapabilityProof>, CollectionReadBootstrapError<P, G>>)
    ensures
        match selected {
            Ok(selected) => if exceeds(selected@.len(), max_proofs) {
                result == Err::<Vec<CapabilityProof>, CollectionReadBootstrapError<P, G>>(
                    CollectionReadBootstrapError::TooMany {
                        count: selected@.len() as usize,
                        limit: max_proofs,
                    },
                )
            } else {
                result == Ok::<Vec<CapabilityProof>, CollectionReadBootstrapError<P, G>>(selected)
            },
            Err(CollectionAuthorizationEvidenceDiscoveryError::Descriptor(error)) => result
                == Err::<Vec<CapabilityProof>, CollectionReadBootstrapError<P, G>>(
                CollectionReadBootstrapError::Descriptor(error),
            ),
            Err(CollectionAuthorizationEvidenceDiscoveryError::Proofs(error)) => result == Err::<
                Vec<CapabilityProof>,
                CollectionReadBootstrapError<P, G>,
            >(CollectionReadBootstrapError::Proofs(error)),
            Err(CollectionAuthorizationEvidenceDiscoveryError::Evidence(error)) => result == Err::<
                Vec<CapabilityProof>,
                CollectionReadBootstrapError<P, G>,
            >(CollectionReadBootstrapError::Authorization(error)),
        },
{
    match selected {
        Ok(selected) => {
            let count: usize = selected.len();
            if count > max_proofs {
                Err(CollectionReadBootstrapError::TooMany { count, limit: max_proofs })
            } else {
                Ok(selected)
            }
        },
        Err(CollectionAuthorizationEvidenceDiscoveryError::Descriptor(error)) => Err(
            CollectionReadBootstrapError::Descriptor(error),
        ),
        Err(CollectionAuthorizationEvidenceDiscoveryError::Proofs(error)) => Err(
            CollectionReadBootstrapError::Proofs(error),
        ),
        Err(CollectionAuthorizationEvidenceDiscoveryError::Evidence(error)) => Err(
            CollectionReadBootstrapError::Authorization(error),
        ),
    }
}

impl CollectionAuthorizationEvidenceError {
    /// What is wrong, in words. `source` is what the underlying proof error
    /// says.
    pub fn message(&self, source: &str) -> (text: String)
        ensures
            text@ == match *self {
                CollectionAuthorizationEvidenceError::OpenPolicies =>
                    "open READ and WRITE policies need no proof evidence"@,
                CollectionAuthorizationEvidenceError::WrongRoot =>
                    "capability proof starts outside the collection policy roots"@,
                CollectionAuthorizationEvidenceError::WrongResource =>
                    "capability proof names a different resource"@,
                CollectionAuthorizationEvidenceError::ResourceDescriptorUnavailable(resource) =>
                    "capability resource descriptor is unavailable: blake3:"@ + hex_text(resource@),
                CollectionAuthorizationEvidenceError::Invalid(_) =>
                    "invalid collection authorization proof: "@ + source@,
                CollectionAuthorizationEvidenceError::ProofIdCollision(id) =>
                    "distinct collection authorization proofs share id "@ + hex_text_upper(id@),
            },
    {
        match self {
            CollectionAuthorizationEvidenceError::OpenPolicies => String::from_str(
                "open READ and WRITE policies need no proof evidence",
            ),
            CollectionAuthorizationEvidenceError::WrongRoot => String::from_str(
                "capability proof starts outside the collection policy roots",
            ),
            CollectionAuthorizationEvidenceError::WrongResource => String::from_str(
                "capability proof names a different resource",
            ),
            CollectionAuthorizationEvidenceError::ResourceDescriptorUnavailable(resource) => {
                let mut text = String::from_str(
                    "capability resource descriptor is unavailable: blake3:",
                );
                text.append(encode(resource).as_str());
                text
            },
            CollectionAuthorizationEvidenceError::Invalid(_) => {
                let mut text = String::from_str("invalid collection authorization proof: ");
                text.append(source);
                text
            },
            CollectionAuthorizationEvidenceError::ProofIdCollision(id) => {
                let mut text = String::from_str(
                    "distinct collection authorization proofs share id ",
                );
                text.append(encode_upper(id).as_str());
                text
            },
        }
    }
}

} // verus!
