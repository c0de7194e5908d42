//! Copies of an observation: they hold the same and decide the same.

use vstd::prelude::*;

use crate::collection_activation::{
    any_relevant, bound_policies, proofs_in, relevant, routed_policies, AdmissionPolicy,
    CapabilityPolicy, CapabilityProof, CollectionAuthorizationEvidencePatch, CollectionDescriptor,
    CollectionPolicy, CollectionRepairOverlay, ProofState, ResidentDefinitions, ResourceEntity,
    VerifyingKey,
};
use crate::collection_delta::{
    record_values, CollectionRecord, CollectionRecordPatch, RecordDecodeError,
};
use crate::key_map::{contents, lemma_contents_take, KeyMap};

verus! {

/// A policy as a value.
pub enum PolicyState {
    Open,
    Quorum { roots: Seq<VerifyingKey>, threshold: u32 },
}

impl View for AdmissionPolicy {
    type V = PolicyState;

    open spec fn view(&self) -> PolicyState {
        match self {
            AdmissionPolicy::Open => PolicyState::Open,
            AdmissionPolicy::Quorum { roots, threshold } => PolicyState::Quorum {
                roots: roots@,
                threshold: *threshold,
            },
        }
    }
}

impl Clone for AdmissionPolicy {
    fn clone(&self) -> (copy: Self)
        ensures
            copy@ == self@,
    {
        match self {
            AdmissionPolicy::Open => AdmissionPolicy::Open,
            AdmissionPolicy::Quorum { roots, threshold } => AdmissionPolicy::Quorum {
                roots: copy_keys(roots),
                threshold: *threshold,
            },
        }
    }
}

fn copy_keys(keys: &[VerifyingKey]) -> (copy: Vec<VerifyingKey>)
    ensures
        copy@ == keys@,
{
    let mut copy: Vec<VerifyingKey> = Vec::new();
    for i in 0..keys.len()
        invariant
            copy@ == keys@.take(i as int),
    {
        copy.push(keys[i]);
        assert(keys@.take(i + 1) =~= keys@.take(i as int).push(keys@[i as int]));
    }
    assert(keys@.take(keys@.len() as int) =~= keys@);
    copy
}

/// Policies as values.
pub open spec fn policy_states(policies: Seq<AdmissionPolicy>) -> Seq<PolicyState> {
    policies.map_values(|policy: AdmissionPolicy| policy@)
}

fn copy_policies(policies: &[AdmissionPolicy]) -> (copy: Vec<AdmissionPolicy>)
    ensures
        policy_states(copy@) == policy_states(policies@),
{
    let mut copy: Vec<AdmissionPolicy> = Vec::new();
    for i in 0..policies.len()
        invariant
            copy@.len() == i,
            forall|j: int| 0 <= j < i ==> (#[trigger] copy@[j])@ == policies@[j]@,
    {
        let policy = policies[i].clone();
        copy.push(policy);
    }
    assert(policy_states(copy@) =~= policy_states(policies@));
    copy
}

/// The same roots are relevant to the same policies.
proof fn lemma_same_relevance(a: Seq<AdmissionPolicy>, b: Seq<AdmissionPolicy>, root: VerifyingKey)
    requires
        policy_states(a) == policy_states(b),
    ensures
        any_relevant(a, root) == any_relevant(b, root),
{
    assert(a.len() == policy_states(a).len() && b.len() == policy_states(b).len());
    assert forall|i: int| 0 <= i < a.len() implies #[trigger] relevant(a[i], root) == relevant(
        b[i],
        root,
    ) by {
        assert(policy_states(a)[i] == a[i]@ && policy_states(b)[i] == b[i]@);
    }
    if any_relevant(a, root) {
        let i = choose|i: int| 0 <= i < a.len() && relevant(#[trigger] a[i], root);
        assert(relevant(a[i], root));
        assert(relevant(b[i], root));
    }
    if any_relevant(b, root) {
        let i = choose|i: int| 0 <= i < b.len() && relevant(#[trigger] b[i], root);
        assert(relevant(a[i], root) == relevant(b[i], root));
    }
}

/// What a descriptor declares, as a value.
pub struct DescriptorState {
    pub policy: Result<(PolicyState, PolicyState), RecordDecodeError>,
    pub bindings: Seq<([u8; 32], PolicyState)>,
}

impl View for CollectionDescriptor {
    type V = DescriptorState;

    open spec fn view(&self) -> DescriptorState {
        DescriptorState {
            policy: match self.policy {
                Ok(policy) => Ok((policy.read@, policy.write@)),
                Err(error) => Err(error),
            },
            bindings: self.capability_policies@.map_values(
                |binding: CapabilityPolicy| (binding.capability, binding.policy@),
            ),
        }
    }
}

impl Clone for CollectionDescriptor {
    fn clone(&self) -> (copy: Self)
        ensures
            copy@ == self@,
    {
        let policy = match &self.policy {
            Ok(policy) => Ok(
                CollectionPolicy { read: policy.read.clone(), write: policy.write.clone() },
            ),
            Err(error) => Err(*error),
        };
        let mut capability_policies: Vec<CapabilityPolicy> = Vec::new();
        for i in 0..self.capability_policies.len()
            invariant
                capability_policies@.len() == i,
                forall|j: int|
                    0 <= j < i ==> (#[trigger] capability_policies@[j]).capability
                        == self.capability_policies@[j].capability && capability_policies@[j].policy@
                        == self.capability_policies@[j].policy@,
        {
            let binding = &self.capability_policies[i];
            capability_policies.push(
                CapabilityPolicy { capability: binding.capability, policy: binding.policy.clone() },
            );
        }
        let copy = CollectionDescriptor { policy, capability_policies };
        assert(copy@.bindings =~= self@.bindings);
        copy
    }
}

/// An entity of a resource, as a value.
pub struct EntityState {
    pub collections: Seq<[u8; 32]>,
    pub policies: Seq<PolicyState>,
}

impl View for ResourceEntity {
    type V = EntityState;

    open spec fn view(&self) -> EntityState {
        EntityState { collections: self.collections@, policies: policy_states(self.policies@) }
    }
}

/// Entities as values.
pub open spec fn entity_states(entities: Seq<ResourceEntity>) -> Seq<EntityState> {
    entities.map_values(|entity: ResourceEntity| entity@)
}

fn copy_entities(entities: &[ResourceEntity]) -> (copy: Vec<ResourceEntity>)
    ensures
        entity_states(copy@) == entity_states(entities@),
{
    let mut copy: Vec<ResourceEntity> = Vec::new();
    for i in 0..entities.len()
        invariant
            copy@.len() == i,
            forall|j: int| 0 <= j < i ==> (#[trigger] copy@[j])@ == entities@[j]@,
    {
        let entity = &entities[i];
        copy.push(
            ResourceEntity {
                collections: copy_keys(&entity.collections),
                policies: copy_policies(&entity.policies),
            },
        );
    }
    assert(entity_states(copy@) =~= entity_states(entities@));
    copy
}

/// Routes as values.
pub open spec fn route_states(routes: Map<[u8; 32], Vec<ResourceEntity>>) -> Map<
    [u8; 32],
    Seq<EntityState>,
> {
    routes.map_values(|entities: Vec<ResourceEntity>| entity_states(entities@))
}

/// The same entities route the same roots.
proof fn lemma_same_routes(
    a: Seq<ResourceEntity>,
    b: Seq<ResourceEntity>,
    collection: [u8; 32],
    root: VerifyingKey,
)
    requires
        entity_states(a) == entity_states(b),
    ensures
        any_relevant(routed_policies(a, collection), root) == any_relevant(
            routed_policies(b, collection),
            root,
        ),
{
    crate::collection_activation::law_routes_need_one_entity(a, collection, root);
    crate::collection_activation::law_routes_need_one_entity(b, collection, root);
    assert(a.len() == entity_states(a).len() && b.len() == entity_states(b).len());
    assert forall|i: int| 0 <= i < a.len() implies (#[trigger] a[i]).collections@
        == b[i].collections@ && any_relevant(a[i].policies@, root) == any_relevant(
        b[i].policies@,
        root,
    ) by {
        assert(entity_states(a)[i] == a[i]@ && entity_states(b)[i] == b[i]@);
        lemma_same_relevance(a[i].policies@, b[i].policies@, root);
    }
    if any_relevant(routed_policies(a, collection), root) {
        let i = choose|i: int|
            0 <= i < a.len() && (#[trigger] a[i]).collections@.contains(collection)
                && any_relevant(a[i].policies@, root);
        assert(b[i].collections@.contains(collection));
    }
    if any_relevant(routed_policies(b, collection), root) {
        let i = choose|i: int|
            0 <= i < b.len() && (#[trigger] b[i]).collections@.contains(collection)
                && any_relevant(b[i].policies@, root);
        assert(a[i].collections@.contains(collection));
    }
}

/// What resident blobs define, as a value.
pub struct DefinitionState {
    pub read_policies: Seq<PolicyState>,
    pub write_policies: Seq<PolicyState>,
    pub routes: Map<[u8; 32], Seq<EntityState>>,
}

impl View for ResidentDefinitions {
    type V = DefinitionState;

    open spec fn view(&self) -> DefinitionState {
        DefinitionState {
            read_policies: policy_states(self.read_policies@),
            write_policies: policy_states(self.write_policies@),
            routes: route_states(self.routes@),
        }
    }
}

impl Clone for ResidentDefinitions {
    fn clone(&self) -> (copy: Self)
        ensures
            copy@ == self@,
    {
        let entries = self.routes.entries();
        let mut routes: KeyMap<32, Vec<ResourceEntity>> = KeyMap::new();
        assert(entries@.take(0) =~= Seq::empty());
        assert(route_states(routes@) =~= route_states(contents(entries@.take(0))));
        for i in 0..entries.len()
            invariant
                route_states(routes@) == route_states(contents(entries@.take(i as int))),
        {
            let ghost before = routes@;
            let entities = copy_entities(&entries[i].1);
            routes.insert(entries[i].0, entities);
            proof {
                lemma_contents_take(entries@, i as int);
                let done = contents(entries@.take(i as int));
                assert(route_states(before.insert(entries@[i as int].0, entities)) =~= route_states(
                    before,
                ).insert(entries@[i as int].0, entity_states(entities@)));
                assert(route_states(done.insert(entries@[i as int].0, entries@[i as int].1))
                    =~= route_states(done).insert(
                    entries@[i as int].0,
                    entity_states(entries@[i as int].1@),
                ));
            }
        }
        assert(entries@.take(entries@.len() as int) =~= entries@);
        ResidentDefinitions {
            read_policies: copy_policies(&self.read_policies),
            write_policies: copy_policies(&self.write_policies),
            routes,
        }
    }
}

/// Proofs of an index, as values.
pub open spec fn proof_values(index: Map<[u8; 64], CapabilityProof>) -> Map<[u8; 64], ProofState> {
    index.map_values(|proof: CapabilityProof| proof@)
}

fn copy_proofs(index: &KeyMap<64, CapabilityProof>) -> (copy: KeyMap<64, CapabilityProof>)
    ensures
        proof_values(copy@) == proof_values(index@),
{
    let entries = index.entries();
    let mut copy: KeyMap<64, CapabilityProof> = KeyMap::new();
    assert(entries@.take(0) =~= Seq::empty());
    assert(proof_values(copy@) =~= proof_values(contents(entries@.take(0))));
    for i in 0..entries.len()
        invariant
            proof_values(copy@) == proof_values(contents(entries@.take(i as int))),
    {
        let ghost before = copy@;
        let value = entries[i].1.clone();
        copy.insert(entries[i].0, value);
        proof {
            lemma_contents_take(entries@, i as int);
            let done = contents(entries@.take(i as int));
            assert(proof_values(before.insert(entries@[i as int].0, value)) =~= proof_values(
                before,
            ).insert(entries@[i as int].0, value@));
            assert(proof_values(done.insert(entries@[i as int].0, entries@[i as int].1))
                =~= proof_values(done).insert(entries@[i as int].0, entries@[i as int].1@));
        }
    }
    assert(entries@.take(entries@.len() as int) =~= entries@);
    copy
}

impl CollectionAuthorizationEvidencePatch {
    /// Whether two evidence sets hold the same under the same policies.
    pub open spec fn same_as(&self, other: &Self) -> bool {
        &&& self.collection == other.collection
        &&& self.descriptor@ == other.descriptor@
        &&& self.definitions@ == other.definitions@
        &&& proof_values(self.proofs@) == proof_values(other.proofs@)
        &&& self.root == other.root
    }
}

impl Clone for CollectionAuthorizationEvidencePatch {
    fn clone(&self) -> (copy: Self)
        ensures
            copy.same_as(self),
    {
        CollectionAuthorizationEvidencePatch {
            collection: self.collection,
            descriptor: self.descriptor.clone(),
            definitions: self.definitions.clone(),
            proofs: copy_proofs(&self.proofs),
            root: self.root,
        }
    }
}

impl Clone for CollectionRecordPatch {
    fn clone(&self) -> (copy: Self)
        ensures
            copy.collection == self.collection,
            copy.root == self.root,
            copy.contents() == self.contents(),
    {
        let entries = self.records.entries();
        let mut records: KeyMap<32, CollectionRecord> = KeyMap::new();
        assert(entries@.take(0) =~= Seq::empty());
        assert(record_values(records@) =~= record_values(contents(entries@.take(0))));
        for i in 0..entries.len()
            invariant
                record_values(records@) == record_values(contents(entries@.take(i as int))),
        {
            let ghost before = records@;
            let value = entries[i].1.clone();
            records.insert(entries[i].0, value);
            proof {
                lemma_contents_take(entries@, i as int);
                let done = contents(entries@.take(i as int));
                assert(record_values(before.insert(entries@[i as int].0, value)) =~= record_values(
                    before,
                ).insert(entries@[i as int].0, value@));
                assert(record_values(done.insert(entries@[i as int].0, entries@[i as int].1))
                    =~= record_values(done).insert(entries@[i as int].0, entries@[i as int].1@));
            }
        }
        assert(entries@.take(entries@.len() as int) =~= entries@);
        CollectionRecordPatch { collection: self.collection, records, root: self.root }
    }
}

impl Clone for CollectionRepairOverlay {
    fn clone(&self) -> (copy: Self)
        ensures
            copy.collection == self.collection,
            copy.records.collection == self.records.collection,
            copy.records.root == self.records.root,
            copy.records.contents() == self.records.contents(),
            copy.authorization_evidence.same_as(&self.authorization_evidence),
            copy.blob_inventory@ == self.blob_inventory@,
            copy.blob_root == self.blob_root,
    {
        CollectionRepairOverlay {
            collection: self.collection,
            records: self.records.clone(),
            authorization_evidence: self.authorization_evidence.clone(),
            blob_inventory: self.blob_inventory.clone(),
            blob_root: self.blob_root,
        }
    }
}

/// Evidence sets that are the same hold the same proofs and judge every proof
/// alike.
pub proof fn law_copies_decide_alike(
    a: CollectionAuthorizationEvidencePatch,
    b: CollectionAuthorizationEvidencePatch,
    candidate: ProofState,
)
    requires
        a.same_as(&b),
    ensures
        a.held() == b.held(),
        a.check(candidate) == b.check(candidate),
{
    assert(proofs_in(a.proofs@, a.collection) == proofs_in(b.proofs@, b.collection));
    let x = a.descriptor.capability_policies@;
    let y = b.descriptor.capability_policies@;
    assert(a.descriptor@.bindings == b.descriptor@.bindings);
    assert(x.len() == a.descriptor@.bindings.len() && y.len() == b.descriptor@.bindings.len());
    assert(policy_states(bound_policies(x)) =~= policy_states(bound_policies(y))) by {
        assert forall|i: int| 0 <= i < x.len() implies x[i].policy@ == y[i].policy@ by {
            assert(a.descriptor@.bindings[i] == (x[i].capability, x[i].policy@));
            assert(b.descriptor@.bindings[i] == (y[i].capability, y[i].policy@));
        }
    }
    lemma_same_relevance(bound_policies(x), bound_policies(y), candidate.root_key);
    let p = a.definitions.routes@;
    let q = b.definitions.routes@;
    assert(route_states(p) == route_states(q));
    assert(p.contains_key(candidate.resource) == route_states(p).contains_key(candidate.resource));
    assert(q.contains_key(candidate.resource) == route_states(q).contains_key(candidate.resource));
    if p.contains_key(candidate.resource) {
        assert(route_states(p)[candidate.resource] == entity_states(p[candidate.resource]@));
        assert(route_states(q)[candidate.resource] == entity_states(q[candidate.resource]@));
        lemma_same_routes(
            p[candidate.resource]@,
            q[candidate.resource]@,
            a.collection,
            candidate.root_key,
        );
    }
}

} // verus!
