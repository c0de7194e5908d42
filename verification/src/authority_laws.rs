//! Which proofs count for a collection, and what is made of them.

use vstd::prelude::*;

use crate::collection_activation::{
    admitted_by, any_open, any_relevant, bootstrap, bound_policies, chain_keys, collected,
    declared_keys, earliest_witness, evidence_check, evidence_for_policy, evidence_keys, exceeds,
    in_audience, is_joint_audience, law_evidence_set, law_routes_need_one_entity, lists_proofs,
    proof_reaches, relevant, routed_policies, trimmed, witnesses, AdmissionPolicy,
    CapabilityPolicy, CollectionAuthorizationEvidenceError, CollectionPolicy,
    CollectionReadAudience, CollectionRepairOverlay, PrefixWitness, ProofState, ResourceEntity,
    VerifyingKey,
};
use crate::collection_session::kept;

verus! {

/// A proof reaches the subject of every one of its steps, however far from its
/// root, and nobody else.
pub proof fn law_a_proof_reaches_every_delegate(proof: ProofState, subject: VerifyingKey)
    ensures
        forall|i: int|
            0 <= i < proof.links.len() ==> proof_reaches(
                proof,
                (#[trigger] proof.links[i]).subject,
            ),
        (forall|i: int| 0 <= i < proof.links.len() ==> (#[trigger] proof.links[i]).subject
            != subject) ==> !proof_reaches(proof, subject),
{
}

/// A longer chain reaches whom the shorter one reached, and its new delegate.
pub proof fn law_delegation_reaches_further(
    proof: ProofState,
    longer: ProofState,
    subject: VerifyingKey,
)
    requires
        longer.links.len() == proof.links.len() + 1,
        longer.links.drop_last() == proof.links,
    ensures
        proof_reaches(longer, longer.links.last().subject),
        proof_reaches(proof, subject) ==> proof_reaches(longer, subject),
{
    assert(longer.links[longer.links.len() - 1] == longer.links.last());
    if proof_reaches(proof, subject) {
        let i = choose|i: int|
            0 <= i < proof.links.len() && (#[trigger] proof.links[i]).subject == subject;
        assert(longer.links[i] == proof.links[i]);
    }
}

/// Whether a key is a root of some quorum among policies.
pub open spec fn names_root(policies: Seq<AdmissionPolicy>, root: VerifyingKey) -> bool {
    exists|i: int|
        #![trigger policies[i]]
        0 <= i < policies.len() && policies[i] is Quorum && policies[i]->Quorum_roots@.contains(
            root,
        )
}

/// Whether a key is a root of some quorum that a descriptor binds, whatever the
/// capability.
pub open spec fn declares_root(bindings: Seq<CapabilityPolicy>, root: VerifyingKey) -> bool {
    exists|i: int|
        #![trigger bindings[i]]
        0 <= i < bindings.len() && bindings[i].policy is Quorum
            && bindings[i].policy->Quorum_roots@.contains(root)
}

/// Whether one entity both names the collection and binds a quorum with the root.
pub open spec fn routes_root(
    entities: Seq<ResourceEntity>,
    collection: [u8; 32],
    root: VerifyingKey,
) -> bool {
    exists|i: int|
        #![trigger entities[i]]
        0 <= i < entities.len() && entities[i].collections@.contains(collection) && names_root(
            entities[i].policies@,
            root,
        )
}

proof fn lemma_names_root(policies: Seq<AdmissionPolicy>, root: VerifyingKey)
    ensures
        any_relevant(policies, root) <==> names_root(policies, root),
{
    if any_relevant(policies, root) {
        let i = choose|i: int| 0 <= i < policies.len() && relevant(#[trigger] policies[i], root);
        assert(policies[i] is Quorum && policies[i]->Quorum_roots@.contains(root));
    }
    if names_root(policies, root) {
        let i = choose|i: int|
            #![trigger policies[i]]
            0 <= i < policies.len() && policies[i] is Quorum
                && policies[i]->Quorum_roots@.contains(root);
        assert(relevant(policies[i], root));
    }
}

proof fn lemma_declares_root(bindings: Seq<CapabilityPolicy>, root: VerifyingKey)
    ensures
        any_relevant(bound_policies(bindings), root) <==> declares_root(bindings, root),
{
    let policies = bound_policies(bindings);
    lemma_names_root(policies, root);
    if names_root(policies, root) {
        let i = choose|i: int|
            #![trigger policies[i]]
            0 <= i < policies.len() && policies[i] is Quorum
                && policies[i]->Quorum_roots@.contains(root);
        assert(bindings[i].policy == policies[i]);
    }
    if declares_root(bindings, root) {
        let i = choose|i: int|
            #![trigger bindings[i]]
            0 <= i < bindings.len() && bindings[i].policy is Quorum
                && bindings[i].policy->Quorum_roots@.contains(root);
        assert(policies[i] == bindings[i].policy);
    }
}

proof fn lemma_routes_root(
    entities: Seq<ResourceEntity>,
    collection: [u8; 32],
    root: VerifyingKey,
)
    ensures
        any_relevant(routed_policies(entities, collection), root) <==> routes_root(
            entities,
            collection,
            root,
        ),
{
    law_routes_need_one_entity(entities, collection, root);
    if any_relevant(routed_policies(entities, collection), root) {
        let i = choose|i: int|
            0 <= i < entities.len() && (#[trigger] entities[i]).collections@.contains(collection)
                && any_relevant(entities[i].policies@, root);
        lemma_names_root(entities[i].policies@, root);
        assert(entities[i].collections@.contains(collection));
    }
    if routes_root(entities, collection, root) {
        let i = choose|i: int|
            #![trigger entities[i]]
            0 <= i < entities.len() && entities[i].collections@.contains(collection) && names_root(
                entities[i].policies@,
                root,
            );
        lemma_names_root(entities[i].policies@, root);
        assert(entities[i].collections@.contains(collection));
    }
}

/// A proof over the collection itself is evidence exactly if its root is declared
/// and its signatures hold. One from another root is refused for its root, and one
/// from a declared root for its signatures.
pub proof fn law_collection_proof_needs_a_declared_root(
    collection: [u8; 32],
    bindings: Seq<CapabilityPolicy>,
    routes: Map<[u8; 32], Vec<ResourceEntity>>,
    proof: ProofState,
)
    requires
        proof.resource == collection,
    ensures
        !declares_root(bindings, proof.root_key) ==> evidence_check(
            collection,
            bindings,
            routes,
            proof,
        ) == Err::<(), CollectionAuthorizationEvidenceError>(
            CollectionAuthorizationEvidenceError::WrongRoot,
        ),
        declares_root(bindings, proof.root_key) && proof.signature_error is None
            ==> evidence_check(collection, bindings, routes, proof) is Ok,
        declares_root(bindings, proof.root_key) && proof.signature_error is Some
            ==> evidence_check(collection, bindings, routes, proof) == Err::<
            (),
            CollectionAuthorizationEvidenceError,
        >(CollectionAuthorizationEvidenceError::Invalid(proof.signature_error->0)),
{
    lemma_declares_root(bindings, proof.root_key);
}

/// A proof over another resource is no evidence, and that for want of the
/// resource's descriptor, until that descriptor is resident. Then it is evidence
/// exactly if one entity of the descriptor routes its root here and its signatures
/// hold; what the collection itself declares has no part in it.
pub proof fn law_subordinate_proof_needs_a_route(
    collection: [u8; 32],
    bindings: Seq<CapabilityPolicy>,
    routes: Map<[u8; 32], Vec<ResourceEntity>>,
    proof: ProofState,
)
    requires
        proof.resource != collection,
    ensures
        ({
            let checked = evidence_check(collection, bindings, routes, proof);
            let routed = routes_root(routes[proof.resource]@, collection, proof.root_key);
            &&& !routes.contains_key(proof.resource) ==> checked == Err::<
                (),
                CollectionAuthorizationEvidenceError,
            >(
                CollectionAuthorizationEvidenceError::ResourceDescriptorUnavailable(
                    proof.resource,
                ),
            )
            &&& routes.contains_key(proof.resource) && !routed ==> checked == Err::<
                (),
                CollectionAuthorizationEvidenceError,
            >(CollectionAuthorizationEvidenceError::WrongRoot)
            &&& routes.contains_key(proof.resource) && routed && proof.signature_error is None
                ==> checked is Ok
            &&& routes.contains_key(proof.resource) && routed && proof.signature_error is Some
                ==> checked == Err::<(), CollectionAuthorizationEvidenceError>(
                CollectionAuthorizationEvidenceError::Invalid(proof.signature_error->0),
            )
        }),
{
    lemma_routes_root(routes[proof.resource]@, collection, proof.root_key);
}

/// Collecting evidence fails in one way: two different pieces of evidence among
/// the candidates share the identity that the error names.
pub proof fn law_only_a_collision_is_refused(
    collection: [u8; 32],
    bindings: Seq<CapabilityPolicy>,
    routes: Map<[u8; 32], Vec<ResourceEntity>>,
    candidates: Seq<ProofState>,
)
    ensures
        collected(collection, bindings, routes, candidates) matches Err(error) ==> error
            is ProofIdCollision && exists|a: ProofState, b: ProofState| #[trigger]
            candidates.contains(a) && #[trigger] candidates.contains(b) && a != b && a.id
                == error->ProofIdCollision_0 && b.id == error->ProofIdCollision_0
                && evidence_check(collection, bindings, routes, a) is Ok && evidence_check(
                collection,
                bindings,
                routes,
                b,
            ) is Ok,
    decreases candidates.len(),
{
    if candidates.len() > 0 {
        let front = candidates.drop_last();
        let last = candidates.last();
        law_only_a_collision_is_refused(collection, bindings, routes, front);
        assert(candidates[candidates.len() - 1] == last);
        assert forall|candidate: ProofState| #[trigger]
            front.contains(candidate) implies candidates.contains(candidate) by {
            let i = choose|i: int| 0 <= i < front.len() && front[i] == candidate;
            assert(candidates[i] == candidate);
        }
        match collected(collection, bindings, routes, front) {
            Err(error) => {
                let (a, b) = choose|a: ProofState, b: ProofState| #[trigger]
                    front.contains(a) && #[trigger] front.contains(b) && a != b && a.id
                        == error->ProofIdCollision_0 && b.id == error->ProofIdCollision_0
                        && evidence_check(collection, bindings, routes, a) is Ok && evidence_check(
                        collection,
                        bindings,
                        routes,
                        b,
                    ) is Ok;
                assert(candidates.contains(a) && candidates.contains(b));
            },
            Ok(held) => {
                law_evidence_set(collection, bindings, routes, front);
                if collected(collection, bindings, routes, candidates) is Err {
                    let other = held[last.id];
                    assert(held.contains_pair(other.id, other));
                    assert(candidates.contains(other) && candidates.contains(last));
                }
            },
        }
    }
}

/// Whether the evidence is for the collection that it is held with.
pub open spec fn is_coherent(overlay: CollectionRepairOverlay) -> bool {
    overlay.authorization_evidence.collection == overlay.collection
}

/// Whether a proof grants the client something over the collection by a valid
/// chain from a declared root, and is not held yet.
pub open spec fn is_new_grant(
    overlay: CollectionRepairOverlay,
    client: VerifyingKey,
    proof: ProofState,
) -> bool {
    &&& proof.resource == overlay.collection
    &&& declares_root(
        overlay.authorization_evidence.descriptor.capability_policies@,
        proof.root_key,
    )
    &&& proof.signature_error is None
    &&& exists|i: int| 0 <= i < proof.links.len() && (#[trigger] proof.links[i]).subject == client
    &&& !overlay.authorization_evidence.held().contains_key(proof.id)
}

/// Of the proofs that a client brings, the server keeps exactly those that are
/// new, over the collection, from a declared root, validly signed, and that grant
/// something to the client in any of their steps. They are kept in order.
pub proof fn law_server_keeps_the_grants_of_its_client(
    overlay: CollectionRepairOverlay,
    client: VerifyingKey,
    candidates: Seq<ProofState>,
)
    requires
        is_coherent(overlay),
    ensures
        kept(overlay, client, candidates) == candidates.filter(
            |proof: ProofState| is_new_grant(overlay, client, proof),
        ),
    decreases candidates.len(),
{
    reveal(Seq::filter);
    if candidates.len() > 0 {
        law_server_keeps_the_grants_of_its_client(overlay, client, candidates.drop_last());
        let last = candidates.last();
        if last.resource == overlay.collection {
            law_collection_proof_needs_a_declared_root(
                overlay.collection,
                overlay.authorization_evidence.descriptor.capability_policies@,
                overlay.authorization_evidence.definitions.routes@,
                last,
            );
        }
        law_a_proof_reaches_every_delegate(last, client);
    }
}

/// A new valid proof over the collection, from a declared root, whose last step
/// grants to the client, is among those that are kept, however long its chain is.
pub proof fn law_delegated_reader_is_kept(
    overlay: CollectionRepairOverlay,
    candidates: Seq<ProofState>,
    proof: ProofState,
)
    requires
        is_coherent(overlay),
        candidates.contains(proof),
        proof.resource == overlay.collection,
        declares_root(
            overlay.authorization_evidence.descriptor.capability_policies@,
            proof.root_key,
        ),
        proof.signature_error is None,
        proof.links.len() > 0,
        !overlay.authorization_evidence.held().contains_key(proof.id),
    ensures
        kept(overlay, proof.links.last().subject, candidates).contains(proof),
{
    let client = proof.links.last().subject;
    assert(proof.links[proof.links.len() - 1].subject == client);
    let wanted = |proof: ProofState| is_new_grant(overlay, client, proof);
    law_server_keeps_the_grants_of_its_client(overlay, client, candidates);
    assert(wanted(proof));
    let i = choose|i: int| 0 <= i < candidates.len() && candidates[i] == proof;
    candidates.lemma_filter_contains(wanted, i);
}

/// The keys to look for are the roots of every quorum that is declared, then of
/// every held proof its root and each of its delegates, and no others.
pub proof fn law_every_named_key_is_a_candidate(
    bindings: Seq<CapabilityPolicy>,
    proofs: Seq<ProofState>,
    key: VerifyingKey,
)
    ensures
        declared_keys(bindings).contains(key) <==> declares_root(bindings, key),
        evidence_keys(proofs).contains(key) <==> exists|i: int|
            #![trigger proofs[i]]
            0 <= i < proofs.len() && (proofs[i].root_key == key || proof_reaches(proofs[i], key)),
    decreases bindings.len() + proofs.len(),
{
    if bindings.len() > 0 {
        let front = bindings.drop_last();
        let last = bindings.last();
        law_every_named_key_is_a_candidate(front, proofs, key);
        let roots = crate::collection_activation::policy_roots(last.policy);
        lemma_contains_either(declared_keys(front), roots, key);
        if declares_root(bindings, key) {
            let i = choose|i: int|
                #![trigger bindings[i]]
                0 <= i < bindings.len() && bindings[i].policy is Quorum
                    && bindings[i].policy->Quorum_roots@.contains(key);
            if i < front.len() {
                assert(front[i] == bindings[i]);
            }
        }
        if declares_root(front, key) {
            let i = choose|i: int|
                #![trigger front[i]]
                0 <= i < front.len() && front[i].policy is Quorum
                    && front[i].policy->Quorum_roots@.contains(key);
            assert(bindings[i] == front[i]);
        }
        assert(bindings[bindings.len() - 1] == last);
    }
    if proofs.len() > 0 {
        let front = proofs.drop_last();
        let last = proofs.last();
        law_every_named_key_is_a_candidate(bindings, front, key);
        lemma_contains_either(evidence_keys(front), chain_keys(last), key);
        lemma_chain_keys(last, key);
        let named = |all: Seq<ProofState>|
            exists|i: int|
                #![trigger all[i]]
                0 <= i < all.len() && (all[i].root_key == key || proof_reaches(all[i], key));
        if named(proofs) {
            let i = choose|i: int|
                #![trigger proofs[i]]
                0 <= i < proofs.len() && (proofs[i].root_key == key || proof_reaches(
                    proofs[i],
                    key,
                ));
            if i < front.len() {
                assert(front[i] == proofs[i]);
            }
        }
        if named(front) {
            let i = choose|i: int|
                #![trigger front[i]]
                0 <= i < front.len() && (front[i].root_key == key || proof_reaches(front[i], key));
            assert(proofs[i] == front[i]);
        }
        assert(proofs[proofs.len() - 1] == last);
    }
}

proof fn lemma_contains_either<T>(a: Seq<T>, b: Seq<T>, item: T)
    ensures
        (a + b).contains(item) <==> a.contains(item) || b.contains(item),
{
    let all = a + b;
    if all.contains(item) {
        let i = choose|i: int| 0 <= i < all.len() && all[i] == item;
        if i < a.len() {
            assert(a[i] == item);
        } else {
            assert(b[i - a.len()] == item);
        }
    }
    if a.contains(item) {
        let i = choose|i: int| 0 <= i < a.len() && a[i] == item;
        assert(all[i] == item);
    }
    if b.contains(item) {
        let i = choose|i: int| 0 <= i < b.len() && b[i] == item;
        assert(all[a.len() + i] == item);
    }
}

proof fn lemma_chain_keys(proof: ProofState, key: VerifyingKey)
    ensures
        chain_keys(proof).contains(key) <==> proof.root_key == key || proof_reaches(proof, key),
{
    let keys = chain_keys(proof);
    assert(keys[0] == proof.root_key);
    assert forall|i: int| 0 <= i < proof.links.len() implies keys[i + 1] == (
    #[trigger] proof.links[i]).subject by {}
    if keys.contains(key) {
        let i = choose|i: int| 0 <= i < keys.len() && keys[i] == key;
        if i > 0 {
            assert(proof.links[i - 1].subject == key);
        }
    }
    if proof_reaches(proof, key) {
        let i = choose|i: int|
            0 <= i < proof.links.len() && (#[trigger] proof.links[i]).subject == key;
        assert(keys[i + 1] == key);
    }
}

/// Whether a beginning lets the subject read.
pub open spec fn lets_read(prefix: PrefixWitness, subject: VerifyingKey) -> bool {
    prefix.subject == subject && prefix.reads
}

/// The witness of a proof is its shortest beginning that lets the subject read,
/// and there is none exactly if no beginning does.
pub proof fn law_witness_is_the_shortest_beginning(
    prefixes: Seq<PrefixWitness>,
    subject: VerifyingKey,
    at: int,
)
    ensures
        0 <= at < prefixes.len() && lets_read(prefixes[at], subject) && (forall|i: int|
            0 <= i < at ==> !lets_read(#[trigger] prefixes[i], subject)) ==> earliest_witness(
            prefixes,
            subject,
        ) == Some(prefixes[at].witness@),
        (forall|i: int| 0 <= i < prefixes.len() ==> !lets_read(#[trigger] prefixes[i], subject))
            <==> earliest_witness(prefixes, subject) is None,
    decreases prefixes.len(),
{
    if prefixes.len() > 0 {
        let front = prefixes.drop_last();
        law_witness_is_the_shortest_beginning(front, subject, at);
        assert forall|i: int| 0 <= i < front.len() implies front[i] == prefixes[i] by {}
        let none_in_front = forall|i: int|
            0 <= i < front.len() ==> !lets_read(#[trigger] front[i], subject);
        if none_in_front {
            assert forall|i: int| 0 <= i < prefixes.len() - 1 implies !lets_read(
                #[trigger] prefixes[i],
                subject,
            ) by {
                assert(!lets_read(front[i], subject));
            }
            if !lets_read(prefixes.last(), subject) {
                assert forall|i: int| 0 <= i < prefixes.len() implies !lets_read(
                    #[trigger] prefixes[i],
                    subject,
                ) by {
                    if i == prefixes.len() - 1 {
                        assert(prefixes[i] == prefixes.last());
                    }
                }
            } else {
                assert(lets_read(prefixes[prefixes.len() - 1], subject));
            }
        } else {
            let i = choose|i: int| 0 <= i < front.len() && lets_read(#[trigger] front[i], subject);
            assert(lets_read(prefixes[i], subject));
        }
        if 0 <= at < front.len() && (forall|i: int|
            0 <= i < at ==> !lets_read(#[trigger] prefixes[i], subject)) {
            assert forall|i: int| 0 <= i < at implies !lets_read(#[trigger] front[i], subject) by {
                assert(!lets_read(prefixes[i], subject));
            }
        }
        if at == front.len() && lets_read(prefixes[at], subject) && (forall|i: int|
            0 <= i < at ==> !lets_read(#[trigger] prefixes[i], subject)) {
            assert forall|i: int| 0 <= i < front.len() implies !lets_read(
                #[trigger] front[i],
                subject,
            ) by {
                assert(!lets_read(prefixes[i], subject));
            }
        }
    }
}

/// Among the witnesses for a subject is that of each proof over the collection
/// from a root of a READ quorum that has a beginning which lets the subject read,
/// and no other.
pub proof fn law_witnesses_come_from_read_roots(
    collection: [u8; 32],
    read_policies: Seq<AdmissionPolicy>,
    subject: VerifyingKey,
    proofs: Seq<ProofState>,
    prefixes: Seq<Vec<PrefixWitness>>,
    witness: ProofState,
)
    ensures
        witnesses(collection, read_policies, subject, proofs, prefixes).contains(witness)
            <==> exists|i: int|
            #![trigger proofs[i]]
            0 <= i < proofs.len() && proofs[i].resource == collection && names_root(
                read_policies,
                proofs[i].root_key,
            ) && earliest_witness(prefixes[i]@, subject) == Some(witness),
    decreases proofs.len(),
{
    if proofs.len() > 0 {
        let front = proofs.drop_last();
        let last = proofs.last();
        law_witnesses_come_from_read_roots(
            collection,
            read_policies,
            subject,
            front,
            prefixes,
            witness,
        );
        lemma_names_root(read_policies, last.root_key);
        let found = witnesses(collection, read_policies, subject, front, prefixes);
        let chosen = earliest_witness(prefixes[proofs.len() - 1]@, subject);
        if chosen is Some {
            lemma_contains_either(found, seq![chosen->0], witness);
            assert(found.push(chosen->0) =~= found + seq![chosen->0]);
            assert(seq![chosen->0].contains(witness) <==> witness == chosen->0) by {
                assert(seq![chosen->0][0] == chosen->0);
            }
        }
        assert(proofs[proofs.len() - 1] == last);
        if exists|i: int|
            #![trigger proofs[i]]
            0 <= i < proofs.len() && proofs[i].resource == collection && names_root(
                read_policies,
                proofs[i].root_key,
            ) && earliest_witness(prefixes[i]@, subject) == Some(witness) {
            let i = choose|i: int|
                #![trigger proofs[i]]
                0 <= i < proofs.len() && proofs[i].resource == collection && names_root(
                    read_policies,
                    proofs[i].root_key,
                ) && earliest_witness(prefixes[i]@, subject) == Some(witness);
            if i < front.len() {
                assert(front[i] == proofs[i]);
            }
        }
        if exists|i: int|
            #![trigger front[i]]
            0 <= i < front.len() && front[i].resource == collection && names_root(
                read_policies,
                front[i].root_key,
            ) && earliest_witness(prefixes[i]@, subject) == Some(witness) {
            let i = choose|i: int|
                #![trigger front[i]]
                0 <= i < front.len() && front[i].resource == collection && names_root(
                    read_policies,
                    front[i].root_key,
                ) && earliest_witness(prefixes[i]@, subject) == Some(witness);
            assert(proofs[i] == front[i]);
        }
    }
}

/// Nothing is sent where anybody may read, or where what was found does not admit
/// the subject. Else what is sent was found, and it admits the subject.
pub proof fn law_sent_witnesses_were_found(
    open: bool,
    found: Seq<ProofState>,
    admits: spec_fn(Seq<ProofState>) -> bool,
    proof: ProofState,
)
    ensures
        open || !admits(found) ==> bootstrap(open, found, admits).len() == 0,
        bootstrap(open, found, admits).contains(proof) ==> found.contains(proof),
        bootstrap(open, found, admits).len() <= found.len(),
        !open && admits(found) ==> admits(bootstrap(open, found, admits)),
{
    if !open && admits(found) {
        lemma_trimmed_subset(found, found.len(), admits, proof);
    }
}

proof fn lemma_trimmed_subset(
    selected: Seq<ProofState>,
    index: nat,
    admits: spec_fn(Seq<ProofState>) -> bool,
    proof: ProofState,
)
    requires
        index <= selected.len(),
        admits(selected),
    ensures
        trimmed(selected, index, admits).contains(proof) ==> selected.contains(proof),
        trimmed(selected, index, admits).len() <= selected.len(),
        admits(trimmed(selected, index, admits)),
    decreases index,
{
    if index > 0 {
        let without = selected.remove(index - 1);
        if admits(without) {
            lemma_trimmed_subset(without, (index - 1) as nat, admits, proof);
            if without.contains(proof) {
                let i = choose|i: int| 0 <= i < without.len() && without[i] == proof;
                if i < index - 1 {
                    assert(selected[i] == proof);
                } else {
                    assert(selected[i + 1] == proof);
                }
            }
        } else {
            lemma_trimmed_subset(selected, (index - 1) as nat, admits, proof);
        }
    }
}

/// Reading is open exactly if one of the READ policies is the open one; a quorum,
/// however small, is not.
pub proof fn law_open_reading_is_explicit(read_policies: Seq<AdmissionPolicy>)
    ensures
        any_open(read_policies) <==> !forall|i: int|
            0 <= i < read_policies.len() ==> (#[trigger] read_policies[i]) is Quorum,
{
    if any_open(read_policies) {
        let i = choose|i: int| 0 <= i < read_policies.len() && #[trigger] read_policies[i] is Open;
        assert(!(read_policies[i] is Quorum));
    }
    if !any_open(read_policies) {
        assert forall|i: int| 0 <= i < read_policies.len() implies (
        #[trigger] read_policies[i]) is Quorum by {
            assert(!(read_policies[i] is Open));
        }
    }
}

/// A subject may read exactly if some READ policy admits it: one that admits it
/// suffices, whatever the others say, and without any policy nobody may.
pub proof fn law_one_policy_admits_a_reader(verdicts: Seq<bool>, verdict: bool)
    ensures
        admitted_by(verdicts) <==> exists|i: int| 0 <= i < verdicts.len() && #[trigger] verdicts[i],
        admitted_by(verdicts) ==> admitted_by(verdicts.push(verdict)),
        admitted_by(verdicts.push(true)),
        !admitted_by(Seq::empty()),
{
    let more = verdicts.push(verdict);
    let granted = verdicts.push(true);
    assert(granted[verdicts.len() as int]);
    if admitted_by(verdicts) {
        let i = choose|i: int| 0 <= i < verdicts.len() && verdicts[i] == true;
        assert(more[i] == true);
        assert(verdicts[i]);
    }
    if exists|i: int| 0 <= i < verdicts.len() && #[trigger] verdicts[i] {
        let i = choose|i: int| 0 <= i < verdicts.len() && #[trigger] verdicts[i];
        assert(verdicts[i] == true);
    }
}

/// Anybody may read exactly if one of the audiences is everybody. Else those may
/// that one of the audiences lists, and each is listed once.
pub proof fn law_audiences_are_joined(
    readers: CollectionReadAudience,
    audiences: Seq<CollectionReadAudience>,
    key: VerifyingKey,
)
    requires
        is_joint_audience(readers, audiences),
    ensures
        readers is Open <==> exists|i: int|
            0 <= i < audiences.len() && (#[trigger] audiences[i]) is Open,
        readers matches CollectionReadAudience::Restricted(list) ==> (list@.contains(key)
            <==> exists|i: int|
            #![trigger audiences[i]]
            0 <= i < audiences.len() && audiences[i] is Restricted
                && audiences[i]->Restricted_0@.contains(key)),
        readers matches CollectionReadAudience::Restricted(list) ==> list@.no_duplicates(),
{
    if let CollectionReadAudience::Restricted(list) = readers {
        assert(list@.contains(key) <==> in_audience(audiences, key));
        if in_audience(audiences, key) {
            let i = choose|i: int|
                0 <= i < audiences.len() && (
                #[trigger] audiences[i] matches CollectionReadAudience::Restricted(readers)
                    && readers@.contains(key));
            assert(audiences[i] is Restricted);
        }
        if exists|i: int|
            #![trigger audiences[i]]
            0 <= i < audiences.len() && audiences[i] is Restricted
                && audiences[i]->Restricted_0@.contains(key) {
            let i = choose|i: int|
                #![trigger audiences[i]]
                0 <= i < audiences.len() && audiences[i] is Restricted
                    && audiences[i]->Restricted_0@.contains(key);
            assert(in_audience(audiences, key));
        }
        assert forall|i: int, j: int|
            0 <= i < list@.len() && 0 <= j < list@.len() && i != j implies list@[i] != list@[j] by {
            if i < j {
                assert(crate::keys::rank(list@[i]) < crate::keys::rank(list@[j]));
            } else {
                assert(crate::keys::rank(list@[j]) < crate::keys::rank(list@[i]));
            }
        }
    }
}

/// Under one policy for each action, a proof is evidence exactly if one of the two
/// is a quorum with its root, it is over the collection and its signatures hold. Where
/// both are open there is nothing to prove.
pub proof fn law_scalar_policies_need_a_root(
    collection: [u8; 32],
    policy: CollectionPolicy,
    proof: ProofState,
)
    ensures
        ({
            let result = evidence_for_policy(collection, policy, proof);
            let rooted = (policy.read is Quorum && policy.read->Quorum_roots@.contains(
                proof.root_key,
            )) || (policy.write is Quorum && policy.write->Quorum_roots@.contains(proof.root_key));
            &&& result is Ok <==> rooted && proof.resource == collection && proof.signature_error
                is None
            &&& policy.read is Open && policy.write is Open <==> result == Err::<
                (),
                CollectionAuthorizationEvidenceError,
            >(CollectionAuthorizationEvidenceError::OpenPolicies)
            &&& !(policy.read is Open && policy.write is Open) && proof.resource != collection
                ==> result == Err::<(), CollectionAuthorizationEvidenceError>(
                CollectionAuthorizationEvidenceError::WrongResource,
            )
            &&& !(policy.read is Open && policy.write is Open) && proof.resource == collection
                && !rooted ==> result == Err::<(), CollectionAuthorizationEvidenceError>(
                CollectionAuthorizationEvidenceError::WrongRoot,
            )
            &&& proof.resource == collection && rooted && proof.signature_error is Some ==> result
                == Err::<(), CollectionAuthorizationEvidenceError>(
                CollectionAuthorizationEvidenceError::Invalid(proof.signature_error->0),
            )
        }),
{
    let policies = seq![policy.read, policy.write];
    lemma_names_root(policies, proof.root_key);
    assert(policies[0] == policy.read && policies[1] == policy.write);
    if names_root(policies, proof.root_key) {
        let i = choose|i: int|
            #![trigger policies[i]]
            0 <= i < policies.len() && policies[i] is Quorum
                && policies[i]->Quorum_roots@.contains(proof.root_key);
        assert(i == 0 || i == 1);
    }
}

/// A witness is refused for its size exactly if it has more proofs than the
/// transport permits.
pub proof fn law_a_witness_within_the_limit_is_sent(count: nat, limit: usize)
    ensures
        count <= limit ==> !exceeds(count, limit),
        exceeds((limit + 1) as nat, limit),
        exceeds(count, limit) ==> exceeds(count + 1, limit),
{
}

/// The proofs of a list are the held ones, each once, in ascending order of their
/// identities.
pub proof fn law_held_proofs_are_listed_once(
    list: Seq<ProofState>,
    held: Map<[u8; 32], ProofState>,
    id: [u8; 32],
)
    requires
        lists_proofs(list, held),
    ensures
        held.contains_key(id) <==> exists|i: int|
            0 <= i < list.len() && (#[trigger] list[i]).id == id,
        forall|i: int, j: int|
            0 <= i < list.len() && 0 <= j < list.len() && (#[trigger] list[i]).id == (
            #[trigger] list[j]).id ==> i == j,
        forall|i: int| 0 <= i < list.len() ==> held[(#[trigger] list[i]).id] == list[i],
{
    assert forall|i: int, j: int|
        0 <= i < list.len() && 0 <= j < list.len() && (#[trigger] list[i]).id == (
        #[trigger] list[j]).id implies i == j by {
        if i < j {
            assert(crate::keys::rank(list[i].id) < crate::keys::rank(list[j].id));
        } else if j < i {
            assert(crate::keys::rank(list[j].id) < crate::keys::rank(list[i].id));
        }
    }
    assert forall|i: int| 0 <= i < list.len() implies held[(#[trigger] list[i]).id]
        == list[i] by {
        assert(held.contains_pair(list[i].id, list[i]));
    }
    if exists|i: int| 0 <= i < list.len() && (#[trigger] list[i]).id == id {
        let i = choose|i: int| 0 <= i < list.len() && (#[trigger] list[i]).id == id;
        assert(held.contains_pair(list[i].id, list[i]));
    }
}

} // verus!
