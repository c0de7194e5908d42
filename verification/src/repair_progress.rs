//! What whole pulls of one collection come to, given what the walk of the remote
//! sets hands out.

use vstd::prelude::*;

use crate::collection_activation::{
    proof_states, CapabilityProof, CapabilityProofError, CollectionRepairOverlay, ProofState,
};
use crate::collection_blob_inventory::RawHash;
use crate::collection_delta::{record_states, CollectionRecord, RecordDecodeError, RecordState};
use crate::collection_session::{
    all_hints, ascending_handles, at_most, evidence_step, furthest, leaf_key, leaves,
    lemma_handle_of, record_step, AuthorizationPull, InventoryPull, InventoryRepairCursor,
    InventorySession, PatchNodeResponse, PullBudget, RecordPull,
    MAX_REPAIR_AUTHORIZATION_EVIDENCE_ITEMS, MAX_REPAIR_RECORD_ITEMS,
};
use crate::keys::rank;
use crate::patch_summary::PatchSummary;

verus! {

/// The wanted items, in order.
pub open spec fn selected<T>(items: Seq<T>, wanted: spec_fn(T) -> bool) -> Seq<T>
    decreases items.len(),
{
    if items.len() == 0 {
        Seq::empty()
    } else {
        let front = selected(items.drop_last(), wanted);
        if wanted(items.last()) {
            front.push(items.last())
        } else {
            front
        }
    }
}

/// Pushing an item adds it.
proof fn lemma_push_contains<T>(items: Seq<T>, item: T)
    ensures
        forall|other: T| #[trigger]
            items.push(item).contains(other) <==> items.contains(other) || other == item,
{
    let all = items.push(item);
    assert forall|other: T| #[trigger] all.contains(other) <==> items.contains(other) || other
        == item by {
        if all.contains(other) {
            let i = choose|i: int| 0 <= i < all.len() && all[i] == other;
            if i < items.len() {
                assert(items[i] == other);
            }
        }
        if items.contains(other) {
            let i = choose|i: int| 0 <= i < items.len() && items[i] == other;
            assert(all[i] == other);
        }
        assert(all[items.len() as int] == item);
    }
}

/// Exactly the wanted items are selected, each as often as it is there.
proof fn lemma_selected<T>(items: Seq<T>, wanted: spec_fn(T) -> bool)
    ensures
        forall|item: T| #[trigger]
            selected(items, wanted).contains(item) <==> items.contains(item) && wanted(item),
        items.no_duplicates() ==> selected(items, wanted).no_duplicates(),
        selected(items, wanted).len() <= items.len(),
    decreases items.len(),
{
    if items.len() > 0 {
        let front = items.drop_last();
        let last = items.last();
        lemma_selected(front, wanted);
        assert(items =~= front.push(last));
        lemma_push_contains(front, last);
        lemma_push_contains(selected(front, wanted), last);
        if items.no_duplicates() {
            assert(front.no_duplicates()) by {
                assert forall|i: int, j: int|
                    0 <= i < front.len() && 0 <= j < front.len() && i != j implies front[i]
                    != front[j] by {
                    assert(items[i] != items[j]);
                }
            }
            if front.contains(last) {
                let i = choose|i: int| 0 <= i < front.len() && front[i] == last;
                assert(items[i] == items[items.len() - 1]);
            }
            let kept = selected(front, wanted);
            assert forall|i: int| 0 <= i < kept.len() implies kept[i] != last by {
                assert(kept.contains(kept[i]));
            }
        }
    }
}

/// A pull of records: its accepted answers, what their leaves decode to, and the
/// pull and the budget before and after each of them.
pub struct RecordWalk {
    pub pulls: Seq<RecordPull>,
    pub budgets: Seq<PullBudget>,
    pub answers: Seq<PatchNodeResponse>,
    pub decoded: Seq<Result<CollectionRecord, RecordDecodeError>>,
}

impl RecordWalk {
    /// Whether answer `i` was asked for while that was allowed, was accepted, and
    /// leads from one pull to the next.
    pub open spec fn steps(self, local: CollectionRepairOverlay, i: int) -> bool {
        let step = record_step(local, self.answers[i], true, self.decoded[i]);
        &&& self.pulls[i].may_request(self.budgets[i])
        &&& step.0 is Ok
        &&& self.pulls[i + 1].requests == self.pulls[i].requests + 1
        &&& record_states(self.pulls[i + 1].missing@) == if step.1 {
            record_states(self.pulls[i].missing@).push((self.decoded[i]->Ok_0)@)
        } else {
            record_states(self.pulls[i].missing@)
        }
    }

    /// Whether this is what a fresh pull makes of its answers.
    pub open spec fn well_formed(self, local: CollectionRepairOverlay) -> bool {
        &&& self.pulls.len() == self.budgets.len() == self.answers.len() + 1
        &&& self.decoded.len() == self.answers.len()
        &&& self.pulls[0].requests == 0
        &&& self.pulls[0].missing@.len() == 0
        &&& forall|i: int| 0 <= i < self.answers.len() ==> #[trigger] self.steps(local, i)
    }

    /// The records of the leaves among the first answers, in order.
    pub open spec fn handed(self, count: nat) -> Seq<RecordState>
        decreases count,
    {
        if count == 0 {
            Seq::empty()
        } else {
            let front = self.handed((count - 1) as nat);
            if leaf_key(self.answers[count - 1]) is Some {
                front.push((self.decoded[count - 1]->Ok_0)@)
            } else {
                front
            }
        }
    }

    /// The records that the pull found missing.
    pub open spec fn found(self) -> Seq<RecordState> {
        record_states(self.pulls[self.answers.len() as int].missing@)
    }
}

proof fn lemma_record_walk(walk: RecordWalk, local: CollectionRepairOverlay, count: nat)
    requires
        walk.well_formed(local),
        count <= walk.answers.len(),
    ensures
        record_states(walk.pulls[count as int].missing@) == selected(
            walk.handed(count),
            |record: RecordState| !local.records.contents().contains_key(record.fingerprint),
        ),
        walk.pulls[count as int].requests == count,
        walk.pulls[count as int].missing@.len() <= MAX_REPAIR_RECORD_ITEMS,
    decreases count,
{
    let wanted = |record: RecordState|
        !local.records.contents().contains_key(record.fingerprint);
    if count == 0 {
        assert(record_states(walk.pulls[0].missing@) =~= selected(walk.handed(0), wanted));
    } else {
        let before = (count - 1) as nat;
        lemma_record_walk(walk, local, before);
        assert(walk.steps(local, before as int));
        let states = record_states(walk.pulls[before as int].missing@);
        assert(states.len() == walk.pulls[before as int].missing@.len());
        assert(record_states(walk.pulls[count as int].missing@).len()
            == walk.pulls[count as int].missing@.len());
        if leaf_key(walk.answers[before as int]) is Some {
            let record = (walk.decoded[before as int]->Ok_0)@;
            assert(walk.handed(count).drop_last() =~= walk.handed(before));
            assert(walk.handed(count).last() == record);
        }
    }
}

/// A pull of records whose walk has ended found exactly the records that the
/// remote has and the local set lacks, each once, and no more than it may. The
/// walk hands each leaf at most once, only leaves of the remote set, and every leaf
/// that the local set lacks.
pub proof fn law_complete_pull_finds_missing_records(
    walk: RecordWalk,
    local: CollectionRepairOverlay,
    remote: Map<[u8; 32], RecordState>,
)
    requires
        walk.well_formed(local),
        walk.handed(walk.answers.len()).no_duplicates(),
        forall|record: RecordState| #[trigger]
            walk.handed(walk.answers.len()).contains(record) ==> remote.contains_pair(
                record.fingerprint,
                record,
            ),
        forall|fingerprint: [u8; 32]| #[trigger]
            remote.contains_key(fingerprint) ==> remote[fingerprint].fingerprint == fingerprint
                && (local.records.contents().contains_key(fingerprint) || walk.handed(
                walk.answers.len(),
            ).contains(remote[fingerprint])),
    ensures
        walk.found().no_duplicates(),
        forall|record: RecordState| #[trigger]
            walk.found().contains(record) <==> remote.contains_pair(record.fingerprint, record)
                && !local.records.contents().contains_key(record.fingerprint),
        walk.found().len() <= MAX_REPAIR_RECORD_ITEMS,
        walk.pulls[walk.answers.len() as int].requests == walk.answers.len(),
{
    let wanted = |record: RecordState|
        !local.records.contents().contains_key(record.fingerprint);
    let handed = walk.handed(walk.answers.len());
    lemma_record_walk(walk, local, walk.answers.len());
    lemma_selected(handed, wanted);
    assert forall|record: RecordState| #[trigger] walk.found().contains(
        record,
    ) <==> remote.contains_pair(record.fingerprint, record)
        && !local.records.contents().contains_key(record.fingerprint) by {
        assert(walk.found().contains(record) <==> handed.contains(record) && wanted(record));
        if remote.contains_pair(record.fingerprint, record) {
            assert(remote.contains_key(record.fingerprint));
        }
    }
}

/// A pull of authorization evidence: its accepted answers, what their leaves
/// decode to, and the pull and the budget before and after each of them.
pub struct EvidenceWalk {
    pub pulls: Seq<AuthorizationPull>,
    pub budgets: Seq<PullBudget>,
    pub answers: Seq<PatchNodeResponse>,
    pub decoded: Seq<Result<CapabilityProof, CapabilityProofError>>,
}

impl EvidenceWalk {
    /// Whether answer `i` was asked for while that was allowed, was accepted, and
    /// leads from one pull to the next.
    pub open spec fn steps(self, local: CollectionRepairOverlay, i: int) -> bool {
        let step = evidence_step(local, self.answers[i], true, self.decoded[i]);
        &&& self.pulls[i].may_request(self.budgets[i])
        &&& step.0 is Ok
        &&& self.pulls[i + 1].requests == self.pulls[i].requests + 1
        &&& proof_states(self.pulls[i + 1].missing@) == if step.1 {
            proof_states(self.pulls[i].missing@).push((self.decoded[i]->Ok_0)@)
        } else {
            proof_states(self.pulls[i].missing@)
        }
        &&& self.pulls[i + 1].deferred == (self.pulls[i].deferred || step.2)
    }

    /// Whether this is what a fresh pull makes of its answers.
    pub open spec fn well_formed(self, local: CollectionRepairOverlay) -> bool {
        &&& self.pulls.len() == self.budgets.len() == self.answers.len() + 1
        &&& self.decoded.len() == self.answers.len()
        &&& self.pulls[0].requests == 0
        &&& self.pulls[0].missing@.len() == 0
        &&& !self.pulls[0].deferred
        &&& forall|i: int| 0 <= i < self.answers.len() ==> #[trigger] self.steps(local, i)
    }

    /// The proofs of the leaves among the first answers, in order.
    pub open spec fn handed(self, count: nat) -> Seq<ProofState>
        decreases count,
    {
        if count == 0 {
            Seq::empty()
        } else {
            let front = self.handed((count - 1) as nat);
            if leaf_key(self.answers[count - 1]) is Some {
                front.push((self.decoded[count - 1]->Ok_0)@)
            } else {
                front
            }
        }
    }

    /// The proofs that the pull found missing.
    pub open spec fn found(self) -> Seq<ProofState> {
        proof_states(self.pulls[self.answers.len() as int].missing@)
    }

    /// Whether the pull left some proof for later.
    pub open spec fn deferred(self) -> bool {
        self.pulls[self.answers.len() as int].deferred
    }
}

/// Whether a proof is evidence that the local set lacks.
pub open spec fn is_missing_evidence(local: CollectionRepairOverlay, candidate: ProofState) -> bool {
    &&& !local.authorization_evidence.held().contains_key(candidate.id)
    &&& local.authorization_evidence.check(candidate) is Ok
}

/// Whether a proof that the local set lacks is not evidence yet.
pub open spec fn is_unrouted(local: CollectionRepairOverlay, candidate: ProofState) -> bool {
    &&& !local.authorization_evidence.held().contains_key(candidate.id)
    &&& local.authorization_evidence.check(candidate) is Err
}

proof fn lemma_evidence_walk(walk: EvidenceWalk, local: CollectionRepairOverlay, count: nat)
    requires
        walk.well_formed(local),
        count <= walk.answers.len(),
    ensures
        proof_states(walk.pulls[count as int].missing@) == selected(
            walk.handed(count),
            |candidate: ProofState| is_missing_evidence(local, candidate),
        ),
        walk.pulls[count as int].deferred <==> exists|candidate: ProofState|
            walk.handed(count).contains(candidate) && #[trigger] is_unrouted(local, candidate),
        walk.pulls[count as int].requests == count,
        walk.pulls[count as int].missing@.len() <= MAX_REPAIR_AUTHORIZATION_EVIDENCE_ITEMS,
    decreases count,
{
    let wanted = |candidate: ProofState| is_missing_evidence(local, candidate);
    if count == 0 {
        assert(proof_states(walk.pulls[0].missing@) =~= selected(walk.handed(0), wanted));
    } else {
        let before = (count - 1) as nat;
        lemma_evidence_walk(walk, local, before);
        assert(walk.steps(local, before as int));
        assert(proof_states(walk.pulls[before as int].missing@).len()
            == walk.pulls[before as int].missing@.len());
        assert(proof_states(walk.pulls[count as int].missing@).len()
            == walk.pulls[count as int].missing@.len());
        if leaf_key(walk.answers[before as int]) is Some {
            let candidate = (walk.decoded[before as int]->Ok_0)@;
            assert(walk.handed(count).drop_last() =~= walk.handed(before));
            assert(walk.handed(count).last() == candidate);
            lemma_push_contains(walk.handed(before), candidate);
            let step = evidence_step(
                local,
                walk.answers[before as int],
                true,
                walk.decoded[before as int],
            );
            assert(step.1 == is_missing_evidence(local, candidate));
            assert(step.2 == is_unrouted(local, candidate));
        }
    }
}

/// A pull of evidence whose walk has ended found exactly the evidence that the
/// remote has and the local set lacks, each proof once, and no more than it may.
/// It leaves something for later exactly if the remote has a proof that is not
/// evidence here yet. The walk hands each leaf at most once, only leaves of the
/// remote set, and every leaf that the local set lacks.
pub proof fn law_complete_pull_finds_missing_evidence(
    walk: EvidenceWalk,
    local: CollectionRepairOverlay,
    remote: Map<[u8; 32], ProofState>,
)
    requires
        walk.well_formed(local),
        walk.handed(walk.answers.len()).no_duplicates(),
        forall|candidate: ProofState| #[trigger]
            walk.handed(walk.answers.len()).contains(candidate) ==> remote.contains_pair(
                candidate.id,
                candidate,
            ),
        forall|id: [u8; 32]| #[trigger]
            remote.contains_key(id) ==> remote[id].id == id && (
            local.authorization_evidence.held().contains_key(id) || walk.handed(
                walk.answers.len(),
            ).contains(remote[id])),
    ensures
        walk.found().no_duplicates(),
        forall|candidate: ProofState| #[trigger]
            walk.found().contains(candidate) <==> remote.contains_pair(candidate.id, candidate)
                && is_missing_evidence(local, candidate),
        walk.deferred() <==> exists|candidate: ProofState|
            remote.contains_pair(candidate.id, candidate) && #[trigger] is_unrouted(
                local,
                candidate,
            ),
        walk.found().len() <= MAX_REPAIR_AUTHORIZATION_EVIDENCE_ITEMS,
        walk.pulls[walk.answers.len() as int].requests == walk.answers.len(),
{
    let wanted = |candidate: ProofState| is_missing_evidence(local, candidate);
    let handed = walk.handed(walk.answers.len());
    lemma_evidence_walk(walk, local, walk.answers.len());
    lemma_selected(handed, wanted);
    assert forall|candidate: ProofState| #[trigger] walk.found().contains(
        candidate,
    ) <==> remote.contains_pair(candidate.id, candidate) && is_missing_evidence(
        local,
        candidate,
    ) by {
        assert(walk.found().contains(candidate) <==> handed.contains(candidate) && wanted(
            candidate,
        ));
        if remote.contains_pair(candidate.id, candidate) {
            assert(remote.contains_key(candidate.id));
        }
    }
    if walk.deferred() {
        let candidate = choose|candidate: ProofState|
            handed.contains(candidate) && #[trigger] is_unrouted(local, candidate);
        assert(remote.contains_pair(candidate.id, candidate));
    }
    if exists|candidate: ProofState|
        remote.contains_pair(candidate.id, candidate) && #[trigger] is_unrouted(
            local,
            candidate,
        ) {
        let candidate = choose|candidate: ProofState|
            remote.contains_pair(candidate.id, candidate) && #[trigger] is_unrouted(
                local,
                candidate,
            );
        assert(remote.contains_key(candidate.id));
        assert(handed.contains(candidate));
    }
}

/// How far a walk has come after more leaves.
pub open spec fn reached(visited: Option<RawHash>, handles: Seq<RawHash>) -> Option<RawHash>
    decreases handles.len(),
{
    if handles.len() == 0 {
        visited
    } else {
        furthest(reached(visited, handles.drop_last()), handles.last())
    }
}

/// A walk has come at least as far as before and as every leaf, and no further.
proof fn lemma_reached(visited: Option<RawHash>, handles: Seq<RawHash>)
    ensures
        forall|handle: RawHash| #[trigger]
            at_most(handle, visited) ==> at_most(handle, reached(visited, handles)),
        forall|handle: RawHash| #[trigger]
            handles.contains(handle) ==> at_most(handle, reached(visited, handles)),
        visited is Some || handles.len() > 0 ==> reached(visited, handles) is Some,
    decreases handles.len(),
{
    if handles.len() > 0 {
        let front = handles.drop_last();
        lemma_reached(visited, front);
        assert(handles =~= front.push(handles.last()));
        lemma_push_contains(front, handles.last());
        let before = reached(visited, front);
        assert forall|handle: RawHash| at_most(handle, before) implies at_most(
            handle,
            furthest(before, handles.last()),
        ) by {}
    }
}

/// What a session may hint at: what is above its bound and not held.
pub open spec fn may_hint(cursor: InventoryRepairCursor, handle: RawHash) -> bool {
    !at_most(handle, cursor.resume_after) && !cursor.local@.contains_key(handle)
}

proof fn lemma_bounded_session(session: InventorySession, count: int)
    requires
        session.well_formed(),
        session.begun().missing@.len() == 0,
        0 <= count <= session.answers.len(),
    ensures
        session.pulls[count].missing@ == selected(
            leaves(session.answers.take(count)),
            |handle: RawHash| may_hint(session.begun().cursor, handle),
        ),
        session.pulls[count].cursor == (InventoryRepairCursor {
            visited: reached(
                session.begun().cursor.visited,
                leaves(session.answers.take(count)),
            ),
            ..session.begun().cursor
        }),
    decreases count,
{
    let wanted = |handle: RawHash| may_hint(session.begun().cursor, handle);
    let answers = session.answers.take(count);
    if count == 0 {
        assert(session.pulls[0].missing@ =~= selected(leaves(answers), wanted));
    } else {
        let front = session.answers.take(count - 1);
        let last = session.answers[count - 1];
        let pull = session.pulls[count - 1];
        let ended = session.pulls[count];
        assert(answers.drop_last() =~= front);
        assert(answers.last() == last);
        lemma_bounded_session(session, count - 1);
        assert(session.steps(count - 1));
        assert(ended.hinted(pull.asking(), last, true));
        if leaf_key(last) is Some {
            let handle = choose|handle: RawHash|
                {
                    &&& #[trigger] handle@ == leaf_key(last)->0
                    &&& ended.cursor.visited == furthest(pull.asking().cursor.visited, handle)
                    &&& ended.missing@ == if at_most(handle, pull.asking().cursor.resume_after)
                        || pull.asking().cursor.local@.contains_key(handle) {
                        pull.asking().missing@
                    } else {
                        pull.asking().missing@.push(handle)
                    }
                };
            lemma_handle_of(handle);
            assert(leaves(answers) == leaves(front).push(handle));
            assert(leaves(answers).drop_last() =~= leaves(front));
            assert(leaves(answers).last() == handle);
        }
    }
}

/// Whether a session begins a pass over a remote inventory at its first key.
pub open spec fn starts_pass(pull: InventoryPull, remote: PatchSummary) -> bool {
    &&& pull.missing@.len() == 0
    &&& pull.cursor.remote == remote
    &&& pull.cursor.visited is None
    &&& pull.cursor.resume_after is None
    &&& !pull.cursor.wrap
}

/// Whether sessions make up one pass: each later one takes up the cursor of the
/// one before, whatever the remote inventory has become meanwhile.
pub open spec fn is_pass(
    sessions: Seq<InventorySession>,
    locals: Seq<CollectionRepairOverlay>,
    remotes: Seq<PatchSummary>,
) -> bool {
    &&& 0 < sessions.len() == locals.len() == remotes.len()
    &&& forall|i: int|
        0 <= i < locals.len() ==> (#[trigger] locals[i]).collection
            == sessions[0].begun().cursor.collection
    &&& starts_pass(sessions[0].begun(), remotes[0])
    &&& forall|i: int|
        0 < i < sessions.len() ==> (#[trigger] sessions[i]).begun().takes_up(
            Some(sessions[i - 1].ended().cursor),
            locals[i],
            remotes[i],
        )
    &&& forall|i: int| 0 <= i < sessions.len() ==> (#[trigger] sessions[i]).well_formed()
}

/// Whether the walk of a session hands out what the remote inventory holds: leaves
/// in ascending order, all of them the remote's, none of them again unless it is
/// behind the bound, and every one that is not held locally between where the
/// session began and where it ended, or to the end where the walk has ended.
pub open spec fn walks_honestly(
    session: InventorySession,
    resident: Set<RawHash>,
    ended: bool,
) -> bool {
    let cursor = session.begun().cursor;
    let handed = leaves(session.answers);
    &&& ascending_handles(handed)
    &&& forall|handle: RawHash| #[trigger]
        handed.contains(handle) ==> resident.contains(handle) && (at_most(
            handle,
            cursor.resume_after,
        ) || !at_most(handle, cursor.visited))
    &&& forall|handle: RawHash| #[trigger]
        resident.contains(handle) && !cursor.local@.contains_key(handle) && !at_most(
            handle,
            cursor.visited,
        ) && (ended || at_most(handle, session.ended().cursor.visited)) ==> handed.contains(handle)
}

/// How a pass stands after some of its sessions.
proof fn lemma_pass(
    sessions: Seq<InventorySession>,
    locals: Seq<CollectionRepairOverlay>,
    remotes: Seq<PatchSummary>,
    at: int,
)
    requires
        is_pass(sessions, locals, remotes),
        0 <= at < sessions.len(),
    ensures
        ({
            let session = sessions[at];
            let begun = session.begun().cursor;
            let ended = session.ended().cursor;
            let handed = leaves(session.answers);
            &&& session.ended().missing@ == selected(
                handed,
                |handle: RawHash| may_hint(begun, handle),
            )
            &&& ended == (InventoryRepairCursor {
                visited: reached(begun.visited, handed),
                ..begun
            })
            &&& begun.collection == sessions[0].begun().cursor.collection
            &&& begun.remote == remotes[at]
            &&& begun.local == sessions[0].begun().cursor.local
            &&& forall|handle: RawHash| #[trigger]
                at_most(handle, begun.resume_after) ==> at_most(handle, begun.visited)
            &&& at > 0 ==> begun.visited == sessions[at - 1].ended().cursor.visited
        }),
    decreases at,
{
    let session = sessions[at];
    assert(session.well_formed());
    if at > 0 {
        lemma_pass(sessions, locals, remotes, at - 1);
        let previous = sessions[at - 1];
        assert(locals[at].collection == sessions[0].begun().cursor.collection);
        assert(session.begun().takes_up(
            Some(previous.ended().cursor),
            locals[at],
            remotes[at],
        ));
        lemma_reached(previous.begun().cursor.visited, leaves(previous.answers));
    }
    lemma_bounded_session(session, session.answers.len() as int);
    assert(session.answers.take(session.answers.len() as int) =~= session.answers);
}

/// A changing inventory does not keep a handle from being reached: one that the
/// remote holds in every session, and that is not held locally, is hinted at by
/// the time the pass has come to it or has ended, however many other handles
/// appear meanwhile.
pub proof fn law_changing_inventory_starves_no_handle(
    sessions: Seq<InventorySession>,
    locals: Seq<CollectionRepairOverlay>,
    remotes: Seq<PatchSummary>,
    residents: Seq<Set<RawHash>>,
    ended: bool,
    handle: RawHash,
)
    requires
        is_pass(sessions, locals, remotes),
        residents.len() == sessions.len(),
        forall|i: int|
            0 <= i < sessions.len() ==> walks_honestly(
                #[trigger] sessions[i],
                residents[i],
                ended && i == sessions.len() - 1,
            ),
        forall|i: int| 0 <= i < residents.len() ==> (#[trigger] residents[i]).contains(handle),
        !sessions[0].begun().cursor.local@.contains_key(handle),
        ended || at_most(handle, sessions.last().ended().cursor.visited),
    ensures
        all_hints(sessions).contains(handle),
    decreases sessions.len(),
{
    let at = sessions.len() - 1;
    let session = sessions[at];
    let front = sessions.drop_last();
    lemma_pass(sessions, locals, remotes, at);
    assert(walks_honestly(session, residents[at], ended));
    assert(all_hints(sessions) == all_hints(front) + session.ended().missing@);
    if at_most(handle, session.begun().cursor.visited) {
        assert(at > 0);
        let fewer_locals = locals.drop_last();
        let fewer_remotes = remotes.drop_last();
        let fewer_residents = residents.drop_last();
        assert(is_pass(front, fewer_locals, fewer_remotes)) by {
            assert forall|i: int| 0 <= i < fewer_locals.len() implies (
            #[trigger] fewer_locals[i]).collection == front[0].begun().cursor.collection by {
                assert(fewer_locals[i] == locals[i]);
            }
            assert forall|i: int| 0 < i < front.len() implies (
            #[trigger] front[i]).begun().takes_up(
                Some(front[i - 1].ended().cursor),
                fewer_locals[i],
                fewer_remotes[i],
            ) by {
                assert(front[i] == sessions[i] && front[i - 1] == sessions[i - 1]);
            }
            assert forall|i: int| 0 <= i < front.len() implies (
            #[trigger] front[i]).well_formed() by {
                assert(front[i] == sessions[i]);
            }
        }
        assert forall|i: int| 0 <= i < front.len() implies walks_honestly(
            #[trigger] front[i],
            fewer_residents[i],
            false && i == front.len() - 1,
        ) by {
            assert(front[i] == sessions[i]);
            assert(walks_honestly(sessions[i], residents[i], ended && i == sessions.len() - 1));
        }
        assert forall|i: int| 0 <= i < fewer_residents.len() implies (
        #[trigger] fewer_residents[i]).contains(handle) by {
            assert(fewer_residents[i] == residents[i]);
        }
        assert(front.last() == sessions[at - 1]);
        law_changing_inventory_starves_no_handle(
            front,
            fewer_locals,
            fewer_remotes,
            fewer_residents,
            false,
            handle,
        );
        let i = choose|i: int| 0 <= i < all_hints(front).len() && all_hints(front)[i] == handle;
        assert(all_hints(sessions)[i] == handle);
    } else {
        let handed = leaves(session.answers);
        let wanted = |other: RawHash| may_hint(session.begun().cursor, other);
        assert(residents[at].contains(handle));
        assert(handed.contains(handle));
        lemma_selected(handed, wanted);
        let missing = session.ended().missing@;
        assert(missing.contains(handle));
        let i = choose|i: int| 0 <= i < missing.len() && missing[i] == handle;
        assert(all_hints(sessions)[all_hints(front).len() + i] == handle);
    }
}

/// A changing inventory does not repeat hints: over one pass they come in
/// ascending order, each is the remote's in its session and not held locally, and
/// a pass has come as far as every leaf that it was handed.
pub proof fn law_changing_inventory_repeats_no_hint(
    sessions: Seq<InventorySession>,
    locals: Seq<CollectionRepairOverlay>,
    remotes: Seq<PatchSummary>,
    residents: Seq<Set<RawHash>>,
    ended: bool,
)
    requires
        is_pass(sessions, locals, remotes),
        residents.len() == sessions.len(),
        forall|i: int|
            0 <= i < sessions.len() ==> walks_honestly(
                #[trigger] sessions[i],
                residents[i],
                ended && i == sessions.len() - 1,
            ),
    ensures
        ascending_handles(all_hints(sessions)),
        all_hints(sessions).no_duplicates(),
        forall|i: int, handle: RawHash|
            0 <= i < sessions.len() && #[trigger] sessions[i].ended().missing@.contains(handle)
                ==> residents[i].contains(handle)
                && !sessions[0].begun().cursor.local@.contains_key(handle),
        forall|i: int, handle: RawHash|
            0 <= i < sessions.len() && #[trigger] leaves(sessions[i].answers).contains(handle)
                ==> at_most(handle, sessions[i].ended().cursor.visited),
{
    lemma_hints_ascend(sessions, locals, remotes, residents, ended, sessions.len() as int);
    assert(sessions.take(sessions.len() as int) =~= sessions);
    let hints = all_hints(sessions);
    assert forall|i: int, j: int|
        0 <= i < hints.len() && 0 <= j < hints.len() && i != j implies hints[i] != hints[j] by {
        if i < j {
            assert(rank(hints[i]) < rank(hints[j]));
        } else {
            assert(rank(hints[j]) < rank(hints[i]));
        }
    }
    assert forall|i: int, handle: RawHash|
        0 <= i < sessions.len() && #[trigger] sessions[i].ended().missing@.contains(
            handle,
        ) implies residents[i].contains(handle)
        && !sessions[0].begun().cursor.local@.contains_key(handle) by {
        lemma_pass(sessions, locals, remotes, i);
        assert(walks_honestly(sessions[i], residents[i], ended && i == sessions.len() - 1));
        lemma_selected(
            leaves(sessions[i].answers),
            |other: RawHash| may_hint(sessions[i].begun().cursor, other),
        );
    }
    assert forall|i: int, handle: RawHash|
        0 <= i < sessions.len() && #[trigger] leaves(sessions[i].answers).contains(
            handle,
        ) implies at_most(handle, sessions[i].ended().cursor.visited) by {
        lemma_pass(sessions, locals, remotes, i);
        lemma_reached(sessions[i].begun().cursor.visited, leaves(sessions[i].answers));
    }
}

/// Selecting keeps the order.
proof fn lemma_selected_ascends(handles: Seq<RawHash>, wanted: spec_fn(RawHash) -> bool)
    requires
        ascending_handles(handles),
    ensures
        ascending_handles(selected(handles, wanted)),
    decreases handles.len(),
{
    if handles.len() > 0 {
        let front = handles.drop_last();
        let last = handles.last();
        assert forall|i: int, j: int| 0 <= i < j < front.len() implies rank(#[trigger] front[i])
            < rank(#[trigger] front[j]) by {
            assert(rank(handles[i]) < rank(handles[j]));
        }
        lemma_selected_ascends(front, wanted);
        lemma_selected(front, wanted);
        let kept = selected(front, wanted);
        let all = selected(handles, wanted);
        assert forall|i: int, j: int| 0 <= i < j < all.len() implies rank(#[trigger] all[i]) < rank(
            #[trigger] all[j],
        ) by {
            if j < kept.len() {
                assert(rank(kept[i]) < rank(kept[j]));
            } else {
                assert(kept.contains(kept[i]));
                let k = choose|k: int| 0 <= k < front.len() && front[k] == kept[i];
                assert(rank(handles[k]) < rank(handles[handles.len() - 1]));
            }
        }
    }
}

proof fn lemma_hints_ascend(
    sessions: Seq<InventorySession>,
    locals: Seq<CollectionRepairOverlay>,
    remotes: Seq<PatchSummary>,
    residents: Seq<Set<RawHash>>,
    ended: bool,
    count: int,
)
    requires
        is_pass(sessions, locals, remotes),
        residents.len() == sessions.len(),
        forall|i: int|
            0 <= i < sessions.len() ==> walks_honestly(
                #[trigger] sessions[i],
                residents[i],
                ended && i == sessions.len() - 1,
            ),
        0 <= count <= sessions.len(),
    ensures
        ascending_handles(all_hints(sessions.take(count))),
        count > 0 ==> forall|i: int|
            0 <= i < all_hints(sessions.take(count)).len() ==> at_most(
                #[trigger] all_hints(sessions.take(count))[i],
                sessions[count - 1].ended().cursor.visited,
            ),
    decreases count,
{
    if count > 0 {
        let at = count - 1;
        let session = sessions[at];
        let cursor = session.begun().cursor;
        let handed = leaves(session.answers);
        let wanted = |handle: RawHash| may_hint(cursor, handle);
        let before = all_hints(sessions.take(at));
        let missing = session.ended().missing@;
        let all = all_hints(sessions.take(count));
        assert(sessions.take(count).drop_last() =~= sessions.take(at));
        assert(sessions.take(count).last() == session);
        assert(all == before + missing);
        lemma_hints_ascend(sessions, locals, remotes, residents, ended, at);
        lemma_pass(sessions, locals, remotes, at);
        assert(walks_honestly(session, residents[at], ended && at == sessions.len() - 1));
        lemma_selected(handed, wanted);
        lemma_selected_ascends(handed, wanted);
        lemma_reached(cursor.visited, handed);
        if at == 0 {
            assert(sessions.take(0) =~= Seq::empty());
            assert(before.len() == 0);
        }
        assert forall|i: int| 0 <= i < missing.len() implies !at_most(
            #[trigger] missing[i],
            cursor.visited,
        ) && at_most(missing[i], session.ended().cursor.visited) by {
            assert(missing.contains(missing[i]));
            assert(handed.contains(missing[i]) && wanted(missing[i]));
        }
        assert forall|i: int| 0 <= i < before.len() implies at_most(
            #[trigger] before[i],
            cursor.visited,
        ) && at_most(before[i], session.ended().cursor.visited) by {
            assert(at > 0);
        }
        assert forall|i: int, j: int| 0 <= i < j < all.len() implies rank(#[trigger] all[i]) < rank(
            #[trigger] all[j],
        ) by {
            if j < before.len() {
                assert(all[i] == before[i] && all[j] == before[j]);
            } else if i >= before.len() {
                assert(all[i] == missing[i - before.len()] && all[j] == missing[j - before.len()]);
            } else {
                assert(all[i] == before[i] && all[j] == missing[j - before.len()]);
            }
        }
        assert forall|i: int| 0 <= i < all.len() implies at_most(
            #[trigger] all[i],
            session.ended().cursor.visited,
        ) by {
            if i < before.len() {
                assert(all[i] == before[i]);
            } else {
                assert(all[i] == missing[i - before.len()]);
            }
        }
    }
}

/// A pass whose walk has ended wraps to the low keys exactly if the remote
/// inventory changed after something was visited. Whoever takes up the cursor that
/// it then leaves starts another pass, at the first key and against the same local
/// inventory; otherwise it leaves none.
pub proof fn law_changed_inventory_wraps(
    sessions: Seq<InventorySession>,
    locals: Seq<CollectionRepairOverlay>,
    remotes: Seq<PatchSummary>,
    next: InventoryPull,
    local: CollectionRepairOverlay,
    remote: PatchSummary,
)
    requires
        is_pass(sessions, locals, remotes),
        local.collection == sessions[0].begun().cursor.collection,
        next.takes_up(sessions.last().ended().cursor_after_walk(), local, remote),
    ensures
        sessions.last().ended().cursor_after_walk() is Some <==> exists|i: int|
            0 < i < sessions.len() && #[trigger] remotes[i] != remotes[i - 1] && sessions[i
                - 1].ended().cursor.visited is Some,
        starts_pass(next, remote),
        sessions.last().ended().cursor_after_walk() is Some ==> next.cursor.local
            == sessions[0].begun().cursor.local,
{
    lemma_wraps(sessions, locals, remotes, sessions.len() - 1);
    lemma_pass(sessions, locals, remotes, sessions.len() - 1);
}

proof fn lemma_wraps(
    sessions: Seq<InventorySession>,
    locals: Seq<CollectionRepairOverlay>,
    remotes: Seq<PatchSummary>,
    at: int,
)
    requires
        is_pass(sessions, locals, remotes),
        0 <= at < sessions.len(),
    ensures
        sessions[at].ended().cursor.wrap <==> exists|i: int|
            0 < i <= at && #[trigger] remotes[i] != remotes[i - 1] && sessions[i
                - 1].ended().cursor.visited is Some,
    decreases at,
{
    lemma_pass(sessions, locals, remotes, at);
    if at > 0 {
        lemma_wraps(sessions, locals, remotes, at - 1);
        lemma_pass(sessions, locals, remotes, at - 1);
        let previous = sessions[at - 1];
        assert(locals[at].collection == sessions[0].begun().cursor.collection);
        assert(sessions[at].begun().takes_up(
            Some(previous.ended().cursor),
            locals[at],
            remotes[at],
        ));
        if remotes[at] != remotes[at - 1] && previous.ended().cursor.visited is Some {
            assert(sessions[at].ended().cursor.wrap);
        }
    }
}

} // verus!
