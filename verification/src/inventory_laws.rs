//! What one observation and one scan do to an inventory, and what records a set
//! accepts.

use vstd::prelude::*;

use crate::collection_blob_inventory::{
    child_of, is_word, leads_to, least_handle, reachable, BlobInventoryChange, InventoryState,
    RawHash, SourceProgress,
};
use crate::collection_delta::{canonical, law_canonical_set, CollectionDeltaError, RecordState};

verus! {

/// A word is made of thirty-two bytes in a row, and is a handle exactly if all of
/// them agree.
pub proof fn law_words_are_thirty_two_bytes(body: Seq<u8>, offset: int, handle: RawHash)
    ensures
        is_word(body, offset, handle) <==> 0 <= offset && offset + 32 <= body.len() && forall|
            i: int,
        |
            0 <= i < 32 ==> #[trigger] handle@[i] == body[offset + i],
{
    if 0 <= offset && offset + 32 <= body.len() {
        let word = body.subrange(offset, offset + 32);
        if forall|i: int| 0 <= i < 32 ==> #[trigger] handle@[i] == body[offset + i] {
            assert(handle@ =~= word);
        }
        if handle@ == word {
            assert forall|i: int| 0 <= i < 32 implies #[trigger] handle@[i] == body[offset
                + i] by {
                assert(word[i] == body[offset + i]);
            }
        }
    }
}

/// A blob is a child of another exactly if it is a word of the other that begins at
/// a multiple of thirty-two.
pub proof fn law_children_are_aligned_words(
    blobs: Map<RawHash, Seq<u8>>,
    parent: RawHash,
    child: RawHash,
)
    ensures
        child_of(blobs, parent, child) <==> exists|offset: int|
            0 <= offset && offset % 32 == 0 && #[trigger] is_word(blobs[parent], offset, child),
{
    if child_of(blobs, parent, child) {
        let k = choose|k: int| #[trigger] is_word(blobs[parent], 32 * k, child);
        assert((32 * k) % 32 == 0);
    }
    if exists|offset: int|
        0 <= offset && offset % 32 == 0 && #[trigger] is_word(blobs[parent], offset, child) {
        let offset = choose|offset: int|
            0 <= offset && offset % 32 == 0 && #[trigger] is_word(blobs[parent], offset, child);
        assert(offset == 32 * (offset / 32));
        assert(is_word(blobs[parent], 32 * (offset / 32), child));
    }
}

/// The closure of seeds has every seed that can be read, and with a blob each of
/// its children that can be read; and it is the least set that has them.
pub proof fn law_closure_is_the_least_closed_set(
    seeds: Set<RawHash>,
    blobs: Map<RawHash, Seq<u8>>,
    closed: Set<RawHash>,
)
    ensures
        forall|seed: RawHash|
            seeds.contains(seed) && blobs.contains_key(seed) ==> #[trigger] reachable(
                seeds,
                blobs,
                seed,
            ),
        forall|parent: RawHash, child: RawHash|
            reachable(seeds, blobs, parent) && blobs.contains_key(child) && #[trigger] child_of(
                blobs,
                parent,
                child,
            ) ==> reachable(seeds, blobs, child),
        (forall|seed: RawHash| #[trigger]
            seeds.contains(seed) && blobs.contains_key(seed) ==> closed.contains(seed)) && (forall|
            parent: RawHash,
            child: RawHash,
        |
            closed.contains(parent) && blobs.contains_key(child) && #[trigger] child_of(
                blobs,
                parent,
                child,
            ) ==> closed.contains(child)) ==> forall|handle: RawHash| #[trigger]
            reachable(seeds, blobs, handle) ==> closed.contains(handle),
{
    assert forall|seed: RawHash|
        seeds.contains(seed) && blobs.contains_key(seed) implies #[trigger] reachable(
        seeds,
        blobs,
        seed,
    ) by {
        assert(leads_to(seeds, blobs, seq![seed], seed));
    }
    assert forall|parent: RawHash, child: RawHash|
        reachable(seeds, blobs, parent) && blobs.contains_key(child) && #[trigger] child_of(
            blobs,
            parent,
            child,
        ) implies reachable(seeds, blobs, child) by {
        let path = choose|path: Seq<RawHash>| leads_to(seeds, blobs, path, parent);
        let longer = path.push(child);
        assert forall|i: int| 0 <= i < longer.len() implies blobs.contains_key(
            #[trigger] longer[i],
        ) by {
            if i < path.len() {
                assert(longer[i] == path[i]);
            }
        }
        assert forall|i: int| 0 < i < longer.len() implies child_of(
            blobs,
            longer[i - 1],
            #[trigger] longer[i],
        ) by {
            assert(longer[i - 1] == path[i - 1]);
            if i < path.len() {
                assert(longer[i] == path[i]);
            }
        }
        assert(longer[0] == path[0]);
        assert(leads_to(seeds, blobs, longer, child));
    }
    if (forall|seed: RawHash| #[trigger]
        seeds.contains(seed) && blobs.contains_key(seed) ==> closed.contains(seed)) && (forall|
        parent: RawHash,
        child: RawHash,
    |
        closed.contains(parent) && blobs.contains_key(child) && #[trigger] child_of(
            blobs,
            parent,
            child,
        ) ==> closed.contains(child)) {
        assert forall|handle: RawHash| #[trigger]
            reachable(seeds, blobs, handle) implies closed.contains(handle) by {
            let path = choose|path: Seq<RawHash>| leads_to(seeds, blobs, path, handle);
            lemma_path_closed(seeds, blobs, closed, path, path.len() - 1);
        }
    }
}

proof fn lemma_path_closed(
    seeds: Set<RawHash>,
    blobs: Map<RawHash, Seq<u8>>,
    closed: Set<RawHash>,
    path: Seq<RawHash>,
    at: int,
)
    requires
        forall|seed: RawHash| #[trigger]
            seeds.contains(seed) && blobs.contains_key(seed) ==> closed.contains(seed),
        forall|parent: RawHash, child: RawHash|
            closed.contains(parent) && blobs.contains_key(child) && #[trigger] child_of(
                blobs,
                parent,
                child,
            ) ==> closed.contains(child),
        leads_to(seeds, blobs, path, path.last()),
        0 <= at < path.len(),
    ensures
        closed.contains(path[at]),
    decreases at,
{
    if at > 0 {
        lemma_path_closed(seeds, blobs, closed, path, at - 1);
        assert(child_of(blobs, path[at - 1], path[at]));
    }
}

/// A scan without a budget for words or for sources changes nothing and counts
/// nothing.
pub proof fn law_no_budget_changes_nothing(
    state: InventoryState,
    blobs: Map<RawHash, Seq<u8>>,
    words: nat,
    sources: nat,
)
    requires
        words == 0 || sources == 0,
    ensures
        state.advanced(blobs, words, sources).0 == state,
        state.advanced(blobs, words, sources).1.words == 0,
        state.advanced(blobs, words, sources).1.sources == 0,
        state.advanced(blobs, words, sources).1.added == 0,
        !state.advanced(blobs, words, sources).1.invalidated,
{
}

/// A turn of a readable source scans the words that are left of it, sixty-four at
/// most and no more than the budget has. What it did not reach waits for the next
/// round, where it goes on from there.
pub proof fn law_a_turn_scans_a_quantum(
    state: InventoryState,
    blobs: Map<RawHash, Seq<u8>>,
    words: nat,
    handle: RawHash,
)
    requires
        words > 0,
        state.round != Set::<RawHash>::empty(),
        least_handle(state.round) == Some(handle),
        blobs.contains_key(handle),
        blobs[handle].len() <= usize::MAX,
        state.progress_of(handle).offset <= blobs[handle].len(),
    ensures
        ({
            let (after, done) = state.advanced(blobs, words, 1);
            let offset = state.progress_of(handle).offset;
            let left = (blobs[handle].len() - offset) / 32;
            &&& done.sources == 1
            &&& done.words <= 64 && done.words <= words && done.words <= left
            &&& left <= 64 && left <= words ==> done.words == left
            &&& left > 64 && words > 64 ==> done.words == 64
            &&& left > words && words <= 64 ==> done.words == words
            &&& after.resident.contains(handle)
            &&& done.words < left ==> after.next.contains(handle) && after.progress.contains_key(
                handle,
            ) && after.progress[handle].offset == offset + 32 * done.words
            &&& !after.round.contains(handle)
            &&& !done.invalidated
        }),
{
    let limit: nat = if words < 64 {
        words
    } else {
        64
    };
    let (next, done) = state.visited(handle, blobs, limit);
    assert(state.refilled() == state);
    assert(next.advanced(blobs, (words - done.words) as nat, 0).0 == next);
    let offset = state.progress_of(handle).offset as int;
    let left = (blobs[handle].len() - offset) / 32;
    assert(done.words <= left);
    if done.words < left {
        let size = blobs[handle].len() as int;
        let scanned = offset + 32 * done.words;
        assert(scanned + 32 <= size) by (nonlinear_arith)
            requires
                scanned == offset + 32 * done.words,
                done.words + 1 <= left,
                left == (size - offset) / 32,
        ;
        assert((size - scanned) / 32 >= 1) by (nonlinear_arith)
            requires
                scanned + 32 <= size,
        ;
    }
}

/// A handle that was offered and can no longer be read ends the scan, and nothing
/// is offered any more until the seeds have been scanned again.
pub proof fn law_an_unreadable_handle_starts_over(
    state: InventoryState,
    blobs: Map<RawHash, Seq<u8>>,
    words: nat,
    sources: nat,
    handle: RawHash,
)
    requires
        words > 0,
        sources > 0,
        state.round != Set::<RawHash>::empty(),
        least_handle(state.round) == Some(handle),
        !blobs.contains_key(handle),
        state.resident.contains(handle),
    ensures
        ({
            let (after, done) = state.advanced(blobs, words, sources);
            &&& done.invalidated
            &&& done.sources == 1 && done.words == 0 && done.added == 0
            &&& after.resident == Set::<RawHash>::empty()
            &&& after.round == Set::<RawHash>::empty() && after.next == Set::<RawHash>::empty()
            &&& after.progress == Map::<RawHash, SourceProgress>::empty()
            &&& after.seeds == state.seeds
            &&& after.revisit <==> state.seeds != Set::<RawHash>::empty()
        }),
{
    assert(state.refilled() == state);
}

/// A handle that was never offered and cannot be read costs a turn and leaves
/// nothing behind: it is not wanted, offered or scanned.
pub proof fn law_an_absent_word_is_no_demand(
    state: InventoryState,
    blobs: Map<RawHash, Seq<u8>>,
    words: nat,
    handle: RawHash,
)
    requires
        words > 0,
        state.round != Set::<RawHash>::empty(),
        least_handle(state.round) == Some(handle),
        !blobs.contains_key(handle),
        !state.resident.contains(handle),
    ensures
        ({
            let (after, done) = state.advanced(blobs, words, 1);
            &&& !done.invalidated
            &&& done.sources == 1 && done.words == 0 && done.added == 0
            &&& after.resident == state.resident
            &&& !after.round.contains(handle) && !after.next.contains(handle)
            &&& after.progress == state.progress
        }),
{
    assert(state.refilled() == state);
    let (next, done) = state.visited(handle, blobs, if words < 64 {
        words
    } else {
        64
    });
    assert(next.advanced(blobs, words, 0).0 == next);
}

/// An observation takes up the seeds. While nothing may be gone, nothing that was
/// offered or begun is given up, and exactly the new seeds are new work.
pub proof fn law_more_seeds_keep_progress(
    state: InventoryState,
    seeds: Set<RawHash>,
    change: BlobInventoryChange,
    handle: RawHash,
)
    requires
        state.seeds.subset_of(seeds),
        change != BlobInventoryChange::MayRemove,
        state.generation < u64::MAX,
    ensures
        ({
            let after = state.observed(seeds, change);
            &&& after.seeds == seeds
            &&& after.resident == state.resident && after.round == state.round
            &&& after.progress == state.progress
            &&& after.next.contains(handle) <==> state.next.contains(handle) || (seeds.contains(
                handle,
            ) && !state.seeds.contains(handle))
            &&& change == BlobInventoryChange::Unchanged ==> after.generation == state.generation
                && after.revisit == state.revisit
            &&& change == BlobInventoryChange::Additions ==> after.generation == state.generation
                + 1 && (after.revisit <==> seeds != Set::<RawHash>::empty())
        }),
{
}

/// An observation after which a seed or a blob may be gone starts over: nothing is
/// offered, and everything is scanned anew from the seeds.
pub proof fn law_a_removal_starts_over(
    state: InventoryState,
    seeds: Set<RawHash>,
    change: BlobInventoryChange,
)
    requires
        !state.seeds.subset_of(seeds) || change == BlobInventoryChange::MayRemove,
    ensures
        ({
            let after = state.observed(seeds, change);
            &&& after.seeds == seeds
            &&& after.resident == Set::<RawHash>::empty()
            &&& after.round == Set::<RawHash>::empty() && after.next == Set::<RawHash>::empty()
            &&& after.progress == Map::<RawHash, SourceProgress>::empty()
            &&& after.revisit <==> seeds != Set::<RawHash>::empty()
        }),
{
}

/// A revisit scans every seed and everything that is offered once more, with what
/// was waiting; without one, a round is what was waiting. A round under way goes
/// on.
pub proof fn law_a_revisit_covers_everything(state: InventoryState, handle: RawHash)
    ensures
        state.round == Set::<RawHash>::empty() && state.revisit ==> (
        state.refilled().round.contains(handle) <==> state.seeds.contains(handle)
            || state.resident.contains(handle) || state.next.contains(handle)),
        state.round == Set::<RawHash>::empty() && !state.revisit ==> (
        state.refilled().round.contains(handle) <==> state.next.contains(handle)),
        state.round == Set::<RawHash>::empty() ==> !state.refilled().revisit
            && !state.refilled().next.contains(handle),
        state.round != Set::<RawHash>::empty() ==> state.refilled() == state,
{
}

/// One turn adds to what is offered exactly what it counts: the source itself, if
/// it was not offered, and the readable words among those that it scanned.
pub proof fn law_turns_count_what_they_add(
    state: InventoryState,
    handle: RawHash,
    blobs: Map<RawHash, Seq<u8>>,
    limit: nat,
)
    requires
        state.resident.finite(),
        blobs.contains_key(handle),
    ensures
        ({
            let (after, done) = state.visited(handle, blobs, limit);
            &&& state.resident.subset_of(after.resident)
            &&& after.resident.finite()
            &&& after.resident.len() == state.resident.len() + done.added
        }),
{
    let found = state.taken(handle).found(handle);
    let words = found.turn_words(handle, blobs[handle], limit);
    let fresh = found.fresh(handle, blobs, words);
    lemma_fresh_finite(found, handle, blobs, words);
    assert(fresh.disjoint(found.resident));
    vstd::set_lib::lemma_set_disjoint_lens(found.resident, fresh);
    assert(state.visited(handle, blobs, limit).0.resident =~= found.resident.union(fresh));
}

proof fn lemma_fresh_finite(
    state: InventoryState,
    handle: RawHash,
    blobs: Map<RawHash, Seq<u8>>,
    count: nat,
)
    ensures
        state.fresh(handle, blobs, count).finite(),
    decreases count,
{
    let fresh = state.fresh(handle, blobs, count);
    if count == 0 {
        assert(fresh =~= Set::empty());
    } else {
        let less = (count - 1) as nat;
        lemma_fresh_finite(state, handle, blobs, less);
        let before = state.fresh(handle, blobs, less);
        let body = blobs[handle];
        let offset = state.progress_of(handle).offset as int;
        let place = offset + 32 * less;
        if exists|child: RawHash| #[trigger] is_word(body, place, child) {
            let last = choose|child: RawHash| #[trigger] is_word(body, place, child);
            assert forall|child: RawHash| fresh.contains(child) implies before.insert(
                last,
            ).contains(child) by {
                let k = choose|k: int|
                    0 <= k < count && #[trigger] is_word(body, offset + 32 * k, child);
                if k == less {
                    crate::keys::lemma_same_bytes(child, last);
                } else {
                    assert(is_word(body, offset + 32 * k, child));
                }
            }
            vstd::set_lib::lemma_set_subset_finite(before.insert(last), fresh);
        } else {
            assert forall|child: RawHash| fresh.contains(child) implies before.contains(child) by {
                let k = choose|k: int|
                    0 <= k < count && #[trigger] is_word(body, offset + 32 * k, child);
                assert(is_word(body, offset + 32 * k, child));
            }
            vstd::set_lib::lemma_set_subset_finite(before, fresh);
        }
    }
}

/// Records are refused for one of two reasons: one of them is of another
/// collection, or two of them differ and share the fingerprint that the error
/// names. Records before the first that is refused have no part in the reason.
pub proof fn law_records_are_refused_for_a_reason(
    expected: [u8; 32],
    records: Seq<RecordState>,
)
    ensures
        canonical(expected, records) matches Err(error) ==> match error {
            CollectionDeltaError::WrongCollection => exists|i: int|
                0 <= i < records.len() && (#[trigger] records[i]).collection != expected,
            CollectionDeltaError::FingerprintCollision(fingerprint) => exists|i: int, j: int|
                #![trigger records[i], records[j]]
                0 <= i < j < records.len() && records[i] != records[j] && records[i].fingerprint
                    == fingerprint && records[j].fingerprint == fingerprint,
            CollectionDeltaError::Decode(_) => false,
        },
    decreases records.len(),
{
    if records.len() > 0 {
        let front = records.drop_last();
        let last = records.last();
        law_records_are_refused_for_a_reason(expected, front);
        assert(records[records.len() - 1] == last);
        assert forall|i: int| 0 <= i < front.len() implies front[i] == records[i] by {}
        match canonical(expected, front) {
            Err(CollectionDeltaError::WrongCollection) => {
                let i = choose|i: int|
                    0 <= i < front.len() && (#[trigger] front[i]).collection != expected;
                assert(records[i].collection != expected);
            },
            Err(CollectionDeltaError::FingerprintCollision(fingerprint)) => {
                let (i, j) = choose|i: int, j: int|
                    #![trigger front[i], front[j]]
                    0 <= i < j < front.len() && front[i] != front[j] && front[i].fingerprint
                        == fingerprint && front[j].fingerprint == fingerprint;
                assert(records[i] == front[i] && records[j] == front[j]);
            },
            Err(CollectionDeltaError::Decode(_)) => {},
            Ok(known) => {
                law_canonical_set(expected, front);
                if known.contains_key(last.fingerprint) && known[last.fingerprint] != last {
                    let other = known[last.fingerprint];
                    assert(front.contains(other));
                    let i = choose|i: int| 0 <= i < front.len() && front[i] == other;
                    assert(records[i] == other);
                    assert(records[i] != records[records.len() - 1]);
                }
            },
        }
    }
}

} // verus!
