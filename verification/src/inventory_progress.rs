//! A traversal of an unchanged snapshot comes to an end.

use vstd::prelude::*;

use crate::collection_blob_inventory::{
    in_memory, is_least_handle, law_finished_inventory_is_the_closure,
    law_scan_is_sound_and_bounded, law_scan_stays_covered, least_handle, lemma_visit_sound, reachable, InventoryState, RawHash, SOURCE_WORD_QUANTUM,
};
use crate::keys::rank;

verus! {

impl InventoryState {
    /// Whether there is work for the last observation.
    pub open spec fn unfinished(self) -> bool {
        self.revisit || self.round != Set::<RawHash>::empty() || self.next
            != Set::<RawHash>::empty()
    }

    /// Whether `handle` is planned for this round or the next.
    pub open spec fn planned(self, handle: RawHash) -> bool {
        self.round.contains(handle) || self.next.contains(handle)
    }

    /// The most turns that a planned handle takes: one for each word it has left,
    /// one to end, and all of them once more if it was begun before the last
    /// additions.
    pub open spec fn turns(self, blobs: Map<RawHash, Seq<u8>>, handle: RawHash) -> nat {
        if !blobs.contains_key(handle) {
            1
        } else {
            let body = blobs[handle];
            let progress = self.progress_of(handle);
            let left = Self::words_left(body, progress.offset as int) + 1;
            if progress.generation != self.generation {
                left + Self::words_left(body, 0) + 1
            } else {
                left
            }
        }
    }

    /// The most turns that a handle takes, now or once it is found.
    pub open spec fn work(self, blobs: Map<RawHash, Seq<u8>>, handle: RawHash) -> nat {
        (if self.planned(handle) {
            self.turns(blobs, handle)
        } else {
            0
        }) + (if blobs.contains_key(handle) && !self.resident.contains(handle) {
            Self::words_left(blobs[handle], 0) + 1
        } else {
            0
        })
    }

    /// The handles that a traversal can come to.
    pub open spec fn scope(self, blobs: Map<RawHash, Seq<u8>>) -> Set<RawHash> {
        self.seeds.union(blobs.dom())
    }

    /// The most turns that the traversal takes unless it revisits everything.
    pub open spec fn work_left(self, blobs: Map<RawHash, Seq<u8>>) -> nat {
        total(self.scope(blobs), |handle: RawHash| self.work(blobs, handle))
    }

    /// After `count` scans with the same budget.
    pub open spec fn scanned_repeatedly(
        self,
        blobs: Map<RawHash, Seq<u8>>,
        words: nat,
        sources: nat,
        count: nat,
    ) -> InventoryState
        decreases count,
    {
        if count == 0 {
            self
        } else {
            self.advanced(blobs, words, sources).0.scanned_repeatedly(
                blobs,
                words,
                sources,
                (count - 1) as nat,
            )
        }
    }
}

/// The sum of `weight` over a finite set.
pub open spec fn total(handles: Set<RawHash>, weight: spec_fn(RawHash) -> nat) -> nat
    decreases handles.len(),
{
    if handles.finite() && handles.len() > 0 {
        let handle = handles.choose();
        weight(handle) + total(handles.remove(handle), weight)
    } else {
        0
    }
}

/// Smaller weights have a smaller sum.
proof fn lemma_total(
    handles: Set<RawHash>,
    less: spec_fn(RawHash) -> nat,
    more: spec_fn(RawHash) -> nat,
    strictly: Option<RawHash>,
)
    requires
        handles.finite(),
        forall|handle: RawHash| #[trigger]
            handles.contains(handle) ==> less(handle) <= more(handle),
        strictly matches Some(handle) ==> handles.contains(handle) && less(handle) < more(handle),
    ensures
        total(handles, less) <= total(handles, more),
        strictly is Some ==> total(handles, less) < total(handles, more),
    decreases handles.len(),
{
    if handles.len() > 0 {
        let chosen = handles.choose();
        let rest = handles.remove(chosen);
        let further = match strictly {
            Some(handle) => if handle == chosen {
                None
            } else {
                Some(handle)
            },
            None => None,
        };
        lemma_total(rest, less, more, further);
    } else {
        assert(handles =~= Set::empty());
    }
}

/// A set with a handle has a least one.
proof fn lemma_least_exists(handles: Set<RawHash>, handle: RawHash)
    requires
        handles.contains(handle),
    ensures
        least_handle(handles) is Some,
        is_least_handle(handles, least_handle(handles)->0),
    decreases rank(handle),
{
    if !is_least_handle(handles, handle) {
        let lower = choose|lower: RawHash| #[trigger]
            handles.contains(lower) && rank(lower) < rank(handle);
        lemma_least_exists(handles, lower);
    }
}

/// A turn leaves less work.
proof fn lemma_visit_leaves_less(
    state: InventoryState,
    handle: RawHash,
    blobs: Map<RawHash, Seq<u8>>,
    limit: nat,
)
    requires
        in_memory(blobs),
        state.sound(blobs),
        state.within(blobs),
        state.seeds.finite(),
        blobs.dom().finite(),
        state.round.contains(handle),
        limit > 0,
    ensures
        ({
            let (after, done) = state.visited(handle, blobs, limit);
            &&& !done.invalidated
            &&& after.seeds == state.seeds
            &&& after.revisit == state.revisit
            &&& after.work_left(blobs) < state.work_left(blobs)
        }),
{
    let (after, done) = state.visited(handle, blobs, limit);
    let scope = state.scope(blobs);
    assert forall|other: RawHash| #[trigger] state.resident.contains(other) implies blobs.contains_key(
        other,
    ) by {
        lemma_reachable_readable(state.seeds, blobs, other);
    }
    let more = |other: RawHash| state.work(blobs, other);
    let less = |other: RawHash| after.work(blobs, other);
    assert(scope.contains(handle));
    let taken = state.taken(handle);
    if blobs.contains_key(handle) {
        let found = taken.found(handle);
        let words = found.turn_words(handle, blobs[handle], limit);
        let fresh = found.fresh(handle, blobs, words);
        let progress = state.progress_of(handle);
        assert(found.progress_of(handle) == progress);
        assert(!fresh.contains(handle));
        let left = InventoryState::words_left(blobs[handle], progress.offset as int);
        assert(progress.offset <= blobs[handle].len());
        assert(words <= left && (left > 0 ==> words > 0));
        assert(progress.offset + 32 * words <= blobs[handle].len());
        let offset = (progress.offset + 32 * words) as usize;
        assert(InventoryState::words_left(blobs[handle], offset as int) == left - words) by {
            assert((blobs[handle].len() - progress.offset - 32 * words) / 32 == (blobs[handle].len()
                - progress.offset) / 32 - words);
        }
        assert(less(handle) < more(handle));
        assert forall|other: RawHash| #[trigger] scope.contains(other) implies less(other) <= more(
            other,
        ) by {
            if other != handle {
                assert(after.progress_of(other) == state.progress_of(other));
                if fresh.contains(other) {
                    assert(!state.resident.contains(other));
                    assert(!state.progress.contains_key(other));
                    assert(after.turns(blobs, other) == InventoryState::words_left(blobs[other], 0)
                        + 1);
                }
            }
        }
    } else {
        assert(!state.resident.contains(handle));
        assert(less(handle) < more(handle));
        assert forall|other: RawHash| #[trigger] scope.contains(other) implies less(other) <= more(
            other,
        ) by {
            if other != handle {
                assert(after.progress_of(other) == state.progress_of(other));
            }
        }
    }
    lemma_total(scope, less, more, Some(handle));
}

/// What is reachable is readable.
proof fn lemma_reachable_readable(
    seeds: Set<RawHash>,
    blobs: Map<RawHash, Seq<u8>>,
    handle: RawHash,
)
    requires
        reachable(seeds, blobs, handle),
    ensures
        blobs.contains_key(handle),
{
    let path = choose|path: Seq<RawHash>|
        crate::collection_blob_inventory::leads_to(seeds, blobs, path, handle);
    assert(path[path.len() - 1] == handle);
}

/// A scan with a budget leaves less to do, or begins the revisit that was asked
/// for, unless nothing is left to do.
proof fn lemma_scan_progresses(
    state: InventoryState,
    blobs: Map<RawHash, Seq<u8>>,
    words: nat,
    sources: nat,
)
    requires
        in_memory(blobs),
        state.sound(blobs),
        state.within(blobs),
        state.seeds.finite(),
        blobs.dom().finite(),
    ensures
        ({
            let after = state.advanced(blobs, words, sources).0;
            &&& after.sound(blobs)
            &&& after.within(blobs)
            &&& after.seeds == state.seeds
            &&& after.revisit ==> state.revisit
            &&& after.revisit == state.revisit ==> after.work_left(blobs) <= state.work_left(blobs)
            &&& words > 0 && sources > 0 && state.unfinished() ==> (state.revisit && !after.revisit)
                || (after.revisit == state.revisit && (after.work_left(blobs) < state.work_left(
                blobs,
            )))
        }),
    decreases sources,
{
    law_scan_is_sound_and_bounded(state, blobs, words, sources);
    if words > 0 && sources > 0 {
        let ready = state.refilled();
        assert(ready.sound(blobs));
        if ready.revisit == state.revisit {
            let scope = state.scope(blobs);
            let before = |handle: RawHash| state.work(blobs, handle);
            let then = |handle: RawHash| ready.work(blobs, handle);
            assert forall|handle: RawHash| #[trigger] scope.contains(handle) implies then(handle)
                == before(handle) by {
                assert(ready.progress_of(handle) == state.progress_of(handle));
            }
            lemma_total(scope, then, before, None);
        }
        if ready.round != Set::<RawHash>::empty() {
            let some = choose|some: RawHash| ready.round.contains(some);
            if forall|handle: RawHash| !ready.round.contains(handle) {
                assert(ready.round =~= Set::<RawHash>::empty());
            }
            lemma_least_exists(ready.round, some);
            let handle = least_handle(ready.round)->0;
            let limit = if words < SOURCE_WORD_QUANTUM {
                words
            } else {
                SOURCE_WORD_QUANTUM as nat
            };
            lemma_visit_sound(ready, handle, blobs, limit);
            lemma_visit_leaves_less(ready, handle, blobs, limit);
            let (next, done) = ready.visited(handle, blobs, limit);
            lemma_scan_progresses(
                next,
                blobs,
                (words - done.words) as nat,
                (sources - 1) as nat,
            );
        } else {
            assert(least_handle(ready.round) is None);
        }
    }
}

/// Repeated scans of an unchanged snapshot finish, whatever its blobs refer to
/// and however small the budget of each scan is. They end up offering exactly the
/// readable closure of the seeds.
pub proof fn law_scanning_finds_the_closure(
    state: InventoryState,
    blobs: Map<RawHash, Seq<u8>>,
    words: nat,
    sources: nat,
) -> (count: nat)
    requires
        in_memory(blobs),
        state.sound(blobs),
        state.within(blobs),
        state.covered(blobs),
        state.seeds.finite(),
        blobs.dom().finite(),
        words > 0,
        sources > 0,
    ensures
        ({
            let last = state.scanned_repeatedly(blobs, words, sources, count);
            &&& !last.unfinished()
            &&& last.seeds == state.seeds
            &&& forall|handle: RawHash| #[trigger]
                last.resident.contains(handle) <==> reachable(state.seeds, blobs, handle)
        }),
    decreases
            if state.revisit {
                1nat
            } else {
                0nat
            },
            state.work_left(blobs),
{
    if state.unfinished() {
        lemma_scan_progresses(state, blobs, words, sources);
        law_scan_stays_covered(state, blobs, words, sources);
        let after = state.advanced(blobs, words, sources).0;
        let further = law_scanning_finds_the_closure(after, blobs, words, sources);
        further + 1
    } else {
        assert forall|handle: RawHash| #[trigger] state.resident.contains(handle) <==> reachable(
            state.seeds,
            blobs,
            handle,
        ) by {
            law_finished_inventory_is_the_closure(state, blobs, handle);
        }
        0
    }
}

} // verus!
