//! Bounded, positive-only local blob closure for one active collection.
//!
//! Seeds are exact direct references of the collection. Descendants are found
//! conservatively: an aligned 32-byte word of a body is a child only when a
//! passive local snapshot can actually read that exact handle. This does not
//! infer semantic references or promise completeness while work is pending. An
//! absent word is never retained as speculative demand.

use vstd::prelude::*;

use crate::key_map::{is_least, KeyMap};
use crate::keys::{lemma_rank_injective, lemma_same_bytes, rank};

verus! {

/// The handle of a blob.
pub type RawHash = [u8; 32];

/// A set of handles.
pub type ResidentBlobPatch = KeyMap<32, ()>;

/// Bodies of blobs, by handle.
pub type BlobBodies = Map<RawHash, Seq<u8>>;

/// A passive local snapshot of readable blobs. Reading neither acquires a
/// missing blob nor records demand for it.
pub trait BlobReader {
    /// The bodies of the readable blobs.
    spec fn blobs(&self) -> BlobBodies;

    /// The body of one blob.
    fn read(&self, handle: &RawHash) -> (body: Option<Vec<u8>>)
        ensures
            match body {
                Some(body) => self.blobs().contains_key(*handle) && body@ == self.blobs()[*handle],
                None => !self.blobs().contains_key(*handle),
            },
    ;

    /// Whether one blob can be read.
    fn can_read(&self, handle: &RawHash) -> (readable: bool)
        ensures
            readable == self.blobs().contains_key(*handle),
    ;
}

/// Blobs held in memory.
#[derive(Debug)]
pub struct MemoryBlobs {
    pub bodies: KeyMap<32, Vec<u8>>,
}

impl BlobReader for MemoryBlobs {
    open spec fn blobs(&self) -> BlobBodies {
        self.bodies@.map_values(|body: Vec<u8>| body@)
    }

    fn read(&self, handle: &RawHash) -> (body: Option<Vec<u8>>) {
        match self.bodies.get_ref(handle) {
            Some(body) => {
                let mut copy: Vec<u8> = Vec::new();
                copy.extend_from_slice(body.as_slice());
                assert(copy@ =~= body@);
                Some(copy)
            },
            None => None,
        }
    }

    fn can_read(&self, handle: &RawHash) -> (readable: bool) {
        self.bodies.contains_key(handle)
    }
}

/// Change to the readable blobs of a snapshot since the last observation.
#[derive(Clone, Copy, Debug, PartialEq, Eq, Structural)]
pub enum BlobInventoryChange {
    Unchanged,
    /// Every previously readable handle remains readable with the same bytes.
    Additions,
    /// Removal, newly unreadable bytes, or an unknown observation.
    MayRemove,
}

/// Bounds point reads and scanning, not the cost of each passive read.
#[derive(Clone, Copy, Debug)]
pub struct ScanBudget {
    pub words: usize,
    pub sources: usize,
}

/// What one scan did.
#[derive(Clone, Copy, Debug, PartialEq, Eq)]
pub struct ScanStats {
    pub words: usize,
    pub sources: usize,
    pub added: usize,
    /// A previously positive handle became unreadable without a removal notice.
    pub invalidated: bool,
}

impl Default for ScanStats {
    fn default() -> (stats: Self)
        ensures
            stats == (ScanStats { words: 0, sources: 0, added: 0, invalidated: false }),
    {
        ScanStats { words: 0, sources: 0, added: 0, invalidated: false }
    }
}

/// The most words that are scanned of one source before others have a turn.
pub const SOURCE_WORD_QUANTUM: usize = 64;

/// How far a source has been scanned, and since which observation.
#[derive(Clone, Copy, Debug, PartialEq, Eq, Structural)]
pub struct SourceProgress {
    pub offset: usize,
    pub generation: u64,
}

/// Whether `handle` is the word at `offset` of `body`.
pub open spec fn is_word(body: Seq<u8>, offset: int, handle: RawHash) -> bool {
    0 <= offset <= body.len() - 32 && handle@ == body.subrange(offset, offset + 32)
}

/// Whether `handle` is among `count` words of `body` from `offset` on.
pub open spec fn among_words(body: Seq<u8>, offset: int, count: nat, handle: RawHash) -> bool {
    exists|k: int| 0 <= k < count && #[trigger] is_word(body, offset + 32 * k, handle)
}

/// The least handle of a set.
pub open spec fn least_handle(handles: Set<RawHash>) -> Option<RawHash> {
    if exists|handle: RawHash| is_least_handle(handles, handle) {
        Some(choose|handle: RawHash| is_least_handle(handles, handle))
    } else {
        None
    }
}

/// Whether `handle` is the least of `handles`.
pub open spec fn is_least_handle(handles: Set<RawHash>, handle: RawHash) -> bool {
    &&& handles.contains(handle)
    &&& forall|other: RawHash| #[trigger] handles.contains(other) ==> rank(handle) <= rank(other)
}

/// What scanning did, as numbers.
pub struct ScanTotals {
    pub words: nat,
    pub sources: nat,
    pub added: nat,
    pub invalidated: bool,
}

/// The traversal as a value.
pub struct InventoryState {
    pub seeds: Set<RawHash>,
    pub resident: Set<RawHash>,
    pub round: Set<RawHash>,
    pub next: Set<RawHash>,
    pub progress: Map<RawHash, SourceProgress>,
    pub generation: u64,
    pub revisit: bool,
}

impl InventoryState {
    /// A traversal that starts over.
    pub open spec fn reset(self) -> InventoryState {
        InventoryState {
            resident: Set::empty(),
            round: Set::empty(),
            next: Set::empty(),
            progress: Map::empty(),
            revisit: self.seeds != Set::<RawHash>::empty(),
            ..self
        }
    }

    /// The traversal after an observation. Added seeds are work; a seed or a
    /// blob that may be gone starts the traversal over; added blobs ask for a
    /// revisit of everything, without losing the progress made.
    pub open spec fn observed(
        self,
        seeds: Set<RawHash>,
        change: BlobInventoryChange,
    ) -> InventoryState {
        let removed = !self.seeds.subset_of(seeds);
        let seeded = InventoryState {
            next: if removed {
                self.next
            } else {
                self.next.union(seeds.difference(self.seeds))
            },
            seeds,
            ..self
        };
        if removed || change == BlobInventoryChange::MayRemove {
            seeded.reset()
        } else if change == BlobInventoryChange::Additions {
            if self.generation < u64::MAX {
                InventoryState {
                    generation: (self.generation + 1) as u64,
                    revisit: seeds != Set::<RawHash>::empty(),
                    ..seeded
                }
            } else {
                InventoryState { generation: 0, ..seeded }.reset()
            }
        } else {
            seeded
        }
    }

    /// With the next round begun, if the last one is over.
    pub open spec fn refilled(self) -> InventoryState {
        if self.round != Set::<RawHash>::empty() {
            self
        } else if self.revisit {
            InventoryState {
                round: self.next.union(self.seeds).union(self.resident),
                next: Set::empty(),
                revisit: false,
                ..self
            }
        } else {
            InventoryState { round: self.next, next: Set::empty(), ..self }
        }
    }

    /// How far `handle` has been scanned.
    pub open spec fn progress_of(self, handle: RawHash) -> SourceProgress {
        if self.progress.contains_key(handle) {
            self.progress[handle]
        } else {
            SourceProgress { offset: 0, generation: self.generation }
        }
    }

    /// The whole words of a body behind `offset`.
    pub open spec fn words_left(body: Seq<u8>, offset: int) -> nat {
        if offset <= body.len() {
            ((body.len() - offset) / 32) as nat
        } else {
            0
        }
    }

    /// How many words a turn of `handle` scans.
    pub open spec fn turn_words(self, handle: RawHash, body: Seq<u8>, limit: nat) -> nat {
        let left = Self::words_left(body, self.progress_of(handle).offset as int);
        if left <= limit {
            left
        } else {
            limit
        }
    }

    /// The readable handles among `count` words of `handle` that are not
    /// resident yet.
    pub open spec fn fresh(
        self,
        handle: RawHash,
        blobs: Map<RawHash, Seq<u8>>,
        count: nat,
    ) -> Set<RawHash> {
        Set::new(
            |child: RawHash|
                among_words(
                    blobs[handle],
                    self.progress_of(handle).offset as int,
                    count,
                    child,
                ) && blobs.contains_key(child) && !self.resident.contains(child),
        )
    }

    /// `handle` taken off the work that is planned.
    pub open spec fn taken(self, handle: RawHash) -> InventoryState {
        InventoryState {
            round: self.round.remove(handle),
            next: self.next.remove(handle),
            ..self
        }
    }

    /// `handle` known to be resident.
    pub open spec fn found(self, handle: RawHash) -> InventoryState {
        InventoryState { resident: self.resident.insert(handle), ..self }
    }

    /// After `count` more words of `handle` were scanned: fresh handles are
    /// resident and work for the next round. A source that is not at its end
    /// goes on then; one that is at its end and was begun before the last
    /// additions is scanned once more.
    pub open spec fn scanned(
        self,
        handle: RawHash,
        blobs: Map<RawHash, Seq<u8>>,
        count: nat,
    ) -> InventoryState {
        let fresh = self.fresh(handle, blobs, count);
        let progress = self.progress_of(handle);
        let offset = (progress.offset + 32 * count) as usize;
        let resident = self.resident.union(fresh);
        let next = self.next.union(fresh);
        if Self::words_left(blobs[handle], offset as int) > 0 {
            InventoryState {
                resident,
                next: next.insert(handle),
                progress: self.progress.insert(
                    handle,
                    SourceProgress { offset, generation: progress.generation },
                ),
                ..self
            }
        } else if progress.generation != self.generation {
            InventoryState {
                resident,
                next: next.insert(handle),
                progress: self.progress.insert(
                    handle,
                    SourceProgress { offset: 0, generation: self.generation },
                ),
                ..self
            }
        } else {
            InventoryState { resident, next, progress: self.progress.remove(handle), ..self }
        }
    }

    /// After one turn of `handle`, and what it did.
    pub open spec fn visited(
        self,
        handle: RawHash,
        blobs: Map<RawHash, Seq<u8>>,
        limit: nat,
    ) -> (InventoryState, ScanTotals) {
        let taken = self.taken(handle);
        if blobs.contains_key(handle) {
            let found = taken.found(handle);
            let words = found.turn_words(handle, blobs[handle], limit);
            (
                found.scanned(handle, blobs, words),
                ScanTotals {
                    words,
                    sources: 1,
                    added: (if self.resident.contains(handle) {
                        0nat
                    } else {
                        1nat
                    }) + found.fresh(handle, blobs, words).len(),
                    invalidated: false,
                },
            )
        } else if self.resident.contains(handle) {
            (taken.reset(), ScanTotals { words: 0, sources: 1, added: 0, invalidated: true })
        } else {
            (taken, ScanTotals { words: 0, sources: 1, added: 0, invalidated: false })
        }
    }

    /// After a scan of at most `words` words and `sources` turns, and what it
    /// did. A handle that is no longer readable ends it.
    pub open spec fn advanced(
        self,
        blobs: Map<RawHash, Seq<u8>>,
        words: nat,
        sources: nat,
    ) -> (InventoryState, ScanTotals)
        decreases sources,
    {
        let nothing = ScanTotals { words: 0, sources: 0, added: 0, invalidated: false };
        if words == 0 || sources == 0 {
            (self, nothing)
        } else {
            let ready = self.refilled();
            match least_handle(ready.round) {
                None => (ready, nothing),
                Some(handle) => {
                    let limit = if words < SOURCE_WORD_QUANTUM {
                        words
                    } else {
                        SOURCE_WORD_QUANTUM as nat
                    };
                    let (state, done) = ready.visited(handle, blobs, limit);
                    if done.invalidated {
                        (state, done)
                    } else {
                        let (last, rest) = state.advanced(
                            blobs,
                            (words - done.words) as nat,
                            (sources - 1) as nat,
                        );
                        (
                            last,
                            ScanTotals {
                                words: done.words + rest.words,
                                sources: 1 + rest.sources,
                                added: done.added + rest.added,
                                invalidated: rest.invalidated,
                            },
                        )
                    }
                },
            }
        }
    }

    /// Whether no source was scanned beyond its end.
    pub open spec fn within(self, blobs: Map<RawHash, Seq<u8>>) -> bool {
        forall|handle: RawHash| #[trigger]
            self.progress.contains_key(handle) && blobs.contains_key(handle)
                ==> self.progress[handle].offset <= blobs[handle].len()
    }
}

/// Incremental traversal state, not a catalogue of speculative references.
///
/// Each source has at most a quantum of words before yielding to other sources
/// in the round; only positive handles retain an offset. No body is pinned
/// between calls. Each round freezes its finite work set. Additions request a
/// revisit without resetting unfinished offsets, so neither a huge body nor
/// constant arrivals can starve other existing work.
#[derive(Debug)]
pub struct CollectionBlobInventory {
    pub seeds: ResidentBlobPatch,
    pub resident: ResidentBlobPatch,
    pub round: ResidentBlobPatch,
    pub next: ResidentBlobPatch,
    pub progress: KeyMap<32, SourceProgress>,
    pub generation: u64,
    pub revisit: bool,
}

impl View for CollectionBlobInventory {
    type V = InventoryState;

    open spec fn view(&self) -> InventoryState {
        InventoryState {
            seeds: self.seeds@.dom(),
            resident: self.resident@.dom(),
            round: self.round@.dom(),
            next: self.next@.dom(),
            progress: self.progress@,
            generation: self.generation,
            revisit: self.revisit,
        }
    }
}

impl Clone for CollectionBlobInventory {
    fn clone(&self) -> (copy: Self)
        ensures
            copy@ == self@,
    {
        CollectionBlobInventory {
            seeds: self.seeds.clone(),
            resident: self.resident.clone(),
            round: self.round.clone(),
            next: self.next.clone(),
            progress: self.progress.clone(),
            generation: self.generation,
            revisit: self.revisit,
        }
    }
}

impl Default for CollectionBlobInventory {
    fn default() -> (inventory: Self)
        ensures
            inventory@ == (InventoryState {
                seeds: Set::empty(),
                resident: Set::empty(),
                round: Set::empty(),
                next: Set::empty(),
                progress: Map::empty(),
                generation: 0,
                revisit: false,
            }),
    {
        CollectionBlobInventory {
            seeds: KeyMap::new(),
            resident: KeyMap::new(),
            round: KeyMap::new(),
            next: KeyMap::new(),
            progress: KeyMap::new(),
            generation: 0,
            revisit: false,
        }
    }
}

/// A map is empty when its domain is.
proof fn lemma_empty_handles(handles: Map<RawHash, ()>)
    ensures
        handles == Map::<RawHash, ()>::empty() <==> handles.dom() == Set::<RawHash>::empty(),
{
    if handles.dom() == Set::<RawHash>::empty() {
        assert(handles =~= Map::<RawHash, ()>::empty());
    }
}

/// The least key of a set of handles is its least handle.
proof fn lemma_least_handle(handles: Map<RawHash, ()>, handle: RawHash)
    requires
        is_least(handles, handle),
    ensures
        least_handle(handles.dom()) == Some(handle),
{
    let set = handles.dom();
    assert forall|other: RawHash| #[trigger] set.contains(other) implies rank(handle) <= rank(
        other,
    ) by {
        assert(handles.contains_key(other));
    }
    assert(is_least_handle(set, handle));
    let chosen = choose|handle: RawHash| is_least_handle(set, handle);
    assert(set.contains(chosen) && set.contains(handle));
    assert(rank(chosen) == rank(handle));
    lemma_rank_injective(chosen, handle);
}

/// Scanning one word more finds at most the handle it is.
proof fn lemma_fresh_step(
    state: InventoryState,
    handle: RawHash,
    blobs: Map<RawHash, Seq<u8>>,
    count: nat,
    child: RawHash,
)
    requires
        is_word(blobs[handle], state.progress_of(handle).offset + 32 * count, child),
    ensures
        state.fresh(handle, blobs, count + 1) == if blobs.contains_key(child)
            && !state.resident.contains(child) {
            state.fresh(handle, blobs, count).insert(child)
        } else {
            state.fresh(handle, blobs, count)
        },
{
    let body = blobs[handle];
    let offset = state.progress_of(handle).offset as int;
    assert forall|h: RawHash| among_words(body, offset, count + 1, h) == (among_words(
        body,
        offset,
        count,
        h,
    ) || h == child) by {
        if among_words(body, offset, count + 1, h) {
            let k = choose|k: int| 0 <= k < count + 1 && #[trigger] is_word(body, offset + 32 * k, h);
            if k == count {
                lemma_same_bytes(h, child);
            } else {
                assert(is_word(body, offset + 32 * k, h));
            }
        }
        if among_words(body, offset, count, h) {
            let k = choose|k: int| 0 <= k < count && #[trigger] is_word(body, offset + 32 * k, h);
            assert(is_word(body, offset + 32 * k, h));
        }
        if h == child {
            assert(is_word(body, offset + 32 * (count as int), h));
        }
    }
    let after = state.fresh(handle, blobs, count + 1);
    let before = state.fresh(handle, blobs, count);
    if blobs.contains_key(child) && !state.resident.contains(child) {
        assert(after =~= before.insert(child));
    } else {
        assert(after =~= before);
    }
}

impl CollectionBlobInventory {
    fn reset(&mut self)
        ensures
            final(self)@ == old(self)@.reset(),
            final(self).seeds == old(self).seeds,
    {
        self.resident = KeyMap::new();
        self.round = KeyMap::new();
        self.next = KeyMap::new();
        self.progress = KeyMap::new();
        self.revisit = !self.seeds.is_empty();
        proof {
            lemma_empty_handles(self.seeds@);
        }
    }

    /// Observe exact direct seeds and a coherent passive snapshot transition.
    ///
    /// Call before `advance` against a changed snapshot. Adding seeds preserves
    /// progress. Removing any seed or readable blob resets the closure: merely
    /// intersecting old results with resident handles would retain descendants
    /// whose only path from this collection has disappeared.
    pub fn observe_patch(&mut self, observed: ResidentBlobPatch, change: BlobInventoryChange)
        ensures
            final(self)@ == old(self)@.observed(observed@.dom(), change),
    {
        let gone = self.seeds.difference(&observed);
        let removed = !gone.is_empty();
        proof {
            lemma_empty_handles(gone@);
            lemma_empty_handles(observed@);
            let seeds = self.seeds@.dom();
            assert(gone@.dom() =~= seeds.difference(observed@.dom()));
            assert(removed == !seeds.subset_of(observed@.dom())) by {
                if !seeds.subset_of(observed@.dom()) {
                    let h = choose|h: RawHash| seeds.contains(h) && !observed@.dom().contains(h);
                    assert(gone@.dom().contains(h));
                } else {
                    assert(gone@.dom() =~= Set::empty());
                }
            }
        }
        if !removed {
            let added = observed.difference(&self.seeds);
            self.next.union(&added);
            proof {
                assert(self.next@.dom() =~= old(self).next@.dom().union(
                    observed@.dom().difference(old(self).seeds@.dom()),
                ));
            }
        }
        self.seeds = observed;
        if removed || change == BlobInventoryChange::MayRemove {
            self.reset();
        } else if change == BlobInventoryChange::Additions {
            if self.generation < u64::MAX {
                self.generation = self.generation + 1;
                self.revisit = !self.seeds.is_empty();
            } else {
                // A full rebuild is safe even at this practically unreachable
                // boundary; no old cursor can appear current again.
                self.generation = 0;
                self.reset();
            }
        }
    }

    /// Observe seeds given as a list.
    pub fn observe(&mut self, seeds: &[RawHash], change: BlobInventoryChange)
        ensures
            final(self)@ == old(self)@.observed(seeds@.to_set(), change),
    {
        let mut observed: ResidentBlobPatch = KeyMap::new();
        let mut i: usize = 0;
        while i < seeds.len()
            invariant
                i <= seeds@.len(),
                forall|handle: RawHash| #[trigger]
                    observed@.contains_key(handle) <==> seeds@.take(i as int).contains(handle),
            decreases seeds@.len() - i,
        {
            observed.insert(seeds[i], ());
            proof {
                let less = seeds@.take(i as int);
                let more = seeds@.take(i + 1);
                assert(more =~= less.push(seeds@[i as int]));
                assert forall|handle: RawHash| more.contains(handle) <==> (less.contains(handle)
                    || handle == seeds@[i as int]) by {
                    if less.contains(handle) {
                        let j = choose|j: int| 0 <= j < less.len() && less[j] == handle;
                        assert(more[j] == handle);
                    }
                    if more.contains(handle) {
                        let j = choose|j: int| 0 <= j < more.len() && more[j] == handle;
                        if j < i {
                            assert(less[j] == handle);
                        }
                    }
                    assert(more[i as int] == seeds@[i as int]);
                }
            }
            i = i + 1;
        }
        proof {
            assert(seeds@.take(i as int) =~= seeds@);
            assert(observed@.dom() =~= seeds@.to_set());
        }
        self.observe_patch(observed, change);
    }

    fn refill(&mut self)
        ensures
            final(self)@ == old(self)@.refilled(),
    {
        proof {
            lemma_empty_handles(self.round@);
        }
        if self.round.is_empty() {
            let mut round: ResidentBlobPatch = KeyMap::new();
            core::mem::swap(&mut round, &mut self.next);
            if self.revisit {
                round.union(&self.seeds);
                round.union(&self.resident);
                self.revisit = false;
                proof {
                    assert(round@.dom() =~= old(self)@.next.union(old(self)@.seeds).union(
                        old(self)@.resident,
                    ));
                }
            }
            self.round = round;
        }
    }

    /// Scan the words of one source from its offset on.
    fn scan_source<R: BlobReader>(
        &mut self,
        snapshot: &R,
        handle: &RawHash,
        body: &Vec<u8>,
        limit: usize,
    ) -> (done: (usize, usize))
        requires
            snapshot.blobs().contains_key(*handle),
            body@ == snapshot.blobs()[*handle],
            old(self)@.progress_of(*handle).offset <= body@.len(),
        ensures
            final(self)@ == old(self)@.scanned(
                *handle,
                snapshot.blobs(),
                old(self)@.turn_words(*handle, body@, limit as nat),
            ),
            done.0 == old(self)@.turn_words(*handle, body@, limit as nat),
            done.1 == old(self)@.fresh(*handle, snapshot.blobs(), done.0 as nat).len(),
            old(self)@.fresh(*handle, snapshot.blobs(), done.0 as nat).finite(),
            final(self)@.resident.finite(),
            final(self)@.resident.len() == old(self)@.resident.len() + done.1,
            final(self)@.resident.len() <= usize::MAX,
    {
        let ghost before = self@;
        let ghost blobs = snapshot.blobs();
        proof {
            self.resident.lemma_size();
        }
        let progress: SourceProgress = match self.progress.get(handle) {
            Some(progress) => progress,
            None => SourceProgress { offset: 0, generation: self.generation },
        };
        let mut offset: usize = progress.offset;
        let mut words: usize = 0;
        let mut added: usize = 0;
        proof {
            assert(before.fresh(*handle, blobs, 0) =~= Set::<RawHash>::empty());
            assert(before.resident.union(before.fresh(*handle, blobs, 0)) =~= before.resident);
            assert(before.next.union(before.fresh(*handle, blobs, 0)) =~= before.next);
        }
        while body.len() - offset >= 32 && words < limit
            invariant
                before == old(self)@,
                blobs == snapshot.blobs(),
                blobs.contains_key(*handle),
                body@ == blobs[*handle],
                progress == before.progress_of(*handle),
                words <= limit,
                offset == progress.offset + 32 * words,
                offset <= body@.len(),
                self@.seeds == before.seeds,
                self@.round == before.round,
                self@.progress == before.progress,
                self@.generation == before.generation,
                self@.revisit == before.revisit,
                self@.resident == before.resident.union(
                    before.fresh(*handle, blobs, words as nat),
                ),
                self@.next == before.next.union(before.fresh(*handle, blobs, words as nat)),
                before.resident.finite(),
                before.fresh(*handle, blobs, words as nat).finite(),
                added == before.fresh(*handle, blobs, words as nat).len(),
            decreases limit - words,
        {
            let length: usize = body.len();
            let mut child: RawHash = [0; 32];
            let mut i: usize = 0;
            while i < 32
                invariant
                    i <= 32,
                    offset + 32 <= length == body@.len(),
                    forall|j: int| 0 <= j < i ==> #[trigger] child@[j] == body@[offset + j],
                decreases 32 - i,
            {
                child[i] = body[offset + i];
                i = i + 1;
            }
            let ghost fresh = before.fresh(*handle, blobs, words as nat);
            proof {
                assert(child@ =~= body@.subrange(offset as int, offset + 32));
                assert(is_word(body@, progress.offset + 32 * words, child));
                lemma_fresh_step(before, *handle, blobs, words as nat, child);
            }
            offset = offset + 32;
            words = words + 1;
            if !self.resident.contains_key(&child) && snapshot.can_read(&child) {
                self.resident.insert(child, ());
                self.next.insert(child, ());
                proof {
                    self.resident.lemma_size();
                    assert(!fresh.contains(child));
                    assert(self@.resident =~= before.resident.union(fresh.insert(child)));
                    assert(self@.next =~= before.next.union(fresh.insert(child)));
                    vstd::set_lib::lemma_len_subset(fresh.insert(child), self@.resident);
                }
                added = added + 1;
            } else {
                proof {
                    assert(before.resident.union(
                        before.fresh(*handle, blobs, words as nat),
                    ) =~= before.resident.union(fresh));
                    assert(before.next.union(before.fresh(*handle, blobs, words as nat))
                        =~= before.next.union(fresh)) by {
                        assert(fresh =~= before.fresh(*handle, blobs, words as nat)) by {
                            if !before.resident.contains(child) && blobs.contains_key(child) {
                                assert(fresh.contains(child));
                            }
                        }
                    }
                    assert(fresh =~= before.fresh(*handle, blobs, words as nat));
                }
            }
        }
        proof {
            let left = InventoryState::words_left(body@, progress.offset as int);
            assert(words == before.turn_words(*handle, body@, limit as nat));
        }
        proof {
            self.resident.lemma_size();
            let fresh = before.fresh(*handle, blobs, words as nat);
            assert(before.resident.disjoint(fresh));
            vstd::set_lib::lemma_set_disjoint_lens(before.resident, fresh);
        }
        if body.len() - offset >= 32 {
            self.progress.insert(
                *handle,
                SourceProgress { offset, generation: progress.generation },
            );
            self.next.insert(*handle, ());
        } else if progress.generation != self.generation {
            // A child missed near the beginning may have arrived while this
            // body was in flight. Finish first, then revisit once.
            self.progress.insert(
                *handle,
                SourceProgress { offset: 0, generation: self.generation },
            );
            self.next.insert(*handle, ());
        } else {
            let _ = self.progress.remove(handle);
        }
        proof {
            let wanted = before.scanned(*handle, blobs, words as nat);
            assert(self@.next =~= wanted.next);
            assert(self@ == wanted);
        }
        (words, added)
    }

    /// Scan one bounded synchronous quantum against a passive local reader.
    ///
    /// At most `sources + words` point reads occur; no body is pinned between
    /// calls. Bytes are immutable, and the change observed before must cover
    /// readable membership. Zero in either budget dimension leaves the
    /// traversal unchanged.
    pub fn advance<R: BlobReader>(&mut self, snapshot: &R, budget: ScanBudget) -> (stats: ScanStats)
        requires
            old(self)@.within(snapshot.blobs()),
        ensures
            final(self)@ == old(self)@.advanced(
                snapshot.blobs(),
                budget.words as nat,
                budget.sources as nat,
            ).0,
            ({
                let done = old(self)@.advanced(
                    snapshot.blobs(),
                    budget.words as nat,
                    budget.sources as nat,
                ).1;
                &&& stats.words == done.words
                &&& stats.sources == done.sources
                &&& stats.added == done.added
                &&& stats.invalidated == done.invalidated
            }),
            final(self)@.within(snapshot.blobs()),
    {
        let mut stats = ScanStats::default();
        let ghost blobs = snapshot.blobs();
        let ghost start = self@;
        proof {
            self.resident.lemma_size();
        }
        let ghost whole = start.advanced(blobs, budget.words as nat, budget.sources as nat);
        while stats.sources < budget.sources && stats.words < budget.words
            invariant
                blobs == snapshot.blobs(),
                self@.within(blobs),
                stats.words <= budget.words,
                stats.sources <= budget.sources,
                !stats.invalidated,
                whole == start.advanced(blobs, budget.words as nat, budget.sources as nat),
                ({
                    let (last, rest) = self@.advanced(
                        blobs,
                        (budget.words - stats.words) as nat,
                        (budget.sources - stats.sources) as nat,
                    );
                    &&& whole.0 == last
                    &&& whole.1.words == stats.words + rest.words
                    &&& whole.1.sources == stats.sources + rest.sources
                    &&& whole.1.added == stats.added + rest.added
                    &&& whole.1.invalidated == rest.invalidated
                }),
                start == old(self)@,
                stats.added <= self@.resident.len(),
                self@.resident.finite(),
            decreases budget.sources - stats.sources,
        {
            self.refill();
            let handle = match self.round.first() {
                Some(handle) => handle,
                None => {
                    proof {
                        assert forall|handle: RawHash| !is_least_handle(self@.round, handle) by {}
                    }
                    return stats;
                },
            };
            let ghost ready = self@;
            proof {
                lemma_least_handle(self.round@, handle);
            }
            let _ = self.round.remove(&handle);
            // A newly discovered child may also be a source already waiting in
            // this round; do not scan it twice without a snapshot change.
            let _ = self.next.remove(&handle);
            assert(self@.round =~= ready.taken(handle).round);
            assert(self@.next =~= ready.taken(handle).next);
            assert(self@ == ready.taken(handle));
            let left: usize = budget.words - stats.words;
            stats.sources = stats.sources + 1;
            let known = self.resident.contains_key(&handle);
            match snapshot.read(&handle) {
                Some(body) => {
                    let ghost taken = self@;
                    if !known {
                        self.resident.insert(handle, ());
                        proof {
                            self.resident.lemma_size();
                        }
                        stats.added = stats.added + 1;
                    }
                    assert(self@.resident =~= taken.found(handle).resident);
                    assert(self@ == taken.found(handle));
                    let limit: usize = if left < SOURCE_WORD_QUANTUM {
                        left
                    } else {
                        SOURCE_WORD_QUANTUM
                    };
                    let (words, added) = self.scan_source(snapshot, &handle, &body, limit);
                    stats.words = stats.words + words;
                    stats.added = stats.added + added;
                },
                None => {
                    if known {
                        // Fail closed if a caller misclassified a membership
                        // change. Disconnected descendants cannot remain.
                        self.reset();
                        stats.invalidated = true;
                        return stats;
                    }
                },
            }
        }
        stats
    }

    /// Positive partial inventory only; absence is not evidence of
    /// unavailability.
    pub fn patch(&self) -> (resident: &ResidentBlobPatch)
        ensures
            resident@.dom() == self@.resident,
            *resident == self.resident,
    {
        &self.resident
    }

    /// Work pending for the last observation, not a completeness assertion.
    pub fn has_pending_work(&self) -> (pending: bool)
        ensures
            pending == (self@.revisit || self@.round != Set::<RawHash>::empty() || self@.next
                != Set::<RawHash>::empty()),
    {
        proof {
            lemma_empty_handles(self.round@);
            lemma_empty_handles(self.next@);
        }
        self.revisit || !self.round.is_empty() || !self.next.is_empty()
    }
}

/// Whether every body fits in memory.
pub open spec fn in_memory(blobs: Map<RawHash, Seq<u8>>) -> bool {
    forall|handle: RawHash| #[trigger]
        blobs.contains_key(handle) ==> blobs[handle].len() <= usize::MAX
}

/// Whether `child` is an aligned word of the body of `parent`.
pub open spec fn child_of(blobs: Map<RawHash, Seq<u8>>, parent: RawHash, child: RawHash) -> bool {
    exists|k: int| #[trigger] is_word(blobs[parent], 32 * k, child)
}

/// Whether `path` leads from a seed to `handle` through readable blobs, each an
/// aligned word of the one before it.
pub open spec fn leads_to(
    seeds: Set<RawHash>,
    blobs: Map<RawHash, Seq<u8>>,
    path: Seq<RawHash>,
    handle: RawHash,
) -> bool {
    &&& path.len() > 0
    &&& seeds.contains(path[0])
    &&& path.last() == handle
    &&& forall|i: int| 0 <= i < path.len() ==> blobs.contains_key(#[trigger] path[i])
    &&& forall|i: int|
        0 < i < path.len() ==> child_of(blobs, path[i - 1], #[trigger] path[i])
}

/// Whether `handle` is in the readable closure of the seeds.
pub open spec fn reachable(
    seeds: Set<RawHash>,
    blobs: Map<RawHash, Seq<u8>>,
    handle: RawHash,
) -> bool {
    exists|path: Seq<RawHash>| leads_to(seeds, blobs, path, handle)
}

impl InventoryState {
    /// Whether `handle` is going to be looked at.
    pub open spec fn pending(self, handle: RawHash) -> bool {
        self.revisit || self.round.contains(handle) || self.next.contains(handle)
    }

    /// Only the readable closure of the seeds is offered, and only seeds and
    /// offered handles are looked at, from one whole word to the next.
    pub open spec fn sound(self, blobs: Map<RawHash, Seq<u8>>) -> bool {
        &&& forall|handle: RawHash| #[trigger]
            self.resident.contains(handle) ==> reachable(self.seeds, blobs, handle)
        &&& forall|handle: RawHash| #[trigger]
            self.round.contains(handle) ==> self.seeds.contains(handle) || self.resident.contains(
                handle,
            )
        &&& forall|handle: RawHash| #[trigger]
            self.next.contains(handle) ==> self.seeds.contains(handle) || self.resident.contains(
                handle,
            )
        &&& forall|handle: RawHash| #[trigger]
            self.progress.contains_key(handle) ==> self.resident.contains(handle)
                && self.progress[handle].offset % 32 == 0 && self.progress[handle].generation
                <= self.generation
    }

    /// Whether the readable words of `handle` before `offset` are offered.
    pub open spec fn covered_before(
        self,
        blobs: Map<RawHash, Seq<u8>>,
        handle: RawHash,
        offset: int,
    ) -> bool {
        forall|k: int, child: RawHash|
            32 * k < offset && #[trigger] is_word(blobs[handle], 32 * k, child)
                && blobs.contains_key(child) ==> self.resident.contains(child)
    }

    /// Whether `handle` is offered together with all its readable children.
    pub open spec fn settled(self, blobs: Map<RawHash, Seq<u8>>, handle: RawHash) -> bool {
        self.resident.contains(handle) && self.covered_before(
            blobs,
            handle,
            blobs[handle].len() as int,
        )
    }

    /// Every readable seed and every offered handle is settled or going to be
    /// looked at, and a source that is under way since the last additions has
    /// missed nothing.
    pub open spec fn covered(self, blobs: Map<RawHash, Seq<u8>>) -> bool {
        &&& forall|handle: RawHash|
            blobs.contains_key(handle) && (self.seeds.contains(handle) || self.resident.contains(
                handle,
            )) ==> self.pending(handle) || #[trigger] self.settled(blobs, handle)
        &&& forall|handle: RawHash| #[trigger]
            self.progress.contains_key(handle) && blobs.contains_key(handle)
                && self.progress[handle].generation == self.generation ==> self.covered_before(
                blobs,
                handle,
                self.progress[handle].offset as int,
            )
    }
}

/// A readable seed is reachable.
proof fn lemma_seed_reachable(
    seeds: Set<RawHash>,
    blobs: Map<RawHash, Seq<u8>>,
    handle: RawHash,
)
    requires
        seeds.contains(handle),
        blobs.contains_key(handle),
    ensures
        reachable(seeds, blobs, handle),
{
    let path = seq![handle];
    assert(leads_to(seeds, blobs, path, handle));
}

/// A readable child of what is reachable is reachable.
proof fn lemma_child_reachable(
    seeds: Set<RawHash>,
    blobs: Map<RawHash, Seq<u8>>,
    parent: RawHash,
    child: RawHash,
)
    requires
        reachable(seeds, blobs, parent),
        child_of(blobs, parent, child),
        blobs.contains_key(child),
    ensures
        reachable(seeds, blobs, child),
{
    let path = choose|path: Seq<RawHash>| leads_to(seeds, blobs, path, parent);
    let longer = path.push(child);
    assert forall|i: int| 0 <= i < longer.len() implies blobs.contains_key(#[trigger] longer[i]) by {
        if i < path.len() {
            assert(longer[i] == path[i]);
        }
    }
    assert forall|i: int| 0 < i < longer.len() implies child_of(
        blobs,
        longer[i - 1],
        #[trigger] longer[i],
    ) by {
        if i < path.len() {
            assert(longer[i] == path[i]);
            assert(longer[i - 1] == path[i - 1]);
        }
    }
    assert(longer[0] == path[0]);
    assert(leads_to(seeds, blobs, longer, child));
}

/// More seeds and more blobs reach more.
proof fn lemma_reachable_monotone(
    seeds: Set<RawHash>,
    more_seeds: Set<RawHash>,
    blobs: Map<RawHash, Seq<u8>>,
    more_blobs: Map<RawHash, Seq<u8>>,
    handle: RawHash,
)
    requires
        seeds.subset_of(more_seeds),
        blobs.submap_of(more_blobs),
        reachable(seeds, blobs, handle),
    ensures
        reachable(more_seeds, more_blobs, handle),
{
    let path = choose|path: Seq<RawHash>| leads_to(seeds, blobs, path, handle);
    assert forall|i: int| 0 <= i < path.len() implies more_blobs.contains_key(#[trigger] path[i]) by {
        assert(blobs.contains_key(path[i]));
        assert(blobs.dom().contains(path[i]));
    }
    assert forall|i: int| 0 < i < path.len() implies child_of(
        more_blobs,
        path[i - 1],
        #[trigger] path[i],
    ) by {
        assert(blobs.contains_key(path[i - 1]));
        assert(blobs.dom().contains(path[i - 1]));
        let k = choose|k: int| #[trigger] is_word(blobs[path[i - 1]], 32 * k, path[i]);
        assert(is_word(more_blobs[path[i - 1]], 32 * k, path[i]));
    }
    assert(leads_to(more_seeds, more_blobs, path, handle));
}

/// The words that a turn finds are children of its source.
proof fn lemma_fresh_are_children(
    state: InventoryState,
    handle: RawHash,
    blobs: Map<RawHash, Seq<u8>>,
    count: nat,
)
    requires
        state.progress_of(handle).offset % 32 == 0,
    ensures
        forall|child: RawHash| #[trigger]
            state.fresh(handle, blobs, count).contains(child) ==> child_of(blobs, handle, child),
{
    assert forall|child: RawHash| #[trigger]
        state.fresh(handle, blobs, count).contains(child) implies child_of(
        blobs,
        handle,
        child,
    ) by {
        let offset = state.progress_of(handle).offset as int;
        let k = choose|k: int|
            0 <= k < count && #[trigger] is_word(blobs[handle], offset + 32 * k, child);
        assert(offset + 32 * k == 32 * (offset / 32 + k));
        assert(is_word(blobs[handle], 32 * (offset / 32 + k), child));
    }
}

/// One turn offers nothing but the readable closure of the seeds.
pub proof fn lemma_visit_sound(
    state: InventoryState,
    handle: RawHash,
    blobs: Map<RawHash, Seq<u8>>,
    limit: nat,
)
    requires
        in_memory(blobs),
        state.sound(blobs),
        state.within(blobs),
        state.round.contains(handle),
    ensures
        state.visited(handle, blobs, limit).0.sound(blobs),
        state.visited(handle, blobs, limit).0.within(blobs),
        state.visited(handle, blobs, limit).1.words <= limit,
{
    let taken = state.taken(handle);
    if blobs.contains_key(handle) {
        let found = taken.found(handle);
        let words = found.turn_words(handle, blobs[handle], limit);
        let after = found.scanned(handle, blobs, words);
        let offset = found.progress_of(handle).offset as int;
        if state.seeds.contains(handle) {
            lemma_seed_reachable(state.seeds, blobs, handle);
        }
        assert(reachable(state.seeds, blobs, handle));
        assert(found.progress == state.progress);
        assert(offset % 32 == 0 && offset <= blobs[handle].len());
        assert(offset + 32 * words <= blobs[handle].len());
        assert((offset + 32 * words) % 32 == 0);
        lemma_fresh_are_children(found, handle, blobs, words);
        assert forall|other: RawHash| #[trigger] after.resident.contains(other) implies reachable(
            after.seeds,
            blobs,
            other,
        ) by {
            if other != handle && !state.resident.contains(other) {
                assert(found.fresh(handle, blobs, words).contains(other));
                lemma_child_reachable(state.seeds, blobs, handle, other);
            }
        }
        assert forall|other: RawHash| #[trigger]
            after.progress.contains_key(other) implies after.resident.contains(other)
            && after.progress[other].offset % 32 == 0 && after.progress[other].generation
            <= after.generation by {
            if other != handle {
                assert(state.progress.contains_key(other));
            }
        }
        assert forall|other: RawHash| #[trigger]
            after.progress.contains_key(other) && blobs.contains_key(
                other,
            ) implies after.progress[other].offset <= blobs[other].len() by {
            if other != handle {
                assert(state.progress.contains_key(other));
            }
        }
    }
}

/// Scanning offers nothing but the readable closure of the seeds, and stays
/// within its budget.
pub proof fn law_scan_is_sound_and_bounded(
    state: InventoryState,
    blobs: Map<RawHash, Seq<u8>>,
    words: nat,
    sources: nat,
)
    requires
        in_memory(blobs),
        state.sound(blobs),
        state.within(blobs),
    ensures
        state.advanced(blobs, words, sources).0.sound(blobs),
        state.advanced(blobs, words, sources).0.within(blobs),
        state.advanced(blobs, words, sources).1.words <= words,
        state.advanced(blobs, words, sources).1.sources <= sources,
    decreases sources,
{
    if words > 0 && sources > 0 {
        let ready = state.refilled();
        assert(ready.sound(blobs));
        if let Some(handle) = least_handle(ready.round) {
            assert(is_least_handle(ready.round, handle));
            let limit = if words < SOURCE_WORD_QUANTUM {
                words
            } else {
                SOURCE_WORD_QUANTUM as nat
            };
            lemma_visit_sound(ready, handle, blobs, limit);
            let (next, done) = ready.visited(handle, blobs, limit);
            if !done.invalidated {
                law_scan_is_sound_and_bounded(
                    next,
                    blobs,
                    (words - done.words) as nat,
                    (sources - 1) as nat,
                );
            }
        }
    }
}

/// An observation that tells the truth keeps the offered handles sound: a
/// handle whose only path from the seeds may be gone is no longer offered.
pub proof fn law_observation_is_sound(
    state: InventoryState,
    seeds: Set<RawHash>,
    change: BlobInventoryChange,
    before: Map<RawHash, Seq<u8>>,
    after: Map<RawHash, Seq<u8>>,
)
    requires
        state.sound(before),
        state.within(before),
        change == BlobInventoryChange::Unchanged ==> after == before,
        change == BlobInventoryChange::Additions ==> before.submap_of(after),
    ensures
        state.observed(seeds, change).sound(after),
        state.observed(seeds, change).within(after),
{
    let observed = state.observed(seeds, change);
    if state.seeds.subset_of(seeds) && change != BlobInventoryChange::MayRemove {
        assert(before.submap_of(after));
        assert forall|handle: RawHash| #[trigger] observed.resident.contains(
            handle,
        ) implies reachable(seeds, after, handle) by {
            assert(state.resident.contains(handle));
            lemma_reachable_monotone(state.seeds, seeds, before, after, handle);
        }
        assert forall|handle: RawHash| #[trigger]
            observed.progress.contains_key(handle) && after.contains_key(
                handle,
            ) implies observed.progress[handle].offset <= after[handle].len() by {
            assert(state.progress.contains_key(handle));
            assert(state.resident.contains(handle));
            let path = choose|path: Seq<RawHash>| leads_to(state.seeds, before, path, handle);
            assert(before.contains_key(path[path.len() - 1]));
            assert(before.dom().contains(handle));
        }
    }
}

proof fn lemma_visit_covered(
    state: InventoryState,
    handle: RawHash,
    blobs: Map<RawHash, Seq<u8>>,
    limit: nat,
)
    requires
        in_memory(blobs),
        state.sound(blobs),
        state.within(blobs),
        state.covered(blobs),
        state.round.contains(handle),
    ensures
        state.visited(handle, blobs, limit).0.covered(blobs),
{
    let taken = state.taken(handle);
    let after = state.visited(handle, blobs, limit).0;
    if blobs.contains_key(handle) {
        let found = taken.found(handle);
        let words = found.turn_words(handle, blobs[handle], limit);
        let progress = found.progress_of(handle);
        let offset = progress.offset as int;
        let end = offset + 32 * words;
        assert(found.progress == state.progress);
        assert(offset % 32 == 0 && offset <= blobs[handle].len());
        assert(end <= blobs[handle].len());
        if progress.generation == state.generation {
            assert(state.covered_before(blobs, handle, offset)) by {
                if state.progress.contains_key(handle) {
                } else {
                    assert forall|k: int, child: RawHash|
                        32 * k < offset && #[trigger] is_word(blobs[handle], 32 * k, child)
                            && blobs.contains_key(child) implies state.resident.contains(child) by {
                        assert(k < 0);
                    }
                }
            }
            assert(after.covered_before(blobs, handle, end)) by {
                assert forall|k: int, child: RawHash|
                    32 * k < end && #[trigger] is_word(blobs[handle], 32 * k, child)
                        && blobs.contains_key(child) implies after.resident.contains(child) by {
                    if 32 * k >= offset && !found.resident.contains(child) {
                        let j = k - offset / 32;
                        assert(32 * k == offset + 32 * j);
                        assert(0 <= j < words);
                        assert(is_word(blobs[handle], offset + 32 * j, child));
                        assert(among_words(blobs[handle], offset, words, child));
                        assert(found.fresh(handle, blobs, words).contains(child));
                    } else if 32 * k < offset {
                        assert(state.resident.contains(child));
                    }
                }
            }
        }
        assert forall|other: RawHash|
            blobs.contains_key(other) && (after.seeds.contains(other) || after.resident.contains(
                other,
            )) implies after.pending(other) || #[trigger] after.settled(blobs, other) by {
            if other == handle {
                if !after.next.contains(handle) {
                    assert(InventoryState::words_left(blobs[handle], end) == 0);
                    assert(progress.generation == state.generation);
                    assert forall|k: int, child: RawHash|
                        32 * k < blobs[handle].len() && #[trigger] is_word(
                            blobs[handle],
                            32 * k,
                            child,
                        ) && blobs.contains_key(child) implies after.resident.contains(child) by {
                        assert(32 * k + 32 <= blobs[handle].len());
                        assert(32 * k < end);
                    }
                }
            } else if found.fresh(handle, blobs, words).contains(other) {
                assert(after.next.contains(other));
            } else if !state.pending(other) {
                assert(state.settled(blobs, other));
            }
        }
        assert forall|other: RawHash| #[trigger]
            after.progress.contains_key(other) && blobs.contains_key(other)
                && after.progress[other].generation
                == after.generation implies after.covered_before(
            blobs,
            other,
            after.progress[other].offset as int,
        ) by {
            if other != handle {
                assert(state.progress.contains_key(other));
                assert(state.covered_before(blobs, other, state.progress[other].offset as int));
            }
        }
    } else if state.resident.contains(handle) {
        assert(after == taken.reset());
        assert forall|other: RawHash|
            blobs.contains_key(other) && (after.seeds.contains(other) || after.resident.contains(
                other,
            )) implies after.pending(other) || #[trigger] after.settled(blobs, other) by {
            assert(after.seeds.contains(other));
            if after.seeds =~= Set::empty() {
            }
        }
    } else {
        assert forall|other: RawHash|
            blobs.contains_key(other) && (after.seeds.contains(other) || after.resident.contains(
                other,
            )) implies after.pending(other) || #[trigger] after.settled(blobs, other) by {
            if !state.pending(other) {
                assert(state.settled(blobs, other));
            }
        }
        assert forall|other: RawHash| #[trigger]
            after.progress.contains_key(other) && blobs.contains_key(other)
                && after.progress[other].generation
                == after.generation implies after.covered_before(
            blobs,
            other,
            after.progress[other].offset as int,
        ) by {
            assert(state.covered_before(blobs, other, state.progress[other].offset as int));
        }
    }
}

/// Scanning forgets nothing: what it has not settled stays pending.
pub proof fn law_scan_stays_covered(
    state: InventoryState,
    blobs: Map<RawHash, Seq<u8>>,
    words: nat,
    sources: nat,
)
    requires
        in_memory(blobs),
        state.sound(blobs),
        state.within(blobs),
        state.covered(blobs),
    ensures
        state.advanced(blobs, words, sources).0.covered(blobs),
    decreases sources,
{
    if words > 0 && sources > 0 {
        let ready = state.refilled();
        assert(ready.sound(blobs));
        assert(ready.covered(blobs)) by {
            assert forall|other: RawHash|
                blobs.contains_key(other) && (ready.seeds.contains(other)
                    || ready.resident.contains(other)) implies ready.pending(other)
                || #[trigger] ready.settled(blobs, other) by {
                if !state.pending(other) {
                    assert(state.settled(blobs, other));
                } else if state.round != Set::<RawHash>::empty() {
                } else {
                    assert(!state.round.contains(other));
                }
            }
            assert forall|other: RawHash| #[trigger]
                ready.progress.contains_key(other) && blobs.contains_key(other)
                    && ready.progress[other].generation
                    == ready.generation implies ready.covered_before(
                blobs,
                other,
                ready.progress[other].offset as int,
            ) by {
                assert(state.covered_before(blobs, other, state.progress[other].offset as int));
            }
        }
        if let Some(handle) = least_handle(ready.round) {
            assert(is_least_handle(ready.round, handle));
            let limit = if words < SOURCE_WORD_QUANTUM {
                words
            } else {
                SOURCE_WORD_QUANTUM as nat
            };
            lemma_visit_sound(ready, handle, blobs, limit);
            lemma_visit_covered(ready, handle, blobs, limit);
            let (next, done) = ready.visited(handle, blobs, limit);
            if !done.invalidated {
                law_scan_stays_covered(
                    next,
                    blobs,
                    (words - done.words) as nat,
                    (sources - 1) as nat,
                );
            }
        }
    }
}

/// An observation that tells the truth forgets nothing either.
pub proof fn law_observation_stays_covered(
    state: InventoryState,
    seeds: Set<RawHash>,
    change: BlobInventoryChange,
    before: Map<RawHash, Seq<u8>>,
    after: Map<RawHash, Seq<u8>>,
)
    requires
        state.sound(before),
        state.covered(before),
        change == BlobInventoryChange::Unchanged ==> after == before,
        change == BlobInventoryChange::Additions ==> before.submap_of(after),
    ensures
        state.observed(seeds, change).covered(after),
{
    let observed = state.observed(seeds, change);
    assert forall|other: RawHash|
        after.contains_key(other) && (observed.seeds.contains(other) || observed.resident.contains(
            other,
        )) implies observed.pending(other) || #[trigger] observed.settled(after, other) by {
        if observed.resident.contains(other) {
            assert(state.resident.contains(other));
            assert(reachable(state.seeds, before, other));
            let path = choose|path: Seq<RawHash>| leads_to(state.seeds, before, path, other);
            assert(state.seeds.contains(path[0]));
            assert(seeds.contains(path[0]) || !state.seeds.subset_of(seeds));
        }
        if !observed.pending(other) {
            assert(change == BlobInventoryChange::Unchanged || seeds == Set::<RawHash>::empty());
            assert(state.seeds.subset_of(seeds));
            assert(!seeds.difference(state.seeds).contains(other));
            assert(state.settled(before, other));
        }
    }
    assert forall|other: RawHash| #[trigger]
        observed.progress.contains_key(other) && after.contains_key(other)
            && observed.progress[other].generation
            == observed.generation implies observed.covered_before(
        after,
        other,
        observed.progress[other].offset as int,
    ) by {
        assert(state.progress.contains_key(other));
        assert(change == BlobInventoryChange::Unchanged);
        assert(state.covered_before(before, other, state.progress[other].offset as int));
    }
}

/// A traversal that has nothing left to do offers exactly the readable closure
/// of its seeds.
pub proof fn law_finished_inventory_is_the_closure(
    state: InventoryState,
    blobs: Map<RawHash, Seq<u8>>,
    handle: RawHash,
)
    requires
        state.sound(blobs),
        state.covered(blobs),
        !state.revisit,
        state.round == Set::<RawHash>::empty(),
        state.next == Set::<RawHash>::empty(),
    ensures
        state.resident.contains(handle) <==> reachable(state.seeds, blobs, handle),
{
    if reachable(state.seeds, blobs, handle) {
        let path = choose|path: Seq<RawHash>| leads_to(state.seeds, blobs, path, handle);
        lemma_path_resident(state, blobs, path, path.len() - 1);
    }
}

proof fn lemma_path_resident(
    state: InventoryState,
    blobs: Map<RawHash, Seq<u8>>,
    path: Seq<RawHash>,
    at: int,
)
    requires
        state.covered(blobs),
        !state.revisit,
        state.round == Set::<RawHash>::empty(),
        state.next == Set::<RawHash>::empty(),
        leads_to(state.seeds, blobs, path, path.last()),
        0 <= at < path.len(),
    ensures
        state.resident.contains(path[at]),
    decreases at,
{
    assert(blobs.contains_key(path[at]));
    if at == 0 {
        assert(state.settled(blobs, path[at]) || state.pending(path[at]));
    } else {
        lemma_path_resident(state, blobs, path, at - 1);
        let parent = path[at - 1];
        assert(blobs.contains_key(parent));
        assert(state.settled(blobs, parent) || state.pending(parent));
        assert(child_of(blobs, parent, path[at]));
        let k = choose|k: int| #[trigger] is_word(blobs[parent], 32 * k, path[at]);
        assert(32 * k < blobs[parent].len());
    }
}

/// A traversal that has just begun is sound and covered.
pub proof fn law_empty_inventory(state: InventoryState, blobs: Map<RawHash, Seq<u8>>)
    requires
        state.seeds == Set::<RawHash>::empty(),
        state.resident == Set::<RawHash>::empty(),
        state.round == Set::<RawHash>::empty(),
        state.next == Set::<RawHash>::empty(),
        state.progress == Map::<RawHash, SourceProgress>::empty(),
    ensures
        state.sound(blobs),
        state.within(blobs),
        state.covered(blobs),
{
}

} // verus!
