use std::cell::Cell;
use std::collections::BTreeMap;

use triblespace_net::collection_blob_inventory::{
    BlobBodies, BlobInventoryChange, BlobReader, CollectionBlobInventory, MemoryBlobs, RawHash, ScanBudget,
    ScanStats, SOURCE_WORD_QUANTUM,
};
use triblespace_net::key_map::KeyMap;

#[derive(Default)]
struct Snapshot {
    blobs: BTreeMap<RawHash, Vec<u8>>,
    reads: Cell<usize>,
}

impl Snapshot {
    fn put(&mut self, handle: RawHash, words: &[RawHash]) {
        self.blobs
            .insert(handle, words.iter().flatten().copied().collect::<Vec<_>>());
    }
}

impl BlobReader for Snapshot {
    fn blobs(&self) -> BlobBodies {
        unreachable!()
    }

    fn read(&self, handle: &RawHash) -> Option<Vec<u8>> {
        self.reads.set(self.reads.get() + 1);
        self.blobs.get(handle).cloned()
    }

    fn can_read(&self, handle: &RawHash) -> bool {
        self.reads.set(self.reads.get() + 1);
        self.blobs.contains_key(handle)
    }
}

fn finish(scan: &mut CollectionBlobInventory, snapshot: &Snapshot) {
    for _ in 0..256 {
        if !scan.has_pending_work() {
            return;
        }
        scan.advance(
            snapshot,
            ScanBudget {
                words: 64,
                sources: 16,
            },
        );
    }
    panic!("finite unchanged inventory did not finish");
}

fn keys(scan: &CollectionBlobInventory) -> Vec<RawHash> {
    scan.patch().keys()
}

#[test]
fn inventory_excludes_absent_unrelated_and_unaligned_words() {
    let mut snapshot = Snapshot::default();
    let mut bytes = Vec::<u8>::new();
    bytes.extend_from_slice(&[2; 32]);
    bytes.extend_from_slice(&[9; 32]); // Absent, not retained as speculative work.
    bytes.extend_from_slice(&[3; 31]); // Partial words are not handles.
    snapshot.blobs.insert([1; 32], bytes);
    snapshot.put([2; 32], &[]);
    snapshot.put([3; 32], &[]);
    snapshot.put([4; 32], &[]); // Resident, but outside this collection's closure.
    let mut scan = CollectionBlobInventory::default();
    scan.observe(&[[1; 32]], BlobInventoryChange::Unchanged);
    finish(&mut scan, &snapshot);
    assert_eq!(keys(&scan), vec![[1; 32], [2; 32]]);
}

#[test]
fn cycles_and_shared_children_finish_without_duplicate_work() {
    let mut snapshot = Snapshot::default();
    snapshot.put([1; 32], &[[2; 32], [3; 32]]);
    snapshot.put([2; 32], &[[1; 32], [3; 32]]);
    snapshot.put([3; 32], &[[3; 32]]);
    let mut scan = CollectionBlobInventory::default();
    scan.observe(&[[1; 32], [2; 32]], BlobInventoryChange::Unchanged);
    finish(&mut scan, &snapshot);
    assert_eq!(keys(&scan), vec![[1; 32], [2; 32], [3; 32]]);
    // Three source reads plus the first positive lookup of each child.
    assert_eq!(snapshot.reads.get(), 5);
}

#[test]
fn blob_only_arrivals_revisit_misses_without_a_negative_backlog() {
    let mut snapshot = Snapshot::default();
    let mut scan = CollectionBlobInventory::default();
    scan.observe(&[[1; 32]], BlobInventoryChange::Unchanged);
    finish(&mut scan, &snapshot);
    assert!(scan.patch().is_empty());
    snapshot.put([1; 32], &[[2; 32]]);
    scan.observe(&[[1; 32]], BlobInventoryChange::Additions);
    finish(&mut scan, &snapshot);
    assert_eq!(keys(&scan), vec![[1; 32]]);
    snapshot.put([2; 32], &[[3; 32]]);
    snapshot.put([3; 32], &[]);
    scan.observe(&[[1; 32]], BlobInventoryChange::Additions);
    finish(&mut scan, &snapshot);
    assert_eq!(keys(&scan), vec![[1; 32], [2; 32], [3; 32]]);
    let reads = snapshot.reads.get();
    scan.observe(&[[1; 32]], BlobInventoryChange::Unchanged);
    finish(&mut scan, &snapshot);
    assert_eq!(snapshot.reads.get(), reads);
}

#[test]
fn removals_drop_disconnected_descendants_and_seed_removal_resets() {
    let mut snapshot = Snapshot::default();
    snapshot.put([1; 32], &[[2; 32]]);
    snapshot.put([2; 32], &[[3; 32]]);
    snapshot.put([3; 32], &[]);
    snapshot.put([4; 32], &[]);
    let mut scan = CollectionBlobInventory::default();
    scan.observe(&[[1; 32], [4; 32]], BlobInventoryChange::Unchanged);
    finish(&mut scan, &snapshot);
    assert_eq!(scan.patch().len(), 4);
    snapshot.blobs.remove(&[2; 32]);
    scan.observe(&[[1; 32], [4; 32]], BlobInventoryChange::MayRemove);
    assert!(scan.patch().is_empty());
    finish(&mut scan, &snapshot);
    assert_eq!(keys(&scan), vec![[1; 32], [4; 32]]);
    assert!(snapshot.blobs.contains_key(&[3; 32]));
    scan.observe(&[[4; 32]], BlobInventoryChange::Unchanged);
    finish(&mut scan, &snapshot);
    assert_eq!(keys(&scan), vec![[4; 32]]);
    scan.observe(&[], BlobInventoryChange::Unchanged);
    assert!(scan.patch().is_empty());
    assert!(!scan.has_pending_work());
}

#[test]
fn budget_and_cloned_cursor_preserve_bounded_progress() {
    let mut snapshot = Snapshot::default();
    snapshot.put([1; 32], &[[9; 32], [9; 32], [9; 32], [2; 32]]);
    snapshot.put([2; 32], &[]);
    let mut scan = CollectionBlobInventory::default();
    scan.observe(&[[1; 32]], BlobInventoryChange::Unchanged);
    let zero = scan.advance(
        &snapshot,
        ScanBudget {
            words: 0,
            sources: 1,
        },
    );
    assert_eq!(zero, ScanStats::default());
    assert_eq!(snapshot.reads.get(), 0);
    for _ in 0..2 {
        let before = snapshot.reads.get();
        let stats = scan.advance(
            &snapshot,
            ScanBudget {
                words: 1,
                sources: 1,
            },
        );
        assert_eq!(stats.words, 1);
        assert!(stats.sources <= 1);
        assert!(snapshot.reads.get() - before <= 2);
    }
    let mut clone = scan.clone();
    finish(&mut scan, &snapshot);
    finish(&mut clone, &snapshot);
    assert_eq!(keys(&scan), vec![[1; 32], [2; 32]]);
    assert_eq!(keys(&scan), keys(&clone));
    let before = snapshot.reads.get();
    drop(clone);
    assert_eq!(snapshot.reads.get(), before);
}

#[test]
fn steady_additions_do_not_restart_a_large_body() {
    let mut snapshot = Snapshot::default();
    let mut words = vec![[255; 32]; 64];
    words.push([2; 32]);
    snapshot.put([1; 32], &words);
    snapshot.put([2; 32], &[]);
    let mut scan = CollectionBlobInventory::default();
    for i in 0..65 {
        // Unrelated arrivals keep requesting revisits, but must not reset
        // the current source's offset or displace its remaining work.
        snapshot.put([100 + i; 32], &[]);
        scan.observe(&[[1; 32]], BlobInventoryChange::Additions);
        let stats = scan.advance(
            &snapshot,
            ScanBudget {
                words: 1,
                sources: 1,
            },
        );
        assert_eq!(stats.words, 1);
    }
    assert!(scan.patch().contains_key(&[2; 32]));
    finish(&mut scan, &snapshot);
    assert_eq!(keys(&scan), vec![[1; 32], [2; 32]]);
}

#[test]
fn steady_seed_additions_preserve_the_current_source_cursor() {
    let mut snapshot = Snapshot::default();
    snapshot.put([1; 32], &[[255; 32], [255; 32], [255; 32], [2; 32]]);
    snapshot.put([2; 32], &[]);
    let mut scan = CollectionBlobInventory::default();
    let mut seeds = vec![[1; 32]];
    let mut previous_offset = 0;
    for i in 0..4 {
        seeds.push([100 + i; 32]);
        snapshot.put([100 + i; 32], &[]);
        scan.observe(&seeds, BlobInventoryChange::Additions);
        scan.advance(
            &snapshot,
            ScanBudget {
                words: 1,
                sources: 1,
            },
        );
        let offset = scan.progress.get(&[1; 32]).unwrap().offset;
        assert!(offset >= previous_offset);
        previous_offset = offset;
    }
    finish(&mut scan, &snapshot);
    assert!(scan.patch().contains_key(&[2; 32]));
    assert_eq!(scan.patch().len(), 6);
}

#[test]
fn a_large_source_yields_to_later_seeds_and_new_descendants() {
    let mut snapshot = Snapshot::default();
    let mut large = vec![[255; 32]; 4096];
    large[0] = [3; 32];
    snapshot.put([1; 32], &large);
    snapshot.put([2; 32], &[[4; 32]]);
    snapshot.put([3; 32], &[[5; 32]]);
    snapshot.put([4; 32], &[]);
    snapshot.put([5; 32], &[]);
    let mut scan = CollectionBlobInventory::default();
    scan.observe(&[[1; 32], [2; 32]], BlobInventoryChange::Unchanged);
    let budget = ScanBudget {
        words: 1024,
        sources: 1,
    };
    assert_eq!(scan.advance(&snapshot, budget).words, SOURCE_WORD_QUANTUM);
    assert!(scan.patch().contains_key(&[3; 32]));
    assert!(!scan.patch().contains_key(&[2; 32]));
    scan.advance(&snapshot, budget);
    assert!(scan.patch().contains_key(&[4; 32]));
    for _ in 0..4 {
        scan.advance(&snapshot, budget);
    }
    assert!(scan.patch().contains_key(&[5; 32]));
    assert!(scan.progress.get(&[1; 32]).unwrap().offset < 4096 * 32);
}

#[test]
fn arrival_during_a_partial_source_revisits_its_previously_scanned_prefix() {
    let mut snapshot = Snapshot::default();
    let mut words = vec![[255; 32]; 128];
    words[0] = [2; 32];
    snapshot.put([1; 32], &words);
    let mut scan = CollectionBlobInventory::default();
    scan.observe(&[[1; 32]], BlobInventoryChange::Unchanged);
    scan.advance(
        &snapshot,
        ScanBudget {
            words: 1,
            sources: 1,
        },
    );
    assert!(!scan.patch().contains_key(&[2; 32]));
    assert_eq!(scan.progress.get(&[1; 32]).unwrap().offset, 32);
    snapshot.put([2; 32], &[]);
    scan.observe(&[[1; 32]], BlobInventoryChange::Additions);
    assert_eq!(scan.progress.get(&[1; 32]).unwrap().offset, 32);
    finish(&mut scan, &snapshot);
    assert!(scan.patch().contains_key(&[2; 32]));
}

#[test]
fn a_deep_chain_does_not_revisit_already_scanned_ancestors() {
    let mut snapshot = Snapshot::default();
    for i in 1..20 {
        snapshot.put([i; 32], &[[i + 1; 32]]);
    }
    snapshot.put([20; 32], &[]);
    let mut scan = CollectionBlobInventory::default();
    scan.observe(&[[1; 32]], BlobInventoryChange::Unchanged);
    finish(&mut scan, &snapshot);
    assert_eq!(scan.patch().len(), 20);
    // One source read per node plus one positive lookup per edge.
    assert_eq!(snapshot.reads.get(), 39);
}

#[test]
fn missing_and_empty_sources_still_obey_the_source_budget() {
    let mut snapshot = Snapshot::default();
    snapshot.put([1; 32], &[]);
    snapshot.put([2; 32], &[]);
    let mut scan = CollectionBlobInventory::default();
    scan.observe(&[[1; 32], [2; 32], [3; 32]], BlobInventoryChange::Unchanged);
    let stats = scan.advance(
        &snapshot,
        ScanBudget {
            words: 8,
            sources: 2,
        },
    );
    assert_eq!(stats.sources, 2);
    assert_eq!(stats.words, 0);
    assert_eq!(snapshot.reads.get(), 2);
    assert!(scan.has_pending_work());
    finish(&mut scan, &snapshot);
    assert_eq!(keys(&scan), vec![[1; 32], [2; 32]]);
}

#[test]
fn misclassified_removal_cannot_keep_positive_descendants() {
    let mut snapshot = Snapshot::default();
    snapshot.put([1; 32], &[[2; 32]]);
    snapshot.put([2; 32], &[]);
    let mut scan = CollectionBlobInventory::default();
    scan.observe(&[[1; 32]], BlobInventoryChange::Unchanged);
    finish(&mut scan, &snapshot);
    snapshot.blobs.remove(&[1; 32]);
    scan.observe(&[[1; 32]], BlobInventoryChange::Additions);
    let stats = scan.advance(
        &snapshot,
        ScanBudget {
            words: 8,
            sources: 8,
        },
    );
    assert!(stats.invalidated);
    assert!(scan.patch().is_empty());
    finish(&mut scan, &snapshot);
    assert!(scan.patch().is_empty());
}

#[test]
fn blobs_in_memory_are_read_as_they_were_put() {
    let mut bodies: KeyMap<32, Vec<u8>> = KeyMap::new();
    bodies.insert([1; 32], vec![2; 64]);
    let snapshot = MemoryBlobs { bodies };
    assert_eq!(snapshot.read(&[1; 32]), Some(vec![2; 64]));
    assert_eq!(snapshot.read(&[2; 32]), None);
    assert!(snapshot.can_read(&[1; 32]));
    assert!(!snapshot.can_read(&[2; 32]));
    let mut scan = CollectionBlobInventory::default();
    scan.observe(&[[1; 32]], BlobInventoryChange::Unchanged);
    scan.advance(
        &snapshot,
        ScanBudget {
            words: 8,
            sources: 8,
        },
    );
    assert_eq!(keys(&scan), vec![[1; 32]]);
}
