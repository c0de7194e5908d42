use triblespace_net::channel::{
    NetEvent, NetEventBatch, MAX_ADMISSION_BATCH_BYTES, MAX_ADMISSION_BATCH_ITEMS,
};
use triblespace_net::collection_delta::CollectionRecord;

fn record(byte: u8) -> NetEvent {
    NetEvent::CollectionRecord(CollectionRecord {
        collection: [0xA5; 32],
        fingerprint: [byte; 32],
        bytes: vec![byte; 256],
    })
}

fn blob(length: usize) -> NetEvent {
    NetEvent::Blob {
        handle: [1; 32],
        bytes: vec![0; length],
    }
}

#[test]
fn admission_batches_enforce_count_and_byte_bounds() {
    let mut count_bounded = NetEventBatch::default();
    for byte in 0..MAX_ADMISSION_BATCH_ITEMS {
        count_bounded.try_push(record(byte as u8)).unwrap();
    }
    assert!(count_bounded.is_full());
    assert!(count_bounded.try_push(record(0xFF)).is_err());
}

#[test]
fn record_batching_keeps_items_bounded() {
    let mut batch = NetEventBatch::default();
    batch.try_push(record(0x33)).unwrap();
    assert_eq!(batch.len(), 1);
}

#[test]
fn an_oversized_blob_travels_alone() {
    let mut batch = NetEventBatch::new();
    assert!(batch.is_empty());
    batch.try_push(blob(MAX_ADMISSION_BATCH_BYTES + 1)).unwrap();
    assert!(batch.is_full());
    assert!(batch.try_push(record(1)).is_err());
    assert_eq!(batch.into_events().len(), 1);

    let mut batch = NetEventBatch::new();
    batch.try_push(record(1)).unwrap();
    let returned = batch.try_push(blob(MAX_ADMISSION_BATCH_BYTES)).unwrap_err();
    assert_eq!(returned.admission_bytes(), MAX_ADMISSION_BATCH_BYTES);
    batch
        .try_push(blob(MAX_ADMISSION_BATCH_BYTES - 256))
        .unwrap();
    assert!(batch.is_full());
    assert_eq!(batch.len(), 2);
}

#[test]
fn hints_weigh_what_they_carry() {
    let hint = NetEvent::BlobHint {
        collection: [1; 32],
        source: [2; 32],
        handle: [3; 32],
    };
    assert_eq!(hint.admission_bytes(), 96);
    let end = NetEvent::BlobInventoryPassCompleted {
        collection: [1; 32],
        source: [2; 32],
    };
    assert_eq!(end.admission_bytes(), 64);
    assert_eq!(record(1).admission_bytes(), 256);
}
