//! Evidence crossing the asynchronous host / synchronous store boundary.
//!
//! Collection repair admission is monotone. The host streams authenticated
//! leaves to the store side in bounded batches, where one refresh drain inserts
//! all available batches into the next immutable observation.

use vstd::prelude::*;

use crate::collection_activation::CapabilityProof;
use crate::collection_blob_inventory::RawHash;
use crate::collection_delta::CollectionRecord;
use crate::provider::PeerId;

verus! {

/// Authenticated, structurally canonical items returned by repair. These values
/// remain inert evidence until ordinary local derivation admits them.
#[derive(Debug)]
pub enum NetEvent {
    /// One payload verified on the wire against the handle it was fetched by.
    Blob { handle: RawHash, bytes: Vec<u8> },
    CollectionRecord(CollectionRecord),
    /// One native authorization proof.
    CapabilityProof(CapabilityProof),
    /// READ-gated positive availability observation, not a durable request,
    /// membership assertion, or evidence that this process has the bytes.
    BlobHint { collection: [u8; 32], source: PeerId, handle: RawHash },
    /// The preceding positive walk reached its pinned inventory's end. Only a
    /// local scheduling boundary: not a remote completeness claim.
    BlobInventoryPassCompleted { collection: [u8; 32], source: PeerId },
}

impl NetEvent {
    /// What an event weighs against the byte ceiling of a batch.
    pub open spec fn weight(self) -> nat {
        match self {
            NetEvent::Blob { bytes, .. } => bytes@.len(),
            NetEvent::CollectionRecord(record) => record.bytes@.len(),
            NetEvent::CapabilityProof(evidence) => evidence.bytes@.len(),
            NetEvent::BlobHint { .. } => 96,
            NetEvent::BlobInventoryPassCompleted { .. } => 64,
        }
    }

    /// What an event weighs against the byte ceiling of a batch.
    pub fn admission_bytes(&self) -> (bytes: usize)
        ensures
            bytes == self.weight(),
    {
        match self {
            NetEvent::Blob { bytes, .. } => bytes.len(),
            NetEvent::CollectionRecord(record) => record.bytes.len(),
            NetEvent::CapabilityProof(evidence) => evidence.bytes.len(),
            NetEvent::BlobHint { .. } => 96,
            NetEvent::BlobInventoryPassCompleted { .. } => 64,
        }
    }
}

/// Maximum number of independently authenticated items carried by one
/// host-to-store message.
pub const MAX_ADMISSION_BATCH_ITEMS: usize = 4_096;

/// Soft byte ceiling for one host-to-store message. Blob values are indivisible
/// at this boundary: one that is larger than this ceiling is carried alone.
pub const MAX_ADMISSION_BATCH_BYTES: usize = 67_108_864;

/// Maximum number of batches buffered across the bridge and consumed by one
/// refresh drain.
pub const MAX_ADMISSION_BRIDGE_BATCHES: usize = 16;

/// What the events weigh together.
pub open spec fn total_weight(events: Seq<NetEvent>) -> nat
    decreases events.len(),
{
    if events.len() == 0 {
        0
    } else {
        total_weight(events.drop_last()) + events.last().weight()
    }
}

/// Whether a batch of the given events has room for another: an empty one has.
pub open spec fn has_room(events: Seq<NetEvent>, event: NetEvent) -> bool {
    events.len() == 0 || (events.len() < MAX_ADMISSION_BATCH_ITEMS && total_weight(events)
        + event.weight() <= MAX_ADMISSION_BATCH_BYTES)
}

/// Whether a batch of the given events is ready to send.
pub open spec fn is_sendable(events: Seq<NetEvent>) -> bool {
    events.len() >= MAX_ADMISSION_BATCH_ITEMS || total_weight(events) >= MAX_ADMISSION_BATCH_BYTES
}

/// One bounded unit of monotone store admission.
#[derive(Debug)]
pub struct NetEventBatch {
    events: Vec<NetEvent>,
    bytes: usize,
}

impl NetEventBatch {
    /// The events of the batch.
    pub closed spec fn items(&self) -> Seq<NetEvent> {
        self.events@
    }

    /// A batch has no more events than allowed, and it is within the byte
    /// ceiling unless it carries a single event.
    #[verifier::type_invariant]
    spec fn bounded(self) -> bool {
        &&& self.events@.len() <= MAX_ADMISSION_BATCH_ITEMS
        &&& self.bytes == total_weight(self.events@)
        &&& self.events@.len() > 1 ==> self.bytes <= MAX_ADMISSION_BATCH_BYTES
    }

    /// An empty batch.
    pub fn new() -> (batch: Self)
        ensures
            batch.items() == Seq::<NetEvent>::empty(),
    {
        NetEventBatch { events: Vec::new(), bytes: 0 }
    }

    /// Whether there is no event.
    pub fn is_empty(&self) -> (empty: bool)
        ensures
            empty == (self.items().len() == 0),
    {
        self.events.len() == 0
    }

    /// The number of events.
    pub fn len(&self) -> (count: usize)
        ensures
            count == self.items().len(),
            count <= MAX_ADMISSION_BATCH_ITEMS,
            count > 1 ==> total_weight(self.items()) <= MAX_ADMISSION_BATCH_BYTES,
    {
        proof {
            use_type_invariant(self);
        }
        self.events.len()
    }

    /// The events, in the order in which they were pushed.
    pub fn into_events(self) -> (events: Vec<NetEvent>)
        ensures
            events@ == self.items(),
            events@.len() <= MAX_ADMISSION_BATCH_ITEMS,
            events@.len() > 1 ==> total_weight(events@) <= MAX_ADMISSION_BATCH_BYTES,
    {
        proof {
            use_type_invariant(&self);
        }
        self.events
    }

    /// Append an event, or return it unchanged when the nonempty batch has no
    /// room for it. An indivisible oversized event is accepted only into an
    /// empty batch and immediately makes it ready to send.
    pub fn try_push(&mut self, event: NetEvent) -> (result: Result<(), NetEvent>)
        ensures
            match result {
                Ok(()) => {
                    &&& has_room(old(self).items(), event)
                    &&& final(self).items() == old(self).items().push(event)
                },
                Err(returned) => {
                    &&& !has_room(old(self).items(), event)
                    &&& returned == event
                    &&& final(self).items() == old(self).items()
                },
            },
    {
        proof {
            use_type_invariant(&*self);
        }
        let event_bytes: usize = event.admission_bytes();
        let bytes: usize = self.bytes;
        if self.events.len() > 0 && (self.events.len() >= MAX_ADMISSION_BATCH_ITEMS || bytes
            > MAX_ADMISSION_BATCH_BYTES || event_bytes > MAX_ADMISSION_BATCH_BYTES - bytes) {
            return Err(event);
        }
        let ghost before = self.events@;
        let mut batch = NetEventBatch::new();
        core::mem::swap(self, &mut batch);
        let mut events: Vec<NetEvent> = batch.events;
        events.push(event);
        proof {
            assert(events@.drop_last() =~= before);
            if before.len() == 0 {
                assert(total_weight(before) == 0);
            }
        }
        *self = NetEventBatch { events, bytes: bytes + event_bytes };
        Ok(())
    }

    /// Whether the batch is ready to send.
    pub fn is_full(&self) -> (full: bool)
        ensures
            full == is_sendable(self.items()),
    {
        proof {
            use_type_invariant(self);
        }
        self.events.len() >= MAX_ADMISSION_BATCH_ITEMS || self.bytes >= MAX_ADMISSION_BATCH_BYTES
    }
}

impl Default for NetEventBatch {
    fn default() -> (batch: Self)
        ensures
            batch.items() == Seq::<NetEvent>::empty(),
    {
        NetEventBatch::new()
    }
}

} // verus!
