//! The exchange of one exact blob, and the resources of its receipt.

use vstd::prelude::*;

use crate::bearer::{
    proof_matches, provider_confirmation, provider_proof, requester_confirmation, requester_proof,
};
use crate::collection_blob_inventory::RawHash;
use crate::hash::{blake3_hash, hash};
use crate::keys::{lemma_same_bytes, same};
use crate::protocol::{
    get_blob_request, ProtocolError, BLOB_PROVIDER_PROOF, BLOB_UNAVAILABLE, EXACT_BLOB_CHUNK_BYTES,
    EXACT_BLOB_POLLS_PER_CHUNK, MAX_EXACT_BLOB_BYTES, MAX_EXACT_BLOB_STORAGE_UNITS, OP_GET_BLOB,
};
use crate::provider::{locator, PeerId};

verus! {

/// What the status byte of an answer means: whether the candidate claims to have
/// the blob.
pub open spec fn status_meaning(status: u8) -> Result<bool, ProtocolError> {
    if status == BLOB_UNAVAILABLE {
        Ok(false)
    } else if status == BLOB_PROVIDER_PROOF {
        Ok(true)
    } else {
        Err(ProtocolError::UnknownResponse(status))
    }
}

/// What a requester answers to the proof of a candidate.
pub open spec fn client_reply(
    handle: RawHash,
    requester: PeerId,
    provider: PeerId,
    supplied: Seq<u8>,
) -> Result<Seq<u8>, ProtocolError> {
    if supplied == provider_confirmation(handle, requester, provider) {
        Ok(requester_confirmation(handle, requester, provider))
    } else {
        Err(ProtocolError::ProviderProof)
    }
}

/// What a requester makes of a body: whether there is one.
pub open spec fn judged_body(handle: RawHash, body: Option<Seq<u8>>) -> Result<
    bool,
    ProtocolError,
> {
    match body {
        None => Ok(false),
        Some(body) => if blake3_hash(body) == handle@ {
            Ok(true)
        } else {
            Err(ProtocolError::HashMismatch)
        },
    }
}

/// What a provider answers to a locator that resolves to a handle, or to none.
pub open spec fn server_reply(
    handle: Option<RawHash>,
    requester: PeerId,
    provider: PeerId,
) -> Seq<u8> {
    match handle {
        None => seq![BLOB_UNAVAILABLE],
        Some(handle) => seq![BLOB_PROVIDER_PROOF] + provider_confirmation(
            handle,
            requester,
            provider,
        ),
    }
}

/// The handle that a provider reads for a requester, given the requester's proof
/// and whether bytes follow it.
pub open spec fn released(
    handle: RawHash,
    requester: PeerId,
    provider: PeerId,
    supplied: Seq<u8>,
    trailing: bool,
) -> Result<RawHash, ProtocolError> {
    if trailing {
        Err(ProtocolError::TrailingBytes)
    } else if supplied == requester_confirmation(handle, requester, provider) {
        Ok(handle)
    } else {
        Err(ProtocolError::RequesterProof)
    }
}

/// What the requester of a blob waits for.
#[derive(Clone, Copy, Debug, PartialEq, Eq, Structural)]
pub enum ClientStage {
    Status,
    /// The answer that there is no such blob has to end here.
    End,
    Confirmation,
    Body,
    Done,
}

/// The requester's side of one exact blob exchange. The candidate proves
/// knowledge of the handle before the requester sends its own proof.
#[derive(Clone, Copy, Debug, PartialEq, Eq)]
pub struct GetBlobClient {
    pub handle: RawHash,
    pub requester: PeerId,
    pub provider: PeerId,
    pub stage: ClientStage,
}

impl GetBlobClient {
    /// Begin an exchange; the bytes to send. They disclose only the locator.
    pub fn open(handle: RawHash, requester: PeerId, provider: PeerId) -> (opened: (Self, Vec<u8>))
        ensures
            opened.0 == (GetBlobClient {
                handle,
                requester,
                provider,
                stage: ClientStage::Status,
            }),
            opened.1@ == seq![OP_GET_BLOB] + locator(handle@),
    {
        let request = get_blob_request(&handle);
        (GetBlobClient { handle, requester, provider, stage: ClientStage::Status }, request)
    }

    /// Take the status byte; whether the candidate claims to have the blob.
    pub fn status(&mut self, status: u8) -> (result: Result<bool, ProtocolError>)
        requires
            old(self).stage == ClientStage::Status,
        ensures
            result == status_meaning(status),
            *final(self) == (GetBlobClient {
                stage: match status_meaning(status) {
                    Ok(true) => ClientStage::Confirmation,
                    Ok(false) => ClientStage::End,
                    Err(_) => ClientStage::Done,
                },
                ..*old(self)
            }),
    {
        if status == BLOB_UNAVAILABLE {
            self.stage = ClientStage::End;
            Ok(false)
        } else if status == BLOB_PROVIDER_PROOF {
            self.stage = ClientStage::Confirmation;
            Ok(true)
        } else {
            self.stage = ClientStage::Done;
            Err(ProtocolError::UnknownResponse(status))
        }
    }

    /// Take whether bytes follow the answer that there is no such blob.
    pub fn end(&mut self, trailing: bool) -> (result: Result<(), ProtocolError>)
        requires
            old(self).stage == ClientStage::End,
        ensures
            result == if trailing {
                Err::<(), ProtocolError>(ProtocolError::TrailingBytes)
            } else {
                Ok(())
            },
            *final(self) == (GetBlobClient { stage: ClientStage::Done, ..*old(self) }),
    {
        self.stage = ClientStage::Done;
        if trailing {
            Err(ProtocolError::TrailingBytes)
        } else {
            Ok(())
        }
    }

    /// Take the candidate's proof; the requester's proof to send. A candidate
    /// whose proof does not match is sent nothing.
    pub fn confirm(&mut self, supplied: &RawHash) -> (result: Result<RawHash, ProtocolError>)
        requires
            old(self).stage == ClientStage::Confirmation,
        ensures
            match (
                result,
                client_reply(
                    old(self).handle,
                    old(self).requester,
                    old(self).provider,
                    supplied@,
                ),
            ) {
                (Ok(reply), Ok(wanted)) => reply@ == wanted,
                (Err(error), Err(wanted)) => error == wanted,
                _ => false,
            },
            *final(self) == (GetBlobClient {
                stage: if result is Ok {
                    ClientStage::Body
                } else {
                    ClientStage::Done
                },
                ..*old(self)
            }),
    {
        let expected = provider_proof(&self.handle, &self.requester, &self.provider);
        if !proof_matches(supplied, &expected) {
            proof {
                if supplied@ == expected@ {
                    lemma_same_bytes(*supplied, expected);
                }
            }
            self.stage = ClientStage::Done;
            return Err(ProtocolError::ProviderProof);
        }
        self.stage = ClientStage::Body;
        Ok(requester_proof(&self.handle, &self.requester, &self.provider))
    }

    /// Take the body; whether there is one. The requested handle is not trusted as
    /// the identity of the payload: the bytes must hash to it.
    pub fn accept(&mut self, body: Option<&[u8]>) -> (result: Result<bool, ProtocolError>)
        requires
            old(self).stage == ClientStage::Body,
        ensures
            result == judged_body(
                old(self).handle,
                match body {
                    Some(body) => Some(body@),
                    None => None,
                },
            ),
            *final(self) == (GetBlobClient { stage: ClientStage::Done, ..*old(self) }),
    {
        self.stage = ClientStage::Done;
        match body {
            None => Ok(false),
            Some(body) => {
                let actual = hash(body);
                if !same(&actual, &self.handle) {
                    proof {
                        if actual@ == self.handle@ {
                            lemma_same_bytes(actual, self.handle);
                        }
                    }
                    return Err(ProtocolError::HashMismatch);
                }
                Ok(true)
            },
        }
    }
}

/// What the provider of a blob waits for.
#[derive(Clone, Copy, Debug, PartialEq, Eq)]
pub enum ServerStage {
    Locator,
    Confirmation { handle: RawHash },
    Done,
}

/// The provider's side of one exact blob exchange.
#[derive(Clone, Copy, Debug, PartialEq, Eq)]
pub struct GetBlobServer {
    pub requester: PeerId,
    pub provider: PeerId,
    pub stage: ServerStage,
}

impl GetBlobServer {
    /// Begin an exchange.
    pub fn open(requester: PeerId, provider: PeerId) -> (server: Self)
        ensures
            server == (GetBlobServer { requester, provider, stage: ServerStage::Locator }),
    {
        GetBlobServer { requester, provider, stage: ServerStage::Locator }
    }

    /// Take what the locator resolves to; the bytes to send.
    pub fn resolve(&mut self, handle: Option<RawHash>) -> (reply: Vec<u8>)
        requires
            old(self).stage == ServerStage::Locator,
        ensures
            reply@ == server_reply(handle, old(self).requester, old(self).provider),
            *final(self) == (GetBlobServer {
                stage: match handle {
                    None => ServerStage::Done,
                    Some(handle) => ServerStage::Confirmation { handle },
                },
                ..*old(self)
            }),
    {
        let mut reply: Vec<u8> = Vec::new();
        match handle {
            None => {
                reply.push(BLOB_UNAVAILABLE);
                self.stage = ServerStage::Done;
                assert(reply@ =~= seq![BLOB_UNAVAILABLE]);
            },
            Some(handle) => {
                let shown = provider_proof(&handle, &self.requester, &self.provider);
                reply.push(BLOB_PROVIDER_PROOF);
                reply.extend_from_slice(&shown);
                self.stage = ServerStage::Confirmation { handle };
                assert(reply@ =~= seq![BLOB_PROVIDER_PROOF] + shown@);
            },
        }
        reply
    }

    /// Take the requester's proof, and whether bytes follow it; the handle to
    /// read. Storage is not read before the requester has shown that it knows
    /// the handle.
    pub fn confirm(&mut self, supplied: &RawHash, trailing: bool) -> (result: Result<
        RawHash,
        ProtocolError,
    >)
        requires
            old(self).stage is Confirmation,
        ensures
            result == released(
                old(self).stage->Confirmation_handle,
                old(self).requester,
                old(self).provider,
                supplied@,
                trailing,
            ),
            *final(self) == (GetBlobServer { stage: ServerStage::Done, ..*old(self) }),
    {
        let stage = self.stage;
        self.stage = ServerStage::Done;
        if trailing {
            return Err(ProtocolError::TrailingBytes);
        }
        match stage {
            ServerStage::Confirmation { handle } => {
                let expected = requester_proof(&handle, &self.requester, &self.provider);
                if !proof_matches(supplied, &expected) {
                    proof {
                        if supplied@ == expected@ {
                            lemma_same_bytes(*supplied, expected);
                        }
                    }
                    return Err(ProtocolError::RequesterProof);
                }
                Ok(handle)
            },
            _ => Err(ProtocolError::RequesterProof),
        }
    }
}

/// An honest candidate that resolves the locator to the requested handle passes
/// the requester's check, and the requester's answer passes the candidate's.
pub proof fn law_honest_exchange_confirms(
    client: GetBlobClient,
    server: GetBlobServer,
    shown: RawHash,
    reply: RawHash,
)
    requires
        client.requester == server.requester,
        client.provider == server.provider,
        server.stage == (ServerStage::Confirmation { handle: client.handle }),
        seq![BLOB_PROVIDER_PROOF] + shown@ == seq![BLOB_PROVIDER_PROOF] + provider_confirmation(
            client.handle,
            server.requester,
            server.provider,
        ),
        reply@ == requester_confirmation(client.handle, client.requester, client.provider),
    ensures
        shown@ == provider_confirmation(client.handle, client.requester, client.provider),
        reply@ == requester_confirmation(
            server.stage->Confirmation_handle,
            server.requester,
            server.provider,
        ),
{
    let sent = seq![BLOB_PROVIDER_PROOF] + shown@;
    let wanted = seq![BLOB_PROVIDER_PROOF] + provider_confirmation(
        client.handle,
        server.requester,
        server.provider,
    );
    assert(sent.skip(1) =~= shown@);
    assert(wanted.skip(1) =~= provider_confirmation(
        client.handle,
        server.requester,
        server.provider,
    ));
}

/// Local saturation says nothing about the provider or its connection.
#[derive(Clone, Copy, Debug, PartialEq, Eq, Structural)]
pub enum ExactBlobReceiveResourceError {
    BodySlotsExhausted,
    TemporaryStorageExhausted,
}

impl ExactBlobReceiveResourceError {
    /// The error in words.
    pub fn message(&self) -> (text: &'static str)
        ensures
            text@ == match *self {
                ExactBlobReceiveResourceError::BodySlotsExhausted =>
                    "local exact-blob receive capacity exhausted"@,
                ExactBlobReceiveResourceError::TemporaryStorageExhausted =>
                    "local exact-blob temporary storage capacity exhausted"@,
            },
    {
        match self {
            ExactBlobReceiveResourceError::BodySlotsExhausted => {
                "local exact-blob receive capacity exhausted"
            },
            ExactBlobReceiveResourceError::TemporaryStorageExhausted => {
                "local exact-blob temporary storage capacity exhausted"
            },
        }
    }
}

/// The storage units that so many bytes take: one per chunk that is begun.
pub open spec fn units_for(bytes: nat) -> nat {
    (bytes + EXACT_BLOB_CHUNK_BYTES - 1) as nat / EXACT_BLOB_CHUNK_BYTES as nat
}

/// Whether so many storage units are within the capacity.
pub open spec fn fits(units: int) -> bool {
    units <= MAX_EXACT_BLOB_STORAGE_UNITS
}

/// The storage that one received blob is charged for. An idle announcement
/// reserves nothing; the charge lasts as long as the received bytes do.
#[derive(Debug, PartialEq, Eq)]
pub struct ExactBlobStorage {
    pub units: usize,
}

impl ExactBlobStorage {
    /// No charge.
    pub fn new() -> (storage: Self)
        ensures
            storage.units == 0,
    {
        ExactBlobStorage { units: 0 }
    }

    /// Charge for a blob that grows to `bytes`. `used` is what all received
    /// blobs together are charged for. A charge beyond the capacity is refused
    /// rather than waited for.
    pub fn grow(&mut self, used: &mut usize, bytes: usize) -> (result: Result<
        (),
        ExactBlobReceiveResourceError,
    >)
        requires
            old(self).units <= units_for(bytes as nat),
            *old(used) <= MAX_EXACT_BLOB_STORAGE_UNITS,
        ensures
            ({
                let units = units_for(bytes as nat);
                if fits(*old(used) + (units - old(self).units)) {
                    &&& result is Ok
                    &&& final(self).units == units
                    &&& *final(used) == *old(used) + (units - old(self).units)
                } else {
                    &&& result == Err::<(), ExactBlobReceiveResourceError>(
                        ExactBlobReceiveResourceError::TemporaryStorageExhausted,
                    )
                    &&& *final(self) == *old(self)
                    &&& *final(used) == *old(used)
                }
            }),
    {
        let whole: usize = bytes / EXACT_BLOB_CHUNK_BYTES;
        let units: usize = if bytes % EXACT_BLOB_CHUNK_BYTES == 0 {
            whole
        } else {
            whole + 1
        };
        assert(units == units_for(bytes as nat));
        let additional: usize = units - self.units;
        if additional > MAX_EXACT_BLOB_STORAGE_UNITS - *used {
            return Err(ExactBlobReceiveResourceError::TemporaryStorageExhausted);
        }
        *used = *used + additional;
        self.units = units;
        Ok(())
    }

    /// Return the charge.
    pub fn release(self, used: &mut usize)
        requires
            self.units <= *old(used),
        ensures
            *final(used) == *old(used) - self.units,
    {
        *used = *used - self.units;
    }
}

/// Why a body cannot be received.
#[derive(Clone, Copy, Debug, PartialEq, Eq, Structural)]
pub enum ReceiveError {
    /// The blob is too large to transfer.
    TooLarge,
    /// Resources are exhausted here.
    Resource(ExactBlobReceiveResourceError),
    /// The body ends early.
    UnexpectedEnd,
    /// The reader consumed bytes and said that it has none.
    InvalidPending,
}

impl ReceiveError {
    /// The error in words.
    pub fn message(&self) -> (text: &'static str)
        ensures
            text@ == match *self {
                ReceiveError::TooLarge =>
                    "blob response exceeds the 68719476736-byte transport bound"@,
                ReceiveError::Resource(ExactBlobReceiveResourceError::BodySlotsExhausted) =>
                    "local exact-blob receive capacity exhausted"@,
                ReceiveError::Resource(
                    ExactBlobReceiveResourceError::TemporaryStorageExhausted,
                ) => "local exact-blob temporary storage capacity exhausted"@,
                ReceiveError::UnexpectedEnd => "recv blob body: unexpected end of file"@,
                ReceiveError::InvalidPending => "blob reader returned Pending after consuming bytes"@,
            },
    {
        match self {
            ReceiveError::TooLarge => "blob response exceeds the 68719476736-byte transport bound",
            ReceiveError::Resource(error) => error.message(),
            ReceiveError::UnexpectedEnd => "recv blob body: unexpected end of file",
            ReceiveError::InvalidPending => "blob reader returned Pending after consuming bytes",
        }
    }
}

/// Why a body of a length cannot be received, given how many may still be received
/// at once. An empty body needs no resources.
pub open spec fn receive_refusal(length: usize, free_slots: usize) -> Option<ReceiveError> {
    if length > MAX_EXACT_BLOB_BYTES {
        Some(ReceiveError::TooLarge)
    } else if length > 0 && free_slots == 0 {
        Some(ReceiveError::Resource(ExactBlobReceiveResourceError::BodySlotsExhausted))
    } else {
        None
    }
}

/// The receipt of one body.
#[derive(Debug, PartialEq, Eq)]
pub struct ExactBlobReceive {
    pub length: usize,
    pub remaining: usize,
    pub storage: ExactBlobStorage,
}

impl ExactBlobReceive {
    /// What was received is charged for, and nothing else.
    pub open spec fn well_formed(self) -> bool {
        &&& self.remaining <= self.length <= MAX_EXACT_BLOB_BYTES
        &&& self.storage.units == units_for((self.length - self.remaining) as nat)
    }

    /// Begin to receive a body, given how many bodies may still be received at
    /// once. An empty body needs no resources.
    pub fn begin(length: usize, free_slots: usize) -> (result: Result<Option<Self>, ReceiveError>)
        ensures
            match result {
                Ok(Some(receive)) => {
                    &&& length > 0
                    &&& receive_refusal(length, free_slots) is None
                    &&& receive.length == length
                    &&& receive.remaining == length
                    &&& receive.storage.units == 0
                    &&& receive.well_formed()
                },
                Ok(None) => length == 0 && receive_refusal(length, free_slots) is None,
                Err(error) => receive_refusal(length, free_slots) == Some(error),
            },
    {
        if length as u64 > MAX_EXACT_BLOB_BYTES {
            return Err(ReceiveError::TooLarge);
        }
        if length == 0 {
            return Ok(None);
        }
        if free_slots == 0 {
            return Err(ReceiveError::Resource(ExactBlobReceiveResourceError::BodySlotsExhausted));
        }
        Ok(
            Some(
                ExactBlobReceive {
                    length,
                    remaining: length,
                    storage: ExactBlobStorage::new(),
                },
            ),
        )
    }

    /// Charge for a chunk before it is stored; whether the body is complete
    /// with it.
    pub fn take_chunk(&mut self, used: &mut usize, chunk: usize) -> (result: Result<
        bool,
        ReceiveError,
    >)
        requires
            old(self).well_formed(),
            chunk <= old(self).remaining,
            *old(used) <= MAX_EXACT_BLOB_STORAGE_UNITS,
        ensures
            final(self).well_formed(),
            final(self).length == old(self).length,
            ({
                let units = units_for((old(self).length - old(self).remaining + chunk) as nat);
                let total = *old(used) + units - old(self).storage.units;
                if fits(total) {
                    &&& final(self).remaining == old(self).remaining - chunk
                    &&& *final(used) == total
                    &&& result == Ok::<bool, ReceiveError>(old(self).remaining == chunk)
                } else {
                    &&& *final(self) == *old(self)
                    &&& *final(used) == *old(used)
                    &&& result == Err::<bool, ReceiveError>(
                        ReceiveError::Resource(
                            ExactBlobReceiveResourceError::TemporaryStorageExhausted,
                        ),
                    )
                }
            }),
    {
        let received: usize = self.length - self.remaining + chunk;
        match self.storage.grow(used, received) {
            Ok(()) => {
                self.remaining = self.remaining - chunk;
                Ok(self.remaining == 0)
            },
            Err(error) => Err(ReceiveError::Resource(error)),
        }
    }
}

/// What follows from polling the reader of a body.
#[derive(Clone, Copy, Debug, PartialEq, Eq, Structural)]
pub enum PollStep {
    /// Poll once more in the same turn.
    PollAgain,
    /// Nothing was read: wait to be woken.
    Wait,
    /// The bytes read so far are the chunk of this turn.
    ChunkReady,
}

/// What follows when the reader has nothing at once, given what the buffer held
/// before and holds now.
pub open spec fn after_pending(before: usize, filled: usize) -> Result<PollStep, ReceiveError> {
    if filled != before {
        Err(ReceiveError::InvalidPending)
    } else if filled == 0 {
        Ok(PollStep::Wait)
    } else {
        Ok(PollStep::ChunkReady)
    }
}

/// What follows when the reader was ready, given what the buffer held before and
/// holds now, what it can hold, and the polls of the turn.
pub open spec fn after_ready(
    before: usize,
    filled: usize,
    capacity: usize,
    polls: nat,
) -> Result<PollStep, ReceiveError> {
    if filled == before {
        Err(ReceiveError::UnexpectedEnd)
    } else if filled == capacity || polls == EXACT_BLOB_POLLS_PER_CHUNK {
        Ok(PollStep::ChunkReady)
    } else {
        Ok(PollStep::PollAgain)
    }
}

/// The polls of one turn. A turn ends with a full chunk, with a reader that has
/// nothing more at once, or with its budget of polls. It does not keep bytes
/// while waiting for more.
#[derive(Clone, Copy, Debug, PartialEq, Eq)]
pub struct ChunkPolls {
    pub capacity: usize,
    pub filled: usize,
    pub polls: usize,
}

impl ChunkPolls {
    /// Begin a turn, given what is missing of the body.
    pub fn new(remaining: usize) -> (turn: Self)
        ensures
            turn.capacity == if remaining <= EXACT_BLOB_CHUNK_BYTES {
                remaining
            } else {
                EXACT_BLOB_CHUNK_BYTES
            },
            turn.filled == 0,
            turn.polls == 0,
    {
        ChunkPolls {
            capacity: if remaining <= EXACT_BLOB_CHUNK_BYTES {
                remaining
            } else {
                EXACT_BLOB_CHUNK_BYTES
            },
            filled: 0,
            polls: 0,
        }
    }

    /// The reader has nothing at once; `filled` is what the buffer holds now.
    pub fn pending(&self, filled: usize) -> (result: Result<PollStep, ReceiveError>)
        ensures
            result == after_pending(self.filled, filled),
    {
        if filled != self.filled {
            Err(ReceiveError::InvalidPending)
        } else if filled == 0 {
            Ok(PollStep::Wait)
        } else {
            Ok(PollStep::ChunkReady)
        }
    }

    /// The reader was ready; `filled` is what the buffer holds now. A reader that
    /// is ready with nothing is at its end.
    pub fn ready(&mut self, filled: usize) -> (result: Result<PollStep, ReceiveError>)
        requires
            old(self).polls < EXACT_BLOB_POLLS_PER_CHUNK,
            old(self).filled <= filled <= old(self).capacity,
        ensures
            final(self).capacity == old(self).capacity,
            final(self).filled == filled,
            final(self).polls == old(self).polls + 1,
            result == after_ready(
                old(self).filled,
                filled,
                old(self).capacity,
                (old(self).polls + 1) as nat,
            ),
    {
        let before: usize = self.filled;
        self.filled = filled;
        self.polls = self.polls + 1;
        if filled == before {
            Err(ReceiveError::UnexpectedEnd)
        } else if filled == self.capacity || self.polls == EXACT_BLOB_POLLS_PER_CHUNK {
            Ok(PollStep::ChunkReady)
        } else {
            Ok(PollStep::PollAgain)
        }
    }
}

/// A whole body is charged for by its rounded length, however it was cut into
/// chunks, and releasing it returns exactly that.
pub proof fn law_complete_receive_is_charged_by_its_length(receive: ExactBlobReceive)
    requires
        receive.well_formed(),
        receive.remaining == 0,
    ensures
        receive.storage.units == units_for(receive.length as nat),
        receive.storage.units * EXACT_BLOB_CHUNK_BYTES >= receive.length,
        receive.length > 0 ==> (receive.storage.units - 1) * EXACT_BLOB_CHUNK_BYTES
            < receive.length,
{
}

} // verus!
