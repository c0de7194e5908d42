//! Binary wire protocol primitives.
//!
//! One stream carries one operation. Establishing a connection grants no
//! collection authority. Exact blob reads use only bearer-handle key
//! confirmation. Collection identity and collection authority do not
//! participate in exact discovery or transfer.

use vstd::prelude::*;

use crate::collection_blob_inventory::RawHash;
use crate::directory::MAX_PROVIDERS_PER_KEY;
use crate::keys::{be_bytes, big_endian, lemma_be_bytes, lemma_eight_bytes, read_be, u64_bytes};
use crate::provider::{blob_locator, locator, PeerId};

verus! {

/// Shared bearer and directory transport generation.
pub const PILE_SYNC_ALPN: &'static str = "/triblespace/pile-sync/26";

/// Operation types: the first byte on each stream.
pub const OP_GET_BLOB: u8 = 0x02;

pub const OP_PROVIDER_PUT: u8 = 0x06;

pub const OP_PROVIDER_GET: u8 = 0x07;

pub const OP_FIND_NODE: u8 = 0x0C;

pub const OP_COLLECTION_REPAIR: u8 = 0x0E;

pub const PROVIDER_PUT_OK: u8 = 0x00;

pub const PROVIDER_PUT_FULL: u8 = 0x01;

pub const BLOB_UNAVAILABLE: u8 = 0x00;

pub const BLOB_PROVIDER_PROOF: u8 = 0x01;

/// How many routes a node answers with at most.
pub const K: usize = 20;

/// Exact-transfer ceiling.
pub const MAX_EXACT_BLOB_BYTES: u64 = 68_719_476_736;

pub const EXACT_BLOB_CHUNK_BYTES: usize = 1_048_576;

pub const EXACT_BLOB_POLLS_PER_CHUNK: usize = 128;

pub const MAX_EXACT_BLOB_STORAGE_UNITS: usize = 65_536;

/// Live body receives are bounded separately from byte storage. Exhaustion is a
/// local error, not an awaited queue.
pub const MAX_EXACT_BLOB_RECEIVERS: usize = 16;

/// Why a message is not what it should be.
#[derive(Clone, Copy, Debug, PartialEq, Eq, Structural)]
pub enum ProtocolError {
    /// The message ends early.
    UnexpectedEnd,
    /// There are bytes behind the message.
    TrailingBytes,
    /// The first byte of an answer has no meaning.
    UnknownResponse(u8),
    /// An answer lists more than it may.
    TooMany { count: usize, limit: usize },
    /// A blob is announced that is too large to transfer.
    TooLarge,
    /// The candidate does not know the handle.
    ProviderProof,
    /// The requester does not know the handle.
    RequesterProof,
    /// The bytes do not hash to the handle.
    HashMismatch,
}

/// One operation byte and one hash.
fn operation_with_hash(operation: u8, key: &RawHash) -> (bytes: Vec<u8>)
    ensures
        bytes@ == seq![operation] + key@,
{
    let mut bytes: Vec<u8> = Vec::new();
    bytes.push(operation);
    bytes.extend_from_slice(key);
    assert(bytes@ =~= seq![operation] + key@);
    bytes
}

/// Ask for an exact blob. Only its locator is disclosed.
pub fn get_blob_request(handle: &RawHash) -> (bytes: Vec<u8>)
    ensures
        bytes@ == seq![OP_GET_BLOB] + locator(handle@),
{
    operation_with_hash(OP_GET_BLOB, &blob_locator(*handle))
}

/// Ask a directory node to install or renew a provider key.
pub fn provider_put_request(key: &RawHash, token: &RawHash) -> (bytes: Vec<u8>)
    ensures
        bytes@ == seq![OP_PROVIDER_PUT] + key@ + token@,
{
    let mut bytes = operation_with_hash(OP_PROVIDER_PUT, key);
    bytes.extend_from_slice(token);
    assert(bytes@ =~= seq![OP_PROVIDER_PUT] + key@ + token@);
    bytes
}

/// Ask a directory node for the providers of a key.
pub fn provider_get_request(key: &RawHash) -> (bytes: Vec<u8>)
    ensures
        bytes@ == seq![OP_PROVIDER_GET] + key@,
{
    operation_with_hash(OP_PROVIDER_GET, key)
}

/// Ask a node for routes to a target.
pub fn find_node_request(target: &RawHash) -> (bytes: Vec<u8>)
    ensures
        bytes@ == seq![OP_FIND_NODE] + target@,
{
    operation_with_hash(OP_FIND_NODE, target)
}

/// What a complete answer to a provider put says: whether the lease was stored.
pub open spec fn provider_put_answer(bytes: Seq<u8>) -> Result<bool, ProtocolError> {
    if bytes.len() == 0 {
        Err(ProtocolError::UnexpectedEnd)
    } else if bytes[0] != PROVIDER_PUT_OK && bytes[0] != PROVIDER_PUT_FULL {
        Err(ProtocolError::UnknownResponse(bytes[0]))
    } else if bytes.len() > 1 {
        Err(ProtocolError::TrailingBytes)
    } else {
        Ok(bytes[0] == PROVIDER_PUT_OK)
    }
}

/// Read a complete answer to a provider put.
pub fn recv_provider_put_response(bytes: &[u8]) -> (result: Result<bool, ProtocolError>)
    ensures
        result == provider_put_answer(bytes@),
{
    if bytes.len() == 0 {
        return Err(ProtocolError::UnexpectedEnd);
    }
    let status: u8 = bytes[0];
    if status != PROVIDER_PUT_OK && status != PROVIDER_PUT_FULL {
        return Err(ProtocolError::UnknownResponse(status));
    }
    if bytes.len() > 1 {
        return Err(ProtocolError::TrailingBytes);
    }
    Ok(status == PROVIDER_PUT_OK)
}

/// Whether a list of records of `width` bytes behind a count byte is complete,
/// within the limit, and nothing follows it.
pub open spec fn list_error(bytes: Seq<u8>, width: nat, limit: nat) -> Option<ProtocolError> {
    if bytes.len() == 0 {
        Some(ProtocolError::UnexpectedEnd)
    } else if bytes[0] > limit {
        Some(ProtocolError::TooMany { count: bytes[0] as usize, limit: limit as usize })
    } else if bytes.len() < 1 + bytes[0] * width {
        Some(ProtocolError::UnexpectedEnd)
    } else if bytes.len() > 1 + bytes[0] * width {
        Some(ProtocolError::TrailingBytes)
    } else {
        None
    }
}

fn check_list(bytes: &[u8], width: usize, limit: usize) -> (result: Result<usize, ProtocolError>)
    requires
        width <= 64,
    ensures
        match result {
            Ok(count) => list_error(bytes@, width as nat, limit as nat) is None && count
                == bytes@[0] && bytes@.len() == 1 + count * width,
            Err(error) => list_error(bytes@, width as nat, limit as nat) == Some(error),
        },
{
    if bytes.len() == 0 {
        return Err(ProtocolError::UnexpectedEnd);
    }
    let count: usize = bytes[0] as usize;
    if count > limit {
        return Err(ProtocolError::TooMany { count, limit });
    }
    assert(0 <= count * width <= 255 * 64) by (nonlinear_arith)
        requires
            0 <= count <= 255,
            0 <= width <= 64,
    ;
    let length: usize = 1 + count * width;
    if bytes.len() < length {
        return Err(ProtocolError::UnexpectedEnd);
    }
    if bytes.len() > length {
        return Err(ProtocolError::TrailingBytes);
    }
    Ok(count)
}

fn hash_at(bytes: &[u8], at: usize) -> (hash: RawHash)
    requires
        at + 32 <= bytes@.len(),
    ensures
        hash@ == bytes@.subrange(at as int, at + 32),
{
    let length: usize = bytes.len();
    let mut hash: RawHash = [0; 32];
    let mut i: usize = 0;
    while i < 32
        invariant
            i <= 32,
            at + 32 <= length == bytes@.len(),
            forall|j: int| 0 <= j < i ==> #[trigger] hash@[j] == bytes@[at + j],
        decreases 32 - i,
    {
        hash[i] = bytes[at + i];
        i = i + 1;
    }
    assert(hash@ =~= bytes@.subrange(at as int, at + 32));
    hash
}

/// Whether `peers` are the peers that a well-formed list writes down.
pub open spec fn lists_peers(bytes: Seq<u8>, peers: Seq<PeerId>) -> bool {
    &&& peers.len() == bytes[0]
    &&& forall|i: int|
        0 <= i < peers.len() ==> (#[trigger] peers[i])@ == bytes.subrange(
            1 + 32 * i,
            1 + 32 * i + 32,
        )
}

/// Read a complete list of at most `K` routes.
pub fn recv_find_node_response(bytes: &[u8]) -> (result: Result<Vec<PeerId>, ProtocolError>)
    ensures
        match result {
            Ok(peers) => list_error(bytes@, 32, K as nat) is None && lists_peers(bytes@, peers@),
            Err(error) => list_error(bytes@, 32, K as nat) == Some(error),
        },
{
    let count: usize = match check_list(bytes, 32, K) {
        Ok(count) => count,
        Err(error) => {
            return Err(error);
        },
    };
    let mut peers: Vec<PeerId> = Vec::new();
    let mut i: usize = 0;
    while i < count
        invariant
            i <= count <= 255,
            bytes@.len() == 1 + count * 32,
            peers@.len() == i,
            forall|j: int|
                0 <= j < i ==> (#[trigger] peers@[j])@ == bytes@.subrange(
                    1 + 32 * j,
                    1 + 32 * j + 32,
                ),
        decreases count - i,
    {
        peers.push(hash_at(bytes, 1 + 32 * i));
        i = i + 1;
    }
    Ok(peers)
}

/// Whether `providers` are the providers and tokens that a well-formed list
/// writes down.
pub open spec fn lists_providers(bytes: Seq<u8>, providers: Seq<(PeerId, RawHash)>) -> bool {
    &&& providers.len() == bytes[0]
    &&& forall|i: int|
        0 <= i < providers.len() ==> (#[trigger] providers[i]).0@ == bytes.subrange(
            1 + 64 * i,
            1 + 64 * i + 32,
        ) && providers[i].1@ == bytes.subrange(1 + 64 * i + 32, 1 + 64 * i + 64)
}

/// Read a complete list of provider hints.
pub fn recv_provider_get_response(bytes: &[u8]) -> (result: Result<
    Vec<(PeerId, RawHash)>,
    ProtocolError,
>)
    ensures
        match result {
            Ok(providers) => list_error(bytes@, 64, MAX_PROVIDERS_PER_KEY as nat) is None
                && lists_providers(bytes@, providers@),
            Err(error) => list_error(bytes@, 64, MAX_PROVIDERS_PER_KEY as nat) == Some(error),
        },
{
    let count: usize = match check_list(bytes, 64, MAX_PROVIDERS_PER_KEY) {
        Ok(count) => count,
        Err(error) => {
            return Err(error);
        },
    };
    let mut providers: Vec<(PeerId, RawHash)> = Vec::new();
    let mut i: usize = 0;
    while i < count
        invariant
            i <= count <= 255,
            bytes@.len() == 1 + count * 64,
            providers@.len() == i,
            forall|j: int|
                0 <= j < i ==> (#[trigger] providers@[j]).0@ == bytes@.subrange(
                    1 + 64 * j,
                    1 + 64 * j + 32,
                ) && providers@[j].1@ == bytes@.subrange(1 + 64 * j + 32, 1 + 64 * j + 64),
        decreases count - i,
    {
        let provider = hash_at(bytes, 1 + 64 * i);
        let token = hash_at(bytes, 1 + 64 * i + 32);
        providers.push((provider, token));
        i = i + 1;
    }
    Ok(providers)
}

/// A blob on the wire: its length and its bytes; or the greatest number where
/// there is none.
pub open spec fn blob_bytes(body: Option<Seq<u8>>) -> Seq<u8> {
    match body {
        Some(body) => be_bytes(body.len(), 8) + body,
        None => be_bytes(u64::MAX as nat, 8),
    }
}

/// What stands before a body of the given length, or in place of a body.
pub fn blob_header(length: Option<usize>) -> (header: [u8; 8])
    ensures
        header@ == match length {
            Some(length) => be_bytes(length as nat, 8),
            None => be_bytes(u64::MAX as nat, 8),
        },
{
    match length {
        Some(length) => u64_bytes(length as u64),
        None => u64_bytes(u64::MAX),
    }
}

/// Write a blob, or that there is none.
pub fn send_blob_response(body: Option<&[u8]>) -> (bytes: Vec<u8>)
    ensures
        bytes@ == blob_bytes(
            match body {
                Some(body) => Some(body@),
                None => None,
            },
        ),
{
    let mut bytes: Vec<u8> = Vec::new();
    match body {
        Some(body) => {
            bytes.extend_from_slice(&blob_header(Some(body.len())));
            bytes.extend_from_slice(body);
            assert(bytes@ =~= be_bytes(body@.len(), 8) + body@);
        },
        None => {
            bytes.extend_from_slice(&blob_header(None));
            assert(bytes@ =~= be_bytes(u64::MAX as nat, 8));
        },
    }
    bytes
}

/// What the number before a body says of its length: nothing where there is no
/// blob.
pub open spec fn announced(number: nat) -> Result<Option<u64>, ProtocolError> {
    if number == u64::MAX {
        Ok(None)
    } else if number > MAX_EXACT_BLOB_BYTES {
        Err(ProtocolError::TooLarge)
    } else {
        Ok(Some(number as u64))
    }
}

/// What a blob answer says of the length of its body: nothing where there is no
/// blob.
pub fn blob_length(header: &[u8; 8]) -> (result: Result<Option<u64>, ProtocolError>)
    ensures
        result == announced(big_endian(header@)),
{
    let length: u64 = read_be(header);
    if length == u64::MAX {
        Ok(None)
    } else if length > MAX_EXACT_BLOB_BYTES {
        Err(ProtocolError::TooLarge)
    } else {
        Ok(Some(length))
    }
}

/// What a complete blob answer says.
pub open spec fn blob_answer(bytes: Seq<u8>) -> Result<Option<Seq<u8>>, ProtocolError> {
    if bytes.len() < 8 {
        Err(ProtocolError::UnexpectedEnd)
    } else {
        let length = big_endian(bytes.take(8));
        if length == u64::MAX {
            Ok(None)
        } else if length > MAX_EXACT_BLOB_BYTES {
            Err(ProtocolError::TooLarge)
        } else if bytes.len() < 8 + length {
            Err(ProtocolError::UnexpectedEnd)
        } else if bytes.len() > 8 + length {
            Err(ProtocolError::TrailingBytes)
        } else {
            Ok(Some(bytes.skip(8)))
        }
    }
}

/// Read a complete blob answer that is in memory.
pub fn recv_blob_response(bytes: &[u8]) -> (result: Result<Option<Vec<u8>>, ProtocolError>)
    ensures
        match (result, blob_answer(bytes@)) {
            (Ok(Some(body)), Ok(Some(wanted))) => body@ == wanted,
            (Ok(None), Ok(None)) => true,
            (Err(error), Err(wanted)) => error == wanted,
            _ => false,
        },
{
    let count: usize = bytes.len();
    if count < 8 {
        return Err(ProtocolError::UnexpectedEnd);
    }
    let header: [u8; 8] = [
        bytes[0],
        bytes[1],
        bytes[2],
        bytes[3],
        bytes[4],
        bytes[5],
        bytes[6],
        bytes[7],
    ];
    assert(header@ =~= bytes@.take(8));
    let length: u64 = match blob_length(&header) {
        Ok(Some(length)) => length,
        Ok(None) => {
            return Ok(None);
        },
        Err(error) => {
            return Err(error);
        },
    };
    let available: u64 = (count - 8) as u64;
    if available < length {
        return Err(ProtocolError::UnexpectedEnd);
    }
    if available > length {
        return Err(ProtocolError::TrailingBytes);
    }
    let mut body: Vec<u8> = Vec::new();
    let mut i: usize = 8;
    while i < count
        invariant
            8 <= i <= count == bytes@.len(),
            body@ == bytes@.subrange(8, i as int),
        decreases count - i,
    {
        body.push(bytes[i]);
        i = i + 1;
        assert(bytes@.subrange(8, i as int) =~= bytes@.subrange(8, i - 1).push(bytes@[i - 1]));
    }
    assert(body@ =~= bytes@.skip(8));
    Ok(Some(body))
}

/// Reading a blob answer gives back what was written, as far as it may be
/// transferred.
pub proof fn law_blob_response_roundtrip(body: Option<Seq<u8>>)
    requires
        body matches Some(body) ==> body.len() <= MAX_EXACT_BLOB_BYTES,
    ensures
        blob_answer(blob_bytes(body)) == Ok::<Option<Seq<u8>>, ProtocolError>(body),
{
    lemma_eight_bytes();
    match body {
        Some(body) => {
            let bytes = blob_bytes(Some(body));
            lemma_be_bytes(body.len(), 8);
            assert(bytes.take(8) =~= be_bytes(body.len(), 8));
            assert(bytes.skip(8) =~= body);
        },
        None => {
            let bytes = blob_bytes(None);
            lemma_be_bytes(u64::MAX as nat, 8);
            assert(bytes.take(8) =~= bytes);
        },
    }
}

} // verus!
