use triblespace_net::bearer::{proof_matches, provider_proof, requester_proof};
use triblespace_net::exchange::{
    ChunkPolls, ClientStage, ExactBlobReceive, ExactBlobReceiveResourceError, ExactBlobStorage,
    GetBlobClient, GetBlobServer, PollStep, ReceiveError, ServerStage,
};
use triblespace_net::protocol::{
    blob_header, find_node_request, get_blob_request, provider_get_request, provider_put_request,
    recv_blob_response, recv_find_node_response, recv_provider_get_response,
    recv_provider_put_response, send_blob_response, ProtocolError, BLOB_PROVIDER_PROOF,
    BLOB_UNAVAILABLE, EXACT_BLOB_CHUNK_BYTES, EXACT_BLOB_POLLS_PER_CHUNK, K,
    MAX_EXACT_BLOB_BYTES, MAX_EXACT_BLOB_RECEIVERS, MAX_EXACT_BLOB_STORAGE_UNITS, OP_FIND_NODE,
    OP_GET_BLOB, OP_PROVIDER_GET, OP_PROVIDER_PUT, PILE_SYNC_ALPN,
};
use triblespace_net::provider::blob_locator;

/// A reader that is polled: what it appended, or that it has nothing at once.
trait Reader {
    fn poll_read(&mut self, buffer: &mut Vec<u8>, capacity: usize) -> bool;
}

impl Reader for &[u8] {
    fn poll_read(&mut self, buffer: &mut Vec<u8>, capacity: usize) -> bool {
        let take = self.len().min(capacity - buffer.len());
        buffer.extend_from_slice(&self[..take]);
        *self = &self[take..];
        true
    }
}

struct Fragmented<'a> {
    bytes: &'a [u8],
    fragment: usize,
    stall: bool,
    pause: bool,
}

impl Reader for Fragmented<'_> {
    fn poll_read(&mut self, buffer: &mut Vec<u8>, capacity: usize) -> bool {
        if self.bytes.is_empty() && self.stall {
            return false;
        }
        if self.pause {
            self.pause = false;
            return false;
        }
        let take = self
            .bytes
            .len()
            .min(capacity - buffer.len())
            .min(self.fragment);
        buffer.extend_from_slice(&self.bytes[..take]);
        self.bytes = &self.bytes[take..];
        self.pause = true;
        true
    }
}

/// What all receives of a process share.
struct Budgets {
    units: usize,
    free_slots: usize,
}

impl Budgets {
    fn new() -> Self {
        Budgets {
            units: 0,
            free_slots: MAX_EXACT_BLOB_RECEIVERS,
        }
    }
}

#[derive(Debug, PartialEq)]
enum Turn {
    Waiting,
    Yielded,
    Complete,
}

/// One body in flight: it gives back what it holds when it fails or is dropped.
#[derive(Debug)]
struct Body {
    receive: Option<ExactBlobReceive>,
    bytes: Vec<u8>,
}

impl Body {
    fn begin(budgets: &mut Budgets, length: usize) -> Result<Body, ReceiveError> {
        let receive = ExactBlobReceive::begin(length, budgets.free_slots)?;
        if receive.is_some() {
            budgets.free_slots -= 1;
        }
        Ok(Body {
            receive,
            bytes: Vec::new(),
        })
    }

    fn close(&mut self, budgets: &mut Budgets) {
        if let Some(receive) = self.receive.take() {
            receive.storage.release(&mut budgets.units);
            budgets.free_slots += 1;
        }
    }

    fn turn<R: Reader>(
        &mut self,
        budgets: &mut Budgets,
        reader: &mut R,
    ) -> Result<Turn, ReceiveError> {
        let result = self.poll(budgets, reader);
        if result.is_err() {
            self.close(budgets);
        }
        result
    }

    fn poll<R: Reader>(
        &mut self,
        budgets: &mut Budgets,
        reader: &mut R,
    ) -> Result<Turn, ReceiveError> {
        let receive = match &mut self.receive {
            Some(receive) => receive,
            None => return Ok(Turn::Complete),
        };
        let mut polls = ChunkPolls::new(receive.remaining);
        let mut buffer = Vec::new();
        loop {
            let step = if reader.poll_read(&mut buffer, polls.capacity) {
                polls.ready(buffer.len())?
            } else {
                polls.pending(buffer.len())?
            };
            match step {
                PollStep::PollAgain => {}
                PollStep::Wait => return Ok(Turn::Waiting),
                PollStep::ChunkReady => break,
            }
        }
        let complete = receive.take_chunk(&mut budgets.units, buffer.len())?;
        self.bytes.extend_from_slice(&buffer);
        Ok(if complete {
            Turn::Complete
        } else {
            Turn::Yielded
        })
    }

    fn run<R: Reader>(
        budgets: &mut Budgets,
        reader: &mut R,
        length: usize,
    ) -> Result<Body, ReceiveError> {
        let mut body = Body::begin(budgets, length)?;
        while body.turn(budgets, reader)? != Turn::Complete {}
        Ok(body)
    }
}

#[test]
fn premature_eof_after_a_ready_prefix_is_not_polled_again() {
    struct PrefixThenEof(usize);
    impl Reader for PrefixThenEof {
        fn poll_read(&mut self, buffer: &mut Vec<u8>, _capacity: usize) -> bool {
            self.0 += 1;
            match self.0 {
                1 => buffer.extend_from_slice(b"ab"),
                2 => {}
                _ => panic!("body reader was polled after premature EOF"),
            }
            true
        }
    }
    let mut budgets = Budgets::new();
    let mut reader = PrefixThenEof(0);
    let error = Body::run(&mut budgets, &mut reader, 4).unwrap_err();
    assert!(error.message().contains("unexpected end of file"));
    assert_eq!(reader.0, 2);
    assert_eq!(budgets.units, 0);
    assert_eq!(budgets.free_slots, MAX_EXACT_BLOB_RECEIVERS);
}

#[test]
fn immediately_ready_fragments_yield_at_the_poll_budget() {
    struct ReadyBytes(usize);
    impl Reader for ReadyBytes {
        fn poll_read(&mut self, buffer: &mut Vec<u8>, _capacity: usize) -> bool {
            self.0 += 1;
            buffer.push(b'x');
            true
        }
    }
    let mut budgets = Budgets::new();
    let mut reader = ReadyBytes(0);
    let len = 2 * EXACT_BLOB_POLLS_PER_CHUNK + 1;
    let mut body = Body::begin(&mut budgets, len).unwrap();
    assert_eq!(body.turn(&mut budgets, &mut reader), Ok(Turn::Yielded));
    assert_eq!(reader.0, EXACT_BLOB_POLLS_PER_CHUNK);
    assert_eq!(body.turn(&mut budgets, &mut reader), Ok(Turn::Yielded));
    assert_eq!(reader.0, 2 * EXACT_BLOB_POLLS_PER_CHUNK);
    assert_eq!(body.turn(&mut budgets, &mut reader), Ok(Turn::Complete));
    assert_eq!(body.bytes, vec![b'x'; len]);
    assert_eq!(reader.0, len);
    body.close(&mut budgets);
    assert_eq!(budgets.units, 0);
}

#[test]
fn storage_saturation_releases_an_already_staged_prefix() {
    let mut budgets = Budgets::new();
    // Reserve accounting only, leaving room for precisely one real chunk.
    let mut occupied = ExactBlobStorage::new();
    occupied
        .grow(
            &mut budgets.units,
            (MAX_EXACT_BLOB_STORAGE_UNITS - 1) * EXACT_BLOB_CHUNK_BYTES,
        )
        .unwrap();
    let input = vec![b'x'; EXACT_BLOB_CHUNK_BYTES + 1];
    let mut reader = input.as_slice();
    let mut body = Body::begin(&mut budgets, input.len()).unwrap();
    assert_eq!(body.turn(&mut budgets, &mut reader), Ok(Turn::Yielded));
    assert_eq!(budgets.units, MAX_EXACT_BLOB_STORAGE_UNITS);
    assert_eq!(
        body.turn(&mut budgets, &mut reader),
        Err(ReceiveError::Resource(
            ExactBlobReceiveResourceError::TemporaryStorageExhausted
        ))
    );
    assert_eq!(budgets.units, MAX_EXACT_BLOB_STORAGE_UNITS - 1);
    occupied.release(&mut budgets.units);
    assert_eq!(budgets.units, 0);
    assert_eq!(budgets.free_slots, MAX_EXACT_BLOB_RECEIVERS);
}

#[test]
fn invalid_pending_reader_is_rejected_without_losing_resource_credit() {
    struct InvalidPendingReader;
    impl Reader for InvalidPendingReader {
        fn poll_read(&mut self, buffer: &mut Vec<u8>, _capacity: usize) -> bool {
            buffer.push(b'x');
            false
        }
    }
    let mut budgets = Budgets::new();
    let error = Body::run(&mut budgets, &mut InvalidPendingReader, 1).unwrap_err();
    assert!(error.message().contains("Pending after consuming bytes"));
    assert_eq!(budgets.units, 0);
    assert_eq!(budgets.free_slots, MAX_EXACT_BLOB_RECEIVERS);
}

#[test]
fn idle_and_partial_bodies_do_not_block_a_ready_body() {
    let mut budgets = Budgets::new();
    for prefix in [b"".as_slice(), b"partial".as_slice()] {
        let mut reader = Fragmented {
            bytes: prefix,
            fragment: EXACT_BLOB_CHUNK_BYTES,
            stall: true,
            pause: false,
        };
        let mut slow = Body::begin(&mut budgets, 1 << 30).unwrap();
        let first = slow.turn(&mut budgets, &mut reader).unwrap();
        assert_eq!(
            first,
            if prefix.is_empty() {
                Turn::Waiting
            } else {
                Turn::Yielded
            }
        );
        assert_eq!(slow.turn(&mut budgets, &mut reader), Ok(Turn::Waiting));
        assert_eq!(budgets.units, usize::from(!prefix.is_empty()));
        let mut ready = Body::run(&mut budgets, &mut b"ready".as_slice(), 5).unwrap();
        assert_eq!(ready.bytes, b"ready");
        ready.close(&mut budgets);
        slow.close(&mut budgets);
        assert_eq!(budgets.units, 0, "cancellation returns partial-file credit");
        assert_eq!(budgets.free_slots, MAX_EXACT_BLOB_RECEIVERS);
    }
}

#[test]
fn fragmented_body_preserves_partial_reads_across_pending() {
    let mut budgets = Budgets::new();
    for (len, fragment) in [(4099, 7), (EXACT_BLOB_CHUNK_BYTES + 17, 16384)] {
        let input: Vec<_> = (0..len).map(|index| (index % 251) as u8).collect();
        let mut reader = Fragmented {
            bytes: &input,
            fragment,
            stall: false,
            pause: false,
        };
        let mut body = Body::run(&mut budgets, &mut reader, len).unwrap();
        assert_eq!(body.bytes, input);
        assert_eq!(budgets.units, len.div_ceil(EXACT_BLOB_CHUNK_BYTES));
        body.close(&mut budgets);
        assert_eq!(budgets.units, 0);
    }
}

#[test]
fn retained_slices_keep_storage_credit_and_saturation_fails_without_waiting() {
    let mut budgets = Budgets::new();
    let mut occupied = ExactBlobStorage::new();
    occupied
        .grow(
            &mut budgets.units,
            (MAX_EXACT_BLOB_STORAGE_UNITS - 1) * EXACT_BLOB_CHUNK_BYTES,
        )
        .unwrap();
    let mut retained = Body::run(&mut budgets, &mut b"ready".as_slice(), 5).unwrap();
    assert_eq!(budgets.units, MAX_EXACT_BLOB_STORAGE_UNITS);
    assert_eq!(
        Body::run(&mut budgets, &mut b"x".as_slice(), 1).unwrap_err(),
        ReceiveError::Resource(ExactBlobReceiveResourceError::TemporaryStorageExhausted)
    );
    assert_eq!(&retained.bytes[1..3], b"ea");
    retained.close(&mut budgets);
    assert_eq!(budgets.units, MAX_EXACT_BLOB_STORAGE_UNITS - 1);
    occupied.release(&mut budgets.units);
    assert_eq!(budgets.units, 0);
    assert_eq!(budgets.free_slots, MAX_EXACT_BLOB_RECEIVERS);
}

#[test]
fn idle_body_admission_is_bounded_and_cancellation_reopens_it() {
    let mut budgets = Budgets::new();
    let mut bodies = Vec::new();
    for _ in 0..MAX_EXACT_BLOB_RECEIVERS {
        let mut reader = Fragmented {
            bytes: b"",
            fragment: 1,
            stall: true,
            pause: false,
        };
        let mut body = Body::begin(&mut budgets, 1).unwrap();
        assert_eq!(body.turn(&mut budgets, &mut reader), Ok(Turn::Waiting));
        bodies.push(body);
    }
    assert_eq!(budgets.units, 0, "an announcement alone reserves no disk");
    assert_eq!(budgets.free_slots, 0);
    let error = Body::run(&mut budgets, &mut b"x".as_slice(), 1).unwrap_err();
    assert_eq!(
        error,
        ReceiveError::Resource(ExactBlobReceiveResourceError::BodySlotsExhausted)
    );
    assert_eq!(
        error.message(),
        "local exact-blob receive capacity exhausted"
    );
    for mut body in bodies {
        body.close(&mut budgets);
    }
    let mut body = Body::run(&mut budgets, &mut b"x".as_slice(), 1).unwrap();
    assert_eq!(body.bytes, b"x");
    body.close(&mut budgets);
    assert_eq!(budgets.units, 0);
    assert_eq!(budgets.free_slots, MAX_EXACT_BLOB_RECEIVERS);
}

#[test]
fn failed_body_and_trailing_response_release_storage() {
    let mut budgets = Budgets::new();
    assert!(Body::run(&mut budgets, &mut b"short".as_slice(), 9).is_err());
    assert_eq!(budgets.units, 0);
    let mut response = 5_u64.to_be_bytes().to_vec();
    response.extend_from_slice(b"short!");
    assert_eq!(
        recv_blob_response(&response),
        Err(ProtocolError::TrailingBytes)
    );
    assert_eq!(budgets.free_slots, MAX_EXACT_BLOB_RECEIVERS);
    let empty = Body::run(&mut budgets, &mut b"".as_slice(), 0).unwrap();
    assert_eq!(empty.bytes.len(), 0);
    assert_eq!(budgets.units, 0);
}

#[test]
fn a_body_beyond_the_ceiling_is_refused() {
    assert_eq!(
        ExactBlobReceive::begin(MAX_EXACT_BLOB_BYTES as usize + 1, 1),
        Err(ReceiveError::TooLarge)
    );
    assert_eq!(
        ReceiveError::TooLarge.message(),
        "blob response exceeds the 68719476736-byte transport bound"
    );
    let receive = ExactBlobReceive::begin(MAX_EXACT_BLOB_BYTES as usize, 1)
        .unwrap()
        .unwrap();
    assert_eq!(receive.remaining, 1 << 36);
}

fn handle(bytes: &[u8]) -> [u8; 32] {
    *blake3::hash(bytes).as_bytes()
}

/// What the server sends for a locator.
fn serve_locator(server: &mut GetBlobServer, request: &[u8], resident: [u8; 32]) -> Vec<u8> {
    assert_eq!(request[0], OP_GET_BLOB);
    let known = request[1..] == blob_locator(resident);
    server.resolve(if known { Some(resident) } else { None })
}

fn hash_of(bytes: &[u8]) -> [u8; 32] {
    let mut hash = [0; 32];
    hash.copy_from_slice(bytes);
    hash
}

#[test]
fn exact_get_mutual_proof_succeeds_without_a_collection() {
    let requester = [7; 32];
    let provider = [8; 32];
    let content = b"bearer capability";
    let content_handle = handle(content);
    let mut server = GetBlobServer::open(requester, provider);
    let (mut client, request) = GetBlobClient::open(content_handle, requester, provider);
    let reply = serve_locator(&mut server, &request, content_handle);
    assert_eq!(client.status(reply[0]), Ok(true));
    let answer = client.confirm(&hash_of(&reply[1..])).unwrap();
    let found = server.confirm(&answer, false).unwrap();
    assert_eq!(found, content_handle);
    let body = recv_blob_response(&send_blob_response(Some(content))).unwrap();
    assert_eq!(client.accept(body.as_deref()), Ok(true));
    assert_eq!(body.unwrap(), content);
    assert_eq!(client.stage, ClientStage::Done);
    assert_eq!(server.stage, ServerStage::Done);
}

#[test]
fn fake_locator_advertiser_learns_no_handle_or_requester_proof() {
    let requester = [11; 32];
    let provider = [12; 32];
    let content_handle = handle(b"secret bytes");
    let (mut client, request) = GetBlobClient::open(content_handle, requester, provider);
    let observed = hash_of(&request[1..]);
    assert_eq!(client.status(BLOB_PROVIDER_PROOF), Ok(true));
    let disclosed = client.confirm(&[0; 32]);
    assert_eq!(disclosed, Err(ProtocolError::ProviderProof));
    assert_eq!(client.stage, ClientStage::Done);
    assert_eq!(observed, blob_locator(content_handle));
    assert_ne!(observed, content_handle);
}

#[test]
fn bad_requester_proof_reveals_no_blob_bytes() {
    let requester = [17; 32];
    let provider = [18; 32];
    let content_handle = handle(b"provider-held secret");
    let mut server = GetBlobServer::open(requester, provider);
    let reply = serve_locator(&mut server, &get_blob_request(&content_handle), content_handle);
    assert_eq!(reply[0], BLOB_PROVIDER_PROOF);
    assert!(proof_matches(
        &hash_of(&reply[1..]),
        &provider_proof(&content_handle, &requester, &provider)
    ));
    assert_eq!(
        server.confirm(&[0; 32], false),
        Err(ProtocolError::RequesterProof)
    );
    assert_eq!(server.stage, ServerStage::Done);
}

#[test]
fn bytes_behind_the_requester_proof_are_refused() {
    let requester = [17; 32];
    let provider = [18; 32];
    let content_handle = handle(b"provider-held secret");
    let mut server = GetBlobServer::open(requester, provider);
    server.resolve(Some(content_handle));
    let shown = requester_proof(&content_handle, &requester, &provider);
    assert_eq!(
        server.confirm(&shown, true),
        Err(ProtocolError::TrailingBytes)
    );
}

#[test]
fn exact_get_with_wrong_handle_is_unavailable() {
    let requester = [13; 32];
    let provider = [14; 32];
    let actual = handle(b"resident");
    let requested = handle(b"not resident");
    let mut server = GetBlobServer::open(requester, provider);
    let (mut client, request) = GetBlobClient::open(requested, requester, provider);
    let reply = serve_locator(&mut server, &request, actual);
    assert_eq!(reply, vec![BLOB_UNAVAILABLE]);
    assert_eq!(server.stage, ServerStage::Done);
    assert_eq!(client.status(reply[0]), Ok(false));
    assert_eq!(client.end(false), Ok(()));
}

#[test]
fn an_unavailable_answer_has_to_end() {
    let (mut client, _) = GetBlobClient::open([1; 32], [2; 32], [3; 32]);
    assert_eq!(client.status(BLOB_UNAVAILABLE), Ok(false));
    assert_eq!(client.end(true), Err(ProtocolError::TrailingBytes));
    let (mut client, _) = GetBlobClient::open([1; 32], [2; 32], [3; 32]);
    assert_eq!(client.status(9), Err(ProtocolError::UnknownResponse(9)));
    assert_eq!(client.stage, ClientStage::Done);
}

#[test]
fn exact_get_rejects_bytes_that_do_not_hash_to_the_handle() {
    let requester = [15; 32];
    let provider = [16; 32];
    let expected = handle(b"expected");
    let mut server = GetBlobServer::open(requester, provider);
    let (mut client, request) = GetBlobClient::open(expected, requester, provider);
    let reply = serve_locator(&mut server, &request, expected);
    assert_eq!(client.status(reply[0]), Ok(true));
    let answer = client.confirm(&hash_of(&reply[1..])).unwrap();
    assert!(server.confirm(&answer, false).is_ok());
    let body = recv_blob_response(&send_blob_response(Some(b"wrong bytes"))).unwrap();
    assert_eq!(client.accept(body.as_deref()), Err(ProtocolError::HashMismatch));
}

#[test]
fn a_blob_that_was_lost_after_the_proof_is_no_error() {
    let (mut client, _) = GetBlobClient::open([1; 32], [2; 32], [3; 32]);
    client.status(BLOB_PROVIDER_PROOF).unwrap();
    client
        .confirm(&provider_proof(&[1; 32], &[2; 32], &[3; 32]))
        .unwrap();
    let body = recv_blob_response(&send_blob_response(None)).unwrap();
    assert_eq!(client.accept(body.as_deref()), Ok(false));
}

#[test]
fn proofs_are_bound_to_the_handle_the_endpoints_and_the_role() {
    let shown = provider_proof(&[1; 32], &[2; 32], &[3; 32]);
    assert_ne!(shown, provider_proof(&[4; 32], &[2; 32], &[3; 32]));
    assert_ne!(shown, provider_proof(&[1; 32], &[4; 32], &[3; 32]));
    assert_ne!(shown, provider_proof(&[1; 32], &[2; 32], &[4; 32]));
    assert_ne!(shown, requester_proof(&[1; 32], &[2; 32], &[3; 32]));
}

#[test]
fn find_node_enforces_count_and_exact_eof() {
    let oversized = [u8::try_from(K + 1).unwrap()];
    assert_eq!(
        recv_find_node_response(&oversized),
        Err(ProtocolError::TooMany {
            count: K + 1,
            limit: K
        })
    );
    assert_eq!(
        recv_find_node_response(&[0, 1]),
        Err(ProtocolError::TrailingBytes)
    );
    let mut two = vec![2];
    two.extend_from_slice(&[5; 32]);
    assert_eq!(
        recv_find_node_response(&two),
        Err(ProtocolError::UnexpectedEnd)
    );
    two.extend_from_slice(&[6; 32]);
    assert_eq!(recv_find_node_response(&two), Ok(vec![[5; 32], [6; 32]]));
}

#[test]
fn exact_get_accepts_empty_content_and_rejects_trailing_bytes() {
    assert_eq!(recv_blob_response(&[0; 8]), Ok(Some(Vec::new())));
    let mut trailing = [0; 9];
    trailing[8] = 1;
    assert_eq!(
        recv_blob_response(&trailing),
        Err(ProtocolError::TrailingBytes)
    );
}

#[test]
fn blob_answers_roundtrip() {
    let wire = send_blob_response(Some(b"abc"));
    assert_eq!(wire, b"\0\0\0\0\0\0\0\x03abc");
    assert_eq!(recv_blob_response(&wire), Ok(Some(b"abc".to_vec())));
    assert_eq!(wire[..8], blob_header(Some(3)));
    assert_eq!(blob_header(None), [255; 8]);
    let none = send_blob_response(None);
    assert_eq!(none, vec![255; 8]);
    assert_eq!(recv_blob_response(&none), Ok(None));
    assert_eq!(
        recv_blob_response(&wire[..10]),
        Err(ProtocolError::UnexpectedEnd)
    );
    assert_eq!(
        recv_blob_response(&(MAX_EXACT_BLOB_BYTES + 1).to_be_bytes()),
        Err(ProtocolError::TooLarge)
    );
}

#[test]
fn requests_are_an_operation_and_hashes() {
    let key = [1; 32];
    let token = [2; 32];
    assert_eq!(get_blob_request(&key)[0], OP_GET_BLOB);
    assert_eq!(get_blob_request(&key)[1..], blob_locator(key));
    let put = provider_put_request(&key, &token);
    assert_eq!(put.len(), 65);
    assert_eq!(put[0], OP_PROVIDER_PUT);
    assert_eq!(put[1..33], key);
    assert_eq!(put[33..], token);
    assert_eq!(provider_get_request(&key)[0], OP_PROVIDER_GET);
    assert_eq!(find_node_request(&key)[0], OP_FIND_NODE);
    assert_eq!(PILE_SYNC_ALPN, "/triblespace/pile-sync/26");
}

#[test]
fn provider_answers_are_read_whole() {
    assert_eq!(recv_provider_put_response(&[0]), Ok(true));
    assert_eq!(recv_provider_put_response(&[1]), Ok(false));
    assert_eq!(
        recv_provider_put_response(&[2]),
        Err(ProtocolError::UnknownResponse(2))
    );
    assert_eq!(
        recv_provider_put_response(&[0, 0]),
        Err(ProtocolError::TrailingBytes)
    );
    assert_eq!(
        recv_provider_put_response(&[]),
        Err(ProtocolError::UnexpectedEnd)
    );
    let mut one = vec![1];
    one.extend_from_slice(&[5; 32]);
    one.extend_from_slice(&[6; 32]);
    assert_eq!(
        recv_provider_get_response(&one),
        Ok(vec![([5; 32], [6; 32])])
    );
    assert_eq!(
        recv_provider_get_response(&[65]),
        Err(ProtocolError::TooMany {
            count: 65,
            limit: 64
        })
    );
}
