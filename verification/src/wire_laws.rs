//! What the exchange of blobs, and the messages around it, owe both sides.

use vstd::prelude::*;
use vstd::string::StringSliceAdditionalSpecFns;

use crate::bearer::{
    provider_confirmation, provider_proof_context, requester_confirmation, requester_proof_context,
};
use crate::channel::{has_room, is_sendable, total_weight, NetEvent};
use crate::collection_blob_inventory::RawHash;
use crate::exchange::{
    after_pending, after_ready, client_reply, fits, judged_body, receive_refusal, released,
    server_reply, status_meaning, units_for, PollStep, ReceiveError,
};
use crate::hash::{blake3_derive_key, blake3_hash, blake3_keyed_hash};
use crate::keys::{be_bytes, lemma_be_bytes, lemma_eight_bytes};
use crate::protocol::{
    announced, blob_answer, blob_bytes, list_error, lists_peers, lists_providers,
    provider_put_answer, ProtocolError,
};
use crate::provider::{
    blob_locator_domain, collection_at, collection_key, collection_key_domain, lease_token, locator,
    provider_token_context, publishes, PeerId, ProviderIdentity, ProviderKey,
};

verus! {

/// What is hashed for a confirmation: a role, and both ends.
pub open spec fn confirmation_input(role: Seq<u8>, requester: PeerId, provider: PeerId) -> Seq<u8> {
    role + requester@ + provider@
}

proof fn lemma_text_bytes_differ(a: &str, b: &str)
    requires
        a@ != b@,
    ensures
        a.spec_bytes() != b.spec_bytes(),
{
    vstd::utf8::encode_utf8_decode_utf8(a@);
    vstd::utf8::encode_utf8_decode_utf8(b@);
}

/// A confirmation is keyed by the handle and made over the role and both ends.
/// Another requester, another provider or the other role is another input, so
/// neither side can pass on what it was shown.
pub proof fn law_confirmations_are_bound_to_role_and_ends(
    handle: RawHash,
    requester: PeerId,
    provider: PeerId,
    other_requester: PeerId,
    other_provider: PeerId,
)
    ensures
        provider_confirmation(handle, requester, provider) == blake3_keyed_hash(
            handle@,
            confirmation_input(provider_proof_context(), requester, provider),
        ),
        requester_confirmation(handle, requester, provider) == blake3_keyed_hash(
            handle@,
            confirmation_input(requester_proof_context(), requester, provider),
        ),
        forall|role: Seq<u8>|
            #![trigger confirmation_input(role, requester, provider)]
            confirmation_input(role, requester, provider) == confirmation_input(
                role,
                other_requester,
                other_provider,
            ) ==> requester == other_requester && provider == other_provider,
        confirmation_input(provider_proof_context(), requester, provider) != confirmation_input(
            requester_proof_context(),
            other_requester,
            other_provider,
        ),
{
    assert forall|role: Seq<u8>|
        #![trigger confirmation_input(role, requester, provider)]
        confirmation_input(role, requester, provider) == confirmation_input(
            role,
            other_requester,
            other_provider,
        ) implies requester == other_requester && provider == other_provider by {
        let a = confirmation_input(role, requester, provider);
        let b = confirmation_input(role, other_requester, other_provider);
        let n = role.len() as int;
        assert(a.subrange(n, n + 32) =~= requester@);
        assert(b.subrange(n, n + 32) =~= other_requester@);
        assert(a.subrange(n + 32, n + 64) =~= provider@);
        assert(b.subrange(n + 32, n + 64) =~= other_provider@);
        crate::keys::lemma_same_bytes(requester, other_requester);
        crate::keys::lemma_same_bytes(provider, other_provider);
    }
    let x = provider_proof_context();
    let y = requester_proof_context();
    reveal_strlit("triblespace.net/provider-proof/v1\0");
    reveal_strlit("triblespace.net/requester-proof/v1\0");
    assert("triblespace.net/provider-proof/v1\0"@[16] == 'p');
    assert("triblespace.net/requester-proof/v1\0"@[16] == 'r');
    lemma_text_bytes_differ(
        "triblespace.net/provider-proof/v1\0",
        "triblespace.net/requester-proof/v1\0",
    );
    let a = confirmation_input(x, requester, provider);
    let b = confirmation_input(y, other_requester, other_provider);
    if a == b {
        assert(a.len() == x.len() + 64 && b.len() == y.len() + 64);
        assert(a.take(x.len() as int) =~= x);
        assert(b.take(y.len() as int) =~= y);
    }
}

/// A lease token is keyed by the hidden identity and made over the rendezvous key
/// and the provider: another key or another provider is another input.
pub proof fn law_lease_tokens_are_bound_to_key_and_provider(
    identity: [u8; 32],
    key: ProviderKey,
    provider: PeerId,
    other_key: ProviderKey,
    other_provider: PeerId,
)
    ensures
        lease_token(identity@, key@, provider@) == blake3_keyed_hash(
            identity@,
            provider_token_context() + key@ + provider@,
        ),
        provider_token_context() + key@ + provider@ == provider_token_context() + other_key@
            + other_provider@ ==> key == other_key && provider == other_provider,
{
    let context = provider_token_context();
    let n = context.len() as int;
    let a = context + key@ + provider@;
    let b = context + other_key@ + other_provider@;
    if a == b {
        assert(a.subrange(n, n + 32) =~= key@);
        assert(b.subrange(n, n + 32) =~= other_key@);
        assert(a.subrange(n + 32, n + 64) =~= provider@);
        assert(b.subrange(n + 32, n + 64) =~= other_provider@);
        crate::keys::lemma_same_bytes(key, other_key);
        crate::keys::lemma_same_bytes(provider, other_provider);
    }
}

/// Blobs and collections become rendezvous keys in domains of their own, by their
/// handles alone.
pub proof fn law_rendezvous_domains_are_apart(handle: Seq<u8>)
    ensures
        locator(handle) == blake3_derive_key("triblespace.net/blob-locator/v1"@, handle),
        collection_key(handle) == blake3_derive_key(
            "triblespace.net/collection-provider-key/v1"@,
            handle,
        ),
        blob_locator_domain() != collection_key_domain(),
{
    reveal_strlit("triblespace.net/blob-locator/v1");
    reveal_strlit("triblespace.net/collection-provider-key/v1");
    assert(blob_locator_domain().len() != collection_key_domain().len());
}

/// What is published is every resident locator, and every served collection under
/// its rendezvous key, and nothing else.
pub proof fn law_everything_served_is_published(
    locators: Map<ProviderKey, ProviderIdentity>,
    collections: Seq<[u8; 32]>,
    set: Map<ProviderKey, ProviderIdentity>,
    key: ProviderKey,
)
    requires
        publishes(locators, collections, set),
    ensures
        set.contains_key(key) <==> locators.contains_key(key) || exists|i: int|
            0 <= i < collections.len() && collection_key((#[trigger] collections[i])@) == key@,
        set.contains_key(key) ==> (locators.contains_key(key) && set[key] == locators[key])
            || exists|i: int|
            0 <= i < collections.len() && collection_key((#[trigger] collections[i])@) == key@
                && set[key] == collections[i],
        (forall|i: int|
            0 <= i < collections.len() ==> collection_key((#[trigger] collections[i])@) != key@)
            ==> set.get(key) == locators.get(key),
{
    assert(set.get(key) == match collection_at(collections, key@) {
        Some(collection) => Some(collection),
        None => locators.get(key),
    });
    lemma_collection_at(collections, key@);
    if collection_at(collections, key@) is Some {
        let i = choose|i: int|
            0 <= i < collections.len() && collection_key((#[trigger] collections[i])@) == key@
                && collection_at(collections, key@) == Some(collections[i]);
        assert(collection_key(collections[i]@) == key@);
    }
}

proof fn lemma_collection_at(collections: Seq<[u8; 32]>, key: Seq<u8>)
    ensures
        collection_at(collections, key) is Some <==> exists|i: int|
            0 <= i < collections.len() && collection_key((#[trigger] collections[i])@) == key,
        collection_at(collections, key) is Some ==> exists|i: int|
            0 <= i < collections.len() && collection_key((#[trigger] collections[i])@) == key
                && collection_at(collections, key) == Some(collections[i]),
    decreases collections.len(),
{
    if collections.len() > 0 {
        let front = collections.drop_last();
        lemma_collection_at(front, key);
        assert(collections[collections.len() - 1] == collections.last());
        if collection_key(collections.last()@) != key {
            if collection_at(front, key) is Some {
                let i = choose|i: int|
                    0 <= i < front.len() && collection_key((#[trigger] front[i])@) == key
                        && collection_at(front, key) == Some(front[i]);
                assert(collections[i] == front[i]);
            }
            if exists|i: int|
                0 <= i < collections.len() && collection_key((#[trigger] collections[i])@) == key {
                let i = choose|i: int|
                    0 <= i < collections.len() && collection_key((#[trigger] collections[i])@)
                        == key;
                assert(front[i] == collections[i]);
            }
        }
    }
}

/// Between honest ends an exchange runs through: the provider's answer is taken as
/// a claim, its proof draws the requester's, that releases the handle, and the bytes
/// behind the handle are accepted.
pub proof fn law_honest_exchange_runs_through(
    handle: RawHash,
    requester: PeerId,
    provider: PeerId,
    body: Seq<u8>,
)
    requires
        blake3_hash(body) == handle@,
    ensures
        ({
            let reply = server_reply(Some(handle), requester, provider);
            &&& reply.len() > 0
            &&& status_meaning(reply[0]) == Ok::<bool, ProtocolError>(true)
            &&& client_reply(handle, requester, provider, reply.skip(1)) matches Ok(shown)
                && released(handle, requester, provider, shown, false) == Ok::<
                RawHash,
                ProtocolError,
            >(handle)
            &&& judged_body(handle, Some(body)) == Ok::<bool, ProtocolError>(true)
        }),
{
    let reply = server_reply(Some(handle), requester, provider);
    assert(reply.skip(1) =~= provider_confirmation(handle, requester, provider));
}

/// A provider without the blob says so, in one byte that the requester understands.
pub proof fn law_an_absent_blob_is_unavailable(requester: PeerId, provider: PeerId)
    ensures
        server_reply(None, requester, provider).len() == 1,
        status_meaning(server_reply(None, requester, provider)[0]) == Ok::<bool, ProtocolError>(
            false,
        ),
{
}

/// A status byte is a claim, a denial, or an error that names it.
pub proof fn law_statuses_are_two(status: u8)
    ensures
        status == 1 <==> status_meaning(status) == Ok::<bool, ProtocolError>(true),
        status == 0 <==> status_meaning(status) == Ok::<bool, ProtocolError>(false),
        status > 1 <==> status_meaning(status) == Err::<bool, ProtocolError>(
            ProtocolError::UnknownResponse(status),
        ),
{
}

/// A requester shows its proof exactly to one that has shown the provider's proof
/// for this handle between these two ends.
pub proof fn law_the_requester_answers_a_proof_only(
    handle: RawHash,
    requester: PeerId,
    provider: PeerId,
    supplied: Seq<u8>,
)
    ensures
        client_reply(handle, requester, provider, supplied) is Ok <==> supplied
            == provider_confirmation(handle, requester, provider),
        client_reply(handle, requester, provider, supplied) matches Ok(shown) ==> shown
            == requester_confirmation(handle, requester, provider),
        client_reply(handle, requester, provider, supplied) matches Err(error) ==> error
            == ProtocolError::ProviderProof,
{
}

/// A provider reads the handle exactly for a requester that has shown the
/// requester's proof for it, with nothing behind it.
pub proof fn law_the_provider_reads_after_a_proof_only(
    handle: RawHash,
    requester: PeerId,
    provider: PeerId,
    supplied: Seq<u8>,
    trailing: bool,
)
    ensures
        released(handle, requester, provider, supplied, trailing) is Ok <==> !trailing && supplied
            == requester_confirmation(handle, requester, provider),
        released(handle, requester, provider, supplied, trailing) matches Ok(read) ==> read
            == handle,
        trailing ==> released(handle, requester, provider, supplied, trailing) == Err::<
            RawHash,
            ProtocolError,
        >(ProtocolError::TrailingBytes),
        !trailing && supplied != requester_confirmation(handle, requester, provider) ==> released(
            handle,
            requester,
            provider,
            supplied,
            trailing,
        ) == Err::<RawHash, ProtocolError>(ProtocolError::RequesterProof),
{
}

/// A body is accepted for the one handle that it hashes to.
pub proof fn law_a_body_belongs_to_one_handle(handle: RawHash, other: RawHash, body: Seq<u8>)
    ensures
        judged_body(handle, Some(body)) is Ok <==> blake3_hash(body) == handle@,
        judged_body(handle, Some(body)) is Ok ==> judged_body(handle, Some(body))->Ok_0,
        judged_body(handle, Some(body)) is Ok && judged_body(other, Some(body)) is Ok ==> handle
            == other,
        judged_body(handle, Some(body)) is Err ==> judged_body(handle, Some(body)) == Err::<
            bool,
            ProtocolError,
        >(ProtocolError::HashMismatch),
        judged_body(handle, None) == Ok::<bool, ProtocolError>(false),
{
    if judged_body(handle, Some(body)) is Ok && judged_body(other, Some(body)) is Ok {
        crate::keys::lemma_same_bytes(handle, other);
    }
}

/// A reader that has nothing and gave nothing is waited for; one that gave
/// something before is not, its bytes are used; one that gave bytes in the same
/// breath is at fault.
pub proof fn law_a_turn_keeps_no_bytes_waiting(before: usize, filled: usize)
    ensures
        after_pending(0, 0) == Ok::<PollStep, ReceiveError>(PollStep::Wait),
        before > 0 ==> after_pending(before, before) == Ok::<PollStep, ReceiveError>(
            PollStep::ChunkReady,
        ),
        filled != before ==> after_pending(before, filled) == Err::<PollStep, ReceiveError>(
            ReceiveError::InvalidPending,
        ),
{
}

/// A ready reader that gives nothing has ended early. Else the turn goes on until
/// the buffer is full or a hundred and twenty-eight polls have gone.
pub proof fn law_a_turn_is_bounded(before: usize, filled: usize, capacity: usize, polls: nat)
    requires
        before <= filled <= capacity,
        polls <= 128,
    ensures
        filled == before ==> after_ready(before, filled, capacity, polls) == Err::<
            PollStep,
            ReceiveError,
        >(ReceiveError::UnexpectedEnd),
        filled > before && (filled == capacity || polls == 128) ==> after_ready(
            before,
            filled,
            capacity,
            polls,
        ) == Ok::<PollStep, ReceiveError>(PollStep::ChunkReady),
        before < filled < capacity && polls < 128 ==> after_ready(before, filled, capacity, polls)
            == Ok::<PollStep, ReceiveError>(PollStep::PollAgain),
{
}

/// Bytes are charged for by the mebibyte, one that is begun as a whole.
pub proof fn law_storage_is_charged_by_the_mebibyte(bytes: nat)
    ensures
        units_for(bytes) * 1_048_576 >= bytes,
        bytes > 0 ==> (units_for(bytes) - 1) * 1_048_576 < bytes,
        units_for(0) == 0,
{
}

/// A body is received exactly if it has at most sixty-four gibibytes and, unless it
/// is empty, another may be received. All that is received together has at most
/// sixty-four gibibytes.
pub proof fn law_receiving_needs_a_slot(length: usize, free_slots: usize, units: int)
    ensures
        receive_refusal(length, free_slots) is None <==> length <= 68_719_476_736 && (length == 0
            || free_slots > 0),
        length > 68_719_476_736 ==> receive_refusal(length, free_slots) == Some(
            ReceiveError::TooLarge,
        ),
        fits(units) <==> units * 1_048_576 <= 68_719_476_736,
{
}

/// The number before a body is its length, unless it is the greatest number, which
/// says that there is none, or above sixty-four gibibytes, which is too large.
pub proof fn law_lengths_are_announced(number: nat)
    requires
        number <= u64::MAX,
    ensures
        number <= 68_719_476_736 ==> announced(number) == Ok::<Option<u64>, ProtocolError>(
            Some(number as u64),
        ),
        number == u64::MAX ==> announced(number) == Ok::<Option<u64>, ProtocolError>(None),
        68_719_476_736 < number < u64::MAX ==> announced(number) == Err::<
            Option<u64>,
            ProtocolError,
        >(ProtocolError::TooLarge),
{
}

/// A blob answer of a given length that is cut short anywhere, or followed by
/// anything, is refused.
pub proof fn law_blob_answers_are_exact(body: Seq<u8>, bytes: Seq<u8>)
    requires
        body.len() <= 68_719_476_736,
        bytes.len() >= 8,
        bytes.take(8) == blob_bytes(Some(body)).take(8),
    ensures
        bytes.len() < 8 + body.len() ==> blob_answer(bytes) == Err::<
            Option<Seq<u8>>,
            ProtocolError,
        >(ProtocolError::UnexpectedEnd),
        bytes.len() > 8 + body.len() ==> blob_answer(bytes) == Err::<
            Option<Seq<u8>>,
            ProtocolError,
        >(ProtocolError::TrailingBytes),
        bytes.len() == 8 + body.len() ==> blob_answer(bytes) == Ok::<
            Option<Seq<u8>>,
            ProtocolError,
        >(Some(bytes.skip(8))),
{
    lemma_eight_bytes();
    lemma_be_bytes(body.len(), 8);
    assert(blob_bytes(Some(body)).take(8) =~= be_bytes(body.len(), 8));
}

/// Fewer than eight bytes are no blob answer.
pub proof fn law_a_blob_answer_has_a_length(bytes: Seq<u8>)
    requires
        bytes.len() < 8,
    ensures
        blob_answer(bytes) == Err::<Option<Seq<u8>>, ProtocolError>(ProtocolError::UnexpectedEnd),
{
}

/// The answer to a put is one byte: zero for stored, one for full. Nothing else is
/// understood, and nothing may follow.
pub proof fn law_put_answers_are_one_byte(bytes: Seq<u8>)
    ensures
        bytes == seq![0u8] <==> provider_put_answer(bytes) == Ok::<bool, ProtocolError>(true),
        bytes == seq![1u8] <==> provider_put_answer(bytes) == Ok::<bool, ProtocolError>(false),
        bytes.len() == 0 ==> provider_put_answer(bytes) == Err::<bool, ProtocolError>(
            ProtocolError::UnexpectedEnd,
        ),
        bytes.len() > 0 && bytes[0] > 1 ==> provider_put_answer(bytes) == Err::<
            bool,
            ProtocolError,
        >(ProtocolError::UnknownResponse(bytes[0])),
        bytes.len() > 1 && bytes[0] <= 1 ==> provider_put_answer(bytes) == Err::<
            bool,
            ProtocolError,
        >(ProtocolError::TrailingBytes),
{
    if bytes.len() == 1 {
        assert(bytes =~= seq![bytes[0]]);
    }
    assert(seq![0u8][0] == 0 && seq![1u8][0] == 1);
}

/// A list is accepted exactly if it is as long as its first byte says, and that is
/// within the limit.
pub proof fn law_lists_are_as_long_as_they_say(bytes: Seq<u8>, width: nat, limit: nat)
    requires
        limit <= usize::MAX,
    ensures
        list_error(bytes, width, limit) is None <==> bytes.len() > 0 && bytes[0] <= limit
            && bytes.len() == 1 + bytes[0] * width,
        bytes.len() == 0 ==> list_error(bytes, width, limit) == Some(ProtocolError::UnexpectedEnd),
        bytes.len() > 0 && bytes[0] > limit ==> list_error(bytes, width, limit) == Some(
            ProtocolError::TooMany { count: bytes[0] as usize, limit: limit as usize },
        ),
        bytes.len() > 0 && bytes[0] <= limit && bytes.len() < 1 + bytes[0] * width ==> list_error(
            bytes,
            width,
            limit,
        ) == Some(ProtocolError::UnexpectedEnd),
        bytes.len() > 0 && bytes[0] <= limit && bytes.len() > 1 + bytes[0] * width ==> list_error(
            bytes,
            width,
            limit,
        ) == Some(ProtocolError::TrailingBytes),
{
}

/// A list of routes gives each of them by its bytes, in order: two readings of one
/// list agree.
pub proof fn law_routes_are_read_in_order(bytes: Seq<u8>, peers: Seq<PeerId>, at: int, byte: int)
    requires
        lists_peers(bytes, peers),
        bytes.len() == 1 + 32 * bytes[0],
        0 <= at < bytes[0],
        0 <= byte < 32,
    ensures
        peers.len() == bytes[0],
        peers[at]@[byte] == bytes[1 + 32 * at + byte],
{
    assert(peers[at]@ == bytes.subrange(1 + 32 * at, 1 + 32 * at + 32));
    assert(bytes.subrange(1 + 32 * at, 1 + 32 * at + 32)[byte] == bytes[1 + 32 * at + byte]);
}

/// A list of providers gives each with its token, in order.
pub proof fn law_providers_are_read_with_their_tokens(
    bytes: Seq<u8>,
    providers: Seq<(PeerId, RawHash)>,
    at: int,
    byte: int,
)
    requires
        lists_providers(bytes, providers),
        bytes.len() == 1 + 64 * bytes[0],
        0 <= at < bytes[0],
        0 <= byte < 32,
    ensures
        providers.len() == bytes[0],
        providers[at].0@[byte] == bytes[1 + 64 * at + byte],
        providers[at].1@[byte] == bytes[33 + 64 * at + byte],
{
    let first = bytes.subrange(1 + 64 * at, 1 + 64 * at + 32);
    let second = bytes.subrange(1 + 64 * at + 32, 1 + 64 * at + 64);
    assert(providers[at].0@ == first && providers[at].1@ == second);
    assert(first[byte] == bytes[1 + 64 * at + byte]);
    assert(second[byte] == bytes[33 + 64 * at + byte]);
}

/// An event weighs what it carries: a blob, a record or a proof its bytes, a hint
/// three keys, and the end of a pass two.
pub proof fn law_events_weigh_what_they_carry(event: NetEvent)
    ensures
        event matches NetEvent::Blob { bytes, .. } ==> event.weight() == bytes@.len(),
        event matches NetEvent::CollectionRecord(record) ==> event.weight() == record.bytes@.len(),
        event matches NetEvent::CapabilityProof(evidence) ==> event.weight()
            == evidence.bytes@.len(),
        event is BlobHint ==> event.weight() == 3 * 32,
        event is BlobInventoryPassCompleted ==> event.weight() == 2 * 32,
{
}

/// The weight of a batch is that of its events.
pub proof fn law_weights_add_up(events: Seq<NetEvent>, event: NetEvent)
    ensures
        total_weight(Seq::empty()) == 0,
        total_weight(events.push(event)) == total_weight(events) + event.weight(),
{
    assert(events.push(event).drop_last() =~= events);
}

/// An empty batch takes any event, however heavy. Another takes one exactly if it
/// then has at most four thousand and ninety-six events and sixty-four mebibytes.
pub proof fn law_batches_are_bounded(events: Seq<NetEvent>, event: NetEvent)
    ensures
        events.len() == 0 ==> has_room(events, event),
        events.len() > 0 ==> (has_room(events, event) <==> events.push(event).len() <= 4096
            && total_weight(events.push(event)) <= 64 * 1024 * 1024),
        is_sendable(events) <==> events.len() >= 4096 || total_weight(events) >= 64 * 1024 * 1024,
        events.len() > 0 && event.weight() > 0 && is_sendable(events) ==> !has_room(events, event),
{
    law_weights_add_up(events, event);
}

} // verus!
