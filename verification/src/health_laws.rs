//! What runtime evidence says of a host, in times and counts.

use vstd::prelude::*;

use crate::clock::Mono;
use crate::health::{
    peer_comparison, recent, CollectionHealth, ComparisonState, HealthSnapshot, PeerHealth,
    ReconcileDirection,
};
use crate::health_record::{
    all_collection_conditions, collection_conditions, dht_condition, evidence_for, interpreted,
    lonely_condition, peer_condition, Component, Condition, Evidence, State,
};

verus! {

/// Whether the instant is known and lies `seconds` ago at most, and not ahead.
pub open spec fn at_most_ago(at: Option<Mono>, now: Mono, seconds: nat) -> bool {
    exists|age: nat| age <= seconds * 1_000_000_000 && #[trigger] is_ago(at, now, age)
}

/// Whether the instant is known and lies `age` nanoseconds ago.
pub open spec fn is_ago(at: Option<Mono>, now: Mono, age: nat) -> bool {
    at is Some && (at->0).nanos + age == now.nanos
}

/// An instant is recent exactly if it lies within the window that ends now.
pub proof fn law_recent_is_a_window(at: Option<Mono>, now: Mono, seconds: nat, duration: u64)
    requires
        duration == seconds * 1_000_000_000,
    ensures
        recent(at, now, duration) <==> at_most_ago(at, now, seconds),
{
    if recent(at, now, duration) {
        let age = (now.nanos - (at->0).nanos) as nat;
        assert(is_ago(at, now, age));
    }
}

proof fn lemma_windows(at: Option<Mono>, now: Mono)
    ensures
        recent(at, now, 30_000_000_000) <==> at_most_ago(at, now, 30),
        recent(at, now, 180_000_000_000) <==> at_most_ago(at, now, 180),
        recent(at, now, 600_000_000_000) <==> at_most_ago(at, now, 600),
{
    law_recent_is_a_window(at, now, 30, 30_000_000_000);
    law_recent_is_a_window(at, now, 180, 180_000_000_000);
    law_recent_is_a_window(at, now, 600, 600_000_000_000);
}

/// A host that was polled within half a minute is current and no reason to act.
/// Any other is unknown; it is a reason to act exactly if it has started, and
/// that not within half a minute.
pub proof fn law_host_is_judged_by_its_last_poll(health: HealthSnapshot, now: Mono)
    ensures
        interpreted(health, now)[0].component == Component::Host,
        interpreted(health, now)[0].collection is None && interpreted(health, now)[0].peer is None,
        at_most_ago(health.observed_at, now, 30) ==> interpreted(health, now)[0].state
            == State::Current && !interpreted(health, now)[0].alert,
        !at_most_ago(health.observed_at, now, 30) ==> interpreted(health, now)[0].state
            == State::Unknown,
        !at_most_ago(health.observed_at, now, 30) && health.started_at is None
            ==> !interpreted(health, now)[0].alert,
        !at_most_ago(health.observed_at, now, 30) && health.started_at is Some ==> (interpreted(
            health,
            now,
        )[0].alert <==> !at_most_ago(health.started_at, now, 30)),
{
    lemma_windows(health.observed_at, now);
    lemma_windows(health.started_at, now);
}

/// A store whose snapshot is served, was observed within half a minute and has
/// outlived every failure is current and no reason to act.
pub proof fn law_serving_store_is_current(health: HealthSnapshot, now: Mono)
    requires
        health.store.serving_snapshot,
        at_most_ago(health.store.last_snapshot_observed_at, now, 30),
        health.store.last_failure_at matches Some(failure) ==> failure.nanos
            <= (health.store.last_snapshot_observed_at->0).nanos,
    ensures
        interpreted(health, now)[1].component == Component::Store,
        interpreted(health, now)[1].state == State::Current,
        !interpreted(health, now)[1].alert,
{
    lemma_windows(health.store.last_snapshot_observed_at, now);
}

/// A store that serves no snapshot, was not observed within half a minute, or
/// has failed since, is unknown. It is a reason to act exactly if the host has
/// not started within ten minutes.
pub proof fn law_failing_store_is_unknown(health: HealthSnapshot, now: Mono)
    requires
        !health.store.serving_snapshot || !at_most_ago(
            health.store.last_snapshot_observed_at,
            now,
            30,
        ) || (health.store.last_failure_at is Some && (health.store.last_failure_at->0).nanos > (
        health.store.last_snapshot_observed_at->0).nanos),
    ensures
        interpreted(health, now)[1].component == Component::Store,
        interpreted(health, now)[1].collection is None && interpreted(health, now)[1].peer is None,
        interpreted(health, now)[1].state == State::Unknown,
        interpreted(health, now)[1].alert <==> !at_most_ago(health.started_at, now, 600),
{
    lemma_windows(health.store.last_snapshot_observed_at, now);
    lemma_windows(health.started_at, now);
}

/// Peers are compared exactly while this host may pull: a host that only writes
/// compares with nobody, and one whose direction is unknown still compares.
pub proof fn law_only_pulling_hosts_compare(
    direction: Option<ReconcileDirection>,
    peer: PeerHealth,
    now: Mono,
    seconds: nat,
    max_age: u64,
)
    requires
        max_age == seconds * 1_000_000_000,
    ensures
        peer_comparison(direction, peer, now, max_age) == ComparisonState::NotApplicable
            <==> direction == Some(ReconcileDirection::WriteOnly),
        direction != Some(ReconcileDirection::WriteOnly) && peer.comparison is None
            ==> peer_comparison(direction, peer, now, max_age) == ComparisonState::Unknown,
        direction != Some(ReconcileDirection::WriteOnly) && peer.comparison is Some ==> {
            let seen = peer.comparison->0;
            &&& !at_most_ago(Some(seen.observed_at), now, seconds) ==> peer_comparison(
                direction,
                peer,
                now,
                max_age,
            ) == ComparisonState::Unknown
            &&& at_most_ago(Some(seen.observed_at), now, seconds) && seen.local == seen.remote
                ==> peer_comparison(direction, peer, now, max_age) == ComparisonState::Matching
            &&& at_most_ago(Some(seen.observed_at), now, seconds) && seen.local != seen.remote
                ==> peer_comparison(direction, peer, now, max_age) == ComparisonState::Different
        },
{
    if peer.comparison is Some {
        law_recent_is_a_window(Some((peer.comparison->0).observed_at), now, seconds, max_age);
    }
}

/// A peer that was found equal within three minutes is current and no reason to
/// act, whatever failed before.
pub proof fn law_equal_peer_is_current(
    health: HealthSnapshot,
    collection: CollectionHealth,
    peer: PeerHealth,
    now: Mono,
)
    requires
        health.direction != Some(ReconcileDirection::WriteOnly),
        peer.comparison is Some,
        at_most_ago(Some((peer.comparison->0).observed_at), now, 180),
        (peer.comparison->0).local == (peer.comparison->0).remote,
    ensures
        peer_condition(health, collection, peer, now).state == State::Current,
        !peer_condition(health, collection, peer, now).alert,
{
    let at = Some((peer.comparison->0).observed_at);
    lemma_windows(at, now);
    assert(recent(at, now, 600_000_000_000));
}

/// A peer that was found different within three minutes is catching up while it
/// is new or its other side changed within ten minutes, and no reason to act.
/// Afterwards it is stalled and a reason to act.
pub proof fn law_different_peer_has_ten_minutes(
    health: HealthSnapshot,
    collection: CollectionHealth,
    peer: PeerHealth,
    now: Mono,
)
    requires
        health.direction != Some(ReconcileDirection::WriteOnly),
        peer.comparison is Some,
        at_most_ago(Some((peer.comparison->0).observed_at), now, 180),
        (peer.comparison->0).local != (peer.comparison->0).remote,
    ensures
        at_most_ago(peer.first_started_at, now, 600) || at_most_ago(
            peer.last_remote_change_at,
            now,
            600,
        ) ==> peer_condition(health, collection, peer, now).state == State::Progressing
            && !peer_condition(health, collection, peer, now).alert,
        !at_most_ago(peer.first_started_at, now, 600) && !at_most_ago(
            peer.last_remote_change_at,
            now,
            600,
        ) ==> peer_condition(health, collection, peer, now).state == State::Stalled
            && peer_condition(health, collection, peer, now).alert,
{
    let at = Some((peer.comparison->0).observed_at);
    lemma_windows(at, now);
    lemma_windows(peer.first_started_at, now);
    lemma_windows(peer.last_remote_change_at, now);
    assert(recent(at, now, 600_000_000_000));
}

/// A peer without a comparison of the last three minutes is unknown. It is a
/// reason to act exactly if this host may pull, the peer is not new, no
/// comparison is of the last ten minutes, and the latest pull to complete failed.
pub proof fn law_uncompared_peer_is_unknown(
    health: HealthSnapshot,
    collection: CollectionHealth,
    peer: PeerHealth,
    now: Mono,
)
    requires
        peer.comparison matches Some(seen) ==> !at_most_ago(Some(seen.observed_at), now, 180),
    ensures
        peer_condition(health, collection, peer, now).state == State::Unknown,
        peer_condition(health, collection, peer, now).alert <==> {
            &&& health.direction != Some(ReconcileDirection::WriteOnly)
            &&& !at_most_ago(peer.first_started_at, now, 600)
            &&& peer.comparison is None || !at_most_ago(
                Some((peer.comparison->0).observed_at),
                now,
                600,
            )
            &&& peer.last_failure_at is Some
            &&& peer.last_completed_at is Some
            &&& (peer.last_failure_at->0).nanos == (peer.last_completed_at->0).nanos
        },
{
    if peer.comparison is Some {
        lemma_windows(Some((peer.comparison->0).observed_at), now);
    }
    lemma_windows(peer.first_started_at, now);
    if peer.last_failure_at is Some && peer.last_completed_at is Some
        && (peer.last_failure_at->0).nanos == (peer.last_completed_at->0).nanos {
        assert(peer.last_failure_at->0 == peer.last_completed_at->0);
    }
}

/// A host that only writes knows nothing of its peers and acts on none of them.
pub proof fn law_writer_reports_no_peer(
    health: HealthSnapshot,
    collection: CollectionHealth,
    peer: PeerHealth,
    now: Mono,
)
    requires
        health.direction == Some(ReconcileDirection::WriteOnly),
    ensures
        peer_condition(health, collection, peer, now).state == State::Unknown,
        !peer_condition(health, collection, peer, now).alert,
        !lonely_condition(health, collection, now).alert,
{
}

/// A collection without peers is unknown, and a reason to act exactly if this
/// host is known to pull and has not started within ten minutes.
pub proof fn law_lonely_collection_is_unknown(
    health: HealthSnapshot,
    collection: CollectionHealth,
    now: Mono,
)
    ensures
        lonely_condition(health, collection, now).component == Component::Collection,
        lonely_condition(health, collection, now).collection == Some(collection.collection),
        lonely_condition(health, collection, now).peer is None,
        lonely_condition(health, collection, now).state == State::Unknown,
        lonely_condition(health, collection, now).alert <==> !at_most_ago(
            health.started_at,
            now,
            600,
        ) && (health.direction == Some(ReconcileDirection::Bidirectional) || health.direction
            == Some(ReconcileDirection::ReadOnly)),
{
    lemma_windows(health.started_at, now);
    if health.direction is Some {
        match health.direction->0 {
            ReconcileDirection::Bidirectional => {},
            ReconcileDirection::ReadOnly => {},
            ReconcileDirection::WriteOnly => {},
        }
    }
}

/// Where the conditions of collection `at` begin among those of all collections.
pub open spec fn conditions_before(health: HealthSnapshot, now: Mono, at: nat) -> nat
    decreases at,
{
    if at == 0 {
        0
    } else {
        let collection = health.collections@[at - 1];
        let lonely: nat = if collection.peers@.len() == 0 || health.direction == Some(
            ReconcileDirection::WriteOnly,
        ) {
            1
        } else {
            0
        };
        conditions_before(health, now, (at - 1) as nat) + lonely + collection.peers@.len()
    }
}

proof fn lemma_listed(health: HealthSnapshot, now: Mono, count: nat, at: nat)
    requires
        at < count <= health.collections@.len(),
    ensures
        all_collection_conditions(health, now, count).len() == conditions_before(
            health,
            now,
            count,
        ),
        conditions_before(health, now, at) + collection_conditions(
            health,
            health.collections@[at as int],
            now,
        ).len() <= conditions_before(health, now, count),
        forall|k: int|
            0 <= k < collection_conditions(health, health.collections@[at as int], now).len()
                ==> all_collection_conditions(health, now, count)[conditions_before(
                health,
                now,
                at,
            ) + k] == #[trigger] collection_conditions(
                health,
                health.collections@[at as int],
                now,
            )[k],
    decreases count,
{
    let front = (count - 1) as nat;
    lemma_counted(health, now, front);
    lemma_counted(health, now, count);
    if at < front {
        lemma_listed(health, now, front, at);
    }
}

proof fn lemma_counted(health: HealthSnapshot, now: Mono, count: nat)
    requires
        count <= health.collections@.len(),
    ensures
        all_collection_conditions(health, now, count).len() == conditions_before(
            health,
            now,
            count,
        ),
    decreases count,
{
    if count > 0 {
        lemma_counted(health, now, (count - 1) as nat);
    }
}

/// Everything is reported once, and nothing else: the host, the store, then of
/// each collection in turn its peers in turn, and publication last. Before its
/// peers comes the collection itself where it has none or nothing is pulled.
pub proof fn law_everything_is_reported_in_order(health: HealthSnapshot, now: Mono, at: nat)
    requires
        at < health.collections@.len(),
    ensures
        ({
            let all = interpreted(health, now);
            let collection = health.collections@[at as int];
            let from = 2 + conditions_before(health, now, at);
            let lonely: nat = if collection.peers@.len() == 0 || health.direction == Some(
                ReconcileDirection::WriteOnly,
            ) {
                1
            } else {
                0
            };
            &&& all.len() == 3 + conditions_before(health, now, health.collections@.len())
            &&& from + lonely + collection.peers@.len() < all.len()
            &&& lonely == 1 ==> all[from as int] == lonely_condition(health, collection, now)
            &&& forall|j: int|
                0 <= j < collection.peers@.len() ==> all[from + lonely + j] == peer_condition(
                    health,
                    collection,
                    #[trigger] collection.peers@[j],
                    now,
                )
            &&& forall|j: int|
                0 <= j < collection.peers@.len() ==> (#[trigger] all[from + lonely + j]).component
                    == Component::Collection && all[from + lonely + j].collection == Some(
                    collection.collection,
                ) && all[from + lonely + j].peer == Some(collection.peers@[j].peer)
            &&& all.last().component == Component::Dht
        }),
{
    let all = interpreted(health, now);
    let collection = health.collections@[at as int];
    let whole = collection_conditions(health, collection, now);
    let count = health.collections@.len();
    let middle = all_collection_conditions(health, now, count);
    lemma_listed(health, now, count, at);
    let lonely: int = if collection.peers@.len() == 0 || health.direction == Some(
        ReconcileDirection::WriteOnly,
    ) {
        1
    } else {
        0
    };
    let before = conditions_before(health, now, at) as int;
    assert(whole.len() == lonely + collection.peers@.len());
    assert forall|k: int| 0 <= k < whole.len() implies #[trigger] all[2 + before + k]
        == whole[k] by {
        assert(middle[before + k] == whole[k]);
    }
    assert forall|j: int| 0 <= j < collection.peers@.len() implies all[2 + before + lonely + j]
        == peer_condition(health, collection, #[trigger] collection.peers@[j], now) by {
        assert(all[2 + before + (lonely + j)] == whole[lonely + j]);
    }
    assert forall|j: int| 0 <= j < collection.peers@.len() implies (#[trigger] all[2 + before
        + lonely + j]).component == Component::Collection && all[2 + before + lonely
        + j].collection == Some(collection.collection) && all[2 + before + lonely + j].peer
        == Some(collection.peers@[j].peer) by {
        assert(all[2 + before + lonely + j] == peer_condition(
            health,
            collection,
            collection.peers@[j],
            now,
        ));
    }
    if lonely == 1 {
        assert(all[2 + before + 0] == whole[0]);
    }
}

/// Whether some publication waits or is under way.
pub open spec fn publishes(health: HealthSnapshot) -> bool {
    health.publication.startup_pending + health.publication.incremental_pending
        + health.publication.retry_pending + health.publication.in_flight > 0
}

/// Whether publication has come no further for more than ten minutes: since the
/// first attempt of a run that nobody acknowledged, or, with something to do,
/// since both the last start and the last acknowledgement, or since the host
/// started where there was neither.
pub open spec fn stuck(health: HealthSnapshot, now: Mono) -> bool {
    let publication = health.publication;
    let long_ago = |at: Option<Mono>|
        at is Some && (at->0).nanos + 600_000_000_000 < now.nanos;
    if publication.unacknowledged_since is Some {
        long_ago(publication.unacknowledged_since)
    } else if publication.last_started_at is None && publication.last_acknowledged_at is None {
        publishes(health) && long_ago(health.started_at)
    } else {
        &&& publishes(health)
        &&& publication.last_started_at is None || long_ago(publication.last_started_at)
        &&& publication.last_acknowledged_at is None || long_ago(publication.last_acknowledged_at)
    }
}

/// Publication is a reason to act exactly if something is resident, there is
/// budget, and it is stuck.
pub proof fn law_stuck_publication_is_reported(health: HealthSnapshot, now: Mono)
    ensures
        interpreted(health, now).last().component == Component::Dht,
        interpreted(health, now).last().collection is None,
        interpreted(health, now).last().peer is None,
        interpreted(health, now).last().alert <==> health.publication.resident > 0
            && !health.publication.budget_exhausted && stuck(health, now),
{
    assert(interpreted(health, now).last() == dht_condition(health, now));
}

/// Publication is unknown while nothing is resident or the budget is spent. Else
/// it is current if acknowledged within ten minutes with nothing left to do,
/// progressing if acknowledged or at work without being stuck, stalled if stuck
/// without an acknowledgement, and unknown while idle.
pub proof fn law_publication_is_judged_by_its_progress(health: HealthSnapshot, now: Mono)
    ensures
        ({
            let state = interpreted(health, now).last().state;
            let acknowledged = at_most_ago(health.publication.last_acknowledged_at, now, 600);
            let expected = health.publication.resident > 0 && !health.publication.budget_exhausted;
            &&& !expected ==> state == State::Unknown
            &&& expected && acknowledged && !publishes(health) ==> state == State::Current
            &&& expected && acknowledged && publishes(health) ==> state == State::Progressing
            &&& expected && !acknowledged && publishes(health) && !stuck(health, now) ==> state
                == State::Progressing
            &&& expected && !acknowledged && stuck(health, now) ==> state == State::Stalled
            &&& expected && !acknowledged && !publishes(health) && !stuck(health, now) ==> state
                == State::Unknown
        }),
{
    assert(interpreted(health, now).last() == dht_condition(health, now));
    lemma_windows(health.publication.last_acknowledged_at, now);
}

/// The store's condition carries the number of resident blobs and no other
/// count; the host's carries none.
pub proof fn law_store_counts_its_blobs(health: HealthSnapshot, condition: Condition)
    ensures
        condition.component == Component::Store ==> evidence_for(health, condition) == (Evidence {
            resident_blobs: Some(health.store.resident_blobs),
            ..Evidence::nothing()
        }),
        condition.component != Component::Store ==> evidence_for(
            health,
            condition,
        ).resident_blobs is None,
        condition.component == Component::Host ==> evidence_for(health, condition)
            == Evidence::nothing(),
{
}

/// Publication counters are told of publication, each as it was counted, and of
/// nothing else.
pub proof fn law_publication_counts_are_told(health: HealthSnapshot, condition: Condition)
    ensures
        ({
            let told = evidence_for(health, condition);
            let counted = health.publication;
            if condition.component == Component::Dht {
                &&& told.publication_keys == Some(counted.resident)
                &&& told.publication_startup_pending == Some(counted.startup_pending)
                &&& told.publication_incremental_pending == Some(counted.incremental_pending)
                &&& told.publication_retry_pending == Some(counted.retry_pending)
                &&& told.publication_renewal_remaining == Some(counted.renewal_remaining)
                &&& told.publication_in_flight == Some(counted.in_flight as u64)
                &&& told.publication_attempts == Some(counted.attempts)
                &&& told.publication_acknowledged == Some(counted.acknowledged)
                &&& told.publication_rejected == Some(counted.rejected)
                &&& told.publication_unavailable == Some(counted.unavailable)
                &&& told.local_records is None && told.local_authorizations is None
                &&& told.remote_records is None && told.remote_authorizations is None
            } else {
                &&& told.publication_keys is None
                &&& told.publication_startup_pending is None
                &&& told.publication_incremental_pending is None
                &&& told.publication_retry_pending is None
                &&& told.publication_renewal_remaining is None
                &&& told.publication_in_flight is None
                &&& told.publication_attempts is None
                &&& told.publication_acknowledged is None
                &&& told.publication_rejected is None
                &&& told.publication_unavailable is None
            }
        }),
{
}

proof fn lemma_collection_named(collections: Seq<CollectionHealth>, at: int)
    requires
        0 <= at < collections.len(),
        forall|i: int|
            0 <= i < at ==> (#[trigger] collections[i]).collection != collections[at].collection,
    ensures
        crate::health_record::collection_named(collections, collections[at].collection) == Some(
            collections[at],
        ),
    decreases at,
{
    if at > 0 {
        let rest = collections.drop_first();
        assert(rest[at - 1] == collections[at]);
        assert forall|i: int| 0 <= i < at - 1 implies (#[trigger] rest[i]).collection != rest[at
            - 1].collection by {
            assert(rest[i] == collections[i + 1]);
        }
        lemma_collection_named(rest, at - 1);
    }
}

proof fn lemma_peer_named(peers: Seq<PeerHealth>, at: int)
    requires
        0 <= at < peers.len(),
        forall|i: int| 0 <= i < at ==> (#[trigger] peers[i]).peer != peers[at].peer,
    ensures
        crate::health_record::peer_named(peers, peers[at].peer) == Some(peers[at]),
    decreases at,
{
    if at > 0 {
        let rest = peers.drop_first();
        assert(rest[at - 1] == peers[at]);
        assert forall|i: int| 0 <= i < at - 1 implies (#[trigger] rest[i]).peer != rest[at
            - 1].peer by {
            assert(rest[i] == peers[i + 1]);
        }
        lemma_peer_named(rest, at - 1);
    }
}

/// The condition of a peer carries what the local side holds of that very
/// collection and what the last comparison saw at that very peer, and the
/// condition of the collection alone carries the local counts only.
pub proof fn law_peer_counts_both_sides(health: HealthSnapshot, at: int, peer: int, now: Mono)
    requires
        0 <= at < health.collections@.len(),
        forall|i: int|
            0 <= i < at ==> (#[trigger] health.collections@[i]).collection
                != health.collections@[at].collection,
        0 <= peer < health.collections@[at].peers@.len(),
        forall|i: int|
            0 <= i < peer ==> (#[trigger] health.collections@[at].peers@[i]).peer
                != health.collections@[at].peers@[peer].peer,
    ensures
        ({
            let collection = health.collections@[at];
            let told = evidence_for(
                health,
                peer_condition(health, collection, collection.peers@[peer], now),
            );
            let alone = evidence_for(health, lonely_condition(health, collection, now));
            let seen = collection.peers@[peer].comparison;
            &&& collection.local_frontier matches Some(local) ==> {
                &&& told.local_records == Some(local.records.leaves())
                &&& told.local_authorizations == Some(local.authorization_evidence.leaves())
                &&& alone.local_records == told.local_records
                &&& alone.local_authorizations == told.local_authorizations
            }
            &&& collection.local_frontier is None ==> told.local_records is None
                && told.local_authorizations is None
            &&& seen matches Some(seen) ==> {
                &&& told.remote_records == Some(seen.remote.records.leaves())
                &&& told.remote_authorizations == Some(
                    seen.remote.authorization_evidence.leaves(),
                )
            }
            &&& seen is None ==> told.remote_records is None && told.remote_authorizations is None
            &&& alone.remote_records is None && alone.remote_authorizations is None
        }),
{
    let collection = health.collections@[at];
    lemma_collection_named(health.collections@, at);
    lemma_peer_named(collection.peers@, peer);
}

} // verus!
