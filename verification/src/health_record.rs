//! Local, append-only observations of a network host, not another sync protocol.
//!
//! A reporter publishes into a deliberately unreplicated collection. A reader
//! selects the latest report per observer, applies its own maximum sample age,
//! then queries the conditions it names. Thus broken replication cannot hide
//! its own warning. Reports are observations, not promises about an entire
//! unknown swarm or the residency of every blob.

use vstd::prelude::*;

use crate::clock::{Mono, SECOND};
use crate::encoded::{decoded, lemma_decoded, lemma_decoded_empty, lemma_decoded_insert, unambiguous};
use crate::health::{
    peer_comparison, recent, within, CollectionHealth, ComparisonState, HealthSnapshot, PeerHealth,
};
use crate::key_map::{ascending, contents, lemma_contents, KeyMap};
use crate::keys::{big_endian, lemma_same_bytes, rank, same};
use crate::provider::PeerId;

verus! {

/// The identifier of an entity or of a kind of thing, as a number.
pub type Id = u128;

/// The name of the collection that holds health reports.
pub const COLLECTION_NAME: &'static str = "swarm-health";

pub const DEFAULT_SCOPE_ID: Id = 0xCF3A399CA5EB9BAAD5EF283002F5A4D3;

pub const KIND_REPORT: Id = 0xD470B317FA1790BDB89C3D47921A4EEC;

pub const KIND_CONDITION: Id = 0x6B8ECE083B6F850837A71FFE3ED155DA;

pub const KIND_ALERT: Id = 0x50A83054AEDA2C4696137E4B61BC0701;

pub const KIND_RECOVERED: Id = 0x83A44BA6C6BE2B782521A19418C0C9ED;

pub const HOST: Id = 0x2F1E16D4B71DA46FB54F6A77E40E7BCA;

pub const STORE: Id = 0x166B05676A0FE4BC203378C4E71B60EE;

pub const COLLECTION: Id = 0x2FB954F7D9CC495DF420C9842E042409;

pub const DHT: Id = 0x5E9E10B93F3D2C8A44AE94269B3E5EB8;

pub const CURRENT: Id = 0x7550149E20D8658EB657FA51808D6797;

pub const PROGRESSING: Id = 0x439306D0EA812CC42BA0113545FBBF4B;

pub const UNKNOWN: Id = 0x1627047B72FDB5B071ABBC51C664909E;

pub const STALLED: Id = 0x1DE9C9CA3F8A012F4EF2BDBA468BB9A5;

/// One component of a local observation; no global health bit is inferred.
#[derive(Clone, Copy, Debug, PartialEq, Eq, Structural)]
pub enum Component {
    Host,
    Store,
    Collection,
    Dht,
}

impl Component {
    /// The tag that names the component.
    pub open spec fn tagged(self) -> Id {
        match self {
            Component::Host => HOST,
            Component::Store => STORE,
            Component::Collection => COLLECTION,
            Component::Dht => DHT,
        }
    }

    /// The tag that names the component.
    pub fn tag(self) -> (tag: Id)
        ensures
            tag == self.tagged(),
    {
        match self {
            Component::Host => HOST,
            Component::Store => STORE,
            Component::Collection => COLLECTION,
            Component::Dht => DHT,
        }
    }
}

/// How a component is doing.
#[derive(Clone, Copy, Debug, PartialEq, Eq, Structural)]
pub enum State {
    Current,
    Progressing,
    Unknown,
    Stalled,
}

impl State {
    /// The tag that names the state.
    pub open spec fn tagged(self) -> Id {
        match self {
            State::Current => CURRENT,
            State::Progressing => PROGRESSING,
            State::Unknown => UNKNOWN,
            State::Stalled => STALLED,
        }
    }

    /// The tag that names the state.
    pub fn tag(self) -> (tag: Id)
        ensures
            tag == self.tagged(),
    {
        match self {
            State::Current => CURRENT,
            State::Progressing => PROGRESSING,
            State::Unknown => UNKNOWN,
            State::Stalled => STALLED,
        }
    }
}

/// Components and states are told apart by their tags.
pub proof fn law_tags_are_distinct(a: Component, b: Component, s: State, t: State)
    ensures
        a.tagged() == b.tagged() <==> a == b,
        s.tagged() == t.tagged() <==> s == t,
        a.tagged() != s.tagged(),
{
}

/// One fresh measurement supplied by the network observer, not loaded state.
#[derive(Clone, Copy, Debug, PartialEq, Eq)]
pub struct Condition {
    pub component: Component,
    pub collection: Option<[u8; 32]>,
    pub peer: Option<PeerId>,
    pub state: State,
    /// An actionable condition, after any startup or recovery grace period.
    pub alert: bool,
}

/// Optional quantitative evidence attached to one condition episode.
///
/// Absence remains distinct from zero: older reporters and components which
/// cannot observe a quantity must not be rendered as empty or complete.
#[derive(Clone, Copy, Debug, PartialEq, Eq, Structural)]
pub struct Evidence {
    pub resident_blobs: Option<u64>,
    pub local_records: Option<u64>,
    pub local_authorizations: Option<u64>,
    pub remote_records: Option<u64>,
    pub remote_authorizations: Option<u64>,
    pub publication_keys: Option<u64>,
    pub publication_startup_pending: Option<u64>,
    pub publication_incremental_pending: Option<u64>,
    pub publication_retry_pending: Option<u64>,
    pub publication_renewal_remaining: Option<u64>,
    pub publication_in_flight: Option<u64>,
    pub publication_attempts: Option<u64>,
    pub publication_acknowledged: Option<u64>,
    pub publication_rejected: Option<u64>,
    pub publication_unavailable: Option<u64>,
}

impl Evidence {
    /// Nothing was counted.
    pub open spec fn nothing() -> Evidence {
        Evidence {
            resident_blobs: None,
            local_records: None,
            local_authorizations: None,
            remote_records: None,
            remote_authorizations: None,
            publication_keys: None,
            publication_startup_pending: None,
            publication_incremental_pending: None,
            publication_retry_pending: None,
            publication_renewal_remaining: None,
            publication_in_flight: None,
            publication_attempts: None,
            publication_acknowledged: None,
            publication_rejected: None,
            publication_unavailable: None,
        }
    }
}

impl Default for Evidence {
    fn default() -> (evidence: Self)
        ensures
            evidence == Evidence::nothing(),
    {
        Evidence {
            resident_blobs: None,
            local_records: None,
            local_authorizations: None,
            remote_records: None,
            remote_authorizations: None,
            publication_keys: None,
            publication_startup_pending: None,
            publication_incremental_pending: None,
            publication_retry_pending: None,
            publication_renewal_remaining: None,
            publication_in_flight: None,
            publication_attempts: None,
            publication_acknowledged: None,
            publication_rejected: None,
            publication_unavailable: None,
        }
    }
}

/// A condition and the exact counters observed alongside it.
#[derive(Clone, Copy, Debug, PartialEq, Eq)]
pub struct Measurement {
    pub condition: Condition,
    pub evidence: Evidence,
}

/// How often a continuously running replica reports. These durations are
/// observer policy, not part of the collection or wire algebra.
pub const REPORT_EVERY: u64 = 60 * SECOND;

/// Default reader and comparison policy, not a lifetime asserted by the reporter.
pub const DEFAULT_MAX_AGE: u64 = 180 * SECOND;

pub const HOST_MAX_AGE: u64 = 30 * SECOND;

/// Two complete repair deadlines allow a cold repair to finish.
pub const PROGRESS_GRACE: u64 = 600 * SECOND;

/// Whether the first instant is known to be no earlier than `at`, or neither is
/// known: an unknown instant precedes every known one.
pub open spec fn not_after(at: Option<Mono>, than: Option<Mono>) -> bool {
    match (at, than) {
        (None, _) => true,
        (Some(_), None) => false,
        (Some(at), Some(than)) => at.nanos <= than.nanos,
    }
}

/// The later of two instants, an unknown one preceding every known one.
pub open spec fn later_of(a: Option<Mono>, b: Option<Mono>) -> Option<Mono> {
    if not_after(a, b) {
        b
    } else {
        a
    }
}

/// The condition of the host: current while it is observed, and a reason to act
/// once it is not and has had time to be.
pub open spec fn host_condition(health: HealthSnapshot, now: Mono) -> Condition {
    let fresh = recent(health.observed_at, now, HOST_MAX_AGE);
    Condition {
        component: Component::Host,
        collection: None,
        peer: None,
        state: if fresh {
            State::Current
        } else {
            State::Unknown
        },
        alert: !fresh && health.started_at is Some && !recent(health.started_at, now, HOST_MAX_AGE),
    }
}

/// The condition of the store: current while a recent serving snapshot is no
/// older than the last failure.
pub open spec fn store_condition(health: HealthSnapshot, now: Mono) -> Condition {
    let current = health.store.serving_snapshot && recent(
        health.store.last_snapshot_observed_at,
        now,
        HOST_MAX_AGE,
    ) && not_after(health.store.last_failure_at, health.store.last_snapshot_observed_at);
    Condition {
        component: Component::Store,
        collection: None,
        peer: None,
        state: if current {
            State::Current
        } else {
            State::Unknown
        },
        alert: !current && !recent(health.started_at, now, PROGRESS_GRACE),
    }
}

/// The condition of a collection without peers to compare with.
pub open spec fn lonely_condition(
    health: HealthSnapshot,
    collection: CollectionHealth,
    now: Mono,
) -> Condition {
    Condition {
        component: Component::Collection,
        collection: Some(collection.collection),
        peer: None,
        state: State::Unknown,
        alert: !recent(health.started_at, now, PROGRESS_GRACE) && health.direction is Some
            && health.direction->0.pulling(),
    }
}

/// The condition of a collection at one peer. A difference is a stall once
/// neither the peer is new nor the other side has changed lately. Age alone is
/// no reason to act; a failure of the latest completed pull is.
pub open spec fn peer_condition(
    health: HealthSnapshot,
    collection: CollectionHealth,
    peer: PeerHealth,
    now: Mono,
) -> Condition {
    let comparison = peer_comparison(health.direction, peer, now, DEFAULT_MAX_AGE);
    let starting = recent(peer.first_started_at, now, PROGRESS_GRACE);
    let state = match comparison {
        ComparisonState::Matching => State::Current,
        ComparisonState::Different => if recent(peer.last_remote_change_at, now, PROGRESS_GRACE)
            || starting {
            State::Progressing
        } else {
            State::Stalled
        },
        _ => State::Unknown,
    };
    let measured = match peer.comparison {
        Some(comparison) => recent(Some(comparison.observed_at), now, PROGRESS_GRACE),
        None => false,
    };
    let failed = peer.last_failure_at is Some && peer.last_failure_at == peer.last_completed_at;
    Condition {
        component: Component::Collection,
        collection: Some(collection.collection),
        peer: Some(peer.peer),
        state,
        alert: comparison != ComparisonState::NotApplicable && !starting && (state == State::Stalled
            || (!measured && failed)),
    }
}

/// The conditions of one collection.
pub open spec fn collection_conditions(
    health: HealthSnapshot,
    collection: CollectionHealth,
    now: Mono,
) -> Seq<Condition> {
    let alone = collection.peers@.len() == 0 || (health.direction is Some
        && !health.direction->0.pulling());
    let peers = collection.peers@.map_values(
        |peer: PeerHealth| peer_condition(health, collection, peer, now),
    );
    if alone {
        seq![lonely_condition(health, collection, now)] + peers
    } else {
        peers
    }
}

/// The conditions of the first `count` collections.
pub open spec fn all_collection_conditions(
    health: HealthSnapshot,
    now: Mono,
    count: nat,
) -> Seq<Condition>
    decreases count,
{
    if count == 0 {
        Seq::empty()
    } else {
        all_collection_conditions(health, now, (count - 1) as nat) + collection_conditions(
            health,
            health.collections@[count - 1],
            now,
        )
    }
}

/// Whether publications wait or are under way.
pub open spec fn publication_outstanding(health: HealthSnapshot) -> bool {
    let publication = health.publication;
    publication.startup_pending > 0 || publication.incremental_pending > 0
        || publication.retry_pending > 0 || publication.in_flight > 0
}

/// Since when publication makes no progress, if it should.
pub open spec fn no_progress_since(health: HealthSnapshot) -> Option<Mono> {
    let publication = health.publication;
    if publication.unacknowledged_since is Some {
        publication.unacknowledged_since
    } else if publication_outstanding(health) {
        let last = later_of(publication.last_started_at, publication.last_acknowledged_at);
        if last is Some {
            last
        } else {
            health.started_at
        }
    } else {
        None
    }
}

/// Whether publication has made no progress for longer than the grace period.
pub open spec fn publication_failed(health: HealthSnapshot, now: Mono) -> bool {
    match no_progress_since(health) {
        Some(at) => at.nanos <= now.nanos && now.nanos - at.nanos > PROGRESS_GRACE,
        None => false,
    }
}

/// The condition of provider publication. Renewal is paced over hours: silence
/// while idle is not a failed probe, only a continuous failure is a stall.
pub open spec fn dht_condition(health: HealthSnapshot, now: Mono) -> Condition {
    let publication = health.publication;
    let acknowledged = recent(publication.last_acknowledged_at, now, PROGRESS_GRACE);
    let expected = publication.resident > 0 && !publication.budget_exhausted;
    let outstanding = publication_outstanding(health);
    let failed = publication_failed(health, now);
    Condition {
        component: Component::Dht,
        collection: None,
        peer: None,
        state: if !expected {
            State::Unknown
        } else if acknowledged && !outstanding {
            State::Current
        } else if acknowledged || (outstanding && !failed) {
            State::Progressing
        } else if failed {
            State::Stalled
        } else {
            State::Unknown
        },
        alert: expected && failed,
    }
}

/// Everything that runtime evidence says at `now`.
pub open spec fn interpreted(health: HealthSnapshot, now: Mono) -> Seq<Condition> {
    (seq![host_condition(health, now), store_condition(health, now)] + all_collection_conditions(
        health,
        now,
        health.collections@.len(),
    )).push(dht_condition(health, now))
}

fn instant_not_after(at: Option<Mono>, than: Option<Mono>) -> (holds: bool)
    ensures
        holds == not_after(at, than),
{
    match (at, than) {
        (None, _) => true,
        (Some(_), None) => false,
        (Some(at), Some(than)) => at.nanos <= than.nanos,
    }
}

fn observe_peer(
    health: &HealthSnapshot,
    collection: &CollectionHealth,
    peer: &PeerHealth,
    now: Mono,
) -> (condition: Condition)
    ensures
        condition == peer_condition(*health, *collection, *peer, now),
{
    let comparison = health.comparison(peer, now, DEFAULT_MAX_AGE);
    let starting = within(peer.first_started_at, now, PROGRESS_GRACE);
    let state = match comparison {
        ComparisonState::Matching => State::Current,
        ComparisonState::Different => if within(peer.last_remote_change_at, now, PROGRESS_GRACE)
            || starting {
            State::Progressing
        } else {
            State::Stalled
        },
        ComparisonState::Unknown => State::Unknown,
        ComparisonState::NotApplicable => State::Unknown,
    };
    let measured = match peer.comparison {
        Some(comparison) => within(Some(comparison.observed_at), now, PROGRESS_GRACE),
        None => false,
    };
    // Comparison age alone is scheduler churn. It becomes actionable only when
    // the latest completed pull actually failed; a later success supersedes the
    // retained historical failure.
    let failed = match (peer.last_failure_at, peer.last_completed_at) {
        (Some(failure), Some(completed)) => failure.nanos == completed.nanos,
        _ => false,
    };
    // Unrelated local writes cannot disguise persistent divergence.
    let alert = comparison != ComparisonState::NotApplicable && !starting && (state
        == State::Stalled || (!measured && failed));
    Condition {
        component: Component::Collection,
        collection: Some(collection.collection),
        peer: Some(peer.peer),
        state,
        alert,
    }
}

fn observe_publication(health: &HealthSnapshot, now: Mono) -> (condition: Condition)
    ensures
        condition == dht_condition(*health, now),
{
    let publication = &health.publication;
    let acknowledged = within(publication.last_acknowledged_at, now, PROGRESS_GRACE);
    let expected = publication.resident > 0 && !publication.budget_exhausted;
    let outstanding = publication.startup_pending > 0 || publication.incremental_pending > 0
        || publication.retry_pending > 0 || publication.in_flight > 0;
    let since = if publication.unacknowledged_since.is_some() {
        publication.unacknowledged_since
    } else if outstanding {
        let last = if instant_not_after(
            publication.last_started_at,
            publication.last_acknowledged_at,
        ) {
            publication.last_acknowledged_at
        } else {
            publication.last_started_at
        };
        if last.is_some() {
            last
        } else {
            health.started_at
        }
    } else {
        None
    };
    let failed = match since {
        Some(at) => at.nanos <= now.nanos && now.nanos - at.nanos > PROGRESS_GRACE,
        None => false,
    };
    Condition {
        component: Component::Dht,
        collection: None,
        peer: None,
        state: if !expected {
            State::Unknown
        } else if acknowledged && !outstanding {
            State::Current
        } else if acknowledged || (outstanding && !failed) {
            State::Progressing
        } else if failed {
            State::Stalled
        } else {
            State::Unknown
        },
        alert: expected && failed,
    }
}

/// Interpret bounded runtime evidence, without causing any network work.
///
/// Comparisons are per recently observed participant, never an assertion that
/// every node in a globally enumerable swarm has the same data. Repeated
/// identical replies and unrelated local writes cannot postpone a stalled-peer
/// warning.
pub fn conditions(health: &HealthSnapshot, now: Mono) -> (conditions: Vec<Condition>)
    ensures
        conditions@ == interpreted(*health, now),
{
    let starting = within(health.started_at, now, PROGRESS_GRACE);
    let pulls = match health.direction {
        Some(direction) => direction.pulls(),
        None => false,
    };
    let blocked = health.direction.is_some() && !pulls;
    let host_fresh = health.is_fresh(now, HOST_MAX_AGE);
    let mut conditions: Vec<Condition> = Vec::new();
    conditions.push(
        Condition {
            component: Component::Host,
            collection: None,
            peer: None,
            state: if host_fresh {
                State::Current
            } else {
                State::Unknown
            },
            alert: !host_fresh && health.started_at.is_some() && !within(
                health.started_at,
                now,
                HOST_MAX_AGE,
            ),
        },
    );
    let store_current = health.store.serving_snapshot && within(
        health.store.last_snapshot_observed_at,
        now,
        HOST_MAX_AGE,
    ) && instant_not_after(health.store.last_failure_at, health.store.last_snapshot_observed_at);
    conditions.push(
        Condition {
            component: Component::Store,
            collection: None,
            peer: None,
            state: if store_current {
                State::Current
            } else {
                State::Unknown
            },
            alert: !store_current && !starting,
        },
    );
    let ghost head = seq![host_condition(*health, now), store_condition(*health, now)];
    assert(conditions@ =~= head + all_collection_conditions(*health, now, 0));
    let mut i: usize = 0;
    while i < health.collections.len()
        invariant
            i <= health.collections@.len(),
            conditions@ == head + all_collection_conditions(*health, now, i as nat),
            starting == recent(health.started_at, now, PROGRESS_GRACE),
            pulls == (health.direction is Some && health.direction->0.pulling()),
            blocked == (health.direction is Some && !health.direction->0.pulling()),
        decreases health.collections@.len() - i,
    {
        let collection = &health.collections[i];
        let ghost before = conditions@;
        let ghost whole = collection_conditions(*health, *collection, now);
        let alone = collection.peers.len() == 0 || blocked;
        if alone {
            conditions.push(
                Condition {
                    component: Component::Collection,
                    collection: Some(collection.collection),
                    peer: None,
                    state: State::Unknown,
                    alert: !starting && pulls,
                },
            );
        }
        let ghost offset: int = if alone {
            1
        } else {
            0
        };
        assert(conditions@ =~= before + whole.take(offset));
        let mut j: usize = 0;
        while j < collection.peers.len()
            invariant
                j <= collection.peers@.len(),
                whole == collection_conditions(*health, *collection, now),
                whole.len() == offset + collection.peers@.len(),
                0 <= offset <= 1,
                forall|k: int|
                    0 <= k < collection.peers@.len() ==> whole[offset + k] == peer_condition(
                        *health,
                        *collection,
                        #[trigger] collection.peers@[k],
                        now,
                    ),
                conditions@ == before + whole.take(offset + j),
            decreases collection.peers@.len() - j,
        {
            let peer = &collection.peers[j];
            conditions.push(observe_peer(health, collection, peer, now));
            j = j + 1;
            assert(whole.take(offset + j) =~= whole.take(offset + j - 1).push(
                peer_condition(*health, *collection, collection.peers@[j - 1], now),
            ));
            assert(conditions@ =~= before + whole.take(offset + j));
        }
        assert(whole.take(offset + j) =~= whole);
        i = i + 1;
        assert(conditions@ =~= head + all_collection_conditions(*health, now, i as nat));
    }
    conditions.push(observe_publication(health, now));
    conditions
}

/// A pair that differs, neither new nor lately changed at the other side, is a
/// stall and a reason to act, whatever was written locally and however often
/// the other side repeats its reply.
pub proof fn law_stalled_pair_is_reported(
    health: HealthSnapshot,
    collection: CollectionHealth,
    peer: PeerHealth,
    now: Mono,
)
    requires
        health.direction matches Some(direction) ==> direction.pulling(),
        peer.comparison is Some,
        recent(Some((peer.comparison->0).observed_at), now, DEFAULT_MAX_AGE),
        (peer.comparison->0).local != (peer.comparison->0).remote,
        !recent(peer.first_started_at, now, PROGRESS_GRACE),
        !recent(peer.last_remote_change_at, now, PROGRESS_GRACE),
    ensures
        peer_condition(health, collection, peer, now).state == State::Stalled,
        peer_condition(health, collection, peer, now).alert,
{
}

/// A comparison that has merely grown old is unknown, and no reason to act
/// unless the latest completed pull failed.
pub proof fn law_age_alone_is_no_alert(
    health: HealthSnapshot,
    collection: CollectionHealth,
    peer: PeerHealth,
    now: Mono,
)
    requires
        peer.comparison matches Some(comparison) ==> !recent(
            Some(comparison.observed_at),
            now,
            DEFAULT_MAX_AGE,
        ),
    ensures
        peer_condition(health, collection, peer, now).state == State::Unknown,
        peer_condition(health, collection, peer, now).alert ==> peer.last_failure_at is Some
            && peer.last_failure_at == peer.last_completed_at,
{
}

/// A host that is not polled is reported once it has had time to be, however
/// fresh everything else is.
pub proof fn law_unpolled_host_is_reported(health: HealthSnapshot, now: Mono)
    requires
        !recent(health.observed_at, now, HOST_MAX_AGE),
        health.started_at is Some,
        !recent(health.started_at, now, HOST_MAX_AGE),
    ensures
        interpreted(health, now)[0].component == Component::Host,
        interpreted(health, now)[0].state == State::Unknown,
        interpreted(health, now)[0].alert,
{
}

/// The first collection of the given handle.
pub open spec fn collection_named(
    collections: Seq<CollectionHealth>,
    handle: [u8; 32],
) -> Option<CollectionHealth>
    decreases collections.len(),
{
    if collections.len() == 0 {
        None
    } else if collections[0].collection == handle {
        Some(collections[0])
    } else {
        collection_named(collections.drop_first(), handle)
    }
}

/// The first peer of the given key.
pub open spec fn peer_named(peers: Seq<PeerHealth>, key: PeerId) -> Option<PeerHealth>
    decreases peers.len(),
{
    if peers.len() == 0 {
        None
    } else if peers[0].peer == key {
        Some(peers[0])
    } else {
        peer_named(peers.drop_first(), key)
    }
}

/// The counters that belong to a condition. Pairwise roots are not turned into
/// claims of blob availability.
pub open spec fn evidence_for(health: HealthSnapshot, condition: Condition) -> Evidence {
    match condition.component {
        Component::Host => Evidence::nothing(),
        Component::Store => Evidence {
            resident_blobs: Some(health.store.resident_blobs),
            ..Evidence::nothing()
        },
        Component::Collection => {
            let collection = match condition.collection {
                Some(handle) => collection_named(health.collections@, handle),
                None => None,
            };
            let local = match collection {
                Some(collection) => collection.local_frontier,
                None => None,
            };
            let peer = match (collection, condition.peer) {
                (Some(collection), Some(key)) => peer_named(collection.peers@, key),
                _ => None,
            };
            let remote = match peer {
                Some(peer) => match peer.comparison {
                    Some(comparison) => Some(comparison.remote),
                    None => None,
                },
                None => None,
            };
            Evidence {
                local_records: match local {
                    Some(frontier) => Some(frontier.records.leaves()),
                    None => None,
                },
                local_authorizations: match local {
                    Some(frontier) => Some(frontier.authorization_evidence.leaves()),
                    None => None,
                },
                remote_records: match remote {
                    Some(frontier) => Some(frontier.records.leaves()),
                    None => None,
                },
                remote_authorizations: match remote {
                    Some(frontier) => Some(frontier.authorization_evidence.leaves()),
                    None => None,
                },
                ..Evidence::nothing()
            }
        },
        Component::Dht => {
            let publication = health.publication;
            Evidence {
                publication_keys: Some(publication.resident),
                publication_startup_pending: Some(publication.startup_pending),
                publication_incremental_pending: Some(publication.incremental_pending),
                publication_retry_pending: Some(publication.retry_pending),
                publication_renewal_remaining: Some(publication.renewal_remaining),
                publication_in_flight: Some(publication.in_flight as u64),
                publication_attempts: Some(publication.attempts),
                publication_acknowledged: Some(publication.acknowledged),
                publication_rejected: Some(publication.rejected),
                publication_unavailable: Some(publication.unavailable),
                ..Evidence::nothing()
            }
        },
    }
}

fn find_collection<'a>(health: &'a HealthSnapshot, handle: &[u8; 32]) -> (found: Option<
    &'a CollectionHealth,
>)
    ensures
        match found {
            Some(found) => collection_named(health.collections@, *handle) == Some(*found),
            None => collection_named(health.collections@, *handle) is None,
        },
{
    let mut i: usize = 0;
    assert(health.collections@.skip(0) =~= health.collections@);
    while i < health.collections.len()
        invariant
            i <= health.collections@.len(),
            collection_named(health.collections@, *handle) == collection_named(
                health.collections@.skip(i as int),
                *handle,
            ),
        decreases health.collections@.len() - i,
    {
        assert(health.collections@.skip(i as int).drop_first() =~= health.collections@.skip(i + 1));
        if same(&health.collections[i].collection, handle) {
            return Some(&health.collections[i]);
        }
        i = i + 1;
    }
    None
}

fn find_peer<'a>(collection: &'a CollectionHealth, key: &PeerId) -> (found: Option<&'a PeerHealth>)
    ensures
        match found {
            Some(found) => peer_named(collection.peers@, *key) == Some(*found),
            None => peer_named(collection.peers@, *key) is None,
        },
{
    let mut i: usize = 0;
    assert(collection.peers@.skip(0) =~= collection.peers@);
    while i < collection.peers.len()
        invariant
            i <= collection.peers@.len(),
            peer_named(collection.peers@, *key) == peer_named(
                collection.peers@.skip(i as int),
                *key,
            ),
        decreases collection.peers@.len() - i,
    {
        assert(collection.peers@.skip(i as int).drop_first() =~= collection.peers@.skip(i + 1));
        if same(&collection.peers[i].peer, key) {
            return Some(&collection.peers[i]);
        }
        i = i + 1;
    }
    None
}

fn count_evidence(health: &HealthSnapshot, condition: &Condition) -> (evidence: Evidence)
    ensures
        evidence == evidence_for(*health, *condition),
{
    let mut evidence = Evidence::default();
    match condition.component {
        Component::Host => {},
        Component::Store => {
            evidence.resident_blobs = Some(health.store.resident_blobs);
        },
        Component::Collection => {
            if let Some(handle) = condition.collection {
                if let Some(collection) = find_collection(health, &handle) {
                    if let Some(local) = collection.local_frontier {
                        evidence.local_records = Some(local.records.leaf_count());
                        evidence.local_authorizations = Some(
                            local.authorization_evidence.leaf_count(),
                        );
                    }
                    if let Some(key) = condition.peer {
                        if let Some(peer) = find_peer(collection, &key) {
                            if let Some(comparison) = peer.comparison {
                                evidence.remote_records = Some(
                                    comparison.remote.records.leaf_count(),
                                );
                                evidence.remote_authorizations = Some(
                                    comparison.remote.authorization_evidence.leaf_count(),
                                );
                            }
                        }
                    }
                }
            }
        },
        Component::Dht => {
            let publication = &health.publication;
            evidence.publication_keys = Some(publication.resident);
            evidence.publication_startup_pending = Some(publication.startup_pending);
            evidence.publication_incremental_pending = Some(publication.incremental_pending);
            evidence.publication_retry_pending = Some(publication.retry_pending);
            evidence.publication_renewal_remaining = Some(publication.renewal_remaining);
            evidence.publication_in_flight = Some(publication.in_flight as u64);
            evidence.publication_attempts = Some(publication.attempts);
            evidence.publication_acknowledged = Some(publication.acknowledged);
            evidence.publication_rejected = Some(publication.rejected);
            evidence.publication_unavailable = Some(publication.unavailable);
        },
    }
    evidence
}

/// Interpret qualitative conditions and retain their independently observed
/// counters.
pub fn measurements(health: &HealthSnapshot, now: Mono) -> (measured: Vec<Measurement>)
    ensures
        measured@ == interpreted(*health, now).map_values(
            |condition: Condition|
                Measurement { condition, evidence: evidence_for(*health, condition) },
        ),
{
    let conditions = conditions(health, now);
    let mut measured: Vec<Measurement> = Vec::new();
    let mut i: usize = 0;
    while i < conditions.len()
        invariant
            i <= conditions@.len(),
            measured@.len() == i,
            forall|j: int|
                0 <= j < i ==> #[trigger] measured@[j] == (Measurement {
                    condition: conditions@[j],
                    evidence: evidence_for(*health, conditions@[j]),
                }),
        decreases conditions@.len() - i,
    {
        let condition = conditions[i];
        measured.push(Measurement { condition, evidence: count_evidence(health, &condition) });
        i = i + 1;
    }
    assert(measured@ =~= interpreted(*health, now).map_values(
        |condition: Condition|
            Measurement { condition, evidence: evidence_for(*health, condition) },
    ));
    measured
}

/// What a condition is about.
pub type Subject = (Component, Option<[u8; 32]>, Option<PeerId>);

/// A stretch of time in which a condition and its counters stay the same. The
/// episode is identified by what it says.
#[derive(Clone, Copy, Debug, PartialEq, Eq)]
pub struct Episode {
    pub condition: Condition,
    pub evidence: Evidence,
    /// Whether a previously reported failure is over.
    pub recovered: bool,
    /// When the episode began, in nanoseconds.
    pub started_ns: i128,
}

/// One heartbeat: the observer, its process lifetime, when it was made, and the
/// current condition episodes.
#[derive(Debug)]
pub struct HealthReport {
    pub endpoint: PeerId,
    pub session: Id,
    pub created_ns: i128,
    pub conditions: Vec<Episode>,
}

/// What a condition is about.
pub open spec fn subject_of(condition: Condition) -> Subject {
    (condition.component, condition.collection, condition.peer)
}

/// The number of a component.
pub open spec fn component_number(component: Component) -> u8 {
    match component {
        Component::Host => 0,
        Component::Store => 1,
        Component::Collection => 2,
        Component::Dht => 3,
    }
}

/// An optional key written down: whether it is there, and its bytes or zeros.
pub open spec fn optional_bytes(key: Option<[u8; 32]>) -> Seq<u8> {
    match key {
        Some(key) => seq![1u8] + key@,
        None => seq![0u8] + Seq::new(32, |i: int| 0u8),
    }
}

/// A subject written down: component, collection and peer.
pub open spec fn subject_bytes(subject: Subject) -> Seq<u8> {
    seq![component_number(subject.0)] + optional_bytes(subject.1) + optional_bytes(subject.2)
}

/// No two subjects are written down alike.
pub proof fn lemma_subject_bytes()
    ensures
        unambiguous(|subject: Subject| subject_bytes(subject)),
{
    assert forall|a: Subject, b: Subject| subject_bytes(a) == subject_bytes(b) implies a == b by {
        let x = subject_bytes(a);
        let y = subject_bytes(b);
        assert(x[0] == component_number(a.0));
        assert(y[0] == component_number(b.0));
        assert(x.subrange(1, 34) =~= optional_bytes(a.1));
        assert(y.subrange(1, 34) =~= optional_bytes(b.1));
        assert(x.subrange(34, 67) =~= optional_bytes(a.2));
        assert(y.subrange(34, 67) =~= optional_bytes(b.2));
        lemma_optional_bytes(a.1, b.1);
        lemma_optional_bytes(a.2, b.2);
    }
    let encode = |subject: Subject| subject_bytes(subject);
    assert forall|a: Subject, b: Subject| #[trigger] encode(a) == #[trigger] encode(b) implies a
        == b by {
        assert(subject_bytes(a) == subject_bytes(b));
    }
}

proof fn lemma_optional_bytes(a: Option<[u8; 32]>, b: Option<[u8; 32]>)
    requires
        optional_bytes(a) == optional_bytes(b),
    ensures
        a == b,
{
    let x = optional_bytes(a);
    assert(x[0] == if a is Some {
        1u8
    } else {
        0u8
    });
    assert(x[0] == if b is Some {
        1u8
    } else {
        0u8
    });
    if a is Some {
        assert(x.subrange(1, 33) =~= a->0@);
        assert(x.subrange(1, 33) =~= b->0@);
        lemma_same_bytes(a->0, b->0);
    }
}

fn subject_key(condition: &Condition) -> (key: [u8; 67])
    ensures
        key@ == subject_bytes(subject_of(*condition)),
{
    let mut key: [u8; 67] = [0; 67];
    key[0] = match condition.component {
        Component::Host => 0,
        Component::Store => 1,
        Component::Collection => 2,
        Component::Dht => 3,
    };
    if let Some(collection) = condition.collection {
        key[1] = 1;
        let mut i: usize = 0;
        while i < 32
            invariant
                i <= 32,
                key@[0] == component_number(condition.component),
                key@[1] == 1,
                forall|j: int| 0 <= j < i ==> #[trigger] key@[2 + j] == collection@[j],
                forall|j: int| 34 <= j < 67 ==> #[trigger] key@[j] == 0,
            decreases 32 - i,
        {
            key[2 + i] = collection[i];
            i = i + 1;
        }
        assert(key@.subrange(1, 34) =~= optional_bytes(condition.collection)) by {
            assert forall|j: int| 1 <= j < 33 implies #[trigger] key@.subrange(1, 34)[j]
                == optional_bytes(condition.collection)[j] by {
                assert(key@[2 + (j - 1)] == collection@[j - 1]);
            }
        }
    } else {
        assert(key@.subrange(1, 34) =~= optional_bytes(condition.collection));
    }
    let ghost middle = key@.subrange(1, 34);
    if let Some(peer) = condition.peer {
        key[34] = 1;
        let mut i: usize = 0;
        assert(key@.subrange(1, 34) =~= middle);
        while i < 32
            invariant
                i <= 32,
                key@[0] == component_number(condition.component),
                key@.subrange(1, 34) == middle,
                key@[34] == 1,
                forall|j: int| 0 <= j < i ==> #[trigger] key@[35 + j] == peer@[j],
            decreases 32 - i,
        {
            key[35 + i] = peer[i];
            i = i + 1;
            assert(key@.subrange(1, 34) =~= middle);
        }
        assert(key@.subrange(34, 67) =~= optional_bytes(condition.peer)) by {
            assert forall|j: int| 1 <= j < 33 implies #[trigger] key@.subrange(34, 67)[j]
                == optional_bytes(condition.peer)[j] by {
                assert(key@[35 + (j - 1)] == peer@[j - 1]);
            }
        }
    } else {
        assert(key@.subrange(34, 67) =~= optional_bytes(condition.peer));
    }
    assert(key@ =~= seq![key@[0]] + key@.subrange(1, 34) + key@.subrange(34, 67));
    key
}

/// The episode that a measurement continues or begins. A counter change begins
/// a new episode even when the qualitative state is unchanged, so that the
/// latest report never keeps stale measurements alive. Recovery is evidence of
/// a previously reported failure, not an ordinary healthy startup.
pub open spec fn episode_after(
    previous: Option<Episode>,
    measurement: Measurement,
    created_ns: i128,
) -> Episode {
    let condition = measurement.condition;
    match previous {
        Some(previous) if previous.condition.state == condition.state && previous.condition.alert
            == condition.alert && previous.evidence == measurement.evidence => previous,
        _ => Episode {
            condition,
            evidence: measurement.evidence,
            recovered: previous is Some && (previous->0).condition.alert && !condition.alert
                && condition.state == State::Current,
            started_ns: created_ns,
        },
    }
}

/// The episodes after a heartbeat: one per subject that was measured, the last
/// measurement of a subject counting.
pub open spec fn episodes_after(
    episodes: Map<Subject, Episode>,
    measurements: Seq<Measurement>,
    created_ns: i128,
) -> Map<Subject, Episode>
    decreases measurements.len(),
{
    if measurements.len() == 0 {
        Map::empty()
    } else {
        let last = measurements.last();
        let subject = subject_of(last.condition);
        episodes_after(episodes, measurements.drop_last(), created_ns).insert(
            subject,
            episode_after(episodes.get(subject), last, created_ns),
        )
    }
}

/// Whether every entry of an index stands at the key that writes down what its
/// condition is about. Nothing else is in the index.
pub open spec fn subjects_only(index: Map<[u8; 67], Episode>) -> bool {
    forall|key: [u8; 67]| #[trigger]
        index.contains_key(key) ==> key@ == subject_bytes(subject_of(index[key].condition))
}

/// Whether a report lists exactly the given episodes: the one of each subject
/// once, in the order of the subjects as they are written down.
pub open spec fn lists_episodes(
    conditions: Seq<Episode>,
    episodes: Map<Subject, Episode>,
) -> bool {
    &&& conditions.len() == episodes.dom().len()
    &&& forall|i: int|
        0 <= i < conditions.len() ==> episodes.contains_pair(
            subject_of((#[trigger] conditions[i]).condition),
            conditions[i],
        )
    &&& forall|subject: Subject| #[trigger]
        episodes.contains_key(subject) ==> conditions.contains(episodes[subject]) && subject_of(
            episodes[subject].condition,
        ) == subject
    &&& forall|i: int, j: int|
        0 <= i < j < conditions.len() ==> big_endian(
            subject_bytes(subject_of((#[trigger] conditions[i]).condition)),
        ) < big_endian(subject_bytes(subject_of((#[trigger] conditions[j]).condition)))
}

/// The episodes of an index, in the order of its keys, are those of the
/// subjects.
proof fn lemma_listed(entries: Seq<([u8; 67], Episode)>, conditions: Seq<Episode>)
    requires
        ascending(entries),
        subjects_only(contents(entries)),
        conditions == entries.map_values(|entry: ([u8; 67], Episode)| entry.1),
    ensures
        lists_episodes(
            conditions,
            decoded(contents(entries), |subject: Subject| subject_bytes(subject)),
        ),
{
    let encode = |subject: Subject| subject_bytes(subject);
    let index = contents(entries);
    let episodes = decoded(index, encode);
    lemma_contents(entries);
    lemma_subject_bytes();
    let subjects = conditions.map_values(|episode: Episode| subject_of(episode.condition));
    assert forall|i: int| 0 <= i < conditions.len() implies episodes.contains_pair(
        subject_of((#[trigger] conditions[i]).condition),
        conditions[i],
    ) && big_endian(subject_bytes(subject_of(conditions[i].condition))) == rank(entries[i].0) by {
        let key = entries[i].0;
        assert(index.contains_key(key) && index[key] == conditions[i]);
        lemma_decoded(index, encode, key, subject_of(conditions[i].condition));
    }
    assert forall|subject: Subject| #[trigger]
        episodes.contains_key(subject) implies conditions.contains(episodes[subject])
        && subject_of(episodes[subject].condition) == subject && subjects.contains(subject) by {
        let key = choose|key: [u8; 67]| #[trigger]
            index.contains_key(key) && key@ == encode(subject);
        lemma_decoded(index, encode, key, subject);
        let i = choose|i: int| 0 <= i < entries.len() && #[trigger] entries[i].0 == key;
        assert(conditions[i] == episodes[subject]);
        assert(encode(subject_of(conditions[i].condition)) == encode(subject));
        assert(subjects[i] == subject);
    }
    assert forall|i: int, j: int| 0 <= i < j < conditions.len() implies big_endian(
        subject_bytes(subject_of((#[trigger] conditions[i]).condition)),
    ) < big_endian(subject_bytes(subject_of((#[trigger] conditions[j]).condition))) by {
        assert(rank(entries[i].0) < rank(entries[j].0));
    }
    assert(subjects.no_duplicates()) by {
        assert forall|i: int, j: int|
            0 <= i < subjects.len() && 0 <= j < subjects.len() && i != j implies subjects[i]
            != subjects[j] by {
            if i < j {
                assert(big_endian(subject_bytes(subject_of(conditions[i].condition))) < big_endian(
                    subject_bytes(subject_of(conditions[j].condition)),
                ));
            } else {
                assert(big_endian(subject_bytes(subject_of(conditions[j].condition))) < big_endian(
                    subject_bytes(subject_of(conditions[i].condition)),
                ));
            }
        }
    }
    subjects.unique_seq_to_set();
    assert(subjects.to_set() =~= episodes.dom()) by {
        assert forall|subject: Subject| subjects.to_set().contains(
            subject,
        ) implies episodes.dom().contains(subject) by {
            let i = choose|i: int| 0 <= i < subjects.len() && subjects[i] == subject;
            assert(episodes.contains_pair(subject_of(conditions[i].condition), conditions[i]));
        }
    }
}

/// Turns a process's own observations into reports. Only unchanged condition
/// episodes are retained in memory, so periodic heartbeats do not generate a
/// new alert each time.
#[derive(Debug)]
pub struct Recorder {
    endpoint: PeerId,
    session: Id,
    episodes: KeyMap<67, Episode>,
}

impl Recorder {
    /// Each episode is kept under its own subject, and nothing else is kept.
    #[verifier::type_invariant]
    spec fn well_formed(self) -> bool {
        subjects_only(self.episodes@)
    }

    /// The key of the node that reports.
    pub closed spec fn node(&self) -> PeerId {
        self.endpoint
    }

    /// The process lifetime that is reported.
    pub closed spec fn lifetime(&self) -> Id {
        self.session
    }

    /// The current episodes.
    pub closed spec fn current(&self) -> Map<Subject, Episode> {
        decoded(self.episodes@, |subject: Subject| subject_bytes(subject))
    }

    /// A recorder of the node at `endpoint`, for one process lifetime.
    pub fn new(endpoint: PeerId, session: Id) -> (recorder: Self)
        ensures
            recorder.node() == endpoint,
            recorder.lifetime() == session,
            recorder.current() == Map::<Subject, Episode>::empty(),
    {
        proof {
            lemma_decoded_empty::<Subject, Episode, 67>(
                |subject: Subject| subject_bytes(subject),
            );
        }
        Recorder { endpoint, session, episodes: KeyMap::new() }
    }

    /// Construct one heartbeat and its current conditions, without counters.
    pub fn record(&mut self, created_ns: i128, conditions: &[Condition]) -> (report: HealthReport)
        ensures
            final(self).node() == old(self).node(),
            final(self).lifetime() == old(self).lifetime(),
            final(self).current() == episodes_after(
                old(self).current(),
                conditions@.map_values(
                    |condition: Condition|
                        Measurement { condition, evidence: Evidence::nothing() },
                ),
                created_ns,
            ),
            report.endpoint == old(self).node(),
            report.session == old(self).lifetime(),
            report.created_ns == created_ns,
            lists_episodes(report.conditions@, final(self).current()),
    {
        let mut measurements: Vec<Measurement> = Vec::new();
        let mut i: usize = 0;
        while i < conditions.len()
            invariant
                i <= conditions@.len(),
                measurements@.len() == i,
                forall|j: int|
                    0 <= j < i ==> #[trigger] measurements@[j] == (Measurement {
                        condition: conditions@[j],
                        evidence: Evidence::nothing(),
                    }),
            decreases conditions@.len() - i,
        {
            measurements.push(
                Measurement { condition: conditions[i], evidence: Evidence::default() },
            );
            i = i + 1;
        }
        assert(measurements@ =~= conditions@.map_values(
            |condition: Condition| Measurement { condition, evidence: Evidence::nothing() },
        ));
        self.record_measurements(created_ns, &measurements)
    }

    /// Construct one heartbeat with quantitative evidence.
    ///
    /// The report records only its creation time. Readers decide when its age
    /// makes it stale.
    pub fn record_measurements(
        &mut self,
        created_ns: i128,
        measurements: &[Measurement],
    ) -> (report: HealthReport)
        ensures
            final(self).node() == old(self).node(),
            final(self).lifetime() == old(self).lifetime(),
            final(self).current() == episodes_after(
                old(self).current(),
                measurements@,
                created_ns,
            ),
            report.endpoint == old(self).node(),
            report.session == old(self).lifetime(),
            report.created_ns == created_ns,
            lists_episodes(report.conditions@, final(self).current()),
    {
        let ghost encode = |subject: Subject| subject_bytes(subject);
        let mut next: KeyMap<67, Episode> = KeyMap::new();
        let mut i: usize = 0;
        proof {
            use_type_invariant(&*self);
            lemma_decoded_empty::<Subject, Episode, 67>(encode);
            lemma_subject_bytes();
        }
        while i < measurements.len()
            invariant
                i <= measurements@.len(),
                *self == *old(self),
                subjects_only(self.episodes@),
                subjects_only(next@),
                encode == (|subject: Subject| subject_bytes(subject)),
                unambiguous(encode),
                decoded(next@, encode) == episodes_after(
                    self.current(),
                    measurements@.take(i as int),
                    created_ns,
                ),
            decreases measurements@.len() - i,
        {
            let measurement = measurements[i];
            let condition = measurement.condition;
            let subject = subject_key(&condition);
            let previous = self.episodes.get(&subject);
            proof {
                lemma_decoded(self.episodes@, encode, subject, subject_of(condition));
            }
            let kept = match &previous {
                Some(previous) => previous.condition.state == condition.state
                    && previous.condition.alert == condition.alert && previous.evidence
                    == measurement.evidence,
                None => false,
            };
            let episode = match previous {
                Some(previous) if kept => previous,
                _ => {
                    let failed = match &previous {
                        Some(previous) => previous.condition.alert,
                        None => false,
                    };
                    Episode {
                        condition,
                        evidence: measurement.evidence,
                        recovered: failed && !condition.alert && condition.state == State::Current,
                        started_ns: created_ns,
                    }
                },
            };
            proof {
                lemma_decoded_insert(next@, encode, subject, subject_of(condition), episode);
                if kept {
                    assert(encode(subject_of(episode.condition)) == encode(subject_of(condition)));
                }
                let front = measurements@.take(i + 1);
                assert(front.drop_last() =~= measurements@.take(i as int));
                assert(front.last() == measurement);
            }
            next.insert(subject, episode);
            i = i + 1;
        }
        assert(measurements@.take(i as int) =~= measurements@);
        self.episodes = next;
        let entries = self.episodes.entries();
        let mut conditions: Vec<Episode> = Vec::new();
        let mut j: usize = 0;
        while j < entries.len()
            invariant
                j <= entries@.len(),
                conditions@.len() == j,
                forall|k: int| 0 <= k < j ==> #[trigger] conditions@[k] == entries@[k].1,
            decreases entries@.len() - j,
        {
            conditions.push(entries[j].1);
            j = j + 1;
        }
        proof {
            assert(conditions@ =~= entries@.map_values(|entry: ([u8; 67], Episode)| entry.1));
            lemma_listed(entries@, conditions@);
        }
        HealthReport { endpoint: self.endpoint, session: self.session, created_ns, conditions }
    }
}

/// The last measurement of a subject.
pub open spec fn last_measured(measurements: Seq<Measurement>, subject: Subject) -> Option<
    Measurement,
>
    decreases measurements.len(),
{
    if measurements.len() == 0 {
        None
    } else if subject_of(measurements.last().condition) == subject {
        Some(measurements.last())
    } else {
        last_measured(measurements.drop_last(), subject)
    }
}

/// Exactly the measured subjects have an episode, each after its last
/// measurement.
pub proof fn law_episodes_follow_the_last_measurement(
    episodes: Map<Subject, Episode>,
    measurements: Seq<Measurement>,
    created_ns: i128,
    subject: Subject,
)
    ensures
        episodes_after(episodes, measurements, created_ns).get(subject) == match last_measured(
            measurements,
            subject,
        ) {
            Some(measurement) => Some(
                episode_after(episodes.get(subject), measurement, created_ns),
            ),
            None => None,
        },
    decreases measurements.len(),
{
    if measurements.len() > 0 {
        law_episodes_follow_the_last_measurement(
            episodes,
            measurements.drop_last(),
            created_ns,
            subject,
        );
    }
}

/// A heartbeat that measures what the one before it measured changes no
/// episode: no new alert, and no new recovery.
pub proof fn law_unchanged_heartbeat_keeps_its_episodes(
    episodes: Map<Subject, Episode>,
    measurements: Seq<Measurement>,
    first_ns: i128,
    second_ns: i128,
)
    ensures
        ({
            let first = episodes_after(episodes, measurements, first_ns);
            episodes_after(first, measurements, second_ns) == first
        }),
{
    let first = episodes_after(episodes, measurements, first_ns);
    let second = episodes_after(first, measurements, second_ns);
    assert forall|subject: Subject| #[trigger] first.dom().contains(subject)
        == second.dom().contains(subject) && (first.dom().contains(subject) ==> first[subject]
        == second[subject]) by {
        law_episodes_follow_the_last_measurement(episodes, measurements, first_ns, subject);
        law_episodes_follow_the_last_measurement(first, measurements, second_ns, subject);
        assert(first.get(subject) == second.get(subject));
    }
    assert(second =~= first);
}

/// A new episode is a recovery exactly if it ends a reported failure.
pub proof fn law_recovery_ends_a_reported_failure(
    previous: Option<Episode>,
    measurement: Measurement,
    created_ns: i128,
)
    ensures
        ({
            let episode = episode_after(previous, measurement, created_ns);
            &&& episode.condition.state == measurement.condition.state
            &&& episode.condition.alert == measurement.condition.alert
            &&& episode.evidence == measurement.evidence
            &&& previous is None ==> !episode.recovered
            &&& previous is Some && episode != previous->0 ==> (episode.recovered
                <==> (previous->0).condition.alert && !measurement.condition.alert
                && measurement.condition.state == State::Current)
        }),
{
}

/// Whether two measurements agree in state, alert and counters.
pub open spec fn agree(a: Measurement, b: Measurement) -> bool {
    &&& a.condition.state == b.condition.state
    &&& a.condition.alert == b.condition.alert
    &&& a.evidence == b.evidence
}

/// A report has one condition of a measured subject, and it says what was
/// measured last. It is the condition of the report before exactly if the two
/// measurements agree. A new condition begins with its report, and is a recovery
/// exactly if the measurement before was an alert and this one is current and
/// none; the first measurement of a subject is no recovery.
pub proof fn law_conditions_follow_the_last_two_measurements(
    episodes: Map<Subject, Episode>,
    first: Seq<Measurement>,
    first_ns: i128,
    shown: Seq<Episode>,
    second: Seq<Measurement>,
    second_ns: i128,
    then: Seq<Episode>,
    subject: Subject,
    measurement: Measurement,
) -> (at: int)
    requires
        lists_episodes(shown, episodes_after(episodes, first, first_ns)),
        lists_episodes(
            then,
            episodes_after(episodes_after(episodes, first, first_ns), second, second_ns),
        ),
        last_measured(second, subject) == Some(measurement),
    ensures
        0 <= at < then.len(),
        then[at].condition == measurement.condition,
        then[at].evidence == measurement.evidence,
        forall|j: int|
            0 <= j < then.len() && subject_of((#[trigger] then[j]).condition) == subject ==> j == at,
        match last_measured(first, subject) {
            Some(previous) => {
                &&& shown.contains(then[at]) <==> agree(previous, measurement)
                &&& !agree(previous, measurement) ==> then[at].started_ns == second_ns && (
                then[at].recovered <==> previous.condition.alert && !measurement.condition.alert
                    && measurement.condition.state == State::Current)
            },
            None => {
                &&& !shown.contains(then[at])
                &&& then[at].started_ns == second_ns
                &&& !then[at].recovered
            },
        },
{
    let middle = episodes_after(episodes, first, first_ns);
    let last = episodes_after(middle, second, second_ns);
    law_episodes_follow_the_last_measurement(episodes, first, first_ns, subject);
    law_episodes_follow_the_last_measurement(middle, second, second_ns, subject);
    lemma_last_measured(second, subject);
    lemma_last_measured(first, subject);
    assert(last.contains_key(subject));
    let at = choose|at: int| 0 <= at < then.len() && then[at] == last[subject];
    assert(subject_of(then[at].condition) == subject);
    assert forall|j: int|
        0 <= j < then.len() && subject_of((#[trigger] then[j]).condition) == subject implies j
        == at by {
        if j < at {
            assert(big_endian(subject_bytes(subject_of(then[j].condition))) < big_endian(
                subject_bytes(subject_of(then[at].condition)),
            ));
        } else if at < j {
            assert(big_endian(subject_bytes(subject_of(then[at].condition))) < big_endian(
                subject_bytes(subject_of(then[j].condition)),
            ));
        }
    }
    if shown.contains(then[at]) {
        let i = choose|i: int| 0 <= i < shown.len() && shown[i] == then[at];
        assert(middle.contains_pair(subject_of(shown[i].condition), shown[i]));
    }
    if middle.contains_key(subject) {
        assert(shown.contains(middle[subject]));
    }
    at
}

/// The last measurement of a subject is about it.
proof fn lemma_last_measured(measurements: Seq<Measurement>, subject: Subject)
    ensures
        last_measured(measurements, subject) matches Some(measurement) ==> subject_of(
            measurement.condition,
        ) == subject,
    decreases measurements.len(),
{
    if measurements.len() > 0 {
        lemma_last_measured(measurements.drop_last(), subject);
    }
}

/// A report has as many conditions as subjects were measured, so a heartbeat
/// with one measurement has one condition.
pub proof fn law_one_measurement_is_one_condition(
    episodes: Map<Subject, Episode>,
    measurement: Measurement,
    created_ns: i128,
    conditions: Seq<Episode>,
)
    requires
        lists_episodes(conditions, episodes_after(episodes, seq![measurement], created_ns)),
    ensures
        conditions == seq![
            episode_after(
                episodes.get(subject_of(measurement.condition)),
                measurement,
                created_ns,
            ),
        ],
{
    let measured = seq![measurement];
    let subject = subject_of(measurement.condition);
    let episode = episode_after(episodes.get(subject), measurement, created_ns);
    assert(measured.drop_last() =~= Seq::empty());
    assert(episodes_after(episodes, measured.drop_last(), created_ns) == Map::<
        Subject,
        Episode,
    >::empty());
    let after = episodes_after(episodes, measured, created_ns);
    assert(after =~= Map::<Subject, Episode>::empty().insert(subject, episode));
    assert(after.dom() =~= Set::<Subject>::empty().insert(subject));
    assert(after.dom().len() == 1);
    assert(after.contains_pair(subject_of(conditions[0].condition), conditions[0]));
    assert(conditions =~= seq![episode]);
}

/// A quantity that a condition episode may carry.
#[derive(Clone, Copy, Debug, PartialEq, Eq, Structural)]
pub enum Metric {
    ResidentBlobs,
    LocalRecords,
    LocalAuthorizations,
    RemoteRecords,
    RemoteAuthorizations,
    PublicationKeys,
    PublicationStartupPending,
    PublicationIncrementalPending,
    PublicationRetryPending,
    PublicationRenewalRemaining,
    PublicationInFlight,
    PublicationAttempts,
    PublicationAcknowledged,
    PublicationRejected,
    PublicationUnavailable,
}

impl Evidence {
    /// What was counted of a quantity.
    pub open spec fn counted(self, metric: Metric) -> Option<u64> {
        match metric {
            Metric::ResidentBlobs => self.resident_blobs,
            Metric::LocalRecords => self.local_records,
            Metric::LocalAuthorizations => self.local_authorizations,
            Metric::RemoteRecords => self.remote_records,
            Metric::RemoteAuthorizations => self.remote_authorizations,
            Metric::PublicationKeys => self.publication_keys,
            Metric::PublicationStartupPending => self.publication_startup_pending,
            Metric::PublicationIncrementalPending => self.publication_incremental_pending,
            Metric::PublicationRetryPending => self.publication_retry_pending,
            Metric::PublicationRenewalRemaining => self.publication_renewal_remaining,
            Metric::PublicationInFlight => self.publication_in_flight,
            Metric::PublicationAttempts => self.publication_attempts,
            Metric::PublicationAcknowledged => self.publication_acknowledged,
            Metric::PublicationRejected => self.publication_rejected,
            Metric::PublicationUnavailable => self.publication_unavailable,
        }
    }

    /// What was counted of a quantity.
    pub fn count(&self, metric: Metric) -> (count: Option<u64>)
        ensures
            count == self.counted(metric),
    {
        match metric {
            Metric::ResidentBlobs => self.resident_blobs,
            Metric::LocalRecords => self.local_records,
            Metric::LocalAuthorizations => self.local_authorizations,
            Metric::RemoteRecords => self.remote_records,
            Metric::RemoteAuthorizations => self.remote_authorizations,
            Metric::PublicationKeys => self.publication_keys,
            Metric::PublicationStartupPending => self.publication_startup_pending,
            Metric::PublicationIncrementalPending => self.publication_incremental_pending,
            Metric::PublicationRetryPending => self.publication_retry_pending,
            Metric::PublicationRenewalRemaining => self.publication_renewal_remaining,
            Metric::PublicationInFlight => self.publication_in_flight,
            Metric::PublicationAttempts => self.publication_attempts,
            Metric::PublicationAcknowledged => self.publication_acknowledged,
            Metric::PublicationRejected => self.publication_rejected,
            Metric::PublicationUnavailable => self.publication_unavailable,
        }
    }
}

/// One fact of a health report. Facts form a set: neither their order nor their
/// repetition says anything.
#[derive(Clone, Copy, Debug, PartialEq, Eq)]
pub enum HealthFact {
    Tag { entity: Id, tag: Id },
    Node { entity: Id, node: Id },
    Endpoint { entity: Id, endpoint: PeerId },
    Session { entity: Id, session: Id },
    CreatedAt { entity: Id, earliest: i128, latest: i128 },
    StartedAt { entity: Id, earliest: i128, latest: i128 },
    Condition { entity: Id, condition: Id },
    Collection { entity: Id, collection: [u8; 32] },
    Peer { entity: Id, peer: PeerId },
    State { entity: Id, state: Id },
    Count { entity: Id, metric: Metric, value: u128 },
}

/// Whether an episode, known as `id`, says `fact`.
pub open spec fn episode_says(
    episode: Episode,
    id: Id,
    node: Id,
    session: Id,
    fact: HealthFact,
) -> bool {
    match fact {
        HealthFact::Tag { entity, tag } => entity == id && (tag == KIND_CONDITION || tag
            == episode.condition.component.tagged() || (tag == KIND_ALERT
            && episode.condition.alert) || (tag == KIND_RECOVERED && episode.recovered)),
        HealthFact::Node { entity, node: of } => entity == id && of == node,
        HealthFact::Session { entity, session: of } => entity == id && of == session,
        HealthFact::StartedAt { entity, earliest, latest } => entity == id && earliest
            == episode.started_ns && latest == episode.started_ns,
        HealthFact::Collection { entity, collection } => entity == id
            && episode.condition.collection == Some(collection),
        HealthFact::Peer { entity, peer } => entity == id && episode.condition.peer == Some(peer),
        HealthFact::State { entity, state } => entity == id && state
            == episode.condition.state.tagged(),
        HealthFact::Count { entity, metric, value } => entity == id && match episode.evidence.counted(
            metric,
        ) {
            Some(count) => value == count,
            None => false,
        },
        _ => false,
    }
}

/// Whether the heartbeat itself, known as `id`, says `fact`.
pub open spec fn heartbeat_says(
    report: HealthReport,
    id: Id,
    node: Id,
    episodes: Seq<Id>,
    fact: HealthFact,
) -> bool {
    match fact {
        HealthFact::Tag { entity, tag } => entity == id && tag == KIND_REPORT,
        HealthFact::Node { entity, node: of } => entity == id && of == node,
        HealthFact::Session { entity, session } => entity == id && session == report.session,
        HealthFact::CreatedAt { entity, earliest, latest } => entity == id && earliest
            == report.created_ns && latest == report.created_ns,
        HealthFact::Condition { entity, condition } => entity == id && episodes.contains(condition),
        HealthFact::Endpoint { entity, endpoint } => entity == node && endpoint == report.endpoint,
        _ => false,
    }
}

/// Whether a report says `fact`, its node, itself and its episodes being known
/// by the given identifiers.
pub open spec fn report_says(
    report: HealthReport,
    id: Id,
    node: Id,
    episodes: Seq<Id>,
    fact: HealthFact,
) -> bool {
    heartbeat_says(report, id, node, episodes, fact) || exists|i: int|
        0 <= i < episodes.len() && episode_says(
            #[trigger] report.conditions@[i],
            episodes[i],
            node,
            report.session,
            fact,
        )
}

fn add_fact(facts: &mut Vec<HealthFact>, fact: HealthFact)
    ensures
        forall|other: HealthFact| #[trigger]
            final(facts)@.contains(other) <==> old(facts)@.contains(other) || other == fact,
{
    let ghost before = facts@;
    facts.push(fact);
    proof {
        assert forall|other: HealthFact| #[trigger] facts@.contains(other) <==> before.contains(
            other,
        ) || other == fact by {
            if before.contains(other) {
                let i = choose|i: int| 0 <= i < before.len() && before[i] == other;
                assert(facts@[i] == other);
            }
            assert(facts@[before.len() as int] == fact);
        }
    }
}

fn add_count(facts: &mut Vec<HealthFact>, entity: Id, metric: Metric, evidence: &Evidence)
    ensures
        forall|other: HealthFact| #[trigger]
            final(facts)@.contains(other) <==> old(facts)@.contains(other) || (
            evidence.counted(metric) is Some && other == (HealthFact::Count {
                entity,
                metric,
                value: (evidence.counted(metric)->0) as u128,
            })),
{
    if let Some(count) = evidence.count(metric) {
        add_fact(facts, HealthFact::Count { entity, metric, value: count as u128 });
    }
}

fn add_episode(facts: &mut Vec<HealthFact>, episode: &Episode, id: Id, node: Id, session: Id)
    ensures
        forall|other: HealthFact| #[trigger]
            final(facts)@.contains(other) <==> old(facts)@.contains(other) || episode_says(
                *episode,
                id,
                node,
                session,
                other,
            ),
{
    let condition = &episode.condition;
    add_fact(facts, HealthFact::Tag { entity: id, tag: KIND_CONDITION });
    add_fact(facts, HealthFact::Tag { entity: id, tag: condition.component.tag() });
    if condition.alert {
        add_fact(facts, HealthFact::Tag { entity: id, tag: KIND_ALERT });
    }
    if episode.recovered {
        add_fact(facts, HealthFact::Tag { entity: id, tag: KIND_RECOVERED });
    }
    add_fact(facts, HealthFact::Node { entity: id, node });
    add_fact(facts, HealthFact::Session { entity: id, session });
    if let Some(collection) = condition.collection {
        add_fact(facts, HealthFact::Collection { entity: id, collection });
    }
    if let Some(peer) = condition.peer {
        add_fact(facts, HealthFact::Peer { entity: id, peer });
    }
    add_fact(facts, HealthFact::State { entity: id, state: condition.state.tag() });
    let evidence = &episode.evidence;
    add_count(facts, id, Metric::ResidentBlobs, evidence);
    add_count(facts, id, Metric::LocalRecords, evidence);
    add_count(facts, id, Metric::LocalAuthorizations, evidence);
    add_count(facts, id, Metric::RemoteRecords, evidence);
    add_count(facts, id, Metric::RemoteAuthorizations, evidence);
    add_count(facts, id, Metric::PublicationKeys, evidence);
    add_count(facts, id, Metric::PublicationStartupPending, evidence);
    add_count(facts, id, Metric::PublicationIncrementalPending, evidence);
    add_count(facts, id, Metric::PublicationRetryPending, evidence);
    add_count(facts, id, Metric::PublicationRenewalRemaining, evidence);
    add_count(facts, id, Metric::PublicationInFlight, evidence);
    add_count(facts, id, Metric::PublicationAttempts, evidence);
    add_count(facts, id, Metric::PublicationAcknowledged, evidence);
    add_count(facts, id, Metric::PublicationRejected, evidence);
    add_count(facts, id, Metric::PublicationUnavailable, evidence);
    add_fact(
        facts,
        HealthFact::StartedAt {
            entity: id,
            earliest: episode.started_ns,
            latest: episode.started_ns,
        },
    );
}

impl HealthReport {
    /// The facts of the report, its node, itself and its episodes being known by
    /// the given identifiers.
    pub fn facts(&self, id: Id, node: Id, episodes: &[Id]) -> (facts: Vec<HealthFact>)
        requires
            episodes@.len() == self.conditions@.len(),
        ensures
            forall|fact: HealthFact| #[trigger]
                facts@.contains(fact) <==> report_says(*self, id, node, episodes@, fact),
    {
        let mut facts: Vec<HealthFact> = Vec::new();
        add_fact(&mut facts, HealthFact::Tag { entity: id, tag: KIND_REPORT });
        add_fact(&mut facts, HealthFact::Node { entity: id, node });
        add_fact(&mut facts, HealthFact::Session { entity: id, session: self.session });
        add_fact(
            &mut facts,
            HealthFact::CreatedAt {
                entity: id,
                earliest: self.created_ns,
                latest: self.created_ns,
            },
        );
        add_fact(&mut facts, HealthFact::Endpoint { entity: node, endpoint: self.endpoint });
        let mut i: usize = 0;
        assert(episodes@.take(0) =~= Seq::empty());
        while i < episodes.len()
            invariant
                i <= episodes@.len(),
                episodes@.len() == self.conditions@.len(),
                forall|fact: HealthFact| #[trigger]
                    facts@.contains(fact) <==> report_says(
                        *self,
                        id,
                        node,
                        episodes@.take(i as int),
                        fact,
                    ),
            decreases episodes@.len() - i,
        {
            let ghost less = episodes@.take(i as int);
            let ghost more = episodes@.take(i + 1);
            let ghost before = facts@;
            let condition = episodes[i];
            add_fact(&mut facts, HealthFact::Condition { entity: id, condition });
            add_episode(&mut facts, &self.conditions[i], condition, node, self.session);
            proof {
                assert(more =~= less.push(condition));
                assert forall|fact: HealthFact| #[trigger] facts@.contains(fact) <==> report_says(
                    *self,
                    id,
                    node,
                    more,
                    fact,
                ) by {
                    assert forall|c: Id| more.contains(c) <==> less.contains(c) || c
                        == condition by {
                        if less.contains(c) {
                            let j = choose|j: int| 0 <= j < less.len() && less[j] == c;
                            assert(more[j] == c);
                        }
                        assert(more[i as int] == condition);
                    }
                    if report_says(*self, id, node, less, fact) && !heartbeat_says(
                        *self,
                        id,
                        node,
                        less,
                        fact,
                    ) {
                        let j = choose|j: int|
                            0 <= j < less.len() && episode_says(
                                #[trigger] self.conditions@[j],
                                less[j],
                                node,
                                self.session,
                                fact,
                            );
                        assert(more[j] == less[j]);
                        assert(episode_says(
                            self.conditions@[j],
                            more[j],
                            node,
                            self.session,
                            fact,
                        ));
                    }
                    if report_says(*self, id, node, more, fact) && !heartbeat_says(
                        *self,
                        id,
                        node,
                        more,
                        fact,
                    ) {
                        let j = choose|j: int|
                            0 <= j < more.len() && episode_says(
                                #[trigger] self.conditions@[j],
                                more[j],
                                node,
                                self.session,
                                fact,
                            );
                        if j < i {
                            assert(more[j] == less[j]);
                            assert(episode_says(
                                self.conditions@[j],
                                less[j],
                                node,
                                self.session,
                                fact,
                            ));
                        }
                    }
                    if episode_says(
                        self.conditions@[i as int],
                        condition,
                        node,
                        self.session,
                        fact,
                    ) {
                        assert(more[i as int] == condition);
                    }
                }
            }
            i = i + 1;
        }
        assert(episodes@.take(i as int) =~= episodes@);
        facts
    }
}

/// Queryable names for health tags, published alongside the first report.
pub fn vocabulary() -> (names: Vec<(Id, &'static str)>)
    ensures
        names@ == seq![
            (KIND_REPORT, "swarm health report"),
            (KIND_CONDITION, "swarm health condition"),
            (KIND_ALERT, "needs attention"),
            (KIND_RECOVERED, "recovered"),
            (HOST, "network event loop"),
            (STORE, "local serving snapshot"),
            (COLLECTION, "collection record/proof repair"),
            (DHT, "DHT provider publication"),
            (CURRENT, "current"),
            (PROGRESSING, "catching up"),
            (UNKNOWN, "unknown"),
            (STALLED, "stalled"),
        ],
{
    let mut names: Vec<(Id, &'static str)> = Vec::new();
    names.push((KIND_REPORT, "swarm health report"));
    names.push((KIND_CONDITION, "swarm health condition"));
    names.push((KIND_ALERT, "needs attention"));
    names.push((KIND_RECOVERED, "recovered"));
    names.push((HOST, "network event loop"));
    names.push((STORE, "local serving snapshot"));
    names.push((COLLECTION, "collection record/proof repair"));
    names.push((DHT, "DHT provider publication"));
    names.push((CURRENT, "current"));
    names.push((PROGRESSING, "catching up"));
    names.push((UNKNOWN, "unknown"));
    names.push((STALLED, "stalled"));
    names
}

} // verus!
