//! What a reader is shown of the reports of others.

use vstd::prelude::*;

use crate::health_record::{
    episode_says, heartbeat_says, report_says, Component, Evidence, HealthFact, HealthReport, Id,
    Metric, State, COLLECTION, CURRENT, DHT, HOST, KIND_ALERT, KIND_CONDITION, KIND_RECOVERED,
    KIND_REPORT, PROGRESSING, STALLED, STORE, UNKNOWN,
};
use crate::observers::{
    age_of, counts, freshness_of, is_report, law_counts_roundtrip,
    law_heartbeat_is_observed_whole, tells_all, CountMetric, Freshness,
    ObservedCondition, ObservedEvidence, ObserverReport,
};
use crate::provider::PeerId;

verus! {

/// How old a shown report is decides how it is shown, by the reader's own maximum
/// age: one from the future is shown as such, one that is younger than the maximum
/// is fresh, and any other is stale.
pub proof fn law_the_reader_decides_what_is_fresh(
    list: Seq<ObserverReport>,
    facts: Seq<HealthFact>,
    now_ns: i128,
    max_age_seconds: u64,
    at: int,
)
    requires
        tells_all(list, facts, now_ns, max_age_seconds),
        0 <= at < list.len(),
    ensures
        list[at].freshness == Freshness::Future <==> list[at].created_ns > now_ns,
        list[at].freshness == Freshness::Fresh <==> exists|age: nat|
            age < max_age_seconds * 1_000_000_000 && #[trigger] (list[at].created_ns + age)
                == now_ns,
        list[at].freshness == Freshness::Stale <==> list[at].created_ns + max_age_seconds
            * 1_000_000_000 <= now_ns && list[at].created_ns <= now_ns,
{
    let shown = list[at];
    assert(shown.tells(facts, now_ns, max_age_seconds));
    if shown.freshness == Freshness::Fresh {
        let age = (now_ns - shown.created_ns) as nat;
        assert(shown.created_ns + age == now_ns);
    }
}

/// Two readers of one report disagree only in one way: what is fresh to the
/// stricter one is fresh to the other. At every age of at least zero, a reader
/// that allows more than it finds the report fresh, and one that allows no more
/// than it finds it stale.
pub proof fn law_a_laxer_reader_finds_more_fresh(
    created_ns: i128,
    now_ns: i128,
    stricter: u64,
    laxer: u64,
    age: nat,
)
    requires
        stricter <= laxer,
        created_ns + age == now_ns,
    ensures
        freshness_of(created_ns, now_ns, stricter) == Freshness::Fresh ==> freshness_of(
            created_ns,
            now_ns,
            laxer,
        ) == Freshness::Fresh,
        age < laxer * 1_000_000_000 ==> freshness_of(created_ns, now_ns, laxer) == Freshness::Fresh,
        age >= stricter * 1_000_000_000 ==> freshness_of(created_ns, now_ns, stricter)
            == Freshness::Stale,
        freshness_of(created_ns, now_ns, laxer) != Freshness::Future,
{
}

/// The age of a shown report is told in whole seconds that have passed, and is
/// untold exactly for one from the future or older than can be counted.
pub proof fn law_age_counts_whole_seconds(
    list: Seq<ObserverReport>,
    facts: Seq<HealthFact>,
    now_ns: i128,
    max_age_seconds: u64,
    at: int,
)
    requires
        tells_all(list, facts, now_ns, max_age_seconds),
        0 <= at < list.len(),
    ensures
        list[at].age_seconds matches Some(seconds) ==> list[at].created_ns + seconds
            * 1_000_000_000 <= now_ns < list[at].created_ns + (seconds + 1) * 1_000_000_000,
        list[at].age_seconds is None <==> list[at].created_ns > now_ns || now_ns
            - list[at].created_ns >= 0x1_0000_0000_0000_0000 * 1_000_000_000,
        list[at].freshness == Freshness::Fresh ==> list[at].age_seconds is Some
            && list[at].age_seconds->0 < max_age_seconds,
{
    let shown = list[at];
    assert(shown.tells(facts, now_ns, max_age_seconds));
    assert(shown.age_seconds == age_of(shown.created_ns, now_ns));
}

/// Whether the facts tell of a report of a node, made at a time.
pub open spec fn has_reported(
    facts: Seq<HealthFact>,
    node: Id,
    report: Id,
    earliest: i128,
    latest: i128,
) -> bool {
    &&& facts.contains(HealthFact::Tag { entity: report, tag: KIND_REPORT })
    &&& facts.contains(HealthFact::Node { entity: report, node })
    &&& facts.contains(HealthFact::CreatedAt { entity: report, earliest, latest })
}

/// Every node that has reported is shown once, with a report that no other of it
/// is newer than: none was made later, and of those made at the same time none has
/// a greater identifier.
pub proof fn law_each_node_shows_its_latest_report(
    list: Seq<ObserverReport>,
    facts: Seq<HealthFact>,
    now_ns: i128,
    max_age_seconds: u64,
    node: Id,
    report: Id,
    earliest: i128,
    latest: i128,
) -> (at: int)
    requires
        tells_all(list, facts, now_ns, max_age_seconds),
        has_reported(facts, node, report, earliest, latest),
    ensures
        0 <= at < list.len(),
        list[at].node == node,
        list[at].created_ns > latest || (list[at].created_ns == latest && list[at].report
            >= report),
        forall|other: int| 0 <= other < list.len() && other != at ==> (#[trigger] list[other]).node
            != node,
{
    assert(is_report(facts, node, report, latest));
    let at = choose|at: int| 0 <= at < list.len() && (#[trigger] list[at]).node == node;
    assert(list[at].tells(facts, now_ns, max_age_seconds));
    assert forall|other: int| 0 <= other < list.len() && other != at implies (
    #[trigger] list[other]).node != node by {
        if other < at {
            assert(list[other].node < list[at].node);
        } else {
            assert(list[at].node < list[other].node);
        }
    }
    at
}

/// What is shown has been reported: the node, the report and its time are told by
/// the facts, and so are the sessions of the report, the endpoints of the node, and
/// the conditions, each of them named by the report and of the same node.
pub proof fn law_what_is_shown_was_reported(
    list: Seq<ObserverReport>,
    facts: Seq<HealthFact>,
    now_ns: i128,
    max_age_seconds: u64,
    at: int,
    session: Id,
    endpoint: PeerId,
    condition: Id,
)
    requires
        tells_all(list, facts, now_ns, max_age_seconds),
        0 <= at < list.len(),
    ensures
        exists|earliest: i128|
            #[trigger] has_reported(
                facts,
                list[at].node,
                list[at].report,
                earliest,
                list[at].created_ns,
            ),
        list[at].sessions@.contains(session) <==> facts.contains(
            HealthFact::Session { entity: list[at].report, session },
        ),
        list[at].endpoints@.contains(endpoint) <==> facts.contains(
            HealthFact::Endpoint { entity: list[at].node, endpoint },
        ),
        (exists|i: int|
            0 <= i < list[at].conditions@.len() && (#[trigger] list[at].conditions@[i]).id
                == condition) <==> {
            &&& facts.contains(HealthFact::Condition { entity: list[at].report, condition })
            &&& facts.contains(HealthFact::Tag { entity: condition, tag: KIND_CONDITION })
            &&& facts.contains(HealthFact::Node { entity: condition, node: list[at].node })
        },
        forall|i: int, j: int|
            0 <= i < j < list[at].conditions@.len() ==> (#[trigger] list[at].conditions@[i]).id < (
            #[trigger] list[at].conditions@[j]).id,
{
    let shown = list[at];
    assert(shown.tells(facts, now_ns, max_age_seconds));
    let earliest = choose|earliest: i128| #[trigger]
        facts.contains(
            HealthFact::CreatedAt { entity: shown.report, earliest, latest: shown.created_ns },
        );
    assert(has_reported(facts, shown.node, shown.report, earliest, shown.created_ns));
    let ids = shown.conditions@.map_values(|condition: ObservedCondition| condition.id);
    if exists|i: int|
        0 <= i < shown.conditions@.len() && (#[trigger] shown.conditions@[i]).id == condition {
        let i = choose|i: int|
            0 <= i < shown.conditions@.len() && (#[trigger] shown.conditions@[i]).id == condition;
        assert(ids[i] == condition);
        assert(ids.contains(condition));
    }
    if ids.contains(condition) {
        let i = choose|i: int| 0 <= i < ids.len() && ids[i] == condition;
        assert(shown.conditions@[i].id == condition);
    }
    assert forall|i: int, j: int| 0 <= i < j < shown.conditions@.len() implies (
    #[trigger] shown.conditions@[i]).id < (#[trigger] shown.conditions@[j]).id by {
        assert(ids[i] < ids[j]);
    }
}

/// A shown condition is of a component or in a state exactly if it is tagged so,
/// and is an alert, a recovery, of a collection or of a peer exactly if that is
/// said of it. Competing statements are all shown.
pub proof fn law_conditions_show_what_is_said(
    seen: ObservedCondition,
    facts: Seq<HealthFact>,
    collection: [u8; 32],
    peer: PeerId,
)
    requires
        seen.tells(facts),
    ensures
        seen.components@.contains(Component::Host) <==> facts.contains(
            HealthFact::Tag { entity: seen.id, tag: HOST },
        ),
        seen.components@.contains(Component::Store) <==> facts.contains(
            HealthFact::Tag { entity: seen.id, tag: STORE },
        ),
        seen.components@.contains(Component::Collection) <==> facts.contains(
            HealthFact::Tag { entity: seen.id, tag: COLLECTION },
        ),
        seen.components@.contains(Component::Dht) <==> facts.contains(
            HealthFact::Tag { entity: seen.id, tag: DHT },
        ),
        seen.components@.no_duplicates(),
        seen.states@.contains(State::Current) <==> facts.contains(
            HealthFact::State { entity: seen.id, state: CURRENT },
        ),
        seen.states@.contains(State::Progressing) <==> facts.contains(
            HealthFact::State { entity: seen.id, state: PROGRESSING },
        ),
        seen.states@.contains(State::Unknown) <==> facts.contains(
            HealthFact::State { entity: seen.id, state: UNKNOWN },
        ),
        seen.states@.contains(State::Stalled) <==> facts.contains(
            HealthFact::State { entity: seen.id, state: STALLED },
        ),
        seen.states@.no_duplicates(),
        seen.alert <==> facts.contains(HealthFact::Tag { entity: seen.id, tag: KIND_ALERT }),
        seen.recovered <==> facts.contains(
            HealthFact::Tag { entity: seen.id, tag: KIND_RECOVERED },
        ),
        seen.collections@.contains(collection) <==> facts.contains(
            HealthFact::Collection { entity: seen.id, collection },
        ),
        seen.peers@.contains(peer) <==> facts.contains(HealthFact::Peer { entity: seen.id, peer }),
{
    lemma_said(
        facts.contains(HealthFact::Tag { entity: seen.id, tag: HOST }),
        facts.contains(HealthFact::Tag { entity: seen.id, tag: STORE }),
        facts.contains(HealthFact::Tag { entity: seen.id, tag: COLLECTION }),
        facts.contains(HealthFact::Tag { entity: seen.id, tag: DHT }),
        Component::Host,
        Component::Store,
        Component::Collection,
        Component::Dht,
        seen.components@,
    );
    lemma_said(
        facts.contains(HealthFact::State { entity: seen.id, state: CURRENT }),
        facts.contains(HealthFact::State { entity: seen.id, state: PROGRESSING }),
        facts.contains(HealthFact::State { entity: seen.id, state: UNKNOWN }),
        facts.contains(HealthFact::State { entity: seen.id, state: STALLED }),
        State::Current,
        State::Progressing,
        State::Unknown,
        State::Stalled,
        seen.states@,
    );
}

/// Four different items, each listed if it is said.
proof fn lemma_said<T>(a: bool, b: bool, c: bool, d: bool, w: T, x: T, y: T, z: T, list: Seq<T>)
    requires
        w != x && w != y && w != z && x != y && x != z && y != z,
        list == crate::observers::if_said(a, w) + crate::observers::if_said(b, x)
            + crate::observers::if_said(c, y) + crate::observers::if_said(d, z),
    ensures
        list.contains(w) <==> a,
        list.contains(x) <==> b,
        list.contains(y) <==> c,
        list.contains(z) <==> d,
        list.no_duplicates(),
{
    let i: int = if a {
        1
    } else {
        0
    };
    let j: int = if b {
        i + 1
    } else {
        i
    };
    let k: int = if c {
        j + 1
    } else {
        j
    };
    if a {
        assert(list[0] == w);
    }
    if b {
        assert(list[i] == x);
    }
    if c {
        assert(list[j] == y);
    }
    if d {
        assert(list[k] == z);
    }
}

/// The kinds by which reports, conditions, alerts and recoveries are found are all
/// different, and none is the tag of a component or a state.
pub proof fn law_kinds_are_distinct(component: Component, state: State)
    ensures
        KIND_REPORT != KIND_CONDITION && KIND_REPORT != KIND_ALERT && KIND_REPORT
            != KIND_RECOVERED,
        KIND_CONDITION != KIND_ALERT && KIND_CONDITION != KIND_RECOVERED,
        KIND_ALERT != KIND_RECOVERED,
        component.tagged() != KIND_REPORT && component.tagged() != KIND_CONDITION,
        component.tagged() != KIND_ALERT && component.tagged() != KIND_RECOVERED,
        state.tagged() != KIND_REPORT && state.tagged() != KIND_CONDITION,
        state.tagged() != KIND_ALERT && state.tagged() != KIND_RECOVERED,
{
}

/// Whether a shown count is the one that was taken, or absent where none was.
pub open spec fn shows_count(shown: CountMetric, taken: Option<u64>) -> bool {
    match taken {
        Some(taken) => shown == CountMetric::Value(taken as u128),
        None => shown == CountMetric::Absent,
    }
}

/// Whether every shown count is the one that was taken of the same thing.
pub open spec fn shows_counts(shown: ObservedEvidence, taken: Evidence) -> bool {
    &&& shows_count(shown.resident_blobs, taken.resident_blobs)
    &&& shows_count(shown.local_records, taken.local_records)
    &&& shows_count(shown.local_authorizations, taken.local_authorizations)
    &&& shows_count(shown.remote_records, taken.remote_records)
    &&& shows_count(shown.remote_authorizations, taken.remote_authorizations)
    &&& shows_count(shown.publication_keys, taken.publication_keys)
    &&& shows_count(shown.publication_startup_pending, taken.publication_startup_pending)
    &&& shows_count(shown.publication_incremental_pending, taken.publication_incremental_pending)
    &&& shows_count(shown.publication_retry_pending, taken.publication_retry_pending)
    &&& shows_count(shown.publication_renewal_remaining, taken.publication_renewal_remaining)
    &&& shows_count(shown.publication_in_flight, taken.publication_in_flight)
    &&& shows_count(shown.publication_attempts, taken.publication_attempts)
    &&& shows_count(shown.publication_acknowledged, taken.publication_acknowledged)
    &&& shows_count(shown.publication_rejected, taken.publication_rejected)
    &&& shows_count(shown.publication_unavailable, taken.publication_unavailable)
}

/// A heartbeat is shown with the session and the endpoint that it was made with,
/// and each of its conditions with exactly the counts that were taken.
pub proof fn law_heartbeat_is_shown_with_its_counts(
    report: HealthReport,
    id: Id,
    node: Id,
    episodes: Seq<Id>,
    facts: Seq<HealthFact>,
    list: Seq<ObserverReport>,
    now_ns: i128,
    max_age_seconds: u64,
    index: int,
    shown: int,
)
    requires
        episodes.no_duplicates(),
        !episodes.contains(id),
        episodes.len() == report.conditions@.len(),
        forall|fact: HealthFact| #[trigger]
            facts.contains(fact) <==> report_says(report, id, node, episodes, fact),
        tells_all(list, facts, now_ns, max_age_seconds),
        0 <= index < episodes.len(),
        list.len() == 1,
        0 <= shown < list[0].conditions@.len(),
        list[0].conditions@[shown].id == episodes[index],
    ensures
        shows_counts(list[0].conditions@[shown].evidence, report.conditions@[index].evidence),
        forall|session: Id| #[trigger]
            list[0].sessions@.contains(session) <==> session == report.session,
        forall|endpoint: PeerId| #[trigger]
            list[0].endpoints@.contains(endpoint) <==> endpoint == report.endpoint,
        facts.contains(
            HealthFact::StartedAt {
                entity: episodes[index],
                earliest: report.conditions@[index].started_ns,
                latest: report.conditions@[index].started_ns,
            },
        ),
{
    law_heartbeat_is_observed_whole(
        report,
        id,
        node,
        episodes,
        facts,
        list,
        now_ns,
        max_age_seconds,
    );
    assert(list[0].tells(facts, now_ns, max_age_seconds));
    let seen = list[0].conditions@[shown];
    assert(seen.tells(facts));
    let told = |metric: Metric, count: CountMetric|
        {
            count.tells(counts(facts, episodes[index], metric)) ==> shows_count(
                count,
                report.conditions@[index].evidence.counted(metric),
            )
        };
    assert forall|metric: Metric, count: CountMetric| #[trigger] told(metric, count) by {
        if count.tells(counts(facts, episodes[index], metric)) {
            law_counts_roundtrip(report, id, node, episodes, facts, index, metric, count);
        }
    }
    let e = seen.evidence;
    assert(told(Metric::ResidentBlobs, e.resident_blobs));
    assert(told(Metric::LocalRecords, e.local_records));
    assert(told(Metric::LocalAuthorizations, e.local_authorizations));
    assert(told(Metric::RemoteRecords, e.remote_records));
    assert(told(Metric::RemoteAuthorizations, e.remote_authorizations));
    assert(told(Metric::PublicationKeys, e.publication_keys));
    assert(told(Metric::PublicationStartupPending, e.publication_startup_pending));
    assert(told(Metric::PublicationIncrementalPending, e.publication_incremental_pending));
    assert(told(Metric::PublicationRetryPending, e.publication_retry_pending));
    assert(told(Metric::PublicationRenewalRemaining, e.publication_renewal_remaining));
    assert(told(Metric::PublicationInFlight, e.publication_in_flight));
    assert(told(Metric::PublicationAttempts, e.publication_attempts));
    assert(told(Metric::PublicationAcknowledged, e.publication_acknowledged));
    assert(told(Metric::PublicationRejected, e.publication_rejected));
    assert(told(Metric::PublicationUnavailable, e.publication_unavailable));
    assert forall|session: Id| #[trigger]
        list[0].sessions@.contains(session) <==> session == report.session by {
        let fact = HealthFact::Session { entity: id, session };
        assert(facts.contains(fact) <==> report_says(report, id, node, episodes, fact));
        lemma_not_of_an_episode(report, id, node, episodes, fact);
    }
    assert forall|endpoint: PeerId| #[trigger]
        list[0].endpoints@.contains(endpoint) <==> endpoint == report.endpoint by {
        let fact = HealthFact::Endpoint { entity: node, endpoint };
        assert(facts.contains(fact) <==> report_says(report, id, node, episodes, fact));
        lemma_not_of_an_episode(report, id, node, episodes, fact);
    }
    let started = HealthFact::StartedAt {
        entity: episodes[index],
        earliest: report.conditions@[index].started_ns,
        latest: report.conditions@[index].started_ns,
    };
    assert(episode_says(
        report.conditions@[index],
        episodes[index],
        node,
        report.session,
        started,
    ));
    assert(report_says(report, id, node, episodes, started));
}

proof fn lemma_not_of_an_episode(
    report: HealthReport,
    id: Id,
    node: Id,
    episodes: Seq<Id>,
    fact: HealthFact,
)
    requires
        !episodes.contains(id),
        fact is Endpoint || (fact is Session && fact->Session_entity == id),
    ensures
        report_says(report, id, node, episodes, fact) <==> heartbeat_says(
            report,
            id,
            node,
            episodes,
            fact,
        ),
{
    if exists|i: int|
        0 <= i < episodes.len() && episode_says(
            #[trigger] report.conditions@[i],
            episodes[i],
            node,
            report.session,
            fact,
        ) {
        let i = choose|i: int|
            0 <= i < episodes.len() && episode_says(
                #[trigger] report.conditions@[i],
                episodes[i],
                node,
                report.session,
                fact,
            );
        assert(episodes.contains(episodes[i]));
    }
}

/// One count that is said of an entity is its value, none is its absence, and
/// several are all listed in ascending order.
pub proof fn law_counts_are_not_collapsed(
    facts: Seq<HealthFact>,
    entity: Id,
    metric: Metric,
    count: CountMetric,
    value: u128,
)
    requires
        count.tells(counts(facts, entity, metric)),
    ensures
        count is Absent ==> !facts.contains(HealthFact::Count { entity, metric, value }),
        count matches CountMetric::Value(only) ==> (facts.contains(
            HealthFact::Count { entity, metric, value },
        ) <==> value == only),
        count matches CountMetric::Ambiguous(list) ==> list@.len() >= 2 && (list@.contains(value)
            <==> facts.contains(HealthFact::Count { entity, metric, value })) && forall|
            i: int,
            j: int,
        |
            0 <= i < j < list@.len() ==> list@[i] < list@[j],
{
    assert(counts(facts, entity, metric).contains(value) <==> facts.contains(
        HealthFact::Count { entity, metric, value },
    ));
}

} // verus!
