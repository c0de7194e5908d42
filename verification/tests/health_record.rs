use triblespace_net::clock::{Mono, SECOND};
use triblespace_net::health::{
    CollectionHealth, ComparisonState, HealthSnapshot, PeerHealth, PublicationHealth,
    ReconcileDirection, RepairComparison, RepairFrontier, StoreHealth,
};
use triblespace_net::health_record::{
    conditions, measurements, vocabulary, Component, Condition, Episode, Evidence, HealthFact,
    HealthReport, Id, Measurement, Metric, Recorder, State, COLLECTION_NAME, DEFAULT_MAX_AGE,
    DEFAULT_SCOPE_ID, HOST, KIND_ALERT, KIND_CONDITION, KIND_RECOVERED, KIND_REPORT,
    PROGRESS_GRACE, STALLED,
};
use triblespace_net::patch_summary::PatchSummary;

const ENDPOINT: [u8; 32] = [4; 32];
const SESSION: Id = 0x5e55;
const AT: i128 = 1_700_000_000_000_000_000;
const SECONDS: i128 = 1_000_000_000;

fn mono_now() -> Mono {
    Mono {
        nanos: 1_000_000 * SECOND,
    }
}

fn observed(at: Mono) -> HealthSnapshot {
    HealthSnapshot {
        direction: Some(ReconcileDirection::Bidirectional),
        started_at: Some(at),
        observed_at: Some(at),
        store: StoreHealth {
            last_snapshot_observed_at: Some(at),
            serving_snapshot: true,
            ..StoreHealth::default()
        },
        collections: Vec::new(),
        publication: PublicationHealth::default(),
    }
}

fn of_component(health: &HealthSnapshot, now: Mono, component: Component) -> Condition {
    conditions(health, now)
        .into_iter()
        .find(|condition| condition.component == component)
        .unwrap()
}

fn frontier(byte: u8, count: u64) -> RepairFrontier {
    RepairFrontier {
        wake_root: [byte; 32],
        records: PatchSummary::new(Some([byte; 32]), count).unwrap(),
        authorization_evidence: PatchSummary::new(None, 0).unwrap(),
    }
}

#[test]
fn fresh_reporting_cannot_disguise_an_unpolled_host() {
    let at = mono_now();
    let mut health = observed(at);
    health.observed_at = None;
    let host = of_component(&health, at.plus(SECOND), Component::Host);
    assert_eq!(host.state, State::Unknown);
    assert!(
        !host.alert,
        "give the loop time to publish its first observation"
    );
    let host = of_component(&health, at.plus(31 * SECOND), Component::Host);
    assert_eq!(host.state, State::Unknown);
    assert!(host.alert);
}

#[test]
fn fresh_local_writes_and_identical_remote_replies_cannot_hide_a_stalled_pair() {
    let at = mono_now();
    let now = at.plus(PROGRESS_GRACE).plus(SECOND);
    let mut sample = observed(at);
    sample.observed_at = Some(now);
    sample.store.last_snapshot_observed_at = Some(now);
    let local = frontier(5, 10);
    sample.collections.push(CollectionHealth {
        collection: [3; 32],
        local_frontier: Some(local),
        // The peer started at `at`, answered with the same frontier at `at` and
        // at `now`, and was compared last with the fresh local frontier.
        peers: vec![PeerHealth {
            peer: [7; 32],
            first_started_at: Some(at),
            last_remote_change_at: Some(at),
            last_completed_at: None,
            last_failure_at: None,
            comparison: Some(RepairComparison {
                observed_at: now,
                local,
                remote: frontier(6, 1),
            }),
        }],
    });
    let pair = of_component(&sample, now, Component::Collection);
    assert_eq!(pair.state, State::Stalled);
    assert!(pair.alert);
    assert_eq!(pair.collection, Some([3; 32]));
    assert_eq!(pair.peer, Some([7; 32]));
}

fn aged_matching_pair(at: Mono, now: Mono) -> HealthSnapshot {
    let mut sample = observed(at);
    sample.observed_at = Some(now);
    sample.store.last_snapshot_observed_at = Some(now);
    let frontier = frontier(5, 10);
    sample.collections.push(CollectionHealth {
        collection: [3; 32],
        local_frontier: Some(frontier),
        peers: vec![PeerHealth {
            peer: [7; 32],
            first_started_at: Some(at),
            last_remote_change_at: Some(at),
            last_completed_at: Some(at),
            last_failure_at: None,
            comparison: Some(RepairComparison {
                observed_at: at,
                local: frontier,
                remote: frontier,
            }),
        }],
    });
    sample
}

#[test]
fn an_aged_successful_comparison_is_unknown_but_not_actionable() {
    let at = mono_now();
    let now = at.plus(PROGRESS_GRACE).plus(SECOND);
    let health = aged_matching_pair(at, now);
    let pair = of_component(&health, now, Component::Collection);
    assert_eq!(pair.state, State::Unknown);
    assert!(!pair.alert);
}

#[test]
fn an_aged_comparison_alerts_after_failure_until_a_later_success() {
    let at = mono_now();
    let failed_at = at.plus(PROGRESS_GRACE).plus(SECOND);
    let mut health = aged_matching_pair(at, failed_at);
    health.collections[0].peers[0].last_completed_at = Some(failed_at);
    health.collections[0].peers[0].last_failure_at = Some(failed_at);

    let pair = of_component(&health, failed_at, Component::Collection);
    assert_eq!(pair.state, State::Unknown);
    assert!(pair.alert);

    let recovered_at = failed_at.plus(SECOND);
    health.observed_at = Some(recovered_at);
    health.store.last_snapshot_observed_at = Some(recovered_at);
    let peer = &mut health.collections[0].peers[0];
    let mut comparison = peer.comparison.unwrap();
    comparison.observed_at = recovered_at;
    peer.comparison = Some(comparison);
    peer.last_completed_at = Some(recovered_at);
    let pair = of_component(&health, recovered_at, Component::Collection);
    assert_eq!(pair.state, State::Current);
    assert!(!pair.alert);
}

#[test]
fn idle_dht_renewal_is_unknown_not_a_failed_probe() {
    let at = mono_now();
    let now = at.plus(3600 * SECOND);
    let mut health = observed(at);
    health.observed_at = Some(now);
    health.store.last_snapshot_observed_at = Some(now);
    health.publication.resident = 1;
    health.publication.last_acknowledged_at = Some(at);
    health.publication.renewal_remaining = 1;
    let dht = of_component(&health, now, Component::Dht);
    assert_eq!(dht.state, State::Unknown);
    assert!(!dht.alert);
}

#[test]
fn continuous_publication_failure_expires_its_grace_then_ack_recovers() {
    let at = mono_now();
    let mut health = observed(at);
    health.publication.resident = 1;
    health.publication.retry_pending = 1;
    health.publication.unacknowledged_since = Some(at);
    assert!(!of_component(&health, at.plus(10 * SECOND), Component::Dht).alert);
    let now = at.plus(PROGRESS_GRACE).plus(SECOND);
    let dht = of_component(&health, now, Component::Dht);
    assert_eq!(dht.state, State::Stalled);
    assert!(dht.alert);
    health.publication.last_acknowledged_at = Some(now);
    health.publication.unacknowledged_since = None;
    health.publication.retry_pending = 0;
    let dht = of_component(&health, now, Component::Dht);
    assert_eq!(dht.state, State::Current);
    assert!(!dht.alert);
}

#[test]
fn a_publication_that_never_completes_cannot_stay_progressing_forever() {
    let at = mono_now();
    let mut health = observed(at);
    health.publication.resident = 1;
    health.publication.in_flight = 1;
    health.publication.last_started_at = Some(at);
    let now = at.plus(PROGRESS_GRACE).plus(SECOND);
    let dht = of_component(&health, now, Component::Dht);
    assert_eq!(dht.state, State::Stalled);
    assert!(dht.alert);
}

#[test]
fn a_comparison_counts_only_while_it_is_recent_and_something_is_pulled() {
    let at = mono_now();
    let mut health = aged_matching_pair(at, at);
    let peer = health.collections[0].peers[0];
    assert_eq!(
        health.comparison(&peer, at, DEFAULT_MAX_AGE),
        ComparisonState::Matching
    );
    let late = at.plus(DEFAULT_MAX_AGE).plus(1);
    assert_eq!(
        health.comparison(&peer, late, DEFAULT_MAX_AGE),
        ComparisonState::Unknown
    );
    health.direction = Some(ReconcileDirection::WriteOnly);
    assert_eq!(
        health.comparison(&peer, at, DEFAULT_MAX_AGE),
        ComparisonState::NotApplicable
    );
}

fn condition(state: State, alert: bool) -> Condition {
    Condition {
        component: Component::Host,
        collection: None,
        peer: None,
        state,
        alert,
    }
}

fn episode_ids(report: &HealthReport) -> Vec<Id> {
    (0..report.conditions.len() as Id).map(|i| 100 + i).collect()
}

/// The condition episodes of a report whose facts carry both tags.
fn tagged(report: &HealthReport, tag: Id) -> Vec<Episode> {
    let ids = episode_ids(report);
    let facts = report.facts(1, 2, &ids);
    let carries = |entity: Id, tag: Id| facts.contains(&HealthFact::Tag { entity, tag });
    ids.iter()
        .zip(report.conditions.iter())
        .filter(|(id, _)| carries(**id, KIND_CONDITION) && carries(**id, tag))
        .map(|(_, episode)| *episode)
        .collect()
}

#[test]
fn healthy_heartbeats_only_record_creation_time_and_remain_quiet() {
    let mut recorder = Recorder::new(ENDPOINT, SESSION);
    let first = recorder.record(AT, &[condition(State::Current, false)]);
    let next = recorder.record(AT + 60 * SECONDS, &[condition(State::Current, false)]);
    assert_ne!(first.created_ns, next.created_ns);
    assert_eq!(tagged(&first, KIND_CONDITION), tagged(&next, KIND_CONDITION));
    assert_eq!(tagged(&first, KIND_CONDITION).len(), 1);
    for (report, created) in [(&first, AT), (&next, AT + 60 * SECONDS)] {
        let facts = report.facts(1, 2, &episode_ids(report));
        let created_at: Vec<HealthFact> = facts
            .into_iter()
            .filter(|fact| matches!(fact, HealthFact::CreatedAt { .. }))
            .collect();
        assert_eq!(
            created_at,
            vec![HealthFact::CreatedAt {
                entity: 1,
                earliest: created,
                latest: created
            }]
        );
        // Besides its creation the report carries no time, so no expiry either.
        for fact in report.facts(1, 2, &episode_ids(report)) {
            match fact {
                HealthFact::Tag { .. }
                | HealthFact::Node { .. }
                | HealthFact::Endpoint { .. }
                | HealthFact::Session { .. }
                | HealthFact::Condition { .. }
                | HealthFact::State { .. } => {}
                HealthFact::CreatedAt { entity, .. } => assert_eq!(entity, 1),
                HealthFact::StartedAt { entity, .. } => assert_ne!(entity, 1),
                other => panic!("nothing else was recorded: {other:?}"),
            }
        }
        assert!(tagged(report, KIND_ALERT).is_empty());
        assert!(tagged(report, KIND_RECOVERED).is_empty());
    }
}

#[test]
fn a_report_lists_each_measured_subject_once() {
    let mut recorder = Recorder::new(ENDPOINT, SESSION);
    let store = Condition {
        component: Component::Store,
        ..condition(State::Current, false)
    };
    let report = recorder.record(
        AT,
        &[
            store,
            condition(State::Unknown, false),
            condition(State::Stalled, true),
        ],
    );
    let shown: Vec<Condition> = report
        .conditions
        .iter()
        .map(|episode| episode.condition)
        .collect();
    assert_eq!(shown, vec![condition(State::Stalled, true), store]);
    assert!(recorder.record(AT + 1, &[]).conditions.is_empty());
    let back = recorder.record(AT + 2, &[condition(State::Current, false)]);
    assert_eq!(back.conditions.len(), 1);
    assert!(!back.conditions[0].recovered);
    assert_eq!(back.conditions[0].started_ns, AT + 2);
}

#[test]
fn heartbeat_changes_report_but_not_alert_episode() {
    let mut recorder = Recorder::new(ENDPOINT, SESSION);
    let first = recorder.record(AT, &[condition(State::Stalled, true)]);
    let next = recorder.record(AT + 60 * SECONDS, &[condition(State::Stalled, true)]);
    assert_ne!(first.created_ns, next.created_ns);
    assert_eq!(tagged(&first, KIND_ALERT), tagged(&next, KIND_ALERT));
    assert_eq!(tagged(&first, KIND_ALERT).len(), 1);
}

fn measurement(resident_blobs: u64) -> Measurement {
    Measurement {
        condition: Condition {
            component: Component::Store,
            collection: None,
            peer: None,
            state: State::Current,
            alert: false,
        },
        evidence: Evidence {
            resident_blobs: Some(resident_blobs),
            ..Evidence::default()
        },
    }
}

#[test]
fn changed_measurement_starts_a_new_episode_but_equal_measurement_reuses_it() {
    let mut recorder = Recorder::new(ENDPOINT, SESSION);
    let first = recorder.record_measurements(AT, &[measurement(17)]);
    let same = recorder.record_measurements(AT + 60 * SECONDS, &[measurement(17)]);
    let changed = recorder.record_measurements(AT + 120 * SECONDS, &[measurement(18)]);

    assert_eq!(tagged(&first, KIND_CONDITION), tagged(&same, KIND_CONDITION));
    assert_ne!(
        tagged(&same, KIND_CONDITION),
        tagged(&changed, KIND_CONDITION)
    );
    let counts: Vec<HealthFact> = changed
        .facts(1, 2, &[100])
        .into_iter()
        .filter(|fact| matches!(fact, HealthFact::Count { .. }))
        .collect();
    assert_eq!(
        counts,
        vec![HealthFact::Count {
            entity: 100,
            metric: Metric::ResidentBlobs,
            value: 18
        }]
    );
}

#[test]
fn recovery_is_once_per_episode_and_restart_is_not_recovery() {
    let mut recorder = Recorder::new(ENDPOINT, SESSION);
    let initial = recorder.record(AT, &[condition(State::Current, false)]);
    assert!(tagged(&initial, KIND_RECOVERED).is_empty());
    recorder.record(AT + SECONDS, &[condition(State::Stalled, true)]);
    let recovery = recorder.record(AT + 2 * SECONDS, &[condition(State::Current, false)]);
    let heartbeat = recorder.record(AT + 3 * SECONDS, &[condition(State::Current, false)]);
    assert_eq!(tagged(&recovery, KIND_RECOVERED).len(), 1);
    assert_eq!(
        tagged(&recovery, KIND_RECOVERED),
        tagged(&heartbeat, KIND_RECOVERED)
    );
    let failure = recorder.record(AT + 4 * SECONDS, &[condition(State::Stalled, true)]);
    assert_ne!(
        tagged(&failure, KIND_ALERT),
        tagged(&recovery, KIND_RECOVERED)
    );
    let unknown = recorder.record(AT + 5 * SECONDS, &[condition(State::Unknown, false)]);
    assert!(tagged(&unknown, KIND_RECOVERED).is_empty());
}

#[test]
fn measurements_carry_the_counters_of_their_component() {
    let at = mono_now();
    let mut health = aged_matching_pair(at, at);
    health.store.resident_blobs = 12;
    health.publication.resident = 3;
    health.publication.in_flight = 2;
    let measured = measurements(&health, at);
    assert_eq!(measured.len(), conditions(&health, at).len());
    for measurement in measured {
        match measurement.condition.component {
            Component::Host => assert_eq!(measurement.evidence, Evidence::default()),
            Component::Store => assert_eq!(measurement.evidence.resident_blobs, Some(12)),
            Component::Collection => {
                assert_eq!(measurement.evidence.local_records, Some(10));
                assert_eq!(measurement.evidence.remote_records, Some(10));
                assert_eq!(measurement.evidence.local_authorizations, Some(0));
            }
            Component::Dht => {
                assert_eq!(measurement.evidence.publication_keys, Some(3));
                assert_eq!(measurement.evidence.publication_in_flight, Some(2));
            }
        }
    }
}

#[test]
fn tags_have_their_names() {
    let names = vocabulary();
    assert_eq!(names.len(), 12);
    assert_eq!(names[0], (KIND_REPORT, "swarm health report"));
    assert!(names.contains(&(HOST, "network event loop")));
    assert!(names.contains(&(STALLED, "stalled")));
    assert_eq!(Component::Host.tag(), HOST);
    assert_eq!(State::Stalled.tag(), STALLED);
    assert_eq!(COLLECTION_NAME, "swarm-health");
    assert_eq!(DEFAULT_SCOPE_ID, 0xCF3A399CA5EB9BAAD5EF283002F5A4D3);
}
