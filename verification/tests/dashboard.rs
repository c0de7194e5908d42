use triblespace_net::dashboard::{
    inspect_local, record_answer, requested_collection, short_handle, update_native_summary,
    update_want_summary, BlobSample, LocalSnapshot, NativeKind, NativeOperation, NativeRecord,
    NativeSummary, WantKind, WantRequest, WantSummary, DEFAULT_SAMPLE_LIMIT,
};
use triblespace_net::health_record::{
    Component, Condition, Evidence, HealthFact, Measurement, Metric, Recorder, State,
};
use triblespace_net::observers::{count_metric, inspect, observe_health, CountMetric, Freshness};

const COLLECTION: [u8; 32] = [3; 32];
const INPUT: [u8; 32] = [4; 32];
const METADATA: [u8; 32] = [5; 32];
const ABSENT: [u8; 32] = [8; 32];
const MISSING_RESULT: [u8; 32] = [9; 32];

fn merged() -> NativeRecord {
    NativeRecord {
        collection: COLLECTION,
        operation: NativeOperation::Merge {
            low: INPUT,
            high: INPUT,
            result: MISSING_RESULT,
        },
        references: vec![INPUT, MISSING_RESULT],
    }
}

fn stored() -> LocalSnapshot {
    LocalSnapshot {
        blobs: vec![
            BlobSample {
                handle: COLLECTION,
                bytes: 128,
            },
            BlobSample {
                handle: INPUT,
                bytes: 3,
            },
        ],
        records: vec![merged()],
        wants: vec![
            WantRequest::Merge {
                collection: COLLECTION,
                low: INPUT,
                high: INPUT,
            },
            WantRequest::Blob { handle: INPUT },
            WantRequest::Blob { handle: ABSENT },
        ],
    }
}

#[test]
fn report_keeps_equation_residency_and_requested_work_distinct() {
    let report = inspect_local(&stored(), 1);

    assert_eq!(report.stored_records, 1);
    assert_eq!(report.merges.stored, 1);
    assert_eq!(report.merges.result_resident, 0);
    assert_eq!(report.merges.all_references_resident, 0);
    assert_eq!(
        report.wants,
        WantSummary {
            total: 3,
            answered: 2,
            pending: 1
        }
    );
    assert_eq!(
        report.pending_want_sample[0].request,
        WantRequest::Blob { handle: ABSENT }
    );
    assert!(report.blob_sample_truncated);
}

#[test]
fn samples_are_the_smallest_and_counts_are_complete() {
    let mut snapshot = stored();
    snapshot.records.push(NativeRecord {
        collection: [2; 32],
        operation: NativeOperation::Commit { data: INPUT },
        references: vec![INPUT, METADATA],
    });
    snapshot.records.push(NativeRecord {
        collection: [2; 32],
        operation: NativeOperation::Derive {
            input: INPUT,
            output: COLLECTION,
        },
        references: vec![INPUT, COLLECTION],
    });
    let report = inspect_local(&snapshot, DEFAULT_SAMPLE_LIMIT);
    assert_eq!(report.resident_blobs, 2);
    assert_eq!(report.resident_bytes, 131);
    assert_eq!(report.blob_sample.len(), 2);
    assert_eq!(report.blob_sample[0].handle, COLLECTION);
    assert!(!report.blob_sample_truncated);
    assert_eq!(report.stored_records, 3);
    assert_eq!(
        report.commits,
        NativeSummary {
            stored: 1,
            all_references_resident: 0,
            result_resident: 1,
            missing_reference_occurrences: 1,
        }
    );
    assert_eq!(
        report.derives,
        NativeSummary {
            stored: 1,
            all_references_resident: 1,
            result_resident: 1,
            missing_reference_occurrences: 0,
        }
    );
    assert_eq!(report.collections.len(), 2);
    assert_eq!(report.collections[0].collection, [2; 32]);
    assert_eq!(report.collections[1].merges, report.merges);
    let stored: u64 = report
        .collections
        .iter()
        .map(|evidence| {
            evidence.commits.stored + evidence.merges.stored + evidence.derives.stored
        })
        .sum();
    assert_eq!(stored, report.stored_records);
    let missing: Vec<_> = report
        .missing_reference_sample
        .iter()
        .map(|reference| (reference.collection, reference.kind, reference.handle))
        .collect();
    assert_eq!(
        missing,
        vec![
            ([2; 32], NativeKind::Commit, METADATA),
            (COLLECTION, NativeKind::Merge, MISSING_RESULT),
        ]
    );
    assert!(!report.missing_reference_sample_truncated);
    assert_eq!(report.blob_wants.total, 2);
    assert_eq!(report.merge_wants.answered, 1);
    assert_eq!(report.derive_wants, WantSummary::default());
    assert_eq!(report.pending_want_sample[0].kind, WantKind::Blob);
    assert!(!report.pending_want_sample_truncated);

    let nothing = inspect_local(&snapshot, 0);
    assert!(nothing.blob_sample.is_empty());
    assert!(nothing.blob_sample_truncated);
}

#[test]
fn labels_and_handles_are_short() {
    assert_eq!(NativeKind::Commit.label(), "commit");
    assert_eq!(NativeKind::Merge.label(), "merge");
    assert_eq!(NativeKind::Derive.label(), "derive");
    assert_eq!(WantKind::Blob.label(), "blob");
    assert_eq!(WantKind::Merge.label(), "merge");
    assert_eq!(WantKind::Derive.label(), "derive");
    let mut raw = [0; 32];
    raw[0] = 0xAB;
    raw[5] = 0x01;
    assert_eq!(short_handle(&raw), "ab0000000001");
}

#[test]
fn records_answer_the_request_for_them() {
    assert_eq!(
        record_answer(&merged()),
        Some(WantRequest::Merge {
            collection: COLLECTION,
            low: INPUT,
            high: INPUT
        })
    );
    let commit = NativeRecord {
        collection: COLLECTION,
        operation: NativeOperation::Commit { data: INPUT },
        references: Vec::new(),
    };
    assert_eq!(record_answer(&commit), None);
    assert_eq!(
        requested_collection(WantRequest::Derive {
            target: COLLECTION,
            input: INPUT
        }),
        Some(COLLECTION)
    );
    assert_eq!(
        requested_collection(WantRequest::Blob { handle: INPUT }),
        None
    );
}

#[test]
fn summaries_saturate() {
    let mut summary = NativeSummary {
        stored: u64::MAX,
        all_references_resident: 0,
        result_resident: 0,
        missing_reference_occurrences: 0,
    };
    update_native_summary(&mut summary, &[INPUT, ABSENT], true);
    assert_eq!(summary.stored, u64::MAX);
    assert_eq!(summary.result_resident, 1);
    assert_eq!(summary.all_references_resident, 0);
    assert_eq!(summary.missing_reference_occurrences, 2);
    let mut wants = WantSummary::default();
    update_want_summary(&mut wants, true);
    update_want_summary(&mut wants, false);
    assert_eq!((wants.total, wants.answered, wants.pending), (2, 1, 1));
}

const AT: i128 = 1_700_000_000_000_000_000;

fn zero_blobs() -> Vec<HealthFact> {
    let mut recorder = Recorder::new([5; 32], 77);
    let report = recorder.record_measurements(
        AT,
        &[Measurement {
            condition: Condition {
                component: Component::Store,
                collection: None,
                peer: None,
                state: State::Current,
                alert: false,
            },
            evidence: Evidence {
                resident_blobs: Some(0),
                ..Evidence::default()
            },
        }],
    );
    report.facts(1, 2, &[3])
}

#[test]
fn observed_counts_roundtrip_and_zero_is_not_absence() {
    let now = AT + 1_000_000_000;
    let reports = observe_health(&zero_blobs(), now, 10);

    assert_eq!(reports.len(), 1);
    assert_eq!(reports[0].freshness, Freshness::Fresh);
    assert_eq!(reports[0].conditions.len(), 1);
    assert_eq!(
        reports[0].conditions[0].evidence.resident_blobs.value(),
        Some(0)
    );
    assert!(matches!(
        reports[0].conditions[0].evidence.local_records,
        CountMetric::Absent
    ));
}

#[test]
fn reports_age_and_the_latest_is_shown() {
    let mut facts = zero_blobs();
    let stale = observe_health(&facts, AT + 11_000_000_000, 10);
    assert_eq!(stale[0].freshness, Freshness::Stale);
    assert_eq!(stale[0].age_seconds, Some(11));
    let future = observe_health(&facts, AT - 1, 10);
    assert_eq!(future[0].freshness, Freshness::Future);
    assert_eq!(future[0].age_seconds, None);

    let mut recorder = Recorder::new([5; 32], 77);
    let later = recorder.record(AT + 1, &[]);
    facts.extend(later.facts(9, 2, &[]));
    let reports = observe_health(&facts, AT + 1, 10);
    assert_eq!(reports.len(), 1);
    assert_eq!(reports[0].report, 9);
    assert_eq!(reports[0].node, 2);
    assert_eq!(reports[0].sessions, vec![77]);
    assert_eq!(reports[0].endpoints, vec![[5; 32]]);
    assert!(reports[0].conditions.is_empty());
}

#[test]
fn contradictory_counts_are_kept_apart() {
    let facts = [
        HealthFact::Count {
            entity: 3,
            metric: Metric::LocalRecords,
            value: 9,
        },
        HealthFact::Count {
            entity: 3,
            metric: Metric::LocalRecords,
            value: 2,
        },
        HealthFact::Count {
            entity: 3,
            metric: Metric::LocalRecords,
            value: 9,
        },
    ];
    match count_metric(&facts, 3, Metric::LocalRecords) {
        CountMetric::Ambiguous(values) => assert_eq!(values, vec![2, 9]),
        _ => panic!("two counts were stated"),
    }
    assert_eq!(count_metric(&facts, 3, Metric::RemoteRecords).value(), None);
}

#[test]
fn a_dashboard_without_health_shows_no_observers() {
    let report = inspect(&stored(), None, AT, 10, 1);
    assert!(report.observers.is_empty());
    assert_eq!(report.local.stored_records, 1);
    let facts = zero_blobs();
    let report = inspect(&stored(), Some(&facts), AT, 10, 1);
    assert_eq!(report.observers.len(), 1);
}
