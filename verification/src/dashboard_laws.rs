//! What a local report says of the snapshot that it was made from.

use vstd::prelude::*;

use crate::collection_blob_inventory::RawHash;
use crate::dashboard::{
    all_missing, all_pending, clamped, is_answered, is_resident, missing_count, missing_of,
    named_collection, native_totals, reports, total_bytes, want_totals, with_missing, BlobSample,
    LocalReport, LocalSnapshot, MissingReference, NativeKind, NativeOperation, NativeRecord,
    PendingWant, WantKind, WantRequest, WantSummary,
};
use crate::keys::rank;
use crate::sample::{is_sample, lemma_in_order, Ordered};

verus! {

/// Whether a record is the derivation of something from `input` in `target`.
pub open spec fn derives_from(record: NativeRecord, target: [u8; 32], input: RawHash) -> bool {
    record.collection == target && record.operation is Derive && record.operation->Derive_input
        == input
}

/// Whether a record merges `low` and `high` in `collection`.
pub open spec fn merges_both(
    record: NativeRecord,
    collection: [u8; 32],
    low: RawHash,
    high: RawHash,
) -> bool {
    record.collection == collection && record.operation is Merge && record.operation->Merge_low
        == low && record.operation->Merge_high == high
}

/// Whether a snapshot holds what a request asks for.
pub open spec fn fulfilled(
    request: WantRequest,
    records: Seq<NativeRecord>,
    blobs: Seq<BlobSample>,
) -> bool {
    match request {
        WantRequest::Blob { handle } => exists|i: int|
            0 <= i < blobs.len() && (#[trigger] blobs[i]).handle == handle,
        WantRequest::Merge { collection, low, high } => exists|i: int|
            0 <= i < records.len() && merges_both(#[trigger] records[i], collection, low, high),
        WantRequest::Derive { target, input } => exists|i: int|
            0 <= i < records.len() && derives_from(#[trigger] records[i], target, input),
    }
}

/// A request to derive is answered exactly by a derivation from the same input in
/// the same collection, whatever its output is and whether that is resident; a
/// request to merge exactly by a merge of the same two; a request for a blob
/// exactly by the blob.
pub proof fn law_answers_match_their_requests(
    request: WantRequest,
    records: Seq<NativeRecord>,
    blobs: Seq<BlobSample>,
)
    ensures
        is_answered(request, records, blobs) <==> fulfilled(request, records, blobs),
{
    match request {
        WantRequest::Blob { handle } => {
            if is_answered(request, records, blobs) {
                let i = choose|i: int| 0 <= i < blobs.len() && #[trigger] blobs[i].handle == handle;
                assert(blobs[i].handle == handle);
            }
        },
        WantRequest::Merge { collection, low, high } => {
            if is_answered(request, records, blobs) {
                let i = choose|i: int|
                    0 <= i < records.len() && (#[trigger] records[i]).answers() == Some(request);
                assert(merges_both(records[i], collection, low, high));
            }
            if fulfilled(request, records, blobs) {
                let i = choose|i: int|
                    0 <= i < records.len() && merges_both(
                        #[trigger] records[i],
                        collection,
                        low,
                        high,
                    );
                assert(records[i].answers() == Some(request));
            }
        },
        WantRequest::Derive { target, input } => {
            if is_answered(request, records, blobs) {
                let i = choose|i: int|
                    0 <= i < records.len() && (#[trigger] records[i]).answers() == Some(request);
                assert(derives_from(records[i], target, input));
            }
            if fulfilled(request, records, blobs) {
                let i = choose|i: int|
                    0 <= i < records.len() && derives_from(#[trigger] records[i], target, input);
                assert(records[i].answers() == Some(request));
            }
        },
    }
}

/// A record answers one request at most: a commit none, a merge that of its
/// collection and inputs, a derivation that of its collection and input. What a
/// record results in has no part in it.
pub proof fn law_a_record_answers_one_request(record: NativeRecord, request: WantRequest)
    ensures
        record.operation is Commit ==> record.answers() is None,
        request is Blob ==> record.answers() != Some(request),
        request matches WantRequest::Merge { collection, low, high } ==> (record.answers() == Some(
            request,
        ) <==> merges_both(record, collection, low, high)),
        request matches WantRequest::Derive { target, input } ==> (record.answers() == Some(request)
            <==> derives_from(record, target, input)),
{
}

/// A request that a record answers names the collection of the record.
pub proof fn law_requests_name_the_collection_of_their_answer(
    record: NativeRecord,
    request: WantRequest,
)
    requires
        record.answers() == Some(request),
    ensures
        named_collection(request) == Some(record.collection),
{
}

/// A request for a blob names no collection.
pub proof fn law_blob_requests_name_no_collection(request: WantRequest)
    ensures
        named_collection(request) is None <==> request is Blob,
{
}

/// How many of the requests are chosen.
pub open spec fn chosen(wants: Seq<WantRequest>, choice: spec_fn(WantRequest) -> bool) -> nat {
    wants.filter(choice).len()
}

/// Whether a request counts: of one kind, or of all.
pub open spec fn counts(request: WantRequest, only: Option<WantKind>) -> bool {
    match only {
        None => true,
        Some(WantKind::Blob) => request is Blob,
        Some(WantKind::Merge) => request is Merge,
        Some(WantKind::Derive) => request is Derive,
    }
}

proof fn lemma_want_totals(
    wants: Seq<WantRequest>,
    records: Seq<NativeRecord>,
    blobs: Seq<BlobSample>,
    only: Option<WantKind>,
)
    ensures
        want_totals(wants, records, blobs, only).total == chosen(
            wants,
            |request: WantRequest| counts(request, only),
        ),
        want_totals(wants, records, blobs, only).answered == chosen(
            wants,
            |request: WantRequest| counts(request, only) && fulfilled(request, records, blobs),
        ),
        want_totals(wants, records, blobs, only).pending == chosen(
            wants,
            |request: WantRequest| counts(request, only) && !fulfilled(request, records, blobs),
        ),
    decreases wants.len(),
{
    reveal(Seq::filter);
    if wants.len() > 0 {
        lemma_want_totals(wants.drop_last(), records, blobs, only);
        law_answers_match_their_requests(wants.last(), records, blobs);
    }
}

proof fn lemma_chosen_bound(wants: Vec<WantRequest>, choice: spec_fn(WantRequest) -> bool)
    ensures
        chosen(wants@, choice) <= wants@.len() <= usize::MAX <= u64::MAX,
{
    wants@.lemma_filter_len(choice);
    assert(wants.len() <= usize::MAX);
}

/// Whether a summary counts the requests of one kind, or of all: how many there
/// are, of how many the snapshot holds what they ask for, and of how many not.
pub open spec fn counts_requests(
    summary: WantSummary,
    snapshot: LocalSnapshot,
    only: Option<WantKind>,
) -> bool {
    &&& summary.total == chosen(snapshot.wants@, |request: WantRequest| counts(request, only))
    &&& summary.answered == chosen(
        snapshot.wants@,
        |request: WantRequest|
            counts(request, only) && fulfilled(request, snapshot.records@, snapshot.blobs@),
    )
    &&& summary.pending == chosen(
        snapshot.wants@,
        |request: WantRequest|
            counts(request, only) && !fulfilled(request, snapshot.records@, snapshot.blobs@),
    )
}

/// A report counts every request once in its kind: as answered exactly if the
/// snapshot holds what it asks for, else as pending.
pub proof fn law_report_counts_requests(report: LocalReport, snapshot: LocalSnapshot, limit: nat)
    requires
        reports(report, snapshot, limit),
    ensures
        report.wants.total == snapshot.wants@.len(),
        counts_requests(report.wants, snapshot, None),
        counts_requests(report.blob_wants, snapshot, Some(WantKind::Blob)),
        counts_requests(report.merge_wants, snapshot, Some(WantKind::Merge)),
        counts_requests(report.derive_wants, snapshot, Some(WantKind::Derive)),
{
    lemma_counts_requests(report.wants, snapshot, None);
    lemma_counts_requests(report.blob_wants, snapshot, Some(WantKind::Blob));
    lemma_counts_requests(report.merge_wants, snapshot, Some(WantKind::Merge));
    lemma_counts_requests(report.derive_wants, snapshot, Some(WantKind::Derive));
    lemma_all_chosen(snapshot.wants@);
}

proof fn lemma_all_chosen(wants: Seq<WantRequest>)
    ensures
        chosen(wants, |request: WantRequest| counts(request, None)) == wants.len(),
    decreases wants.len(),
{
    reveal(Seq::filter);
    if wants.len() > 0 {
        lemma_all_chosen(wants.drop_last());
    }
}

proof fn lemma_counts_requests(
    summary: WantSummary,
    snapshot: LocalSnapshot,
    only: Option<WantKind>,
)
    requires
        crate::dashboard::tells(
            summary,
            want_totals(snapshot.wants@, snapshot.records@, snapshot.blobs@, only),
        ),
    ensures
        counts_requests(summary, snapshot, only),
{
    lemma_want_totals(snapshot.wants@, snapshot.records@, snapshot.blobs@, only);
    lemma_chosen_bound(snapshot.wants, |request: WantRequest| counts(request, only));
    lemma_chosen_bound(
        snapshot.wants,
        |request: WantRequest|
            counts(request, only) && fulfilled(request, snapshot.records@, snapshot.blobs@),
    );
    lemma_chosen_bound(
        snapshot.wants,
        |request: WantRequest|
            counts(request, only) && !fulfilled(request, snapshot.records@, snapshot.blobs@),
    );
}

proof fn lemma_all_pending(
    wants: Seq<WantRequest>,
    records: Seq<NativeRecord>,
    blobs: Seq<BlobSample>,
    item: PendingWant,
)
    ensures
        all_pending(wants, records, blobs).contains(item) <==> {
            &&& wants.contains(item.request)
            &&& counts(item.request, Some(item.kind))
            &&& !fulfilled(item.request, records, blobs)
        },
    decreases wants.len(),
{
    if wants.len() > 0 {
        let front = wants.drop_last();
        lemma_all_pending(front, records, blobs, item);
        law_answers_match_their_requests(wants.last(), records, blobs);
        assert(wants.contains(item.request) <==> front.contains(item.request) || wants.last()
            == item.request) by {
            if wants.contains(item.request) {
                let i = choose|i: int| 0 <= i < wants.len() && wants[i] == item.request;
                if i < front.len() {
                    assert(front[i] == item.request);
                }
            }
            if front.contains(item.request) {
                let i = choose|i: int| 0 <= i < front.len() && front[i] == item.request;
                assert(wants[i] == item.request);
            }
            assert(wants[wants.len() - 1] == wants.last());
        }
    }
}

/// A sample that is not full leaves nothing out.
proof fn lemma_sample_complete<T: Ordered>(sample: Seq<T>, all: Set<T>, limit: nat, item: T)
    requires
        is_sample(sample, all, limit),
        sample.len() < limit,
        all.contains(item),
    ensures
        sample.contains(item),
{
    lemma_in_order(sample);
    if !sample.contains(item) {
        let rest = all.remove(item);
        assert forall|other: T| sample.to_set().contains(other) implies rest.contains(other) by {
            let i = choose|i: int| 0 <= i < sample.len() && sample[i] == other;
            assert(all.contains(sample[i]));
        }
        vstd::set_lib::lemma_len_subset(sample.to_set(), rest);
    }
}

/// The requests that a report lists are requests of the snapshot, by their kind,
/// and none has its answer there. A list that is not full leaves none out.
pub proof fn law_pending_requests_are_listed(
    report: LocalReport,
    snapshot: LocalSnapshot,
    limit: nat,
    request: WantRequest,
)
    requires
        reports(report, snapshot, limit),
    ensures
        report.pending_want_sample@.len() <= limit,
        forall|i: int|
            0 <= i < report.pending_want_sample@.len() ==> {
                let item = #[trigger] report.pending_want_sample@[i];
                &&& snapshot.wants@.contains(item.request)
                &&& counts(item.request, Some(item.kind))
                &&& !fulfilled(item.request, snapshot.records@, snapshot.blobs@)
            },
        report.pending_want_sample@.len() < limit && snapshot.wants@.contains(request)
            && !fulfilled(request, snapshot.records@, snapshot.blobs@) ==> exists|i: int|
            0 <= i < report.pending_want_sample@.len() && (
            #[trigger] report.pending_want_sample@[i]).request == request,
        report.pending_want_sample_truncated <==> report.wants.pending
            > report.pending_want_sample@.len(),
{
    let wants = snapshot.wants@;
    let records = snapshot.records@;
    let blobs = snapshot.blobs@;
    let all = all_pending(wants, records, blobs);
    let sample = report.pending_want_sample@;
    assert forall|i: int| 0 <= i < sample.len() implies ({
        let item = #[trigger] sample[i];
        &&& wants.contains(item.request)
        &&& counts(item.request, Some(item.kind))
        &&& !fulfilled(item.request, records, blobs)
    }) by {
        assert(all.contains(sample[i]));
        lemma_all_pending(wants, records, blobs, sample[i]);
    }
    if sample.len() < limit && wants.contains(request) && !fulfilled(request, records, blobs) {
        let kind = match request {
            WantRequest::Blob { .. } => WantKind::Blob,
            WantRequest::Merge { .. } => WantKind::Merge,
            WantRequest::Derive { .. } => WantKind::Derive,
        };
        let item = PendingWant { kind, request };
        lemma_all_pending(wants, records, blobs, item);
        lemma_sample_complete(sample, all, limit, item);
        let i = choose|i: int| 0 <= i < sample.len() && sample[i] == item;
        assert(sample[i].request == request);
    }
}

/// The resident blobs are counted with their bytes. Those that a report lists are
/// resident, in ascending order of their handles; a list that is not full leaves
/// none out, and no blob that a full one leaves out comes before one that it has.
pub proof fn law_report_lists_the_first_blobs(
    report: LocalReport,
    snapshot: LocalSnapshot,
    limit: nat,
    blob: BlobSample,
)
    requires
        reports(report, snapshot, limit),
    ensures
        report.resident_blobs == snapshot.blobs@.len(),
        report.blob_sample@.len() <= limit,
        report.blob_sample_truncated <==> report.resident_blobs > report.blob_sample@.len(),
        forall|i: int|
            0 <= i < report.blob_sample@.len() ==> snapshot.blobs@.contains(
                #[trigger] report.blob_sample@[i],
            ),
        forall|i: int, j: int|
            0 <= i < j < report.blob_sample@.len() ==> rank(
                (#[trigger] report.blob_sample@[i]).handle,
            ) <= rank((#[trigger] report.blob_sample@[j]).handle),
        report.blob_sample@.len() < limit && snapshot.blobs@.contains(blob)
            ==> report.blob_sample@.contains(blob),
        forall|i: int|
            snapshot.blobs@.contains(blob) && !report.blob_sample@.contains(blob) && 0 <= i
                < report.blob_sample@.len() ==> rank((#[trigger] report.blob_sample@[i]).handle)
                <= rank(blob.handle),
{
    let sample = report.blob_sample@;
    let all = snapshot.blobs@.to_set();
    assert forall|i: int, j: int| 0 <= i < j < sample.len() implies rank(
        (#[trigger] sample[i]).handle,
    ) <= rank((#[trigger] sample[j]).handle) by {
        assert(sample[i].order() < sample[j].order());
        lemma_handle_first(sample[i], sample[j]);
    }
    assert forall|i: int| 0 <= i < sample.len() implies snapshot.blobs@.contains(
        #[trigger] sample[i],
    ) by {
        assert(all.contains(sample[i]));
    }
    if snapshot.blobs@.contains(blob) {
        assert(all.contains(blob));
        if sample.len() < limit {
            lemma_sample_complete(sample, all, limit, blob);
        }
        if !sample.contains(blob) {
            assert forall|i: int| 0 <= i < sample.len() implies rank((#[trigger] sample[i]).handle)
                <= rank(blob.handle) by {
                assert(sample[i].order() < blob.order());
                lemma_handle_first(sample[i], blob);
            }
        }
    }
}

proof fn lemma_handle_first(a: BlobSample, b: BlobSample)
    requires
        a.order() < b.order(),
    ensures
        rank(a.handle) <= rank(b.handle),
{
    let x = rank(a.handle);
    let y = rank(b.handle);
    if x > y {
        assert(x * 0x1_0000_0000_0000_0000 >= y * 0x1_0000_0000_0000_0000
            + 0x1_0000_0000_0000_0000) by (nonlinear_arith)
            requires
                x >= y + 1,
        ;
    }
}

/// No blobs have no bytes, and one blob more adds its own.
pub proof fn law_bytes_add_up(blobs: Seq<BlobSample>, blob: BlobSample)
    ensures
        total_bytes(Seq::empty()) == 0,
        total_bytes(blobs.push(blob)) == total_bytes(blobs) + blob.bytes,
{
    assert(blobs.push(blob).drop_last() =~= blobs);
}

/// Whether a record is of the kind, and of the collection where one is given.
pub open spec fn is_of(record: NativeRecord, kind: NativeKind, only: Option<[u8; 32]>) -> bool {
    &&& match kind {
        NativeKind::Commit => record.operation is Commit,
        NativeKind::Merge => record.operation is Merge,
        NativeKind::Derive => record.operation is Derive,
    }
    &&& only matches Some(collection) ==> record.collection == collection
}

/// Whether a blob is not among the resident ones.
pub open spec fn is_absent(blobs: Seq<BlobSample>, handle: RawHash) -> bool {
    forall|i: int| 0 <= i < blobs.len() ==> (#[trigger] blobs[i]).handle != handle
}

/// The member of a commit, or what a merge or a derivation gives.
pub open spec fn gives(record: NativeRecord, handle: RawHash) -> bool {
    match record.operation {
        NativeOperation::Commit { data } => data == handle,
        NativeOperation::Merge { result, .. } => result == handle,
        NativeOperation::Derive { output, .. } => output == handle,
    }
}

/// The missing references of a record are those that are not resident, each as
/// often as it occurs.
pub proof fn law_missing_references_are_absent(references: Seq<RawHash>, blobs: Seq<BlobSample>)
    ensures
        missing_of(references, blobs) == references.filter(
            |handle: RawHash| is_absent(blobs, handle),
        ),
        missing_of(references, blobs).len() == 0 <==> forall|i: int|
            0 <= i < references.len() ==> !is_absent(blobs, #[trigger] references[i]),
    decreases references.len(),
{
    reveal(Seq::filter);
    if references.len() > 0 {
        let front = references.drop_last();
        law_missing_references_are_absent(front, blobs);
        lemma_absent(blobs, references.last());
        assert forall|i: int| 0 <= i < front.len() implies front[i] == references[i] by {}
        if missing_of(references, blobs).len() == 0 {
            assert forall|i: int| 0 <= i < references.len() implies !is_absent(
                blobs,
                #[trigger] references[i],
            ) by {
                if i < front.len() {
                    assert(!is_absent(blobs, front[i]));
                }
            }
        } else if forall|i: int|
            0 <= i < references.len() ==> !is_absent(blobs, #[trigger] references[i]) {
            assert forall|i: int| 0 <= i < front.len() implies !is_absent(
                blobs,
                #[trigger] front[i],
            ) by {
                assert(!is_absent(blobs, references[i]));
            }
            assert(!is_absent(blobs, references[references.len() - 1]));
        }
    }
}

proof fn lemma_absent(blobs: Seq<BlobSample>, handle: RawHash)
    ensures
        is_absent(blobs, handle) <==> !is_resident(blobs, handle),
{
    if !is_absent(blobs, handle) {
        let i = choose|i: int| 0 <= i < blobs.len() && (#[trigger] blobs[i]).handle == handle;
        assert(blobs[i].handle == handle);
    }
    if is_resident(blobs, handle) {
        let i = choose|i: int| 0 <= i < blobs.len() && #[trigger] blobs[i].handle == handle;
        assert(blobs[i].handle == handle);
    }
}

/// One record more counts once among the records of its kind and collection, and
/// among no others: as whole if every reference is resident, as resulting in
/// something resident if what it gives is, and with each reference that is not.
pub proof fn law_each_record_counts_in_its_kind(
    records: Seq<NativeRecord>,
    record: NativeRecord,
    blobs: Seq<BlobSample>,
    kind: NativeKind,
    only: Option<[u8; 32]>,
)
    ensures
        ({
            let before = native_totals(records, blobs, kind, only);
            let after = native_totals(records.push(record), blobs, kind, only);
            let absent = record.references@.filter(|handle: RawHash| is_absent(blobs, handle));
            &&& !is_of(record, kind, only) ==> after == before
            &&& is_of(record, kind, only) ==> {
                &&& after.stored == before.stored + 1
                &&& (forall|i: int|
                    0 <= i < record.references@.len() ==> !is_absent(
                        blobs,
                        #[trigger] record.references@[i],
                    )) ==> after.all_references_resident == before.all_references_resident + 1
                &&& (exists|i: int|
                    0 <= i < record.references@.len() && is_absent(
                        blobs,
                        #[trigger] record.references@[i],
                    )) ==> after.all_references_resident == before.all_references_resident
                &&& forall|handle: RawHash|
                    #![trigger is_absent(blobs, handle)]
                    gives(record, handle) ==> after.result_resident == before.result_resident + if is_absent(
                        blobs,
                        handle,
                    ) {
                        0int
                    } else {
                        1int
                    }
                &&& after.missing_reference_occurrences == before.missing_reference_occurrences
                    + absent.len()
            }
        }),
        native_totals(Seq::empty(), blobs, kind, only).stored == 0,
        native_totals(Seq::empty(), blobs, kind, only).all_references_resident == 0,
        native_totals(Seq::empty(), blobs, kind, only).result_resident == 0,
        native_totals(Seq::empty(), blobs, kind, only).missing_reference_occurrences == 0,
{
    let more = records.push(record);
    assert(more.drop_last() =~= records);
    assert(more.last() == record);
    law_missing_references_are_absent(record.references@, blobs);
    lemma_absent(blobs, record.result_spec());
    assert forall|handle: RawHash| gives(record, handle) implies handle
        == record.result_spec() by {}
}

proof fn lemma_with_missing(
    all: Set<MissingReference>,
    collection: [u8; 32],
    kind: NativeKind,
    missing: Seq<RawHash>,
    item: MissingReference,
)
    ensures
        with_missing(all, collection, kind, missing).contains(item) <==> all.contains(item) || (
        item.collection == collection && item.kind == kind && missing.contains(item.handle)),
    decreases missing.len(),
{
    if missing.len() > 0 {
        let front = missing.drop_last();
        lemma_with_missing(all, collection, kind, front, item);
        assert(missing.contains(item.handle) <==> front.contains(item.handle) || missing.last()
            == item.handle) by {
            if missing.contains(item.handle) {
                let i = choose|i: int| 0 <= i < missing.len() && missing[i] == item.handle;
                if i < front.len() {
                    assert(front[i] == item.handle);
                }
            }
            if front.contains(item.handle) {
                let i = choose|i: int| 0 <= i < front.len() && front[i] == item.handle;
                assert(missing[i] == item.handle);
            }
            assert(missing[missing.len() - 1] == missing.last());
        }
    }
}

/// Whether a record of the snapshot refers to the handle, and is of the kind and
/// the collection.
pub open spec fn refers(records: Seq<NativeRecord>, item: MissingReference) -> bool {
    exists|i: int|
        0 <= i < records.len() && is_of(#[trigger] records[i], item.kind, Some(item.collection))
            && records[i].references@.contains(item.handle)
}

proof fn lemma_all_missing(
    records: Seq<NativeRecord>,
    blobs: Seq<BlobSample>,
    item: MissingReference,
)
    ensures
        all_missing(records, blobs).contains(item) <==> is_absent(blobs, item.handle) && refers(
            records,
            item,
        ),
    decreases records.len(),
{
    if records.len() > 0 {
        let front = records.drop_last();
        let record = records.last();
        let missing = missing_of(record.references@, blobs);
        lemma_all_missing(front, blobs, item);
        lemma_with_missing(
            all_missing(front, blobs),
            record.collection,
            record.kind_spec(),
            missing,
            item,
        );
        law_missing_references_are_absent(record.references@, blobs);
        let pick = |handle: RawHash| is_absent(blobs, handle);
        assert(missing == record.references@.filter(pick));
        lemma_filter_contains(record.references@, pick, item.handle);
        if refers(records, item) {
            let i = choose|i: int|
                0 <= i < records.len() && is_of(
                    #[trigger] records[i],
                    item.kind,
                    Some(item.collection),
                ) && records[i].references@.contains(item.handle);
            if i < front.len() {
                assert(front[i] == records[i]);
                assert(refers(front, item));
            }
        }
        if refers(front, item) {
            let i = choose|i: int|
                0 <= i < front.len() && is_of(
                    #[trigger] front[i],
                    item.kind,
                    Some(item.collection),
                ) && front[i].references@.contains(item.handle);
            assert(records[i] == front[i]);
        }
        assert(records[records.len() - 1] == record);
    }
}

proof fn lemma_filter_contains<T>(items: Seq<T>, pick: spec_fn(T) -> bool, item: T)
    ensures
        items.filter(pick).contains(item) <==> items.contains(item) && pick(item),
    decreases items.len(),
{
    reveal(Seq::filter);
    if items.len() > 0 {
        let front = items.drop_last();
        lemma_filter_contains(front, pick, item);
        let kept = front.filter(pick);
        assert(items.contains(item) <==> front.contains(item) || items.last() == item) by {
            if items.contains(item) {
                let i = choose|i: int| 0 <= i < items.len() && items[i] == item;
                if i < front.len() {
                    assert(front[i] == item);
                }
            }
            if front.contains(item) {
                let i = choose|i: int| 0 <= i < front.len() && front[i] == item;
                assert(items[i] == item);
            }
            assert(items[items.len() - 1] == items.last());
        }
        if pick(items.last()) {
            let more = kept.push(items.last());
            assert(more.contains(item) <==> kept.contains(item) || items.last() == item) by {
                if more.contains(item) {
                    let i = choose|i: int| 0 <= i < more.len() && more[i] == item;
                    if i < kept.len() {
                        assert(kept[i] == item);
                    }
                }
                if kept.contains(item) {
                    let i = choose|i: int| 0 <= i < kept.len() && kept[i] == item;
                    assert(more[i] == item);
                }
                assert(more[more.len() - 1] == items.last());
            }
        }
    }
}

/// The missing references that a report lists are of records of the snapshot, by
/// collection and kind, and none is resident. A list that is not full leaves none
/// out.
pub proof fn law_missing_references_are_listed(
    report: LocalReport,
    snapshot: LocalSnapshot,
    limit: nat,
    item: MissingReference,
)
    requires
        reports(report, snapshot, limit),
    ensures
        report.missing_reference_sample@.len() <= limit,
        forall|i: int|
            0 <= i < report.missing_reference_sample@.len() ==> {
                let listed = #[trigger] report.missing_reference_sample@[i];
                is_absent(snapshot.blobs@, listed.handle) && refers(snapshot.records@, listed)
            },
        report.missing_reference_sample@.len() < limit && is_absent(snapshot.blobs@, item.handle)
            && refers(snapshot.records@, item) ==> report.missing_reference_sample@.contains(item),
        report.missing_reference_sample_truncated <==> clamped(
            missing_count(snapshot.records@, snapshot.blobs@),
        ) > report.missing_reference_sample@.len(),
{
    let records = snapshot.records@;
    let blobs = snapshot.blobs@;
    let all = all_missing(records, blobs);
    let sample = report.missing_reference_sample@;
    assert forall|i: int| 0 <= i < sample.len() implies ({
        let listed = #[trigger] sample[i];
        is_absent(blobs, listed.handle) && refers(records, listed)
    }) by {
        assert(all.contains(sample[i]));
        lemma_all_missing(records, blobs, sample[i]);
    }
    if sample.len() < limit && is_absent(blobs, item.handle) && refers(records, item) {
        lemma_all_missing(records, blobs, item);
        lemma_sample_complete(sample, all, limit, item);
    }
}

/// A report counts all records, and it has one row for each collection that has
/// any, in ascending order of the collections.
pub proof fn law_report_has_a_row_for_each_collection(
    report: LocalReport,
    snapshot: LocalSnapshot,
    limit: nat,
    collection: [u8; 32],
)
    requires
        reports(report, snapshot, limit),
    ensures
        report.stored_records == snapshot.records@.len(),
        (exists|i: int|
            0 <= i < report.collections@.len() && (#[trigger] report.collections@[i]).collection
                == collection) <==> exists|i: int|
            0 <= i < snapshot.records@.len() && (#[trigger] snapshot.records@[i]).collection
                == collection,
        forall|i: int, j: int|
            0 <= i < j < report.collections@.len() ==> rank(
                (#[trigger] report.collections@[i]).collection,
            ) < rank((#[trigger] report.collections@[j]).collection),
{
    let list = report.collections@;
    let records = snapshot.records@;
    if exists|i: int| 0 <= i < records.len() && (#[trigger] records[i]).collection == collection {
        assert(crate::dashboard::has_records(records, collection));
    }
    if exists|i: int| 0 <= i < list.len() && (#[trigger] list[i]).collection == collection {
        let i = choose|i: int| 0 <= i < list.len() && (#[trigger] list[i]).collection == collection;
        assert(crate::dashboard::evidences(list[i], records, snapshot.blobs@));
        assert(crate::dashboard::has_records(records, collection));
    }
}

/// How many records are chosen.
pub open spec fn picked(records: Seq<NativeRecord>, pick: spec_fn(NativeRecord) -> bool) -> nat {
    records.filter(pick).len()
}

proof fn lemma_stored(
    records: Seq<NativeRecord>,
    blobs: Seq<BlobSample>,
    kind: NativeKind,
    only: Option<[u8; 32]>,
)
    ensures
        native_totals(records, blobs, kind, only).stored == picked(
            records,
            |record: NativeRecord| is_of(record, kind, only),
        ),
        native_totals(records, blobs, kind, only).result_resident == picked(
            records,
            |record: NativeRecord| is_of(record, kind, only) && gives_resident(record, blobs),
        ),
        native_totals(records, blobs, kind, only).all_references_resident == picked(
            records,
            |record: NativeRecord| is_of(record, kind, only) && refers_to_resident(record, blobs),
        ),
    decreases records.len(),
{
    reveal(Seq::filter);
    if records.len() > 0 {
        lemma_stored(records.drop_last(), blobs, kind, only);
        let record = records.last();
        law_missing_references_are_absent(record.references@, blobs);
        lemma_absent(blobs, record.result_spec());
        assert(gives(record, record.result_spec()));
        assert(gives_resident(record, blobs) <==> !is_absent(blobs, record.result_spec()));
    }
}

/// Whether what a record gives is resident.
pub open spec fn gives_resident(record: NativeRecord, blobs: Seq<BlobSample>) -> bool {
    exists|handle: RawHash| #[trigger] gives(record, handle) && !is_absent(blobs, handle)
}

/// Whether all that a record refers to is resident.
pub open spec fn refers_to_resident(record: NativeRecord, blobs: Seq<BlobSample>) -> bool {
    forall|i: int|
        0 <= i < record.references@.len() ==> !is_absent(blobs, #[trigger] record.references@[i])
}

/// The rows of a report count the records of their collection and the totals all
/// records, kind by kind: how many there are, of how many the result is resident,
/// and of how many every reference is.
pub proof fn law_report_counts_records(
    report: LocalReport,
    snapshot: LocalSnapshot,
    limit: nat,
    row: int,
)
    requires
        reports(report, snapshot, limit),
        0 <= row < report.collections@.len(),
    ensures
        ({
            let at = report.collections@[row];
            let only = Some(at.collection);
            &&& counts_records(report.commits, snapshot, NativeKind::Commit, None)
            &&& counts_records(report.merges, snapshot, NativeKind::Merge, None)
            &&& counts_records(report.derives, snapshot, NativeKind::Derive, None)
            &&& counts_records(at.commits, snapshot, NativeKind::Commit, only)
            &&& counts_records(at.merges, snapshot, NativeKind::Merge, only)
            &&& counts_records(at.derives, snapshot, NativeKind::Derive, only)
        }),
{
    let at = report.collections@[row];
    let only = Some(at.collection);
    assert(crate::dashboard::evidences(at, snapshot.records@, snapshot.blobs@));
    lemma_counts_records(report.commits, snapshot, NativeKind::Commit, None);
    lemma_counts_records(report.merges, snapshot, NativeKind::Merge, None);
    lemma_counts_records(report.derives, snapshot, NativeKind::Derive, None);
    lemma_counts_records(at.commits, snapshot, NativeKind::Commit, only);
    lemma_counts_records(at.merges, snapshot, NativeKind::Merge, only);
    lemma_counts_records(at.derives, snapshot, NativeKind::Derive, only);
}

/// Whether a summary counts the records of one kind, in one collection or in all.
pub open spec fn counts_records(
    summary: crate::dashboard::NativeSummary,
    snapshot: LocalSnapshot,
    kind: NativeKind,
    only: Option<[u8; 32]>,
) -> bool {
    &&& summary.stored == picked(
        snapshot.records@,
        |record: NativeRecord| is_of(record, kind, only),
    )
    &&& summary.result_resident == picked(
        snapshot.records@,
        |record: NativeRecord| is_of(record, kind, only) && gives_resident(record, snapshot.blobs@),
    )
    &&& summary.all_references_resident == picked(
        snapshot.records@,
        |record: NativeRecord|
            is_of(record, kind, only) && refers_to_resident(record, snapshot.blobs@),
    )
}

proof fn lemma_counts_records(
    summary: crate::dashboard::NativeSummary,
    snapshot: LocalSnapshot,
    kind: NativeKind,
    only: Option<[u8; 32]>,
)
    requires
        crate::dashboard::summarizes(
            summary,
            native_totals(snapshot.records@, snapshot.blobs@, kind, only),
        ),
    ensures
        counts_records(summary, snapshot, kind, only),
{
    let records = snapshot.records@;
    let blobs = snapshot.blobs@;
    lemma_stored(records, blobs, kind, only);
    assert(snapshot.records.len() <= usize::MAX);
    records.lemma_filter_len(|record: NativeRecord| is_of(record, kind, only));
    records.lemma_filter_len(
        |record: NativeRecord| is_of(record, kind, only) && gives_resident(record, blobs),
    );
    records.lemma_filter_len(
        |record: NativeRecord| is_of(record, kind, only) && refers_to_resident(record, blobs),
    );
}

} // verus!
