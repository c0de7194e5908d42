//! Read-only cluster-dashboard projections over one immutable store snapshot.
//!
//! The report deliberately keeps four kinds of evidence separate: local blob
//! residency, stored native collection equations, durable requested work, and
//! replicated observer reports. A stored equation is not proof that its output
//! blob is resident, and an absent request is never invented from a missing
//! blob.

use vstd::prelude::*;

use crate::collection_blob_inventory::RawHash;
use crate::encoded::{decoded, lemma_decoded, lemma_decoded_empty, lemma_decoded_insert, unambiguous};
use crate::hex_text::{encode, hex_text};
use crate::key_map::{lemma_contents, KeyMap};
use crate::keys::{
    big_endian, key_space, lemma_big_endian_bound, lemma_big_endian_injective, lemma_rank_injective,
    lemma_same_bytes, position, rank, zero_key, Position,
};
use crate::sample::{
    in_order, is_sample, lemma_no_sample, lemma_sample_extends, retain_smallest, Ordered,
};

verus! {

/// Default bound for exact-handle samples shown by terminal and GUI views.
pub const DEFAULT_SAMPLE_LIMIT: usize = 20;

/// Two numbers of two parts are ordered by their high parts, then by their low.
proof fn lemma_parts(space: nat, high: nat, low: nat, other_high: nat, other_low: nat)
    requires
        low < space,
        other_low < space,
    ensures
        high * space + low < other_high * space + other_low <==> high < other_high || (high
            == other_high && low < other_low),
        high * space + low == other_high * space + other_low <==> high == other_high && low
            == other_low,
{
    if high < other_high {
        assert(high * space + space <= other_high * space) by (nonlinear_arith)
            requires
                high + 1 <= other_high,
        ;
    } else if other_high < high {
        assert(other_high * space + space <= high * space) by (nonlinear_arith)
            requires
                other_high + 1 <= high,
        ;
    }
}

/// One locally resident immutable blob.
#[derive(Clone, Copy, Debug, PartialEq, Eq)]
pub struct BlobSample {
    pub handle: [u8; 32],
    pub bytes: u64,
}

impl Ordered for BlobSample {
    open spec fn order(self) -> nat {
        rank(self.handle) * 0x1_0000_0000_0000_0000 + self.bytes as nat
    }

    proof fn lemma_order_injective(a: Self, b: Self) {
        lemma_parts(
            0x1_0000_0000_0000_0000,
            rank(a.handle),
            a.bytes as nat,
            rank(b.handle),
            b.bytes as nat,
        );
        lemma_rank_injective(a.handle, b.handle);
    }

    fn before(&self, other: &Self) -> (before: bool) {
        proof {
            lemma_parts(
                0x1_0000_0000_0000_0000,
                rank(self.handle),
                self.bytes as nat,
                rank(other.handle),
                other.bytes as nat,
            );
        }
        match position(&self.handle, &other.handle) {
            Position::Before => true,
            Position::Same => self.bytes < other.bytes,
            Position::After => false,
        }
    }
}

/// Kind of native collection evidence.
#[derive(Clone, Copy, Debug, PartialEq, Eq, Structural)]
pub enum NativeKind {
    Commit,
    Merge,
    Derive,
}

impl NativeKind {
    /// The word for the kind.
    pub fn label(self) -> (label: &'static str)
        ensures
            label@ == match self {
                NativeKind::Commit => "commit"@,
                NativeKind::Merge => "merge"@,
                NativeKind::Derive => "derive"@,
            },
    {
        match self {
            NativeKind::Commit => "commit",
            NativeKind::Merge => "merge",
            NativeKind::Derive => "derive",
        }
    }

    /// The place of the kind among the kinds.
    pub open spec fn number(self) -> u8 {
        match self {
            NativeKind::Commit => 0,
            NativeKind::Merge => 1,
            NativeKind::Derive => 2,
        }
    }

    fn place(self) -> (place: u8)
        ensures
            place == self.number(),
    {
        match self {
            NativeKind::Commit => 0,
            NativeKind::Merge => 1,
            NativeKind::Derive => 2,
        }
    }
}

/// Residency accounting for one kind of stored native record.
#[derive(Clone, Copy, Debug, PartialEq, Eq, Structural)]
pub struct NativeSummary {
    /// Signed records present in this immutable snapshot.
    pub stored: u64,
    /// Records for which every direct blob reference is resident.
    pub all_references_resident: u64,
    /// Records whose member or result blob is resident.
    pub result_resident: u64,
    /// Missing direct references counted per record occurrence.
    pub missing_reference_occurrences: u64,
}

impl Default for NativeSummary {
    fn default() -> (summary: Self)
        ensures
            summary == (NativeSummary {
                stored: 0,
                all_references_resident: 0,
                result_resident: 0,
                missing_reference_occurrences: 0,
            }),
    {
        NativeSummary {
            stored: 0,
            all_references_resident: 0,
            result_resident: 0,
            missing_reference_occurrences: 0,
        }
    }
}

/// One bounded example of a stored record's missing direct reference.
#[derive(Clone, Copy, Debug, PartialEq, Eq)]
pub struct MissingReference {
    pub collection: [u8; 32],
    pub kind: NativeKind,
    pub handle: [u8; 32],
}

impl Ordered for MissingReference {
    open spec fn order(self) -> nat {
        (rank(self.collection) * 256 + self.kind.number() as nat) * key_space(32) + rank(
            self.handle,
        )
    }

    proof fn lemma_order_injective(a: Self, b: Self) {
        lemma_big_endian_bound(a.handle@);
        lemma_big_endian_bound(b.handle@);
        lemma_parts(
            key_space(32),
            rank(a.collection) * 256 + a.kind.number() as nat,
            rank(a.handle),
            rank(b.collection) * 256 + b.kind.number() as nat,
            rank(b.handle),
        );
        lemma_rank_injective(a.handle, b.handle);
        lemma_rank_injective(a.collection, b.collection);
    }

    fn before(&self, other: &Self) -> (before: bool) {
        proof {
            lemma_big_endian_bound(self.handle@);
            lemma_big_endian_bound(other.handle@);
            lemma_parts(
                key_space(32),
                rank(self.collection) * 256 + self.kind.number() as nat,
                rank(self.handle),
                rank(other.collection) * 256 + other.kind.number() as nat,
                rank(other.handle),
            );
        }
        match position(&self.collection, &other.collection) {
            Position::Before => true,
            Position::After => false,
            Position::Same => {
                let a: u8 = self.kind.place();
                let b: u8 = other.kind.place();
                if a != b {
                    a < b
                } else {
                    match position(&self.handle, &other.handle) {
                        Position::Before => true,
                        _ => false,
                    }
                }
            },
        }
    }
}

/// Stored native evidence grouped by its collection descriptor.
#[derive(Clone, Copy, Debug, PartialEq, Eq)]
pub struct CollectionEvidence {
    pub collection: [u8; 32],
    pub commits: NativeSummary,
    pub merges: NativeSummary,
    pub derives: NativeSummary,
}

/// Kind of durable request.
#[derive(Clone, Copy, Debug, PartialEq, Eq, Structural)]
pub enum WantKind {
    Blob,
    Merge,
    Derive,
}

impl WantKind {
    /// The word for the kind.
    pub fn label(self) -> (label: &'static str)
        ensures
            label@ == match self {
                WantKind::Blob => "blob"@,
                WantKind::Merge => "merge"@,
                WantKind::Derive => "derive"@,
            },
    {
        match self {
            WantKind::Blob => "blob",
            WantKind::Merge => "merge",
            WantKind::Derive => "derive",
        }
    }

    /// The place of the kind among the kinds.
    pub open spec fn number(self) -> u8 {
        match self {
            WantKind::Blob => 0,
            WantKind::Merge => 1,
            WantKind::Derive => 2,
        }
    }

    fn place(self) -> (place: u8)
        ensures
            place == self.number(),
    {
        match self {
            WantKind::Blob => 0,
            WantKind::Merge => 1,
            WantKind::Derive => 2,
        }
    }
}

/// Durable request counts, with answered requests separated from pending work.
#[derive(Clone, Copy, Debug, PartialEq, Eq, Structural)]
pub struct WantSummary {
    pub total: u64,
    pub answered: u64,
    pub pending: u64,
}

impl Default for WantSummary {
    fn default() -> (summary: Self)
        ensures
            summary == (WantSummary { total: 0, answered: 0, pending: 0 }),
    {
        WantSummary { total: 0, answered: 0, pending: 0 }
    }
}

/// One durable request: for a blob, or for the result of an operation.
#[derive(Clone, Copy, Debug, PartialEq, Eq)]
pub enum WantRequest {
    Blob { handle: RawHash },
    Merge { collection: [u8; 32], low: RawHash, high: RawHash },
    Derive { target: [u8; 32], input: RawHash },
}

impl WantRequest {
    /// The kind of the request.
    pub open spec fn kind_spec(self) -> WantKind {
        match self {
            WantRequest::Blob { .. } => WantKind::Blob,
            WantRequest::Merge { .. } => WantKind::Merge,
            WantRequest::Derive { .. } => WantKind::Derive,
        }
    }

    /// The kind of the request.
    pub fn kind(&self) -> (kind: WantKind)
        ensures
            kind == self.kind_spec(),
    {
        match self {
            WantRequest::Blob { .. } => WantKind::Blob,
            WantRequest::Merge { .. } => WantKind::Merge,
            WantRequest::Derive { .. } => WantKind::Derive,
        }
    }
}

/// Thirty-two zeros.
pub open spec fn no_handle() -> Seq<u8> {
    Seq::new(32, |i: int| 0u8)
}

/// A request written down: its kind and up to three handles.
pub open spec fn want_bytes(request: WantRequest) -> Seq<u8> {
    seq![request.kind_spec().number()] + match request {
        WantRequest::Blob { handle } => handle@ + no_handle() + no_handle(),
        WantRequest::Merge { collection, low, high } => collection@ + low@ + high@,
        WantRequest::Derive { target, input } => target@ + input@ + no_handle(),
    }
}

/// No two requests are written down alike.
proof fn lemma_want_bytes()
    ensures
        unambiguous(|request: WantRequest| want_bytes(request)),
{
    let encode = |request: WantRequest| want_bytes(request);
    assert forall|a: WantRequest, b: WantRequest| #[trigger] encode(a)
        == #[trigger] encode(b) implies a == b by {
        lemma_want_bytes_equal(a, b);
    }
}

proof fn lemma_want_bytes_equal(a: WantRequest, b: WantRequest)
    requires
        want_bytes(a) == want_bytes(b),
    ensures
        a == b,
{
    let x = want_bytes(a);
    let y = want_bytes(b);
    assert(x[0] == a.kind_spec().number());
    assert(y[0] == b.kind_spec().number());
    let first = x.subrange(1, 33);
    let second = x.subrange(33, 65);
    let third = x.subrange(65, 97);
    match (a, b) {
        (WantRequest::Blob { handle: p }, WantRequest::Blob { handle: q }) => {
            assert(first =~= p@);
            assert(first =~= q@);
            lemma_same_bytes(p, q);
        },
        (
            WantRequest::Merge { collection: p, low: r, high: t },
            WantRequest::Merge { collection: q, low: s, high: u },
        ) => {
            assert(first =~= p@);
            assert(first =~= q@);
            assert(second =~= r@);
            assert(second =~= s@);
            assert(third =~= t@);
            assert(third =~= u@);
            lemma_same_bytes(p, q);
            lemma_same_bytes(r, s);
            lemma_same_bytes(t, u);
        },
        (
            WantRequest::Derive { target: p, input: r },
            WantRequest::Derive { target: q, input: s },
        ) => {
            assert(first =~= p@);
            assert(first =~= q@);
            assert(second =~= r@);
            assert(second =~= s@);
            lemma_same_bytes(p, q);
            lemma_same_bytes(r, s);
        },
        _ => {},
    }
}

/// The requests that an index holds.
pub open spec fn requests_in(index: Map<[u8; 97], ()>) -> Set<WantRequest> {
    decoded(index, |request: WantRequest| want_bytes(request)).dom()
}

fn want_key(request: &WantRequest) -> (key: [u8; 97])
    ensures
        key@ == want_bytes(*request),
{
    let zeros: [u8; 32] = zero_key();
    assert(zeros@ =~= no_handle());
    let (first, second, third) = match request {
        WantRequest::Blob { handle } => (*handle, zeros, zeros),
        WantRequest::Merge { collection, low, high } => (*collection, *low, *high),
        WantRequest::Derive { target, input } => (*target, *input, zeros),
    };
    let mut key: [u8; 97] = [0; 97];
    let mut i: usize = 0;
    while i < 32
        invariant
            i <= 32,
            forall|j: int| 0 <= j < i ==> #[trigger] key@[1 + j] == first@[j],
            forall|j: int| 0 <= j < i ==> #[trigger] key@[33 + j] == second@[j],
            forall|j: int| 0 <= j < i ==> #[trigger] key@[65 + j] == third@[j],
        decreases 32 - i,
    {
        key[1 + i] = first[i];
        key[33 + i] = second[i];
        key[65 + i] = third[i];
        i = i + 1;
    }
    key[0] = request.kind().place();
    proof {
        let whole = seq![request.kind_spec().number()] + (first@ + second@ + third@);
        assert forall|j: int| 0 <= j < 97 implies key@[j] == #[trigger] whole[j] by {
            if 1 <= j < 33 {
                assert(key@[1 + (j - 1)] == first@[j - 1]);
            } else if 33 <= j < 65 {
                assert(key@[33 + (j - 33)] == second@[j - 33]);
            } else if 65 <= j {
                assert(key@[65 + (j - 65)] == third@[j - 65]);
            }
        }
        assert(key@ =~= whole);
    }
    key
}

/// One bounded exact request that has no answer in this snapshot.
#[derive(Clone, Copy, Debug, PartialEq, Eq)]
pub struct PendingWant {
    pub kind: WantKind,
    pub request: WantRequest,
}

impl Ordered for PendingWant {
    open spec fn order(self) -> nat {
        self.kind.number() as nat * key_space(97) + big_endian(want_bytes(self.request))
    }

    proof fn lemma_order_injective(a: Self, b: Self) {
        lemma_big_endian_bound(want_bytes(a.request));
        lemma_big_endian_bound(want_bytes(b.request));
        lemma_parts(
            key_space(97),
            a.kind.number() as nat,
            big_endian(want_bytes(a.request)),
            b.kind.number() as nat,
            big_endian(want_bytes(b.request)),
        );
        lemma_big_endian_injective(want_bytes(a.request), want_bytes(b.request));
        lemma_want_bytes_equal(a.request, b.request);
    }

    fn before(&self, other: &Self) -> (before: bool) {
        proof {
            lemma_big_endian_bound(want_bytes(self.request));
            lemma_big_endian_bound(want_bytes(other.request));
            lemma_parts(
                key_space(97),
                self.kind.number() as nat,
                big_endian(want_bytes(self.request)),
                other.kind.number() as nat,
                big_endian(want_bytes(other.request)),
            );
        }
        let a: u8 = self.kind.place();
        let b: u8 = other.kind.place();
        if a != b {
            a < b
        } else {
            match position(&want_key(&self.request), &want_key(&other.request)) {
                Position::Before => true,
                _ => false,
            }
        }
    }
}

/// What a stored native record equates.
#[derive(Clone, Copy, Debug, PartialEq, Eq)]
pub enum NativeOperation {
    Commit { data: RawHash },
    Merge { low: RawHash, high: RawHash, result: RawHash },
    Derive { input: RawHash, output: RawHash },
}

/// One stored native record: its collection, what it equates, and the blobs
/// that it refers to directly.
#[derive(Debug)]
pub struct NativeRecord {
    pub collection: [u8; 32],
    pub operation: NativeOperation,
    pub references: Vec<RawHash>,
}

impl NativeRecord {
    /// The kind of the record.
    pub open spec fn kind_spec(self) -> NativeKind {
        match self.operation {
            NativeOperation::Commit { .. } => NativeKind::Commit,
            NativeOperation::Merge { .. } => NativeKind::Merge,
            NativeOperation::Derive { .. } => NativeKind::Derive,
        }
    }

    /// The member or result of the record.
    pub open spec fn result_spec(self) -> RawHash {
        match self.operation {
            NativeOperation::Commit { data } => data,
            NativeOperation::Merge { result, .. } => result,
            NativeOperation::Derive { output, .. } => output,
        }
    }

    /// The request that the record answers.
    pub open spec fn answers(self) -> Option<WantRequest> {
        match self.operation {
            NativeOperation::Commit { .. } => None,
            NativeOperation::Merge { low, high, .. } => Some(
                WantRequest::Merge { collection: self.collection, low, high },
            ),
            NativeOperation::Derive { input, .. } => Some(
                WantRequest::Derive { target: self.collection, input },
            ),
        }
    }

    /// The kind of the record.
    pub fn kind(&self) -> (kind: NativeKind)
        ensures
            kind == self.kind_spec(),
    {
        match self.operation {
            NativeOperation::Commit { .. } => NativeKind::Commit,
            NativeOperation::Merge { .. } => NativeKind::Merge,
            NativeOperation::Derive { .. } => NativeKind::Derive,
        }
    }

    /// The member or result of the record.
    pub fn result(&self) -> (result: RawHash)
        ensures
            result == self.result_spec(),
    {
        match self.operation {
            NativeOperation::Commit { data } => data,
            NativeOperation::Merge { result, .. } => result,
            NativeOperation::Derive { output, .. } => output,
        }
    }
}

/// The request that a record answers.
pub fn record_answer(record: &NativeRecord) -> (answer: Option<WantRequest>)
    ensures
        answer == record.answers(),
{
    match record.operation {
        NativeOperation::Commit { .. } => None,
        NativeOperation::Merge { low, high, .. } => Some(
            WantRequest::Merge { collection: record.collection, low, high },
        ),
        NativeOperation::Derive { input, .. } => Some(
            WantRequest::Derive { target: record.collection, input },
        ),
    }
}

/// Format a collection handle for a compact dashboard row: the hexadecimal text
/// of its first six bytes.
pub fn short_handle(raw: &[u8; 32]) -> (text: String)
    ensures
        text@ == hex_text(raw@.take(6)),
{
    let head: [u8; 6] = [raw[0], raw[1], raw[2], raw[3], raw[4], raw[5]];
    assert(head@ =~= raw@.take(6));
    encode(&head)
}

/// The collection handle named by an operation request, if any.
pub open spec fn named_collection(request: WantRequest) -> Option<[u8; 32]> {
    match request {
        WantRequest::Blob { .. } => None,
        WantRequest::Merge { collection, .. } => Some(collection),
        WantRequest::Derive { target, .. } => Some(target),
    }
}

/// The collection handle named by an operation request, if any.
pub fn requested_collection(request: WantRequest) -> (collection: Option<[u8; 32]>)
    ensures
        collection == named_collection(request),
{
    match request {
        WantRequest::Blob { .. } => None,
        WantRequest::Merge { collection, .. } => Some(collection),
        WantRequest::Derive { target, .. } => Some(target),
    }
}

/// A number as far as 64 bits can tell it.
pub open spec fn clamped(value: nat) -> u64 {
    if value <= u64::MAX {
        value as u64
    } else {
        u64::MAX
    }
}

fn count_more(count: u64, more: u64) -> (sum: u64)
    ensures
        sum == clamped((count + more) as nat),
{
    if count <= u64::MAX - more {
        count + more
    } else {
        u64::MAX
    }
}

/// The summary of one kind, out of three.
fn summary_mut<'a>(
    kind: NativeKind,
    commits: &'a mut NativeSummary,
    merges: &'a mut NativeSummary,
    derives: &'a mut NativeSummary,
) -> (summary: &'a mut NativeSummary)
    ensures
        *summary == match kind {
            NativeKind::Commit => *old(commits),
            NativeKind::Merge => *old(merges),
            NativeKind::Derive => *old(derives),
        },
        *final(commits) == if kind == NativeKind::Commit {
            *final(summary)
        } else {
            *old(commits)
        },
        *final(merges) == if kind == NativeKind::Merge {
            *final(summary)
        } else {
            *old(merges)
        },
        *final(derives) == if kind == NativeKind::Derive {
            *final(summary)
        } else {
            *old(derives)
        },
{
    match kind {
        NativeKind::Commit => commits,
        NativeKind::Merge => merges,
        NativeKind::Derive => derives,
    }
}

/// Count one record, given which of its references are missing and whether its
/// result is resident.
pub fn update_native_summary(
    summary: &mut NativeSummary,
    missing: &[RawHash],
    result_resident: bool,
)
    ensures
        *final(summary) == (NativeSummary {
            stored: clamped(old(summary).stored as nat + 1),
            all_references_resident: clamped(
                old(summary).all_references_resident as nat + if missing@.len() == 0 {
                    1nat
                } else {
                    0nat
                },
            ),
            result_resident: clamped(
                old(summary).result_resident as nat + if result_resident {
                    1nat
                } else {
                    0nat
                },
            ),
            missing_reference_occurrences: clamped(
                old(summary).missing_reference_occurrences as nat + missing@.len(),
            ),
        }),
{
    summary.stored = count_more(summary.stored, 1);
    if missing.len() == 0 {
        summary.all_references_resident = count_more(summary.all_references_resident, 1);
    }
    if result_resident {
        summary.result_resident = count_more(summary.result_resident, 1);
    }
    summary.missing_reference_occurrences = count_more(
        summary.missing_reference_occurrences,
        missing.len() as u64,
    );
}

/// Count one request.
pub fn update_want_summary(summary: &mut WantSummary, answered: bool)
    ensures
        *final(summary) == (WantSummary {
            total: clamped(old(summary).total as nat + 1),
            answered: clamped(
                old(summary).answered as nat + if answered {
                    1nat
                } else {
                    0nat
                },
            ),
            pending: clamped(
                old(summary).pending as nat + if answered {
                    0nat
                } else {
                    1nat
                },
            ),
        }),
{
    summary.total = count_more(summary.total, 1);
    if answered {
        summary.answered = count_more(summary.answered, 1);
    } else {
        summary.pending = count_more(summary.pending, 1);
    }
}

/// One immutable store observation.
#[derive(Debug)]
pub struct LocalSnapshot {
    /// The resident blobs.
    pub blobs: Vec<BlobSample>,
    /// The stored native records.
    pub records: Vec<NativeRecord>,
    /// The durable requests.
    pub wants: Vec<WantRequest>,
}

/// Complete read-only local projection used by every dashboard renderer.
#[derive(Debug, PartialEq, Eq)]
pub struct LocalReport {
    pub resident_blobs: u64,
    pub resident_bytes: u128,
    pub blob_sample: Vec<BlobSample>,
    pub blob_sample_truncated: bool,
    pub stored_records: u64,
    pub commits: NativeSummary,
    pub merges: NativeSummary,
    pub derives: NativeSummary,
    pub collections: Vec<CollectionEvidence>,
    pub missing_reference_sample: Vec<MissingReference>,
    pub missing_reference_sample_truncated: bool,
    pub wants: WantSummary,
    pub blob_wants: WantSummary,
    pub merge_wants: WantSummary,
    pub derive_wants: WantSummary,
    pub pending_want_sample: Vec<PendingWant>,
    pub pending_want_sample_truncated: bool,
}

/// Whether a blob is among the resident ones.
pub open spec fn is_resident(blobs: Seq<BlobSample>, handle: RawHash) -> bool {
    exists|i: int| 0 <= i < blobs.len() && #[trigger] blobs[i].handle == handle
}

/// The bytes of all blobs together.
pub open spec fn total_bytes(blobs: Seq<BlobSample>) -> nat
    decreases blobs.len(),
{
    if blobs.len() == 0 {
        0
    } else {
        total_bytes(blobs.drop_last()) + blobs.last().bytes as nat
    }
}

/// The references that are not resident.
pub open spec fn missing_of(references: Seq<RawHash>, blobs: Seq<BlobSample>) -> Seq<RawHash>
    decreases references.len(),
{
    if references.len() == 0 {
        Seq::empty()
    } else {
        let front = missing_of(references.drop_last(), blobs);
        if is_resident(blobs, references.last()) {
            front
        } else {
            front.push(references.last())
        }
    }
}

/// What is counted of native records.
pub struct NativeTotals {
    pub stored: nat,
    pub all_references_resident: nat,
    pub result_resident: nat,
    pub missing_reference_occurrences: nat,
}

/// The counts of the records of one kind, in one collection or in all.
pub open spec fn native_totals(
    records: Seq<NativeRecord>,
    blobs: Seq<BlobSample>,
    kind: NativeKind,
    only: Option<[u8; 32]>,
) -> NativeTotals
    decreases records.len(),
{
    if records.len() == 0 {
        NativeTotals {
            stored: 0,
            all_references_resident: 0,
            result_resident: 0,
            missing_reference_occurrences: 0,
        }
    } else {
        let front = native_totals(records.drop_last(), blobs, kind, only);
        let record = records.last();
        if record.kind_spec() == kind && (only is None || only == Some(record.collection)) {
            let missing = missing_of(record.references@, blobs).len();
            NativeTotals {
                stored: front.stored + 1,
                all_references_resident: front.all_references_resident + if missing == 0 {
                    1nat
                } else {
                    0nat
                },
                result_resident: front.result_resident + if is_resident(
                    blobs,
                    record.result_spec(),
                ) {
                    1nat
                } else {
                    0nat
                },
                missing_reference_occurrences: front.missing_reference_occurrences + missing,
            }
        } else {
            front
        }
    }
}

/// Whether a summary tells the counts.
pub open spec fn summarizes(summary: NativeSummary, totals: NativeTotals) -> bool {
    &&& summary.stored == clamped(totals.stored)
    &&& summary.all_references_resident == clamped(totals.all_references_resident)
    &&& summary.result_resident == clamped(totals.result_resident)
    &&& summary.missing_reference_occurrences == clamped(totals.missing_reference_occurrences)
}

/// How many references of the records are missing.
pub open spec fn missing_count(records: Seq<NativeRecord>, blobs: Seq<BlobSample>) -> nat
    decreases records.len(),
{
    if records.len() == 0 {
        0
    } else {
        missing_count(records.drop_last(), blobs) + missing_of(
            records.last().references@,
            blobs,
        ).len()
    }
}

/// More missing references, each named by its record.
pub open spec fn with_missing(
    all: Set<MissingReference>,
    collection: [u8; 32],
    kind: NativeKind,
    missing: Seq<RawHash>,
) -> Set<MissingReference>
    decreases missing.len(),
{
    if missing.len() == 0 {
        all
    } else {
        with_missing(all, collection, kind, missing.drop_last()).insert(
            MissingReference { collection, kind, handle: missing.last() },
        )
    }
}

/// The missing references of the records.
pub open spec fn all_missing(
    records: Seq<NativeRecord>,
    blobs: Seq<BlobSample>,
) -> Set<MissingReference>
    decreases records.len(),
{
    if records.len() == 0 {
        Set::empty()
    } else {
        let record = records.last();
        with_missing(
            all_missing(records.drop_last(), blobs),
            record.collection,
            record.kind_spec(),
            missing_of(record.references@, blobs),
        )
    }
}

/// Whether some record answers the request.
pub open spec fn has_answer(records: Seq<NativeRecord>, request: WantRequest) -> bool {
    exists|i: int| 0 <= i < records.len() && (#[trigger] records[i]).answers() == Some(request)
}

/// Whether the snapshot answers a request: a blob by being resident, an
/// operation by a record.
pub open spec fn is_answered(
    request: WantRequest,
    records: Seq<NativeRecord>,
    blobs: Seq<BlobSample>,
) -> bool {
    match request {
        WantRequest::Blob { handle } => is_resident(blobs, handle),
        _ => has_answer(records, request),
    }
}

/// What is counted of requests.
pub struct WantTotals {
    pub total: nat,
    pub answered: nat,
    pub pending: nat,
}

/// The counts of the requests, of one kind or of all.
pub open spec fn want_totals(
    wants: Seq<WantRequest>,
    records: Seq<NativeRecord>,
    blobs: Seq<BlobSample>,
    only: Option<WantKind>,
) -> WantTotals
    decreases wants.len(),
{
    if wants.len() == 0 {
        WantTotals { total: 0, answered: 0, pending: 0 }
    } else {
        let front = want_totals(wants.drop_last(), records, blobs, only);
        let request = wants.last();
        if only is None || only == Some(request.kind_spec()) {
            if is_answered(request, records, blobs) {
                WantTotals { total: front.total + 1, answered: front.answered + 1, ..front }
            } else {
                WantTotals { total: front.total + 1, pending: front.pending + 1, ..front }
            }
        } else {
            front
        }
    }
}

/// Every request is of one kind and is either answered or pending.
pub proof fn law_requests_are_counted_once(
    wants: Seq<WantRequest>,
    records: Seq<NativeRecord>,
    blobs: Seq<BlobSample>,
)
    ensures
        ({
            let all = want_totals(wants, records, blobs, None);
            let blob = want_totals(wants, records, blobs, Some(WantKind::Blob));
            let merge = want_totals(wants, records, blobs, Some(WantKind::Merge));
            let derive = want_totals(wants, records, blobs, Some(WantKind::Derive));
            &&& all.total == wants.len()
            &&& all.total == all.answered + all.pending
            &&& all.total == blob.total + merge.total + derive.total
            &&& all.answered == blob.answered + merge.answered + derive.answered
            &&& all.pending == blob.pending + merge.pending + derive.pending
        }),
    decreases wants.len(),
{
    if wants.len() > 0 {
        law_requests_are_counted_once(wants.drop_last(), records, blobs);
    }
}

/// Every record is of one kind. One whose references are all resident misses
/// none, and one that misses some is not counted among those.
pub proof fn law_records_are_counted_once(records: Seq<NativeRecord>, blobs: Seq<BlobSample>)
    ensures
        ({
            let commits = native_totals(records, blobs, NativeKind::Commit, None);
            let merges = native_totals(records, blobs, NativeKind::Merge, None);
            let derives = native_totals(records, blobs, NativeKind::Derive, None);
            &&& records.len() == commits.stored + merges.stored + derives.stored
            &&& missing_count(records, blobs) == commits.missing_reference_occurrences
                + merges.missing_reference_occurrences + derives.missing_reference_occurrences
            &&& commits.stored - commits.all_references_resident
                <= commits.missing_reference_occurrences
            &&& merges.stored - merges.all_references_resident
                <= merges.missing_reference_occurrences
            &&& derives.stored - derives.all_references_resident
                <= derives.missing_reference_occurrences
        }),
    decreases records.len(),
{
    if records.len() > 0 {
        law_records_are_counted_once(records.drop_last(), blobs);
    }
}

/// Whether a summary tells the counts.
pub open spec fn tells(summary: WantSummary, totals: WantTotals) -> bool {
    &&& summary.total == clamped(totals.total)
    &&& summary.answered == clamped(totals.answered)
    &&& summary.pending == clamped(totals.pending)
}

/// The requests that have no answer.
pub open spec fn all_pending(
    wants: Seq<WantRequest>,
    records: Seq<NativeRecord>,
    blobs: Seq<BlobSample>,
) -> Set<PendingWant>
    decreases wants.len(),
{
    if wants.len() == 0 {
        Set::empty()
    } else {
        let front = all_pending(wants.drop_last(), records, blobs);
        let request = wants.last();
        if is_answered(request, records, blobs) {
            front
        } else {
            front.insert(PendingWant { kind: request.kind_spec(), request })
        }
    }
}

/// Whether some record is of the collection.
pub open spec fn has_records(records: Seq<NativeRecord>, collection: [u8; 32]) -> bool {
    exists|i: int| 0 <= i < records.len() && (#[trigger] records[i]).collection == collection
}

/// Whether the evidence tells the counts of its collection.
pub open spec fn evidences(
    evidence: CollectionEvidence,
    records: Seq<NativeRecord>,
    blobs: Seq<BlobSample>,
) -> bool {
    let only = Some(evidence.collection);
    &&& has_records(records, evidence.collection)
    &&& summarizes(evidence.commits, native_totals(records, blobs, NativeKind::Commit, only))
    &&& summarizes(evidence.merges, native_totals(records, blobs, NativeKind::Merge, only))
    &&& summarizes(evidence.derives, native_totals(records, blobs, NativeKind::Derive, only))
}

/// Counts added up.
pub open spec fn added(a: NativeTotals, b: NativeTotals) -> NativeTotals {
    NativeTotals {
        stored: a.stored + b.stored,
        all_references_resident: a.all_references_resident + b.all_references_resident,
        result_resident: a.result_resident + b.result_resident,
        missing_reference_occurrences: a.missing_reference_occurrences
            + b.missing_reference_occurrences,
    }
}

/// The counts of the records of one kind in the given collections, added up.
pub open spec fn collections_total(
    collections: Seq<[u8; 32]>,
    records: Seq<NativeRecord>,
    blobs: Seq<BlobSample>,
    kind: NativeKind,
) -> NativeTotals
    decreases collections.len(),
{
    if collections.len() == 0 {
        native_totals(Seq::empty(), blobs, kind, None)
    } else {
        added(
            collections_total(collections.drop_last(), records, blobs, kind),
            native_totals(records, blobs, kind, Some(collections.last())),
        )
    }
}

/// The last record counts by itself.
proof fn lemma_last_counts(
    records: Seq<NativeRecord>,
    blobs: Seq<BlobSample>,
    kind: NativeKind,
    only: Option<[u8; 32]>,
)
    requires
        records.len() > 0,
    ensures
        ({
            let one = native_totals(seq![records.last()], blobs, kind, None);
            let front = native_totals(records.drop_last(), blobs, kind, only);
            native_totals(records, blobs, kind, only) == if only is None || only == Some(
                records.last().collection,
            ) {
                added(front, one)
            } else {
                front
            }
        }),
{
    let alone = seq![records.last()];
    let none = native_totals(alone.drop_last(), blobs, kind, None);
    assert(alone.drop_last() =~= Seq::empty());
    assert(alone.last() == records.last());
    assert(none.stored == 0 && none.all_references_resident == 0 && none.result_resident == 0
        && none.missing_reference_occurrences == 0);
}

/// One record more counts in its own collection and in no other.
proof fn lemma_one_record_more(
    collections: Seq<[u8; 32]>,
    records: Seq<NativeRecord>,
    blobs: Seq<BlobSample>,
    kind: NativeKind,
)
    requires
        records.len() > 0,
        collections.no_duplicates(),
    ensures
        ({
            let one = native_totals(seq![records.last()], blobs, kind, None);
            let front = collections_total(collections, records.drop_last(), blobs, kind);
            collections_total(collections, records, blobs, kind) == if collections.contains(
                records.last().collection,
            ) {
                added(front, one)
            } else {
                front
            }
        }),
    decreases collections.len(),
{
    let record = records.last();
    if collections.len() > 0 {
        lemma_last_counts(records, blobs, kind, Some(collections.last()));
        let fewer = collections.drop_last();
        let last = collections.last();
        lemma_one_record_more(fewer, records, blobs, kind);
        assert(collections.contains(record.collection) <==> fewer.contains(record.collection)
            || last == record.collection) by {
            if collections.contains(record.collection) {
                let i = choose|i: int|
                    0 <= i < collections.len() && collections[i] == record.collection;
                if i < fewer.len() {
                    assert(fewer[i] == record.collection);
                }
            }
            if fewer.contains(record.collection) {
                let i = choose|i: int| 0 <= i < fewer.len() && fewer[i] == record.collection;
                assert(collections[i] == record.collection);
            }
            assert(collections[collections.len() - 1] == last);
        }
        if fewer.contains(record.collection) {
            let i = choose|i: int| 0 <= i < fewer.len() && fewer[i] == record.collection;
            assert(collections[i] != collections[collections.len() - 1]);
        }
    }
}

/// The counts of the collections that a report lists add up to its totals.
pub proof fn law_collections_add_up(
    list: Seq<CollectionEvidence>,
    records: Seq<NativeRecord>,
    blobs: Seq<BlobSample>,
    kind: NativeKind,
)
    requires
        evidences_all(list, records, blobs),
    ensures
        collections_total(
            list.map_values(|evidence: CollectionEvidence| evidence.collection),
            records,
            blobs,
            kind,
        ) == native_totals(records, blobs, kind, None),
{
    let collections = list.map_values(|evidence: CollectionEvidence| evidence.collection);
    assert forall|i: int, j: int|
        0 <= i < collections.len() && 0 <= j < collections.len() && i != j implies collections[i]
        != collections[j] by {
        if i < j {
            assert(rank(list[i].collection) < rank(list[j].collection));
        } else {
            assert(rank(list[j].collection) < rank(list[i].collection));
        }
    }
    assert forall|i: int| 0 <= i < records.len() implies collections.contains(
        (#[trigger] records[i]).collection,
    ) by {
        assert(has_records(records, records[i].collection));
        let j = choose|j: int|
            0 <= j < list.len() && (#[trigger] list[j]).collection == records[i].collection;
        assert(collections[j] == records[i].collection);
    }
    lemma_collections_add_up(collections, records, blobs, kind);
}

proof fn lemma_collections_add_up(
    collections: Seq<[u8; 32]>,
    records: Seq<NativeRecord>,
    blobs: Seq<BlobSample>,
    kind: NativeKind,
)
    requires
        collections.no_duplicates(),
        forall|i: int|
            0 <= i < records.len() ==> collections.contains((#[trigger] records[i]).collection),
    ensures
        collections_total(collections, records, blobs, kind) == native_totals(
            records,
            blobs,
            kind,
            None,
        ),
    decreases records.len(),
{
    if records.len() == 0 {
        assert(records =~= Seq::empty());
        lemma_nothing_adds_up(collections, blobs, kind);
    } else {
        let front = records.drop_last();
        lemma_last_counts(records, blobs, kind, None);
        assert forall|i: int| 0 <= i < front.len() implies collections.contains(
            (#[trigger] front[i]).collection,
        ) by {
            assert(front[i] == records[i]);
        }
        lemma_collections_add_up(collections, front, blobs, kind);
        lemma_one_record_more(collections, records, blobs, kind);
        assert(collections.contains(records[records.len() - 1].collection));
    }
}

proof fn lemma_nothing_adds_up(
    collections: Seq<[u8; 32]>,
    blobs: Seq<BlobSample>,
    kind: NativeKind,
)
    ensures
        collections_total(collections, Seq::empty(), blobs, kind) == native_totals(
            Seq::empty(),
            blobs,
            kind,
            None,
        ),
    decreases collections.len(),
{
    if collections.len() > 0 {
        lemma_nothing_adds_up(collections.drop_last(), blobs, kind);
    }
}

/// Whether the list has the evidence of every collection, in ascending order.
pub open spec fn evidences_all(
    list: Seq<CollectionEvidence>,
    records: Seq<NativeRecord>,
    blobs: Seq<BlobSample>,
) -> bool {
    &&& forall|i: int, j: int|
        0 <= i < j < list.len() ==> rank((#[trigger] list[i]).collection) < rank(
            (#[trigger] list[j]).collection,
        )
    &&& forall|i: int| 0 <= i < list.len() ==> evidences(#[trigger] list[i], records, blobs)
    &&& forall|collection: [u8; 32]| #[trigger]
        has_records(records, collection) ==> exists|i: int|
            0 <= i < list.len() && (#[trigger] list[i]).collection == collection
}

/// Whether a report tells what a snapshot holds, with samples of at most `limit`
/// items.
pub open spec fn reports(report: LocalReport, snapshot: LocalSnapshot, limit: nat) -> bool {
    let blobs = snapshot.blobs@;
    let records = snapshot.records@;
    let wants = snapshot.wants@;
    &&& report.resident_blobs == blobs.len()
    &&& report.resident_bytes == total_bytes(blobs)
    &&& is_sample(report.blob_sample@, blobs.to_set(), limit)
    &&& report.blob_sample_truncated == (blobs.len() > report.blob_sample@.len())
    &&& report.stored_records == records.len()
    &&& summarizes(report.commits, native_totals(records, blobs, NativeKind::Commit, None))
    &&& summarizes(report.merges, native_totals(records, blobs, NativeKind::Merge, None))
    &&& summarizes(report.derives, native_totals(records, blobs, NativeKind::Derive, None))
    &&& evidences_all(report.collections@, records, blobs)
    &&& is_sample(report.missing_reference_sample@, all_missing(records, blobs), limit)
    &&& report.missing_reference_sample_truncated == (clamped(missing_count(records, blobs))
        > report.missing_reference_sample@.len())
    &&& tells(report.wants, want_totals(wants, records, blobs, None))
    &&& tells(report.blob_wants, want_totals(wants, records, blobs, Some(WantKind::Blob)))
    &&& tells(report.merge_wants, want_totals(wants, records, blobs, Some(WantKind::Merge)))
    &&& tells(report.derive_wants, want_totals(wants, records, blobs, Some(WantKind::Derive)))
    &&& is_sample(report.pending_want_sample@, all_pending(wants, records, blobs), limit)
    &&& report.pending_want_sample_truncated == (report.wants.pending
        > report.pending_want_sample@.len())
}

/// The smallest blobs, and the bytes of all of them together.
fn survey_blobs(blobs: &Vec<BlobSample>, limit: usize) -> (survey: (Vec<BlobSample>, u128))
    ensures
        is_sample(survey.0@, blobs@.to_set(), limit as nat),
        survey.1 == total_bytes(blobs@),
{
    let mut sample: Vec<BlobSample> = Vec::new();
    let mut bytes: u128 = 0;
    let count: usize = blobs.len();
    let mut i: usize = 0;
    proof {
        assert(blobs@.take(0).to_set() =~= Set::<BlobSample>::empty());
        lemma_no_sample(Set::<BlobSample>::empty(), limit as nat);
        assert(sample@ =~= Seq::empty());
    }
    while i < count
        invariant
            i <= count == blobs@.len(),
            is_sample(sample@, blobs@.take(i as int).to_set(), limit as nat),
            bytes == total_bytes(blobs@.take(i as int)),
            bytes <= i * u64::MAX,
        decreases blobs@.len() - i,
    {
        let ghost before = sample@;
        let ghost less = blobs@.take(i as int);
        let ghost more = blobs@.take(i + 1);
        let blob = blobs[i];
        proof {
            assert(more.drop_last() =~= less);
            assert(more.last() == blob);
            assert(more.to_set() =~= less.to_set().insert(blob)) by {
                assert(more =~= less.push(blob));
                lemma_push_to_set(less, blob);
            }
            assert((i + 1) * u64::MAX == i * u64::MAX + u64::MAX) by (nonlinear_arith);
            assert((i + 1) * u64::MAX <= u64::MAX * u64::MAX) by (nonlinear_arith)
                requires
                    i + 1 <= u64::MAX,
            ;
        }
        bytes = bytes + blob.bytes as u128;
        retain_smallest(&mut sample, blob, limit);
        proof {
            lemma_sample_extends(before, less.to_set(), blob, sample@, limit as nat);
        }
        i = i + 1;
    }
    assert(blobs@.take(i as int) =~= blobs@);
    (sample, bytes)
}

/// Pushing an item adds it.
proof fn lemma_push_to_set<T>(items: Seq<T>, item: T)
    ensures
        items.push(item).to_set() == items.to_set().insert(item),
{
    let more = items.push(item);
    assert forall|other: T| more.to_set().contains(other) == items.to_set().insert(item).contains(
        other,
    ) by {
        if more.contains(other) {
            let i = choose|i: int| 0 <= i < more.len() && more[i] == other;
            if i < items.len() {
                assert(items[i] == other);
            }
        }
        if items.contains(other) {
            let i = choose|i: int| 0 <= i < items.len() && items[i] == other;
            assert(more[i] == other);
        }
        assert(more[items.len() as int] == item);
    }
    assert(more.to_set() =~= items.to_set().insert(item));
}

/// The handles of the resident blobs.
fn index_blobs(blobs: &Vec<BlobSample>) -> (resident: KeyMap<32, ()>)
    ensures
        forall|handle: RawHash| #[trigger]
            resident@.contains_key(handle) <==> is_resident(blobs@, handle),
{
    let mut resident: KeyMap<32, ()> = KeyMap::new();
    let mut i: usize = 0;
    while i < blobs.len()
        invariant
            i <= blobs@.len(),
            forall|handle: RawHash| #[trigger]
                resident@.contains_key(handle) <==> exists|j: int|
                    0 <= j < i && #[trigger] blobs@[j].handle == handle,
        decreases blobs@.len() - i,
    {
        let ghost before = resident@;
        resident.insert(blobs[i].handle, ());
        proof {
            assert forall|handle: RawHash| #[trigger] resident@.contains_key(handle) <==> exists|
                j: int,
            |
                0 <= j < i + 1 && #[trigger] blobs@[j].handle == handle by {
                if before.contains_key(handle) {
                    let j = choose|j: int| 0 <= j < i && #[trigger] blobs@[j].handle == handle;
                    assert(blobs@[j].handle == handle);
                }
                assert(blobs@[i as int].handle == blobs@[i as int].handle);
            }
        }
        i = i + 1;
    }
    resident
}

/// The references that are not resident.
fn missing_references(
    references: &Vec<RawHash>,
    resident: &KeyMap<32, ()>,
    blobs: &Vec<BlobSample>,
) -> (missing: Vec<RawHash>)
    requires
        forall|handle: RawHash| #[trigger]
            resident@.contains_key(handle) <==> is_resident(blobs@, handle),
    ensures
        missing@ == missing_of(references@, blobs@),
{
    let mut missing: Vec<RawHash> = Vec::new();
    let mut i: usize = 0;
    assert(references@.take(0) =~= Seq::empty());
    while i < references.len()
        invariant
            i <= references@.len(),
            forall|handle: RawHash| #[trigger]
                resident@.contains_key(handle) <==> is_resident(blobs@, handle),
            missing@ == missing_of(references@.take(i as int), blobs@),
        decreases references@.len() - i,
    {
        proof {
            assert(references@.take(i + 1).drop_last() =~= references@.take(i as int));
            assert(references@.take(i + 1).last() == references@[i as int]);
        }
        if !resident.contains_key(&references[i]) {
            missing.push(references[i]);
        }
        i = i + 1;
    }
    assert(references@.take(i as int) =~= references@);
    missing
}

/// The operation requests among `wants` that a record answers.
fn answered_operations(wants: &Vec<WantRequest>, records: &Vec<NativeRecord>) -> (answered: KeyMap<
    97,
    (),
>)
    ensures
        forall|request: WantRequest|
            wants@.contains(request) && request.kind_spec() != WantKind::Blob
                ==> (#[trigger] requests_in(answered@).contains(request) <==> has_answer(
                records@,
                request,
            )),
{
    let ghost encode = |request: WantRequest| want_bytes(request);
    // Only the operations that are requested are looked up. This avoids
    // retaining a second inventory of every equation.
    let mut selectors: KeyMap<97, ()> = KeyMap::new();
    let mut i: usize = 0;
    proof {
        lemma_want_bytes();
        lemma_decoded_empty::<WantRequest, (), 97>(encode);
    }
    while i < wants.len()
        invariant
            i <= wants@.len(),
            encode == (|request: WantRequest| want_bytes(request)),
            unambiguous(encode),
            forall|j: int|
                0 <= j < i && (#[trigger] wants@[j]).kind_spec() != WantKind::Blob ==> decoded(
                    selectors@,
                    encode,
                ).contains_key(wants@[j]),
        decreases wants@.len() - i,
    {
        let operation = match wants[i] {
            WantRequest::Blob { .. } => false,
            _ => true,
        };
        if operation {
            let key = want_key(&wants[i]);
            proof {
                lemma_decoded_insert(selectors@, encode, key, wants@[i as int], ());
            }
            selectors.insert(key, ());
        }
        i = i + 1;
    }
    let ghost asked = decoded(selectors@, encode);
    let mut answered: KeyMap<97, ()> = KeyMap::new();
    let mut k: usize = 0;
    while k < records.len()
        invariant
            k <= records@.len(),
            encode == (|request: WantRequest| want_bytes(request)),
            unambiguous(encode),
            asked == decoded(selectors@, encode),
            forall|request: WantRequest| #[trigger]
                decoded(answered@, encode).contains_key(request) <==> asked.contains_key(request)
                    && has_answer(records@.take(k as int), request),
        decreases records@.len() - k,
    {
        let ghost before = answered@;
        let ghost less = records@.take(k as int);
        let ghost more = records@.take(k + 1);
        let ghost record = records@[k as int];
        proof {
            assert(more =~= less.push(record));
            assert forall|request: WantRequest| has_answer(more, request) <==> (has_answer(
                less,
                request,
            ) || record.answers() == Some(request)) by {
                if has_answer(less, request) {
                    let j = choose|j: int|
                        0 <= j < less.len() && (#[trigger] less[j]).answers() == Some(request);
                    assert(more[j].answers() == Some(request));
                }
                if has_answer(more, request) {
                    let j = choose|j: int|
                        0 <= j < more.len() && (#[trigger] more[j]).answers() == Some(request);
                    if j < k {
                        assert(less[j].answers() == Some(request));
                    }
                }
                assert(more[k as int] == record);
            }
        }
        if let Some(answer) = record_answer(&records[k]) {
            let key = want_key(&answer);
            proof {
                lemma_decoded(selectors@, encode, key, answer);
            }
            if selectors.contains_key(&key) {
                proof {
                    lemma_decoded_insert(answered@, encode, key, answer, ());
                }
                answered.insert(key, ());
            }
        }
        k = k + 1;
    }
    proof {
        assert(records@.take(k as int) =~= records@);
        assert forall|request: WantRequest|
            wants@.contains(request) && request.kind_spec()
                != WantKind::Blob implies #[trigger] requests_in(answered@).contains(request)
            == has_answer(records@, request) by {
            let j = choose|j: int| 0 <= j < wants@.len() && wants@[j] == request;
            assert(asked.contains_key(wants@[j]));
            assert(decoded(answered@, encode).contains_key(request) == (asked.contains_key(request)
                && has_answer(records@, request)));
        }
    }
    answered
}

/// The summaries of one collection.
#[derive(Clone, Copy, Debug, PartialEq, Eq)]
pub struct MutableCollectionEvidence {
    pub commits: NativeSummary,
    pub merges: NativeSummary,
    pub derives: NativeSummary,
}

impl MutableCollectionEvidence {
    /// Whether the summaries tell the counts of a collection, or of all.
    pub open spec fn tells_of(
        self,
        records: Seq<NativeRecord>,
        blobs: Seq<BlobSample>,
        only: Option<[u8; 32]>,
    ) -> bool {
        &&& summarizes(self.commits, native_totals(records, blobs, NativeKind::Commit, only))
        &&& summarizes(self.merges, native_totals(records, blobs, NativeKind::Merge, only))
        &&& summarizes(self.derives, native_totals(records, blobs, NativeKind::Derive, only))
    }

    fn new() -> (evidence: Self)
        ensures
            forall|records: Seq<NativeRecord>, blobs: Seq<BlobSample>, only: Option<[u8; 32]>|
                (forall|i: int|
                    0 <= i < records.len() ==> only is Some && Some(
                        (#[trigger] records[i]).collection,
                    ) != only) ==> #[trigger] evidence.tells_of(records, blobs, only),
    {
        let evidence = MutableCollectionEvidence {
            commits: NativeSummary::default(),
            merges: NativeSummary::default(),
            derives: NativeSummary::default(),
        };
        proof {
            assert forall|
                records: Seq<NativeRecord>,
                blobs: Seq<BlobSample>,
                only: Option<[u8; 32]>,
            |
                (forall|i: int|
                    0 <= i < records.len() ==> only is Some && Some(
                        (#[trigger] records[i]).collection,
                    ) != only) implies #[trigger] evidence.tells_of(records, blobs, only) by {
                lemma_nothing_to_count(records, blobs, NativeKind::Commit, only);
                lemma_nothing_to_count(records, blobs, NativeKind::Merge, only);
                lemma_nothing_to_count(records, blobs, NativeKind::Derive, only);
            }
        }
        evidence
    }

    fn count(&mut self, kind: NativeKind, missing: &[RawHash], result_resident: bool)
        ensures
            forall|records: Seq<NativeRecord>, blobs: Seq<BlobSample>, only: Option<[u8; 32]>|
                records.len() > 0 && old(self).tells_of(records.drop_last(), blobs, only)
                    && records.last().kind_spec() == kind && (only is None || only == Some(
                    records.last().collection,
                )) && missing@ == missing_of(records.last().references@, blobs) && result_resident
                    == is_resident(blobs, records.last().result_spec())
                    ==> #[trigger] final(self).tells_of(records, blobs, only),
    {
        let summary = summary_mut(kind, &mut self.commits, &mut self.merges, &mut self.derives);
        update_native_summary(summary, missing, result_resident);
    }
}

proof fn lemma_nothing_to_count(
    records: Seq<NativeRecord>,
    blobs: Seq<BlobSample>,
    kind: NativeKind,
    only: Option<[u8; 32]>,
)
    requires
        forall|i: int|
            0 <= i < records.len() ==> only is Some && Some((#[trigger] records[i]).collection)
                != only,
    ensures
        native_totals(records, blobs, kind, only) == (NativeTotals {
            stored: 0,
            all_references_resident: 0,
            result_resident: 0,
            missing_reference_occurrences: 0,
        }),
    decreases records.len(),
{
    if records.len() > 0 {
        assert forall|i: int| 0 <= i < records.drop_last().len() implies only is Some && Some(
            (#[trigger] records.drop_last()[i]).collection,
        ) != only by {
            assert(records.drop_last()[i] == records[i]);
        }
        lemma_nothing_to_count(records.drop_last(), blobs, kind, only);
        assert(records[records.len() - 1] == records.last());
    }
}

/// What the native records of a snapshot amount to.
struct RecordSurvey {
    totals: MutableCollectionEvidence,
    collections: KeyMap<32, MutableCollectionEvidence>,
    missing: Vec<MissingReference>,
    missing_count: u64,
}

impl RecordSurvey {
    /// Whether the survey tells of the records.
    spec fn tells_of(
        self,
        records: Seq<NativeRecord>,
        blobs: Seq<BlobSample>,
        limit: nat,
    ) -> bool {
        &&& self.totals.tells_of(records, blobs, None)
        &&& forall|collection: [u8; 32]| #[trigger]
            self.collections@.contains_key(collection) <==> has_records(records, collection)
        &&& forall|collection: [u8; 32]| #[trigger]
            self.collections@.contains_key(collection)
                ==> self.collections@[collection].tells_of(records, blobs, Some(collection))
        &&& is_sample(self.missing@, all_missing(records, blobs), limit)
        &&& self.missing_count == clamped(missing_count(records, blobs))
    }
}

fn survey_missing(
    sample: &mut Vec<MissingReference>,
    collection: &[u8; 32],
    kind: NativeKind,
    missing: &Vec<RawHash>,
    limit: usize,
)
    requires
        in_order(old(sample)@),
        old(sample)@.len() <= limit,
    ensures
        forall|all: Set<MissingReference>|
            is_sample(old(sample)@, all, limit as nat) ==> #[trigger] is_sample(
                final(sample)@,
                with_missing(all, *collection, kind, missing@),
                limit as nat,
            ),
{
    let mut i: usize = 0;
    proof {
        assert(missing@.take(0) =~= Seq::empty());
        assert forall|all: Set<MissingReference>|
            is_sample(old(sample)@, all, limit as nat) implies #[trigger] is_sample(
            sample@,
            with_missing(all, *collection, kind, missing@.take(0)),
            limit as nat,
        ) by {}
    }
    while i < missing.len()
        invariant
            i <= missing@.len(),
            in_order(sample@),
            sample@.len() <= limit,
            forall|all: Set<MissingReference>|
                is_sample(old(sample)@, all, limit as nat) ==> #[trigger] is_sample(
                    sample@,
                    with_missing(all, *collection, kind, missing@.take(i as int)),
                    limit as nat,
                ),
        decreases missing@.len() - i,
    {
        let ghost before = sample@;
        let reference = MissingReference { collection: *collection, kind, handle: missing[i] };
        retain_smallest(sample, reference, limit);
        proof {
            let less = missing@.take(i as int);
            let more = missing@.take(i + 1);
            assert(more.drop_last() =~= less);
            assert(more.last() == missing@[i as int]);
            assert forall|all: Set<MissingReference>|
                is_sample(old(sample)@, all, limit as nat) implies #[trigger] is_sample(
                sample@,
                with_missing(all, *collection, kind, more),
                limit as nat,
            ) by {
                assert(is_sample(
                    before,
                    with_missing(all, *collection, kind, less),
                    limit as nat,
                ));
                lemma_sample_extends(
                    before,
                    with_missing(all, *collection, kind, less),
                    reference,
                    sample@,
                    limit as nat,
                );
            }
        }
        i = i + 1;
    }
    assert(missing@.take(i as int) =~= missing@);
}

fn survey_records(
    records: &Vec<NativeRecord>,
    resident: &KeyMap<32, ()>,
    blobs: &Vec<BlobSample>,
    limit: usize,
) -> (survey: RecordSurvey)
    requires
        forall|handle: RawHash| #[trigger]
            resident@.contains_key(handle) <==> is_resident(blobs@, handle),
    ensures
        survey.tells_of(records@, blobs@, limit as nat),
{
    let mut survey = RecordSurvey {
        totals: MutableCollectionEvidence::new(),
        collections: KeyMap::new(),
        missing: Vec::new(),
        missing_count: 0,
    };
    let mut i: usize = 0;
    proof {
        assert(records@.take(0) =~= Seq::empty());
        lemma_no_sample(Set::<MissingReference>::empty(), limit as nat);
        assert(survey.missing@ =~= Seq::empty());
        assert(survey.totals.tells_of(records@.take(0), blobs@, None));
    }
    while i < records.len()
        invariant
            i <= records@.len(),
            forall|handle: RawHash| #[trigger]
                resident@.contains_key(handle) <==> is_resident(blobs@, handle),
            survey.tells_of(records@.take(i as int), blobs@, limit as nat),
        decreases records@.len() - i,
    {
        let record = &records[i];
        let ghost less = records@.take(i as int);
        let ghost more = records@.take(i + 1);
        let ghost before = survey;
        proof {
            assert(more.drop_last() =~= less);
            assert(more.last() == *record);
            assert(more =~= less.push(*record));
        }
        let collection = record.collection;
        let kind = record.kind();
        let missing = missing_references(&record.references, resident, blobs);
        let result_resident = resident.contains_key(&record.result());
        survey.totals.count(kind, &missing, result_resident);
        assert(survey.totals.tells_of(more, blobs@, None));
        let mut evidence = match survey.collections.get(&collection) {
            Some(evidence) => evidence,
            None => MutableCollectionEvidence::new(),
        };
        proof {
            if !before.collections@.contains_key(collection) {
                assert forall|j: int| 0 <= j < less.len() implies Some(
                    (#[trigger] less[j]).collection,
                ) != Some(collection) by {
                    if less[j].collection == collection {
                        assert(has_records(less, collection));
                    }
                }
            }
            assert(evidence.tells_of(less, blobs@, Some(collection)));
        }
        evidence.count(kind, &missing, result_resident);
        assert(evidence.tells_of(more, blobs@, Some(collection)));
        survey.collections.insert(collection, evidence);
        proof {
            assert forall|other: [u8; 32]| #[trigger] survey.collections@.contains_key(
                other,
            ) <==> has_records(more, other) by {
                assert(more[i as int].collection == collection);
                if has_records(less, other) {
                    let j = choose|j: int|
                        0 <= j < less.len() && (#[trigger] less[j]).collection == other;
                    assert(more[j].collection == other);
                }
                if has_records(more, other) {
                    let j = choose|j: int|
                        0 <= j < more.len() && (#[trigger] more[j]).collection == other;
                    if j < i {
                        assert(less[j].collection == other);
                    }
                }
                assert(before.collections@.contains_key(other) <==> has_records(less, other));
            }
            assert forall|other: [u8; 32]| #[trigger]
                survey.collections@.contains_key(
                    other,
                ) implies survey.collections@[other].tells_of(more, blobs@, Some(other)) by {
                if other != collection {
                    assert(before.collections@.contains_key(other));
                    assert(before.collections@[other].tells_of(less, blobs@, Some(other)));
                }
            }
        }
        survey_missing(&mut survey.missing, &collection, kind, &missing, limit);
        survey.missing_count = count_more(survey.missing_count, missing.len() as u64);
        i = i + 1;
    }
    assert(records@.take(i as int) =~= records@);
    survey
}

/// What the durable requests of a snapshot amount to.
struct WantSurvey {
    wants: WantSummary,
    blob_wants: WantSummary,
    merge_wants: WantSummary,
    derive_wants: WantSummary,
    pending: Vec<PendingWant>,
}

impl WantSurvey {
    /// Whether the survey tells of the requests.
    spec fn tells_of(
        self,
        wants: Seq<WantRequest>,
        records: Seq<NativeRecord>,
        blobs: Seq<BlobSample>,
        limit: nat,
    ) -> bool {
        &&& tells(self.wants, want_totals(wants, records, blobs, None))
        &&& tells(self.blob_wants, want_totals(wants, records, blobs, Some(WantKind::Blob)))
        &&& tells(self.merge_wants, want_totals(wants, records, blobs, Some(WantKind::Merge)))
        &&& tells(self.derive_wants, want_totals(wants, records, blobs, Some(WantKind::Derive)))
        &&& is_sample(self.pending@, all_pending(wants, records, blobs), limit)
    }
}

fn survey_wants(
    snapshot: &LocalSnapshot,
    resident: &KeyMap<32, ()>,
    answered: &KeyMap<97, ()>,
    limit: usize,
) -> (survey: WantSurvey)
    requires
        forall|handle: RawHash| #[trigger]
            resident@.contains_key(handle) <==> is_resident(snapshot.blobs@, handle),
        forall|request: WantRequest|
            snapshot.wants@.contains(request) && request.kind_spec() != WantKind::Blob
                ==> (#[trigger] requests_in(answered@).contains(request) <==> has_answer(
                snapshot.records@,
                request,
            )),
    ensures
        survey.tells_of(snapshot.wants@, snapshot.records@, snapshot.blobs@, limit as nat),
{
    let ghost wants = snapshot.wants@;
    let ghost records = snapshot.records@;
    let ghost blobs = snapshot.blobs@;
    let mut survey = WantSurvey {
        wants: WantSummary::default(),
        blob_wants: WantSummary::default(),
        merge_wants: WantSummary::default(),
        derive_wants: WantSummary::default(),
        pending: Vec::new(),
    };
    let mut i: usize = 0;
    proof {
        assert(wants.take(0) =~= Seq::empty());
        lemma_no_sample(Set::<PendingWant>::empty(), limit as nat);
        assert(survey.pending@ =~= Seq::empty());
    }
    while i < snapshot.wants.len()
        invariant
            i <= wants.len(),
            wants == snapshot.wants@,
            records == snapshot.records@,
            blobs == snapshot.blobs@,
            forall|handle: RawHash| #[trigger]
                resident@.contains_key(handle) <==> is_resident(blobs, handle),
            forall|request: WantRequest|
                wants.contains(request) && request.kind_spec() != WantKind::Blob
                    ==> (#[trigger] requests_in(answered@).contains(request) <==> has_answer(
                    records,
                    request,
                )),
            survey.tells_of(wants.take(i as int), records, blobs, limit as nat),
        decreases wants.len() - i,
    {
        let request = snapshot.wants[i];
        let kind = request.kind();
        let ghost less = wants.take(i as int);
        let ghost more = wants.take(i + 1);
        proof {
            assert(more.drop_last() =~= less);
            assert(more.last() == request);
            assert(wants[i as int] == request);
        }
        let is_answered = match request {
            WantRequest::Blob { handle } => resident.contains_key(&handle),
            _ => {
                let key = want_key(&request);
                proof {
                    lemma_decoded(
                        answered@,
                        |request: WantRequest| want_bytes(request),
                        key,
                        request,
                    );
                    assert(requests_in(answered@).contains(request) == answered@.contains_key(key));
                }
                answered.contains_key(&key)
            },
        };
        assert(is_answered == crate::dashboard::is_answered(request, records, blobs));
        update_want_summary(&mut survey.wants, is_answered);
        match kind {
            WantKind::Blob => update_want_summary(&mut survey.blob_wants, is_answered),
            WantKind::Merge => update_want_summary(&mut survey.merge_wants, is_answered),
            WantKind::Derive => update_want_summary(&mut survey.derive_wants, is_answered),
        }
        if !is_answered {
            let ghost before = survey.pending@;
            retain_smallest(&mut survey.pending, PendingWant { kind, request }, limit);
            proof {
                lemma_sample_extends(
                    before,
                    all_pending(less, records, blobs),
                    PendingWant { kind, request },
                    survey.pending@,
                    limit as nat,
                );
            }
        }
        i = i + 1;
    }
    assert(wants.take(i as int) =~= wants);
    survey
}

fn list_collections(
    collections: &KeyMap<32, MutableCollectionEvidence>,
    records: &Vec<NativeRecord>,
    blobs: &Vec<BlobSample>,
) -> (list: Vec<CollectionEvidence>)
    requires
        forall|collection: [u8; 32]| #[trigger]
            collections@.contains_key(collection) <==> has_records(records@, collection),
        forall|collection: [u8; 32]| #[trigger]
            collections@.contains_key(collection) ==> collections@[collection].tells_of(
                records@,
                blobs@,
                Some(collection),
            ),
    ensures
        evidences_all(list@, records@, blobs@),
{
    let entries = collections.entries();
    let mut list: Vec<CollectionEvidence> = Vec::new();
    let mut i: usize = 0;
    while i < entries.len()
        invariant
            i <= entries@.len(),
            list@.len() == i,
            forall|j: int|
                0 <= j < i ==> #[trigger] list@[j] == (CollectionEvidence {
                    collection: entries@[j].0,
                    commits: entries@[j].1.commits,
                    merges: entries@[j].1.merges,
                    derives: entries@[j].1.derives,
                }),
        decreases entries@.len() - i,
    {
        let entry = entries[i];
        list.push(
            CollectionEvidence {
                collection: entry.0,
                commits: entry.1.commits,
                merges: entry.1.merges,
                derives: entry.1.derives,
            },
        );
        i = i + 1;
    }
    proof {
        lemma_contents(entries@);
        assert forall|i: int, j: int| 0 <= i < j < list@.len() implies rank(
            (#[trigger] list@[i]).collection,
        ) < rank((#[trigger] list@[j]).collection) by {
            assert(rank(entries@[i].0) < rank(entries@[j].0));
        }
        assert forall|i: int| 0 <= i < list@.len() implies evidences(
            #[trigger] list@[i],
            records@,
            blobs@,
        ) by {
            assert(collections@.contains_key(entries@[i].0));
        }
        assert forall|collection: [u8; 32]| #[trigger]
            has_records(records@, collection) implies exists|i: int|
            0 <= i < list@.len() && (#[trigger] list@[i]).collection == collection by {
            assert(collections@.contains_key(collection));
            let i = choose|i: int| 0 <= i < entries@.len() && #[trigger] entries@[i].0 == collection;
            assert(list@[i].collection == collection);
        }
    }
    list
}

/// Inspect one immutable store observation without fetching, maintaining, or
/// writing anything. Samples are the smallest exact keys, so that repeated
/// views of the same snapshot are stable.
pub fn inspect_local(snapshot: &LocalSnapshot, sample_limit: usize) -> (report: LocalReport)
    ensures
        reports(report, *snapshot, sample_limit as nat),
{
    let (blob_sample, resident_bytes) = survey_blobs(&snapshot.blobs, sample_limit);
    let resident_blobs: u64 = snapshot.blobs.len() as u64;
    let blob_sample_truncated = resident_blobs > blob_sample.len() as u64;
    let resident = index_blobs(&snapshot.blobs);
    let answered = answered_operations(&snapshot.wants, &snapshot.records);
    let records = survey_records(&snapshot.records, &resident, &snapshot.blobs, sample_limit);
    let missing_reference_sample_truncated = records.missing_count > records.missing.len() as u64;
    let collections = list_collections(&records.collections, &snapshot.records, &snapshot.blobs);
    let wants = survey_wants(snapshot, &resident, &answered, sample_limit);
    let pending_want_sample_truncated = wants.wants.pending > wants.pending.len() as u64;
    LocalReport {
        resident_blobs,
        resident_bytes,
        blob_sample,
        blob_sample_truncated,
        stored_records: snapshot.records.len() as u64,
        commits: records.totals.commits,
        merges: records.totals.merges,
        derives: records.totals.derives,
        collections,
        missing_reference_sample: records.missing,
        missing_reference_sample_truncated,
        wants: wants.wants,
        blob_wants: wants.blob_wants,
        merge_wants: wants.merge_wants,
        derive_wants: wants.derive_wants,
        pending_want_sample: wants.pending,
        pending_want_sample_truncated,
    }
}

} // verus!
