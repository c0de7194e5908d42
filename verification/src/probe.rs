//! The bounds of the blob throughput diagnostic: its arguments, its list of
//! handles, and what it lets a candidate announce.

use vstd::prelude::*;
use vstd::string::StrSliceExecFns;
use vstd::utf8::valid_utf8;

use crate::collection_blob_inventory::RawHash;
use crate::hex_text::{decode_handle, handle_bytes, is_handle_text};
use crate::key_map::KeyMap;
use crate::keys::{big_endian, lemma_same_bytes, read_be, zero_key};
use crate::protocol::BLOB_PROVIDER_PROOF;

verus! {

/// The largest fixture blob.
pub const MAX_BLOB: u64 = 67_108_864;

/// The most payload bytes of one run.
pub const MAX_TOTAL: u64 = 268_435_456;

/// The most handles of one run.
pub const MAX_HANDLES: usize = 4096;

/// The most bytes of a list of handles: 64 digits and a line end each.
pub const MAX_LIST_BYTES: usize = 266_240;

/// Why the diagnostic refuses its input.
#[derive(Clone, Copy, Debug, PartialEq, Eq, Structural)]
pub enum ProbeError {
    InvalidNumber,
    NumberOutsideCap,
    FixtureTooSmall,
    ListTooLong,
    ListEncoding,
    EntryLength,
    InvalidEntry,
    DuplicateEntry,
    HandleCount,
    PayloadCap,
}

impl ProbeError {
    /// The error in words.
    pub fn message(&self) -> (text: &'static str)
        ensures
            text@ == match *self {
                ProbeError::InvalidNumber => "invalid numeric argument"@,
                ProbeError::NumberOutsideCap => "numeric argument outside diagnostic cap"@,
                ProbeError::FixtureTooSmall => "fixture needs eight bytes for its unique ordinal"@,
                ProbeError::ListTooLong => "stdin handle-list cap exceeded"@,
                ProbeError::ListEncoding => "invalid handle-list encoding"@,
                ProbeError::EntryLength => "expected one 64-hex H per line"@,
                ProbeError::InvalidEntry => "invalid handle-list entry"@,
                ProbeError::DuplicateEntry =>
                    "duplicate H would turn a fresh-Pile arm into dedup work"@,
                ProbeError::HandleCount => "invalid handle count"@,
                ProbeError::PayloadCap => "requested payload cap exceeded"@,
            },
    {
        match self {
            ProbeError::InvalidNumber => "invalid numeric argument",
            ProbeError::NumberOutsideCap => "numeric argument outside diagnostic cap",
            ProbeError::FixtureTooSmall => "fixture needs eight bytes for its unique ordinal",
            ProbeError::ListTooLong => "stdin handle-list cap exceeded",
            ProbeError::ListEncoding => "invalid handle-list encoding",
            ProbeError::EntryLength => "expected one 64-hex H per line",
            ProbeError::InvalidEntry => "invalid handle-list entry",
            ProbeError::DuplicateEntry => "duplicate H would turn a fresh-Pile arm into dedup work",
            ProbeError::HandleCount => "invalid handle count",
            ProbeError::PayloadCap => "requested payload cap exceeded",
        }
    }
}

/// Whether a character is a decimal digit.
pub open spec fn is_digit(c: char) -> bool {
    '0' <= c <= '9'
}

/// The number that decimal digits write.
pub open spec fn decimal(digits: Seq<char>) -> nat
    decreases digits.len(),
{
    if digits.len() == 0 {
        0
    } else {
        decimal(digits.drop_last()) * 10 + (digits.last() as nat - 48) as nat
    }
}

/// The text behind an optional plus sign.
pub open spec fn unsigned(text: Seq<char>) -> Seq<char> {
    if text.len() > 0 && text[0] == '+' {
        text.skip(1)
    } else {
        text
    }
}

/// Whether a text writes a number: at least one digit and nothing else, behind an
/// optional plus sign, and no more than 64 bits.
pub open spec fn writes_number(text: Seq<char>) -> bool {
    &&& unsigned(text).len() > 0
    &&& forall|i: int| 0 <= i < unsigned(text).len() ==> is_digit(#[trigger] unsigned(text)[i])
    &&& decimal(unsigned(text)) <= u64::MAX
}

/// What a numeric argument means.
pub open spec fn number_result(text: Seq<char>, maximum: u64) -> Result<u64, ProbeError> {
    if !writes_number(text) {
        Err(ProbeError::InvalidNumber)
    } else if 0 < decimal(unsigned(text)) <= maximum {
        Ok(decimal(unsigned(text)) as u64)
    } else {
        Err(ProbeError::NumberOutsideCap)
    }
}

/// Dropping digits makes a number no larger.
proof fn lemma_decimal_grows(digits: Seq<char>, shorter: int)
    requires
        0 <= shorter <= digits.len(),
    ensures
        decimal(digits.take(shorter)) <= decimal(digits),
    decreases digits.len() - shorter,
{
    if shorter < digits.len() {
        let longer = digits.take(shorter + 1);
        assert(longer.drop_last() =~= digits.take(shorter));
        lemma_decimal_grows(digits, shorter + 1);
    } else {
        assert(digits.take(shorter) =~= digits);
    }
}

/// A positive numeric argument within its cap.
pub fn number(value: &str, maximum: u64) -> (result: Result<u64, ProbeError>)
    ensures
        result == number_result(value@, maximum),
{
    let length: usize = value.unicode_len();
    let start: usize = if length > 0 && value.get_char(0) == '+' {
        1
    } else {
        0
    };
    let ghost digits = unsigned(value@);
    assert(digits =~= value@.skip(start as int));
    if start == length {
        return Err(ProbeError::InvalidNumber);
    }
    let mut number: u64 = 0;
    let mut i: usize = start;
    assert(digits.take(0) =~= Seq::empty());
    while i < length
        invariant
            start <= i <= length,
            length == value@.len(),
            digits == unsigned(value@),
            digits == value@.skip(start as int),
            number == decimal(digits.take(i - start)),
            forall|j: int| 0 <= j < i - start ==> is_digit(#[trigger] digits[j]),
        decreases length - i,
    {
        let c = value.get_char(i);
        assert(c == digits[i - start]);
        if !('0' <= c && c <= '9') {
            return Err(ProbeError::InvalidNumber);
        }
        let ghost longer = digits.take(i - start + 1);
        proof {
            assert(longer.drop_last() =~= digits.take(i - start));
            assert(longer.last() == c);
            lemma_decimal_grows(digits, i - start + 1);
        }
        let digit: u64 = c as u64 - 48;
        if number > (u64::MAX - digit) / 10 {
            return Err(ProbeError::InvalidNumber);
        }
        number = number * 10 + digit;
        i = i + 1;
    }
    assert(digits.take(length - start) =~= digits);
    if number > 0 && number <= maximum {
        Ok(number)
    } else {
        Err(ProbeError::NumberOutsideCap)
    }
}

/// What a fixture size means.
pub open spec fn fixture_result(text: Seq<char>) -> Result<u64, ProbeError> {
    match number_result(text, MAX_BLOB) {
        Ok(size) => if size >= 8 {
            Ok(size)
        } else {
            Err(ProbeError::FixtureTooSmall)
        },
        Err(error) => Err(error),
    }
}

/// The size of a fixture blob: it has room for an ordinal that makes the blob
/// unlike the others.
pub fn fixture_size(value: &str) -> (result: Result<u64, ProbeError>)
    ensures
        result == fixture_result(value@),
{
    match number(value, MAX_BLOB) {
        Ok(size) => if size >= 8 {
            Ok(size)
        } else {
            Err(ProbeError::FixtureTooSmall)
        },
        Err(error) => Err(error),
    }
}

/// `std::str::from_utf8`: whether bytes are valid UTF-8.
#[verifier::external_body]
fn is_utf8(bytes: &[u8]) -> (valid: bool)
    ensures
        valid == valid_utf8(bytes@),
{
    std::str::from_utf8(bytes).is_ok()
}

/// Where the first line of a text ends: before its first line feed, or at the
/// end.
pub open spec fn line_end(text: Seq<u8>) -> nat
    decreases text.len(),
{
    if text.len() == 0 || text[0] == 10 {
        0
    } else {
        1 + line_end(text.skip(1))
    }
}

/// A line without the carriage return that stands before its line feed.
pub open spec fn without_return(line: Seq<u8>) -> Seq<u8> {
    if line.len() > 0 && line.last() == 13 {
        line.drop_last()
    } else {
        line
    }
}

/// The first line ends within the text.
proof fn lemma_line_end(text: Seq<u8>)
    ensures
        line_end(text) <= text.len(),
        line_end(text) < text.len() ==> text[line_end(text) as int] == 10,
    decreases text.len(),
{
    if !(text.len() == 0 || text[0] == 10) {
        lemma_line_end(text.skip(1));
    }
}

/// The lines of a text. A final line end is optional.
pub open spec fn lines(text: Seq<u8>) -> Seq<Seq<u8>>
    decreases text.len(),
{
    if text.len() == 0 {
        seq![]
    } else if line_end(text) < text.len() {
        seq![without_return(text.take(line_end(text) as int))] + lines(
            text.skip(line_end(text) as int + 1),
        )
    } else {
        seq![text]
    }
}

/// Why line `at` of a list of handles is refused, given the lines before it.
pub open spec fn entry_refusal(list: Seq<Seq<u8>>, at: int) -> Option<ProbeError> {
    if list[at].len() != 64 {
        Some(ProbeError::EntryLength)
    } else if !is_handle_text(list[at]) {
        Some(ProbeError::InvalidEntry)
    } else if exists|j: int| 0 <= j < at && #[trigger] handle_bytes(list[j]) == handle_bytes(list[at]) {
        Some(ProbeError::DuplicateEntry)
    } else {
        None
    }
}

/// Why the first of `count` lines that is refused is refused.
pub open spec fn first_refusal(list: Seq<Seq<u8>>, count: nat) -> Option<ProbeError>
    decreases count,
{
    if count == 0 {
        None
    } else if first_refusal(list, (count - 1) as nat) is Some {
        first_refusal(list, (count - 1) as nat)
    } else {
        entry_refusal(list, count - 1)
    }
}

/// Why a list of handles is refused for blobs of one size.
pub open spec fn list_refusal(text: Seq<u8>, size: u64) -> Option<ProbeError> {
    let list = lines(text);
    if text.len() > MAX_LIST_BYTES {
        Some(ProbeError::ListTooLong)
    } else if !valid_utf8(text) {
        Some(ProbeError::ListEncoding)
    } else if first_refusal(list, list.len()) is Some {
        first_refusal(list, list.len())
    } else if list.len() == 0 || list.len() > MAX_HANDLES {
        Some(ProbeError::HandleCount)
    } else if size * list.len() > MAX_TOTAL {
        Some(ProbeError::PayloadCap)
    } else {
        None
    }
}

/// A refusal among the first lines is the refusal of the list.
proof fn lemma_first_refusal(list: Seq<Seq<u8>>, count: nat, all: nat)
    requires
        count <= all,
        first_refusal(list, count) is Some,
    ensures
        first_refusal(list, all) == first_refusal(list, count),
    decreases all - count,
{
    if count < all {
        lemma_first_refusal(list, count, (all - 1) as nat);
    }
}

/// Where the line that begins at `start` ends.
fn find_line_end(text: &[u8], start: usize) -> (end: usize)
    requires
        start <= text@.len(),
    ensures
        end == start + line_end(text@.skip(start as int)),
        end <= text@.len(),
{
    let ghost rest = text@.skip(start as int);
    proof {
        lemma_line_end(rest);
    }
    let mut end: usize = start;
    while end < text.len() && text[end] != 10
        invariant
            start <= end <= text@.len(),
            rest == text@.skip(start as int),
            line_end(rest) <= rest.len(),
            line_end(rest) == end - start + line_end(text@.skip(end as int)),
        decreases text@.len() - end,
    {
        assert(text@.skip(end as int).skip(1) =~= text@.skip(end + 1));
        end = end + 1;
    }
    end
}

/// The handles that a list writes, one line each, for blobs of one size.
pub fn handles(text: &[u8], size: u64) -> (result: Result<Vec<RawHash>, ProbeError>)
    ensures
        match result {
            Ok(found) => {
                &&& list_refusal(text@, size) is None
                &&& found@.len() == lines(text@).len()
                &&& forall|i: int|
                    0 <= i < found@.len() ==> (#[trigger] found@[i])@ == handle_bytes(
                        lines(text@)[i],
                    )
            },
            Err(error) => list_refusal(text@, size) == Some(error),
        },
{
    if text.len() > MAX_LIST_BYTES {
        return Err(ProbeError::ListTooLong);
    }
    if !is_utf8(text) {
        return Err(ProbeError::ListEncoding);
    }
    let mut unique: KeyMap<32, ()> = KeyMap::new();
    let mut found: Vec<RawHash> = Vec::new();
    let mut start: usize = 0;
    let ghost list = lines(text@);
    assert(text@.skip(0) =~= text@);
    assert(list.skip(0) =~= list);
    while start < text.len()
        invariant
            start <= text@.len() <= MAX_LIST_BYTES,
            valid_utf8(text@),
            list == lines(text@),
            found@.len() <= start,
            found@.len() <= list.len(),
            list.skip(found@.len() as int) == lines(text@.skip(start as int)),
            forall|i: int|
                0 <= i < found@.len() ==> (#[trigger] found@[i])@ == handle_bytes(list[i]),
            forall|key: RawHash| #[trigger] unique@.contains_key(key) <==> found@.contains(key),
            first_refusal(list, found@.len()) is None,
        decreases text@.len() - start,
    {
        let ghost rest = text@.skip(start as int);
        let ghost at = found@.len() as int;
        let end: usize = find_line_end(text, start);
        let next: usize = if end < text.len() {
            end + 1
        } else {
            end
        };
        let stop: usize = if end < text.len() && end > start && text[end - 1] == 13 {
            end - 1
        } else {
            end
        };
        let line = vstd::slice::slice_subrange(text, start, stop);
        proof {
            lemma_line_end(rest);
            assert(line@ =~= lines(rest)[0]) by {
                if end < text@.len() {
                    assert(rest.take(end - start) =~= text@.subrange(start as int, end as int));
                } else {
                    assert(rest =~= text@.subrange(start as int, end as int));
                }
            }
            assert(lines(rest).len() > 0);
            assert(list.skip(at).len() > 0);
            assert(list.skip(at)[0] == list[at]);
            assert(list.skip(at + 1) =~= list.skip(at).skip(1));
            if end < text@.len() {
                assert(rest.skip(end - start + 1) =~= text@.skip(next as int));
                assert(lines(rest).skip(1) =~= lines(text@.skip(next as int)));
            } else {
                assert(text@.skip(next as int) =~= Seq::empty());
                assert(lines(rest).skip(1) =~= Seq::empty());
            }
            if entry_refusal(list, at) is Some {
                lemma_first_refusal(list, (at + 1) as nat, list.len());
            }
        }
        if line.len() != 64 {
            return Err(ProbeError::EntryLength);
        }
        let handle = match decode_handle(line) {
            Some(handle) => handle,
            None => {
                return Err(ProbeError::InvalidEntry);
            },
        };
        if unique.contains_key(&handle) {
            proof {
                let j = choose|j: int| 0 <= j < found@.len() && found@[j] == handle;
                assert(handle_bytes(list[j]) == handle_bytes(list[at]));
            }
            return Err(ProbeError::DuplicateEntry);
        }
        proof {
            assert forall|j: int| 0 <= j < at implies #[trigger] handle_bytes(list[j])
                != handle_bytes(list[at]) by {
                if handle_bytes(list[j]) == handle_bytes(list[at]) {
                    lemma_same_bytes(found@[j], handle);
                    assert(found@.contains(handle));
                }
            }
        }
        let ghost before = found@;
        unique.insert(handle, ());
        found.push(handle);
        proof {
            assert forall|key: RawHash| #[trigger]
                unique@.contains_key(key) <==> found@.contains(key) by {
                if before.contains(key) {
                    let j = choose|j: int| 0 <= j < before.len() && before[j] == key;
                    assert(found@[j] == key);
                }
                assert(found@[at] == handle);
            }
        }
        start = next;
    }
    assert(text@.skip(start as int) =~= Seq::empty());
    assert(list.skip(found@.len() as int).len() == 0);
    if found.len() == 0 || found.len() > MAX_HANDLES {
        return Err(ProbeError::HandleCount);
    }
    let count: u64 = found.len() as u64;
    proof {
        assert(size > MAX_TOTAL ==> size * count > MAX_TOTAL) by (nonlinear_arith)
            requires
                count >= 1,
        ;
        assert(size <= MAX_TOTAL ==> size * count <= MAX_TOTAL * MAX_HANDLES) by (nonlinear_arith)
            requires
                count <= MAX_HANDLES,
        ;
    }
    if size > MAX_TOTAL || size * count > MAX_TOTAL {
        return Err(ProbeError::PayloadCap);
    }
    Ok(found)
}

/// The announced lengths that a run accepts: each is the size of its blobs, and
/// their sum stays within a budget.
#[derive(Clone, Copy, Debug, PartialEq, Eq)]
pub struct AnnouncementCap {
    pub size: u64,
    pub budget: u64,
    pub announced: u64,
    pub failed: bool,
}

impl AnnouncementCap {
    /// Whether a further announcement is accepted.
    pub open spec fn accepts(self, size: u64) -> bool {
        size == self.size && self.announced + size <= self.budget
    }

    /// The cap after an announcement. The length that says that the blob is gone
    /// announces nothing; an announcement that is not accepted fails the run.
    pub open spec fn after(self, size: u64) -> Self {
        if size == u64::MAX {
            self
        } else if self.accepts(size) {
            AnnouncementCap { announced: (self.announced + size) as u64, ..self }
        } else {
            AnnouncementCap { failed: true, ..self }
        }
    }

    /// A cap on blobs of one size, with a budget for all of them.
    pub fn new(size: u64, budget: u64) -> (cap: Self)
        ensures
            cap == (AnnouncementCap { size, budget, announced: 0, failed: false }),
    {
        AnnouncementCap { size, budget, announced: 0, failed: false }
    }

    /// Reserve what is announced; whether it may be received.
    pub fn reserve(&mut self, size: u64) -> (accepted: bool)
        ensures
            *final(self) == old(self).after(size),
            accepted == (size == u64::MAX || old(self).accepts(size)),
    {
        if size == u64::MAX {
            return true;
        }
        if size != self.size || self.announced > self.budget || size > self.budget
            - self.announced {
            self.failed = true;
            return false;
        }
        self.announced = self.announced + size;
        true
    }
}

/// How many bytes of a response precede its body: a status, a proof and a
/// length.
pub const RESPONSE_HEADER_BYTES: usize = 41;

/// Where the announced length begins.
pub const RESPONSE_LENGTH_OFFSET: usize = 33;

/// What has been seen of one response.
#[derive(Clone, Copy, Debug, PartialEq, Eq)]
pub struct ResponseMeter {
    pub position: usize,
    pub length: [u8; 8],
    pub body: bool,
    pub unavailable: bool,
}

impl ResponseMeter {
    /// Whether the header is still being read.
    pub open spec fn in_header(self) -> bool {
        !self.body && !self.unavailable && self.position < RESPONSE_HEADER_BYTES
    }

    /// How many bytes may be read at once: the status, the proof and the length
    /// are read apart.
    pub open spec fn limit(self) -> int {
        if self.position == 0 {
            1
        } else if self.position < RESPONSE_LENGTH_OFFSET {
            RESPONSE_LENGTH_OFFSET - self.position
        } else {
            RESPONSE_HEADER_BYTES - self.position
        }
    }

    /// The length bytes after more bytes were read.
    pub open spec fn length_with(self, bytes: Seq<u8>) -> Seq<u8> {
        if self.position < RESPONSE_LENGTH_OFFSET {
            self.length@
        } else {
            Seq::new(
                8,
                |i: int|
                    if self.position - RESPONSE_LENGTH_OFFSET <= i < self.position
                        - RESPONSE_LENGTH_OFFSET + bytes.len() {
                        bytes[i - (self.position - RESPONSE_LENGTH_OFFSET)]
                    } else {
                        self.length[i]
                    },
            )
        }
    }

    /// Nothing has been seen.
    pub fn new() -> (meter: Self)
        ensures
            meter.position == 0,
            meter.length@ == Seq::new(8, |i: int| 0u8),
            !meter.body,
            !meter.unavailable,
    {
        ResponseMeter { position: 0, length: zero_key(), body: false, unavailable: false }
    }

    /// How many bytes to read next, of at most `room`.
    pub fn read_limit(&self, room: usize) -> (limit: usize)
        requires
            self.in_header(),
        ensures
            limit == if room < self.limit() {
                room as int
            } else {
                self.limit()
            },
    {
        let limit: usize = if self.position == 0 {
            1
        } else if self.position < RESPONSE_LENGTH_OFFSET {
            RESPONSE_LENGTH_OFFSET - self.position
        } else {
            RESPONSE_HEADER_BYTES - self.position
        };
        if room < limit {
            room
        } else {
            limit
        }
    }

    /// Take header bytes; whether they may be passed on. The announced length is
    /// checked before it is passed on.
    pub fn observe(&mut self, cap: &mut AnnouncementCap, bytes: &[u8]) -> (accepted: bool)
        requires
            old(self).in_header(),
            bytes@.len() <= old(self).limit(),
        ensures
            final(self).position == old(self).position + bytes@.len(),
            final(self).length@ == old(self).length_with(bytes@),
            final(self).unavailable == (old(self).position == 0 && bytes@.len() > 0 && bytes@[0]
                != BLOB_PROVIDER_PROOF),
            ({
                let announced = big_endian(final(self).length@) as u64;
                if final(self).position == RESPONSE_HEADER_BYTES {
                    &&& *final(cap) == old(cap).after(announced)
                    &&& accepted == (announced == u64::MAX || old(cap).accepts(announced))
                    &&& final(self).body == accepted
                } else {
                    &&& *final(cap) == *old(cap)
                    &&& accepted
                    &&& !final(self).body
                }
            }),
    {
        if self.position == 0 && bytes.len() > 0 && bytes[0] != BLOB_PROVIDER_PROOF {
            self.unavailable = true;
        }
        if self.position >= RESPONSE_LENGTH_OFFSET {
            let offset: usize = self.position - RESPONSE_LENGTH_OFFSET;
            let mut length: [u8; 8] = self.length;
            for i in 0..bytes.len()
                invariant
                    offset + bytes@.len() <= 8,
                    length@.len() == 8,
                    forall|k: int|
                        0 <= k < 8 ==> #[trigger] length@[k] == if offset <= k < offset + i {
                            bytes@[k - offset]
                        } else {
                            self.length@[k]
                        },
            {
                length[offset + i] = bytes[i];
            }
            assert(length@ =~= self.length_with(bytes@));
            self.length = length;
        }
        self.position = self.position + bytes.len();
        if self.position == RESPONSE_HEADER_BYTES {
            let announced: u64 = read_be(&self.length);
            if !cap.reserve(announced) {
                return false;
            }
            self.body = true;
        }
        true
    }
}

/// Whatever is announced, what a run has accepted stays within its budget.
pub proof fn law_announcements_stay_within_budget(cap: AnnouncementCap, size: u64)
    requires
        cap.announced <= cap.budget,
    ensures
        cap.after(size).announced <= cap.after(size).budget,
        cap.after(size).budget == cap.budget,
        cap.failed ==> cap.after(size).failed,
{
}

} // verus!
