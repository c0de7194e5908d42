//! What the throughput diagnostic takes and refuses.

use vstd::prelude::*;
use vstd::utf8::valid_utf8;

use crate::hex_text::{handle_bytes, hex_value, is_handle_text, is_hex_digit};
use crate::probe::{
    decimal, entry_refusal, first_refusal, fixture_result, is_digit, line_end, lines, list_refusal,
    number_result, unsigned, without_return, writes_number, AnnouncementCap, ProbeError,
    ResponseMeter,
};

verus! {

/// No digits write zero, and one digit more multiplies by ten and adds its own
/// value.
pub proof fn law_digits_write_numbers(digits: Seq<char>, digit: char)
    requires
        is_digit(digit),
    ensures
        '0' <= digit <= '9',
        decimal(Seq::empty()) == 0,
        decimal(digits.push(digit)) == 10 * decimal(digits) + (digit as nat - '0' as nat),
{
    assert(digits.push(digit).drop_last() =~= digits);
}

/// A numeric argument is taken exactly if it is written in digits only, fits in
/// sixty-four bits, is not zero and is within its cap.
pub proof fn law_numbers_are_capped(text: Seq<char>, maximum: u64)
    requires
        text.len() > 0,
        text[0] != '+',
    ensures
        ({
            let written = (forall|i: int| 0 <= i < text.len() ==> '0' <= #[trigger] text[i] <= '9')
                && decimal(text) <= u64::MAX;
            let result = number_result(text, maximum);
            &&& !written <==> result == Err::<u64, ProbeError>(ProbeError::InvalidNumber)
            &&& written && (decimal(text) == 0 || decimal(text) > maximum) <==> result == Err::<
                u64,
                ProbeError,
            >(ProbeError::NumberOutsideCap)
            &&& written && 0 < decimal(text) <= maximum ==> result == Ok::<u64, ProbeError>(
                decimal(text) as u64,
            )
        }),
{
    if forall|i: int| 0 <= i < text.len() ==> '0' <= #[trigger] text[i] <= '9' {
        assert forall|i: int| 0 <= i < unsigned(text).len() implies is_digit(
            #[trigger] unsigned(text)[i],
        ) by {
            assert('0' <= text[i] <= '9');
        }
    }
    if writes_number(text) {
        assert forall|i: int| 0 <= i < text.len() implies '0' <= #[trigger] text[i] <= '9' by {
            assert(is_digit(unsigned(text)[i]));
        }
    }
}

/// One plus sign before a number changes nothing. A sign alone, or two, is no
/// number, and neither is nothing.
pub proof fn law_one_plus_sign_is_allowed(text: Seq<char>, maximum: u64)
    ensures
        text.len() > 0 && text[0] != '+' ==> number_result(seq!['+'] + text, maximum)
            == number_result(text, maximum),
        text.len() > 0 && text[0] == '+' ==> number_result(seq!['+'] + text, maximum) == Err::<
            u64,
            ProbeError,
        >(ProbeError::InvalidNumber),
        number_result(seq!['+'], maximum) == Err::<u64, ProbeError>(ProbeError::InvalidNumber),
        number_result(Seq::empty(), maximum) == Err::<u64, ProbeError>(ProbeError::InvalidNumber),
{
    let signed = seq!['+'] + text;
    assert(signed[0] == '+');
    assert(signed.skip(1) =~= text);
    assert(unsigned(signed) == text);
    if text.len() > 0 && text[0] == '+' {
        assert(!is_digit(unsigned(signed)[0]));
    }
    assert(unsigned(seq!['+']) =~= Seq::<char>::empty());
}

/// A fixture has at least eight bytes and at most sixty-four mebibytes.
pub proof fn law_fixtures_have_room_for_an_ordinal(text: Seq<char>)
    ensures
        fixture_result(text) is Ok <==> number_result(text, 67_108_864) is Ok
            && number_result(text, 67_108_864)->Ok_0 >= 8,
        fixture_result(text) is Ok ==> fixture_result(text) == number_result(
            text,
            67_108_864,
        ),
        number_result(text, 67_108_864) is Err ==> fixture_result(text) == number_result(
            text,
            67_108_864,
        ),
        fixture_result(text) is Err && number_result(text, 67_108_864) is Ok
            ==> fixture_result(text) == Err::<u64, ProbeError>(ProbeError::FixtureTooSmall),
{
}

/// Whether no byte is a line feed.
pub open spec fn is_one_line(line: Seq<u8>) -> bool {
    forall|i: int| 0 <= i < line.len() ==> #[trigger] line[i] != 10
}

proof fn lemma_line_end(line: Seq<u8>, rest: Seq<u8>)
    requires
        is_one_line(line),
    ensures
        line_end(line + seq![10u8] + rest) == line.len(),
        line_end(line) == line.len(),
    decreases line.len(),
{
    let text = line + seq![10u8] + rest;
    if line.len() == 0 {
        assert(text[0] == 10);
    } else {
        let shorter = line.skip(1);
        assert forall|i: int| 0 <= i < shorter.len() implies #[trigger] shorter[i] != 10 by {
            assert(line[i + 1] != 10);
        }
        lemma_line_end(shorter, rest);
        assert(text[0] == line[0]);
        assert(text.skip(1) =~= shorter + seq![10u8] + rest);
    }
}

/// A text is read line by line: what stands before a line feed is one line, and
/// what follows is read as before. A last line needs no line feed, and an empty text
/// has no line.
pub proof fn law_lines_end_at_line_feeds(line: Seq<u8>, rest: Seq<u8>)
    requires
        is_one_line(line),
    ensures
        lines(line + seq![10u8] + rest) == seq![without_return(line)] + lines(rest),
        line.len() > 0 ==> lines(line) == seq![line],
        lines(Seq::empty()) == Seq::<Seq<u8>>::empty(),
{
    lemma_line_end(line, rest);
    let text = line + seq![10u8] + rest;
    assert(text.take(line.len() as int) =~= line);
    assert(text.skip(line.len() as int + 1) =~= rest);
}

/// A carriage return at the end of a line is not part of it; one elsewhere is.
pub proof fn law_one_carriage_return_is_dropped(line: Seq<u8>)
    ensures
        without_return(line.push(13)) == line,
        line.len() > 0 && line.last() != 13 ==> without_return(line) == line,
        without_return(Seq::empty()) == Seq::<u8>::empty(),
{
    assert(line.push(13).drop_last() =~= line);
}

/// Hexadecimal digits of either case write the numbers below sixteen, and two of
/// them a byte, the high one first.
pub proof fn law_handles_are_written_in_hexadecimal(text: Seq<u8>, at: int, value: int)
    requires
        is_handle_text(text),
        0 <= at < 32,
        0 <= value < 16,
    ensures
        handle_bytes(text).len() == 32,
        handle_bytes(text)[at] == 16 * hex_value(text[2 * at]) + hex_value(text[2 * at + 1]),
        value < 10 ==> is_hex_digit((48 + value) as u8) && hex_value((48 + value) as u8) == value,
        value >= 10 ==> is_hex_digit((97 + value - 10) as u8) && hex_value(
            (97 + value - 10) as u8,
        ) == value,
        value >= 10 ==> is_hex_digit((65 + value - 10) as u8) && hex_value(
            (65 + value - 10) as u8,
        ) == value,
{
    assert(is_hex_digit(text[2 * at]));
    assert(is_hex_digit(text[2 * at + 1]));
}

/// Only digits and the first six letters of either case are hexadecimal digits.
pub proof fn law_no_other_byte_is_hexadecimal(byte: u8)
    ensures
        is_hex_digit(byte) <==> ('0' as u8 <= byte <= '9' as u8) || ('a' as u8 <= byte
            <= 'f' as u8) || ('A' as u8 <= byte <= 'F' as u8),
{
}

proof fn lemma_no_refusal(list: Seq<Seq<u8>>, count: nat)
    ensures
        first_refusal(list, count) is None <==> forall|i: int|
            0 <= i < count ==> entry_refusal(list, i) is None,
    decreases count,
{
    if count > 0 {
        lemma_no_refusal(list, (count - 1) as nat);
        if first_refusal(list, count) is None {
            assert forall|i: int| 0 <= i < count implies entry_refusal(list, i) is None by {
                if i < count - 1 {
                }
            }
        }
    }
}

/// A list of handles is taken exactly if it is short enough and text, every line is
/// the hexadecimal text of a handle, no handle is repeated, there is one at least and
/// four thousand and ninety-six at most, and the blobs together are within two hundred
/// and fifty-six mebibytes.
pub proof fn law_lists_of_distinct_handles_are_taken(text: Seq<u8>, size: u64)
    ensures
        list_refusal(text, size) is None <==> {
            let list = lines(text);
            &&& text.len() <= 4096 * 65
            &&& valid_utf8(text)
            &&& forall|i: int| 0 <= i < list.len() ==> is_handle_text(#[trigger] list[i])
            &&& forall|i: int, j: int|
                0 <= i < j < list.len() ==> handle_bytes(#[trigger] list[i]) != handle_bytes(
                    #[trigger] list[j],
                )
            &&& 0 < list.len() <= 4096
            &&& size * list.len() <= 256 * 1024 * 1024
        },
        text.len() > 4096 * 65 ==> list_refusal(text, size) == Some(ProbeError::ListTooLong),
        text.len() == 0 ==> list_refusal(text, size) is Some,
{
    let list = lines(text);
    lemma_no_refusal(list, list.len());
    if first_refusal(list, list.len()) is None {
        assert forall|i: int| 0 <= i < list.len() implies is_handle_text(#[trigger] list[i]) by {
            assert(entry_refusal(list, i) is None);
        }
        assert forall|i: int, j: int| 0 <= i < j < list.len() implies handle_bytes(
            #[trigger] list[i],
        ) != handle_bytes(#[trigger] list[j]) by {
            assert(entry_refusal(list, j) is None);
        }
    }
    if (forall|i: int| 0 <= i < list.len() ==> is_handle_text(#[trigger] list[i])) && (forall|
        i: int,
        j: int,
    |
        0 <= i < j < list.len() ==> handle_bytes(#[trigger] list[i]) != handle_bytes(
            #[trigger] list[j],
        )) {
        assert forall|i: int| 0 <= i < list.len() implies entry_refusal(list, i) is None by {
            assert(is_handle_text(list[i]));
            assert forall|j: int| 0 <= j < i implies #[trigger] handle_bytes(list[j])
                != handle_bytes(list[i]) by {
                assert(list[j] == list[j]);
            }
        }
    }
}

/// Of the reasons to refuse one line, its length is told first, then that it is not
/// hexadecimal, then that it repeats an earlier one.
pub proof fn law_bad_lines_are_told_apart(list: Seq<Seq<u8>>, at: int)
    requires
        0 <= at < list.len(),
    ensures
        list[at].len() != 64 <==> entry_refusal(list, at) == Some(ProbeError::EntryLength),
        list[at].len() == 64 && !is_handle_text(list[at]) <==> entry_refusal(list, at) == Some(
            ProbeError::InvalidEntry,
        ),
        entry_refusal(list, at) == Some(ProbeError::DuplicateEntry) <==> is_handle_text(list[at])
            && exists|j: int|
            0 <= j < at && #[trigger] handle_bytes(list[j]) == handle_bytes(list[at]),
{
}

/// An announcement is accepted exactly if it is of the size that was asked for and
/// the sum stays within the budget; then it counts. That the blob is gone announces
/// nothing. Anything else fails the run and counts nothing.
pub proof fn law_announcements_are_counted(cap: AnnouncementCap, size: u64)
    ensures
        size == u64::MAX ==> cap.after(size) == cap,
        size != u64::MAX && size == cap.size && cap.announced + size <= cap.budget ==> {
            &&& cap.accepts(size)
            &&& cap.after(size).announced == cap.announced + size
            &&& cap.after(size).failed == cap.failed
        },
        size != u64::MAX && (size != cap.size || cap.announced + size > cap.budget) ==> {
            &&& !cap.accepts(size)
            &&& cap.after(size).announced == cap.announced
            &&& cap.after(size).failed
        },
        cap.after(size).size == cap.size && cap.after(size).budget == cap.budget,
{
}

/// The header is being read until forty-one bytes have come, unless the first said
/// that there is nothing, or the body has begun.
pub proof fn law_a_header_has_forty_one_bytes(meter: ResponseMeter)
    ensures
        meter.in_header() <==> meter.position < 41 && !(meter.body || meter.unavailable),
{
}

/// Header bytes are read in three parts: one status, thirty-two of proof, eight of
/// length. No read crosses from one part to the next.
pub proof fn law_header_parts_are_read_apart(meter: ResponseMeter)
    requires
        meter.in_header(),
    ensures
        meter.limit() > 0,
        meter.position == 0 ==> meter.position + meter.limit() == 1,
        0 < meter.position < 33 ==> meter.position + meter.limit() == 33,
        33 <= meter.position ==> meter.position + meter.limit() == 41,
{
}

/// The announced length is put together from the bytes behind the proof, each in
/// its place; bytes before it do not count.
pub proof fn law_length_bytes_are_kept_in_place(meter: ResponseMeter, bytes: Seq<u8>, at: int)
    requires
        meter.in_header(),
        bytes.len() <= meter.limit(),
        0 <= at < 8,
    ensures
        meter.position < 33 ==> meter.length_with(bytes) == meter.length@,
        meter.position >= 33 && meter.position - 33 <= at < meter.position - 33 + bytes.len()
            ==> meter.length_with(bytes)[at] == bytes[at - (meter.position - 33)],
        meter.position >= 33 && !(meter.position - 33 <= at < meter.position - 33 + bytes.len())
            ==> meter.length_with(bytes)[at] == meter.length@[at],
{
}

} // verus!
