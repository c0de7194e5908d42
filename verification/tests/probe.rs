use triblespace_net::probe::{
    fixture_size, handles, number, AnnouncementCap, ProbeError, ResponseMeter, MAX_BLOB,
    MAX_HANDLES, MAX_TOTAL, RESPONSE_HEADER_BYTES,
};

#[test]
fn fixture_size_requires_room_for_a_distinct_ordinal() {
    for size in ["0", "1", "7"] {
        assert!(fixture_size(size).is_err());
    }
    assert_eq!(fixture_size("8").unwrap(), 8);
    assert_eq!(fixture_size("65536").unwrap(), 65536);
    assert!(fixture_size(&(MAX_BLOB + 1).to_string()).is_err());
    assert_eq!(fixture_size("7"), Err(ProbeError::FixtureTooSmall));
}

#[test]
fn numbers_are_decimal_positive_and_capped() {
    assert_eq!(number("+12", 16), Ok(12));
    assert_eq!(number("16", 16), Ok(16));
    assert_eq!(number("17", 16), Err(ProbeError::NumberOutsideCap));
    assert_eq!(number("0", 16), Err(ProbeError::NumberOutsideCap));
    for text in ["", "+", "-1", "1x", " 1", "18446744073709551616"] {
        assert_eq!(number(text, u64::MAX), Err(ProbeError::InvalidNumber));
    }
    assert_eq!(number("18446744073709551615", u64::MAX), Ok(u64::MAX));
    assert_eq!(
        ProbeError::InvalidNumber.message(),
        "invalid numeric argument"
    );
}

#[test]
fn handle_list_is_bounded_and_rejects_dedup_work() {
    let one = format!("{}\n", "01".repeat(32));
    assert_eq!(handles(one.as_bytes(), 1), Ok(vec![[1; 32]]));
    assert_eq!(
        handles(format!("{one}{one}").as_bytes(), 1),
        Err(ProbeError::DuplicateEntry)
    );
    assert_eq!(handles(b"", 1), Err(ProbeError::HandleCount));
    assert_eq!(handles(b"not-a-handle", 1), Err(ProbeError::EntryLength));
    assert_eq!(
        handles(one.as_bytes(), MAX_TOTAL + 1),
        Err(ProbeError::PayloadCap)
    );
    assert_eq!(
        handles(&vec![b' '; MAX_HANDLES * 65 + 1], 1),
        Err(ProbeError::ListTooLong)
    );
}

#[test]
fn handle_lines_are_read_as_text_lines() {
    let mixed = format!("{}\r\n{}", "aB".repeat(32), "0f".repeat(32));
    assert_eq!(handles(mixed.as_bytes(), 1), Ok(vec![[0xAB; 32], [0x0F; 32]]));
    let cased = format!("{}\n{}\n", "ab".repeat(32), "AB".repeat(32));
    assert_eq!(
        handles(cased.as_bytes(), 1),
        Err(ProbeError::DuplicateEntry)
    );
    let wrong = format!("{}\n", "0g".repeat(32));
    assert_eq!(handles(wrong.as_bytes(), 1), Err(ProbeError::InvalidEntry));
    let blank = format!("{}\n\n", "01".repeat(32));
    assert_eq!(handles(blank.as_bytes(), 1), Err(ProbeError::EntryLength));
    assert_eq!(handles(&[0xFF], 1), Err(ProbeError::ListEncoding));
    let bare = format!("{}\r", "01".repeat(32));
    assert_eq!(handles(bare.as_bytes(), 1), Err(ProbeError::EntryLength));
}

fn response(length: u64) -> Vec<u8> {
    let mut bytes = vec![1; 33];
    bytes.extend_from_slice(&length.to_be_bytes());
    bytes.extend_from_slice(&[9; 8]);
    bytes
}

/// How many header bytes are passed on, and whether all of them were.
fn pass(meter: &mut ResponseMeter, cap: &mut AnnouncementCap, bytes: &[u8]) -> (usize, bool) {
    let mut passed = 0;
    while !meter.body && !meter.unavailable && passed < bytes.len() {
        let take = meter.read_limit(bytes.len() - passed);
        if !meter.observe(cap, &bytes[passed..passed + take]) {
            return (passed, false);
        }
        passed += take;
    }
    (passed, true)
}

#[test]
fn cap_rejects_announced_length_before_body_or_length_reaches_native_reader() {
    let mut cap = AnnouncementCap::new(4, 8);
    let mut meter = ResponseMeter::new();
    assert_eq!((meter.position, meter.length), (0, [0; 8]));
    assert_eq!(pass(&mut meter, &mut cap, &response(8)), (33, false));
    assert!(cap.failed);
    assert!(!meter.body);
}

#[test]
fn native_header_and_body_are_unchanged_and_budget_counts_attempts() {
    let mut cap = AnnouncementCap::new(8, 8);
    let mut meter = ResponseMeter::new();
    assert_eq!(
        pass(&mut meter, &mut cap, &response(8)),
        (RESPONSE_HEADER_BYTES, true)
    );
    assert!(meter.body);
    assert_eq!(cap.announced, 8);
    assert!(!cap.reserve(8));
    assert!(cap.reserve(u64::MAX));
}

#[test]
fn other_rpc_bytes_and_native_unavailable_are_not_interpreted_as_lengths() {
    let mut cap = AnnouncementCap::new(1, 1);
    let mut meter = ResponseMeter::new();
    assert_eq!(pass(&mut meter, &mut cap, &[0]), (1, true));
    assert!(meter.unavailable);
    assert!(!cap.failed);
}

#[test]
fn truncated_proof_and_residency_loss_keep_native_eof_and_none_semantics() {
    for bytes in [vec![1; 12], response(u64::MAX)[..41].to_vec()] {
        let mut cap = AnnouncementCap::new(8, 8);
        let mut meter = ResponseMeter::new();
        assert_eq!(pass(&mut meter, &mut cap, &bytes), (bytes.len(), true));
        assert!(!cap.failed);
        assert_eq!(cap.announced, 0);
    }
}
