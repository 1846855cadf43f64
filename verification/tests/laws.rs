use parser::{compute_checksum, Message, MessageBuilderError, ParseError, ParseResult, Parser, StateMachineParser};

fn message(address: u8, destination: u8, data: Vec<u8>) -> Message {
    Message::builder()
        .address(address)
        .destination(destination)
        .data(data)
        .build()
        .unwrap()
}

fn non_partial(results: &[ParseResult]) -> Vec<ParseResult> {
    results
        .iter()
        .filter(|r| !matches!(r, ParseResult::Partial))
        .cloned()
        .collect()
}

#[test]
fn checksum_is_the_byte_sum_modulo_256() {
    assert_eq!(compute_checksum(1, 2, 3, &[10, 20, 30]), 66);
    assert_eq!(compute_checksum(200, 100, 0, &[]), 44);
    assert_eq!(compute_checksum(0xFF, 0xFF, 2, &[0xFF, 0xFF]), 0xFE);
    assert_eq!(compute_checksum(0, 0, 0, &[]), 0);
}

#[test]
fn built_message_counts_its_data_and_sums_its_checksum() {
    let msg = message(7, 9, vec![1, 2, 3, 4]);
    assert_eq!(msg.data_length, 4);
    assert_eq!(msg.checksum, 7 + 9 + 4 + 10);
    let max = message(0, 0, vec![1; 255]);
    assert_eq!(max.data_length, 255);
}

#[test]
fn validation_error_names_the_limit() {
    let r = Message::builder().address(1).destination(2).data(vec![0; 256]).build();
    assert_eq!(
        r,
        Err(MessageBuilderError::ValidationError("data length cannot exceed 255".to_string()))
    );
}

#[test]
fn address_is_reported_before_other_missing_fields() {
    let r = Message::builder().build();
    assert_eq!(r, Err(MessageBuilderError::UninitializedField("address")));
}

#[test]
fn write_bytes_appends_to_what_is_there() {
    let msg = message(1, 2, vec![3]);
    let mut out = vec![0xAA, 0xBB];
    assert!(msg.write_bytes(&mut out).is_ok());
    let mut expected = vec![0xAA, 0xBB];
    expected.extend_from_slice(&msg.to_bytes());
    assert_eq!(out, expected);
}

#[test]
fn results_convert_from_messages_and_errors() {
    let msg = message(1, 2, vec![]);
    assert_eq!(ParseResult::from(msg.clone()), ParseResult::Complete(msg));
    assert_eq!(ParseResult::from(ParseError::Gap(3)), ParseResult::Error(ParseError::Gap(3)));
}

#[test]
fn roundtrip_of_message_full_of_escape_bytes() {
    let msg = message(0xFF, 0xFF, vec![0xFF, 0x00, 0xFF, 0xFF]);
    let mut p = StateMachineParser::new();
    assert_eq!(p.feed(&msg.to_bytes()), [ParseResult::Complete(msg)]);
}

#[test]
fn three_messages_back_to_back() {
    let ms = [message(1, 2, vec![]), message(0xFF, 0, vec![0; 255]), message(3, 4, vec![0xFF, 0x00])];
    let mut bytes = Vec::new();
    for m in &ms {
        m.write_bytes(&mut bytes).unwrap();
    }
    let mut p = StateMachineParser::new();
    let expected: Vec<ParseResult> = ms.iter().cloned().map(ParseResult::Complete).collect();
    assert_eq!(p.feed(&bytes), expected);
    assert!(p.feed(&[]).is_empty(), "the parser is back to seeking");
}

#[test]
fn gap_ending_in_escape_byte_is_counted_whole() {
    let msg = message(5, 6, vec![7]);
    let mut bytes = vec![0x11, 0xFF, 0xFF];
    msg.write_bytes(&mut bytes).unwrap();
    let mut p = StateMachineParser::new();
    assert_eq!(
        p.feed(&bytes),
        [ParseResult::Error(ParseError::Gap(3)), ParseResult::Complete(msg)]
    );
}

#[test]
fn byte_by_byte_feeding_reports_the_same_messages() {
    let m1 = message(1, 2, vec![0xFF, 9]);
    let m2 = message(0xFF, 3, vec![]);
    let mut bytes = vec![0x42];
    m1.write_bytes(&mut bytes).unwrap();
    bytes.extend_from_slice(&[0xFF, 0x07]);
    m2.write_bytes(&mut bytes).unwrap();

    let mut whole = StateMachineParser::new();
    let all_at_once = non_partial(&whole.feed(&bytes));

    let mut split = StateMachineParser::new();
    let mut pieces = Vec::new();
    for b in &bytes {
        pieces.extend(split.feed(std::slice::from_ref(b)));
    }
    assert_eq!(non_partial(&pieces), all_at_once);
    assert_eq!(
        all_at_once,
        [
            ParseResult::Error(ParseError::Gap(1)),
            ParseResult::Complete(m1),
            ParseResult::Error(ParseError::Gap(2)),
            ParseResult::Complete(m2),
        ]
    );
}

#[test]
fn partial_only_when_input_ends_mid_message() {
    let msg = message(1, 2, vec![3, 4]);
    let bytes = msg.to_bytes();
    for cut in 0..bytes.len() {
        let mut p = StateMachineParser::new();
        let first = p.feed(&bytes[..cut]);
        if cut < 2 {
            assert!(first.is_empty(), "no message started at cut {cut}");
        } else {
            assert_eq!(first, [ParseResult::Partial], "cut {cut}");
        }
        assert_eq!(p.feed(&bytes[cut..]), [ParseResult::Complete(msg.clone())], "cut {cut}");
    }
}

#[test]
fn empty_feed_in_the_middle_of_a_message_is_partial() {
    let msg = message(1, 2, vec![3]);
    let bytes = msg.to_bytes();
    let mut p = StateMachineParser::new();
    assert_eq!(p.feed(&bytes[..3]), [ParseResult::Partial]);
    assert_eq!(p.feed(&[]), [ParseResult::Partial]);
    assert_eq!(p.feed(&bytes[3..]), [ParseResult::Complete(msg)]);
}

#[test]
fn checksum_mismatch_reports_both_values() {
    let msg = message(1, 2, vec![3]);
    let mut bytes = msg.to_bytes();
    let last = bytes.len() - 1;
    bytes[last] = msg.checksum.wrapping_add(1);
    let mut p = StateMachineParser::new();
    assert_eq!(
        p.feed(&bytes),
        [ParseResult::Error(ParseError::ChecksumMismatch {
            expected: msg.checksum + 1,
            calculated: msg.checksum
        })]
    );
}

#[test]
fn escape_offset_counts_from_the_start_of_each_feed() {
    let mut p = StateMachineParser::new();
    assert_eq!(p.feed(&[0xFF, 0x00, 0x01, 0xFF]), [ParseResult::Partial]);
    assert_eq!(
        p.feed(&[0x07]),
        [ParseResult::Error(ParseError::InvalidEscapeSequence { offset: 0 })]
    );
}

#[test]
fn fits_reports_room_for_the_gap_count() {
    let p = StateMachineParser::new();
    assert!(p.fits(0));
    assert!(p.fits(4096));
    assert!(p.fits(usize::MAX - 1));
    assert!(!p.fits(usize::MAX), "the cursor moves one past the end of the input");
}

#[test]
fn a_thousand_messages_parse_to_a_thousand_results() {
    let mut out = Vec::new();
    for i in 0..1000usize {
        let data: Vec<u8> = vec![1; i % 64];
        let msg = Message::builder()
            .address((i % 256) as u8)
            .destination((i.wrapping_mul(3) % 256) as u8)
            .data(data)
            .build()
            .expect("message build");
        msg.write_bytes(&mut out).expect("write");
    }
    let mut p = StateMachineParser::new();
    let results = p.feed(&out);
    assert_eq!(results.len(), 1000, "expected 1000 complete messages");
    assert!(results.iter().all(|r| matches!(r, ParseResult::Complete(_))));
}

#[test]
fn interrupting_message_is_reported_then_read() {
    let m1 = message(1, 2, vec![3, 4, 5]);
    let m2 = message(6, 7, vec![0xFF]);
    let mut bytes = m1.to_bytes();
    bytes.truncate(6);
    m2.write_bytes(&mut bytes).unwrap();
    let mut p = StateMachineParser::new();
    assert_eq!(
        p.feed(&bytes),
        [
            ParseResult::Error(ParseError::UnexpectedStartSequence { offset: 6 }),
            ParseResult::Complete(m2)
        ]
    );
}
