use parser::{Message, ParseError, ParseResult, Parser, StateMachineParser, ESCAPE, START_SEQUENCE};

#[test]
fn empty_input_returns_empty_results() {
    let mut p = StateMachineParser::new();
    let results = p.feed(&[]);
    assert!(results.is_empty(), "empty input should yield no results");
}

#[test]
fn single_correct_message_returns_single_complete() {
    let msg = Message::builder()
        .address(1)
        .destination(2)
        .data(vec![10u8, 20, 30])
        .build()
        .unwrap();
    let bytes = msg.to_bytes();

    let mut p = StateMachineParser::new();
    let results = p.feed(&bytes);
    assert_eq!(results, [ParseResult::Complete(msg)]);
}

#[test]
fn multiple_correct_messages_return_same_messages_as_complete() {
    let m1 = Message::builder()
        .address(1)
        .destination(2)
        .data(vec![1u8, 2])
        .build()
        .unwrap();
    let m2 = Message::builder()
        .address(3)
        .destination(4)
        .data(vec![5u8, 6, 7])
        .build()
        .unwrap();

    let mut bytes = Vec::new();
    m1.write_bytes(&mut bytes).unwrap();
    m2.write_bytes(&mut bytes).unwrap();

    let mut p = StateMachineParser::new();
    let results = p.feed(&bytes);
    assert_eq!(
        results,
        [ParseResult::Complete(m1), ParseResult::Complete(m2)]
    );
}

#[test]
fn message_with_escaped_value_parses_correctly() {
    let msg = Message::builder()
        .address(ESCAPE)
        .destination(0)
        .data(vec![ESCAPE])
        .build()
        .unwrap();
    let bytes = msg.to_bytes();

    let mut p = StateMachineParser::new();
    let results = p.feed(&bytes);
    assert_eq!(results, [ParseResult::Complete(msg)]);
}

#[test]
fn partial_at_address_then_complete() {
    let msg = Message::builder()
        .address(1)
        .destination(2)
        .data(vec![])
        .build()
        .unwrap();
    let bytes = msg.to_bytes();
    let (first, second) = bytes.split_at(2);

    let mut p = StateMachineParser::new();
    let r1 = p.feed(first);
    let r2 = p.feed(second);

    assert_eq!(r1, [ParseResult::Partial]);
    assert_eq!(r2, [ParseResult::Complete(msg)]);
}

#[test]
fn partial_at_destination_then_complete() {
    let msg = Message::builder()
        .address(1)
        .destination(2)
        .data(vec![])
        .build()
        .unwrap();
    let bytes = msg.to_bytes();
    let (first, second) = bytes.split_at(3);

    let mut p = StateMachineParser::new();
    let r1 = p.feed(first);
    let r2 = p.feed(second);

    assert_eq!(r1, [ParseResult::Partial]);
    assert_eq!(r2, [ParseResult::Complete(msg)]);
}

#[test]
fn partial_at_data_length_then_complete() {
    let msg = Message::builder()
        .address(1)
        .destination(2)
        .data(vec![3u8])
        .build()
        .unwrap();
    let bytes = msg.to_bytes();
    let (first, second) = bytes.split_at(4);

    let mut p = StateMachineParser::new();
    let r1 = p.feed(first);
    let r2 = p.feed(second);

    assert_eq!(r1, [ParseResult::Partial]);
    assert_eq!(r2, [ParseResult::Complete(msg)]);
}

#[test]
fn partial_at_data_then_complete() {
    let msg = Message::builder()
        .address(1)
        .destination(2)
        .data(vec![10u8, 20])
        .build()
        .unwrap();
    let bytes = msg.to_bytes();
    let (first, second) = bytes.split_at(5);

    let mut p = StateMachineParser::new();
    let r1 = p.feed(first);
    let r2 = p.feed(second);

    assert_eq!(r1, [ParseResult::Partial]);
    assert_eq!(r2, [ParseResult::Complete(msg)]);
}

#[test]
fn partial_at_checksum_then_complete() {
    let msg = Message::builder()
        .address(1)
        .destination(2)
        .data(vec![7u8])
        .build()
        .unwrap();
    let bytes = msg.to_bytes();
    let split = bytes.len() - 1;
    let (first, second) = bytes.split_at(split);

    let mut p = StateMachineParser::new();
    let r1 = p.feed(first);
    let r2 = p.feed(second);

    assert_eq!(r1, [ParseResult::Partial]);
    assert_eq!(r2, [ParseResult::Complete(msg)]);
}

#[test]
fn invalid_escape_at_address() {
    let mut bytes = START_SEQUENCE.to_vec();
    bytes.extend_from_slice(&[ESCAPE, 0x01]);

    let mut p = StateMachineParser::new();
    let results = p.feed(&bytes);

    assert_eq!(
        results,
        [ParseResult::Error(ParseError::InvalidEscapeSequence {
            offset: 2
        })]
    );
}

#[test]
fn invalid_escape_at_destination() {
    let mut bytes = START_SEQUENCE.to_vec();
    bytes.extend_from_slice(&[0x01, ESCAPE, 0x01]);

    let mut p = StateMachineParser::new();
    let results = p.feed(&bytes);

    assert_eq!(
        results,
        [ParseResult::Error(ParseError::InvalidEscapeSequence {
            offset: 3
        })]
    );
}

#[test]
fn invalid_escape_at_data_length() {
    let mut bytes = START_SEQUENCE.to_vec();
    bytes.extend_from_slice(&[0x01, 0x02, ESCAPE, 0x01]);

    let mut p = StateMachineParser::new();
    let results = p.feed(&bytes);

    assert_eq!(
        results,
        [ParseResult::Error(ParseError::InvalidEscapeSequence {
            offset: 4
        })]
    );
}

#[test]
fn invalid_escape_in_data() {
    let mut bytes = START_SEQUENCE.to_vec();
    bytes.extend_from_slice(&[0x01, 0x02, 0x03, ESCAPE, 0x01]);

    let mut p = StateMachineParser::new();
    let results = p.feed(&bytes);

    assert_eq!(
        results,
        [ParseResult::Error(ParseError::InvalidEscapeSequence {
            offset: 5
        })]
    );
}

#[test]
fn invalid_escape_at_checksum() {
    let msg = Message::builder()
        .address(1)
        .destination(2)
        .data(vec![3u8, 4])
        .build()
        .unwrap();
    let mut bytes = msg.to_bytes();
    if let Some(last) = bytes.last_mut() {
        *last = ESCAPE;
    }
    bytes.push(0x01);

    let mut p = StateMachineParser::new();
    let results = p.feed(&bytes);

    assert_eq!(
        results,
        [ParseResult::Error(ParseError::InvalidEscapeSequence {
            offset: 7
        })]
    );
}

#[test]
fn unexpected_start_at_address() {
    let mut bytes = START_SEQUENCE.to_vec();
    bytes.extend_from_slice(&START_SEQUENCE);

    let mut p = StateMachineParser::new();
    let results = p.feed(&bytes);

    assert_eq!(
        results,
        [
            ParseResult::Error(ParseError::UnexpectedStartSequence { offset: 2 }),
            ParseResult::Partial
        ]
    );
}

#[test]
fn unexpected_start_at_destination() {
    let mut bytes = START_SEQUENCE.to_vec();
    bytes.push(0x01);
    bytes.extend_from_slice(&START_SEQUENCE);

    let mut p = StateMachineParser::new();
    let results = p.feed(&bytes);

    assert_eq!(
        results,
        [
            ParseResult::Error(ParseError::UnexpectedStartSequence { offset: 3 }),
            ParseResult::Partial
        ]
    );
}

#[test]
fn unexpected_start_at_data_length() {
    let mut bytes = START_SEQUENCE.to_vec();
    bytes.extend_from_slice(&[0x01, 0x02]);
    bytes.extend_from_slice(&START_SEQUENCE);

    let mut p = StateMachineParser::new();
    let results = p.feed(&bytes);

    assert_eq!(
        results,
        [
            ParseResult::Error(ParseError::UnexpectedStartSequence { offset: 4 }),
            ParseResult::Partial
        ]
    );
}

#[test]
fn unexpected_start_in_data() {
    let mut bytes = START_SEQUENCE.to_vec();
    bytes.extend_from_slice(&[0x01, 0x02, 0x03]);
    bytes.extend_from_slice(&START_SEQUENCE);

    let mut p = StateMachineParser::new();
    let results = p.feed(&bytes);

    assert_eq!(
        results,
        [
            ParseResult::Error(ParseError::UnexpectedStartSequence { offset: 5 }),
            ParseResult::Partial
        ]
    );
}

#[test]
fn unexpected_start_at_checksum() {
    let msg = Message::builder()
        .address(1)
        .destination(2)
        .data(vec![3u8, 4])
        .build()
        .unwrap();
    let mut bytes = msg.to_bytes();
    bytes.truncate(bytes.len() - 3);
    bytes.extend_from_slice(&START_SEQUENCE);

    let mut p = StateMachineParser::new();
    let results = p.feed(&bytes);

    assert_eq!(
        results,
        [
            ParseResult::Error(ParseError::UnexpectedStartSequence { offset: 5 }),
            ParseResult::Partial
        ]
    );
}

#[test]
fn input_ends_on_first_ff_of_escape_then_resume() {
    let msg = Message::builder()
        .address(ESCAPE)
        .destination(0)
        .data(vec![])
        .build()
        .unwrap();
    let bytes = msg.to_bytes();

    let (first, second) = bytes.split_at(3);
    assert_eq!(first, &[ESCAPE, 0x00, ESCAPE]);

    let mut p = StateMachineParser::new();
    let r1 = p.feed(first);
    let r2 = p.feed(second);

    assert_eq!(r1, [ParseResult::Partial]);
    assert_eq!(r2, [ParseResult::Complete(msg)]);
}

#[test]
fn gap_between_two_messages() {
    let m1 = Message::builder()
        .address(1)
        .destination(2)
        .data(vec![])
        .build()
        .unwrap();
    let m2 = Message::builder()
        .address(3)
        .destination(4)
        .data(vec![])
        .build()
        .unwrap();
    let mut bytes = Vec::new();
    m1.write_bytes(&mut bytes).unwrap();
    bytes.extend_from_slice(&[0xAB, 0xCD]);
    m2.write_bytes(&mut bytes).unwrap();

    let mut p = StateMachineParser::new();
    let results = p.feed(&bytes);

    assert_eq!(
        results,
        [
            ParseResult::Complete(m1),
            ParseResult::Error(ParseError::Gap(2)),
            ParseResult::Complete(m2)
        ]
    );
}

#[test]
fn initial_gap_before_first_message() {
    let msg = Message::builder()
        .address(1)
        .destination(2)
        .data(vec![])
        .build()
        .unwrap();
    let mut bytes = vec![0x11, 0x22];
    msg.write_bytes(&mut bytes).unwrap();

    let mut p = StateMachineParser::new();
    let results = p.feed(&bytes);

    assert_eq!(
        results,
        [
            ParseResult::Error(ParseError::Gap(2)),
            ParseResult::Complete(msg)
        ]
    );
}
