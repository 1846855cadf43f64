use parser::generator::{
    corrupt_checksum, gap_frame, injection_from, invalid_escape_frame, next_frame, pause_remaining, random_bytes,
    random_message, Injection, Pacer,
};
use parser::{compute_checksum, Message, ParseError, ParseResult, Parser, StateMachineParser};

fn message(address: u8, destination: u8, data: Vec<u8>) -> Message {
    Message::builder().address(address).destination(destination).data(data).build().unwrap()
}

#[test]
fn random_messages_are_well_formed_and_vary_in_length() {
    let mut rng = rand::rng();
    let mut lengths = std::collections::BTreeSet::new();
    for _ in 0..200 {
        let m = random_message(&mut rng);
        assert_eq!(m.data_length as usize, m.data.len());
        assert_eq!(m.checksum, compute_checksum(m.address, m.destination, m.data_length, &m.data));
        lengths.insert(m.data.len());
    }
    assert!(lengths.len() > 1, "data lengths should vary");
}

#[test]
fn random_bytes_has_the_requested_length() {
    let mut rng = rand::rng();
    assert_eq!(random_bytes(&mut rng, 0).len(), 0);
    assert_eq!(random_bytes(&mut rng, 17).len(), 17);
}

#[test]
fn corrupted_checksum_is_reported_as_mismatch() {
    let m = message(1, 2, vec![3]);
    let bytes = corrupt_checksum(&m);
    let good = m.to_bytes();
    assert_eq!(bytes[..bytes.len() - 1], good[..good.len() - 1]);
    assert_eq!(bytes[bytes.len() - 1], good[good.len() - 1] + 1);
    let mut p = StateMachineParser::new();
    assert_eq!(
        p.feed(&bytes),
        [ParseResult::Error(ParseError::ChecksumMismatch { expected: 8, calculated: 7 })]
    );
}

#[test]
fn corrupted_checksum_0xfe_leaves_the_message_partial() {
    // 0xF0 + 0x0C + one length byte + one data byte = 0xFE
    let m = message(0xF0, 0x0C, vec![0x01]);
    assert_eq!(m.checksum, 0xFE);
    let mut p = StateMachineParser::new();
    assert_eq!(p.feed(&corrupt_checksum(&m)), [ParseResult::Partial]);
}

#[test]
fn corrupted_checksum_0xff_becomes_a_start_sequence() {
    let m = message(0xF0, 0x0D, vec![0x01]);
    assert_eq!(m.checksum, 0xFF);
    let bytes = corrupt_checksum(&m);
    assert_eq!(bytes[bytes.len() - 2..], [0xFF, 0x00]);
    let mut p = StateMachineParser::new();
    assert_eq!(
        p.feed(&bytes),
        [
            ParseResult::Error(ParseError::UnexpectedStartSequence { offset: bytes.len() - 2 }),
            ParseResult::Partial
        ]
    );
}

#[test]
fn invalid_escape_frame_is_reported_at_offset_two() {
    let bytes = invalid_escape_frame(&[]);
    assert_eq!(bytes, [0xFF, 0x00, 0xFF, 0x01]);
    let mut p = StateMachineParser::new();
    assert_eq!(
        p.feed(&bytes),
        [ParseResult::Error(ParseError::InvalidEscapeSequence { offset: 2 })]
    );
    assert_eq!(invalid_escape_frame(&[9, 8]), [0xFF, 0x00, 0xFF, 0x01, 9, 8]);
}

#[test]
fn gap_frame_puts_the_gap_before_the_message() {
    let m = message(4, 5, vec![6]);
    let bytes = gap_frame(vec![0x10, 0x20], &m);
    let mut expected = vec![0x10, 0x20];
    expected.extend_from_slice(&m.to_bytes());
    assert_eq!(bytes, expected);
    let mut p = StateMachineParser::new();
    assert_eq!(
        p.feed(&bytes),
        [ParseResult::Error(ParseError::Gap(2)), ParseResult::Complete(m)]
    );
}

#[test]
fn frames_without_injection_parse_to_one_message() {
    let mut rng = rand::rng();
    for _ in 0..50 {
        let bytes = next_frame(&mut rng, None);
        let mut p = StateMachineParser::new();
        let results = p.feed(&bytes);
        assert_eq!(results.len(), 1);
        assert!(matches!(results[0], ParseResult::Complete(_)));
    }
}

#[test]
fn injected_frames_have_the_drawn_shape() {
    let mut rng = rand::rng();
    for _ in 0..50 {
        let bytes = next_frame(&mut rng, Some(Injection::InvalidEscape));
        assert!(bytes.len() >= 4 && bytes.len() <= 7);
        assert_eq!(bytes[..4], [0xFF, 0x00, 0xFF, 0x01]);

        let bytes = next_frame(&mut rng, Some(Injection::Checksum));
        assert_eq!(bytes[..2], [0xFF, 0x00]);
        let mut p = StateMachineParser::new();
        assert!(!p.feed(&bytes).iter().any(|r| matches!(r, ParseResult::Complete(_))));

        let bytes = next_frame(&mut rng, Some(Injection::Gap));
        assert!((1..=5).any(|g| bytes.len() > g + 1 && bytes[g..g + 2] == [0xFF, 0x00]));
    }
}

#[test]
fn pause_lasts_what_is_left_of_the_interval() {
    assert_eq!(pause_remaining(100, 30), 70);
    assert_eq!(pause_remaining(100, 100), 0);
    assert_eq!(pause_remaining(100, 250), 0);
}

#[test]
fn pacer_pauses_after_a_tenth_of_the_rate() {
    let mut pacer = Pacer::new(1000);
    assert_eq!(pacer.per_pause(), 100);
    assert!(!pacer.pause_due());
    for _ in 0..99 {
        pacer.record_sent();
    }
    assert!(!pacer.pause_due());
    pacer.record_sent();
    assert!(pacer.pause_due());
    pacer.restart();
    assert!(!pacer.pause_due());
    let slow = Pacer::new(5);
    assert_eq!(slow.per_pause(), 0);
    assert!(slow.pause_due());
}

#[test]
fn injection_kind_follows_the_draw() {
    assert_eq!(injection_from(0), Injection::Checksum);
    assert_eq!(injection_from(1), Injection::InvalidEscape);
    assert_eq!(injection_from(2), Injection::Gap);
}
