use parser::stats::ClientStats;
use parser::{Message, ParseError, ParseResult};

#[test]
fn new_client_is_connected_with_zero_counts() {
    let s = ClientStats::default();
    assert!(s.connected);
    assert_eq!((s.messages, s.errors, s.bytes), (0, 0, 0));
}

#[test]
fn record_counts_messages_and_errors_but_not_partials() {
    let msg = Message::builder().address(1).destination(2).data(vec![]).build().unwrap();
    let results = vec![
        ParseResult::Complete(msg.clone()),
        ParseResult::Error(ParseError::Gap(2)),
        ParseResult::Complete(msg),
        ParseResult::Error(ParseError::InvalidEscapeSequence { offset: 0 }),
        ParseResult::Error(ParseError::ChecksumMismatch { expected: 1, calculated: 2 }),
        ParseResult::Partial,
    ];
    let mut s = ClientStats::default();
    assert!(s.fits(40, &results));
    s.record(40, &results);
    s.record(2, &[ParseResult::Partial]);
    assert_eq!((s.messages, s.errors, s.bytes), (2, 3, 42));
    s.disconnect();
    assert!(!s.connected);
    assert_eq!((s.messages, s.errors, s.bytes), (2, 3, 42));
}

#[test]
fn fits_refuses_counter_overflow() {
    let mut s = ClientStats::default();
    s.bytes = usize::MAX - 1;
    assert!(s.fits(1, &[]));
    assert!(!s.fits(2, &[]));
    s.errors = usize::MAX;
    assert!(!s.fits(0, &[ParseResult::Error(ParseError::Gap(1))]));
    assert!(s.fits(0, &[ParseResult::Partial]));
}
