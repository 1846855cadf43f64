use parser::{compute_checksum, Message, MessageBuilderError, ESCAPE, START_SEQUENCE};

#[test]
fn error_when_data_length_too_long() {
    let data = vec![0; u8::MAX as usize + 1];
    let msg = Message::builder()
        .address(1)
        .destination(2)
        .data(data)
        .build();
    assert!(
        matches!(msg, Err(MessageBuilderError::ValidationError(_))),
        "should return a validation error"
    );
}

#[test]
fn error_when_address_is_not_set() {
    let msg = Message::builder().destination(2).data(vec![1, 2, 3]).build();
    assert!(
        matches!(msg, Err(MessageBuilderError::UninitializedField("address"))),
        "should return an uninitialized field error for address"
    );
}

#[test]
fn error_when_destination_is_not_set() {
    let msg = Message::builder().address(1).data(vec![1, 2, 3]).build();
    assert!(
        matches!(
            msg,
            Err(MessageBuilderError::UninitializedField("destination"))
        ),
        "should return an uninitialized field error for destination"
    );
}

#[test]
fn error_when_data_is_not_set() {
    let msg = Message::builder().address(1).destination(2).build();
    assert!(
        matches!(msg, Err(MessageBuilderError::UninitializedField("data"))),
        "should return an uninitialized field error for data"
    );
}

#[test]
fn roundtrip_simple() {
    let data = [10, 20, 30];
    let msg = Message::builder()
        .address(1)
        .destination(2)
        .data(data.to_vec())
        .build()
        .unwrap();
    let sum = compute_checksum(msg.address, msg.destination, msg.data_length, &msg.data);
    let bytes = msg.to_bytes();
    assert_eq!(bytes[0..2], START_SEQUENCE);
    assert_eq!(bytes[2], 1);
    assert_eq!(bytes[3], 2);
    assert_eq!(bytes[4], data.len() as u8);
    assert_eq!(bytes[5..8], [10, 20, 30]);
    assert_eq!(bytes[8], sum);
}

#[test]
fn escape_ff() {
    let msg = Message::builder()
        .address(ESCAPE)
        .destination(0)
        .data(vec![ESCAPE])
        .build()
        .unwrap();
    let sum = compute_checksum(msg.address, msg.destination, msg.data_length, &msg.data);
    let bytes = msg.to_bytes();
    assert_eq!(bytes[0..2], START_SEQUENCE);
    assert_eq!(bytes[2..4], [ESCAPE, ESCAPE], "address should be escaped");
    assert_eq!(bytes[4], 0);
    assert_eq!(bytes[5], 1);
    assert_eq!(bytes[6..8], [ESCAPE, ESCAPE], "data should be escaped");
    assert_eq!(
        sum, ESCAPE,
        "checksum should be equal to 0xFF and need to be escaped"
    );
    assert_eq!(bytes[8..10], [ESCAPE, ESCAPE], "checksum should be escaped");
}
