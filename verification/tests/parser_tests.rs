use std::borrow::Borrow;
use pubsub::parser::{parse, read_u8, read_u16, match_message_type, ParseResult, ParserError};
use pubsub::message::MessageType;

#[test]
fn test_read_u8() {
    let buf = vec![0, 1, 2];
    let mut slice = buf.borrow();
    let mut counter = 0;
    for _ in 0..buf.len() {
        let res = read_u8(slice);
        assert!(res.is_some());
        let (byte, remainder) = res.unwrap();
        assert_eq!(byte, counter);
        slice = remainder;
        counter += 1;
    }

    assert!(slice.is_empty());
    let res = read_u8(slice);
    assert!(res.is_none());
}

#[test]
fn test_read_u16() {
    let buf = vec![0xBE, 0xEF, 0xFE, 0xED];
    let mut slice = buf.borrow();
    let expected = [48879, 65261];

    for i in 0..2 {
        let res = read_u16(slice);
        assert!(res.is_some());
        let (value, remainder) = res.unwrap();
        assert_eq!(value, expected[i]);
        slice = remainder;
    }
    assert!(slice.is_empty());
    let res = read_u16(slice);
    assert!(res.is_none());
}

#[test]
fn test_read_u16_incomplete() {
    let buf = [0xAB];
    let res = read_u16(&buf);
    assert!(res.is_none());
}

#[test]
fn test_match_message_type() {
    let expected_pairs = vec![
        (1, MessageType::Subscribe),
        (2, MessageType::Unsubscribe),
        (3, MessageType::Publish),
        (4, MessageType::Event),
    ];
    for (val, message_type) in expected_pairs {
        assert_eq!(match_message_type(val), Ok(message_type));
    }
    assert_eq!(match_message_type(5), Err(ParserError::InvalidValue));
}

fn test_parse_message_without_payload(
    bytes: &[u8],
    expected_type: MessageType,
    expected_event_name: String,
    expected_consumed: usize,
) {
    let res = parse(&bytes);
    if let ParseResult::Completed(message_header, consumed, payload_len) = res {
        assert_eq!(consumed, expected_consumed);
        assert_eq!(payload_len, 0);
        assert_eq!(message_header.event_name, expected_event_name);
        assert_eq!(message_header.message_type, expected_type);
    } else {
        assert!(false, "Result wasn't Completed");
    }
}

#[test]
fn test_parse_incomplete_message() {
    let message_bytes = vec![
        0x01, // Type (Subscribe)
        0x05, // Name length
        0x65, 0x76, 0x65, 0x6e, // Name (even; missing one byte)
    ];
    let res = parse(&message_bytes);
    assert_eq!(res, ParseResult::Incomplete);
}

#[test]
fn test_parse_complete_message_without_payload() {
    let message_bytes = vec![
        0x01, // Type (Subscribe)
        0x05, // Name length
        0x65, 0x76, 0x65, 0x6e, 0x74, // Name (event)
    ];
    test_parse_message_without_payload(
        &message_bytes,
        MessageType::Subscribe,
        "event".to_string(),
        7,
    );
}

#[test]
fn test_parse_complete_message_without_payload_with_overflow() {
    let message_bytes = vec![
        0x01, // Type (Subscribe)
        0x05, // Name length
        0x65, 0x76, 0x65, 0x6e, 0x74, // Name (event)
        0x10, 0x20, // Extra bytes
    ];
    test_parse_message_without_payload(
        &message_bytes,
        MessageType::Subscribe,
        "event".to_string(),
        7,
    );
}

fn test_parse_message_with_payload(
    bytes: &[u8],
    expected_type: MessageType,
    expected_event_name: String,
    expected_payload: &[u8],
    expected_consumed: usize,
) {
    let res = parse(bytes);
    if let ParseResult::Completed(message_header, consumed, payload_len) = res {
        assert_eq!(consumed, expected_consumed);
        assert_eq!(payload_len as usize, expected_payload.len());

        let payload_bytes = &bytes[consumed..consumed + payload_len as usize];
        assert_eq!(payload_bytes, expected_payload);

        assert_eq!(message_header.message_type, expected_type);
        assert_eq!(message_header.event_name, expected_event_name);
    } else {
        assert!(false, "Result wasn't Completed");
    }
}

#[test]
fn test_parse_complete_message_with_payload() {
    let message_bytes = vec![
        0x03, // Type (Publish)
        0x05, // Name length
        0x65, 0x76, 0x65, 0x6e, 0x74, // Name (event)
        0x00, 0x0E, // Payload length
        0x61, 0x20, 0x70, 0x61, 0x79, // Payload (a payload here)
        0x6c, 0x6f, 0x61, 0x64, 0x20, 0x68, 0x65, 0x72, 0x65,
    ];
    let expected_payload: Vec<u8> = vec![
        0x61, 0x20, 0x70, 0x61, 0x79, 0x6c, 0x6f, 0x61, 0x64, 0x20, 0x68, 0x65, 0x72, 0x65,
    ];
    test_parse_message_with_payload(
        &message_bytes,
        MessageType::Publish,
        "event".to_string(),
        &expected_payload,
        9,
    );
}

#[test]
fn test_parse_complete_message_with_payload_with_overflow() {
    let message_bytes = vec![
        0x03, // Type (Publish)
        0x05, // Name length
        0x65, 0x76, 0x65, 0x6e, 0x74, // Name (event)
        0x00, 0x0E, // Payload length
        0x61, 0x20, 0x70, 0x61, 0x79, // Payload (a payload here)
        0x6c, 0x6f, 0x61, 0x64, 0x20, 0x68, 0x65, 0x72, 0x65, 0x01, 0xAA, 0xBB, // Extra bytes
    ];
    let expected_payload: Vec<u8> = vec![
        0x61, 0x20, 0x70, 0x61, 0x79, 0x6c, 0x6f, 0x61, 0x64, 0x20, 0x68, 0x65, 0x72, 0x65,
    ];

    test_parse_message_with_payload(
        &message_bytes,
        MessageType::Publish,
        "event".to_string(),
        &expected_payload,
        9,
    );
}

#[test]
fn parse_rejects_invalid_type_byte() {
    let message_bytes = vec![0x05, 0x01, 0x61];
    assert_eq!(parse(&message_bytes), ParseResult::Error);
    let message_bytes = vec![0x00];
    assert_eq!(parse(&message_bytes), ParseResult::Error);
}

#[test]
fn parse_rejects_non_utf8_event_name() {
    // 0xFF 0xFE is not valid UTF-8.
    let message_bytes = vec![0x01, 0x02, 0xFF, 0xFE];
    assert_eq!(parse(&message_bytes), ParseResult::Error);
}

#[test]
fn parse_accepts_multibyte_utf8_event_name() {
    // "é" is 0xC3 0xA9 on the wire: two bytes, one character.
    let message_bytes = vec![0x01, 0x02, 0xC3, 0xA9];
    if let ParseResult::Completed(header, consumed, payload_len) = parse(&message_bytes) {
        assert_eq!(header.event_name, "\u{00e9}".to_string());
        assert_eq!(consumed, 4);
        assert_eq!(payload_len, 0);
    } else {
        assert!(false, "Result wasn't Completed");
    }
}

#[test]
fn parse_empty_input_incomplete() {
    let message_bytes: Vec<u8> = Vec::new();
    assert_eq!(parse(&message_bytes), ParseResult::Incomplete);
}

#[test]
fn parse_header_does_not_wait_for_payload() {
    // A Publish header announcing 4 payload bytes that are not there
    // yet still completes; the caller buffers the payload itself.
    let message_bytes = vec![0x03, 0x01, 0x61, 0x00, 0x04];
    if let ParseResult::Completed(header, consumed, payload_len) = parse(&message_bytes) {
        assert_eq!(header.message_type, MessageType::Publish);
        assert_eq!(consumed, 5);
        assert_eq!(payload_len, 4);
    } else {
        assert!(false, "Result wasn't Completed");
    }
}

#[test]
fn parse_every_prefix_of_a_frame_is_incomplete() {
    let whole = vec![0x03, 0x05, 0x65, 0x76, 0x65, 0x6e, 0x74, 0x00, 0x0E];
    for cut in 0..whole.len() {
        assert_eq!(parse(&whole[..cut]), ParseResult::Incomplete);
    }
}
