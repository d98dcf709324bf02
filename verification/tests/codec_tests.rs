use pubsub::codec::{PubsubCodec, CodecError, build_message};
use pubsub::message::{Message, MessageHeader, MessageBuilder, MessageType};

fn publish_message(name: &str, payload: &[u8]) -> Message {
    let mut builder = MessageBuilder::new();
    builder.message_type(MessageType::Publish);
    builder.event_name(name.to_string());
    builder.payload(payload.to_vec());
    builder.build().unwrap()
}

#[test]
fn encode_then_decode_round_trip() {
    let mut codec = PubsubCodec;
    let mut buf: Vec<u8> = Vec::new();
    codec.encode(publish_message("event", b"a payload here"), &mut buf);

    let decoded = codec.decode(&mut buf).unwrap().unwrap();
    assert_eq!(decoded.header.message_type, MessageType::Publish);
    assert_eq!(decoded.header.event_name, "event".to_string());
    assert_eq!(decoded.payload, Some(b"a payload here".to_vec()));
    assert!(buf.is_empty());
}

#[test]
fn decode_incomplete_leaves_buffer() {
    let mut codec = PubsubCodec;
    let mut buf: Vec<u8> = vec![0x01, 0x05, 0x65, 0x76];
    let before = buf.clone();
    assert!(codec.decode(&mut buf).unwrap().is_none());
    assert_eq!(buf, before);
}

#[test]
fn decode_waits_for_payload_bytes() {
    let mut codec = PubsubCodec;
    // Complete Publish header, payload still missing two bytes.
    let mut buf: Vec<u8> = vec![0x03, 0x01, 0x61, 0x00, 0x03, 0x68];
    let before = buf.clone();
    assert!(codec.decode(&mut buf).unwrap().is_none());
    assert_eq!(buf, before);

    buf.push(0x69);
    buf.push(0x21);
    let decoded = codec.decode(&mut buf).unwrap().unwrap();
    assert_eq!(decoded.header.event_name, "a".to_string());
    assert_eq!(decoded.payload, Some(b"hi!".to_vec()));
    assert!(buf.is_empty());
}

#[test]
fn decode_takes_frames_one_at_a_time() {
    let mut codec = PubsubCodec;
    let mut buf: Vec<u8> = Vec::new();
    buf.extend_from_slice(&[0x01, 0x03, 0x61, 0x61, 0x61]);
    buf.extend_from_slice(&[0x02, 0x03, 0x61, 0x61, 0x61]);

    let first = codec.decode(&mut buf).unwrap().unwrap();
    assert_eq!(first.header.message_type, MessageType::Subscribe);
    assert_eq!(first.header.event_name, "aaa".to_string());
    assert_eq!(first.payload, None);

    let second = codec.decode(&mut buf).unwrap().unwrap();
    assert_eq!(second.header.message_type, MessageType::Unsubscribe);
    assert_eq!(second.header.event_name, "aaa".to_string());

    assert!(buf.is_empty());
    assert!(codec.decode(&mut buf).unwrap().is_none());
}

#[test]
fn decode_rejects_malformed_frame() {
    let mut codec = PubsubCodec;
    let mut buf: Vec<u8> = vec![0x07, 0x00];
    assert_eq!(codec.decode(&mut buf), Err(CodecError::InvalidMessage));
}

#[test]
fn build_message_checks_bounds() {
    let header = MessageHeader {
        message_type: MessageType::Publish,
        event_name: "event".to_string(),
    };
    assert!(build_message(header, Some(b"ok".to_vec())).is_ok());

    let header = MessageHeader {
        message_type: MessageType::Publish,
        event_name: "event".to_string(),
    };
    assert_eq!(
        build_message(header, Some(vec![0u8; 65536])),
        Err(CodecError::InvalidMessage)
    );

    let header = MessageHeader {
        message_type: MessageType::Subscribe,
        event_name: "event".to_string(),
    };
    assert_eq!(
        build_message(header, Some(b"x".to_vec())),
        Err(CodecError::InvalidMessage)
    );

    let header = MessageHeader {
        message_type: MessageType::Subscribe,
        event_name: "event".to_string(),
    };
    assert!(build_message(header, None).is_ok());
}
