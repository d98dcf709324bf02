use pubsub::message::{Message, MessageHeader, MessageBuilder, MessageBuildError, MessageType};

#[test]
fn it_works() {
}

#[test]
fn test_into_bytes() {
    let message = Message {
        header: MessageHeader {
            message_type: MessageType::Publish,
            event_name: "event".to_string(),
        },
        payload: Some("a payload here".to_string().into_bytes()),
    };

    let expected_bytes = vec![
        0x03, // Type
        0x05, // Name length
        0x65, 0x76, 0x65, 0x6e, 0x74, // Name
        0x00, 0x0E, // Payload length
        0x61, 0x20, 0x70, 0x61, 0x79, // Payload
        0x6c, 0x6f, 0x61, 0x64, 0x20, 0x68, 0x65, 0x72, 0x65,
    ];
    assert_eq!(message.into_bytes(), expected_bytes);
}

#[test]
fn test_validate_builder_no_fields() {
    let builder = MessageBuilder::new();
    assert_eq!(
        builder.build(),
        Err(MessageBuildError::MissingField("message type, event name".to_string()))
    );
}

#[test]
fn test_validate_builder_no_message_type() {
    let mut builder = MessageBuilder::new();
    builder.event_name("event".to_string());
    assert_eq!(
        builder.build(),
        Err(MessageBuildError::MissingField("message type".to_string()))
    );
}

#[test]
fn test_validate_builder_no_event_name() {
    let mut builder = MessageBuilder::new();
    builder.message_type(MessageType::Subscribe);
    assert_eq!(
        builder.build(),
        Err(MessageBuildError::MissingField("event name".to_string()))
    );
}

#[test]
fn test_validate_builder_event_name_length() {
    let mut builder = MessageBuilder::new();
    let string_bytes = vec![97; 256];
    let event_name = String::from_utf8(string_bytes).unwrap();
    builder.message_type(MessageType::Subscribe);
    builder.event_name(event_name);
    assert_eq!(
        builder.build(),
        Err(MessageBuildError::TooLargeField("event name".to_string()))
    );
}

#[test]
fn test_validate_builder_payload_length() {
    let mut builder = MessageBuilder::new();
    let payload = vec![0xAB; 65536];
    builder.message_type(MessageType::Publish);
    builder.event_name("event".to_string());
    builder.payload(payload);
    assert_eq!(
        builder.build(),
        Err(MessageBuildError::TooLargeField("payload".to_string()))
    );
}

#[test]
fn test_validate_builder_has_payload() {
    for message_type in vec![MessageType::Subscribe, MessageType::Unsubscribe] {
        let mut builder = MessageBuilder::new();
        builder.message_type(message_type);
        builder.event_name("event".to_string());
        builder.payload("a payload".to_string().into_bytes());
        assert_eq!(
            builder.build(),
            Err(MessageBuildError::InvalidField("payload".to_string()))
        );
    }
    for message_type in vec![MessageType::Publish, MessageType::Event] {
        let mut builder = MessageBuilder::new();
        builder.message_type(message_type);
        builder.event_name("event".to_string());
        builder.payload("a payload".to_string().into_bytes());
        assert!(builder.build().is_ok());
    }
}

#[test]
fn empty_event_name_accepted() {
    let mut builder = MessageBuilder::new();
    builder.message_type(MessageType::Subscribe);
    builder.event_name(String::new());
    let message = builder.build().unwrap();
    assert_eq!(message.into_bytes(), vec![0x01, 0x00]);
}

#[test]
fn longest_event_name_accepted() {
    let mut builder = MessageBuilder::new();
    builder.message_type(MessageType::Subscribe);
    builder.event_name(String::from_utf8(vec![97; 255]).unwrap());
    let message = builder.build().unwrap();
    let bytes = message.into_bytes();
    assert_eq!(bytes.len(), 257);
    assert_eq!(bytes[1], 255);
}

#[test]
fn event_name_length_counts_bytes_not_chars() {
    // 128 two-byte characters: 128 chars but 256 bytes, over the limit.
    let name: String = std::iter::repeat('\u{00e9}').take(128).collect();
    let mut builder = MessageBuilder::new();
    builder.message_type(MessageType::Subscribe);
    builder.event_name(name);
    assert_eq!(
        builder.build(),
        Err(MessageBuildError::TooLargeField("event name".to_string()))
    );
}

#[test]
fn empty_payload_accepted() {
    let mut builder = MessageBuilder::new();
    builder.message_type(MessageType::Publish);
    builder.event_name("t".to_string());
    builder.payload(Vec::new());
    let message = builder.build().unwrap();
    assert_eq!(message.into_bytes(), vec![0x03, 0x01, 0x74, 0x00, 0x00]);
}

#[test]
fn largest_payload_accepted() {
    let mut builder = MessageBuilder::new();
    builder.message_type(MessageType::Publish);
    builder.event_name("t".to_string());
    builder.payload(vec![0x5A; 65535]);
    let message = builder.build().unwrap();
    let bytes = message.into_bytes();
    assert_eq!(bytes.len(), 3 + 2 + 65535);
    assert_eq!(bytes[3], 0xFF);
    assert_eq!(bytes[4], 0xFF);
}

#[test]
fn expects_payload_by_type() {
    assert!(!MessageType::Subscribe.expects_payload());
    assert!(!MessageType::Unsubscribe.expects_payload());
    assert!(MessageType::Publish.expects_payload());
    assert!(MessageType::Event.expects_payload());
}

#[test]
fn build_header_ignores_payload_rule() {
    let mut builder = MessageBuilder::new();
    builder.message_type(MessageType::Publish);
    builder.event_name("event".to_string());
    let header = builder.build_header().unwrap();
    assert_eq!(header.message_type, MessageType::Publish);
    assert_eq!(header.event_name, "event".to_string());
}
