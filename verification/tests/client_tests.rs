use pubsub::client::{PubsubClient, ClientAction};

fn drain_actions(client: &mut PubsubClient, data: &[u8]) -> Vec<ClientAction> {
    let mut out = Vec::new();
    let mut action = client.read(data);
    loop {
        match action {
            ClientAction::Nothing => break,
            ClientAction::Error => {
                out.push(ClientAction::Error);
                break;
            }
            other => {
                out.push(other);
                action = client.handle_read(0);
            }
        }
    }
    out
}

#[test]
fn multi_frame_batch_yields_all_actions() {
    // Subscribe("aaa") and Unsubscribe("aaa") concatenated in one read.
    let mut client = PubsubClient::new(1);
    let bytes = vec![0x01, 0x03, 0x61, 0x61, 0x61, 0x02, 0x03, 0x61, 0x61, 0x61];
    let actions = drain_actions(&mut client, &bytes);
    assert_eq!(actions.len(), 2);
    match &actions[0] {
        ClientAction::Subscribe(name) => assert_eq!(name, "aaa"),
        _ => panic!("first action is not a subscribe"),
    }
    match &actions[1] {
        ClientAction::Unsubscribe(name) => assert_eq!(name, "aaa"),
        _ => panic!("second action is not an unsubscribe"),
    }
}

#[test]
fn split_read_decodes_at_every_boundary() {
    let bytes = vec![
        0x03, 0x05, 0x65, 0x76, 0x65, 0x6e, 0x74, 0x00, 0x0E, 0x61, 0x20, 0x70, 0x61, 0x79,
        0x6c, 0x6f, 0x61, 0x64, 0x20, 0x68, 0x65, 0x72, 0x65,
    ];
    for cut in 1..bytes.len() {
        let mut client = PubsubClient::new(1);
        let mut actions = drain_actions(&mut client, &bytes[..cut]);
        assert!(actions.is_empty(), "no action may complete at cut {}", cut);
        actions = drain_actions(&mut client, &bytes[cut..]);
        assert_eq!(actions.len(), 1, "exactly one action at cut {}", cut);
        match &actions[0] {
            ClientAction::Publish(name, payload) => {
                assert_eq!(name, "event");
                assert_eq!(payload, b"a payload here");
            }
            _ => panic!("action is not a publish at cut {}", cut),
        }
    }
}

#[test]
fn split_read_across_three_reads() {
    let bytes = vec![
        0x03, 0x05, 0x65, 0x76, 0x65, 0x6e, 0x74, 0x00, 0x0E, 0x61, 0x20, 0x70, 0x61, 0x79,
        0x6c, 0x6f, 0x61, 0x64, 0x20, 0x68, 0x65, 0x72, 0x65,
    ];
    let mut client = PubsubClient::new(1);
    assert!(drain_actions(&mut client, &bytes[..3]).is_empty());
    assert!(drain_actions(&mut client, &bytes[3..11]).is_empty());
    let actions = drain_actions(&mut client, &bytes[11..]);
    assert_eq!(actions.len(), 1);
    match &actions[0] {
        ClientAction::Publish(name, payload) => {
            assert_eq!(name, "event");
            assert_eq!(payload, b"a payload here");
        }
        _ => panic!("action is not a publish"),
    }
}

#[test]
fn event_frame_from_client_is_an_error() {
    let mut client = PubsubClient::new(1);
    let bytes = vec![0x04, 0x01, 0x61, 0x00, 0x00];
    let actions = drain_actions(&mut client, &bytes);
    assert_eq!(actions.len(), 1);
    assert!(matches!(actions[0], ClientAction::Error));
}

#[test]
fn malformed_type_byte_is_an_error() {
    let mut client = PubsubClient::new(1);
    let actions = drain_actions(&mut client, &[0x09]);
    assert_eq!(actions.len(), 1);
    assert!(matches!(actions[0], ClientAction::Error));
}

#[test]
fn leftover_bytes_carry_into_the_next_frame() {
    // A complete subscribe plus the first two bytes of the next frame.
    let mut client = PubsubClient::new(1);
    let mut first = vec![0x01, 0x03, 0x61, 0x61, 0x61];
    first.extend_from_slice(&[0x02, 0x03]);
    let actions = drain_actions(&mut client, &first);
    assert_eq!(actions.len(), 1);
    let actions = drain_actions(&mut client, &[0x62, 0x62, 0x62]);
    assert_eq!(actions.len(), 1);
    match &actions[0] {
        ClientAction::Unsubscribe(name) => assert_eq!(name, "bbb"),
        _ => panic!("action is not an unsubscribe"),
    }
}

#[test]
fn read_actions_collects_a_whole_batch() {
    let mut client = PubsubClient::new(1);
    let mut bytes = vec![0x01, 0x03, 0x61, 0x61, 0x61];
    bytes.extend_from_slice(&[0x03, 0x01, 0x62, 0x00, 0x02, 0x68, 0x69]);
    bytes.extend_from_slice(&[0x02, 0x03, 0x61, 0x61, 0x61]);
    let actions = client.read_actions(&bytes);
    assert_eq!(actions.len(), 3);
    assert!(matches!(&actions[0], ClientAction::Subscribe(n) if n == "aaa"));
    assert!(matches!(&actions[1], ClientAction::Publish(n, p) if n == "b" && p == b"hi"));
    assert!(matches!(&actions[2], ClientAction::Unsubscribe(n) if n == "aaa"));
}

#[test]
fn read_actions_stops_at_a_fatal_frame() {
    let mut client = PubsubClient::new(1);
    let mut bytes = vec![0x01, 0x03, 0x61, 0x61, 0x61];
    bytes.push(0x09);
    let actions = client.read_actions(&bytes);
    assert_eq!(actions.len(), 2);
    assert!(matches!(&actions[0], ClientAction::Subscribe(n) if n == "aaa"));
    assert!(matches!(actions[1], ClientAction::Error));
}

#[test]
fn free_space_shrinks_while_a_frame_is_partial() {
    let mut client = PubsubClient::new(1);
    let total = client.free_space();
    assert!(drain_actions(&mut client, &[0x01, 0x05, 0x61]).is_empty());
    assert_eq!(client.free_space(), total - 3);
}
