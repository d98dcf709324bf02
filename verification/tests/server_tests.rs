use pubsub::server::PubsubServer;
use pubsub::pending_event::PendingEvents;

fn subscribe_frame(topic: &[u8]) -> Vec<u8> {
    let mut f = vec![0x01, topic.len() as u8];
    f.extend_from_slice(topic);
    f
}

fn publish_frame(topic: &[u8], payload: &[u8]) -> Vec<u8> {
    let mut f = vec![0x03, topic.len() as u8];
    f.extend_from_slice(topic);
    f.push((payload.len() / 256) as u8);
    f.push((payload.len() % 256) as u8);
    f.extend_from_slice(payload);
    f
}

fn event_frame(topic: &[u8], payload: &[u8]) -> Vec<u8> {
    let mut f = vec![0x04, topic.len() as u8];
    f.extend_from_slice(topic);
    f.push((payload.len() / 256) as u8);
    f.push((payload.len() % 256) as u8);
    f.extend_from_slice(payload);
    f
}

/// Drive one connection's write path to completion and hand back the
/// bytes it would have sent.
fn drain_writes(server: &mut PubsubServer, token: usize) -> Vec<u8> {
    let mut sent: Vec<u8> = Vec::new();
    while server.wants_write(token) {
        let chunk: Vec<u8> = server.writable_event_data(token).unwrap().to_vec();
        sent.extend_from_slice(&chunk);
        server.on_client_writable(token, chunk.len());
    }
    sent
}

#[test]
fn subscribe_publish_receive() {
    let mut server = PubsubServer::new();
    let c1 = server.add_connection().unwrap();
    let c2 = server.add_connection().unwrap();

    server.on_client_readable(c1, &[0x01, 0x06, 0x66, 0x6f, 0x6f, 0x62, 0x61, 0x72]);
    assert!(!server.wants_write(c1));
    server.on_client_readable(
        c2,
        &[0x03, 0x06, 0x66, 0x6f, 0x6f, 0x62, 0x61, 0x72, 0x00, 0x03, 0x68, 0x69, 0x21],
    );

    assert!(server.wants_write(c1));
    assert!(!server.wants_write(c2));
    let received = drain_writes(&mut server, c1);
    assert_eq!(
        received,
        vec![0x04, 0x06, 0x66, 0x6f, 0x6f, 0x62, 0x61, 0x72, 0x00, 0x03, 0x68, 0x69, 0x21]
    );
    assert!(!server.wants_write(c1));
}

#[test]
fn subscribe_then_unsubscribe_in_one_batch() {
    let mut server = PubsubServer::new();
    let c1 = server.add_connection().unwrap();
    let mut batch = subscribe_frame(b"aaa");
    batch.extend_from_slice(&[0x02, 0x03, 0x61, 0x61, 0x61]);
    server.on_client_readable(c1, &batch);

    // The topic is gone: a publish to it creates no event.
    assert_eq!(server.publish_event(&"aaa".to_string(), b"x".to_vec()), None);
}

#[test]
fn publish_without_subscribers_is_a_no_op() {
    let mut server = PubsubServer::new();
    let c1 = server.add_connection().unwrap();
    let c2 = server.add_connection().unwrap();
    assert_eq!(server.publish_event(&"quiet".to_string(), b"payload".to_vec()), None);
    server.on_client_readable(c2, &publish_frame(b"quiet", b"payload"));
    assert!(!server.wants_write(c1));
    assert!(!server.wants_write(c2));
}

#[test]
fn publisher_subscribed_to_its_own_topic_receives_its_publication() {
    let mut server = PubsubServer::new();
    let c1 = server.add_connection().unwrap();
    server.on_client_readable(c1, &subscribe_frame(b"self"));
    server.on_client_readable(c1, &publish_frame(b"self", b"mine"));
    assert!(server.wants_write(c1));
    let received = drain_writes(&mut server, c1);
    assert_eq!(received, event_frame(b"self", b"mine"));
}

#[test]
fn duplicate_subscribe_delivers_once() {
    let mut server = PubsubServer::new();
    let c1 = server.add_connection().unwrap();
    let c2 = server.add_connection().unwrap();
    server.on_client_readable(c1, &subscribe_frame(b"t"));
    server.on_client_readable(c1, &subscribe_frame(b"t"));
    server.on_client_readable(c2, &publish_frame(b"t", b"once"));
    let received = drain_writes(&mut server, c1);
    assert_eq!(received, event_frame(b"t", b"once"));
    assert!(!server.wants_write(c1));
}

#[test]
fn fan_out_counts_recipients_until_all_drain() {
    let mut server = PubsubServer::new();
    let s1 = server.add_connection().unwrap();
    let s2 = server.add_connection().unwrap();
    let s3 = server.add_connection().unwrap();
    let publisher = server.add_connection().unwrap();
    server.on_client_readable(s1, &subscribe_frame(b"T"));
    server.on_client_readable(s2, &subscribe_frame(b"T"));
    server.on_client_readable(s3, &subscribe_frame(b"T"));
    server.on_client_readable(publisher, &publish_frame(b"T", b"P"));

    let expected = event_frame(b"T", b"P");
    assert_eq!(drain_writes(&mut server, s1), expected);
    assert_eq!(drain_writes(&mut server, s2), expected);
    assert_eq!(drain_writes(&mut server, s3), expected);
    assert!(!server.wants_write(publisher));
}

#[test]
fn partial_writes_advance_the_offset() {
    let mut server = PubsubServer::new();
    let s1 = server.add_connection().unwrap();
    let publisher = server.add_connection().unwrap();
    server.on_client_readable(s1, &subscribe_frame(b"T"));
    server.on_client_readable(publisher, &publish_frame(b"T", b"chunked payload"));

    let expected = event_frame(b"T", b"chunked payload");
    let mut sent: Vec<u8> = Vec::new();
    while server.wants_write(s1) {
        let chunk: Vec<u8> = server.writable_event_data(s1).unwrap().to_vec();
        let take = if chunk.len() > 1 { 1 } else { chunk.len() };
        sent.extend_from_slice(&chunk[..take]);
        server.on_client_writable(s1, take);
    }
    assert_eq!(sent, expected);
}

#[test]
fn subscriber_closing_mid_fan_out_releases_its_share() {
    let mut server = PubsubServer::new();
    let s1 = server.add_connection().unwrap();
    let s2 = server.add_connection().unwrap();
    let s3 = server.add_connection().unwrap();
    let publisher = server.add_connection().unwrap();
    server.on_client_readable(s1, &subscribe_frame(b"T"));
    server.on_client_readable(s2, &subscribe_frame(b"T"));
    server.on_client_readable(s3, &subscribe_frame(b"T"));
    server.on_client_readable(publisher, &publish_frame(b"T", b"P"));

    server.close_connection(s2);
    assert!(!server.is_live(s2));

    let expected = event_frame(b"T", b"P");
    assert_eq!(drain_writes(&mut server, s1), expected);
    assert_eq!(drain_writes(&mut server, s3), expected);
    assert!(server.is_live(s1) && server.is_live(s3) && server.is_live(publisher));
}

#[test]
fn protocol_violation_closes_only_the_offender() {
    let mut server = PubsubServer::new();
    let c1 = server.add_connection().unwrap();
    let c2 = server.add_connection().unwrap();
    server.on_client_readable(c1, &subscribe_frame(b"T"));
    server.on_client_readable(c2, &event_frame(b"T", b"no"));
    assert!(!server.is_live(c2));
    assert!(server.is_live(c1));

    // The survivor still gets deliveries.
    let c3 = server.add_connection().unwrap();
    server.on_client_readable(c3, &publish_frame(b"T", b"ok"));
    assert_eq!(drain_writes(&mut server, c1), event_frame(b"T", b"ok"));
}

#[test]
fn closed_slot_is_reused() {
    let mut server = PubsubServer::new();
    let c1 = server.add_connection().unwrap();
    server.close_connection(c1);
    let c2 = server.add_connection().unwrap();
    assert_eq!(c1, c2);
}

#[test]
fn pending_events_count_recipients_down_to_zero() {
    let mut events = PendingEvents::new();
    let id = events.add_event(b"frame".to_vec(), 3);
    assert_eq!(events.get_event_data(id).unwrap(), b"frame");
    events.finish_event(id);
    events.finish_event(id);
    assert_eq!(events.get_event_data(id).unwrap(), b"frame");
    events.finish_event(id);
    assert!(events.get_event_data(id).is_none());
}

#[test]
fn pending_event_ids_are_not_reused_while_live() {
    let mut events = PendingEvents::new();
    let a = events.add_event(b"one".to_vec(), 1);
    let b = events.add_event(b"two".to_vec(), 1);
    assert!(a != b);
    assert_eq!(events.get_event_data(a).unwrap(), b"one");
    assert_eq!(events.get_event_data(b).unwrap(), b"two");
}
