use bytes::Bytes;
use mmorpg_lab::broker::BrokerState;
use mmorpg_lab::packet::Packet;
use mmorpg_lab::wire::topic_to_bytes;

const ALICE: u128 = 0x0102_0304_0506_0708_090a_0b0c_0d0e_0f10;
const BOB: u128 = 0xf0e0_d0c0_b0a0_9080_7060_5040_3020_1000;

fn message(tag: u8, parts: &[&[u8]]) -> Bytes {
    let mut out = vec![tag];
    for p in parts {
        out.extend_from_slice(p);
    }
    Bytes::from(out)
}

fn subscribe(client: u128, label: &str) -> Bytes {
    message(0x01, &[&client.to_be_bytes(), &topic_to_bytes(label)])
}

fn unsubscribe(client: u128, label: &str) -> Bytes {
    message(0x02, &[&client.to_be_bytes(), &topic_to_bytes(label)])
}

fn publish(label: &str, payload: &[u8]) -> Bytes {
    message(
        0x03,
        &[&topic_to_bytes(label), &(payload.len() as u16).to_le_bytes(), payload],
    )
}

fn input(client: u128, bytes: [u8; 16]) -> Bytes {
    message(0x05, &[&client.to_be_bytes(), &bytes])
}

fn said(packets: &[Packet]) -> Vec<(u128, Vec<u8>)> {
    packets.iter().map(|p| (p.to, p.data.to_vec())).collect()
}

fn broadcast(payload: &[u8]) -> Vec<u8> {
    let mut out = vec![0x04];
    out.extend_from_slice(&(payload.len() as u16).to_le_bytes());
    out.extend_from_slice(payload);
    out
}

#[test]
fn publication_reaches_connected_subscribers() {
    let mut b = BrokerState::new();
    assert!(b.handle_message(9, subscribe(ALICE, "shard:0")).is_empty());
    assert!(b.handle_message(9, subscribe(BOB, "shard:0")).is_empty());
    // Nobody was heard yet.
    assert!(b.handle_message(50, publish("shard:0", b"abc")).is_empty());
    // Alice is heard on connection 1; the shard is on 50.
    let packets = b.handle_message(1, input(ALICE, [2; 16]));
    let mut forwarded = vec![0x05];
    forwarded.extend_from_slice(&ALICE.to_be_bytes());
    forwarded.extend_from_slice(&[2; 16]);
    assert_eq!(said(&packets), vec![(50, forwarded)]);
    let packets = b.handle_message(50, publish("shard:0", b"abc"));
    assert_eq!(said(&packets), vec![(1, broadcast(b"abc"))]);
    b.handle_message(2, input(BOB, [0; 16]));
    let packets = b.handle_message(50, publish("shard:0", b""));
    assert_eq!(said(&packets), vec![(1, broadcast(b"")), (2, broadcast(b""))]);
    // Another topic has no subscribers.
    assert!(b.handle_message(51, publish("shard:1", b"abc")).is_empty());
}

#[test]
fn payload_is_cut_to_its_length() {
    let mut b = BrokerState::new();
    b.handle_message(9, subscribe(ALICE, "t"));
    b.handle_message(1, input(ALICE, [0; 16]));
    let data = message(0x03, &[&topic_to_bytes("t"), &2u16.to_le_bytes(), b"abcd"]);
    assert_eq!(said(&b.handle_message(5, data)), vec![(1, broadcast(b"ab"))]);
    // Too short: nothing is sent, and the sender is not the shard.
    let data = message(0x03, &[&topic_to_bytes("u"), &5u16.to_le_bytes(), b"abcd"]);
    assert!(b.handle_message(5, data).is_empty());
    assert!(!b.shards.contains_key(&topic_to_bytes("u")));
}

#[test]
fn last_unsubscription_forgets_the_client() {
    let mut b = BrokerState::new();
    b.handle_message(1, input(ALICE, [0; 16]));
    b.handle_message(9, subscribe(ALICE, "a"));
    b.handle_message(9, subscribe(ALICE, "b"));
    b.handle_message(9, unsubscribe(ALICE, "a"));
    assert!(b.client_connections.contains_key(&ALICE));
    b.handle_message(9, unsubscribe(ALICE, "c"));
    assert!(b.client_connections.contains_key(&ALICE));
    b.handle_message(9, unsubscribe(ALICE, "b"));
    assert!(!b.client_connections.contains_key(&ALICE));
    assert_eq!(b.subscriptions.len(), 0);
    assert!(b.client_topics.is_empty());
}

// A client without topics keeps its connection when it is unsubscribed once more.
#[test]
fn unsubscription_of_a_client_without_topics_changes_nothing() {
    let mut b = BrokerState::new();
    b.handle_message(1, input(ALICE, [0; 16]));
    b.handle_message(9, unsubscribe(ALICE, "a"));
    assert!(b.client_connections.contains_key(&ALICE));
}

#[test]
fn disconnected_client_leaves_its_shards() {
    let mut b = BrokerState::new();
    b.handle_message(50, publish("a", b""));
    b.handle_message(51, publish("b", b""));
    b.handle_message(9, subscribe(ALICE, "a"));
    b.handle_message(9, subscribe(ALICE, "b"));
    b.handle_message(9, subscribe(ALICE, "c"));
    b.handle_message(9, subscribe(BOB, "a"));
    b.handle_message(1, input(ALICE, [0; 16]));
    let packets = b.handle_disconnect(1);
    let mut leave = vec![0x05];
    leave.extend_from_slice(&ALICE.to_be_bytes());
    leave.push(0x03);
    leave.extend_from_slice(&[0; 15]);
    assert_eq!(said(&packets), vec![(50, leave.clone()), (51, leave)]);
    assert!(!b.client_connections.contains_key(&ALICE));
    assert!(!b.client_topics.contains_key(&ALICE));
    assert_eq!(b.subscriptions.len(), 1);
    assert!(b.handle_disconnect(1).is_empty());
}

#[test]
fn messages_are_routed_to_shards() {
    let mut b = BrokerState::new();
    let data = message(0x06, &[&topic_to_bytes("shard:2"), b"\x20{}"]);
    assert!(b.handle_message(50, data.clone()).is_empty());
    b.handle_message(52, publish("shard:2", b""));
    assert_eq!(said(&b.handle_message(50, data)), vec![(52, b"\x20{}".to_vec())]);
}

#[test]
fn short_and_unknown_messages_are_ignored() {
    let mut b = BrokerState::new();
    b.handle_message(50, publish("shard:2", b""));
    assert!(b.handle_message(1, Bytes::new()).is_empty());
    for tag in 0..=255u8 {
        assert!(b.handle_message(1, message(tag, &[&[7; 31]])).is_empty());
    }
    assert!(b.handle_message(1, message(0x07, &[&[7; 64]])).is_empty());
    assert!(b.client_connections.is_empty());
    assert_eq!(b.subscriptions.len(), 0);
    assert_eq!(b.shards.len(), 1);
}

// Subscribing twice is subscribing once; taking it back leaves nothing.
#[test]
fn subscriptions_are_sets() {
    let mut b = BrokerState::new();
    b.subscribe(topic_to_bytes("a"), ALICE);
    b.subscribe(topic_to_bytes("a"), ALICE);
    b.handle_message(1, input(ALICE, [0; 16]));
    assert_eq!(b.handle_message(50, publish("a", b"x")).len(), 1);
    b.unsubscribe(topic_to_bytes("a"), ALICE);
    assert!(b.handle_message(50, publish("a", b"x")).is_empty());
    assert_eq!(b.subscriptions.len(), 0);
}
