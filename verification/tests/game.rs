use mmorpg_lab::game::{GameServer, Reaction};
use mmorpg_lab::handoff::ShardMessage;
use mmorpg_lab::resources::{AddressVar, PendingConnType, ServerConfig, ServerVars};
use mmorpg_lab::shared::{EntityState, GhostUpdate, HandoffComplete, HandoffRequest};
use mmorpg_lab::single::Single;

const ALICE: u128 = 0x0102_0304_0506_0708_090a_0b0c_0d0e_0f10;
const ALICE_TEXT: &str = "01020304-0506-0708-090a-0b0c0d0e0f10";

fn single(x: f32) -> Single {
    Single::from_bits(x.to_bits())
}

fn server(shard_id: u32) -> GameServer {
    let vars = ServerVars {
        port: None,
        zone: None,
        max_players: Some("2".to_string()),
        orchestrator_addr: AddressVar::Unset,
        shard_id: Some(shard_id.to_string()),
    };
    let mut s = GameServer::new(ServerConfig::from_vars(1, vars).unwrap());
    s.links.asked_for(PendingConnType::Broker);
    s.links.asked_for(PendingConnType::Spatial);
    s.links.connected(71);
    s.links.connected(72);
    s
}

fn input(client: u128, bytes: [u8; 16]) -> Vec<u8> {
    let mut out = vec![0x05u8];
    out.extend_from_slice(&client.to_be_bytes());
    out.extend_from_slice(&bytes);
    out
}

fn join(x: f32, y: f32) -> [u8; 16] {
    let mut out = [0u8; 16];
    out[0] = 1;
    out[1..5].copy_from_slice(&x.to_le_bytes());
    out[5..9].copy_from_slice(&y.to_le_bytes());
    out
}

#[test]
fn a_new_server_knows_no_shards() {
    let s = server(0);
    assert!(s.handoffs.shard_connections.is_empty());
    assert_eq!(s.registry.get_player_count(), 0);
}

#[test]
fn inputs_change_the_players() {
    let mut s = server(0);
    assert!(matches!(s.receive(5, &input(ALICE, join(1.0, 2.0))), Reaction::Nothing));
    assert_eq!(s.registry.get_player_count(), 1);
    assert!(matches!(s.receive(5, &[]), Reaction::Nothing));
    assert!(matches!(s.receive(5, &input(ALICE, [3; 16])), Reaction::Nothing));
    assert_eq!(s.registry.get_player_count(), 0);
}

#[test]
fn alerts_are_routed() {
    let mut s = server(0);
    s.receive(5, &input(ALICE, join(490.0, 2.0)));
    let mut alert = vec![0x11u8];
    alert.extend_from_slice(&ALICE.to_be_bytes());
    alert.extend_from_slice(&1u32.to_le_bytes());
    match s.receive(6, &alert) {
        Reaction::Route(r) => {
            assert_eq!(r.dest_shard, 1);
            match r.message {
                ShardMessage::Request(m) => {
                    assert_eq!(m.entity_id, ALICE_TEXT);
                    assert_eq!((m.from_shard, m.pos_x, m.pos_y), (0, single(490.0), single(2.0)));
                }
                _ => panic!("no request"),
            }
        }
        _ => panic!("nothing to route"),
    }
    assert!(matches!(s.receive(6, &alert), Reaction::Nothing));
}

#[test]
fn players_are_answered() {
    let mut s = server(0);
    for (conn, answer) in [(1u128, &b"WELCOME "[..]), (2, b"WELCOME "), (3, b"FULL")] {
        match s.receive(conn, b"JOIN someone") {
            Reaction::Answer(p) => {
                assert_eq!(p.to, conn);
                assert_eq!(&p.data[..answer.len()], answer);
            }
            _ => panic!("no answer"),
        }
    }
    match s.receive(1, b"UPDATE_POS 1 2 3 4") {
        Reaction::ReadNumbers { fields } => assert_eq!(fields, ["1", "2", "3", "4"]),
        _ => panic!("no numbers"),
    }
    let report = s.receive_position(1, [single(1.0), single(2.0)], [single(3.0), single(4.0)]);
    assert_eq!(report.unwrap().to, 72);
    assert!(s.receive_position(9, [single(1.0); 2], [single(3.0); 2]).is_none());
    match s.receive(1, &[0x23, 1, 2]) {
        Reaction::Read { tag, body } => assert_eq!((tag, body), (0x23, vec![1, 2])),
        _ => panic!("nothing to read"),
    }
}

fn request() -> ShardMessage {
    ShardMessage::Request(HandoffRequest {
        entity_id: ALICE_TEXT.to_string(),
        from_shard: 0,
        pos_x: single(490.0),
        pos_y: single(2.0),
        vel_x: single(0.0),
        vel_y: single(0.0),
        state: Vec::new(),
    })
}

fn update(x: f32) -> ShardMessage {
    ShardMessage::Update(GhostUpdate {
        entity_id: ALICE_TEXT.to_string(),
        pos_x: single(x),
        pos_y: single(2.0),
        vel_x: single(0.0),
        vel_y: single(0.0),
    })
}

fn complete() -> ShardMessage {
    ShardMessage::Complete(HandoffComplete { entity_id: ALICE_TEXT.to_string() })
}

// Whichever of the last messages is lost, the entity is taken over.
#[test]
fn takeover_survives_losses() {
    for (with_update, with_complete) in [(true, true), (true, false), (false, true)] {
        let mut s = server(1);
        assert_eq!(s.receive_from_shard(request()).unwrap().message.tag(), 0x21);
        assert!(s.receive_from_shard(update(495.0)).is_none());
        assert_eq!(s.registry.get_player_count(), 0);
        if with_update {
            s.receive_from_shard(update(505.0));
        }
        if with_complete {
            s.receive_from_shard(complete());
        }
        let p = s.registry.get_player_by_id(ALICE_TEXT).unwrap();
        assert_eq!((p.state, p.owner_shard_id), (EntityState::Owned, None));
        assert_eq!(p.pos_x, single(if with_update { 505.0 } else { 495.0 }));
        assert_eq!(s.handoffs.ghost_entities.len(), 0);
        assert_eq!(s.registry.get_player_count(), 1);
    }
}

#[test]
fn acceptance_and_rejection() {
    let mut s = server(0);
    s.handoffs.start_handoff(ALICE_TEXT.to_string(), 0, 1, Vec::new());
    s.receive_from_shard(ShardMessage::Accept(mmorpg_lab::shared::HandoffAccept {
        entity_id: ALICE_TEXT.to_string(),
    }));
    assert!(s.handoffs.pending.entries[0].1.accepted);
    s.receive_from_shard(ShardMessage::Reject(mmorpg_lab::shared::HandoffReject {
        entity_id: ALICE_TEXT.to_string(),
    }));
    assert_eq!(s.handoffs.pending.len(), 0);
}
