use mmorpg_lab::resources::{
    AddressVar, BrokerConnection, ConfigError, FarPublishTimer, GameStateTimer, HandoffManager,
    HeartbeatTimer, Orchestrator, PendingConnType, PlayerRegistry, ServerConfig, ServerVars,
    ServiceLinks, SpatialService, SpatialUpdateTimer, FAR_PUBLISH_PERIOD, GAME_STATE_PERIOD,
    HEARTBEAT_PERIOD, SPATIAL_UPDATE_PERIOD,
};
use mmorpg_lab::server::{
    build_state_payload, encode_state, handle_client_input, handle_join, handle_join_as,
    handle_update_pos, hear, publish_state, route_to_shard, send_game_state, send_game_state_far,
    send_heartbeat, send_position_update, send_spatial_updates, shard_for_2x2, shard_topic,
    shard_topic_far, update_positions, visible_entities, Incoming,
};
use mmorpg_lab::shared::{status_of, EntityState};
use mmorpg_lab::single::Single;
use mmorpg_lab::wire::topic_to_bytes;
use std::time::Duration;

const ALICE: u128 = 0x0102_0304_0506_0708_090a_0b0c_0d0e_0f10;
const ALICE_TEXT: &str = "01020304-0506-0708-090a-0b0c0d0e0f10";

fn single(x: f32) -> Single {
    Single::from_bits(x.to_bits())
}

fn vars() -> ServerVars {
    ServerVars {
        port: None,
        zone: None,
        max_players: None,
        orchestrator_addr: AddressVar::Unset,
        shard_id: None,
    }
}

fn config(shard_id: u32, max_players: usize) -> ServerConfig {
    let mut v = vars();
    v.shard_id = Some(shard_id.to_string());
    v.max_players = Some(max_players.to_string());
    ServerConfig::from_vars(ALICE, v).unwrap()
}

fn numbers(kind: u8, a: f32, b: f32) -> [u8; 16] {
    let mut input = [0u8; 16];
    input[0] = kind;
    input[1..5].copy_from_slice(&a.to_le_bytes());
    input[5..9].copy_from_slice(&b.to_le_bytes());
    input
}

#[test]
fn configuration_has_defaults() {
    let c = ServerConfig::from_vars(ALICE, vars()).unwrap();
    assert_eq!(c.id, ALICE_TEXT);
    assert_eq!((c.port, c.zone.as_str(), c.max_players, c.shard_id), (9000, "zone_A", 10, 0));
    assert_eq!(c.orchestrator_addr, ("127.0.0.1".to_string(), 9000));
}

#[test]
fn configuration_from_variables() {
    let mut v = vars();
    v.port = Some("+65535".to_string());
    v.zone = Some("zone_B".to_string());
    v.orchestrator_addr = AddressVar::Given("10.0.0.7".to_string(), 9100);
    v.max_players = Some("0".to_string());
    v.shard_id = Some("no number".to_string());
    let c = ServerConfig::from_env(v).unwrap();
    assert_eq!((c.port, c.zone.as_str(), c.max_players, c.shard_id), (65535, "zone_B", 0, 0));
    assert_eq!(c.orchestrator_addr, ("10.0.0.7".to_string(), 9100));
    assert_eq!(c.id.len(), 36);
    assert_eq!(&c.id[14..15], "4");
}

#[test]
fn configuration_errors() {
    let mut v = vars();
    v.port = Some("65536".to_string());
    v.max_players = Some("-1".to_string());
    assert_eq!(ServerConfig::from_vars(1, v).unwrap_err(), ConfigError::Port);
    let mut v = vars();
    v.max_players = Some("".to_string());
    v.orchestrator_addr = AddressVar::Malformed;
    assert_eq!(ServerConfig::from_vars(1, v).unwrap_err(), ConfigError::MaxPlayers);
    let mut v = vars();
    v.orchestrator_addr = AddressVar::Malformed;
    assert_eq!(ServerConfig::from_vars(1, v).unwrap_err(), ConfigError::OrchestratorAddr);
}

#[test]
fn shard_of_a_position() {
    assert_eq!(shard_for_2x2(single(250.0), single(250.0)), Some(0));
    assert_eq!(shard_for_2x2(single(500.0), single(499.9)), Some(1));
    assert_eq!(shard_for_2x2(single(499.9), single(500.0)), Some(2));
    assert_eq!(shard_for_2x2(single(999.9), single(999.9)), Some(3));
    assert_eq!(shard_for_2x2(single(1000.0), single(1.0)), None);
    assert_eq!(shard_for_2x2(single(-0.5), single(1.0)), None);
    assert_eq!(shard_for_2x2(single(-0.0), single(1.0)), Some(0));
    assert_eq!(shard_for_2x2(single(f32::NAN), single(1.0)), None);
}

// Over the whole world the server and the spatial service agree.
#[test]
fn server_agrees_with_the_tree() {
    let tree = mmorpg_lab::quad_tree::build_default();
    for i in -2..44 {
        for j in -2..44 {
            let (x, y) = (single(i as f32 * 25.0), single(j as f32 * 25.0));
            assert_eq!(shard_for_2x2(x, y), tree.shard_for([x, y]));
        }
    }
}

#[test]
fn topics_of_shards() {
    assert_eq!(shard_topic(3), topic_to_bytes("shard:3"));
    assert_eq!(shard_topic_far(12), topic_to_bytes("shard:12:far"));
}

#[test]
fn client_joins_moves_and_leaves() {
    let c = config(0, 10);
    let mut r = PlayerRegistry::new();
    handle_client_input(ALICE, &numbers(1, 250.0, 100.0), &mut r, &c);
    let p = r.get_player_by_id(ALICE_TEXT).unwrap();
    assert_eq!((p.username.as_str(), p.state, p.conn), ("player", EntityState::Owned, None));
    assert_eq!((p.pos_x, p.pos_y, p.vel_x), (single(250.0), single(100.0), single(0.0)));
    handle_client_input(ALICE, &numbers(2, 200.0, -20.0), &mut r, &c);
    update_positions(single(0.5), &mut r);
    let p = r.get_player_by_id(ALICE_TEXT).unwrap();
    assert_eq!((p.pos_x, p.pos_y), (single(350.0), single(90.0)));
    handle_client_input(ALICE + 1, &numbers(3, 0.0, 0.0), &mut r, &c);
    assert_eq!(r.get_player_count(), 1);
    handle_client_input(ALICE, &numbers(3, 0.0, 0.0), &mut r, &c);
    assert_eq!(r.get_player_count(), 0);
}

#[test]
fn client_joins_only_its_shard_and_only_with_room() {
    let mut r = PlayerRegistry::new();
    handle_client_input(ALICE, &numbers(1, 250.0, 250.0), &mut r, &config(1, 10));
    assert_eq!(r.get_player_count(), 0);
    handle_client_input(ALICE, &numbers(1, -1.0, 250.0), &mut r, &config(0, 10));
    assert_eq!(r.get_player_count(), 0);
    handle_client_input(ALICE, &numbers(1, 250.0, 250.0), &mut r, &config(0, 1));
    handle_client_input(ALICE + 1, &numbers(1, 250.0, 250.0), &mut r, &config(0, 1));
    assert_eq!(r.get_player_count(), 1);
    assert!(r.is_full(1));
    handle_client_input(ALICE + 1, &[], &mut r, &config(0, 5));
    handle_client_input(ALICE + 1, &[1, 0, 0], &mut r, &config(0, 5));
    handle_client_input(ALICE + 1, &numbers(9, 250.0, 250.0), &mut r, &config(0, 5));
    assert_eq!(r.get_player_count(), 1);
}

#[test]
fn positions_follow_native_arithmetic() {
    let c = config(0, 10);
    let mut r = PlayerRegistry::new();
    handle_client_input(ALICE, &numbers(1, 123.456, 7.7), &mut r, &c);
    handle_client_input(ALICE, &numbers(2, 141.42136, -141.42136), &mut r, &c);
    let (mut x, mut y) = (123.456f32, 7.7f32);
    let dt = 0.016666668f32;
    for _ in 0..200 {
        update_positions(single(dt), &mut r);
        x += 141.42136f32 * dt;
        y += -141.42136f32 * dt;
    }
    let p = r.get_player_by_id(ALICE_TEXT).unwrap();
    assert_eq!((p.pos_x, p.pos_y), (single(x), single(y)));
}

#[test]
fn state_is_published() {
    let c = config(0, 10);
    let mut r = PlayerRegistry::new();
    let m = HandoffManager::new();
    handle_client_input(ALICE, &numbers(1, 1.0, 2.0), &mut r, &c);
    let payload = build_state_payload(&r, &m).unwrap();
    let mut want = vec![1u8, 0];
    want.extend_from_slice(&ALICE.to_be_bytes());
    want.extend_from_slice(&1.0f32.to_le_bytes());
    want.extend_from_slice(&2.0f32.to_le_bytes());
    assert_eq!(payload, want);
    let broker = BrokerConnection { connection: Some(4) };
    let mut timer = GameStateTimer::default();
    let mut far_timer = FarPublishTimer::default();
    assert!(send_game_state(GAME_STATE_PERIOD - 1, &mut timer, &r, &m, &c, &broker).is_none());
    let near = send_game_state(1, &mut timer, &r, &m, &c, &broker).unwrap();
    let mut frame = vec![0x03u8];
    frame.extend_from_slice(&topic_to_bytes("shard:0"));
    frame.extend_from_slice(&26u16.to_le_bytes());
    frame.extend_from_slice(&want);
    assert_eq!((near.to, near.data.to_vec()), (4, frame));
    assert!(send_game_state_far(GAME_STATE_PERIOD, &mut far_timer, &r, &m, &c, &broker).is_none());
    let far = send_game_state_far(FAR_PUBLISH_PERIOD, &mut far_timer, &r, &m, &c, &broker).unwrap();
    assert_eq!(&far.data[1..33], &topic_to_bytes("shard:0:far"));
    let none = BrokerConnection { connection: None };
    assert!(send_game_state(GAME_STATE_PERIOD, &mut timer, &r, &m, &c, &none).is_none());
}

#[test]
fn long_payload_wraps_its_length() {
    let payload = vec![0u8; 0x1_0002];
    let p = publish_state(1, &topic_to_bytes("t"), &payload);
    assert_eq!(&p.data[33..35], &[2, 0]);
    assert_eq!(p.data.len(), 35 + 0x1_0002);
}

#[test]
fn too_many_entities_are_no_state() {
    let list = vec![(ALICE, single(0.0), single(0.0)); 0xffff];
    assert_eq!(encode_state(&list).len(), 2 + 24 * 0xffff);
    assert_eq!(&encode_state(&list)[..2], &[0xff, 0xff]);
}

// A player whose identifier is no UUID is not told of.
#[test]
fn only_uuids_are_visible() {
    let mut r = PlayerRegistry::new();
    r.add_player(1, "a".to_string());
    r.add_player_as(2, ALICE, "b".to_string());
    assert_eq!(visible_entities(&r, &HandoffManager::new()).len(), 2);
    for entry in r.players.entries.iter_mut() {
        if entry.0 == 1 {
            entry.1.id = "nobody".to_string();
        }
    }
    let list = visible_entities(&r, &HandoffManager::new());
    assert_eq!(list, vec![(ALICE, single(0.0), single(0.0))]);
}

#[test]
fn positions_are_reported() {
    let c = config(2, 10);
    let mut r = PlayerRegistry::new();
    r.add_player_as(7, ALICE, "a".to_string());
    r.update_position(&7, single(3.0), single(4.0));
    let spatial = SpatialService { connection: Some(6) };
    let mut want = vec![0x10u8];
    want.extend_from_slice(&2u32.to_le_bytes());
    want.extend_from_slice(&ALICE.to_be_bytes());
    want.extend_from_slice(&3.0f32.to_le_bytes());
    want.extend_from_slice(&4.0f32.to_le_bytes());
    let mut timer = SpatialUpdateTimer::default();
    let period = SPATIAL_UPDATE_PERIOD;
    assert!(send_spatial_updates(period - 1, &mut timer, &r, &c, &spatial).is_empty());
    let packets = send_spatial_updates(1, &mut timer, &r, &c, &spatial);
    assert_eq!(packets.len(), 1);
    assert_eq!((packets[0].to, packets[0].data.to_vec()), (6, want.clone()));
    let p = send_position_update(&spatial, &r, &7, &c, single(3.0), single(4.0)).unwrap();
    assert_eq!(p.data.to_vec(), want);
    assert!(send_position_update(&spatial, &r, &8, &c, single(3.0), single(4.0)).is_none());
    r.set_entity_state(&7, EntityState::PendingHandoff);
    assert!(send_spatial_updates(period, &mut timer, &r, &c, &spatial).is_empty());
    let none = SpatialService { connection: None };
    assert!(send_position_update(&none, &r, &7, &c, single(3.0), single(4.0)).is_none());
    assert!(send_spatial_updates(period, &mut timer, &r, &c, &none).is_empty());
}

#[test]
fn told_positions_are_kept() {
    let c = config(2, 10);
    let mut r = PlayerRegistry::new();
    r.add_player_as(7, ALICE, "a".to_string());
    let spatial = SpatialService { connection: Some(6) };
    let pos = [single(1.0), single(2.0)];
    let vel = [single(3.0), single(4.0)];
    assert!(handle_update_pos(7, pos, vel, &mut r, &spatial, &c).is_some());
    let p = r.get_player_by_id(ALICE_TEXT).unwrap();
    assert_eq!([p.pos_x, p.pos_y], pos);
    assert_eq!([p.vel_x, p.vel_y], vel);
    assert!(handle_update_pos(8, pos, vel, &mut r, &spatial, &c).is_none());
}

#[test]
fn players_join_directly() {
    let mut r = PlayerRegistry::new();
    let p = handle_join_as(ALICE, "  alice \t", 3, &mut r, 1);
    assert_eq!((p.to, p.data.to_vec()), (3, format!("WELCOME {}", ALICE_TEXT).into_bytes()));
    assert_eq!(r.get_player_by_id(ALICE_TEXT).unwrap().username, "alice");
    assert_eq!(r.get_player_by_id(ALICE_TEXT).unwrap().conn, Some(3));
    let p = handle_join("bob", 4, &mut r, 1);
    assert_eq!((p.to, &p.data[..]), (4, &b"FULL"[..]));
    let p = handle_join("bob", 4, &mut r, 2);
    assert_eq!(&p.data[..8], b"WELCOME ");
    assert_eq!(p.data.len(), 44);
    assert_eq!(r.remove_player(&3).unwrap().username, "alice");
    assert!(r.remove_player(&3).is_none());
}

#[test]
fn messages_are_told_apart() {
    assert!(matches!(hear(&[]), Incoming::Ignored));
    let mut data = vec![5u8];
    data.extend_from_slice(&ALICE.to_be_bytes());
    data.extend_from_slice(&[8; 15]);
    assert!(matches!(hear(&data), Incoming::Ignored));
    data.push(9);
    data.push(10);
    match hear(&data) {
        Incoming::ClientInput { uuid, input } => {
            assert_eq!(uuid, ALICE);
            assert_eq!(input[14..], [8, 9]);
        }
        _ => panic!("no input"),
    }
    assert!(matches!(hear(&[0x11]), Incoming::CrossingAlert));
    for tag in 0x20..=0x24u8 {
        assert!(matches!(hear(&[tag]), Incoming::Ignored));
        match hear(&[tag, b'{', b'}']) {
            Incoming::FromShard { tag: t, body } => {
                assert_eq!(t, tag);
                assert_eq!(body, b"{}");
            }
            _ => panic!("no message"),
        }
    }
    match hear(b"JOIN  alice ") {
        Incoming::Join { username } => assert_eq!(username, " alice "),
        _ => panic!("no join"),
    }
    match hear("UPDATE_POS  1.5 -2\t3\u{a0}4 5".as_bytes()) {
        Incoming::UpdatePos { fields } => assert_eq!(fields, ["1.5", "-2", "3", "4", "5"]),
        _ => panic!("no position"),
    }
    assert!(matches!(hear(b"UPDATE_POS 1 2 3"), Incoming::Ignored));
    assert!(matches!(hear(b"JOIN"), Incoming::Ignored));
    assert!(matches!(hear(b"HELLO"), Incoming::Ignored));
    match hear(b"JOIN \xff") {
        Incoming::Join { username } => assert_eq!(username, "\u{fffd}"),
        _ => panic!("no join"),
    }
}

#[test]
fn routed_frames() {
    let p = route_to_shard(9, 2, b"\x20{}");
    let mut want = vec![0x06u8];
    want.extend_from_slice(&topic_to_bytes("shard:2"));
    want.extend_from_slice(b"\x20{}");
    assert_eq!((p.to, p.data.to_vec()), (9, want));
}

#[test]
fn heartbeats() {
    let c = config(1, 3);
    let mut r = PlayerRegistry::new();
    r.add_player(1, "a".to_string());
    let mut timer = HeartbeatTimer::default();
    let orchestrator = Orchestrator { connection: Some(2) };
    let (to, h) = send_heartbeat(HEARTBEAT_PERIOD, &mut timer, &c, &r, &orchestrator).unwrap();
    assert_eq!(to, 2);
    assert_eq!((h.ip.as_str(), h.port, h.zone.as_str()), ("127.0.0.1", 9000, "zone_A"));
    assert_eq!((h.shard_id, h.player_count, h.max_players), (1, 1, 3));
    assert_eq!(h.id, c.id);
    let none = Orchestrator { connection: None };
    assert!(send_heartbeat(HEARTBEAT_PERIOD, &mut timer, &c, &r, &none).is_none());
    assert_eq!(status_of(2, 3), "available");
    assert_eq!(status_of(3, 3), "full");
}

// At 60 frames a second, one heartbeat comes every 5 seconds.
#[test]
fn a_heartbeat_every_five_seconds() {
    assert_eq!(HEARTBEAT_PERIOD, Duration::from_secs_f32(5.0).as_nanos() as u64);
    let c = config(1, 3);
    let r = PlayerRegistry::new();
    let orchestrator = Orchestrator { connection: Some(2) };
    let mut timer = HeartbeatTimer::default();
    let (mut time, mut sent) = (0u64, 0u64);
    for i in 0..3600u64 {
        let delta = 16_666_666 + i % 2;
        let before = time / HEARTBEAT_PERIOD;
        time += delta;
        let fired = send_heartbeat(delta, &mut timer, &c, &r, &orchestrator).is_some();
        assert_eq!(fired, time / HEARTBEAT_PERIOD > before);
        assert_eq!(timer.0.elapsed, time % HEARTBEAT_PERIOD);
        sent += fired as u64;
    }
    assert_eq!(sent, time / HEARTBEAT_PERIOD);
    // A long pause gives one heartbeat, and the rest of the time is kept.
    let mut timer = HeartbeatTimer::default();
    assert!(send_heartbeat(12_000_000_000, &mut timer, &c, &r, &orchestrator).is_some());
    assert_eq!(timer.0.elapsed, 2_000_000_000);
    assert!(send_heartbeat(u64::MAX, &mut timer, &c, &r, &orchestrator).is_some());
    assert_eq!(
        timer.0.elapsed as u128,
        (2_000_000_000 + u64::MAX as u128) % HEARTBEAT_PERIOD as u128
    );
}

#[test]
fn publication_rates() {
    assert_eq!(20 * GAME_STATE_PERIOD, 1_000_000_000);
    assert_eq!(20 * SPATIAL_UPDATE_PERIOD, 1_000_000_000);
    assert_eq!(5 * FAR_PUBLISH_PERIOD, 1_000_000_000);
    assert_eq!(GameStateTimer::default().0.period, GAME_STATE_PERIOD);
    assert_eq!(FarPublishTimer::default().0.period, FAR_PUBLISH_PERIOD);
    assert_eq!(SpatialUpdateTimer::default().0.period, SPATIAL_UPDATE_PERIOD);
}

#[test]
fn services_connect_in_order() {
    let mut links = ServiceLinks::new();
    let mut r = PlayerRegistry::new();
    links.asked_for(PendingConnType::Orchestrator);
    links.asked_for(PendingConnType::Broker);
    assert_eq!(links.connected(1), Some(PendingConnType::Orchestrator));
    links.asked_for(PendingConnType::Spatial);
    assert_eq!(links.connected(2), Some(PendingConnType::Broker));
    assert_eq!(links.connected(3), Some(PendingConnType::Spatial));
    assert_eq!(links.connected(4), None);
    assert_eq!(links.orchestrator.connection, Some(1));
    assert_eq!(links.broker.connection, Some(2));
    assert_eq!(links.spatial.connection, Some(3));
    r.add_player(4, "a".to_string());
    r.add_player(2, "b".to_string());
    links.disconnected(2, &mut r);
    assert_eq!(links.broker.connection, None);
    assert_eq!(r.get_player_count(), 2);
    links.disconnected(4, &mut r);
    assert_eq!(r.get_player_count(), 1);
    links.disconnected(1, &mut r);
    links.disconnected(3, &mut r);
    assert_eq!(links.orchestrator.connection, None);
    assert_eq!(links.spatial.connection, None);
}

#[test]
fn registry_by_connection_and_by_identifier() {
    let mut r = PlayerRegistry::new();
    r.add_player_as(1, ALICE, "a".to_string());
    r.update_velocity(&1, single(5.0), single(6.0));
    r.update_velocity(&2, single(7.0), single(8.0));
    assert_eq!(r.get_player_by_id(ALICE_TEXT).unwrap().vel_y, single(6.0));
    r.get_player_mut_by_id(ALICE_TEXT).unwrap().vel_y = single(9.0);
    assert_eq!(r.get_player_by_id(ALICE_TEXT).unwrap().vel_y, single(9.0));
    assert!(r.get_player_mut_by_id("nobody").is_none());
    r.update_velocity_by_uuid(ALICE, single(1.0), single(2.0));
    assert_eq!(r.get_player_by_id(ALICE_TEXT).unwrap().vel_x, single(1.0));
    r.set_state_by_uuid(ALICE, EntityState::GhostCopy);
    assert_eq!(r.get_player_by_id(ALICE_TEXT).unwrap().state, EntityState::GhostCopy);
    let p = r.remove_player_by_uuid(ALICE).unwrap();
    assert_eq!(p.username, "a");
    assert!(r.remove_player_by_uuid(ALICE).is_none());
}
