use bytes::Bytes;
use mmorpg_lab::broker::BrokerState;
use mmorpg_lab::client::{Client, InputSendTimer, INPUT_SEND_PERIOD};
use mmorpg_lab::handoff::handle_crossing_alert;
use mmorpg_lab::quad_tree::build_default;
use mmorpg_lab::resources::{
    AddressVar, BrokerConnection, GameStateTimer, HandoffManager, PlayerRegistry, ServerConfig,
    ServerVars, SpatialService, SpatialUpdateTimer, GAME_STATE_PERIOD, SPATIAL_UPDATE_PERIOD,
};
use mmorpg_lab::server::{
    handle_client_input, hear, route_to_shard, send_game_state, send_spatial_updates,
    update_positions, Incoming,
};
use mmorpg_lab::single::Single;
use mmorpg_lab::spatial::{handle_position_update, is_position_update, SpatialState};

const PLAYER: u128 = 0x0102_0304_0506_0708_090a_0b0c_0d0e_0f10;

// The connections, by the two that they connect.
const BROKER_CLIENT: u128 = 1;
const BROKER_SHARD: u128 = 2;
const BROKER_SPATIAL: u128 = 3;
const SPATIAL_SHARD: u128 = 4;

fn single(x: f32) -> Single {
    Single::from_bits(x.to_bits())
}

struct Fleet {
    broker: BrokerState,
    spatial: SpatialState,
    config: ServerConfig,
    registry: PlayerRegistry,
    handoffs: HandoffManager,
    timer: GameStateTimer,
    client: Client,
}

fn fleet() -> Fleet {
    let vars = ServerVars {
        port: None,
        zone: None,
        max_players: None,
        orchestrator_addr: AddressVar::Unset,
        shard_id: None,
    };
    let mut spatial = SpatialState::new();
    spatial.connected(BROKER_SPATIAL);
    Fleet {
        broker: BrokerState::new(),
        spatial,
        config: ServerConfig::from_vars(9, vars).unwrap(),
        registry: PlayerRegistry::new(),
        handoffs: HandoffManager::new(),
        timer: GameStateTimer::default(),
        client: Client::new(PLAYER),
    }
}

impl Fleet {
    // The shard hears what the broker sends it.
    fn to_shard(&mut self, data: &[u8]) {
        match hear(data) {
            Incoming::ClientInput { uuid, input } => {
                handle_client_input(uuid, &input, &mut self.registry, &self.config)
            }
            _ => panic!("not an input"),
        }
    }

    // The client says something to the broker, which forwards it.
    fn from_client(&mut self, data: Bytes) {
        for packet in self.broker.handle_message(BROKER_CLIENT, data) {
            assert_eq!(packet.to, BROKER_SHARD);
            self.to_shard(&packet.data);
        }
    }

    // The shard publishes its state; the client hears of it.
    fn publish(&mut self, now: f32) {
        let broker = BrokerConnection { connection: Some(77) };
        let state = send_game_state(
            GAME_STATE_PERIOD,
            &mut self.timer,
            &self.registry,
            &self.handoffs,
            &self.config,
            &broker,
        )
        .unwrap();
        assert_eq!(state.to, 77);
        for packet in self.broker.handle_message(BROKER_SHARD, state.data) {
            assert_eq!(packet.to, BROKER_CLIENT);
            let from = self.client.position;
            self.client.handle_message(&packet.data, single(now), from);
        }
    }
}

// A client joins, moves, is watched, and is handed over when it nears a border.
#[test]
fn a_client_in_the_fleet() {
    let mut f = fleet();
    // The shard has published once, so that the broker knows it.
    f.publish(0.0);
    for packet in f.client.connected(BROKER_CLIENT) {
        f.from_client(packet.data);
    }
    assert_eq!(f.registry.get_player_count(), 1);
    assert!(!f.client.joined);
    f.publish(0.05);
    assert!(f.client.joined);

    let mut timer = InputSendTimer::default();
    let packet = f
        .client
        .send_input(INPUT_SEND_PERIOD, &mut timer, (single(200.0), single(0.0)))
        .unwrap();
    f.from_client(packet.data);
    update_positions(single(1.05), &mut f.registry);
    f.publish(0.1);
    assert_eq!(f.client.position, (single(250.0 + 200.0 * 1.05), single(250.0)));

    // The spatial service alerts the shard, and tells the broker what the client sees.
    let spatial = SpatialService { connection: Some(55) };
    let mut timer = SpatialUpdateTimer::default();
    let reports =
        send_spatial_updates(SPATIAL_UPDATE_PERIOD, &mut timer, &f.registry, &f.config, &spatial);
    assert_eq!(reports.len(), 1);
    assert!(is_position_update(&reports[0].data));
    let mut alerts = Vec::new();
    let answers = handle_position_update(
        &reports[0].data,
        SPATIAL_SHARD,
        &mut f.spatial,
        &build_default(),
    );
    for packet in answers {
        if packet.to == SPATIAL_SHARD {
            alerts.push(packet.data);
        } else {
            assert_eq!(packet.to, BROKER_SPATIAL);
            assert!(f.broker.handle_message(BROKER_SPATIAL, packet.data).is_empty());
        }
    }
    assert_eq!(alerts.len(), 1);
    assert_eq!(f.broker.client_topics[&PLAYER].len(), 4);

    let broker = BrokerConnection { connection: Some(77) };
    assert!(matches!(hear(&alerts[0]), Incoming::CrossingAlert));
    let routed = handle_crossing_alert(
        &alerts[0],
        &mut f.registry,
        &mut f.handoffs,
        &broker,
        &f.config,
    )
    .unwrap();
    assert_eq!(routed.dest_shard, 1);

    // The broker forwards what is routed once the other shard has published.
    let frame = route_to_shard(77, routed.dest_shard, b"\x20{}");
    assert!(f.broker.handle_message(BROKER_SHARD, frame.data.clone()).is_empty());
    let mut other = vec![0x03u8];
    other.extend_from_slice(&mmorpg_lab::server::shard_topic(1));
    other.extend_from_slice(&[0, 0]);
    f.broker.handle_message(60, Bytes::from(other));
    let forwarded = f.broker.handle_message(BROKER_SHARD, frame.data);
    assert_eq!((forwarded[0].to, &forwarded[0].data[..]), (60, &b"\x20{}"[..]));
    assert!(matches!(hear(&forwarded[0].data), Incoming::FromShard { tag: 0x20, .. }));

    // The client is gone: the shards that it was on are told.
    let leaves = f.broker.handle_disconnect(BROKER_CLIENT);
    assert_eq!(leaves.len(), 2);
    for packet in leaves {
        if packet.to == BROKER_SHARD {
            f.to_shard(&packet.data);
        }
    }
    assert_eq!(f.registry.get_player_count(), 0);
}
