use mmorpg_lab::handoff::{
    drive_handoffs, handle_crossing_alert, handle_ghost_update, handle_handoff_accept,
    handle_handoff_complete, handle_handoff_reject, handle_handoff_request,
    process_handoff_timeouts, Routed, ShardMessage,
};
use mmorpg_lab::resources::{
    AddressVar, BrokerConnection, Countdown, HandoffManager, PlayerRegistry, ServerConfig,
    ServerVars, HANDOFF_TIMEOUT,
};
use mmorpg_lab::server::visible_entities;
use mmorpg_lab::shared::{
    EntityState, GhostUpdate, HandoffAccept, HandoffComplete, HandoffReject, HandoffRequest,
};
use mmorpg_lab::single::Single;

const ALICE: u128 = 0x0102_0304_0506_0708_090a_0b0c_0d0e_0f10;
const ALICE_TEXT: &str = "01020304-0506-0708-090a-0b0c0d0e0f10";

fn single(x: f32) -> Single {
    Single::from_bits(x.to_bits())
}

fn config(shard_id: u32) -> ServerConfig {
    let vars = ServerVars {
        port: None,
        zone: None,
        max_players: None,
        orchestrator_addr: AddressVar::Unset,
        shard_id: Some(shard_id.to_string()),
    };
    ServerConfig::from_vars(1, vars).unwrap()
}

fn alert(client: u128, dest: u32) -> Vec<u8> {
    let mut out = vec![0x11u8];
    out.extend_from_slice(&client.to_be_bytes());
    out.extend_from_slice(&dest.to_le_bytes());
    out
}

fn broker() -> BrokerConnection {
    BrokerConnection { connection: Some(99) }
}

fn no_broker() -> BrokerConnection {
    BrokerConnection { connection: None }
}

struct Shard {
    config: ServerConfig,
    registry: PlayerRegistry,
    handoffs: HandoffManager,
}

fn shard(id: u32) -> Shard {
    Shard { config: config(id), registry: PlayerRegistry::new(), handoffs: HandoffManager::new() }
}

impl Shard {
    fn with_alice(mut self, x: f32, y: f32) -> Shard {
        self.registry.add_player_with_uuid(ALICE, "player".to_string(), single(x), single(y));
        self
    }

    fn alert(&mut self, data: &[u8], broker: &BrokerConnection) -> Option<Routed> {
        handle_crossing_alert(data, &mut self.registry, &mut self.handoffs, broker, &self.config)
    }

    fn drive(&mut self) -> Vec<Routed> {
        drive_handoffs(&mut self.registry, &mut self.handoffs, &broker(), &self.config)
    }

    fn hear(&mut self, message: ShardMessage) -> Option<Routed> {
        match message {
            ShardMessage::Request(m) => {
                return handle_handoff_request(m, &mut self.handoffs, &broker());
            }
            ShardMessage::Accept(m) => handle_handoff_accept(m, &mut self.handoffs),
            ShardMessage::Reject(m) => handle_handoff_reject(m, &mut self.handoffs),
            ShardMessage::Update(m) => {
                handle_ghost_update(m, &mut self.registry, &mut self.handoffs, &self.config)
            }
            ShardMessage::Complete(m) => {
                handle_handoff_complete(m, &mut self.registry, &mut self.handoffs)
            }
        }
        None
    }

    fn state(&self) -> Option<EntityState> {
        self.registry.get_player_by_id(ALICE_TEXT).map(|p| p.state)
    }

    fn sees(&self) -> usize {
        visible_entities(&self.registry, &self.handoffs).len()
    }
}

// A whole handoff: the entity is seen all through it, and owned by one shard in
// the end.
#[test]
fn entity_is_handed_over() {
    let mut a = shard(0).with_alice(490.0, 250.0);
    let mut b = shard(1);
    let asked = a.alert(&alert(ALICE, 1), &broker()).unwrap();
    assert_eq!(asked.dest_shard, 1);
    assert_eq!(asked.message.tag(), 0x20);
    assert_eq!(a.state(), Some(EntityState::PendingHandoff));
    // The request is lost, and repeated.
    let again = a.drive();
    assert_eq!(again.len(), 1);
    assert_eq!(again[0].message.tag(), 0x20);
    let accepted = b.hear(asked.message).unwrap();
    assert_eq!(accepted.dest_shard, 0);
    assert_eq!(accepted.message.tag(), 0x21);
    assert_eq!((a.sees(), b.sees()), (1, 1));
    assert_eq!(b.handoffs.ghost_entities.entries[0].1.owner_shard_id, Some(0));
    assert!(a.hear(accepted.message).is_none());
    // The entity is still here: its place is told.
    let mut told = a.drive();
    assert_eq!(told.len(), 1);
    assert_eq!((told[0].dest_shard, told[0].message.tag()), (1, 0x23));
    b.hear(told.remove(0).message);
    assert_eq!(b.registry.get_player_count(), 0);
    // It leaves.
    a.registry.get_player_mut_by_id(ALICE_TEXT).unwrap().pos_x = single(505.0);
    let mut told = a.drive();
    assert_eq!(told.len(), 2);
    assert_eq!((told[0].message.tag(), told[1].message.tag()), (0x23, 0x24));
    assert_eq!(a.registry.get_player_count(), 0);
    assert!(!a.handoffs.is_handoff_in_progress(ALICE_TEXT));
    b.hear(told.remove(0).message);
    assert_eq!(b.state(), Some(EntityState::Owned));
    assert_eq!(b.registry.get_player_by_id(ALICE_TEXT).unwrap().pos_x, single(505.0));
    assert_eq!(b.registry.get_player_by_id(ALICE_TEXT).unwrap().owner_shard_id, None);
    b.hear(told.remove(0).message);
    assert_eq!((a.sees(), b.sees()), (0, 1));
    assert!(a.drive().is_empty());
}

// Where the last place is not told, the end of the handoff makes the copy owned.
#[test]
fn completion_promotes_the_copy() {
    let mut b = shard(1);
    let request = HandoffRequest {
        entity_id: ALICE_TEXT.to_string(),
        from_shard: 0,
        pos_x: single(499.0),
        pos_y: single(1.0),
        vel_x: single(2.0),
        vel_y: single(3.0),
        state: Vec::new(),
    };
    handle_handoff_request(request, &mut b.handoffs, &broker()).unwrap();
    let ghost = &b.handoffs.ghost_entities.entries[0].1;
    assert_eq!((ghost.username.as_str(), ghost.state), ("ghost", EntityState::GhostCopy));
    b.hear(ShardMessage::Complete(HandoffComplete { entity_id: ALICE_TEXT.to_string() }));
    let p = b.registry.get_player_by_id(ALICE_TEXT).unwrap();
    assert_eq!((p.pos_x, p.vel_y, p.state), (single(499.0), single(3.0), EntityState::Owned));
    assert_eq!(b.handoffs.ghost_entities.len(), 0);
    b.hear(ShardMessage::Complete(HandoffComplete { entity_id: ALICE_TEXT.to_string() }));
    assert_eq!(b.registry.get_player_count(), 1);
}

#[test]
fn alerts_that_start_nothing() {
    let mut a = shard(0).with_alice(490.0, 250.0);
    assert!(a.alert(&alert(ALICE, 1)[..20], &broker()).is_none());
    assert!(a.alert(&alert(ALICE + 1, 1), &broker()).is_none());
    assert!(a.alert(&alert(ALICE, 1), &no_broker()).is_none());
    assert_eq!(a.state(), Some(EntityState::Owned));
    assert!(a.alert(&alert(ALICE, 1), &broker()).is_some());
    assert!(a.alert(&alert(ALICE, 2), &broker()).is_none());
    assert_eq!(a.handoffs.pending.entries[0].1.dest_shard_id, 1);
}

#[test]
fn rejection_ends_the_handoff() {
    let mut a = shard(0).with_alice(490.0, 250.0);
    a.alert(&alert(ALICE, 1), &broker());
    a.hear(ShardMessage::Reject(HandoffReject { entity_id: ALICE_TEXT.to_string() }));
    assert!(!a.handoffs.is_handoff_in_progress(ALICE_TEXT));
    assert_eq!(a.state(), Some(EntityState::PendingHandoff));
    assert!(a.drive().is_empty());
}

#[test]
fn nothing_happens_without_a_broker() {
    let mut a = shard(0).with_alice(490.0, 250.0);
    a.alert(&alert(ALICE, 1), &broker());
    let out = drive_handoffs(&mut a.registry, &mut a.handoffs, &no_broker(), &a.config);
    assert!(out.is_empty());
    let request = HandoffRequest {
        entity_id: ALICE_TEXT.to_string(),
        from_shard: 0,
        pos_x: single(1.0),
        pos_y: single(1.0),
        vel_x: single(0.0),
        vel_y: single(0.0),
        state: Vec::new(),
    };
    assert!(handle_handoff_request(request, &mut a.handoffs, &no_broker()).is_none());
    assert_eq!(a.handoffs.ghost_entities.len(), 0);
}

#[test]
fn unknown_entities_are_ignored() {
    let mut a = shard(0);
    a.hear(ShardMessage::Accept(HandoffAccept { entity_id: ALICE_TEXT.to_string() }));
    a.hear(ShardMessage::Update(GhostUpdate {
        entity_id: ALICE_TEXT.to_string(),
        pos_x: single(1.0),
        pos_y: single(1.0),
        vel_x: single(0.0),
        vel_y: single(0.0),
    }));
    assert_eq!(a.registry.get_player_count(), 0);
    assert_eq!(a.sees(), 0);
}

// A copy whose identifier is no UUID is let go when it is to become owned.
#[test]
fn copy_without_uuid_is_let_go() {
    let mut b = shard(1);
    let request = HandoffRequest {
        entity_id: "nobody".to_string(),
        from_shard: 0,
        pos_x: single(1.0),
        pos_y: single(1.0),
        vel_x: single(0.0),
        vel_y: single(0.0),
        state: Vec::new(),
    };
    handle_handoff_request(request, &mut b.handoffs, &broker());
    b.hear(ShardMessage::Complete(HandoffComplete { entity_id: "nobody".to_string() }));
    assert_eq!(b.registry.get_player_count(), 0);
    assert_eq!(b.handoffs.ghost_entities.len(), 0);
}

#[test]
fn handoff_times_out() {
    let mut a = shard(0).with_alice(490.0, 250.0);
    a.alert(&alert(ALICE, 1), &broker());
    let gone = process_handoff_timeouts(HANDOFF_TIMEOUT - 1, &mut a.handoffs, &mut a.registry);
    assert!(gone.is_empty());
    assert_eq!(a.state(), Some(EntityState::PendingHandoff));
    let gone = process_handoff_timeouts(1, &mut a.handoffs, &mut a.registry);
    assert_eq!(gone, vec![ALICE_TEXT.to_string()]);
    assert_eq!(a.state(), Some(EntityState::Owned));
    assert_eq!(a.handoffs.pending.len(), 0);
    assert!(a.alert(&alert(ALICE, 1), &broker()).is_some());
}

#[test]
fn one_of_several_handoffs_times_out() {
    let mut m = HandoffManager::new();
    let mut r = PlayerRegistry::new();
    m.start_handoff("a".to_string(), 0, 1, vec![1]);
    process_handoff_timeouts(3_000_000_000, &mut m, &mut r);
    m.start_handoff("b".to_string(), 0, 2, vec![2]);
    m.start_handoff("c".to_string(), 0, 3, vec![3]);
    let gone = process_handoff_timeouts(2_000_000_000, &mut m, &mut r);
    assert_eq!(gone, vec!["a".to_string()]);
    assert!(m.is_handoff_in_progress("b"));
    let h = m.complete_handoff("c").unwrap();
    assert_eq!((h.dest_shard_id, h.entity_state, h.accepted), (3, vec![3], false));
    assert_eq!(h.timer.elapsed, 2_000_000_000);
    assert!(m.complete_handoff("c").is_none());
}

#[test]
fn timers_stop_at_their_end() {
    let mut t = Countdown::new(10);
    assert!(!t.finished());
    t.tick(9);
    assert!(!t.finished());
    t.tick(u64::MAX);
    assert!(t.finished());
    assert_eq!(t.elapsed, 10);
    t.tick(5);
    assert_eq!(t.elapsed, 10);
}

#[test]
fn shards_are_registered() {
    let mut m = HandoffManager::new();
    assert!(m.get_shard_connection(2).is_none());
    m.register_shard(2, 77);
    assert_eq!(m.get_shard_connection(2), Some(&77));
    m.add_ghost("g".to_string(), PlayerRegistry::new().add_player_as(1, ALICE, "x".to_string()));
    assert_eq!(m.remove_ghost("g").unwrap().id, ALICE_TEXT);
    assert!(m.remove_ghost("g").is_none());
}
