//! The dedicated game server: what it does with what it hears, and what it says.

use crate::outside::{
    bytes_from_string, bytes_from_vec, contents, drawn, parsed_uuid, read_back,
    string_from_utf8_lossy, utf8_lossy, uuid_new_v4, uuid_parse_str, uuid_text,
};
use crate::packet::{packet_view, sent, Packet};
use crate::quad_tree::{default_tree, grid_shard, law_default_owner, BOUNDARY, WORLD_SIZE};
use crate::resources::{
    changed_player, is_first, is_unknown, law_one_player_leaves, law_players_are_found,
    lemma_player_place, new_player, without_player, zero, BrokerConnection, FarPublishTimer,
    GameStateTimer, HandoffManager, HeartbeatTimer, Orchestrator, PlayerInfo, PlayerRegistry,
    PlayerView, ServerConfig, SpatialService, SpatialUpdateTimer,
};
use crate::shared::{status, EntityState, Heartbeat};
use crate::single::{lemma_nothing_added, product, sum, Single};
use crate::spatial::{far_label, near_label, shard_label, shard_label_far};
use crate::text::{after_prefix, split_whitespace, strip_prefix, texts, trim, trimmed, words};
use crate::vec_map::{
    distinct, law_put_lookup, lemma_place, lemma_place_is, lemma_views, lookup, place, put, views,
    Key, VecMap,
};
use crate::wire::{
    id_at, id_bytes, le16, le32, lemma_u32_at, push_bytes, push_id, push_le16, push_le32, read_id,
    read_le32, topic_of, topic_to_bytes, u32_at, INPUT_JOIN, INPUT_LEAVE, INPUT_MOVE,
    TAG_CLIENT_INPUT, TAG_CROSSING_ALERT, TAG_HANDOFF_COMPLETE, TAG_HANDOFF_REQUEST,
    TAG_POSITION_UPDATE, TAG_PUBLISH, TAG_ROUTE_TO_SHARD,
};
use vstd::prelude::*;

verus! {

/// The shard that owns a position of the default world.
pub fn shard_for_2x2(x: Single, y: Single) -> (r: Option<u32>)
    ensures
        r == grid_shard(x, y),
{
    let zero = Single::from_bits(0);
    let half = Single::from_bits(BOUNDARY);
    let side = Single::from_bits(WORLD_SIZE);
    if !(zero.le(x) && x.lt(side)) || !(zero.le(y) && y.lt(side)) {
        return None;
    }
    let col: u32 = if half.le(x) {
        1
    } else {
        0
    };
    let row: u32 = if half.le(y) {
        1
    } else {
        0
    };
    Some(row * 2 + col)
}

/// A server and the spatial service agree on the shard that owns a position.
pub proof fn law_server_agrees_with_tree(x: Single, y: Single)
    ensures
        grid_shard(x, y) == default_tree().owner([x, y]),
{
    law_default_owner([x, y]);
}

/// The topic under which a shard publishes at the full rate.
pub fn shard_topic(shard_id: u32) -> (r: [u8; 32])
    ensures
        r@ == topic_of(near_label(shard_id)),
{
    topic_to_bytes(shard_label(shard_id).as_str())
}

/// The topic under which a shard publishes at the low rate.
pub fn shard_topic_far(shard_id: u32) -> (r: [u8; 32])
    ensures
        r@ == topic_of(far_label(shard_id)),
{
    topic_to_bytes(shard_label_far(shard_id).as_str())
}

/// A message for the broker to forward to a shard.
pub open spec fn route_message(dest_shard: u32, inner: Seq<u8>) -> Seq<u8> {
    seq![TAG_ROUTE_TO_SHARD] + topic_of(near_label(dest_shard)) + inner
}

/// A message for another shard, by way of the broker.
pub fn route_to_shard(broker_conn: u128, dest_shard: u32, inner: &[u8]) -> (r: Packet)
    ensures
        r.to == broker_conn,
        contents(r.data) == route_message(dest_shard, inner@),
{
    let mut buf: Vec<u8> = Vec::new();
    buf.push(TAG_ROUTE_TO_SHARD);
    push_bytes(&mut buf, shard_topic(dest_shard).as_slice());
    push_bytes(&mut buf, inner);
    assert(buf@ =~= route_message(dest_shard, inner@));
    Packet { to: broker_conn, data: bytes_from_vec(buf) }
}

/// The players once an input of a client has been taken. A client joins at the
/// shard that owns the position where it wants to be, if there is room; it
/// moves and leaves wherever it is.
pub open spec fn after_input(
    players: Seq<(u128, PlayerView)>,
    uuid: u128,
    input: Seq<u8>,
    shard_id: u32,
    max_players: usize,
) -> Seq<(u128, PlayerView)> {
    let a = Single { bits: u32_at(input, 1) };
    let b = Single { bits: u32_at(input, 5) };
    if input.len() >= 9 && input[0] == INPUT_JOIN {
        if grid_shard(a, b) == Some(shard_id) && players.len() < max_players {
            put(players, uuid, new_player(uuid, "player"@, a, b, None))
        } else {
            players
        }
    } else if input.len() >= 9 && input[0] == INPUT_MOVE {
        changed_player(
            players,
            uuid_text(uuid),
            |p: PlayerView| PlayerView { vel_x: a, vel_y: b, ..p },
        )
    } else if input.len() >= 1 && input[0] == INPUT_LEAVE {
        without_player(players, uuid_text(uuid))
    } else {
        players
    }
}

/// Takes an input of a client that the broker forwarded.
pub fn handle_client_input(
    uuid: u128,
    input: &[u8],
    registry: &mut PlayerRegistry,
    config: &ServerConfig,
)
    ensures
        old(registry).wf() ==> final(registry).wf(),
        final(registry)@ == after_input(
            old(registry)@,
            uuid,
            input@,
            config.shard_id,
            config.max_players,
        ),
{
    if input.len() == 0 {
        return;
    }
    if input[0] == INPUT_JOIN {
        if input.len() < 9 {
            return;
        }
        let sx = Single::from_bits(read_le32(input, 1));
        let sy = Single::from_bits(read_le32(input, 5));
        let owner = shard_for_2x2(sx, sy);
        if owner == Some(config.shard_id) {
            if !registry.is_full(config.max_players) {
                registry.add_player_with_uuid(uuid, "player".to_string(), sx, sy);
            }
        }
    } else if input[0] == INPUT_MOVE {
        if input.len() >= 9 {
            let vx = Single::from_bits(read_le32(input, 1));
            let vy = Single::from_bits(read_le32(input, 5));
            registry.update_velocity_by_uuid(uuid, vx, vy);
        }
    } else if input[0] == INPUT_LEAVE {
        registry.remove_player_by_uuid(uuid);
    }
}

/// A player some time later, at a constant velocity.
pub open spec fn moved(p: PlayerView, dt: Single) -> PlayerView {
    PlayerView {
        pos_x: sum(p.pos_x, product(p.vel_x, dt)),
        pos_y: sum(p.pos_y, product(p.vel_y, dt)),
        ..p
    }
}

/// The players some time later.
pub open spec fn all_moved(players: Seq<(u128, PlayerView)>, dt: Single) -> Seq<(u128, PlayerView)> {
    Seq::new(players.len(), |i: int| (players[i].0, moved(players[i].1, dt)))
}

/// Moves every player on by the time `dt`, in seconds.
pub fn update_positions(dt: Single, registry: &mut PlayerRegistry)
    ensures
        old(registry).wf() ==> final(registry).wf(),
        final(registry)@ == all_moved(old(registry)@, dt),
        final(registry)@ == Seq::new(
            old(registry)@.len(),
            |i: int| (old(registry)@[i].0, moved(old(registry)@[i].1, dt)),
        ),
{
    let ghost before = registry@;
    let mut i: usize = 0;
    while i < registry.players.entries.len()
        invariant
            i <= registry.players.entries.len(),
            registry@.len() == before.len(),
            forall|k: int| 0 <= k < i ==> #[trigger] registry@[k] == (before[k].0, moved(before[k].1, dt)),
            forall|k: int| i <= k < before.len() ==> #[trigger] registry@[k] == before[k],
        decreases registry.players.entries.len() - i,
    {
        let ghost middle = registry@;
        let player = &mut registry.players.entries[i].1;
        player.pos_x = player.pos_x.plus(player.vel_x.times(dt));
        player.pos_y = player.pos_y.plus(player.vel_y.times(dt));
        proof {
            assert(middle[i as int] == before[i as int]);
            assert(registry@ =~= middle.update(
                i as int,
                (before[i as int].0, moved(before[i as int].1, dt)),
            ));
        }
        i = i + 1;
    }
    proof {
        if old(registry).wf() {
            assert forall|a: int, b: int| 0 <= a < b < registry@.len() implies (
            #[trigger] registry@[a]).0 != (#[trigger] registry@[b]).0 by {
                assert(before[a].0 != before[b].0);
            }
        }
    }
}

/// An entity as clients see it: its UUID and where it is.
pub type Entity = (u128, Single, Single);

/// What stands under the keys, in order.
pub open spec fn values<I>(s: Seq<(I, PlayerView)>) -> Seq<PlayerView> {
    Seq::new(s.len(), |i: int| s[i].1)
}

/// The entities among players: those whose identifier is a UUID.
pub open spec fn entities_of(list: Seq<PlayerView>) -> Seq<Entity>
    decreases list.len(),
{
    if list.len() == 0 {
        Seq::empty()
    } else {
        let rest = entities_of(list.drop_last());
        match parsed_uuid(list.last().id) {
            Some(uuid) => rest.push((uuid, list.last().pos_x, list.last().pos_y)),
            None => rest,
        }
    }
}

/// The entities that clients are told of: those among the players, and those
/// among the copies of entities of other shards.
pub open spec fn visible(
    players: Seq<(u128, PlayerView)>,
    ghosts: Seq<(Seq<char>, PlayerView)>,
) -> Seq<Entity> {
    entities_of(values(players)) + entities_of(values(ghosts))
}

/// The bytes of entities: of each its UUID (16), and its position (4 and 4).
pub open spec fn entities_bytes(list: Seq<Entity>) -> Seq<u8>
    decreases list.len(),
{
    if list.len() == 0 {
        Seq::empty()
    } else {
        let e = list.last();
        entities_bytes(list.drop_last()) + (id_bytes(e.0) + le32(e.1.bits) + le32(e.2.bits))
    }
}

/// The state that is published: the number of entities (2), and the entities.
pub open spec fn state_payload(list: Seq<Entity>) -> Seq<u8> {
    le16(list.len() as u16) + entities_bytes(list)
}

/// The identifiers of players that are texts of UUIDs are read as those UUIDs.
pub open spec fn all_read_back(list: Seq<PlayerView>) -> bool {
    forall|i: int| 0 <= i < list.len() ==> read_back((#[trigger] list[i]).id)
}

/// Appends the entities among players.
fn push_entities<K: Key>(players: &VecMap<K, PlayerInfo>, out: &mut Vec<Entity>)
    ensures
        final(out)@ == old(out)@ + entities_of(values(views(players.pairs()))),
        all_read_back(values(views(players.pairs()))),
{
    let ghost list = values(views(players.pairs()));
    let ghost before = out@;
    let mut i: usize = 0;
    assert(list.take(0) =~= Seq::empty());
    assert(out@ =~= before + entities_of(list.take(0)));
    while i < players.entries.len()
        invariant
            i <= players.entries.len(),
            list == values(views(players.pairs())),
            out@ == before + entities_of(list.take(i as int)),
            forall|k: int| 0 <= k < i ==> read_back((#[trigger] list[k]).id),
        decreases players.entries.len() - i,
    {
        let player = &players.entries[i].1;
        proof {
            assert(list[i as int] == player@);
            assert(list.take(i + 1).drop_last() =~= list.take(i as int));
        }
        let parsed = uuid_parse_str(player.id.as_str());
        assert(read_back(player.id@));
        match parsed {
            Some(uuid) => {
                out.push((uuid, player.pos_x, player.pos_y));
                assert(out@ =~= before + entities_of(list.take(i + 1)));
            },
            None => {},
        }
        i = i + 1;
    }
    assert(list.take(i as int) =~= list);
}

/// The entities that clients are told of: the players, and the copies of
/// entities of other shards, so that an entity is seen all through a handoff.
pub fn visible_entities(registry: &PlayerRegistry, handoff_mgr: &HandoffManager) -> (r: Vec<Entity>)
    ensures
        r@ == entities_of(values(registry@)) + entities_of(values(handoff_mgr.ghosts())),
        r@ == visible(registry@, handoff_mgr.ghosts()),
        all_read_back(values(registry@)),
        all_read_back(values(handoff_mgr.ghosts())),
{
    let mut out: Vec<Entity> = Vec::new();
    push_entities(&registry.players, &mut out);
    push_entities(&handoff_mgr.ghost_entities, &mut out);
    assert(out@ =~= entities_of(values(registry@)) + entities_of(values(handoff_mgr.ghosts())));
    out
}

/// The bytes of the state that is published.
pub fn encode_state(list: &Vec<Entity>) -> (r: Vec<u8>)
    requires
        list@.len() <= 0xffff,
    ensures
        r@ == state_payload(list@),
{
    let mut payload: Vec<u8> = Vec::new();
    push_le16(&mut payload, list.len() as u16);
    let ghost head = le16(list@.len() as u16);
    let mut i: usize = 0;
    assert(list@.take(0) =~= Seq::empty());
    assert(payload@ =~= head + entities_bytes(list@.take(0)));
    while i < list.len()
        invariant
            i <= list.len(),
            payload@ == head + entities_bytes(list@.take(i as int)),
        decreases list.len() - i,
    {
        let entity: Entity = list[i];
        push_id(&mut payload, entity.0);
        push_le32(&mut payload, entity.1.bits);
        push_le32(&mut payload, entity.2.bits);
        proof {
            assert(list@.take(i + 1).drop_last() =~= list@.take(i as int));
            assert(payload@ =~= head + entities_bytes(list@.take(i + 1)));
        }
        i = i + 1;
    }
    assert(list@.take(i as int) =~= list@);
    payload
}

/// The state that is published. There is none where the number of entities does
/// not fit its two bytes.
pub fn build_state_payload(registry: &PlayerRegistry, handoff_mgr: &HandoffManager) -> (r: Option<
    Vec<u8>,
>)
    ensures
        ({
            let list = entities_of(values(registry@)) + entities_of(values(handoff_mgr.ghosts()));
            match r {
                Some(payload) => list.len() <= 0xffff && payload@ == state_payload(list),
                None => list.len() > 0xffff,
            }
        }),
        r matches Some(payload) ==> payload@ == state_payload(
            visible(registry@, handoff_mgr.ghosts()),
        ),
        all_read_back(values(registry@)),
        all_read_back(values(handoff_mgr.ghosts())),
{
    let list = visible_entities(registry, handoff_mgr);
    if list.len() <= 0xffff {
        Some(encode_state(&list))
    } else {
        None
    }
}

/// A publication. Of the length of the payload the last two bytes are told.
pub open spec fn publish_message(topic: Seq<u8>, payload: Seq<u8>) -> Seq<u8> {
    seq![TAG_PUBLISH] + topic + le16((payload.len() % 0x1_0000) as u16) + payload
}

/// Publishes a payload under a topic.
pub fn publish_state(broker_conn: u128, topic: &[u8; 32], payload: &[u8]) -> (r: Packet)
    ensures
        r.to == broker_conn,
        contents(r.data) == publish_message(topic@, payload@),
{
    let mut msg: Vec<u8> = Vec::new();
    msg.push(TAG_PUBLISH);
    push_bytes(&mut msg, topic.as_slice());
    push_le16(&mut msg, (payload.len() % 0x1_0000) as u16);
    push_bytes(&mut msg, payload);
    assert(msg@ =~= publish_message(topic@, payload@));
    Packet { to: broker_conn, data: bytes_from_vec(msg) }
}

/// What a server publishes of its state under a topic: nothing without a broker,
/// and nothing where there are too many entities.
pub open spec fn state_packet(
    broker: Option<u128>,
    topic: Seq<u8>,
    list: Seq<Entity>,
) -> Option<(u128, Seq<u8>)> {
    if broker is Some && list.len() <= 0xffff {
        Some((broker.unwrap(), publish_message(topic, state_payload(list))))
    } else {
        None
    }
}

/// What a server publishes, when it is time, under a label.
pub open spec fn publication(
    due: bool,
    broker: Option<u128>,
    label: Seq<char>,
    players: Seq<(u128, PlayerView)>,
    ghosts: Seq<(Seq<char>, PlayerView)>,
) -> Option<(u128, Seq<u8>)> {
    if due {
        state_packet(broker, topic_of(label), visible(players, ghosts))
    } else {
        None
    }
}

/// What a server publishes, when it is time, at the full rate.
pub open spec fn near_publication(
    due: bool,
    broker: Option<u128>,
    shard_id: u32,
    players: Seq<(u128, PlayerView)>,
    ghosts: Seq<(Seq<char>, PlayerView)>,
) -> Option<(u128, Seq<u8>)> {
    publication(due, broker, near_label(shard_id), players, ghosts)
}

/// What a server publishes, when it is time, at the low rate.
pub open spec fn far_publication(
    due: bool,
    broker: Option<u128>,
    shard_id: u32,
    players: Seq<(u128, PlayerView)>,
    ghosts: Seq<(Seq<char>, PlayerView)>,
) -> Option<(u128, Seq<u8>)> {
    publication(due, broker, far_label(shard_id), players, ghosts)
}

fn state_under(
    registry: &PlayerRegistry,
    handoff_mgr: &HandoffManager,
    topic: &[u8; 32],
    broker: &BrokerConnection,
) -> (r: Option<Packet>)
    ensures
        packet_view(r) == state_packet(
            broker.connection,
            topic@,
            entities_of(values(registry@)) + entities_of(values(handoff_mgr.ghosts())),
        ),
{
    match broker.connection {
        Some(conn) => match build_state_payload(registry, handoff_mgr) {
            Some(payload) => Some(publish_state(conn, topic, payload.as_slice())),
            None => None,
        },
        None => None,
    }
}

/// Publishes the state, when it is time, for clients that have this shard in their
/// near area. Some time has gone by since the last call.
pub fn send_game_state(
    delta: u64,
    timer: &mut GameStateTimer,
    registry: &PlayerRegistry,
    handoff_mgr: &HandoffManager,
    config: &ServerConfig,
    broker: &BrokerConnection,
) -> (r: Option<Packet>)
    requires
        old(timer).0.wf(),
    ensures
        final(timer).0 == old(timer).0.later(delta),
        final(timer).0.wf(),
        packet_view(r) == if old(timer).0.fires(delta) {
            state_packet(
                broker.connection,
                topic_of(near_label(config.shard_id)),
                entities_of(values(registry@)) + entities_of(values(handoff_mgr.ghosts())),
            )
        } else {
            None
        },
        packet_view(r) == near_publication(
            old(timer).0.fires(delta),
            broker.connection,
            config.shard_id,
            registry@,
            handoff_mgr.ghosts(),
        ),
{
    if !timer.0.tick(delta) {
        return None;
    }
    state_under(registry, handoff_mgr, &shard_topic(config.shard_id), broker)
}

/// Publishes the state, when it is time, for clients that have this shard in their
/// far area. Some time has gone by since the last call.
pub fn send_game_state_far(
    delta: u64,
    timer: &mut FarPublishTimer,
    registry: &PlayerRegistry,
    handoff_mgr: &HandoffManager,
    config: &ServerConfig,
    broker: &BrokerConnection,
) -> (r: Option<Packet>)
    requires
        old(timer).0.wf(),
    ensures
        final(timer).0 == old(timer).0.later(delta),
        final(timer).0.wf(),
        packet_view(r) == if old(timer).0.fires(delta) {
            state_packet(
                broker.connection,
                topic_of(far_label(config.shard_id)),
                entities_of(values(registry@)) + entities_of(values(handoff_mgr.ghosts())),
            )
        } else {
            None
        },
        packet_view(r) == far_publication(
            old(timer).0.fires(delta),
            broker.connection,
            config.shard_id,
            registry@,
            handoff_mgr.ghosts(),
        ),
{
    if !timer.0.tick(delta) {
        return None;
    }
    state_under(registry, handoff_mgr, &shard_topic_far(config.shard_id), broker)
}

/// A report to the spatial service of where an entity is.
pub open spec fn position_message(shard_id: u32, uuid: u128, x: Single, y: Single) -> Seq<u8> {
    seq![TAG_POSITION_UPDATE] + le32(shard_id) + id_bytes(uuid) + le32(x.bits) + le32(y.bits)
}

fn position_packet(to: u128, shard_id: u32, uuid: u128, x: Single, y: Single) -> (r: Packet)
    ensures
        r.to == to,
        contents(r.data) == position_message(shard_id, uuid, x, y),
{
    let mut buf: Vec<u8> = Vec::new();
    buf.push(TAG_POSITION_UPDATE);
    push_le32(&mut buf, shard_id);
    push_id(&mut buf, uuid);
    push_le32(&mut buf, x.bits);
    push_le32(&mut buf, y.bits);
    assert(buf@ =~= position_message(shard_id, uuid, x, y));
    Packet { to, data: bytes_from_vec(buf) }
}

/// The reports on the players that this shard owns and whose identifier is a
/// UUID.
pub open spec fn reports(players: Seq<(u128, PlayerView)>, shard_id: u32, to: u128) -> Seq<
    (u128, Seq<u8>),
>
    decreases players.len(),
{
    if players.len() == 0 {
        Seq::empty()
    } else {
        let rest = reports(players.drop_last(), shard_id, to);
        let p = players.last().1;
        match parsed_uuid(p.id) {
            Some(uuid) if p.state == EntityState::Owned => rest.push(
                (to, position_message(shard_id, uuid, p.pos_x, p.pos_y)),
            ),
            _ => rest,
        }
    }
}

/// The reports that a server sends, when it is time, to the spatial service.
pub open spec fn due_reports(
    due: bool,
    spatial: Option<u128>,
    players: Seq<(u128, PlayerView)>,
    shard_id: u32,
) -> Seq<(u128, Seq<u8>)> {
    match spatial {
        Some(to) if due => reports(players, shard_id, to),
        _ => Seq::empty(),
    }
}

/// Reports where the players are to the spatial service, when it is time and if it
/// is connected. Some time has gone by since the last call.
pub fn send_spatial_updates(
    delta: u64,
    timer: &mut SpatialUpdateTimer,
    registry: &PlayerRegistry,
    config: &ServerConfig,
    spatial: &SpatialService,
) -> (r: Vec<Packet>)
    requires
        old(timer).0.wf(),
    ensures
        final(timer).0 == old(timer).0.later(delta),
        final(timer).0.wf(),
        sent(r@) == due_reports(
            old(timer).0.fires(delta),
            spatial.connection,
            registry@,
            config.shard_id,
        ),
        sent(r@) == match spatial.connection {
            Some(to) if old(timer).0.fires(delta) => reports(registry@, config.shard_id, to),
            _ => Seq::empty(),
        },
        old(timer).0.fires(delta) && spatial.connection is Some ==> forall|i: int|
            0 <= i < registry@.len() && (#[trigger] registry@[i]).1.state == EntityState::Owned
                ==> read_back(registry@[i].1.id),
{
    let mut packets: Vec<Packet> = Vec::new();
    assert(sent(packets@) =~= Seq::empty());
    if !timer.0.tick(delta) {
        return packets;
    }
    let to: u128 = match spatial.connection {
        Some(c) => c,
        None => return packets,
    };
    let ghost list = registry@;
    let mut i: usize = 0;
    assert(list.take(0) =~= Seq::empty());
    assert(sent(packets@) =~= reports(list.take(0), config.shard_id, to));
    while i < registry.players.entries.len()
        invariant
            i <= registry.players.entries.len(),
            list == registry@,
            sent(packets@) == reports(list.take(i as int), config.shard_id, to),
            forall|k: int|
                0 <= k < i && (#[trigger] list[k]).1.state == EntityState::Owned ==> read_back(
                    list[k].1.id,
                ),
        decreases registry.players.entries.len() - i,
    {
        let player = &registry.players.entries[i].1;
        proof {
            assert(list[i as int].1 == player@);
            assert(list.take(i + 1).drop_last() =~= list.take(i as int));
        }
        if player.state == EntityState::Owned {
            let parsed = uuid_parse_str(player.id.as_str());
            assert(read_back(player.id@));
            match parsed {
                Some(uuid) => {
                    let ghost before = sent(packets@);
                    let packet = position_packet(
                        to,
                        config.shard_id,
                        uuid,
                        player.pos_x,
                        player.pos_y,
                    );
                    packets.push(packet);
                    assert(sent(packets@) =~= before.push((packet.to, contents(packet.data))));
                },
                None => {},
            }
        }
        i = i + 1;
    }
    assert(list.take(i as int) =~= list);
    packets
}

/// The report of one player to the spatial service.
pub open spec fn position_report(
    spatial: Option<u128>,
    players: Seq<(u128, PlayerView)>,
    conn: u128,
    shard_id: u32,
    x: Single,
    y: Single,
) -> Option<(u128, Seq<u8>)> {
    match (spatial, lookup(players, conn)) {
        (Some(to), Some(p)) => match parsed_uuid(p.id) {
            Some(uuid) => Some((to, position_message(shard_id, uuid, x, y))),
            None => None,
        },
        _ => None,
    }
}

/// Reports where one player is to the spatial service: nothing where that is not
/// connected, the player is not known, or its identifier is no UUID.
pub fn send_position_update(
    spatial: &SpatialService,
    registry: &PlayerRegistry,
    conn: &u128,
    config: &ServerConfig,
    x: Single,
    y: Single,
) -> (r: Option<Packet>)
    ensures
        packet_view(r) == position_report(
            spatial.connection,
            registry@,
            *conn,
            config.shard_id,
            x,
            y,
        ),
        packet_view(r) == match (spatial.connection, lookup(registry@, *conn)) {
            (Some(to), Some(p)) => match parsed_uuid(p.id) {
                Some(uuid) => Some((to, position_message(config.shard_id, uuid, x, y))),
                None => None,
            },
            _ => None,
        },
{
    proof {
        lemma_views(registry.players.pairs(), *conn);
    }
    let to: u128 = match spatial.connection {
        Some(c) => c,
        None => return None,
    };
    match registry.players.get(conn) {
        Some(player) => match uuid_parse_str(player.id.as_str()) {
            Some(uuid) => Some(position_packet(to, config.shard_id, uuid, x, y)),
            None => None,
        },
        None => None,
    }
}

/// The players once one of them has said where it is and how fast.
pub open spec fn after_position(
    players: Seq<(u128, PlayerView)>,
    conn: u128,
    pos: [Single; 2],
    vel: [Single; 2],
) -> Seq<(u128, PlayerView)> {
    match lookup(players, conn) {
        Some(p) => put(
            players,
            conn,
            PlayerView { pos_x: pos[0], pos_y: pos[1], vel_x: vel[0], vel_y: vel[1], ..p },
        ),
        None => players,
    }
}

/// A player said where it is and how fast: the registry keeps it, and the spatial
/// service is told.
pub fn handle_update_pos(
    conn: u128,
    pos: [Single; 2],
    vel: [Single; 2],
    registry: &mut PlayerRegistry,
    spatial: &SpatialService,
    config: &ServerConfig,
) -> (r: Option<Packet>)
    ensures
        old(registry).wf() ==> final(registry).wf(),
        final(registry)@ == match lookup(old(registry)@, conn) {
            Some(p) => put(
                old(registry)@,
                conn,
                PlayerView { pos_x: pos[0], pos_y: pos[1], vel_x: vel[0], vel_y: vel[1], ..p },
            ),
            None => old(registry)@,
        },
        final(registry)@ == after_position(old(registry)@, conn, pos, vel),
        packet_view(r) == position_report(
            spatial.connection,
            old(registry)@,
            conn,
            config.shard_id,
            pos[0],
            pos[1],
        ),
        packet_view(r) == match (spatial.connection, lookup(old(registry)@, conn)) {
            (Some(to), Some(p)) => match parsed_uuid(p.id) {
                Some(uuid) => Some((to, position_message(config.shard_id, uuid, pos[0], pos[1]))),
                None => None,
            },
            _ => None,
        },
{
    proof {
        lemma_place(registry@, conn);
        lemma_put_again(registry@, conn);
    }
    registry.update_position(&conn, pos[0], pos[1]);
    registry.update_velocity(&conn, vel[0], vel[1]);
    send_position_update(spatial, registry, &conn, config, pos[0], pos[1])
}

/// Of two values put under one key the second stays.
proof fn lemma_put_again<V>(s: Seq<(u128, V)>, k: u128)
    ensures
        forall|v: V| lookup(#[trigger] put(s, k, v), k) == Some(v),
        forall|v: V, w: V| #[trigger] put(put(s, k, v), k, w) == put(s, k, w),
{
    assert forall|v: V| #![trigger put(s, k, v)]
        lookup(put(s, k, v), k) == Some(v) && place(put(s, k, v), k) == place(s, k) by {
        lemma_place(s, k);
        lemma_place_is(put(s, k, v), k, place(s, k));
    }
    assert forall|v: V, w: V| #[trigger] put(put(s, k, v), k, w) == put(s, k, w) by {
        lemma_place(s, k);
        assert(put(put(s, k, v), k, w) =~= put(s, k, w));
    }
}

/// A heartbeat tells of a server: who it is, where it listens, its zone and its
/// shard, how many players it has and how many it takes.
pub open spec fn tells_of(
    h: Heartbeat,
    config: ServerConfig,
    players: Seq<(u128, PlayerView)>,
) -> bool {
    &&& h.id@ == config.id@
    &&& h.ip@ == "127.0.0.1"@
    &&& h.port == config.port
    &&& h.zone@ == config.zone@
    &&& h.shard_id == config.shard_id
    &&& h.player_count == players.len()
    &&& h.max_players == config.max_players
}

/// What a server reports of itself, when it is time and if the orchestrator is
/// connected. Some time has gone by since the last call.
pub fn send_heartbeat(
    delta: u64,
    timer: &mut HeartbeatTimer,
    config: &ServerConfig,
    registry: &PlayerRegistry,
    orchestrator: &Orchestrator,
) -> (r: Option<(u128, Heartbeat)>)
    requires
        old(timer).0.wf(),
    ensures
        final(timer).0 == old(timer).0.later(delta),
        final(timer).0.wf(),
        match r {
            Some((to, h)) => {
                &&& old(timer).0.fires(delta)
                &&& orchestrator.connection == Some(to)
                &&& h.id@ == config.id@
                &&& h.ip@ == "127.0.0.1"@
                &&& h.port == config.port
                &&& h.zone@ == config.zone@
                &&& h.shard_id == config.shard_id
                &&& h.player_count == registry@.len()
                &&& h.max_players == config.max_players
            },
            None => !old(timer).0.fires(delta) || orchestrator.connection is None,
        },
        r matches Some((_, h)) ==> tells_of(h, *config, registry@),
{
    if !timer.0.tick(delta) {
        return None;
    }
    match orchestrator.connection {
        Some(to) => {
            let heartbeat = Heartbeat {
                id: config.id.clone(),
                ip: "127.0.0.1".to_string(),
                port: config.port,
                zone: config.zone.clone(),
                shard_id: config.shard_id,
                player_count: registry.get_player_count(),
                max_players: config.max_players,
            };
            Some((to, heartbeat))
        },
        None => None,
    }
}

/// The answer to a player who got in.
pub open spec fn welcome(id: u128) -> Seq<char> {
    "WELCOME "@ + uuid_text(id)
}

/// A player wants to join: it gets in, under an identifier drawn at random, if
/// there is room.
pub fn handle_join(
    username: &str,
    connection: u128,
    registry: &mut PlayerRegistry,
    max_players: usize,
) -> (r: Packet)
    ensures
        old(registry).wf() ==> final(registry).wf(),
        some_joined(
            old(registry)@,
            final(registry)@,
            r,
            username@,
            connection,
            max_players,
        ),
{
    let id: u128 = uuid_new_v4();
    handle_join_as(id, username, connection, registry, max_players)
}

/// The players, and the answer, once a player has asked to join.
pub open spec fn joined(
    before: Seq<(u128, PlayerView)>,
    after: Seq<(u128, PlayerView)>,
    answer: Packet,
    id: u128,
    username: Seq<char>,
    connection: u128,
    max_players: usize,
) -> bool {
    &&& answer.to == connection
    &&& if before.len() < max_players {
        &&& after == put(
            before,
            connection,
            new_player(id, trimmed(username), zero(), zero(), Some(connection)),
        )
        &&& contents(answer.data) == vstd::utf8::encode_utf8(welcome(id))
    } else {
        &&& after == before
        &&& contents(answer.data) == vstd::utf8::encode_utf8("FULL"@)
    }
}

/// The players, and the answer, once a player has asked to join, under an
/// identifier that was drawn.
pub open spec fn some_joined(
    before: Seq<(u128, PlayerView)>,
    after: Seq<(u128, PlayerView)>,
    answer: Packet,
    username: Seq<char>,
    from: u128,
    max_players: usize,
) -> bool {
    exists|id: u128|
        drawn(id) && #[trigger] joined(before, after, answer, id, username, from, max_players)
}

/// A player wants to join under an identifier.
pub fn handle_join_as(
    id: u128,
    username: &str,
    connection: u128,
    registry: &mut PlayerRegistry,
    max_players: usize,
) -> (r: Packet)
    ensures
        old(registry).wf() ==> final(registry).wf(),
        joined(
            old(registry)@,
            final(registry)@,
            r,
            id,
            username@,
            connection,
            max_players,
        ),
{
    let username = trim(username);
    if !registry.is_full(max_players) {
        let player = registry.add_player_as(connection, id, username);
        let mut response: String = "WELCOME ".to_string();
        response.append(player.id.as_str());
        assert(response@ =~= welcome(id));
        Packet { to: connection, data: bytes_from_string(response) }
    } else {
        Packet { to: connection, data: bytes_from_string("FULL".to_string()) }
    }
}

/// What a server hears.
#[derive(Debug)]
pub enum Incoming {
    /// Nothing that it takes notice of.
    Ignored,
    /// An input of a client, by way of the broker.
    ClientInput { uuid: u128, input: [u8; 16] },
    /// An alert of the spatial service, as it came.
    CrossingAlert,
    /// A message of another shard: its tag, and what it consists of beside.
    FromShard { tag: u8, body: Vec<u8> },
    /// A player wants to join.
    Join { username: String },
    /// A player says where it is and how fast: four numbers, as texts.
    UpdatePos { fields: Vec<String> },
}

/// What a message is, by its first byte or else by its text.
pub open spec fn heard(data: Seq<u8>, r: Incoming) -> bool {
    if data.len() == 0 {
        r is Ignored
    } else if data[0] == TAG_CLIENT_INPUT {
        if data.len() >= 33 {
            r matches Incoming::ClientInput { uuid, input } && uuid == id_at(data, 1) && input@
                == data.subrange(17, 33)
        } else {
            r is Ignored
        }
    } else if data[0] == TAG_CROSSING_ALERT {
        r is CrossingAlert
    } else if TAG_HANDOFF_REQUEST <= data[0] <= TAG_HANDOFF_COMPLETE {
        if data.len() > 1 {
            r matches Incoming::FromShard { tag, body } && tag == data[0] && body@ == data.skip(1)
        } else {
            r is Ignored
        }
    } else {
        heard_text(utf8_lossy(data), r)
    }
}

/// What a text message is: a player who wants to join, or who says where it is
/// and how fast.
pub open spec fn heard_text(text: Seq<char>, r: Incoming) -> bool {
    match after_prefix(text, "JOIN "@) {
        Some(name) => r matches Incoming::Join { username } && username@ == name,
        None => match after_prefix(text, "UPDATE_POS "@) {
            Some(rest) => if words(rest).len() >= 4 {
                r matches Incoming::UpdatePos { fields } && texts(fields@) == words(rest)
            } else {
                r is Ignored
            },
            None => r is Ignored,
        },
    }
}

/// What a text message is.
pub fn read_text(text: &str) -> (r: Incoming)
    ensures
        heard_text(text@, r),
{
    match strip_prefix(text, "JOIN ") {
        Some(username) => Incoming::Join { username },
        None => match strip_prefix(text, "UPDATE_POS ") {
            Some(rest) => {
                let fields = split_whitespace(rest.as_str());
                assert(texts(fields@).len() == fields@.len());
                if fields.len() >= 4 {
                    Incoming::UpdatePos { fields }
                } else {
                    Incoming::Ignored
                }
            },
            None => Incoming::Ignored,
        },
    }
}

/// Tells what a message is.
pub fn hear(data: &[u8]) -> (r: Incoming)
    ensures
        heard(data@, r),
{
    if data.len() == 0 {
        return Incoming::Ignored;
    }
    let tag: u8 = data[0];
    if tag == TAG_CLIENT_INPUT {
        if data.len() >= 33 {
            let uuid: u128 = read_id(data, 1);
            let mut input: [u8; 16] = [0u8; 16];
            let mut i: usize = 0;
            while i < 16
                invariant
                    i <= 16,
                    data@.len() >= 33,
                    forall|k: int| 0 <= k < i ==> input@[k] == data@[17 + k],
                decreases 16 - i,
            {
                input[i] = data[17 + i];
                i = i + 1;
            }
            assert(input@ =~= data@.subrange(17, 33));
            Incoming::ClientInput { uuid, input }
        } else {
            Incoming::Ignored
        }
    } else if tag == TAG_CROSSING_ALERT {
        Incoming::CrossingAlert
    } else if TAG_HANDOFF_REQUEST <= tag && tag <= TAG_HANDOFF_COMPLETE {
        if data.len() > 1 {
            let mut body: Vec<u8> = Vec::new();
            let len: usize = data.len();
            let mut i: usize = 1;
            while i < len
                invariant
                    1 <= i <= len,
                    len == data@.len(),
                    body@ == data@.subrange(1, i as int),
                decreases len - i,
            {
                body.push(data[i]);
                assert(body@ =~= data@.subrange(1, i + 1));
                i = i + 1;
            }
            assert(body@ =~= data@.skip(1));
            Incoming::FromShard { tag, body }
        } else {
            Incoming::Ignored
        }
    } else {
        read_text(string_from_utf8_lossy(data).as_str())
    }
}

/// A client that wants to join is taken in by one shard at most, so that an
/// input that reaches several shards makes no two players.
pub proof fn law_one_shard_takes_a_joining_client(
    players_a: Seq<(u128, PlayerView)>,
    players_b: Seq<(u128, PlayerView)>,
    uuid: u128,
    input: Seq<u8>,
    shard_a: u32,
    shard_b: u32,
    max_a: usize,
    max_b: usize,
)
    requires
        shard_a != shard_b,
        input.len() >= 9,
        input[0] == INPUT_JOIN,
    ensures
        after_input(players_a, uuid, input, shard_a, max_a) == players_a || after_input(
            players_b,
            uuid,
            input,
            shard_b,
            max_b,
        ) == players_b,
{
}

/// Inputs never bring in more players than there is room for.
pub proof fn law_inputs_respect_capacity(
    players: Seq<(u128, PlayerView)>,
    uuid: u128,
    input: Seq<u8>,
    shard_id: u32,
    max_players: usize,
)
    ensures
        after_input(players, uuid, input, shard_id, max_players).len() <= players.len()
            || after_input(players, uuid, input, shard_id, max_players).len() <= max_players,
{
    lemma_place(players, uuid);
    lemma_player_place(players, uuid_text(uuid));
}

/// Every player, and every copy of an entity, whose identifier is a UUID is told
/// of, where it is.
pub proof fn law_entities_are_visible(list: Seq<PlayerView>, i: int, uuid: u128)
    requires
        0 <= i < list.len(),
        parsed_uuid(list[i].id) == Some(uuid),
    ensures
        entities_of(list).contains((uuid, list[i].pos_x, list[i].pos_y)),
    decreases list.len(),
{
    let all = entities_of(list);
    let rest = entities_of(list.drop_last());
    let e: Entity = (uuid, list[i].pos_x, list[i].pos_y);
    if i == list.len() - 1 {
        assert(all[rest.len() as int] == e);
    } else {
        assert(list.drop_last()[i] == list[i]);
        law_entities_are_visible(list.drop_last(), i, uuid);
        let k = choose|k: int| 0 <= k < rest.len() && rest[k] == e;
        assert(all[k] == e);
    }
}

/// Nothing is reported of a player that another shard is taking over, or owns.
pub proof fn law_only_owned_are_reported(
    players: Seq<(u128, PlayerView)>,
    shard_id: u32,
    to: u128,
)
    requires
        forall|i: int|
            0 <= i < players.len() ==> (#[trigger] players[i]).1.state != EntityState::Owned,
    ensures
        reports(players, shard_id, to).len() == 0,
    decreases players.len(),
{
    if players.len() > 0 {
        let front = players.drop_last();
        assert forall|i: int| 0 <= i < front.len() implies (#[trigger] front[i]).1.state
            != EntityState::Owned by {
            assert(front[i] == players[i]);
        }
        law_only_owned_are_reported(front, shard_id, to);
        assert(players[players.len() - 1].1.state != EntityState::Owned);
    }
}

/// A client moves as it says: after a MOVE with two numbers, whatever these are, the
/// client's player has them as its velocity, and nothing else of any player changes.
/// Where the client has no player here, nothing changes.
pub proof fn law_move_sets_the_velocity(
    players: Seq<(u128, PlayerView)>,
    uuid: u128,
    input: Seq<u8>,
    vx: Single,
    vy: Single,
    shard_id: u32,
    max_players: usize,
    n: int,
)
    requires
        input.len() >= 9,
        input[0] == 0x02,
        input.subrange(1, 5) == le32(vx.bits),
        input.subrange(5, 9) == le32(vy.bits),
    ensures
        ({
            let after = after_input(players, uuid, input, shard_id, max_players);
            &&& is_first(players, uuid_text(uuid), n) ==> after == players.update(
                n,
                (players[n].0, PlayerView { vel_x: vx, vel_y: vy, ..players[n].1 }),
            )
            &&& is_unknown(players, uuid_text(uuid)) ==> after == players
        }),
{
    lemma_u32_at(input, 1, vx.bits);
    lemma_u32_at(input, 5, vy.bits);
    law_players_are_found(players, uuid_text(uuid), n);
}

/// A client that leaves is gone: its player is removed, and every other player
/// stays as it is, in order. Where the client has no player here, nothing
/// changes.
pub proof fn law_leave_removes_the_player(
    players: Seq<(u128, PlayerView)>,
    uuid: u128,
    input: Seq<u8>,
    shard_id: u32,
    max_players: usize,
    n: int,
)
    requires
        input.len() >= 1,
        input[0] == 0x03,
    ensures
        ({
            let after = after_input(players, uuid, input, shard_id, max_players);
            &&& is_first(players, uuid_text(uuid), n) ==> after == players.take(n) + players.skip(
                n + 1,
            )
            &&& is_unknown(players, uuid_text(uuid)) ==> after == players
        }),
{
    law_one_player_leaves(players, uuid_text(uuid), n);
}

/// A client that joins where this shard owns has, if there is room, a player
/// there, at rest, under its UUID; every other player stays. Where the shard
/// does not own the position, or is full, nothing changes.
pub proof fn law_join_makes_a_player(
    players: Seq<(u128, PlayerView)>,
    uuid: u128,
    input: Seq<u8>,
    x: Single,
    y: Single,
    shard_id: u32,
    max_players: usize,
    other: u128,
)
    requires
        distinct(players),
        input.len() >= 9,
        input[0] == 0x01,
        input.subrange(1, 5) == le32(x.bits),
        input.subrange(5, 9) == le32(y.bits),
    ensures
        ({
            let after = after_input(players, uuid, input, shard_id, max_players);
            let taken = default_tree().owner([x, y]) == Some(shard_id) && players.len() < max_players;
            &&& !taken ==> after == players
            &&& taken ==> {
                &&& lookup(after, uuid) == Some(
                    PlayerView {
                        id: uuid_text(uuid),
                        username: "player"@,
                        pos_x: x,
                        pos_y: y,
                        vel_x: Single { bits: 0 },
                        vel_y: Single { bits: 0 },
                        state: EntityState::Owned,
                        owner_shard_id: None,
                        conn: None,
                    },
                )
                &&& other != uuid ==> lookup(after, other) == lookup(players, other)
                &&& distinct(after)
            }
        }),
{
    lemma_u32_at(input, 1, x.bits);
    lemma_u32_at(input, 5, y.bits);
    law_server_agrees_with_tree(x, y);
    law_put_lookup(players, uuid, new_player(uuid, "player"@, x, y, None), other);
}

/// An input that is empty, of another kind, or a JOIN or MOVE that is cut off,
/// changes nothing.
pub proof fn law_other_inputs_change_nothing(
    players: Seq<(u128, PlayerView)>,
    uuid: u128,
    input: Seq<u8>,
    shard_id: u32,
    max_players: usize,
)
    requires
        input.len() == 0 || input[0] == 0 || input[0] > 3 || (input.len() < 9 && input[0] != 0x03),
    ensures
        after_input(players, uuid, input, shard_id, max_players) == players,
{
}

/// Every player moves by its own velocity, along each axis, and changes in
/// nothing else; none is added, lost or moved to another place of the list.
pub proof fn law_players_move_by_their_velocity(
    players: Seq<(u128, PlayerView)>,
    dt: Single,
    i: int,
)
    requires
        0 <= i < players.len(),
    ensures
        all_moved(players, dt).len() == players.len(),
        all_moved(players, dt)[i] == (
            players[i].0,
            PlayerView {
                id: players[i].1.id,
                username: players[i].1.username,
                pos_x: sum(players[i].1.pos_x, product(players[i].1.vel_x, dt)),
                pos_y: sum(players[i].1.pos_y, product(players[i].1.vel_y, dt)),
                vel_x: players[i].1.vel_x,
                vel_y: players[i].1.vel_y,
                state: players[i].1.state,
                owner_shard_id: players[i].1.owner_shard_id,
                conn: players[i].1.conn,
            },
        ),
{
}

/// A player whose velocity is zero stays where it is, over any finite time; and
/// what is true along one axis is true along the other.
pub proof fn law_players_at_rest_stay(p: PlayerView, dt: Single)
    requires
        p.pos_x.finite(),
        p.pos_y.finite(),
        dt.finite(),
        p.vel_x.magnitude() == 0,
        p.vel_y.magnitude() == 0,
    ensures
        moved(p, dt).pos_x.value() == p.pos_x.value(),
        moved(p, dt).pos_y.value() == p.pos_y.value(),
{
    lemma_nothing_added(p.pos_x, p.vel_x, dt);
    lemma_nothing_added(p.pos_y, p.vel_y, dt);
}

/// The entities of some players and of others are told one after the other.
pub proof fn law_entities_are_told_in_turn(a: Seq<PlayerView>, b: Seq<PlayerView>)
    ensures
        entities_of(a + b) == entities_of(a) + entities_of(b),
    decreases b.len(),
{
    if b.len() == 0 {
        assert(a + b =~= a);
        assert(entities_of(a) + entities_of(b) =~= entities_of(a));
    } else {
        law_entities_are_told_in_turn(a, b.drop_last());
        assert((a + b).drop_last() =~= a + b.drop_last());
        assert(entities_of(a + b) =~= entities_of(a) + entities_of(b));
    }
}

/// A player is told of once, by its UUID and where it is; one without a UUID is not.
pub proof fn law_one_entity_is_told(p: PlayerView)
    ensures
        entities_of(seq![p]) == match parsed_uuid(p.id) {
            Some(uuid) => seq![(uuid, p.pos_x, p.pos_y)],
            None => Seq::<Entity>::empty(),
        },
{
    assert(seq![p].drop_last() =~= Seq::empty());
    assert(entities_of(seq![p].drop_last()) =~= Seq::<Entity>::empty());
    assert(entities_of(seq![p]) =~= match parsed_uuid(p.id) {
        Some(uuid) => seq![(uuid, p.pos_x, p.pos_y)],
        None => Seq::<Entity>::empty(),
    });
}

/// Clients are told of exactly the players and the ghosts that have a UUID, whatever
/// state they are in, where they are.
pub proof fn law_exactly_players_and_ghosts_are_visible(
    players: Seq<(u128, PlayerView)>,
    ghosts: Seq<(Seq<char>, PlayerView)>,
    e: Entity,
)
    ensures
        visible(players, ghosts).contains(e) <==> {
            ||| exists|i: int| 0 <= i < players.len() && is_entity((#[trigger] players[i]).1, e)
            ||| exists|i: int| 0 <= i < ghosts.len() && is_entity((#[trigger] ghosts[i]).1, e)
        },
{
    let a = entities_of(values(players));
    let b = entities_of(values(ghosts));
    let all = visible(players, ghosts);
    lemma_entities_contain(values(players), e);
    lemma_entities_contain(values(ghosts), e);
    if all.contains(e) {
        let k = choose|k: int| 0 <= k < all.len() && all[k] == e;
        if k < a.len() {
            assert(a[k] == e);
            let i = choose|i: int| 0 <= i < players.len() && is_entity(
                #[trigger] values(players)[i],
                e,
            );
            assert(is_entity(players[i].1, e));
        } else {
            assert(b[k - a.len()] == e);
            let i = choose|i: int| 0 <= i < ghosts.len() && is_entity(
                #[trigger] values(ghosts)[i],
                e,
            );
            assert(is_entity(ghosts[i].1, e));
        }
    }
    if exists|i: int| 0 <= i < players.len() && is_entity((#[trigger] players[i]).1, e) {
        let i = choose|i: int| 0 <= i < players.len() && is_entity((#[trigger] players[i]).1, e);
        assert(is_entity(values(players)[i], e));
        let k = choose|k: int| 0 <= k < a.len() && a[k] == e;
        assert(all[k] == e);
    }
    if exists|i: int| 0 <= i < ghosts.len() && is_entity((#[trigger] ghosts[i]).1, e) {
        let i = choose|i: int| 0 <= i < ghosts.len() && is_entity((#[trigger] ghosts[i]).1, e);
        assert(is_entity(values(ghosts)[i], e));
        let k = choose|k: int| 0 <= k < b.len() && b[k] == e;
        assert(all[a.len() + k] == e);
    }
}

/// An entity is that of a player: it has the UUID of its identifier, and is where the
/// player is.
pub open spec fn is_entity(p: PlayerView, e: Entity) -> bool {
    parsed_uuid(p.id) == Some(e.0) && e.1 == p.pos_x && e.2 == p.pos_y
}

proof fn lemma_entities_contain(list: Seq<PlayerView>, e: Entity)
    ensures
        entities_of(list).contains(e) <==> exists|i: int|
            0 <= i < list.len() && is_entity(#[trigger] list[i], e),
    decreases list.len(),
{
    if list.len() > 0 {
        let front = list.drop_last();
        let rest = entities_of(front);
        let all = entities_of(list);
        let last = list[list.len() - 1];
        lemma_entities_contain(front, e);
        if all.contains(e) {
            let k = choose|k: int| 0 <= k < all.len() && all[k] == e;
            if k < rest.len() {
                assert(rest[k] == e);
                let i = choose|i: int| 0 <= i < front.len() && is_entity(#[trigger] front[i], e);
                assert(is_entity(list[i], e));
            } else {
                assert(is_entity(list[list.len() - 1], e));
            }
        }
        if exists|i: int| 0 <= i < list.len() && is_entity(#[trigger] list[i], e) {
            let i = choose|i: int| 0 <= i < list.len() && is_entity(#[trigger] list[i], e);
            if i < front.len() {
                assert(is_entity(front[i], e));
                let k = choose|k: int| 0 <= k < rest.len() && rest[k] == e;
                assert(all[k] == e);
            } else {
                assert(all[rest.len() as int] == e);
            }
        }
    }
}

/// A server publishes when it is time and there is a broker, to that broker,
/// all that is visible, as long as its number fits two bytes; and otherwise
/// nothing. It publishes the same at both rates, under its near topic at the
/// full rate and under its far topic at the low rate.
pub proof fn law_publication_is_owed(
    due: bool,
    broker: Option<u128>,
    shard_id: u32,
    players: Seq<(u128, PlayerView)>,
    ghosts: Seq<(Seq<char>, PlayerView)>,
)
    ensures
        ({
            let list = visible(players, ghosts);
            let near = near_publication(due, broker, shard_id, players, ghosts);
            let far = far_publication(due, broker, shard_id, players, ghosts);
            &&& near is Some <==> due && broker is Some && list.len() <= 0xffff
            &&& far is Some <==> due && broker is Some && list.len() <= 0xffff
            &&& near matches Some((to, data)) ==> broker == Some(to) && data == publish_message(
                topic_of(near_label(shard_id)),
                state_payload(list),
            )
            &&& far matches Some((to, data)) ==> broker == Some(to) && data == publish_message(
                topic_of(far_label(shard_id)),
                state_payload(list),
            )
        }),
{
}

/// The players of a list are reported one after the other.
pub proof fn law_players_are_reported_in_turn(
    a: Seq<(u128, PlayerView)>,
    b: Seq<(u128, PlayerView)>,
    shard_id: u32,
    to: u128,
)
    ensures
        reports(a + b, shard_id, to) == reports(a, shard_id, to) + reports(b, shard_id, to),
    decreases b.len(),
{
    if b.len() == 0 {
        assert(a + b =~= a);
        assert(reports(a, shard_id, to) + reports(b, shard_id, to) =~= reports(a, shard_id, to));
    } else {
        law_players_are_reported_in_turn(a, b.drop_last(), shard_id, to);
        assert((a + b).drop_last() =~= a + b.drop_last());
        assert(reports(a + b, shard_id, to) =~= reports(a, shard_id, to) + reports(
            b,
            shard_id,
            to,
        ));
    }
}

/// A player that this shard owns is reported once, to the spatial service, by
/// its UUID and where it is; one that is being handed over, or has no UUID, is
/// not.
pub proof fn law_one_player_is_reported(entry: (u128, PlayerView), shard_id: u32, to: u128)
    ensures
        reports(seq![entry], shard_id, to) == match parsed_uuid(entry.1.id) {
            Some(uuid) if entry.1.state == EntityState::Owned => seq![
                (to, position_message(shard_id, uuid, entry.1.pos_x, entry.1.pos_y)),
            ],
            _ => Seq::<(u128, Seq<u8>)>::empty(),
        },
{
    let one = seq![entry];
    assert(one.drop_last() =~= Seq::empty());
    assert(reports(one.drop_last(), shard_id, to) =~= Seq::empty());
    assert(reports(one, shard_id, to) =~= match parsed_uuid(entry.1.id) {
        Some(uuid) if entry.1.state == EntityState::Owned => seq![
            (to, position_message(shard_id, uuid, entry.1.pos_x, entry.1.pos_y)),
        ],
        _ => Seq::<(u128, Seq<u8>)>::empty(),
    });
}

/// A player who says where it is and how fast is there, and moves so, from then
/// on; no other player changes, and one who is not known changes nothing.
pub proof fn law_told_position_is_taken(
    players: Seq<(u128, PlayerView)>,
    conn: u128,
    pos: [Single; 2],
    vel: [Single; 2],
    other: u128,
)
    requires
        distinct(players),
    ensures
        ({
            let after = after_position(players, conn, pos, vel);
            &&& lookup(players, conn) is None ==> after == players
            &&& lookup(players, conn) matches Some(p) ==> lookup(after, conn) == Some(
                PlayerView {
                    id: p.id,
                    username: p.username,
                    pos_x: pos[0],
                    pos_y: pos[1],
                    vel_x: vel[0],
                    vel_y: vel[1],
                    state: p.state,
                    owner_shard_id: p.owner_shard_id,
                    conn: p.conn,
                },
            )
            &&& other != conn ==> lookup(after, other) == lookup(players, other)
        }),
{
    if let Some(p) = lookup(players, conn) {
        law_put_lookup(
            players,
            conn,
            PlayerView { pos_x: pos[0], pos_y: pos[1], vel_x: vel[0], vel_y: vel[1], ..p },
            other,
        );
    }
}

/// A player who asks to join gets in exactly where there is room: then it
/// stands under its connection, at the origin and at rest, under the name that
/// it gave without white space at its ends, and is told its identifier; and
/// otherwise it is told that the server is full, and nothing changes.
pub proof fn law_joining_player_gets_in(
    before: Seq<(u128, PlayerView)>,
    after: Seq<(u128, PlayerView)>,
    answer: Packet,
    id: u128,
    username: Seq<char>,
    connection: u128,
    max_players: usize,
    other: u128,
)
    requires
        distinct(before),
        joined(before, after, answer, id, username, connection, max_players),
    ensures
        answer.to == connection,
        before.len() >= max_players ==> after == before && contents(answer.data)
            == vstd::utf8::encode_utf8("FULL"@),
        before.len() < max_players ==> {
            &&& lookup(after, connection) == Some(
                PlayerView {
                    id: uuid_text(id),
                    username: trimmed(username),
                    pos_x: Single { bits: 0 },
                    pos_y: Single { bits: 0 },
                    vel_x: Single { bits: 0 },
                    vel_y: Single { bits: 0 },
                    state: EntityState::Owned,
                    owner_shard_id: None,
                    conn: Some(connection),
                },
            )
            &&& other != connection ==> lookup(after, other) == lookup(before, other)
            &&& contents(answer.data) == vstd::utf8::encode_utf8("WELCOME "@ + uuid_text(id))
        },
{
    law_put_lookup(
        before,
        connection,
        new_player(id, trimmed(username), zero(), zero(), Some(connection)),
        other,
    );
}

/// A message of another shard is heard as it came: its first byte tells its
/// kind, and the rest is its body; without a body it is ignored, and so is an
/// empty message.
pub proof fn law_shard_messages_are_heard(data: Seq<u8>, r: Incoming)
    requires
        heard(data, r),
    ensures
        data.len() == 0 ==> r is Ignored,
        data.len() == 1 && 0x20 <= data[0] <= 0x24 ==> r is Ignored,
        data.len() > 1 && 0x20 <= data[0] <= 0x24 ==> (r matches Incoming::FromShard { tag, body }
            && seq![tag] + body@ == data),
        data.len() > 0 && data[0] == 0x05 && data.len() < 33 ==> r is Ignored,
{
    if data.len() > 1 && 0x20 <= data[0] <= 0x24 {
        assert(seq![data[0]] + data.skip(1) =~= data);
    }
}

/// A text that asks to join is heard as that, with the name that follows; one
/// that gives a position and a velocity, as four words or more, as that; any
/// other text is ignored.
pub proof fn law_texts_are_heard(rest: Seq<char>, text: Seq<char>, r: Incoming)
    ensures
        heard_text("JOIN "@ + rest, r) ==> (r matches Incoming::Join { username } && username@
            == rest),
        heard_text("UPDATE_POS "@ + rest, r) && words(rest).len() >= 4 ==> (r matches
            Incoming::UpdatePos { fields } && texts(fields@) == words(rest)),
        heard_text("UPDATE_POS "@ + rest, r) && words(rest).len() < 4 ==> r is Ignored,
        heard_text(text, r) && !"JOIN "@.is_prefix_of(text) && !"UPDATE_POS "@.is_prefix_of(text)
            ==> r is Ignored,
{
    reveal_strlit("JOIN ");
    reveal_strlit("UPDATE_POS ");
    let a = "JOIN "@ + rest;
    let b = "UPDATE_POS "@ + rest;
    assert(a.take(5) =~= "JOIN "@);
    assert(a.skip(5) =~= rest);
    assert(b.take(11) =~= "UPDATE_POS "@);
    assert(b.skip(11) =~= rest);
    assert(b[0] == 'U' && "JOIN "@[0] == 'J');
}

/// A heartbeat tells the orchestrator that a server has room exactly where a further
/// player could join it.
pub proof fn law_heartbeat_tells_of_room(
    h: Heartbeat,
    config: ServerConfig,
    players: Seq<(u128, PlayerView)>,
)
    requires
        tells_of(h, config, players),
    ensures
        status(h.player_count as int, h.max_players as int) == (if players.len() < config.max_players {
            "available"@
        } else {
            "full"@
        }),
        h.player_count == players.len(),
        h.max_players == config.max_players,
        h.port == config.port,
        h.zone@ == config.zone@,
        h.id@ == config.id@,
        h.shard_id == config.shard_id,
        h.ip@ == "127.0.0.1"@,
{
}

/// The spatial service is sent reports exactly when it is time and it is
/// connected: one for each player that this shard owns and that has a UUID,
/// where it is.
pub proof fn law_reports_are_sent_in_time(
    due: bool,
    spatial: Option<u128>,
    players: Seq<(u128, PlayerView)>,
    shard_id: u32,
    i: int,
    uuid: u128,
)
    ensures
        !due || spatial is None ==> due_reports(due, spatial, players, shard_id).len() == 0,
        due && spatial is Some && 0 <= i < players.len() && players[i].1.state == EntityState::Owned
            && parsed_uuid(players[i].1.id) == Some(uuid) ==> due_reports(
            due,
            spatial,
            players,
            shard_id,
        ).contains(
            (
                spatial.unwrap(),
                position_message(shard_id, uuid, players[i].1.pos_x, players[i].1.pos_y),
            ),
        ),
        due_reports(due, spatial, players, shard_id).len() <= players.len(),
{
    if due && spatial is Some {
        let to = spatial.unwrap();
        lemma_reports_length(players, shard_id, to);
        if 0 <= i < players.len() && players[i].1.state == EntityState::Owned && parsed_uuid(
            players[i].1.id,
        ) == Some(uuid) {
            let a = players.take(i);
            let one = seq![players[i]];
            let b = players.skip(i + 1);
            assert(players =~= a + (one + b));
            law_players_are_reported_in_turn(a, one + b, shard_id, to);
            law_players_are_reported_in_turn(one, b, shard_id, to);
            law_one_player_is_reported(players[i], shard_id, to);
            let all = reports(players, shard_id, to);
            assert(all[reports(a, shard_id, to).len() as int] == reports(one, shard_id, to)[0]);
        }
    }
}

proof fn lemma_reports_length(players: Seq<(u128, PlayerView)>, shard_id: u32, to: u128)
    ensures
        reports(players, shard_id, to).len() <= players.len(),
    decreases players.len(),
{
    if players.len() > 0 {
        lemma_reports_length(players.drop_last(), shard_id, to);
    }
}

/// A player who says where it is is reported there, where it is known, has a
/// UUID, and the spatial service is connected; and otherwise not.
pub proof fn law_told_position_is_reported(
    spatial: Option<u128>,
    players: Seq<(u128, PlayerView)>,
    conn: u128,
    shard_id: u32,
    x: Single,
    y: Single,
)
    ensures
        ({
            let r = position_report(spatial, players, conn, shard_id, x, y);
            let p = lookup(players, conn);
            &&& r is Some <==> spatial is Some && p is Some && parsed_uuid(p.unwrap().id) is Some
            &&& r is Some ==> r == Some(
                (
                    spatial.unwrap(),
                    position_message(shard_id, parsed_uuid(p.unwrap().id).unwrap(), x, y),
                ),
            )
        }),
{
}

/// What begins with none of the bytes of a client's input, an alert or a
/// shard's message is heard as the text that it stands for; an alert is heard
/// as one.
pub proof fn law_the_rest_is_heard_as_text(data: Seq<u8>, r: Incoming)
    requires
        heard(data, r),
        data.len() > 0,
    ensures
        data[0] != 0x05 && data[0] != 0x11 && !(0x20 <= data[0] <= 0x24) ==> heard_text(
            utf8_lossy(data),
            r,
        ),
        data[0] == 0x11 ==> r is CrossingAlert,
        data[0] == 0x05 && data.len() >= 33 ==> (r matches Incoming::ClientInput { uuid, input } && uuid
            == id_at(data, 1) && input@ == data.subrange(17, 33)),
{
}

} // verus!
