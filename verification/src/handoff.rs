//! The handoff of entities from shard to shard.
//!
//! A shard that owns an entity asks the shard that it nears to take it over, and
//! asks again until that shard accepts, which keeps a copy, a ghost. Then the
//! owner tells where the entity is. Once it has left, the owner lets it go, and
//! the ghost becomes the other shard's own entity.

use crate::outside::{parsed_uuid, read_back, uuid_parse_str, uuid_text, uuid_to_string};
use crate::quad_tree::grid_shard;
use crate::resources::{
    has_player, ids_distinct, is_first, lemma_player_place, lemma_player_place_is, new_handoff,
    player_place, promoted, with_state, without_player, BrokerConnection, Countdown, HandoffManager,
    HandoffView, PlayerInfo, PlayerRegistry, PlayerView, ServerConfig,
};
use crate::server::shard_for_2x2;
use crate::shared::{
    EntityState, GhostUpdate, HandoffAccept, HandoffComplete, HandoffReject, HandoffRequest,
};
use crate::single::Single;
use crate::text::texts;
use crate::vec_map::{
    distinct, holds_key, law_put_lookup, law_without_lookup, lemma_place, lemma_place_is,
    lemma_views, lookup, place, put, without,
};
use crate::wire::{
    id_at, read_id, read_le32, u32_at, TAG_GHOST_UPDATE, TAG_HANDOFF_ACCEPT, TAG_HANDOFF_COMPLETE,
    TAG_HANDOFF_REJECT, TAG_HANDOFF_REQUEST,
};
use vstd::prelude::*;

verus! {

/// A message from shard to shard.
#[derive(Debug)]
pub enum ShardMessage {
    Request(HandoffRequest),
    Accept(HandoffAccept),
    Reject(HandoffReject),
    Update(GhostUpdate),
    Complete(HandoffComplete),
}

/// What a message from shard to shard says, its texts by their characters.
pub enum Said {
    Request {
        entity: Seq<char>,
        from_shard: u32,
        pos: (Single, Single),
        vel: (Single, Single),
        state: Seq<u8>,
    },
    Accept { entity: Seq<char> },
    Reject { entity: Seq<char> },
    Update { entity: Seq<char>, pos: (Single, Single), vel: (Single, Single) },
    Complete { entity: Seq<char> },
}

impl View for ShardMessage {
    type V = Said;

    open spec fn view(&self) -> Said {
        match self {
            ShardMessage::Request(m) => Said::Request {
                entity: m.entity_id@,
                from_shard: m.from_shard,
                pos: (m.pos_x, m.pos_y),
                vel: (m.vel_x, m.vel_y),
                state: m.state@,
            },
            ShardMessage::Accept(m) => Said::Accept { entity: m.entity_id@ },
            ShardMessage::Reject(m) => Said::Reject { entity: m.entity_id@ },
            ShardMessage::Update(m) => Said::Update {
                entity: m.entity_id@,
                pos: (m.pos_x, m.pos_y),
                vel: (m.vel_x, m.vel_y),
            },
            ShardMessage::Complete(m) => Said::Complete { entity: m.entity_id@ },
        }
    }
}

impl ShardMessage {
    /// The byte that a message of this kind begins with.
    pub fn tag(&self) -> (r: u8)
        ensures
            r == tag_of(self@),
    {
        match self {
            ShardMessage::Request(_) => TAG_HANDOFF_REQUEST,
            ShardMessage::Accept(_) => TAG_HANDOFF_ACCEPT,
            ShardMessage::Reject(_) => TAG_HANDOFF_REJECT,
            ShardMessage::Update(_) => TAG_GHOST_UPDATE,
            ShardMessage::Complete(_) => TAG_HANDOFF_COMPLETE,
        }
    }
}

/// The byte that a message begins with.
pub open spec fn tag_of(m: Said) -> u8 {
    match m {
        Said::Request { .. } => TAG_HANDOFF_REQUEST,
        Said::Accept { .. } => TAG_HANDOFF_ACCEPT,
        Said::Reject { .. } => TAG_HANDOFF_REJECT,
        Said::Update { .. } => TAG_GHOST_UPDATE,
        Said::Complete { .. } => TAG_HANDOFF_COMPLETE,
    }
}

/// A message for a shard.
#[derive(Debug)]
pub struct Routed {
    pub dest_shard: u32,
    pub message: ShardMessage,
}

/// What messages say, and to which shards.
pub open spec fn routed(messages: Seq<Routed>) -> Seq<(u32, Said)> {
    Seq::new(messages.len(), |i: int| (messages[i].dest_shard, messages[i].message@))
}

/// What a message says, and to which shard, if there is one.
pub open spec fn routed_view(m: Option<Routed>) -> Option<(u32, Said)> {
    match m {
        Some(m) => Some((m.dest_shard, m.message@)),
        None => None,
    }
}

/// A player, as the shard that is to take it over is told of it.
pub open spec fn request_of(p: PlayerView, from_shard: u32) -> Said {
    Said::Request {
        entity: p.id,
        from_shard,
        pos: (p.pos_x, p.pos_y),
        vel: (p.vel_x, p.vel_y),
        state: Seq::empty(),
    }
}

/// Whether an alert starts a handoff: the player is owned here, is not being
/// handed over, and there is a broker.
pub open spec fn alert_starts(
    players: Seq<(u128, PlayerView)>,
    handoffs: Seq<(Seq<char>, HandoffView)>,
    broker: Option<u128>,
    data: Seq<u8>,
) -> bool {
    let id = uuid_text(id_at(data, 1));
    &&& data.len() >= 21
    &&& has_player(players, id)
    &&& players[player_place(players, id)].1.state == EntityState::Owned
    &&& !(holds_key(handoffs, id))
    &&& broker is Some
}

/// The spatial service says that an entity nears the border to another shard:
/// its handoff starts. The alert is a tag, the UUID of the entity (16) and the
/// other shard (4).
pub fn handle_crossing_alert(
    data: &[u8],
    registry: &mut PlayerRegistry,
    handoff_mgr: &mut HandoffManager,
    broker: &BrokerConnection,
    config: &ServerConfig,
) -> (r: Option<Routed>)
    ensures
        old(registry).wf() ==> final(registry).wf(),
        old(handoff_mgr).wf() ==> final(handoff_mgr).wf(),
        final(handoff_mgr).ghosts() == old(handoff_mgr).ghosts(),
        final(handoff_mgr).shard_connections@ == old(handoff_mgr).shard_connections@,
        ({
            let players = old(registry)@;
            let handoffs = old(handoff_mgr).handoffs();
            let id = uuid_text(id_at(data@, 1));
            let dest = u32_at(data@, 17);
            if alert_starts(players, handoffs, broker.connection, data@) {
                &&& final(registry)@ == with_state(players, id, EntityState::PendingHandoff)
                &&& final(handoff_mgr).handoffs() == put(
                    handoffs,
                    id,
                    new_handoff(id, config.shard_id, dest, Seq::empty()),
                )
                &&& routed_view(r) == Some(
                    (dest, request_of(players[player_place(players, id)].1, config.shard_id)),
                )
            } else {
                final(registry)@ == players && final(handoff_mgr).handoffs() == handoffs && r is None
            }
        }),
{
    if data.len() < 21 {
        return None;
    }
    let uuid: u128 = read_id(data, 1);
    let dest_shard_id: u32 = read_le32(data, 17);
    let uuid_str = uuid_to_string(uuid);
    let player: PlayerInfo = match registry.get_player_by_id(uuid_str.as_str()) {
        Some(p) => p.clone(),
        None => return None,
    };
    proof {
        lemma_player_place(registry@, uuid_str@);
    }
    if player.state != EntityState::Owned {
        return None;
    }
    if handoff_mgr.is_handoff_in_progress(player.id.as_str()) {
        return None;
    }
    if broker.connection.is_none() {
        return None;
    }
    registry.set_state_by_uuid(uuid, EntityState::PendingHandoff);
    let state: Vec<u8> = Vec::new();
    assert(state@ =~= Seq::empty());
    handoff_mgr.start_handoff(player.id.clone(), config.shard_id, dest_shard_id, state);
    let state: Vec<u8> = Vec::new();
    assert(state@ =~= Seq::empty());
    let message = ShardMessage::Request(
        HandoffRequest {
            entity_id: player.id,
            from_shard: config.shard_id,
            pos_x: player.pos_x,
            pos_y: player.pos_y,
            vel_x: player.vel_x,
            vel_y: player.vel_y,
            state,
        },
    );
    Some(Routed { dest_shard: dest_shard_id, message })
}

/// The copy of an entity that a shard asked to be taken over.
pub open spec fn ghost_of(req: HandoffRequest) -> PlayerView {
    PlayerView {
        id: req.entity_id@,
        username: "ghost"@,
        pos_x: req.pos_x,
        pos_y: req.pos_y,
        vel_x: req.vel_x,
        vel_y: req.vel_y,
        state: EntityState::GhostCopy,
        owner_shard_id: Some(req.from_shard),
        conn: None,
    }
}

/// A shard asks for an entity to be taken over: a copy of it is kept from now
/// on, and the shard is told so. Without a broker nothing happens.
pub fn handle_handoff_request(
    req: HandoffRequest,
    handoff_mgr: &mut HandoffManager,
    broker: &BrokerConnection,
) -> (r: Option<Routed>)
    ensures
        old(handoff_mgr).wf() ==> final(handoff_mgr).wf(),
        final(handoff_mgr).handoffs() == old(handoff_mgr).handoffs(),
        final(handoff_mgr).shard_connections@ == old(handoff_mgr).shard_connections@,
        if broker.connection is Some {
            &&& final(handoff_mgr).ghosts() == put(
                old(handoff_mgr).ghosts(),
                req.entity_id@,
                ghost_of(req),
            )
            &&& routed_view(r) == Some((req.from_shard, Said::Accept { entity: req.entity_id@ }))
        } else {
            final(handoff_mgr).ghosts() == old(handoff_mgr).ghosts() && r is None
        },
{
    if broker.connection.is_none() {
        return None;
    }
    let ghost_player = PlayerInfo {
        id: req.entity_id.clone(),
        username: "ghost".to_string(),
        pos_x: req.pos_x,
        pos_y: req.pos_y,
        vel_x: req.vel_x,
        vel_y: req.vel_y,
        state: EntityState::GhostCopy,
        owner_shard_id: Some(req.from_shard),
        conn: None,
    };
    handoff_mgr.add_ghost(req.entity_id.clone(), ghost_player);
    let message = ShardMessage::Accept(HandoffAccept { entity_id: req.entity_id });
    Some(Routed { dest_shard: req.from_shard, message })
}

/// The other shard will take the entity over: it is told from now on where the
/// entity is.
pub fn handle_handoff_accept(msg: HandoffAccept, handoff_mgr: &mut HandoffManager)
    ensures
        old(handoff_mgr).wf() ==> final(handoff_mgr).wf(),
        final(handoff_mgr).ghosts() == old(handoff_mgr).ghosts(),
        final(handoff_mgr).shard_connections@ == old(handoff_mgr).shard_connections@,
        final(handoff_mgr).handoffs() == match lookup(old(handoff_mgr).handoffs(), msg.entity_id@) {
            Some(h) => put(
                old(handoff_mgr).handoffs(),
                msg.entity_id@,
                HandoffView { accepted: true, ..h },
            ),
            None => old(handoff_mgr).handoffs(),
        },
{
    let ghost before = handoff_mgr.handoffs();
    let ghost id = msg.entity_id@;
    proof {
        lemma_views(handoff_mgr.pending.pairs(), id);
        lemma_place(before, id);
    }
    match handoff_mgr.pending.get_mut(&msg.entity_id) {
        Some(h) => {
            h.accepted = true;
        },
        None => {},
    }
    proof {
        if old(handoff_mgr).wf() && holds_key(before, id) {
            let h = HandoffView { accepted: true, ..lookup(before, id).unwrap() };
            law_put_lookup(before, id, h, id);
            assert forall|i: int| 0 <= i < handoff_mgr.handoffs().len() implies {
                &&& (#[trigger] handoff_mgr.handoffs()[i]).1.timer.wf()
                &&& handoff_mgr.handoffs()[i].1.entity_id == handoff_mgr.handoffs()[i].0
            } by {
                assert(before[i].1.timer.wf());
            }
        }
    }
}

/// The other shard will not take the entity over: the handoff is given up.
pub fn handle_handoff_reject(msg: HandoffReject, handoff_mgr: &mut HandoffManager)
    ensures
        old(handoff_mgr).wf() ==> final(handoff_mgr).wf(),
        final(handoff_mgr).handoffs() == without(old(handoff_mgr).handoffs(), msg.entity_id@),
        final(handoff_mgr).ghosts() == old(handoff_mgr).ghosts(),
        final(handoff_mgr).shard_connections@ == old(handoff_mgr).shard_connections@,
{
    handoff_mgr.complete_handoff(msg.entity_id.as_str());
}

/// The copy of an entity, where its owner says that it is.
pub open spec fn updated_ghost(g: PlayerView, msg: GhostUpdate) -> PlayerView {
    PlayerView { pos_x: msg.pos_x, pos_y: msg.pos_y, vel_x: msg.vel_x, vel_y: msg.vel_y, ..g }
}

/// The owner of an entity says where it is: the copy follows. Once it is where
/// this shard is the owner, it becomes a player of this shard, so that it does
/// not matter if the end of the handoff is never told.
pub fn handle_ghost_update(
    msg: GhostUpdate,
    registry: &mut PlayerRegistry,
    handoff_mgr: &mut HandoffManager,
    config: &ServerConfig,
)
    ensures
        old(registry).wf() ==> final(registry).wf(),
        old(handoff_mgr).wf() ==> final(handoff_mgr).wf(),
        final(handoff_mgr).handoffs() == old(handoff_mgr).handoffs(),
        final(handoff_mgr).shard_connections@ == old(handoff_mgr).shard_connections@,
        ({
            let ghosts = old(handoff_mgr).ghosts();
            let id = msg.entity_id@;
            match lookup(ghosts, id) {
                Some(g) => if grid_shard(msg.pos_x, msg.pos_y) == Some(config.shard_id) {
                    &&& final(handoff_mgr).ghosts() == without(ghosts, id)
                    &&& final(registry)@ == promoted(old(registry)@, updated_ghost(g, msg))
                } else {
                    &&& final(handoff_mgr).ghosts() == put(ghosts, id, updated_ghost(g, msg))
                    &&& final(registry)@ == old(registry)@
                },
                None => final(handoff_mgr).ghosts() == ghosts && final(registry)@ == old(registry)@,
            }
        }),
{
    let ghost ghosts = handoff_mgr.ghosts();
    let ghost id = msg.entity_id@;
    proof {
        lemma_views(handoff_mgr.ghost_entities.pairs(), id);
        lemma_place(ghosts, id);
        lemma_put_without(ghosts, id);
    }
    let mut entered: bool = false;
    match handoff_mgr.ghost_entities.get_mut(&msg.entity_id) {
        Some(g) => {
            g.pos_x = msg.pos_x;
            g.pos_y = msg.pos_y;
            g.vel_x = msg.vel_x;
            g.vel_y = msg.vel_y;
            let owner = shard_for_2x2(msg.pos_x, msg.pos_y);
            entered = owner == Some(config.shard_id);
        },
        None => {},
    }
    proof {
        if old(handoff_mgr).wf() && holds_key(ghosts, id) {
            law_put_lookup(ghosts, id, updated_ghost(lookup(ghosts, id).unwrap(), msg), id);
        }
    }
    if entered {
        match handoff_mgr.remove_ghost(msg.entity_id.as_str()) {
            Some(g) => registry.promote_to_owned(g),
            None => {},
        }
    }
}

/// The entity is this shard's own from now on.
pub fn handle_handoff_complete(
    msg: HandoffComplete,
    registry: &mut PlayerRegistry,
    handoff_mgr: &mut HandoffManager,
)
    ensures
        old(registry).wf() ==> final(registry).wf(),
        old(handoff_mgr).wf() ==> final(handoff_mgr).wf(),
        final(handoff_mgr).shard_connections@ == old(handoff_mgr).shard_connections@,
        final(handoff_mgr).handoffs() == without(old(handoff_mgr).handoffs(), msg.entity_id@),
        final(handoff_mgr).ghosts() == without(old(handoff_mgr).ghosts(), msg.entity_id@),
        final(registry)@ == match lookup(old(handoff_mgr).ghosts(), msg.entity_id@) {
            Some(g) => promoted(old(registry)@, g),
            None => old(registry)@,
        },
{
    match handoff_mgr.remove_ghost(msg.entity_id.as_str()) {
        Some(g) => registry.promote_to_owned(g),
        None => {},
    }
    handoff_mgr.complete_handoff(msg.entity_id.as_str());
}

/// What was put under a key and removed leaves what was there without the key.
proof fn lemma_put_without<V>(s: Seq<(Seq<char>, V)>, k: Seq<char>)
    ensures
        holds_key(s, k) ==> forall|v: V|
            {
                &&& lookup(#[trigger] put(s, k, v), k) == Some(v)
                &&& without(put(s, k, v), k) == without(s, k)
            },
{
    lemma_place(s, k);
    if holds_key(s, k) {
        assert forall|v: V|
            {
                &&& lookup(#[trigger] put(s, k, v), k) == Some(v)
                &&& without(put(s, k, v), k) == without(s, k)
            } by {
            lemma_place_is(put(s, k, v), k, place(s, k));
            assert(without(put(s, k, v), k) =~= without(s, k));
        }
    }
}

/// What is to be done for an entity that is being handed over.
pub struct StepView {
    pub player: PlayerView,
    pub uuid: u128,
    pub dest: u32,
    pub accepted: bool,
    /// The entity has left this shard.
    pub crossed: bool,
}

/// What is to be done for the players that are being handed over and whose
/// identifier is a UUID.
pub open spec fn steps_of(
    players: Seq<(u128, PlayerView)>,
    handoffs: Seq<(Seq<char>, HandoffView)>,
    shard_id: u32,
) -> Seq<StepView>
    decreases players.len(),
{
    if players.len() == 0 {
        Seq::empty()
    } else {
        let rest = steps_of(players.drop_last(), handoffs, shard_id);
        let p = players.last().1;
        match (lookup(handoffs, p.id), parsed_uuid(p.id)) {
            (Some(h), Some(uuid)) if p.state == EntityState::PendingHandoff => rest.push(
                StepView {
                    player: p,
                    uuid,
                    dest: h.dest_shard_id,
                    accepted: h.accepted,
                    crossed: grid_shard(p.pos_x, p.pos_y) != Some(shard_id),
                },
            ),
            _ => rest,
        }
    }
}

/// The identifiers of players that are being handed over, where they are texts of
/// UUIDs, are read as those UUIDs.
pub open spec fn steps_read_back(
    players: Seq<(u128, PlayerView)>,
    handoffs: Seq<(Seq<char>, HandoffView)>,
) -> bool {
    forall|i: int|
        0 <= i < players.len() && (#[trigger] players[i]).1.state == EntityState::PendingHandoff
            && holds_key(handoffs, players[i].1.id) ==> read_back(players[i].1.id)
}

/// What is said of an entity: it is asked for again until the other shard has
/// accepted; then that shard is told where it is, and, once it has left, that it
/// is the other shard's own.
pub open spec fn step_messages(step: StepView, shard_id: u32) -> Seq<(u32, Said)> {
    let p = step.player;
    let update = (
        step.dest,
        Said::Update { entity: p.id, pos: (p.pos_x, p.pos_y), vel: (p.vel_x, p.vel_y) },
    );
    if !step.accepted {
        seq![(step.dest, request_of(p, shard_id))]
    } else if step.crossed {
        seq![update, (step.dest, Said::Complete { entity: p.id })]
    } else {
        seq![update]
    }
}

/// What is said in several steps.
pub open spec fn steps_messages(steps: Seq<StepView>, shard_id: u32) -> Seq<(u32, Said)>
    decreases steps.len(),
{
    if steps.len() == 0 {
        Seq::empty()
    } else {
        steps_messages(steps.drop_last(), shard_id) + step_messages(steps.last(), shard_id)
    }
}

/// The players after some steps: those that have left are let go.
pub open spec fn players_after(players: Seq<(u128, PlayerView)>, steps: Seq<StepView>) -> Seq<
    (u128, PlayerView),
>
    decreases steps.len(),
{
    if steps.len() == 0 {
        players
    } else {
        let rest = players_after(players, steps.drop_last());
        let step = steps.last();
        if step.accepted && step.crossed {
            without_player(rest, uuid_text(step.uuid))
        } else {
            rest
        }
    }
}

/// The handoffs after some steps: those of entities that have left are over.
pub open spec fn handoffs_after(
    handoffs: Seq<(Seq<char>, HandoffView)>,
    steps: Seq<StepView>,
) -> Seq<(Seq<char>, HandoffView)>
    decreases steps.len(),
{
    if steps.len() == 0 {
        handoffs
    } else {
        let rest = handoffs_after(handoffs, steps.drop_last());
        let step = steps.last();
        if step.accepted && step.crossed {
            without(rest, step.player.id)
        } else {
            rest
        }
    }
}

struct Step {
    player: PlayerInfo,
    uuid: u128,
    dest: u32,
    accepted: bool,
    crossed: bool,
}

spec fn step_view(step: Step) -> StepView {
    StepView {
        player: step.player@,
        uuid: step.uuid,
        dest: step.dest,
        accepted: step.accepted,
        crossed: step.crossed,
    }
}

spec fn step_views(steps: Seq<Step>) -> Seq<StepView> {
    Seq::new(steps.len(), |i: int| step_view(steps[i]))
}

fn find_steps(registry: &PlayerRegistry, handoff_mgr: &HandoffManager, shard_id: u32) -> (r: Vec<
    Step,
>)
    ensures
        step_views(r@) == steps_of(registry@, handoff_mgr.handoffs(), shard_id),
        steps_read_back(registry@, handoff_mgr.handoffs()),
{
    let ghost list = registry@;
    let ghost handoffs = handoff_mgr.handoffs();
    let mut steps: Vec<Step> = Vec::new();
    let mut i: usize = 0;
    assert(list.take(0) =~= Seq::empty());
    assert(step_views(steps@) =~= steps_of(list.take(0), handoffs, shard_id));
    while i < registry.players.entries.len()
        invariant
            i <= registry.players.entries.len(),
            list == registry@,
            handoffs == handoff_mgr.handoffs(),
            step_views(steps@) == steps_of(list.take(i as int), handoffs, shard_id),
            forall|k: int|
                0 <= k < i && (#[trigger] list[k]).1.state == EntityState::PendingHandoff
                    && holds_key(handoffs, list[k].1.id) ==> read_back(list[k].1.id),
        decreases registry.players.entries.len() - i,
    {
        let player = &registry.players.entries[i].1;
        proof {
            assert(list[i as int].1 == player@);
            assert(list.take(i + 1).drop_last() =~= list.take(i as int));
            lemma_views(handoff_mgr.pending.pairs(), player.id@);
        }
        if player.state == EntityState::PendingHandoff {
            match handoff_mgr.pending.get(&player.id) {
                Some(h) => {
                    let parsed = uuid_parse_str(player.id.as_str());
                    assert(read_back(player.id@));
                    if let Some(uuid) = parsed {
                        let owner = shard_for_2x2(player.pos_x, player.pos_y);
                        let step = Step {
                            player: player.clone(),
                            uuid,
                            dest: h.dest_shard_id,
                            accepted: h.accepted,
                            crossed: owner != Some(shard_id),
                        };
                        let ghost before = step_views(steps@);
                        steps.push(step);
                        assert(step_views(steps@) =~= before.push(step_view(step)));
                    }
                },
                None => {},
            }
        }
        i = i + 1;
    }
    assert(list.take(i as int) =~= list);
    steps
}

/// The players and the handoffs after a tick, and what is said in it, and to
/// which shards.
pub open spec fn driven(
    players: Seq<(u128, PlayerView)>,
    handoffs: Seq<(Seq<char>, HandoffView)>,
    broker: Option<u128>,
    shard_id: u32,
    left: Seq<(u128, PlayerView)>,
    going: Seq<(Seq<char>, HandoffView)>,
    said: Seq<(u32, Said)>,
) -> bool {
    let steps = steps_of(players, handoffs, shard_id);
    if broker is Some {
        &&& said == steps_messages(steps, shard_id)
        &&& left == players_after(players, steps)
        &&& going == handoffs_after(handoffs, steps)
    } else {
        &&& said.len() == 0
        &&& left == players
        &&& going == handoffs
    }
}

/// Goes on with the handoffs that are under way. Without a broker nothing
/// happens.
pub fn drive_handoffs(
    registry: &mut PlayerRegistry,
    handoff_mgr: &mut HandoffManager,
    broker: &BrokerConnection,
    config: &ServerConfig,
) -> (r: Vec<Routed>)
    ensures
        old(registry).wf() ==> final(registry).wf(),
        old(handoff_mgr).wf() ==> final(handoff_mgr).wf(),
        final(handoff_mgr).ghosts() == old(handoff_mgr).ghosts(),
        final(handoff_mgr).shard_connections@ == old(handoff_mgr).shard_connections@,
        driven(
            old(registry)@,
            old(handoff_mgr).handoffs(),
            broker.connection,
            config.shard_id,
            final(registry)@,
            final(handoff_mgr).handoffs(),
            routed(r@),
        ),
        ({
            let steps = steps_of(old(registry)@, old(handoff_mgr).handoffs(), config.shard_id);
            if broker.connection is Some {
                &&& steps_read_back(old(registry)@, old(handoff_mgr).handoffs())
                &&& routed(r@) == steps_messages(steps, config.shard_id)
                &&& final(registry)@ == players_after(old(registry)@, steps)
                &&& final(handoff_mgr).handoffs() == handoffs_after(
                    old(handoff_mgr).handoffs(),
                    steps,
                )
            } else {
                &&& r@.len() == 0
                &&& final(registry)@ == old(registry)@
                &&& final(handoff_mgr).handoffs() == old(handoff_mgr).handoffs()
            }
        }),
{
    let mut out: Vec<Routed> = Vec::new();
    if broker.connection.is_none() {
        return out;
    }
    let steps = find_steps(registry, handoff_mgr, config.shard_id);
    let ghost list = step_views(steps@);
    let ghost players = registry@;
    let ghost handoffs = handoff_mgr.handoffs();
    let mut i: usize = 0;
    assert(list.take(0) =~= Seq::empty());
    assert(routed(out@) =~= steps_messages(list.take(0), config.shard_id));
    while i < steps.len()
        invariant
            i <= steps.len(),
            list == step_views(steps@),
            routed(out@) == steps_messages(list.take(i as int), config.shard_id),
            registry@ == players_after(players, list.take(i as int)),
            handoff_mgr.handoffs() == handoffs_after(handoffs, list.take(i as int)),
            handoff_mgr.ghosts() == old(handoff_mgr).ghosts(),
            handoff_mgr.shard_connections@ == old(handoff_mgr).shard_connections@,
            old(registry).wf() ==> registry.wf(),
            old(handoff_mgr).wf() ==> handoff_mgr.wf(),
        decreases steps.len() - i,
    {
        let step = &steps[i];
        let player = &step.player;
        let ghost before = routed(out@);
        proof {
            assert(list[i as int] == step_view(*step));
            assert(list.take(i + 1).drop_last() =~= list.take(i as int));
            assert(list.take(i + 1).last() == step_view(*step));
        }
        if !step.accepted {
            let state: Vec<u8> = Vec::new();
            assert(state@ =~= Seq::empty());
            let message = ShardMessage::Request(
                HandoffRequest {
                    entity_id: player.id.clone(),
                    from_shard: config.shard_id,
                    pos_x: player.pos_x,
                    pos_y: player.pos_y,
                    vel_x: player.vel_x,
                    vel_y: player.vel_y,
                    state,
                },
            );
            out.push(Routed { dest_shard: step.dest, message });
        } else {
            let message = ShardMessage::Update(
                GhostUpdate {
                    entity_id: player.id.clone(),
                    pos_x: player.pos_x,
                    pos_y: player.pos_y,
                    vel_x: player.vel_x,
                    vel_y: player.vel_y,
                },
            );
            out.push(Routed { dest_shard: step.dest, message });
            if step.crossed {
                let message = ShardMessage::Complete(
                    HandoffComplete { entity_id: player.id.clone() },
                );
                out.push(Routed { dest_shard: step.dest, message });
                registry.remove_player_by_uuid(step.uuid);
                handoff_mgr.complete_handoff(player.id.as_str());
            }
        }
        assert(routed(out@) =~= before + step_messages(step_view(*step), config.shard_id));
        i = i + 1;
    }
    assert(list.take(i as int) =~= list);
    out
}

/// The entities whose handoff takes too long by now, in order.
pub open spec fn expired(handoffs: Seq<(Seq<char>, HandoffView)>, delta: u64) -> Seq<Seq<char>>
    decreases handoffs.len(),
{
    if handoffs.len() == 0 {
        Seq::empty()
    } else {
        let rest = expired(handoffs.drop_last(), delta);
        if handoffs.last().1.timer.later(delta).is_finished() {
            rest.push(handoffs.last().0)
        } else {
            rest
        }
    }
}

/// The handoffs that have time left, some time later.
pub open spec fn kept(handoffs: Seq<(Seq<char>, HandoffView)>, delta: u64) -> Seq<
    (Seq<char>, HandoffView),
>
    decreases handoffs.len(),
{
    if handoffs.len() == 0 {
        Seq::empty()
    } else {
        let rest = kept(handoffs.drop_last(), delta);
        let (id, h) = handoffs.last();
        let timer = h.timer.later(delta);
        if timer.is_finished() {
            rest
        } else {
            rest.push((id, HandoffView { timer, ..h }))
        }
    }
}

/// The players, those with some identifiers owned again.
pub open spec fn reverted(players: Seq<(u128, PlayerView)>, ids: Seq<Seq<char>>) -> Seq<
    (u128, PlayerView),
>
    decreases ids.len(),
{
    if ids.len() == 0 {
        players
    } else {
        let rest = reverted(players, ids.drop_last());
        match parsed_uuid(ids.last()) {
            Some(uuid) => with_state(rest, uuid_text(uuid), EntityState::Owned),
            None => rest,
        }
    }
}

/// The handoffs and the players some time later, and the entities whose handoff
/// was given up.
pub open spec fn timed_out(
    handoffs: Seq<(Seq<char>, HandoffView)>,
    players: Seq<(u128, PlayerView)>,
    delta: u64,
    going: Seq<(Seq<char>, HandoffView)>,
    after: Seq<(u128, PlayerView)>,
    given_up: Seq<Seq<char>>,
) -> bool {
    &&& given_up == expired(handoffs, delta)
    &&& going == kept(handoffs, delta)
    &&& after == reverted(players, given_up)
}

/// Lets time pass, in nanoseconds. A handoff that takes too long is given up:
/// its entity is owned again, so that it is not silent for ever. The entities
/// are told.
pub fn process_handoff_timeouts(
    delta: u64,
    handoff_mgr: &mut HandoffManager,
    registry: &mut PlayerRegistry,
) -> (r: Vec<String>)
    requires
        old(handoff_mgr).wf(),
    ensures
        final(handoff_mgr).wf(),
        old(registry).wf() ==> final(registry).wf(),
        final(handoff_mgr).ghosts() == old(handoff_mgr).ghosts(),
        final(handoff_mgr).shard_connections@ == old(handoff_mgr).shard_connections@,
        timed_out(
            old(handoff_mgr).handoffs(),
            old(registry)@,
            delta,
            final(handoff_mgr).handoffs(),
            final(registry)@,
            texts(r@),
        ),
        texts(r@) == expired(old(handoff_mgr).handoffs(), delta),
        final(handoff_mgr).handoffs() == kept(old(handoff_mgr).handoffs(), delta),
        final(registry)@ == reverted(
            old(registry)@,
            expired(old(handoff_mgr).handoffs(), delta),
        ),
        forall|i: int| 0 <= i < r@.len() ==> read_back((#[trigger] r@[i])@),
{
    let ghost all = handoff_mgr.handoffs();
    let ghost players = registry@;
    let ghost mut seen: int = 0;
    let mut gone: Vec<String> = Vec::new();
    let mut i: usize = 0;
    proof {
        assert(all.take(0) =~= Seq::empty());
        assert(all.skip(0) =~= all);
        assert(handoff_mgr.handoffs() =~= kept(all.take(0), delta) + all.skip(0));
        assert(texts(gone@) =~= expired(all.take(0), delta));
    }
    while i < handoff_mgr.pending.entries.len()
        invariant
            0 <= seen <= all.len(),
            all == old(handoff_mgr).handoffs(),
            old(handoff_mgr).wf(),
            i == kept(all.take(seen), delta).len(),
            handoff_mgr.handoffs() == kept(all.take(seen), delta) + all.skip(seen),
            handoff_mgr.ghosts() == old(handoff_mgr).ghosts(),
            handoff_mgr.shard_connections@ == old(handoff_mgr).shard_connections@,
            texts(gone@) == expired(all.take(seen), delta),
            registry@ == reverted(players, expired(all.take(seen), delta)),
            forall|k: int| 0 <= k < gone@.len() ==> read_back((#[trigger] gone@[k])@),
            old(registry).wf() ==> registry.wf(),
        decreases all.len() - seen,
    {
        let ghost before = handoff_mgr.handoffs();
        let ghost done = kept(all.take(seen), delta);
        let ghost entry = all[seen];
        proof {
            assert(before[i as int] == entry);
            assert(entry.1.timer.wf());
            assert(all.take(seen + 1).drop_last() =~= all.take(seen));
            assert(all.skip(seen).skip(1) =~= all.skip(seen + 1));
            assert(handoff_mgr.pending.entries@[i as int].1@ == entry.1);
        }
        let mut timer: Countdown = handoff_mgr.pending.entries[i].1.timer;
        timer.tick(delta);
        if timer.finished() {
            let taken = handoff_mgr.pending.entries.remove(i);
            let id: String = taken.0;
            proof {
                assert(handoff_mgr.handoffs() =~= before.remove(i as int));
                assert(handoff_mgr.handoffs() =~= done + all.skip(seen + 1));
            }
            let parsed = uuid_parse_str(id.as_str());
            assert(read_back(id@));
            match parsed {
                Some(uuid) => registry.set_state_by_uuid(uuid, EntityState::Owned),
                None => {},
            }
            let ghost so_far = texts(gone@);
            gone.push(id);
            proof {
                assert(texts(gone@) =~= so_far.push(id@));
                let ids = expired(all.take(seen + 1), delta);
                assert(ids.drop_last() =~= expired(all.take(seen), delta));
            }
        } else {
            handoff_mgr.pending.entries[i].1.timer = timer;
            proof {
                let changed = (entry.0, HandoffView { timer, ..entry.1 });
                assert(handoff_mgr.handoffs() =~= before.update(i as int, changed));
                assert(handoff_mgr.handoffs() =~= done.push(changed) + all.skip(seen + 1));
            }
            i = i + 1;
        }
        proof {
            seen = seen + 1;
        }
    }
    proof {
        assert(seen == all.len());
        assert(all.take(seen) =~= all);
        assert(handoff_mgr.handoffs() =~= kept(all, delta));
        lemma_kept(all, delta);
        assert forall|k: int| 0 <= k < handoff_mgr.handoffs().len() implies {
            &&& (#[trigger] handoff_mgr.handoffs()[k]).1.timer.wf()
            &&& handoff_mgr.handoffs()[k].1.entity_id == handoff_mgr.handoffs()[k].0
        } by {}
    }
    gone
}

/// The handoffs that are kept are some of those that there were, in order.
proof fn lemma_kept(handoffs: Seq<(Seq<char>, HandoffView)>, delta: u64)
    requires
        distinct(handoffs),
        forall|i: int|
            0 <= i < handoffs.len() ==> {
                &&& (#[trigger] handoffs[i]).1.timer.wf()
                &&& handoffs[i].1.entity_id == handoffs[i].0
            },
    ensures
        distinct(kept(handoffs, delta)),
        forall|i: int|
            0 <= i < kept(handoffs, delta).len() ==> {
                &&& (#[trigger] kept(handoffs, delta)[i]).1.timer.wf()
                &&& kept(handoffs, delta)[i].1.entity_id == kept(handoffs, delta)[i].0
                &&& exists|j: int| 0 <= j < handoffs.len() && (#[trigger] handoffs[j]).0 == kept(
                    handoffs,
                    delta,
                )[i].0
            },
    decreases handoffs.len(),
{
    let all = kept(handoffs, delta);
    if handoffs.len() > 0 {
        let front = handoffs.drop_last();
        assert forall|i: int| 0 <= i < front.len() implies {
            &&& (#[trigger] front[i]).1.timer.wf()
            &&& front[i].1.entity_id == front[i].0
        } by {
            assert(front[i] == handoffs[i]);
        }
        assert forall|i: int, j: int| 0 <= i < j < front.len() implies (#[trigger] front[i]).0
            != (#[trigger] front[j]).0 by {
            assert(handoffs[i].0 != handoffs[j].0);
        }
        lemma_kept(front, delta);
        let rest = kept(front, delta);
        let last = handoffs[handoffs.len() - 1];
        assert forall|i: int| 0 <= i < all.len() implies {
            &&& (#[trigger] all[i]).1.timer.wf()
            &&& all[i].1.entity_id == all[i].0
            &&& exists|j: int| 0 <= j < handoffs.len() && (#[trigger] handoffs[j]).0 == all[i].0
        } by {
            if i < rest.len() {
                assert(all[i] == rest[i]);
                let j = choose|j: int| 0 <= j < front.len() && (#[trigger] front[j]).0 == rest[i].0;
                assert(handoffs[j] == front[j]);
            } else {
                assert(last.1.timer.wf());
            }
        }
        assert forall|i: int, j: int| 0 <= i < j < all.len() implies (#[trigger] all[i]).0
            != (#[trigger] all[j]).0 by {
            assert(all[i] == rest[i]);
            if j < rest.len() {
                assert(rest[i].0 != rest[j].0);
            } else {
                let k = choose|k: int| 0 <= k < front.len() && (#[trigger] front[k]).0 == rest[i].0;
                assert(handoffs[k] == front[k]);
                assert(handoffs[k].0 != last.0);
            }
        }
    }
}

/// An alert that is repeated starts no second handoff.
pub proof fn law_repeated_alert_is_ignored(
    players: Seq<(u128, PlayerView)>,
    handoffs: Seq<(Seq<char>, HandoffView)>,
    broker: Option<u128>,
    data: Seq<u8>,
    handoff: HandoffView,
)
    requires
        alert_starts(players, handoffs, broker, data),
    ensures
        ({
            let id = uuid_text(id_at(data, 1));
            !alert_starts(
                with_state(players, id, EntityState::PendingHandoff),
                put(handoffs, id, handoff),
                broker,
                data,
            )
        }),
{
    let id = uuid_text(id_at(data, 1));
    lemma_place(handoffs, id);
    lemma_place_is(put(handoffs, id, handoff), id, place(handoffs, id));
}

/// An entity that was taken in is owned here, where it was last said to be.
pub proof fn law_promoted_is_owned(
    players: Seq<(u128, PlayerView)>,
    g: PlayerView,
    msg: GhostUpdate,
    uuid: u128,
)
    requires
        distinct(players),
        parsed_uuid(g.id) == Some(uuid),
    ensures
        lookup(promoted(players, updated_ghost(g, msg)), uuid) == Some(
            PlayerView {
                pos_x: msg.pos_x,
                pos_y: msg.pos_y,
                vel_x: msg.vel_x,
                vel_y: msg.vel_y,
                state: EntityState::Owned,
                owner_shard_id: None,
                ..g
            },
        ),
        distinct(promoted(players, updated_ghost(g, msg))),
{
    let p = PlayerView {
        state: EntityState::Owned,
        owner_shard_id: None,
        ..updated_ghost(g, msg)
    };
    law_put_lookup(players, uuid, p, uuid);
}

/// A player is let go only in a step in which its entity was accepted and has
/// left.
pub proof fn law_others_stay(
    players: Seq<(u128, PlayerView)>,
    steps: Seq<StepView>,
    entry: (u128, PlayerView),
)
    requires
        players.contains(entry),
        forall|i: int|
            0 <= i < steps.len() && (#[trigger] steps[i]).accepted && steps[i].crossed ==> uuid_text(
                steps[i].uuid,
            ) != entry.1.id,
    ensures
        players_after(players, steps).contains(entry),
    decreases steps.len(),
{
    if steps.len() > 0 {
        let front = steps.drop_last();
        assert forall|i: int|
            0 <= i < front.len() && (#[trigger] front[i]).accepted
                && front[i].crossed implies uuid_text(front[i].uuid) != entry.1.id by {
            assert(front[i] == steps[i]);
        }
        law_others_stay(players, front, entry);
        let rest = players_after(players, front);
        let step = steps[steps.len() - 1];
        if step.accepted && step.crossed {
            let id = uuid_text(step.uuid);
            lemma_player_place(rest, id);
            let p = player_place(rest, id);
            let i = choose|i: int| 0 <= i < rest.len() && rest[i] == entry;
            if p < rest.len() {
                let after = rest.remove(p);
                if i < p {
                    assert(after[i] == entry);
                } else {
                    assert(after[i - 1] == entry);
                }
            }
        }
    }
}

/// Of an entity that was let go the other shard was told where it is, and that
/// it is its own.
pub proof fn law_leaving_is_told(steps: Seq<StepView>, shard_id: u32, i: int)
    requires
        0 <= i < steps.len(),
        steps[i].accepted,
        steps[i].crossed,
    ensures
        ({
            let p = steps[i].player;
            let dest = steps[i].dest;
            &&& steps_messages(steps, shard_id).contains((dest, Said::Complete { entity: p.id }))
            &&& steps_messages(steps, shard_id).contains(
                (
                    dest,
                    Said::Update { entity: p.id, pos: (p.pos_x, p.pos_y), vel: (p.vel_x, p.vel_y) },
                ),
            )
        }),
    decreases steps.len(),
{
    let front = steps.drop_last();
    let rest = steps_messages(front, shard_id);
    let all = steps_messages(steps, shard_id);
    let p = steps[i].player;
    let update = (
        steps[i].dest,
        Said::Update { entity: p.id, pos: (p.pos_x, p.pos_y), vel: (p.vel_x, p.vel_y) },
    );
    let complete = (steps[i].dest, Said::Complete { entity: p.id });
    if i == steps.len() - 1 {
        assert(all[rest.len() as int] == update);
        assert(all[rest.len() as int + 1] == complete);
    } else {
        assert(front[i] == steps[i]);
        law_leaving_is_told(front, shard_id, i);
        let a = choose|a: int| 0 <= a < rest.len() && rest[a] == update;
        let b = choose|b: int| 0 <= b < rest.len() && rest[b] == complete;
        assert(all[a] == update);
        assert(all[b] == complete);
    }
}

/// Every handoff that is kept has time left.
pub proof fn law_kept_have_time_left(handoffs: Seq<(Seq<char>, HandoffView)>, delta: u64)
    ensures
        forall|i: int|
            0 <= i < kept(handoffs, delta).len() ==> !(#[trigger] kept(
                handoffs,
                delta,
            )[i]).1.timer.is_finished(),
    decreases handoffs.len(),
{
    if handoffs.len() > 0 {
        let rest = kept(handoffs.drop_last(), delta);
        law_kept_have_time_left(handoffs.drop_last(), delta);
        assert forall|i: int| 0 <= i < kept(handoffs, delta).len() implies !(#[trigger] kept(
            handoffs,
            delta,
        )[i]).1.timer.is_finished() by {
            if i < rest.len() {
                assert(kept(handoffs, delta)[i] == rest[i]);
            }
        }
    }
}

/// The player of an entity whose handoff took too long is owned again.
pub proof fn law_expired_are_owned_again(
    players: Seq<(u128, PlayerView)>,
    ids: Seq<Seq<char>>,
    i: int,
    uuid: u128,
)
    requires
        0 <= i < ids.len(),
        parsed_uuid(ids[i]) == Some(uuid),
        has_player(players, uuid_text(uuid)),
    ensures
        ({
            let after = reverted(players, ids);
            let p = player_place(players, uuid_text(uuid));
            &&& after.len() == players.len()
            &&& after[p].0 == players[p].0
            &&& after[p].1 == (PlayerView { state: EntityState::Owned, ..players[p].1 })
        }),
    decreases ids.len(),
{
    let text = uuid_text(uuid);
    let front = ids.drop_last();
    let rest = reverted(players, front);
    lemma_reverted(players, front);
    lemma_player_place(players, text);
    lemma_same_places(players, rest, text);
    if i < ids.len() - 1 {
        assert(front[i] == ids[i]);
        law_expired_are_owned_again(players, front, i, uuid);
        if parsed_uuid(ids.last()) is Some {
            lemma_player_place(rest, uuid_text(parsed_uuid(ids.last()).unwrap()));
        }
    }
}

/// Reverting changes nothing but states.
proof fn lemma_reverted(players: Seq<(u128, PlayerView)>, ids: Seq<Seq<char>>)
    ensures
        reverted(players, ids).len() == players.len(),
        forall|k: int|
            0 <= k < players.len() ==> {
                &&& (#[trigger] reverted(players, ids)[k]).0 == players[k].0
                &&& reverted(players, ids)[k].1 == (PlayerView {
                    state: reverted(players, ids)[k].1.state,
                    ..players[k].1
                })
            },
    decreases ids.len(),
{
    if ids.len() > 0 {
        lemma_reverted(players, ids.drop_last());
        if parsed_uuid(ids.last()) is Some {
            lemma_player_place(
                reverted(players, ids.drop_last()),
                uuid_text(parsed_uuid(ids.last()).unwrap()),
            );
        }
    }
}

/// Players with the same identifiers are found at the same places.
proof fn lemma_same_places(
    a: Seq<(u128, PlayerView)>,
    b: Seq<(u128, PlayerView)>,
    id: Seq<char>,
)
    requires
        a.len() == b.len(),
        forall|k: int| 0 <= k < a.len() ==> (#[trigger] b[k]).1.id == a[k].1.id,
    ensures
        player_place(a, id) == player_place(b, id),
{
    lemma_player_place(a, id);
    let p = player_place(a, id);
    assert forall|i: int| 0 <= i < p implies (#[trigger] b[i]).1.id != id by {
        assert(a[i].1.id != id);
    }
    lemma_player_place_is(b, id, p);
}

/// The copy of an entity that is asked to be taken over is where the player was,
/// and knows its owner.
pub proof fn law_ghost_is_where_the_player_was(req: HandoffRequest, p: PlayerView, from_shard: u32)
    requires
        ShardMessage::Request(req)@ == request_of(p, from_shard),
    ensures
        ghost_of(req) == (PlayerView {
            username: "ghost"@,
            state: EntityState::GhostCopy,
            owner_shard_id: Some(from_shard),
            conn: None,
            ..p
        }),
{
}

/// Once a copy has become owned, the end of the handoff that is told later finds
/// no copy, and so changes no player.
pub proof fn law_late_completion_finds_no_ghost(
    ghosts: Seq<(Seq<char>, PlayerView)>,
    entity: Seq<char>,
)
    requires
        distinct(ghosts),
    ensures
        lookup(without(ghosts, entity), entity) is None,
        without(without(ghosts, entity), entity) == without(ghosts, entity),
{
    law_without_lookup(ghosts, entity, entity);
}

/// What one player is said of in a tick: where it is being handed over and has a
/// UUID, the other shard is asked to take it over, with where it is and how it moves,
/// until it has accepted; then it is told the same as an update, each tick; and, once
/// the player is not where this shard owns, that the entity is the other shard's own.
pub proof fn law_one_player_is_told_of(
    entry: (u128, PlayerView),
    handoffs: Seq<(Seq<char>, HandoffView)>,
    shard_id: u32,
)
    ensures
        ({
            let p = entry.1;
            let all = steps_messages(steps_of(seq![entry], handoffs, shard_id), shard_id);
            let pending = p.state == EntityState::PendingHandoff && parsed_uuid(p.id) is Some
                && lookup(handoffs, p.id) is Some;
            let h = lookup(handoffs, p.id).unwrap();
            let update = (
                h.dest_shard_id,
                Said::Update { entity: p.id, pos: (p.pos_x, p.pos_y), vel: (p.vel_x, p.vel_y) },
            );
            &&& !pending ==> all.len() == 0
            &&& pending && !h.accepted ==> all == seq![
                (
                    h.dest_shard_id,
                    Said::Request {
                        entity: p.id,
                        from_shard: shard_id,
                        pos: (p.pos_x, p.pos_y),
                        vel: (p.vel_x, p.vel_y),
                        state: Seq::empty(),
                    },
                ),
            ]
            &&& pending && h.accepted && grid_shard(p.pos_x, p.pos_y) == Some(shard_id) ==> all
                == seq![update]
            &&& pending && h.accepted && grid_shard(p.pos_x, p.pos_y) != Some(shard_id) ==> all
                == seq![update, (h.dest_shard_id, Said::Complete { entity: p.id })]
        }),
{
    let one = seq![entry];
    let steps = steps_of(one, handoffs, shard_id);
    assert(one.drop_last() =~= Seq::empty());
    assert(steps_of(one.drop_last(), handoffs, shard_id) =~= Seq::empty());
    if steps.len() > 0 {
        assert(steps.drop_last() =~= Seq::empty());
        assert(steps_messages(steps.drop_last(), shard_id) =~= Seq::empty());
        assert(steps_messages(steps, shard_id) =~= step_messages(steps[0], shard_id));
    }
}

/// The steps of some players and of others are done one after the other.
proof fn lemma_steps_add(
    a: Seq<(u128, PlayerView)>,
    b: Seq<(u128, PlayerView)>,
    handoffs: Seq<(Seq<char>, HandoffView)>,
    shard_id: u32,
)
    ensures
        steps_of(a + b, handoffs, shard_id) == steps_of(a, handoffs, shard_id) + steps_of(
            b,
            handoffs,
            shard_id,
        ),
    decreases b.len(),
{
    if b.len() == 0 {
        assert(a + b =~= a);
        assert(steps_of(a, handoffs, shard_id) + steps_of(b, handoffs, shard_id) =~= steps_of(
            a,
            handoffs,
            shard_id,
        ));
    } else {
        lemma_steps_add(a, b.drop_last(), handoffs, shard_id);
        assert((a + b).drop_last() =~= a + b.drop_last());
        assert(steps_of(a + b, handoffs, shard_id) =~= steps_of(a, handoffs, shard_id) + steps_of(
            b,
            handoffs,
            shard_id,
        ));
    }
}

proof fn lemma_step_messages_add(a: Seq<StepView>, b: Seq<StepView>, shard_id: u32)
    ensures
        steps_messages(a + b, shard_id) == steps_messages(a, shard_id) + steps_messages(b, shard_id),
    decreases b.len(),
{
    if b.len() == 0 {
        assert(a + b =~= a);
        assert(steps_messages(a, shard_id) + steps_messages(b, shard_id) =~= steps_messages(
            a,
            shard_id,
        ));
    } else {
        lemma_step_messages_add(a, b.drop_last(), shard_id);
        assert((a + b).drop_last() =~= a + b.drop_last());
        assert(steps_messages(a + b, shard_id) =~= steps_messages(a, shard_id) + steps_messages(
            b,
            shard_id,
        ));
    }
}

/// Every player is said of on its own: what is said of several players is what is
/// said of some, and then of the others.
pub proof fn law_players_are_told_of_in_turn(
    a: Seq<(u128, PlayerView)>,
    b: Seq<(u128, PlayerView)>,
    handoffs: Seq<(Seq<char>, HandoffView)>,
    shard_id: u32,
)
    ensures
        steps_messages(steps_of(a + b, handoffs, shard_id), shard_id) == steps_messages(
            steps_of(a, handoffs, shard_id),
            shard_id,
        ) + steps_messages(steps_of(b, handoffs, shard_id), shard_id),
{
    lemma_steps_add(a, b, handoffs, shard_id);
    lemma_step_messages_add(
        steps_of(a, handoffs, shard_id),
        steps_of(b, handoffs, shard_id),
        shard_id,
    );
}

/// In every tick, the other shard is told where each player is that it has accepted,
/// whether or not the player has left, or asked for each that it has not; and it is
/// told that a player is its own exactly where that player was accepted and has left.
pub proof fn law_every_pending_player_is_told_of(
    players: Seq<(u128, PlayerView)>,
    handoffs: Seq<(Seq<char>, HandoffView)>,
    shard_id: u32,
    i: int,
)
    requires
        ids_distinct(players),
        0 <= i < players.len(),
        players[i].1.state == EntityState::PendingHandoff,
        parsed_uuid(players[i].1.id) is Some,
        lookup(handoffs, players[i].1.id) is Some,
    ensures
        ({
            let all = steps_messages(steps_of(players, handoffs, shard_id), shard_id);
            let p = players[i].1;
            let h = lookup(handoffs, p.id).unwrap();
            let pos = (p.pos_x, p.pos_y);
            let vel = (p.vel_x, p.vel_y);
            let left = grid_shard(p.pos_x, p.pos_y) != Some(shard_id);
            &&& h.accepted ==> all.contains((h.dest_shard_id, Said::Update { entity: p.id, pos, vel }))
            &&& !h.accepted ==> all.contains(
                (
                    h.dest_shard_id,
                    Said::Request {
                        entity: p.id,
                        from_shard: shard_id,
                        pos,
                        vel,
                        state: Seq::empty(),
                    },
                ),
            )
            &&& h.accepted && left ==> all.contains(
                (h.dest_shard_id, Said::Complete { entity: p.id }),
            )
            &&& forall|k: int|
                0 <= k < all.len() && (#[trigger] all[k]).1 == (Said::Complete { entity: p.id })
                    ==> h.accepted && left && all[k].0 == h.dest_shard_id
        }),
{
    let all = steps_messages(steps_of(players, handoffs, shard_id), shard_id);
    let a = players.take(i);
    let one = seq![players[i]];
    let b = players.skip(i + 1);
    let ta = steps_messages(steps_of(a, handoffs, shard_id), shard_id);
    let to = steps_messages(steps_of(one, handoffs, shard_id), shard_id);
    let tb = steps_messages(steps_of(b, handoffs, shard_id), shard_id);
    assert(players =~= a + (one + b));
    law_players_are_told_of_in_turn(a, one + b, handoffs, shard_id);
    law_players_are_told_of_in_turn(one, b, handoffs, shard_id);
    law_one_player_is_told_of(players[i], handoffs, shard_id);
    assert(all == ta + (to + tb));
    assert(all[ta.len() as int] == to[0]);
    if to.len() == 2 {
        assert(all[ta.len() as int + 1] == to[1]);
    }
    let id = players[i].1.id;
    assert forall|j: int| 0 <= j < a.len() implies (#[trigger] a[j]).1.id != id by {
        assert(a[j] == players[j]);
    }
    assert forall|j: int| 0 <= j < b.len() implies (#[trigger] b[j]).1.id != id by {
        assert(b[j] == players[j + i + 1]);
    }
    lemma_told_of_some(a, handoffs, shard_id, id);
    lemma_told_of_some(b, handoffs, shard_id, id);
    let p = players[i].1;
    let h = lookup(handoffs, p.id).unwrap();
    let left = grid_shard(p.pos_x, p.pos_y) != Some(shard_id);
    assert forall|k: int|
        0 <= k < all.len() && (#[trigger] all[k]).1 == (Said::Complete { entity: p.id }) implies
        h.accepted && left && all[k].0 == h.dest_shard_id by {
        if k < ta.len() {
            assert(all[k] == ta[k]);
        } else if k < ta.len() + to.len() {
            assert(all[k] == to[k - ta.len()]);
        } else {
            assert(all[k] == tb[k - ta.len() - to.len()]);
        }
    }
}

/// The entity that a message is about.
pub open spec fn about(m: Said) -> Seq<char> {
    match m {
        Said::Request { entity, .. } => entity,
        Said::Accept { entity } => entity,
        Said::Reject { entity } => entity,
        Said::Update { entity, .. } => entity,
        Said::Complete { entity } => entity,
    }
}

/// Nothing is said of an entity that is no player.
proof fn lemma_told_of_some(
    players: Seq<(u128, PlayerView)>,
    handoffs: Seq<(Seq<char>, HandoffView)>,
    shard_id: u32,
    id: Seq<char>,
)
    requires
        forall|j: int| 0 <= j < players.len() ==> (#[trigger] players[j]).1.id != id,
    ensures
        ({
            let all = steps_messages(steps_of(players, handoffs, shard_id), shard_id);
            forall|k: int| 0 <= k < all.len() ==> about((#[trigger] all[k]).1) != id
        }),
    decreases players.len(),
{
    let all = steps_messages(steps_of(players, handoffs, shard_id), shard_id);
    if players.len() > 0 {
        let front = players.drop_last();
        let last = players[players.len() - 1];
        assert forall|j: int| 0 <= j < front.len() implies (#[trigger] front[j]).1.id != id by {
            assert(front[j] == players[j]);
        }
        lemma_told_of_some(front, handoffs, shard_id, id);
        assert(players =~= front + seq![last]);
        law_players_are_told_of_in_turn(front, seq![last], handoffs, shard_id);
        law_one_player_is_told_of(last, handoffs, shard_id);
        let tf = steps_messages(steps_of(front, handoffs, shard_id), shard_id);
        let tl = steps_messages(steps_of(seq![last], handoffs, shard_id), shard_id);
        assert(last.1.id != id);
        assert forall|k: int| 0 <= k < all.len() implies about((#[trigger] all[k]).1) != id by {
            if k < tf.len() {
                assert(all[k] == tf[k]);
            } else {
                assert(all[k] == tl[k - tf.len()]);
            }
        }
    }
}

/// A player is let go exactly where it is being handed over, the other shard has
/// accepted it, and it is not where this shard owns; then its handoff is over, and no
/// other is.
pub proof fn law_exactly_those_who_left_are_let_go(
    players: Seq<(u128, PlayerView)>,
    handoffs: Seq<(Seq<char>, HandoffView)>,
    shard_id: u32,
    i: int,
    uuid: u128,
)
    requires
        ids_distinct(players),
        distinct(handoffs),
        forall|j: int|
            0 <= j < players.len() && parsed_uuid((#[trigger] players[j]).1.id) is Some
                ==> players[j].1.id == uuid_text(parsed_uuid(players[j].1.id).unwrap()),
        0 <= i < players.len(),
        parsed_uuid(players[i].1.id) == Some(uuid),
    ensures
        ({
            let steps = steps_of(players, handoffs, shard_id);
            let p = players[i].1;
            let h = lookup(handoffs, p.id);
            let goes = p.state == EntityState::PendingHandoff && h is Some && h.unwrap().accepted
                && grid_shard(p.pos_x, p.pos_y) != Some(shard_id);
            &&& players_after(players, steps).contains(players[i]) <==> !goes
            &&& lookup(handoffs_after(handoffs, steps), p.id) == if goes {
                None
            } else {
                h
            }
            &&& forall|k: int|
                0 <= k < players_after(players, steps).len() ==> players.contains(
                    #[trigger] players_after(players, steps)[k],
                )
        }),
{
    let steps = steps_of(players, handoffs, shard_id);
    let p = players[i].1;
    lemma_steps_come_from_players(players, handoffs, shard_id);
    lemma_step_of_player(players, handoffs, shard_id, i);
    lemma_handoffs_after(handoffs, steps, p.id);
    lemma_players_after(players, steps);
    let h = lookup(handoffs, p.id);
    let goes = p.state == EntityState::PendingHandoff && h is Some && h.unwrap().accepted
        && grid_shard(p.pos_x, p.pos_y) != Some(shard_id);
    let after = players_after(players, steps);
    if goes {
        let k = choose|k: int| 0 <= k < steps.len() && (#[trigger] steps[k]).player == p;
        assert(steps[k].accepted && steps[k].crossed && uuid_text(steps[k].uuid) == p.id);
        if after.contains(players[i]) {
            let m = choose|m: int| 0 <= m < after.len() && after[m] == players[i];
            assert(after[m].1.id != p.id);
        }
    } else {
        assert forall|k: int|
            0 <= k < steps.len() && (#[trigger] steps[k]).accepted
                && steps[k].crossed implies uuid_text(steps[k].uuid) != p.id && steps[k].player.id
            != p.id by {
            let j = choose|j: int| 0 <= j < players.len() && (#[trigger] players[j]).1
                == steps[k].player;
            if players[j].1.id == p.id {
                assert(i == j);
            }
        }
        assert(players.contains(players[i]));
        law_others_stay(players, steps, players[i]);
    }
}

/// Every step is that of a player.
proof fn lemma_steps_come_from_players(
    players: Seq<(u128, PlayerView)>,
    handoffs: Seq<(Seq<char>, HandoffView)>,
    shard_id: u32,
)
    ensures
        ({
            let steps = steps_of(players, handoffs, shard_id);
            forall|k: int|
                0 <= k < steps.len() ==> {
                    let p = (#[trigger] steps[k]).player;
                    &&& exists|j: int| 0 <= j < players.len() && (#[trigger] players[j]).1 == p
                    &&& parsed_uuid(p.id) == Some(steps[k].uuid)
                    &&& p.state == EntityState::PendingHandoff
                    &&& lookup(handoffs, p.id) matches Some(h) && h.accepted == steps[k].accepted
                    &&& steps[k].crossed == (grid_shard(p.pos_x, p.pos_y) != Some(shard_id))
                }
        }),
    decreases players.len(),
{
    let steps = steps_of(players, handoffs, shard_id);
    if players.len() > 0 {
        let front = players.drop_last();
        let rest = steps_of(front, handoffs, shard_id);
        lemma_steps_come_from_players(front, handoffs, shard_id);
        assert forall|k: int| 0 <= k < steps.len() implies {
            let p = (#[trigger] steps[k]).player;
            &&& exists|j: int| 0 <= j < players.len() && (#[trigger] players[j]).1 == p
            &&& parsed_uuid(p.id) == Some(steps[k].uuid)
            &&& p.state == EntityState::PendingHandoff
            &&& lookup(handoffs, p.id) matches Some(h) && h.accepted == steps[k].accepted
            &&& steps[k].crossed == (grid_shard(p.pos_x, p.pos_y) != Some(shard_id))
        } by {
            if k < rest.len() {
                assert(steps[k] == rest[k]);
                let j = choose|j: int| 0 <= j < front.len() && (#[trigger] front[j]).1
                    == rest[k].player;
                assert(players[j] == front[j]);
            } else {
                assert(players[players.len() - 1].1 == steps[k].player);
            }
        }
    }
}

/// A player that is being handed over has a step.
proof fn lemma_step_of_player(
    players: Seq<(u128, PlayerView)>,
    handoffs: Seq<(Seq<char>, HandoffView)>,
    shard_id: u32,
    i: int,
)
    requires
        0 <= i < players.len(),
    ensures
        ({
            let p = players[i].1;
            p.state == EntityState::PendingHandoff && parsed_uuid(p.id) is Some && lookup(
                handoffs,
                p.id,
            ) is Some ==> exists|k: int|
                0 <= k < steps_of(players, handoffs, shard_id).len() && (#[trigger] steps_of(
                    players,
                    handoffs,
                    shard_id,
                )[k]).player == p
        }),
    decreases players.len(),
{
    let steps = steps_of(players, handoffs, shard_id);
    let front = players.drop_last();
    let rest = steps_of(front, handoffs, shard_id);
    let p = players[i].1;
    if p.state == EntityState::PendingHandoff && parsed_uuid(p.id) is Some && lookup(
        handoffs,
        p.id,
    ) is Some {
        if i < players.len() - 1 {
            lemma_step_of_player(front, handoffs, shard_id, i);
            assert(front[i] == players[i]);
            let k = choose|k: int| 0 <= k < rest.len() && (#[trigger] rest[k]).player == p;
            assert(steps[k] == rest[k]);
        } else {
            assert(steps[rest.len() as int].player == p);
        }
    }
}

proof fn lemma_handoffs_after(
    handoffs: Seq<(Seq<char>, HandoffView)>,
    steps: Seq<StepView>,
    id: Seq<char>,
)
    requires
        distinct(handoffs),
    ensures
        distinct(handoffs_after(handoffs, steps)),
        lookup(handoffs_after(handoffs, steps), id) == if exists|k: int|
            0 <= k < steps.len() && (#[trigger] steps[k]).accepted && steps[k].crossed
                && steps[k].player.id == id {
            None
        } else {
            lookup(handoffs, id)
        },
    decreases steps.len(),
{
    if steps.len() > 0 {
        let front = steps.drop_last();
        let last = steps[steps.len() - 1];
        let rest = handoffs_after(handoffs, front);
        lemma_handoffs_after(handoffs, front, id);
        law_without_lookup(rest, last.player.id, id);
        assert forall|k: int| 0 <= k < front.len() implies #[trigger] front[k] == steps[k] by {}
        if exists|k: int|
            0 <= k < steps.len() && (#[trigger] steps[k]).accepted && steps[k].crossed
                && steps[k].player.id == id {
            let k = choose|k: int|
                0 <= k < steps.len() && (#[trigger] steps[k]).accepted && steps[k].crossed
                    && steps[k].player.id == id;
            if k < front.len() {
                assert(front[k].accepted && front[k].crossed && front[k].player.id == id);
            }
        } else if exists|k: int|
            0 <= k < front.len() && (#[trigger] front[k]).accepted && front[k].crossed
                && front[k].player.id == id {
            let k = choose|k: int|
                0 <= k < front.len() && (#[trigger] front[k]).accepted && front[k].crossed
                    && front[k].player.id == id;
            assert(steps[k].accepted && steps[k].crossed && steps[k].player.id == id);
        }
    }
}

/// The players that are left are some of those that there were, and none of those
/// that were let go.
proof fn lemma_players_after(players: Seq<(u128, PlayerView)>, steps: Seq<StepView>)
    requires
        ids_distinct(players),
    ensures
        ids_distinct(players_after(players, steps)),
        forall|m: int|
            0 <= m < players_after(players, steps).len() ==> players.contains(
                #[trigger] players_after(players, steps)[m],
            ),
        forall|m: int, k: int|
            0 <= m < players_after(players, steps).len() && 0 <= k < steps.len()
                && steps[k].accepted && steps[k].crossed ==> (#[trigger] players_after(
                players,
                steps,
            )[m]).1.id != uuid_text((#[trigger] steps[k]).uuid),
    decreases steps.len(),
{
    let all = players_after(players, steps);
    if steps.len() > 0 {
        let front = steps.drop_last();
        let rest = players_after(players, front);
        let last = steps[steps.len() - 1];
        lemma_players_after(players, front);
        let id = uuid_text(last.uuid);
        lemma_player_place(rest, id);
        let n = player_place(rest, id);
        let gone = last.accepted && last.crossed && n < rest.len();
        assert forall|m: int| 0 <= m < all.len() implies {
            &&& players.contains(#[trigger] all[m])
            &&& all[m] == rest[if gone && m >= n { m + 1 } else { m }]
        } by {
            let a = if gone && m >= n { m + 1 } else { m };
            assert(all[m] == rest[a]);
            assert(players.contains(rest[a]));
        }
        assert forall|a: int, b: int| 0 <= a < b < all.len() implies (#[trigger] all[a]).1.id != (
        #[trigger] all[b]).1.id by {
            let c = if gone && a >= n { a + 1 } else { a };
            let d = if gone && b >= n { b + 1 } else { b };
            assert(rest[c].1.id != rest[d].1.id);
        }
        assert forall|m: int, k: int|
            0 <= m < all.len() && 0 <= k < steps.len() && steps[k].accepted
                && steps[k].crossed implies (#[trigger] all[m]).1.id != uuid_text(
            (#[trigger] steps[k]).uuid,
        ) by {
            let a = if gone && m >= n { m + 1 } else { m };
            if k < front.len() {
                assert(front[k] == steps[k]);
                assert(rest[a].1.id != uuid_text(front[k].uuid));
            } else if n < rest.len() {
                if a < n {
                    assert(rest[a].1.id != id);
                } else {
                    assert(rest[n].1.id != rest[a].1.id);
                }
            } else {
                assert(rest[a].1.id != id);
            }
        }
    } else {
        assert forall|m: int| 0 <= m < all.len() implies players.contains(#[trigger] all[m]) by {}
    }
}

/// A handoff is given up exactly where the time that it has taken, with the time that
/// now goes by, reaches what it may take; every other goes on, with that time counted
/// and nothing else changed.
pub proof fn law_handoffs_end_in_time(
    handoffs: Seq<(Seq<char>, HandoffView)>,
    delta: u64,
    id: Seq<char>,
)
    requires
        distinct(handoffs),
    ensures
        lookup(kept(handoffs, delta), id) == match lookup(handoffs, id) {
            Some(h) if h.timer.elapsed + delta < h.timer.duration => Some(
                HandoffView {
                    timer: Countdown {
                        elapsed: (h.timer.elapsed + delta) as u64,
                        duration: h.timer.duration,
                    },
                    ..h
                },
            ),
            _ => None,
        },
        expired(handoffs, delta).contains(id) <==> lookup(handoffs, id) is Some && {
            let t = lookup(handoffs, id).unwrap().timer;
            t.elapsed + delta >= t.duration
        },
        distinct(kept(handoffs, delta)),
    decreases handoffs.len(),
{
    if handoffs.len() > 0 {
        let front = handoffs.drop_last();
        let (key, h) = handoffs[handoffs.len() - 1];
        assert forall|i: int, j: int| 0 <= i < j < front.len() implies (#[trigger] front[i]).0 != (
        #[trigger] front[j]).0 by {
            assert(handoffs[i].0 != handoffs[j].0);
        }
        law_handoffs_end_in_time(front, delta, id);
        law_handoffs_end_in_time(front, delta, key);
        lemma_place(front, key);
        if holds_key(front, key) {
            assert(handoffs[place(front, key)].0 != handoffs[handoffs.len() - 1].0);
        }
        assert(handoffs =~= put(front, key, h));
        law_put_lookup(front, key, h, id);
        let timer = h.timer.later(delta);
        law_put_lookup(kept(front, delta), key, HandoffView { timer, ..h }, id);
        let rest = expired(front, delta);
        if timer.is_finished() {
            let all = rest.push(key);
            if rest.contains(id) {
                let k = choose|k: int| 0 <= k < rest.len() && rest[k] == id;
                assert(all[k] == id);
            }
            assert(all[rest.len() as int] == key);
        }
    }
}

/// A player whose handoff is not given up stays in the state that it is in.
pub proof fn law_others_keep_their_state(
    players: Seq<(u128, PlayerView)>,
    ids: Seq<Seq<char>>,
    n: int,
)
    requires
        0 <= n < players.len(),
        forall|i: int|
            0 <= i < ids.len() && parsed_uuid(#[trigger] ids[i]) is Some ==> uuid_text(
                parsed_uuid(ids[i]).unwrap(),
            ) != players[n].1.id,
    ensures
        reverted(players, ids).len() == players.len(),
        reverted(players, ids)[n] == players[n],
    decreases ids.len(),
{
    if ids.len() > 0 {
        let front = ids.drop_last();
        assert forall|i: int|
            0 <= i < front.len() && parsed_uuid(#[trigger] front[i]) is Some implies uuid_text(
            parsed_uuid(front[i]).unwrap(),
        ) != players[n].1.id by {
            assert(front[i] == ids[i]);
        }
        law_others_keep_their_state(players, front, n);
        let last = ids[ids.len() - 1];
        if parsed_uuid(last) is Some {
            lemma_player_place(reverted(players, front), uuid_text(parsed_uuid(last).unwrap()));
        }
    }
}

/// A tick of the shard that owns a player that is being handed over. Without a
/// broker nothing happens. With one, the other shard is asked for the player,
/// with where it is and how it moves, until it has accepted; from then on it is
/// told just that; and when it has accepted, and the player is not where this
/// shard owns, it is told that the player is its own, the player is let go, and
/// the handoff is over. Otherwise the player, and its handoff, stay.
pub proof fn law_tick_of_a_handoff(
    players: Seq<(u128, PlayerView)>,
    handoffs: Seq<(Seq<char>, HandoffView)>,
    broker: Option<u128>,
    shard_id: u32,
    left: Seq<(u128, PlayerView)>,
    going: Seq<(Seq<char>, HandoffView)>,
    said: Seq<(u32, Said)>,
    i: int,
    uuid: u128,
)
    requires
        driven(players, handoffs, broker, shard_id, left, going, said),
        ids_distinct(players),
        distinct(handoffs),
        forall|j: int|
            0 <= j < players.len() && parsed_uuid((#[trigger] players[j]).1.id) is Some
                ==> players[j].1.id == uuid_text(parsed_uuid(players[j].1.id).unwrap()),
        0 <= i < players.len(),
        parsed_uuid(players[i].1.id) == Some(uuid),
        players[i].1.state == EntityState::PendingHandoff,
        lookup(handoffs, players[i].1.id) is Some,
    ensures
        broker is None ==> said.len() == 0 && left == players && going == handoffs,
        broker is Some ==> {
            let p = players[i].1;
            let h = lookup(handoffs, p.id).unwrap();
            let pos = (p.pos_x, p.pos_y);
            let vel = (p.vel_x, p.vel_y);
            let goes = h.accepted && grid_shard(p.pos_x, p.pos_y) != Some(shard_id);
            &&& said.contains((h.dest_shard_id, Said::Complete { entity: p.id })) <==> goes
            &&& h.accepted ==> said.contains((h.dest_shard_id, Said::Update { entity: p.id, pos, vel }))
            &&& !h.accepted ==> said.contains(
                (
                    h.dest_shard_id,
                    Said::Request { entity: p.id, from_shard: shard_id, pos, vel, state: Seq::empty() },
                ),
            )
            &&& left.contains(players[i]) <==> !goes
            &&& lookup(going, p.id) == if goes {
                None
            } else {
                Some(h)
            }
        },
{
    if broker is Some {
        law_every_pending_player_is_told_of(players, handoffs, shard_id, i);
        law_exactly_those_who_left_are_let_go(players, handoffs, shard_id, i, uuid);
        let p = players[i].1;
        let h = lookup(handoffs, p.id).unwrap();
        let complete = (h.dest_shard_id, Said::Complete { entity: p.id });
        if said.contains(complete) {
            let k = choose|k: int| 0 <= k < said.len() && said[k] == complete;
            assert(said[k].1 == (Said::Complete { entity: p.id }));
        }
    }
}

/// A tick says and does nothing of players that are not being handed over.
pub proof fn law_tick_leaves_the_others(
    players: Seq<(u128, PlayerView)>,
    handoffs: Seq<(Seq<char>, HandoffView)>,
    broker: Option<u128>,
    shard_id: u32,
    left: Seq<(u128, PlayerView)>,
    going: Seq<(Seq<char>, HandoffView)>,
    said: Seq<(u32, Said)>,
)
    requires
        driven(players, handoffs, broker, shard_id, left, going, said),
        forall|j: int|
            0 <= j < players.len() ==> (#[trigger] players[j]).1.state != EntityState::PendingHandoff
                || lookup(handoffs, players[j].1.id) is None || parsed_uuid(players[j].1.id) is None,
    ensures
        said.len() == 0,
        left == players,
        going == handoffs,
{
    let steps = steps_of(players, handoffs, shard_id);
    lemma_steps_come_from_players(players, handoffs, shard_id);
    if steps.len() > 0 {
        let j = choose|j: int| 0 <= j < players.len() && (#[trigger] players[j]).1 == steps[0].player;
        assert(players[j].1.state != EntityState::PendingHandoff || lookup(handoffs, players[j].1.id) is None
            || parsed_uuid(players[j].1.id) is None);
    }
}

/// A handoff that has taken 5 seconds is given up, whatever it has come to, and
/// its player is this shard's own again; one that has not goes on, and its
/// player stays as it is.
pub proof fn law_handoff_times_out(
    handoffs: Seq<(Seq<char>, HandoffView)>,
    players: Seq<(u128, PlayerView)>,
    delta: u64,
    going: Seq<(Seq<char>, HandoffView)>,
    after: Seq<(u128, PlayerView)>,
    given_up: Seq<Seq<char>>,
    uuid: u128,
    n: int,
)
    requires
        timed_out(handoffs, players, delta, going, after, given_up),
        distinct(handoffs),
        is_first(players, uuid_text(uuid), n),
        lookup(handoffs, uuid_text(uuid)) is Some,
        forall|i: int|
            0 <= i < handoffs.len() ==> read_back((#[trigger] handoffs[i]).0) && (parsed_uuid(
                handoffs[i].0,
            ) matches Some(u) ==> handoffs[i].0 == uuid_text(u)),
    ensures
        ({
            let id = uuid_text(uuid);
            let h = lookup(handoffs, id).unwrap();
            let over = h.timer.elapsed + delta >= h.timer.duration;
            &&& given_up.contains(id) <==> over
            &&& lookup(going, id) is None <==> over
            &&& after.len() == players.len()
            &&& after[n] == (players[n].0, if over {
                PlayerView { state: EntityState::Owned, ..players[n].1 }
            } else {
                players[n].1
            })
        }),
{
    let id = uuid_text(uuid);
    law_handoffs_end_in_time(handoffs, delta, id);
    lemma_player_place_is(players, id, n);
    lemma_expired_are_handoffs(handoffs, delta);
    lemma_place(handoffs, id);
    assert(read_back(handoffs[place(handoffs, id)].0));
    assert(parsed_uuid(id) == Some(uuid));
    if given_up.contains(id) {
        let i = choose|i: int| 0 <= i < given_up.len() && given_up[i] == id;
        law_expired_are_owned_again(players, given_up, i, uuid);
    } else {
        assert forall|i: int|
            0 <= i < given_up.len() && parsed_uuid(#[trigger] given_up[i]) is Some implies uuid_text(
            parsed_uuid(given_up[i]).unwrap(),
        ) != players[n].1.id by {
            let j = choose|j: int| 0 <= j < handoffs.len() && (#[trigger] handoffs[j]).0 == given_up[i];
            assert(handoffs[j].0 == given_up[i]);
            assert(given_up.contains(given_up[i]));
        }
        law_others_keep_their_state(players, given_up, n);
    }
}

proof fn lemma_expired_are_handoffs(handoffs: Seq<(Seq<char>, HandoffView)>, delta: u64)
    ensures
        forall|i: int|
            0 <= i < expired(handoffs, delta).len() ==> exists|j: int|
                0 <= j < handoffs.len() && (#[trigger] handoffs[j]).0 == (#[trigger] expired(
                    handoffs,
                    delta,
                )[i]),
    decreases handoffs.len(),
{
    if handoffs.len() > 0 {
        let front = handoffs.drop_last();
        let rest = expired(front, delta);
        let all = expired(handoffs, delta);
        lemma_expired_are_handoffs(front, delta);
        assert forall|i: int| 0 <= i < all.len() implies exists|j: int|
            0 <= j < handoffs.len() && (#[trigger] handoffs[j]).0 == (#[trigger] all[i]) by {
            if i < rest.len() {
                assert(all[i] == rest[i]);
                let j = choose|j: int| 0 <= j < front.len() && (#[trigger] front[j]).0 == rest[i];
                assert(handoffs[j] == front[j]);
            } else {
                assert(handoffs[handoffs.len() - 1].0 == all[i]);
            }
        }
    }
}

/// The first byte of a message tells its kind, and no two kinds have one byte.
pub proof fn law_first_byte_tells_the_kind(m: Said)
    ensures
        tag_of(m) == 0x20 <==> m is Request,
        tag_of(m) == 0x21 <==> m is Accept,
        tag_of(m) == 0x22 <==> m is Reject,
        tag_of(m) == 0x23 <==> m is Update,
        tag_of(m) == 0x24 <==> m is Complete,
{
}

} // verus!
