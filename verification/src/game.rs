//! A game server as a whole: what each thing that it hears does to it.

use crate::broker::input_message;
use crate::handoff::{
    alert_starts, ghost_of, handle_crossing_alert, handle_ghost_update, handle_handoff_accept,
    handle_handoff_complete, handle_handoff_reject, handle_handoff_request,
    law_late_completion_finds_no_ghost, law_one_player_is_told_of, law_promoted_is_owned,
    request_of, routed_view, steps_messages, steps_of, updated_ghost, Routed, Said, ShardMessage,
};
use crate::outside::{parsed_uuid, uuid_text};
use crate::packet::{packet_view, Packet};
use crate::quad_tree::grid_shard;
use crate::resources::{
    is_first, is_unknown, law_one_state_changes, law_players_are_found, law_taken_in_as_it_came,
    new_handoff, player_place, promoted, with_state, Countdown, HandoffManager, HandoffView,
    PlayerRegistry, PlayerView, ServerConfig, ServiceLinks,
};
use crate::server::{
    after_input, after_position, handle_client_input, handle_join, handle_update_pos, hear, heard,
    law_shard_messages_are_heard, position_message, some_joined, Incoming,
};
use crate::protocol::{law_alert_bytes, law_server_hears_input, law_server_reads_alert};
use crate::shared::{
    EntityState, GhostUpdate, HandoffAccept, HandoffComplete, HandoffReject, HandoffRequest,
};
use crate::single::Single;
use crate::spatial::alert_message;
use crate::text::texts;
use crate::vec_map::{distinct, law_put_lookup, law_without_lookup, lookup, put, without};
use crate::wire::{id_at, u32_at};
use vstd::prelude::*;

verus! {

/// A game server.
pub struct GameServer {
    pub config: ServerConfig,
    pub registry: PlayerRegistry,
    pub handoffs: HandoffManager,
    pub links: ServiceLinks,
}

/// What a server knows of entities: its players, its handoffs and its ghosts.
pub struct WorldView {
    pub players: Seq<(u128, PlayerView)>,
    pub handoffs: Seq<(Seq<char>, HandoffView)>,
    pub ghosts: Seq<(Seq<char>, PlayerView)>,
}

/// What is left to be done once a message has been taken in.
#[derive(Debug)]
pub enum Reaction {
    Nothing,
    /// A message is to be sent to a shard.
    Route(Routed),
    /// The body of a shard's message is to be read.
    Read { tag: u8, body: Vec<u8> },
    /// A player is to be answered.
    Answer(Packet),
    /// Four numbers are to be read: a position and a velocity.
    ReadNumbers { fields: Vec<String> },
}

/// What an alert does, and what is sent then, and to which shard.
pub open spec fn after_alert(
    w: WorldView,
    data: Seq<u8>,
    broker: Option<u128>,
    shard_id: u32,
) -> (WorldView, Option<(u32, Said)>) {
    let id = uuid_text(id_at(data, 1));
    let dest = u32_at(data, 17);
    if alert_starts(w.players, w.handoffs, broker, data) {
        (
            WorldView {
                players: with_state(w.players, id, EntityState::PendingHandoff),
                handoffs: put(w.handoffs, id, new_handoff(id, shard_id, dest, Seq::empty())),
                ghosts: w.ghosts,
            },
            Some((dest, request_of(w.players[player_place(w.players, id)].1, shard_id))),
        )
    } else {
        (w, None)
    }
}

/// What a message of another shard does, and what is sent then, and to which
/// shard.
pub open spec fn after_message(
    w: WorldView,
    m: ShardMessage,
    broker: Option<u128>,
    shard_id: u32,
) -> (WorldView, Option<(u32, Said)>) {
    match m {
        ShardMessage::Request(m) => if broker is Some {
            (
                WorldView { ghosts: put(w.ghosts, m.entity_id@, ghost_of(m)), ..w },
                Some((m.from_shard, Said::Accept { entity: m.entity_id@ })),
            )
        } else {
            (w, None)
        },
        ShardMessage::Accept(m) => match lookup(w.handoffs, m.entity_id@) {
            Some(h) => (
                WorldView {
                    handoffs: put(w.handoffs, m.entity_id@, HandoffView { accepted: true, ..h }),
                    ..w
                },
                None,
            ),
            None => (w, None),
        },
        ShardMessage::Reject(m) => (
            WorldView { handoffs: without(w.handoffs, m.entity_id@), ..w },
            None,
        ),
        ShardMessage::Update(m) => match lookup(w.ghosts, m.entity_id@) {
            Some(g) => if grid_shard(m.pos_x, m.pos_y) == Some(shard_id) {
                (
                    WorldView {
                        players: promoted(w.players, updated_ghost(g, m)),
                        ghosts: without(w.ghosts, m.entity_id@),
                        ..w
                    },
                    None,
                )
            } else {
                (
                    WorldView { ghosts: put(w.ghosts, m.entity_id@, updated_ghost(g, m)), ..w },
                    None,
                )
            },
            None => (w, None),
        },
        ShardMessage::Complete(m) => (
            WorldView {
                players: match lookup(w.ghosts, m.entity_id@) {
                    Some(g) => promoted(w.players, g),
                    None => w.players,
                },
                handoffs: without(w.handoffs, m.entity_id@),
                ghosts: without(w.ghosts, m.entity_id@),
            },
            None,
        ),
    }
}

impl GameServer {
    /// What the server knows of entities.
    pub open spec fn world(self) -> WorldView {
        WorldView {
            players: self.registry@,
            handoffs: self.handoffs.handoffs(),
            ghosts: self.handoffs.ghosts(),
        }
    }

    pub open spec fn wf(self) -> bool {
        self.registry.wf() && self.handoffs.wf()
    }

    /// The server is configured and connected as another.
    pub open spec fn same_place(self, other: Self) -> bool {
        &&& self.config == other.config
        &&& self.links == other.links
        &&& self.handoffs.shard_connections@ == other.handoffs.shard_connections@
    }

    pub fn new(config: ServerConfig) -> (r: Self)
        ensures
            r.wf(),
            r.config == config,
            r.world() == (WorldView {
                players: Seq::empty(),
                handoffs: Seq::empty(),
                ghosts: Seq::empty(),
            }),
            r.handoffs.shard_connections@ == Map::<u32, u128>::empty(),
            r.links.orchestrator.connection is None,
            r.links.spatial.connection is None,
            r.links.broker.connection is None,
            r.links.pending.queue@.len() == 0,
    {
        GameServer {
            config,
            registry: PlayerRegistry::new(),
            handoffs: HandoffManager::new(),
            links: ServiceLinks::new(),
        }
    }

    /// What a message does, once it is known what it is, and what is left to be
    /// done.
    pub open spec fn reacted(
        self,
        after: Self,
        from: u128,
        data: Seq<u8>,
        incoming: Incoming,
        r: Reaction,
    ) -> bool {
        let w = self.world();
        match incoming {
            Incoming::Ignored => after.world() == w && r is Nothing,
            Incoming::ClientInput { uuid, input } => {
                &&& after.world() == (WorldView {
                    players: after_input(
                        w.players,
                        uuid,
                        input@,
                        self.config.shard_id,
                        self.config.max_players,
                    ),
                    ..w
                })
                &&& r is Nothing
            },
            Incoming::CrossingAlert => {
                let (world, message) = after_alert(
                    w,
                    data,
                    self.links.broker.connection,
                    self.config.shard_id,
                );
                &&& after.world() == world
                &&& match message {
                    Some(m) => r matches Reaction::Route(x) && (x.dest_shard, x.message@) == m,
                    None => r is Nothing,
                }
            },
            Incoming::FromShard { tag, body } => {
                &&& after.world() == w
                &&& r matches Reaction::Read { tag: t, body: b } && t == tag && b@ == body@
            },
            Incoming::Join { username } => {
                &&& after.world() == (WorldView { players: after.registry@, ..w })
                &&& r matches Reaction::Answer(answer) && some_joined(
                    w.players,
                    after.registry@,
                    answer,
                    username@,
                    from,
                    self.config.max_players,
                )
            },
            Incoming::UpdatePos { fields } => {
                &&& after.world() == w
                &&& r matches Reaction::ReadNumbers { fields: f } && texts(f@) == texts(fields@)
            },
        }
    }

    /// Takes in a message that came on a connection.
    pub fn receive(&mut self, from: u128, data: &[u8]) -> (r: Reaction)
        ensures
            old(self).wf() ==> final(self).wf(),
            old(self).same_place(*final(self)),
            exists|i: Incoming| #[trigger]
                heard(data@, i) && old(self).reacted(*final(self), from, data@, i, r),
    {
        let incoming = hear(data);
        let ghost i = incoming;
        let r = match incoming {
            Incoming::Ignored => Reaction::Nothing,
            Incoming::ClientInput { uuid, input } => {
                handle_client_input(uuid, input.as_slice(), &mut self.registry, &self.config);
                assert(old(self).reacted(*self, from, data@, i, Reaction::Nothing));
                Reaction::Nothing
            },
            Incoming::CrossingAlert => {
                let message = handle_crossing_alert(
                    data,
                    &mut self.registry,
                    &mut self.handoffs,
                    &self.links.broker,
                    &self.config,
                );
                let r = match message {
                    Some(m) => Reaction::Route(m),
                    None => Reaction::Nothing,
                };
                assert(old(self).reacted(*self, from, data@, i, r));
                r
            },
            Incoming::FromShard { tag, body } => Reaction::Read { tag, body },
            Incoming::Join { username } => {
                let max_players: usize = self.config.max_players;
                let answer = handle_join(
                    username.as_str(),
                    from,
                    &mut self.registry,
                    max_players,
                );
                assert(some_joined(
                    old(self).registry@,
                    self.registry@,
                    answer,
                    username@,
                    from,
                    max_players,
                ));
                let r = Reaction::Answer(answer);
                assert(old(self).reacted(*self, from, data@, i, r));
                r
            },
            Incoming::UpdatePos { fields } => Reaction::ReadNumbers { fields },
        };
        assert(heard(data@, i) && old(self).reacted(*self, from, data@, i, r));
        r
    }

    /// Takes in a message of another shard that was read.
    pub fn receive_from_shard(&mut self, message: ShardMessage) -> (r: Option<Routed>)
        ensures
            old(self).wf() ==> final(self).wf(),
            old(self).same_place(*final(self)),
            (final(self).world(), routed_view(r)) == after_message(
                old(self).world(),
                message,
                old(self).links.broker.connection,
                old(self).config.shard_id,
            ),
    {
        match message {
            ShardMessage::Request(m) => handle_handoff_request(
                m,
                &mut self.handoffs,
                &self.links.broker,
            ),
            ShardMessage::Accept(m) => {
                handle_handoff_accept(m, &mut self.handoffs);
                None
            },
            ShardMessage::Reject(m) => {
                handle_handoff_reject(m, &mut self.handoffs);
                None
            },
            ShardMessage::Update(m) => {
                handle_ghost_update(m, &mut self.registry, &mut self.handoffs, &self.config);
                None
            },
            ShardMessage::Complete(m) => {
                handle_handoff_complete(m, &mut self.registry, &mut self.handoffs);
                None
            },
        }
    }

    /// Takes in where a player said that it is, and how fast.
    pub fn receive_position(&mut self, from: u128, pos: [Single; 2], vel: [Single; 2]) -> (r: Option<
        Packet,
    >)
        ensures
            old(self).wf() ==> final(self).wf(),
            old(self).same_place(*final(self)),
            final(self).world().players == after_position(old(self).world().players, from, pos, vel),
            ({
                let w = old(self).world();
                let known = lookup(w.players, from);
                &&& final(self).world() == (WorldView {
                    players: match known {
                        Some(p) => put(
                            w.players,
                            from,
                            PlayerView {
                                pos_x: pos[0],
                                pos_y: pos[1],
                                vel_x: vel[0],
                                vel_y: vel[1],
                                ..p
                            },
                        ),
                        None => w.players,
                    },
                    ..w
                })
                &&& packet_view(r) == match (old(self).links.spatial.connection, known) {
                    (Some(to), Some(p)) => match parsed_uuid(p.id) {
                        Some(uuid) => Some(
                            (
                                to,
                                position_message(old(self).config.shard_id, uuid, pos[0], pos[1]),
                            ),
                        ),
                        None => None,
                    },
                    _ => None,
                }
            }),
    {
        handle_update_pos(from, pos, vel, &mut self.registry, &self.links.spatial, &self.config)
    }
}

/// A takeover survives the loss of either of the last two messages: whether a
/// shard hears where an entity is, in its own zone, or that it is its own, or
/// both, the entity is then its own, and no ghost of it is left. What comes second
/// changes nothing of the players.
pub proof fn law_takeover_survives_losses(
    w: WorldView,
    u: GhostUpdate,
    c: HandoffComplete,
    broker: Option<u128>,
    shard_id: u32,
    uuid: u128,
)
    requires
        distinct(w.players),
        distinct(w.ghosts),
        u.entity_id@ == c.entity_id@,
        lookup(w.ghosts, u.entity_id@) matches Some(g) && g.id == u.entity_id@,
        parsed_uuid(u.entity_id@) == Some(uuid),
        grid_shard(u.pos_x, u.pos_y) == Some(shard_id),
    ensures
        ({
            let id = u.entity_id@;
            let g = lookup(w.ghosts, id).unwrap();
            let updated = after_message(w, ShardMessage::Update(u), broker, shard_id).0;
            let completed = after_message(w, ShardMessage::Complete(c), broker, shard_id).0;
            let both = after_message(updated, ShardMessage::Complete(c), broker, shard_id).0;
            &&& lookup(updated.players, uuid) == Some(
                PlayerView {
                    state: EntityState::Owned,
                    owner_shard_id: None,
                    ..updated_ghost(g, u)
                },
            )
            &&& lookup(completed.players, uuid) == Some(
                PlayerView { state: EntityState::Owned, owner_shard_id: None, ..g },
            )
            &&& both.players == updated.players
            &&& lookup(updated.ghosts, id) is None
            &&& lookup(completed.ghosts, id) is None
            &&& lookup(both.ghosts, id) is None
        }),
{
    let id = u.entity_id@;
    let g = lookup(w.ghosts, id).unwrap();
    law_promoted_is_owned(w.players, g, u, uuid);
    law_put_lookup(
        w.players,
        uuid,
        PlayerView { state: EntityState::Owned, owner_shard_id: None, ..g },
        uuid,
    );
    law_late_completion_finds_no_ghost(w.ghosts, id);
}

/// Messages of other shards never make two players of one connection, two
/// handoffs or two ghosts of one entity.
pub proof fn law_messages_keep_entities_apart(
    w: WorldView,
    m: ShardMessage,
    broker: Option<u128>,
    shard_id: u32,
)
    requires
        distinct(w.players),
        distinct(w.handoffs),
        distinct(w.ghosts),
    ensures
        ({
            let after = after_message(w, m, broker, shard_id).0;
            distinct(after.players) && distinct(after.handoffs) && distinct(after.ghosts)
        }),
{
    match m {
        ShardMessage::Request(m) => {
            law_put_lookup(w.ghosts, m.entity_id@, ghost_of(m), m.entity_id@);
        },
        ShardMessage::Accept(m) => {
            if let Some(h) = lookup(w.handoffs, m.entity_id@) {
                let h = HandoffView { accepted: true, ..h };
                law_put_lookup(w.handoffs, m.entity_id@, h, m.entity_id@);
            }
        },
        ShardMessage::Reject(m) => {
            law_without_lookup(w.handoffs, m.entity_id@, m.entity_id@);
        },
        ShardMessage::Update(m) => {
            law_without_lookup(w.ghosts, m.entity_id@, m.entity_id@);
            if let Some(g) = lookup(w.ghosts, m.entity_id@) {
                let g = updated_ghost(g, m);
                law_put_lookup(w.ghosts, m.entity_id@, g, m.entity_id@);
                lemma_promoted_distinct(w.players, g);
            }
        },
        ShardMessage::Complete(m) => {
            law_without_lookup(w.handoffs, m.entity_id@, m.entity_id@);
            law_without_lookup(w.ghosts, m.entity_id@, m.entity_id@);
            if let Some(g) = lookup(w.ghosts, m.entity_id@) {
                lemma_promoted_distinct(w.players, g);
            }
        },
    }
}

proof fn lemma_promoted_distinct(players: Seq<(u128, PlayerView)>, g: PlayerView)
    requires
        distinct(players),
    ensures
        distinct(promoted(players, g)),
{
    if let Some(uuid) = parsed_uuid(g.id) {
        let p = PlayerView { state: EntityState::Owned, owner_shard_id: None, ..g };
        law_put_lookup(players, uuid, p, uuid);
    }
}

/// An alert of a client near another shard starts its handoff, where the
/// client's player is owned here, is not being handed over, and there is a
/// broker: the player is then being handed over to that shard, which has 5
/// seconds to accept, and which is asked to take over the entity where it is
/// and as it moves. Nothing else changes, and in every other case nothing at
/// all.
pub proof fn law_alert_starts_the_handoff(
    w: WorldView,
    client: u128,
    dest: u32,
    broker: Option<u128>,
    shard_id: u32,
    n: int,
    other: Seq<char>,
)
    requires
        distinct(w.handoffs),
    ensures
        ({
            let id = uuid_text(client);
            let p = w.players[n].1;
            let (after, said) = after_alert(w, alert_message(client, dest), broker, shard_id);
            let starts = p.state == EntityState::Owned && lookup(w.handoffs, id) is None
                && broker is Some;
            &&& is_first(w.players, id, n) && starts ==> {
                &&& after.players == w.players.update(
                    n,
                    (w.players[n].0, PlayerView { state: EntityState::PendingHandoff, ..p }),
                )
                &&& lookup(after.handoffs, id) == Some(
                    HandoffView {
                        entity_id: id,
                        source_shard_id: shard_id,
                        dest_shard_id: dest,
                        entity_state: Seq::empty(),
                        accepted: false,
                        timer: Countdown { elapsed: 0, duration: 5_000_000_000 },
                    },
                )
                &&& other != id ==> lookup(after.handoffs, other) == lookup(w.handoffs, other)
                &&& after.ghosts == w.ghosts
                &&& said == Some(
                    (
                        dest,
                        Said::Request {
                            entity: id,
                            from_shard: shard_id,
                            pos: (p.pos_x, p.pos_y),
                            vel: (p.vel_x, p.vel_y),
                            state: Seq::empty(),
                        },
                    ),
                )
            }
            &&& is_first(w.players, id, n) && !starts ==> after == w && said is None
            &&& is_unknown(w.players, id) ==> after == w && said is None
        }),
{
    let id = uuid_text(client);
    law_alert_bytes(client, dest);
    law_players_are_found(w.players, id, n);
    law_one_state_changes(w.players, id, EntityState::PendingHandoff, n);
    law_put_lookup(
        w.handoffs,
        id,
        new_handoff(id, shard_id, dest, Seq::empty()),
        other,
    );
}

/// A shard that is asked to take an entity over holds a ghost of it from then
/// on, where it was said to be and as it moves, under its identifier and of the
/// shard that asked, which is told so. Nothing else changes; without a broker
/// nothing does.
pub proof fn law_request_makes_a_ghost(
    w: WorldView,
    m: HandoffRequest,
    broker: Option<u128>,
    shard_id: u32,
    other: Seq<char>,
)
    requires
        distinct(w.ghosts),
    ensures
        ({
            let (after, said) = after_message(w, ShardMessage::Request(m), broker, shard_id);
            let id = m.entity_id@;
            &&& after.players == w.players && after.handoffs == w.handoffs
            &&& broker is None ==> after == w && said is None
            &&& broker is Some ==> {
                &&& lookup(after.ghosts, id) == Some(
                    PlayerView {
                        id,
                        username: "ghost"@,
                        pos_x: m.pos_x,
                        pos_y: m.pos_y,
                        vel_x: m.vel_x,
                        vel_y: m.vel_y,
                        state: EntityState::GhostCopy,
                        owner_shard_id: Some(m.from_shard),
                        conn: None,
                    },
                )
                &&& other != id ==> lookup(after.ghosts, other) == lookup(w.ghosts, other)
                &&& said == Some((m.from_shard, Said::Accept { entity: id }))
            }
        }),
{
    law_put_lookup(w.ghosts, m.entity_id@, ghost_of(m), other);
}

/// Once a shard has accepted, the handoff of that entity is accepted, and otherwise
/// as it was; no other handoff changes, and nothing is said.
pub proof fn law_acceptance_is_noted(
    w: WorldView,
    m: HandoffAccept,
    broker: Option<u128>,
    shard_id: u32,
    other: Seq<char>,
)
    requires
        distinct(w.handoffs),
    ensures
        ({
            let (after, said) = after_message(w, ShardMessage::Accept(m), broker, shard_id);
            let id = m.entity_id@;
            &&& said is None && after.players == w.players && after.ghosts == w.ghosts
            &&& lookup(after.handoffs, other) == match lookup(w.handoffs, other) {
                Some(h) if other == id => Some(HandoffView { accepted: true, ..h }),
                unchanged => unchanged,
            }
        }),
{
    let id = m.entity_id@;
    if let Some(h) = lookup(w.handoffs, id) {
        law_put_lookup(w.handoffs, id, HandoffView { accepted: true, ..h }, other);
    }
}

/// Once a shard has refused, the handoff of that entity is over; nothing else
/// changes.
pub proof fn law_refusal_ends_the_handoff(
    w: WorldView,
    m: HandoffReject,
    broker: Option<u128>,
    shard_id: u32,
    other: Seq<char>,
)
    requires
        distinct(w.handoffs),
    ensures
        ({
            let (after, said) = after_message(w, ShardMessage::Reject(m), broker, shard_id);
            &&& said is None && after.players == w.players && after.ghosts == w.ghosts
            &&& lookup(after.handoffs, other) == if other == m.entity_id@ {
                None
            } else {
                lookup(w.handoffs, other)
            }
        }),
{
    law_without_lookup(w.handoffs, m.entity_id@, other);
}

/// A ghost is, once its owner has said where it is, there and moves so; where
/// that is in this shard, it is no ghost any more but this shard's own player.
/// No other entity changes, and of an entity without a ghost nothing is taken
/// notice of.
pub proof fn law_update_moves_the_ghost(
    w: WorldView,
    m: GhostUpdate,
    broker: Option<u128>,
    shard_id: u32,
    other: Seq<char>,
    key: u128,
)
    requires
        distinct(w.ghosts),
        distinct(w.players),
    ensures
        ({
            let (after, said) = after_message(w, ShardMessage::Update(m), broker, shard_id);
            let id = m.entity_id@;
            let here = grid_shard(m.pos_x, m.pos_y) == Some(shard_id);
            &&& said is None && after.handoffs == w.handoffs
            &&& lookup(w.ghosts, id) is None ==> after == w
            &&& other != id ==> lookup(after.ghosts, other) == lookup(w.ghosts, other)
            &&& lookup(w.ghosts, id) matches Some(g) ==> {
                let there = PlayerView {
                    pos_x: m.pos_x,
                    pos_y: m.pos_y,
                    vel_x: m.vel_x,
                    vel_y: m.vel_y,
                    ..g
                };
                &&& !here ==> lookup(after.ghosts, id) == Some(there) && after.players == w.players
                &&& here ==> lookup(after.ghosts, id) is None
                &&& here && parsed_uuid(g.id) is None ==> after.players == w.players
                &&& here && parsed_uuid(g.id) is Some ==> lookup(after.players, key) == if parsed_uuid(
                    g.id,
                ) == Some(key) {
                    Some(
                        PlayerView { state: EntityState::Owned, owner_shard_id: None, ..there },
                    )
                } else {
                    lookup(w.players, key)
                }
            }
        }),
{
    let id = m.entity_id@;
    law_without_lookup(w.ghosts, id, other);
    law_without_lookup(w.ghosts, id, id);
    if let Some(g) = lookup(w.ghosts, id) {
        law_put_lookup(w.ghosts, id, updated_ghost(g, m), other);
        law_taken_in_as_it_came(w.players, updated_ghost(g, m), key);
    }
}

/// Once a shard is told that an entity is its own, the ghost is its own player, where
/// the ghost was, and no ghost and no handoff of that entity is left. No other entity
/// changes.
pub proof fn law_completion_hands_over(
    w: WorldView,
    m: HandoffComplete,
    broker: Option<u128>,
    shard_id: u32,
    other: Seq<char>,
    key: u128,
)
    requires
        distinct(w.ghosts),
        distinct(w.handoffs),
        distinct(w.players),
    ensures
        ({
            let (after, said) = after_message(w, ShardMessage::Complete(m), broker, shard_id);
            let id = m.entity_id@;
            &&& said is None
            &&& lookup(after.ghosts, other) == if other == id {
                None
            } else {
                lookup(w.ghosts, other)
            }
            &&& lookup(after.handoffs, other) == if other == id {
                None
            } else {
                lookup(w.handoffs, other)
            }
            &&& lookup(w.ghosts, id) is None ==> after.players == w.players
            &&& lookup(w.ghosts, id) matches Some(g) ==> {
                &&& parsed_uuid(g.id) is None ==> after.players == w.players
                &&& parsed_uuid(g.id) is Some ==> lookup(after.players, key) == if parsed_uuid(g.id)
                    == Some(key) {
                    Some(PlayerView { state: EntityState::Owned, owner_shard_id: None, ..g })
                } else {
                    lookup(w.players, key)
                }
            }
        }),
{
    let id = m.entity_id@;
    law_without_lookup(w.ghosts, id, other);
    law_without_lookup(w.handoffs, id, other);
    if let Some(g) = lookup(w.ghosts, id) {
        law_taken_in_as_it_came(w.players, g, key);
    }
}

/// All through a handoff the ghost is where the player is: when the shard that
/// was asked has taken in what the owner said in a tick of a player that it had
/// accepted, its ghost of the entity, or, once that is in its own zone, its own
/// player, is where the owner's player is, and moves so.
pub proof fn law_ghost_is_where_the_player_is(
    entry: (u128, PlayerView),
    handoffs: Seq<(Seq<char>, HandoffView)>,
    from_shard: u32,
    w: WorldView,
    m: GhostUpdate,
    broker: Option<u128>,
    uuid: u128,
)
    requires
        distinct(w.ghosts),
        distinct(w.players),
        entry.1.state == EntityState::PendingHandoff,
        parsed_uuid(entry.1.id) == Some(uuid),
        lookup(handoffs, entry.1.id) matches Some(h) && h.accepted,
        steps_messages(steps_of(seq![entry], handoffs, from_shard), from_shard)[0].1
            == ShardMessage::Update(m)@,
        lookup(w.ghosts, entry.1.id) matches Some(g) && g.id == entry.1.id,
    ensures
        ({
            let dest = lookup(handoffs, entry.1.id).unwrap().dest_shard_id;
            let after = after_message(w, ShardMessage::Update(m), broker, dest).0;
            let p = entry.1;
            let there = if grid_shard(p.pos_x, p.pos_y) == Some(dest) {
                lookup(after.players, uuid)
            } else {
                lookup(after.ghosts, p.id)
            };
            &&& there matches Some(e) && e.id == p.id && e.pos_x == p.pos_x && e.pos_y == p.pos_y
                && e.vel_x == p.vel_x && e.vel_y == p.vel_y
            &&& steps_messages(steps_of(seq![entry], handoffs, from_shard), from_shard)[0].0 == dest
        }),
{
    let dest = lookup(handoffs, entry.1.id).unwrap().dest_shard_id;
    law_one_player_is_told_of(entry, handoffs, from_shard);
    law_update_moves_the_ghost(w, m, broker, dest, entry.1.id, uuid);
}

/// A handoff that is asked for is answered to the shard that asked, and that
/// answer makes it accepted there.
pub proof fn law_asking_leads_to_acceptance(
    source: WorldView,
    dest: WorldView,
    p: PlayerView,
    source_shard: u32,
    dest_shard: u32,
    req: HandoffRequest,
    answer: HandoffAccept,
    broker: Option<u128>,
)
    requires
        distinct(dest.ghosts),
        distinct(source.handoffs),
        broker is Some,
        ShardMessage::Request(req)@ == request_of(p, source_shard),
        ShardMessage::Accept(answer)@ == after_message(
            dest,
            ShardMessage::Request(req),
            broker,
            dest_shard,
        ).1.unwrap().1,
        lookup(source.handoffs, p.id) is Some,
    ensures
        after_message(dest, ShardMessage::Request(req), broker, dest_shard).1.unwrap().0
            == source_shard,
        lookup(
            after_message(source, ShardMessage::Accept(answer), broker, source_shard).0.handoffs,
            p.id,
        ) matches Some(h) && h.accepted,
{
    law_request_makes_a_ghost(dest, req, broker, dest_shard, p.id);
    law_acceptance_is_noted(source, answer, broker, source_shard, p.id);
}

/// What a server does with an input of a client that the broker forwarded: its
/// players are as the input says, and nothing else changes.
pub proof fn law_server_takes_the_input(
    before: GameServer,
    after: GameServer,
    from: u128,
    client: u128,
    input: Seq<u8>,
    i: Incoming,
    r: Reaction,
)
    requires
        input.len() == 16,
        heard(input_message(client, input), i),
        before.reacted(after, from, input_message(client, input), i, r),
    ensures
        after.world().players == after_input(
            before.world().players,
            client,
            input,
            before.config.shard_id,
            before.config.max_players,
        ),
        after.world().handoffs == before.world().handoffs,
        after.world().ghosts == before.world().ghosts,
        r is Nothing,
{
    law_server_hears_input(client, input, i);
}

/// What a server does with an alert: what it knows is as the alert says, and
/// what is to be said then is to be sent.
pub proof fn law_server_takes_the_alert(
    before: GameServer,
    after: GameServer,
    from: u128,
    client: u128,
    dest: u32,
    i: Incoming,
    r: Reaction,
)
    requires
        heard(alert_message(client, dest), i),
        before.reacted(after, from, alert_message(client, dest), i, r),
    ensures
        ({
            let (world, said) = after_alert(
                before.world(),
                alert_message(client, dest),
                before.links.broker.connection,
                before.config.shard_id,
            );
            &&& after.world() == world
            &&& said is None ==> r is Nothing
            &&& said matches Some(m) ==> (r matches Reaction::Route(x) && x.dest_shard == m.0
                && x.message@ == m.1)
        }),
{
    law_server_reads_alert(client, dest, i);
}

/// What a server does with a message of another shard: nothing changes before
/// the message has been read, and what is to be read is what came.
pub proof fn law_server_reads_shard_messages(
    before: GameServer,
    after: GameServer,
    from: u128,
    data: Seq<u8>,
    i: Incoming,
    r: Reaction,
)
    requires
        heard(data, i),
        before.reacted(after, from, data, i, r),
        data.len() > 1,
        0x20 <= data[0] <= 0x24,
    ensures
        after.world() == before.world(),
        r matches Reaction::Read { tag, body } && seq![tag] + body@ == data,
{
    law_shard_messages_are_heard(data, i);
}

/// An alert that is cut off starts nothing; what follows a whole one is not
/// looked at.
pub proof fn law_alerts_are_whole(
    w: WorldView,
    data: Seq<u8>,
    extra: Seq<u8>,
    broker: Option<u128>,
    shard_id: u32,
)
    ensures
        data.len() < 21 ==> after_alert(w, data, broker, shard_id) == (w, None::<(u32, Said)>),
        data.len() >= 21 ==> after_alert(w, data + extra, broker, shard_id) == after_alert(
            w,
            data,
            broker,
            shard_id,
        ),
{
    if data.len() >= 21 {
        let long = data + extra;
        assert(long.subrange(1, 17) =~= data.subrange(1, 17));
        assert(long[17] == data[17] && long[18] == data[18] && long[19] == data[19] && long[20]
            == data[20]);
    }
}

} // verus!
