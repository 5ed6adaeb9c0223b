//! What a game server knows: its players, its ghosts and its handoffs.

use crate::outside::{
    drawn, parsed_uuid, read_back, uuid_new_v4, uuid_parse_str, uuid_text, uuid_to_string,
};
use crate::shared::EntityState;
use crate::single::Single;
use crate::text::{decimal, law_decimal_round_trip, parse_unsigned, parsed_unsigned};
use crate::timer::{total, Ticker};
use crate::vec_map::{
    distinct, holds_key, law_put_lookup, law_without_lookup, lemma_place, lemma_views, lookup,
    place, put, views, without, VecMap,
};
use std::collections::{HashMap, VecDeque};
use vstd::prelude::*;

verus! {

/// A player, or a copy of one.
#[derive(Debug)]
pub struct PlayerInfo {
    pub id: String,
    pub username: String,
    pub pos_x: Single,
    pub pos_y: Single,
    pub vel_x: Single,
    pub vel_y: Single,
    pub state: EntityState,
    /// The shard that has authority, where that is another one.
    pub owner_shard_id: Option<u32>,
    pub conn: Option<u128>,
}

/// What a player is, its texts by their characters.
pub struct PlayerView {
    pub id: Seq<char>,
    pub username: Seq<char>,
    pub pos_x: Single,
    pub pos_y: Single,
    pub vel_x: Single,
    pub vel_y: Single,
    pub state: EntityState,
    pub owner_shard_id: Option<u32>,
    pub conn: Option<u128>,
}

impl View for PlayerInfo {
    type V = PlayerView;

    open spec fn view(&self) -> PlayerView {
        PlayerView {
            id: self.id@,
            username: self.username@,
            pos_x: self.pos_x,
            pos_y: self.pos_y,
            vel_x: self.vel_x,
            vel_y: self.vel_y,
            state: self.state,
            owner_shard_id: self.owner_shard_id,
            conn: self.conn,
        }
    }
}

impl Clone for PlayerInfo {
    fn clone(&self) -> (r: Self)
        ensures
            r@ == self@,
    {
        PlayerInfo {
            id: self.id.clone(),
            username: self.username.clone(),
            pos_x: self.pos_x,
            pos_y: self.pos_y,
            vel_x: self.vel_x,
            vel_y: self.vel_y,
            state: self.state,
            owner_shard_id: self.owner_shard_id,
            conn: self.conn,
        }
    }
}

/// The number zero.
pub open spec fn zero() -> Single {
    Single { bits: 0 }
}

/// A player at rest who is owned here.
pub open spec fn new_player(
    id: u128,
    username: Seq<char>,
    x: Single,
    y: Single,
    conn: Option<u128>,
) -> PlayerView {
    PlayerView {
        id: uuid_text(id),
        username,
        pos_x: x,
        pos_y: y,
        vel_x: zero(),
        vel_y: zero(),
        state: EntityState::Owned,
        owner_shard_id: None,
        conn,
    }
}

/// The place of the first player with an identifier, or the number of players
/// where there is none.
pub open spec fn player_place(players: Seq<(u128, PlayerView)>, id: Seq<char>) -> int
    decreases players.len(),
{
    if players.len() == 0 {
        0
    } else if players[0].1.id == id {
        0
    } else {
        1 + player_place(players.skip(1), id)
    }
}

/// There is a player with the identifier.
pub open spec fn has_player(players: Seq<(u128, PlayerView)>, id: Seq<char>) -> bool {
    player_place(players, id) < players.len()
}

/// The players, with the first one that has the identifier changed.
pub open spec fn changed_player(
    players: Seq<(u128, PlayerView)>,
    id: Seq<char>,
    change: spec_fn(PlayerView) -> PlayerView,
) -> Seq<(u128, PlayerView)> {
    let p = player_place(players, id);
    if has_player(players, id) {
        players.update(p, (players[p].0, change(players[p].1)))
    } else {
        players
    }
}

/// The players without the first one that has the identifier.
pub open spec fn without_player(players: Seq<(u128, PlayerView)>, id: Seq<char>) -> Seq<
    (u128, PlayerView),
> {
    if has_player(players, id) {
        players.remove(player_place(players, id))
    } else {
        players
    }
}

/// The place of an identifier is the first one where it stands.
pub proof fn lemma_player_place(players: Seq<(u128, PlayerView)>, id: Seq<char>)
    ensures
        0 <= player_place(players, id) <= players.len(),
        has_player(players, id) ==> players[player_place(players, id)].1.id == id,
        forall|i: int| 0 <= i < player_place(players, id) ==> (#[trigger] players[i]).1.id != id,
    decreases players.len(),
{
    if players.len() > 0 && players[0].1.id != id {
        lemma_player_place(players.skip(1), id);
        assert forall|i: int| 0 <= i < player_place(players, id) implies (
        #[trigger] players[i]).1.id != id by {
            if i > 0 {
                assert(players.skip(1)[i - 1] == players[i]);
            }
        }
    }
}

/// Where an identifier stands, and not before, there is its place.
pub proof fn lemma_player_place_is(players: Seq<(u128, PlayerView)>, id: Seq<char>, n: int)
    requires
        0 <= n <= players.len(),
        n < players.len() ==> players[n].1.id == id,
        forall|i: int| 0 <= i < n ==> (#[trigger] players[i]).1.id != id,
    ensures
        player_place(players, id) == n,
{
    lemma_player_place(players, id);
    let p = player_place(players, id);
    if p < n {
        assert(players[p].1.id != id);
    }
    if n < p {
        assert(players[n].1.id != id);
    }
}

/// The players of a server, by their connections. A player who came through the
/// broker has its UUID in place of a connection.
pub struct PlayerRegistry {
    pub players: VecMap<u128, PlayerInfo>,
}

impl View for PlayerRegistry {
    type V = Seq<(u128, PlayerView)>;

    open spec fn view(&self) -> Seq<(u128, PlayerView)> {
        views(self.players.pairs())
    }
}

impl PlayerRegistry {
    /// No connection has two players.
    pub open spec fn wf(self) -> bool {
        distinct(self@)
    }

    pub fn new() -> (r: Self)
        ensures
            r.wf(),
            r@ == Seq::<(u128, PlayerView)>::empty(),
    {
        let r = PlayerRegistry { players: VecMap::new() };
        assert(r@ =~= Seq::<(u128, PlayerView)>::empty());
        r
    }

    /// Adds a player at the origin, under an identifier drawn at random.
    pub fn add_player(&mut self, conn: u128, username: String) -> (r: PlayerInfo)
        ensures
            old(self).wf() ==> final(self).wf(),
            exists|id: u128|
                drawn(id) && r@ == #[trigger] new_player(
                    id,
                    username@,
                    zero(),
                    zero(),
                    Some(conn),
                ),
            final(self)@ == put(old(self)@, conn, r@),
    {
        let id: u128 = uuid_new_v4();
        self.add_player_as(conn, id, username)
    }

    /// Adds a player at the origin, under an identifier.
    pub fn add_player_as(&mut self, conn: u128, id: u128, username: String) -> (r: PlayerInfo)
        ensures
            old(self).wf() ==> final(self).wf(),
            r@ == new_player(id, username@, zero(), zero(), Some(conn)),
            final(self)@ == put(old(self)@, conn, r@),
    {
        let player = PlayerInfo {
            id: uuid_to_string(id),
            username,
            pos_x: Single::from_bits(0),
            pos_y: Single::from_bits(0),
            vel_x: Single::from_bits(0),
            vel_y: Single::from_bits(0),
            state: EntityState::Owned,
            owner_shard_id: None,
            conn: Some(conn),
        };
        let copy = player.clone();
        proof {
            lemma_views(self.players.pairs(), conn);
            lemma_put_keeps_distinct(self@, conn);
        }
        self.players.insert(conn, copy);
        player
    }

    /// Adds a player who came through the broker.
    pub fn add_player_with_uuid(&mut self, uuid: u128, username: String, x: Single, y: Single) -> (r:
        PlayerInfo)
        ensures
            old(self).wf() ==> final(self).wf(),
            r@ == new_player(uuid, username@, x, y, None),
            final(self)@ == put(old(self)@, uuid, r@),
    {
        let player = PlayerInfo {
            id: uuid_to_string(uuid),
            username,
            pos_x: x,
            pos_y: y,
            vel_x: Single::from_bits(0),
            vel_y: Single::from_bits(0),
            state: EntityState::Owned,
            owner_shard_id: None,
            conn: None,
        };
        let copy = player.clone();
        proof {
            lemma_views(self.players.pairs(), uuid);
            lemma_put_keeps_distinct(self@, uuid);
        }
        self.players.insert(uuid, copy);
        player
    }

    pub fn remove_player(&mut self, conn: &u128) -> (r: Option<PlayerInfo>)
        ensures
            old(self).wf() ==> final(self).wf(),
            final(self)@ == without(old(self)@, *conn),
            match r {
                Some(p) => lookup(old(self)@, *conn) == Some(p@),
                None => lookup(old(self)@, *conn) is None,
            },
    {
        proof {
            lemma_views(self.players.pairs(), *conn);
            if self.wf() {
                law_without_lookup(self@, *conn, *conn);
            }
        }
        self.players.remove(conn)
    }

    pub fn get_player_count(&self) -> (r: usize)
        ensures
            r == self@.len(),
    {
        self.players.len()
    }

    pub fn is_full(&self, max_players: usize) -> (r: bool)
        ensures
            r == (self@.len() >= max_players),
    {
        self.players.len() >= max_players
    }

    /// The place of the first player with an identifier.
    fn find(&self, id: &str) -> (r: Option<usize>)
        ensures
            match r {
                Some(i) => i == player_place(self@, id@) && i < self@.len(),
                None => !(has_player(self@, id@)),
            },
    {
        let wanted: String = id.to_string();
        let mut i: usize = 0;
        while i < self.players.entries.len()
            invariant
                i <= self.players.entries.len(),
                wanted@ == id@,
                forall|j: int| 0 <= j < i ==> (#[trigger] self@[j]).1.id != id@,
            decreases self.players.entries.len() - i,
        {
            if self.players.entries[i].1.id == wanted {
                proof {
                    lemma_player_place_is(self@, id@, i as int);
                }
                return Some(i);
            }
            i = i + 1;
        }
        proof {
            lemma_player_place_is(self@, id@, i as int);
        }
        None
    }

    pub fn get_player_by_id(&self, entity_id: &str) -> (r: Option<&PlayerInfo>)
        ensures
            match r {
                Some(p) => has_player(self@, entity_id@) && p@ == self@[player_place(
                    self@,
                    entity_id@,
                )].1,
                None => !(has_player(self@, entity_id@)),
            },
    {
        match self.find(entity_id) {
            Some(i) => Some(&self.players.entries[i].1),
            None => None,
        }
    }

    pub fn get_player_mut_by_id(&mut self, entity_id: &str) -> (r: Option<&mut PlayerInfo>)
        ensures
            match r {
                Some(p) => {
                    let n = player_place(old(self)@, entity_id@);
                    &&& has_player(old(self)@, entity_id@)
                    &&& p@ == old(self)@[n].1
                    &&& final(self)@ =~= old(self)@.update(n, (old(self)@[n].0, final(p)@))
                },
                None => !(has_player(old(self)@, entity_id@)) && final(self)@ == old(self)@,
            },
    {
        match self.find(entity_id) {
            Some(i) => {
                proof {
                    lemma_player_place(self@, entity_id@);
                }
                Some(&mut self.players.entries[i].1)
            },
            None => None,
        }
    }

    pub fn update_position(&mut self, conn: &u128, x: Single, y: Single)
        ensures
            old(self).wf() ==> final(self).wf(),
            final(self)@ == match lookup(old(self)@, *conn) {
                Some(p) => put(old(self)@, *conn, PlayerView { pos_x: x, pos_y: y, ..p }),
                None => old(self)@,
            },
    {
        proof {
            lemma_views(self.players.pairs(), *conn);
            lemma_put_keeps_distinct(self@, *conn);
        }
        match self.players.get_mut(conn) {
            Some(player) => {
                player.pos_x = x;
                player.pos_y = y;
            },
            None => {},
        }
    }

    pub fn update_velocity(&mut self, conn: &u128, vx: Single, vy: Single)
        ensures
            old(self).wf() ==> final(self).wf(),
            final(self)@ == match lookup(old(self)@, *conn) {
                Some(p) => put(old(self)@, *conn, PlayerView { vel_x: vx, vel_y: vy, ..p }),
                None => old(self)@,
            },
    {
        proof {
            lemma_views(self.players.pairs(), *conn);
            lemma_put_keeps_distinct(self@, *conn);
        }
        match self.players.get_mut(conn) {
            Some(player) => {
                player.vel_x = vx;
                player.vel_y = vy;
            },
            None => {},
        }
    }

    pub fn set_entity_state(&mut self, conn: &u128, state: EntityState)
        ensures
            old(self).wf() ==> final(self).wf(),
            final(self)@ == match lookup(old(self)@, *conn) {
                Some(p) => put(old(self)@, *conn, PlayerView { state, ..p }),
                None => old(self)@,
            },
    {
        proof {
            lemma_views(self.players.pairs(), *conn);
            lemma_put_keeps_distinct(self@, *conn);
        }
        match self.players.get_mut(conn) {
            Some(player) => {
                player.state = state;
            },
            None => {},
        }
    }

    /// Sets the velocity of the player whose identifier is a UUID.
    pub fn update_velocity_by_uuid(&mut self, uuid: u128, vx: Single, vy: Single)
        ensures
            old(self).wf() ==> final(self).wf(),
            final(self)@ == changed_player(
                old(self)@,
                uuid_text(uuid),
                |p: PlayerView| PlayerView { vel_x: vx, vel_y: vy, ..p },
            ),
    {
        let id = uuid_to_string(uuid);
        proof {
            lemma_changed_keeps_distinct(
                self@,
                id@,
                |p: PlayerView| PlayerView { vel_x: vx, vel_y: vy, ..p },
            );
        }
        match self.get_player_mut_by_id(id.as_str()) {
            Some(player) => {
                player.vel_x = vx;
                player.vel_y = vy;
            },
            None => {},
        }
    }

    /// Sets the state of the player whose identifier is a UUID.
    pub fn set_state_by_uuid(&mut self, uuid: u128, state: EntityState)
        ensures
            old(self).wf() ==> final(self).wf(),
            final(self)@ == with_state(old(self)@, uuid_text(uuid), state),
    {
        let id = uuid_to_string(uuid);
        proof {
            lemma_changed_keeps_distinct(self@, id@, |p: PlayerView| PlayerView { state, ..p });
        }
        match self.get_player_mut_by_id(id.as_str()) {
            Some(player) => {
                player.state = state;
            },
            None => {},
        }
    }

    /// Removes the player whose identifier is a UUID.
    pub fn remove_player_by_uuid(&mut self, uuid: u128) -> (r: Option<PlayerInfo>)
        ensures
            old(self).wf() ==> final(self).wf(),
            final(self)@ == without_player(old(self)@, uuid_text(uuid)),
            match r {
                Some(p) => has_player(old(self)@, uuid_text(uuid)) && p@
                    == old(self)@[player_place(old(self)@, uuid_text(uuid))].1,
                None => !(has_player(old(self)@, uuid_text(uuid))),
            },
    {
        let id = uuid_to_string(uuid);
        match self.find(id.as_str()) {
            Some(i) => {
                let entry = self.players.entries.remove(i);
                proof {
                    assert(self@ =~= old(self)@.remove(i as int));
                    lemma_remove_keeps_distinct(old(self)@, i as int);
                }
                Some(entry.1)
            },
            None => None,
        }
    }

    /// Takes an entity in as this shard's own, under the UUID that its
    /// identifier is read as. One whose identifier is no UUID is let go.
    pub fn promote_to_owned(&mut self, ghost: PlayerInfo)
        ensures
            old(self).wf() ==> final(self).wf(),
            final(self)@ == promoted(old(self)@, ghost@),
            read_back(ghost@.id),
    {
        let parsed = uuid_parse_str(ghost.id.as_str());
        assert(read_back(ghost.id@));
        match parsed {
            Some(uuid) => {
                let mut player = ghost;
                player.state = EntityState::Owned;
                player.owner_shard_id = None;
                proof {
                    lemma_views(self.players.pairs(), uuid);
                    lemma_put_keeps_distinct(self@, uuid);
                }
                self.players.insert(uuid, player);
            },
            None => {},
        }
    }
}

/// The players, with the first one that has the identifier in another state.
pub open spec fn with_state(
    players: Seq<(u128, PlayerView)>,
    id: Seq<char>,
    state: EntityState,
) -> Seq<(u128, PlayerView)> {
    changed_player(players, id, |p: PlayerView| PlayerView { state, ..p })
}

/// The players, with an entity taken in.
pub open spec fn promoted(players: Seq<(u128, PlayerView)>, ghost: PlayerView) -> Seq<
    (u128, PlayerView),
> {
    match parsed_uuid(ghost.id) {
        Some(uuid) => put(
            players,
            uuid,
            PlayerView { state: EntityState::Owned, owner_shard_id: None, ..ghost },
        ),
        None => players,
    }
}

/// No connection has two players once one has been put in.
proof fn lemma_put_keeps_distinct(s: Seq<(u128, PlayerView)>, k: u128)
    ensures
        distinct(s) ==> forall|v: PlayerView| distinct(#[trigger] put(s, k, v)),
{
    if distinct(s) {
        assert forall|v: PlayerView| distinct(#[trigger] put(s, k, v)) by {
            law_put_lookup(s, k, v, k);
        }
    }
}

/// A change of a player leaves the connections alone.
proof fn lemma_changed_keeps_distinct(
    s: Seq<(u128, PlayerView)>,
    id: Seq<char>,
    change: spec_fn(PlayerView) -> PlayerView,
)
    ensures
        distinct(s) ==> distinct(changed_player(s, id, change)),
{
    let r = changed_player(s, id, change);
    lemma_player_place(s, id);
    if distinct(s) {
        assert forall|i: int, j: int| 0 <= i < j < r.len() implies (#[trigger] r[i]).0
            != (#[trigger] r[j]).0 by {
            assert(s[i].0 != s[j].0);
        }
    }
}

/// Entries that are left have the keys that they had.
proof fn lemma_remove_keeps_distinct(s: Seq<(u128, PlayerView)>, n: int)
    requires
        0 <= n < s.len(),
    ensures
        distinct(s) ==> distinct(s.remove(n)),
{
    let r = s.remove(n);
    if distinct(s) {
        assert forall|i: int, j: int| 0 <= i < j < r.len() implies (#[trigger] r[i]).0
            != (#[trigger] r[j]).0 by {
            let a = if i < n { i } else { i + 1 };
            let b = if j < n { j } else { j + 1 };
            assert(s[a].0 != s[b].0);
        }
    }
}

/// An address that the environment may give.
#[derive(Debug)]
pub enum AddressVar {
    /// The variable is not set.
    Unset,
    /// A host and a port.
    Given(String, u16),
    /// What the variable holds is no address.
    Malformed,
}

/// How the environment configures a game server.
#[derive(Debug)]
pub struct ServerVars {
    pub port: Option<String>,
    pub zone: Option<String>,
    pub max_players: Option<String>,
    pub orchestrator_addr: AddressVar,
    pub shard_id: Option<String>,
}

/// What is wrong with a configuration.
#[derive(Debug, Clone, Copy, PartialEq, Eq, Structural)]
pub enum ConfigError {
    Port,
    MaxPlayers,
    OrchestratorAddr,
}

/// The configuration of a game server.
#[derive(Debug)]
pub struct ServerConfig {
    pub id: String,
    pub shard_id: u32,
    pub port: u16,
    pub zone: String,
    pub max_players: usize,
    pub orchestrator_addr: (String, u16),
}

/// A variable of the environment, or what stands in for it.
pub open spec fn text_or(var: Option<String>, default: Seq<char>) -> Seq<char> {
    match var {
        Some(s) => s@,
        None => default,
    }
}

fn string_or(var: Option<String>, default: &str) -> (r: String)
    ensures
        r@ == text_or(var, default@),
{
    match var {
        Some(s) => s,
        None => default.to_string(),
    }
}

impl ServerConfig {
    /// The configuration, under an identifier drawn at random.
    pub fn from_env(vars: ServerVars) -> (r: Result<Self, ConfigError>)
        ensures
            exists|id: u128| drawn(id) && #[trigger] Self::configured(id, vars, r),
    {
        let id: u128 = uuid_new_v4();
        Self::from_vars(id, vars)
    }

    /// What a server with an identifier is configured to.
    pub open spec fn configured(id: u128, vars: ServerVars, r: Result<Self, ConfigError>) -> bool {
        let port = parsed_unsigned(text_or(vars.port, "9000"@), 0xffff);
        let max_players = parsed_unsigned(text_or(vars.max_players, "10"@), usize::MAX as int);
        let shard_id = parsed_unsigned(text_or(vars.shard_id, "0"@), 0xffff_ffff);
        match r {
            Ok(c) => {
                &&& port == Some(c.port as int)
                &&& max_players == Some(c.max_players as int)
                &&& match vars.orchestrator_addr {
                    AddressVar::Unset => {
                        &&& c.orchestrator_addr.0@ == "127.0.0.1"@
                        &&& c.orchestrator_addr.1 == 9000
                    },
                    AddressVar::Given(host, port) => c.orchestrator_addr == (host, port),
                    AddressVar::Malformed => false,
                }
                &&& c.shard_id == match shard_id {
                    Some(n) => n,
                    None => 0,
                }
                &&& c.zone@ == text_or(vars.zone, "zone_A"@)
                &&& c.id@ == uuid_text(id)
            },
            Err(ConfigError::Port) => port is None,
            Err(ConfigError::MaxPlayers) => port is Some && max_players is None,
            Err(ConfigError::OrchestratorAddr) => {
                port is Some && max_players is Some && vars.orchestrator_addr is Malformed
            },
        }
    }

    /// The configuration, under an identifier.
    pub fn from_vars(id: u128, vars: ServerVars) -> (r: Result<Self, ConfigError>)
        ensures
            Self::configured(id, vars, r),
    {
        let port: u16 = match parse_unsigned(string_or(vars.port, "9000").as_str(), 0xffff) {
            Some(n) => n as u16,
            None => return Err(ConfigError::Port),
        };
        let zone = string_or(vars.zone, "zone_A");
        let max_players: usize = match parse_unsigned(
            string_or(vars.max_players, "10").as_str(),
            usize::MAX as u64,
        ) {
            Some(n) => n as usize,
            None => return Err(ConfigError::MaxPlayers),
        };
        let orchestrator_addr = match vars.orchestrator_addr {
            AddressVar::Unset => ("127.0.0.1".to_string(), 9000),
            AddressVar::Given(host, port) => (host, port),
            AddressVar::Malformed => return Err(ConfigError::OrchestratorAddr),
        };
        let shard_id: u32 = match parse_unsigned(
            string_or(vars.shard_id, "0").as_str(),
            0xffff_ffff,
        ) {
            Some(n) => n as u32,
            None => 0,
        };
        Ok(ServerConfig { id: uuid_to_string(id), shard_id, port, zone, max_players, orchestrator_addr })
    }
}

/// How often a server reports to the orchestrator: every 5 seconds, in
/// nanoseconds.
pub const HEARTBEAT_PERIOD: u64 = 5_000_000_000;

/// When a server reports to the orchestrator.
#[derive(Debug)]
pub struct HeartbeatTimer(pub Ticker);

impl Default for HeartbeatTimer {
    fn default() -> (r: Self)
        ensures
            r.0 == (Ticker { elapsed: 0, period: HEARTBEAT_PERIOD }),
            r.0.wf(),
    {
        HeartbeatTimer(Ticker::new(HEARTBEAT_PERIOD))
    }
}

/// How often the state is published at the full rate: 20 times a second, in
/// nanoseconds.
pub const GAME_STATE_PERIOD: u64 = 50_000_000;

/// When the state is published at the full rate.
#[derive(Debug)]
pub struct GameStateTimer(pub Ticker);

impl Default for GameStateTimer {
    fn default() -> (r: Self)
        ensures
            r.0 == (Ticker { elapsed: 0, period: GAME_STATE_PERIOD }),
            r.0.wf(),
    {
        GameStateTimer(Ticker::new(GAME_STATE_PERIOD))
    }
}

/// How often the state is published at the low rate: 5 times a second, in
/// nanoseconds.
pub const FAR_PUBLISH_PERIOD: u64 = 200_000_000;

/// When the state is published at the low rate.
#[derive(Debug)]
pub struct FarPublishTimer(pub Ticker);

impl Default for FarPublishTimer {
    fn default() -> (r: Self)
        ensures
            r.0 == (Ticker { elapsed: 0, period: FAR_PUBLISH_PERIOD }),
            r.0.wf(),
    {
        FarPublishTimer(Ticker::new(FAR_PUBLISH_PERIOD))
    }
}

/// How often the positions are reported to the spatial service: 20 times a
/// second, in nanoseconds.
pub const SPATIAL_UPDATE_PERIOD: u64 = 50_000_000;

/// When the positions are reported to the spatial service.
#[derive(Debug)]
pub struct SpatialUpdateTimer(pub Ticker);

impl Default for SpatialUpdateTimer {
    fn default() -> (r: Self)
        ensures
            r.0 == (Ticker { elapsed: 0, period: SPATIAL_UPDATE_PERIOD }),
            r.0.wf(),
    {
        SpatialUpdateTimer(Ticker::new(SPATIAL_UPDATE_PERIOD))
    }
}

/// The time that a handoff may take, in nanoseconds.
pub const HANDOFF_TIMEOUT: u64 = 5_000_000_000;

/// A timer that runs once, in nanoseconds.
#[derive(Clone, Copy, Debug, PartialEq, Eq, Structural)]
pub struct Countdown {
    pub elapsed: u64,
    pub duration: u64,
}

impl Countdown {
    /// It has not run beyond its end.
    pub open spec fn wf(self) -> bool {
        self.elapsed <= self.duration
    }

    /// The timer some time later: it stops at its end.
    pub open spec fn later(self, delta: u64) -> Countdown {
        Countdown {
            elapsed: if self.elapsed + delta >= self.duration {
                self.duration
            } else {
                (self.elapsed + delta) as u64
            },
            duration: self.duration,
        }
    }

    pub open spec fn is_finished(self) -> bool {
        self.elapsed >= self.duration
    }

    pub fn new(duration: u64) -> (r: Self)
        ensures
            r == (Countdown { elapsed: 0, duration }),
            r.wf(),
    {
        Countdown { elapsed: 0, duration }
    }

    pub fn tick(&mut self, delta: u64)
        requires
            old(self).wf(),
        ensures
            *final(self) == old(self).later(delta),
            final(self).wf(),
    {
        if delta >= self.duration - self.elapsed {
            self.elapsed = self.duration;
        } else {
            self.elapsed = self.elapsed + delta;
        }
    }

    pub fn finished(&self) -> (r: bool)
        ensures
            r == self.is_finished(),
    {
        self.elapsed >= self.duration
    }
}

/// A handoff that is under way.
#[derive(Debug)]
pub struct HandoffInProgress {
    pub entity_id: String,
    pub source_shard_id: u32,
    pub dest_shard_id: u32,
    pub entity_state: Vec<u8>,
    /// The destination has said that it will take the entity over.
    pub accepted: bool,
    pub timer: Countdown,
}

/// What a handoff is, its texts by their characters.
pub struct HandoffView {
    pub entity_id: Seq<char>,
    pub source_shard_id: u32,
    pub dest_shard_id: u32,
    pub entity_state: Seq<u8>,
    pub accepted: bool,
    pub timer: Countdown,
}

impl View for HandoffInProgress {
    type V = HandoffView;

    open spec fn view(&self) -> HandoffView {
        HandoffView {
            entity_id: self.entity_id@,
            source_shard_id: self.source_shard_id,
            dest_shard_id: self.dest_shard_id,
            entity_state: self.entity_state@,
            accepted: self.accepted,
            timer: self.timer,
        }
    }
}

/// A handoff that starts.
pub open spec fn new_handoff(
    entity_id: Seq<char>,
    source: u32,
    dest: u32,
    entity_state: Seq<u8>,
) -> HandoffView {
    HandoffView {
        entity_id,
        source_shard_id: source,
        dest_shard_id: dest,
        entity_state,
        accepted: false,
        timer: Countdown { elapsed: 0, duration: HANDOFF_TIMEOUT },
    }
}

/// The handoffs of a server.
pub struct HandoffManager {
    /// The handoffs that are under way, by the entity.
    pub pending: VecMap<String, HandoffInProgress>,
    /// The copies of entities of other shards.
    pub ghost_entities: VecMap<String, PlayerInfo>,
    /// The connections of other shards.
    pub shard_connections: HashMap<u32, u128>,
}

impl HandoffManager {
    /// The handoffs that are under way, by the entity.
    pub open spec fn handoffs(self) -> Seq<(Seq<char>, HandoffView)> {
        views(self.pending.pairs())
    }

    /// The copies of entities of other shards.
    pub open spec fn ghosts(self) -> Seq<(Seq<char>, PlayerView)> {
        views(self.ghost_entities.pairs())
    }

    /// Each entity has one handoff and one copy at most, no timer has run beyond
    /// its end, and a handoff stands under its entity.
    pub open spec fn wf(self) -> bool {
        &&& distinct(self.handoffs())
        &&& distinct(self.ghosts())
        &&& forall|i: int|
            0 <= i < self.handoffs().len() ==> {
                &&& (#[trigger] self.handoffs()[i]).1.timer.wf()
                &&& self.handoffs()[i].1.entity_id == self.handoffs()[i].0
            }
    }

    pub fn new() -> (r: Self)
        ensures
            r.wf(),
            r.handoffs() == Seq::<(Seq<char>, HandoffView)>::empty(),
            r.ghosts() == Seq::<(Seq<char>, PlayerView)>::empty(),
            r.shard_connections@ == Map::<u32, u128>::empty(),
    {
        let r = HandoffManager {
            pending: VecMap::new(),
            ghost_entities: VecMap::new(),
            shard_connections: HashMap::new(),
        };
        assert(r.handoffs() =~= Seq::<(Seq<char>, HandoffView)>::empty());
        assert(r.ghosts() =~= Seq::<(Seq<char>, PlayerView)>::empty());
        r
    }

    pub fn is_handoff_in_progress(&self, entity_id: &str) -> (r: bool)
        ensures
            r == holds_key(self.handoffs(), entity_id@),
    {
        proof {
            lemma_views(self.pending.pairs(), entity_id@);
        }
        self.pending.contains_key(&entity_id.to_string())
    }

    /// Starts a handoff; one of the same entity that is under way is replaced.
    pub fn start_handoff(
        &mut self,
        entity_id: String,
        source_shard_id: u32,
        dest_shard_id: u32,
        entity_state: Vec<u8>,
    )
        ensures
            old(self).wf() ==> final(self).wf(),
            final(self).handoffs() == put(
                old(self).handoffs(),
                entity_id@,
                new_handoff(entity_id@, source_shard_id, dest_shard_id, entity_state@),
            ),
            final(self).ghosts() == old(self).ghosts(),
            final(self).shard_connections@ == old(self).shard_connections@,
    {
        let handoff = HandoffInProgress {
            entity_id: entity_id.clone(),
            source_shard_id,
            dest_shard_id,
            entity_state,
            accepted: false,
            timer: Countdown::new(HANDOFF_TIMEOUT),
        };
        proof {
            lemma_views(self.pending.pairs(), entity_id@);
            lemma_place(self.handoffs(), entity_id@);
            if self.wf() {
                law_put_lookup(self.handoffs(), entity_id@, handoff@, entity_id@);
            }
        }
        let ghost before = self.handoffs();
        self.pending.insert(entity_id, handoff);
        proof {
            if old(self).wf() {
                assert forall|i: int| 0 <= i < self.handoffs().len() implies {
                    &&& (#[trigger] self.handoffs()[i]).1.timer.wf()
                    &&& self.handoffs()[i].1.entity_id == self.handoffs()[i].0
                } by {
                    if i < before.len() {
                        assert(before[i].1.timer.wf());
                    }
                }
            }
        }
    }

    /// Ends a handoff, whatever came of it.
    pub fn complete_handoff(&mut self, entity_id: &str) -> (r: Option<HandoffInProgress>)
        ensures
            old(self).wf() ==> final(self).wf(),
            final(self).handoffs() == without(old(self).handoffs(), entity_id@),
            final(self).ghosts() == old(self).ghosts(),
            final(self).shard_connections@ == old(self).shard_connections@,
            match r {
                Some(h) => lookup(old(self).handoffs(), entity_id@) == Some(h@),
                None => lookup(old(self).handoffs(), entity_id@) is None,
            },
    {
        proof {
            lemma_views(self.pending.pairs(), entity_id@);
            lemma_place(self.handoffs(), entity_id@);
            if self.wf() {
                law_without_lookup(self.handoffs(), entity_id@, entity_id@);
            }
        }
        let ghost before = self.handoffs();
        let r = self.pending.remove(&entity_id.to_string());
        proof {
            if old(self).wf() {
                let p = place(before, entity_id@);
                assert forall|i: int| 0 <= i < self.handoffs().len() implies {
                    &&& (#[trigger] self.handoffs()[i]).1.timer.wf()
                    &&& self.handoffs()[i].1.entity_id == self.handoffs()[i].0
                } by {
                    let a = if i < p { i } else { i + 1 };
                    if p < before.len() {
                        assert(before[a].1.timer.wf());
                    } else {
                        assert(before[i].1.timer.wf());
                    }
                }
            }
        }
        r
    }

    pub fn add_ghost(&mut self, entity_id: String, player_info: PlayerInfo)
        ensures
            old(self).wf() ==> final(self).wf(),
            final(self).ghosts() == put(old(self).ghosts(), entity_id@, player_info@),
            final(self).handoffs() == old(self).handoffs(),
            final(self).shard_connections@ == old(self).shard_connections@,
    {
        proof {
            lemma_views(self.ghost_entities.pairs(), entity_id@);
            if self.wf() {
                law_put_lookup(self.ghosts(), entity_id@, player_info@, entity_id@);
            }
        }
        self.ghost_entities.insert(entity_id, player_info);
    }

    pub fn remove_ghost(&mut self, entity_id: &str) -> (r: Option<PlayerInfo>)
        ensures
            old(self).wf() ==> final(self).wf(),
            final(self).ghosts() == without(old(self).ghosts(), entity_id@),
            final(self).handoffs() == old(self).handoffs(),
            final(self).shard_connections@ == old(self).shard_connections@,
            match r {
                Some(p) => lookup(old(self).ghosts(), entity_id@) == Some(p@),
                None => lookup(old(self).ghosts(), entity_id@) is None,
            },
    {
        proof {
            lemma_views(self.ghost_entities.pairs(), entity_id@);
            if self.wf() {
                law_without_lookup(self.ghosts(), entity_id@, entity_id@);
            }
        }
        self.ghost_entities.remove(&entity_id.to_string())
    }

    pub fn register_shard(&mut self, shard_id: u32, conn: u128)
        ensures
            final(self).shard_connections@ == old(self).shard_connections@.insert(shard_id, conn),
            final(self).handoffs() == old(self).handoffs(),
            final(self).ghosts() == old(self).ghosts(),
            old(self).wf() ==> final(self).wf(),
    {
        broadcast use vstd::std_specs::hash::group_hash_axioms;

        self.shard_connections.insert(shard_id, conn);
    }

    pub fn get_shard_connection(&self, shard_id: u32) -> (r: Option<&u128>)
        ensures
            match r {
                Some(conn) => self.shard_connections@.contains_pair(shard_id, *conn),
                None => !self.shard_connections@.contains_key(shard_id),
            },
    {
        broadcast use vstd::std_specs::hash::group_hash_axioms;

        self.shard_connections.get(&shard_id)
    }
}

/// The connection to the orchestrator.
#[derive(Debug)]
pub struct Orchestrator {
    pub connection: Option<u128>,
}

/// The connection to the spatial service.
#[derive(Debug)]
pub struct SpatialService {
    pub connection: Option<u128>,
}

/// The connection to the broker.
#[derive(Debug)]
pub struct BrokerConnection {
    pub connection: Option<u128>,
}

/// A service that a server connects to.
#[derive(Debug, Clone, Copy, PartialEq, Eq, Structural)]
pub enum PendingConnType {
    Orchestrator,
    Spatial,
    Broker,
}

/// The services that a server has asked to be connected to and has not been, in
/// order.
#[derive(Debug)]
pub struct PendingConnections {
    pub queue: VecDeque<PendingConnType>,
}

/// The connections of a server to the services.
#[derive(Debug)]
pub struct ServiceLinks {
    pub orchestrator: Orchestrator,
    pub spatial: SpatialService,
    pub broker: BrokerConnection,
    pub pending: PendingConnections,
}

/// The links once a connection was made, and the service that it is to.
pub open spec fn linked(
    before: ServiceLinks,
    after: ServiceLinks,
    conn: u128,
    r: Option<PendingConnType>,
) -> bool {
    let queue = before.pending.queue@;
    let first = if queue.len() > 0 {
        Some(queue[0])
    } else {
        None
    };
    &&& r == first
    &&& after.pending.queue@ == if queue.len() > 0 {
        queue.skip(1)
    } else {
        queue
    }
    &&& forall|service: PendingConnType| #[trigger]
        link(after, service) == if Some(service) == first {
            Some(conn)
        } else {
            link(before, service)
        }
}

/// The connection to a service.
pub open spec fn link(links: ServiceLinks, service: PendingConnType) -> Option<u128> {
    match service {
        PendingConnType::Orchestrator => links.orchestrator.connection,
        PendingConnType::Spatial => links.spatial.connection,
        PendingConnType::Broker => links.broker.connection,
    }
}

/// The links, and the players, once a connection was closed.
pub open spec fn unlinked(
    before: ServiceLinks,
    after: ServiceLinks,
    conn: u128,
    players: Seq<(u128, PlayerView)>,
    left: Seq<(u128, PlayerView)>,
) -> bool {
    let orchestrator = before.orchestrator.connection == Some(conn);
    let spatial = !orchestrator && before.spatial.connection == Some(conn);
    let broker = !orchestrator && !spatial && before.broker.connection == Some(conn);
    &&& after.pending == before.pending
    &&& after.orchestrator.connection == if orchestrator {
        None
    } else {
        before.orchestrator.connection
    }
    &&& after.spatial.connection == if spatial {
        None
    } else {
        before.spatial.connection
    }
    &&& after.broker.connection == if broker {
        None
    } else {
        before.broker.connection
    }
    &&& left == if orchestrator || spatial || broker {
        players
    } else {
        without(players, conn)
    }
}

impl ServiceLinks {
    pub fn new() -> (r: Self)
        ensures
            r.orchestrator.connection is None,
            r.spatial.connection is None,
            r.broker.connection is None,
            r.pending.queue@ == Seq::<PendingConnType>::empty(),
    {
        ServiceLinks {
            orchestrator: Orchestrator { connection: None },
            spatial: SpatialService { connection: None },
            broker: BrokerConnection { connection: None },
            pending: PendingConnections { queue: VecDeque::new() },
        }
    }

    /// A connection to a service was asked for.
    pub fn asked_for(&mut self, service: PendingConnType)
        ensures
            final(self).pending.queue@ == old(self).pending.queue@.push(service),
            final(self).orchestrator == old(self).orchestrator,
            final(self).spatial == old(self).spatial,
            final(self).broker == old(self).broker,
    {
        self.pending.queue.push_back(service);
    }

    /// A connection was made: it is to the service that was asked for first, or,
    /// where none is waited for, a player's.
    pub fn connected(&mut self, conn: u128) -> (r: Option<PendingConnType>)
        ensures
            linked(*old(self), *final(self), conn, r),
            ({
                let queue = old(self).pending.queue@;
                let service = if queue.len() > 0 {
                    Some(queue[0])
                } else {
                    None
                };
                &&& r == service
                &&& final(self).pending.queue@ == if queue.len() > 0 {
                    queue.skip(1)
                } else {
                    queue
                }
                &&& final(self).orchestrator.connection == if service == Some(
                    PendingConnType::Orchestrator,
                ) {
                    Some(conn)
                } else {
                    old(self).orchestrator.connection
                }
                &&& final(self).spatial.connection == if service == Some(PendingConnType::Spatial) {
                    Some(conn)
                } else {
                    old(self).spatial.connection
                }
                &&& final(self).broker.connection == if service == Some(PendingConnType::Broker) {
                    Some(conn)
                } else {
                    old(self).broker.connection
                }
            }),
    {
        let service = self.pending.queue.pop_front();
        match service {
            Some(PendingConnType::Orchestrator) => {
                self.orchestrator.connection = Some(conn);
            },
            Some(PendingConnType::Spatial) => {
                self.spatial.connection = Some(conn);
            },
            Some(PendingConnType::Broker) => {
                self.broker.connection = Some(conn);
            },
            None => {},
        }
        assert(old(self).pending.queue@.len() > 0 ==> self.pending.queue@
            =~= old(self).pending.queue@.skip(1));
        service
    }

    /// A connection was closed: that to a service, or else that of a player, who
    /// is then gone. Of services with one connection the first loses it.
    pub fn disconnected(&mut self, conn: u128, registry: &mut PlayerRegistry)
        ensures
            old(registry).wf() ==> final(registry).wf(),
            unlinked(*old(self), *final(self), conn, old(registry)@, final(registry)@),
            final(self).pending == old(self).pending,
            ({
                let orchestrator = old(self).orchestrator.connection == Some(conn);
                let spatial = !orchestrator && old(self).spatial.connection == Some(conn);
                let broker = !orchestrator && !spatial && old(self).broker.connection == Some(conn);
                &&& final(self).orchestrator.connection == if orchestrator {
                    None
                } else {
                    old(self).orchestrator.connection
                }
                &&& final(self).spatial.connection == if spatial {
                    None
                } else {
                    old(self).spatial.connection
                }
                &&& final(self).broker.connection == if broker {
                    None
                } else {
                    old(self).broker.connection
                }
                &&& final(registry)@ == if orchestrator || spatial || broker {
                    old(registry)@
                } else {
                    without(old(registry)@, conn)
                }
            }),
    {
        if self.orchestrator.connection == Some(conn) {
            self.orchestrator.connection = None;
        } else if self.spatial.connection == Some(conn) {
            self.spatial.connection = None;
        } else if self.broker.connection == Some(conn) {
            self.broker.connection = None;
        } else {
            registry.remove_player(&conn);
        }
    }
}

/// A player is the first one with an identifier.
pub open spec fn is_first(players: Seq<(u128, PlayerView)>, id: Seq<char>, n: int) -> bool {
    &&& 0 <= n < players.len()
    &&& players[n].1.id == id
    &&& forall|i: int| 0 <= i < n ==> (#[trigger] players[i]).1.id != id
}

/// No player has an identifier.
pub open spec fn is_unknown(players: Seq<(u128, PlayerView)>, id: Seq<char>) -> bool {
    forall|i: int| 0 <= i < players.len() ==> (#[trigger] players[i]).1.id != id
}

/// No two players have one identifier.
pub open spec fn ids_distinct(players: Seq<(u128, PlayerView)>) -> bool {
    forall|i: int, j: int|
        0 <= i < j < players.len() ==> (#[trigger] players[i]).1.id != (#[trigger] players[j]).1.id
}

/// A player is found by its identifier, and nobody is found who is not there.
pub proof fn law_players_are_found(players: Seq<(u128, PlayerView)>, id: Seq<char>, n: int)
    ensures
        is_first(players, id, n) ==> has_player(players, id) && player_place(players, id) == n,
        is_unknown(players, id) ==> !has_player(players, id),
{
    if is_first(players, id, n) {
        lemma_player_place_is(players, id, n);
    }
    if is_unknown(players, id) {
        lemma_player_place_is(players, id, players.len() as int);
    }
}

/// A change of a player by its identifier changes that player, and leaves every
/// other as it is, in its place. Where nobody has the identifier, nothing changes.
pub proof fn law_one_player_changes(
    players: Seq<(u128, PlayerView)>,
    id: Seq<char>,
    change: spec_fn(PlayerView) -> PlayerView,
    n: int,
)
    ensures
        is_first(players, id, n) ==> {
            let after = changed_player(players, id, change);
            &&& after.len() == players.len()
            &&& after[n] == (players[n].0, change(players[n].1))
            &&& forall|i: int|
                0 <= i < players.len() && i != n ==> #[trigger] after[i] == players[i]
        },
        is_unknown(players, id) ==> changed_player(players, id, change) == players,
{
    law_players_are_found(players, id, n);
}

/// A change of state changes the state of that player, and nothing else.
pub proof fn law_one_state_changes(
    players: Seq<(u128, PlayerView)>,
    id: Seq<char>,
    state: EntityState,
    n: int,
)
    ensures
        is_first(players, id, n) ==> with_state(players, id, state) == players.update(
            n,
            (players[n].0, PlayerView { state, ..players[n].1 }),
        ),
        is_unknown(players, id) ==> with_state(players, id, state) == players,
{
    law_players_are_found(players, id, n);
}

/// A player who is removed by its identifier is gone; every other stays, in order.
pub proof fn law_one_player_leaves(players: Seq<(u128, PlayerView)>, id: Seq<char>, n: int)
    ensures
        is_first(players, id, n) ==> without_player(players, id) == players.take(n) + players.skip(
            n + 1,
        ),
        is_unknown(players, id) ==> without_player(players, id) == players,
{
    law_players_are_found(players, id, n);
    if is_first(players, id, n) {
        assert(players.remove(n) =~= players.take(n) + players.skip(n + 1));
    }
}

/// An entity that is taken in stands under its UUID, owned here by no other shard,
/// and is otherwise as it came; every other player stays. One without a UUID is let
/// go.
pub proof fn law_taken_in_as_it_came(
    players: Seq<(u128, PlayerView)>,
    g: PlayerView,
    other: u128,
)
    requires
        distinct(players),
    ensures
        distinct(promoted(players, g)),
        parsed_uuid(g.id) is None ==> promoted(players, g) == players,
        parsed_uuid(g.id) matches Some(uuid) ==> {
            &&& lookup(promoted(players, g), uuid) == Some(
                PlayerView {
                    id: g.id,
                    username: g.username,
                    pos_x: g.pos_x,
                    pos_y: g.pos_y,
                    vel_x: g.vel_x,
                    vel_y: g.vel_y,
                    state: EntityState::Owned,
                    owner_shard_id: None,
                    conn: g.conn,
                },
            )
            &&& other != uuid ==> lookup(promoted(players, g), other) == lookup(players, other)
        },
{
    if let Some(uuid) = parsed_uuid(g.id) {
        let p = PlayerView { state: EntityState::Owned, owner_shard_id: None, ..g };
        law_put_lookup(players, uuid, p, other);
    }
}

/// A timer that runs once, after several steps.
pub open spec fn counted(duration: u64, deltas: Seq<u64>) -> Countdown
    decreases deltas.len(),
{
    if deltas.len() == 0 {
        Countdown { elapsed: 0, duration }
    } else {
        counted(duration, deltas.drop_last()).later(deltas.last())
    }
}

/// A timer that runs once is finished exactly when the whole time has reached its
/// duration, and until then has counted that time.
pub proof fn law_countdown_ends_in_time(duration: u64, deltas: Seq<u64>)
    ensures
        total(deltas) >= 0,
        counted(duration, deltas).duration == duration,
        counted(duration, deltas).is_finished() <==> total(deltas) >= duration,
        total(deltas) < duration ==> counted(duration, deltas).elapsed == total(deltas),
        counted(duration, deltas).wf(),
    decreases deltas.len(),
{
    if deltas.len() > 0 {
        law_countdown_ends_in_time(duration, deltas.drop_last());
    }
}

/// The services that were asked for are connected in that order: the first
/// connection is to the first that was asked for, the next to the next; a
/// further one is a player's, and changes no link.
pub proof fn law_services_are_linked_in_order(
    first: ServiceLinks,
    second: ServiceLinks,
    third: ServiceLinks,
    a: u128,
    b: u128,
    x: Option<PendingConnType>,
    y: Option<PendingConnType>,
    other: PendingConnType,
)
    requires
        linked(first, second, a, x),
        linked(second, third, b, y),
    ensures
        first.pending.queue@.len() >= 1 ==> {
            &&& x == Some(first.pending.queue@[0])
            &&& link(second, first.pending.queue@[0]) == Some(a)
            &&& other != first.pending.queue@[0] ==> link(second, other) == link(first, other)
        },
        first.pending.queue@.len() >= 2 ==> y == Some(first.pending.queue@[1]) && link(
            third,
            first.pending.queue@[1],
        ) == Some(b),
        first.pending.queue@.len() == 1 ==> y is None && link(third, other) == link(second, other),
        first.pending.queue@.len() == 0 ==> x is None && link(second, other) == link(first, other),
{
}

/// A connection that is closed is no service's any more, and where it was
/// none's, the player that had it is gone; every other player, and every other
/// link, stays.
pub proof fn law_closed_connections_are_forgotten(
    before: ServiceLinks,
    after: ServiceLinks,
    conn: u128,
    players: Seq<(u128, PlayerView)>,
    left: Seq<(u128, PlayerView)>,
    service: PendingConnType,
    other: u128,
)
    requires
        distinct(players),
        unlinked(before, after, conn, players, left),
    ensures
        link(before, service) != Some(conn) ==> link(after, service) == link(before, service),
        (forall|s: PendingConnType| s != service ==> #[trigger] link(before, s) != Some(conn)) && link(
            before,
            service,
        ) == Some(conn) ==> link(after, service) is None && left == players,
        (forall|s: PendingConnType| #[trigger] link(before, s) != Some(conn)) ==> {
            &&& lookup(left, conn) is None
            &&& other != conn ==> lookup(left, other) == lookup(players, other)
        },
{
    law_without_lookup(players, conn, other);
    assert(link(before, PendingConnType::Orchestrator) == before.orchestrator.connection);
    assert(link(before, PendingConnType::Spatial) == before.spatial.connection);
    assert(link(before, PendingConnType::Broker) == before.broker.connection);
}

/// Where the environment says nothing, a server listens on port 9000, in zone
/// A, for 10 players, as shard 0, and reports to 127.0.0.1:9000; it has the
/// identifier that was drawn.
pub proof fn law_configuration_has_defaults(
    id: u128,
    vars: ServerVars,
    r: Result<ServerConfig, ConfigError>,
)
    requires
        ServerConfig::configured(id, vars, r),
        vars.port is None,
        vars.zone is None,
        vars.max_players is None,
        vars.orchestrator_addr is Unset,
        vars.shard_id is None,
    ensures
        r matches Ok(c) && c.port == 9000 && c.zone@ == "zone_A"@ && c.max_players == 10 && c.shard_id
            == 0 && c.orchestrator_addr.0@ == "127.0.0.1"@ && c.orchestrator_addr.1 == 9000 && c.id@
            == uuid_text(id),
{
    reveal_strlit("9000");
    reveal_strlit("10");
    reveal_strlit("0");
    reveal_with_fuel(decimal, 5);
    assert("9000"@ =~= decimal(9000));
    assert("10"@ =~= decimal(10));
    assert("0"@ =~= decimal(0));
    law_decimal_round_trip(9000);
    law_decimal_round_trip(10);
    law_decimal_round_trip(0);
}

/// Each setting counts on its own: what the environment says, in decimal
/// digits, is what a server is configured to, and where it says nothing, the
/// default; a port, a number of players or an address that is none is refused,
/// in this order, and a shard that is no number is shard 0.
pub proof fn law_each_setting_counts(
    id: u128,
    vars: ServerVars,
    r: Result<ServerConfig, ConfigError>,
    n: nat,
)
    requires
        ServerConfig::configured(id, vars, r),
    ensures
        ({
            let bad_port = vars.port matches Some(t) && parsed_unsigned(t@, 0xffff) is None;
            let bad_players = vars.max_players matches Some(t) && parsed_unsigned(
                t@,
                usize::MAX as int,
            ) is None;
            let bad_address = vars.orchestrator_addr is Malformed;
            &&& bad_port <==> r == Err::<ServerConfig, ConfigError>(ConfigError::Port)
            &&& !bad_port && bad_players <==> r == Err::<ServerConfig, ConfigError>(
                ConfigError::MaxPlayers,
            )
            &&& !bad_port && !bad_players && bad_address <==> r == Err::<ServerConfig, ConfigError>(
                ConfigError::OrchestratorAddr,
            )
        }),
        r matches Ok(c) ==> {
            &&& c.id@ == uuid_text(id)
            &&& vars.port is None ==> c.port == 9000
            &&& vars.port matches Some(t) ==> (n <= 0xffff && t@ == decimal(n) ==> c.port == n)
            &&& vars.max_players is None ==> c.max_players == 10
            &&& vars.max_players matches Some(t) ==> (n <= usize::MAX && t@ == decimal(n)
                ==> c.max_players == n)
            &&& vars.zone is None ==> c.zone@ == "zone_A"@
            &&& vars.zone matches Some(t) ==> c.zone@ == t@
            &&& vars.shard_id is None ==> c.shard_id == 0
            &&& vars.shard_id matches Some(t) ==> (n <= u32::MAX && t@ == decimal(n) ==> c.shard_id == n)
            &&& vars.shard_id matches Some(t) ==> (parsed_unsigned(t@, 0xffff_ffff) is None ==> c.shard_id
                == 0)
            &&& vars.orchestrator_addr is Unset ==> c.orchestrator_addr.0@ == "127.0.0.1"@
                && c.orchestrator_addr.1 == 9000
            &&& vars.orchestrator_addr matches AddressVar::Given(host, p) ==> c.orchestrator_addr == (
                host,
                p,
            )
        },
{
    reveal_strlit("9000");
    reveal_strlit("10");
    reveal_strlit("0");
    reveal_with_fuel(decimal, 5);
    assert("9000"@ =~= decimal(9000));
    assert("10"@ =~= decimal(10));
    assert("0"@ =~= decimal(0));
    law_decimal_round_trip(9000);
    law_decimal_round_trip(10);
    law_decimal_round_trip(0);
    law_decimal_round_trip(n);
}

} // verus!
