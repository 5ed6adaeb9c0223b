//! What the services of the fleet tell each other.

use crate::single::Single;
use vstd::prelude::*;

verus! {

/// Where a player finds a game server.
#[derive(Debug)]
pub struct ServerInfo {
    pub ip: String,
    pub port: u16,
    pub zone: String,
}

/// What a game server reports of itself.
#[derive(Debug)]
pub struct Heartbeat {
    pub id: String,
    pub ip: String,
    pub port: u16,
    pub zone: String,
    pub shard_id: u32,
    pub player_count: usize,
    pub max_players: usize,
}

/// Who has authority over an entity.
#[derive(Debug, Clone, Copy, PartialEq, Eq, Structural)]
pub enum EntityState {
    /// This shard.
    Owned,
    /// This shard, until another has taken over.
    PendingHandoff,
    /// Another shard; this one holds a copy.
    GhostCopy,
}

/// Asks a shard to take an entity over.
#[derive(Debug)]
pub struct HandoffRequest {
    pub entity_id: String,
    pub from_shard: u32,
    pub pos_x: Single,
    pub pos_y: Single,
    pub vel_x: Single,
    pub vel_y: Single,
    pub state: Vec<u8>,
}

/// Tells the shard that asked that the entity will be taken over.
#[derive(Debug)]
pub struct HandoffAccept {
    pub entity_id: String,
}

/// Tells the shard that asked that the entity will not be taken over.
#[derive(Debug)]
pub struct HandoffReject {
    pub entity_id: String,
}

/// Where an entity is that another shard holds a copy of.
#[derive(Debug)]
pub struct GhostUpdate {
    pub entity_id: String,
    pub pos_x: Single,
    pub pos_y: Single,
    pub vel_x: Single,
    pub vel_y: Single,
}

/// Tells the other shard that the entity is its own from now on.
#[derive(Debug)]
pub struct HandoffComplete {
    pub entity_id: String,
}

/// The status of a server: whether it has room.
pub open spec fn status(player_count: int, max_players: int) -> Seq<char> {
    if player_count >= max_players {
        "full"@
    } else {
        "available"@
    }
}

/// The status of a server: whether it has room.
pub fn status_of(player_count: usize, max_players: usize) -> (r: String)
    ensures
        r@ == status(player_count as int, max_players as int),
{
    if player_count >= max_players {
        "full".to_string()
    } else {
        "available".to_string()
    }
}

} // verus!
