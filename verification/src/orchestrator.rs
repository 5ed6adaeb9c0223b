//! The orchestrator: it registers the servers that report, and sees that there
//! are enough of them.

use crate::resources::HEARTBEAT_PERIOD;
use crate::shared::{status, status_of, Heartbeat};
use crate::text::{decimal, law_decimal_round_trip, parse_unsigned, parsed_unsigned, to_decimal};
use vstd::prelude::*;

verus! {

/// How long a registration lasts without another report.
pub const HEARTBEAT_TTL_SECONDS: u64 = 15;

/// How often it is checked that there are enough servers.
pub const SCALER_INTERVAL_SECONDS: u64 = 10;

/// A record of a server in the registry: its key, its fields, and how long it
/// lasts.
#[derive(Debug)]
pub struct Registration {
    pub key: String,
    pub fields: Vec<(String, String)>,
    pub ttl_seconds: u64,
}

/// The fields of a record, by their characters.
pub open spec fn fields_view(fields: Seq<(String, String)>) -> Seq<(Seq<char>, Seq<char>)> {
    Seq::new(fields.len(), |i: int| (fields[i].0@, fields[i].1@))
}

/// The fields of the record of a server.
pub open spec fn fields_of(h: Heartbeat) -> Seq<(Seq<char>, Seq<char>)> {
    seq![
        ("ip"@, h.ip@),
        ("port"@, decimal(h.port as nat)),
        ("zone"@, h.zone@),
        ("status"@, status(h.player_count as int, h.max_players as int)),
        ("player_count"@, decimal(h.player_count as nat)),
    ]
}

/// A record is that of a server that reported.
pub open spec fn registers(h: Heartbeat, r: Registration) -> bool {
    &&& r.key@ == "server:"@ + h.id@
    &&& fields_view(r.fields@) == fields_of(h)
    &&& r.ttl_seconds == HEARTBEAT_TTL_SECONDS
}

/// The record of a server that reported.
pub fn register_server(heartbeat: &Heartbeat) -> (r: Registration)
    ensures
        registers(*heartbeat, r),
        r.key@ == "server:"@ + heartbeat.id@,
        fields_view(r.fields@) == fields_of(*heartbeat),
        r.ttl_seconds == HEARTBEAT_TTL_SECONDS,
{
    let mut key: String = "server:".to_string();
    key.append(heartbeat.id.as_str());
    let mut fields: Vec<(String, String)> = Vec::new();
    fields.push(("ip".to_string(), heartbeat.ip.clone()));
    fields.push(("port".to_string(), to_decimal(heartbeat.port as u64)));
    fields.push(("zone".to_string(), heartbeat.zone.clone()));
    fields.push(
        ("status".to_string(), status_of(heartbeat.player_count, heartbeat.max_players)),
    );
    fields.push(("player_count".to_string(), to_decimal(heartbeat.player_count as u64)));
    assert(fields_view(fields@) =~= fields_of(*heartbeat));
    Registration { key, fields, ttl_seconds: HEARTBEAT_TTL_SECONDS }
}

/// A record says that its server has room.
pub open spec fn is_available(status: Option<String>) -> bool {
    status matches Some(s) && s@ == "available"@
}

/// How many records say that their server has room.
pub open spec fn available_count(statuses: Seq<Option<String>>) -> nat
    decreases statuses.len(),
{
    if statuses.len() == 0 {
        0
    } else {
        available_count(statuses.drop_last()) + if is_available(statuses.last()) {
            1nat
        } else {
            0
        }
    }
}

/// How many records say that their server has room. A record without a status
/// does not.
pub fn count_available_servers(statuses: &Vec<Option<String>>) -> (r: usize)
    ensures
        r == available_count(statuses@),
{
    let available: String = "available".to_string();
    let mut count: usize = 0;
    let mut i: usize = 0;
    assert(statuses@.take(0) =~= Seq::empty());
    while i < statuses.len()
        invariant
            i <= statuses.len(),
            available@ == "available"@,
            count == available_count(statuses@.take(i as int)),
            count <= i,
        decreases statuses.len() - i,
    {
        assert(statuses@.take(i + 1).drop_last() =~= statuses@.take(i as int));
        match &statuses[i] {
            Some(s) => {
                if *s == available {
                    count = count + 1;
                }
            },
            None => {},
        }
        i = i + 1;
    }
    assert(statuses@.take(i as int) =~= statuses@);
    count
}

/// How many servers there should be that have room: as many as the environment
/// says, or one.
pub open spec fn wanted_servers(var: Option<String>) -> int {
    match var {
        Some(s) => match parsed_unsigned(s@, usize::MAX as int) {
            Some(n) => n,
            None => 1,
        },
        None => 1,
    }
}

/// How many servers are missing.
pub open spec fn missing_servers(available: int, wanted: int) -> int {
    if available < wanted {
        wanted - available
    } else {
        0
    }
}

/// How many servers there should be that have room.
pub fn hot_servers_min(var: Option<String>) -> (r: usize)
    ensures
        r == wanted_servers(var),
        match var {
            Some(s) => match parsed_unsigned(s@, usize::MAX as int) {
                Some(n) => r == n,
                None => r == 1,
            },
            None => r == 1,
        },
{
    match var {
        Some(s) => match parse_unsigned(s.as_str(), usize::MAX as u64) {
            Some(n) => n as usize,
            None => 1,
        },
        None => 1,
    }
}

/// How many servers are to be started.
pub fn servers_to_spawn(available: usize, wanted: usize) -> (r: usize)
    ensures
        r == missing_servers(available as int, wanted as int),
        r == if available < wanted {
            wanted - available
        } else {
            0
        },
{
    if available < wanted {
        wanted - available
    } else {
        0
    }
}

/// With the servers that are started there are as many as there should be, or
/// more, and none is started where there are enough.
pub proof fn law_enough_servers(available: usize, wanted: usize, started: usize)
    requires
        started == (if available < wanted {
            wanted - available
        } else {
            0
        }),
    ensures
        available + started >= wanted,
        available >= wanted ==> started == 0,
        available < wanted ==> available + started == wanted,
{
}

/// The servers that are started bring the number of those that have room to
/// what is wanted, and no further; none is started where there are enough.
pub proof fn law_missing_servers_are_started(available: int, wanted: int)
    requires
        0 <= available,
        0 <= wanted,
    ensures
        missing_servers(available, wanted) >= 0,
        available + missing_servers(available, wanted) >= wanted,
        missing_servers(available, wanted) > 0 ==> available + missing_servers(available, wanted)
            == wanted,
        available >= wanted ==> missing_servers(available, wanted) == 0,
{
}

/// As many servers are wanted as the environment says, in decimal digits, and
/// one where it says nothing, or nothing that is a number.
pub proof fn law_wanted_servers(text: String, n: usize)
    ensures
        text@ == decimal(n as nat) ==> wanted_servers(Some(text)) == n,
        parsed_unsigned(text@, usize::MAX as int) is None ==> wanted_servers(Some(text)) == 1,
        wanted_servers(None) == 1,
{
    law_decimal_round_trip(n as nat);
}

/// The servers that have room are counted one by one: those of some records and
/// of others add up, and a record counts exactly where its status is
/// "available".
pub proof fn law_available_servers_add_up(
    a: Seq<Option<String>>,
    b: Seq<Option<String>>,
    status: Option<String>,
)
    ensures
        available_count(a + b) == available_count(a) + available_count(b),
        available_count(seq![status]) == (if status is Some && status.unwrap()@ == "available"@ {
            1nat
        } else {
            0
        }),
    decreases b.len(),
{
    assert(seq![status].drop_last() =~= Seq::empty());
    assert(available_count(seq![status].drop_last()) == 0);
    if b.len() == 0 {
        assert(a + b =~= a);
    } else {
        law_available_servers_add_up(a, b.drop_last(), status);
        assert((a + b).drop_last() =~= a + b.drop_last());
    }
}

/// Each server has a record of its own, which lasts for three heartbeats, so
/// that a server that goes on reporting stays registered, even where a
/// heartbeat is lost, and one that stops does not.
pub proof fn law_registration_outlives_lost_heartbeats(
    a: Heartbeat,
    b: Heartbeat,
    ra: Registration,
    rb: Registration,
)
    requires
        registers(a, ra),
        registers(b, rb),
    ensures
        ra.key@ == rb.key@ <==> a.id@ == b.id@,
        ra.ttl_seconds * 1_000_000_000 == 3 * HEARTBEAT_PERIOD,
        HEARTBEAT_PERIOD == 5_000_000_000,
{
    let prefix = "server:"@;
    assert((prefix + a.id@).skip(prefix.len() as int) =~= a.id@);
    assert((prefix + b.id@).skip(prefix.len() as int) =~= b.id@);
}

/// A record holds what the server told, under the names of the fields, the
/// numbers in decimal digits; and that the server has room exactly where it has
/// fewer players than it takes.
pub proof fn law_record_holds_what_was_told(h: Heartbeat, r: Registration)
    requires
        registers(h, r),
    ensures
        fields_view(r.fields@).contains(("ip"@, h.ip@)),
        fields_view(r.fields@).contains(("port"@, decimal(h.port as nat))),
        fields_view(r.fields@).contains(("zone"@, h.zone@)),
        fields_view(r.fields@).contains(("player_count"@, decimal(h.player_count as nat))),
        fields_view(r.fields@).contains(
            (
                "status"@,
                if h.player_count < h.max_players {
                    "available"@
                } else {
                    "full"@
                },
            ),
        ),
        r.fields@.len() == 5,
{
    let f = fields_view(r.fields@);
    assert(f.len() == r.fields@.len());
    assert(f[0] == ("ip"@, h.ip@));
    assert(f[1] == ("port"@, decimal(h.port as nat)));
    assert(f[2] == ("zone"@, h.zone@));
    assert(f[3].0 == "status"@);
    assert(f[4] == ("player_count"@, decimal(h.player_count as nat)));
}

} // verus!
