//! The gatekeeper: it lets players in, and finds a server for them.

use crate::orchestrator::{fields_of, is_available};
use crate::outside::{drawn, uuid_new_v4, uuid_text, uuid_to_string};
use crate::resources::{PlayerView, ServerConfig};
use crate::server::tells_of;
use crate::shared::{status, Heartbeat, ServerInfo};
use crate::text::{
    law_decimal_round_trip, law_trimmed_is_between_white_space, parsed_unsigned, trim, trimmed,
    white,
};
use crate::vec_map::{lemma_place_is, lookup};
use vstd::prelude::*;

verus! {

/// Who wants in.
#[derive(Debug)]
pub struct LoginRequest {
    pub username: String,
    pub password: String,
}

/// The answer to a player who got in.
#[derive(Debug)]
pub struct LoginResponse {
    pub player_id: String,
    pub server: ServerInfo,
}

/// The answer to a player who did not.
#[derive(Debug)]
pub struct ErrorResponse {
    pub error: String,
}

/// The answer to a login.
#[derive(Debug)]
pub enum LoginReply {
    Welcome(LoginResponse),
    Unauthorized(ErrorResponse),
    Unavailable(ErrorResponse),
}

impl LoginReply {
    /// The HTTP status of an answer.
    pub open spec fn code(self) -> u16 {
        match self {
            LoginReply::Welcome(_) => 200,
            LoginReply::Unauthorized(_) => 401,
            LoginReply::Unavailable(_) => 503,
        }
    }

    pub fn status_code(&self) -> (r: u16)
        ensures
            r == self.code(),
    {
        match self {
            LoginReply::Welcome(_) => 200,
            LoginReply::Unauthorized(_) => 401,
            LoginReply::Unavailable(_) => 503,
        }
    }
}

/// The fields of the record of a server that matter to players.
#[derive(Debug)]
pub struct ServerRow {
    pub status: Option<String>,
    pub ip: Option<String>,
    pub port: Option<u16>,
    pub zone: Option<String>,
}

/// A server can be given to a player: it has room, and its record is complete.
pub open spec fn usable(row: ServerRow) -> bool {
    is_available(row.status) && row.ip is Some && row.port is Some && row.zone is Some
}

/// A server is the one of a record.
pub open spec fn server_of(row: ServerRow, server: ServerInfo) -> bool {
    row.ip == Some(server.ip) && row.port == Some(server.port) && row.zone == Some(server.zone)
}

/// The server of a record, if it can be given to a player.
pub fn server_from_row(row: ServerRow) -> (r: Option<ServerInfo>)
    ensures
        match r {
            Some(server) => usable(row) && server_of(row, server),
            None => !usable(row),
        },
{
    let available: String = "available".to_string();
    match row.status {
        Some(s) => {
            if s == available {
                match (row.ip, row.port, row.zone) {
                    (Some(ip), Some(port), Some(zone)) => Some(ServerInfo { ip, port, zone }),
                    _ => None,
                }
            } else {
                None
            }
        },
        None => None,
    }
}

/// The server of the first record that can be given to a player.
pub fn find_available_server(rows: Vec<ServerRow>) -> (r: Option<ServerInfo>)
    ensures
        match r {
            Some(server) => exists|i: int|
                {
                    &&& 0 <= i < rows@.len()
                    &&& usable(#[trigger] rows@[i])
                    &&& server_of(rows@[i], server)
                    &&& forall|j: int| 0 <= j < i ==> !usable(#[trigger] rows@[j])
                },
            None => forall|i: int| 0 <= i < rows@.len() ==> !usable(#[trigger] rows@[i]),
        },
{
    let ghost all = rows@;
    let mut left = rows;
    let ghost mut n: int = 0;
    assert(all.skip(0) =~= all);
    while left.len() > 0
        invariant
            0 <= n <= all.len(),
            all == rows@,
            left@ == all.skip(n),
            forall|j: int| 0 <= j < n ==> !usable(#[trigger] all[j]),
        decreases left.len(),
    {
        let row = left.remove(0);
        assert(row == all[n]);
        assert(left@ =~= all.skip(n + 1));
        if let Some(server) = server_from_row(row) {
            assert(usable(all[n]) && server_of(all[n], server));
            return Some(server);
        }
        proof {
            n = n + 1;
        }
    }
    None
}

/// A player may come in: it has a name that is not blank, and the password.
pub open spec fn may_enter(req: LoginRequest) -> bool {
    trimmed(req.username@).len() > 0 && req.password@ == "1234"@
}

/// Whether a player may come in.
pub fn authorized(req: &LoginRequest) -> (r: bool)
    ensures
        r == may_enter(*req),
{
    let password: String = "1234".to_string();
    let name = trim(req.username.as_str());
    let length: usize = name.as_str().unicode_len();
    length > 0 && req.password == password
}

/// The answer to a login: who may not come in is told so, whatever servers there
/// are; who may is given an identifier and a server, if there is one.
pub open spec fn answered(
    req: LoginRequest,
    server: Option<ServerInfo>,
    id: u128,
    r: LoginReply,
) -> bool {
    if !may_enter(req) {
        r matches LoginReply::Unauthorized(e) && e.error@ == "Unauthorized"@
    } else {
        match server {
            Some(s) => r matches LoginReply::Welcome(w) && w.player_id@ == uuid_text(id) && w.server
                == s,
            None => r matches LoginReply::Unavailable(e) && e.error@ == "No server available"@,
        }
    }
}

/// Answers a login; the identifier is drawn at random.
pub fn login_handler(req: &LoginRequest, server: Option<ServerInfo>) -> (r: LoginReply)
    ensures
        exists|id: u128| drawn(id) && #[trigger] answered(*req, server, id, r),
{
    let id: u128 = uuid_new_v4();
    login_as(req, server, id)
}

/// Answers a login with an identifier.
pub fn login_as(req: &LoginRequest, server: Option<ServerInfo>, id: u128) -> (r: LoginReply)
    ensures
        answered(*req, server, id, r),
{
    if !authorized(req) {
        return LoginReply::Unauthorized(ErrorResponse { error: "Unauthorized".to_string() });
    }
    match server {
        Some(server) => LoginReply::Welcome(
            LoginResponse { player_id: uuid_to_string(id), server },
        ),
        None => LoginReply::Unavailable(
            ErrorResponse { error: "No server available".to_string() },
        ),
    }
}

/// Who may not come in is refused, whatever servers there are; who may is
/// let in exactly where there is a server.
pub proof fn law_login_codes(req: LoginRequest, server: Option<ServerInfo>, id: u128, r: LoginReply)
    requires
        answered(req, server, id, r),
    ensures
        r.code() == 401 <==> !may_enter(req),
        r.code() == 503 <==> may_enter(req) && server is None,
        r.code() == 200 <==> may_enter(req) && server is Some,
{
}

/// The text of a field.
pub open spec fn text_of(field: Option<String>) -> Option<Seq<char>> {
    match field {
        Some(s) => Some(s@),
        None => None,
    }
}

/// A row holds what a record holds under the names of its fields, the port as the
/// number that it stands for.
pub open spec fn row_of(record: Seq<(Seq<char>, Seq<char>)>, row: ServerRow) -> bool {
    &&& text_of(row.status) == lookup(record, "status"@)
    &&& text_of(row.ip) == lookup(record, "ip"@)
    &&& text_of(row.zone) == lookup(record, "zone"@)
    &&& match lookup(record, "port"@) {
        Some(text) => match parsed_unsigned(text, 0xffff) {
            Some(n) => row.port == Some(n as u16),
            None => row.port is None,
        },
        None => row.port is None,
    }
}

/// A server that reported, and has room, can be given to a player, where it said
/// that it is; one that is full cannot.
pub proof fn law_registered_server_is_found(h: Heartbeat, row: ServerRow)
    requires
        row_of(fields_of(h), row),
    ensures
        usable(row) <==> h.player_count < h.max_players,
        forall|server: ServerInfo| #[trigger]
            server_of(row, server) ==> server.ip@ == h.ip@ && server.port == h.port && server.zone@
                == h.zone@,
{
    reveal_strlit("full");
    reveal_strlit("available");
    reveal_strlit("ip");
    reveal_strlit("port");
    reveal_strlit("zone");
    reveal_strlit("status");
    assert("full"@.len() != "available"@.len());
    assert("port"@[0] != "zone"@[0]);
    let record = fields_of(h);
    lemma_place_is(record, "ip"@, 0);
    lemma_place_is(record, "port"@, 1);
    lemma_place_is(record, "zone"@, 2);
    assert("status"@.len() == 6 && "ip"@.len() == 2 && "port"@.len() == 4 && "zone"@.len() == 4);
    lemma_place_is(record, "status"@, 3);
    law_decimal_round_trip(h.port as nat);
}

/// Who gives the password and a name that is not all white space may come in;
/// nobody else may.
pub proof fn law_who_may_enter(req: LoginRequest, n: int)
    ensures
        may_enter(req) ==> req.password@ == "1234"@,
        (forall|k: int| 0 <= k < req.username@.len() ==> white(#[trigger] req.username@[k]))
            ==> !may_enter(req),
        0 <= n < req.username@.len() && !white(req.username@[n]) && req.password@ == "1234"@
            ==> may_enter(req),
{
    law_trimmed_is_between_white_space(req.username@);
}

/// A player who may come in is given, with an identifier of its own, the very
/// server that was found; and one who may not, or for whom there is none, is
/// given neither.
pub proof fn law_login_gives_the_server(
    req: LoginRequest,
    server: Option<ServerInfo>,
    id: u128,
    r: LoginReply,
)
    requires
        answered(req, server, id, r),
    ensures
        r is Welcome <==> may_enter(req) && server is Some,
        r matches LoginReply::Welcome(w) ==> server == Some(w.server) && w.player_id@ == uuid_text(id),
        r is Unauthorized <==> !may_enter(req),
        r matches LoginReply::Unauthorized(e) ==> e.error@ == "Unauthorized"@,
        r is Unavailable <==> may_enter(req) && server is None,
        r matches LoginReply::Unavailable(e) ==> e.error@ == "No server available"@,
        r is Welcome ==> r.code() == 200,
        r is Unauthorized ==> r.code() == 401,
        r is Unavailable ==> r.code() == 503,
{
}

/// A server can be given to players exactly where its record says that it is
/// available, and where it is.
pub proof fn law_usable_records(row: ServerRow)
    ensures
        usable(row) <==> {
            &&& text_of(row.status) == Some("available"@)
            &&& row.ip is Some
            &&& row.port is Some
            &&& row.zone is Some
        },
{
}

/// A server that a player is sent to is one that reported room for it: from
/// what a server tells of itself to what a player is given, its address, port
/// and zone stay the same.
pub proof fn law_player_is_sent_where_there_is_room(
    config: ServerConfig,
    players: Seq<(u128, PlayerView)>,
    h: Heartbeat,
    row: ServerRow,
    server: ServerInfo,
)
    requires
        tells_of(h, config, players),
        row_of(fields_of(h), row),
    ensures
        usable(row) <==> players.len() < config.max_players,
        server_of(row, server) ==> server.ip@ == "127.0.0.1"@ && server.port == config.port
            && server.zone@ == config.zone@,
{
    law_registered_server_is_found(h, row);
}

} // verus!
