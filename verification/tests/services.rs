use mmorpg_lab::gatekeeper::{
    authorized, find_available_server, login_as, login_handler, server_from_row, LoginReply,
    LoginRequest, ServerRow,
};
use mmorpg_lab::orchestrator::{
    count_available_servers, hot_servers_min, register_server, servers_to_spawn,
};
use mmorpg_lab::shared::{Heartbeat, ServerInfo};
use mmorpg_lab::text::{
    parse_unsigned, split_whitespace, str_below, strip_prefix, to_decimal, trim,
};
use mmorpg_lab::wire::{
    id_to_bytes, parse_addr, parse_addr_or, parse_port, read_id, read_le16, read_le32,
};

fn text(s: &str) -> Option<String> {
    Some(s.to_string())
}

fn heartbeat(player_count: usize, max_players: usize) -> Heartbeat {
    Heartbeat {
        id: "309161f7".to_string(),
        ip: "127.0.0.1".to_string(),
        port: 50657,
        zone: "zone_A".to_string(),
        shard_id: 0,
        player_count,
        max_players,
    }
}

fn row(status: &str, ip: &str) -> ServerRow {
    ServerRow { status: text(status), ip: text(ip), port: Some(1), zone: text("z") }
}

#[test]
fn servers_are_registered() {
    let r = register_server(&heartbeat(3, 10));
    assert_eq!(r.key, "server:309161f7");
    assert_eq!(r.ttl_seconds, 15);
    let want = [
        ("ip", "127.0.0.1"),
        ("port", "50657"),
        ("zone", "zone_A"),
        ("status", "available"),
        ("player_count", "3"),
    ];
    for (got, want) in r.fields.iter().zip(want) {
        assert_eq!((got.0.as_str(), got.1.as_str()), want);
    }
    assert_eq!(r.fields.len(), 5);
    assert_eq!(register_server(&heartbeat(10, 10)).fields[3].1, "full");
    assert_eq!(register_server(&heartbeat(0, 0)).fields[3].1, "full");
}

#[test]
fn servers_are_counted() {
    let statuses = vec![text("available"), None, text("full"), text("available"), text("Available")];
    assert_eq!(count_available_servers(&statuses), 2);
    assert_eq!(count_available_servers(&Vec::new()), 0);
    assert_eq!(servers_to_spawn(2, 5), 3);
    assert_eq!(servers_to_spawn(5, 2), 0);
    assert_eq!(hot_servers_min(None), 1);
    assert_eq!(hot_servers_min(text("4")), 4);
    assert_eq!(hot_servers_min(text("four")), 1);
}

#[test]
fn first_available_server_is_found() {
    let found = find_available_server(vec![
        row("full", "a"),
        ServerRow { status: None, ip: text("b"), port: Some(1), zone: text("z") },
        ServerRow { status: text("available"), ip: text("c"), port: None, zone: text("z") },
        row("available", "d"),
        row("available", "e"),
    ])
    .unwrap();
    assert_eq!((found.ip.as_str(), found.port, found.zone.as_str()), ("d", 1, "z"));
    assert!(find_available_server(vec![row("full", "a")]).is_none());
    assert!(find_available_server(Vec::new()).is_none());
}

// What the orchestrator registers, the gatekeeper finds.
#[test]
fn registered_servers_are_found() {
    for (count, found) in [(0, true), (9, true), (10, false), (11, false)] {
        let r = register_server(&heartbeat(count, 10));
        let row = ServerRow {
            status: Some(r.fields[3].1.clone()),
            ip: Some(r.fields[0].1.clone()),
            port: parse_port(&r.fields[1].1),
            zone: Some(r.fields[2].1.clone()),
        };
        let server = server_from_row(row);
        assert_eq!(server.is_some(), found);
        if let Some(s) = server {
            assert_eq!((s.ip.as_str(), s.port, s.zone.as_str()), ("127.0.0.1", 50657, "zone_A"));
        }
    }
}

fn request(username: &str, password: &str) -> LoginRequest {
    LoginRequest { username: username.to_string(), password: password.to_string() }
}

fn server() -> Option<ServerInfo> {
    Some(ServerInfo { ip: "i".to_string(), port: 2, zone: "z".to_string() })
}

#[test]
fn logins_are_answered() {
    let alice = request("alice", "1234");
    let reply = login_as(&alice, server(), 0x0102_0304_0506_0708_090a_0b0c_0d0e_0f10);
    assert_eq!(reply.status_code(), 200);
    match reply {
        LoginReply::Welcome(w) => {
            assert_eq!(w.player_id, "01020304-0506-0708-090a-0b0c0d0e0f10");
            assert_eq!((w.server.ip.as_str(), w.server.port), ("i", 2));
        }
        _ => panic!("not let in"),
    }
    let reply = login_handler(&alice, None);
    assert_eq!(reply.status_code(), 503);
    match reply {
        LoginReply::Unavailable(e) => assert_eq!(e.error, "No server available"),
        _ => panic!("let in"),
    }
    for bad in [request("alice", "12345"), request(" \t\u{3000}", "1234"), request("", "1234")] {
        assert!(!authorized(&bad));
        let reply = login_handler(&bad, server());
        assert_eq!(reply.status_code(), 401);
        match reply {
            LoginReply::Unauthorized(e) => assert_eq!(e.error, "Unauthorized"),
            _ => panic!("let in"),
        }
    }
    match login_handler(&alice, server()) {
        LoginReply::Welcome(w) => assert_eq!(w.player_id.len(), 36),
        _ => panic!("not let in"),
    }
}

#[test]
fn numbers_are_read_as_std_does() {
    for s in ["0", "7", "+7", "-7", "", "+", "65535", "65536", "007", "1a", " 1", "++1", "18446744073709551616"] {
        assert_eq!(parse_unsigned(s, 0xffff), s.parse::<u16>().ok().map(|n| n as u64), "{}", s);
        assert_eq!(parse_unsigned(s, u64::MAX), s.parse::<u64>().ok(), "{}", s);
    }
    for n in [0u64, 9, 10, 99, 100, 12345, u64::MAX] {
        assert_eq!(to_decimal(n), n.to_string());
    }
}

#[test]
fn texts_are_cut_as_std_does() {
    for s in ["", " ", "a", " a b ", "\t\u{a0}x\u{2003}", "\u{85}\u{1680}y", "\u{200b}z", "a\u{b}b\u{c}c"] {
        assert_eq!(trim(s), s.trim());
        assert_eq!(split_whitespace(s), s.split_whitespace().collect::<Vec<_>>());
    }
    assert_eq!(strip_prefix("JOIN x", "JOIN "), text("x"));
    assert_eq!(strip_prefix("JOI", "JOIN "), None);
    assert_eq!(strip_prefix("JOIN", "JOIN"), text(""));
    for (a, b) in [("a", "b"), ("a", "ab"), ("\u{e9}", "z"), ("shard:1", "shard:1:far"), ("", "")] {
        assert_eq!(str_below(a, b), a < b);
        assert_eq!(str_below(b, a), b < a);
    }
}

#[test]
fn addresses_are_split() {
    assert_eq!(parse_addr("127.0.0.1:9010"), ("127.0.0.1".to_string(), 9010));
    assert_eq!(parse_addr("[::1]:80"), ("[::1]".to_string(), 80));
    assert_eq!(parse_addr_or("host:no", 9001), Some(("host".to_string(), 9001)));
    assert_eq!(parse_addr_or("host:7", 9001), Some(("host".to_string(), 7)));
    assert_eq!(parse_addr_or("host", 9001), None);
    assert_eq!(parse_port("70000"), None);
}

#[test]
fn fields_are_read() {
    let data = [1u8, 2, 3, 4, 5, 6, 7, 8, 9, 10, 11, 12, 13, 14, 15, 16, 17];
    assert_eq!(read_le16(&data, 1), u16::from_le_bytes([2, 3]));
    assert_eq!(read_le32(&data, 2), u32::from_le_bytes([3, 4, 5, 6]));
    assert_eq!(read_id(&data, 1).to_be_bytes()[..], data[1..17]);
    assert_eq!(id_to_bytes(read_id(&data, 0))[..], data[..16]);
}
