//! Fields of the binary protocol: numbers, identifiers, topics and addresses.

use crate::text::{parse_unsigned, parsed_unsigned};
use vstd::prelude::*;
use vstd::string::*;

verus! {

/// The first byte of each message says what it is.
pub const TAG_SUBSCRIBE: u8 = 0x01;

pub const TAG_UNSUBSCRIBE: u8 = 0x02;

pub const TAG_PUBLISH: u8 = 0x03;

pub const TAG_BROADCAST: u8 = 0x04;

pub const TAG_CLIENT_INPUT: u8 = 0x05;

pub const TAG_ROUTE_TO_SHARD: u8 = 0x06;

pub const TAG_POSITION_UPDATE: u8 = 0x10;

pub const TAG_CROSSING_ALERT: u8 = 0x11;

pub const TAG_HANDOFF_REQUEST: u8 = 0x20;

pub const TAG_HANDOFF_ACCEPT: u8 = 0x21;

pub const TAG_HANDOFF_REJECT: u8 = 0x22;

pub const TAG_GHOST_UPDATE: u8 = 0x23;

pub const TAG_HANDOFF_COMPLETE: u8 = 0x24;

/// The first byte of a client's input says what it is.
pub const INPUT_JOIN: u8 = 0x01;

pub const INPUT_MOVE: u8 = 0x02;

pub const INPUT_LEAVE: u8 = 0x03;

/// The least significant byte of a number first.
pub open spec fn le16(n: u16) -> Seq<u8> {
    seq![(n % 256) as u8, (n / 256) as u8]
}

/// The least significant byte of a number first.
pub open spec fn le32(n: u32) -> Seq<u8> {
    seq![
        (n % 256) as u8,
        (n / 256 % 256) as u8,
        (n / 0x1_0000 % 256) as u8,
        (n / 0x100_0000) as u8,
    ]
}

/// The last `n` bytes of a number, the most significant first.
pub open spec fn big_endian(v: nat, n: nat) -> Seq<u8>
    decreases n,
{
    if n == 0 {
        Seq::empty()
    } else {
        big_endian(v / 256, (n - 1) as nat).push((v % 256) as u8)
    }
}

/// The number that bytes stand for, the most significant first.
pub open spec fn big_endian_value(s: Seq<u8>) -> nat
    decreases s.len(),
{
    if s.len() == 0 {
        0
    } else {
        big_endian_value(s.drop_last()) * 256 + s.last() as nat
    }
}

/// The 16 bytes of an identifier, the most significant first.
pub open spec fn id_bytes(id: u128) -> Seq<u8> {
    big_endian(id as nat, 16)
}

/// A topic of 32 bytes: the UTF-8 bytes of its label, cut off or filled up with
/// zeros.
pub open spec fn topic_of(label: Seq<char>) -> Seq<u8> {
    let bytes = vstd::utf8::encode_utf8(label);
    Seq::new(
        32,
        |i: int|
            if i < bytes.len() {
                bytes[i]
            } else {
                0
            },
    )
}

/// The number whose four bytes stand at a place, the least significant first.
pub open spec fn u32_at(data: Seq<u8>, at: int) -> u32 {
    (data[at] + 0x100 * data[at + 1] + 0x1_0000 * data[at + 2] + 0x100_0000 * data[at + 3]) as u32
}

/// The number whose two bytes stand at a place, the less significant first.
pub open spec fn u16_at(data: Seq<u8>, at: int) -> u16 {
    (data[at] + 0x100 * data[at + 1]) as u16
}

/// The identifier whose 16 bytes stand at a place.
pub open spec fn id_at(data: Seq<u8>, at: int) -> u128 {
    big_endian_value(data.subrange(at, at + 16)) as u128
}

/// What was written is read.
pub proof fn law_le32_round_trip(n: u32)
    ensures
        le32(n).len() == 4,
        u32_at(le32(n), 0) == n,
{
}

/// What was written is read.
pub proof fn law_le16_round_trip(n: u16)
    ensures
        le16(n).len() == 2,
        u16_at(le16(n), 0) == n,
{
}

/// What was written is read.
pub proof fn law_id_round_trip(id: u128)
    ensures
        id_bytes(id).len() == 16,
        id_at(id_bytes(id), 0) == id,
{
    lemma_id_bytes(id);
    assert(id_bytes(id).subrange(0, 16) =~= id_bytes(id));
}

spec fn limit(n: nat) -> nat
    decreases n,
{
    if n == 0 {
        1
    } else {
        256 * limit((n - 1) as nat)
    }
}

proof fn lemma_big_endian_length(v: nat, n: nat)
    ensures
        big_endian(v, n).len() == n,
    decreases n,
{
    if n > 0 {
        lemma_big_endian_length(v / 256, (n - 1) as nat);
    }
}

proof fn lemma_big_endian_read(v: nat, n: nat)
    requires
        v < limit(n),
    ensures
        big_endian_value(big_endian(v, n)) == v,
    decreases n,
{
    if n > 0 {
        lemma_big_endian_read(v / 256, (n - 1) as nat);
        assert(big_endian(v, n).drop_last() =~= big_endian(v / 256, (n - 1) as nat));
    }
}

proof fn lemma_big_endian_write(s: Seq<u8>)
    ensures
        big_endian(big_endian_value(s), s.len()) == s,
        big_endian_value(s) < limit(s.len()),
    decreases s.len(),
{
    if s.len() > 0 {
        lemma_big_endian_write(s.drop_last());
        assert(s =~= s.drop_last().push(s.last()));
    } else {
        assert(big_endian(0, 0) =~= s);
    }
}

/// The bytes of an identifier are 16, and reading them gives it back.
pub proof fn lemma_id_bytes(id: u128)
    ensures
        id_bytes(id).len() == 16,
        big_endian_value(id_bytes(id)) == id,
{
    reveal_with_fuel(limit, 17);
    lemma_big_endian_length(id as nat, 16);
    lemma_big_endian_read(id as nat, 16);
}

/// Bytes of an identifier are read as that identifier.
pub proof fn lemma_id_at(data: Seq<u8>, at: int, id: u128)
    requires
        0 <= at <= data.len() - 16,
        data.subrange(at, at + 16) == id_bytes(id),
    ensures
        id_at(data, at) == id,
{
    lemma_id_bytes(id);
}

/// Bytes of a number are read as that number.
pub proof fn lemma_u32_at(data: Seq<u8>, at: int, n: u32)
    requires
        0 <= at <= data.len() - 4,
        data.subrange(at, at + 4) == le32(n),
    ensures
        u32_at(data, at) == n,
{
    let part = data.subrange(at, at + 4);
    assert(part[0] == data[at] && part[1] == data[at + 1] && part[2] == data[at + 2] && part[3]
        == data[at + 3]);
    law_le32_round_trip(n);
}

/// Bytes of a number are read as that number.
pub proof fn lemma_u16_at(data: Seq<u8>, at: int, n: u16)
    requires
        0 <= at <= data.len() - 2,
        data.subrange(at, at + 2) == le16(n),
    ensures
        u16_at(data, at) == n,
{
    let part = data.subrange(at, at + 2);
    assert(part[0] == data[at] && part[1] == data[at + 1]);
    law_le16_round_trip(n);
}

/// Reads four bytes of a number, the least significant first.
pub fn read_le32(data: &[u8], at: usize) -> (r: u32)
    requires
        at + 4 <= data@.len(),
    ensures
        r == u32_at(data@, at as int),
        le32(r) == data@.subrange(at as int, at + 4),
{
    let a: u32 = data[at] as u32;
    let b: u32 = data[at + 1] as u32;
    let c: u32 = data[at + 2] as u32;
    let d: u32 = data[at + 3] as u32;
    let r: u32 = a + 0x100 * b + 0x1_0000 * c + 0x100_0000 * d;
    assert(r % 256 == a && r / 256 % 256 == b && r / 0x1_0000 % 256 == c && r / 0x100_0000 == d);
    assert(le32(r) =~= data@.subrange(at as int, at + 4));
    r
}

/// Reads two bytes of a number, the less significant first.
pub fn read_le16(data: &[u8], at: usize) -> (r: u16)
    requires
        at + 2 <= data@.len(),
    ensures
        r == u16_at(data@, at as int),
        le16(r) == data@.subrange(at as int, at + 2),
{
    let a: u16 = data[at] as u16;
    let b: u16 = data[at + 1] as u16;
    let r: u16 = a + 0x100 * b;
    assert(le16(r) =~= data@.subrange(at as int, at + 2));
    r
}

/// Reads the 16 bytes of an identifier.
pub fn read_id(data: &[u8], at: usize) -> (r: u128)
    requires
        at + 16 <= data@.len(),
    ensures
        r == id_at(data@, at as int),
        id_bytes(r) == data@.subrange(at as int, at + 16),
{
    let ghost s = data@.subrange(at as int, at + 16);
    let len: usize = data.len();
    let mut r: u128 = 0;
    let mut i: usize = 0;
    while i < 16
        invariant
            i <= 16,
            at + 16 <= len,
            len == data@.len(),
            s == data@.subrange(at as int, at + 16),
            r == big_endian_value(s.take(i as int)),
            r < limit(i as nat),
        decreases 16 - i,
    {
        proof {
            reveal_with_fuel(limit, 17);
            let t = s.take(i + 1);
            assert(t.drop_last() =~= s.take(i as int));
            assert(t.last() == data@[at + i]);
            lemma_big_endian_write(t);
            assert(t.len() == i + 1);
        }
        assert(limit(16) == 0x1_0000_0000_0000_0000_0000_0000_0000_0000);
        proof {
            lemma_limit_ordered((i + 1) as nat, 16);
        }
        r = r * 256 + data[at + i] as u128;
        i = i + 1;
    }
    proof {
        assert(s.take(16) =~= s);
        lemma_big_endian_write(s);
    }
    r
}

proof fn lemma_limit_ordered(a: nat, b: nat)
    requires
        a <= b,
    ensures
        1 <= limit(a) <= limit(b),
    decreases b,
{
    if a < b {
        lemma_limit_ordered(a, (b - 1) as nat);
    } else if a > 0 {
        lemma_limit_ordered((a - 1) as nat, (b - 1) as nat);
    }
}

/// The 16 bytes of an identifier.
pub fn id_to_bytes(id: u128) -> (r: [u8; 16])
    ensures
        r@ == id_bytes(id),
{
    let mut out: [u8; 16] = [0u8; 16];
    let mut v: u128 = id;
    let mut i: usize = 16;
    proof {
        assert(big_endian(v as nat, 16) + out@.skip(16) =~= id_bytes(id));
    }
    while i > 0
        invariant
            i <= 16,
            big_endian(v as nat, i as nat) + out@.skip(i as int) == id_bytes(id),
        decreases i,
    {
        let ghost before = out@;
        let b: u8 = (v % 256) as u8;
        out[i - 1] = b;
        proof {
            lemma_big_endian_length(v as nat, i as nat);
            lemma_big_endian_length((v / 256) as nat, (i - 1) as nat);
            let head = big_endian((v / 256) as nat, (i - 1) as nat);
            assert(big_endian(v as nat, i as nat) == head.push(b));
            assert(head + out@.skip(i - 1) =~= head.push(b) + before.skip(i as int));
        }
        v = v / 256;
        i = i - 1;
    }
    proof {
        assert(big_endian(v as nat, 0) + out@.skip(0) =~= out@);
    }
    out
}

/// Appends the bytes of a slice.
pub fn push_bytes(out: &mut Vec<u8>, src: &[u8])
    ensures
        final(out)@ == old(out)@ + src@,
{
    let mut i: usize = 0;
    while i < src.len()
        invariant
            i <= src.len(),
            out@ == old(out)@ + src@.take(i as int),
        decreases src.len() - i,
    {
        out.push(src[i]);
        assert(src@.take(i + 1) =~= src@.take(i as int).push(src@[i as int]));
        assert(out@ =~= old(out)@ + src@.take(i + 1));
        i = i + 1;
    }
    assert(src@.take(i as int) =~= src@);
}

/// Appends the bytes of a number, the less significant first.
pub fn push_le16(out: &mut Vec<u8>, n: u16)
    ensures
        final(out)@ == old(out)@ + le16(n),
{
    out.push((n % 256) as u8);
    out.push((n / 256) as u8);
    assert(out@ =~= old(out)@ + le16(n));
}

/// Appends the bytes of a number, the least significant first.
pub fn push_le32(out: &mut Vec<u8>, n: u32)
    ensures
        final(out)@ == old(out)@ + le32(n),
{
    out.push((n % 256) as u8);
    out.push((n / 256 % 256) as u8);
    out.push((n / 0x1_0000 % 256) as u8);
    out.push((n / 0x100_0000) as u8);
    assert(out@ =~= old(out)@ + le32(n));
}

/// Appends the 16 bytes of an identifier.
pub fn push_id(out: &mut Vec<u8>, id: u128)
    ensures
        final(out)@ == old(out)@ + id_bytes(id),
{
    let bytes = id_to_bytes(id);
    push_bytes(out, bytes.as_slice());
}

/// The topic of a label.
pub fn topic_to_bytes(topic: &str) -> (r: [u8; 32])
    ensures
        r@ == topic_of(topic@),
{
    let mut out: [u8; 32] = [0u8; 32];
    let bytes = topic.as_bytes();
    let mut i: usize = 0;
    while i < bytes.len() && i < 32
        invariant
            i <= 32,
            i <= bytes@.len(),
            bytes@ == vstd::utf8::encode_utf8(topic@),
            forall|k: int| 0 <= k < i ==> out@[k] == bytes@[k],
            forall|k: int| i <= k < 32 ==> out@[k] == 0,
        decreases 32 - i,
    {
        out[i] = bytes[i];
        i = i + 1;
    }
    assert(out@ =~= topic_of(topic@));
    out
}

/// The place of the last colon of an address, or none.
pub open spec fn last_colon(s: Seq<char>) -> Option<int>
    decreases s.len(),
{
    if s.len() == 0 {
        None
    } else if s.last() == ':' {
        Some(s.len() - 1)
    } else {
        last_colon(s.drop_last())
    }
}

/// The part of an address before its last colon.
pub open spec fn host_part(s: Seq<char>) -> Seq<char> {
    s.take(last_colon(s).unwrap())
}

/// The part of an address after its last colon.
pub open spec fn port_part(s: Seq<char>) -> Seq<char> {
    s.skip(last_colon(s).unwrap() + 1)
}

/// Splits an address at its last colon, if it has one, into the host and the
/// text of the port.
pub fn split_addr(addr: &str) -> (r: Option<(String, String)>)
    ensures
        match r {
            Some(p) => last_colon(addr@) is Some && p.0@ == host_part(addr@) && p.1@ == port_part(
                addr@,
            ),
            None => last_colon(addr@) is None,
        },
{
    let len: usize = addr.unicode_len();
    let mut i: usize = len;
    assert(addr@.take(len as int) =~= addr@);
    while i > 0
        invariant
            len == addr@.len(),
            i <= len,
            last_colon(addr@) == last_colon(addr@.take(i as int)),
        decreases i,
    {
        assert(addr@.take(i as int).drop_last() =~= addr@.take(i - 1));
        if addr.get_char(i - 1) == ':' {
            let host = addr.substring_char(0, i - 1);
            let port = addr.substring_char(i, len);
            assert(host@ =~= host_part(addr@));
            assert(port@ =~= port_part(addr@));
            return Some((host.to_owned(), port.to_owned()));
        }
        i = i - 1;
    }
    None
}

/// The text of a port as its number.
pub fn parse_port(text: &str) -> (r: Option<u16>)
    ensures
        match r {
            Some(n) => parsed_unsigned(text@, u16::MAX as int) == Some(n as int),
            None => parsed_unsigned(text@, u16::MAX as int) is None,
        },
{
    match parse_unsigned(text, u16::MAX as u64) {
        Some(n) => Some(n as u16),
        None => None,
    }
}

/// The host and the port of an address `host:port`.
pub fn parse_addr(addr: &str) -> (r: (String, u16))
    requires
        last_colon(addr@) is Some,
        parsed_unsigned(port_part(addr@), u16::MAX as int) is Some,
    ensures
        r.0@ == host_part(addr@),
        parsed_unsigned(port_part(addr@), u16::MAX as int) == Some(r.1 as int),
{
    match split_addr(addr) {
        Some((host, port)) => match parse_port(port.as_str()) {
            Some(n) => (host, n),
            None => (host, 0),
        },
        None => (String::new(), 0),
    }
}

/// The host and the port of an address, with a port to use where the address
/// has none that can be read.
pub fn parse_addr_or(addr: &str, default_port: u16) -> (r: Option<(String, u16)>)
    ensures
        match r {
            Some(p) => {
                &&& last_colon(addr@) is Some
                &&& p.0@ == host_part(addr@)
                &&& p.1 == match parsed_unsigned(port_part(addr@), u16::MAX as int) {
                    Some(n) => n,
                    None => default_port as int,
                }
            },
            None => last_colon(addr@) is None,
        },
{
    match split_addr(addr) {
        Some((host, port)) => match parse_port(port.as_str()) {
            Some(n) => Some((host, n)),
            None => Some((host, default_port)),
        },
        None => None,
    }
}

/// An address is split at its last colon: a host, a colon and a port without a
/// colon are taken apart again, and what has no colon is not split.
pub proof fn law_address_is_split_at_its_last_colon(host: Seq<char>, port: Seq<char>, s: Seq<char>)
    ensures
        (forall|i: int| 0 <= i < port.len() ==> #[trigger] port[i] != ':') ==> {
            let addr = host.push(':') + port;
            &&& last_colon(addr) == Some(host.len() as int)
            &&& host_part(addr) == host
            &&& port_part(addr) == port
        },
        (forall|i: int| 0 <= i < s.len() ==> #[trigger] s[i] != ':') <==> last_colon(s) is None,
    decreases port.len() + s.len(),
{
    let addr = host.push(':') + port;
    if forall|i: int| 0 <= i < port.len() ==> #[trigger] port[i] != ':' {
        lemma_last_colon(addr, host.len() as int);
        assert(addr.take(host.len() as int) =~= host);
        assert(addr.skip(host.len() as int + 1) =~= port);
    }
    lemma_no_colon(s);
}

proof fn lemma_last_colon(s: Seq<char>, n: int)
    requires
        0 <= n < s.len(),
        s[n] == ':',
        forall|i: int| n < i < s.len() ==> #[trigger] s[i] != ':',
    ensures
        last_colon(s) == Some(n),
    decreases s.len(),
{
    if n < s.len() - 1 {
        assert(s[s.len() - 1] != ':');
        lemma_last_colon(s.drop_last(), n);
    }
}

proof fn lemma_no_colon(s: Seq<char>)
    ensures
        (forall|i: int| 0 <= i < s.len() ==> #[trigger] s[i] != ':') <==> last_colon(s) is None,
    decreases s.len(),
{
    if s.len() > 0 {
        let front = s.drop_last();
        lemma_no_colon(front);
        if forall|i: int| 0 <= i < s.len() ==> #[trigger] s[i] != ':' {
            assert forall|i: int| 0 <= i < front.len() implies #[trigger] front[i] != ':' by {
                assert(s[i] != ':');
            }
            assert(s[s.len() - 1] != ':');
        }
        if last_colon(s) is None {
            assert forall|i: int| 0 <= i < s.len() implies #[trigger] s[i] != ':' by {
                if i < front.len() {
                    assert(front[i] != ':');
                }
            }
        }
    }
}

/// A topic holds the bytes of its label, as far as there is room, and else zeros.
pub proof fn law_topic_holds_its_label(label: Seq<char>)
    ensures
        topic_of(label).len() == 32,
        ({
            let bytes = vstd::utf8::encode_utf8(label);
            &&& bytes.len() <= 32 ==> topic_of(label).take(bytes.len() as int) == bytes
            &&& forall|i: int| bytes.len() <= i < 32 ==> #[trigger] topic_of(label)[i] == 0
            &&& bytes.len() > 32 ==> topic_of(label) == bytes.take(32)
        }),
{
    let bytes = vstd::utf8::encode_utf8(label);
    if bytes.len() <= 32 {
        assert(topic_of(label).take(bytes.len() as int) =~= bytes);
    } else {
        assert(topic_of(label) =~= bytes.take(32));
    }
}

} // verus!
