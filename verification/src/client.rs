//! The game client: what it makes of what it hears, and what it says.

use crate::broker::{broadcast_message, input_message};
use crate::outside::{
    bytes_mut_freeze, bytes_mut_put_slice, bytes_mut_put_u8, bytes_mut_with_capacity, contents,
    parsed_uuid, read_back, uuid_parse_str, uuid_text,
};
use crate::packet::{packet_view, sent, Packet};
use crate::quad_tree::{grid_shard, BOUNDARY};
use crate::resources::PlayerView;
use crate::server::{entities_bytes, moved, state_payload, Entity};
use crate::single::{
    at_most, below, difference, distance, is_root, law_difference_is_by_distance,
    law_sum_is_commutative, lemma_nothing_added, lemma_product_exists, lemma_scaled_at,
    lemma_scaled_increases, lemma_sum_exact, lemma_sum_exists, lemma_sum_is_number,
    lemma_sum_ordered, lemma_sum_with_zero, opposite, product, quotient, scaled, sum, Single,
    INFINITE,
};
use crate::spatial::{near_label, shard_label, subscription_message, AOI_FAR};
use crate::text::{decimal, with_number};
use crate::timer::Ticker;
use crate::vec_map::{
    distinct, holds_key, law_put_lookup, lemma_place, lemma_place_is, lemma_views, lookup, place,
    put, views, VecMap,
};
use crate::wire::{
    id_at, id_bytes, id_to_bytes, le16, le32, lemma_id_at, lemma_id_bytes, lemma_u16_at,
    lemma_u32_at, push_bytes, push_le32, read_id, read_le16, read_le32, topic_to_bytes, u16_at,
    u32_at, INPUT_JOIN, INPUT_MOVE, TAG_BROADCAST, TAG_CLIENT_INPUT, TAG_SUBSCRIBE,
};
use vstd::arithmetic::power2::{lemma_pow2_adds, lemma_pow2_pos, pow2};
use vstd::prelude::*;

verus! {

/// How fast a player moves: 200.
pub const SPEED: u32 = 0x4348_0000;

/// How fast a player who moves at a slant moves along each axis: 200 divided by
/// the square root of 2.
pub const SLANTED_SPEED: u32 = 0x430d_6bde;

/// Where a player begins: at 250 on both axes, the center of shard 0.
pub const SPAWN: u32 = 0x437a_0000;

/// How many positions of another player are kept.
pub const INTERP_BUFFER_SIZE: usize = 3;

/// A jump farther than 400 is not smoothed.
pub const SNAP_THRESHOLD: u32 = 0x43c8_0000;

/// The square of the snap threshold, 160000.
pub const SNAP_SQUARE: u32 = 0x481c_4000;

/// How long another player is shown who is not heard of: 1 second.
pub const OTHER_PLAYER_TIMEOUT: u32 = 0x3f80_0000;

/// How often the servers are told how the player moves: every 0.05 seconds, that
/// being the single-precision number, in nanoseconds.
pub const INPUT_SEND_PERIOD: u64 = 50_000_001;

/// How often a client asks again to join: every 2 seconds, in nanoseconds.
pub const JOIN_RETRY_PERIOD: u64 = 2_000_000_000;

/// When the servers are told how the player moves.
#[derive(Debug)]
pub struct InputSendTimer(pub Ticker);

impl Default for InputSendTimer {
    fn default() -> (r: Self)
        ensures
            r.0 == (Ticker { elapsed: 0, period: INPUT_SEND_PERIOD }),
            r.0.wf(),
    {
        InputSendTimer(Ticker::new(INPUT_SEND_PERIOD))
    }
}

/// When a client asks again to join.
#[derive(Debug)]
pub struct JoinRetryTimer(pub Ticker);

impl Default for JoinRetryTimer {
    fn default() -> (r: Self)
        ensures
            r.0 == (Ticker { elapsed: 0, period: JOIN_RETRY_PERIOD }),
            r.0.wf(),
    {
        JoinRetryTimer(Ticker::new(JOIN_RETRY_PERIOD))
    }
}

/// The number one.
pub const ONE: u32 = 0x3f80_0000;

/// The shard that a position is drawn in.
pub open spec fn drawn_shard(x: Single, y: Single) -> u32 {
    let half = Single { bits: BOUNDARY };
    let col: int = if at_most(half, x) { 1 } else { 0 };
    let row: int = if at_most(half, y) { 1 } else { 0 };
    (row * 2 + col) as u32
}

/// The shard that a position is drawn in: positions outside the world too have
/// one.
pub fn shard_for_2x2(x: Single, y: Single) -> (r: u32)
    ensures
        r == drawn_shard(x, y),
{
    let half = Single::from_bits(BOUNDARY);
    let col: u32 = if half.le(x) {
        1
    } else {
        0
    };
    let row: u32 = if half.le(y) {
        1
    } else {
        0
    };
    row * 2 + col
}

/// Within the world a client and the servers agree on the shard of a position.
pub proof fn law_client_agrees_with_servers(x: Single, y: Single)
    requires
        grid_shard(x, y) is Some,
    ensures
        grid_shard(x, y) == Some(drawn_shard(x, y)),
{
}

/// What is shown of the shard that the player is in.
pub fn shard_text(x: Single, y: Single) -> (r: String)
    ensures
        r@ == "Shard "@ + decimal(drawn_shard(x, y) as nat),
{
    with_number("Shard ", shard_for_2x2(x, y) as u64)
}

/// The velocity along an axis: forth, back, or neither.
pub open spec fn axis_velocity(forth: bool, back: bool, slanted: bool) -> Single {
    let speed = if slanted { SLANTED_SPEED } else { SPEED };
    if forth == back {
        Single { bits: 0 }
    } else if forth {
        Single { bits: speed }
    } else {
        Single { bits: (speed + 0x8000_0000) as u32 }
    }
}

/// The velocity that keys ask for.
pub open spec fn asked_velocity(left: bool, right: bool, up: bool, down: bool) -> (Single, Single) {
    let slanted = right != left && up != down;
    (axis_velocity(right, left, slanted), axis_velocity(up, down, slanted))
}

/// The velocity that keys ask for. Keys for opposite directions cancel out.
pub fn read_input(left: bool, right: bool, up: bool, down: bool) -> (r: (Single, Single))
    ensures
        r == asked_velocity(left, right, up, down),
        r.0 == axis_velocity(right, left, right != left && up != down),
        r.1 == axis_velocity(up, down, right != left && up != down),
{
    let slanted: bool = right != left && up != down;
    let speed = Single::from_bits(
        if slanted {
            SLANTED_SPEED
        } else {
            SPEED
        },
    );
    let none = Single::from_bits(0);
    let x = if right == left {
        none
    } else if right {
        speed
    } else {
        speed.negate()
    };
    let y = if up == down {
        none
    } else if up {
        speed
    } else {
        speed.negate()
    };
    (x, y)
}

/// A position some time later, at a constant velocity.
pub open spec fn moved_on(pos: (Single, Single), vel: (Single, Single), dt: Single) -> (
    Single,
    Single,
) {
    (sum(pos.0, product(vel.0, dt)), sum(pos.1, product(vel.1, dt)))
}

/// A position some time later, at a constant velocity.
pub fn apply_local_movement(pos: (Single, Single), vel: (Single, Single), dt: Single) -> (r: (
    Single,
    Single,
))
    ensures
        r == moved_on(pos, vel, dt),
        r.0 == sum(pos.0, product(vel.0, dt)),
        r.1 == sum(pos.1, product(vel.1, dt)),
{
    (pos.0.plus(vel.0.times(dt)), pos.1.plus(vel.1.times(dt)))
}

/// A position of another player, and when it was heard of.
#[derive(Clone, Copy, Debug, PartialEq, Eq, Structural)]
pub struct Snapshot {
    pub t: Single,
    pub x: Single,
    pub y: Single,
}

/// Another player.
#[derive(Debug)]
pub struct RemotePlayer {
    pub last_seen: Single,
    /// The player was first heard of since the last frame.
    pub fresh: bool,
    /// The last positions, the oldest first.
    pub snapshots: Vec<Snapshot>,
    /// Where the player is shown.
    pub render_pos: (Single, Single),
}

/// What another player is.
pub struct RemoteView {
    pub last_seen: Single,
    pub fresh: bool,
    pub snapshots: Seq<Snapshot>,
    pub render_pos: (Single, Single),
}

impl View for RemotePlayer {
    type V = RemoteView;

    open spec fn view(&self) -> RemoteView {
        RemoteView {
            last_seen: self.last_seen,
            fresh: self.fresh,
            snapshots: self.snapshots@,
            render_pos: self.render_pos,
        }
    }
}

/// A client.
pub struct Client {
    pub uuid: u128,
    pub broker_conn: Option<u128>,
    /// A server has told where this client's player is.
    pub joined: bool,
    pub position: (Single, Single),
    pub others: VecMap<u128, RemotePlayer>,
}

/// What a client knows.
pub struct ClientView {
    pub uuid: u128,
    pub broker_conn: Option<u128>,
    pub joined: bool,
    pub position: (Single, Single),
    pub others: Seq<(u128, RemoteView)>,
}

impl View for Client {
    type V = ClientView;

    open spec fn view(&self) -> ClientView {
        ClientView {
            uuid: self.uuid,
            broker_conn: self.broker_conn,
            joined: self.joined,
            position: self.position,
            others: views(self.others.pairs()),
        }
    }
}

/// The number without its sign.
pub open spec fn absolute(a: Single) -> Single {
    Single { bits: a.magnitude() as u32 }
}

/// A position is outside the area that a client at `from` sees.
pub open spec fn out_of_sight(x: Single, y: Single, from: (Single, Single)) -> bool {
    let far = Single { bits: AOI_FAR };
    ||| below(far, absolute(difference(x, from.0)))
    ||| below(far, absolute(difference(y, from.1)))
}

/// The square of the distance of two positions.
pub open spec fn squared_distance(a: Snapshot, x: Single, y: Single) -> Single {
    let dx = difference(x, a.x);
    let dy = difference(y, a.y);
    sum(product(dx, dx), product(dy, dy))
}

/// A player has jumped too far for the motion to be smoothed.
pub open spec fn jumped(a: Snapshot, x: Single, y: Single) -> bool {
    below(Single { bits: SNAP_SQUARE }, squared_distance(a, x, y))
}

/// A player who was heard of again.
pub open spec fn refreshed(p: RemoteView, x: Single, y: Single, now: Single) -> RemoteView {
    let jump = p.snapshots.len() > 0 && jumped(p.snapshots.last(), x, y);
    let all = (if jump { Seq::empty() } else { p.snapshots }).push(Snapshot { t: now, x, y });
    if p.fresh {
        RemoteView { last_seen: now, ..p }
    } else {
        RemoteView {
            last_seen: now,
            fresh: false,
            snapshots: if all.len() > INTERP_BUFFER_SIZE {
                all.skip(1)
            } else {
                all
            },
            render_pos: if jump {
                (x, y)
            } else {
                p.render_pos
            },
        }
    }
}

/// A player who was heard of for the first time.
pub open spec fn appeared(x: Single, y: Single, now: Single) -> RemoteView {
    RemoteView {
        last_seen: now,
        fresh: true,
        snapshots: seq![Snapshot { t: now, x, y }],
        render_pos: (x, y),
    }
}

/// What a client knows once it has heard of an entity. It sees from `from`.
pub open spec fn noticed(c: ClientView, e: Entity, now: Single, from: (Single, Single)) -> ClientView {
    if e.0 == c.uuid {
        ClientView { joined: true, position: (e.1, e.2), ..c }
    } else if out_of_sight(e.1, e.2, from) {
        c
    } else {
        let p = match lookup(c.others, e.0) {
            Some(p) => refreshed(p, e.1, e.2, now),
            None => appeared(e.1, e.2, now),
        };
        ClientView { others: put(c.others, e.0, p), ..c }
    }
}

/// What a client knows once it has heard of several entities.
pub open spec fn noticed_all(
    c: ClientView,
    list: Seq<Entity>,
    now: Single,
    from: (Single, Single),
) -> ClientView
    decreases list.len(),
{
    if list.len() == 0 {
        c
    } else {
        noticed(noticed_all(c, list.drop_last(), now, from), list.last(), now, from)
    }
}

/// The entity at a place of a payload.
pub open spec fn entity_at(payload: Seq<u8>, i: int) -> Entity {
    let at = 2 + 24 * i;
    (
        id_at(payload, at),
        Single { bits: u32_at(payload, at + 16) },
        Single { bits: u32_at(payload, at + 20) },
    )
}

/// The entities that a payload tells of: as many as it says, but not more than
/// are there.
pub open spec fn entities_in(payload: Seq<u8>) -> Seq<Entity> {
    let said = u16_at(payload, 0) as int;
    let there = (payload.len() - 2) / 24;
    Seq::new(
        (if said <= there { said } else { there }) as nat,
        |i: int| entity_at(payload, i),
    )
}

/// The payload of a broadcast, if the message is one: its tag, the length of the
/// payload (2), and the payload, of at least two bytes.
pub open spec fn broadcast_payload(data: Seq<u8>) -> Option<Seq<u8>> {
    let length = u16_at(data, 1) as int;
    if data.len() >= 3 && data[0] == TAG_BROADCAST && data.len() >= 3 + length && length >= 2 {
        Some(data.subrange(3, 3 + length))
    } else {
        None
    }
}

/// The entities that a message tells of.
pub open spec fn told(data: Seq<u8>) -> Seq<Entity> {
    match broadcast_payload(data) {
        Some(payload) => entities_in(payload),
        None => Seq::empty(),
    }
}

/// The entities that a message tells of.
pub fn read_broadcast(data: &[u8]) -> (r: Vec<Entity>)
    ensures
        r@ == told(data@),
{
    let mut out: Vec<Entity> = Vec::new();
    let len: usize = data.len();
    if len < 3 || data[0] != TAG_BROADCAST {
        assert(out@ =~= told(data@));
        return out;
    }
    let length: usize = read_le16(data, 1) as usize;
    if len - 3 < length || length < 2 {
        assert(out@ =~= told(data@));
        return out;
    }
    let ghost payload = data@.subrange(3, 3 + length);
    let count: usize = read_le16(data, 3) as usize;
    proof {
        assert(broadcast_payload(data@) == Some(payload));
        assert(payload[0] == data@[3] && payload[1] == data@[4]);
        assert(u16_at(payload, 0) == count);
    }
    let mut i: usize = 0;
    while i < count && 24 <= length - (2 + 24 * i)
        invariant
            len == data@.len(),
            3 + length <= len,
            2 <= length <= 0xffff,
            payload == data@.subrange(3, 3 + length),
            i <= count <= 0xffff,
            2 + 24 * i <= length,
            out@ == Seq::new(i as nat, |k: int| entity_at(payload, k)),
        decreases count - i,
    {
        let at: usize = 3 + 2 + 24 * i;
        let uuid: u128 = read_id(data, at);
        let x = Single::from_bits(read_le32(data, at + 16));
        let y = Single::from_bits(read_le32(data, at + 20));
        proof {
            let p = 2 + 24 * i;
            assert(payload.subrange(p, p + 16) =~= data@.subrange(at as int, at + 16));
            assert forall|k: int| 0 <= k < 8 implies #[trigger] payload[p + 16 + k] == data@[at + 16
                + k] by {}
            assert(payload[p + 16 + 0] == data@[at + 16 + 0]);
            assert(payload[p + 16 + 1] == data@[at + 16 + 1]);
            assert(payload[p + 16 + 2] == data@[at + 16 + 2]);
            assert(payload[p + 16 + 3] == data@[at + 16 + 3]);
            assert(payload[p + 16 + 4] == data@[at + 16 + 4]);
            assert(payload[p + 16 + 5] == data@[at + 16 + 5]);
            assert(payload[p + 16 + 6] == data@[at + 16 + 6]);
            assert(payload[p + 16 + 7] == data@[at + 16 + 7]);
            assert((uuid, x, y) == entity_at(payload, i as int));
        }
        out.push((uuid, x, y));
        assert(out@ =~= Seq::new((i + 1) as nat, |k: int| entity_at(payload, k)));
        i = i + 1;
    }
    assert(out@ =~= entities_in(payload));
    out
}

impl RemotePlayer {
    fn first_seen(x: Single, y: Single, now: Single) -> (r: Self)
        ensures
            r@ == appeared(x, y, now),
    {
        let mut snapshots: Vec<Snapshot> = Vec::new();
        snapshots.push(Snapshot { t: now, x, y });
        assert(snapshots@ =~= seq![Snapshot { t: now, x, y }]);
        RemotePlayer { last_seen: now, fresh: true, snapshots, render_pos: (x, y) }
    }

    fn refresh(&mut self, x: Single, y: Single, now: Single)
        ensures
            final(self)@ == refreshed(old(self)@, x, y, now),
    {
        self.last_seen = now;
        if self.fresh {
            return;
        }
        let n: usize = self.snapshots.len();
        if n > 0 {
            let last: Snapshot = self.snapshots[n - 1];
            let dx = x.minus(last.x);
            let dy = y.minus(last.y);
            let square = dx.times(dx).plus(dy.times(dy));
            if Single::from_bits(SNAP_SQUARE).lt(square) {
                self.snapshots.clear();
                self.render_pos = (x, y);
            }
        }
        self.snapshots.push(Snapshot { t: now, x, y });
        if self.snapshots.len() > INTERP_BUFFER_SIZE {
            let ghost all = self.snapshots@;
            self.snapshots.remove(0);
            assert(self.snapshots@ =~= all.skip(1));
        }
    }

    /// Moves the player as shown on to where it is some time in the past.
    fn interpolate(&mut self, now: Single)
        ensures
            final(self)@ == (RemoteView { render_pos: rendered(old(self)@, now), ..old(self)@ }),
    {
        let n: usize = self.snapshots.len();
        if n < 2 {
            return;
        }
        let lag = self.snapshots[n - 1].t.minus(self.snapshots[n - 2].t);
        let time = now.minus(lag);
        if time.le(self.snapshots[0].t) {
            self.render_pos = (self.snapshots[0].x, self.snapshots[0].y);
            return;
        }
        let mut i: usize = 0;
        while i < n - 1
            invariant
                2 <= n == self.snapshots@.len(),
                i <= n - 1,
                self@ == old(self)@,
                bracket(self.snapshots@, time, 0) == bracket(self.snapshots@, time, i as int),
                rendered(self@, now) == at_time(self@, time),
            decreases n - i,
        {
            let a: Snapshot = self.snapshots[i];
            let b: Snapshot = self.snapshots[i + 1];
            if a.t.le(time) && time.le(b.t) {
                let span = b.t.minus(a.t);
                let zero = Single::from_bits(0);
                let one = Single::from_bits(ONE);
                let f = if zero.lt(span) {
                    time.minus(a.t).over(span)
                } else {
                    one
                };
                let f = if f.lt(zero) {
                    zero
                } else if one.lt(f) {
                    one
                } else {
                    f
                };
                self.render_pos = (
                    a.x.plus(b.x.minus(a.x).times(f)),
                    a.y.plus(b.y.minus(a.y).times(f)),
                );
                return;
            }
            i = i + 1;
        }
    }
}

/// The place of the first two neighbouring positions that enclose a time.
pub open spec fn bracket(s: Seq<Snapshot>, time: Single, from: int) -> Option<int>
    decreases s.len() - from,
{
    if from + 1 >= s.len() {
        None
    } else if at_most(s[from].t, time) && at_most(time, s[from + 1].t) {
        Some(from)
    } else {
        bracket(s, time, from + 1)
    }
}

/// How far a time is on the way from one to another, between zero and one.
pub open spec fn fraction(from: Single, to: Single, time: Single) -> Single {
    let zero = Single { bits: 0 };
    let one = Single { bits: ONE };
    let span = difference(to, from);
    let f = if below(zero, span) {
        quotient(difference(time, from), span)
    } else {
        one
    };
    if below(f, zero) {
        zero
    } else if below(one, f) {
        one
    } else {
        f
    }
}

/// A number some way from one to another.
pub open spec fn between(a: Single, b: Single, f: Single) -> Single {
    sum(a, product(difference(b, a), f))
}

/// Where a player was at a time after its oldest position: between the positions
/// that enclose the time, or, where none do, where it is shown already.
pub open spec fn at_time(p: RemoteView, time: Single) -> (Single, Single) {
    let s = p.snapshots;
    match bracket(s, time, 0) {
        Some(i) => {
            let f = fraction(s[i].t, s[i + 1].t, time);
            (between(s[i].x, s[i + 1].x, f), between(s[i].y, s[i + 1].y, f))
        },
        None => p.render_pos,
    }
}

/// Where a player is shown: where it was one update ago, so that there is mostly
/// a later position to move towards.
pub open spec fn rendered(p: RemoteView, now: Single) -> (Single, Single) {
    let s = p.snapshots;
    let n = s.len() as int;
    let time = difference(now, difference(s[n - 1].t, s[n - 2].t));
    if n < 2 {
        p.render_pos
    } else if at_most(time, s[0].t) {
        (s[0].x, s[0].y)
    } else {
        at_time(p, time)
    }
}

/// A player has not been heard of for too long.
pub open spec fn stale(p: RemoteView, now: Single) -> bool {
    below(Single { bits: OTHER_PLAYER_TIMEOUT }, difference(now, p.last_seen))
}

/// The other players that are still heard of, none of them fresh any more.
pub open spec fn remaining(others: Seq<(u128, RemoteView)>, now: Single) -> Seq<(u128, RemoteView)>
    decreases others.len(),
{
    if others.len() == 0 {
        Seq::empty()
    } else {
        let rest = remaining(others.drop_last(), now);
        let (uuid, p) = others.last();
        if stale(p, now) {
            rest
        } else {
            rest.push((uuid, RemoteView { fresh: false, ..p }))
        }
    }
}

/// What a client says to join: it subscribes to the shard where it begins, and
/// tells the servers where that is.
pub open spec fn join_messages(uuid: u128) -> Seq<Seq<u8>> {
    seq![
        subscription_message(true, uuid, near_label(0)),
        input_message(uuid, two_numbers(INPUT_JOIN, Single { bits: SPAWN }, Single { bits: SPAWN })),
    ]
}

/// An input: its kind, two numbers (4 and 4), and nothing.
pub open spec fn two_numbers(kind: u8, a: Single, b: Single) -> Seq<u8> {
    seq![kind] + le32(a.bits) + le32(b.bits) + Seq::new(7, |i: int| 0u8)
}

fn input_packet(to: u128, uuid: u128, kind: u8, a: Single, b: Single) -> (r: Packet)
    ensures
        r.to == to,
        contents(r.data) == input_message(uuid, two_numbers(kind, a, b)),
{
    let id = id_to_bytes(uuid);
    proof {
        lemma_id_bytes(uuid);
    }
    let mut input: Vec<u8> = Vec::new();
    input.push(kind);
    push_le32(&mut input, a.bits);
    push_le32(&mut input, b.bits);
    let zeros: [u8; 7] = [0u8; 7];
    push_bytes(&mut input, &zeros);
    assert(input@ =~= two_numbers(kind, a, b));
    let mut msg = bytes_mut_with_capacity(33);
    bytes_mut_put_u8(&mut msg, TAG_CLIENT_INPUT);
    bytes_mut_put_slice(&mut msg, &id);
    bytes_mut_put_slice(&mut msg, input.as_slice());
    let data = bytes_mut_freeze(msg);
    assert(contents(data) =~= input_message(uuid, two_numbers(kind, a, b)));
    Packet { to, data }
}

/// What a client sends to join, on its connection.
pub open spec fn joins(uuid: u128, conn: u128) -> Seq<(u128, Seq<u8>)> {
    Seq::new(2, |i: int| (conn, join_messages(uuid)[i]))
}

/// Asks to join.
pub fn send_join(uuid: u128, conn: u128) -> (r: Vec<Packet>)
    ensures
        sent(r@) == joins(uuid, conn),
        sent(r@) == Seq::new(2, |i: int| (conn, join_messages(uuid)[i])),
{
    let id = id_to_bytes(uuid);
    proof {
        lemma_id_bytes(uuid);
    }
    let topic = topic_to_bytes(shard_label(0).as_str());
    let mut sub = bytes_mut_with_capacity(49);
    bytes_mut_put_u8(&mut sub, TAG_SUBSCRIBE);
    bytes_mut_put_slice(&mut sub, &id);
    bytes_mut_put_slice(&mut sub, &topic);
    let data = bytes_mut_freeze(sub);
    assert(contents(data) =~= subscription_message(true, uuid, near_label(0)));
    let mut out: Vec<Packet> = Vec::new();
    out.push(Packet { to: conn, data });
    let spawn = Single::from_bits(SPAWN);
    out.push(input_packet(conn, uuid, INPUT_JOIN, spawn, spawn));
    assert(sent(out@) =~= Seq::new(2, |i: int| (conn, join_messages(uuid)[i])));
    out
}

/// What is wrong with the answer to a login.
#[derive(Debug)]
pub enum LoginError {
    /// The identifier of the player is no UUID.
    NoUuid,
    /// There is no identifier: the login was refused, and why.
    Refused(String),
}

/// What the answer to a login is read as.
pub open spec fn read_as(
    player_id: Option<String>,
    error: Option<String>,
    r: Result<u128, LoginError>,
) -> bool {
    match player_id {
        Some(id) => match parsed_uuid(id@) {
            Some(uuid) => r == Ok::<u128, LoginError>(uuid),
            None => r matches Err(e) && e is NoUuid,
        },
        None => r matches Err(LoginError::Refused(why)) && why@ == match error {
            Some(e) => e@,
            None => "unknown error"@,
        },
    }
}

/// Reads the answer to a login: the identifier of the player, or why there is
/// none.
pub fn read_login(player_id: Option<String>, error: Option<String>) -> (r: Result<u128, LoginError>)
    ensures
        read_as(player_id, error, r),
        player_id matches Some(id) ==> read_back(id@),
        match player_id {
            Some(id) => match parsed_uuid(id@) {
                Some(uuid) => r == Ok::<u128, LoginError>(uuid),
                None => r matches Err(e) && e is NoUuid,
            },
            None => r matches Err(LoginError::Refused(why)) && why@ == match error {
                Some(e) => e@,
                None => "unknown error"@,
            },
        },
{
    match player_id {
        Some(id) => {
            let parsed = uuid_parse_str(id.as_str());
            assert(read_back(id@));
            match parsed {
                Some(uuid) => Ok(uuid),
                None => Err(LoginError::NoUuid),
            }
        },
        None => match error {
            Some(e) => Err(LoginError::Refused(e)),
            None => Err(LoginError::Refused("unknown error".to_string())),
        },
    }
}

/// No player is known twice, the client's own player is none of the others, and of
/// each there is a position, and no more positions than there is room for.
pub open spec fn sound(c: ClientView) -> bool {
    &&& distinct(c.others)
    &&& forall|uuid: u128| #[trigger]
        lookup(c.others, uuid) is Some ==> {
            &&& uuid != c.uuid
            &&& 1 <= lookup(c.others, uuid).unwrap().snapshots.len() <= INTERP_BUFFER_SIZE
        }
}

/// What a client knows once it has heard a message.
pub open spec fn after_broadcast(
    c: ClientView,
    data: Seq<u8>,
    now: Single,
    from: (Single, Single),
) -> ClientView {
    noticed_all(c, told(data), now, from)
}

/// What a client knows at the end of a frame.
pub open spec fn after_forgetting(c: ClientView, now: Single) -> ClientView {
    ClientView { others: remaining(c.others, now), ..c }
}

/// What a client knows once it has moved the other players on as they are shown.
pub open spec fn after_showing(c: ClientView, now: Single) -> ClientView {
    ClientView { others: shown(c.others, now), ..c }
}

/// How a client tells the servers, when it is time, how its player moves.
pub open spec fn input_sent(c: ClientView, due: bool, velocity: (Single, Single)) -> Option<
    (u128, Seq<u8>),
> {
    match c.broker_conn {
        Some(conn) if due => Some(
            (conn, input_message(c.uuid, two_numbers(INPUT_MOVE, velocity.0, velocity.1))),
        ),
        _ => None,
    }
}

/// How a client asks, when it is time, again to join.
pub open spec fn joins_again(c: ClientView, due: bool) -> Seq<(u128, Seq<u8>)> {
    match c.broker_conn {
        Some(conn) if !c.joined && due => Seq::new(2, |i: int| (conn, join_messages(c.uuid)[i])),
        _ => Seq::empty(),
    }
}

impl Client {
    /// What is known of the other players is sound.
    pub open spec fn wf(self) -> bool {
        sound(self@)
    }

    /// A client at the place where players begin.
    pub fn new(uuid: u128) -> (r: Self)
        ensures
            r.wf(),
            r@ == (ClientView {
                uuid,
                broker_conn: None,
                joined: false,
                position: (Single { bits: SPAWN }, Single { bits: SPAWN }),
                others: Seq::empty(),
            }),
    {
        let spawn = Single::from_bits(SPAWN);
        let r = Client {
            uuid,
            broker_conn: None,
            joined: false,
            position: (spawn, spawn),
            others: VecMap::new(),
        };
        assert(r@.others =~= Seq::empty());
        r
    }

    /// The broker is connected: the client asks to join.
    pub fn connected(&mut self, conn: u128) -> (r: Vec<Packet>)
        ensures
            old(self).wf() ==> final(self).wf(),
            final(self)@ == (ClientView { broker_conn: Some(conn), ..old(self)@ }),
            sent(r@) == joins(old(self).uuid, conn),
            sent(r@) == Seq::new(2, |i: int| (conn, join_messages(old(self).uuid)[i])),
    {
        self.broker_conn = Some(conn);
        send_join(self.uuid, conn)
    }

    /// The broker is not connected any more.
    pub fn disconnected(&mut self)
        ensures
            old(self).wf() ==> final(self).wf(),
            final(self)@ == (ClientView { broker_conn: None, ..old(self)@ }),
    {
        self.broker_conn = None;
    }

    /// Asks again to join, when it is time, where that has not been done with success
    /// and the broker is connected. Some time has gone by since the last call; once
    /// the client has joined, the timer stands still.
    pub fn retry_join(&self, delta: u64, timer: &mut JoinRetryTimer) -> (r: Vec<Packet>)
        requires
            old(timer).0.wf(),
        ensures
            final(timer).0.wf(),
            final(timer).0 == if self.joined {
                old(timer).0
            } else {
                old(timer).0.later(delta)
            },
            sent(r@) == joins_again(self@, old(timer).0.fires(delta)),
            sent(r@) == match self.broker_conn {
                Some(conn) if !self.joined && old(timer).0.fires(delta) => Seq::new(
                    2,
                    |i: int| (conn, join_messages(self.uuid)[i]),
                ),
                _ => Seq::empty(),
            },
    {
        let none: Vec<Packet> = Vec::new();
        assert(sent(none@) =~= Seq::empty());
        if self.joined {
            return none;
        }
        if !timer.0.tick(delta) {
            return none;
        }
        match self.broker_conn {
            Some(conn) => send_join(self.uuid, conn),
            None => none,
        }
    }

    /// Tells the servers how the player moves, when it is time and if the broker is
    /// connected. Some time has gone by since the last call.
    pub fn send_input(
        &self,
        delta: u64,
        timer: &mut InputSendTimer,
        velocity: (Single, Single),
    ) -> (r: Option<Packet>)
        requires
            old(timer).0.wf(),
        ensures
            final(timer).0 == old(timer).0.later(delta),
            final(timer).0.wf(),
            packet_view(r) == input_sent(self@, old(timer).0.fires(delta), velocity),
            packet_view(r) == match self.broker_conn {
                Some(conn) if old(timer).0.fires(delta) => Some(
                    (
                        conn,
                        input_message(
                            self.uuid,
                            two_numbers(INPUT_MOVE, velocity.0, velocity.1),
                        ),
                    ),
                ),
                _ => None,
            },
    {
        if !timer.0.tick(delta) {
            return None;
        }
        match self.broker_conn {
            Some(conn) => Some(
                input_packet(conn, self.uuid, INPUT_MOVE, velocity.0, velocity.1),
            ),
            None => None,
        }
    }

    /// Takes notice of an entity.
    fn notice(&mut self, e: Entity, now: Single, from: (Single, Single))
        ensures
            old(self).wf() ==> final(self).wf(),
            final(self)@ == noticed(old(self)@, e, now, from),
    {
        proof {
            if self.wf() {
                lemma_noticed_sound(self@, e, now, from);
            }
        }
        if e.0 == self.uuid {
            self.joined = true;
            self.position = (e.1, e.2);
            return;
        }
        let far = Single::from_bits(AOI_FAR);
        if far.lt(e.1.minus(from.0).abs()) || far.lt(e.2.minus(from.1).abs()) {
            return;
        }
        proof {
            lemma_views(self.others.pairs(), e.0);
        }
        match self.others.get_mut(&e.0) {
            Some(p) => p.refresh(e.1, e.2, now),
            None => {
                self.others.insert(e.0, RemotePlayer::first_seen(e.1, e.2, now));
            },
        }
    }

    /// Takes notice of what a message tells. The client sees from `from`, where it
    /// was at the last frame.
    pub fn handle_message(&mut self, data: &[u8], now: Single, from: (Single, Single))
        ensures
            old(self).wf() ==> final(self).wf(),
            final(self)@ == after_broadcast(old(self)@, data@, now, from),
            final(self)@ == noticed_all(old(self)@, told(data@), now, from),
    {
        let list = read_broadcast(data);
        let ghost before = self@;
        let mut i: usize = 0;
        assert(list@.take(0) =~= Seq::empty());
        while i < list.len()
            invariant
                i <= list.len(),
                old(self).wf() ==> self.wf(),
                self@ == noticed_all(before, list@.take(i as int), now, from),
            decreases list.len() - i,
        {
            assert(list@.take(i + 1).drop_last() =~= list@.take(i as int));
            self.notice(list[i], now, from);
            i = i + 1;
        }
        assert(list@.take(i as int) =~= list@);
    }

    /// Ends a frame: forgets the players that have not been heard of for too long.
    /// They are told.
    pub fn forget_stale(&mut self, now: Single) -> (r: Vec<u128>)
        ensures
            old(self).wf() ==> final(self).wf(),
            final(self)@ == after_forgetting(old(self)@, now),
            final(self)@ == (ClientView { others: remaining(old(self)@.others, now), ..old(self)@ }),
            r@ == gone(old(self)@.others, now),
    {
        let ghost all = self@.others;
        let ghost mut seen: int = 0;
        let mut out: Vec<u128> = Vec::new();
        let mut i: usize = 0;
        proof {
            assert(all.take(0) =~= Seq::empty());
            assert(all.skip(0) =~= all);
            assert(self@.others =~= remaining(all.take(0), now) + all.skip(0));
        }
        while i < self.others.entries.len()
            invariant
                0 <= seen <= all.len(),
                i == remaining(all.take(seen), now).len(),
                self@.others == remaining(all.take(seen), now) + all.skip(seen),
                self@ == (ClientView { others: self@.others, ..old(self)@ }),
                out@ == gone(all.take(seen), now),
            decreases all.len() - seen,
        {
            let ghost before = self@.others;
            let ghost done = remaining(all.take(seen), now);
            let ghost entry = all[seen];
            proof {
                assert(before[i as int] == entry);
                assert(all.take(seen + 1).drop_last() =~= all.take(seen));
                assert(all.skip(seen).skip(1) =~= all.skip(seen + 1));
                assert(self.others.entries@[i as int].1@ == entry.1);
            }
            let age = now.minus(self.others.entries[i].1.last_seen);
            if Single::from_bits(OTHER_PLAYER_TIMEOUT).lt(age) {
                let taken = self.others.entries.remove(i);
                out.push(taken.0);
                proof {
                    assert(self@.others =~= before.remove(i as int));
                    assert(self@.others =~= done + all.skip(seen + 1));
                }
            } else {
                self.others.entries[i].1.fresh = false;
                proof {
                    let changed = (entry.0, RemoteView { fresh: false, ..entry.1 });
                    assert(self@.others =~= before.update(i as int, changed));
                    assert(self@.others =~= done.push(changed) + all.skip(seen + 1));
                }
                i = i + 1;
            }
            proof {
                seen = seen + 1;
            }
        }
        proof {
            assert(all.take(seen) =~= all);
            assert(self@.others =~= remaining(all, now));
            if old(self).wf() {
                lemma_remaining_sound(old(self)@, now);
            }
        }
        out
    }

    /// Moves the other players on as they are shown.
    pub fn interpolate_positions(&mut self, now: Single)
        ensures
            old(self).wf() ==> final(self).wf(),
            final(self)@ == after_showing(old(self)@, now),
            final(self)@ == (ClientView { others: shown(old(self)@.others, now), ..old(self)@ }),
    {
        let ghost all = self@.others;
        let mut i: usize = 0;
        while i < self.others.entries.len()
            invariant
                i <= self.others.entries.len(),
                self@ == (ClientView { others: self@.others, ..old(self)@ }),
                self@.others.len() == all.len(),
                forall|k: int| 0 <= k < i ==> #[trigger] self@.others[k] == shown(all, now)[k],
                forall|k: int| i <= k < all.len() ==> #[trigger] self@.others[k] == all[k],
            decreases self.others.entries.len() - i,
        {
            let ghost before = self@.others;
            assert(before[i as int] == all[i as int]);
            let player = &mut self.others.entries[i].1;
            player.interpolate(now);
            assert(self@.others =~= before.update(i as int, shown(all, now)[i as int]));
            i = i + 1;
        }
        proof {
            assert(self@.others =~= shown(all, now));
            if old(self).wf() {
                lemma_shown_sound(old(self)@, now);
            }
        }
    }
}

/// The other players, as they are shown.
pub open spec fn shown(others: Seq<(u128, RemoteView)>, now: Single) -> Seq<(u128, RemoteView)> {
    Seq::new(
        others.len(),
        |i: int|
            (
                others[i].0,
                RemoteView { render_pos: rendered(others[i].1, now), ..others[i].1 },
            ),
    )
}

/// The other players that have not been heard of for too long.
pub open spec fn gone(others: Seq<(u128, RemoteView)>, now: Single) -> Seq<u128>
    decreases others.len(),
{
    if others.len() == 0 {
        Seq::empty()
    } else {
        let rest = gone(others.drop_last(), now);
        if stale(others.last().1, now) {
            rest.push(others.last().0)
        } else {
            rest
        }
    }
}

/// An entity that is heard of leaves what is known sound.
proof fn lemma_noticed_sound(c: ClientView, e: Entity, now: Single, from: (Single, Single))
    requires
        sound(c),
    ensures
        sound(noticed(c, e, now, from)),
{
    if e.0 != c.uuid && !out_of_sight(e.1, e.2, from) {
        let p = match lookup(c.others, e.0) {
            Some(p) => refreshed(p, e.1, e.2, now),
            None => appeared(e.1, e.2, now),
        };
        let others = put(c.others, e.0, p);
        law_put_lookup(c.others, e.0, p, e.0);
        assert forall|uuid: u128| #[trigger] lookup(others, uuid) is Some implies {
            &&& uuid != c.uuid
            &&& 1 <= lookup(others, uuid).unwrap().snapshots.len() <= INTERP_BUFFER_SIZE
        } by {
            law_put_lookup(c.others, e.0, p, uuid);
            assert(uuid != e.0 ==> lookup(c.others, uuid) is Some);
        }
    }
}

/// What is left of sound knowledge is sound.
proof fn lemma_remaining_sound(c: ClientView, now: Single)
    requires
        sound(c),
    ensures
        sound(ClientView { others: remaining(c.others, now), ..c }),
{
    let others = remaining(c.others, now);
    law_exactly_the_stale_are_forgotten(c.others, now, c.uuid);
    assert forall|uuid: u128| #[trigger] lookup(others, uuid) is Some implies {
        &&& uuid != c.uuid
        &&& 1 <= lookup(others, uuid).unwrap().snapshots.len() <= INTERP_BUFFER_SIZE
    } by {
        law_exactly_the_stale_are_forgotten(c.others, now, uuid);
        assert(lookup(c.others, uuid) is Some);
    }
}

/// Players who are shown elsewhere are otherwise the same.
proof fn lemma_shown_sound(c: ClientView, now: Single)
    requires
        sound(c),
    ensures
        sound(ClientView { others: shown(c.others, now), ..c }),
{
    let others = shown(c.others, now);
    assert forall|a: int, b: int| 0 <= a < b < others.len() implies (#[trigger] others[a]).0 != (
    #[trigger] others[b]).0 by {
        assert(c.others[a].0 != c.others[b].0);
    }
    assert forall|uuid: u128| #[trigger] lookup(others, uuid) is Some implies {
        &&& uuid != c.uuid
        &&& 1 <= lookup(others, uuid).unwrap().snapshots.len() <= INTERP_BUFFER_SIZE
    } by {
        let n = place(c.others, uuid);
        lemma_place(c.others, uuid);
        assert forall|i: int| 0 <= i < n implies (#[trigger] others[i]).0 != uuid by {
            assert(c.others[i].0 != uuid);
        }
        lemma_place_is(others, uuid, n);
        assert(lookup(c.others, uuid) is Some);
    }
}

/// Whatever a client hears, forgets and shows, its own player does not become one
/// of the others, no player is known twice, and no more positions of one are kept
/// than there is room for.
pub proof fn law_frame_keeps_client_sound(
    c: ClientView,
    list: Seq<Entity>,
    now: Single,
    from: (Single, Single),
)
    requires
        sound(c),
    ensures
        sound(noticed_all(c, list, now, from)),
        sound(ClientView { others: remaining(c.others, now), ..c }),
        sound(ClientView { others: shown(c.others, now), ..c }),
        lookup(noticed_all(c, list, now, from).others, c.uuid) is None,
        noticed_all(c, list, now, from).uuid == c.uuid,
    decreases list.len(),
{
    lemma_remaining_sound(c, now);
    lemma_shown_sound(c, now);
    if list.len() > 0 {
        let front = list.drop_last();
        law_frame_keeps_client_sound(c, front, now, from);
        lemma_noticed_sound(noticed_all(c, front, now, from), list.last(), now, from);
    }
}

/// A client has joined once it has heard of its own player, and its player is
/// where it was last heard of.
pub proof fn law_own_player_is_followed(
    c: ClientView,
    list: Seq<Entity>,
    now: Single,
    from: (Single, Single),
)
    ensures
        noticed_all(c, list, now, from).uuid == c.uuid,
        noticed_all(c, list, now, from).broker_conn == c.broker_conn,
        forall|i: int|
            0 <= i < list.len() && (#[trigger] list[i]).0 == c.uuid && (forall|j: int|
                i < j < list.len() ==> (#[trigger] list[j]).0 != c.uuid) ==> {
                &&& noticed_all(c, list, now, from).joined
                &&& noticed_all(c, list, now, from).position == (list[i].1, list[i].2)
            },
        (forall|i: int| 0 <= i < list.len() ==> (#[trigger] list[i]).0 != c.uuid) ==> {
            &&& noticed_all(c, list, now, from).joined == c.joined
            &&& noticed_all(c, list, now, from).position == c.position
        },
    decreases list.len(),
{
    if list.len() > 0 {
        let front = list.drop_last();
        law_own_player_is_followed(c, front, now, from);
        assert forall|i: int| 0 <= i < front.len() implies #[trigger] front[i] == list[i] by {}
        assert forall|i: int|
            0 <= i < list.len() && (#[trigger] list[i]).0 == c.uuid && (forall|j: int|
                i < j < list.len() ==> (#[trigger] list[j]).0 != c.uuid) implies {
            &&& noticed_all(c, list, now, from).joined
            &&& noticed_all(c, list, now, from).position == (list[i].1, list[i].2)
        } by {
            if i < front.len() {
                assert(list[list.len() - 1].0 != c.uuid);
                assert(front[i].0 == c.uuid);
                assert forall|j: int| i < j < front.len() implies (#[trigger] front[j]).0
                    != c.uuid by {
                    assert(list[j].0 != c.uuid);
                }
            }
        }
        if forall|i: int| 0 <= i < list.len() ==> (#[trigger] list[i]).0 != c.uuid {
            assert(list[list.len() - 1].0 != c.uuid);
            assert forall|i: int| 0 <= i < front.len() implies (#[trigger] front[i]).0 != c.uuid by {
                assert(list[i].0 != c.uuid);
            }
        }
    }
}

/// An entity that counts as another player's being heard of.
pub open spec fn heard_of(c: ClientView, e: Entity, from: (Single, Single)) -> bool {
    e.0 != c.uuid && !out_of_sight(e.1, e.2, from)
}

/// A player whom a message tells of within sight was last heard of now; of every
/// other player nothing changes.
pub proof fn law_heard_players_are_current(
    c: ClientView,
    list: Seq<Entity>,
    now: Single,
    from: (Single, Single),
    uuid: u128,
)
    requires
        sound(c),
    ensures
        ({
            let after = lookup(noticed_all(c, list, now, from).others, uuid);
            if exists|i: int|
                0 <= i < list.len() && (#[trigger] list[i]).0 == uuid && heard_of(
                    c,
                    list[i],
                    from,
                ) {
                after is Some && after.unwrap().last_seen == now
            } else {
                after == lookup(c.others, uuid)
            }
        }),
    decreases list.len(),
{
    if list.len() > 0 {
        let front = list.drop_last();
        let before = noticed_all(c, front, now, from);
        let e = list[list.len() - 1];
        law_heard_players_are_current(c, front, now, from, uuid);
        law_frame_keeps_client_sound(c, front, now, from);
        assert forall|i: int| 0 <= i < front.len() implies #[trigger] front[i] == list[i] by {}
        if heard_of(c, e, from) {
            let p = match lookup(before.others, e.0) {
                Some(p) => refreshed(p, e.1, e.2, now),
                None => appeared(e.1, e.2, now),
            };
            law_put_lookup(before.others, e.0, p, uuid);
        }
        if exists|i: int|
            0 <= i < list.len() && (#[trigger] list[i]).0 == uuid && heard_of(c, list[i], from) {
            let i = choose|i: int|
                0 <= i < list.len() && (#[trigger] list[i]).0 == uuid && heard_of(c, list[i], from);
            if i < front.len() {
                assert(front[i].0 == uuid && heard_of(c, front[i], from));
            }
        } else if exists|i: int|
            0 <= i < front.len() && (#[trigger] front[i]).0 == uuid && heard_of(
                c,
                front[i],
                from,
            ) {
            let i = choose|i: int|
                0 <= i < front.len() && (#[trigger] front[i]).0 == uuid && heard_of(
                    c,
                    front[i],
                    from,
                );
            assert(list[i].0 == uuid && heard_of(c, list[i], from));
        }
    }
}

/// Exactly the players are kept that were heard of recently enough, none of them
/// fresh any more; each of the others is told once to be gone.
pub proof fn law_exactly_the_stale_are_forgotten(
    others: Seq<(u128, RemoteView)>,
    now: Single,
    uuid: u128,
)
    requires
        distinct(others),
    ensures
        distinct(remaining(others, now)),
        lookup(remaining(others, now), uuid) == match lookup(others, uuid) {
            Some(p) if !stale(p, now) => Some(RemoteView { fresh: false, ..p }),
            _ => None,
        },
        gone(others, now).contains(uuid) <==> lookup(others, uuid) is Some && stale(
            lookup(others, uuid).unwrap(),
            now,
        ),
        gone(others, now).no_duplicates(),
    decreases others.len(),
{
    if others.len() > 0 {
        let front = others.drop_last();
        let (id, p) = others[others.len() - 1];
        assert forall|i: int, j: int| 0 <= i < j < front.len() implies (#[trigger] front[i]).0 != (
        #[trigger] front[j]).0 by {
            assert(others[i].0 != others[j].0);
        }
        law_exactly_the_stale_are_forgotten(front, now, uuid);
        law_exactly_the_stale_are_forgotten(front, now, id);
        lemma_place(front, id);
        if holds_key(front, id) {
            assert(others[place(front, id)].0 != others[others.len() - 1].0);
        }
        assert(others =~= put(front, id, p));
        law_put_lookup(front, id, p, uuid);
        let rest = remaining(front, now);
        let q = RemoteView { fresh: false, ..p };
        law_put_lookup(rest, id, q, uuid);
        let told = gone(front, now);
        if stale(p, now) {
            let all = told.push(id);
            if told.contains(uuid) {
                let k = choose|k: int| 0 <= k < told.len() && told[k] == uuid;
                assert(all[k] == uuid);
            }
            assert(all[told.len() as int] == id);
        }
    }
}

/// Who has just been heard of is not forgotten.
proof fn lemma_heard_now_is_not_stale(p: RemoteView, now: Single)
    requires
        p.last_seen == now,
    ensures
        !stale(p, now),
{
    lemma_sum_exists(now, opposite(now));
    lemma_scaled_increases(0, ONE as int);
    assert(scaled(0) == 0);
}

/// At the end of a frame, exactly the other players are known that were heard of
/// within sight in that frame, or that were known and heard of recently enough
/// before.
pub proof fn law_frame_keeps_the_recent(
    c: ClientView,
    list: Seq<Entity>,
    now: Single,
    from: (Single, Single),
    uuid: u128,
)
    requires
        sound(c),
    ensures
        lookup(remaining(noticed_all(c, list, now, from).others, now), uuid) is Some <==> {
            ||| exists|i: int|
                0 <= i < list.len() && (#[trigger] list[i]).0 == uuid && heard_of(c, list[i], from)
            ||| lookup(c.others, uuid) is Some && !stale(lookup(c.others, uuid).unwrap(), now)
        },
{
    let after = noticed_all(c, list, now, from).others;
    law_frame_keeps_client_sound(c, list, now, from);
    law_heard_players_are_current(c, list, now, from, uuid);
    law_exactly_the_stale_are_forgotten(after, now, uuid);
    if lookup(after, uuid) is Some && lookup(after, uuid).unwrap().last_seen == now {
        lemma_heard_now_is_not_stale(lookup(after, uuid).unwrap(), now);
    }
}

/// The messages of a frame tell together what they tell one after the other.
pub proof fn law_messages_add_up(
    c: ClientView,
    first: Seq<Entity>,
    second: Seq<Entity>,
    now: Single,
    from: (Single, Single),
)
    ensures
        noticed_all(noticed_all(c, first, now, from), second, now, from) == noticed_all(
            c,
            first + second,
            now,
            from,
        ),
    decreases second.len(),
{
    if second.len() == 0 {
        assert(first + second =~= first);
    } else {
        law_messages_add_up(c, first, second.drop_last(), now, from);
        assert((first + second).drop_last() =~= first + second.drop_last());
    }
}

/// After a jump the positions begin anew, with the one jumped to, where the player
/// is shown at once, and stays shown until there is a further position.
pub proof fn law_jump_starts_anew(p: RemoteView, x: Single, y: Single, now: Single, later: Single)
    requires
        !p.fresh,
        p.snapshots.len() > 0,
        jumped(p.snapshots.last(), x, y),
    ensures
        refreshed(p, x, y, now).snapshots == seq![Snapshot { t: now, x, y }],
        refreshed(p, x, y, now).render_pos == (x, y),
        rendered(refreshed(p, x, y, now), later) == (x, y),
{
    assert(refreshed(p, x, y, now).snapshots =~= seq![Snapshot { t: now, x, y }]);
}

/// Of another player no more positions are kept than there is room for.
pub proof fn law_snapshots_are_few(p: RemoteView, x: Single, y: Single, now: Single)
    requires
        p.snapshots.len() <= INTERP_BUFFER_SIZE,
    ensures
        0 < refreshed(p, x, y, now).snapshots.len() <= INTERP_BUFFER_SIZE || p.fresh,
        refreshed(p, x, y, now).snapshots.len() <= INTERP_BUFFER_SIZE,
        appeared(x, y, now).snapshots.len() == 1,
        !p.fresh ==> refreshed(p, x, y, now).snapshots.last() == (Snapshot { t: now, x, y }),
{
}

/// The 24 bytes of an entity.
spec fn entity_bytes(e: Entity) -> Seq<u8> {
    id_bytes(e.0) + le32(e.1.bits) + le32(e.2.bits)
}

/// Each entity has its own 24 bytes.
proof fn lemma_entities_bytes(list: Seq<Entity>)
    ensures
        entities_bytes(list).len() == 24 * list.len(),
        forall|i: int|
            0 <= i < list.len() ==> entities_bytes(list).subrange(24 * i, 24 * i + 24)
                == entity_bytes(#[trigger] list[i]),
    decreases list.len(),
{
    if list.len() > 0 {
        let front = list.drop_last();
        let last = list[list.len() - 1];
        lemma_entities_bytes(front);
        lemma_id_bytes(last.0);
        let all = entities_bytes(list);
        assert forall|i: int| 0 <= i < list.len() implies all.subrange(24 * i, 24 * i + 24)
            == entity_bytes(#[trigger] list[i]) by {
            if i < front.len() {
                assert(front[i] == list[i]);
                assert(all.subrange(24 * i, 24 * i + 24) =~= entities_bytes(front).subrange(
                    24 * i,
                    24 * i + 24,
                ));
            } else {
                assert(all.subrange(24 * i, 24 * i + 24) =~= entity_bytes(last));
            }
        }
    }
}

/// What a server publishes of its entities, a client reads, when the broker has
/// broadcast it, as long as it fits a message.
#[verifier::spinoff_prover]
pub proof fn law_published_state_is_read(list: Seq<Entity>)
    requires
        state_payload(list).len() <= 0xffff,
    ensures
        told(broadcast_message(state_payload(list))) == list,
{
    let payload = state_payload(list);
    let data = broadcast_message(payload);
    lemma_entities_bytes(list);
    assert(payload.len() == 2 + 24 * list.len());
    let length = payload.len() as u16;
    assert(data.subrange(1, 3) =~= le16(length));
    lemma_u16_at(data, 1, length);
    assert(data.subrange(3, 3 + length) =~= payload);
    assert(broadcast_payload(data) == Some(payload));
    let n = list.len() as u16;
    assert(payload.subrange(0, 2) =~= le16(n));
    lemma_u16_at(payload, 0, n);
    assert forall|i: int| 0 <= i < list.len() implies entity_at(payload, i)
        == #[trigger] list[i] by {
        let at = 2 + 24 * i;
        let e = list[i];
        let part = entities_bytes(list).subrange(24 * i, 24 * i + 24);
        lemma_id_bytes(e.0);
        assert(payload.subrange(at, at + 24) =~= part);
        assert(payload.subrange(at, at + 16) =~= part.subrange(0, 16));
        assert(part.subrange(0, 16) =~= id_bytes(e.0));
        lemma_id_at(payload, at, e.0);
        assert(payload.subrange(at + 16, at + 20) =~= part.subrange(16, 20));
        assert(part.subrange(16, 20) =~= le32(e.1.bits));
        lemma_u32_at(payload, at + 16, e.1.bits);
        assert(payload.subrange(at + 20, at + 24) =~= part.subrange(20, 24));
        assert(part.subrange(20, 24) =~= le32(e.2.bits));
        lemma_u32_at(payload, at + 20, e.2.bits);
    }
    assert(told(data) =~= list);
}

/// A rounded square root exceeds the snap threshold where the number exceeds its
/// square: a player has jumped where its rounded distance from its last position
/// exceeds the threshold.
pub proof fn law_snap_is_by_distance(square: Single, root: Single)
    requires
        is_root(square, root),
    ensures
        below(Single { bits: SNAP_THRESHOLD }, root) <==> below(
            Single { bits: SNAP_SQUARE },
            square,
        ),
{
    let m = root.magnitude();
    let bound = SNAP_THRESHOLD as int;
    let square_bound = SNAP_SQUARE as int;
    let u = pow2(134) as int;
    lemma_pow2_pos(134);
    lemma_scaled_at(134, 0xc8_0000);
    lemma_scaled_at(134, 0xc8_0001);
    lemma_scaled_at(143, 0x9c_4000);
    lemma_scaled_at(143, 0x9c_4001);
    lemma_pow2_adds(134, 134);
    lemma_pow2_adds(143, 149);
    lemma_pow2_adds(268, 24);
    vstd::arithmetic::power2::lemma2_to64();
    assert(scaled(0) == 0);
    lemma_scaled_increases(0, bound);
    lemma_scaled_increases(0, square_bound);
    lemma_scaled_increases(bound, INFINITE as int);
    lemma_scaled_increases(square_bound, INFINITE as int);
    if square.finite() && !square.negative() && square.magnitude() > 0 {
        let v = scaled(square.magnitude());
        let four = 4 * (v * pow2(149));
        if square.magnitude() <= square_bound {
            if square.magnitude() < square_bound {
                lemma_scaled_increases(square.magnitude(), square_bound);
            }
            if m > bound {
                lemma_scaled_increases(bound, m);
                let x = scaled(bound);
                let y = scaled(m);
                let both = x + y;
                assert(four <= 4 * (x * x)) by (nonlinear_arith)
                    requires
                        four == 4 * (v * pow2(149)),
                        v <= 0x9c_4000 * pow2(143),
                        pow2(292) == pow2(143) * pow2(149),
                        pow2(292) == pow2(268) * 0x100_0000,
                        pow2(268) == u * u,
                        x == 0xc8_0000 * u,
                ;
                assert(both * both > 4 * (x * x)) by (nonlinear_arith)
                    requires
                        both == x + y,
                        0 < x < y,
                ;
                assert(false);
            }
            if m < bound {
                lemma_scaled_increases(m, bound);
            }
        } else {
            if square.magnitude() > square_bound + 1 {
                lemma_scaled_increases(square_bound + 1, square.magnitude());
            }
            if m <= bound {
                if m < bound {
                    lemma_scaled_increases(m, bound);
                }
                let x = scaled(m);
                let y = scaled(bound + 1);
                lemma_scaled_increases(0, bound + 1);
                if m > 0 {
                    lemma_scaled_increases(0, m);
                }
                let both = y + x;
                assert(both * both <= (0x190_0001 * u) * (0x190_0001 * u)) by (nonlinear_arith)
                    requires
                        both == y + x,
                        0 <= x <= 0xc8_0000 * u,
                        y == 0xc8_0001 * u,
                        u > 0,
                ;
                assert(four >= 0x271_0004 * (0x100_0000 * (u * u))) by (nonlinear_arith)
                    requires
                        four == 4 * (v * pow2(149)),
                        v >= 0x9c_4001 * pow2(143),
                        pow2(292) == pow2(143) * pow2(149),
                        pow2(292) == pow2(268) * 0x100_0000,
                        pow2(268) == u * u,
                ;
                assert((0x190_0001 * u) * (0x190_0001 * u) < 0x271_0004 * (0x100_0000 * (u * u)))
                    by (nonlinear_arith)
                    requires
                        u > 0,
                ;
                assert(false);
            }
            lemma_scaled_increases(bound, m);
            lemma_scaled_increases(square_bound, square.magnitude());
        }
    }
}

/// A position is in sight where it is within 350 of the client along both axes,
/// and out of sight where it is farther, as far as single-precision numbers
/// tell, along either; both axes count the same.
pub proof fn law_sight_is_a_square(x: Single, y: Single, from: (Single, Single))
    requires
        x.finite(),
        y.finite(),
        from.0.finite(),
        from.1.finite(),
    ensures
        ({
            let bound = (Single { bits: 0x43af_0000 }).value();
            let beyond = (Single { bits: 0x43af_0001 }).value();
            let dx = distance(x.value(), from.0.value());
            let dy = distance(y.value(), from.1.value());
            &&& dx <= bound && dy <= bound ==> !out_of_sight(x, y, from)
            &&& dx >= beyond || dy >= beyond ==> out_of_sight(x, y, from)
            &&& out_of_sight(x, y, from) <==> out_of_sight(y, x, (from.1, from.0))
        }),
{
    let far = Single { bits: 0x43af_0000 };
    let next = Single { bits: 0x43af_0001 };
    law_difference_is_by_distance(x, from.0, far);
    law_difference_is_by_distance(y, from.1, far);
    law_difference_is_by_distance(x, from.0, next);
    law_difference_is_by_distance(y, from.1, next);
    lemma_farther(difference(x, from.0), AOI_FAR);
    lemma_farther(difference(y, from.1), AOI_FAR);
}

/// A number is farther from zero than another exactly where its magnitude is greater.
proof fn lemma_farther(a: Single, bits: u32)
    requires
        !a.nan(),
        0 < bits < INFINITE,
    ensures
        below(Single { bits }, absolute(a)) <==> a.magnitude() > bits,
        below(Single { bits }, a) <==> a.magnitude() > bits && !a.negative(),
{
    let m = a.magnitude();
    assert(scaled(0) == 0);
    lemma_scaled_increases(0, bits as int);
    if m > bits {
        lemma_scaled_increases(bits as int, m);
    } else if m < bits {
        lemma_scaled_increases(m, bits as int);
    }
    if m > 0 {
        lemma_scaled_increases(0, m);
    }
}

/// A player is forgotten where it was last heard of more than a second ago, as
/// far as single-precision numbers tell, and not where it was a second ago or
/// less, or not in the past.
pub proof fn law_forgotten_after_a_second(p: RemoteView, now: Single)
    requires
        now.finite(),
        p.last_seen.finite(),
    ensures
        now.value() - p.last_seen.value() <= (Single { bits: 0x3f80_0000 }).value() ==> !stale(
            p,
            now,
        ),
        now.value() - p.last_seen.value() >= (Single { bits: 0x3f80_0001 }).value() ==> stale(p, now),
{
    let one = Single { bits: 0x3f80_0000 };
    let next = Single { bits: 0x3f80_0001 };
    law_difference_is_by_distance(now, p.last_seen, one);
    law_difference_is_by_distance(now, p.last_seen, next);
    lemma_farther(difference(now, p.last_seen), OTHER_PLAYER_TIMEOUT);
    assert(scaled(0) == 0);
    lemma_scaled_increases(0, 0x3f80_0000);
    lemma_scaled_increases(0, 0x3f80_0001);
}

/// What a client makes of an entity that it hears of: its own player is there
/// from then on, and it has joined; another player within sight who was not
/// known is at that position alone, and is shown there; one who was known has
/// it as its latest position, unless it was first heard of in this frame; and
/// one out of sight changes nothing. No other player changes.
pub proof fn law_heard_entity_is_where_told(
    c: ClientView,
    e: Entity,
    now: Single,
    from: (Single, Single),
    other: u128,
)
    requires
        sound(c),
    ensures
        ({
            let after = noticed(c, e, now, from);
            let seen = lookup(after.others, e.0);
            let before = lookup(c.others, e.0);
            let here = Snapshot { t: now, x: e.1, y: e.2 };
            &&& after.uuid == c.uuid && after.broker_conn == c.broker_conn
            &&& other != e.0 ==> lookup(after.others, other) == lookup(c.others, other)
            &&& e.0 == c.uuid ==> after.joined && after.position == (e.1, e.2) && after.others
                == c.others
            &&& e.0 != c.uuid ==> after.joined == c.joined && after.position == c.position
            &&& e.0 != c.uuid && out_of_sight(e.1, e.2, from) ==> after == c
            &&& heard_of(c, e, from) && before is None ==> seen == Some(
                RemoteView {
                    last_seen: now,
                    fresh: true,
                    snapshots: seq![here],
                    render_pos: (e.1, e.2),
                },
            )
            &&& heard_of(c, e, from) && before is Some && !before.unwrap().fresh ==> seen is Some
                && seen.unwrap().snapshots.last() == here && seen.unwrap().last_seen == now
            &&& heard_of(c, e, from) && before is Some && before.unwrap().fresh ==> seen == Some(
                RemoteView { last_seen: now, ..before.unwrap() },
            )
        }),
{
    if heard_of(c, e, from) {
        let p = match lookup(c.others, e.0) {
            Some(p) => refreshed(p, e.1, e.2, now),
            None => appeared(e.1, e.2, now),
        };
        law_put_lookup(c.others, e.0, p, other);
    }
}

/// As long as a player does not jump, its latest positions are kept in order,
/// the oldest going where there is no room, and the player stays shown where it
/// is.
pub proof fn law_latest_positions_are_kept(p: RemoteView, x: Single, y: Single, now: Single)
    requires
        !p.fresh,
        0 < p.snapshots.len() <= 3,
        !jumped(p.snapshots.last(), x, y),
    ensures
        ({
            let after = refreshed(p, x, y, now);
            let old = if p.snapshots.len() == 3 {
                seq![p.snapshots[1], p.snapshots[2]]
            } else {
                p.snapshots
            };
            &&& after.snapshots == old.push(Snapshot { t: now, x, y })
            &&& after.render_pos == p.render_pos
            &&& after.last_seen == now
            &&& !after.fresh
        }),
{
    let after = refreshed(p, x, y, now);
    let old = if p.snapshots.len() == 3 {
        seq![p.snapshots[1], p.snapshots[2]]
    } else {
        p.snapshots
    };
    assert(after.snapshots =~= old.push(Snapshot { t: now, x, y }));
}

/// A jump is one along either axis: a player has jumped where the square of its
/// move along one axis alone exceeds that of 400, has not where neither square
/// exceeds half of that, and both axes count the same.
pub proof fn law_jump_is_along_either_axis(a: Snapshot, x: Single, y: Single)
    requires
        x.finite(),
        y.finite(),
        a.x.finite(),
        a.y.finite(),
    ensures
        ({
            let dx = difference(x, a.x);
            let dy = difference(y, a.y);
            let square = Single { bits: 0x481c_4000 };
            let half = Single { bits: 0x479c_4000 };
            &&& below(square, product(dx, dx)) || below(square, product(dy, dy)) ==> jumped(a, x, y)
            &&& at_most(product(dx, dx), half) && at_most(product(dy, dy), half) ==> !jumped(a, x, y)
            &&& jumped(a, x, y) <==> jumped(Snapshot { t: a.t, x: a.y, y: a.x }, y, x)
        }),
{
    let dx = difference(x, a.x);
    let dy = difference(y, a.y);
    let zero = Single { bits: 0 };
    let half = Single { bits: 0x479c_4000 };
    let square = Single { bits: 0x481c_4000 };
    law_difference_is_by_distance(x, a.x, zero);
    law_difference_is_by_distance(y, a.y, zero);
    let p = product(dx, dx);
    let q = product(dy, dy);
    lemma_square_is_positive(dx);
    lemma_square_is_positive(dy);
    law_sum_is_commutative(p, q);
    lemma_sum_grows(p, q);
    lemma_sum_grows(q, p);
    if at_most(p, half) && at_most(q, half) {
        lemma_scaled_at(142, 0x9c_4000);
        lemma_scaled_at(143, 0x9c_4000);
        lemma_pow2_adds(142, 1);
        lemma_pow2_pos(142);
        vstd::arithmetic::power2::lemma2_to64();
        assert(half.value() == 0x9c_4000 * pow2(142));
        assert(square.value() == 0x9c_4000 * pow2(143));
        lemma_sum_exact(half, half, square);
        lemma_small_is_finite(p, half);
        lemma_small_is_finite(q, half);
        lemma_sum_is_number(p, q);
        lemma_sum_is_number(p, half);
        lemma_sum_is_number(half, p);
        lemma_sum_is_number(half, half);
        lemma_sum_ordered(p, q, half);
        law_sum_is_commutative(p, half);
        lemma_sum_ordered(half, p, half);
    }
}

/// What is no greater than a finite number, and not negative, is finite.
proof fn lemma_small_is_finite(a: Single, b: Single)
    requires
        !a.negative(),
        b.finite(),
        !b.negative(),
        at_most(a, b),
    ensures
        a.finite(),
{
    if a.magnitude() > b.magnitude() {
        lemma_scaled_increases(b.magnitude(), a.magnitude());
    }
}

proof fn lemma_square_is_positive(d: Single)
    requires
        !d.nan(),
    ensures
        !product(d, d).nan(),
        !product(d, d).negative(),
{
    lemma_product_exists(d, d);
}

/// A sum of numbers that are not negative is no smaller than either.
proof fn lemma_sum_grows(a: Single, b: Single)
    requires
        !a.nan(),
        !b.nan(),
        !a.negative(),
        !b.negative(),
    ensures
        at_most(a, sum(a, b)),
{
    let zero = Single { bits: 0 };
    assert(scaled(0) == 0);
    if b.magnitude() > 0 {
        lemma_scaled_increases(0, b.magnitude());
    }
    lemma_sum_exists(a, b);
    lemma_sum_exists(a, zero);
    if a.finite() {
        lemma_sum_with_zero(a, zero);
        lemma_sum_is_number(a, b);
        lemma_sum_is_number(a, zero);
        lemma_sum_ordered(a, zero, b);
    }
}

/// Where a player is shown: with two positions or more, it is where it was some
/// time ago, which is the time between the last two; before the oldest position
/// it is shown there; between two positions it is as far along the straight
/// line as that time is between theirs; and else it stays where it is shown.
pub proof fn law_player_is_shown_on_its_way(p: RemoteView, now: Single, i: int)
    ensures
        ({
            let s = p.snapshots;
            let n = s.len() as int;
            let time = difference(now, difference(s[n - 1].t, s[n - 2].t));
            let first = 0 <= i < n - 1 && encloses(s, i, time) && forall|j: int|
                0 <= j < i ==> !(#[trigger] encloses(s, j, time));
            let span = difference(s[i + 1].t, s[i].t);
            let f = quotient(difference(time, s[i].t), span);
            let zero = Single { bits: 0 };
            let one = Single { bits: 0x3f80_0000 };
            &&& n < 2 ==> rendered(p, now) == p.render_pos
            &&& n >= 2 && at_most(time, s[0].t) ==> rendered(p, now) == (s[0].x, s[0].y)
            &&& n >= 2 && !at_most(time, s[0].t) && (forall|j: int|
                0 <= j < n - 1 ==> !(#[trigger] encloses(s, j, time))) ==> rendered(p, now)
                == p.render_pos
            &&& n >= 2 && !at_most(time, s[0].t) && first && below(zero, span) && at_most(zero, f)
                && at_most(f, one) ==> rendered(p, now) == (
                sum(s[i].x, product(difference(s[i + 1].x, s[i].x), f)),
                sum(s[i].y, product(difference(s[i + 1].y, s[i].y), f)),
            )
        }),
{
    let s = p.snapshots;
    let n = s.len() as int;
    if n >= 2 {
        let time = difference(now, difference(s[n - 1].t, s[n - 2].t));
        lemma_bracket(s, time, 0, i);
    }
}

/// Two neighbouring positions enclose a time.
pub open spec fn encloses(s: Seq<Snapshot>, i: int, time: Single) -> bool {
    at_most(s[i].t, time) && at_most(time, s[i + 1].t)
}

proof fn lemma_bracket(s: Seq<Snapshot>, time: Single, from: int, i: int)
    requires
        0 <= from,
    ensures
        from <= i < s.len() - 1 && encloses(s, i, time) && (forall|j: int|
            from <= j < i ==> !(#[trigger] encloses(s, j, time))) ==> bracket(s, time, from) == Some(i),
        (forall|j: int| from <= j < s.len() - 1 ==> !(#[trigger] encloses(s, j, time))) ==> bracket(
            s,
            time,
            from,
        ) is None,
    decreases s.len() - from,
{
    if from + 1 < s.len() {
        lemma_bracket(s, time, from + 1, i);
        assert(encloses(s, from, time) <==> at_most(s[from].t, time) && at_most(
            time,
            s[from + 1].t,
        ));
    }
}

/// A player with its axes exchanged.
pub open spec fn turned(p: RemoteView) -> RemoteView {
    RemoteView {
        snapshots: Seq::new(
            p.snapshots.len(),
            |i: int|
                Snapshot { t: p.snapshots[i].t, x: p.snapshots[i].y, y: p.snapshots[i].x },
        ),
        render_pos: (p.render_pos.1, p.render_pos.0),
        ..p
    }
}

/// Both axes are shown alike: with the axes of its positions exchanged, a
/// player is shown with the axes exchanged.
pub proof fn law_axes_are_shown_alike(p: RemoteView, now: Single)
    ensures
        rendered(turned(p), now) == (rendered(p, now).1, rendered(p, now).0),
{
    let s = p.snapshots;
    let r = turned(p).snapshots;
    let n = s.len() as int;
    if n >= 2 {
        assert(r[n - 1].t == s[n - 1].t && r[n - 2].t == s[n - 2].t && r[0].t == s[0].t);
        let time = difference(now, difference(s[n - 1].t, s[n - 2].t));
        lemma_bracket_turned(s, r, time, 0);
    }
}

proof fn lemma_bracket_turned(s: Seq<Snapshot>, r: Seq<Snapshot>, time: Single, from: int)
    requires
        0 <= from,
        s.len() == r.len(),
        forall|i: int| 0 <= i < s.len() ==> (#[trigger] r[i]).t == s[i].t,
    ensures
        bracket(s, time, from) == bracket(r, time, from),
        bracket(s, time, from) matches Some(i) ==> from <= i < s.len() - 1,
    decreases s.len() - from,
{
    if from + 1 < s.len() {
        assert(r[from].t == s[from].t && r[from + 1].t == s[from + 1].t);
        lemma_bracket_turned(s, r, time, from + 1);
    }
}

/// A player who stands still is shown where it stands: any finite part of the
/// way from a number to the same number is that number.
pub proof fn law_standing_player_is_shown_in_place(x: Single, f: Single)
    requires
        x.finite(),
        f.finite(),
    ensures
        between(x, x, f).value() == x.value(),
{
    let zero = Single { bits: 0 };
    law_difference_is_by_distance(x, x, zero);
    assert(scaled(0) == 0);
    lemma_nothing_added(x, difference(x, x), f);
}

/// The player moves along an axis, as asked, forth, back or not at all: at 200
/// where it moves along one axis, and at the same speed along both where it
/// moves along both. Keys for opposite directions cancel out, and exchanging
/// opposite keys turns the motion round.
pub proof fn law_keys_move_the_player(left: bool, right: bool, up: bool, down: bool)
    ensures
        ({
            let (x, y) = asked_velocity(left, right, up, down);
            let (back_x, back_y) = asked_velocity(right, left, down, up);
            let full = 0x4348_0000int;
            &&& x.magnitude() == 0 <==> left == right
            &&& y.magnitude() == 0 <==> up == down
            &&& right && !left ==> !x.negative()
            &&& left && !right ==> x.negative()
            &&& up && !down ==> !y.negative()
            &&& down && !up ==> y.negative()
            &&& left != right && up == down ==> x.magnitude() == full
            &&& left == right && up != down ==> y.magnitude() == full
            &&& left != right && up != down ==> x.magnitude() == y.magnitude() == 0x430d_6bde
            &&& back_x.magnitude() == x.magnitude() && back_y.magnitude() == y.magnitude()
            &&& left != right ==> back_x.negative() != x.negative()
            &&& up != down ==> back_y.negative() != y.negative()
        }),
{
}

/// A client moves its own player as a server does.
pub proof fn law_client_moves_as_the_server(p: PlayerView, dt: Single)
    ensures
        moved_on((p.pos_x, p.pos_y), (p.vel_x, p.vel_y), dt) == (
            moved(p, dt).pos_x,
            moved(p, dt).pos_y,
        ),
        moved_on((p.pos_x, p.pos_y), (p.vel_x, p.vel_y), dt) == (
            sum(p.pos_x, product(p.vel_x, dt)),
            sum(p.pos_y, product(p.vel_y, dt)),
        ),
{
}

/// A new client asks to join the shard that owns the place where players begin,
/// and says that it begins there: it subscribes to that shard's topic, and the
/// servers hear a JOIN at (250, 250).
pub proof fn law_client_asks_for_its_shard(uuid: u128)
    ensures
        join_messages(uuid).len() == 2,
        join_messages(uuid)[0] == subscription_message(true, uuid, near_label(0)),
        join_messages(uuid)[1] == input_message(
            uuid,
            seq![0x01u8] + le32(0x437a_0000) + le32(0x437a_0000) + Seq::new(7, |i: int| 0u8),
        ),
        grid_shard(Single { bits: 0x437a_0000 }, Single { bits: 0x437a_0000 }) == Some(0u32),
{
    assert(scaled(0) == 0);
    lemma_scaled_increases(0, 0x437a_0000);
    lemma_scaled_increases(0x437a_0000, 0x43fa_0000);
    lemma_scaled_increases(0x437a_0000, 0x447a_0000);
}

/// A client tells its velocity, when it is time, on its connection to the
/// broker, as its own MOVE; and it asks again to join exactly until it has
/// joined.
pub proof fn law_client_speaks_in_time(c: ClientView, due: bool, velocity: (Single, Single))
    ensures
        input_sent(c, due, velocity) is Some <==> due && c.broker_conn is Some,
        input_sent(c, due, velocity) matches Some((to, data)) ==> c.broker_conn == Some(to) && data
            == input_message(
            c.uuid,
            seq![0x02u8] + le32(velocity.0.bits) + le32(velocity.1.bits) + Seq::new(7, |i: int| 0u8),
        ),
        joins_again(c, due).len() == (if due && !c.joined && c.broker_conn is Some {
            2nat
        } else {
            0
        }),
        forall|k: int|
            0 <= k < joins_again(c, due).len() ==> (#[trigger] joins_again(c, due)[k])
                == (c.broker_conn.unwrap(), join_messages(c.uuid)[k]),
{
}

/// A broadcast that is cut off, is too short, or is no broadcast, tells of nothing.
pub proof fn law_cut_off_broadcast_tells_nothing(data: Seq<u8>)
    requires
        data.len() < 5 || data[0] != 0x04 || data.len() < 3 + u16_at(data, 1) || u16_at(data, 1) < 2,
    ensures
        told(data).len() == 0,
{
}

/// What a server published, and the broker broadcast, a client takes notice of,
/// entity by entity, as it was published.
pub proof fn law_published_state_is_taken_in(
    c: ClientView,
    list: Seq<Entity>,
    e: Entity,
    now: Single,
    from: (Single, Single),
)
    requires
        state_payload(list).len() <= 0xffff,
    ensures
        after_broadcast(c, broadcast_message(state_payload(list)), now, from) == noticed_all(
            c,
            list,
            now,
            from,
        ),
        noticed_all(c, Seq::empty(), now, from) == c,
        noticed_all(c, seq![e], now, from) == noticed(c, e, now, from),
        noticed_all(c, list.push(e), now, from) == noticed(
            noticed_all(c, list, now, from),
            e,
            now,
            from,
        ),
{
    law_published_state_is_read(list);
    assert(seq![e].drop_last() =~= Seq::empty());
    assert(list.push(e).drop_last() =~= list);
    assert(noticed_all(c, seq![e].drop_last(), now, from) == c);
}

/// At the end of a frame a client has forgotten exactly the players that it has
/// not heard of for too long, and nothing else of what it knows has changed,
/// but that nobody is fresh.
pub proof fn law_frame_end_forgets_the_stale(c: ClientView, now: Single, uuid: u128)
    requires
        sound(c),
    ensures
        ({
            let after = after_forgetting(c, now);
            &&& after.uuid == c.uuid && after.broker_conn == c.broker_conn
            &&& after.joined == c.joined && after.position == c.position
            &&& lookup(after.others, uuid) == match lookup(c.others, uuid) {
                Some(p) if !stale(p, now) => Some(RemoteView { fresh: false, ..p }),
                _ => None,
            }
        }),
{
    law_exactly_the_stale_are_forgotten(c.others, now, uuid);
}

/// Moving the other players on as they are shown changes only where each of
/// them is shown.
pub proof fn law_showing_changes_only_what_is_shown(c: ClientView, now: Single, i: int)
    requires
        0 <= i < c.others.len(),
    ensures
        ({
            let after = after_showing(c, now);
            let p = c.others[i].1;
            &&& after.uuid == c.uuid && after.broker_conn == c.broker_conn
            &&& after.joined == c.joined && after.position == c.position
            &&& after.others.len() == c.others.len()
            &&& after.others[i] == (
                c.others[i].0,
                RemoteView {
                    last_seen: p.last_seen,
                    fresh: p.fresh,
                    snapshots: p.snapshots,
                    render_pos: rendered(p, now),
                },
            )
        }),
{
}

/// A player is drawn in the quadrant that its position is in, or nearest to: in
/// the right column from 500 on, and in the upper row from 500 on.
pub proof fn law_shard_is_drawn_by_halves(x: Single, y: Single)
    ensures
        ({
            let half = Single { bits: 0x43fa_0000 };
            &&& drawn_shard(x, y) <= 3
            &&& drawn_shard(x, y) % 2 == 1 <==> !x.nan() && x.value() >= half.value()
            &&& drawn_shard(x, y) / 2 == 1 <==> !y.nan() && y.value() >= half.value()
        }),
{
}

/// Where two positions have one time, or times in the wrong order, a player
/// between them is shown all the way along.
pub proof fn law_positions_of_one_time(a: Single, b: Single, time: Single)
    ensures
        !below(Single { bits: 0 }, difference(b, a)) ==> fraction(a, b, time) == (Single {
            bits: 0x3f80_0000,
        }),
{
    assert(scaled(0) == 0);
    lemma_scaled_increases(0, 0x3f80_0000);
}

/// A player who was let in is read as having the identifier that it was given;
/// one who was refused, why.
pub proof fn law_login_is_read_as_answered(
    id: String,
    error: Option<String>,
    uuid: u128,
    r: Result<u128, LoginError>,
)
    ensures
        read_back(id@) && id@ == uuid_text(uuid) && read_as(Some(id), error, r) ==> r == Ok::<
            u128,
            LoginError,
        >(uuid),
        parsed_uuid(id@) is None && read_as(Some(id), error, r) ==> r is Err && r->Err_0 is NoUuid,
        error is Some && read_as(None, error, r) ==> (r matches Err(LoginError::Refused(why)) && why@
            == error.unwrap()@),
        error is None && read_as(None, error, r) ==> (r matches Err(LoginError::Refused(why)) && why@
            == "unknown error"@),
{
}

/// A client asks to join with two messages, the subscription first, on its
/// connection; and it asks so when it is connected and when it asks again.
pub proof fn law_client_asks_to_join(c: ClientView, conn: u128)
    ensures
        joins(c.uuid, conn) == seq![
            (conn, subscription_message(true, c.uuid, near_label(0))),
            (
                conn,
                input_message(
                    c.uuid,
                    two_numbers(INPUT_JOIN, Single { bits: 0x437a_0000 }, Single { bits: 0x437a_0000 }),
                ),
            ),
        ],
        c.broker_conn == Some(conn) && !c.joined ==> joins_again(c, true) == joins(c.uuid, conn),
{
    assert(joins(c.uuid, conn) =~= seq![
        (conn, subscription_message(true, c.uuid, near_label(0))),
        (
            conn,
            input_message(
                c.uuid,
                two_numbers(INPUT_JOIN, Single { bits: 0x437a_0000 }, Single { bits: 0x437a_0000 }),
            ),
        ),
    ]);
}

/// A position that is infinitely far along an axis is out of sight; a
/// coordinate that is no number puts nothing out of sight.
pub proof fn law_sight_of_other_numbers(x: Single, y: Single, from: (Single, Single))
    requires
        from.0.finite(),
        from.1.finite(),
    ensures
        x.infinite() || y.infinite() ==> out_of_sight(x, y, from),
        x.nan() && y.nan() ==> !out_of_sight(x, y, from),
        x.nan() && y.finite() && distance(y.value(), from.1.value()) <= (Single {
            bits: 0x43af_0000,
        }).value() ==> !out_of_sight(x, y, from),
        y.nan() && x.finite() && distance(x.value(), from.0.value()) <= (Single {
            bits: 0x43af_0000,
        }).value() ==> !out_of_sight(x, y, from),
{
    let far = Single { bits: 0x43af_0000 };
    lemma_sum_exists(x, opposite(from.0));
    lemma_sum_exists(y, opposite(from.1));
    if x.infinite() {
        lemma_farther(difference(x, from.0), AOI_FAR);
    }
    if y.infinite() {
        lemma_farther(difference(y, from.1), AOI_FAR);
    }
    if y.finite() {
        law_difference_is_by_distance(y, from.1, far);
        lemma_farther(difference(y, from.1), AOI_FAR);
    }
    if x.finite() {
        law_difference_is_by_distance(x, from.0, far);
        lemma_farther(difference(x, from.0), AOI_FAR);
    }
}

} // verus!
