//! What one service writes, another reads.

use crate::broker::{
    broadcast_message, fan_out, input_message, law_fan_out_reaches_the_connected,
    law_one_subscription_changes, leave_message, lemma_holds_entry, BrokerState,
};
use crate::client::{law_published_state_is_read, told, two_numbers};
use crate::outside::{read_back, uuid_text};
use crate::quad_tree::grid_shard;
use crate::resources::{is_first, new_player, PlayerView};
use crate::server::{
    after_input, entities_of, heard, law_entities_are_visible, law_leave_removes_the_player,
    law_move_sets_the_velocity, position_message, publish_message, route_message, state_payload,
    values, Entity, Incoming,
};
use crate::single::Single;
use crate::spatial::{alert_message, near_label, reported_position, subscription_message};
use crate::vec_map::{holds_key, lemma_place, place, put};
use crate::wire::{
    id_at, id_bytes, le16, le32, lemma_id_at, lemma_id_bytes, lemma_u16_at, lemma_u32_at, topic_of,
    u16_at, u32_at, INPUT_JOIN, INPUT_LEAVE, INPUT_MOVE, TAG_CLIENT_INPUT, TAG_CROSSING_ALERT,
    TAG_POSITION_UPDATE, TAG_PUBLISH, TAG_ROUTE_TO_SHARD, TAG_SUBSCRIBE, TAG_UNSUBSCRIBE,
};
use vstd::prelude::*;

verus! {

/// What a server publishes, the broker takes as a publication of the same payload
/// under the same topic.
pub proof fn law_broker_takes_publication(
    state: BrokerState,
    after: BrokerState,
    packets: Seq<(u128, Seq<u8>)>,
    conn: u128,
    topic: Seq<u8>,
    payload: Seq<u8>,
)
    requires
        topic.len() == 32,
        payload.len() <= 0xffff,
    ensures
        state.handled(after, packets, conn, publish_message(topic, payload)) <==> state.published(
            after,
            packets,
            conn,
            topic,
            payload,
        ),
{
    let data = publish_message(topic, payload);
    let body = data.skip(1);
    let length = payload.len() as u16;
    assert(data[0] == TAG_PUBLISH);
    assert(body.take(32) =~= topic);
    assert(body.subrange(32, 34) =~= le16(length));
    lemma_u16_at(body, 32, length);
    assert(body.subrange(34, 34 + length) =~= payload);
}

/// What a server sends to a shard, the broker forwards as it is to the shard that
/// publishes that shard's topic, if there is one.
pub proof fn law_broker_routes_to_shard(
    state: BrokerState,
    after: BrokerState,
    packets: Seq<(u128, Seq<u8>)>,
    conn: u128,
    dest: u32,
    inner: Seq<u8>,
)
    requires
        state.handled(after, packets, conn, route_message(dest, inner)),
    ensures
        after == state,
        packets == match state.shard(topic_of(near_label(dest))) {
            Some(to) => seq![(to, inner)],
            None => Seq::empty(),
        },
{
    let data = route_message(dest, inner);
    let body = data.skip(1);
    assert(data[0] == TAG_ROUTE_TO_SHARD);
    assert(body.take(32) =~= topic_of(near_label(dest)));
    assert(body.skip(32) =~= inner);
}

/// What the spatial service, or a client, says of a subscription, the broker does.
pub proof fn law_broker_takes_subscription(
    state: BrokerState,
    after: BrokerState,
    packets: Seq<(u128, Seq<u8>)>,
    conn: u128,
    subscribe: bool,
    client: u128,
    label: Seq<char>,
)
    requires
        state.handled(after, packets, conn, subscription_message(subscribe, client, label)),
    ensures
        state.changed_subscription(after, topic_of(label), client, subscribe),
        packets.len() == 0,
{
    let data = subscription_message(subscribe, client, label);
    let body = data.skip(1);
    lemma_id_bytes(client);
    assert(data[0] == if subscribe { TAG_SUBSCRIBE } else { TAG_UNSUBSCRIBE });
    assert(body.subrange(0, 16) =~= id_bytes(client));
    lemma_id_at(body, 0, client);
    assert(body.subrange(16, 48) =~= topic_of(label));
}

/// What a client puts in, the broker takes as that client's input.
pub proof fn law_broker_takes_input(
    state: BrokerState,
    after: BrokerState,
    packets: Seq<(u128, Seq<u8>)>,
    conn: u128,
    client: u128,
    input: Seq<u8>,
)
    requires
        input.len() == 16,
    ensures
        state.handled(after, packets, conn, input_message(client, input)) <==> state.took_input(
            after,
            packets,
            conn,
            client,
            input,
        ),
{
    let data = input_message(client, input);
    let body = data.skip(1);
    lemma_id_bytes(client);
    assert(data[0] == TAG_CLIENT_INPUT);
    assert(body.subrange(0, 16) =~= id_bytes(client));
    lemma_id_at(body, 0, client);
    assert(body.subrange(16, 32) =~= input);
}

/// The input of a client that the broker forwards, a server hears as it was put
/// in.
pub proof fn law_server_hears_input(client: u128, input: Seq<u8>, r: Incoming)
    requires
        input.len() == 16,
        heard(input_message(client, input), r),
    ensures
        r matches Incoming::ClientInput { uuid, input: i } && uuid == client && i@ == input,
{
    let data = input_message(client, input);
    lemma_id_bytes(client);
    assert(data[0] == TAG_CLIENT_INPUT);
    assert(data.subrange(1, 17) =~= id_bytes(client));
    lemma_id_at(data, 1, client);
    assert(data.subrange(17, 33) =~= input);
}

/// An alert of the spatial service, a server reads as it was meant.
pub proof fn law_server_reads_alert(client: u128, dest: u32, r: Incoming)
    requires
        heard(alert_message(client, dest), r),
    ensures
        r is CrossingAlert,
        alert_message(client, dest).len() == 21,
        id_at(alert_message(client, dest), 1) == client,
        u32_at(alert_message(client, dest), 17) == dest,
{
    let data = alert_message(client, dest);
    lemma_id_bytes(client);
    assert(data[0] == TAG_CROSSING_ALERT);
    assert(data.subrange(1, 17) =~= id_bytes(client));
    lemma_id_at(data, 1, client);
    assert(data.subrange(17, 21) =~= le32(dest));
    lemma_u32_at(data, 17, dest);
}

/// An alert holds the client and the other shard, in their places.
pub proof fn law_alert_bytes(client: u128, dest: u32)
    ensures
        alert_message(client, dest).len() == 21,
        alert_message(client, dest)[0] == TAG_CROSSING_ALERT,
        id_at(alert_message(client, dest), 1) == client,
        u32_at(alert_message(client, dest), 17) == dest,
{
    let data = alert_message(client, dest);
    lemma_id_bytes(client);
    assert(data.subrange(1, 17) =~= id_bytes(client));
    lemma_id_at(data, 1, client);
    assert(data.subrange(17, 21) =~= le32(dest));
    lemma_u32_at(data, 17, dest);
}

/// A report of a server, the spatial service reads as it was meant.
pub proof fn law_spatial_reads_report(shard_id: u32, uuid: u128, x: Single, y: Single)
    ensures
        ({
            let data = position_message(shard_id, uuid, x, y);
            &&& data.len() == 29
            &&& data[0] == TAG_POSITION_UPDATE
            &&& u32_at(data, 1) == shard_id
            &&& id_at(data, 5) == uuid
            &&& reported_position(data) == [x, y]
        }),
{
    let data = position_message(shard_id, uuid, x, y);
    lemma_id_bytes(uuid);
    assert(data.subrange(1, 5) =~= le32(shard_id));
    lemma_u32_at(data, 1, shard_id);
    assert(data.subrange(5, 21) =~= id_bytes(uuid));
    lemma_id_at(data, 5, uuid);
    assert(data.subrange(21, 25) =~= le32(x.bits));
    lemma_u32_at(data, 21, x.bits);
    assert(data.subrange(25, 29) =~= le32(y.bits));
    lemma_u32_at(data, 25, y.bits);
    assert(reported_position(data) =~= [x, y]);
}

/// The two numbers of an input are read as they were put in.
pub proof fn law_input_numbers_are_read(kind: u8, a: Single, b: Single)
    ensures
        ({
            let input = two_numbers(kind, a, b);
            &&& input.len() == 16
            &&& input[0] == kind
            &&& u32_at(input, 1) == a.bits
            &&& u32_at(input, 5) == b.bits
        }),
{
    let input = two_numbers(kind, a, b);
    assert(input.subrange(1, 5) =~= le32(a.bits));
    lemma_u32_at(input, 1, a.bits);
    assert(input.subrange(5, 9) =~= le32(b.bits));
    lemma_u32_at(input, 5, b.bits);
}

/// A client that asks to join is taken in where the position that it asks for is
/// the server's, and there is room: there it begins, at rest.
pub proof fn law_joining_client_begins(
    players: Seq<(u128, PlayerView)>,
    uuid: u128,
    x: Single,
    y: Single,
    shard_id: u32,
    max_players: usize,
)
    requires
        players.len() < max_players,
        grid_shard(x, y) == Some(shard_id),
    ensures
        after_input(players, uuid, two_numbers(INPUT_JOIN, x, y), shard_id, max_players) == put(
            players,
            uuid,
            new_player(uuid, "player"@, x, y, None),
        ),
{
    law_input_numbers_are_read(INPUT_JOIN, x, y);
}

/// The state that a server publishes reaches every subscriber that was heard, and
/// tells it of every entity.
pub proof fn law_state_reaches_the_subscribers(
    state: BrokerState,
    after: BrokerState,
    packets: Seq<(u128, Seq<u8>)>,
    conn: u128,
    topic: Seq<u8>,
    list: Seq<Entity>,
    client: u128,
    to: u128,
)
    requires
        topic.len() == 32,
        state_payload(list).len() <= 0xffff,
        state.handled(after, packets, conn, publish_message(topic, state_payload(list))),
        holds_key(state.subscribers(topic), client),
        state.connection(client) == Some(to),
    ensures
        packets.contains((to, broadcast_message(state_payload(list)))),
        told(broadcast_message(state_payload(list))) == list,
{
    let payload = state_payload(list);
    let message = broadcast_message(payload);
    let subs = state.subscribers(topic);
    let connection = |c: u128| state.connection(c);
    law_broker_takes_publication(state, after, packets, conn, topic, payload);
    law_published_state_is_read(list);
    law_fan_out_reaches_the_connected(subs, connection, message);
    lemma_place(subs, client);
    assert(connection(subs[place(subs, client)].0) == Some(to));
}

/// What a client puts in reaches the shard of each topic that it is subscribed
/// to, and is heard there as that client's input.
pub proof fn law_input_reaches_the_shards(
    state: BrokerState,
    after: BrokerState,
    packets: Seq<(u128, Seq<u8>)>,
    conn: u128,
    client: u128,
    input: Seq<u8>,
    topic: Seq<u8>,
    to: u128,
    r: Incoming,
)
    requires
        input.len() == 16,
        state.handled(after, packets, conn, input_message(client, input)),
        holds_key(state.topics(client), topic),
        state.shard(topic) == Some(to),
        heard(input_message(client, input), r),
    ensures
        packets.contains((to, input_message(client, input))),
        r matches Incoming::ClientInput { uuid, input: i } && uuid == client && i@ == input,
        after.connection(client) == Some(conn),
{
    let message = input_message(client, input);
    let topics = state.topics(client);
    let shard = |t: Seq<u8>| state.shard(t);
    law_broker_takes_input(state, after, packets, conn, client, input);
    law_server_hears_input(client, input, r);
    law_fan_out_reaches_the_connected(topics, shard, message);
    lemma_place(topics, topic);
    assert(shard(topics[place(topics, topic)].0) == Some(to));
}

/// A client that was taken in is among the entities that its server publishes,
/// where it begins.
pub proof fn law_joining_client_is_visible(
    players: Seq<(u128, PlayerView)>,
    uuid: u128,
    x: Single,
    y: Single,
    shard_id: u32,
    max_players: usize,
)
    requires
        players.len() < max_players,
        grid_shard(x, y) == Some(shard_id),
        read_back(uuid_text(uuid)),
    ensures
        entities_of(
            values(
                after_input(players, uuid, two_numbers(INPUT_JOIN, x, y), shard_id, max_players),
            ),
        ).contains((uuid, x, y)),
{
    law_joining_client_begins(players, uuid, x, y, shard_id, max_players);
    let after = after_input(players, uuid, two_numbers(INPUT_JOIN, x, y), shard_id, max_players);
    let n = place(players, uuid);
    lemma_place(players, uuid);
    assert(values(after)[n] == new_player(uuid, "player"@, x, y, None));
    law_entities_are_visible(values(after), n, uuid);
}

/// A client moves as it says: the MOVE that a client sends sets the velocity of
/// its player to the two numbers in it, whatever these are, and changes nothing
/// else.
pub proof fn law_moving_client_moves(
    players: Seq<(u128, PlayerView)>,
    uuid: u128,
    vx: Single,
    vy: Single,
    shard_id: u32,
    max_players: usize,
    n: int,
)
    requires
        is_first(players, uuid_text(uuid), n),
    ensures
        after_input(players, uuid, two_numbers(INPUT_MOVE, vx, vy), shard_id, max_players)
            == players.update(
            n,
            (players[n].0, PlayerView { vel_x: vx, vel_y: vy, ..players[n].1 }),
        ),
{
    let input = two_numbers(INPUT_MOVE, vx, vy);
    assert(input.subrange(1, 5) =~= le32(vx.bits));
    assert(input.subrange(5, 9) =~= le32(vy.bits));
    law_move_sets_the_velocity(players, uuid, input, vx, vy, shard_id, max_players, n);
}

/// A client whose connection was closed is gone: what the broker tells its
/// shards is heard there as that client's leaving, and its player is removed.
pub proof fn law_disconnected_client_leaves(
    client: u128,
    r: Incoming,
    players: Seq<(u128, PlayerView)>,
    shard_id: u32,
    max_players: usize,
    n: int,
)
    requires
        heard(leave_message(client), r),
        is_first(players, uuid_text(client), n),
    ensures
        r matches Incoming::ClientInput { uuid, input } && uuid == client && after_input(
            players,
            uuid,
            input@,
            shard_id,
            max_players,
        ) == players.take(n) + players.skip(n + 1),
{
    let input = seq![INPUT_LEAVE] + Seq::new(15, |i: int| 0u8);
    law_server_hears_input(client, input, r);
    law_leave_removes_the_player(players, client, input, shard_id, max_players, n);
}

/// Each publication makes the connection that it came on the shard of its
/// topic, whatever was registered before, and goes, as it is, to exactly the
/// connections of the clients that are subscribed to the topic. No other topic,
/// and no subscription, changes.
pub proof fn law_publication_registers_the_shard(
    state: BrokerState,
    after: BrokerState,
    packets: Seq<(u128, Seq<u8>)>,
    conn: u128,
    topic: Seq<u8>,
    payload: Seq<u8>,
    other: Seq<u8>,
    client: u128,
    to: u128,
)
    requires
        topic.len() == 32,
        payload.len() <= 0xffff,
        state.handled(after, packets, conn, publish_message(topic, payload)),
    ensures
        after.shard(topic) == Some(conn),
        other != topic ==> after.shard(other) == state.shard(other),
        after.subscribers(other) == state.subscribers(other),
        after.topics(client) == state.topics(client),
        after.connection(client) == state.connection(client),
        packets.contains((to, broadcast_message(payload))) <==> exists|c: u128| #[trigger]
            holds_key(state.subscribers(topic), c) && state.connection(c) == Some(to),
        forall|k: int|
            0 <= k < packets.len() ==> (#[trigger] packets[k]).1 == broadcast_message(payload),
        packets.len() <= state.subscribers(topic).len(),
{
    law_broker_takes_publication(state, after, packets, conn, topic, payload);
    let list = state.subscribers(topic);
    let connection = |c: u128| state.connection(c);
    law_fan_out_reaches_the_connected(list, connection, broadcast_message(payload));
    lemma_fan_out_length(list, connection, broadcast_message(payload));
    if exists|c: u128| #[trigger] holds_key(list, c) && state.connection(c) == Some(to) {
        let c = choose|c: u128| #[trigger] holds_key(list, c) && state.connection(c) == Some(to);
        lemma_place(list, c);
        assert(connection(list[place(list, c)].0) == Some(to));
    }
    if packets.contains((to, broadcast_message(payload))) {
        let i = choose|i: int|
            0 <= i < list.len() && connection((#[trigger] list[i]).0) == Some(to);
        lemma_holds_entry(list, i);
        assert(state.connection(list[i].0) == Some(to));
    }
}

proof fn lemma_fan_out_length<I>(
    list: Seq<(I, ())>,
    connection: spec_fn(I) -> Option<u128>,
    message: Seq<u8>,
)
    ensures
        fan_out(list, connection, message).len() <= list.len(),
    decreases list.len(),
{
    if list.len() > 0 {
        lemma_fan_out_length(list.drop_last(), connection, message);
    }
}

/// An input of a client goes, as that client's, to exactly the shards that
/// publish one of its topics, and the connection that it came on is the
/// client's from then on. Nothing else changes.
pub proof fn law_input_goes_to_the_shards(
    state: BrokerState,
    after: BrokerState,
    packets: Seq<(u128, Seq<u8>)>,
    conn: u128,
    client: u128,
    input: Seq<u8>,
    to: u128,
    other: u128,
    topic: Seq<u8>,
)
    requires
        input.len() == 16,
        state.handled(after, packets, conn, input_message(client, input)),
    ensures
        packets.contains((to, input_message(client, input))) <==> exists|t: Seq<u8>| #[trigger]
            holds_key(state.topics(client), t) && state.shard(t) == Some(to),
        forall|k: int|
            0 <= k < packets.len() ==> (#[trigger] packets[k]).1 == input_message(client, input),
        packets.len() <= state.topics(client).len(),
        after.connection(client) == Some(conn),
        other != client ==> after.connection(other) == state.connection(other),
        after.shard(topic) == state.shard(topic),
        after.subscribers(topic) == state.subscribers(topic),
        after.topics(other) == state.topics(other),
{
    law_broker_takes_input(state, after, packets, conn, client, input);
    let list = state.topics(client);
    let shard = |t: Seq<u8>| state.shard(t);
    let message = input_message(client, input);
    law_fan_out_reaches_the_connected(list, shard, message);
    lemma_fan_out_length(list, shard, message);
    if exists|t: Seq<u8>| #[trigger] holds_key(list, t) && state.shard(t) == Some(to) {
        let t = choose|t: Seq<u8>| #[trigger] holds_key(list, t) && state.shard(t) == Some(to);
        lemma_place(list, t);
        assert(shard(list[place(list, t)].0) == Some(to));
    }
    if packets.contains((to, message)) {
        let i = choose|i: int| 0 <= i < list.len() && shard((#[trigger] list[i]).0) == Some(to);
        lemma_holds_entry(list, i);
        assert(state.shard(list[i].0) == Some(to));
    }
}

/// An input of a client reaches the server that last published a topic of it, on the
/// connection of that publication, whichever server published the topic before.
pub proof fn law_input_reaches_the_last_publisher(
    before: BrokerState,
    between: BrokerState,
    after: BrokerState,
    broadcasts: Seq<(u128, Seq<u8>)>,
    packets: Seq<(u128, Seq<u8>)>,
    conn: u128,
    topic: Seq<u8>,
    payload: Seq<u8>,
    client_conn: u128,
    client: u128,
    input: Seq<u8>,
)
    requires
        topic.len() == 32,
        payload.len() <= 0xffff,
        input.len() == 16,
        before.handled(between, broadcasts, conn, publish_message(topic, payload)),
        holds_key(before.topics(client), topic),
        between.handled(after, packets, client_conn, input_message(client, input)),
    ensures
        packets.contains((conn, input_message(client, input))),
{
    law_publication_registers_the_shard(
        before,
        between,
        broadcasts,
        conn,
        topic,
        payload,
        topic,
        client,
        conn,
    );
    law_input_goes_to_the_shards(
        between,
        after,
        packets,
        client_conn,
        client,
        input,
        conn,
        client,
        topic,
    );
    assert(holds_key(between.topics(client), topic) && between.shard(topic) == Some(conn));
}

/// What is sent to a shard reaches the server that last published that shard's
/// topic, on the connection of that publication, and nobody else.
pub proof fn law_route_reaches_the_last_publisher(
    before: BrokerState,
    between: BrokerState,
    after: BrokerState,
    broadcasts: Seq<(u128, Seq<u8>)>,
    packets: Seq<(u128, Seq<u8>)>,
    conn: u128,
    dest: u32,
    payload: Seq<u8>,
    from: u128,
    inner: Seq<u8>,
)
    requires
        payload.len() <= 0xffff,
        before.handled(
            between,
            broadcasts,
            conn,
            publish_message(topic_of(near_label(dest)), payload),
        ),
        between.handled(after, packets, from, route_message(dest, inner)),
    ensures
        packets == seq![(conn, inner)],
{
    law_publication_registers_the_shard(
        before,
        between,
        broadcasts,
        conn,
        topic_of(near_label(dest)),
        payload,
        topic_of(near_label(dest)),
        0,
        conn,
    );
    law_broker_routes_to_shard(between, after, packets, from, dest, inner);
}

/// A client that was subscribed to a topic and then heard on a connection is
/// sent, on that connection, what is published under the topic.
pub proof fn law_subscriber_is_sent_publications(
    first: BrokerState,
    second: BrokerState,
    third: BrokerState,
    fourth: BrokerState,
    quiet: Seq<(u128, Seq<u8>)>,
    inputs: Seq<(u128, Seq<u8>)>,
    packets: Seq<(u128, Seq<u8>)>,
    service: u128,
    client_conn: u128,
    shard_conn: u128,
    client: u128,
    label: Seq<char>,
    input: Seq<u8>,
    payload: Seq<u8>,
)
    requires
        first.wf(),
        input.len() == 16,
        payload.len() <= 0xffff,
        first.handled(second, quiet, service, subscription_message(true, client, label)),
        second.handled(third, inputs, client_conn, input_message(client, input)),
        third.handled(fourth, packets, shard_conn, publish_message(topic_of(label), payload)),
    ensures
        packets.contains((client_conn, broadcast_message(payload))),
{
    let topic = topic_of(label);
    law_broker_takes_subscription(first, second, quiet, service, true, client, label);
    law_one_subscription_changes(first, second, topic, client, true, topic, client);
    law_input_goes_to_the_shards(
        second,
        third,
        inputs,
        client_conn,
        client,
        input,
        client_conn,
        client,
        topic,
    );
    law_publication_registers_the_shard(
        third,
        fourth,
        packets,
        shard_conn,
        topic,
        payload,
        topic,
        client,
        client_conn,
    );
    assert(holds_key(third.subscribers(topic), client) && third.connection(client) == Some(
        client_conn,
    ));
}

/// What is said of a subscription changes whether that client is subscribed to
/// that topic, and no other subscription, shard or connection; only a client
/// that has no topic left is not known by its connection any more.
pub proof fn law_subscription_is_as_said(
    state: BrokerState,
    after: BrokerState,
    packets: Seq<(u128, Seq<u8>)>,
    conn: u128,
    subscribe: bool,
    client: u128,
    label: Seq<char>,
    t: Seq<u8>,
    c: u128,
)
    requires
        state.wf(),
        state.handled(after, packets, conn, subscription_message(subscribe, client, label)),
    ensures
        packets.len() == 0,
        holds_key(after.subscribers(t), c) <==> if t == topic_of(label) && c == client {
            subscribe
        } else {
            holds_key(state.subscribers(t), c)
        },
        holds_key(after.topics(c), t) <==> if t == topic_of(label) && c == client {
            subscribe
        } else {
            holds_key(state.topics(c), t)
        },
        after.shard(t) == state.shard(t),
        c != client || subscribe ==> after.connection(c) == state.connection(c),
        !subscribe && holds_key(state.topics(client), topic_of(label)) ==> after.connection(client)
            == if state.topics(client).len() == 1 {
            None
        } else {
            state.connection(client)
        },
        !subscribe && !(holds_key(state.topics(client), topic_of(label))) ==> after.connection(client)
            == state.connection(client),
{
    law_broker_takes_subscription(state, after, packets, conn, subscribe, client, label);
    law_one_subscription_changes(state, after, topic_of(label), client, subscribe, t, c);
    let data = subscription_message(subscribe, client, label);
    let body = data.skip(1);
    lemma_id_bytes(client);
    assert(data[0] == if subscribe { TAG_SUBSCRIBE } else { TAG_UNSUBSCRIBE });
    assert(body.subrange(0, 16) =~= id_bytes(client));
    lemma_id_at(body, 0, client);
    assert(body.subrange(16, 48) =~= topic_of(label));
}

/// A message that is cut off, or is of no kind that the broker knows, changes
/// nothing, and nothing is sent.
pub proof fn law_broker_ignores_the_rest(
    state: BrokerState,
    after: BrokerState,
    packets: Seq<(u128, Seq<u8>)>,
    conn: u128,
    data: Seq<u8>,
)
    requires
        state.handled(after, packets, conn, data),
        data.len() == 0 || {
            ||| data[0] == 0x01 && data.len() < 49
            ||| data[0] == 0x02 && data.len() < 49
            ||| data[0] == 0x03 && data.len() < 35
            ||| data[0] == 0x03 && data.len() < 35 + u16_at(data, 33)
            ||| data[0] == 0x05 && data.len() < 33
            ||| data[0] == 0x06 && data.len() < 33
            ||| data[0] == 0x00 || data[0] == 0x04 || data[0] > 0x06
        },
    ensures
        after == state,
        packets.len() == 0,
{
    if data.len() >= 35 {
        assert(data.skip(1)[32] == data[33] && data.skip(1)[33] == data[34]);
    }
}

/// A message for the broker is whole, and nothing follows it.
pub open spec fn is_whole(data: Seq<u8>) -> bool {
    &&& data.len() > 0
    &&& {
        ||| data[0] == 0x01 && data.len() == 49
        ||| data[0] == 0x02 && data.len() == 49
        ||| data[0] == 0x03 && data.len() >= 35 && data.len() == 35 + u16_at(data, 33)
        ||| data[0] == 0x05 && data.len() == 33
    }
}

/// What follows a whole message is not looked at: the broker does the same with
/// and without it.
pub proof fn law_broker_ignores_trailing_bytes(
    state: BrokerState,
    after: BrokerState,
    packets: Seq<(u128, Seq<u8>)>,
    conn: u128,
    data: Seq<u8>,
    extra: Seq<u8>,
)
    requires
        is_whole(data),
    ensures
        state.handled(after, packets, conn, data + extra) <==> state.handled(
            after,
            packets,
            conn,
            data,
        ),
{
    let long = data + extra;
    let a = data.skip(1);
    let b = long.skip(1);
    assert(b =~= a + extra);
    assert(long[0] == data[0]);
    if data[0] == 0x03 {
        assert(b[32] == a[32] && b[33] == a[33] && a[32] == data[33] && a[33] == data[34]);
        let length = u16_at(data, 33) as int;
        assert(b.take(32) =~= a.take(32));
        assert(b.subrange(34, 34 + length) =~= a.subrange(34, 34 + length));
    } else {
        assert(b.subrange(0, 16) =~= a.subrange(0, 16));
        assert(b.subrange(16, 32) =~= a.subrange(16, 32));
        if data.len() == 49 {
            assert(b.subrange(16, 48) =~= a.subrange(16, 48));
        }
    }
}

/// What follows a whole broadcast is not looked at.
pub proof fn law_client_ignores_trailing_bytes(list: Seq<Entity>, extra: Seq<u8>)
    requires
        state_payload(list).len() <= 0xffff,
    ensures
        told(broadcast_message(state_payload(list)) + extra) == list,
{
    let payload = state_payload(list);
    let data = broadcast_message(payload);
    let long = data + extra;
    let length = payload.len() as u16;
    law_published_state_is_read(list);
    assert(data.subrange(1, 3) =~= le16(length));
    assert(long.subrange(1, 3) =~= le16(length));
    lemma_u16_at(data, 1, length);
    lemma_u16_at(long, 1, length);
    assert(data.subrange(3, 3 + length) =~= payload);
    assert(long.subrange(3, 3 + length) =~= payload);
}

} // verus!
