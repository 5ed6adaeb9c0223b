//! The publish/subscribe broker between clients and shards.

use crate::outside::{
    bytes_clone, bytes_copy_to_array, bytes_copy_to_bytes, bytes_get_u16_le, bytes_get_u8,
    bytes_mut_freeze, bytes_mut_put, bytes_mut_put_slice, bytes_mut_put_u16_le, bytes_mut_put_u8,
    bytes_mut_with_capacity, bytes_remaining, contents,
};
use crate::packet::{sent, Packet};
use crate::vec_map::{
    distinct, holds_key, law_put_lookup, law_without_lookup, lemma_place, lemma_place_is, lookup,
    place, put, without, VecMap,
};
use crate::wire::{
    id_at, id_bytes, id_to_bytes, le16, lemma_id_bytes, read_id, u16_at, INPUT_LEAVE, TAG_BROADCAST,
    TAG_CLIENT_INPUT, TAG_PUBLISH, TAG_ROUTE_TO_SHARD, TAG_SUBSCRIBE, TAG_UNSUBSCRIBE,
};
use std::collections::HashMap;
use vstd::prelude::*;

verus! {

/// A topic: a label, filled up with zeros.
pub type Topic = [u8; 32];

/// A client, by the 128 bits of its UUID.
pub type ClientId = u128;

/// Who is subscribed to what, and where messages go.
pub struct BrokerState {
    /// The clients that are subscribed to each topic.
    pub subscriptions: VecMap<Topic, VecMap<ClientId, ()>>,
    /// The topics that each client is subscribed to.
    pub client_topics: HashMap<ClientId, VecMap<Topic, ()>>,
    /// The connection of the shard that publishes each topic.
    pub shards: VecMap<Topic, u128>,
    /// The connection that each client was last heard on.
    pub client_connections: HashMap<ClientId, u128>,
}

impl BrokerState {
    /// The clients subscribed to a topic, in the order of their subscriptions.
    pub open spec fn subscribers(self, topic: Seq<u8>) -> Seq<(ClientId, ())> {
        match lookup(self.subscriptions.pairs(), topic) {
            Some(m) => m.pairs(),
            None => Seq::empty(),
        }
    }

    /// The topics of a client, in the order of its subscriptions.
    pub open spec fn topics(self, client: ClientId) -> Seq<(Seq<u8>, ())> {
        if self.client_topics@.contains_key(client) {
            self.client_topics@[client].pairs()
        } else {
            Seq::empty()
        }
    }

    /// The connection of the shard that publishes a topic.
    pub open spec fn shard(self, topic: Seq<u8>) -> Option<u128> {
        lookup(self.shards.pairs(), topic)
    }

    /// Both directions agree on who is subscribed to what; no list is kept
    /// empty, and nothing is listed twice.
    pub open spec fn wf(self) -> bool {
        &&& self.subscriptions.wf()
        &&& self.shards.wf()
        &&& forall|t: Seq<u8>| distinct(#[trigger] self.subscribers(t))
        &&& forall|c: ClientId| distinct(#[trigger] self.topics(c))
        &&& forall|t: Seq<u8>|
            #![trigger lookup(self.subscriptions.pairs(), t)]
            lookup(self.subscriptions.pairs(), t) is Some ==> self.subscribers(t).len() > 0
        &&& forall|c: ClientId| #[trigger]
            self.client_topics@.contains_key(c) ==> self.topics(c).len() > 0
        &&& forall|t: Seq<u8>, c: ClientId|
            holds_key(#[trigger] self.subscribers(t), c) <==> holds_key(
                #[trigger] self.topics(c),
                t,
            )
    }

    /// The subscriptions after `client` was added to, or taken off, `topic`.
    pub open spec fn changed_subscription(
        self,
        after: Self,
        topic: Seq<u8>,
        client: ClientId,
        added: bool,
    ) -> bool {
        &&& forall|t: Seq<u8>| #[trigger]
            after.subscribers(t) == if t != topic {
                self.subscribers(t)
            } else if added {
                put(self.subscribers(t), client, ())
            } else {
                without(self.subscribers(t), client)
            }
        &&& forall|c: ClientId| #[trigger]
            after.topics(c) == if c != client {
                self.topics(c)
            } else if added {
                put(self.topics(c), topic, ())
            } else {
                without(self.topics(c), topic)
            }
        &&& forall|t: Seq<u8>| #[trigger] after.shard(t) == self.shard(t)
    }

    /// The state, and what is sent, once a client has been forgotten.
    pub open spec fn dropped_client(
        self,
        after: Self,
        packets: Seq<(u128, Seq<u8>)>,
        client: ClientId,
    ) -> bool {
        &&& forall|t: Seq<u8>| #[trigger]
            after.subscribers(t) == without(self.subscribers(t), client)
        &&& forall|c: ClientId| #[trigger]
            after.topics(c) == if c == client {
                Seq::empty()
            } else {
                self.topics(c)
            }
        &&& forall|t: Seq<u8>| #[trigger] after.shard(t) == self.shard(t)
        &&& after.client_connections@ == self.client_connections@.remove(client)
        &&& packets == fan_out(
            self.topics(client),
            |t: Seq<u8>| self.shard(t),
            leave_message(client),
        )
    }

    /// The connection that a client was last heard on.
    pub open spec fn connection(self, client: ClientId) -> Option<u128> {
        if self.client_connections@.contains_key(client) {
            Some(self.client_connections@[client])
        } else {
            None
        }
    }

    /// Nobody is subscribed to anything else than before.
    pub open spec fn same_subscriptions(self, after: Self) -> bool {
        &&& forall|t: Seq<u8>| #[trigger] after.subscribers(t) == self.subscribers(t)
        &&& forall|c: ClientId| #[trigger] after.topics(c) == self.topics(c)
    }

    /// The state, and what is sent, once a connection was closed.
    pub open spec fn disconnected(
        self,
        after: Self,
        packets: Seq<(u128, Seq<u8>)>,
        conn: u128,
    ) -> bool {
        ||| exists|c: ClientId| #[trigger]
            self.connection(c) == Some(conn) && self.dropped_client(after, packets, c)
        ||| {
            &&& forall|c: ClientId| #[trigger] self.connection(c) != Some(conn)
            &&& after == self
            &&& packets.len() == 0
        }
    }

    /// A publication: the sender is from now on the shard of the topic, and what
    /// it published goes to each subscriber that was heard.
    pub open spec fn published(
        self,
        after: Self,
        packets: Seq<(u128, Seq<u8>)>,
        conn: u128,
        topic: Seq<u8>,
        payload: Seq<u8>,
    ) -> bool {
        &&& self.same_subscriptions(after)
        &&& forall|t: Seq<u8>| #[trigger]
            after.shard(t) == if t == topic {
                Some(conn)
            } else {
                self.shard(t)
            }
        &&& after.client_connections@ == self.client_connections@
        &&& packets == fan_out(
            self.subscribers(topic),
            |c: ClientId| self.connection(c),
            broadcast_message(payload),
        )
    }

    /// An input of a client: the connection is the client's from now on, and the
    /// input goes to the shards of its topics.
    pub open spec fn took_input(
        self,
        after: Self,
        packets: Seq<(u128, Seq<u8>)>,
        conn: u128,
        client: ClientId,
        input: Seq<u8>,
    ) -> bool {
        &&& self.same_subscriptions(after)
        &&& forall|t: Seq<u8>| #[trigger] after.shard(t) == self.shard(t)
        &&& after.client_connections@ == self.client_connections@.insert(client, conn)
        &&& packets == fan_out(
            self.topics(client),
            |t: Seq<u8>| self.shard(t),
            input_message(client, input),
        )
    }

    /// The state, and what is sent, once a message has been handled. A message
    /// that is too short or of another kind changes nothing.
    pub open spec fn handled(
        self,
        after: Self,
        packets: Seq<(u128, Seq<u8>)>,
        conn: u128,
        data: Seq<u8>,
    ) -> bool {
        let body = data.skip(1);
        let length = u16_at(body, 32);
        if data.len() == 0 {
            after == self && packets.len() == 0
        } else if (data[0] == TAG_SUBSCRIBE || data[0] == TAG_UNSUBSCRIBE) && body.len() >= 48 {
            let client = id_at(body, 0);
            let topic = body.subrange(16, 48);
            &&& self.changed_subscription(after, topic, client, data[0] == TAG_SUBSCRIBE)
            &&& after.client_connections@ == if data[0] == TAG_UNSUBSCRIBE && holds_key(
                self.topics(client),
                topic,
            ) && self.topics(client).len() == 1 {
                self.client_connections@.remove(client)
            } else {
                self.client_connections@
            }
            &&& packets.len() == 0
        } else if data[0] == TAG_PUBLISH && body.len() >= 34 && body.len() - 34 >= length {
            self.published(after, packets, conn, body.take(32), body.subrange(34, 34 + length))
        } else if data[0] == TAG_CLIENT_INPUT && body.len() >= 32 {
            self.took_input(after, packets, conn, id_at(body, 0), body.subrange(16, 32))
        } else if data[0] == TAG_ROUTE_TO_SHARD && body.len() >= 32 {
            &&& after == self
            &&& packets == match self.shard(body.take(32)) {
                Some(to) => seq![(to, body.skip(32))],
                None => Seq::empty(),
            }
        } else {
            after == self && packets.len() == 0
        }
    }

    /// A state without clients, topics and shards.
    pub fn new() -> (r: Self)
        ensures
            r.wf(),
            forall|t: Seq<u8>| (#[trigger] r.subscribers(t)).len() == 0,
            forall|c: ClientId| (#[trigger] r.topics(c)).len() == 0,
            forall|t: Seq<u8>| (#[trigger] r.shard(t)) is None,
            r.client_connections@ == Map::<ClientId, u128>::empty(),
    {
        BrokerState {
            subscriptions: VecMap::new(),
            client_topics: HashMap::new(),
            shards: VecMap::new(),
            client_connections: HashMap::new(),
        }
    }

    /// Subscribes a client to a topic. The connection of the client is not
    /// touched: only the client's own messages tell it.
    pub fn subscribe(&mut self, topic: Topic, client_id: ClientId)
        requires
            old(self).wf(),
        ensures
            final(self).wf(),
            old(self).changed_subscription(*final(self), topic@, client_id, true),
            final(self).client_connections@ == old(self).client_connections@,
    {
        broadcast use vstd::std_specs::hash::group_hash_axioms;

        let ghost pairs = self.subscriptions.pairs();
        proof {
            assert forall|t: Seq<u8>, v: VecMap<ClientId, ()>|
                #![trigger lookup(put(pairs, topic@, v), t)]
                lookup(put(pairs, topic@, v), t) == (if t == topic@ {
                    Some(v)
                } else {
                    lookup(pairs, t)
                }) && distinct(put(pairs, topic@, v)) by {
                law_put_lookup(pairs, topic@, v, t);
            }
        }
        match self.subscriptions.get_mut(&topic) {
            Some(subs) => {
                subs.insert(client_id, ());
            },
            None => {
                let mut subs: VecMap<ClientId, ()> = VecMap::new();
                subs.insert(client_id, ());
                self.subscriptions.insert(topic, subs);
            },
        }
        let mut topics: VecMap<Topic, ()> = match self.client_topics.remove(&client_id) {
            Some(t) => t,
            None => VecMap::new(),
        };
        topics.insert(topic, ());
        self.client_topics.insert(client_id, topics);
        proof {
            lemma_put_keys(old(self).subscribers(topic@), client_id);
            lemma_put_keys(old(self).topics(client_id), topic@);
            assert(old(self).changed_subscription(*self, topic@, client_id, true));
        }
    }

    /// Takes a client off a topic, if it is listed there.
    fn drop_subscriber(&mut self, topic: Topic, client_id: ClientId)
        requires
            old(self).subscriptions.wf(),
            forall|t: Seq<u8>| distinct(#[trigger] old(self).subscribers(t)),
            forall|t: Seq<u8>|
                #![trigger lookup(old(self).subscriptions.pairs(), t)]
                lookup(old(self).subscriptions.pairs(), t) is Some ==> old(self).subscribers(t).len()
                    > 0,
        ensures
            final(self).subscriptions.wf(),
            forall|t: Seq<u8>| distinct(#[trigger] final(self).subscribers(t)),
            forall|t: Seq<u8>|
                #![trigger lookup(final(self).subscriptions.pairs(), t)]
                lookup(final(self).subscriptions.pairs(), t) is Some ==> final(self).subscribers(
                    t,
                ).len() > 0,
            forall|t: Seq<u8>| #[trigger]
                final(self).subscribers(t) == if t != topic@ {
                    old(self).subscribers(t)
                } else {
                    without(old(self).subscribers(t), client_id)
                },
            final(self).client_topics == old(self).client_topics,
            final(self).shards == old(self).shards,
            final(self).client_connections == old(self).client_connections,
    {
        let ghost pairs = self.subscriptions.pairs();
        proof {
            assert forall|t: Seq<u8>, v: VecMap<ClientId, ()>|
                #![trigger lookup(put(pairs, topic@, v), t)]
                lookup(put(pairs, topic@, v), t) == (if t == topic@ {
                    Some(v)
                } else {
                    lookup(pairs, t)
                }) && distinct(put(pairs, topic@, v)) by {
                law_put_lookup(pairs, topic@, v, t);
            }
            lemma_without_keys(self.subscribers(topic@), client_id);
        }
        let mut emptied: bool = false;
        match self.subscriptions.get_mut(&topic) {
            Some(subs) => {
                subs.remove(&client_id);
                emptied = subs.len() == 0;
            },
            None => {
                assert(without(self.subscribers(topic@), client_id) =~= self.subscribers(topic@));
            },
        }
        let ghost middle = self.subscriptions.pairs();
        proof {
            assert forall|t: Seq<u8>|
                #![trigger lookup(without(middle, topic@), t)]
                lookup(without(middle, topic@), t) == (if t == topic@ {
                    None
                } else {
                    lookup(middle, t)
                }) && distinct(without(middle, topic@)) by {
                law_without_lookup(middle, topic@, t);
            }
        }
        if emptied {
            self.subscriptions.remove(&topic);
            assert(self.subscribers(topic@) =~= without(old(self).subscribers(topic@), client_id));
        }
    }

    /// Takes a client off a topic. A client without topics is forgotten, its
    /// connection too.
    pub fn unsubscribe(&mut self, topic: Topic, client_id: ClientId)
        requires
            old(self).wf(),
        ensures
            final(self).wf(),
            old(self).changed_subscription(*final(self), topic@, client_id, false),
            final(self).client_connections@ == (if holds_key(old(self).topics(client_id), topic@)
                && old(self).topics(client_id).len() == 1 {
                old(self).client_connections@.remove(client_id)
            } else {
                old(self).client_connections@
            }),
    {
        broadcast use vstd::std_specs::hash::group_hash_axioms;

        proof {
            lemma_without_keys(self.subscribers(topic@), client_id);
            lemma_without_keys(self.topics(client_id), topic@);
        }
        self.drop_subscriber(topic, client_id);
        let ghost middle = *self;
        match self.client_topics.remove(&client_id) {
            Some(mut topics) => {
                topics.remove(&topic);
                if topics.len() == 0 {
                    self.client_connections.remove(&client_id);
                } else {
                    self.client_topics.insert(client_id, topics);
                }
            },
            None => {},
        }
        proof {
            assert(forall|t: Seq<u8>| #[trigger]
                self.subscribers(t) == middle.subscribers(t));
            assert forall|c: ClientId| #[trigger]
                self.topics(c) == if c != client_id {
                    old(self).topics(c)
                } else {
                    without(old(self).topics(c), topic@)
                } by {
                if c == client_id {
                    assert(self.topics(c) =~= without(old(self).topics(c), topic@));
                }
            }
            assert(old(self).changed_subscription(*self, topic@, client_id, false));
        }
    }

    /// Forgets a client. Each shard that publishes a topic of it is told that it
    /// left.
    pub fn drop_client(&mut self, client_id: ClientId) -> (r: Vec<Packet>)
        requires
            old(self).wf(),
        ensures
            final(self).wf(),
            old(self).dropped_client(*final(self), sent(r@), client_id),
    {
        broadcast use vstd::std_specs::hash::group_hash_axioms;

        let ghost before = *self;
        let mut packets: Vec<Packet> = Vec::new();
        let leave = leave_packet(client_id);
        let ghost topics_of = before.topics(client_id);
        let ghost shard_of = |t: Seq<u8>| before.shard(t);
        let ghost message = leave_message(client_id);
        assert(topics_of.take(0) =~= Seq::empty());
        assert(sent(packets@) =~= fan_out(topics_of.take(0), shard_of, message));
        match self.client_topics.remove(&client_id) {
            Some(topics) => {
                let mut i: usize = 0;
                while i < topics.entries.len()
                    invariant
                        i <= topics.entries.len(),
                        before.wf(),
                        topics.pairs() == topics_of,
                        topics_of == before.topics(client_id),
                        shard_of == (|t: Seq<u8>| before.shard(t)),
                        contents(leave) == message,
                        self.subscriptions.wf(),
                        forall|t: Seq<u8>| distinct(#[trigger] self.subscribers(t)),
                        forall|t: Seq<u8>|
                            #![trigger lookup(self.subscriptions.pairs(), t)]
                            lookup(self.subscriptions.pairs(), t) is Some ==> self.subscribers(
                                t,
                            ).len() > 0,
                        forall|t: Seq<u8>| #[trigger]
                            self.subscribers(t) == if holds_key(topics_of.take(i as int), t) {
                                without(before.subscribers(t), client_id)
                            } else {
                                before.subscribers(t)
                            },
                        self.client_topics@ == before.client_topics@.remove(client_id),
                        self.shards == before.shards,
                        self.client_connections == before.client_connections,
                        sent(packets@) == fan_out(topics_of.take(i as int), shard_of, message),
                    decreases topics.entries.len() - i,
                {
                    let topic: Topic = topics.entries[i].0;
                    let ghost taken = topics_of.take(i as int);
                    let ghost middle = *self;
                    proof {
                        assert(topics_of[i as int] == (topic@, ()));
                        assert(topics_of.take(i + 1) =~= taken.push((topic@, ())));
                        lemma_push_key(taken, topic@);
                        lemma_distinct_prefix(topics_of, i as int);
                        assert(topics_of.take(i + 1).drop_last() =~= taken);
                    }
                    self.drop_subscriber(topic, client_id);
                    match self.shards.get(&topic) {
                        Some(to) => {
                            packets.push(Packet { to: *to, data: bytes_clone(&leave) });
                            assert(sent(packets@) =~= fan_out(
                                taken,
                                shard_of,
                                message,
                            ).push((before.shard(topic@).unwrap(), message)));
                        },
                        None => {},
                    }
                    proof {
                        assert(shard_of(topic@) == before.shard(topic@));
                        assert forall|t: Seq<u8>| #[trigger]
                            self.subscribers(t) == if holds_key(topics_of.take(i + 1), t) {
                                without(before.subscribers(t), client_id)
                            } else {
                                before.subscribers(t)
                            } by {
                            assert(middle.subscribers(t) == if holds_key(taken, t) {
                                without(before.subscribers(t), client_id)
                            } else {
                                before.subscribers(t)
                            });
                        }
                    }
                    i = i + 1;
                }
                assert(topics_of.take(i as int) =~= topics_of);
            },
            None => {},
        }
        let ghost cleared = *self;
        self.client_connections.remove(&client_id);
        proof {
            assert(topics_of.take(topics_of.len() as int) =~= topics_of);
            assert forall|t: Seq<u8>| #[trigger]
                self.subscribers(t) == without(before.subscribers(t), client_id) by {
                assert(self.subscribers(t) == cleared.subscribers(t));
                assert(holds_key(before.subscribers(t), client_id) <==> holds_key(topics_of, t));
            }
            assert forall|c: ClientId| #[trigger]
                self.topics(c) == if c == client_id {
                    Seq::empty()
                } else {
                    before.topics(c)
                } by {}
            assert forall|t: Seq<u8>, c: ClientId|
                holds_key(#[trigger] self.subscribers(t), c) <==> holds_key(
                    #[trigger] self.topics(c),
                    t,
                ) by {
                lemma_without_keys(before.subscribers(t), client_id);
                assert(holds_key(before.subscribers(t), c) <==> holds_key(before.topics(c), t));
                assert(holds_key(without(before.subscribers(t), client_id), c) <==> (holds_key(
                    before.subscribers(t),
                    c,
                ) && c != client_id));
            }
        }
        packets
    }

    /// A client whose connection this is, if there is one.
    pub fn client_on(&self, conn: u128) -> (r: Option<ClientId>)
        ensures
            match r {
                Some(c) => self.client_connections@.contains_pair(c, conn),
                None => forall|c: ClientId|
                    !#[trigger] self.client_connections@.contains_pair(c, conn),
            },
    {
        broadcast use vstd::std_specs::hash::group_hash_axioms;

        for pair in it: self.client_connections.iter()
            invariant
                forall|k: int| 0 <= k < it.index() ==> *(#[trigger] it.seq()[k]).1 != conn,
        {
            if *pair.1 == conn {
                assert(self.client_connections@.contains_key(*it.seq()[it.index()].0));
                return Some(*pair.0);
            }
        }
        None
    }

    /// A closed connection: the client that had it, if any, is forgotten. Where
    /// several had it, which one goes is open.
    pub fn handle_disconnect(&mut self, conn: u128) -> (r: Vec<Packet>)
        requires
            old(self).wf(),
        ensures
            final(self).wf(),
            old(self).disconnected(*final(self), sent(r@), conn),
            if exists|c: ClientId| #[trigger]
                old(self).client_connections@.contains_pair(c, conn) {
                exists|c: ClientId|
                    {
                        &&& #[trigger] old(self).client_connections@.contains_pair(c, conn)
                        &&& old(self).dropped_client(*final(self), sent(r@), c)
                    }
            } else {
                *final(self) == *old(self) && r@.len() == 0
            },
    {
        match self.client_on(conn) {
            Some(client_id) => {
                assert(self.connection(client_id) == Some(conn));
                self.drop_client(client_id)
            },
            None => {
                assert forall|c: ClientId| #[trigger] self.connection(c) != Some(conn) by {
                    assert(!self.client_connections@.contains_pair(c, conn));
                }
                Vec::new()
            },
        }
    }

    /// Takes a publication of a topic.
    pub fn publish(&mut self, conn: u128, topic: Topic, payload: bytes::Bytes) -> (r: Vec<Packet>)
        requires
            old(self).wf(),
            contents(payload).len() <= 0xffff,
        ensures
            final(self).wf(),
            old(self).published(*final(self), sent(r@), conn, topic@, contents(payload)),
    {
        broadcast use vstd::std_specs::hash::group_hash_axioms;

        let ghost before = *self;
        let ghost list = before.subscribers(topic@);
        let ghost connection_of = |c: ClientId| before.connection(c);
        let ghost message = broadcast_message(contents(payload));
        self.shards.insert(topic, conn);
        proof {
            assert forall|t: Seq<u8>| #[trigger]
                self.shard(t) == (if t == topic@ {
                    Some(conn)
                } else {
                    before.shard(t)
                }) by {
                law_put_lookup(before.shards.pairs(), topic@, conn, t);
            }
            assert(forall|t: Seq<u8>| #[trigger]
                self.subscribers(t) == before.subscribers(t));
            assert(forall|c: ClientId| #[trigger] self.topics(c) == before.topics(c));
        }
        let mut packets: Vec<Packet> = Vec::new();
        assert(list.take(0) =~= Seq::empty());
        assert(sent(packets@) =~= fan_out(list.take(0), connection_of, message));
        match self.subscriptions.get(&topic) {
            Some(subscribers) => {
                let out = broadcast_packet(payload);
                let mut i: usize = 0;
                while i < subscribers.entries.len()
                    invariant
                        i <= subscribers.entries.len(),
                        subscribers.pairs() == list,
                        connection_of == (|c: ClientId| before.connection(c)),
                        self.client_connections == before.client_connections,
                        contents(out) == message,
                        sent(packets@) == fan_out(list.take(i as int), connection_of, message),
                    decreases subscribers.entries.len() - i,
                {
                    let client: ClientId = subscribers.entries[i].0;
                    proof {
                        assert(list[i as int] == (client, ()));
                        assert(list.take(i + 1).drop_last() =~= list.take(i as int));
                        assert(connection_of(client) == before.connection(client));
                    }
                    match self.client_connections.get(&client) {
                        Some(to) => {
                            packets.push(Packet { to: *to, data: bytes_clone(&out) });
                            assert(sent(packets@) =~= fan_out(
                                list.take(i as int),
                                connection_of,
                                message,
                            ).push((before.connection(client).unwrap(), message)));
                        },
                        None => {},
                    }
                    i = i + 1;
                }
                assert(list.take(i as int) =~= list);
            },
            None => {
                assert(list.take(0) =~= list);
            },
        }
        packets
    }

    /// Takes an input of a client.
    pub fn client_input(&mut self, conn: u128, client_id: ClientId, input: [u8; 16]) -> (r: Vec<
        Packet,
    >)
        requires
            old(self).wf(),
        ensures
            final(self).wf(),
            old(self).took_input(*final(self), sent(r@), conn, client_id, input@),
    {
        broadcast use vstd::std_specs::hash::group_hash_axioms;

        let ghost before = *self;
        let ghost list = before.topics(client_id);
        let ghost shard_of = |t: Seq<u8>| before.shard(t);
        let ghost message = input_message(client_id, input@);
        self.client_connections.insert(client_id, conn);
        proof {
            assert(forall|t: Seq<u8>| #[trigger]
                self.subscribers(t) == before.subscribers(t));
            assert(forall|c: ClientId| #[trigger] self.topics(c) == before.topics(c));
            assert(forall|t: Seq<u8>| #[trigger] self.shard(t) == before.shard(t));
        }
        let mut packets: Vec<Packet> = Vec::new();
        assert(list.take(0) =~= Seq::empty());
        assert(sent(packets@) =~= fan_out(list.take(0), shard_of, message));
        match self.client_topics.get(&client_id) {
            Some(topics) => {
                let out = input_packet(client_id, &input);
                let mut i: usize = 0;
                while i < topics.entries.len()
                    invariant
                        i <= topics.entries.len(),
                        topics.pairs() == list,
                        shard_of == (|t: Seq<u8>| before.shard(t)),
                        self.shards == before.shards,
                        contents(out) == message,
                        sent(packets@) == fan_out(list.take(i as int), shard_of, message),
                    decreases topics.entries.len() - i,
                {
                    let topic: Topic = topics.entries[i].0;
                    proof {
                        assert(list[i as int] == (topic@, ()));
                        assert(list.take(i + 1).drop_last() =~= list.take(i as int));
                        assert(shard_of(topic@) == before.shard(topic@));
                    }
                    match self.shards.get(&topic) {
                        Some(to) => {
                            packets.push(Packet { to: *to, data: bytes_clone(&out) });
                            assert(sent(packets@) =~= fan_out(
                                list.take(i as int),
                                shard_of,
                                message,
                            ).push((before.shard(topic@).unwrap(), message)));
                        },
                        None => {},
                    }
                    i = i + 1;
                }
                assert(list.take(i as int) =~= list);
            },
            None => {
                assert(list.take(0) =~= list);
            },
        }
        packets
    }

    /// Handles a message that came on a connection; gives what is to be sent.
    pub fn handle_message(&mut self, conn: u128, message: bytes::Bytes) -> (r: Vec<Packet>)
        requires
            old(self).wf(),
        ensures
            final(self).wf(),
            old(self).handled(*final(self), sent(r@), conn, contents(message)),
    {
        let mut data = message;
        let ghost whole = contents(message);
        let ghost body = whole.skip(1);
        if bytes_remaining(&data) == 0 {
            return Vec::new();
        }
        let tag: u8 = bytes_get_u8(&mut data);
        if tag == TAG_SUBSCRIBE || tag == TAG_UNSUBSCRIBE {
            if bytes_remaining(&data) >= 16 + 32 {
                let id: [u8; 16] = bytes_copy_to_array(&mut data);
                let topic: Topic = bytes_copy_to_array(&mut data);
                let client_id: ClientId = read_id(&id, 0);
                proof {
                    assert(id@.subrange(0, 16) =~= body.subrange(0, 16));
                    assert(topic@ =~= body.subrange(16, 48));
                }
                if tag == TAG_SUBSCRIBE {
                    self.subscribe(topic, client_id);
                } else {
                    self.unsubscribe(topic, client_id);
                }
            }
            Vec::new()
        } else if tag == TAG_PUBLISH {
            if bytes_remaining(&data) >= 32 + 2 {
                let topic: Topic = bytes_copy_to_array(&mut data);
                let length: u16 = bytes_get_u16_le(&mut data);
                proof {
                    assert(le16(length) =~= body.subrange(32, 34));
                    assert(le16(length)[0] == body[32] && le16(length)[1] == body[33]);
                    assert(u16_at(body, 32) == length);
                }
                if bytes_remaining(&data) >= length as usize {
                    let payload = bytes_copy_to_bytes(&mut data, length as usize);
                    assert(contents(payload) =~= body.subrange(34, 34 + length));
                    return self.publish(conn, topic, payload);
                }
            }
            Vec::new()
        } else if tag == TAG_CLIENT_INPUT {
            if bytes_remaining(&data) >= 16 + 16 {
                let id: [u8; 16] = bytes_copy_to_array(&mut data);
                let input: [u8; 16] = bytes_copy_to_array(&mut data);
                let client_id: ClientId = read_id(&id, 0);
                proof {
                    assert(id@.subrange(0, 16) =~= body.subrange(0, 16));
                    assert(input@ =~= body.subrange(16, 32));
                }
                return self.client_input(conn, client_id, input);
            }
            Vec::new()
        } else if tag == TAG_ROUTE_TO_SHARD {
            let mut packets: Vec<Packet> = Vec::new();
            if bytes_remaining(&data) >= 32 {
                let topic: Topic = bytes_copy_to_array(&mut data);
                let left: usize = bytes_remaining(&data);
                let inner = bytes_copy_to_bytes(&mut data, left);
                assert(contents(inner) =~= body.skip(32));
                match self.shards.get(&topic) {
                    Some(to) => {
                        packets.push(Packet { to: *to, data: inner });
                        assert(sent(packets@) =~= seq![(*to, body.skip(32))]);
                    },
                    None => {
                        assert(sent(packets@) =~= Seq::empty());
                    },
                }
            }
            packets
        } else {
            Vec::new()
        }
    }
}

/// What a subscriber gets of a publication.
pub open spec fn broadcast_message(payload: Seq<u8>) -> Seq<u8> {
    seq![TAG_BROADCAST] + le16(payload.len() as u16) + payload
}

fn broadcast_packet(payload: bytes::Bytes) -> (r: bytes::Bytes)
    requires
        contents(payload).len() <= 0xffff,
    ensures
        contents(r) == broadcast_message(contents(payload)),
{
    let length: usize = bytes_remaining(&payload);
    let mut out = bytes_mut_with_capacity(1 + 2 + length);
    bytes_mut_put_u8(&mut out, TAG_BROADCAST);
    bytes_mut_put_u16_le(&mut out, length as u16);
    bytes_mut_put(&mut out, payload);
    let r = bytes_mut_freeze(out);
    assert(contents(r) =~= broadcast_message(contents(payload)));
    r
}

/// What a shard is told when a client left.
pub open spec fn leave_message(client: ClientId) -> Seq<u8> {
    input_message(client, seq![INPUT_LEAVE] + Seq::new(15, |i: int| 0u8))
}

/// The input of a client, as it is forwarded.
pub open spec fn input_message(client: ClientId, input: Seq<u8>) -> Seq<u8> {
    seq![TAG_CLIENT_INPUT] + id_bytes(client) + input
}

/// One message to each of a list that has a connection, in order.
pub open spec fn fan_out<I>(
    list: Seq<(I, ())>,
    connection: spec_fn(I) -> Option<u128>,
    message: Seq<u8>,
) -> Seq<(u128, Seq<u8>)>
    decreases list.len(),
{
    if list.len() == 0 {
        Seq::empty()
    } else {
        let rest = fan_out(list.drop_last(), connection, message);
        match connection(list.last().0) {
            Some(to) => rest.push((to, message)),
            None => rest,
        }
    }
}

/// The bytes of a client's input.
fn input_packet(client_id: ClientId, input: &[u8; 16]) -> (r: bytes::Bytes)
    ensures
        contents(r) == input_message(client_id, input@),
{
    let id = id_to_bytes(client_id);
    proof {
        lemma_id_bytes(client_id);
    }
    let mut out = bytes_mut_with_capacity(1 + 16 + 16);
    bytes_mut_put_u8(&mut out, TAG_CLIENT_INPUT);
    bytes_mut_put_slice(&mut out, &id);
    bytes_mut_put_slice(&mut out, input);
    let r = bytes_mut_freeze(out);
    assert(contents(r) =~= input_message(client_id, input@));
    r
}

fn leave_packet(client_id: ClientId) -> (r: bytes::Bytes)
    ensures
        contents(r) == leave_message(client_id),
{
    let mut input: [u8; 16] = [0u8; 16];
    input[0] = INPUT_LEAVE;
    assert(input@ =~= seq![INPUT_LEAVE] + Seq::new(15, |i: int| 0u8));
    input_packet(client_id, &input)
}

/// A key is among more entries where it was before, or where it came last.
proof fn lemma_push_key<I>(s: Seq<(I, ())>, k: I)
    ensures
        forall|x: I| #[trigger]
            holds_key(s.push((k, ())), x) <==> (holds_key(s, x) || x == k),
{
    let p = s.push((k, ()));
    assert forall|x: I| #[trigger] holds_key(p, x) <==> (holds_key(s, x) || x == k) by {
        lemma_place(s, x);
        lemma_place(p, x);
        if holds_key(s, x) {
            assert(p[place(s, x)].0 == x);
        }
        if x == k {
            assert(p[s.len() as int].0 == x);
        }
        if holds_key(p, x) && x != k {
            assert(s[place(p, x)].0 == x);
        }
    }
}

/// The entry at place `n` is not among those before it.
proof fn lemma_distinct_prefix<I>(s: Seq<(I, ())>, n: int)
    requires
        distinct(s),
        0 <= n < s.len(),
    ensures
        !(holds_key(s.take(n), s[n].0)),
{
    let t = s.take(n);
    lemma_place(t, s[n].0);
    if place(t, s[n].0) < t.len() {
        assert(t[place(t, s[n].0)] == s[place(t, s[n].0)]);
    }
}

/// Taking a new subscription back leaves nobody subscribed to anything else
/// than before.
pub proof fn law_unsubscribe_undoes_subscribe(
    before: BrokerState,
    between: BrokerState,
    after: BrokerState,
    topic: Seq<u8>,
    client: ClientId,
)
    requires
        before.wf(),
        !(holds_key(before.subscribers(topic), client)),
        before.changed_subscription(between, topic, client, true),
        between.changed_subscription(after, topic, client, false),
    ensures
        before.same_subscriptions(after),
{
    let subs = before.subscribers(topic);
    let topics = before.topics(client);
    assert(!(holds_key(topics, topic)));
    lemma_put_then_without(subs, client);
    lemma_put_then_without(topics, topic);
    assert forall|t: Seq<u8>| #[trigger] after.subscribers(t) == before.subscribers(t) by {
        assert(between.subscribers(t) == if t == topic {
            put(subs, client, ())
        } else {
            before.subscribers(t)
        });
    }
    assert forall|c: ClientId| #[trigger] after.topics(c) == before.topics(c) by {
        assert(between.topics(c) == if c == client {
            put(topics, topic, ())
        } else {
            before.topics(c)
        });
    }
}

/// Subscribing a second time changes nothing.
pub proof fn law_subscribe_is_idempotent(
    before: BrokerState,
    after: BrokerState,
    topic: Seq<u8>,
    client: ClientId,
)
    requires
        before.wf(),
        holds_key(before.subscribers(topic), client),
        before.changed_subscription(after, topic, client, true),
    ensures
        before.same_subscriptions(after),
{
    let subs = before.subscribers(topic);
    let topics = before.topics(client);
    assert(holds_key(topics, topic));
    lemma_place(subs, client);
    lemma_place(topics, topic);
    assert(put(subs, client, ()) =~= subs);
    assert(put(topics, topic, ()) =~= topics);
}

/// Everyone on the list who has a connection is sent the message, and nobody
/// else is sent anything.
pub proof fn law_fan_out_reaches_the_connected<I>(
    list: Seq<(I, ())>,
    connection: spec_fn(I) -> Option<u128>,
    message: Seq<u8>,
)
    ensures
        forall|i: int| 0 <= i < fan_out(list, connection, message).len() ==> (
        #[trigger] fan_out(list, connection, message)[i]).1 == message,
        forall|to: u128|
            fan_out(list, connection, message).contains((to, message)) <==> exists|i: int|
                0 <= i < list.len() && connection((#[trigger] list[i]).0) == Some(to),
    decreases list.len(),
{
    let out = fan_out(list, connection, message);
    if list.len() > 0 {
        let rest_list = list.drop_last();
        let rest = fan_out(rest_list, connection, message);
        law_fan_out_reaches_the_connected(rest_list, connection, message);
        assert forall|to: u128|
            out.contains((to, message)) <==> exists|i: int|
                0 <= i < list.len() && connection((#[trigger] list[i]).0) == Some(to) by {
            if out.contains((to, message)) {
                let i = choose|i: int| 0 <= i < out.len() && out[i] == (to, message);
                if i < rest.len() {
                    assert(rest[i] == (to, message));
                    assert(rest.contains((to, message)));
                    let j = choose|j: int|
                        0 <= j < rest_list.len() && connection((#[trigger] rest_list[j]).0) == Some(to);
                    assert(list[j] == rest_list[j]);
                } else {
                    assert(connection(list[list.len() - 1].0) == Some(to));
                }
            }
            if exists|i: int| 0 <= i < list.len() && connection((#[trigger] list[i]).0) == Some(to) {
                let i = choose|i: int|
                    0 <= i < list.len() && connection((#[trigger] list[i]).0) == Some(to);
                if i < rest_list.len() {
                    assert(rest_list[i] == list[i]);
                    assert(rest.contains((to, message)));
                    let j = choose|j: int| 0 <= j < rest.len() && rest[j] == (to, message);
                    assert(out[j] == (to, message));
                } else {
                    assert(out[out.len() - 1] == (to, message));
                }
            }
        }
    }
}

/// A client that was forgotten is on no topic, and is sent nothing.
pub proof fn law_dropped_client_is_gone(
    before: BrokerState,
    after: BrokerState,
    packets: Seq<(u128, Seq<u8>)>,
    client: ClientId,
    topic: Seq<u8>,
)
    requires
        before.wf(),
        before.dropped_client(after, packets, client),
    ensures
        !(holds_key(after.subscribers(topic), client)),
        after.connection(client) is None,
        forall|c: ClientId|
            c != client ==> (holds_key(after.subscribers(topic), c) <==> holds_key(
                before.subscribers(topic),
                c,
            )),
{
    lemma_without_keys(before.subscribers(topic), client);
    assert(after.subscribers(topic) == without(before.subscribers(topic), client));
}

/// The last entry that was put in is the one that is taken out.
proof fn lemma_put_then_without<I>(s: Seq<(I, ())>, k: I)
    requires
        !(holds_key(s, k)),
    ensures
        without(put(s, k, ()), k) == s,
{
    let p = put(s, k, ());
    lemma_place(s, k);
    assert forall|i: int| 0 <= i < s.len() implies (#[trigger] p[i]).0 != k by {
        assert(s[i].0 != k);
    }
    lemma_place_is(p, k, s.len() as int);
    assert(p.remove(s.len() as int) =~= s);
}

/// Removing a key from a set takes it out and nothing else.
proof fn lemma_without_keys<I>(s: Seq<(I, ())>, k: I)
    requires
        distinct(s),
    ensures
        distinct(without(s, k)),
        without(s, k).len() == (if holds_key(s, k) {
            s.len() - 1
        } else {
            s.len() as int
        }),
        forall|x: I| #[trigger] holds_key(without(s, k), x) <==> (holds_key(s, x) && x != k),
{
    assert forall|x: I| #[trigger] holds_key(without(s, k), x) <==> (holds_key(s, x) && x != k) by {
        law_without_lookup(s, k, x);
    }
    law_without_lookup(s, k, k);
    lemma_place(s, k);
}

/// Putting a key into a set adds it and nothing else.
proof fn lemma_put_keys<I>(s: Seq<(I, ())>, k: I)
    requires
        distinct(s),
    ensures
        distinct(put(s, k, ())),
        put(s, k, ()).len() > 0,
        forall|x: I| #[trigger] holds_key(put(s, k, ()), x) <==> (holds_key(s, x) || x == k),
{
    assert forall|x: I| #[trigger] holds_key(put(s, k, ()), x) <==> (holds_key(s, x) || x == k) by {
        law_put_lookup(s, k, (), x);
    }
    law_put_lookup(s, k, (), k);
    lemma_place(s, k);
}

/// A message goes to the members of a list one after the other.
pub proof fn law_fan_out_goes_in_turn<I>(
    a: Seq<(I, ())>,
    b: Seq<(I, ())>,
    connection: spec_fn(I) -> Option<u128>,
    message: Seq<u8>,
)
    ensures
        fan_out(a + b, connection, message) == fan_out(a, connection, message) + fan_out(
            b,
            connection,
            message,
        ),
    decreases b.len(),
{
    if b.len() == 0 {
        assert(a + b =~= a);
        assert(fan_out(a, connection, message) + fan_out(b, connection, message) =~= fan_out(
            a,
            connection,
            message,
        ));
    } else {
        law_fan_out_goes_in_turn(a, b.drop_last(), connection, message);
        assert((a + b).drop_last() =~= a + b.drop_last());
        assert(fan_out(a + b, connection, message) =~= fan_out(a, connection, message) + fan_out(
            b,
            connection,
            message,
        ));
    }
}

/// A member of a list that has a connection is sent the message once, on that
/// connection; one that has none is sent nothing.
pub proof fn law_one_is_sent_once<I>(
    k: I,
    connection: spec_fn(I) -> Option<u128>,
    message: Seq<u8>,
)
    ensures
        fan_out(seq![(k, ())], connection, message) == match connection(k) {
            Some(to) => seq![(to, message)],
            None => Seq::<(u128, Seq<u8>)>::empty(),
        },
{
    let one = seq![(k, ())];
    assert(one.drop_last() =~= Seq::empty());
    assert(fan_out(one.drop_last(), connection, message) =~= Seq::empty());
    assert(fan_out(one, connection, message) =~= match connection(k) {
        Some(to) => seq![(to, message)],
        None => Seq::<(u128, Seq<u8>)>::empty(),
    });
}

/// After a subscription was added to, or taken off, exactly that client is, or
/// is not, subscribed to exactly that topic; every other subscription, and
/// every shard, is as before.
pub proof fn law_one_subscription_changes(
    before: BrokerState,
    after: BrokerState,
    topic: Seq<u8>,
    client: ClientId,
    added: bool,
    t: Seq<u8>,
    c: ClientId,
)
    requires
        before.wf(),
        before.changed_subscription(after, topic, client, added),
    ensures
        holds_key(after.subscribers(t), c) <==> if t == topic && c == client {
            added
        } else {
            holds_key(before.subscribers(t), c)
        },
        holds_key(after.topics(c), t) <==> if t == topic && c == client {
            added
        } else {
            holds_key(before.topics(c), t)
        },
        after.shard(t) == before.shard(t),
{
    let subs = before.subscribers(t);
    let topics = before.topics(c);
    assert(distinct(subs) && distinct(topics));
    lemma_put_keys(subs, client);
    lemma_without_keys(subs, client);
    lemma_put_keys(topics, topic);
    lemma_without_keys(topics, topic);
    assert(after.subscribers(t) == if t != topic {
        subs
    } else if added {
        put(subs, client, ())
    } else {
        without(subs, client)
    });
    assert(after.topics(c) == if c != client {
        topics
    } else if added {
        put(topics, topic, ())
    } else {
        without(topics, topic)
    });
    assert(holds_key(put(subs, client, ()), c) <==> (holds_key(subs, c) || c == client));
    assert(holds_key(without(subs, client), c) <==> (holds_key(subs, c) && c != client));
    assert(holds_key(put(topics, topic, ()), t) <==> (holds_key(topics, t) || t == topic));
    assert(holds_key(without(topics, topic), t) <==> (holds_key(topics, t) && t != topic));
}

/// When a client is forgotten, exactly the shards that publish one of its topics are
/// told that it left; no other client, and no shard, changes.
pub proof fn law_leaving_is_told_to_its_shards(
    before: BrokerState,
    after: BrokerState,
    packets: Seq<(u128, Seq<u8>)>,
    client: ClientId,
    to: u128,
    other: ClientId,
    topic: Seq<u8>,
)
    requires
        before.wf(),
        before.dropped_client(after, packets, client),
    ensures
        packets.contains((to, leave_message(client))) <==> exists|t: Seq<u8>| #[trigger]
            holds_key(before.topics(client), t) && before.shard(t) == Some(to),
        forall|k: int| 0 <= k < packets.len() ==> (#[trigger] packets[k]).1 == leave_message(client),
        after.shard(topic) == before.shard(topic),
        other != client ==> after.connection(other) == before.connection(other),
        other != client ==> after.topics(other) == before.topics(other),
        after.topics(client).len() == 0,
{
    let list = before.topics(client);
    let shard = |t: Seq<u8>| before.shard(t);
    law_fan_out_reaches_the_connected(list, shard, leave_message(client));
    if exists|t: Seq<u8>| #[trigger] holds_key(list, t) && before.shard(t) == Some(to) {
        let t = choose|t: Seq<u8>| #[trigger] holds_key(list, t) && before.shard(t) == Some(to);
        lemma_place(list, t);
        assert(shard(list[place(list, t)].0) == Some(to));
    }
    if packets.contains((to, leave_message(client))) {
        let i = choose|i: int|
            0 <= i < list.len() && shard((#[trigger] list[i]).0) == Some(to);
        lemma_holds_entry(list, i);
        assert(before.shard(list[i].0) == Some(to));
    }
}

/// What stands in a list is found there.
pub proof fn lemma_holds_entry<I>(s: Seq<(I, ())>, i: int)
    requires
        0 <= i < s.len(),
    ensures
        holds_key(s, s[i].0),
{
    lemma_place(s, s[i].0);
    if !(holds_key(s, s[i].0)) {
        assert(s[i].0 != s[i].0);
    }
}

/// When a connection is closed, the client that was last heard on it is
/// forgotten: it is on no topic and has no connection, and the shards that
/// publish its topics, and nobody else, are told that it left. Every other
/// client stays. A connection that no client was heard on changes nothing.
pub proof fn law_closed_connection_forgets_its_client(
    before: BrokerState,
    after: BrokerState,
    packets: Seq<(u128, Seq<u8>)>,
    conn: u128,
    client: ClientId,
    other: ClientId,
    topic: Seq<u8>,
    to: u128,
)
    requires
        before.wf(),
        before.disconnected(after, packets, conn),
        forall|c: ClientId| #[trigger] before.connection(c) == Some(conn) ==> c == client,
    ensures
        before.connection(client) == Some(conn) ==> {
            &&& after.connection(client) is None
            &&& !(holds_key(after.subscribers(topic), client))
            &&& packets.contains((to, leave_message(client))) <==> exists|t: Seq<u8>| #[trigger]
                holds_key(before.topics(client), t) && before.shard(t) == Some(to)
        },
        before.connection(client) != Some(conn) ==> after == before && packets.len() == 0,
        other != client ==> after.connection(other) == before.connection(other) && (holds_key(
            after.subscribers(topic),
            other,
        ) <==> holds_key(before.subscribers(topic), other)),
        after.shard(topic) == before.shard(topic),
{
    if before.connection(client) == Some(conn) {
        law_dropped_client_is_gone(before, after, packets, client, topic);
        law_leaving_is_told_to_its_shards(before, after, packets, client, to, other, topic);
    }
}

} // verus!
