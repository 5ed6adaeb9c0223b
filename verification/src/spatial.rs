//! The spatial service: which shards to alert of a client near their border,
//! and which topics a client sees.

use crate::outside::{
    bytes_mut_freeze, bytes_mut_put_slice, bytes_mut_put_u32_le, bytes_mut_put_u8,
    bytes_mut_with_capacity, contents,
};
use crate::packet::{sent, Packet};
use crate::quad_tree::{
    default_tree, grid_shard, increasing, law_default_near, law_default_owner,
    law_near_shards_have_a_leaf, law_owner_is_near, leaf_reached, lemma_is_rising, quadrant, rising,
    QuadTree,
};
use crate::single::{at_most, Single};
use crate::text::{
    all_digits, decimal, has_text, insert_ordered, is_listing, law_decimal_round_trip,
    lemma_is_listing, lemma_listing_exists, listing, ordered, text_below, texts, with_number,
};
use crate::wire::{
    id_at, id_bytes, id_to_bytes, law_le32_round_trip, le32, lemma_id_bytes, read_id, read_le32,
    topic_of, topic_to_bytes, u32_at, TAG_CROSSING_ALERT, TAG_POSITION_UPDATE, TAG_SUBSCRIBE,
    TAG_UNSUBSCRIBE,
};
use std::collections::HashMap;
use vstd::arithmetic::power::{lemma_pow1, lemma_pow_adds, pow};
use vstd::prelude::*;
use vstd::string::*;

verus! {

/// Authority: how close to a neighbour shard a client is handed over, 50.
pub const BOUNDARY_MARGIN: u32 = 0x4248_0000;

/// Visibility at the full rate, half a side of 200.
pub const AOI_NEAR: u32 = 0x4348_0000;

/// Visibility at the low rate, half a side of 350.
pub const AOI_FAR: u32 = 0x43af_0000;

/// A change of what a client is subscribed to: the client and the topic.
#[derive(Debug, PartialEq)]
pub enum SubAction {
    Subscribe(u128, String),
    Unsubscribe(u128, String),
}

/// What is known of the clients.
pub struct SpatialState {
    /// The shard that has authority over each client.
    pub client_home: HashMap<u128, u32>,
    /// The topics that each client is subscribed to.
    pub client_subs: HashMap<u128, Vec<String>>,
    pub broker_conn: Option<u128>,
}

/// The label under which a shard publishes at the full rate.
pub open spec fn near_label(shard: u32) -> Seq<char> {
    "shard:"@ + decimal(shard as nat)
}

/// The label under which a shard publishes at the low rate.
pub open spec fn far_label(shard: u32) -> Seq<char> {
    near_label(shard) + ":far"@
}

/// The label under which a shard publishes at the full rate.
pub fn shard_label(shard: u32) -> (r: String)
    ensures
        r@ == near_label(shard),
{
    with_number("shard:", shard as u64)
}

/// The label under which a shard publishes at the low rate.
pub fn shard_label_far(shard: u32) -> (r: String)
    ensures
        r@ == far_label(shard),
{
    let mut r = shard_label(shard);
    r.append(":far");
    r
}

/// The shards to alert of a client: those near it but for its own and the one
/// that it was in before.
pub open spec fn alert_set(
    tree: QuadTree,
    pos: [Single; 2],
    margin: Single,
    previous: Option<u32>,
) -> Set<u32> {
    Set::new(
        |d: u32|
            tree.near(pos, margin).contains(d) && Some(d) != tree.owner(pos) && Some(d) != previous,
    )
}

/// The shards of the clients once one of them was reported, in the shard that
/// owns its position, if any does.
pub open spec fn homes_after(home: Map<u128, u32>, client: u128, owner: Option<u32>) -> Map<
    u128,
    u32,
> {
    match owner {
        Some(shard) => home.insert(client, shard),
        None => home,
    }
}

/// Authority side: the shards to alert for a possible handoff.
/// Records the shard of the client, and does not alert the shard just left.
pub fn compute_crossing_alerts(
    client_uuid: u128,
    x: Single,
    y: Single,
    client_home: &mut HashMap<u128, u32>,
    quad_tree: &QuadTree,
    margin: Single,
) -> (r: Vec<u32>)
    ensures
        final(client_home)@ == homes_after(
            old(client_home)@,
            client_uuid,
            quad_tree.owner([x, y]),
        ),
        match quad_tree.owner([x, y]) {
            None => r@.len() == 0 && final(client_home)@ == old(client_home)@,
            Some(shard) => {
                &&& final(client_home)@ == old(client_home)@.insert(client_uuid, shard)
                &&& r@ == rising(
                    alert_set(*quad_tree, [x, y], margin, old(client_home)@.get(client_uuid)),
                )
                &&& increasing(r@)
                &&& r@.to_set() == alert_set(
                    *quad_tree,
                    [x, y],
                    margin,
                    old(client_home)@.get(client_uuid),
                )
            },
        },
{
    broadcast use vstd::std_specs::hash::group_hash_axioms;

    let pos = [x, y];
    let new_shard: u32 = match quad_tree.shard_for(pos) {
        Some(id) => id,
        None => {
            return Vec::new();
        },
    };
    let old_shard: Option<u32> = match client_home.get(&client_uuid) {
        Some(id) => Some(*id),
        None => None,
    };
    assert(old_shard == old(client_home)@.get(client_uuid));
    if old_shard != Some(new_shard) {
        client_home.insert(client_uuid, new_shard);
    }
    assert(client_home@ =~= old(client_home)@.insert(client_uuid, new_shard));
    let near = quad_tree.shards_near(pos, margin);
    let mut alerts: Vec<u32> = Vec::new();
    let mut i: usize = 0;
    while i < near.len()
        invariant
            i <= near.len(),
            increasing(near@),
            increasing(alerts@),
            forall|k: int| 0 <= k < alerts.len() ==> exists|n: int|
                0 <= n < i && near@[n] == #[trigger] alerts@[k],
            forall|d: u32|
                alerts@.contains(d) <==> (#[trigger] near@.take(i as int).contains(d) && d != new_shard
                    && Some(d) != old_shard),
        decreases near.len() - i,
    {
        let dest: u32 = near[i];
        let ghost before = alerts@;
        let ghost t = near@.take(i as int);
        if dest != new_shard && Some(dest) != old_shard {
            alerts.push(dest);
            assert forall|k: int, l: int| 0 <= k < l < alerts.len() implies alerts@[k] < alerts@[l] by {
                if l == before.len() {
                    let n = choose|n: int| 0 <= n < i && near@[n] == before[k];
                    assert(near@[n] < near@[i as int]);
                }
            }
        }
        assert(near@.take(i + 1) =~= t.push(dest));
        assert forall|d: u32|
            alerts@.contains(d) <==> (#[trigger] near@.take(i + 1).contains(d) && d != new_shard
                && Some(d) != old_shard) by {
            if t.contains(d) {
                let n = choose|n: int| 0 <= n < t.len() && t[n] == d;
                assert(t.push(dest)[n] == d);
            }
            if d == dest {
                assert(t.push(dest)[i as int] == d);
            }
            if before.contains(d) {
                let n = choose|n: int| 0 <= n < before.len() && before[n] == d;
                assert(alerts@[n] == d);
            }
            if alerts@.len() > before.len() {
                assert(alerts@[before.len() as int] == dest);
            }
            if alerts@.contains(d) && d != dest {
                let n = choose|n: int| 0 <= n < alerts@.len() && alerts@[n] == d;
                assert(before[n] == d);
            }
            if t.push(dest).contains(d) && d != dest {
                let n = choose|n: int| 0 <= n < t.push(dest).len() && t.push(dest)[n] == d;
                assert(t[n] == d);
            }
        }
        assert forall|k: int| 0 <= k < alerts.len() implies exists|n: int|
            0 <= n < i + 1 && near@[n] == #[trigger] alerts@[k] by {
            if k < before.len() {
                let n = choose|n: int| 0 <= n < i && near@[n] == before[k];
                assert(near@[n] == alerts@[k]);
            } else {
                assert(near@[i as int] == alerts@[k]);
            }
        }
        i = i + 1;
    }
    proof {
        assert(near@.take(i as int) =~= near@);
        lemma_is_rising(alerts@);
        let set = alert_set(*quad_tree, pos, margin, old_shard);
        assert forall|d: u32| alerts@.to_set().contains(d) <==> set.contains(d) by {
            assert(alerts@.contains(d) <==> near@.take(i as int).contains(d) && d != new_shard && Some(
                d,
            ) != old_shard);
        }
        assert(alerts@.to_set() =~= set);
        assert(pos =~= [x, y]);
    }
    alerts
}

/// The topics that a client at a position sees: the shards within the near
/// square at the full rate, and at the low rate the further shards within the
/// far square.
pub open spec fn desired(tree: QuadTree, pos: [Single; 2], near: Single, far: Single) -> Set<
    Seq<char>,
> {
    Set::new(
        |t: Seq<char>|
            {
                ||| exists|id: u32| #[trigger]
                    tree.near(pos, near).contains(id) && t == near_label(id)
                ||| exists|id: u32| #[trigger]
                    tree.near(pos, far).contains(id) && !tree.near(pos, near).contains(id) && t
                        == far_label(id)
            },
    )
}

/// The topics that a client is subscribed to.
pub open spec fn subscribed(subs: Map<u128, Vec<String>>, client: u128) -> Set<Seq<char>> {
    if subs.contains_key(client) {
        texts(subs[client]@).to_set()
    } else {
        Set::empty()
    }
}

/// What an action says: whether it subscribes, the client and the topic.
pub open spec fn action_view(a: SubAction) -> (bool, u128, Seq<char>) {
    match a {
        SubAction::Subscribe(id, topic) => (true, id, topic@),
        SubAction::Unsubscribe(id, topic) => (false, id, topic@),
    }
}

/// What a list of actions says.
pub open spec fn actions_view(v: Seq<SubAction>) -> Seq<(bool, u128, Seq<char>)> {
    Seq::new(v.len(), |i: int| action_view(v[i]))
}

/// The changes that lead from one set of topics to another: first what is
/// dropped, then what is added, each in order.
pub open spec fn changes(client: u128, from: Set<Seq<char>>, to: Set<Seq<char>>) -> Seq<
    (bool, u128, Seq<char>),
> {
    let dropped = listing(from.difference(to));
    let added = listing(to.difference(from));
    Seq::new(dropped.len(), |i: int| (false, client, dropped[i])) + Seq::new(
        added.len(),
        |i: int| (true, client, added[i]),
    )
}

/// The desired topics as a list in order.
fn desired_topics(near_shards: &Vec<u32>, far_shards: &Vec<u32>) -> (r: Vec<String>)
    ensures
        is_listing(
            texts(r@),
            Set::new(
                |t: Seq<char>|
                    {
                        ||| exists|id: u32| #[trigger]
                            near_shards@.contains(id) && t == near_label(id)
                        ||| exists|id: u32| #[trigger]
                            far_shards@.contains(id) && !near_shards@.contains(id) && t
                                == far_label(id)
                    },
            ),
        ),
{
    let mut topics: Vec<String> = Vec::new();
    let mut i: usize = 0;
    while i < near_shards.len()
        invariant
            i <= near_shards.len(),
            ordered(texts(topics@)),
            forall|t: Seq<char>|
                texts(topics@).contains(t) <==> exists|k: int|
                    0 <= k < i && t == near_label(#[trigger] near_shards@[k]),
        decreases near_shards.len() - i,
    {
        let ghost before = texts(topics@);
        insert_ordered(&mut topics, shard_label(near_shards[i]));
        assert forall|t: Seq<char>|
            texts(topics@).contains(t) <==> exists|k: int|
                0 <= k < i + 1 && t == near_label(#[trigger] near_shards@[k]) by {
            if before.contains(t) {
                let k = choose|k: int| 0 <= k < i && t == near_label(#[trigger] near_shards@[k]);
                assert(t == near_label(near_shards@[k]));
            }
            if t == near_label(near_shards@[i as int]) {
                assert(texts(topics@).contains(t));
            }
        }
        i = i + 1;
    }
    let mut j: usize = 0;
    while j < far_shards.len()
        invariant
            j <= far_shards.len(),
            ordered(texts(topics@)),
            forall|t: Seq<char>|
                texts(topics@).contains(t) <==> {
                    ||| exists|k: int|
                        0 <= k < near_shards.len() && t == near_label(#[trigger] near_shards@[k])
                    ||| exists|k: int|
                        0 <= k < j && !near_shards@.contains(far_shards@[k]) && t == far_label(
                            #[trigger] far_shards@[k],
                        )
                },
        decreases far_shards.len() - j,
    {
        let shard: u32 = far_shards[j];
        let ghost before = texts(topics@);
        let mut found: bool = false;
        let mut k: usize = 0;
        while k < near_shards.len()
            invariant
                k <= near_shards.len(),
                found == near_shards@.take(k as int).contains(shard),
            decreases near_shards.len() - k,
        {
            let ghost t = near_shards@.take(k as int);
            assert(near_shards@.take(k + 1) =~= t.push(near_shards@[k as int]));
            if near_shards[k] == shard {
                found = true;
                assert(t.push(shard)[k as int] == shard);
            }
            proof {
                if t.contains(shard) {
                    let n = choose|n: int| 0 <= n < t.len() && t[n] == shard;
                    assert(t.push(near_shards@[k as int])[n] == shard);
                }
            }
            k = k + 1;
        }
        assert(near_shards@.take(k as int) =~= near_shards@);
        if !found {
            insert_ordered(&mut topics, shard_label_far(shard));
        }
        assert forall|t: Seq<char>|
            texts(topics@).contains(t) <==> {
                ||| exists|k: int|
                    0 <= k < near_shards.len() && t == near_label(#[trigger] near_shards@[k])
                ||| exists|k: int|
                    0 <= k < j + 1 && !near_shards@.contains(far_shards@[k]) && t == far_label(
                        #[trigger] far_shards@[k],
                    )
            } by {
            if before.contains(t) {
                if !exists|k: int|
                    0 <= k < near_shards.len() && t == near_label(#[trigger] near_shards@[k]) {
                    let k = choose|k: int|
                        0 <= k < j && !near_shards@.contains(far_shards@[k]) && t == far_label(
                            #[trigger] far_shards@[k],
                        );
                    assert(t == far_label(far_shards@[k]));
                }
            }
            if !found && t == far_label(far_shards@[j as int]) {
                assert(texts(topics@).contains(t));
            }
        }
        j = j + 1;
    }
    proof {
        let set = Set::new(
            |t: Seq<char>|
                {
                    ||| exists|id: u32| #[trigger]
                        near_shards@.contains(id) && t == near_label(id)
                    ||| exists|id: u32| #[trigger]
                        far_shards@.contains(id) && !near_shards@.contains(id) && t == far_label(id)
                },
        );
        assert forall|t: Seq<char>| texts(topics@).contains(t) <==> #[trigger] set.contains(t) by {
            if exists|id: u32| #[trigger] near_shards@.contains(id) && t == near_label(id) {
                let id = choose|id: u32| #[trigger]
                    near_shards@.contains(id) && t == near_label(id);
                let k = choose|k: int| 0 <= k < near_shards.len() && near_shards@[k] == id;
                assert(t == near_label(near_shards@[k]));
            }
            if exists|id: u32| #[trigger]
                far_shards@.contains(id) && !near_shards@.contains(id) && t == far_label(id) {
                let id = choose|id: u32| #[trigger]
                    far_shards@.contains(id) && !near_shards@.contains(id) && t == far_label(id);
                let k = choose|k: int| 0 <= k < far_shards.len() && far_shards@[k] == id;
                assert(t == far_label(far_shards@[k]));
            }
            if exists|k: int|
                0 <= k < near_shards.len() && t == near_label(#[trigger] near_shards@[k]) {
                let k = choose|k: int|
                    0 <= k < near_shards.len() && t == near_label(#[trigger] near_shards@[k]);
                assert(near_shards@.contains(near_shards@[k]));
            }
            if exists|k: int|
                0 <= k < j && !near_shards@.contains(far_shards@[k]) && t == far_label(
                    #[trigger] far_shards@[k],
                ) {
                let k = choose|k: int|
                    0 <= k < j && !near_shards@.contains(far_shards@[k]) && t == far_label(
                        #[trigger] far_shards@[k],
                    );
                assert(far_shards@.contains(far_shards@[k]));
            }
        }
    }
    topics
}

/// The texts of the first list that do not stand in the second, in order.
fn missing(a: &Vec<String>, b: &Vec<String>) -> (r: Vec<String>)
    ensures
        is_listing(texts(r@), texts(a@).to_set().difference(texts(b@).to_set())),
{
    let mut out: Vec<String> = Vec::new();
    let mut i: usize = 0;
    let ghost xs = texts(a@);
    while i < a.len()
        invariant
            i <= a.len(),
            xs == texts(a@),
            ordered(texts(out@)),
            forall|t: Seq<char>|
                texts(out@).contains(t) <==> (#[trigger] xs.take(i as int).contains(t) && !texts(
                    b@,
                ).contains(t)),
        decreases a.len() - i,
    {
        let ghost before = texts(out@);
        let ghost t0 = xs.take(i as int);
        assert(xs.take(i + 1) =~= t0.push(a@[i as int]@));
        let absent: bool = !has_text(b, &a[i]);
        if absent {
            insert_ordered(&mut out, a[i].clone());
        }
        assert forall|t: Seq<char>|
            texts(out@).contains(t) <==> (#[trigger] xs.take(i + 1).contains(t) && !texts(
                b@,
            ).contains(t)) by {
            let last = a@[i as int]@;
            if t0.contains(t) {
                let n = choose|n: int| 0 <= n < t0.len() && t0[n] == t;
                assert(t0.push(last)[n] == t);
            }
            if t == last {
                assert(t0.push(last)[i as int] == t);
            }
            if t0.push(last).contains(t) && t != last {
                let n = choose|n: int| 0 <= n < t0.push(last).len() && t0.push(last)[n] == t;
                assert(t0[n] == t);
            }
            assert(before.contains(t) <==> (t0.contains(t) && !texts(b@).contains(t)));
        }
        i = i + 1;
    }
    proof {
        assert(xs.take(i as int) =~= xs);
        let set = texts(a@).to_set().difference(texts(b@).to_set());
        assert forall|t: Seq<char>| texts(out@).contains(t) <==> #[trigger] set.contains(t) by {
            assert(texts(out@).contains(t) <==> (xs.take(i as int).contains(t) && !texts(
                b@,
            ).contains(t)));
            assert(texts(a@).to_set().contains(t) <==> texts(a@).contains(t));
            assert(texts(b@).to_set().contains(t) <==> texts(b@).contains(t));
        }
    }
    out
}

/// Visibility side: the desired topics of a client, as changes to what it is
/// subscribed to, which is updated. Outside of the world nothing changes.
pub fn compute_aoi_subscriptions(
    client_uuid: u128,
    x: Single,
    y: Single,
    client_subs: &mut HashMap<u128, Vec<String>>,
    quad_tree: &QuadTree,
    near: Single,
    far: Single,
) -> (r: Vec<SubAction>)
    ensures
        quad_tree.owner([x, y]) is None ==> r@.len() == 0 && final(client_subs)@ == old(
            client_subs,
        )@,
        quad_tree.owner([x, y]) is Some ==> {
            let wanted = desired(*quad_tree, [x, y], near, far);
            &&& actions_view(r@) == changes(
                client_uuid,
                subscribed(old(client_subs)@, client_uuid),
                wanted,
            )
            &&& final(client_subs)@.contains_key(client_uuid)
            &&& final(client_subs)@ == old(client_subs)@.insert(
                client_uuid,
                final(client_subs)@[client_uuid],
            )
            &&& is_listing(texts(final(client_subs)@[client_uuid]@), wanted)
            &&& subscribed(final(client_subs)@, client_uuid) == wanted
        },
{
    broadcast use vstd::std_specs::hash::group_hash_axioms;

    let pos = [x, y];
    assert(pos =~= [x, y]);
    if quad_tree.shard_for(pos).is_none() {
        return Vec::new();
    }
    let near_shards = quad_tree.shards_near(pos, near);
    let far_shards = quad_tree.shards_near(pos, far);
    let topics = desired_topics(&near_shards, &far_shards);
    let ghost wanted = desired(*quad_tree, pos, near, far);
    let ghost from = subscribed(client_subs@, client_uuid);
    proof {
        assert forall|t: Seq<char>| texts(topics@).contains(t) <==> #[trigger] wanted.contains(
            t,
        ) by {
            lemma_desired_lists(*quad_tree, pos, near, far, near_shards@, far_shards@, t);
        }
        assert(texts(topics@).to_set() =~= wanted);
    }
    let none: Vec<String> = Vec::new();
    let current: &Vec<String> = match client_subs.get(&client_uuid) {
        Some(v) => v,
        None => &none,
    };
    assert(texts(current@).to_set() =~= from);
    let to_unsub = missing(current, &topics);
    let to_sub = missing(&topics, current);
    proof {
        lemma_is_listing(texts(to_unsub@), from.difference(wanted));
        lemma_is_listing(texts(to_sub@), wanted.difference(from));
    }
    client_subs.insert(client_uuid, topics);
    let mut actions: Vec<SubAction> = Vec::new();
    let mut i: usize = 0;
    while i < to_unsub.len()
        invariant
            i <= to_unsub.len(),
            actions_view(actions@) == Seq::new(
                i as nat,
                |k: int| (false, client_uuid, texts(to_unsub@)[k]),
            ),
        decreases to_unsub.len() - i,
    {
        let ghost before = actions_view(actions@);
        actions.push(SubAction::Unsubscribe(client_uuid, to_unsub[i].clone()));
        assert(actions_view(actions@) =~= before.push((false, client_uuid, to_unsub@[i as int]@)));
        assert(actions_view(actions@) =~= Seq::new(
            (i + 1) as nat,
            |k: int| (false, client_uuid, texts(to_unsub@)[k]),
        ));
        i = i + 1;
    }
    let ghost first = actions_view(actions@);
    let mut j: usize = 0;
    assert(actions_view(actions@) =~= first + Seq::new(
        0,
        |k: int| (true, client_uuid, texts(to_sub@)[k]),
    ));
    while j < to_sub.len()
        invariant
            j <= to_sub.len(),
            actions_view(actions@) == first + Seq::new(
                j as nat,
                |k: int| (true, client_uuid, texts(to_sub@)[k]),
            ),
        decreases to_sub.len() - j,
    {
        let ghost before = actions_view(actions@);
        actions.push(SubAction::Subscribe(client_uuid, to_sub[j].clone()));
        assert(actions_view(actions@) =~= before.push((true, client_uuid, to_sub@[j as int]@)));
        assert(actions_view(actions@) =~= first + Seq::new(
            (j + 1) as nat,
            |k: int| (true, client_uuid, texts(to_sub@)[k]),
        ));
        j = j + 1;
    }
    assert(actions_view(actions@) =~= changes(client_uuid, from, wanted));
    actions
}

/// The desired topics depend on which shards are near, however they are listed.
proof fn lemma_desired_lists(
    tree: QuadTree,
    pos: [Single; 2],
    near: Single,
    far: Single,
    a: Seq<u32>,
    b: Seq<u32>,
    t: Seq<char>,
)
    requires
        forall|id: u32| a.contains(id) <==> tree.near(pos, near).contains(id),
        forall|id: u32| b.contains(id) <==> tree.near(pos, far).contains(id),
    ensures
        desired(tree, pos, near, far).contains(t) <==> Set::new(
            |t: Seq<char>|
                {
                    ||| exists|id: u32| #[trigger] a.contains(id) && t == near_label(id)
                    ||| exists|id: u32| #[trigger]
                        b.contains(id) && !a.contains(id) && t == far_label(id)
                },
        ).contains(t),
{
    if exists|id: u32| #[trigger] a.contains(id) && t == near_label(id) {
        let id = choose|id: u32| #[trigger] a.contains(id) && t == near_label(id);
        assert(tree.near(pos, near).contains(id));
    }
    if exists|id: u32| #[trigger] b.contains(id) && !a.contains(id) && t == far_label(id) {
        let id = choose|id: u32| #[trigger]
            b.contains(id) && !a.contains(id) && t == far_label(id);
        assert(tree.near(pos, far).contains(id));
    }
    if exists|id: u32| #[trigger] tree.near(pos, near).contains(id) && t == near_label(id) {
        let id = choose|id: u32| #[trigger]
            tree.near(pos, near).contains(id) && t == near_label(id);
        assert(a.contains(id));
    }
    if exists|id: u32| #[trigger]
        tree.near(pos, far).contains(id) && !tree.near(pos, near).contains(id) && t == far_label(
            id,
        ) {
        let id = choose|id: u32| #[trigger]
            tree.near(pos, far).contains(id) && !tree.near(pos, near).contains(id) && t
                == far_label(id);
        assert(b.contains(id));
    }
}

/// The message that tells a shard of a client near another shard.
pub open spec fn alert_message(client: u128, dest: u32) -> Seq<u8> {
    seq![TAG_CROSSING_ALERT] + id_bytes(client) + le32(dest)
}

/// The message that changes a subscription.
pub open spec fn subscription_message(subscribe: bool, client: u128, topic: Seq<char>) -> Seq<u8> {
    seq![if subscribe { TAG_SUBSCRIBE } else { TAG_UNSUBSCRIBE }] + id_bytes(client) + topic_of(
        topic,
    )
}

/// The alerts that a position update gives rise to.
pub open spec fn alerts_sent(
    tree: QuadTree,
    pos: [Single; 2],
    client: u128,
    previous: Option<u32>,
    from: u128,
) -> Seq<(u128, Seq<u8>)> {
    if tree.owner(pos) is None {
        Seq::empty()
    } else {
        let dests = rising(
            alert_set(tree, pos, Single { bits: BOUNDARY_MARGIN }, previous),
        );
        Seq::new(dests.len(), |i: int| (from, alert_message(client, dests[i])))
    }
}

/// The subscription changes as messages to the broker, if it is connected.
pub open spec fn changes_sent(
    actions: Seq<(bool, u128, Seq<char>)>,
    broker: Option<u128>,
) -> Seq<(u128, Seq<u8>)> {
    match broker {
        None => Seq::empty(),
        Some(conn) => Seq::new(
            actions.len(),
            |i: int| (conn, subscription_message(actions[i].0, actions[i].1, actions[i].2)),
        ),
    }
}

/// The position that an update reports.
pub open spec fn reported_position(data: Seq<u8>) -> [Single; 2] {
    [Single { bits: u32_at(data, 21) }, Single { bits: u32_at(data, 25) }]
}

fn alert_bytes(client: u128, dest: u32) -> (r: bytes::Bytes)
    ensures
        contents(r) == alert_message(client, dest),
{
    proof {
        lemma_id_bytes(client);
    }
    let mut buf = bytes_mut_with_capacity(21);
    bytes_mut_put_u8(&mut buf, TAG_CROSSING_ALERT);
    let id = id_to_bytes(client);
    bytes_mut_put_slice(&mut buf, id.as_slice());
    bytes_mut_put_u32_le(&mut buf, dest);
    let r = bytes_mut_freeze(buf);
    assert(contents(r) =~= alert_message(client, dest));
    r
}

fn subscription_bytes(tag: u8, client: u128, topic: &str) -> (r: bytes::Bytes)
    ensures
        contents(r) == seq![tag] + id_bytes(client) + topic_of(topic@),
{
    proof {
        lemma_id_bytes(client);
    }
    let mut buf = bytes_mut_with_capacity(49);
    bytes_mut_put_u8(&mut buf, tag);
    let id = id_to_bytes(client);
    bytes_mut_put_slice(&mut buf, id.as_slice());
    let topic_bytes = topic_to_bytes(topic);
    bytes_mut_put_slice(&mut buf, topic_bytes.as_slice());
    let r = bytes_mut_freeze(buf);
    assert(contents(r) =~= seq![tag] + id_bytes(client) + topic_of(topic@));
    r
}

/// A message to the broker, if it is connected: a tag, a client and a topic.
pub fn send_to_broker(
    state: &SpatialState,
    tag: u8,
    client_uuid: u128,
    topic: &str,
) -> (r: Option<Packet>)
    ensures
        match (r, state.broker_conn) {
            (Some(p), Some(conn)) => p.to == conn && contents(p.data) == seq![tag] + id_bytes(
                client_uuid,
            ) + topic_of(topic@),
            (None, None) => true,
            _ => false,
        },
{
    match state.broker_conn {
        Some(conn) => Some(Packet { to: conn, data: subscription_bytes(tag, client_uuid, topic) }),
        None => None,
    }
}

/// The state, and what is sent, once a report of a client was taken in.
pub open spec fn took_report(
    before: SpatialState,
    after: SpatialState,
    tree: QuadTree,
    from: u128,
    data: Seq<u8>,
    packets: Seq<(u128, Seq<u8>)>,
) -> bool {
    let client = id_at(data, 5);
    let pos = reported_position(data);
    let wanted = desired(tree, pos, Single { bits: AOI_NEAR }, Single { bits: AOI_FAR });
    let current = subscribed(before.client_subs@, client);
    &&& after.broker_conn == before.broker_conn
    &&& if data.len() < 29 || tree.owner(pos) is None {
        &&& packets.len() == 0
        &&& after.client_home@ == before.client_home@
        &&& after.client_subs@ == before.client_subs@
    } else {
        &&& after.client_home@ == homes_after(before.client_home@, client, tree.owner(pos))
        &&& after.client_subs@.contains_key(client)
        &&& after.client_subs@ == before.client_subs@.insert(client, after.client_subs@[client])
        &&& subscribed(after.client_subs@, client) == wanted
        &&& packets == alerts_sent(tree, pos, client, before.client_home@.get(client), from)
            + changes_sent(changes(client, current, wanted), before.broker_conn)
    }
}

/// A shard reports where one of its clients is: alerts for the shard that
/// reported it, then the client's subscription changes for the broker. A report
/// is a tag, the shard (4 bytes), the client (16), and the position (4 and 4).
pub fn handle_position_update(
    data: &[u8],
    from: u128,
    state: &mut SpatialState,
    quad_tree: &QuadTree,
) -> (r: Vec<Packet>)
    ensures
        final(state).broker_conn == old(state).broker_conn,
        took_report(*old(state), *final(state), *quad_tree, from, data@, sent(r@)),
        data@.len() < 29 ==> {
            &&& r@.len() == 0
            &&& final(state).client_home@ == old(state).client_home@
            &&& final(state).client_subs@ == old(state).client_subs@
        },
        data@.len() >= 29 ==> {
            let client = id_at(data@, 5);
            let pos = reported_position(data@);
            let wanted = desired(
                *quad_tree,
                pos,
                Single { bits: AOI_NEAR },
                Single { bits: AOI_FAR },
            );
            let home = old(state).client_home@;
            let subs = old(state).client_subs@;
            &&& quad_tree.owner(pos) is None ==> {
                &&& r@.len() == 0
                &&& final(state).client_home@ == home
                &&& final(state).client_subs@ == subs
            }
            &&& quad_tree.owner(pos) matches Some(shard) ==> {
                &&& final(state).client_home@ == home.insert(client, shard)
                &&& final(state).client_subs@ == subs.insert(
                    client,
                    final(state).client_subs@[client],
                )
                &&& is_listing(texts(final(state).client_subs@[client]@), wanted)
                &&& sent(r@) == alerts_sent(*quad_tree, pos, client, home.get(client), from)
                    + changes_sent(
                    changes(client, subscribed(subs, client), wanted),
                    old(state).broker_conn,
                )
            }
        },
{
    let mut packets: Vec<Packet> = Vec::new();
    if data.len() < 29 {
        return packets;
    }
    let client: u128 = read_id(data, 5);
    let x = Single::from_bits(read_le32(data, 21));
    let y = Single::from_bits(read_le32(data, 25));
    let ghost pos = reported_position(data@);
    assert([x, y] =~= pos);
    let alerts = compute_crossing_alerts(
        client,
        x,
        y,
        &mut state.client_home,
        quad_tree,
        Single { bits: BOUNDARY_MARGIN },
    );
    let mut i: usize = 0;
    while i < alerts.len()
        invariant
            i <= alerts.len(),
            sent(packets@) == Seq::new(
                i as nat,
                |k: int| (from, alert_message(client, alerts@[k])),
            ),
        decreases alerts.len() - i,
    {
        let ghost before = sent(packets@);
        let packet = Packet { to: from, data: alert_bytes(client, alerts[i]) };
        packets.push(packet);
        assert(sent(packets@) =~= before.push((from, alert_message(client, alerts@[i as int]))));
        assert(sent(packets@) =~= Seq::new(
            (i + 1) as nat,
            |k: int| (from, alert_message(client, alerts@[k])),
        ));
        i = i + 1;
    }
    let ghost first = sent(packets@);
    proof {
        if quad_tree.owner(pos) is Some {
            assert(first =~= alerts_sent(
                *quad_tree,
                pos,
                client,
                old(state).client_home@.get(client),
                from,
            ));
        } else {
            assert(first =~= Seq::empty());
        }
    }
    let actions = compute_aoi_subscriptions(
        client,
        x,
        y,
        &mut state.client_subs,
        quad_tree,
        Single { bits: AOI_NEAR },
        Single { bits: AOI_FAR },
    );
    let ghost said = actions_view(actions@);
    let mut j: usize = 0;
    assert(first =~= first + changes_sent(said.take(0), state.broker_conn));
    while j < actions.len()
        invariant
            j <= actions.len(),
            said == actions_view(actions@),
            sent(packets@) == first + changes_sent(said.take(j as int), state.broker_conn),
        decreases actions.len() - j,
    {
        let ghost before = sent(packets@);
        assert(said[j as int] == action_view(actions@[j as int]));
        assert(said.take(j + 1) =~= said.take(j as int).push(said[j as int]));
        let packet = match &actions[j] {
            SubAction::Subscribe(id, topic) => send_to_broker(
                state,
                TAG_SUBSCRIBE,
                *id,
                topic.as_str(),
            ),
            SubAction::Unsubscribe(id, topic) => send_to_broker(
                state,
                TAG_UNSUBSCRIBE,
                *id,
                topic.as_str(),
            ),
        };
        if let Some(p) = packet {
            packets.push(p);
            assert(sent(packets@) =~= before.push((p.to, contents(p.data))));
            assert(sent(packets@) =~= first + changes_sent(said.take(j + 1), state.broker_conn));
        } else {
            assert(sent(packets@) =~= first + changes_sent(said.take(j + 1), state.broker_conn));
        }
        j = j + 1;
    }
    assert(said.take(j as int) =~= said);
    proof {
        if quad_tree.owner(pos) is None {
            assert(sent(packets@).len() == 0);
        }
    }
    packets
}

/// The broker's connection once a connection was made.
pub open spec fn broker_found(broker: Option<u128>, conn: u128) -> Option<u128> {
    if broker is None {
        Some(conn)
    } else {
        broker
    }
}

/// The broker's connection once a connection was closed.
pub open spec fn broker_lost(broker: Option<u128>, conn: u128) -> Option<u128> {
    if broker == Some(conn) {
        None
    } else {
        broker
    }
}

impl SpatialState {
    pub fn new() -> (r: Self)
        ensures
            r.client_home@ == Map::<u128, u32>::empty(),
            r.client_subs@ == Map::<u128, Vec<String>>::empty(),
            r.broker_conn is None,
    {
        SpatialState { client_home: HashMap::new(), client_subs: HashMap::new(), broker_conn: None }
    }

    /// A connection was made: the first one, while there is none, is the broker.
    pub fn connected(&mut self, conn: u128)
        ensures
            final(self).client_home == old(self).client_home,
            final(self).client_subs == old(self).client_subs,
            final(self).broker_conn == broker_found(old(self).broker_conn, conn),
            final(self).broker_conn == (if old(self).broker_conn is None {
                Some(conn)
            } else {
                old(self).broker_conn
            }),
    {
        if self.broker_conn.is_none() {
            self.broker_conn = Some(conn);
        }
    }

    /// A connection was closed: where it was the broker's, there is none.
    pub fn disconnected(&mut self, conn: u128)
        ensures
            final(self).client_home == old(self).client_home,
            final(self).client_subs == old(self).client_subs,
            final(self).broker_conn == broker_lost(old(self).broker_conn, conn),
            final(self).broker_conn == (if old(self).broker_conn == Some(conn) {
                None
            } else {
                old(self).broker_conn
            }),
    {
        if let Some(c) = self.broker_conn {
            if c == conn {
                self.broker_conn = None;
            }
        }
    }
}

/// Whether a message is a position update; other messages are ignored.
pub fn is_position_update(data: &[u8]) -> (r: bool)
    ensures
        r == (data@.len() > 0 && data@[0] == TAG_POSITION_UPDATE),
{
    data.len() > 0 && data[0] == TAG_POSITION_UPDATE
}

/// What labels are made of: "shard:", digits, and ":far" for the low rate.
proof fn lemma_labels(shard: u32)
    ensures
        near_label(shard) == seq!['s', 'h', 'a', 'r', 'd', ':'] + decimal(shard as nat),
        far_label(shard) == near_label(shard) + seq![':', 'f', 'a', 'r'],
        all_digits(decimal(shard as nat)),
        decimal(shard as nat).len() > 0,
        near_label(shard).skip(6) == decimal(shard as nat),
        far_label(shard).take(far_label(shard).len() - 4) == near_label(shard),
{
    reveal_strlit("shard:");
    reveal_strlit(":far");
    law_decimal_round_trip(shard as nat);
    assert("shard:"@ =~= seq!['s', 'h', 'a', 'r', 'd', ':']);
    assert(":far"@ =~= seq![':', 'f', 'a', 'r']);
    assert(near_label(shard).skip(6) =~= decimal(shard as nat));
    assert(far_label(shard).take(far_label(shard).len() - 4) =~= near_label(shard));
}

/// Different shards have different labels, and no label is both near and far.
pub proof fn law_labels_distinct(a: u32, b: u32)
    ensures
        near_label(a) == near_label(b) ==> a == b,
        far_label(a) == far_label(b) ==> a == b,
        near_label(a) != far_label(b),
{
    lemma_labels(a);
    lemma_labels(b);
    law_decimal_round_trip(a as nat);
    law_decimal_round_trip(b as nat);
    if near_label(a) == far_label(b) {
        let s = near_label(a);
        assert(s.last() == decimal(a as nat).last());
        assert('0' <= decimal(a as nat)[decimal(a as nat).len() - 1] <= '9');
        assert(far_label(b).last() == 'r');
    }
}

/// A shard is never both near and far at once.
pub proof fn law_near_and_far_are_disjoint(
    tree: QuadTree,
    pos: [Single; 2],
    near: Single,
    far: Single,
    shard: u32,
)
    ensures
        !(desired(tree, pos, near, far).contains(near_label(shard)) && desired(
            tree,
            pos,
            near,
            far,
        ).contains(far_label(shard))),
{
    let set = desired(tree, pos, near, far);
    assert forall|id: u32| near_label(id) != far_label(shard) && near_label(shard) != far_label(
        id,
    ) && (near_label(id) == near_label(shard) ==> id == shard) && (far_label(id) == far_label(shard)
        ==> id == shard) by {
        law_labels_distinct(id, shard);
        law_labels_distinct(shard, id);
    }
    if set.contains(near_label(shard)) && set.contains(far_label(shard)) {
        let id = choose|id: u32| #[trigger]
            tree.near(pos, near).contains(id) && near_label(shard) == near_label(id);
        assert(near_label(id) == near_label(shard));
        assert(tree.near(pos, near).contains(shard));
        let other = choose|id: u32| #[trigger]
            tree.near(pos, far).contains(id) && !tree.near(pos, near).contains(id) && far_label(
                shard,
            ) == far_label(id);
        assert(far_label(other) == far_label(shard));
    }
}

/// Recomputing the same position produces no further changes.
pub proof fn law_aoi_is_idempotent(client: u128, wanted: Set<Seq<char>>)
    ensures
        changes(client, wanted, wanted) == Seq::<(bool, u128, Seq<char>)>::empty(),
{
    let none = wanted.difference(wanted);
    assert(is_listing(Seq::<Seq<char>>::empty(), none));
    lemma_is_listing(Seq::<Seq<char>>::empty(), none);
    assert(changes(client, wanted, wanted) =~= Seq::empty());
}

/// The label of the owning shard is always among what a client sees, for every near
/// margin from zero.
pub proof fn law_owner_label_always_desired(
    tree: QuadTree,
    pos: [Single; 2],
    near: Single,
    far: Single,
)
    requires
        tree.owner(pos) is Some,
        at_most(Single { bits: 0 }, near),
    ensures
        desired(tree, pos, near, far).contains(near_label(tree.owner(pos).unwrap())),
{
    law_owner_is_near(tree, pos, near);
}

/// The characters of labels are their bytes.
proof fn lemma_label_bytes(s: Seq<char>)
    requires
        forall|i: int| 0 <= i < s.len() ==> '\0' < #[trigger] s[i] <= '\u{7f}',
    ensures
        vstd::utf8::encode_utf8(s) == Seq::new(s.len(), |i: int| s[i] as u8),
{
    assert(vstd::utf8::is_ascii_chars(s));
    vstd::utf8::is_ascii_chars_encode_utf8(s);
}

/// Short labels of ASCII characters are told apart by their topics.
proof fn lemma_topics_distinct(a: Seq<char>, b: Seq<char>)
    requires
        a.len() <= 32,
        b.len() <= 32,
        forall|i: int| 0 <= i < a.len() ==> '\0' < #[trigger] a[i] <= '\u{7f}',
        forall|i: int| 0 <= i < b.len() ==> '\0' < #[trigger] b[i] <= '\u{7f}',
        topic_of(a) == topic_of(b),
    ensures
        a == b,
{
    lemma_label_bytes(a);
    lemma_label_bytes(b);
    let n = if a.len() < b.len() { a.len() as int } else { b.len() as int };
    assert forall|i: int| 0 <= i < n implies a[i] == b[i] by {
        assert(topic_of(a)[i] == a[i] as u8);
        assert(topic_of(b)[i] == b[i] as u8);
        assert('\0' < a[i] <= '\u{7f}' && '\0' < b[i] <= '\u{7f}');
    }
    if a.len() < b.len() {
        assert(topic_of(a)[n] == 0);
        assert(topic_of(b)[n] == b[n] as u8);
        assert('\0' < b[n] <= '\u{7f}');
    }
    if b.len() < a.len() {
        assert(topic_of(b)[n] == 0);
        assert(topic_of(a)[n] == a[n] as u8);
        assert('\0' < a[n] <= '\u{7f}');
    }
    assert(a =~= b);
}

proof fn lemma_decimal_length(n: nat, len: nat)
    requires
        len > 0,
        n < pow(10, len),
    ensures
        decimal(n).len() <= len,
    decreases len,
{
    if n >= 10 {
        assert(pow(10, 1) == 10) by {
            lemma_pow1(10);
        }
        assert(len > 1);
        lemma_pow_adds(10, 1, (len - 1) as nat);
        lemma_decimal_length(n / 10, (len - 1) as nat);
    }
}

/// The topics of different shards differ, and a shard's two topics differ.
pub proof fn law_shard_topics_distinct(a: u32, b: u32)
    ensures
        topic_of(near_label(a)) == topic_of(near_label(b)) ==> a == b,
        topic_of(far_label(a)) == topic_of(far_label(b)) ==> a == b,
        topic_of(near_label(a)) != topic_of(far_label(b)),
{
    law_labels_distinct(a, b);
    lemma_label_short(a);
    lemma_label_short(b);
    if topic_of(near_label(a)) == topic_of(near_label(b)) {
        lemma_topics_distinct(near_label(a), near_label(b));
    }
    if topic_of(far_label(a)) == topic_of(far_label(b)) {
        lemma_topics_distinct(far_label(a), far_label(b));
    }
    if topic_of(near_label(a)) == topic_of(far_label(b)) {
        lemma_topics_distinct(near_label(a), far_label(b));
    }
}

proof fn lemma_label_short(a: u32)
    ensures
        near_label(a).len() <= 32,
        far_label(a).len() <= 32,
        forall|i: int| 0 <= i < near_label(a).len() ==> '\0' < #[trigger] near_label(a)[i] <= '\u{7f}',
        forall|i: int| 0 <= i < far_label(a).len() ==> '\0' < #[trigger] far_label(a)[i] <= '\u{7f}',
{
    lemma_labels(a);
    assert(pow(10, 10) == 10_000_000_000) by {
        reveal_with_fuel(pow, 11);
    }
    lemma_decimal_length(a as nat, 10);
    let d = decimal(a as nat);
    let s = near_label(a);
    assert forall|i: int| 0 <= i < s.len() implies '\0' < #[trigger] s[i] <= '\u{7f}' by {
        if i >= 6 {
            assert('0' <= d[i - 6] <= '9');
        }
    }
    let f = far_label(a);
    assert forall|i: int| 0 <= i < f.len() implies '\0' < #[trigger] f[i] <= '\u{7f}' by {
        if i < s.len() {
            assert(f[i] == s[i]);
            assert('\0' < s[i] <= '\u{7f}');
        }
    }
}

/// In the default world, a client in a shard is alerted of exactly the other
/// shards whose quadrants overlap the square around it, but for the one that it
/// was in before.
pub proof fn law_alerts_are_of_the_near_shards(
    pos: [Single; 2],
    margin: Single,
    previous: Option<u32>,
    shard: u32,
    d: u32,
)
    requires
        grid_shard(pos[0], pos[1]) == Some(shard),
    ensures
        alert_set(default_tree(), pos, margin, previous).contains(d) <==> {
            &&& d <= 3
            &&& d != shard
            &&& previous != Some(d)
            &&& quadrant(d).meets(pos, margin)
        },
{
    law_default_owner(pos);
    law_default_near(pos, margin, d);
}

/// A client that crosses from one shard to another is not alerted of the shard
/// that it came from in that report, and is in the next one, where that shard
/// is still near. Reports of a client change the shard of that client only.
pub proof fn law_the_shard_just_left_is_spared(
    tree: QuadTree,
    home: Map<u128, u32>,
    client: u128,
    other: u128,
    a: [Single; 2],
    b: [Single; 2],
    margin: Single,
)
    requires
        tree.owner(a) is Some,
        tree.owner(b) is Some,
    ensures
        ({
            let first = homes_after(home, client, tree.owner(a));
            let second = homes_after(first, client, tree.owner(b));
            let left = tree.owner(a).unwrap();
            &&& first.get(client) == tree.owner(a)
            &&& other != client ==> first.get(other) == home.get(other)
            &&& !alert_set(tree, b, margin, first.get(client)).contains(left)
            &&& tree.owner(a) != tree.owner(b) ==> (alert_set(
                tree,
                b,
                margin,
                second.get(client),
            ).contains(left) <==> tree.near(b, margin).contains(left))
        }),
{
}

/// The topics that a client in the default world sees: at the full rate those
/// of its own shard and of the shards whose quadrants overlap the near square,
/// at the low rate those of the other shards whose quadrants overlap the far
/// square, and no others.
pub proof fn law_topics_are_of_the_near_shards(
    pos: [Single; 2],
    near: Single,
    far: Single,
    shard: u32,
    d: u32,
    t: Seq<char>,
)
    requires
        grid_shard(pos[0], pos[1]) == Some(shard),
        at_most(Single { bits: 0 }, near),
        at_most(near, far),
    ensures
        ({
            let seen = desired(default_tree(), pos, near, far);
            let close = d <= 3 && (d == shard || quadrant(d).meets(pos, near));
            &&& seen.contains(near_label(d)) <==> close
            &&& seen.contains(far_label(d)) <==> d <= 3 && !close && quadrant(d).meets(pos, far)
            &&& seen.contains(t) ==> exists|s: u32| s <= 3 && (t == #[trigger] near_label(s) || t
                == far_label(s))
        }),
{
    let tree = default_tree();
    let seen = desired(tree, pos, near, far);
    law_default_owner(pos);
    law_default_near(pos, near, d);
    law_default_near(pos, far, d);
    assert forall|id: u32| near_label(id) != far_label(d) && near_label(d) != far_label(id) && (
    near_label(id) == near_label(d) ==> id == d) && (far_label(id) == far_label(d) ==> id == d) by {
        law_labels_distinct(id, d);
        law_labels_distinct(d, id);
    }
    if seen.contains(near_label(d)) {
        let id = choose|id: u32| #[trigger]
            tree.near(pos, near).contains(id) && near_label(d) == near_label(id);
        assert(near_label(id) == near_label(d));
    }
    if seen.contains(far_label(d)) {
        let id = choose|id: u32| #[trigger]
            tree.near(pos, far).contains(id) && !tree.near(pos, near).contains(id) && far_label(d)
                == far_label(id);
        assert(far_label(id) == far_label(d));
    }
    if seen.contains(t) {
        if exists|id: u32| #[trigger] tree.near(pos, near).contains(id) && t == near_label(id) {
            let id = choose|id: u32| #[trigger]
                tree.near(pos, near).contains(id) && t == near_label(id);
            law_default_near(pos, near, id);
        } else {
            let id = choose|id: u32| #[trigger]
                tree.near(pos, far).contains(id) && !tree.near(pos, near).contains(id) && t
                    == far_label(id);
            law_default_near(pos, far, id);
            assert(t == far_label(id));
            assert(near_label(id) == near_label(id));
        }
    }
}

/// The changes from one set of topics to another are exactly what is to be
/// dropped, and then what is to be added, each once, all of that client.
pub proof fn law_changes_lead_to_what_is_wanted(
    client: u128,
    from: Set<Seq<char>>,
    to: Set<Seq<char>>,
    t: Seq<char>,
)
    requires
        from.finite(),
        to.finite(),
    ensures
        ({
            let all = changes(client, from, to);
            &&& all.contains((true, client, t)) <==> to.contains(t) && !from.contains(t)
            &&& all.contains((false, client, t)) <==> from.contains(t) && !to.contains(t)
            &&& forall|i: int| 0 <= i < all.len() ==> (#[trigger] all[i]).1 == client
            &&& forall|i: int, j: int|
                0 <= i < j < all.len() ==> #[trigger] all[i] != #[trigger] all[j] && (all[i].0
                    ==> all[j].0)
        }),
{
    let gone = from.difference(to);
    let new = to.difference(from);
    lemma_listing_exists(gone);
    lemma_listing_exists(new);
    let dropped = listing(gone);
    let added = listing(new);
    let all = changes(client, from, to);
    let n = dropped.len() as int;
    assert forall|i: int| 0 <= i < all.len() implies #[trigger] all[i] == (if i < n {
        (false, client, dropped[i])
    } else {
        (true, client, added[i - n])
    }) by {}
    if all.contains((true, client, t)) {
        let i = choose|i: int| 0 <= i < all.len() && all[i] == (true, client, t);
        assert(added[i - n] == t);
        assert(added.contains(t));
        assert(new.contains(t));
    }
    if to.contains(t) && !from.contains(t) {
        assert(new.contains(t));
        let k = choose|k: int| 0 <= k < added.len() && added[k] == t;
        assert(all[n + k] == (true, client, t));
    }
    if all.contains((false, client, t)) {
        let i = choose|i: int| 0 <= i < all.len() && all[i] == (false, client, t);
        assert(dropped[i] == t);
        assert(dropped.contains(t));
        assert(gone.contains(t));
    }
    if from.contains(t) && !to.contains(t) {
        assert(gone.contains(t));
        let k = choose|k: int| 0 <= k < dropped.len() && dropped[k] == t;
        assert(all[k] == (false, client, t));
    }
    assert forall|i: int, j: int| 0 <= i < j < all.len() implies #[trigger] all[i]
        != #[trigger] all[j] && (all[i].0 ==> all[j].0) by {
        if j < n {
            assert(text_below(dropped[i], dropped[j]));
        } else if i >= n {
            assert(text_below(added[i - n], added[j - n]));
        }
    }
}

/// What a report of a client in the default world gives rise to: its shard is
/// the one that it is in; the shard that reported it is alerted of each other
/// shard within 50, but for the one that the client was in before; and the
/// broker, if there is one, is told of each topic that the client sees from now
/// on or does not see any more, within 200 at the full rate and within 350 at
/// the low rate.
pub proof fn law_report_is_answered(
    before: SpatialState,
    after: SpatialState,
    from: u128,
    data: Seq<u8>,
    packets: Seq<(u128, Seq<u8>)>,
    shard: u32,
    d: u32,
    t: Seq<char>,
    other: u128,
)
    requires
        took_report(before, after, default_tree(), from, data, packets),
        data.len() >= 29,
        grid_shard(reported_position(data)[0], reported_position(data)[1]) == Some(shard),
    ensures
        ({
            let client = id_at(data, 5);
            let pos = reported_position(data);
            let seen = desired(
                default_tree(),
                pos,
                Single { bits: 0x4348_0000 },
                Single { bits: 0x43af_0000 },
            );
            let current = subscribed(before.client_subs@, client);
            &&& after.client_home@.get(client) == Some(shard)
            &&& other != client ==> after.client_home@.get(other) == before.client_home@.get(other)
            &&& other != client ==> subscribed(after.client_subs@, other) == subscribed(
                before.client_subs@,
                other,
            )
            &&& subscribed(after.client_subs@, client) == seen
            &&& packets.contains((from, alert_message(client, d))) <==> {
                &&& d <= 3
                &&& d != shard
                &&& before.client_home@.get(client) != Some(d)
                &&& quadrant(d).meets(pos, Single { bits: 0x4248_0000 })
            }
            &&& before.broker_conn matches Some(broker) ==> {
                &&& seen.contains(t) && !current.contains(t) ==> packets.contains(
                    (broker, subscription_message(true, client, t)),
                )
                &&& !seen.contains(t) && current.contains(t) ==> packets.contains(
                    (broker, subscription_message(false, client, t)),
                )
            }
        }),
{
    let tree = default_tree();
    let client = id_at(data, 5);
    let pos = reported_position(data);
    let seen = desired(tree, pos, Single { bits: AOI_NEAR }, Single { bits: AOI_FAR });
    let current = subscribed(before.client_subs@, client);
    let previous = before.client_home@.get(client);
    let margin = Single { bits: BOUNDARY_MARGIN };
    law_default_owner(pos);
    assert(texts(after.client_subs@[client]@).to_set() == seen);
    vstd::seq_lib::seq_to_set_is_finite(texts(after.client_subs@[client]@));
    if before.client_subs@.contains_key(client) {
        vstd::seq_lib::seq_to_set_is_finite(texts(before.client_subs@[client]@));
    }
    law_changes_lead_to_what_is_wanted(client, current, seen, t);
    let said = changes(client, current, seen);
    let set = alert_set(tree, pos, margin, previous);
    let dests = rising(set);
    let first = alerts_sent(tree, pos, client, previous, from);
    let second = changes_sent(said, before.broker_conn);
    law_alerts_are_of_the_near_shards(pos, margin, previous, shard, d);
    lemma_alerts_listed(pos, margin, previous);
    if set.contains(d) {
        assert(dests.to_set().contains(d));
        let k = choose|k: int| 0 <= k < dests.len() && dests[k] == d;
        assert(first[k] == (from, alert_message(client, d)));
        assert(packets[k] == first[k]);
    }
    if packets.contains((from, alert_message(client, d))) {
        let k = choose|k: int| 0 <= k < packets.len() && packets[k] == (from, alert_message(client, d));
        if k < first.len() {
            assert(packets[k] == first[k]);
            lemma_alert_dest(client, dests[k], d);
            assert(dests.contains(d));
            assert(dests.to_set().contains(d));
        } else {
            assert(packets[k] == second[k - first.len()]);
            assert(packets[k].1[0] == TAG_CROSSING_ALERT);
        }
    }
    if let Some(broker) = before.broker_conn {
        if seen.contains(t) && !current.contains(t) {
            let i = choose|i: int| 0 <= i < said.len() && said[i] == (true, client, t);
            assert(second[i] == (broker, subscription_message(true, client, t)));
            assert(packets[first.len() + i] == second[i]);
        }
        if !seen.contains(t) && current.contains(t) {
            let i = choose|i: int| 0 <= i < said.len() && said[i] == (false, client, t);
            assert(second[i] == (broker, subscription_message(false, client, t)));
            assert(packets[first.len() + i] == second[i]);
        }
    }
}

/// Alerts of different shards differ.
proof fn lemma_alert_dest(client: u128, a: u32, b: u32)
    requires
        alert_message(client, a) == alert_message(client, b),
    ensures
        a == b,
{
    lemma_id_bytes(client);
    assert(alert_message(client, a).subrange(17, 21) =~= le32(a));
    assert(alert_message(client, b).subrange(17, 21) =~= le32(b));
    law_le32_round_trip(a);
    law_le32_round_trip(b);
}

/// The shards to alert of a client are listed.
proof fn lemma_alerts_listed(pos: [Single; 2], margin: Single, previous: Option<u32>)
    requires
        default_tree().owner(pos) is Some,
    ensures
        ({
            let set = alert_set(default_tree(), pos, margin, previous);
            rising(set).to_set() == set
        }),
{
    let set = alert_set(default_tree(), pos, margin, previous);
    let zero = if set.contains(0) { seq![0u32] } else { Seq::empty() };
    let one = if set.contains(1) { zero.push(1u32) } else { zero };
    let two = if set.contains(2) { one.push(2u32) } else { one };
    let s = if set.contains(3) { two.push(3u32) } else { two };
    assert forall|d: u32| s.to_set().contains(d) <==> set.contains(d) by {
        law_default_near(pos, margin, d);
        assert(set.contains(d) ==> d <= 3);
        if set.contains(0) {
            assert(s[0] == 0);
        }
        if set.contains(1) {
            assert(s[zero.len() as int] == 1);
        }
        if set.contains(2) {
            assert(s[one.len() as int] == 2);
        }
        if set.contains(3) {
            assert(s[two.len() as int] == 3);
        }
        assert(d == 0 || d == 1 || d == 2 || d == 3 || d > 3);
        if s.contains(d) {
            let k = choose|k: int| 0 <= k < s.len() && s[k] == d;
            assert(set.contains(s[k]));
        }
    }
    assert(s.to_set() =~= set);
    assert(increasing(s));
    lemma_is_rising(s);
}

/// The shard that reported a client is sent one alert for each shard that is to
/// be alerted, in increasing order; for a position that no shard owns there is
/// none.
pub proof fn law_each_alert_is_sent_once(
    tree: QuadTree,
    pos: [Single; 2],
    client: u128,
    previous: Option<u32>,
    from: u128,
    dests: Seq<u32>,
)
    requires
        increasing(dests),
        dests.to_set() == alert_set(tree, pos, Single { bits: 0x4248_0000 }, previous),
    ensures
        tree.owner(pos) is None ==> alerts_sent(tree, pos, client, previous, from).len() == 0,
        tree.owner(pos) is Some ==> alerts_sent(tree, pos, client, previous, from) == Seq::new(
            dests.len(),
            |i: int| (from, seq![0x11u8] + id_bytes(client) + le32(dests[i])),
        ),
{
    lemma_is_rising(dests);
    if tree.owner(pos) is Some {
        assert(alerts_sent(tree, pos, client, previous, from) =~= Seq::new(
            dests.len(),
            |i: int| (from, seq![0x11u8] + id_bytes(client) + le32(dests[i])),
        ));
    }
}

/// Each change of what a client sees is told to the broker once, in order, as a
/// subscription or the end of one, with the client and the topic; without a
/// broker nothing is told.
pub proof fn law_each_change_is_sent_once(
    actions: Seq<(bool, u128, Seq<char>)>,
    broker: Option<u128>,
    i: int,
)
    ensures
        broker is None ==> changes_sent(actions, broker).len() == 0,
        broker is Some ==> changes_sent(actions, broker).len() == actions.len(),
        broker is Some && 0 <= i < actions.len() ==> changes_sent(actions, broker)[i] == (
            broker.unwrap(),
            seq![if actions[i].0 { 0x01u8 } else { 0x02u8 }] + id_bytes(actions[i].1) + topic_of(
                actions[i].2,
            ),
        ),
{
}

/// A report that is cut off, or of a position that no shard owns, changes
/// nothing, and nothing is sent.
pub proof fn law_other_reports_change_nothing(
    before: SpatialState,
    after: SpatialState,
    tree: QuadTree,
    from: u128,
    data: Seq<u8>,
    packets: Seq<(u128, Seq<u8>)>,
)
    requires
        took_report(before, after, tree, from, data, packets),
        data.len() < 29 || tree.owner(reported_position(data)) is None,
    ensures
        packets.len() == 0,
        after.client_home@ == before.client_home@,
        after.client_subs@ == before.client_subs@,
        after.broker_conn == before.broker_conn,
{
}

/// The first connection is the broker's, until it is closed; then the next one
/// is. Other connections come and go without changing that.
pub proof fn law_first_connection_is_the_broker(a: u128, b: u128)
    ensures
        broker_found(None, a) == Some(a),
        broker_found(Some(a), b) == Some(a),
        broker_lost(Some(a), a) is None,
        broker_lost(None, a) is None,
        a != b ==> broker_lost(Some(a), b) == Some(a),
        broker_found(broker_lost(broker_found(None, a), a), b) == Some(b),
{
}

/// In any world, a client is alerted of exactly the shards that have a leaf that the
/// square around it reaches, but for its own and the one that it was in before.
pub proof fn law_alerts_are_of_the_leaves_reached(
    tree: QuadTree,
    pos: [Single; 2],
    margin: Single,
    previous: Option<u32>,
    d: u32,
)
    ensures
        alert_set(tree, pos, margin, previous).contains(d) <==> {
            &&& leaf_reached(tree, pos, margin, d)
            &&& tree.owner(pos) != Some(d)
            &&& previous != Some(d)
        },
{
    law_near_shards_have_a_leaf(tree, pos, margin, d);
}

/// In any world, a client sees at the full rate exactly the shards that have a
/// leaf that the near square reaches, and at the low rate exactly the others
/// that have one that the far square reaches.
pub proof fn law_topics_are_of_the_leaves_reached(
    tree: QuadTree,
    pos: [Single; 2],
    near: Single,
    far: Single,
    d: u32,
)
    ensures
        desired(tree, pos, near, far).contains(near_label(d)) <==> leaf_reached(tree, pos, near, d),
        desired(tree, pos, near, far).contains(far_label(d)) <==> leaf_reached(tree, pos, far, d)
            && !leaf_reached(tree, pos, near, d),
{
    let seen = desired(tree, pos, near, far);
    law_near_shards_have_a_leaf(tree, pos, near, d);
    law_near_shards_have_a_leaf(tree, pos, far, d);
    assert forall|id: u32| near_label(id) != far_label(d) && near_label(d) != far_label(id) && (
    near_label(id) == near_label(d) ==> id == d) && (far_label(id) == far_label(d) ==> id == d) by {
        law_labels_distinct(id, d);
        law_labels_distinct(d, id);
    }
    if seen.contains(near_label(d)) {
        let id = choose|id: u32| #[trigger]
            tree.near(pos, near).contains(id) && near_label(d) == near_label(id);
        assert(near_label(id) == near_label(d));
    }
    if seen.contains(far_label(d)) {
        let id = choose|id: u32| #[trigger]
            tree.near(pos, far).contains(id) && !tree.near(pos, near).contains(id) && far_label(d)
                == far_label(id);
        assert(far_label(id) == far_label(d));
    }
}

} // verus!
