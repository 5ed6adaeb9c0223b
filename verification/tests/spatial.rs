use mmorpg_lab::quad_tree::{build_default, QuadTree};
use mmorpg_lab::single::Single;
use mmorpg_lab::spatial::{
    compute_aoi_subscriptions, compute_crossing_alerts, handle_position_update, is_position_update,
    send_to_broker, SpatialState, SubAction, AOI_FAR, AOI_NEAR, BOUNDARY_MARGIN,
};
use mmorpg_lab::wire::{topic_to_bytes, TAG_SUBSCRIBE};
use std::collections::HashMap;

fn single(x: f32) -> Single {
    Single::from_bits(x.to_bits())
}

fn tree() -> QuadTree {
    build_default()
}

fn uuid(n: u8) -> u128 {
    (n as u128) << 120
}

// Crossing alerts (authority).
// compute_crossing_alerts returns the destination shards to pre-warm.

fn cross(map: &mut HashMap<u128, u32>, u: u128, x: f32, y: f32) -> Vec<u32> {
    compute_crossing_alerts(
        u,
        single(x),
        single(y),
        map,
        &tree(),
        Single::from_bits(BOUNDARY_MARGIN),
    )
}

#[test]
fn first_entry_deep_no_alert() {
    let mut map = HashMap::new();
    let u = uuid(1);
    assert!(cross(&mut map, u, 250.0, 250.0).is_empty());
    assert_eq!(map[&u], 0); // home recorded
}

#[test]
fn first_entry_near_boundary_alerts() {
    let mut map = HashMap::new();
    let u = uuid(2);
    assert_eq!(cross(&mut map, u, 460.0, 250.0), vec![1]);
    assert_eq!(map[&u], 0);
}

#[test]
fn no_alert_when_staying_in_shard() {
    let mut map = HashMap::new();
    let u = uuid(3);
    map.insert(u, 0);
    assert!(cross(&mut map, u, 300.0, 300.0).is_empty());
}

#[test]
fn cross_vertical_updates_home_no_alert_when_deep() {
    let mut map = HashMap::new();
    let u = uuid(4);
    map.insert(u, 0);
    assert!(cross(&mut map, u, 700.0, 250.0).is_empty());
    assert_eq!(map[&u], 1);
}

// Exact boundary point x=500 belongs to the right shard; no alert back to shard 0.
#[test]
fn cross_on_exact_vertical_boundary_line() {
    let mut map = HashMap::new();
    let u = uuid(6);
    map.insert(u, 0);
    assert!(cross(&mut map, u, 500.0, 250.0).is_empty());
    assert_eq!(map[&u], 1);
}

#[test]
fn cross_horizontal_updates_home() {
    let mut map = HashMap::new();
    let u = uuid(7);
    map.insert(u, 0);
    assert!(cross(&mut map, u, 250.0, 700.0).is_empty());
    assert_eq!(map[&u], 2);
}

#[test]
fn diagonal_jump_updates_home() {
    let mut map = HashMap::new();
    let u = uuid(9);
    map.insert(u, 0);
    assert!(cross(&mut map, u, 750.0, 750.0).is_empty());
    assert_eq!(map[&u], 3);
}

// Step-by-step diagonal walk through the shared corner: 0->1->3.
#[test]
fn diagonal_step_by_step_through_corner() {
    let mut map = HashMap::new();
    let u = uuid(11);
    map.insert(u, 0);

    // Step 1: approaching corner from shard 0 - all 3 neighbours in range
    assert_eq!(cross(&mut map, u, 490.0, 490.0), vec![1, 2, 3]);
    assert_eq!(map[&u], 0); // no crossing yet

    // Step 2: cross into shard 1, still near corner - no alert toward shard 0
    assert_eq!(cross(&mut map, u, 510.0, 490.0), vec![2, 3]);
    assert_eq!(map[&u], 1);

    // Step 3: cross into shard 3 - no alert toward shard 1 (just left)
    assert_eq!(cross(&mut map, u, 510.0, 510.0), vec![0, 2]);
    assert_eq!(map[&u], 3);
}

#[test]
fn alerts_near_corner_three_neighbours() {
    let mut map = HashMap::new();
    let u = uuid(14);
    map.insert(u, 0);
    assert_eq!(cross(&mut map, u, 490.0, 490.0), vec![1, 2, 3]);
}

#[test]
fn no_alert_deep_in_shard() {
    let mut map = HashMap::new();
    let u = uuid(16);
    map.insert(u, 3);
    assert!(cross(&mut map, u, 750.0, 750.0).is_empty());
}

// Exactly at margin distance: strict < means no alert fires.
#[test]
fn no_alert_at_exact_margin_distance() {
    let mut map = HashMap::new();
    let u = uuid(17);
    map.insert(u, 0);
    assert!(cross(&mut map, u, 450.0, 250.0).is_empty());
}

#[test]
fn alert_just_inside_margin() {
    let mut map = HashMap::new();
    let u = uuid(18);
    map.insert(u, 0);
    assert_eq!(cross(&mut map, u, 451.0, 250.0), vec![1]);
}

// After crossing, no spurious alert back toward the old shard.
#[test]
fn no_spurious_alert_toward_previous_shard() {
    let mut map = HashMap::new();
    let u = uuid(19);
    map.insert(u, 0);
    assert!(cross(&mut map, u, 510.0, 250.0).is_empty());
    assert_eq!(map[&u], 1);
}

#[test]
fn out_of_bounds_no_alert_keeps_home() {
    let mut map = HashMap::new();
    let u = uuid(20);
    map.insert(u, 0);
    assert!(cross(&mut map, u, -50.0, 250.0).is_empty());
    assert_eq!(map[&u], 0); // unchanged
}

#[test]
fn out_of_bounds_new_player_not_recorded() {
    let mut map = HashMap::new();
    let u = uuid(21);
    assert!(cross(&mut map, u, 1500.0, 250.0).is_empty());
    assert!(!map.contains_key(&u));
}

#[test]
fn two_players_independent_homes() {
    let mut map = HashMap::new();
    let a = uuid(30);
    let b = uuid(31);
    cross(&mut map, a, 250.0, 250.0); // a -> shard 0
    cross(&mut map, b, 750.0, 750.0); // b -> shard 3
    cross(&mut map, a, 700.0, 250.0); // a -> shard 1
    assert_eq!(map[&a], 1);
    assert_eq!(map[&b], 3); // B unaffected
}

// AOI subscriptions (visibility).
// compute_aoi_subscriptions returns the Unsubscribe/Subscribe diff (topics).

fn aoi(subs: &mut HashMap<u128, Vec<String>>, u: u128, x: f32, y: f32) -> Vec<SubAction> {
    compute_aoi_subscriptions(
        u,
        single(x),
        single(y),
        subs,
        &tree(),
        Single::from_bits(AOI_NEAR),
        Single::from_bits(AOI_FAR),
    )
}

fn sub(u: u128, t: &str) -> SubAction { SubAction::Subscribe(u, t.to_string()) }
fn unsub(u: u128, t: &str) -> SubAction { SubAction::Unsubscribe(u, t.to_string()) }

// At a shard's centre: own shard near (20 Hz), the three others far (5 Hz).
#[test]
fn aoi_center_self_near_neighbours_far() {
    let mut subs = HashMap::new();
    let u = uuid(40);
    let a = aoi(&mut subs, u, 250.0, 250.0);
    assert_eq!(a, vec![
        sub(u, "shard:0"),
        sub(u, "shard:1:far"),
        sub(u, "shard:2:far"),
        sub(u, "shard:3:far"),
    ]);
}

// Re-computing the same position yields no change.
#[test]
fn aoi_no_change_when_stationary() {
    let mut subs = HashMap::new();
    let u = uuid(41);
    aoi(&mut subs, u, 250.0, 250.0);
    assert!(aoi(&mut subs, u, 250.0, 250.0).is_empty());
}

// Approaching the x=500 boundary promotes shard 1 from far to near.
#[test]
fn aoi_approach_boundary_promotes_far_to_near() {
    let mut subs = HashMap::new();
    let u = uuid(42);
    aoi(&mut subs, u, 250.0, 250.0); // center
    let a = aoi(&mut subs, u, 350.0, 250.0);
    assert_eq!(a, vec![
        unsub(u, "shard:1:far"),
        sub(u, "shard:1"),
    ]);
}

// Walking into a world corner drops the far neighbours entirely.
#[test]
fn aoi_corner_drops_far_neighbours() {
    let mut subs = HashMap::new();
    let u = uuid(43);
    aoi(&mut subs, u, 250.0, 250.0); // center: 0 near, 1/2/3 far
    let a = aoi(&mut subs, u, 50.0, 50.0);
    assert_eq!(a, vec![
        unsub(u, "shard:1:far"),
        unsub(u, "shard:2:far"),
        unsub(u, "shard:3:far"),
    ]);
}

// Out of bounds keeps the current subscriptions untouched.
#[test]
fn aoi_out_of_bounds_keeps_subs() {
    let mut subs = HashMap::new();
    let u = uuid(44);
    aoi(&mut subs, u, 250.0, 250.0);
    let before = subs[&u].clone();
    let a = aoi(&mut subs, u, -50.0, 250.0);
    assert!(a.is_empty());
    assert_eq!(subs[&u], before);
}

#[test]
fn topic_encoding() {
    let t = topic_to_bytes("shard:0");
    assert_eq!(&t[..7], b"shard:0");
    assert_eq!(t[7], 0);

    let t = topic_to_bytes("shard:3:far");
    assert_eq!(&t[..11], b"shard:3:far");
    assert_eq!(t[11], 0);
}

#[test]
fn constants_are_the_distances() {
    assert_eq!(BOUNDARY_MARGIN, 50.0f32.to_bits());
    assert_eq!(AOI_NEAR, 200.0f32.to_bits());
    assert_eq!(AOI_FAR, 350.0f32.to_bits());
}

fn spread() -> Vec<[f32; 2]> {
    let mut out = Vec::new();
    let mut i = 0;
    while i < 25 {
        let mut j = 0;
        while j < 25 {
            out.push([i as f32 * 40.0 + 0.25, j as f32 * 39.9]);
            j += 1;
        }
        i += 1;
    }
    out
}

#[test]
fn owner_topic_always_subscribed() {
    for pos in spread() {
        let mut subs = HashMap::new();
        let u = uuid(7);
        aoi(&mut subs, u, pos[0], pos[1]);
        let owner = tree().shard_for([single(pos[0]), single(pos[1])]).unwrap();
        assert!(subs[&u].contains(&format!("shard:{}", owner)));
    }
}

#[test]
fn near_and_far_are_disjoint() {
    for pos in spread() {
        let mut subs = HashMap::new();
        let u = uuid(8);
        aoi(&mut subs, u, pos[0], pos[1]);
        for s in 0..4 {
            let near = subs[&u].contains(&format!("shard:{}", s));
            let far = subs[&u].contains(&format!("shard:{}:far", s));
            assert!(!(near && far));
        }
    }
}

#[test]
fn aoi_is_idempotent() {
    for pos in spread() {
        let mut subs = HashMap::new();
        let u = uuid(9);
        aoi(&mut subs, u, pos[0], pos[1]);
        assert!(aoi(&mut subs, u, pos[0], pos[1]).is_empty());
    }
}

fn report(shard: u32, client: u128, x: f32, y: f32) -> Vec<u8> {
    let mut out = vec![0x10u8];
    out.extend_from_slice(&shard.to_le_bytes());
    out.extend_from_slice(&client.to_be_bytes());
    out.extend_from_slice(&x.to_le_bytes());
    out.extend_from_slice(&y.to_le_bytes());
    out
}

// A report near a border brings alerts for the shard, then changes for the broker.
#[test]
fn position_update_is_answered() {
    let mut state = SpatialState::new();
    let client = 0x0102_0304_0506_0708_090a_0b0c_0d0e_0f10u128;
    state.connected(77);
    state.connected(78);
    assert_eq!(state.broker_conn, Some(77));
    let data = report(0, client, 460.0, 250.0);
    assert!(is_position_update(&data));
    let packets = handle_position_update(&data, 5, &mut state, &tree());
    let mut alert = vec![0x11u8];
    alert.extend_from_slice(&client.to_be_bytes());
    alert.extend_from_slice(&1u32.to_le_bytes());
    assert_eq!(packets[0].to, 5);
    assert_eq!(&packets[0].data[..], &alert[..]);
    let topics = ["shard:0", "shard:1", "shard:2:far", "shard:3:far"];
    assert_eq!(packets.len(), 5);
    for (i, topic) in topics.iter().enumerate() {
        let mut want = vec![0x01u8];
        want.extend_from_slice(&client.to_be_bytes());
        want.extend_from_slice(&topic_to_bytes(topic));
        assert_eq!(packets[i + 1].to, 77);
        assert_eq!(&packets[i + 1].data[..], &want[..]);
    }
    assert_eq!(state.client_home[&client], 0);
}

#[test]
fn short_position_update_is_ignored() {
    let mut state = SpatialState::new();
    let data = report(0, 9, 460.0, 250.0);
    assert!(handle_position_update(&data[..28], 5, &mut state, &tree()).is_empty());
    assert!(state.client_home.is_empty());
    assert!(!is_position_update(&[]));
    assert!(!is_position_update(&[0x11]));
}

#[test]
fn broker_comes_and_goes() {
    let mut state = SpatialState::new();
    assert!(send_to_broker(&state, TAG_SUBSCRIBE, 1, "shard:0").is_none());
    state.connected(3);
    state.disconnected(4);
    assert_eq!(state.broker_conn, Some(3));
    assert_eq!(send_to_broker(&state, TAG_SUBSCRIBE, 1, "shard:0").unwrap().to, 3);
    state.disconnected(3);
    assert_eq!(state.broker_conn, None);
}

#[test]
fn long_topics_are_cut_off() {
    let t = topic_to_bytes("0123456789012345678901234567890123456789");
    assert_eq!(&t[..], b"01234567890123456789012345678901");
}
