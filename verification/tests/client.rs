use mmorpg_lab::client::{
    apply_local_movement, read_broadcast, read_input, read_login, send_join, shard_for_2x2,
    shard_text, Client, InputSendTimer, JoinRetryTimer, LoginError, Snapshot, INPUT_SEND_PERIOD,
    JOIN_RETRY_PERIOD, OTHER_PLAYER_TIMEOUT, SLANTED_SPEED, SNAP_SQUARE, SNAP_THRESHOLD, SPAWN,
    SPEED,
};
use mmorpg_lab::server::encode_state;
use mmorpg_lab::single::Single;
use mmorpg_lab::wire::topic_to_bytes;
use std::time::Duration;

const ME: u128 = 7;
const ALICE: u128 = 0x0102_0304_0506_0708_090a_0b0c_0d0e_0f10;

fn single(x: f32) -> Single {
    Single::from_bits(x.to_bits())
}

fn at(x: f32, y: f32) -> (Single, Single) {
    (single(x), single(y))
}

fn state(list: &[(u128, f32, f32)]) -> Vec<u8> {
    let list = list.iter().map(|e| (e.0, single(e.1), single(e.2))).collect();
    let payload = encode_state(&list);
    let mut out = vec![0x04u8];
    out.extend_from_slice(&(payload.len() as u16).to_le_bytes());
    out.extend_from_slice(&payload);
    out
}

#[test]
fn constants_of_the_client() {
    assert_eq!(SPEED, 200.0f32.to_bits());
    assert_eq!(SPAWN, 250.0f32.to_bits());
    assert_eq!(SNAP_THRESHOLD, 400.0f32.to_bits());
    assert_eq!(SNAP_SQUARE, (400.0f32 * 400.0f32).to_bits());
    assert_eq!(OTHER_PLAYER_TIMEOUT, 1.0f32.to_bits());
    let recip = 1.0f32 / (1.0f32 * 1.0f32 + 1.0f32 * 1.0f32).sqrt();
    assert_eq!(SLANTED_SPEED, (1.0f32 * recip * 200.0f32).to_bits());
    assert_eq!(INPUT_SEND_PERIOD as u128, Duration::from_secs_f32(0.05).as_nanos());
    assert_eq!(JOIN_RETRY_PERIOD as u128, Duration::from_secs_f32(2.0).as_nanos());
}

#[test]
fn keys_give_velocities() {
    let d = f32::from_bits(SLANTED_SPEED);
    assert_eq!(read_input(false, false, false, false), at(0.0, 0.0));
    assert_eq!(read_input(true, false, false, false), at(-200.0, 0.0));
    assert_eq!(read_input(false, true, false, false), at(200.0, 0.0));
    assert_eq!(read_input(false, false, true, false), at(0.0, 200.0));
    assert_eq!(read_input(false, false, false, true), at(0.0, -200.0));
    assert_eq!(read_input(true, false, true, false), at(-d, d));
    assert_eq!(read_input(false, true, false, true), at(d, -d));
    assert_eq!(read_input(true, true, true, false), at(0.0, 200.0));
    assert_eq!(read_input(true, true, true, true), at(0.0, 0.0));
}

#[test]
fn player_moves() {
    let (x, y) = (250.0f32 + 141.42136f32 * 0.1, 250.0f32 - 200.0f32 * 0.1);
    assert_eq!(apply_local_movement(at(250.0, 250.0), at(141.42136, -200.0), single(0.1)), at(x, y));
}

#[test]
fn shards_are_drawn_everywhere() {
    assert_eq!(shard_for_2x2(single(-5.0), single(-5.0)), 0);
    assert_eq!(shard_for_2x2(single(500.0), single(0.0)), 1);
    assert_eq!(shard_for_2x2(single(0.0), single(500.0)), 2);
    assert_eq!(shard_for_2x2(single(5000.0), single(5000.0)), 3);
    assert_eq!(shard_text(single(600.0), single(600.0)), "Shard 3");
}

#[test]
fn joining_is_asked_for() {
    let packets = send_join(ALICE, 3);
    assert_eq!(packets.len(), 2);
    let mut sub = vec![0x01u8];
    sub.extend_from_slice(&ALICE.to_be_bytes());
    sub.extend_from_slice(&topic_to_bytes("shard:0"));
    assert_eq!((packets[0].to, packets[0].data.to_vec()), (3, sub));
    let mut join = vec![0x05u8];
    join.extend_from_slice(&ALICE.to_be_bytes());
    join.push(1);
    join.extend_from_slice(&250.0f32.to_le_bytes());
    join.extend_from_slice(&250.0f32.to_le_bytes());
    join.extend_from_slice(&[0; 7]);
    assert_eq!((packets[1].to, packets[1].data.to_vec()), (3, join));
}

#[test]
fn joining_is_retried_until_seen() {
    let mut c = Client::new(ME);
    let mut timer = JoinRetryTimer::default();
    assert!(c.retry_join(JOIN_RETRY_PERIOD, &mut timer).is_empty());
    assert_eq!(c.connected(3).len(), 2);
    assert!(c.retry_join(JOIN_RETRY_PERIOD - 1, &mut timer).is_empty());
    assert_eq!(c.retry_join(1, &mut timer).len(), 2);
    assert!(c.retry_join(5, &mut timer).is_empty());
    assert_eq!(timer.0.elapsed, 5);
    c.handle_message(&state(&[(ME, 251.0, 252.0)]), single(0.0), c.position);
    assert!(c.joined);
    assert_eq!(c.position, at(251.0, 252.0));
    // Once the client has joined, the timer stands still.
    assert!(c.retry_join(JOIN_RETRY_PERIOD, &mut timer).is_empty());
    assert!(c.retry_join(7, &mut timer).is_empty());
    assert_eq!(timer.0.elapsed, 5);
    c.disconnected();
    let mut timer = InputSendTimer::default();
    assert!(c.send_input(INPUT_SEND_PERIOD, &mut timer, at(1.0, 2.0)).is_none());
    c.connected(4);
    assert!(c.send_input(INPUT_SEND_PERIOD - 1, &mut timer, at(1.0, 2.0)).is_none());
    let p = c.send_input(1, &mut timer, at(1.0, 2.0)).unwrap();
    let mut want = vec![0x05u8];
    want.extend_from_slice(&ME.to_be_bytes());
    want.push(2);
    want.extend_from_slice(&1.0f32.to_le_bytes());
    want.extend_from_slice(&2.0f32.to_le_bytes());
    want.extend_from_slice(&[0; 7]);
    assert_eq!((p.to, p.data.to_vec()), (4, want));
}

#[test]
fn broadcasts_are_read() {
    let data = state(&[(ALICE, 1.0, 2.0), (ME, 3.0, 4.0)]);
    assert_eq!(
        read_broadcast(&data),
        vec![(ALICE, single(1.0), single(2.0)), (ME, single(3.0), single(4.0))]
    );
    assert!(read_broadcast(&[]).is_empty());
    assert!(read_broadcast(&data[..data.len() - 1]).is_empty());
    assert!(read_broadcast(&[4, 1, 0, 0]).is_empty());
    assert!(read_broadcast(&[4, 2, 0, 9, 0]).is_empty());
    let mut other = data.clone();
    other[0] = 5;
    assert!(read_broadcast(&other).is_empty());
    // It says five, and there are two.
    let mut more = data.clone();
    more[3] = 5;
    assert_eq!(read_broadcast(&more).len(), 2);
    let mut fewer = data;
    fewer[3] = 1;
    assert_eq!(read_broadcast(&fewer).len(), 1);
}

fn snaps(c: &Client) -> Vec<Snapshot> {
    c.others.entries[0].1.snapshots.clone()
}

#[test]
fn others_are_followed() {
    let mut c = Client::new(ME);
    let from = c.position;
    c.handle_message(&state(&[(ALICE, 300.0, 300.0)]), single(1.0), from);
    assert_eq!(c.others.len(), 1);
    // Heard of twice before the frame ends: only the time counts.
    c.handle_message(&state(&[(ALICE, 301.0, 300.0)]), single(1.5), from);
    assert_eq!(snaps(&c).len(), 1);
    assert_eq!(c.others.entries[0].1.last_seen, single(1.5));
    assert!(c.forget_stale(single(1.5)).is_empty());
    for i in 0..5 {
        let x = 302.0 + i as f32;
        c.handle_message(&state(&[(ALICE, x, 300.0)]), single(2.0 + i as f32 * 0.5), from);
        c.forget_stale(single(2.0 + i as f32 * 0.5));
    }
    assert_eq!(snaps(&c).len(), 3);
    assert_eq!(snaps(&c)[0].x, single(304.0));
    assert_eq!(snaps(&c)[2].t, single(4.0));
    // Too far from where the client sees: not noticed.
    c.handle_message(&state(&[(ALICE, 601.0, 300.0)]), single(4.5), from);
    assert_eq!(snaps(&c)[2].t, single(4.0));
    assert!(c.forget_stale(single(5.0)).is_empty());
    assert_eq!(c.forget_stale(single(5.1)), vec![ALICE]);
    assert_eq!(c.others.len(), 0);
}

#[test]
fn jumps_are_not_smoothed() {
    let mut c = Client::new(ME);
    let from = at(0.0, 0.0);
    c.handle_message(&state(&[(ALICE, -300.0, 0.0)]), single(0.0), from);
    c.forget_stale(single(0.0));
    c.handle_message(&state(&[(ALICE, 100.0, 0.0)]), single(0.1), from);
    assert_eq!(snaps(&c).len(), 2);
    c.handle_message(&state(&[(ALICE, -300.1, 0.0)]), single(0.2), from);
    assert_eq!(snaps(&c).len(), 1);
    assert_eq!(c.others.entries[0].1.render_pos, at(-300.1, 0.0));
    c.interpolate_positions(single(0.7));
    assert_eq!(c.others.entries[0].1.render_pos, at(-300.1, 0.0));
}

// What is heard in a frame: the own player is followed and is none of the others,
// those in sight are current, and those not heard of for a second are gone.
#[test]
fn a_frame_of_a_client() {
    let mut c = Client::new(ME);
    let from = at(250.0, 250.0);
    let entities = [(2, 260.0, 250.0), (3, 270.0, 250.0), (4, 280.0, 250.0)];
    c.handle_message(&state(&entities), single(1.0), from);
    c.forget_stale(single(1.0));
    let told = state(&[
        (ME, 1.0, 2.0),
        (2, 261.0, 250.0),
        (3, 900.0, 250.0),
        (5, 240.0, 250.0),
        (ME, 3.0, 4.0),
    ]);
    c.handle_message(&told, single(1.9), from);
    assert!(c.joined);
    assert_eq!(c.position, at(3.0, 4.0));
    let seen: Vec<(u128, Single)> =
        c.others.entries.iter().map(|e| (e.0, e.1.last_seen)).collect();
    assert_eq!(
        seen,
        vec![(2, single(1.9)), (3, single(1.0)), (4, single(1.0)), (5, single(1.9))]
    );
    assert!(c.others.entries.iter().all(|e| (1..=3).contains(&e.1.snapshots.len())));
    assert_eq!(c.forget_stale(single(2.5)), vec![3, 4]);
    let left: Vec<u128> = c.others.entries.iter().map(|e| e.0).collect();
    assert_eq!(left, vec![2, 5]);
    assert!(c.others.entries.iter().all(|e| !e.1.fresh));
}

// Two messages tell what one tells that holds the entities of both.
#[test]
fn messages_of_a_frame_add_up() {
    let entities = [(2, 260.0, 250.0), (ME, 1.0, 2.0), (3, 270.0, 250.0), (2, 261.0, 250.0)];
    let from = at(250.0, 250.0);
    let mut one = Client::new(ME);
    one.handle_message(&state(&entities), single(1.0), from);
    let mut two = Client::new(ME);
    two.handle_message(&state(&entities[..2]), single(1.0), from);
    two.handle_message(&state(&entities[2..]), single(1.0), from);
    assert_eq!((one.joined, one.position), (two.joined, two.position));
    assert_eq!(format!("{:?}", one.others.entries), format!("{:?}", two.others.entries));
}

// The squared distance decides as the distance does.
#[test]
fn snap_threshold_by_distance() {
    let mut x = 398.0f32;
    while x < 402.0 {
        for y in [0.0f32, 0.01, 0.1, 1.0, 3.0] {
            let square = x * x + y * y;
            assert_eq!(square > f32::from_bits(SNAP_SQUARE), square.sqrt() > 400.0);
        }
        x = f32::from_bits(x.to_bits() + 1);
    }
}

fn native(t: [f32; 3], p: [f32; 3], now: f32, shown: f32) -> f32 {
    let time = now - (t[2] - t[1]);
    if time <= t[0] {
        return p[0];
    }
    for i in 0..2 {
        if t[i] <= time && time <= t[i + 1] {
            let span = t[i + 1] - t[i];
            let f = if span > 0.0 { (time - t[i]) / span } else { 1.0 };
            return p[i] + (p[i + 1] - p[i]) * f.clamp(0.0, 1.0);
        }
    }
    shown
}

#[test]
fn motion_is_smooth() {
    let t = [1.0f32, 1.05, 1.1];
    let x = [100.0f32, 110.3, 119.7];
    let y = [5.0f32, 4.0, 7.0];
    for k in 0..60 {
        let mut c = Client::new(ME);
        let from = at(100.0, 0.0);
        for i in 0..3 {
            c.handle_message(&state(&[(ALICE, x[i], y[i])]), single(t[i]), from);
            c.forget_stale(single(t[i]));
        }
        let shown = c.others.entries[0].1.render_pos;
        let now = 1.0f32 + k as f32 * 0.0037;
        c.interpolate_positions(single(now));
        let got = c.others.entries[0].1.render_pos;
        assert_eq!(got.0, single(native(t, x, now, f32::from_bits(shown.0.bits))));
        assert_eq!(got.1, single(native(t, y, now, f32::from_bits(shown.1.bits))));
    }
}

#[test]
fn one_position_is_not_interpolated() {
    let mut c = Client::new(ME);
    c.handle_message(&state(&[(ALICE, 260.0, 250.0)]), single(1.0), c.position);
    c.interpolate_positions(single(9.0));
    assert_eq!(c.others.entries[0].1.render_pos, at(260.0, 250.0));
}

#[test]
fn logins_are_read() {
    let id = "01020304-0506-0708-090a-0b0c0d0e0f10".to_string();
    assert!(matches!(read_login(Some(id), None), Ok(ALICE)));
    assert!(matches!(
        read_login(Some("alice".to_string()), None),
        Err(LoginError::NoUuid)
    ));
    match read_login(None, Some("Unauthorized".to_string())) {
        Err(LoginError::Refused(why)) => assert_eq!(why, "Unauthorized"),
        _ => panic!("not refused"),
    }
    match read_login(None, None) {
        Err(LoginError::Refused(why)) => assert_eq!(why, "unknown error"),
        _ => panic!("not refused"),
    }
}
