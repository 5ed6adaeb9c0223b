use mmorpg_lab::quad_tree::{build_default, QuadTree, Rect};
use mmorpg_lab::single::Single;

fn single(x: f32) -> Single {
    Single::from_bits(x.to_bits())
}

fn t() -> QuadTree {
    build_default()
}

fn shard_for(t: &QuadTree, pos: [f32; 2]) -> Option<u32> {
    t.shard_for([single(pos[0]), single(pos[1])])
}

fn shards_near(t: &QuadTree, pos: [f32; 2], margin: f32) -> Vec<u32> {
    t.shards_near([single(pos[0]), single(pos[1])], single(margin))
}

// shard_for: quadrant centers.

#[test]
fn shard_for_center_of_each_quadrant() {
    let t = t();
    assert_eq!(shard_for(&t, [250.0, 250.0]), Some(0));
    assert_eq!(shard_for(&t, [750.0, 250.0]), Some(1));
    assert_eq!(shard_for(&t, [250.0, 750.0]), Some(2));
    assert_eq!(shard_for(&t, [750.0, 750.0]), Some(3));
}

// shard_for: world corners.

#[test]
fn shard_for_world_corners() {
    let t = t();
    assert_eq!(shard_for(&t, [0.0, 0.0]), Some(0));
    assert_eq!(shard_for(&t, [999.9, 0.0]), Some(1));
    assert_eq!(shard_for(&t, [0.0, 999.9]), Some(2));
    assert_eq!(shard_for(&t, [999.9, 999.9]), Some(3));
}

// shard_for: exact boundary lines.
// contains() uses >=left and <right, so x=500 falls in the right shard.

#[test]
fn shard_for_exact_vertical_boundary() {
    let t = t();
    assert_eq!(shard_for(&t, [500.0, 250.0]), Some(1)); // right side
    assert_eq!(shard_for(&t, [499.9, 250.0]), Some(0)); // still left
    assert_eq!(shard_for(&t, [500.0, 750.0]), Some(3)); // right-bottom
}

#[test]
fn shard_for_exact_horizontal_boundary() {
    let t = t();
    assert_eq!(shard_for(&t, [250.0, 500.0]), Some(2)); // bottom side
    assert_eq!(shard_for(&t, [250.0, 499.9]), Some(0)); // still top
    assert_eq!(shard_for(&t, [750.0, 500.0]), Some(3)); // right-bottom
}

#[test]
fn shard_for_exact_corner_point() {
    // (500,500) - right-bottom -> shard 3
    let t = t();
    assert_eq!(shard_for(&t, [500.0, 500.0]), Some(3));
}

// shard_for: out of bounds.

#[test]
fn shard_for_out_of_bounds() {
    let t = t();
    assert_eq!(shard_for(&t, [-1.0, 250.0]), None);
    assert_eq!(shard_for(&t, [250.0, -1.0]), None);
    assert_eq!(shard_for(&t, [1000.0, 250.0]), None); // exclusive upper bound
    assert_eq!(shard_for(&t, [250.0, 1000.0]), None);
    assert_eq!(shard_for(&t, [1500.0, 1500.0]), None);
}

// shards_near: basic cases.

#[test]
fn shards_near_deep_in_quadrant_returns_one() {
    let t = t();
    assert_eq!(shards_near(&t, [250.0, 250.0], 50.0), vec![0]);
    assert_eq!(shards_near(&t, [750.0, 750.0], 50.0), vec![3]);
}

// x=460, margin=50 -> x+margin=510 > 500 -> shard 1 intersects
#[test]
fn shards_near_vertical_boundary_left_side() {
    let t = t();
    assert_eq!(shards_near(&t, [460.0, 250.0], 50.0), vec![0, 1]);
}

// x=540, margin=50 -> x-margin=490 < 500 -> shard 0 boundary intersects
#[test]
fn shards_near_vertical_boundary_right_side() {
    let t = t();
    assert_eq!(shards_near(&t, [540.0, 250.0], 50.0), vec![0, 1]);
}

#[test]
fn shards_near_horizontal_boundary() {
    let t = t();
    assert_eq!(shards_near(&t, [250.0, 460.0], 50.0), vec![0, 2]);
    assert_eq!(shards_near(&t, [250.0, 540.0], 50.0), vec![0, 2]);
}

// Near corner: all 4 shards within margin
#[test]
fn shards_near_corner_all_four() {
    let t = t();
    assert_eq!(shards_near(&t, [490.0, 490.0], 50.0), vec![0, 1, 2, 3]);
    assert_eq!(shards_near(&t, [510.0, 510.0], 50.0), vec![0, 1, 2, 3]);
}

// Exact margin distance: intersects_margin uses strict <, so boundary is NOT crossed.
#[test]
fn shards_near_exactly_at_margin_distance_not_triggered() {
    let t = t();
    // x=450, margin=50: 450+50=500, shard1 requires self.x(500) < 500 -> FALSE
    assert_eq!(shards_near(&t, [450.0, 250.0], 50.0), vec![0]);
}

// One unit inside the margin: does trigger
#[test]
fn shards_near_one_unit_inside_margin() {
    let t = t();
    assert_eq!(shards_near(&t, [451.0, 250.0], 50.0), vec![0, 1]);
}

// Position exactly on boundary line
#[test]
fn shards_near_on_boundary_line() {
    let t = t();
    // x=500 is in shard 1; with margin=50, shard 0 (which ends at 500) is also near
    assert_eq!(shards_near(&t, [500.0, 250.0], 50.0), vec![0, 1]);
}

// At world edge: no phantom shard to the left
#[test]
fn shards_near_at_world_left_edge() {
    let t = t();
    assert_eq!(shards_near(&t, [10.0, 250.0], 50.0), vec![0]);
}

#[test]
fn shards_near_at_world_top_edge() {
    let t = t();
    assert_eq!(shards_near(&t, [250.0, 10.0], 50.0), vec![0]);
}

// Positions of the world, spread over it, with the borders among them.
fn positions() -> Vec<[f32; 2]> {
    let mut out = Vec::new();
    let mut i = 0;
    while i < 40 {
        let mut j = 0;
        while j < 40 {
            out.push([i as f32 * 25.0 + 0.5, j as f32 * 24.97]);
            out.push([i as f32 * 25.0, j as f32 * 25.0]);
            j += 1;
        }
        i += 1;
    }
    out
}

#[test]
fn shard_for_is_defined_inside_world() {
    let t = t();
    for pos in positions() {
        assert!(matches!(shard_for(&t, pos), Some(0..=3)));
    }
}

#[test]
fn owning_shard_is_always_near() {
    let t = t();
    for pos in positions() {
        for margin in [0.0f32, 0.5, 10.0, 50.0, 200.0, 350.0, 499.0] {
            let owner = shard_for(&t, pos).unwrap();
            assert!(shards_near(&t, pos, margin).contains(&owner));
        }
    }
}

// On the edge of a quadrant, with no margin, the owning shard alone is near.
#[test]
fn owning_shard_is_near_on_its_edge_without_margin() {
    let t = t();
    assert_eq!(shard_for(&t, [500.0, 250.0]), Some(1));
    assert_eq!(shards_near(&t, [500.0, 250.0], 0.0), vec![1]);
    assert_eq!(shards_near(&t, [0.0, 250.0], 0.0), vec![0]);
    assert_eq!(shards_near(&t, [500.0, 500.0], 0.0), vec![3]);
}

// With a margin below zero, or that is no number, not even the owner is near.
#[test]
fn nothing_is_near_without_a_square() {
    let t = t();
    assert_eq!(shard_for(&t, [250.0, 250.0]), Some(0));
    assert!(shards_near(&t, [250.0, 250.0], -300.0).is_empty());
    assert!(shards_near(&t, [0.0, 0.0], -1.0).is_empty());
    for pos in positions() {
        assert!(shards_near(&t, pos, f32::NAN).is_empty());
        assert!(shards_near(&t, pos, f32::NEG_INFINITY).is_empty());
    }
}

// A shard is near where its quadrant overlaps the square, or where it owns the
// position and the margin is not negative.
#[test]
fn shards_near_by_their_quadrants() {
    let t = t();
    let mut all = positions();
    all.extend([[-40.0, 250.0], [1040.0, 520.0], [f32::NAN, 1.0], [2000.0, 2000.0]]);
    for pos in all {
        for m in [-300.0f32, -0.5, -0.0, 0.0, 0.5, 50.0, 350.0, f32::NAN, f32::INFINITY] {
            let mut want = vec![];
            for s in 0..4u32 {
                let (rx, ry) = (500.0 * (s % 2) as f32, 500.0 * (s / 2) as f32);
                let overlaps = rx < pos[0] + m
                    && rx + 500.0 > pos[0] - m
                    && ry < pos[1] + m
                    && ry + 500.0 > pos[1] - m;
                if overlaps || (m >= 0.0 && shard_for(&t, pos) == Some(s)) {
                    want.push(s);
                }
            }
            assert_eq!(shards_near(&t, pos, m), want);
        }
    }
}

#[test]
fn shards_near_is_monotonic_in_margin() {
    let t = t();
    for pos in positions() {
        for m in [0.0f32, 1.0, 49.0, 150.0, 399.0] {
            let small = shards_near(&t, pos, m);
            let large = shards_near(&t, pos, m + 50.0);
            for s in &small {
                assert!(large.contains(s));
            }
        }
    }
}

#[test]
fn shards_near_output_is_well_formed() {
    let t = t();
    for pos in positions() {
        for margin in [0.0f32, 50.0, 250.0, 599.0] {
            let near = shards_near(&t, pos, margin);
            let mut sorted = near.clone();
            sorted.sort_unstable();
            sorted.dedup();
            assert_eq!(near, sorted);
            assert!(near.iter().all(|&s| s <= 3));
        }
    }
}

// What is not a number belongs to no shard, and is near none.
#[test]
fn not_a_number_is_nowhere() {
    let t = t();
    assert_eq!(shard_for(&t, [f32::NAN, 250.0]), None);
    assert_eq!(shard_for(&t, [250.0, f32::NAN]), None);
    assert!(shards_near(&t, [f32::NAN, 250.0], 50.0).is_empty());
    assert_eq!(shard_for(&t, [f32::INFINITY, 250.0]), None);
}

// A quarter may be split again.
#[test]
fn split_twice() {
    let side = Rect { x: single(0.0), y: single(0.0), w: single(8.0), h: single(8.0) };
    let mut tree = QuadTree::new(side, 0, 2, None);
    assert_eq!(tree.shard_for([single(1.0), single(1.0)]), None);
    tree.split([10, 11, 12, 13]);
    assert_eq!(tree.shard_for([single(5.0), single(1.0)]), Some(11));
    let mut quarters = tree.children.take().unwrap();
    assert_eq!(quarters.top_left.depth, 1);
    quarters.top_left.split([20, 21, 22, 23]);
    tree.children = Some(quarters);
    assert_eq!(tree.shard_for([single(1.0), single(1.0)]), Some(20));
    assert_eq!(tree.shard_for([single(3.0), single(1.0)]), Some(21));
    assert_eq!(tree.shard_for([single(1.0), single(3.0)]), Some(22));
    assert_eq!(tree.shard_for([single(3.5), single(3.5)]), Some(23));
    assert_eq!(tree.shard_for([single(7.0), single(7.0)]), Some(13));
    assert_eq!(
        tree.shards_near([single(3.0), single(3.0)], single(1.5)),
        vec![11, 12, 13, 20, 21, 22, 23]
    );
}
