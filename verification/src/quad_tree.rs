//! The quad tree that assigns every position of the world to a shard.

use crate::single::{at_most, below, difference, halved, sum, Single};
use vstd::arithmetic::power2::{lemma_pow2_adds, lemma_pow2_pos, pow2};
use vstd::prelude::*;

verus! {

/// An axis-aligned rectangle: its lower corner, its width and its height.
#[derive(Clone, Copy, Debug)]
pub struct Rect {
    pub x: Single,
    pub y: Single,
    pub w: Single,
    pub h: Single,
}

impl Rect {
    /// The position lies in the rectangle, whose upper edges are excluded.
    pub open spec fn holds(self, pos: [Single; 2]) -> bool {
        &&& at_most(self.x, pos[0])
        &&& below(pos[0], sum(self.x, self.w))
        &&& at_most(self.y, pos[1])
        &&& below(pos[1], sum(self.y, self.h))
    }

    /// The rectangle overlaps the square of half-side `margin` around `pos`.
    pub open spec fn meets(self, pos: [Single; 2], margin: Single) -> bool {
        &&& below(self.x, sum(pos[0], margin))
        &&& below(difference(pos[0], margin), sum(self.x, self.w))
        &&& below(self.y, sum(pos[1], margin))
        &&& below(difference(pos[1], margin), sum(self.y, self.h))
    }

    /// The rectangle overlaps the square, or, where the margin is zero or more, holds
    /// the position itself, be it on an edge that the square does not overlap.
    pub open spec fn reached(self, pos: [Single; 2], margin: Single) -> bool {
        self.meets(pos, margin) || (at_most(Single { bits: 0 }, margin) && self.holds(pos))
    }

    pub fn contains(&self, pos: [Single; 2]) -> (r: bool)
        ensures
            r == self.holds(pos),
    {
        self.x.le(pos[0]) && pos[0].lt(self.x.plus(self.w)) && self.y.le(pos[1]) && pos[1].lt(
            self.y.plus(self.h),
        )
    }

    /// Whether this rectangle overlaps the square [cx-m, cx+m] x [cy-m, cy+m].
    pub fn intersects_margin(&self, pos: [Single; 2], margin: Single) -> (r: bool)
        ensures
            r == self.meets(pos, margin),
    {
        self.x.lt(pos[0].plus(margin)) && pos[0].minus(margin).lt(self.x.plus(self.w))
            && self.y.lt(pos[1].plus(margin)) && pos[1].minus(margin).lt(self.y.plus(self.h))
    }
}

/// A region of the world: a leaf that belongs to a shard, or four quarters.
pub struct QuadTree {
    pub bounds: Rect,
    pub depth: u8,
    pub max_depth: u8,
    pub children: Option<Box<Quarters>>,
    pub shard_id: Option<u32>,
}

/// The four quarters of a region, in the order in which they are searched.
pub struct Quarters {
    pub top_left: QuadTree,
    pub top_right: QuadTree,
    pub bottom_left: QuadTree,
    pub bottom_right: QuadTree,
}

/// The first of two answers that is one.
pub open spec fn first_of(a: Option<u32>, b: Option<u32>) -> Option<u32> {
    if a is Some {
        a
    } else {
        b
    }
}

/// The numbers of a list grow strictly.
pub open spec fn increasing(s: Seq<u32>) -> bool {
    forall|i: int, j: int| 0 <= i < j < s.len() ==> s[i] < s[j]
}

/// The numbers of a set, in increasing order.
pub open spec fn rising(set: Set<u32>) -> Seq<u32> {
    choose|s: Seq<u32>| increasing(s) && s.to_set() == set
}

/// The numbers of a set can be listed in increasing order in one way only.
pub proof fn lemma_rising_unique(s: Seq<u32>, r: Seq<u32>)
    requires
        increasing(s),
        increasing(r),
        s.to_set() == r.to_set(),
    ensures
        s == r,
    decreases s.len(),
{
    assert forall|x: u32| s.contains(x) <==> r.contains(x) by {
        if s.contains(x) {
            assert(s.to_set().contains(x));
            assert(r.to_set().contains(x));
        }
        if r.contains(x) {
            assert(r.to_set().contains(x));
            assert(s.to_set().contains(x));
        }
    }
    if s.len() == 0 {
        if r.len() > 0 {
            assert(r.contains(r[0]));
        }
        assert(s =~= r);
    } else {
        assert(s.contains(s[0]));
        assert(r.contains(s[0]));
        let k = choose|k: int| 0 <= k < r.len() && r[k] == s[0];
        assert(r.contains(r[0]));
        assert(s.contains(r[0]));
        let l = choose|l: int| 0 <= l < s.len() && s[l] == r[0];
        assert(s[0] == r[0]);
        let a = s.skip(1);
        let b = r.skip(1);
        assert forall|x: u32| a.to_set().contains(x) <==> b.to_set().contains(x) by {
            if a.contains(x) {
                let n = choose|n: int| 0 <= n < a.len() && a[n] == x;
                assert(s[n + 1] == x);
                assert(s.contains(x));
                let m = choose|m: int| 0 <= m < r.len() && r[m] == x;
                assert(b[m - 1] == x);
            }
            if b.contains(x) {
                let n = choose|n: int| 0 <= n < b.len() && b[n] == x;
                assert(r[n + 1] == x);
                assert(r.contains(x));
                let m = choose|m: int| 0 <= m < s.len() && s[m] == x;
                assert(a[m - 1] == x);
            }
        }
        assert(a.to_set() =~= b.to_set());
        lemma_rising_unique(a, b);
        assert(s =~= seq![s[0]] + a);
        assert(r =~= seq![r[0]] + b);
    }
}

/// A list in increasing order is the rising list of its numbers.
pub proof fn lemma_is_rising(s: Seq<u32>)
    requires
        increasing(s),
    ensures
        s == rising(s.to_set()),
{
    lemma_rising_unique(s, rising(s.to_set()));
}

/// A leaf of the given bounds.
pub open spec fn leaf(bounds: Rect, depth: int, max_depth: u8, shard_id: u32) -> QuadTree {
    QuadTree { bounds, depth: depth as u8, max_depth, children: None, shard_id: Some(shard_id) }
}

impl QuadTree {
    /// The shard that a position belongs to.
    pub open spec fn owner(self, pos: [Single; 2]) -> Option<u32>
        decreases self,
    {
        if !self.bounds.holds(pos) {
            None
        } else {
            match self.children {
                None => self.shard_id,
                Some(c) => first_of(
                    c.top_left.owner(pos),
                    first_of(
                        c.top_right.owner(pos),
                        first_of(c.bottom_left.owner(pos), c.bottom_right.owner(pos)),
                    ),
                ),
            }
        }
    }

    /// The shards whose leaves, and the regions around them, are reached by the
    /// square of half-side `margin` around `pos`, in the order of the leaves.
    pub open spec fn near(self, pos: [Single; 2], margin: Single) -> Seq<u32>
        decreases self,
    {
        if !self.bounds.reached(pos, margin) {
            Seq::empty()
        } else {
            match (self.children, self.shard_id) {
                (Some(c), _) => c.top_left.near(pos, margin) + c.top_right.near(pos, margin)
                    + c.bottom_left.near(pos, margin) + c.bottom_right.near(pos, margin),
                (None, Some(id)) => seq![id],
                (None, None) => Seq::empty(),
            }
        }
    }

    /// The quarters that a region is split into.
    pub open spec fn split_of(self, shard_ids: [u32; 4]) -> Quarters {
        let hw = halved(self.bounds.w);
        let hh = halved(self.bounds.h);
        let x = self.bounds.x;
        let y = self.bounds.y;
        let d = self.depth + 1;
        Quarters {
            top_left: leaf(Rect { x, y, w: hw, h: hh }, d, self.max_depth, shard_ids[0]),
            top_right: leaf(
                Rect { x: sum(x, hw), y, w: hw, h: hh },
                d,
                self.max_depth,
                shard_ids[1],
            ),
            bottom_left: leaf(
                Rect { x, y: sum(y, hh), w: hw, h: hh },
                d,
                self.max_depth,
                shard_ids[2],
            ),
            bottom_right: leaf(
                Rect { x: sum(x, hw), y: sum(y, hh), w: hw, h: hh },
                d,
                self.max_depth,
                shard_ids[3],
            ),
        }
    }

    pub fn new(bounds: Rect, depth: u8, max_depth: u8, shard_id: Option<u32>) -> (r: Self)
        ensures
            r == (QuadTree { bounds, depth, max_depth, children: None, shard_id }),
    {
        QuadTree { bounds, depth, max_depth, children: None, shard_id }
    }

    /// Replaces what the region held by four quarters, one for each shard.
    pub fn split(&mut self, shard_ids: [u32; 4])
        requires
            old(self).depth < u8::MAX,
        ensures
            final(self).bounds == old(self).bounds,
            final(self).depth == old(self).depth,
            final(self).max_depth == old(self).max_depth,
            final(self).shard_id == None::<u32>,
            final(self).children == Some(Box::new(old(self).split_of(shard_ids))),
    {
        let hw = self.bounds.w.half();
        let hh = self.bounds.h.half();
        let x = self.bounds.x;
        let y = self.bounds.y;
        let d: u8 = self.depth + 1;
        let md: u8 = self.max_depth;
        self.children = Some(
            Box::new(
                Quarters {
                    top_left: QuadTree::new(
                        Rect { x, y, w: hw, h: hh },
                        d,
                        md,
                        Some(shard_ids[0]),
                    ),
                    top_right: QuadTree::new(
                        Rect { x: x.plus(hw), y, w: hw, h: hh },
                        d,
                        md,
                        Some(shard_ids[1]),
                    ),
                    bottom_left: QuadTree::new(
                        Rect { x, y: y.plus(hh), w: hw, h: hh },
                        d,
                        md,
                        Some(shard_ids[2]),
                    ),
                    bottom_right: QuadTree::new(
                        Rect { x: x.plus(hw), y: y.plus(hh), w: hw, h: hh },
                        d,
                        md,
                        Some(shard_ids[3]),
                    ),
                },
            ),
        );
        self.shard_id = None;
    }

    /// The shard that a position belongs to, if any.
    pub fn shard_for(&self, pos: [Single; 2]) -> (r: Option<u32>)
        ensures
            r == self.owner(pos),
        decreases self,
    {
        if !self.bounds.contains(pos) {
            return None;
        }
        if let Some(c) = &self.children {
            if let Some(id) = c.top_left.shard_for(pos) {
                return Some(id);
            }
            if let Some(id) = c.top_right.shard_for(pos) {
                return Some(id);
            }
            if let Some(id) = c.bottom_left.shard_for(pos) {
                return Some(id);
            }
            return c.bottom_right.shard_for(pos);
        }
        self.shard_id
    }

    /// The shards around a position, each once, in increasing order. Its own is among
    /// them unless the margin is negative or not a number.
    pub fn shards_near(&self, pos: [Single; 2], margin: Single) -> (r: Vec<u32>)
        ensures
            increasing(r@),
            forall|id: u32| r@.contains(id) <==> self.near(pos, margin).contains(id),
            r@ == rising(self.near(pos, margin).to_set()),
    {
        let mut found: Vec<u32> = Vec::new();
        self.collect_shards_near(pos, margin, &mut found);
        assert(found@ =~= self.near(pos, margin));
        let r = sorted_unique(&found);
        proof {
            lemma_is_rising(r@);
            assert(r@.to_set() =~= self.near(pos, margin).to_set());
        }
        r
    }

    fn collect_shards_near(&self, pos: [Single; 2], margin: Single, out: &mut Vec<u32>)
        ensures
            final(out)@ == old(out)@ + self.near(pos, margin),
        decreases self,
    {
        if !self.bounds.intersects_margin(pos, margin) && !(Single::from_bits(0).le(margin)
            && self.bounds.contains(pos)) {
            assert(old(out)@ + self.near(pos, margin) =~= old(out)@);
            return ;
        }
        if let Some(c) = &self.children {
            c.top_left.collect_shards_near(pos, margin, out);
            c.top_right.collect_shards_near(pos, margin, out);
            c.bottom_left.collect_shards_near(pos, margin, out);
            c.bottom_right.collect_shards_near(pos, margin, out);
            assert(out@ =~= old(out)@ + self.near(pos, margin));
        } else if let Some(id) = self.shard_id {
            out.push(id);
            assert(out@ =~= old(out)@ + self.near(pos, margin));
        } else {
            assert(out@ =~= old(out)@ + self.near(pos, margin));
        }
    }
}

/// The numbers of a list, each once, in increasing order.
fn sorted_unique(v: &Vec<u32>) -> (r: Vec<u32>)
    ensures
        increasing(r@),
        forall|id: u32| r@.contains(id) <==> v@.contains(id),
{
    let mut r: Vec<u32> = Vec::new();
    let mut i: usize = 0;
    while i < v.len()
        invariant
            i <= v.len(),
            increasing(r@),
            forall|id: u32| r@.contains(id) <==> v@.take(i as int).contains(id),
        decreases v.len() - i,
    {
        let x: u32 = v[i];
        let mut j: usize = 0;
        while j < r.len() && r[j] < x
            invariant
                j <= r.len(),
                forall|k: int| 0 <= k < j ==> r@[k] < x,
            decreases r.len() - j,
        {
            j = j + 1;
        }
        let ghost before = r@;
        proof {
            assert(v@.take(i + 1) =~= v@.take(i as int).push(x));
            assert forall|id: u32| #[trigger] v@.take(i + 1).contains(id) <==> (before.contains(id)
                || id == x) by {
                let t = v@.take(i as int);
                if t.contains(id) {
                    let n = choose|n: int| 0 <= n < t.len() && t[n] == id;
                    assert(t.push(x)[n] == id);
                }
                if id == x {
                    assert(t.push(x)[i as int] == id);
                }
            }
        }
        if j == r.len() || r[j] != x {
            r.insert(j, x);
            proof {
                assert(r@[j as int] == x);
                assert forall|id: u32| r@.contains(id) <==> (before.contains(id) || id == x) by {
                    if before.contains(id) {
                        let n = choose|n: int| 0 <= n < before.len() && before[n] == id;
                        if n < j {
                            assert(r@[n] == id);
                        } else {
                            assert(r@[n + 1] == id);
                        }
                    }
                    if r@.contains(id) && id != x {
                        let n = choose|n: int| 0 <= n < r@.len() && r@[n] == id;
                        if n < j {
                            assert(before[n] == id);
                        } else {
                            assert(before[n - 1] == id);
                        }
                    }
                }
            }
        } else {
            assert(r@[j as int] == x);
        }
        assert forall|id: u32| #[trigger] r@.contains(id) <==> v@.take(i + 1).contains(id) by {
            assert(r@.contains(id) <==> (before.contains(id) || id == x));
        }
        i = i + 1;
    }
    assert(v@.take(i as int) =~= v@);
    r
}

/// The side of the default world, 1000.
pub const WORLD_SIZE: u32 = 0x447a_0000;

/// Where the default world is split, 500.
pub const BOUNDARY: u32 = 0x43fa_0000;

/// The default world: 1000 by 1000, in four quadrants for the shards 0 to 3.
pub open spec fn default_tree() -> QuadTree {
    let zero = Single { bits: 0 };
    let half = Single { bits: BOUNDARY };
    let side = Single { bits: WORLD_SIZE };
    QuadTree {
        bounds: Rect { x: zero, y: zero, w: side, h: side },
        depth: 0,
        max_depth: 1,
        children: Some(
            Box::new(
                Quarters {
                    top_left: leaf(Rect { x: zero, y: zero, w: half, h: half }, 1, 1, 0),
                    top_right: leaf(Rect { x: half, y: zero, w: half, h: half }, 1, 1, 1),
                    bottom_left: leaf(Rect { x: zero, y: half, w: half, h: half }, 1, 1, 2),
                    bottom_right: leaf(Rect { x: half, y: half, w: half, h: half }, 1, 1, 3),
                },
            ),
        ),
        shard_id: None,
    }
}

/// The arithmetic of the default world: 500 is half of 1000, and 500 + 500 is 1000.
proof fn lemma_default_sizes()
    ensures
        ({
            let zero = Single { bits: 0 };
            let half = Single { bits: BOUNDARY };
            let side = Single { bits: WORLD_SIZE };
            &&& halved(side) == half
            &&& sum(zero, half) == half
            &&& sum(zero, side) == side
            &&& sum(half, half) == side
            &&& zero.value() == 0
            &&& 0 < half.value() < side.value()
        }),
{
    let zero = Single { bits: 0 };
    let half = Single { bits: BOUNDARY };
    let side = Single { bits: WORLD_SIZE };
    lemma_pow2_adds(134, 1);
    lemma_pow2_pos(134);
    vstd::arithmetic::power2::lemma2_to64();
    assert(BOUNDARY as int / 0x80_0000 == 135 && BOUNDARY as int % 0x80_0000 == 0x7a_0000);
    assert(WORLD_SIZE as int / 0x80_0000 == 136 && WORLD_SIZE as int % 0x80_0000 == 0x7a_0000);
    assert(half.value() == 0xfa_0000 * pow2(134));
    assert(side.value() == 0xfa_0000 * pow2(135));
    crate::single::lemma_half_exact(side, half);
    crate::single::lemma_sum_exact(zero, half, half);
    crate::single::lemma_sum_exact(zero, side, side);
    crate::single::lemma_sum_exact(half, half, side);
}

/// Default world: 1000x1000, split into 4 quadrants assigned to shards 0 to 3.
pub fn build_default() -> (r: QuadTree)
    ensures
        r == default_tree(),
{
    let mut tree = QuadTree::new(
        Rect {
            x: Single { bits: 0 },
            y: Single { bits: 0 },
            w: Single { bits: WORLD_SIZE },
            h: Single { bits: WORLD_SIZE },
        },
        0,
        1,
        None,
    );
    tree.split([0, 1, 2, 3]);
    proof {
        lemma_default_sizes();
    }
    tree
}

/// The shard of a position in the default world, by its column and its row.
pub open spec fn grid_shard(x: Single, y: Single) -> Option<u32> {
    let zero = Single { bits: 0 };
    let half = Single { bits: BOUNDARY };
    let side = Single { bits: WORLD_SIZE };
    if at_most(zero, x) && below(x, side) && at_most(zero, y) && below(y, side) {
        let col: int = if at_most(half, x) { 1 } else { 0 };
        let row: int = if at_most(half, y) { 1 } else { 0 };
        Some((row * 2 + col) as u32)
    } else {
        None
    }
}

/// Every position of the default world belongs to exactly one of the shards 0
/// to 3, by its column and its row; no other position belongs to a shard.
pub proof fn law_default_owner(pos: [Single; 2])
    ensures
        default_tree().owner(pos) == grid_shard(pos[0], pos[1]),
        default_tree().owner(pos) is Some <==> {
            &&& at_most(Single { bits: 0 }, pos[0])
            &&& below(pos[0], Single { bits: WORLD_SIZE })
            &&& at_most(Single { bits: 0 }, pos[1])
            &&& below(pos[1], Single { bits: WORLD_SIZE })
        },
        default_tree().owner(pos) is Some ==> default_tree().owner(pos).unwrap() <= 3,
{
    lemma_default_sizes();
    reveal_with_fuel(QuadTree::owner, 3);
}

/// A rectangle that meets a square meets every larger square around the same
/// position.
proof fn lemma_meets_ordered(r: Rect, pos: [Single; 2], m1: Single, m2: Single)
    requires
        at_most(m1, m2),
        r.meets(pos, m1),
    ensures
        r.meets(pos, m2),
{
    assert forall|i: int| 0 <= i < 2 implies (#[trigger] pos[i]).finite() by {
        if pos[i].infinite() {
            crate::single::lemma_infinite_bounds(pos[i], m1);
            if i == 0 {
                crate::single::lemma_infinite_bounds(pos[i], r.x);
                crate::single::lemma_infinite_bounds(pos[i], sum(r.x, r.w));
            } else {
                crate::single::lemma_infinite_bounds(pos[i], r.y);
                crate::single::lemma_infinite_bounds(pos[i], sum(r.y, r.h));
            }
            assert(false);
        }
        if pos[i].nan() {
            crate::single::lemma_sum_exists(pos[i], m1);
            assert(false);
        }
    }
    crate::single::lemma_opposite_ordered(m1, m2);
    assert forall|i: int| 0 <= i < 2 implies {
        &&& at_most(sum(#[trigger] pos[i], m1), sum(pos[i], m2))
        &&& at_most(difference(pos[i], m2), difference(pos[i], m1))
    } by {
        crate::single::lemma_sum_is_number(pos[i], m1);
        crate::single::lemma_sum_is_number(pos[i], m2);
        crate::single::lemma_sum_ordered(pos[i], m1, m2);
        crate::single::lemma_sum_ordered(
            pos[i],
            crate::single::opposite(m2),
            crate::single::opposite(m1),
        );
    }
    assert(pos[0].finite() && pos[1].finite());
}

/// A wider margin can only add shards, never remove them.
pub proof fn law_near_is_monotonic(tree: QuadTree, pos: [Single; 2], m1: Single, m2: Single)
    requires
        at_most(m1, m2),
    ensures
        forall|id: u32| tree.near(pos, m1).contains(id) ==> tree.near(pos, m2).contains(id),
    decreases tree,
{
    if tree.bounds.meets(pos, m1) {
        lemma_meets_ordered(tree.bounds, pos, m1, m2);
    }
    if tree.bounds.reached(pos, m1) {
        if let Some(c) = tree.children {
            law_near_is_monotonic(c.top_left, pos, m1, m2);
            law_near_is_monotonic(c.top_right, pos, m1, m2);
            law_near_is_monotonic(c.bottom_left, pos, m1, m2);
            law_near_is_monotonic(c.bottom_right, pos, m1, m2);
            lemma_near_quarters(tree, pos, m1);
            lemma_near_quarters(tree, pos, m2);
        }
    }
}

/// A region of four quarters is near as its quarters are.
proof fn lemma_near_quarters(tree: QuadTree, pos: [Single; 2], margin: Single)
    requires
        tree.bounds.reached(pos, margin),
        tree.children is Some,
    ensures
        ({
            let c = tree.children.unwrap();
            forall|id: u32| #[trigger]
                tree.near(pos, margin).contains(id) <==> {
                    ||| c.top_left.near(pos, margin).contains(id)
                    ||| c.top_right.near(pos, margin).contains(id)
                    ||| c.bottom_left.near(pos, margin).contains(id)
                    ||| c.bottom_right.near(pos, margin).contains(id)
                }
        }),
{
    broadcast use vstd::seq_lib::group_seq_properties;

}

/// The owning shard of a position is always part of its own neighbourhood, for
/// every margin from zero.
pub proof fn law_owner_is_near(tree: QuadTree, pos: [Single; 2], margin: Single)
    requires
        tree.owner(pos) is Some,
        at_most(Single { bits: 0 }, margin),
    ensures
        tree.near(pos, margin).contains(tree.owner(pos).unwrap()),
    decreases tree,
{
    match tree.children {
        None => {
            assert(tree.near(pos, margin)[0] == tree.owner(pos).unwrap());
        },
        Some(c) => {
            lemma_near_quarters(tree, pos, margin);
            if c.top_left.owner(pos) is Some {
                law_owner_is_near(c.top_left, pos, margin);
            } else if c.top_right.owner(pos) is Some {
                law_owner_is_near(c.top_right, pos, margin);
            } else if c.bottom_left.owner(pos) is Some {
                law_owner_is_near(c.bottom_left, pos, margin);
            } else {
                law_owner_is_near(c.bottom_right, pos, margin);
            }
        },
    }
}

/// The quadrant of the default world that a shard has, by its column and its row.
pub open spec fn quadrant(shard: u32) -> Rect {
    let zero = Single { bits: 0 };
    let half = Single { bits: BOUNDARY };
    Rect {
        x: if shard % 2 == 0 {
            zero
        } else {
            half
        },
        y: if shard / 2 == 0 {
            zero
        } else {
            half
        },
        w: half,
        h: half,
    }
}

/// In the default world exactly those of the shards 0 to 3 are near a position
/// whose quadrants overlap the square around it, and the one that owns the position
/// where the margin is zero or more.
pub proof fn law_default_near(pos: [Single; 2], margin: Single, shard: u32)
    ensures
        default_tree().near(pos, margin).contains(shard) <==> shard <= 3 && {
            ||| quadrant(shard).meets(pos, margin)
            ||| at_most(Single { bits: 0 }, margin) && default_tree().owner(pos) == Some(shard)
        },
{
    let tree = default_tree();
    let c = tree.children.unwrap();
    lemma_default_sizes();
    law_default_owner(pos);
    reveal_with_fuel(QuadTree::near, 3);
    assert(shard == 0 || shard == 1 || shard == 2 || shard == 3 || shard > 3);
    if tree.bounds.reached(pos, margin) {
        lemma_near_quarters(tree, pos, margin);
    }
    let q = if shard == 0 {
        c.top_left
    } else if shard == 1 {
        c.top_right
    } else if shard == 2 {
        c.bottom_left
    } else {
        c.bottom_right
    };
    if shard <= 3 {
        assert(q.bounds == quadrant(shard));
        assert(q.bounds.holds(pos) <==> tree.owner(pos) == Some(shard));
        if q.bounds.reached(pos, margin) {
            assert(q.near(pos, margin)[0] == shard);
        }
    }
}

/// A leaf of a shard holds a position, and so does every region around it.
pub open spec fn leaf_holds(tree: QuadTree, pos: [Single; 2], shard: u32) -> bool
    decreases tree,
{
    tree.bounds.holds(pos) && match tree.children {
        None => tree.shard_id == Some(shard),
        Some(c) => leaf_holds(c.top_left, pos, shard) || leaf_holds(c.top_right, pos, shard)
            || leaf_holds(c.bottom_left, pos, shard) || leaf_holds(c.bottom_right, pos, shard),
    }
}

/// A position belongs to a shard that has a leaf that holds it, and to none
/// exactly where no leaf of a shard does.
pub proof fn law_owner_has_a_leaf(tree: QuadTree, pos: [Single; 2], shard: u32)
    ensures
        tree.owner(pos) == Some(shard) ==> leaf_holds(tree, pos, shard),
        tree.owner(pos) is None ==> !leaf_holds(tree, pos, shard),
    decreases tree,
{
    if let Some(c) = tree.children {
        law_owner_has_a_leaf(c.top_left, pos, shard);
        law_owner_has_a_leaf(c.top_right, pos, shard);
        law_owner_has_a_leaf(c.bottom_left, pos, shard);
        law_owner_has_a_leaf(c.bottom_right, pos, shard);
    }
}

/// A leaf of a shard is reached by the square around a position, and so is
/// every region around it.
pub open spec fn leaf_reached(tree: QuadTree, pos: [Single; 2], margin: Single, shard: u32) -> bool
    decreases tree,
{
    tree.bounds.reached(pos, margin) && match tree.children {
        None => tree.shard_id == Some(shard),
        Some(c) => leaf_reached(c.top_left, pos, margin, shard) || leaf_reached(
            c.top_right,
            pos,
            margin,
            shard,
        ) || leaf_reached(c.bottom_left, pos, margin, shard) || leaf_reached(
            c.bottom_right,
            pos,
            margin,
            shard,
        ),
    }
}

/// Exactly the shards are near a position that have a leaf that is reached.
pub proof fn law_near_shards_have_a_leaf(
    tree: QuadTree,
    pos: [Single; 2],
    margin: Single,
    shard: u32,
)
    ensures
        tree.near(pos, margin).contains(shard) <==> leaf_reached(tree, pos, margin, shard),
    decreases tree,
{
    if tree.bounds.reached(pos, margin) {
        match tree.children {
            Some(c) => {
                law_near_shards_have_a_leaf(c.top_left, pos, margin, shard);
                law_near_shards_have_a_leaf(c.top_right, pos, margin, shard);
                law_near_shards_have_a_leaf(c.bottom_left, pos, margin, shard);
                law_near_shards_have_a_leaf(c.bottom_right, pos, margin, shard);
                lemma_near_quarters(tree, pos, margin);
            },
            None => {
                if tree.shard_id == Some(shard) {
                    assert(tree.near(pos, margin)[0] == shard);
                }
            },
        }
    }
}

/// A region is split into four quarters of half its width and half its height,
/// one for each shard: they begin where the region begins or, along either
/// axis, half its size further.
pub proof fn law_split_makes_quarters(tree: QuadTree, shard_ids: [u32; 4])
    ensures
        ({
            let q = tree.split_of(shard_ids);
            let b = tree.bounds;
            let (w, h) = (halved(b.w), halved(b.h));
            let (x, y) = (sum(b.x, w), sum(b.y, h));
            &&& q.top_left.bounds == (Rect { x: b.x, y: b.y, w, h })
            &&& q.top_right.bounds == (Rect { x, y: b.y, w, h })
            &&& q.bottom_left.bounds == (Rect { x: b.x, y, w, h })
            &&& q.bottom_right.bounds == (Rect { x, y, w, h })
            &&& q.top_left.shard_id == Some(shard_ids[0]) && q.top_right.shard_id == Some(shard_ids[1])
            &&& q.bottom_left.shard_id == Some(shard_ids[2]) && q.bottom_right.shard_id == Some(
                shard_ids[3],
            )
            &&& q.top_left.children is None && q.top_right.children is None
            &&& q.bottom_left.children is None && q.bottom_right.children is None
        }),
{
}

/// A rectangle overlaps the square around a position by where they are: it does
/// not where the square ends at an edge of the rectangle, or before it, and it
/// does where the square goes beyond the edges, as far as single-precision
/// numbers tell. Both axes count.
pub proof fn law_overlap_is_by_position(
    r: Rect,
    pos: [Single; 2],
    margin: Single,
    inner: [Single; 4],
)
    requires
        pos[0].finite(),
        pos[1].finite(),
        margin.finite(),
        r.x.finite(),
        r.y.finite(),
        sum(r.x, r.w).finite(),
        sum(r.y, r.h).finite(),
        inner[0].finite(),
        inner[1].finite(),
        inner[2].finite(),
        inner[3].finite(),
    ensures
        ({
            let m = margin.value();
            let (x, y) = (pos[0].value(), pos[1].value());
            &&& x + m <= r.x.value() || x - m >= sum(r.x, r.w).value() || y + m <= r.y.value() || y - m
                >= sum(r.y, r.h).value() ==> !r.meets(pos, margin)
            &&& r.x.value() < inner[0].value() <= x + m && x - m <= inner[1].value() < sum(
                r.x,
                r.w,
            ).value() && r.y.value() < inner[2].value() <= y + m && y - m <= inner[3].value() < sum(
                r.y,
                r.h,
            ).value() ==> r.meets(pos, margin)
        }),
{
    let less = crate::single::opposite(margin);
    assert(less.value() == -margin.value());
    crate::single::law_sum_is_by_value(pos[0], margin, r.x);
    crate::single::law_sum_is_by_value(pos[0], margin, inner[0]);
    crate::single::law_sum_is_by_value(pos[0], less, sum(r.x, r.w));
    crate::single::law_sum_is_by_value(pos[0], less, inner[1]);
    crate::single::law_sum_is_by_value(pos[1], margin, r.y);
    crate::single::law_sum_is_by_value(pos[1], margin, inner[2]);
    crate::single::law_sum_is_by_value(pos[1], less, sum(r.y, r.h));
    crate::single::law_sum_is_by_value(pos[1], less, inner[3]);
}

/// A rectangle holds a position that is not below its lower edges, and is below
/// its upper edges, along both axes.
pub proof fn law_holding_is_by_position(r: Rect, pos: [Single; 2])
    requires
        pos[0].finite(),
        pos[1].finite(),
        r.x.finite(),
        r.y.finite(),
        sum(r.x, r.w).finite(),
        sum(r.y, r.h).finite(),
    ensures
        r.holds(pos) <==> {
            &&& r.x.value() <= pos[0].value() < sum(r.x, r.w).value()
            &&& r.y.value() <= pos[1].value() < sum(r.y, r.h).value()
        },
{
}

/// The default world goes from 0 to 1000 along both axes; a position of it
/// belongs to the left column of shards below 500, and to the lower row below
/// 500.
pub proof fn law_world_is_a_grid(x: Single, y: Single)
    requires
        x.finite(),
        y.finite(),
    ensures
        ({
            let half = (Single { bits: 0x43fa_0000 }).value();
            let side = (Single { bits: 0x447a_0000 }).value();
            let (a, b) = (x.value(), y.value());
            &&& grid_shard(x, y) is Some <==> 0 <= a < side && 0 <= b < side
            &&& 0 <= a < half && 0 <= b < half ==> grid_shard(x, y) == Some(0u32)
            &&& half <= a < side && 0 <= b < half ==> grid_shard(x, y) == Some(1u32)
            &&& 0 <= a < half && half <= b < side ==> grid_shard(x, y) == Some(2u32)
            &&& half <= a < side && half <= b < side ==> grid_shard(x, y) == Some(3u32)
            &&& 0 < half < side
        }),
{
    lemma_default_sizes();
}

} // verus!
