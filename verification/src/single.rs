//! IEEE 754 single-precision numbers, held as their bit patterns.
//!
//! World coordinates travel over the network as the four bytes of a
//! single-precision number. A [`Single`] is such a bit pattern; comparison,
//! addition, subtraction, multiplication and halving follow IEEE 754 with
//! rounding to nearest, ties to even.

use vstd::arithmetic::power2::{lemma_pow2_adds, lemma_pow2_pos, pow2};
use vstd::prelude::*;

verus! {

/// The magnitude bits of infinity; greater magnitudes are not numbers.
pub const INFINITE: u32 = 0x7f80_0000;

/// The sign bit.
pub const SIGN: u32 = 0x8000_0000;

/// The bit pattern given to a result that is not a number.
pub const NOT_A_NUMBER: u32 = 0x7fc0_0000;

/// A single-precision number, by its bit pattern.
///
/// `==` compares bit patterns; [`Single::lt`] and [`Single::le`] compare the
/// numbers they stand for.
#[derive(Clone, Copy, Debug, PartialEq, Eq, Structural)]
pub struct Single {
    pub bits: u32,
}

/// The number that the magnitude bits `m` stand for, in units of 2^-149.
///
/// Infinity is given the value that the next power of two would have.
pub open spec fn scaled(m: int) -> int {
    if m < 0x100_0000 {
        m
    } else {
        (0x80_0000 + m % 0x80_0000) * pow2((m / 0x80_0000 - 1) as nat)
    }
}

/// The distance between two integers.
pub open spec fn distance(a: int, b: int) -> int {
    if a <= b {
        b - a
    } else {
        a - b
    }
}

/// The magnitude bits `m` stand for the number nearest to `num / den`, in units
/// of 2^-149; between two numbers equally near, the one whose last bit is zero.
pub open spec fn nearest(m: int, num: int, den: int) -> bool {
    &&& 0 <= m <= INFINITE
    &&& forall|k: int|
        0 <= k <= INFINITE && k != m ==> {
            ||| distance(scaled(m) * den, num) < distance(#[trigger] scaled(k) * den, num)
            ||| distance(scaled(m) * den, num) == distance(scaled(k) * den, num) && m % 2 == 0
        }
}

impl Single {
    /// The sign bit is set.
    pub open spec fn negative(self) -> bool {
        self.bits >= SIGN
    }

    /// The bits without the sign bit.
    pub open spec fn magnitude(self) -> int {
        if self.negative() {
            self.bits - SIGN
        } else {
            self.bits as int
        }
    }

    /// The bit pattern stands for no number.
    pub open spec fn nan(self) -> bool {
        self.magnitude() > INFINITE
    }

    /// The bit pattern stands for an infinity.
    pub open spec fn infinite(self) -> bool {
        self.magnitude() == INFINITE
    }

    /// The bit pattern stands for a finite number.
    pub open spec fn finite(self) -> bool {
        self.magnitude() < INFINITE
    }

    /// The number in units of 2^-149.
    pub open spec fn value(self) -> int {
        if self.negative() {
            -scaled(self.magnitude())
        } else {
            scaled(self.magnitude())
        }
    }

    /// The magnitude bits ordered by the number that they stand for.
    spec fn rank(self) -> int {
        if self.negative() {
            -self.magnitude()
        } else {
            self.magnitude()
        }
    }
}

/// `a < b` as numbers; false where either is not a number.
pub open spec fn below(a: Single, b: Single) -> bool {
    !a.nan() && !b.nan() && a.value() < b.value()
}

/// `a <= b` as numbers; false where either is not a number.
pub open spec fn at_most(a: Single, b: Single) -> bool {
    !a.nan() && !b.nan() && a.value() <= b.value()
}

/// The number with the other sign.
pub open spec fn opposite(a: Single) -> Single {
    if a.negative() {
        Single { bits: (a.bits - SIGN) as u32 }
    } else {
        Single { bits: (a.bits + SIGN) as u32 }
    }
}

/// `r` is the rounded sum of `a` and `b`.
pub open spec fn is_sum(a: Single, b: Single, r: Single) -> bool {
    if a.nan() || b.nan() {
        r.bits == NOT_A_NUMBER
    } else if a.infinite() && b.infinite() {
        if a == b {
            r == a
        } else {
            r.bits == NOT_A_NUMBER
        }
    } else if a.infinite() {
        r == a
    } else if b.infinite() {
        r == b
    } else if a.value() + b.value() == 0 {
        r.magnitude() == 0 && r.negative() == (a.negative() && b.negative())
    } else {
        &&& r.negative() == (a.value() + b.value() < 0)
        &&& nearest(r.magnitude(), distance(a.value() + b.value(), 0), 1)
    }
}

/// `r` is the rounded product of `a` and `b`.
pub open spec fn is_product(a: Single, b: Single, r: Single) -> bool {
    if a.nan() || b.nan() || (a.infinite() && b.magnitude() == 0) || (b.infinite()
        && a.magnitude() == 0) {
        r.bits == NOT_A_NUMBER
    } else {
        &&& r.negative() == (a.negative() != b.negative())
        &&& if a.infinite() || b.infinite() {
            r.infinite()
        } else {
            nearest(
                r.magnitude(),
                scaled(a.magnitude()) * scaled(b.magnitude()),
                pow2(149) as int,
            )
        }
    }
}

/// `r` is the rounded half of `a`.
pub open spec fn is_half(a: Single, r: Single) -> bool {
    if a.nan() {
        r.bits == NOT_A_NUMBER
    } else {
        &&& r.negative() == a.negative()
        &&& if a.infinite() {
            r.infinite()
        } else {
            nearest(r.magnitude(), scaled(a.magnitude()), 2)
        }
    }
}

/// `r` is the rounded quotient of `a` and `b`.
pub open spec fn is_quotient(a: Single, b: Single, r: Single) -> bool {
    if a.nan() || b.nan() || (a.infinite() && b.infinite()) || (a.magnitude() == 0 && b.magnitude()
        == 0) {
        r.bits == NOT_A_NUMBER
    } else {
        &&& r.negative() == (a.negative() != b.negative())
        &&& if a.infinite() || b.magnitude() == 0 {
            r.infinite()
        } else if b.infinite() {
            r.magnitude() == 0
        } else {
            nearest(
                r.magnitude(),
                scaled(a.magnitude()) * pow2(149),
                scaled(b.magnitude()),
            )
        }
    }
}

/// The magnitude bits `m` stand for the number nearest to the square root of `v`,
/// in units of 2^-149: the mean of it and any other number lies on the other side
/// of the root. Between two numbers equally near it is the one whose last bit is
/// zero.
pub open spec fn nearest_root(m: int, v: int) -> bool {
    &&& 0 <= m <= INFINITE
    &&& forall|k: int|
        0 <= k <= INFINITE && k != m ==> {
            let both = #[trigger] scaled(k) + scaled(m);
            let four = 4 * (v * pow2(149));
            ||| k < m && both * both < four
            ||| k > m && both * both > four
            ||| both * both == four && m % 2 == 0
        }
}

/// `r` is the rounded square root of `a`.
pub open spec fn is_root(a: Single, r: Single) -> bool {
    if a.nan() || (a.negative() && a.magnitude() > 0) {
        r.bits == NOT_A_NUMBER
    } else if a.magnitude() == 0 || a.infinite() {
        r == a
    } else {
        !r.negative() && nearest_root(r.magnitude(), scaled(a.magnitude()))
    }
}

/// The rounded sum of `a` and `b`.
pub open spec fn sum(a: Single, b: Single) -> Single {
    choose|r: Single| is_sum(a, b, r)
}

/// The rounded difference of `a` and `b`.
pub open spec fn difference(a: Single, b: Single) -> Single {
    sum(a, opposite(b))
}

/// The rounded product of `a` and `b`.
pub open spec fn product(a: Single, b: Single) -> Single {
    choose|r: Single| is_product(a, b, r)
}

/// The rounded quotient of `a` and `b`.
pub open spec fn quotient(a: Single, b: Single) -> Single {
    choose|r: Single| is_quotient(a, b, r)
}

/// The rounded half of `a`.
pub open spec fn halved(a: Single) -> Single {
    choose|r: Single| is_half(a, r)
}

/// The number with a binary exponent and a significand.
pub proof fn lemma_scaled_at(e: nat, q: int)
    requires
        0 <= q < 0x100_0000,
        e == 0 || q >= 0x80_0000,
    ensures
        scaled(e * 0x80_0000 + q) == q * pow2(e),
{
    let m = e * 0x80_0000 + q;
    if e == 0 {
        vstd::arithmetic::power2::lemma2_to64();
        assert(q * pow2(0) == q) by (nonlinear_arith)
            requires
                pow2(0) == 1,
        ;
    } else {
        assert(m >= 0x100_0000);
        assert(m / 0x80_0000 == e + 1);
        assert(m % 0x80_0000 == q - 0x80_0000);
    }
}

/// The parts of the magnitude bits `m`: an exponent and a significand.
spec fn exponent_of(m: int) -> nat {
    if m < 0x100_0000 {
        0
    } else {
        (m / 0x80_0000 - 1) as nat
    }
}

proof fn lemma_scaled_step(m: int)
    requires
        0 <= m,
    ensures
        0 <= scaled(m) < scaled(m + 1),
        exponent_of(m) == 0 ==> scaled(m) == m - exponent_of(m) * 0x80_0000,
        0 <= m - exponent_of(m) * 0x80_0000 < 0x100_0000,
        scaled(m) == (m - exponent_of(m) * 0x80_0000) * pow2(exponent_of(m)),
        scaled(m + 1) == scaled(m) + pow2(exponent_of(m)),
{
    let e = exponent_of(m);
    let q = m - e * 0x80_0000;
    assert(0 <= q < 0x100_0000);
    lemma_scaled_at(e, q);
    lemma_pow2_pos(e);
    assert(0 <= q * pow2(e)) by (nonlinear_arith)
        requires
            0 <= q,
    ;
    assert((q + 1) * pow2(e) == q * pow2(e) + pow2(e)) by (nonlinear_arith);
    if q + 1 < 0x100_0000 {
        lemma_scaled_at(e, q + 1);
    } else {
        lemma_scaled_at(e + 1, 0x80_0000);
        lemma_pow2_adds(1, e);
        vstd::arithmetic::power2::lemma2_to64();
        assert(0x80_0000 * (2 * pow2(e)) == 0x100_0000 * pow2(e)) by (nonlinear_arith);
    }
}

/// Greater magnitude bits stand for a greater number.
pub proof fn lemma_scaled_increases(a: int, b: int)
    requires
        0 <= a < b,
    ensures
        0 <= scaled(a) < scaled(b),
    decreases b - a,
{
    lemma_scaled_step(b - 1);
    if a < b - 1 {
        lemma_scaled_increases(a, b - 1);
    }
}

/// Scaling by a positive factor keeps the order of two products.
proof fn lemma_scale_order(a: int, b: int, den: int)
    requires
        den > 0,
    ensures
        a < b <==> a * den < b * den,
        a <= b <==> a * den <= b * den,
{
    assert(a < b ==> a * den < b * den) by (nonlinear_arith)
        requires
            den > 0,
    ;
    assert(b <= a ==> b * den <= a * den) by (nonlinear_arith)
        requires
            den > 0,
    ;
    assert(a <= b ==> a * den <= b * den) by (nonlinear_arith)
        requires
            den > 0,
    ;
    assert(b < a ==> b * den < a * den) by (nonlinear_arith)
        requires
            den > 0,
    ;
}

/// Of two neighbours that enclose a number, the nearer one is nearest to it.
proof fn lemma_nearest_between(m: int, num: int, den: int)
    requires
        0 <= m < INFINITE,
        den > 0,
        scaled(m) * den <= num <= scaled(m + 1) * den,
    ensures
        ({
            let low = num - scaled(m) * den;
            let high = scaled(m + 1) * den - num;
            if low < high || (low == high && m % 2 == 0) {
                nearest(m, num, den)
            } else {
                nearest(m + 1, num, den)
            }
        }),
{
    lemma_scaled_step(m);
    assert forall|k: int| 0 <= k < m implies #[trigger] scaled(k) * den < scaled(m) * den by {
        lemma_scaled_increases(k, m);
        lemma_scale_order(scaled(k), scaled(m), den);
    }
    assert forall|k: int| m + 1 < k <= INFINITE implies scaled(m + 1) * den < #[trigger] scaled(k)
        * den by {
        lemma_scaled_increases(m + 1, k);
        lemma_scale_order(scaled(m + 1), scaled(k), den);
    }
    lemma_scale_order(scaled(m), scaled(m + 1), den);
    let r = if num - scaled(m) * den < scaled(m + 1) * den - num || (num - scaled(m) * den
        == scaled(m + 1) * den - num && m % 2 == 0) {
        m
    } else {
        m + 1
    };
    assert forall|k: int| 0 <= k <= INFINITE && k != r implies {
        ||| distance(scaled(r) * den, num) < distance(#[trigger] scaled(k) * den, num)
        ||| distance(scaled(r) * den, num) == distance(scaled(k) * den, num) && r % 2 == 0
    } by {
        if k < m {
            assert(scaled(k) * den < scaled(m) * den);
        } else if k > m + 1 {
            assert(scaled(m + 1) * den < scaled(k) * den);
        }
    }
}

/// Beyond the largest number, infinity is nearest.
proof fn lemma_nearest_infinite(num: int, den: int)
    requires
        den > 0,
        num >= scaled(INFINITE as int) * den,
    ensures
        nearest(INFINITE as int, num, den),
{
    assert forall|k: int| 0 <= k <= INFINITE && k != INFINITE implies distance(
        scaled(INFINITE as int) * den,
        num,
    ) < distance(#[trigger] scaled(k) * den, num) by {
        lemma_scaled_increases(k, INFINITE as int);
        lemma_scale_order(scaled(k), scaled(INFINITE as int), den);
    }
}

/// A number that magnitude bits stand for is rounded to those bits.
proof fn lemma_nearest_exact(m: int, den: int)
    requires
        0 <= m <= INFINITE,
        den > 0,
    ensures
        nearest(m, scaled(m) * den, den),
{
    assert forall|k: int| 0 <= k <= INFINITE && k != m implies distance(
        scaled(m) * den,
        scaled(m) * den,
    ) < distance(#[trigger] scaled(k) * den, scaled(m) * den) by {
        if k < m {
            lemma_scaled_increases(k, m);
        } else {
            lemma_scaled_increases(m, k);
        }
        lemma_scale_order(scaled(k), scaled(m), den);
        lemma_scale_order(scaled(m), scaled(k), den);
    }
}

/// Rounding keeps order.
proof fn lemma_nearest_ordered(m1: int, n1: int, m2: int, n2: int, den: int)
    requires
        den > 0,
        nearest(m1, n1, den),
        nearest(m2, n2, den),
        n1 <= n2,
    ensures
        m1 <= m2,
{
    if m2 < m1 {
        lemma_scaled_increases(m2, m1);
        lemma_scale_order(scaled(m2), scaled(m1), den);
        assert(distance(scaled(m1) * den, n1) <= distance(scaled(m2) * den, n1));
        assert(distance(scaled(m2) * den, n2) <= distance(scaled(m1) * den, n2));
        assert(n1 == n2);
        assert(distance(scaled(m1) * den, n1) == distance(scaled(m2) * den, n1));
        assert(m1 % 2 == 0 && m2 % 2 == 0);
        lemma_scaled_step(m2);
        let k = m2 + 1;
        assert(m2 < k < m1);
        lemma_scaled_increases(m2, k);
        lemma_scaled_increases(k, m1);
        lemma_scale_order(scaled(m2), scaled(k), den);
        lemma_scale_order(scaled(k), scaled(m1), den);
        assert(distance(scaled(k) * den, n1) < distance(scaled(m1) * den, n1));
        assert(false);
    }
}

/// Units of `2^exp`: where `d` of them make twice `w`, so do finer ones.
proof fn lemma_units(exp: int, e: nat, d: int, w: int)
    requires
        e >= exp,
        if exp >= 0 {
            d * pow2(exp as nat) == 2 * w
        } else {
            d == 2 * w * pow2((-exp) as nat)
        },
    ensures
        d * pow2(e) == 2 * w * pow2((e - exp) as nat),
{
    let f = (e - exp) as nat;
    if exp >= 0 {
        lemma_pow2_adds(exp as nat, f);
        assert(d * pow2(e) == 2 * w * pow2(f)) by (nonlinear_arith)
            requires
                pow2(e) == pow2(exp as nat) * pow2(f),
                d * pow2(exp as nat) == 2 * w,
        ;
    } else {
        lemma_pow2_adds((-exp) as nat, e);
        assert(d * pow2(e) == 2 * w * pow2(f)) by (nonlinear_arith)
            requires
                pow2(f) == pow2((-exp) as nat) * pow2(e),
                d == 2 * w * pow2((-exp) as nat),
        ;
    }
}

/// A number strictly between `2 * q * w` and `2 * (q + 1) * w` is rounded as the
/// one in the middle, where `q` has more bits than a significand.
proof fn lemma_sticky(m: int, q: int, exp: int, w: int, d: int, b: int)
    requires
        w > 0,
        d > 0,
        q >= 0x200_0000,
        if exp >= 0 {
            d * pow2(exp as nat) == 2 * w
        } else {
            d == 2 * w * pow2((-exp) as nat)
        },
        (2 * q) * w < b < (2 * q + 2) * w,
        nearest(m, (2 * q + 1) * w, d),
    ensures
        nearest(m, b, d),
{
    let a = (2 * q + 1) * w;
    lemma_scale_order(2 * q, 2 * q + 1, w);
    lemma_scale_order(0, 2 * q, w);
    assert(0 * w == 0);
    if a >= scaled(INFINITE as int) * d {
        lemma_nearest_infinite(a, d);
        lemma_nearest_unique(m, INFINITE as int, a, d);
        lemma_scaled_at(254, 0x80_0000);
        let top = 0x80_0000 * pow2(254);
        assert(scaled(INFINITE as int) == top);
        if exp >= 252 {
            lemma_pow2_adds(252, (exp - 252) as nat);
            lemma_pow2_pos((exp - 252) as nat);
            lemma_pow2_pos(252);
            lemma_pow2_adds(252, 2);
            vstd::arithmetic::power2::lemma2_to64();
            assert(pow2(exp as nat) >= pow2(252)) by (nonlinear_arith)
                requires
                    pow2(exp as nat) == pow2(252) * pow2((exp - 252) as nat),
                    pow2((exp - 252) as nat) >= 1,
            ;
            assert((2 * q) * w == q * (d * pow2(exp as nat))) by (nonlinear_arith)
                requires
                    d * pow2(exp as nat) == 2 * w,
            ;
            assert(q * (d * pow2(exp as nat)) >= 0x200_0000 * (d * pow2(252))) by (nonlinear_arith)
                requires
                    q >= 0x200_0000,
                    pow2(exp as nat) >= pow2(252),
                    d > 0,
            ;
            assert(top * d == 0x200_0000 * (d * pow2(252))) by (nonlinear_arith)
                requires
                    top == 0x80_0000 * (pow2(252) * 4),
            ;
        } else {
            let f = (254 - exp) as nat;
            lemma_units(exp, 254, d, w);
            let l: int = (0x80_0000 * pow2(f)) as int;
            assert(top * d == (2 * l) * w) by (nonlinear_arith)
                requires
                    top == 0x80_0000 * pow2(254),
                    d * pow2(254) == 2 * w * pow2(f),
                    l == 0x80_0000 * pow2(f),
            ;
            lemma_scale_order(2 * l, 2 * q + 1, w);
            lemma_scale_order(2 * l, 2 * q, w);
        }
        lemma_nearest_infinite(b, d);
    } else {
        let low = lemma_enclosed(INFINITE as int, a, d);
        lemma_scaled_step(low);
        let e = exponent_of(low);
        let s = low - e * 0x80_0000;
        if exp >= 0 && e <= exp {
            lemma_pow2_adds(e, (exp - e) as nat);
            lemma_pow2_pos((exp - e) as nat);
            lemma_pow2_pos(e);
            assert(pow2(e) * d <= 2 * w) by (nonlinear_arith)
                requires
                    d * pow2(exp as nat) == 2 * w,
                    pow2(exp as nat) == pow2(e) * pow2((exp - e) as nat),
                    pow2((exp - e) as nat) >= 1,
                    pow2(e) > 0,
                    d > 0,
            ;
            assert(scaled(low + 1) * d <= 0x100_0000 * (2 * w)) by (nonlinear_arith)
                requires
                    scaled(low + 1) == s * pow2(e) + pow2(e),
                    0 <= s < 0x100_0000,
                    0 <= pow2(e) * d <= 2 * w,
            ;
            assert(0x100_0000 * (2 * w) == 0x200_0000 * w) by (nonlinear_arith);
            lemma_scale_order(0x200_0000, 2 * q, w);
        }
        let f = (e - exp) as nat;
        lemma_units(exp, e, d, w);
        lemma_pow2_adds((f - 1) as nat, 1);
        vstd::arithmetic::power2::lemma2_to64();
        let h = pow2((f - 1) as nat) as int;
        let l = s * pow2(f);
        assert(scaled(low) * d == (2 * l) * w) by (nonlinear_arith)
            requires
                scaled(low) == s * pow2(e),
                d * pow2(e) == 2 * w * pow2(f),
                l == s * pow2(f),
        ;
        assert(scaled(low + 1) * d == (2 * l + 4 * h) * w) by (nonlinear_arith)
            requires
                scaled(low + 1) == s * pow2(e) + pow2(e),
                d * pow2(e) == 2 * w * pow2(f),
                l == s * pow2(f),
                pow2(f) == h * 2,
        ;
        lemma_scale_order(2 * l, 2 * q + 1, w);
        lemma_scale_order(2 * q + 1, 2 * l + 4 * h, w);
        lemma_scale_order(2 * l, 2 * q, w);
        lemma_scale_order(2 * q + 2, 2 * l + 4 * h, w);
        lemma_nearest_between(low, a, d);
        lemma_nearest_between(low, b, d);
        let middle = (2 * l + 2 * h) * w;
        assert(middle + middle == (2 * l) * w + (2 * l + 4 * h) * w) by (nonlinear_arith)
            requires
                middle == (2 * l + 2 * h) * w,
        ;
        lemma_scale_order(2 * q + 1, 2 * l + 2 * h, w);
        lemma_scale_order(2 * l + 2 * h, 2 * q + 1, w);
        lemma_scale_order(2 * q + 2, 2 * l + 2 * h, w);
        lemma_scale_order(2 * l + 2 * h, 2 * q, w);
        if q + 1 <= l + h {
            lemma_nearest_unique(m, low, a, d);
        } else {
            lemma_nearest_unique(m, low + 1, a, d);
        }
    }
}

/// Only one bit pattern is nearest.
proof fn lemma_nearest_unique(m1: int, m2: int, num: int, den: int)
    requires
        den > 0,
        nearest(m1, num, den),
        nearest(m2, num, den),
    ensures
        m1 == m2,
{
    lemma_nearest_ordered(m1, num, m2, num, den);
    lemma_nearest_ordered(m2, num, m1, num, den);
}

/// The fraction may be expanded by a common factor.
proof fn lemma_nearest_expand(m: int, num: int, den: int, c: int)
    requires
        c > 0,
        nearest(m, num, den),
    ensures
        nearest(m, num * c, den * c),
{
    assert forall|k: int| 0 <= k <= INFINITE implies distance(
        #[trigger] scaled(k) * (den * c),
        num * c,
    ) == distance(scaled(k) * den, num) * c by {
        let a = scaled(k) * den;
        assert(scaled(k) * (den * c) == a * c) by (nonlinear_arith)
            requires
                a == scaled(k) * den,
        ;
        lemma_scale_order(a, num, c);
        assert((num - a) * c == num * c - a * c) by (nonlinear_arith);
        assert((a - num) * c == a * c - num * c) by (nonlinear_arith);
    }
    assert forall|k: int| 0 <= k <= INFINITE && k != m implies {
        ||| distance(scaled(m) * (den * c), num * c) < distance(
            #[trigger] scaled(k) * (den * c),
            num * c,
        )
        ||| distance(scaled(m) * (den * c), num * c) == distance(scaled(k) * (den * c), num * c)
            && m % 2 == 0
    } by {
        assert(scaled(k) * den == scaled(k) * den);
        lemma_scale_order(distance(scaled(m) * den, num), distance(scaled(k) * den, num), c);
    }
}

/// The fraction may be reduced by a common factor.
proof fn lemma_nearest_reduce(m: int, num: int, den: int, c: int)
    requires
        c > 0,
        nearest(m, num * c, den * c),
    ensures
        nearest(m, num, den),
{
    assert forall|k: int| 0 <= k <= INFINITE && k != m implies {
        ||| distance(scaled(m) * den, num) < distance(#[trigger] scaled(k) * den, num)
        ||| distance(scaled(m) * den, num) == distance(scaled(k) * den, num) && m % 2 == 0
    } by {
        lemma_distance_scaled(scaled(m), num, den, c);
        lemma_distance_scaled(scaled(k), num, den, c);
        let a = distance(scaled(m) * den, num);
        let b = distance(scaled(k) * den, num);
        lemma_scale_order(a, b, c);
        lemma_scale_order(b, a, c);
        assert(scaled(k) * (den * c) == scaled(k) * (den * c));
    }
}

proof fn lemma_distance_scaled(x: int, num: int, den: int, c: int)
    requires
        c > 0,
    ensures
        distance(x * (den * c), num * c) == distance(x * den, num) * c,
{
    let a = x * den;
    assert(x * (den * c) == a * c) by (nonlinear_arith)
        requires
            a == x * den,
    ;
    lemma_scale_order(a, num, c);
    assert((num - a) * c == num * c - a * c) by (nonlinear_arith);
    assert((a - num) * c == a * c - num * c) by (nonlinear_arith);
}

/// The fraction `sig * 2^exp`, as a numerator over a denominator.
spec fn numerator(sig: int, exp: int) -> int {
    if exp >= 0 {
        sig * pow2(exp as nat)
    } else {
        sig
    }
}

spec fn denominator(exp: int) -> int {
    if exp >= 0 {
        1
    } else {
        pow2((-exp) as nat) as int
    }
}

/// Where `sig == q * 2^k + r`, `sig * 2^exp` lies `r` parts of `2^k` beyond the
/// number with significand `q` and exponent `k + exp`.
proof fn lemma_fraction_parts(sig: int, exp: int, k: nat, q: int, r: int)
    requires
        sig == q * pow2(k) + r,
        k + exp >= 0,
    ensures
        ({
            let c = if exp >= 0 { pow2(exp as nat) as int } else { 1 };
            let whole = q * pow2((k + exp) as nat) * denominator(exp);
            &&& c > 0
            &&& denominator(exp) > 0
            &&& numerator(sig, exp) == whole + r * c
            &&& pow2((k + exp) as nat) * denominator(exp) == pow2(k) * c
        }),
{
    let e = (k + exp) as nat;
    if exp >= 0 {
        let c = pow2(exp as nat) as int;
        lemma_pow2_pos(exp as nat);
        lemma_pow2_adds(k, exp as nat);
        assert((q * pow2(k) + r) * c == q * (pow2(k) * c) + r * c) by (nonlinear_arith);
        assert(q * pow2(e) * 1 == q * pow2(e)) by (nonlinear_arith);
    } else {
        let d = (-exp) as nat;
        lemma_pow2_pos(d);
        lemma_pow2_adds(e, d);
        assert(q * pow2(e) * pow2(d) == q * (pow2(e) * pow2(d))) by (nonlinear_arith);
    }
}

/// A significand and a binary exponent, rounded to magnitude bits.
fn round(sig: u64, exp: i32) -> (m: u32)
    requires
        sig < 0x8_0000_0000_0000,
        -400 <= exp <= 400,
    ensures
        nearest(m as int, numerator(sig as int, exp as int), denominator(exp as int)),
{
    let ghost num = numerator(sig as int, exp as int);
    let ghost den = denominator(exp as int);
    proof {
        vstd::arithmetic::power2::lemma2_to64();
    }
    if exp < -53 {
        proof {
            let d = (-exp) as nat;
            lemma_pow2_adds(53, (d - 53) as nat);
            lemma_pow2_pos((d - 53) as nat);
            assert(pow2(53) * pow2((d - 53) as nat) >= pow2(53)) by (nonlinear_arith)
                requires
                    pow2((d - 53) as nat) >= 1,
            ;
            assert(pow2(53) == 0x20_0000_0000_0000) by {
                lemma_pow2_adds(32, 21);
            }
            assert(scaled(0) * den == 0) by (nonlinear_arith)
                requires
                    scaled(0) == 0,
            ;
            assert(scaled(1) * den == den) by (nonlinear_arith)
                requires
                    scaled(1) == 1,
            ;
            lemma_nearest_between(0, num, den);
        }
        return 0;
    }
    let mut k: u32 = 0;
    let mut unit: u64 = 1;
    while sig / unit >= 0x100_0000 || (k as i32) + exp < 0
        invariant
            sig < 0x8_0000_0000_0000,
            -53 <= exp <= 400,
            k <= 53,
            unit == pow2(k as nat),
            unit >= 1,
            k > 0 && k + exp > 0 ==> sig / unit >= 0x80_0000,
        decreases 54 - k,
    {
        proof {
            lemma_pow2_adds(k as nat, 1);
            vstd::arithmetic::power2::lemma2_to64();
            assert(pow2(27) == 0x800_0000 && pow2(53) == 0x20_0000_0000_0000) by {
                lemma_pow2_adds(32, 21);
            }
            if k >= 27 && sig / unit >= 0x100_0000 {
                lemma_pow2_adds(27, (k - 27) as nat);
                lemma_pow2_pos((k - 27) as nat);
                assert(unit >= 0x800_0000) by (nonlinear_arith)
                    requires
                        unit == 0x800_0000 * pow2((k - 27) as nat),
                        pow2((k - 27) as nat) >= 1,
                ;
                assert(sig / unit < 0x100_0000) by (nonlinear_arith)
                    requires
                        sig < 0x8_0000_0000_0000,
                        unit >= 0x800_0000,
                ;
                assert(false);
            }
            if k == 53 {
                assert(false);
            }
            lemma_pow2_adds(k as nat, (53 - k) as nat);
            lemma_pow2_pos((53 - k) as nat);
            assert(unit <= 0x20_0000_0000_0000) by (nonlinear_arith)
                requires
                    unit * pow2((53 - k) as nat) == 0x20_0000_0000_0000,
                    pow2((53 - k) as nat) >= 1,
            ;
            assert(sig as int / (unit * 2) == (sig as int / unit as int) / 2) by {
                vstd::arithmetic::div_mod::lemma_div_denominator(sig as int, unit as int, 2);
            }
        }
        unit = unit * 2;
        k = k + 1;
    }
    let mut q: u64 = sig / unit;
    let r: u64 = sig % unit;
    let mut e: u32 = ((k as i32) + exp) as u32;
    proof {
        vstd::arithmetic::div_mod::lemma_fundamental_div_mod(sig as int, unit as int);
        assert(sig == q * unit + r) by (nonlinear_arith)
            requires
                sig == unit * q + r,
        ;
        lemma_fraction_parts(sig as int, exp as int, k as nat, q as int, r as int);
    }
    let ghost e0 = e as nat;
    let ghost q0 = q as int;
    if k == 0 {
        assert(r == 0);
        while q < 0x80_0000 && e > 0
            invariant
                q < 0x100_0000,
                q * pow2(e as nat) == q0 * pow2(e0),
                e <= e0,
            decreases e,
        {
            proof {
                lemma_pow2_adds((e - 1) as nat, 1);
                vstd::arithmetic::power2::lemma2_to64();
                assert((2 * q) * pow2((e - 1) as nat) == q * (pow2((e - 1) as nat) * 2))
                    by (nonlinear_arith);
            }
            q = 2 * q;
            e = e - 1;
        }
    }
    let ghost c = if exp >= 0 { pow2(exp as nat) as int } else { 1 };
    let ghost low = e * 0x80_0000 + q;
    proof {
        lemma_scaled_at(e as nat, q as int);
        lemma_scaled_step(low);
        assert(num == scaled(low) * den + r * c);
        assert(r * c >= 0) by (nonlinear_arith)
            requires
                r >= 0,
                c > 0,
        ;
    }
    if e >= 254 {
        proof {
            if low > INFINITE {
                lemma_scaled_increases(INFINITE as int, low);
                lemma_scale_order(scaled(INFINITE as int), scaled(low), den);
            }
            lemma_nearest_infinite(num, den);
        }
        return INFINITE;
    }
    let m: u32 = e * 0x80_0000 + (q as u32);
    proof {
        assert(low < INFINITE);
        if k == 0 {
            assert(r * c == 0) by (nonlinear_arith)
                requires
                    r == 0,
            ;
            lemma_nearest_exact(low, den);
        } else {
            assert(exponent_of(low) == e);
            assert((scaled(low) + pow2(e as nat)) * den == scaled(low) * den + pow2(e as nat) * den)
                by (nonlinear_arith);
            assert(scaled(low + 1) * den == scaled(low) * den + unit * c);
            assert(r * c <= unit * c) by (nonlinear_arith)
                requires
                    r < unit,
                    c > 0,
            ;
            lemma_nearest_between(low, num, den);
            lemma_scale_order(2 * r, unit as int, c);
            lemma_scale_order(unit as int, 2 * r, c);
            assert((2 * r) * c == r * c + r * c) by (nonlinear_arith);
        }
    }
    if k > 0 && (2 * r > unit || (2 * r == unit && m % 2 == 1)) {
        m + 1
    } else {
        m
    }
}

/// Order by magnitude bits and sign is order by value.
proof fn lemma_rank_order(a: Single, b: Single)
    ensures
        a.rank() < b.rank() <==> a.value() < b.value(),
        a.rank() == b.rank() <==> a.value() == b.value(),
        a.rank() == 0 <==> a.value() == 0,
        a.rank() < 0 <==> a.value() < 0,
{
    let x = a.magnitude();
    let y = b.magnitude();
    assert(scaled(0) == 0);
    if x > 0 {
        lemma_scaled_increases(0, x);
    }
    if y > 0 {
        lemma_scaled_increases(0, y);
    }
    if x < y {
        lemma_scaled_increases(x, y);
    } else if y < x {
        lemma_scaled_increases(y, x);
    }
}

/// A sum is determined by its terms.
pub proof fn lemma_sum_unique(a: Single, b: Single, r: Single)
    requires
        is_sum(a, b, r),
    ensures
        r == sum(a, b),
{
    let s = sum(a, b);
    assert(is_sum(a, b, s));
    if a.finite() && b.finite() && a.value() + b.value() != 0 {
        lemma_nearest_unique(
            r.magnitude(),
            s.magnitude(),
            distance(a.value() + b.value(), 0),
            1,
        );
    }
}

/// A product is determined by its factors.
pub proof fn lemma_product_unique(a: Single, b: Single, r: Single)
    requires
        is_product(a, b, r),
    ensures
        r == product(a, b),
{
    let s = product(a, b);
    assert(is_product(a, b, s));
    if a.finite() && b.finite() {
        lemma_pow2_pos(149);
        lemma_nearest_unique(
            r.magnitude(),
            s.magnitude(),
            scaled(a.magnitude()) * scaled(b.magnitude()),
            pow2(149) as int,
        );
    }
}

/// A quotient is determined by its terms.
pub proof fn lemma_quotient_unique(a: Single, b: Single, r: Single)
    requires
        is_quotient(a, b, r),
    ensures
        r == quotient(a, b),
{
    let s = quotient(a, b);
    assert(is_quotient(a, b, s));
    if a.finite() && b.finite() && b.magnitude() > 0 {
        assert(scaled(0) == 0);
        lemma_scaled_increases(0, b.magnitude());
        lemma_nearest_unique(
            r.magnitude(),
            s.magnitude(),
            scaled(a.magnitude()) * pow2(149),
            scaled(b.magnitude()),
        );
    }
}

/// A half is determined by its whole.
pub proof fn lemma_half_unique(a: Single, r: Single)
    requires
        is_half(a, r),
    ensures
        r == halved(a),
{
    let s = halved(a);
    assert(is_half(a, s));
    if a.finite() {
        lemma_nearest_unique(r.magnitude(), s.magnitude(), scaled(a.magnitude()), 2);
    }
}

/// A term too small to reach half of the last place leaves the other unchanged.
proof fn lemma_absorbed(m: int, small: int, num: int)
    requires
        0x100_0000 <= m < INFINITE,
        exponent_of(m) >= 26,
        0 <= small < pow2((exponent_of(m) - 2) as nat),
        num == scaled(m) + small || num == scaled(m) - small,
    ensures
        nearest(m, num, 1),
{
    let e = exponent_of(m);
    lemma_pow2_adds((e - 2) as nat, 2);
    lemma_pow2_adds((e - 2) as nat, 1);
    vstd::arithmetic::power2::lemma2_to64();
    lemma_pow2_pos((e - 2) as nat);
    lemma_scaled_step(m);
    lemma_scaled_step(m - 1);
    assert(scaled(m) * 1 == scaled(m) && scaled(m + 1) * 1 == scaled(m + 1) && scaled(m - 1) * 1
        == scaled(m - 1)) by (nonlinear_arith);
    assert(exponent_of(m - 1) == e || exponent_of(m - 1) == e - 1);
    if num >= scaled(m) {
        lemma_nearest_between(m, num, 1);
    } else {
        lemma_nearest_between(m - 1, num, 1);
    }
}

impl Single {
    /// The number with the given bit pattern.
    pub fn from_bits(bits: u32) -> (r: Self)
        ensures
            r.bits == bits,
    {
        Single { bits }
    }

    fn magnitude_bits(self) -> (m: u32)
        ensures
            m == self.magnitude(),
    {
        if self.bits >= SIGN {
            self.bits - SIGN
        } else {
            self.bits
        }
    }

    fn with_sign(m: u32, negative: bool) -> (r: Self)
        requires
            m <= INFINITE,
        ensures
            r.magnitude() == m,
            r.negative() == negative,
    {
        if negative {
            Single { bits: m + SIGN }
        } else {
            Single { bits: m }
        }
    }

    /// The significand and the binary exponent of a finite number.
    fn parts(self) -> (r: (u64, u32))
        requires
            self.finite(),
        ensures
            r.0 < 0x100_0000,
            r.1 <= 253,
            r.1 == exponent_of(self.magnitude()),
            r.0 == self.magnitude() - r.1 * 0x80_0000,
            scaled(self.magnitude()) == r.0 * pow2(r.1 as nat),
    {
        let m: u32 = self.magnitude_bits();
        proof {
            lemma_scaled_step(m as int);
        }
        if m < 0x100_0000 {
            (m as u64, 0)
        } else {
            let e: u32 = m / 0x80_0000 - 1;
            ((m - e * 0x80_0000) as u64, e)
        }
    }

    /// `self < other`.
    pub fn lt(self, other: Self) -> (r: bool)
        ensures
            r == below(self, other),
    {
        proof {
            lemma_rank_order(self, other);
        }
        let a: u32 = self.magnitude_bits();
        let b: u32 = other.magnitude_bits();
        if a > INFINITE || b > INFINITE {
            return false;
        }
        if self.bits >= SIGN {
            if other.bits >= SIGN {
                b < a
            } else {
                a > 0 || b > 0
            }
        } else if other.bits >= SIGN {
            false
        } else {
            a < b
        }
    }

    /// `self <= other`.
    pub fn le(self, other: Self) -> (r: bool)
        ensures
            r == at_most(self, other),
    {
        proof {
            lemma_rank_order(other, self);
        }
        let a: u32 = self.magnitude_bits();
        let b: u32 = other.magnitude_bits();
        if a > INFINITE || b > INFINITE {
            return false;
        }
        !other.lt(self)
    }

    /// The number with the other sign.
    pub fn negate(self) -> (r: Self)
        ensures
            r == opposite(self),
    {
        if self.bits >= SIGN {
            Single { bits: self.bits - SIGN }
        } else {
            Single { bits: self.bits + SIGN }
        }
    }

    /// The number without its sign.
    pub fn abs(self) -> (r: Self)
        ensures
            r.bits == self.magnitude(),
    {
        Single { bits: self.magnitude_bits() }
    }

    /// The rounded sum of two finite numbers, the first of the greater magnitude.
    fn plus_smaller(self, other: Self) -> (r: Self)
        requires
            self.finite(),
            other.finite(),
            self.magnitude() >= other.magnitude(),
            self.value() + other.value() != 0,
        ensures
            is_sum(self, other, r),
    {
        let big = self.parts();
        let small = other.parts();
        let negative: bool = self.bits >= SIGN;
        let same: bool = negative == (other.bits >= SIGN);
        let d: u32 = big.1 - small.1;
        let ghost n = distance(self.value() + other.value(), 0);
        let ghost x = scaled(self.magnitude());
        let ghost y = scaled(other.magnitude());
        proof {
            if other.magnitude() < self.magnitude() {
                lemma_scaled_increases(other.magnitude(), self.magnitude());
            }
            lemma_scaled_step(other.magnitude());
            assert(n == if same { x + y } else { x - y });
            assert(x >= y);
        }
        let m: u32;
        if d > 26 {
            proof {
                lemma_pow2_adds(24, small.1 as nat);
                vstd::arithmetic::power2::lemma2_to64();
                assert(y < pow2((24 + small.1) as nat)) by (nonlinear_arith)
                    requires
                        y == small.0 * pow2(small.1 as nat),
                        small.0 < 0x100_0000,
                        pow2((24 + small.1) as nat) == 0x100_0000 * pow2(small.1 as nat),
                        pow2(small.1 as nat) > 0,
                {
                    lemma_pow2_pos(small.1 as nat);
                }
                lemma_pow2_adds((24 + small.1) as nat, (big.1 - 2 - 24 - small.1) as nat);
                lemma_pow2_pos((big.1 - 2 - 24 - small.1) as nat);
                assert(pow2((24 + small.1) as nat) <= pow2((big.1 - 2) as nat)) by (nonlinear_arith)
                    requires
                        pow2((big.1 - 2) as nat) == pow2((24 + small.1) as nat) * pow2(
                            (big.1 - 2 - 24 - small.1) as nat,
                        ),
                        pow2((big.1 - 2 - 24 - small.1) as nat) >= 1,
                ;
                lemma_absorbed(self.magnitude(), y, n);
            }
            m = self.magnitude_bits();
        } else {
            proof {
                vstd::arithmetic::power2::lemma2_to64();
                lemma_pow2_adds(d as nat, (26 - d) as nat);
                lemma_pow2_pos((26 - d) as nat);
                lemma_pow2_pos(d as nat);
                assert(pow2(26) == 0x400_0000);
                assert(pow2(d as nat) <= 0x400_0000) by (nonlinear_arith)
                    requires
                        pow2(d as nat) * pow2((26 - d) as nat) == 0x400_0000,
                        pow2((26 - d) as nat) >= 1,
                ;
                assert(big.0 * pow2(d as nat) <= 0xff_ffff * 0x400_0000) by (nonlinear_arith)
                    requires
                        big.0 <= 0xff_ffff,
                        0 < pow2(d as nat) <= 0x400_0000,
                ;
                vstd::bits::lemma_u64_shl_is_mul(big.0, d as u64);
                lemma_pow2_adds(d as nat, small.1 as nat);
                lemma_pow2_pos(small.1 as nat);
            }
            let shifted: u64 = big.0 << (d as u64);
            proof {
                let u = pow2(small.1 as nat) as int;
                assert(x == shifted * u) by (nonlinear_arith)
                    requires
                        x == big.0 * (pow2(d as nat) * u),
                        shifted == big.0 * pow2(d as nat),
                ;
                lemma_scale_order(shifted as int, small.0 as int, u);
                assert((shifted + small.0) * u == shifted * u + small.0 * u) by (nonlinear_arith);
                assert((shifted - small.0) * u == shifted * u - small.0 * u) by (nonlinear_arith);
            }
            let sig: u64 = if same {
                shifted + small.0
            } else {
                shifted - small.0
            };
            m = round(sig, small.1 as i32);
        }
        Single::with_sign(m, negative)
    }

    /// The rounded sum.
    pub fn plus(self, other: Self) -> (r: Self)
        ensures
            is_sum(self, other, r),
            r == sum(self, other),
    {
        let a: u32 = self.magnitude_bits();
        let b: u32 = other.magnitude_bits();
        let r: Single = if a > INFINITE || b > INFINITE {
            Single { bits: NOT_A_NUMBER }
        } else if a == INFINITE && b == INFINITE {
            if self.bits == other.bits {
                self
            } else {
                Single { bits: NOT_A_NUMBER }
            }
        } else if a == INFINITE {
            self
        } else if b == INFINITE {
            other
        } else {
            proof {
                lemma_rank_order(self, opposite(other));
                lemma_rank_order(self, other);
                lemma_rank_order(other, self);
            }
            if a == b && (a == 0 || (self.bits >= SIGN) != (other.bits >= SIGN)) {
                Single::with_sign(0, self.bits >= SIGN && other.bits >= SIGN)
            } else if a >= b {
                self.plus_smaller(other)
            } else {
                other.plus_smaller(self)
            }
        };
        proof {
            lemma_sum_unique(self, other, r);
        }
        r
    }

    /// The rounded difference.
    pub fn minus(self, other: Self) -> (r: Self)
        ensures
            is_sum(self, opposite(other), r),
            r == difference(self, other),
    {
        self.plus(other.negate())
    }

    /// The rounded product.
    pub fn times(self, other: Self) -> (r: Self)
        ensures
            is_product(self, other, r),
            r == product(self, other),
    {
        let a: u32 = self.magnitude_bits();
        let b: u32 = other.magnitude_bits();
        let negative: bool = (self.bits >= SIGN) != (other.bits >= SIGN);
        let r: Single = if a > INFINITE || b > INFINITE || (a == INFINITE && b == 0) || (b
            == INFINITE && a == 0) {
            Single { bits: NOT_A_NUMBER }
        } else if a == INFINITE || b == INFINITE {
            Single::with_sign(INFINITE, negative)
        } else {
            let x = self.parts();
            let y = other.parts();
            assert(x.0 * y.0 <= 0xff_ffff * 0xff_ffff) by (nonlinear_arith)
                requires
                    0 <= x.0 <= 0xff_ffff,
                    0 <= y.0 <= 0xff_ffff,
            ;
            let sig: u64 = x.0 * y.0;
            let exp: i32 = (x.1 as i32) + (y.1 as i32) - 149;
            let m: u32 = round(sig, exp);
            proof {
                let ghost s = (x.1 + y.1) as nat;
                let n = scaled(self.magnitude()) * scaled(other.magnitude());
                lemma_pow2_adds(x.1 as nat, y.1 as nat);
                assert(n == sig * pow2(s)) by (nonlinear_arith)
                    requires
                        n == (x.0 * pow2(x.1 as nat)) * (y.0 * pow2(y.1 as nat)),
                        sig == x.0 * y.0,
                        pow2(s) == pow2(x.1 as nat) * pow2(y.1 as nat),
                ;
                if exp >= 0 {
                    lemma_pow2_pos(149);
                    lemma_pow2_adds(exp as nat, 149);
                    assert(sig * pow2(exp as nat) * pow2(149) == sig * (pow2(exp as nat) * pow2(
                        149,
                    ))) by (nonlinear_arith);
                    lemma_nearest_expand(m as int, sig * pow2(exp as nat), 1, pow2(149) as int);
                } else {
                    lemma_pow2_pos(s);
                    lemma_pow2_adds((-exp) as nat, s);
                    lemma_nearest_expand(m as int, sig as int, pow2((-exp) as nat) as int, pow2(s) as int);
                }
            }
            Single::with_sign(m, negative)
        };
        proof {
            lemma_product_unique(self, other, r);
        }
        r
    }

    /// The rounded quotient of two finite numbers, the second one not zero.
    fn over_finite(self, other: Self) -> (m: u32)
        requires
            self.finite(),
            other.finite(),
            self.magnitude() > 0,
            other.magnitude() > 0,
        ensures
            nearest(
                m as int,
                scaled(self.magnitude()) * pow2(149),
                scaled(other.magnitude()),
            ),
    {
        let x = self.parts();
        let y = other.parts();
        let ghost num = scaled(self.magnitude()) * pow2(149);
        let ghost den = scaled(other.magnitude());
        proof {
            assert(scaled(0) == 0);
            lemma_scaled_increases(0, other.magnitude());
            lemma_scaled_increases(0, self.magnitude());
            assert(x.0 > 0) by (nonlinear_arith)
                requires
                    x.0 * pow2(x.1 as nat) > 0,
            ;
            assert(y.0 > 0) by (nonlinear_arith)
                requires
                    y.0 * pow2(y.1 as nat) > 0,
            ;
            vstd::arithmetic::power2::lemma2_to64();
        }
        let mut s: u64 = x.0;
        let mut n: u32 = 0;
        while s < 0x80_0000
            invariant
                0 < x.0 < 0x100_0000,
                s == x.0 * pow2(n as nat),
                0 < s < 0x100_0000,
                n <= 23,
                x.0 < 0x80_0000 || n == 0,
                x.0 <= s,
                pow2(n as nat) <= s,
            decreases 0x100_0000 - s,
        {
            proof {
                lemma_pow2_adds(n as nat, 1);
                vstd::arithmetic::power2::lemma2_to64();
                assert(x.0 * (pow2(n as nat) * 2) == (x.0 * pow2(n as nat)) * 2) by (nonlinear_arith);
                if n >= 23 {
                    assert(pow2(23) == 0x80_0000);
                }
            }
            s = s * 2;
            n = n + 1;
        }
        proof {
            if n > 0 {
                assert(x.1 == 0);
            }
        }
        let top: u64 = s * 0x400_0000;
        let q: u64 = top / y.0;
        let r: u64 = top % y.0;
        let exp: i32 = (x.1 as i32) - (n as i32) - (y.1 as i32) + 123;
        let ghost c = pow2((x.1 - n + 123) as nat) as int;
        let ghost w = y.0 * c;
        proof {
            vstd::arithmetic::div_mod::lemma_fundamental_div_mod(top as int, y.0 as int);
            assert(q >= 0x200_0000) by (nonlinear_arith)
                requires
                    top == y.0 * q + r,
                    r < y.0,
                    y.0 < 0x100_0000,
                    top >= 0x80_0000 * 0x400_0000,
            ;
            assert(q <= top) by (nonlinear_arith)
                requires
                    top == y.0 * q + r,
                    y.0 >= 1,
                    r >= 0,
                    q >= 0,
            ;
            lemma_pow2_pos((x.1 - n + 123) as nat);
            assert(w > 0) by (nonlinear_arith)
                requires
                    w == y.0 * c,
                    y.0 > 0,
                    c > 0,
            ;
            lemma_pow2_adds(x.1 as nat, 149);
            lemma_pow2_adds(n as nat, 26);
            lemma_pow2_adds((n + 26) as nat, (x.1 - n + 123) as nat);
            assert(num == top * c) by (nonlinear_arith)
                requires
                    num == (x.0 * pow2(x.1 as nat)) * pow2(149),
                    pow2((x.1 + 149) as nat) == pow2(x.1 as nat) * pow2(149),
                    pow2((x.1 + 149) as nat) == pow2((n + 26) as nat) * c,
                    pow2((n + 26) as nat) == pow2(n as nat) * 0x400_0000,
                    s == x.0 * pow2(n as nat),
                    top == s * 0x400_0000,
            ;
            assert(num == q * w + r * c) by (nonlinear_arith)
                requires
                    num == top * c,
                    top == y.0 * q + r,
                    w == y.0 * c,
            ;
            if exp >= 0 {
                lemma_pow2_adds(y.1 as nat, exp as nat);
                assert(den * pow2(exp as nat) == w) by (nonlinear_arith)
                    requires
                        den == y.0 * pow2(y.1 as nat),
                        c == pow2(y.1 as nat) * pow2(exp as nat),
                        w == y.0 * c,
                ;
            } else {
                lemma_pow2_adds((x.1 - n + 123) as nat, (-exp) as nat);
                assert(den == w * pow2((-exp) as nat)) by (nonlinear_arith)
                    requires
                        den == y.0 * pow2(y.1 as nat),
                        pow2(y.1 as nat) == c * pow2((-exp) as nat),
                        w == y.0 * c,
                ;
            }
        }
        if r == 0 {
            let m: u32 = round(q, exp);
            proof {
                assert(r * c == 0) by (nonlinear_arith)
                    requires
                        r == 0,
                ;
                if exp >= 0 {
                    assert(q * pow2(exp as nat) * den == q * w) by (nonlinear_arith)
                        requires
                            den * pow2(exp as nat) == w,
                    ;
                    lemma_nearest_expand(m as int, q * pow2(exp as nat), 1, den);
                } else {
                    assert(pow2((-exp) as nat) * w == den) by (nonlinear_arith)
                        requires
                            den == w * pow2((-exp) as nat),
                    ;
                    lemma_nearest_expand(m as int, q as int, pow2((-exp) as nat) as int, w);
                }
            }
            m
        } else {
            let sig: u64 = 2 * q + 1;
            let m: u32 = round(sig, exp - 1);
            proof {
                let d = den * 2;
                if exp >= 1 {
                    lemma_pow2_adds((exp - 1) as nat, 1);
                    assert(sig * pow2((exp - 1) as nat) * d == sig * w) by (nonlinear_arith)
                        requires
                            den * pow2(exp as nat) == w,
                            pow2(exp as nat) == pow2((exp - 1) as nat) * 2,
                            d == den * 2,
                    ;
                    lemma_nearest_expand(m as int, sig * pow2((exp - 1) as nat), 1, d);
                } else {
                    lemma_pow2_adds((-exp) as nat, 1);
                    if exp == 0 {
                        assert(den == w);
                    }
                    assert(pow2((1 - exp) as nat) * w == d) by (nonlinear_arith)
                        requires
                            den == w * pow2((-exp) as nat),
                            pow2((1 - exp) as nat) == pow2((-exp) as nat) * 2,
                            d == den * 2,
                    ;
                    lemma_nearest_expand(m as int, sig as int, pow2((1 - exp) as nat) as int, w);
                }
                assert(nearest(m as int, sig * w, d));
                if exp >= 0 {
                    assert(d * pow2(exp as nat) == 2 * w) by (nonlinear_arith)
                        requires
                            den * pow2(exp as nat) == w,
                            d == den * 2,
                    ;
                } else {
                    assert(d == 2 * w * pow2((-exp) as nat)) by (nonlinear_arith)
                        requires
                            den == w * pow2((-exp) as nat),
                            d == den * 2,
                    ;
                }
                assert(0 < r * c < w) by (nonlinear_arith)
                    requires
                        0 < r < y.0,
                        c > 0,
                        w == y.0 * c,
                ;
                assert((2 * q) * w == 2 * (q * w)) by (nonlinear_arith);
                assert((2 * q + 2) * w == 2 * (q * w) + 2 * w) by (nonlinear_arith);
                lemma_sticky(m as int, q as int, exp as int, w, d, num * 2);
                lemma_nearest_reduce(m as int, num, den, 2);
            }
            m
        }
    }

    /// The rounded quotient.
    pub fn over(self, other: Self) -> (r: Self)
        ensures
            is_quotient(self, other, r),
            r == quotient(self, other),
    {
        let a: u32 = self.magnitude_bits();
        let b: u32 = other.magnitude_bits();
        let negative: bool = (self.bits >= SIGN) != (other.bits >= SIGN);
        let r: Single = if a > INFINITE || b > INFINITE || (a == INFINITE && b == INFINITE) || (a
            == 0 && b == 0) {
            Single { bits: NOT_A_NUMBER }
        } else if a == INFINITE || b == 0 {
            Single::with_sign(INFINITE, negative)
        } else if b == INFINITE {
            Single::with_sign(0, negative)
        } else if a == 0 {
            proof {
                assert(scaled(0) == 0);
                lemma_scaled_increases(0, other.magnitude());
                lemma_nearest_exact(0, scaled(other.magnitude()));
                assert(scaled(0) * scaled(other.magnitude()) == 0 * pow2(149));
            }
            Single::with_sign(0, negative)
        } else {
            Single::with_sign(self.over_finite(other), negative)
        };
        proof {
            lemma_quotient_unique(self, other, r);
        }
        r
    }

    /// The rounded half.
    pub fn half(self) -> (r: Self)
        ensures
            is_half(self, r),
            r == halved(self),
    {
        let a: u32 = self.magnitude_bits();
        let negative: bool = self.bits >= SIGN;
        let r: Single = if a > INFINITE {
            Single { bits: NOT_A_NUMBER }
        } else if a == INFINITE {
            self
        } else {
            let x = self.parts();
            let exp: i32 = (x.1 as i32) - 1;
            let m: u32 = round(x.0, exp);
            proof {
                vstd::arithmetic::power2::lemma2_to64();
                if exp >= 0 {
                    lemma_pow2_adds(exp as nat, 1);
                    assert(x.0 * pow2(exp as nat) * 2 == x.0 * (pow2(exp as nat) * 2))
                        by (nonlinear_arith);
                    lemma_nearest_expand(m as int, x.0 * pow2(exp as nat), 1, 2);
                }
            }
            Single::with_sign(m, negative)
        };
        proof {
            lemma_half_unique(self, r);
        }
        r
    }
}

/// A number below what the magnitude bits `k` stand for lies between neighbours.
proof fn lemma_enclosed(k: int, num: int, den: int) -> (m: int)
    requires
        0 < k,
        den > 0,
        0 <= num < scaled(k) * den,
    ensures
        0 <= m < k,
        scaled(m) * den <= num <= scaled(m + 1) * den,
    decreases k,
{
    assert(scaled(0) * den == 0) by (nonlinear_arith)
        requires
            scaled(0) == 0,
    ;
    if scaled(k - 1) * den <= num {
        k - 1
    } else {
        lemma_enclosed(k - 1, num, den)
    }
}

/// Every number is rounded to some magnitude bits.
proof fn lemma_nearest_exists(num: int, den: int) -> (m: int)
    requires
        0 <= num,
        den > 0,
    ensures
        nearest(m, num, den),
{
    if num >= scaled(INFINITE as int) * den {
        lemma_nearest_infinite(num, den);
        INFINITE as int
    } else {
        let m = lemma_enclosed(INFINITE as int, num, den);
        lemma_nearest_between(m, num, den);
        if nearest(m, num, den) {
            m
        } else {
            m + 1
        }
    }
}

proof fn lemma_with_sign(m: int, negative: bool) -> (r: Single)
    requires
        0 <= m <= INFINITE,
    ensures
        r.magnitude() == m,
        r.negative() == negative,
{
    if negative {
        Single { bits: (m + SIGN) as u32 }
    } else {
        Single { bits: m as u32 }
    }
}

/// Any two numbers have a sum.
pub proof fn lemma_sum_exists(a: Single, b: Single)
    ensures
        is_sum(a, b, sum(a, b)),
{
    let r = if a.nan() || b.nan() || (a.infinite() && b.infinite() && a != b) {
        Single { bits: NOT_A_NUMBER }
    } else if a.infinite() {
        a
    } else if b.infinite() {
        b
    } else if a.value() + b.value() == 0 {
        lemma_with_sign(0, a.negative() && b.negative())
    } else {
        let m = lemma_nearest_exists(distance(a.value() + b.value(), 0), 1);
        lemma_with_sign(m, a.value() + b.value() < 0)
    };
    assert(is_sum(a, b, r));
}

/// A sum of finite numbers is never further from the exact sum's side: it is
/// zero, negative or positive as the rounded distance says.
proof fn lemma_sum_value(a: Single, b: Single)
    requires
        a.finite(),
        b.finite(),
    ensures
        !sum(a, b).nan(),
        a.value() + b.value() >= 0 ==> {
            &&& nearest(sum(a, b).magnitude(), a.value() + b.value(), 1)
            &&& sum(a, b).value() == scaled(sum(a, b).magnitude())
        },
        a.value() + b.value() <= 0 ==> {
            &&& nearest(sum(a, b).magnitude(), -(a.value() + b.value()), 1)
            &&& sum(a, b).value() == -scaled(sum(a, b).magnitude())
        },
{
    lemma_sum_exists(a, b);
    assert(scaled(0) == 0);
    assert(scaled(0) * 1 == 0);
    lemma_nearest_exact(0, 1);
}

/// What magnitude bits stand for does not decrease with them.
proof fn lemma_scaled_ordered(a: int, b: int)
    requires
        0 <= a <= b,
    ensures
        0 <= scaled(a) <= scaled(b),
{
    lemma_scaled_step(a);
    if a < b {
        lemma_scaled_increases(a, b);
    }
}

/// Adding a greater number gives no smaller sum.
pub proof fn lemma_sum_ordered(c: Single, a: Single, b: Single)
    requires
        at_most(a, b),
        !sum(c, a).nan(),
        !sum(c, b).nan(),
    ensures
        at_most(sum(c, a), sum(c, b)),
{
    lemma_sum_exists(c, a);
    lemma_sum_exists(c, b);
    lemma_rank_order(a, b);
    lemma_rank_order(b, a);
    let ra = sum(c, a);
    let rb = sum(c, b);
    lemma_scaled_ordered(0, ra.magnitude());
    lemma_scaled_ordered(0, rb.magnitude());
    lemma_scaled_ordered(ra.magnitude(), INFINITE as int);
    lemma_scaled_ordered(rb.magnitude(), INFINITE as int);
    if c.finite() && a.finite() && b.finite() {
        let x = c.value() + a.value();
        let y = c.value() + b.value();
        lemma_sum_value(c, a);
        lemma_sum_value(c, b);
        if x >= 0 {
            lemma_nearest_ordered(ra.magnitude(), x, rb.magnitude(), y, 1);
            lemma_scaled_ordered(ra.magnitude(), rb.magnitude());
        } else if y <= 0 {
            lemma_nearest_ordered(rb.magnitude(), -y, ra.magnitude(), -x, 1);
            lemma_scaled_ordered(rb.magnitude(), ra.magnitude());
        }
    }
}

/// The other sign reverses the order.
pub proof fn lemma_opposite_ordered(a: Single, b: Single)
    requires
        at_most(a, b),
    ensures
        at_most(opposite(b), opposite(a)),
        opposite(a).value() == -a.value(),
        opposite(b).value() == -b.value(),
{
}

/// The sum of a finite number and any number is a number.
pub proof fn lemma_sum_is_number(c: Single, m: Single)
    requires
        c.finite(),
        !m.nan(),
    ensures
        !sum(c, m).nan(),
        !difference(c, m).nan(),
{
    lemma_sum_exists(c, m);
    lemma_sum_exists(c, opposite(m));
}

/// No number lies below the negative or above the positive infinity, and the
/// sum of an infinity and a number stays at that infinity.
pub proof fn lemma_infinite_bounds(a: Single, b: Single)
    requires
        a.infinite(),
        !b.nan(),
    ensures
        a.negative() ==> !below(b, a),
        !a.negative() ==> !below(a, b),
        !sum(a, b).nan() ==> sum(a, b) == a,
        !difference(a, b).nan() ==> difference(a, b) == a,
{
    lemma_scaled_ordered(b.magnitude(), INFINITE as int);
    lemma_scaled_ordered(0, INFINITE as int);
    lemma_scaled_ordered(0, b.magnitude());
    lemma_sum_exists(a, b);
    lemma_sum_exists(a, opposite(b));
}

/// Magnitude bits that stand for an exact sum are the sum.
pub proof fn lemma_sum_exact(a: Single, b: Single, r: Single)
    requires
        a.finite(),
        b.finite(),
        !r.nan(),
        a.value() + b.value() == r.value(),
        a.value() + b.value() != 0,
    ensures
        sum(a, b) == r,
{
    lemma_scaled_ordered(0, r.magnitude());
    lemma_nearest_exact(r.magnitude(), 1);
    assert(scaled(r.magnitude()) * 1 == scaled(r.magnitude()));
    lemma_sum_unique(a, b, r);
}

/// A number that is an exact half is the half.
pub proof fn lemma_half_exact(a: Single, r: Single)
    requires
        a.finite(),
        !r.nan(),
        a.negative() == r.negative(),
        a.value() == 2 * r.value(),
    ensures
        halved(a) == r,
{
    lemma_nearest_exact(r.magnitude(), 2);
    lemma_half_unique(a, r);
}

/// Any two numbers have a product.
pub proof fn lemma_product_exists(a: Single, b: Single)
    ensures
        is_product(a, b, product(a, b)),
{
    lemma_pow2_pos(149);
    lemma_scaled_ordered(0, a.magnitude());
    lemma_scaled_ordered(0, b.magnitude());
    let x = scaled(a.magnitude());
    let y = scaled(b.magnitude());
    assert(x * y >= 0) by (nonlinear_arith)
        requires
            x >= 0,
            y >= 0,
    ;
    let negative = a.negative() != b.negative();
    let r = if a.nan() || b.nan() || (a.infinite() && b.magnitude() == 0) || (b.infinite()
        && a.magnitude() == 0) {
        Single { bits: NOT_A_NUMBER }
    } else if a.infinite() || b.infinite() {
        lemma_with_sign(INFINITE as int, negative)
    } else {
        let m = lemma_nearest_exists(x * y, pow2(149) as int);
        lemma_with_sign(m, negative)
    };
    assert(is_product(a, b, r));
}

/// The rounded difference of finite numbers is no greater than a number that
/// the exact difference is no greater than, and no smaller than one that it is
/// no smaller than.
pub proof fn law_difference_is_by_distance(a: Single, b: Single, m: Single)
    requires
        a.finite(),
        b.finite(),
        m.finite(),
        !m.negative(),
    ensures
        !difference(a, b).nan(),
        distance(a.value(), b.value()) <= m.value() ==> difference(a, b).magnitude()
            <= m.magnitude(),
        distance(a.value(), b.value()) >= m.value() ==> difference(a, b).magnitude()
            >= m.magnitude(),
        difference(a, b).magnitude() > 0 ==> difference(a, b).negative() == (a.value() < b.value()),
{
    let c = opposite(b);
    let r = difference(a, b);
    lemma_sum_exists(a, c);
    assert(c.value() == -b.value());
    assert(scaled(0) == 0);
    if m.magnitude() > 0 {
        lemma_scaled_increases(0, m.magnitude());
    }
    if a.value() + c.value() != 0 {
        let d = distance(a.value() + c.value(), 0);
        assert(d == distance(a.value(), b.value()));
        lemma_nearest_exact(m.magnitude(), 1);
        assert(scaled(m.magnitude()) * 1 == scaled(m.magnitude()));
        if d <= m.value() {
            lemma_nearest_ordered(r.magnitude(), d, m.magnitude(), m.value(), 1);
        }
        if d >= m.value() {
            lemma_nearest_ordered(m.magnitude(), m.value(), r.magnitude(), d, 1);
        }
    }
}

/// A sum is the same whichever term comes first.
pub proof fn law_sum_is_commutative(a: Single, b: Single)
    ensures
        sum(a, b) == sum(b, a),
{
    lemma_sum_exists(a, b);
    assert(is_sum(b, a, sum(a, b)));
    lemma_sum_unique(b, a, sum(a, b));
}

/// Zero times a finite number, added to a finite number, leaves its value.
pub proof fn lemma_nothing_added(a: Single, zero: Single, b: Single)
    requires
        a.finite(),
        b.finite(),
        zero.magnitude() == 0,
    ensures
        sum(a, product(zero, b)).value() == a.value(),
{
    lemma_product_exists(zero, b);
    lemma_pow2_pos(149);
    let p = product(zero, b);
    let den = pow2(149) as int;
    assert(scaled(0) == 0);
    lemma_nearest_exact(0, den);
    assert(scaled(0) * scaled(b.magnitude()) == 0) by (nonlinear_arith)
        requires
            scaled(0) == 0,
    ;
    assert(scaled(0) * den == 0) by (nonlinear_arith)
        requires
            scaled(0) == 0,
    ;
    lemma_nearest_unique(p.magnitude(), 0, 0, den);
    lemma_sum_with_zero(a, p);
}

/// Adding zero to a number leaves its value.
pub proof fn lemma_sum_with_zero(a: Single, zero: Single)
    requires
        a.finite(),
        zero.magnitude() == 0,
    ensures
        sum(a, zero).value() == a.value(),
        sum(zero, a).value() == a.value(),
{
    assert(scaled(0) == 0);
    if a.value() != 0 {
        lemma_sum_exact(a, zero, a);
        law_sum_is_commutative(a, zero);
    } else {
        lemma_sum_exists(a, zero);
        law_sum_is_commutative(a, zero);
    }
}

/// The rounded sum of finite numbers is no greater than a number that the exact
/// sum is no greater than, and no smaller than one that it is no smaller than.
pub proof fn law_sum_is_by_value(a: Single, b: Single, m: Single)
    requires
        a.finite(),
        b.finite(),
        m.finite(),
    ensures
        !sum(a, b).nan(),
        a.value() + b.value() <= m.value() ==> at_most(sum(a, b), m),
        a.value() + b.value() >= m.value() ==> at_most(m, sum(a, b)),
{
    let r = sum(a, b);
    let x = a.value() + b.value();
    lemma_sum_exists(a, b);
    assert(scaled(0) == 0);
    lemma_scaled_ordered(0, r.magnitude());
    lemma_scaled_ordered(0, m.magnitude());
    if x != 0 {
        let d = distance(x, 0);
        lemma_nearest_exact(m.magnitude(), 1);
        lemma_nearest_exact(0, 1);
        assert(scaled(m.magnitude()) * 1 == scaled(m.magnitude()));
        assert(scaled(0) * 1 == 0);
        if d <= scaled(m.magnitude()) {
            lemma_nearest_ordered(r.magnitude(), d, m.magnitude(), scaled(m.magnitude()), 1);
            lemma_scaled_ordered(r.magnitude(), m.magnitude());
        }
        if d >= scaled(m.magnitude()) {
            lemma_nearest_ordered(m.magnitude(), scaled(m.magnitude()), r.magnitude(), d, 1);
            lemma_scaled_ordered(m.magnitude(), r.magnitude());
        }
    }
}

} // verus!
