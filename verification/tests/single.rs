use mmorpg_lab::single::Single;

fn single(x: f32) -> Single {
    Single::from_bits(x.to_bits())
}

// Numbers of every kind: zeros, subnormal numbers, small and large ones,
// infinities, what is not a number, and bit patterns from all over.
fn numbers() -> Vec<f32> {
    let mut out = vec![
        0.0,
        -0.0,
        1.0,
        -1.0,
        0.5,
        1.5,
        2.0,
        3.0,
        250.0,
        499.9,
        500.0,
        1000.0,
        -50.0,
        0.016666668,
        0.1,
        141.42136,
        1.0e-45,
        -1.0e-45,
        1.1754942e-38,
        1.1754944e-38,
        3.4028235e38,
        -3.4028235e38,
        1.7014118e38,
        16777216.0,
        16777217.0,
        8388608.5,
        1.0e30,
        1.0e-30,
        f32::INFINITY,
        f32::NEG_INFINITY,
        f32::NAN,
    ];
    let mut seed: u32 = 0x1234_5678;
    let mut i = 0;
    while i < 300 {
        seed = seed.wrapping_mul(1664525).wrapping_add(1013904223);
        out.push(f32::from_bits(seed));
        out.push(f32::from_bits(0x4000_0000 + (seed >> 6)));
        i += 1;
    }
    out
}

fn same(a: Single, b: f32) -> bool {
    let c = f32::from_bits(a.bits);
    (c.is_nan() && b.is_nan()) || a.bits == b.to_bits()
}

#[test]
fn comparisons_follow_ieee() {
    for a in numbers() {
        for b in numbers() {
            assert_eq!(single(a).lt(single(b)), a < b);
            assert_eq!(single(a).le(single(b)), a <= b);
        }
    }
}

#[test]
fn sums_follow_ieee() {
    for a in numbers() {
        for b in numbers() {
            assert!(same(single(a).plus(single(b)), a + b), "{} + {}", a, b);
            assert!(same(single(a).minus(single(b)), a - b), "{} - {}", a, b);
        }
    }
}

#[test]
fn products_follow_ieee() {
    for a in numbers() {
        for b in numbers() {
            assert!(same(single(a).times(single(b)), a * b), "{} * {}", a, b);
        }
    }
}

#[test]
fn quotients_follow_ieee() {
    for a in numbers() {
        for b in numbers() {
            assert!(same(single(a).over(single(b)), a / b), "{} / {}", a, b);
        }
    }
}

#[test]
fn halves_and_signs_follow_ieee() {
    for a in numbers() {
        assert!(same(single(a).half(), a / 2.0), "{} / 2", a);
        assert_eq!(single(a).negate().bits, (-a).to_bits());
        assert_eq!(single(a).abs().bits, a.abs().to_bits());
    }
}

#[test]
fn exact_results() {
    assert_eq!(single(0.1).plus(single(0.2)), single(0.3));
    assert_eq!(single(1.0).over(single(3.0)).bits, 0x3eaa_aaab);
    assert_eq!(single(3.0e38).plus(single(3.0e38)), single(f32::INFINITY));
    assert_eq!(single(1.0e-45).half(), single(0.0));
    assert_eq!(single(3.0e-45).half(), single(1.0e-45));
    assert_eq!(single(1.0).over(single(0.0)), single(f32::INFINITY));
    assert_eq!(single(0.0).over(single(0.0)).bits, 0x7fc0_0000);
}
