use warpd_rs::fixed::UNIT;
use warpd_rs::number::{
    from_units, halved, is_less, negated, product, quarters, ratio, sum, to_units, whole, Double,
};

/// A finite double as the library holds it.
fn number(v: f64) -> Double {
    let bits = v.to_bits();
    let (exponent, fraction) = ((bits >> 52) as u32 & 0x7ff, (bits & ((1 << 52) - 1)) as i128);
    let (m, shift) =
        if exponent == 0 { (fraction, 0) } else { (fraction + (1 << 52), exponent - 1) };
    Double { bits: if v < 0.0 { -m } else { m }, shift }
}

/// The double that the library holds.
fn value(d: Double) -> f64 {
    let e = d.shift as i32 - 1074;
    let power = if e < -1022 { 1 << d.shift } else { ((e + 1023) as u64) << 52 };
    d.bits as f64 * f64::from_bits(power)
}

fn samples() -> Vec<f64> {
    let mut v = vec![
        0.0,
        1.0,
        -1.0,
        0.1,
        -0.3,
        1920.0,
        1e-9,
        1e300,
        -1e300,
        f64::MIN_POSITIVE,
        f64::from_bits(1),
        f64::from_bits(3),
        -f64::from_bits(7),
        4503599627370496.0,
        9007199254740992.0,
        9007199254740994.0,
        -9007199254740993.0,
        1.0 - f64::EPSILON / 2.0,
        1.0 + f64::EPSILON,
        f64::MAX / 4.0,
    ];
    let mut seed = 3u64;
    for _ in 0..120 {
        seed = seed.wrapping_mul(6364136223846793005).wrapping_add(1442695040888963407);
        let exponent = 1023 - 70 + (seed >> 40) % 140;
        let sign = seed & (1 << 63);
        v.push(f64::from_bits(sign | exponent << 52 | (seed >> 11) & ((1 << 52) - 1)));
    }
    v
}

#[test]
fn numbers_are_doubles() {
    for v in samples() {
        assert_eq!(value(number(v)), v);
        assert_eq!(value(negated(number(v))), -v);
    }
    assert_eq!(value(whole(-1080)), -1080.0);
}

#[test]
fn sums_are_those_of_doubles() {
    for a in samples() {
        for b in samples() {
            let r = sum(number(a), number(b));
            assert_eq!(value(r), a + b, "{a:?} {b:?}");
            assert_eq!(is_less(number(a), number(b)), a < b);
        }
    }
}

#[test]
fn parts_are_those_of_doubles() {
    for v in samples() {
        assert_eq!(value(halved(number(v))), v / 2.0);
        assert_eq!(value(quarters(number(v), 1)), v * 0.25);
        assert_eq!(value(quarters(number(v), 3)), v * 0.75, "{v:?}");
    }
}

#[test]
fn products_are_those_of_doubles() {
    for a in samples() {
        for b in samples() {
            let (a, b) = (a.abs(), b.abs());
            let r = product(number(a), number(b));
            if (a * b).is_finite() {
                assert_eq!(value(r), a * b, "{a:?} {b:?}");
            } else {
                assert!(r.shift > 2045);
            }
        }
    }
}

#[test]
fn ratios_are_those_of_doubles() {
    for n in [0, 1, 7, 220, 50_000_000, u32::MAX] {
        for d in [1, 2, 3, 60, 1_000_000_000] {
            assert_eq!(value(ratio(n, d)), n as f64 / d as f64);
        }
    }
}

#[test]
fn coordinates_are_numbers() {
    for v in [0.0, 1.5, -1.5, 1919.9999999999998, -2147483648.0, 4294967296.0, 0.25] {
        let c = (v * UNIT as f64) as i128;
        assert_eq!(value(from_units(c)), v);
        assert_eq!(to_units(number(v)), c);
    }
    assert_eq!(to_units(number(1.0 - f64::EPSILON / 2.0)), UNIT - 1);
    assert_eq!(to_units(number(-f64::from_bits(1))), 0);
    assert_eq!(to_units(number(-0.1)), -((0.1f64 * UNIT as f64) as i128));
    assert_eq!(value(from_units((1 << 60) + 1)), 256.0);
}
