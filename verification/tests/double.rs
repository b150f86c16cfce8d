use warpd_rs::double::{
    to_bits, to_double, to_double_quotient, to_nearest_even, to_power, to_quotient,
};

#[test]
fn halves_round_to_even() {
    let expected = [(-5, -2), (-3, -2), (-1, 0), (0, 0), (1, 0), (3, 2), (5, 2), (7, 4)];
    for (n, r) in expected {
        assert_eq!(to_nearest_even(n, 2), r);
    }
    assert_eq!(to_nearest_even(8, 3), 3);
    assert_eq!(to_nearest_even(-7, 3), -2);
}

#[test]
fn integers_round_as_doubles_do() {
    let mut n: i128 = 1;
    for step in 0..200 {
        for v in [n, n + 1, n - 1, n + (n >> 53), n + (n >> 54), n + 3 * (n >> 54)] {
            if v < 1 << 120 {
                assert_eq!(to_double(v), v as f64 as i128);
                assert_eq!(to_double(-v), -(v as f64 as i128));
            }
        }
        n = n * 7 / 4 + step;
        if n > 1 << 120 {
            n = step;
        }
    }
}

#[test]
fn quotients_are_those_of_doubles() {
    for (n, d) in [(1, 1), (1, 3), (2, 3), (1188, 1080), (1, i32::MAX), (i32::MAX, 1), (5, 7)] {
        let q = to_quotient(n, d);
        let expected = n as f64 / d as f64;
        assert_eq!(q.mantissa as f64 / 2f64.powi(q.places as i32), expected);
        for v in [0, 1, -1, 55, -54, 12345, i32::MAX, i32::MIN] {
            let r = to_double_quotient(v, q.mantissa);
            let unit = 2f64.powi(106 - q.places as i32);
            assert_eq!(r as f64 / unit, v as f64 / expected);
            assert_eq!(r, to_double(r));
        }
    }
}

#[test]
fn bits_give_the_double_back() {
    assert_eq!(to_power(0), 1);
    assert_eq!(to_power(106), 1 << 106);
    assert_eq!(to_bits(0, 7), (0, 0));
    assert_eq!(to_bits((1 << 54) + 2, 1), (1 << 52, 2));
    assert_eq!(to_bits((1 << 54) + 3, 1), ((1 << 52) + 1, 2));
    let (m, k) = to_bits(1 << 100, 10);
    assert_eq!(m as f64 * 2f64.powi(k as i32), 2f64.powi(100) / 10.0);
}
