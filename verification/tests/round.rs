use ml_dsa::round::{
    decompose_fe, high_bits_fe, infinity_norm_fe, low_bits_fe, make_hint_fe, mod_plus_minus_fe,
    power2round_fe, use_hint_fe,
};

const Q: u32 = 8380417;

fn centered(x: u32) -> i64 {
    if x <= (Q - 1) / 2 {
        x as i64
    } else {
        x as i64 - Q as i64
    }
}

fn sample_points() -> Vec<u32> {
    let mut pts = vec![
        0,
        1,
        2,
        4095,
        4096,
        4097,
        8191,
        8192,
        95231,
        95232,
        95233,
        190463,
        190464,
        190465,
        261888,
        523775,
        523776,
        523777,
        Q / 2,
        Q / 2 + 1,
        Q - 2,
        Q - 1,
    ];
    // a spread of further points
    let mut x: u32 = 12345;
    for _ in 0..200 {
        x = x.wrapping_mul(1103515245).wrapping_add(12345) % Q;
        pts.push(x);
    }
    pts
}

#[test]
fn power2round_law() {
    // r == r1 * 2^13 + r0 with |r0| <= 2^12, r1 in [0, 1024)
    for &r in sample_points().iter() {
        let (r1, r0) = power2round_fe(r);
        let r0c = centered(r0);
        assert!(-4096 < r0c && r0c <= 4096);
        assert!(r1 < 1024);
        assert_eq!(r1 as i64 * 8192 + r0c, r as i64);
    }
}

#[test]
fn decompose_law() {
    // r == r1 * (2 gamma2) + r0 (mod q) with |r0| <= gamma2 and r1 in [0, m)
    for &tg in [190464u32, 523776u32].iter() {
        let m = (Q - 1) / tg;
        for &r in sample_points().iter() {
            let (r1, r0) = decompose_fe(r, tg);
            let r0c = centered(r0);
            assert!(-(tg as i64) / 2 <= r0c && r0c <= tg as i64 / 2);
            assert!(r1 < m);
            let lhs = (r1 as i64 * tg as i64 + r0c).rem_euclid(Q as i64);
            assert_eq!(lhs, r as i64 % Q as i64);
            assert_eq!(high_bits_fe(r, tg), r1);
            assert_eq!(low_bits_fe(r, tg), r0);
        }
    }
}

#[test]
fn hint_correctness_law() {
    // for |z| (centered) strictly below gamma2,
    // use_hint(make_hint(z, r), r) recovers the high bits of r + z
    for &tg in [190464u32, 523776u32].iter() {
        let g = tg / 2;
        let zs = [
            0u32,
            1,
            2,
            77,
            g - 1,
            Q - 1,
            Q - 2,
            Q - 77,
            Q - (g - 1),
        ];
        for &r in sample_points().iter() {
            for &z in zs.iter() {
                let h = make_hint_fe(z, r, tg);
                let sum = ((r as u64 + z as u64) % Q as u64) as u32;
                assert_eq!(use_hint_fe(h, r, tg), high_bits_fe(sum, tg));
            }
        }
    }
}

#[test]
fn mod_plus_minus_and_norm() {
    for &m in [8192u32, 190464, 523776].iter() {
        for &x in sample_points().iter() {
            let r = mod_plus_minus_fe(x, m);
            let rc = centered(r);
            // centered representative in (-m/2, m/2], congruent to x mod m
            assert!(-(m as i64) / 2 < rc && rc <= m as i64 / 2);
            assert_eq!((x as i64 - rc).rem_euclid(m as i64), 0);
        }
    }
    assert_eq!(infinity_norm_fe(0), 0);
    assert_eq!(infinity_norm_fe(5), 5);
    assert_eq!(infinity_norm_fe(Q - 5), 5);
    assert_eq!(infinity_norm_fe((Q - 1) / 2), (Q - 1) / 2);
}

#[test]
fn sample_in_ball_shape() {
    // exactly tau nonzero coefficients, each +1 or -1
    for &tau in [39usize, 49, 60].iter() {
        let mut seed = Vec::new();
        for i in 0..48u32 {
            seed.push((7 * i + tau as u32) as u8);
        }
        let c = ml_dsa::sample::sample_in_ball(&seed, tau).unwrap();
        let mut nonzero = 0;
        for &x in c.coeffs.iter() {
            if x != 0 {
                nonzero += 1;
                assert!(x == 1 || x == Q - 1);
            }
        }
        assert_eq!(nonzero, tau);
    }
}
