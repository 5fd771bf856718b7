use pure_dsa::ntt::{invntt_tomont, ntt};
use pure_dsa::params::{Mode2, Mode3, Mode5};
use pure_dsa::poly::{
    poly_add, poly_caddq, poly_chknorm, poly_decompose, poly_invntt_tomont, poly_make_hint,
    poly_ntt, poly_pointwise_montgomery, poly_power2round, poly_reduce, poly_shiftl, poly_sub,
    poly_use_hint, Poly,
};
use pure_dsa::reduce::{caddq, freeze, montgomery_reduce, reduce32};
use pure_dsa::rounding::{decompose, make_hint, power2round, use_hint};

const Q: i32 = 8380417;

fn sample() -> Poly {
    let mut p = Poly::default();
    for i in 0..256i64 {
        p.coeffs[i as usize] = ((i * i * 31 + 7 * i) % 8380417) as i32;
    }
    p
}

#[test]
fn montgomery_reduce_values() {
    assert_eq!(montgomery_reduce::<Mode2>(1i64 << 40), 256);
    assert_eq!(montgomery_reduce::<Mode2>(-12345678901234), 285156);
    assert_eq!(montgomery_reduce::<Mode2>((1i64 << 31) * 8380417 - 1), 114592);
    assert_eq!(montgomery_reduce::<Mode2>(-(1i64 << 31) * 8380417), 0);
    assert_eq!(montgomery_reduce::<Mode2>(0), 0);
}

#[test]
fn montgomery_reduce_divides_by_two_to_the_32() {
    for a in [1i64, -1, 58728449, 1 << 33, -(1 << 45) + 12345, 17996808470921215] {
        let r = montgomery_reduce::<Mode3>(a) as i128;
        assert!(-(Q as i128) < r && r < Q as i128);
        assert_eq!((r * (1i128 << 32) - a as i128).rem_euclid(Q as i128), 0);
    }
}

#[test]
fn reduce32_values() {
    assert_eq!(reduce32::<Mode2>(8380417), 0);
    assert_eq!(reduce32::<Mode2>(-2143289344), -6283009);
    assert_eq!(reduce32::<Mode2>(2147483647 - 4194304), 6283008);
    assert_eq!(reduce32::<Mode2>(123456789), -2249466);
    assert_eq!(reduce32::<Mode2>(0), 0);
}

#[test]
fn caddq_and_freeze_values() {
    assert_eq!(caddq::<Mode2>(-1), 8380416);
    assert_eq!(caddq::<Mode2>(0), 0);
    assert_eq!(caddq::<Mode2>(5), 5);
    assert_eq!(caddq::<Mode2>(-8380417), 0);
    assert_eq!(freeze::<Mode2>(-1), 8380416);
    assert_eq!(freeze::<Mode2>(8380417), 0);
    assert_eq!(freeze::<Mode2>(123456789), 6130951);
    assert_eq!(freeze::<Mode2>(i32::MIN), (i32::MIN as i64).rem_euclid(8380417) as i32);
}

#[test]
fn power2round_values() {
    let mut a0 = 0i32;
    assert_eq!(power2round::<Mode2>(&mut a0, 8380416), 1023);
    assert_eq!(a0, 0);
    assert_eq!(power2round::<Mode2>(&mut a0, 4097), 1);
    assert_eq!(a0, -4095);
    assert_eq!(power2round::<Mode2>(&mut a0, 4096), 0);
    assert_eq!(a0, 4096);
    assert_eq!(power2round::<Mode2>(&mut a0, 0), 0);
    assert_eq!(a0, 0);
}

#[test]
fn power2round_puts_together_again() {
    for a in (0..8380417).step_by(997) {
        let mut a0 = 0i32;
        let a1 = power2round::<Mode5>(&mut a0, a);
        assert_eq!(a1 * 8192 + a0, a);
        assert!(-4096 < a0 && a0 <= 4096);
    }
}

#[test]
fn decompose_values_gamma2_88() {
    let inputs = [0, 1, 95232, 95233, 8380416, 8380417 - 95232, 8380417 - 95233, 4190208, 1234567];
    let expected = [
        (0, 0),
        (0, 1),
        (0, 95232),
        (1, -95231),
        (0, -1),
        (0, -95232),
        (43, 95232),
        (22, 0),
        (6, 91783),
    ];
    for (a, e) in inputs.iter().zip(expected.iter()) {
        let mut a0 = 0i32;
        let a1 = decompose::<Mode2>(&mut a0, *a);
        assert_eq!((a1, a0), *e);
    }
}

#[test]
fn decompose_values_gamma2_32() {
    let inputs =
        [0, 1, 261888, 261889, 8380416, 8380417 - 261888, 8380417 - 261889, 4190208, 1234567];
    let expected = [
        (0, 0),
        (0, 1),
        (0, 261888),
        (1, -261887),
        (0, -1),
        (0, -261888),
        (15, 261888),
        (8, 0),
        (2, 187015),
    ];
    for (a, e) in inputs.iter().zip(expected.iter()) {
        let mut a0 = 0i32;
        let a1 = decompose::<Mode3>(&mut a0, *a);
        assert_eq!((a1, a0), *e);
        let a1 = decompose::<Mode5>(&mut a0, *a);
        assert_eq!((a1, a0), *e);
    }
}

#[test]
fn make_hint_values() {
    assert_eq!(make_hint::<Mode2>(95232, 3), 0);
    assert_eq!(make_hint::<Mode2>(95233, 3), 1);
    assert_eq!(make_hint::<Mode2>(-95232, 0), 0);
    assert_eq!(make_hint::<Mode2>(-95232, 1), 1);
    assert_eq!(make_hint::<Mode2>(-95233, 0), 1);
    assert_eq!(make_hint::<Mode3>(95233, 3), 0);
    assert_eq!(make_hint::<Mode3>(261889, 3), 1);
    assert_eq!(make_hint::<Mode5>(-261888, 7), 1);
}

#[test]
fn use_hint_values() {
    let inputs2 = [0, 1, 95232, 95233, 8380416, 8380417 - 95232, 4190208, 1234567];
    let expected2 = [43, 1, 1, 0, 43, 43, 21, 7];
    for (a, e) in inputs2.iter().zip(expected2.iter()) {
        assert_eq!(use_hint::<Mode2>(*a, 1), *e);
    }
    let inputs3 = [0, 1, 261888, 261889, 8380416, 8380417 - 261888, 4190208, 1234567];
    let expected3 = [15, 1, 1, 0, 15, 15, 7, 3];
    for (a, e) in inputs3.iter().zip(expected3.iter()) {
        assert_eq!(use_hint::<Mode3>(*a, 1), *e);
    }
    assert_eq!(use_hint::<Mode2>(1234567, 0), 6);
    assert_eq!(use_hint::<Mode3>(1234567, 0), 2);
}

#[test]
fn use_hint_recovers_the_high_part() {
    let gamma2 = 95232i64;
    for a in (0..8380417i64).step_by(7919) {
        for delta in [-gamma2, -gamma2 + 1, -1000, -1, 0, 1, 4242, gamma2 - 1, gamma2] {
            let b = (a + delta).rem_euclid(8380417) as i32;
            let mut b0 = 0i32;
            let b1 = decompose::<Mode2>(&mut b0, b);
            let hint = make_hint::<Mode2>(b0 - delta as i32, b1);
            assert_eq!(use_hint::<Mode2>(a as i32, hint), b1);
        }
    }
    let gamma2 = 261888i64;
    for a in (0..8380417i64).step_by(7919) {
        for delta in [-gamma2, -77777, 0, 1, gamma2] {
            let b = (a + delta).rem_euclid(8380417) as i32;
            let mut b0 = 0i32;
            let b1 = decompose::<Mode5>(&mut b0, b);
            let hint = make_hint::<Mode5>(b0 - delta as i32, b1);
            assert_eq!(use_hint::<Mode5>(a as i32, hint), b1);
        }
    }
}

#[test]
fn ntt_values() {
    let mut a = sample().coeffs;
    ntt::<Mode2>(&mut a);
    assert_eq!(a[..6], [-3159037, -3351139, 974465, 1306687, -5998742, -8594294]);
    assert_eq!(a[255], 2098634);
}

#[test]
fn invntt_of_ntt_is_the_polynomial_times_two_to_the_32() {
    let p = sample();
    let mut a = p;
    poly_ntt::<Mode3>(&mut a);
    poly_reduce::<Mode3>(&mut a);
    poly_invntt_tomont::<Mode3>(&mut a);
    assert_eq!(a.coeffs[..4], [0, 136173, 494523, 1075050]);
    for i in 0..256 {
        let want = (p.coeffs[i] as i64 * 4193792).rem_euclid(8380417);
        assert_eq!((a.coeffs[i] as i64).rem_euclid(8380417), want);
    }
    let mut b = p.coeffs;
    ntt::<Mode3>(&mut b);
    for x in b.iter_mut() {
        *x = reduce32::<Mode3>(*x);
    }
    invntt_tomont::<Mode3>(&mut b);
    assert_eq!(b, a.coeffs);
}

#[test]
fn pointwise_product_is_the_product_in_the_ring() {
    // (1 + X) * (2 + 3 X^255) = 2 + 2 X + 3 X^255 + 3 X^256 = -1 + 2 X + 3 X^255
    let mut a = Poly::default();
    a.coeffs[0] = 1;
    a.coeffs[1] = 1;
    let mut b = Poly::default();
    b.coeffs[0] = 2;
    b.coeffs[255] = 3;
    poly_ntt::<Mode2>(&mut a);
    poly_ntt::<Mode2>(&mut b);
    let mut c = Poly::default();
    poly_pointwise_montgomery::<Mode2>(&mut c, &a, &b);
    poly_invntt_tomont::<Mode2>(&mut c);
    poly_reduce::<Mode2>(&mut c);
    poly_caddq::<Mode2>(&mut c);
    let mut want = [0i32; 256];
    want[0] = Q - 1;
    want[1] = 2;
    want[255] = 3;
    assert_eq!(c.coeffs, want);
}

#[test]
fn poly_add_sub_shiftl() {
    let a = sample();
    let mut b = Poly::default();
    for i in 0..256 {
        b.coeffs[i] = i as i32 - 100;
    }
    let mut c = Poly::default();
    poly_add(&mut c, &a, &b);
    for i in 0..256 {
        assert_eq!(c.coeffs[i], a.coeffs[i] + i as i32 - 100);
    }
    let mut d = Poly::default();
    poly_sub(&mut d, &c, &a);
    assert_eq!(d.coeffs, b.coeffs);
    poly_shiftl(&mut d);
    for i in 0..256 {
        assert_eq!(d.coeffs[i], (i as i32 - 100) * 8192);
    }
}

#[test]
fn poly_reduce_and_caddq() {
    let mut a = Poly::default();
    a.coeffs[0] = 8380417;
    a.coeffs[1] = -2143289344;
    a.coeffs[2] = 123456789;
    a.coeffs[3] = -5;
    poly_reduce::<Mode2>(&mut a);
    assert_eq!(a.coeffs[..4], [0, -6283009, -2249466, -5]);
    poly_caddq::<Mode2>(&mut a);
    assert_eq!(a.coeffs[..4], [0, 2097408, 6130951, 8380412]);
}

#[test]
fn poly_chknorm_values() {
    let mut a = Poly::default();
    assert_eq!(poly_chknorm::<Mode2>(&a, 1), 0);
    assert_eq!(poly_chknorm::<Mode2>(&a, 0), 1);
    a.coeffs[200] = -77;
    assert_eq!(poly_chknorm::<Mode2>(&a, 78), 0);
    assert_eq!(poly_chknorm::<Mode2>(&a, 77), 1);
    a.coeffs[3] = 99;
    assert_eq!(poly_chknorm::<Mode2>(&a, 99), 1);
    assert_eq!(poly_chknorm::<Mode2>(&a, 100), 0);
    assert_eq!(poly_chknorm::<Mode2>(&a, 1047552), 0);
    assert_eq!(poly_chknorm::<Mode2>(&a, 1047553), 0);
}

#[test]
fn poly_chknorm_with_a_large_bound() {
    let mut a = Poly::default();
    assert_eq!(poly_chknorm::<Mode2>(&a, 2000000), 0);
    assert_eq!(poly_chknorm::<Mode2>(&a, i32::MAX), 0);
    a.coeffs[255] = -2000000;
    assert_eq!(poly_chknorm::<Mode2>(&a, 2000000), 1);
    assert_eq!(poly_chknorm::<Mode2>(&a, 2000001), 0);
    a.coeffs[0] = (1 << 30) - 1;
    assert_eq!(poly_chknorm::<Mode2>(&a, (1 << 30) - 1), 1);
    assert_eq!(poly_chknorm::<Mode2>(&a, 1 << 30), 0);
}

#[test]
fn poly_chknorm_at_the_bound() {
    let mut a = Poly::default();
    a.coeffs[9] = -5;
    assert_eq!(poly_chknorm::<Mode3>(&a, 5), 1);
    assert_eq!(poly_chknorm::<Mode3>(&a, 6), 0);
    assert_eq!(poly_chknorm::<Mode3>(&a, -1), 1);
}

#[test]
fn poly_rounding() {
    let mut a = Poly::default();
    for i in 0..256i64 {
        a.coeffs[i as usize] = ((i * 32749) % 8380417) as i32;
    }
    let mut a1 = Poly::default();
    let mut a0 = Poly::default();
    poly_power2round::<Mode2>(&mut a1, &mut a0, &a);
    for i in 0..256 {
        assert_eq!(a1.coeffs[i] * 8192 + a0.coeffs[i], a.coeffs[i]);
    }
    let mut h1 = Poly::default();
    let mut h0 = Poly::default();
    poly_decompose::<Mode2>(&mut h1, &mut h0, &a);
    for i in 0..256 {
        let mut low = 0i32;
        assert_eq!(h1.coeffs[i], decompose::<Mode2>(&mut low, a.coeffs[i]));
        assert_eq!(h0.coeffs[i], low);
    }
    let mut hint = Poly::default();
    let mut shifted = Poly::default();
    for i in 0..256 {
        shifted.coeffs[i] = h0.coeffs[i] + if i % 3 == 0 { 95232 } else { 0 };
    }
    let n = poly_make_hint::<Mode2>(&mut hint, &shifted, &h1);
    let mut count = 0;
    for i in 0..256 {
        assert_eq!(hint.coeffs[i] as u32, make_hint::<Mode2>(shifted.coeffs[i], h1.coeffs[i]));
        count += hint.coeffs[i];
    }
    assert_eq!(n, count);
    assert!(n > 0);
    let mut used = Poly::default();
    poly_use_hint::<Mode2>(&mut used, &a, &hint);
    for i in 0..256 {
        assert_eq!(used.coeffs[i], use_hint::<Mode2>(a.coeffs[i], hint.coeffs[i] as u32));
    }
}

#[test]
fn ntt_of_invntt_is_the_polynomial_times_two_to_the_32() {
    let mut p = Poly::default();
    for i in 0..256i64 {
        p.coeffs[i as usize] = ((i * 65537 + 11) % 16777215 - 8388607) as i32;
    }
    let mut a = p;
    poly_invntt_tomont::<Mode5>(&mut a);
    poly_ntt::<Mode5>(&mut a);
    for i in 0..256 {
        let want = (p.coeffs[i] as i64 * 4193792).rem_euclid(8380417);
        assert_eq!((a.coeffs[i] as i64).rem_euclid(8380417), want);
    }
}
