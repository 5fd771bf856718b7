use pure_dsa::params::{DilithiumParams, Mode2, Mode3, Mode5};
use pure_dsa::poly::Poly;
use pure_dsa::polyvec::{
    polyvec_matrix_expand, polyveck_uniform_eta, polyvecl_uniform_eta, polyvecl_uniform_gamma1,
    vec_from_polyveck, vec_from_polyvecl,
};
use pure_dsa::sampling::{
    poly_challenge, poly_uniform, poly_uniform_eta, poly_uniform_eta_nblocks,
    poly_uniform_gamma1, rej_eta, rej_uniform,
};
use pure_dsa::sign::mat_from;

#[test]
fn rej_uniform_takes_the_candidates_below_q() {
    // 0x7fe001 = Q is refused, Q - 1 is taken, the top bit is dropped
    let buf = [0x01, 0xe0, 0x7f, 0x00, 0xe0, 0x7f, 0x00, 0xe0, 0xff, 0x05, 0x00, 0x00, 0x09, 0x09];
    let mut a = [-1i32; 6];
    assert_eq!(rej_uniform(&mut a, 6, &buf, 14), 3);
    assert_eq!(a, [8380416, 8380416, 5, -1, -1, -1]);
    let mut a = [-1i32; 6];
    assert_eq!(rej_uniform(&mut a, 2, &buf, 14), 2);
    assert_eq!(a, [8380416, 8380416, -1, -1, -1, -1]);
    let mut a = [-1i32; 6];
    assert_eq!(rej_uniform(&mut a, 6, &buf, 8), 1);
    assert_eq!(a, [8380416, -1, -1, -1, -1, -1]);
    assert_eq!(rej_uniform(&mut a, 6, &buf, 2), 0);
}

#[test]
fn rej_eta_takes_the_nibbles_that_fit() {
    // nibbles, low first: 0 15 | 14 3 | 9 8
    let buf = [0xf0, 0x3e, 0x89];
    let mut a = [9i32; 6];
    assert_eq!(rej_eta::<Mode2>(&mut a, 6, &buf, 3), 5);
    assert_eq!(a, [2, -2, -1, -2, -1, 9]);
    let mut a = [9i32; 6];
    assert_eq!(rej_eta::<Mode3>(&mut a, 6, &buf, 3), 3);
    assert_eq!(a, [4, 1, -4, 9, 9, 9]);
    let mut a = [9i32; 6];
    assert_eq!(rej_eta::<Mode2>(&mut a, 2, &buf, 3), 2);
    assert_eq!(a, [2, -2, 9, 9, 9, 9]);
    let mut a = [9i32; 6];
    assert_eq!(rej_eta::<Mode5>(&mut a, 6, &buf, 1), 1);
    assert_eq!(a, [2, 9, 9, 9, 9, 9]);
}

#[test]
fn eta_nblocks() {
    assert_eq!(poly_uniform_eta_nblocks(2), 1);
    assert_eq!(poly_uniform_eta_nblocks(4), 2);
}

#[test]
fn poly_uniform_values() {
    let mut a = Poly::default();
    assert!(poly_uniform::<Mode2>(&mut a, &[0u8; 32], 0x0102));
    assert_eq!(a.coeffs[..5], [2693287, 6120305, 4396480, 4620241, 7391330]);
    assert_eq!(a.coeffs[255], 7062435);
    let sum: i64 = a.coeffs.iter().map(|x| *x as i64).sum();
    assert_eq!(sum % 1000003, 921280);
    assert!(a.coeffs.iter().all(|x| 0 <= *x && *x < 8380417));
}

#[test]
fn poly_uniform_eta_values() {
    let mut a = Poly::default();
    assert!(poly_uniform_eta::<Mode2>(&mut a, &[0u8; 64], 3));
    assert_eq!(a.coeffs[..12], [-2, 1, 0, 0, 1, -1, -1, -1, 2, 0, -1, -2]);
    assert_eq!(a.coeffs.iter().map(|x| x * x).sum::<i32>(), 513);
    assert!(poly_uniform_eta::<Mode3>(&mut a, &[0u8; 64], 3));
    assert_eq!(a.coeffs[..12], [-2, 2, -3, -2, 1, 2, -2, -4, 2, -2, 4, 0]);
    assert_eq!(a.coeffs.iter().map(|x| x * x).sum::<i32>(), 1613);
}

#[test]
fn poly_uniform_gamma1_values() {
    let seed: Vec<u8> = (0..64u8).collect();
    let mut a = Poly::default();
    poly_uniform_gamma1::<Mode2>(&mut a, &seed, 5);
    assert_eq!(a.coeffs[..4], [45366, 688, -120875, -6229]);
    assert_eq!(a.coeffs[255], -111314);
    poly_uniform_gamma1::<Mode3>(&mut a, &seed, 5);
    assert_eq!(a.coeffs[..4], [438582, -229204, 164478, -346209]);
    assert_eq!(a.coeffs[255], 299508);
    assert!(a.coeffs.iter().all(|x| -(1 << 19) < *x && *x <= 1 << 19));
}

fn challenge_of<P: DilithiumParams>(seed: &[u8]) -> Vec<(usize, i32)> {
    let mut c = Poly::default();
    c.coeffs[17] = 12345;
    assert!(poly_challenge::<P>(&mut c, seed));
    c.coeffs.iter().enumerate().filter(|(_, v)| **v != 0).map(|(i, v)| (i, *v)).collect()
}

#[test]
fn poly_challenge_values() {
    let seed: Vec<u8> = (0..40u8).collect();
    let c = challenge_of::<Mode2>(&seed);
    assert_eq!(c.len(), 39);
    assert_eq!(c[..6], [(3, -1), (7, 1), (9, 1), (19, -1), (30, -1), (44, 1)]);
    assert_eq!(c.iter().map(|(_, v)| *v).sum::<i32>(), 7);
    assert!(c.iter().all(|(_, v)| *v == 1 || *v == -1));
    let c = challenge_of::<Mode3>(&seed);
    assert_eq!(c.len(), 49);
    assert_eq!(c[..6], [(3, -1), (7, 1), (9, 1), (19, -1), (30, -1), (36, 1)]);
    let c = challenge_of::<Mode5>(&seed[..32]);
    assert_eq!(c.len(), 60);
    assert_eq!(c.iter().map(|(_, v)| *v).sum::<i32>(), 14);
}

#[test]
fn vectors_are_sampled_with_consecutive_nonces() {
    let seed = [5u8; 64];
    let mut s1 = Mode3::polyveclnew();
    assert!(polyvecl_uniform_eta::<Mode3>(&mut s1, &seed, 7));
    let mut s2 = Mode3::polyvecknew();
    assert!(polyveck_uniform_eta::<Mode3>(&mut s2, &seed, 9));
    let l = vec_from_polyvecl(&s1);
    let k = vec_from_polyveck(&s2);
    assert_eq!(l.len(), 5);
    assert_eq!(k.len(), 6);
    for i in 0..5 {
        let mut one = Poly::default();
        assert!(poly_uniform_eta::<Mode3>(&mut one, &seed, 7 + i as u16));
        assert_eq!(l[i].coeffs, one.coeffs);
    }
    assert_eq!(l[2].coeffs, k[0].coeffs);
    assert_eq!(l[4].coeffs, k[2].coeffs);

    let mut y = Mode3::polyveclnew();
    polyvecl_uniform_gamma1::<Mode3>(&mut y, &seed, 3);
    let polys = vec_from_polyvecl(&y);
    for i in 0..5 {
        let mut one = Poly::default();
        poly_uniform_gamma1::<Mode3>(&mut one, &seed, 15 + i as u16);
        assert_eq!(polys[i].coeffs, one.coeffs);
    }
}

#[test]
fn matrix_entries_have_row_and_column_in_the_nonce() {
    let rho = [8u8; 32];
    let mut mat = Mode5::mat();
    assert!(polyvec_matrix_expand::<Mode5>(mat_from(&mut mat), &rho));
    let rows = mat_from(&mut mat);
    assert_eq!(rows.len(), 8);
    for (i, j) in [(0usize, 0usize), (0, 6), (3, 2), (7, 6)] {
        let mut one = Poly::default();
        assert!(poly_uniform::<Mode5>(&mut one, &rho, (256 * i + j) as u16));
        assert_eq!(vec_from_polyvecl(&rows[i])[j].coeffs, one.coeffs);
    }
}
