use pure_dsa::bitpack::{pack_fields, unpack_field};
use pure_dsa::fips202::shake256;
use pure_dsa::packing::{
    hint_error, pack_pk, pack_sig, pack_sk, unpack_pk, unpack_sig, unpack_sk, write_bytes,
};
use pure_dsa::params::{DilithiumParams, Mode2, Mode3, Mode5};
use pure_dsa::poly::Poly;
use pure_dsa::polypack::{
    polyeta_pack, polyeta_unpack, polyt0_pack, polyt0_unpack, polyt1_pack, polyt1_unpack,
    polyw1_pack, polyz_pack, polyz_unpack,
};
use pure_dsa::polyvec::{
    polyveck_chknorm, polyveck_pack_w1, polyvecl_chknorm, vec_from_polyveck,
    vec_from_polyveck_mut, vec_from_polyvecl, vec_from_polyvecl_mut, Polyveck, Polyvecl,
};
use pure_dsa::DilithiumError;

fn hex(bytes: &[u8]) -> String {
    let mut s = String::new();
    for b in bytes {
        s.push_str(&format!("{:02x}", b));
    }
    s
}

fn digest8(bytes: &[u8]) -> String {
    let mut out = [0u8; 8];
    shake256(&mut out, bytes, 8, bytes.len());
    hex(&out)
}

fn poly_from(f: impl Fn(i64) -> i64) -> Poly {
    let mut p = Poly::default();
    for i in 0..256 {
        p.coeffs[i] = f(i as i64) as i32;
    }
    p
}

#[test]
fn pack_fields_of_three_bits() {
    let mut vals = [0u32; 256];
    for i in 0..256 {
        vals[i] = (i % 8) as u32;
    }
    let mut out = [0xffu8; 100];
    pack_fields(&mut out, &vals, 3);
    assert_eq!(out[..3], [0x88, 0xc6, 0xfa]);
    assert_eq!(out[96..], [0xff; 4]);
    for i in 0..256 {
        assert_eq!(unpack_field(&out, 3, i), (i % 8) as u32);
    }
}

#[test]
fn unpack_field_reads_across_bytes() {
    let mut bytes = [0u8; 640];
    bytes[0] = 0xff;
    bytes[1] = 0xff;
    bytes[2] = 0x0f;
    bytes[3] = 0x10;
    assert_eq!(unpack_field(&bytes, 20, 0), 0xfffff);
    assert_eq!(unpack_field(&bytes, 20, 1), 0x00100);
    assert_eq!(unpack_field(&bytes, 13, 0), 0x1fff);
    assert_eq!(unpack_field(&bytes, 13, 1), 0x7f);
    assert_eq!(unpack_field(&bytes, 10, 2), 0x100);
    assert_eq!(unpack_field(&bytes, 1, 28), 1);
    assert_eq!(unpack_field(&bytes, 1, 27), 0);
}

#[test]
fn polyt1_pack_bytes_and_round_trip() {
    let p = poly_from(|i| (i * 37) % 1024);
    let mut out = [0u8; 320];
    polyt1_pack(&mut out, &p);
    assert_eq!(hex(&out[..10]), "0094a0c41b94e4e2cd40");
    assert_eq!(digest8(&out), "39cefcfd6b40ac71");
    let mut back = Poly::default();
    polyt1_unpack(&mut back, &out);
    assert_eq!(back.coeffs, p.coeffs);
}

#[test]
fn polyt0_pack_bytes_and_round_trip() {
    let p = poly_from(|i| ((i * 97) % 8192) - 4095);
    let mut out = [0u8; 416];
    polyt0_pack(&mut out, &p);
    assert_eq!(hex(&out[..13]), "ffdff3f77c6ebfe7357c6ec7ea");
    assert_eq!(digest8(&out), "6a1f235c8fc75211");
    let mut back = Poly::default();
    polyt0_unpack(&mut back, &out);
    assert_eq!(back.coeffs, p.coeffs);
}

#[test]
fn polyeta_pack_bytes_and_round_trip() {
    let p = poly_from(|i| (i % 5) - 2);
    let mut out = [0u8; 96];
    polyeta_pack::<Mode2>(&mut out, &p);
    assert_eq!(hex(&out[..6]), "9c024e01a780");
    let mut back = Poly::default();
    polyeta_unpack::<Mode2>(&mut back, &out);
    assert_eq!(back.coeffs, p.coeffs);
    polyeta_pack::<Mode5>(&mut out, &p);
    assert_eq!(hex(&out[..6]), "9c024e01a780");

    let p = poly_from(|i| (i % 9) - 4);
    let mut out = [0u8; 128];
    polyeta_pack::<Mode3>(&mut out, &p);
    assert_eq!(hex(&out[..6]), "785634128067");
    let mut back = Poly::default();
    polyeta_unpack::<Mode3>(&mut back, &out);
    assert_eq!(back.coeffs, p.coeffs);
}

#[test]
fn polyz_pack_bytes_and_round_trip() {
    let p = poly_from(|i| ((i * 1237) % (1 << 18)) - (1 << 17) + 1);
    let mut out = [0u8; 576];
    polyz_pack::<Mode2>(&mut out, &p);
    assert_eq!(hex(&out[..9]), "ffffabec5f653f60fc");
    assert_eq!(digest8(&out), "b6bb5c9420b65de9");
    let mut back = Poly::default();
    polyz_unpack::<Mode2>(&mut back, &out);
    assert_eq!(back.coeffs, p.coeffs);

    let p = poly_from(|i| ((i * 12347) % (1 << 20)) - (1 << 19) + 1);
    let mut out = [0u8; 640];
    polyz_pack::<Mode3>(&mut out, &p);
    assert_eq!(hex(&out[..10]), "ffff4ffcfc899feff4f6");
    assert_eq!(digest8(&out), "bec9b201629a8508");
    let mut back = Poly::default();
    polyz_unpack::<Mode5>(&mut back, &out);
    assert_eq!(back.coeffs, p.coeffs);
}

#[test]
fn polyz_unpack_masks_both_coefficients() {
    let bytes = [0xffu8; 640];
    let mut p = Poly::default();
    polyz_unpack::<Mode3>(&mut p, &bytes);
    for i in 0..256 {
        assert_eq!(p.coeffs[i], (1 << 19) - 0xfffff);
    }
    polyz_unpack::<Mode2>(&mut p, &bytes);
    for i in 0..256 {
        assert_eq!(p.coeffs[i], (1 << 17) - 0x3ffff);
    }
}

#[test]
fn polyw1_pack_bytes() {
    let p = poly_from(|i| i % 44);
    let mut out = [0u8; 200];
    polyw1_pack::<Mode2>(&mut out, &p);
    assert_eq!(hex(&out[..6]), "40200c44611c");
    assert_eq!(out[192..], [0u8; 8]);
    let p = poly_from(|i| i % 16);
    let mut out = [0u8; 128];
    polyw1_pack::<Mode3>(&mut out, &p);
    assert_eq!(hex(&out[..6]), "1032547698ba");
    for i in 0..256 {
        assert_eq!(unpack_field(&out, 4, i), (i % 16) as u32);
    }
}

#[test]
fn polyveck_pack_w1_puts_the_polynomials_in_a_row() {
    let mut w1 = Mode2::polyvecknew();
    {
        let polys = vec_from_polyveck_mut(&mut w1);
        for k in 0..4 {
            for i in 0..256 {
                polys[k].coeffs[i] = ((i + k) % 44) as i32;
            }
        }
    }
    let mut out = [0u8; 768];
    polyveck_pack_w1::<Mode2>(&mut out, &w1);
    let polys = vec_from_polyveck(&w1);
    for k in 0..4 {
        let mut one = [0u8; 192];
        polyw1_pack::<Mode2>(&mut one, &polys[k]);
        assert_eq!(out[192 * k..192 * (k + 1)], one[..]);
    }
}

#[test]
fn write_bytes_copies_into_place() {
    let mut dst = [1u8; 8];
    write_bytes(&mut dst, 2, &[9, 8, 7, 6], 3);
    assert_eq!(dst, [1, 1, 9, 8, 7, 1, 1, 1]);
}

fn k_vector<P: DilithiumParams>(f: impl Fn(i64, i64) -> i64) -> Polyveck {
    let mut v = P::polyvecknew();
    let polys = vec_from_polyveck_mut(&mut v);
    for k in 0..polys.len() {
        for i in 0..256 {
            polys[k].coeffs[i] = f(k as i64, i as i64) as i32;
        }
    }
    v
}

fn l_vector<P: DilithiumParams>(f: impl Fn(i64, i64) -> i64) -> Polyvecl {
    let mut v = P::polyveclnew();
    let polys = vec_from_polyvecl_mut(&mut v);
    for k in 0..polys.len() {
        for i in 0..256 {
            polys[k].coeffs[i] = f(k as i64, i as i64) as i32;
        }
    }
    v
}

fn same_k(a: &Polyveck, b: &Polyveck) -> bool {
    let x = vec_from_polyveck(a);
    let y = vec_from_polyveck(b);
    x.len() == y.len() && (0..x.len()).all(|k| x[k].coeffs == y[k].coeffs)
}

fn same_l(a: &Polyvecl, b: &Polyvecl) -> bool {
    let x = vec_from_polyvecl(a);
    let y = vec_from_polyvecl(b);
    x.len() == y.len() && (0..x.len()).all(|k| x[k].coeffs == y[k].coeffs)
}

#[test]
fn vector_norm_checks() {
    let zero_l = Mode3::polyveclnew();
    let zero_k = Mode3::polyvecknew();
    assert_eq!(polyvecl_chknorm::<Mode3>(&zero_l, 2000000), 0);
    assert_eq!(polyveck_chknorm::<Mode3>(&zero_k, 2000000), 0);
    assert_eq!(polyvecl_chknorm::<Mode3>(&zero_l, 0), 1);
    let v = l_vector::<Mode3>(|k, i| if k == 4 && i == 255 { -2000000 } else { k });
    assert_eq!(polyvecl_chknorm::<Mode3>(&v, 2000000), 1);
    assert_eq!(polyvecl_chknorm::<Mode3>(&v, 2000001), 0);
    let w = k_vector::<Mode3>(|k, i| if k == 0 && i == 0 { 77 } else { -3 });
    assert_eq!(polyveck_chknorm::<Mode3>(&w, 77), 1);
    assert_eq!(polyveck_chknorm::<Mode3>(&w, 78), 0);
    assert_eq!(polyveck_chknorm::<Mode3>(&w, 1047553), 0);
}

#[test]
fn public_key_round_trip() {
    let t1 = k_vector::<Mode3>(|k, i| (k * 300 + i * 7) % 1024);
    let rho: Vec<u8> = (0..32u8).collect();
    let mut pk = [0u8; 1952];
    pack_pk::<Mode3>(&mut pk, &rho, &t1);
    assert_eq!(pk[..32], rho[..]);
    let mut first = [0u8; 320];
    polyt1_pack(&mut first, &vec_from_polyveck(&t1)[0]);
    assert_eq!(pk[32..352], first[..]);
    let mut rho2 = [0u8; 32];
    let mut back = Mode3::polyvecknew();
    assert_eq!(unpack_pk::<Mode3>(&mut rho2, &mut back, &pk), Ok(()));
    assert_eq!(rho2[..], rho[..]);
    assert!(same_k(&back, &t1));
}

#[test]
fn pack_pk_leaves_the_bytes_behind_the_key() {
    let t1 = k_vector::<Mode2>(|k, i| (k * 11 + i * 3) % 1024);
    let rho = [9u8; 32];
    let mut pk = [0u8; 1312];
    pack_pk::<Mode2>(&mut pk, &rho, &t1);
    let mut long = [0xabu8; 1312 + 5];
    pack_pk::<Mode2>(&mut long, &rho, &t1);
    assert_eq!(long[..1312], pk[..]);
    assert_eq!(long[1312..], [0xabu8; 5]);
}

#[test]
fn pack_sig_leaves_the_bytes_behind_the_signature() {
    let z = l_vector::<Mode2>(|k, i| ((k * 777 + i * 41) % (1 << 18)) - (1 << 17) + 1);
    let h = k_vector::<Mode2>(|k, i| if i == 7 * k + 1 { 1 } else { 0 });
    let c = [0x31u8; 32];
    let mut sig = [0u8; 2420];
    pack_sig::<Mode2>(&mut sig, Some(&c), &z, &h);
    let mut long = [0xcdu8; 2420 + 3];
    pack_sig::<Mode2>(&mut long, Some(&c), &z, &h);
    assert_eq!(long[..2420], sig[..]);
    assert_eq!(long[2420..], [0xcdu8; 3]);
}

#[test]
fn public_key_of_wrong_length_is_refused() {
    let mut rho = [7u8; 32];
    let mut t1 = Mode2::polyvecknew();
    let pk = [1u8; 1313];
    assert_eq!(unpack_pk::<Mode2>(&mut rho, &mut t1, &pk), Err(DilithiumError::BadKeyLength));
    assert_eq!(
        unpack_pk::<Mode2>(&mut rho, &mut t1, &pk[..1311]),
        Err(DilithiumError::BadKeyLength)
    );
    assert_eq!(rho, [7u8; 32]);
    assert!(same_k(&t1, &Mode2::polyvecknew()));
    assert_eq!(unpack_pk::<Mode2>(&mut rho, &mut t1, &pk[..1312]), Ok(()));
}

fn secret_key_round_trip_at<P: DilithiumParams>(eta: i64, len: usize, packed: usize) {
    let s1 = l_vector::<P>(|k, i| ((k * 3 + i) % (2 * eta + 1)) - eta);
    let s2 = k_vector::<P>(|k, i| ((k * 5 + i * 2) % (2 * eta + 1)) - eta);
    let t0 = k_vector::<P>(|k, i| ((k * 1000 + i * 31) % 8192) - 4095);
    let rho = [1u8; 32];
    let key = [2u8; 32];
    let tr = [3u8; 32];
    let mut sk = vec![0xeeu8; len];
    pack_sk::<P>(&mut sk, &rho, &tr, &key, &t0, &s1, &s2);
    assert_eq!(sk[..32], rho[..]);
    assert_eq!(sk[32..64], key[..]);
    assert_eq!(sk[64..96], tr[..]);
    assert!(sk[packed..].iter().all(|b| *b == 0xee));
    assert!(sk[packed - 416..packed].iter().any(|b| *b != 0xee));
    let mut short = vec![0xeeu8; packed];
    pack_sk::<P>(&mut short, &rho, &tr, &key, &t0, &s1, &s2);
    assert_eq!(short[..], sk[..packed]);
    let mut rho2 = [0u8; 32];
    let mut key2 = [0u8; 32];
    let mut tr2 = [0u8; 32];
    let mut t0b = P::polyvecknew();
    let mut s1b = P::polyveclnew();
    let mut s2b = P::polyvecknew();
    assert_eq!(
        unpack_sk::<P>(&mut rho2, &mut tr2, &mut key2, &mut t0b, &mut s1b, &mut s2b, &sk),
        Ok(())
    );
    assert_eq!((rho2, key2, tr2), (rho, key, tr));
    assert!(same_k(&t0b, &t0));
    assert!(same_l(&s1b, &s1));
    assert!(same_k(&s2b, &s2));
    assert_eq!(
        unpack_sk::<P>(&mut rho2, &mut tr2, &mut key2, &mut t0b, &mut s1b, &mut s2b, &sk[1..]),
        Err(DilithiumError::BadKeyLength)
    );
}

#[test]
fn secret_key_round_trip() {
    secret_key_round_trip_at::<Mode2>(2, 2544, 2528);
    secret_key_round_trip_at::<Mode3>(4, 4032, 4000);
    secret_key_round_trip_at::<Mode5>(2, 4896, 4864);
}

fn signature_round_trip_at<P: DilithiumParams>(gamma1: i64, len: usize, omega: usize) {
    let z = l_vector::<P>(|k, i| ((k * 77777 + i * 4099) % (2 * gamma1)) - gamma1 + 1);
    let h = k_vector::<P>(|k, i| if (i + 3 * k) % 29 == 0 && i < 200 { 1 } else { 0 });
    let c: Vec<u8> = (100..132u8).collect();
    let mut sig = vec![0x55u8; len];
    pack_sig::<P>(&mut sig, Some(&c), &z, &h);
    assert_eq!(sig[..32], c[..]);
    let k = vec_from_polyveck(&h).len();
    let hints: usize =
        vec_from_polyveck(&h).iter().map(|p| p.coeffs.iter().filter(|x| **x != 0).count()).sum();
    assert!(hints <= omega);
    assert_eq!(sig[len - 1] as usize, hints);
    assert!(sig[len - k - omega + hints..len - k].iter().all(|b| *b == 0));
    let mut c2 = [0u8; 32];
    let mut zb = P::polyveclnew();
    let mut hb = P::polyvecknew();
    assert_eq!(unpack_sig::<P>(&mut c2, &mut zb, &mut hb, &sig), Ok(()));
    assert_eq!(c2[..], c[..]);
    assert!(same_l(&zb, &z));
    assert!(same_k(&hb, &h));

    let mut kept = sig.clone();
    kept[0] ^= 0xff;
    let before = kept.clone();
    pack_sig::<P>(&mut kept, None, &z, &h);
    assert_eq!(kept, before);
}

#[test]
fn signature_round_trip() {
    signature_round_trip_at::<Mode2>(1 << 17, 2420, 80);
    signature_round_trip_at::<Mode3>(1 << 19, 3293, 55);
    signature_round_trip_at::<Mode5>(1 << 19, 4595, 75);
}

#[test]
fn hint_encoding_of_small_vector() {
    let mut h = Mode2::polyvecknew();
    {
        let polys = vec_from_polyveck_mut(&mut h);
        polys[0].coeffs[5] = 1;
        polys[0].coeffs[200] = 1;
        polys[2].coeffs[0] = 1;
        polys[3].coeffs[255] = 1;
    }
    let z = Mode2::polyveclnew();
    let mut sig = vec![0u8; 2420];
    pack_sig::<Mode2>(&mut sig, None, &z, &h);
    let hb = &sig[2420 - 84..];
    assert_eq!(hb[..5], [5, 200, 0, 255, 0]);
    assert!(hb[4..80].iter().all(|b| *b == 0));
    assert_eq!(hb[80..], [2, 2, 3, 4]);
    assert_eq!(hint_error(hb, 80, 4), None);
}

#[test]
fn hint_decoder_refuses_malformed_encodings() {
    let mut hb = vec![0u8; 84];
    assert_eq!(hint_error(&hb, 80, 4), None);
    // counts that go down
    hb[80] = 2;
    hb[1] = 1;
    hb[81] = 1;
    hb[82] = 2;
    hb[83] = 2;
    assert_eq!(hint_error(&hb, 80, 4), Some(DilithiumError::BadHintOmega));
    // a count above omega
    let mut hb = vec![0u8; 84];
    hb[83] = 81;
    assert_eq!(hint_error(&hb, 80, 4), Some(DilithiumError::BadHintOmega));
    // indices that do not grow: 5, 3
    let mut hb = vec![0u8; 84];
    hb[0] = 5;
    hb[1] = 3;
    hb[80] = 2;
    hb[81] = 2;
    hb[82] = 2;
    hb[83] = 2;
    assert_eq!(hint_error(&hb, 80, 4), Some(DilithiumError::BadHintOrder));
    // an index twice
    hb[1] = 5;
    assert_eq!(hint_error(&hb, 80, 4), Some(DilithiumError::BadHintOrder));
    // the same index in two rows is in order
    hb[80] = 1;
    assert_eq!(hint_error(&hb, 80, 4), None);
    // a byte behind the last index
    hb[79] = 1;
    assert_eq!(hint_error(&hb, 80, 4), Some(DilithiumError::BadHintPadding));
    hb[79] = 0;
    hb[2] = 9;
    assert_eq!(hint_error(&hb, 80, 4), Some(DilithiumError::BadHintPadding));
    // the count is looked at before the order, and rows in their order
    let mut hb = vec![0u8; 84];
    hb[0] = 5;
    hb[1] = 3;
    hb[80] = 2;
    hb[81] = 1;
    assert_eq!(hint_error(&hb, 80, 4), Some(DilithiumError::BadHintOrder));
    hb[1] = 6;
    assert_eq!(hint_error(&hb, 80, 4), Some(DilithiumError::BadHintOmega));
}

#[test]
fn unpack_sig_leaves_everything_on_a_fault() {
    let mut sig = vec![0u8; 3293];
    sig[3293 - 61] = 5;
    sig[3293 - 60] = 3;
    sig[3293 - 6] = 2;
    for i in 1..6 {
        sig[3293 - 6 + i] = 2;
    }
    let mut c = [9u8; 32];
    let mut z = Mode3::polyveclnew();
    let mut h = Mode3::polyvecknew();
    assert_eq!(
        unpack_sig::<Mode3>(&mut c, &mut z, &mut h, &sig),
        Err(DilithiumError::BadHintOrder)
    );
    assert_eq!(c, [9u8; 32]);
    assert!(same_l(&z, &Mode3::polyveclnew()));
    sig[3293 - 60] = 7;
    assert_eq!(unpack_sig::<Mode3>(&mut c, &mut z, &mut h, &sig), Ok(()));
    assert_eq!(c, [0u8; 32]);
    assert_eq!(vec_from_polyveck(&h)[0].coeffs[5], 1);
    assert_eq!(vec_from_polyveck(&h)[0].coeffs[7], 1);
    assert_eq!(vec_from_polyveck(&h)[0].coeffs[6], 0);
    assert_eq!(vec_from_polyvecl(&z)[4].coeffs[255], 1 << 19);
}
