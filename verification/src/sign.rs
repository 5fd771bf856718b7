use vstd::prelude::*;
use crate::fips202::{shake256, shake256_two, spec_shake256};
use crate::objects::DilithiumError;
use crate::packing::{
    pack_pk, pack_sig, pack_sk, spec_decode_hint, spec_decode_hint_error, spec_hint_count,
    spec_pack_pk, spec_pack_sig, spec_pack_sk, spec_sig_hint_bytes, spec_unpack_polys_eta,
    spec_unpack_polys_t0, spec_unpack_polys_t1, spec_unpack_polys_z, unpack_pk, unpack_sig,
    unpack_sk, write_bytes,
};
use crate::params::{
    lemma_params_derived, spec_mat_zero, spec_polyvec_zero, spec_row_views, DilithiumParams, Mat,
    ParameterSet,
};
use crate::ntt::{lemma_ntt_bound, spec_ntt};
use crate::poly::{poly_ntt, spec_in_range, Poly};
use crate::polypack::{spec_gamma1_bits, spec_offset_fits, spec_plain_fits, spec_w1_bits};
use crate::rounding::spec_high_parts;
use crate::sampling::{
    poly_challenge, spec_challenge_steps, spec_challenge_stream,
};
use crate::polyvec::{
    lemma_polyvec_caddq_range, lemma_polyvec_decompose_range, lemma_polyvec_make_hint_range,
    lemma_polyvec_norm_below, lemma_polyvec_ntt_range, lemma_polyvec_pairs_fit,
    lemma_polyvec_power2round_range, lemma_polyvec_products_fit, lemma_polyvec_shiftl_range,
    lemma_polyvec_sum_counts, lemma_polyvec_sums, lemma_polyvec_widen, lemma_views_wf,
    polyvec_matrix_expand, polyvec_matrix_pointwise_montgomery, polyveck_add, polyveck_caddq,
    polyveck_chknorm, polyveck_decompose, polyveck_invntt_tomont, polyveck_make_hint,
    polyveck_ntt, polyveck_pack_w1, polyveck_pointwise_poly_montgomery, polyveck_power2round,
    polyveck_reduce, polyveck_shiftl, polyveck_sub, polyveck_uniform_eta, polyveck_use_hint,
    polyvecl_add, polyvecl_chknorm, polyvecl_invntt_tomont, polyvecl_ntt,
    polyvecl_pointwise_poly_montgomery, polyvecl_reduce, polyvecl_uniform_eta,
    polyvecl_uniform_gamma1, spec_matrix_expand, spec_matrix_filled_to, spec_matrix_pointwise,
    spec_polyvec_add, spec_polyvec_caddq, spec_polyvec_decompose_high,
    spec_polyvec_decompose_low, spec_polyvec_in_range, spec_polyvec_invntt_tomont,
    spec_polyvec_make_hint, spec_polyvec_norm_reaches, spec_polyvec_ntt, spec_polyvec_pack_w1,
    spec_polyvec_pairs_fit, spec_polyvec_plain_fits, spec_polyvec_pointwise_poly,
    spec_polyvec_power2round_high, spec_polyvec_power2round_low, spec_polyvec_reduce,
    spec_polyvec_shiftl, spec_polyvec_sub, spec_polyvec_sum, spec_polyvec_uniform_eta,
    spec_polyvec_uniform_eta_filled, spec_polyvec_uniform_gamma1, spec_polyvec_use_hint,
    spec_polyvec_wf, Polyveck, Polyvecl,
};

verus! {

/// The rows of the matrix, to be changed in place.
pub fn mat_from(v: &mut Mat) -> (r: &mut [Polyvecl])
    ensures
        r@ == old(v).rows(),
        final(r)@ == final(v).rows(),
        final(v).mode() == old(v).mode(),
{
    match v {
        Mat::Mode2(v) => v,
        Mat::Mode3(v) => v,
        Mat::Mode5(v) => v,
    }
}

/// The rows of the matrix.
pub fn mat_rows(v: &Mat) -> (r: &[Polyvecl])
    ensures
        r@ == v.rows(),
{
    match v {
        Mat::Mode2(v) => v,
        Mat::Mode3(v) => v,
        Mat::Mode5(v) => v,
    }
}

/// The matrix that belongs to the seed `rho`.
pub open spec fn spec_matrix(p: ParameterSet, rho: Seq<u8>) -> Seq<Seq<Seq<int>>> {
    spec_matrix_expand(spec_mat_zero(p.k as int, p.l as int), rho)
}

/// Whether the streams of all entries of the matrix each hold 256 values.
pub open spec fn spec_matrix_filled(p: ParameterSet, rho: Seq<u8>) -> bool {
    spec_matrix_filled_to(spec_mat_zero(p.k as int, p.l as int), rho, p.k as int, 0)
}

/// The product of the matrix with the vector `v`, as a vector of
/// polynomials with coefficients in `(-Q, Q)`: the transform of `v` is
/// multiplied by the matrix, reduced and transformed back.
pub open spec fn spec_matrix_times(mat: Seq<Seq<Seq<int>>>, v: Seq<Seq<int>>) -> Seq<Seq<int>> {
    spec_polyvec_invntt_tomont(
        spec_polyvec_reduce(spec_matrix_pointwise(mat, spec_polyvec_ntt(v))),
    )
}

/// The vector `t = A * s1 + s2` of the public key, as standard
/// representatives.
pub open spec fn spec_keygen_t(
    p: ParameterSet,
    rho: Seq<u8>,
    s1: Seq<Seq<int>>,
    s2: Seq<Seq<int>>,
) -> Seq<Seq<int>> {
    spec_polyvec_caddq(spec_polyvec_add(spec_matrix_times(spec_matrix(p, rho), s1), s2))
}

/// The secret vector `s1` that belongs to the seed `rhoprime`.
pub open spec fn spec_keygen_s1(p: ParameterSet, rhoprime: Seq<u8>) -> Seq<Seq<int>> {
    spec_polyvec_uniform_eta(p.eta as int, spec_polyvec_zero(p.l as int), rhoprime, 0)
}

/// The secret vector `s2` that belongs to the seed `rhoprime`.
pub open spec fn spec_keygen_s2(p: ParameterSet, rhoprime: Seq<u8>) -> Seq<Seq<int>> {
    spec_polyvec_uniform_eta(p.eta as int, spec_polyvec_zero(p.k as int), rhoprime, p.l as int)
}

/// Whether every stream that key generation samples from holds enough
/// values.
pub open spec fn spec_keygen_filled(p: ParameterSet, rho: Seq<u8>, rhoprime: Seq<u8>) -> bool {
    &&& spec_matrix_filled(p, rho)
    &&& spec_polyvec_uniform_eta_filled(p.eta as int, p.l as int, rhoprime, 0)
    &&& spec_polyvec_uniform_eta_filled(p.eta as int, p.k as int, rhoprime, p.l as int)
}

/// `n` zero bytes.
pub open spec fn spec_zero_bytes(n: int) -> Seq<u8> {
    Seq::new(n as nat, |i: int| 0u8)
}

/// The secret key in its buffer: the packed key, and zero bytes up to the
/// length of the buffer.
pub open spec fn spec_secret_key(
    p: ParameterSet,
    rho: Seq<u8>,
    key: Seq<u8>,
    tr: Seq<u8>,
    s1: Seq<Seq<int>>,
    s2: Seq<Seq<int>>,
    t0: Seq<Seq<int>>,
) -> Seq<u8> {
    spec_pack_sk(p, rho, key, tr, s1, s2, t0) + spec_zero_bytes(
        p.secret_key_bytes - p.secret_key_packed_bytes,
    )
}

/// The public and the secret key that belong to a seed of 32 bytes, or `None`
/// where a stream ends before it has given enough values.
pub open spec fn spec_keygen(p: ParameterSet, seed: Seq<u8>) -> Option<(Seq<u8>, Seq<u8>)> {
    let buf = spec_shake256(seed, 128);
    let rho = buf.subrange(0, 32);
    let rhoprime = buf.subrange(32, 96);
    let key = buf.subrange(96, 128);
    if !spec_keygen_filled(p, rho, rhoprime) {
        None
    } else {
        let s1 = spec_keygen_s1(p, rhoprime);
        let s2 = spec_keygen_s2(p, rhoprime);
        let t = spec_keygen_t(p, rho, s1, s2);
        let pk = spec_pack_pk(rho, spec_polyvec_power2round_high(t));
        let tr = spec_shake256(pk, 32);
        Some((pk, spec_secret_key(p, rho, key, tr, s1, s2, spec_polyvec_power2round_low(t))))
    }
}

/// Multiplies the expanded matrix with the vector `v`, whose coefficients lie
/// within `2^19`: `w` becomes the product, with coefficients in `(-Q, Q)`.
fn matrix_times<P: DilithiumParams>(w: &mut Polyveck, mat: &[Polyvecl], v: &Polyvecl)
    requires
        old(w).mode() == P::mode(),
        v.mode() == P::mode(),
        mat@.len() == P::mode().spec_params().k,
        forall|i: int| 0 <= i < mat@.len() ==> (#[trigger] mat@[i]).mode() == P::mode(),
        forall|i: int|
            0 <= i < mat@.len() ==> spec_polyvec_in_range((#[trigger] mat@[i])@, 0, 8380416),
        spec_polyvec_in_range(v@, -524288, 524288),
    ensures
        final(w)@ == spec_matrix_times(spec_row_views(mat@), v@),
        final(w).mode() == P::mode(),
        spec_polyvec_in_range(final(w)@, -4211197, 4211197),
{
    let mut vhat = *v;
    proof {
        lemma_views_wf(v.polys());
        lemma_polyvec_widen(
            v@,
            -524288,
            524288,
            -(crate::ntt::NTT_INPUT_BOUND as int),
            crate::ntt::NTT_INPUT_BOUND as int,
        );
    }
    polyvecl_ntt::<P>(&mut vhat);
    proof {
        lemma_polyvec_ntt_range(v@, 524288);
        lemma_views_wf(vhat.polys());
        assert forall|i: int| 0 <= i < mat@.len() implies spec_polyvec_pairs_fit(
            (#[trigger] mat@[i])@,
            vhat@,
        ) by {
            lemma_views_wf(mat@[i].polys());
            lemma_polyvec_widen(mat@[i]@, 0, 8380416, -8380416, 8380416);
            assert(mat@[i].mode() == vhat.mode());
            lemma_polyvec_pairs_fit(mat@[i]@, vhat@, 8380416, 67567624);
        }
    }
    polyvec_matrix_pointwise_montgomery::<P>(w, mat, &vhat);
    proof {
        lemma_polyvec_widen(
            w@,
            -8380416 * (vhat@.len() as int),
            8380416 * (vhat@.len() as int),
            -0x8000_0000,
            0x7fff_ffff - 0x40_0000,
        );
    }
    polyveck_reduce::<P>(w);
    proof {
        lemma_polyvec_widen(w@, -6283009, 6283008, -8388607, 8388607);
    }
    polyveck_invntt_tomont::<P>(w);
}

/// Expands the matrix from `rho` and samples the secret vectors from
/// `rhoprime`. Returns whether every stream held enough values.
fn keygen_sample<P: DilithiumParams>(
    mat_data: &mut Mat,
    s1: &mut Polyvecl,
    s2: &mut Polyveck,
    rho: &[u8],
    rhoprime: &[u8],
) -> (filled: bool)
    requires
        old(mat_data).mode() == P::mode(),
        old(mat_data).wf(),
        old(mat_data)@ == spec_mat_zero(
            P::mode().spec_params().k as int,
            P::mode().spec_params().l as int,
        ),
        old(s1).mode() == P::mode(),
        old(s2).mode() == P::mode(),
        old(s1)@ == spec_polyvec_zero(P::mode().spec_params().l as int),
        old(s2)@ == spec_polyvec_zero(P::mode().spec_params().k as int),
        rhoprime.len() == 64,
    ensures
        filled == spec_keygen_filled(P::mode().spec_params(), rho@, rhoprime@),
        final(mat_data).mode() == P::mode(),
        final(mat_data).wf(),
        final(s1).mode() == P::mode(),
        final(s2).mode() == P::mode(),
        final(mat_data)@ == spec_matrix(P::mode().spec_params(), rho@),
        final(s1)@ == spec_keygen_s1(P::mode().spec_params(), rhoprime@),
        final(s2)@ == spec_keygen_s2(P::mode().spec_params(), rhoprime@),
        filled ==> forall|i: int|
            0 <= i < final(mat_data).rows().len() ==> spec_polyvec_in_range(
                (#[trigger] final(mat_data).rows()[i])@,
                0,
                8380416,
            ),
        filled ==> spec_polyvec_in_range(final(s1)@, -4, 4),
        filled ==> spec_polyvec_in_range(final(s2)@, -4, 4),
        filled ==> spec_polyvec_in_range(
            final(s1)@,
            -P::mode().spec_params().eta,
            P::mode().spec_params().eta as int,
        ),
        filled ==> spec_polyvec_in_range(
            final(s2)@,
            -P::mode().spec_params().eta,
            P::mode().spec_params().eta as int,
        ),
{
    let params = P::algorithm().params();
    let mat_mut = mat_from(mat_data);
    let filled_mat: bool = polyvec_matrix_expand::<P>(mat_mut, rho);
    let filled_s1: bool = polyvecl_uniform_eta::<P>(s1, rhoprime, 0);
    let filled_s2: bool = polyveck_uniform_eta::<P>(s2, rhoprime, params.l as u16);
    proof {
        if filled_s1 {
            lemma_polyvec_widen(s1@, -(params.eta as int), params.eta as int, -4, 4);
        }
        if filled_s2 {
            lemma_polyvec_widen(s2@, -(params.eta as int), params.eta as int, -4, 4);
        }
    }
    filled_mat && filled_s1 && filled_s2
}

/// Computes `t = A * s1 + s2` and splits it: the high parts go to `t1`, the
/// low parts to `t0`.
fn keygen_t<P: DilithiumParams>(
    t1: &mut Polyveck,
    t0: &mut Polyveck,
    mat: &[Polyvecl],
    s1: &Polyvecl,
    s2: &Polyveck,
)
    requires
        old(t1).mode() == P::mode(),
        old(t0).mode() == P::mode(),
        s1.mode() == P::mode(),
        s2.mode() == P::mode(),
        mat@.len() == P::mode().spec_params().k,
        forall|i: int| 0 <= i < mat@.len() ==> (#[trigger] mat@[i]).mode() == P::mode(),
        forall|i: int|
            0 <= i < mat@.len() ==> spec_polyvec_in_range((#[trigger] mat@[i])@, 0, 8380416),
        spec_polyvec_in_range(s1@, -4, 4),
        spec_polyvec_in_range(s2@, -4, 4),
    ensures
        final(t1).mode() == P::mode(),
        final(t0).mode() == P::mode(),
        final(t1)@ == spec_polyvec_power2round_high(
            spec_polyvec_caddq(spec_polyvec_add(spec_matrix_times(spec_row_views(mat@), s1@), s2@)),
        ),
        final(t0)@ == spec_polyvec_power2round_low(
            spec_polyvec_caddq(spec_polyvec_add(spec_matrix_times(spec_row_views(mat@), s1@), s2@)),
        ),
        spec_polyvec_in_range(final(t1)@, 0, 1023),
        spec_polyvec_in_range(final(t0)@, -4095, 4096),
{
    proof {
        lemma_polyvec_widen(s1@, -4, 4, -524288, 524288);
    }
    matrix_times::<P>(t1, mat, s1);
    let product = *t1;
    proof {
        lemma_views_wf(product.polys());
        lemma_views_wf(s2.polys());
        lemma_polyvec_sums(product@, s2@, 4211197, 4);
    }
    polyveck_add(t1, &product, s2);
    proof {
        lemma_views_wf(t1.polys());
        lemma_polyvec_widen(t1@, -4211201, 4211201, -8380416, 8380416);
        lemma_polyvec_caddq_range(t1@);
    }
    polyveck_caddq::<P>(t1);
    let t = *t1;
    proof {
        lemma_views_wf(t.polys());
        lemma_polyvec_widen(t@, 0, 8380416, -0x8000_0000, 0x7fff_ffff - 4096);
        lemma_polyvec_power2round_range(t@);
    }
    polyveck_power2round::<P>(t1, t0, &t);
}

/// Makes the public key `pk` and the secret key `sk` that belong to `seed`.
/// Returns 0, or 1 where a stream ended before it had given enough values;
/// then nothing is written.
pub fn crypto_sign_keypair<P: DilithiumParams>(pk: &mut [u8], sk: &mut [u8], seed: &[u8]) -> (r:
    u8)
    requires
        old(pk).len() == P::mode().spec_params().public_key_bytes,
        old(sk).len() == P::mode().spec_params().secret_key_bytes,
        seed.len() == 32,
    ensures
        match spec_keygen(P::mode().spec_params(), seed@) {
            Some(keys) => r == 0 && final(pk)@ == keys.0 && final(sk)@ == keys.1,
            None => r == 1 && final(pk)@ == old(pk)@ && final(sk)@ == old(sk)@,
        },
{
    let params = P::algorithm().params();
    let mut seedbuf: [u8; 128] = [0u8; 128];
    shake256(&mut seedbuf, seed, 128, 32);
    assert(seedbuf@ == spec_shake256(seed@, 128)) by {
        assert(seed@.take(32) =~= seed@);
        assert(seedbuf@.take(128) =~= seedbuf@);
    }
    let rho = &seedbuf[0..32];
    let rhoprime = &seedbuf[32..96];
    let key = &seedbuf[96..128];
    let mut mat_data = P::mat();
    let mut s1 = P::polyveclnew();
    let mut s2 = P::polyvecknew();
    let filled: bool = keygen_sample::<P>(&mut mat_data, &mut s1, &mut s2, rho, rhoprime);
    if !filled {
        proof {
            lemma_keygen_none(params, seed@);
        }
        return 1;
    }
    let mat = mat_rows(&mat_data);
    let mut t1 = P::polyvecknew();
    let mut t0 = P::polyvecknew();
    keygen_t::<P>(&mut t1, &mut t0, mat, &s1, &s2);
    assert(spec_row_views(mat@) == spec_matrix(P::mode().spec_params(), rho@));
    keygen_pack::<P>(pk, sk, rho, key, &t1, &t0, &s1, &s2);
    proof {
        lemma_keygen_some(params, seed@, pk@, sk@);
    }
    0
}

/// Packs the keys from their parts.
fn keygen_pack<P: DilithiumParams>(
    pk: &mut [u8],
    sk: &mut [u8],
    rho: &[u8],
    key: &[u8],
    t1: &Polyveck,
    t0: &Polyveck,
    s1: &Polyvecl,
    s2: &Polyveck,
)
    requires
        old(pk).len() == P::mode().spec_params().public_key_bytes,
        old(sk).len() == P::mode().spec_params().secret_key_bytes,
        rho.len() == 32,
        key.len() == 32,
        t1.mode() == P::mode(),
        t0.mode() == P::mode(),
        s1.mode() == P::mode(),
        s2.mode() == P::mode(),
        spec_polyvec_in_range(
            s1@,
            -P::mode().spec_params().eta,
            P::mode().spec_params().eta as int,
        ),
        spec_polyvec_in_range(
            s2@,
            -P::mode().spec_params().eta,
            P::mode().spec_params().eta as int,
        ),
        spec_polyvec_in_range(t1@, 0, 1023),
        spec_polyvec_in_range(t0@, -4095, 4096),
    ensures
        final(pk).len() == old(pk).len(),
        final(sk).len() == old(sk).len(),
        final(pk)@ == spec_pack_pk(rho@, t1@),
        final(sk)@ == spec_secret_key(
            P::mode().spec_params(),
            rho@,
            key@,
            spec_shake256(final(pk)@, 32),
            s1@,
            s2@,
            t0@,
        ),
{
    let params = P::algorithm().params();
    let mut tr: [u8; 32] = [0u8; 32];
    proof {
        lemma_views_wf(s1.polys());
        lemma_views_wf(s2.polys());
        lemma_views_wf(t1.polys());
        lemma_views_wf(t0.polys());
        lemma_params_derived(P::mode());
        lemma_fits_from_ranges(P::mode().spec_params(), s1@, s2@, t1@, t0@);
    }
    pack_pk::<P>(pk, rho, t1);
    proof {
        assert(pk@.take(params.public_key_bytes as int) =~= pk@);
    }
    shake256(&mut tr, pk, 32, params.public_key_bytes);
    assert(tr@ == spec_shake256(pk@, 32)) by {
        assert(pk@.take(params.public_key_bytes as int) =~= pk@);
        assert(tr@.take(32) =~= tr@);
    }
    pack_sk::<P>(sk, rho, &tr, key, t0, s1, s2);
    let ghost packed = sk@.take(params.secret_key_packed_bytes as int);
    let total: usize = params.secret_key_bytes;
    let mut i: usize = params.secret_key_packed_bytes;
    while i < total
        invariant
            params.secret_key_packed_bytes <= i <= total,
            total == sk.len(),
            sk@.take(params.secret_key_packed_bytes as int) == packed,
            forall|x: int| params.secret_key_packed_bytes <= x < i ==> #[trigger] sk@[x] == 0,
        decreases total - i,
    {
        sk[i] = 0;
        proof {
            assert(sk@.take(params.secret_key_packed_bytes as int) =~= packed);
        }
        i += 1;
    }
    proof {
        assert(tr@.take(32) =~= tr@);
        assert(rho@.take(32) =~= rho@);
        assert(key@.take(32) =~= key@);
        assert(sk@ =~= packed + spec_zero_bytes(
            params.secret_key_bytes - params.secret_key_packed_bytes,
        ));
    }
}

/// Where a stream is too short, there are no keys.
pub proof fn lemma_keygen_none(p: ParameterSet, seed: Seq<u8>)
    requires
        !spec_keygen_filled(
            p,
            spec_shake256(seed, 128).subrange(0, 32),
            spec_shake256(seed, 128).subrange(32, 96),
        ),
    ensures
        spec_keygen(p, seed) is None,
{
}

/// Keys put together as key generation says are the keys of the seed.
pub proof fn lemma_keygen_some(p: ParameterSet, seed: Seq<u8>, pk: Seq<u8>, sk: Seq<u8>)
    requires
        ({
            let buf = spec_shake256(seed, 128);
            let rho = buf.subrange(0, 32);
            let rhoprime = buf.subrange(32, 96);
            let key = buf.subrange(96, 128);
            let s1 = spec_keygen_s1(p, rhoprime);
            let s2 = spec_keygen_s2(p, rhoprime);
            let t = spec_keygen_t(p, rho, s1, s2);
            &&& spec_keygen_filled(p, rho, rhoprime)
            &&& pk == spec_pack_pk(rho, spec_polyvec_power2round_high(t))
            &&& sk == spec_secret_key(
                p,
                rho,
                key,
                spec_shake256(pk, 32),
                s1,
                s2,
                spec_polyvec_power2round_low(t),
            )
        }),
    ensures
        spec_keygen(p, seed) == Some((pk, sk)),
{
}

/// Vectors in the ranges that key generation gives can be packed.
pub proof fn lemma_fits_from_ranges(
    p: ParameterSet,
    s1: Seq<Seq<int>>,
    s2: Seq<Seq<int>>,
    t1: Seq<Seq<int>>,
    t0: Seq<Seq<int>>,
)
    requires
        p.eta == 2 || p.eta == 4,
        spec_polyvec_wf(s1),
        spec_polyvec_wf(s2),
        spec_polyvec_in_range(s1, -(p.eta as int), p.eta as int),
        spec_polyvec_in_range(s2, -(p.eta as int), p.eta as int),
        spec_polyvec_in_range(t1, 0, 1023),
        spec_polyvec_in_range(t0, -4095, 4096),
        spec_polyvec_wf(t1),
        spec_polyvec_wf(t0),
    ensures
        crate::packing::spec_eta_fits(p.eta as int, s1),
        crate::packing::spec_eta_fits(p.eta as int, s2),
        crate::packing::spec_t1_fits(t1),
        crate::packing::spec_t0_fits(t0),
{
    let eta = p.eta as int;
    let bits = crate::polypack::spec_eta_bits(eta);
    assert(crate::bitpack::spec_pow2(3) == 8);
    assert(crate::bitpack::spec_pow2(4) == 16);
    assert(crate::bitpack::spec_pow2(10) == 1024);
    assert(crate::bitpack::spec_pow2(13) == 8192);
    assert forall|k: int| 0 <= k < s1.len() implies spec_offset_fits(eta, #[trigger] s1[k], bits) by {
        assert(spec_in_range(s1[k], -eta, eta));
        assert forall|i: int| 0 <= i < 256 implies 0 <= eta - #[trigger] s1[k][i]
            < crate::bitpack::spec_pow2(bits) by {}
    }
    assert forall|k: int| 0 <= k < s2.len() implies spec_offset_fits(eta, #[trigger] s2[k], bits) by {
        assert(spec_in_range(s2[k], -eta, eta));
        assert forall|i: int| 0 <= i < 256 implies 0 <= eta - #[trigger] s2[k][i]
            < crate::bitpack::spec_pow2(bits) by {}
    }
    assert forall|k: int| 0 <= k < t1.len() implies spec_plain_fits(#[trigger] t1[k], 10) by {
        assert(spec_in_range(t1[k], 0, 1023));
        assert forall|i: int| 0 <= i < 256 implies 0 <= #[trigger] t1[k][i]
            < crate::bitpack::spec_pow2(10) by {}
    }
    assert forall|k: int| 0 <= k < t0.len() implies spec_offset_fits(4096, #[trigger] t0[k], 13) by {
        assert(spec_in_range(t0[k], -4095, 4096));
        assert forall|i: int| 0 <= i < 256 implies 0 <= 4096 - #[trigger] t0[k][i]
            < crate::bitpack::spec_pow2(13) by {}
    }
}

/// The largest absolute value of a coefficient of a transformed vector that
/// is multiplied by a transformed challenge.
pub const CHALLENGE_FACTOR_BOUND: i32 = 67047432;

/// The largest absolute value of a coefficient of a transformed challenge.
pub const CHALLENGE_BOUND: i32 = 67043337;

/// The challenge that belongs to the seed `ctilde`.
pub open spec fn spec_challenge(p: ParameterSet, ctilde: Seq<u8>) -> Seq<int> {
    spec_challenge_steps(spec_challenge_stream(ctilde), p.tau as int, p.tau as nat).0
}

/// Whether the stream of the seed `ctilde` suffices for its challenge.
pub open spec fn spec_challenge_filled(p: ParameterSet, ctilde: Seq<u8>) -> bool {
    spec_challenge_steps(spec_challenge_stream(ctilde), p.tau as int, p.tau as nat).1
        <= spec_challenge_stream(ctilde).len()
}

/// The seed of the challenge: the hash of `mu` and the packed high parts `w1`.
pub open spec fn spec_challenge_seed(p: ParameterSet, mu: Seq<u8>, w1: Seq<Seq<int>>) -> Seq<u8> {
    spec_shake256(mu + spec_polyvec_pack_w1(p.gamma2 as int, w1), 32)
}

/// The product of the challenge, given by its transform `chat`, with a
/// vector, given by its transform `vhat`.
pub open spec fn spec_times_challenge(chat: Seq<int>, vhat: Seq<Seq<int>>) -> Seq<Seq<int>> {
    spec_polyvec_invntt_tomont(spec_polyvec_pointwise_poly(chat, vhat))
}

/// The product of the matrix with the vector `y`, as standard
/// representatives.
pub open spec fn spec_sign_w(mat: Seq<Seq<Seq<int>>>, y: Seq<Seq<int>>) -> Seq<Seq<int>> {
    spec_polyvec_caddq(spec_matrix_times(mat, y))
}

/// Where the high parts lie below their number, they can be packed.
pub proof fn lemma_w1_fits(gamma2: int, w1: Seq<Seq<int>>)
    requires
        gamma2 == 95232 || gamma2 == 261888,
        spec_polyvec_wf(w1),
        spec_polyvec_in_range(w1, 0, spec_high_parts(gamma2) - 1),
    ensures
        spec_polyvec_plain_fits(w1, spec_w1_bits(gamma2)),
{
    assert(crate::bitpack::spec_pow2(6) == 64);
    assert(crate::bitpack::spec_pow2(4) == 16);
    assert forall|k: int| 0 <= k < w1.len() implies spec_plain_fits(
        #[trigger] w1[k],
        spec_w1_bits(gamma2),
    ) by {
        assert(spec_in_range(w1[k], 0, spec_high_parts(gamma2) - 1));
        assert forall|i: int| 0 <= i < 256 implies 0 <= #[trigger] w1[k][i]
            < crate::bitpack::spec_pow2(spec_w1_bits(gamma2)) by {}
    }
}

/// Where no coefficient of `z` reaches `gamma1 - beta`, `z` can be packed.
pub proof fn lemma_z_fits(p: ParameterSet, z: Seq<Seq<int>>)
    requires
        p.gamma1 == 131072 || p.gamma1 == 524288,
        0 <= p.beta < 1000,
        spec_polyvec_wf(z),
        spec_polyvec_in_range(z, -(p.gamma1 - p.beta - 1), p.gamma1 - p.beta - 1),
    ensures
        crate::packing::spec_z_fits(p.gamma1 as int, z),
{
    let gamma1 = p.gamma1 as int;
    assert(crate::bitpack::spec_pow2(18) == 262144);
    assert(crate::bitpack::spec_pow2(20) == 1048576);
    assert forall|k: int| 0 <= k < z.len() implies spec_offset_fits(
        gamma1,
        #[trigger] z[k],
        spec_gamma1_bits(gamma1),
    ) by {
        assert(spec_in_range(z[k], -(p.gamma1 - p.beta - 1), p.gamma1 - p.beta - 1));
        assert forall|i: int| 0 <= i < 256 implies 0 <= gamma1 - #[trigger] z[k][i]
            < crate::bitpack::spec_pow2(spec_gamma1_bits(gamma1)) by {}
    }
}

/// `r` becomes the product of the challenge with the L-vector whose
/// transform is `vhat`.
fn challenge_times_l<P: DilithiumParams>(r: &mut Polyvecl, chat: &Poly, vhat: &Polyvecl)
    requires
        old(r).mode() == vhat.mode(),
        spec_in_range(chat@, -(CHALLENGE_BOUND as int), CHALLENGE_BOUND as int),
        spec_polyvec_in_range(
            vhat@,
            -(CHALLENGE_FACTOR_BOUND as int),
            CHALLENGE_FACTOR_BOUND as int,
        ),
    ensures
        final(r)@ == spec_times_challenge(chat@, vhat@),
        final(r).mode() == old(r).mode(),
        spec_polyvec_in_range(final(r)@, -4211197, 4211197),
{
    proof {
        lemma_views_wf(vhat.polys());
        assert(67043337 * 67047432 < 0x8000_0000 * 8380417);
        lemma_polyvec_products_fit(chat@, vhat@, 67043337, 67047432);
    }
    polyvecl_pointwise_poly_montgomery::<P>(r, chat, vhat);
    proof {
        lemma_polyvec_widen(r@, -8380416, 8380416, -8388607, 8388607);
    }
    polyvecl_invntt_tomont::<P>(r);
}

/// `r` becomes the product of the challenge with the K-vector whose
/// transform is `vhat`.
fn challenge_times_k<P: DilithiumParams>(r: &mut Polyveck, chat: &Poly, vhat: &Polyveck)
    requires
        old(r).mode() == vhat.mode(),
        spec_in_range(chat@, -(CHALLENGE_BOUND as int), CHALLENGE_BOUND as int),
        spec_polyvec_in_range(
            vhat@,
            -(CHALLENGE_FACTOR_BOUND as int),
            CHALLENGE_FACTOR_BOUND as int,
        ),
    ensures
        final(r)@ == spec_times_challenge(chat@, vhat@),
        final(r).mode() == old(r).mode(),
        spec_polyvec_in_range(final(r)@, -4211197, 4211197),
{
    proof {
        lemma_views_wf(vhat.polys());
        assert(67043337 * 67047432 < 0x8000_0000 * 8380417);
        lemma_polyvec_products_fit(chat@, vhat@, 67043337, 67047432);
    }
    polyveck_pointwise_poly_montgomery::<P>(r, chat, vhat);
    proof {
        lemma_polyvec_widen(r@, -8380416, 8380416, -8388607, 8388607);
    }
    polyveck_invntt_tomont::<P>(r);
}

/// Makes the seed of the challenge from `mu` and the high parts `w1`.
fn challenge_seed<P: DilithiumParams>(ctilde: &mut [u8], mu: &[u8], w1: &Polyveck)
    requires
        old(ctilde).len() == 32,
        mu.len() == 64,
        w1.mode() == P::mode(),
        spec_polyvec_in_range(
            w1@,
            0,
            spec_high_parts(P::mode().spec_params().gamma2 as int) - 1,
        ),
    ensures
        final(ctilde).len() == 32,
        final(ctilde)@ == spec_challenge_seed(P::mode().spec_params(), mu@, w1@),
{
    let params = P::algorithm().params();
    let mut packed: [u8; 1024] = [0u8; 1024];
    proof {
        lemma_params_derived(P::mode());
        lemma_views_wf(w1.polys());
        lemma_w1_fits(params.gamma2 as int, w1@);
    }
    polyveck_pack_w1::<P>(&mut packed, w1);
    let n: usize = params.k * params.polyw1_packedbytes;
    shake256_two(ctilde, 32, mu, 64, &packed, n);
    proof {
        assert(mu@.take(64) =~= mu@);
        assert(ctilde@.take(32) =~= ctilde@);
    }
}

/// Makes the seed of the challenge from `mu` and the high parts `w1`, and
/// from it the transform of the challenge. Returns whether the stream of the
/// challenge sufficed.
fn make_challenge<P: DilithiumParams>(
    ctilde: &mut [u8],
    chat: &mut Poly,
    mu: &[u8],
    w1: &Polyveck,
) -> (filled: bool)
    requires
        old(ctilde).len() == 32,
        mu.len() == 64,
        w1.mode() == P::mode(),
        spec_polyvec_in_range(
            w1@,
            0,
            spec_high_parts(P::mode().spec_params().gamma2 as int) - 1,
        ),
    ensures
        final(ctilde).len() == 32,
        final(ctilde)@ == spec_challenge_seed(P::mode().spec_params(), mu@, w1@),
        filled == spec_challenge_filled(P::mode().spec_params(), final(ctilde)@),
        final(chat)@ == spec_ntt(spec_challenge(P::mode().spec_params(), final(ctilde)@)),
        spec_in_range(final(chat)@, -(CHALLENGE_BOUND as int), CHALLENGE_BOUND as int),
{
    challenge_seed::<P>(ctilde, mu, w1);
    proof {
        assert(ctilde@.take(32) =~= ctilde@);
    }
    let filled: bool = poly_challenge::<P>(chat, ctilde);
    proof {
        lemma_ntt_bound(chat@, 1);
    }
    poly_ntt::<P>(chat);
    filled
}

/// Samples the masking vector `y` of the attempt `nonce` and computes the
/// high parts `w1` and the low parts `w0` of the product of the matrix with it.
fn sign_commit<P: DilithiumParams>(
    y: &mut Polyvecl,
    w1: &mut Polyveck,
    w0: &mut Polyveck,
    mat: &[Polyvecl],
    rhoprime: &[u8],
    nonce: u16,
)
    requires
        old(y).mode() == P::mode(),
        old(w1).mode() == P::mode(),
        old(w0).mode() == P::mode(),
        mat@.len() == P::mode().spec_params().k,
        forall|i: int| 0 <= i < mat@.len() ==> (#[trigger] mat@[i]).mode() == P::mode(),
        forall|i: int|
            0 <= i < mat@.len() ==> spec_polyvec_in_range((#[trigger] mat@[i])@, 0, 8380416),
        rhoprime.len() == 64,
        P::mode().spec_params().l * (nonce + 1) <= 65536,
    ensures
        final(y).mode() == P::mode(),
        final(w1).mode() == P::mode(),
        final(w0).mode() == P::mode(),
        final(y)@ == spec_polyvec_uniform_gamma1(
            P::mode().spec_params().gamma1 as int,
            P::mode().spec_params().l as int,
            P::mode().spec_params().l as int,
            rhoprime@,
            nonce as int,
        ),
        final(w1)@ == spec_polyvec_decompose_high(
            P::mode().spec_params().gamma2 as int,
            spec_sign_w(spec_row_views(mat@), final(y)@),
        ),
        final(w0)@ == spec_polyvec_decompose_low(
            P::mode().spec_params().gamma2 as int,
            spec_sign_w(spec_row_views(mat@), final(y)@),
        ),
        spec_polyvec_in_range(final(y)@, -524288, 524288),
        spec_polyvec_in_range(
            final(w1)@,
            0,
            spec_high_parts(P::mode().spec_params().gamma2 as int) - 1,
        ),
        spec_polyvec_in_range(final(w0)@, -261888, 261888),
{
    let params = P::algorithm().params();
    proof {
        lemma_params_derived(P::mode());
        assert(params.l * nonce + params.l == params.l * (nonce + 1)) by (nonlinear_arith);
    }
    polyvecl_uniform_gamma1::<P>(y, rhoprime, nonce);
    proof {
        lemma_polyvec_widen(
            y@,
            -(params.gamma1 as int) + 1,
            params.gamma1 as int,
            -524288,
            524288,
        );
    }
    matrix_times::<P>(w1, mat, y);
    proof {
        lemma_views_wf(w1.polys());
        lemma_polyvec_widen(w1@, -4211197, 4211197, -8380416, 8380416);
        lemma_polyvec_caddq_range(w1@);
    }
    polyveck_caddq::<P>(w1);
    let w = *w1;
    proof {
        lemma_views_wf(w.polys());
        lemma_polyvec_decompose_range(params.gamma2 as int, w@);
    }
    polyveck_decompose::<P>(w1, w0, &w);
    proof {
        lemma_polyvec_widen(
            w0@,
            -(params.gamma2 as int),
            params.gamma2 as int,
            -261888,
            261888,
        );
    }
}

/// The vector `z` of a signature before its norm is looked at.
pub open spec fn spec_response_z(chat: Seq<int>, s1hat: Seq<Seq<int>>, y: Seq<Seq<int>>) -> Seq<
    Seq<int>,
> {
    spec_polyvec_reduce(spec_polyvec_add(spec_times_challenge(chat, s1hat), y))
}

/// The low parts of `w` less the product of the challenge with `s2`.
pub open spec fn spec_response_r0(chat: Seq<int>, s2hat: Seq<Seq<int>>, w0: Seq<Seq<int>>) -> Seq<
    Seq<int>,
> {
    spec_polyvec_reduce(spec_polyvec_sub(w0, spec_times_challenge(chat, s2hat)))
}

/// The product of the challenge with `t0`.
pub open spec fn spec_response_ct0(chat: Seq<int>, t0hat: Seq<Seq<int>>) -> Seq<Seq<int>> {
    spec_polyvec_reduce(spec_times_challenge(chat, t0hat))
}

/// The hints of a signature.
pub open spec fn spec_response_hint(
    gamma2: int,
    r0: Seq<Seq<int>>,
    ct0: Seq<Seq<int>>,
    w1: Seq<Seq<int>>,
) -> Seq<Seq<int>> {
    spec_polyvec_make_hint(gamma2, spec_polyvec_add(r0, ct0), w1)
}

/// Computes `z = c * s1 + y`. Returns whether no coefficient of it reaches
/// `gamma1 - beta`.
fn response_z<P: DilithiumParams>(z: &mut Polyvecl, chat: &Poly, s1hat: &Polyvecl, y: &Polyvecl) -> (
    fine: bool)
    requires
        old(z).mode() == P::mode(),
        s1hat.mode() == P::mode(),
        y.mode() == P::mode(),
        spec_in_range(chat@, -(CHALLENGE_BOUND as int), CHALLENGE_BOUND as int),
        spec_polyvec_in_range(
            s1hat@,
            -(CHALLENGE_FACTOR_BOUND as int),
            CHALLENGE_FACTOR_BOUND as int,
        ),
        spec_polyvec_in_range(y@, -524288, 524288),
    ensures
        final(z).mode() == P::mode(),
        final(z)@ == spec_response_z(chat@, s1hat@, y@),
        fine == !spec_polyvec_norm_reaches(
            final(z)@,
            P::mode().spec_params().gamma1 - P::mode().spec_params().beta,
        ),
        fine ==> crate::packing::spec_z_fits(P::mode().spec_params().gamma1 as int, final(z)@),
{
    let params = P::algorithm().params();
    challenge_times_l::<P>(z, chat, s1hat);
    let product = *z;
    proof {
        lemma_views_wf(product.polys());
        lemma_views_wf(y.polys());
        lemma_polyvec_sums(product@, y@, 4211197, 524288);
    }
    polyvecl_add(z, &product, y);
    proof {
        lemma_polyvec_widen(z@, -4735485, 4735485, -0x8000_0000, 0x7fff_ffff - 0x40_0000);
    }
    polyvecl_reduce::<P>(z);
    proof {
        lemma_polyvec_widen(z@, -6283009, 6283008, -0x4000_0000, 0x4000_0000 - 1);
    }
    let reached: u8 = polyvecl_chknorm::<P>(z, params.gamma1 - params.beta);
    proof {
        if reached == 0 {
            lemma_params_derived(P::mode());
            lemma_views_wf(z.polys());
            lemma_polyvec_norm_below(z@, params.gamma1 - params.beta);
            lemma_z_fits(params, z@);
        }
    }
    reached == 0
}

/// Computes `r0 = w0 - c * s2`. Returns whether no coefficient of it reaches
/// `gamma2 - beta`.
fn response_r0<P: DilithiumParams>(r0: &mut Polyveck, chat: &Poly, s2hat: &Polyveck, w0: &Polyveck) -> (
    fine: bool)
    requires
        old(r0).mode() == P::mode(),
        s2hat.mode() == P::mode(),
        w0.mode() == P::mode(),
        spec_in_range(chat@, -(CHALLENGE_BOUND as int), CHALLENGE_BOUND as int),
        spec_polyvec_in_range(
            s2hat@,
            -(CHALLENGE_FACTOR_BOUND as int),
            CHALLENGE_FACTOR_BOUND as int,
        ),
        spec_polyvec_in_range(w0@, -261888, 261888),
    ensures
        final(r0).mode() == P::mode(),
        final(r0)@ == spec_response_r0(chat@, s2hat@, w0@),
        fine == !spec_polyvec_norm_reaches(
            final(r0)@,
            P::mode().spec_params().gamma2 - P::mode().spec_params().beta,
        ),
        spec_polyvec_in_range(final(r0)@, -6283009, 6283008),
{
    let params = P::algorithm().params();
    challenge_times_k::<P>(r0, chat, s2hat);
    let product = *r0;
    proof {
        lemma_views_wf(product.polys());
        lemma_views_wf(w0.polys());
        lemma_polyvec_sums(w0@, product@, 261888, 4211197);
    }
    polyveck_sub(r0, w0, &product);
    proof {
        lemma_polyvec_widen(r0@, -4473085, 4473085, -0x8000_0000, 0x7fff_ffff - 0x40_0000);
    }
    polyveck_reduce::<P>(r0);
    proof {
        lemma_polyvec_widen(r0@, -6283009, 6283008, -0x4000_0000, 0x4000_0000 - 1);
    }
    let reached: u8 = polyveck_chknorm::<P>(r0, params.gamma2 - params.beta);
    reached == 0
}

/// Computes `ct0 = c * t0`. Returns whether no coefficient of it reaches
/// `gamma2`.
fn response_ct0<P: DilithiumParams>(ct0: &mut Polyveck, chat: &Poly, t0hat: &Polyveck) -> (fine:
    bool)
    requires
        old(ct0).mode() == P::mode(),
        t0hat.mode() == P::mode(),
        spec_in_range(chat@, -(CHALLENGE_BOUND as int), CHALLENGE_BOUND as int),
        spec_polyvec_in_range(
            t0hat@,
            -(CHALLENGE_FACTOR_BOUND as int),
            CHALLENGE_FACTOR_BOUND as int,
        ),
    ensures
        final(ct0).mode() == P::mode(),
        final(ct0)@ == spec_response_ct0(chat@, t0hat@),
        fine == !spec_polyvec_norm_reaches(final(ct0)@, P::mode().spec_params().gamma2 as int),
        spec_polyvec_in_range(final(ct0)@, -6283009, 6283008),
{
    let params = P::algorithm().params();
    challenge_times_k::<P>(ct0, chat, t0hat);
    proof {
        lemma_polyvec_widen(ct0@, -4211197, 4211197, -0x8000_0000, 0x7fff_ffff - 0x40_0000);
    }
    polyveck_reduce::<P>(ct0);
    proof {
        lemma_polyvec_widen(ct0@, -6283009, 6283008, -0x4000_0000, 0x4000_0000 - 1);
    }
    let reached: u8 = polyveck_chknorm::<P>(ct0, params.gamma2);
    reached == 0
}

/// Makes the hints from `r0`, `ct0` and `w1`. Returns whether they are no
/// more than `omega`.
fn response_hints<P: DilithiumParams>(
    h: &mut Polyveck,
    r0: &Polyveck,
    ct0: &Polyveck,
    w1: &Polyveck,
) -> (fine: bool)
    requires
        old(h).mode() == P::mode(),
        r0.mode() == P::mode(),
        ct0.mode() == P::mode(),
        w1.mode() == P::mode(),
        spec_polyvec_in_range(r0@, -6283009, 6283008),
        spec_polyvec_in_range(ct0@, -6283009, 6283008),
    ensures
        final(h).mode() == P::mode(),
        final(h)@ == spec_response_hint(P::mode().spec_params().gamma2 as int, r0@, ct0@, w1@),
        fine == (spec_polyvec_sum(final(h)@) <= P::mode().spec_params().omega),
        fine ==> spec_hint_count(final(h)@) <= P::mode().spec_params().omega,
{
    let params = P::algorithm().params();
    let mut sum = P::polyvecknew();
    proof {
        lemma_views_wf(ct0.polys());
        lemma_views_wf(r0.polys());
        lemma_polyvec_widen(ct0@, -6283009, 6283008, -6283009, 6283009);
        lemma_polyvec_widen(r0@, -6283009, 6283008, -6283009, 6283009);
        lemma_polyvec_sums(r0@, ct0@, 6283009, 6283009);
    }
    polyveck_add(&mut sum, r0, ct0);
    let n: i32 = polyveck_make_hint::<P>(h, &sum, w1);
    proof {
        lemma_polyvec_make_hint_range(params.gamma2 as int, sum@, w1@);
        lemma_polyvec_sum_counts(h@, h@.len());
        assert(h@.take(h@.len() as int) =~= h@);
    }
    n <= params.omega as i32
}

/// How an attempt at signing ends.
pub enum Attempt {
    /// The attempt gave this signature.
    Signed(Seq<u8>),
    /// A bound was not kept; the next nonce is to be tried.
    Rejected,
    /// The stream of the challenge ended too early.
    Failed,
}

/// How an attempt at signing ended.
#[derive(Clone, Copy, PartialEq, Eq, Structural, Debug)]
pub enum AttemptOutcome {
    Signed,
    Rejected,
    Failed,
}

/// The attempt at signing with the nonce `nonce`. The matrix `mat` and the
/// vectors `s1hat`, `s2hat`, `t0hat` are those of the secret key, the
/// vectors in their transformed form.
#[verifier::opaque]
pub open spec fn spec_sign_attempt(
    p: ParameterSet,
    mat: Seq<Seq<Seq<int>>>,
    s1hat: Seq<Seq<int>>,
    s2hat: Seq<Seq<int>>,
    t0hat: Seq<Seq<int>>,
    mu: Seq<u8>,
    rhoprime: Seq<u8>,
    nonce: int,
) -> Attempt {
    let y = spec_polyvec_uniform_gamma1(p.gamma1 as int, p.l as int, p.l as int, rhoprime, nonce);
    let w = spec_sign_w(mat, y);
    let w1 = spec_polyvec_decompose_high(p.gamma2 as int, w);
    let w0 = spec_polyvec_decompose_low(p.gamma2 as int, w);
    let ctilde = spec_challenge_seed(p, mu, w1);
    if !spec_challenge_filled(p, ctilde) {
        Attempt::Failed
    } else {
        let chat = spec_ntt(spec_challenge(p, ctilde));
        let z = spec_response_z(chat, s1hat, y);
        let r0 = spec_response_r0(chat, s2hat, w0);
        let ct0 = spec_response_ct0(chat, t0hat);
        let h = spec_response_hint(p.gamma2 as int, r0, ct0, w1);
        if spec_polyvec_norm_reaches(z, p.gamma1 - p.beta) {
            Attempt::Rejected
        } else if spec_polyvec_norm_reaches(r0, p.gamma2 - p.beta) {
            Attempt::Rejected
        } else if spec_polyvec_norm_reaches(ct0, p.gamma2 as int) {
            Attempt::Rejected
        } else if spec_polyvec_sum(h) > p.omega {
            Attempt::Rejected
        } else {
            Attempt::Signed(spec_pack_sig(p, ctilde, z, h))
        }
    }
}

/// An attempt fails where the stream of its challenge is too short.
pub proof fn lemma_attempt_failed(
    p: ParameterSet,
    mat: Seq<Seq<Seq<int>>>,
    s1hat: Seq<Seq<int>>,
    s2hat: Seq<Seq<int>>,
    t0hat: Seq<Seq<int>>,
    mu: Seq<u8>,
    rhoprime: Seq<u8>,
    nonce: int,
    ctilde: Seq<u8>,
)
    requires
        ({
            let y = spec_polyvec_uniform_gamma1(
                p.gamma1 as int,
                p.l as int,
                p.l as int,
                rhoprime,
                nonce,
            );
            let w1 = spec_polyvec_decompose_high(p.gamma2 as int, spec_sign_w(mat, y));
            ctilde == spec_challenge_seed(p, mu, w1)
        }),
        !spec_challenge_filled(p, ctilde),
    ensures
        spec_sign_attempt(p, mat, s1hat, s2hat, t0hat, mu, rhoprime, nonce) == Attempt::Failed,
{
    reveal(spec_sign_attempt);
}

/// What an attempt gives whose challenge could be made, from the vectors
/// that it computes.
pub proof fn lemma_attempt_decided(
    p: ParameterSet,
    mat: Seq<Seq<Seq<int>>>,
    s1hat: Seq<Seq<int>>,
    s2hat: Seq<Seq<int>>,
    t0hat: Seq<Seq<int>>,
    mu: Seq<u8>,
    rhoprime: Seq<u8>,
    nonce: int,
    y: Seq<Seq<int>>,
    w1: Seq<Seq<int>>,
    w0: Seq<Seq<int>>,
    ctilde: Seq<u8>,
    chat: Seq<int>,
)
    requires
        y == spec_polyvec_uniform_gamma1(p.gamma1 as int, p.l as int, p.l as int, rhoprime, nonce),
        w1 == spec_polyvec_decompose_high(p.gamma2 as int, spec_sign_w(mat, y)),
        w0 == spec_polyvec_decompose_low(p.gamma2 as int, spec_sign_w(mat, y)),
        ctilde == spec_challenge_seed(p, mu, w1),
        spec_challenge_filled(p, ctilde),
        chat == spec_ntt(spec_challenge(p, ctilde)),
    ensures
        ({
            let z = spec_response_z(chat, s1hat, y);
            let r0 = spec_response_r0(chat, s2hat, w0);
            let ct0 = spec_response_ct0(chat, t0hat);
            let h = spec_response_hint(p.gamma2 as int, r0, ct0, w1);
            spec_sign_attempt(p, mat, s1hat, s2hat, t0hat, mu, rhoprime, nonce) == (
            if spec_polyvec_norm_reaches(z, p.gamma1 - p.beta) || spec_polyvec_norm_reaches(
                r0,
                p.gamma2 - p.beta,
            ) || spec_polyvec_norm_reaches(ct0, p.gamma2 as int) || spec_polyvec_sum(h) > p.omega {
                Attempt::Rejected
            } else {
                Attempt::Signed(spec_pack_sig(p, ctilde, z, h))
            })
        }),
{
    reveal(spec_sign_attempt);
}

/// Computes the vectors `z` and `h` of a signature from the challenge and
/// the vectors of the attempt. Returns whether every bound is kept; only
/// then `z` and `h` are those of the signature.
fn attempt_responses<P: DilithiumParams>(
    z: &mut Polyvecl,
    h: &mut Polyveck,
    chat: &Poly,
    s1hat: &Polyvecl,
    s2hat: &Polyveck,
    t0hat: &Polyveck,
    y: &Polyvecl,
    w0: &Polyveck,
    w1: &Polyveck,
) -> (fine: bool)
    requires
        old(z).mode() == P::mode(),
        old(h).mode() == P::mode(),
        s1hat.mode() == P::mode(),
        s2hat.mode() == P::mode(),
        t0hat.mode() == P::mode(),
        y.mode() == P::mode(),
        w0.mode() == P::mode(),
        w1.mode() == P::mode(),
        spec_in_range(chat@, -(CHALLENGE_BOUND as int), CHALLENGE_BOUND as int),
        spec_polyvec_in_range(
            s1hat@,
            -(CHALLENGE_FACTOR_BOUND as int),
            CHALLENGE_FACTOR_BOUND as int,
        ),
        spec_polyvec_in_range(
            s2hat@,
            -(CHALLENGE_FACTOR_BOUND as int),
            CHALLENGE_FACTOR_BOUND as int,
        ),
        spec_polyvec_in_range(
            t0hat@,
            -(CHALLENGE_FACTOR_BOUND as int),
            CHALLENGE_FACTOR_BOUND as int,
        ),
        spec_polyvec_in_range(y@, -524288, 524288),
        spec_polyvec_in_range(w0@, -261888, 261888),
    ensures
        final(z).mode() == P::mode(),
        final(h).mode() == P::mode(),
        fine == !(spec_polyvec_norm_reaches(
            spec_response_z(chat@, s1hat@, y@),
            P::mode().spec_params().gamma1 - P::mode().spec_params().beta,
        ) || spec_polyvec_norm_reaches(
            spec_response_r0(chat@, s2hat@, w0@),
            P::mode().spec_params().gamma2 - P::mode().spec_params().beta,
        ) || spec_polyvec_norm_reaches(
            spec_response_ct0(chat@, t0hat@),
            P::mode().spec_params().gamma2 as int,
        ) || spec_polyvec_sum(
            spec_response_hint(
                P::mode().spec_params().gamma2 as int,
                spec_response_r0(chat@, s2hat@, w0@),
                spec_response_ct0(chat@, t0hat@),
                w1@,
            ),
        ) > P::mode().spec_params().omega),
        fine ==> final(z)@ == spec_response_z(chat@, s1hat@, y@),
        fine ==> final(h)@ == spec_response_hint(
            P::mode().spec_params().gamma2 as int,
            spec_response_r0(chat@, s2hat@, w0@),
            spec_response_ct0(chat@, t0hat@),
            w1@,
        ),
        fine ==> crate::packing::spec_z_fits(P::mode().spec_params().gamma1 as int, final(z)@),
        fine ==> spec_hint_count(final(h)@) <= P::mode().spec_params().omega,
{
    let fine_z: bool = response_z::<P>(z, chat, s1hat, y);
    if !fine_z {
        return false;
    }
    let mut r0 = P::polyvecknew();
    let fine_r0: bool = response_r0::<P>(&mut r0, chat, s2hat, w0);
    if !fine_r0 {
        return false;
    }
    let mut ct0 = P::polyvecknew();
    let fine_ct0: bool = response_ct0::<P>(&mut ct0, chat, t0hat);
    if !fine_ct0 {
        return false;
    }
    response_hints::<P>(h, &r0, &ct0, w1)
}

/// Computes the parts of the signature of one attempt. Only where the
/// attempt gives a signature are `ctilde`, `z` and `h` its parts.
fn attempt_vectors<P: DilithiumParams>(
    ctilde: &mut [u8],
    z: &mut Polyvecl,
    h: &mut Polyveck,
    mat: &[Polyvecl],
    s1hat: &Polyvecl,
    s2hat: &Polyveck,
    t0hat: &Polyveck,
    mu: &[u8],
    rhoprime: &[u8],
    nonce: u16,
) -> (r: AttemptOutcome)
    requires
        old(ctilde).len() == 32,
        old(z).mode() == P::mode(),
        old(h).mode() == P::mode(),
        s1hat.mode() == P::mode(),
        s2hat.mode() == P::mode(),
        t0hat.mode() == P::mode(),
        mat@.len() == P::mode().spec_params().k,
        forall|i: int| 0 <= i < mat@.len() ==> (#[trigger] mat@[i]).mode() == P::mode(),
        forall|i: int|
            0 <= i < mat@.len() ==> spec_polyvec_in_range((#[trigger] mat@[i])@, 0, 8380416),
        spec_polyvec_in_range(
            s1hat@,
            -(CHALLENGE_FACTOR_BOUND as int),
            CHALLENGE_FACTOR_BOUND as int,
        ),
        spec_polyvec_in_range(
            s2hat@,
            -(CHALLENGE_FACTOR_BOUND as int),
            CHALLENGE_FACTOR_BOUND as int,
        ),
        spec_polyvec_in_range(
            t0hat@,
            -(CHALLENGE_FACTOR_BOUND as int),
            CHALLENGE_FACTOR_BOUND as int,
        ),
        mu.len() == 64,
        rhoprime.len() == 64,
        P::mode().spec_params().l * (nonce + 1) <= 65536,
    ensures
        final(ctilde).len() == 32,
        final(z).mode() == P::mode(),
        final(h).mode() == P::mode(),
        match spec_sign_attempt(
            P::mode().spec_params(),
            spec_row_views(mat@),
            s1hat@,
            s2hat@,
            t0hat@,
            mu@,
            rhoprime@,
            nonce as int,
        ) {
            Attempt::Signed(s) => r == AttemptOutcome::Signed && s == spec_pack_sig(
                P::mode().spec_params(),
                final(ctilde)@,
                final(z)@,
                final(h)@,
            ) && crate::packing::spec_z_fits(P::mode().spec_params().gamma1 as int, final(z)@)
                && spec_hint_count(final(h)@) <= P::mode().spec_params().omega,
            Attempt::Rejected => r == AttemptOutcome::Rejected,
            Attempt::Failed => r == AttemptOutcome::Failed,
        },
{
    let mut y = P::polyveclnew();
    let mut w1 = P::polyvecknew();
    let mut w0 = P::polyvecknew();
    sign_commit::<P>(&mut y, &mut w1, &mut w0, mat, rhoprime, nonce);
    let mut chat = Poly::default();
    let filled: bool = make_challenge::<P>(ctilde, &mut chat, mu, &w1);
    let ghost p = P::mode().spec_params();
    let ghost rows = spec_row_views(mat@);
    if !filled {
        proof {
            lemma_attempt_failed(
                p,
                rows,
                s1hat@,
                s2hat@,
                t0hat@,
                mu@,
                rhoprime@,
                nonce as int,
                ctilde@,
            );
        }
        return AttemptOutcome::Failed;
    }
    proof {
        lemma_attempt_decided(
            p,
            rows,
            s1hat@,
            s2hat@,
            t0hat@,
            mu@,
            rhoprime@,
            nonce as int,
            y@,
            w1@,
            w0@,
            ctilde@,
            chat@,
        );
    }
    let fine: bool = attempt_responses::<P>(z, h, &chat, s1hat, s2hat, t0hat, &y, &w0, &w1);
    if fine {
        AttemptOutcome::Signed
    } else {
        AttemptOutcome::Rejected
    }
}

/// One attempt at signing. Only where it gives a signature is `sig` written.
fn sign_attempt<P: DilithiumParams>(
    sig: &mut [u8],
    mat: &[Polyvecl],
    s1hat: &Polyvecl,
    s2hat: &Polyveck,
    t0hat: &Polyveck,
    mu: &[u8],
    rhoprime: &[u8],
    nonce: u16,
) -> (r: AttemptOutcome)
    requires
        old(sig).len() == P::mode().spec_params().signbytes,
        s1hat.mode() == P::mode(),
        s2hat.mode() == P::mode(),
        t0hat.mode() == P::mode(),
        mat@.len() == P::mode().spec_params().k,
        forall|i: int| 0 <= i < mat@.len() ==> (#[trigger] mat@[i]).mode() == P::mode(),
        forall|i: int|
            0 <= i < mat@.len() ==> spec_polyvec_in_range((#[trigger] mat@[i])@, 0, 8380416),
        spec_polyvec_in_range(
            s1hat@,
            -(CHALLENGE_FACTOR_BOUND as int),
            CHALLENGE_FACTOR_BOUND as int,
        ),
        spec_polyvec_in_range(
            s2hat@,
            -(CHALLENGE_FACTOR_BOUND as int),
            CHALLENGE_FACTOR_BOUND as int,
        ),
        spec_polyvec_in_range(
            t0hat@,
            -(CHALLENGE_FACTOR_BOUND as int),
            CHALLENGE_FACTOR_BOUND as int,
        ),
        mu.len() == 64,
        rhoprime.len() == 64,
        P::mode().spec_params().l * (nonce + 1) <= 65536,
    ensures
        final(sig).len() == old(sig).len(),
        match spec_sign_attempt(
            P::mode().spec_params(),
            spec_row_views(mat@),
            s1hat@,
            s2hat@,
            t0hat@,
            mu@,
            rhoprime@,
            nonce as int,
        ) {
            Attempt::Signed(s) => r == AttemptOutcome::Signed && final(sig)@ == s,
            Attempt::Rejected => r == AttemptOutcome::Rejected && final(sig)@ == old(sig)@,
            Attempt::Failed => r == AttemptOutcome::Failed && final(sig)@ == old(sig)@,
        },
{
    let mut ctilde: [u8; 32] = [0u8; 32];
    let mut z = P::polyveclnew();
    let mut h = P::polyvecknew();
    let r = attempt_vectors::<P>(
        &mut ctilde,
        &mut z,
        &mut h,
        mat,
        s1hat,
        s2hat,
        t0hat,
        mu,
        rhoprime,
        nonce,
    );
    match r {
        AttemptOutcome::Signed => {
            pack_sig::<P>(sig, Some(&ctilde), &z, &h);
            proof {
                assert(sig@.take(P::mode().spec_params().signbytes as int) =~= sig@);
                assert(ctilde@.take(32) =~= ctilde@);
            }
        },
        _ => {},
    }
    r
}

/// The attempts at signing from the nonce `nonce` on: the first that does not
/// reject decides. No nonce is tried for which the nonces of the polynomials
/// of the masking vector would not fit 16 bits.
#[verifier::opaque]
pub open spec fn spec_sign_loop(
    p: ParameterSet,
    mat: Seq<Seq<Seq<int>>>,
    s1hat: Seq<Seq<int>>,
    s2hat: Seq<Seq<int>>,
    t0hat: Seq<Seq<int>>,
    mu: Seq<u8>,
    rhoprime: Seq<u8>,
    nonce: int,
) -> Result<Seq<u8>, DilithiumError>
    decreases 65536 - nonce,
{
    if nonce < 0 || nonce >= 65536 || p.l * (nonce + 1) > 65536 {
        Err(DilithiumError::SamplingFailed)
    } else {
        match spec_sign_attempt(p, mat, s1hat, s2hat, t0hat, mu, rhoprime, nonce) {
            Attempt::Signed(s) => Ok(s),
            Attempt::Failed => Err(DilithiumError::SamplingFailed),
            Attempt::Rejected => spec_sign_loop(
                p,
                mat,
                s1hat,
                s2hat,
                t0hat,
                mu,
                rhoprime,
                nonce + 1,
            ),
        }
    }
}

/// The signature of the message `m` under the secret key `sk`. Where `rnd`
/// is `None`, signing is deterministic: the seed of the masking vectors is
/// the hash of the key seed and `mu`. Else it is the first 64 bytes of `rnd`.
#[verifier::opaque]
pub open spec fn spec_sign(p: ParameterSet, sk: Seq<u8>, m: Seq<u8>, rnd: Option<Seq<u8>>) -> Result<
    Seq<u8>,
    DilithiumError,
> {
    if sk.len() != p.secret_key_bytes {
        Err(DilithiumError::BadKeyLength)
    } else {
        let rho = sk.subrange(0, 32);
        let key = sk.subrange(32, 64);
        let tr = sk.subrange(64, 96);
        let s1 = spec_unpack_polys_eta(p.eta as int, sk.skip(96), p.l as int);
        let s2 = spec_unpack_polys_eta(
            p.eta as int,
            sk.skip(96 + p.l * p.polyeta_packedbytes),
            p.k as int,
        );
        let t0 = spec_unpack_polys_t0(
            sk.skip(96 + (p.l + p.k) * p.polyeta_packedbytes),
            p.k as int,
        );
        let mu = spec_shake256(tr + m, 64);
        let rhoprime = match rnd {
            Some(r) => r.take(64),
            None => spec_shake256(key + mu, 64),
        };
        if !spec_matrix_filled(p, rho) {
            Err(DilithiumError::SamplingFailed)
        } else {
            spec_sign_loop(
                p,
                spec_matrix(p, rho),
                spec_polyvec_ntt(s1),
                spec_polyvec_ntt(s2),
                spec_polyvec_ntt(t0),
                mu,
                rhoprime,
                0,
            )
        }
    }
}

/// How the attempts from `nonce` on end, from how the attempt `nonce` ends.
pub proof fn lemma_sign_loop_step(
    p: ParameterSet,
    mat: Seq<Seq<Seq<int>>>,
    s1hat: Seq<Seq<int>>,
    s2hat: Seq<Seq<int>>,
    t0hat: Seq<Seq<int>>,
    mu: Seq<u8>,
    rhoprime: Seq<u8>,
    nonce: int,
)
    ensures
        spec_sign_loop(p, mat, s1hat, s2hat, t0hat, mu, rhoprime, nonce) == (if nonce < 0 || nonce
            >= 65536 || p.l * (nonce + 1) > 65536 {
            Err::<Seq<u8>, DilithiumError>(DilithiumError::SamplingFailed)
        } else {
            match spec_sign_attempt(p, mat, s1hat, s2hat, t0hat, mu, rhoprime, nonce) {
                Attempt::Signed(s) => Ok(s),
                Attempt::Failed => Err(DilithiumError::SamplingFailed),
                Attempt::Rejected => spec_sign_loop(
                    p,
                    mat,
                    s1hat,
                    s2hat,
                    t0hat,
                    mu,
                    rhoprime,
                    nonce + 1,
                ),
            }
        }),
{
    reveal(spec_sign_loop);
}

/// A secret key of another length than that of the level signs nothing.
pub proof fn lemma_sign_bad_key(p: ParameterSet, sk: Seq<u8>, m: Seq<u8>, rnd: Option<Seq<u8>>)
    requires
        sk.len() != p.secret_key_bytes,
    ensures
        spec_sign(p, sk, m, rnd) == Err::<Seq<u8>, DilithiumError>(DilithiumError::BadKeyLength),
{
    reveal(spec_sign);
}

/// What signing gives, from the parts of the secret key.
pub proof fn lemma_sign_unfold(
    p: ParameterSet,
    sk: Seq<u8>,
    m: Seq<u8>,
    rnd: Option<Seq<u8>>,
    mu: Seq<u8>,
    rhoprime: Seq<u8>,
    s1: Seq<Seq<int>>,
    s2: Seq<Seq<int>>,
    t0: Seq<Seq<int>>,
)
    requires
        sk.len() == p.secret_key_bytes,
        s1 == spec_unpack_polys_eta(p.eta as int, sk.skip(96), p.l as int),
        s2 == spec_unpack_polys_eta(
            p.eta as int,
            sk.skip(96 + p.l * p.polyeta_packedbytes),
            p.k as int,
        ),
        t0 == spec_unpack_polys_t0(sk.skip(96 + (p.l + p.k) * p.polyeta_packedbytes), p.k as int),
        mu == spec_shake256(sk.subrange(64, 96) + m, 64),
        rhoprime == (match rnd {
            Some(r) => r.take(64),
            None => spec_shake256(sk.subrange(32, 64) + mu, 64),
        }),
    ensures
        spec_sign(p, sk, m, rnd) == (if !spec_matrix_filled(p, sk.subrange(0, 32)) {
            Err::<Seq<u8>, DilithiumError>(DilithiumError::SamplingFailed)
        } else {
            spec_sign_loop(
                p,
                spec_matrix(p, sk.subrange(0, 32)),
                spec_polyvec_ntt(s1),
                spec_polyvec_ntt(s2),
                spec_polyvec_ntt(t0),
                mu,
                rhoprime,
                0,
            )
        }),
{
    reveal(spec_sign);
}

/// Transforms the vectors of the secret key.
fn sign_transform<P: DilithiumParams>(s1: &mut Polyvecl, s2: &mut Polyveck, t0: &mut Polyveck)
    requires
        old(s1).mode() == P::mode(),
        old(s2).mode() == P::mode(),
        old(t0).mode() == P::mode(),
        spec_polyvec_in_range(old(s1)@, -11, 4),
        spec_polyvec_in_range(old(s2)@, -11, 4),
        spec_polyvec_in_range(old(t0)@, -4095, 4096),
    ensures
        final(s1).mode() == P::mode(),
        final(s2).mode() == P::mode(),
        final(t0).mode() == P::mode(),
        final(s1)@ == spec_polyvec_ntt(old(s1)@),
        final(s2)@ == spec_polyvec_ntt(old(s2)@),
        final(t0)@ == spec_polyvec_ntt(old(t0)@),
        spec_polyvec_in_range(
            final(s1)@,
            -(CHALLENGE_FACTOR_BOUND as int),
            CHALLENGE_FACTOR_BOUND as int,
        ),
        spec_polyvec_in_range(
            final(s2)@,
            -(CHALLENGE_FACTOR_BOUND as int),
            CHALLENGE_FACTOR_BOUND as int,
        ),
        spec_polyvec_in_range(
            final(t0)@,
            -(CHALLENGE_FACTOR_BOUND as int),
            CHALLENGE_FACTOR_BOUND as int,
        ),
{
    let ghost bound = crate::ntt::NTT_INPUT_BOUND as int;
    proof {
        lemma_views_wf(s1.polys());
        lemma_views_wf(s2.polys());
        lemma_views_wf(t0.polys());
        lemma_polyvec_widen(s1@, -11, 4, -4096, 4096);
        lemma_polyvec_widen(s2@, -11, 4, -4096, 4096);
        lemma_polyvec_widen(t0@, -4095, 4096, -4096, 4096);
        lemma_polyvec_widen(s1@, -11, 4, -bound, bound);
        lemma_polyvec_widen(s2@, -11, 4, -bound, bound);
        lemma_polyvec_widen(t0@, -4095, 4096, -bound, bound);
        lemma_polyvec_ntt_range(s1@, 4096);
        lemma_polyvec_ntt_range(s2@, 4096);
        lemma_polyvec_ntt_range(t0@, 4096);
    }
    polyvecl_ntt::<P>(s1);
    polyveck_ntt::<P>(s2);
    polyveck_ntt::<P>(t0);
}


/// Tries the nonces in their order until an attempt gives a signature or
/// fails, or the nonces are used up.
fn sign_loop<P: DilithiumParams>(
    sig: &mut [u8],
    mat: &[Polyvecl],
    s1hat: &Polyvecl,
    s2hat: &Polyveck,
    t0hat: &Polyveck,
    mu: &[u8],
    rhoprime: &[u8],
) -> (r: Result<(), DilithiumError>)
    requires
        old(sig).len() == P::mode().spec_params().signbytes,
        s1hat.mode() == P::mode(),
        s2hat.mode() == P::mode(),
        t0hat.mode() == P::mode(),
        mat@.len() == P::mode().spec_params().k,
        forall|i: int| 0 <= i < mat@.len() ==> (#[trigger] mat@[i]).mode() == P::mode(),
        forall|i: int|
            0 <= i < mat@.len() ==> spec_polyvec_in_range((#[trigger] mat@[i])@, 0, 8380416),
        spec_polyvec_in_range(
            s1hat@,
            -(CHALLENGE_FACTOR_BOUND as int),
            CHALLENGE_FACTOR_BOUND as int,
        ),
        spec_polyvec_in_range(
            s2hat@,
            -(CHALLENGE_FACTOR_BOUND as int),
            CHALLENGE_FACTOR_BOUND as int,
        ),
        spec_polyvec_in_range(
            t0hat@,
            -(CHALLENGE_FACTOR_BOUND as int),
            CHALLENGE_FACTOR_BOUND as int,
        ),
        mu.len() == 64,
        rhoprime.len() == 64,
    ensures
        final(sig).len() == old(sig).len(),
        match spec_sign_loop(
            P::mode().spec_params(),
            spec_row_views(mat@),
            s1hat@,
            s2hat@,
            t0hat@,
            mu@,
            rhoprime@,
            0,
        ) {
            Ok(s) => r == Ok::<(), DilithiumError>(()) && final(sig)@ == s,
            Err(e) => r == Err::<(), DilithiumError>(e) && final(sig)@ == old(sig)@,
        },
{
    let l: usize = P::algorithm().params().l;
    let ghost p = P::mode().spec_params();
    let ghost rows = spec_row_views(mat@);
    proof {
        lemma_params_derived(P::mode());
    }
    let limit: usize = 65536 / l;
    let mut nonce: u16 = 0;
    while (nonce as usize) < limit
        invariant
            limit == 65536int / (l as int),
            sig.len() == p.signbytes,
            p == P::mode().spec_params(),
            l == p.l,
            4 <= l <= 7,
            sig@ == old(sig)@,
            s1hat.mode() == P::mode(),
            s2hat.mode() == P::mode(),
            t0hat.mode() == P::mode(),
            mat@.len() == p.k,
            rows == spec_row_views(mat@),
            forall|i: int| 0 <= i < mat@.len() ==> (#[trigger] mat@[i]).mode() == P::mode(),
            forall|i: int|
                0 <= i < mat@.len() ==> spec_polyvec_in_range((#[trigger] mat@[i])@, 0, 8380416),
            spec_polyvec_in_range(
                s1hat@,
                -(CHALLENGE_FACTOR_BOUND as int),
                CHALLENGE_FACTOR_BOUND as int,
            ),
            spec_polyvec_in_range(
                s2hat@,
                -(CHALLENGE_FACTOR_BOUND as int),
                CHALLENGE_FACTOR_BOUND as int,
            ),
            spec_polyvec_in_range(
                t0hat@,
                -(CHALLENGE_FACTOR_BOUND as int),
                CHALLENGE_FACTOR_BOUND as int,
            ),
            mu.len() == 64,
            rhoprime.len() == 64,
            spec_sign_loop(p, rows, s1hat@, s2hat@, t0hat@, mu@, rhoprime@, 0) == spec_sign_loop(
                p,
                rows,
                s1hat@,
                s2hat@,
                t0hat@,
                mu@,
                rhoprime@,
                nonce as int,
            ),
        decreases 65536 - nonce,
    {
        proof {
            lemma_sign_loop_step(p, rows, s1hat@, s2hat@, t0hat@, mu@, rhoprime@, nonce as int);
            lemma_nonce_limit(l as int, nonce as int);
        }
        match sign_attempt::<P>(sig, mat, s1hat, s2hat, t0hat, mu, rhoprime, nonce) {
            AttemptOutcome::Signed => {
                return Ok(());
            },
            AttemptOutcome::Failed => {
                return Err(DilithiumError::SamplingFailed);
            },
            AttemptOutcome::Rejected => {},
        }
        nonce += 1;
    }
    proof {
        lemma_sign_loop_step(p, rows, s1hat@, s2hat@, t0hat@, mu@, rhoprime@, nonce as int);
        lemma_nonce_limit(l as int, nonce as int);
    }
    Err(DilithiumError::SamplingFailed)
}

/// The nonces that can be tried are those below `65536 / l`.
proof fn lemma_nonce_limit(l: int, nonce: int)
    requires
        4 <= l <= 7,
        0 <= nonce,
    ensures
        nonce < 65536int / l <==> l * (nonce + 1) <= 65536,
        65536int / l <= 16384,
{
    if l == 4 {
        assert(l * (nonce + 1) == 4 * (nonce + 1));
    } else if l == 5 {
        assert(l * (nonce + 1) == 5 * (nonce + 1));
    } else if l == 6 {
        assert(l * (nonce + 1) == 6 * (nonce + 1));
    } else {
        assert(l * (nonce + 1) == 7 * (nonce + 1));
    }
}

/// Signs the message `m` with the secret key `sk` and writes the signature to
/// `sig`. Where `rnd` is `None`, signing is deterministic; else the first 64
/// bytes of `rnd` take the place of the seed of the masking vectors. A key of
/// another length than that of the level is refused. Where an error is
/// returned, `sig` stays as it is.
pub fn crypto_sign_signature<P: DilithiumParams>(
    sig: &mut [u8],
    m: &[u8],
    sk: &[u8],
    rnd: Option<&[u8]>,
) -> (r: Result<(), DilithiumError>)
    requires
        old(sig).len() == P::mode().spec_params().signbytes,
        rnd matches Some(bytes) ==> bytes.len() >= 64,
    ensures
        final(sig).len() == old(sig).len(),
        match spec_sign(
            P::mode().spec_params(),
            sk@,
            m@,
            match rnd {
                Some(bytes) => Some(bytes@),
                None => None,
            },
        ) {
            Ok(s) => r == Ok::<(), DilithiumError>(()) && final(sig)@ == s,
            Err(e) => r == Err::<(), DilithiumError>(e) && final(sig)@ == old(sig)@,
        },
{
    let mut rho: [u8; 32] = [0u8; 32];
    let mut tr: [u8; 32] = [0u8; 32];
    let mut key: [u8; 32] = [0u8; 32];
    let mut s1 = P::polyveclnew();
    let mut s2 = P::polyvecknew();
    let mut t0 = P::polyvecknew();
    let ghost p = P::mode().spec_params();
    let ghost rnd_bytes = match rnd {
        Some(bytes) => Some(bytes@),
        None => None,
    };
    match unpack_sk::<P>(&mut rho, &mut tr, &mut key, &mut t0, &mut s1, &mut s2, sk) {
        Err(e) => {
            proof {
                lemma_sign_bad_key(p, sk@, m@, rnd_bytes);
            }
            return Err(e);
        },
        Ok(_) => {},
    }
    let mut mu: [u8; 64] = [0u8; 64];
    let mut rhoprime: [u8; 64] = [0u8; 64];
    sign_seeds(&mut mu, &mut rhoprime, &tr, &key, m, rnd);
    proof {
        assert(rho@ =~= sk@.subrange(0, 32));
        assert(key@ =~= sk@.subrange(32, 64));
        assert(tr@ =~= sk@.subrange(64, 96));
        lemma_sign_unfold(p, sk@, m@, rnd_bytes, mu@, rhoprime@, s1@, s2@, t0@);
    }
    let mut mat_data = P::mat();
    let filled: bool = polyvec_matrix_expand::<P>(mat_from(&mut mat_data), &rho);
    if !filled {
        return Err(DilithiumError::SamplingFailed);
    }
    sign_transform::<P>(&mut s1, &mut s2, &mut t0);
    let mat = mat_rows(&mat_data);
    assert(spec_row_views(mat@) == spec_matrix(p, rho@));
    sign_loop::<P>(sig, mat, &s1, &s2, &t0, &mu, &rhoprime)
}

/// Computes `mu`, the hash of `tr` and the message, and the seed of the
/// masking vectors: the first 64 bytes of `rnd`, or where `rnd` is `None` the
/// hash of `key` and `mu`.
fn sign_seeds(
    mu: &mut [u8],
    rhoprime: &mut [u8],
    tr: &[u8],
    key: &[u8],
    m: &[u8],
    rnd: Option<&[u8]>,
)
    requires
        old(mu).len() == 64,
        old(rhoprime).len() == 64,
        tr.len() == 32,
        key.len() == 32,
        rnd matches Some(bytes) ==> bytes.len() >= 64,
    ensures
        final(mu).len() == 64,
        final(rhoprime).len() == 64,
        final(mu)@ == spec_shake256(tr@ + m@, 64),
        final(rhoprime)@ == (match rnd {
            Some(bytes) => bytes@.take(64),
            None => spec_shake256(key@ + final(mu)@, 64),
        }),
{
    shake256_two(mu, 64, tr, 32, m, m.len());
    proof {
        assert(tr@.take(32) =~= tr@);
        assert(m@.take(m@.len() as int) =~= m@);
        assert(mu@.take(64) =~= mu@);
    }
    match rnd {
        Some(bytes) => {
            write_bytes(rhoprime, 0, bytes, 64);
            proof {
                assert(rhoprime@ =~= bytes@.take(64));
            }
        },
        None => {
            shake256_two(rhoprime, 64, key, 32, mu, 64);
            proof {
                assert(key@.take(32) =~= key@);
                assert(rhoprime@.take(64) =~= rhoprime@);
            }
        },
    }
}

/// Whether two byte strings are the same.
pub fn bytes_equal(a: &[u8], b: &[u8]) -> (r: bool)
    ensures
        r == (a@ == b@),
{
    if a.len() != b.len() {
        return false;
    }
    let mut i: usize = 0;
    while i < a.len()
        invariant
            i <= a.len(),
            a.len() == b.len(),
            forall|j: int| 0 <= j < i ==> a@[j] == b@[j],
        decreases a.len() - i,
    {
        if a[i] != b[i] {
            return false;
        }
        i += 1;
    }
    assert(a@ =~= b@);
    true
}

/// The high parts that the verifier computes from the parts of the key and
/// of the signature: those of `A * z - c * t1 * 2^13`, corrected by the hints.
pub open spec fn spec_verify_w1(
    p: ParameterSet,
    mat: Seq<Seq<Seq<int>>>,
    z: Seq<Seq<int>>,
    chat: Seq<int>,
    t1: Seq<Seq<int>>,
    h: Seq<Seq<int>>,
) -> Seq<Seq<int>> {
    let az = spec_matrix_pointwise(mat, spec_polyvec_ntt(z));
    let ct1 = spec_polyvec_pointwise_poly(chat, spec_polyvec_ntt(spec_polyvec_shiftl(t1)));
    spec_polyvec_use_hint(
        p.gamma2 as int,
        spec_polyvec_caddq(
            spec_polyvec_invntt_tomont(spec_polyvec_reduce(spec_polyvec_sub(az, ct1))),
        ),
        h,
    )
}

/// Whether the unpacked parts of a key and of a signature fit each other:
/// the vector `z` must be short, and the challenge seed of the signature must
/// be the hash of `mu` and the high parts that are computed. Where a stream
/// ends before the challenge or the matrix is sampled, no challenge seed can
/// be computed, and the parts are refused as if it differed.
pub open spec fn spec_verify_unpacked(
    p: ParameterSet,
    rho: Seq<u8>,
    t1: Seq<Seq<int>>,
    mu: Seq<u8>,
    c: Seq<u8>,
    z: Seq<Seq<int>>,
    h: Seq<Seq<int>>,
) -> Result<(), DilithiumError> {
    if spec_polyvec_norm_reaches(z, p.gamma1 - p.beta) {
        Err(DilithiumError::NormViolation)
    } else if !spec_challenge_filled(p, c) || !spec_matrix_filled(p, rho) {
        Err(DilithiumError::ChallengeMismatch)
    } else if spec_challenge_seed(
        p,
        mu,
        spec_verify_w1(p, spec_matrix(p, rho), z, spec_ntt(spec_challenge(p, c)), t1, h),
    ) == c {
        Ok(())
    } else {
        Err(DilithiumError::ChallengeMismatch)
    }
}

/// Whether `sig` is a signature of the message `m` under the public key `pk`,
/// and if not, why.
#[verifier::opaque]
pub open spec fn spec_verify(p: ParameterSet, pk: Seq<u8>, m: Seq<u8>, sig: Seq<u8>) -> Result<
    (),
    DilithiumError,
> {
    if sig.len() != p.signbytes {
        Err(DilithiumError::BadSignatureLength)
    } else if pk.len() != p.public_key_bytes {
        Err(DilithiumError::BadKeyLength)
    } else {
        match spec_decode_hint_error(spec_sig_hint_bytes(p, sig), p.omega as int, p.k as nat) {
            Some(e) => Err(e),
            None => spec_verify_unpacked(
                p,
                pk.take(32),
                spec_unpack_polys_t1(pk.skip(32), p.k as int),
                spec_shake256(spec_shake256(pk, 32) + m, 64),
                sig.take(32),
                spec_unpack_polys_z(p.gamma1 as int, sig.skip(32), p.l as int),
                spec_decode_hint(spec_sig_hint_bytes(p, sig), p.omega as int, p.k as int),
            ),
        }
    }
}

/// `az` becomes the product of the matrix with the transform of `z`.
fn verify_az<P: DilithiumParams>(az: &mut Polyveck, mat: &[Polyvecl], z: &Polyvecl)
    requires
        old(az).mode() == P::mode(),
        z.mode() == P::mode(),
        mat@.len() == P::mode().spec_params().k,
        forall|i: int| 0 <= i < mat@.len() ==> (#[trigger] mat@[i]).mode() == P::mode(),
        forall|i: int|
            0 <= i < mat@.len() ==> spec_polyvec_in_range((#[trigger] mat@[i])@, 0, 8380416),
        spec_polyvec_in_range(z@, -524288, 524288),
    ensures
        final(az).mode() == P::mode(),
        final(az)@ == spec_matrix_pointwise(spec_row_views(mat@), spec_polyvec_ntt(z@)),
        spec_polyvec_in_range(final(az)@, -58662912, 58662912),
{
    let mut zhat = *z;
    proof {
        lemma_params_derived(P::mode());
        lemma_views_wf(z.polys());
        lemma_polyvec_widen(
            z@,
            -524288,
            524288,
            -(crate::ntt::NTT_INPUT_BOUND as int),
            crate::ntt::NTT_INPUT_BOUND as int,
        );
    }
    polyvecl_ntt::<P>(&mut zhat);
    proof {
        lemma_polyvec_ntt_range(z@, 524288);
        lemma_views_wf(zhat.polys());
        assert forall|i: int| 0 <= i < mat@.len() implies spec_polyvec_pairs_fit(
            (#[trigger] mat@[i])@,
            zhat@,
        ) by {
            lemma_views_wf(mat@[i].polys());
            lemma_polyvec_widen(mat@[i]@, 0, 8380416, -8380416, 8380416);
            assert(mat@[i].mode() == zhat.mode());
            lemma_polyvec_pairs_fit(mat@[i]@, zhat@, 8380416, 67567624);
        }
    }
    polyvec_matrix_pointwise_montgomery::<P>(az, mat, &zhat);
    proof {
        lemma_polyvec_widen(
            az@,
            -8380416 * (zhat@.len() as int),
            8380416 * (zhat@.len() as int),
            -58662912,
            58662912,
        );
    }
}

/// `ct1` becomes the product, in the transformed domain, of the challenge
/// with `t1 * 2^13`.
fn verify_ct1<P: DilithiumParams>(ct1: &mut Polyveck, chat: &Poly, t1: &Polyveck)
    requires
        old(ct1).mode() == P::mode(),
        t1.mode() == P::mode(),
        spec_in_range(chat@, -(CHALLENGE_BOUND as int), CHALLENGE_BOUND as int),
        spec_polyvec_in_range(t1@, 0, 1023),
    ensures
        final(ct1).mode() == P::mode(),
        final(ct1)@ == spec_polyvec_pointwise_poly(
            chat@,
            spec_polyvec_ntt(spec_polyvec_shiftl(t1@)),
        ),
        spec_polyvec_in_range(final(ct1)@, -8380416, 8380416),
{
    let mut shifted = *t1;
    proof {
        lemma_views_wf(t1.polys());
        lemma_polyvec_widen(t1@, 0, 1023, -0x4_0000, 0x4_0000 - 1);
        lemma_polyvec_shiftl_range(t1@);
    }
    polyveck_shiftl(&mut shifted);
    proof {
        lemma_views_wf(shifted.polys());
        lemma_polyvec_widen(shifted@, 0, 8380416, -8380416, 8380416);
        lemma_polyvec_widen(
            shifted@,
            0,
            8380416,
            -(crate::ntt::NTT_INPUT_BOUND as int),
            crate::ntt::NTT_INPUT_BOUND as int,
        );
        lemma_polyvec_ntt_range(shifted@, 8380416);
    }
    polyveck_ntt::<P>(&mut shifted);
    proof {
        lemma_views_wf(shifted.polys());
        assert(67043337 * 75423752 < 0x8000_0000 * 8380417);
        lemma_polyvec_products_fit(chat@, shifted@, 67043337, 75423752);
    }
    polyveck_pointwise_poly_montgomery::<P>(ct1, chat, &shifted);
}

/// `w1` becomes the high parts of `az - ct1`, taken back from the transformed
/// domain and corrected by the hints `h`.
fn verify_w1<P: DilithiumParams>(w1: &mut Polyveck, az: &Polyveck, ct1: &Polyveck, h: &Polyveck)
    requires
        old(w1).mode() == P::mode(),
        az.mode() == P::mode(),
        ct1.mode() == P::mode(),
        h.mode() == P::mode(),
        spec_polyvec_in_range(az@, -58662912, 58662912),
        spec_polyvec_in_range(ct1@, -8380416, 8380416),
    ensures
        final(w1).mode() == P::mode(),
        final(w1)@ == spec_polyvec_use_hint(
            P::mode().spec_params().gamma2 as int,
            spec_polyvec_caddq(
                spec_polyvec_invntt_tomont(spec_polyvec_reduce(spec_polyvec_sub(az@, ct1@))),
            ),
            h@,
        ),
        spec_polyvec_in_range(
            final(w1)@,
            0,
            spec_high_parts(P::mode().spec_params().gamma2 as int) - 1,
        ),
{
    proof {
        lemma_views_wf(az.polys());
        lemma_views_wf(ct1.polys());
        lemma_polyvec_sums(az@, ct1@, 58662912, 8380416);
    }
    polyveck_sub(w1, az, ct1);
    proof {
        lemma_polyvec_widen(w1@, -67043328, 67043328, -0x8000_0000, 0x7fff_ffff - 0x40_0000);
    }
    polyveck_reduce::<P>(w1);
    proof {
        lemma_polyvec_widen(w1@, -6283009, 6283008, -8388607, 8388607);
    }
    polyveck_invntt_tomont::<P>(w1);
    proof {
        lemma_views_wf(w1.polys());
        lemma_polyvec_widen(w1@, -4211197, 4211197, -8380416, 8380416);
        lemma_polyvec_caddq_range(w1@);
    }
    polyveck_caddq::<P>(w1);
    let w = *w1;
    polyveck_use_hint::<P>(w1, &w, h);
}

/// Checks the unpacked parts of a key and of a signature against each other.
fn verify_unpacked<P: DilithiumParams>(
    rho: &[u8],
    t1: &Polyveck,
    mu: &[u8],
    c: &[u8],
    z: &Polyvecl,
    h: &Polyveck,
) -> (r: Result<(), DilithiumError>)
    requires
        c.len() == 32,
        mu.len() == 64,
        t1.mode() == P::mode(),
        z.mode() == P::mode(),
        h.mode() == P::mode(),
        spec_polyvec_in_range(t1@, 0, 1023),
        spec_polyvec_in_range(z@, -524288, 524288),
    ensures
        r == spec_verify_unpacked(P::mode().spec_params(), rho@, t1@, mu@, c@, z@, h@),
{
    let params = P::algorithm().params();
    proof {
        lemma_polyvec_widen(z@, -524288, 524288, -0x4000_0000, 0x4000_0000 - 1);
    }
    if polyvecl_chknorm::<P>(z, params.gamma1 - params.beta) > 0 {
        return Err(DilithiumError::NormViolation);
    }
    let mut chat = Poly::default();
    let filled_c: bool = poly_challenge::<P>(&mut chat, c);
    let mut mat_data = P::mat();
    let filled_mat: bool = polyvec_matrix_expand::<P>(mat_from(&mut mat_data), rho);
    proof {
        assert(c@.take(32) =~= c@);
    }
    if !filled_c || !filled_mat {
        return Err(DilithiumError::ChallengeMismatch);
    }
    proof {
        lemma_ntt_bound(chat@, 1);
    }
    poly_ntt::<P>(&mut chat);
    let mat = mat_rows(&mat_data);
    assert(spec_row_views(mat@) == spec_matrix(P::mode().spec_params(), rho@));
    let mut az = P::polyvecknew();
    verify_az::<P>(&mut az, mat, z);
    let mut ct1 = P::polyvecknew();
    verify_ct1::<P>(&mut ct1, &chat, t1);
    let mut w1 = P::polyvecknew();
    verify_w1::<P>(&mut w1, &az, &ct1, h);
    let mut c2: [u8; 32] = [0u8; 32];
    challenge_seed::<P>(&mut c2, mu, &w1);
    if bytes_equal(c, &c2) {
        Ok(())
    } else {
        Err(DilithiumError::ChallengeMismatch)
    }
}

/// A signature of another length than that of the level is refused.
pub proof fn lemma_verify_bad_signature(p: ParameterSet, pk: Seq<u8>, m: Seq<u8>, sig: Seq<u8>)
    requires
        sig.len() != p.signbytes,
    ensures
        spec_verify(p, pk, m, sig) == Err::<(), DilithiumError>(
            DilithiumError::BadSignatureLength,
        ),
{
    reveal(spec_verify);
}

/// A public key of another length than that of the level is refused.
pub proof fn lemma_verify_bad_key(p: ParameterSet, pk: Seq<u8>, m: Seq<u8>, sig: Seq<u8>)
    requires
        sig.len() == p.signbytes,
        pk.len() != p.public_key_bytes,
    ensures
        spec_verify(p, pk, m, sig) == Err::<(), DilithiumError>(DilithiumError::BadKeyLength),
{
    reveal(spec_verify);
}

/// What verification gives for a key and a signature of the right lengths.
pub proof fn lemma_verify_unfold(p: ParameterSet, pk: Seq<u8>, m: Seq<u8>, sig: Seq<u8>)
    requires
        sig.len() == p.signbytes,
        pk.len() == p.public_key_bytes,
    ensures
        spec_verify(p, pk, m, sig) == (match spec_decode_hint_error(
            spec_sig_hint_bytes(p, sig),
            p.omega as int,
            p.k as nat,
        ) {
            Some(e) => Err::<(), DilithiumError>(e),
            None => spec_verify_unpacked(
                p,
                pk.take(32),
                spec_unpack_polys_t1(pk.skip(32), p.k as int),
                spec_shake256(spec_shake256(pk, 32) + m, 64),
                sig.take(32),
                spec_unpack_polys_z(p.gamma1 as int, sig.skip(32), p.l as int),
                spec_decode_hint(spec_sig_hint_bytes(p, sig), p.omega as int, p.k as int),
            ),
        }),
{
    reveal(spec_verify);
}

/// Checks whether `sig` is a signature of the message `m` under the public
/// key `pk`.
pub fn crypto_sign_verify<P: DilithiumParams>(sig: &[u8], m: &[u8], pk: &[u8]) -> (r: Result<
    (),
    DilithiumError,
>)
    ensures
        r == spec_verify(P::mode().spec_params(), pk@, m@, sig@),
{
    let params = P::algorithm().params();
    let ghost p = P::mode().spec_params();
    if sig.len() != params.signbytes {
        proof {
            lemma_verify_bad_signature(p, pk@, m@, sig@);
        }
        return Err(DilithiumError::BadSignatureLength);
    }
    let mut rho: [u8; 32] = [0u8; 32];
    let mut t1 = P::polyvecknew();
    match unpack_pk::<P>(&mut rho, &mut t1, pk) {
        Err(e) => {
            proof {
                lemma_verify_bad_key(p, pk@, m@, sig@);
            }
            return Err(e);
        },
        Ok(_) => {},
    }
    proof {
        lemma_verify_unfold(p, pk@, m@, sig@);
    }
    let mut c: [u8; 32] = [0u8; 32];
    let mut z = P::polyveclnew();
    let mut h = P::polyvecknew();
    match unpack_sig::<P>(&mut c, &mut z, &mut h, sig) {
        Err(e) => {
            return Err(e);
        },
        Ok(_) => {},
    }
    let mut mu: [u8; 64] = [0u8; 64];
    verify_mu(&mut mu, pk, m);
    proof {
        assert(rho@ =~= pk@.take(32));
        assert(c@ =~= sig@.take(32));
        lemma_polyvec_widen(
            z@,
            -(params.gamma1 as int) + 1,
            params.gamma1 as int,
            -524288,
            524288,
        );
    }
    verify_unpacked::<P>(&rho, &t1, &mu, &c, &z, &h)
}

/// Computes `mu`, the hash of the hash of the public key and the message.
fn verify_mu(mu: &mut [u8], pk: &[u8], m: &[u8])
    requires
        old(mu).len() == 64,
    ensures
        final(mu).len() == 64,
        final(mu)@ == spec_shake256(spec_shake256(pk@, 32) + m@, 64),
{
    let mut tr: [u8; 32] = [0u8; 32];
    shake256(&mut tr, pk, 32, pk.len());
    shake256_two(mu, 64, &tr, 32, m, m.len());
    proof {
        assert(pk@.take(pk@.len() as int) =~= pk@);
        assert(tr@.take(32) =~= tr@);
        assert(m@.take(m@.len() as int) =~= m@);
        assert(mu@.take(64) =~= mu@);
    }
}

} // verus!
