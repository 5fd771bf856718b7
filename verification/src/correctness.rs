use vstd::prelude::*;
use crate::ntt::{
    lemma_ntt_bound, lemma_zetas_bounded, spec_invntt_layer, spec_invntt_scale,
    spec_invntt_tomont, spec_ntt, ZETAS,
};
use crate::ntt_laws::{
    lemma_congruent_from_multiple, lemma_congruent_linear, lemma_congruent_multiple,
    lemma_invntt_linear, lemma_invntt_of_ntt, lemma_montgomery_congruent,
    lemma_montgomery_linear, lemma_ntt_linear, lemma_ntt_of_invntt, spec_combination,
    spec_congruent, spec_layer, spec_scaled,
};
use crate::poly::{
    spec_in_range, spec_poly_add, spec_poly_caddq, spec_poly_pointwise_montgomery,
    spec_poly_reduce, spec_poly_sub, spec_poly_zero,
};
use crate::objects::Algorithm;
use crate::params::{spec_mat_zero, spec_polyvec_zero, ParameterSet};
use crate::poly::{
    spec_norm_reaches, spec_poly_decompose_high, spec_poly_decompose_low, spec_poly_make_hint,
    spec_poly_shiftl, spec_poly_use_hint,
};
use crate::polyvec::{
    spec_matrix_entry_filled, spec_matrix_filled_to, spec_polyvec_uniform_eta,
    spec_polyvec_uniform_eta_filled, spec_polyvec_uniform_gamma1,
    spec_matrix_pointwise, spec_pointwise_acc, spec_polyvec_add, spec_polyvec_caddq,
    spec_polyvec_decompose_high, spec_polyvec_decompose_low, spec_polyvec_norm_reaches,
    spec_polyvec_ntt, spec_polyvec_power2round_high, spec_polyvec_power2round_low,
};
use crate::rounding::{
    lemma_decompose_recomposes, lemma_decompose_unique, lemma_use_hint_recovers_high,
    spec_decompose, spec_high_parts, spec_make_hint, spec_use_hint,
};
use crate::sampling::{
    lemma_challenge_range, lemma_rej_eta_concat, lemma_rej_uniform_concat, spec_eta_stream,
    spec_poly_uniform_gamma1, spec_rej_eta, spec_rej_uniform, spec_sampled_poly,
    spec_uniform_stream,
};
use crate::fips202::spec_shake256;
use crate::objects::DilithiumError;
use crate::packing::{
    lemma_unpack_pack_pk, lemma_unpack_pack_sig, lemma_unpack_pack_sk, spec_decode_hint,
    spec_decode_hint_error, spec_eta_fits, spec_hint_count, spec_pack_pk, spec_pack_sig,
    spec_sig_hint_bytes, spec_t0_fits, spec_t1_fits, spec_unpack_polys_eta,
    spec_unpack_polys_t0, spec_unpack_polys_t1, spec_unpack_polys_z, spec_z_fits,
};
use crate::params::lemma_params_derived;
use crate::polyvec::{
    lemma_polyvec_make_hint_range, lemma_polyvec_norm_below, lemma_polyvec_sum_counts,
    spec_polyvec_in_range, spec_polyvec_sum,
};
use crate::sign::{
    lemma_sign_loop_step, lemma_sign_unfold, lemma_verify_bad_key, lemma_verify_bad_signature,
    lemma_verify_unfold, lemma_z_fits, spec_challenge, spec_challenge_filled,
    spec_challenge_seed, spec_keygen, spec_keygen_filled, spec_keygen_s1, spec_keygen_s2,
    spec_keygen_t, spec_matrix, spec_matrix_filled, spec_matrix_times, spec_response_ct0,
    spec_response_hint, spec_response_r0, spec_response_z, spec_secret_key, spec_sign,
    spec_sign_attempt, spec_sign_loop, spec_sign_w, spec_times_challenge, spec_verify,
    spec_verify_unpacked, spec_verify_w1, spec_zero_bytes, Attempt,
};
use crate::reduce::{
    lemma_montgomery_exact, lemma_montgomery_range, spec_bounded, spec_caddq,
    spec_montgomery_reduce, spec_reduce32,
};

verus! {

/// `reduce32` leaves the residue modulo `Q` as it is.
pub proof fn lemma_reduce32_congruent(a: int)
    ensures
        spec_congruent(spec_reduce32(a), a),
        -0x8000_0000 <= a <= 0x7fff_ffff - 0x40_0000 ==> -6283009 <= spec_reduce32(a) <= 6283008,
{
    let t = (a + 0x40_0000) / 0x80_0000;
    lemma_congruent_from_multiple(spec_reduce32(a), a, -t);
}

/// The transforms can follow each other with a reduction between them. For
/// a polynomial within `2^31 - 1 - 2^22 - 8 * Q` the forward transform can be
/// reduced, the reduced transform is within the limit of the inverse
/// transform, and its inverse transform is the polynomial times `2^32`
/// modulo `Q`, coefficient by coefficient.
pub proof fn lemma_invntt_of_reduced_ntt(p: Seq<int>)
    requires
        p.len() == 256,
        spec_bounded(p, 2076246007),
    ensures
        spec_in_range(spec_ntt(p), -0x8000_0000, 0x7fff_ffff - 0x40_0000),
        spec_bounded(spec_poly_reduce(spec_ntt(p)), 8388607),
        spec_scaled(spec_invntt_tomont(spec_poly_reduce(spec_ntt(p))), 4193792, p),
{
    let x = spec_ntt(p);
    let r = spec_poly_reduce(x);
    lemma_ntt_bound(p, 2076246007);
    assert forall|j: int| 0 <= j < x.len() implies -0x8000_0000 <= #[trigger] x[j] <= 0x7fff_ffff
        - 0x40_0000 by {
        assert(-2143289343 <= x[j] <= 2143289343);
    }
    assert forall|j: int| 0 <= j < r.len() implies -8388607 <= #[trigger] r[j] <= 8388607 by {
        assert(-2143289343 <= x[j] <= 2143289343);
        lemma_reduce32_congruent(x[j]);
    }
    assert forall|j: int| 0 <= j < 256 implies spec_congruent(#[trigger] r[j], 1 * x[j] + 0 * x[j]) by {
        lemma_reduce32_congruent(x[j]);
    }
    lemma_invntt_linear(r, x, x, 1, 0);
    lemma_invntt_of_ntt(p);
    let y = spec_invntt_tomont(r);
    let z = spec_invntt_tomont(x);
    assert forall|j: int| 0 <= j < 256 implies spec_congruent(#[trigger] y[j], 4193792 * p[j]) by {
        assert(spec_congruent(y[j], 1 * z[j] + 0 * z[j]));
        assert(spec_congruent(z[j], 4193792 * p[j]));
        let k1 = lemma_congruent_multiple(y[j], z[j]);
        let k2 = lemma_congruent_multiple(z[j], 4193792 * p[j]);
        lemma_congruent_from_multiple(y[j], 4193792 * p[j], k1 + k2);
    }
}

/// `caddq` leaves the residue modulo `Q` as it is.
pub proof fn lemma_caddq_congruent(a: int)
    ensures
        spec_congruent(spec_caddq(a), a),
        -8380417 < a < 8380417 ==> 0 <= spec_caddq(a) < 8380417,
{
    if a < 0 {
        lemma_congruent_from_multiple(spec_caddq(a), a, 1);
    } else {
        lemma_congruent_from_multiple(spec_caddq(a), a, 0);
    }
}

/// Whether the sequence has 256 entries that all lie in `[-b, b]`.
pub open spec fn spec_poly_within(p: Seq<int>, b: int) -> bool {
    p.len() == 256 && spec_in_range(p, -b, b)
}

/// A layer of the inverse transform at most doubles the bound of the
/// coefficients, where that stays within `2^31`; and it gives nothing above
/// `Q` where the bound was below `Q / 2`.
proof fn lemma_invntt_layer_bound(p: Seq<int>, len: int, k0: int, b: int)
    requires
        spec_layer(len, k0),
        spec_poly_within(p, b),
        8380417 <= 2 * b <= 0x8000_0000,
    ensures
        spec_poly_within(spec_invntt_layer(p, len, 2 * k0 - 1), 2 * b),
{
    lemma_zetas_bounded();
    let layer = spec_invntt_layer(p, len, 2 * k0 - 1);
    assert forall|j: int| 0 <= j < 256 implies -(2 * b) <= #[trigger] layer[j] <= 2 * b by {
        let block = j / (2 * len);
        let off = j % (2 * len);
        vstd::arithmetic::div_mod::lemma_fundamental_div_mod(j, 2 * len);
        vstd::arithmetic::div_mod::lemma_mod_bound(j, 2 * len);
        assert(0 <= block < k0 && (2 * len) * block + 2 * len <= 256) by (nonlinear_arith)
            requires
                j == (2 * len) * block + off,
                0 <= off < 2 * len,
                0 <= j < 256,
                k0 * (2 * len) == 256,
                0 < len,
        ;
        let zeta = -(ZETAS@[2 * k0 - 1 - block] as int);
        if off < len {
            assert(-b <= p[j] <= b);
            assert(-b <= p[j + len] <= b);
        } else {
            assert(-b <= p[j] <= b);
            assert(-b <= p[j - len] <= b);
            let d = p[j - len] - p[j];
            assert(-0x8000_0000 * 8380417 <= zeta * d < 0x8000_0000 * 8380417) by (nonlinear_arith)
                requires
                    -4190208 <= zeta <= 4190208,
                    -0x8000_0000 <= d <= 0x8000_0000,
            ;
            lemma_montgomery_range(zeta * d);
        }
    }
}

/// The inverse transform of coefficients within `2^23 - 1` gives
/// coefficients within 4211197.
pub proof fn lemma_invntt_bound(p: Seq<int>)
    requires
        spec_poly_within(p, 8388607),
    ensures
        spec_poly_within(spec_invntt_tomont(p), 4211197),
{
    let b: int = 8388607;
    let p1 = spec_invntt_layer(p, 1, 255);
    let p2 = spec_invntt_layer(p1, 2, 127);
    let p3 = spec_invntt_layer(p2, 4, 63);
    let p4 = spec_invntt_layer(p3, 8, 31);
    let p5 = spec_invntt_layer(p4, 16, 15);
    let p6 = spec_invntt_layer(p5, 32, 7);
    let p7 = spec_invntt_layer(p6, 64, 3);
    let p8 = spec_invntt_layer(p7, 128, 1);
    lemma_invntt_layer_bound(p, 1, 128, b);
    lemma_invntt_layer_bound(p1, 2, 64, 2 * b);
    lemma_invntt_layer_bound(p2, 4, 32, 4 * b);
    lemma_invntt_layer_bound(p3, 8, 16, 8 * b);
    lemma_invntt_layer_bound(p4, 16, 8, 16 * b);
    lemma_invntt_layer_bound(p5, 32, 4, 32 * b);
    lemma_invntt_layer_bound(p6, 64, 2, 64 * b);
    lemma_invntt_layer_bound(p7, 128, 1, 128 * b);
    let out = spec_invntt_scale(p8);
    assert forall|j: int| 0 <= j < 256 implies -4211197 <= #[trigger] out[j] <= 4211197 by {
        assert(-(256 * b) <= p8[j] <= 256 * b);
        lemma_montgomery_range(41978 * p8[j]);
    }
}

/// The product, place by place, of coefficients whose products can be
/// Montgomery-reduced lies within `Q - 1`.
pub proof fn lemma_pointwise_within(a: Seq<int>, b: Seq<int>, ba: int, bb: int)
    requires
        spec_poly_within(a, ba),
        spec_poly_within(b, bb),
        0 <= ba,
        0 <= bb,
        ba * bb < 0x8000_0000 * 8380417,
    ensures
        spec_poly_within(spec_poly_pointwise_montgomery(a, b), 8380416),
{
    let c = spec_poly_pointwise_montgomery(a, b);
    assert forall|j: int| 0 <= j < 256 implies -8380416 <= #[trigger] c[j] <= 8380416 by {
        let x = a[j];
        let y = b[j];
        assert(-(ba * bb) <= x * y <= ba * bb) by (nonlinear_arith)
            requires
                -ba <= x <= ba,
                -bb <= y <= bb,
        ;
        lemma_montgomery_range(x * y);
    }
}

/// The sum of `n` products lies within `n * (Q - 1)`.
pub proof fn lemma_pointwise_acc_within(u: Seq<Seq<int>>, v: Seq<Seq<int>>, n: nat, bu: int, bv: int)
    requires
        n <= u.len(),
        n <= v.len(),
        forall|j: int| 0 <= j < n ==> spec_poly_within(#[trigger] u[j], bu),
        forall|j: int| 0 <= j < n ==> spec_poly_within(#[trigger] v[j], bv),
        0 <= bu,
        0 <= bv,
        bu * bv < 0x8000_0000 * 8380417,
    ensures
        spec_poly_within(spec_pointwise_acc(u, v, n), (n as int) * 8380416),
    decreases n,
{
    if n > 0 {
        lemma_pointwise_acc_within(u, v, (n - 1) as nat, bu, bv);
        lemma_pointwise_within(u[n - 1], v[n - 1], bu, bv);
        let prev = spec_pointwise_acc(u, v, (n - 1) as nat);
        let term = spec_poly_pointwise_montgomery(u[n - 1], v[n - 1]);
        let sum = spec_pointwise_acc(u, v, n);
        assert forall|j: int| 0 <= j < 256 implies -(n * 8380416) <= #[trigger] sum[j] <= n
            * 8380416 by {
            assert(-((n - 1) * 8380416) <= prev[j] <= (n - 1) * 8380416);
            assert(-8380416 <= term[j] <= 8380416);
        }
    } else {
        let sum = spec_pointwise_acc(u, v, n);
        assert forall|j: int| 0 <= j < 256 implies -(n * 8380416) <= #[trigger] sum[j] <= n
            * 8380416 by {}
    }
}

/// Reducing coefficients within `b`, which is below `2^31 - 2^22`, gives
/// coefficients within 6283009 that are the same modulo `Q`.
pub proof fn lemma_reduce_within(p: Seq<int>, b: int)
    requires
        spec_poly_within(p, b),
        0 <= b <= 0x7fff_ffff - 0x40_0000,
    ensures
        spec_poly_within(spec_poly_reduce(p), 6283009),
        spec_combination(spec_poly_reduce(p), 1, p, 0, p),
{
    let r = spec_poly_reduce(p);
    assert forall|j: int| 0 <= j < 256 implies -6283009 <= #[trigger] r[j] <= 6283009 by {
        assert(-b <= p[j] <= b);
        lemma_reduce32_congruent(p[j]);
    }
    assert forall|j: int| 0 <= j < 256 implies spec_congruent(#[trigger] r[j], 1 * p[j] + 0 * p[j]) by {
        lemma_reduce32_congruent(p[j]);
    }
}

/// Whether `x` is `c * a + b` modulo `Q`, coefficient by coefficient, with
/// the products taken place by place.
pub open spec fn spec_weighted(x: Seq<int>, c: Seq<int>, a: Seq<int>, b: Seq<int>) -> bool {
    forall|j: int| 0 <= j < 256 ==> spec_congruent(#[trigger] x[j], c[j] * a[j] + b[j])
}

/// `2^32` times the Montgomery reduction of `a` is `a` modulo `Q`.
pub proof fn lemma_montgomery_back(a: int)
    ensures
        spec_congruent(4193792 * spec_montgomery_reduce(a), a),
{
    lemma_montgomery_exact(a);
    let r = spec_montgomery_reduce(a);
    let k = lemma_congruent_multiple(r * 0x1_0000_0000, a);
    lemma_congruent_from_multiple(4193792 * r, a, k - 512 * r);
}

/// The transform of `z = c * s1 + y`, where the product is computed with
/// the transforms `chat` and `ah` of `c` and `s1`, is `chat * ah` plus the
/// transform of `y` modulo `Q`.
pub proof fn lemma_response_transform(chat: Seq<int>, ah: Seq<int>, y: Seq<int>)
    requires
        chat.len() == 256,
        ah.len() == 256,
        y.len() == 256,
    ensures
        spec_weighted(
            spec_ntt(
                spec_poly_reduce(
                    spec_poly_add(
                        spec_invntt_tomont(spec_poly_pointwise_montgomery(chat, ah)),
                        y,
                    ),
                ),
            ),
            chat,
            ah,
            spec_ntt(y),
        ),
{
    let pw = spec_poly_pointwise_montgomery(chat, ah);
    let prod = spec_invntt_tomont(pw);
    let z = spec_poly_reduce(spec_poly_add(prod, y));
    lemma_ntt_of_invntt(pw);
    assert forall|j: int| 0 <= j < 256 implies spec_congruent(
        #[trigger] z[j],
        1 * prod[j] + 1 * y[j],
    ) by {
        lemma_reduce32_congruent(prod[j] + y[j]);
    }
    lemma_ntt_linear(z, prod, y, 1, 1);
    let zh = spec_ntt(z);
    let ph = spec_ntt(prod);
    let yh = spec_ntt(y);
    assert forall|j: int| 0 <= j < 256 implies spec_congruent(
        #[trigger] zh[j],
        chat[j] * ah[j] + yh[j],
    ) by {
        lemma_montgomery_back(chat[j] * ah[j]);
        let k1 = lemma_congruent_multiple(zh[j], 1 * ph[j] + 1 * yh[j]);
        let k2 = lemma_congruent_multiple(ph[j], 4193792 * pw[j]);
        let k3 = lemma_congruent_multiple(4193792 * pw[j], chat[j] * ah[j]);
        lemma_congruent_from_multiple(zh[j], chat[j] * ah[j] + yh[j], k1 + k2 + k3);
    }
}

/// Where every polynomial of `zh` is `chat` times that of `ah` plus that of
/// `bh`, the sum of the products of a matrix row with `zh` is `chat` times
/// the sum for `ah` plus the sum for `bh`, all modulo `Q`.
pub proof fn lemma_acc_weighted(
    u: Seq<Seq<int>>,
    zh: Seq<Seq<int>>,
    ah: Seq<Seq<int>>,
    bh: Seq<Seq<int>>,
    chat: Seq<int>,
    n: nat,
)
    requires
        n <= u.len(),
        n <= zh.len(),
        n <= ah.len(),
        n <= bh.len(),
        forall|j: int| 0 <= j < n ==> spec_weighted(#[trigger] zh[j], chat, ah[j], bh[j]),
    ensures
        spec_weighted(
            spec_pointwise_acc(u, zh, n),
            chat,
            spec_pointwise_acc(u, ah, n),
            spec_pointwise_acc(u, bh, n),
        ),
    decreases n,
{
    let az = spec_pointwise_acc(u, zh, n);
    let aa = spec_pointwise_acc(u, ah, n);
    let ab = spec_pointwise_acc(u, bh, n);
    if n == 0 {
        assert forall|c: int| 0 <= c < 256 implies spec_congruent(
            #[trigger] az[c],
            chat[c] * aa[c] + ab[c],
        ) by {
            assert(chat[c] * aa[c] == 0) by (nonlinear_arith)
                requires
                    aa[c] == 0,
            ;
            lemma_congruent_from_multiple(az[c], chat[c] * aa[c] + ab[c], 0);
        }
    } else {
        lemma_acc_weighted(u, zh, ah, bh, chat, (n - 1) as nat);
        let pz = spec_pointwise_acc(u, zh, (n - 1) as nat);
        let pa = spec_pointwise_acc(u, ah, (n - 1) as nat);
        let pb = spec_pointwise_acc(u, bh, (n - 1) as nat);
        let row = u[n - 1];
        assert(spec_weighted(zh[n - 1], chat, ah[n - 1], bh[n - 1]));
        assert forall|c: int| 0 <= c < 256 implies spec_congruent(
            #[trigger] az[c],
            chat[c] * aa[c] + ab[c],
        ) by {
            let z = zh[n - 1][c];
            let a = ah[n - 1][c];
            let b = bh[n - 1][c];
            assert(spec_congruent(z, chat[c] * a + 1 * b));
            lemma_montgomery_linear(row[c], z, a, b, chat[c], 1);
            let mz = spec_montgomery_reduce(row[c] * z);
            let ma = spec_montgomery_reduce(row[c] * a);
            let mb = spec_montgomery_reduce(row[c] * b);
            assert(spec_congruent(pz[c], chat[c] * pa[c] + 1 * pb[c]));
            lemma_congruent_linear(pz[c], pa[c], pb[c], mz, ma, mb, chat[c], 1, 1);
            assert(az[c] == pz[c] + 1 * mz);
            assert(aa[c] == pa[c] + 1 * ma);
            assert(ab[c] == pb[c] + 1 * mb);
        }
    }
}

/// The step of the proof for one coefficient of `c * t1 * 2^13`: `m` reduces
/// `ch * nt`, where `nt` is `2^32 * pp + s - t0` modulo `Q`; `ms` and `mt`
/// reduce `ch * s` and `ch * t0`. Then `m` is `ch * pp + ms - mt`.
proof fn lemma_challenge_times_t1(
    m: int,
    ch: int,
    nt: int,
    pp: int,
    s: int,
    t0: int,
    ms: int,
    mt: int,
)
    requires
        spec_congruent(m, ch * nt * 8265825),
        spec_congruent(nt, 4193792 * pp + s - t0),
        spec_congruent(ms, ch * s * 8265825),
        spec_congruent(mt, ch * t0 * 8265825),
    ensures
        spec_congruent(m, ch * pp + ms - mt),
{
    let q: int = 8380417;
    let k1 = lemma_congruent_multiple(m, ch * nt * 8265825);
    let k2 = lemma_congruent_multiple(nt, 4193792 * pp + s - t0);
    let k3 = lemma_congruent_multiple(ms, ch * s * 8265825);
    let k4 = lemma_congruent_multiple(mt, ch * t0 * 8265825);
    let e = ch * 8265825;
    assert(ch * nt * 8265825 == e * nt && ch * s * 8265825 == e * s && ch * t0 * 8265825 == e
        * t0) by (nonlinear_arith)
        requires
            e == ch * 8265825,
    ;
    assert(e * nt == (e * 4193792) * pp + e * s - e * t0 + (e * k2) * q) by (nonlinear_arith)
        requires
            nt - (4193792 * pp + s - t0) == k2 * q,
    ;
    assert(e * 4193792 == ch + (ch * 4136447) * q) by (nonlinear_arith)
        requires
            e == ch * 8265825,
            q == 8380417,
    ;
    assert((e * 4193792) * pp == ch * pp + (ch * 4136447 * pp) * q) by (nonlinear_arith)
        requires
            e * 4193792 == ch + (ch * 4136447) * q,
    ;
    assert(m - (ch * pp + ms - mt) == (k1 + ch * 4136447 * pp + e * k2 - k3 + k4) * q)
        by (nonlinear_arith)
        requires
            m - e * nt == k1 * q,
            e * nt == (e * 4193792) * pp + e * s - e * t0 + (e * k2) * q,
            (e * 4193792) * pp == ch * pp + (ch * 4136447 * pp) * q,
            ms - e * s == k3 * q,
            mt - e * t0 == k4 * q,
    ;
    lemma_congruent_from_multiple(
        m,
        ch * pp + ms - mt,
        k1 + ch * 4136447 * pp + e * k2 - k3 + k4,
    );
}

/// The product of the challenge with `t1 * 2^13`, in the transformed domain,
/// where `t = t1 * 2^13 + t0` is `A * s1 + s2` as key generation computes it
/// from the sum of products `pp`: it is `chat * pp` plus the product of the
/// challenge with `s2` less that with `t0`, all modulo `Q`.
pub proof fn lemma_challenge_times_shifted(
    chat: Seq<int>,
    pp: Seq<int>,
    s2: Seq<int>,
    t0: Seq<int>,
    t1: Seq<int>,
)
    requires
        chat.len() == 256,
        pp.len() == 256,
        s2.len() == 256,
        t0.len() == 256,
        t1.len() == 256,
        forall|c: int|
            0 <= c < 256 ==> #[trigger] t1[c] * 8192 + t0[c] == spec_caddq(
                spec_invntt_tomont(spec_poly_reduce(pp))[c] + s2[c],
            ),
    ensures
        forall|c: int|
            0 <= c < 256 ==> spec_congruent(
                #[trigger] spec_poly_pointwise_montgomery(chat, spec_ntt(spec_poly_shiftl(t1)))[c],
                chat[c] * pp[c] + spec_poly_pointwise_montgomery(chat, spec_ntt(s2))[c]
                    - spec_poly_pointwise_montgomery(chat, spec_ntt(t0))[c],
            ),
{
    let red = spec_poly_reduce(pp);
    let prod = spec_invntt_tomont(red);
    let t = Seq::new(256, |c: int| spec_caddq(prod[c] + s2[c]));
    let shifted = spec_poly_shiftl(t1);
    lemma_ntt_of_invntt(red);
    assert forall|c: int| 0 <= c < 256 implies spec_congruent(
        #[trigger] shifted[c],
        1 * t[c] + (-1) * t0[c],
    ) by {
        assert(t1[c] * 8192 + t0[c] == t[c]);
        lemma_congruent_from_multiple(shifted[c], 1 * t[c] + (-1) * t0[c], 0);
    }
    lemma_ntt_linear(shifted, t, t0, 1, -1);
    assert forall|c: int| 0 <= c < 256 implies spec_congruent(
        #[trigger] t[c],
        1 * prod[c] + 1 * s2[c],
    ) by {
        lemma_caddq_congruent(prod[c] + s2[c]);
    }
    lemma_ntt_linear(t, prod, s2, 1, 1);
    let nsh = spec_ntt(shifted);
    let nt = spec_ntt(t);
    let nt0 = spec_ntt(t0);
    let nprod = spec_ntt(prod);
    let ns2 = spec_ntt(s2);
    assert forall|c: int| 0 <= c < 256 implies spec_congruent(
        #[trigger] spec_poly_pointwise_montgomery(chat, nsh)[c],
        chat[c] * pp[c] + spec_poly_pointwise_montgomery(chat, ns2)[c]
            - spec_poly_pointwise_montgomery(chat, nt0)[c],
    ) by {
        lemma_reduce32_congruent(pp[c]);
        let k1 = lemma_congruent_multiple(nsh[c], 1 * nt[c] + (-1) * nt0[c]);
        let k2 = lemma_congruent_multiple(nt[c], 1 * nprod[c] + 1 * ns2[c]);
        let k3 = lemma_congruent_multiple(nprod[c], 4193792 * red[c]);
        let k4 = lemma_congruent_multiple(red[c], pp[c]);
        lemma_congruent_from_multiple(
            nsh[c],
            4193792 * pp[c] + ns2[c] - nt0[c],
            k1 + k2 + k3 + 4193792 * k4,
        );
        lemma_montgomery_congruent(chat[c] * nsh[c]);
        lemma_montgomery_congruent(chat[c] * ns2[c]);
        lemma_montgomery_congruent(chat[c] * nt0[c]);
        lemma_challenge_times_t1(
            spec_montgomery_reduce(chat[c] * nsh[c]),
            chat[c],
            nsh[c],
            pp[c],
            ns2[c],
            nt0[c],
            spec_montgomery_reduce(chat[c] * ns2[c]),
            spec_montgomery_reduce(chat[c] * nt0[c]),
        );
    }
}

/// What the verifier computes for one row is what the signer had, less the
/// product of the challenge with `s2`, plus that with `t0`, all modulo `Q`:
/// `az` is the row of `A * z`, `ct1` that of `c * t1 * 2^13`, `ww` that of
/// `A * y`, and `ss` and `tt` are the products of the challenge with `s2` and
/// `t0`, all in the transformed domain.
pub proof fn lemma_row_congruence(
    az: Seq<int>,
    ct1: Seq<int>,
    chat: Seq<int>,
    pp: Seq<int>,
    ww: Seq<int>,
    ss: Seq<int>,
    tt: Seq<int>,
)
    requires
        az.len() == 256,
        ct1.len() == 256,
        ww.len() == 256,
        ss.len() == 256,
        tt.len() == 256,
        spec_weighted(az, chat, pp, ww),
        forall|c: int|
            0 <= c < 256 ==> spec_congruent(#[trigger] ct1[c], chat[c] * pp[c] + ss[c] - tt[c]),
    ensures
        forall|c: int|
            0 <= c < 256 ==> spec_congruent(
                #[trigger] spec_poly_caddq(
                    spec_invntt_tomont(spec_poly_reduce(spec_poly_sub(az, ct1))),
                )[c],
                spec_poly_caddq(spec_invntt_tomont(spec_poly_reduce(ww)))[c] - spec_invntt_tomont(
                    ss,
                )[c] + spec_invntt_tomont(tt)[c],
            ),
{
    let x = spec_poly_sub(az, ct1);
    let rx = spec_poly_reduce(x);
    let y1 = spec_poly_sub(ww, ss);
    assert forall|c: int| 0 <= c < 256 implies spec_congruent(
        #[trigger] rx[c],
        1 * y1[c] + 1 * tt[c],
    ) by {
        lemma_reduce32_congruent(x[c]);
        let k1 = lemma_congruent_multiple(rx[c], x[c]);
        let k2 = lemma_congruent_multiple(az[c], chat[c] * pp[c] + ww[c]);
        let k3 = lemma_congruent_multiple(ct1[c], chat[c] * pp[c] + ss[c] - tt[c]);
        lemma_congruent_from_multiple(rx[c], 1 * y1[c] + 1 * tt[c], k1 + k2 - k3);
    }
    lemma_invntt_linear(rx, y1, tt, 1, 1);
    assert forall|c: int| 0 <= c < 256 implies spec_congruent(
        #[trigger] y1[c],
        1 * ww[c] + (-1) * ss[c],
    ) by {
        lemma_congruent_from_multiple(y1[c], 1 * ww[c] + (-1) * ss[c], 0);
    }
    lemma_invntt_linear(y1, ww, ss, 1, -1);
    let rw = spec_poly_reduce(ww);
    assert forall|c: int| 0 <= c < 256 implies spec_congruent(
        #[trigger] rw[c],
        1 * ww[c] + 0 * ww[c],
    ) by {
        lemma_reduce32_congruent(ww[c]);
    }
    lemma_invntt_linear(rw, ww, ww, 1, 0);
    let ix = spec_invntt_tomont(rx);
    let iy = spec_invntt_tomont(y1);
    let it = spec_invntt_tomont(tt);
    let iw = spec_invntt_tomont(ww);
    let is = spec_invntt_tomont(ss);
    let irw = spec_invntt_tomont(rw);
    assert forall|c: int| 0 <= c < 256 implies spec_congruent(
        #[trigger] spec_poly_caddq(ix)[c],
        spec_poly_caddq(irw)[c] - is[c] + it[c],
    ) by {
        lemma_caddq_congruent(ix[c]);
        lemma_caddq_congruent(irw[c]);
        let k1 = lemma_congruent_multiple(spec_caddq(ix[c]), ix[c]);
        let k2 = lemma_congruent_multiple(ix[c], 1 * iy[c] + 1 * it[c]);
        let k3 = lemma_congruent_multiple(iy[c], 1 * iw[c] + (-1) * is[c]);
        let k4 = lemma_congruent_multiple(irw[c], 1 * iw[c] + 0 * iw[c]);
        let k5 = lemma_congruent_multiple(spec_caddq(irw[c]), irw[c]);
        lemma_congruent_from_multiple(
            spec_poly_caddq(ix)[c],
            spec_poly_caddq(irw)[c] - is[c] + it[c],
            k1 + k2 + k3 - k4 - k5,
        );
    }
}

/// The step of the proof for one coefficient: the verifier has `v`, which is
/// `w - cs2 + ct0r` modulo `Q`; the signer had `w` with the high part `w1`
/// and the low part `w0`, and made the hint from `r0 + ct0` and `w1`, where
/// `r0` is `w0 - cs2` and `ct0` is `ct0r` modulo `Q`, both below `gamma2` in
/// absolute value. Then the hint leads from `v` to `w1`.
pub proof fn lemma_hint_recovers(
    gamma2: int,
    v: int,
    w: int,
    cs2: int,
    ct0r: int,
    r0: int,
    ct0: int,
)
    requires
        gamma2 == 95232 || gamma2 == 261888,
        0 <= v < 8380417,
        0 <= w < 8380417,
        spec_congruent(v, w - cs2 + ct0r),
        spec_congruent(r0, spec_decompose(gamma2, w).1 - cs2),
        spec_congruent(ct0, ct0r),
        -gamma2 < r0 < gamma2,
        -gamma2 < ct0 < gamma2,
    ensures
        spec_use_hint(
            gamma2,
            v,
            spec_make_hint(gamma2, r0 + ct0, spec_decompose(gamma2, w).0),
        ) == spec_decompose(gamma2, w).0,
{
    let w1 = spec_decompose(gamma2, w).0;
    let w0 = spec_decompose(gamma2, w).1;
    lemma_decompose_recomposes(gamma2, w);
    let b = (v - ct0) % 8380417;
    let k1 = lemma_congruent_multiple(v, w - cs2 + ct0r);
    let k2 = lemma_congruent_multiple(r0, w0 - cs2);
    let k3 = lemma_congruent_multiple(ct0, ct0r);
    let k4 = (w1 * (2 * gamma2) + w0 - w) / 8380417;
    assert(w1 * (2 * gamma2) + w0 - w == k4 * 8380417);
    let kb = (v - ct0) / 8380417;
    assert(v - ct0 == kb * 8380417 + b);
    if gamma2 == 95232 {
        let m = k1 - k2 - k3 - k4 - kb;
        assert(b - (w1 * 190464 + r0) == m * 8380417);
        if m == 0 {
            lemma_decompose_unique(gamma2, b, w1, r0);
        } else {
            assert(m == 1);
            assert(w1 == 0);
            lemma_decompose_unique(gamma2, b, 44, r0 + 1);
        }
    } else {
        let m = k1 - k2 - k3 - k4 - kb;
        assert(b - (w1 * 523776 + r0) == m * 8380417);
        if m == 0 {
            lemma_decompose_unique(gamma2, b, w1, r0);
        } else {
            assert(m == 1);
            assert(w1 == 0);
            lemma_decompose_unique(gamma2, b, 16, r0 + 1);
        }
    }
    assert(spec_decompose(gamma2, b) == (w1, r0));
    lemma_use_hint_recovers_high(gamma2, v, -ct0);
    assert((v + (-ct0)) % 8380417 == b);
    assert(r0 - (-ct0) == r0 + ct0);
}

/// Whether `v` is a vector of `n` polynomials of 256 coefficients within `b`.
pub open spec fn spec_vector_within(v: Seq<Seq<int>>, n: int, b: int) -> bool {
    v.len() == n && forall|j: int| 0 <= j < n ==> spec_poly_within(#[trigger] v[j], b)
}

/// The transforms of a vector within `b` lie within `b + 8 * Q`.
pub proof fn lemma_vector_ntt_within(v: Seq<Seq<int>>, n: int, b: int)
    requires
        spec_vector_within(v, n, b),
        0 <= b <= crate::ntt::NTT_INPUT_BOUND,
    ensures
        spec_vector_within(spec_polyvec_ntt(v), n, b + 8 * 8380417),
{
    assert forall|j: int| 0 <= j < n implies spec_poly_within(
        #[trigger] spec_polyvec_ntt(v)[j],
        b + 8 * 8380417,
    ) by {
        assert(spec_poly_within(v[j], b));
        lemma_ntt_bound(v[j], b);
    }
}

/// The vector `z = c * s1 + y` of a signature lies within 6283009, and the
/// transform of each of its polynomials is `chat` times that of `s1` plus
/// that of `y`, modulo `Q`.
pub proof fn lemma_response_z_facts(chat: Seq<int>, s1: Seq<Seq<int>>, y: Seq<Seq<int>>, l: int)
    requires
        0 <= l,
        spec_poly_within(chat, 67043337),
        spec_vector_within(s1, l, 4096),
        spec_vector_within(y, l, 524288),
    ensures
        spec_vector_within(spec_response_z(chat, spec_polyvec_ntt(s1), y), l, 6283009),
        spec_vector_within(
            spec_polyvec_ntt(spec_response_z(chat, spec_polyvec_ntt(s1), y)),
            l,
            75423752,
        ),
        forall|j: int|
            0 <= j < l ==> spec_weighted(
                #[trigger] spec_polyvec_ntt(spec_response_z(chat, spec_polyvec_ntt(s1), y))[j],
                chat,
                spec_polyvec_ntt(s1)[j],
                spec_polyvec_ntt(y)[j],
            ),
{
    let s1hat = spec_polyvec_ntt(s1);
    let z = spec_response_z(chat, s1hat, y);
    let zhat = spec_polyvec_ntt(z);
    lemma_vector_ntt_within(s1, l, 4096);
    assert(67043337 * 67047432 < 0x8000_0000 * 8380417);
    assert forall|j: int| 0 <= j < l implies spec_poly_within(#[trigger] z[j], 6283009)
        && spec_weighted(zhat[j], chat, s1hat[j], spec_polyvec_ntt(y)[j]) by {
        assert(spec_poly_within(s1hat[j], 67047432));
        assert(spec_poly_within(y[j], 524288));
        let pw = spec_poly_pointwise_montgomery(chat, s1hat[j]);
        lemma_pointwise_within(chat, s1hat[j], 67043337, 67047432);
        let prod = spec_invntt_tomont(pw);
        assert(spec_poly_within(pw, 8388607)) by {
            assert forall|c: int| 0 <= c < pw.len() implies -8388607 <= #[trigger] pw[c]
                <= 8388607 by {
                assert(-8380416 <= pw[c] <= 8380416);
            }
        }
        lemma_invntt_bound(pw);
        let sum = spec_poly_add(prod, y[j]);
        assert(spec_poly_within(sum, 4735485)) by {
            assert forall|c: int| 0 <= c < sum.len() implies -4735485 <= #[trigger] sum[c]
                <= 4735485 by {
                assert(-4211197 <= prod[c] <= 4211197);
                assert(-524288 <= y[j][c] <= 524288);
            }
        }
        lemma_reduce_within(sum, 4735485);
        assert(z[j] == spec_poly_reduce(sum));
        lemma_response_transform(chat, s1hat[j], y[j]);
        assert(zhat[j] == spec_ntt(z[j]));
    }
    assert(spec_vector_within(z, l, 6283009));
    lemma_vector_ntt_within(z, l, 6283009);
    assert forall|j: int| 0 <= j < l implies spec_poly_within(#[trigger] zhat[j], 75423752) by {
        assert(spec_poly_within(zhat[j], 73326345));
        assert forall|c: int| 0 <= c < zhat[j].len() implies -75423752 <= #[trigger] zhat[j][c]
            <= 75423752 by {
            assert(-73326345 <= zhat[j][c] <= 73326345);
        }
    }
}

/// The polynomial `caddq(invntt(reduce(x)))` for `x` within `2^31 - 2^22 - 1`
/// has 256 coefficients in `[0, Q)`.
pub proof fn lemma_back_within(x: Seq<int>, b: int)
    requires
        spec_poly_within(x, b),
        0 <= b <= 0x7fff_ffff - 0x40_0000,
    ensures
        spec_poly_caddq(spec_invntt_tomont(spec_poly_reduce(x))).len() == 256,
        forall|c: int|
            0 <= c < 256 ==> 0 <= #[trigger] spec_poly_caddq(
                spec_invntt_tomont(spec_poly_reduce(x)),
            )[c] < 8380417,
        spec_poly_within(spec_invntt_tomont(spec_poly_reduce(x)), 4211197),
{
    lemma_reduce_within(x, b);
    let rx = spec_poly_reduce(x);
    assert(spec_poly_within(rx, 8388607)) by {
        assert forall|c: int| 0 <= c < rx.len() implies -8388607 <= #[trigger] rx[c] <= 8388607 by {
            assert(-6283009 <= rx[c] <= 6283009);
        }
    }
    lemma_invntt_bound(rx);
    let ix = spec_invntt_tomont(rx);
    assert forall|c: int| 0 <= c < 256 implies 0 <= #[trigger] spec_poly_caddq(ix)[c]
        < 8380417 by {
        assert(-4211197 <= ix[c] <= 4211197);
    }
}

/// For one row of the matrix: the high parts that the verifier computes
/// from `z`, the challenge, `t1` and the hints are the high parts `w1` that
/// the signer had. `u` is the row; `s2`, `t0` and `t1` are the polynomials of
/// the key that belong to the row, with `t1 * 2^13 + t0` the polynomial of
/// `A * s1 + s2`; `y` is the masking vector; `chat` is the transformed
/// challenge. The low parts less `c * s2`, and `c * t0`, stay below `gamma2`.
pub proof fn lemma_row_recovers(
    gamma2: int,
    l: int,
    u: Seq<Seq<int>>,
    s1: Seq<Seq<int>>,
    y: Seq<Seq<int>>,
    s2: Seq<int>,
    t0: Seq<int>,
    t1: Seq<int>,
    chat: Seq<int>,
)
    requires
        gamma2 == 95232 || gamma2 == 261888,
        0 <= l <= 7,
        spec_vector_within(u, l, 8380416),
        spec_vector_within(s1, l, 4096),
        spec_vector_within(y, l, 524288),
        spec_poly_within(s2, 4096),
        spec_poly_within(t0, 4096),
        t1.len() == 256,
        spec_in_range(t1, 0, 1023),
        spec_poly_within(chat, 67043337),
        forall|c: int|
            0 <= c < 256 ==> #[trigger] t1[c] * 8192 + t0[c] == spec_caddq(
                spec_invntt_tomont(
                    spec_poly_reduce(spec_pointwise_acc(u, spec_polyvec_ntt(s1), l as nat)),
                )[c] + s2[c],
            ),
        ({
            let w = spec_poly_caddq(
                spec_invntt_tomont(
                    spec_poly_reduce(spec_pointwise_acc(u, spec_polyvec_ntt(y), l as nat)),
                ),
            );
            let w0 = spec_poly_decompose_low(gamma2, w);
            let r0 = spec_poly_reduce(
                spec_poly_sub(
                    w0,
                    spec_invntt_tomont(spec_poly_pointwise_montgomery(chat, spec_ntt(s2))),
                ),
            );
            let ct0 = spec_poly_reduce(
                spec_invntt_tomont(spec_poly_pointwise_montgomery(chat, spec_ntt(t0))),
            );
            !spec_norm_reaches(r0, gamma2) && !spec_norm_reaches(ct0, gamma2)
        }),
    ensures
        ({
            let w = spec_poly_caddq(
                spec_invntt_tomont(
                    spec_poly_reduce(spec_pointwise_acc(u, spec_polyvec_ntt(y), l as nat)),
                ),
            );
            let w1 = spec_poly_decompose_high(gamma2, w);
            let w0 = spec_poly_decompose_low(gamma2, w);
            let r0 = spec_poly_reduce(
                spec_poly_sub(
                    w0,
                    spec_invntt_tomont(spec_poly_pointwise_montgomery(chat, spec_ntt(s2))),
                ),
            );
            let ct0 = spec_poly_reduce(
                spec_invntt_tomont(spec_poly_pointwise_montgomery(chat, spec_ntt(t0))),
            );
            let h = spec_poly_make_hint(gamma2, spec_poly_add(r0, ct0), w1);
            let z = spec_response_z(chat, spec_polyvec_ntt(s1), y);
            let az = spec_pointwise_acc(u, spec_polyvec_ntt(z), l as nat);
            let ct1 = spec_poly_pointwise_montgomery(chat, spec_ntt(spec_poly_shiftl(t1)));
            let v = spec_poly_caddq(
                spec_invntt_tomont(spec_poly_reduce(spec_poly_sub(az, ct1))),
            );
            spec_poly_use_hint(gamma2, v, h) == w1
        }),
{
    let s1hat = spec_polyvec_ntt(s1);
    let yhat = spec_polyvec_ntt(y);
    let z = spec_response_z(chat, s1hat, y);
    let zhat = spec_polyvec_ntt(z);
    let pp = spec_pointwise_acc(u, s1hat, l as nat);
    let ww = spec_pointwise_acc(u, yhat, l as nat);
    let az = spec_pointwise_acc(u, zhat, l as nat);
    let shifted = spec_poly_shiftl(t1);
    let ct1 = spec_poly_pointwise_montgomery(chat, spec_ntt(shifted));
    let ss = spec_poly_pointwise_montgomery(chat, spec_ntt(s2));
    let tt = spec_poly_pointwise_montgomery(chat, spec_ntt(t0));
    let x = spec_poly_sub(az, ct1);
    let v = spec_poly_caddq(spec_invntt_tomont(spec_poly_reduce(x)));
    let w = spec_poly_caddq(spec_invntt_tomont(spec_poly_reduce(ww)));
    let w1 = spec_poly_decompose_high(gamma2, w);
    let w0 = spec_poly_decompose_low(gamma2, w);
    let cs2 = spec_invntt_tomont(ss);
    let ct0r = spec_invntt_tomont(tt);
    let r0 = spec_poly_reduce(spec_poly_sub(w0, cs2));
    let ct0 = spec_poly_reduce(ct0r);
    let h = spec_poly_make_hint(gamma2, spec_poly_add(r0, ct0), w1);
    // congruences
    lemma_response_z_facts(chat, s1, y, l);
    lemma_acc_weighted(u, zhat, s1hat, yhat, chat, l as nat);
    lemma_challenge_times_shifted(chat, pp, s2, t0, t1);
    lemma_row_congruence(az, ct1, chat, pp, ww, ss, tt);
    // ranges
    assert(8380416 * 75423752 < 0x8000_0000 * 8380417);
    assert(67043337 * 75423752 < 0x8000_0000 * 8380417);
    lemma_pointwise_acc_within(u, zhat, l as nat, 8380416, 75423752);
    assert(spec_poly_within(shifted, 8380416)) by {
        assert forall|c: int| 0 <= c < shifted.len() implies -8380416 <= #[trigger] shifted[c]
            <= 8380416 by {
            assert(0 <= t1[c] <= 1023);
        }
    }
    lemma_ntt_bound(shifted, 8380416);
    lemma_pointwise_within(chat, spec_ntt(shifted), 67043337, 75423752);
    assert(spec_poly_within(x, 67043328)) by {
        assert forall|c: int| 0 <= c < x.len() implies -67043328 <= #[trigger] x[c] <= 67043328 by {
            assert(-(l * 8380416) <= az[c] <= l * 8380416);
            assert(-8380416 <= ct1[c] <= 8380416);
        }
    }
    lemma_back_within(x, 67043328);
    lemma_vector_ntt_within(y, l, 524288);
    assert forall|j: int| 0 <= j < l implies spec_poly_within(#[trigger] yhat[j], 75423752) by {
        assert(spec_poly_within(yhat[j], 67567624));
        assert forall|c: int| 0 <= c < yhat[j].len() implies -75423752 <= #[trigger] yhat[j][c]
            <= 75423752 by {
            assert(-67567624 <= yhat[j][c] <= 67567624);
        }
    }
    lemma_pointwise_acc_within(u, yhat, l as nat, 8380416, 75423752);
    assert(spec_poly_within(ww, 58662912)) by {
        assert forall|c: int| 0 <= c < ww.len() implies -58662912 <= #[trigger] ww[c]
            <= 58662912 by {
            assert(-(l * 8380416) <= ww[c] <= l * 8380416);
        }
    }
    lemma_back_within(ww, 58662912);
    // coefficient by coefficient
    let used = spec_poly_use_hint(gamma2, v, h);
    assert forall|c: int| 0 <= c < 256 implies #[trigger] used[c] == w1[c] by {
        lemma_reduce32_congruent(w0[c] - cs2[c]);
        lemma_reduce32_congruent(ct0r[c]);
        assert(!(r0[c] >= gamma2 || -r0[c] >= gamma2)) by {
            if r0[c] >= gamma2 || -r0[c] >= gamma2 {
                assert(spec_norm_reaches(r0, gamma2));
            }
        }
        assert(!(ct0[c] >= gamma2 || -ct0[c] >= gamma2)) by {
            if ct0[c] >= gamma2 || -ct0[c] >= gamma2 {
                assert(spec_norm_reaches(ct0, gamma2));
            }
        }
        lemma_hint_recovers(gamma2, v[c], w[c], cs2[c], ct0r[c], r0[c], ct0[c]);
    }
    assert(used =~= w1);
}

/// Whether `mat` is a matrix of `k` rows of `l` polynomials of 256
/// coefficients in `[0, Q)`.
pub open spec fn spec_matrix_within(mat: Seq<Seq<Seq<int>>>, k: int, l: int) -> bool {
    mat.len() == k && forall|i: int| 0 <= i < k ==> spec_vector_within(#[trigger] mat[i], l, 8380416)
}

/// Where no coefficient of a vector reaches `b`, none of a polynomial of it
/// reaches a larger bound.
pub proof fn lemma_norm_of_row(v: Seq<Seq<int>>, i: int, b: int, b2: int)
    requires
        0 <= i < v.len(),
        b <= b2,
        !spec_polyvec_norm_reaches(v, b),
    ensures
        !spec_norm_reaches(v[i], b2),
{
    if spec_norm_reaches(v[i], b2) {
        let c = choose|c: int|
            0 <= c < v[i].len() && (#[trigger] v[i][c] >= b2 || -v[i][c] >= b2);
        assert(v[i][c] >= b || -v[i][c] >= b);
        assert(spec_norm_reaches(v[i], b));
        assert(spec_polyvec_norm_reaches(v, b));
    }
}

/// The high parts that the verifier computes from `z`, the challenge, `t1`
/// and the hints are the high parts `w1` that the signer had, where `t1` and
/// `t0` are the parts of `t = A * s1 + s2` and the signer kept the bounds on
/// `w0 - c * s2` and on `c * t0`.
pub proof fn lemma_w1_recovered(
    p: ParameterSet,
    mat: Seq<Seq<Seq<int>>>,
    s1: Seq<Seq<int>>,
    s2: Seq<Seq<int>>,
    y: Seq<Seq<int>>,
    chat: Seq<int>,
)
    requires
        p.gamma2 == 95232 || p.gamma2 == 261888,
        0 <= p.beta,
        1 <= p.l <= 7,
        1 <= p.k <= 8,
        spec_matrix_within(mat, p.k as int, p.l as int),
        spec_vector_within(s1, p.l as int, 4),
        spec_vector_within(s2, p.k as int, 4),
        spec_vector_within(y, p.l as int, 524288),
        spec_poly_within(chat, 67043337),
        ({
            let t = spec_polyvec_caddq(spec_polyvec_add(spec_matrix_times(mat, s1), s2));
            let t0 = spec_polyvec_power2round_low(t);
            let w = spec_sign_w(mat, y);
            let w0 = spec_polyvec_decompose_low(p.gamma2 as int, w);
            let r0 = spec_response_r0(chat, spec_polyvec_ntt(s2), w0);
            let ct0 = spec_response_ct0(chat, spec_polyvec_ntt(t0));
            !spec_polyvec_norm_reaches(r0, p.gamma2 - p.beta) && !spec_polyvec_norm_reaches(
                ct0,
                p.gamma2 as int,
            )
        }),
    ensures
        ({
            let t = spec_polyvec_caddq(spec_polyvec_add(spec_matrix_times(mat, s1), s2));
            let t1 = spec_polyvec_power2round_high(t);
            let t0 = spec_polyvec_power2round_low(t);
            let w = spec_sign_w(mat, y);
            let w1 = spec_polyvec_decompose_high(p.gamma2 as int, w);
            let w0 = spec_polyvec_decompose_low(p.gamma2 as int, w);
            let r0 = spec_response_r0(chat, spec_polyvec_ntt(s2), w0);
            let ct0 = spec_response_ct0(chat, spec_polyvec_ntt(t0));
            let h = spec_response_hint(p.gamma2 as int, r0, ct0, w1);
            let z = spec_response_z(chat, spec_polyvec_ntt(s1), y);
            spec_verify_w1(p, mat, z, chat, t1, h) == w1
        }),
{
    let gamma2 = p.gamma2 as int;
    let l = p.l as int;
    let k = p.k as int;
    let prod = spec_matrix_times(mat, s1);
    let t = spec_polyvec_caddq(spec_polyvec_add(prod, s2));
    let t1 = spec_polyvec_power2round_high(t);
    let t0 = spec_polyvec_power2round_low(t);
    let w = spec_sign_w(mat, y);
    let w1 = spec_polyvec_decompose_high(gamma2, w);
    let w0 = spec_polyvec_decompose_low(gamma2, w);
    let r0 = spec_response_r0(chat, spec_polyvec_ntt(s2), w0);
    let ct0 = spec_response_ct0(chat, spec_polyvec_ntt(t0));
    let h = spec_response_hint(gamma2, r0, ct0, w1);
    let z = spec_response_z(chat, spec_polyvec_ntt(s1), y);
    let got = spec_verify_w1(p, mat, z, chat, t1, h);
    lemma_vector_ntt_within(s1, l, 4);
    assert(spec_vector_within(s1, l, 4096)) by {
        assert forall|j: int| 0 <= j < l implies spec_poly_within(#[trigger] s1[j], 4096) by {
            assert(spec_poly_within(s1[j], 4));
            assert forall|c: int| 0 <= c < s1[j].len() implies -4096 <= #[trigger] s1[j][c]
                <= 4096 by {
                assert(-4 <= s1[j][c] <= 4);
            }
        }
    }
    assert forall|i: int| 0 <= i < k implies #[trigger] got[i] == w1[i] by {
        let u = mat[i];
        assert(spec_vector_within(u, l, 8380416));
        let s1hat = spec_polyvec_ntt(s1);
        assert forall|j: int| 0 <= j < l implies spec_poly_within(#[trigger] s1hat[j], 75423752) by {
            assert(spec_poly_within(s1hat[j], 67043340));
            assert forall|c: int| 0 <= c < s1hat[j].len() implies -75423752 <= #[trigger] s1hat[j][c]
                <= 75423752 by {
                assert(-67043340 <= s1hat[j][c] <= 67043340);
            }
        }
        let pp = spec_pointwise_acc(u, s1hat, l as nat);
        assert(8380416 * 75423752 < 0x8000_0000 * 8380417);
        lemma_pointwise_acc_within(u, s1hat, l as nat, 8380416, 75423752);
        assert(spec_poly_within(pp, 58662912)) by {
            assert forall|c: int| 0 <= c < pp.len() implies -58662912 <= #[trigger] pp[c]
                <= 58662912 by {
                assert(-(l * 8380416) <= pp[c] <= l * 8380416);
            }
        }
        lemma_back_within(pp, 58662912);
        let ip = spec_invntt_tomont(spec_poly_reduce(pp));
        assert(prod[i] == ip);
        assert(spec_poly_within(s2[i], 4));
        assert forall|c: int| 0 <= c < 256 implies #[trigger] t1[i][c] * 8192 + t0[i][c]
            == spec_caddq(ip[c] + s2[i][c]) && 0 <= t1[i][c] <= 1023 && -4096 <= t0[i][c]
            <= 4096 by {
            assert(-4211197 <= ip[c] <= 4211197);
            assert(-4 <= s2[i][c] <= 4);
            assert(t[i][c] == spec_caddq(ip[c] + s2[i][c]));
            crate::rounding::lemma_power2round_recomposes(t[i][c]);
        }
        assert(spec_poly_within(s2[i], 4096)) by {
            assert forall|c: int| 0 <= c < s2[i].len() implies -4096 <= #[trigger] s2[i][c]
                <= 4096 by {
                assert(-4 <= s2[i][c] <= 4);
            }
        }
        assert(spec_poly_within(t0[i], 4096));
        assert(spec_in_range(t1[i], 0, 1023));
        lemma_norm_of_row(r0, i, gamma2 - p.beta, gamma2);
        lemma_norm_of_row(ct0, i, gamma2, gamma2);
        lemma_row_recovers(gamma2, l, u, s1, y, s2[i], t0[i], t1[i], chat);
    }
    assert(got =~= w1);
}

/// A secret vector whose streams each held 256 values has coefficients in
/// `[-eta, eta]`.
pub proof fn lemma_uniform_eta_within(eta: int, n: int, seed: Seq<u8>, nonce: int)
    requires
        eta == 2 || eta == 4,
        0 <= n,
        spec_polyvec_uniform_eta_filled(eta, n, seed, nonce),
    ensures
        spec_vector_within(spec_polyvec_uniform_eta(eta, spec_polyvec_zero(n), seed, nonce), n, 4),
        forall|j: int|
            0 <= j < n ==> spec_in_range(
                #[trigger] spec_polyvec_uniform_eta(eta, spec_polyvec_zero(n), seed, nonce)[j],
                -eta,
                eta,
            ),
{
    let v = spec_polyvec_uniform_eta(eta, spec_polyvec_zero(n), seed, nonce);
    assert forall|j: int| 0 <= j < n implies spec_poly_within(#[trigger] v[j], 4) && spec_in_range(
        v[j],
        -eta,
        eta,
    ) by {
        let stream = spec_eta_stream(seed, (nonce + j) as u16);
        let acc = spec_rej_eta(eta, stream);
        assert(acc.len() >= 256);
        lemma_rej_eta_concat(eta, Seq::<u8>::empty(), stream);
        assert(v[j] == acc.take(256));
        assert forall|c: int| 0 <= c < v[j].len() implies -eta <= #[trigger] v[j][c] <= eta by {
            assert(v[j][c] == acc[c]);
        }
    }
}

/// A matrix whose streams each held 256 values has coefficients in `[0, Q)`.
pub proof fn lemma_matrix_within(p: ParameterSet, rho: Seq<u8>)
    requires
        0 <= p.k,
        0 <= p.l,
        spec_matrix_filled(p, rho),
    ensures
        spec_matrix_within(spec_matrix(p, rho), p.k as int, p.l as int),
{
    let shape = spec_mat_zero(p.k as int, p.l as int);
    let mat = spec_matrix(p, rho);
    assert forall|i: int| 0 <= i < p.k implies spec_vector_within(
        #[trigger] mat[i],
        p.l as int,
        8380416,
    ) by {
        assert(shape[i].len() == p.l);
        assert forall|j: int| 0 <= j < p.l implies spec_poly_within(
            #[trigger] mat[i][j],
            8380416,
        ) by {
            assert(spec_matrix_entry_filled(rho, i, j));
            let stream = spec_uniform_stream(rho, (256 * i + j) as u16);
            let acc = spec_rej_uniform(stream);
            lemma_rej_uniform_concat(Seq::<u8>::empty(), stream);
            assert(mat[i][j] == acc.take(256));
            assert forall|c: int| 0 <= c < mat[i][j].len() implies -8380416 <= #[trigger] mat[i][j][c]
                <= 8380416 by {
                assert(mat[i][j][c] == acc[c]);
            }
        }
    }
}

/// A masking vector has coefficients in `(-gamma1, gamma1]`.
pub proof fn lemma_uniform_gamma1_within(gamma1: int, l: int, n: int, seed: Seq<u8>, nonce: int)
    requires
        gamma1 == 131072 || gamma1 == 524288,
        0 <= n,
    ensures
        spec_vector_within(spec_polyvec_uniform_gamma1(gamma1, l, n, seed, nonce), n, 524288),
{
    let v = spec_polyvec_uniform_gamma1(gamma1, l, n, seed, nonce);
    assert(crate::bitpack::spec_pow2(18) == 262144);
    assert(crate::bitpack::spec_pow2(20) == 1048576);
    assert forall|j: int| 0 <= j < n implies spec_poly_within(#[trigger] v[j], 524288) by {
        let bytes = crate::fips202::spec_shake256(
            crate::symmetric::spec_stream_input(seed.take(64), (l * nonce + j) as u16),
            680,
        );
        let w = crate::polypack::spec_gamma1_bits(gamma1);
        assert forall|c: int| 0 <= c < v[j].len() implies -524288 <= #[trigger] v[j][c]
            <= 524288 by {
            crate::bitpack::lemma_unpack_field_range(bytes, w, c);
            assert(v[j][c] == gamma1 - crate::bitpack::spec_unpack_field(bytes, w, c));
        }
    }
}

/// A transformed challenge has coefficients within `1 + 8 * Q`.
pub proof fn lemma_challenge_within(p: ParameterSet, ctilde: Seq<u8>)
    requires
        0 <= p.tau <= 256,
    ensures
        spec_poly_within(spec_ntt(spec_challenge(p, ctilde)), 67043337),
{
    let stream = crate::sampling::spec_challenge_stream(ctilde);
    lemma_challenge_range(stream, p.tau as int, p.tau as nat);
    let c = spec_challenge(p, ctilde);
    lemma_ntt_bound(c, 1);
}

/// Where the attempts from `n0` on give a signature, one of them gave it.
pub proof fn lemma_sign_loop_signed(
    p: ParameterSet,
    mat: Seq<Seq<Seq<int>>>,
    s1hat: Seq<Seq<int>>,
    s2hat: Seq<Seq<int>>,
    t0hat: Seq<Seq<int>>,
    mu: Seq<u8>,
    rhoprime: Seq<u8>,
    n0: int,
    sig: Seq<u8>,
) -> (nonce: int)
    requires
        spec_sign_loop(p, mat, s1hat, s2hat, t0hat, mu, rhoprime, n0) == Ok::<
            Seq<u8>,
            DilithiumError,
        >(sig),
    ensures
        n0 <= nonce,
        spec_sign_attempt(p, mat, s1hat, s2hat, t0hat, mu, rhoprime, nonce) == Attempt::Signed(
            sig,
        ),
    decreases 65536 - n0,
{
    lemma_sign_loop_step(p, mat, s1hat, s2hat, t0hat, mu, rhoprime, n0);
    match spec_sign_attempt(p, mat, s1hat, s2hat, t0hat, mu, rhoprime, n0) {
        Attempt::Signed(s) => n0,
        Attempt::Failed => n0,
        Attempt::Rejected => lemma_sign_loop_signed(
            p,
            mat,
            s1hat,
            s2hat,
            t0hat,
            mu,
            rhoprime,
            n0 + 1,
            sig,
        ),
    }
}

/// What holds of an attempt that gave a signature: the challenge could be
/// made, every bound was kept, and the signature is made of the challenge
/// seed, `z` and the hints.
pub proof fn lemma_attempt_signed(
    p: ParameterSet,
    mat: Seq<Seq<Seq<int>>>,
    s1hat: Seq<Seq<int>>,
    s2hat: Seq<Seq<int>>,
    t0hat: Seq<Seq<int>>,
    mu: Seq<u8>,
    rhoprime: Seq<u8>,
    nonce: int,
    sig: Seq<u8>,
)
    requires
        spec_sign_attempt(p, mat, s1hat, s2hat, t0hat, mu, rhoprime, nonce) == Attempt::Signed(
            sig,
        ),
    ensures
        ({
            let y = spec_polyvec_uniform_gamma1(
                p.gamma1 as int,
                p.l as int,
                p.l as int,
                rhoprime,
                nonce,
            );
            let w = spec_sign_w(mat, y);
            let w1 = spec_polyvec_decompose_high(p.gamma2 as int, w);
            let w0 = spec_polyvec_decompose_low(p.gamma2 as int, w);
            let ctilde = spec_challenge_seed(p, mu, w1);
            let chat = spec_ntt(spec_challenge(p, ctilde));
            let z = spec_response_z(chat, s1hat, y);
            let r0 = spec_response_r0(chat, s2hat, w0);
            let ct0 = spec_response_ct0(chat, t0hat);
            let h = spec_response_hint(p.gamma2 as int, r0, ct0, w1);
            &&& spec_challenge_filled(p, ctilde)
            &&& !spec_polyvec_norm_reaches(z, p.gamma1 - p.beta)
            &&& !spec_polyvec_norm_reaches(r0, p.gamma2 - p.beta)
            &&& !spec_polyvec_norm_reaches(ct0, p.gamma2 as int)
            &&& spec_polyvec_sum(h) <= p.omega
            &&& sig == spec_pack_sig(p, ctilde, z, h)
        }),
{
    reveal(spec_sign_attempt);
}

/// The first `n` bytes of SHAKE-256 are `n` bytes.
pub proof fn lemma_shake256_len(input: Seq<u8>, n: nat)
    ensures
        spec_shake256(input, n).len() == n,
{
    crate::fips202::lemma_squeeze_append(
        crate::fips202::spec_shake_absorbed(136, input),
        136,
        136,
        n,
        0,
    );
}

/// The vectors of a key can be packed: `t1` fits ten bits, and `t0` and the
/// secret vectors lie where their packings can store them.
pub proof fn lemma_key_fits(
    mode: Algorithm,
    mat: Seq<Seq<Seq<int>>>,
    s1: Seq<Seq<int>>,
    s2: Seq<Seq<int>>,
)
    requires
        spec_matrix_within(mat, mode.spec_params().k as int, mode.spec_params().l as int),
        spec_vector_within(s1, mode.spec_params().l as int, 4),
        spec_vector_within(s2, mode.spec_params().k as int, 4),
        forall|j: int|
            0 <= j < s1.len() ==> spec_in_range(
                #[trigger] s1[j],
                -mode.spec_params().eta,
                mode.spec_params().eta as int,
            ),
        forall|j: int|
            0 <= j < s2.len() ==> spec_in_range(
                #[trigger] s2[j],
                -mode.spec_params().eta,
                mode.spec_params().eta as int,
            ),
    ensures
        ({
            let p = mode.spec_params();
            let t = spec_polyvec_caddq(spec_polyvec_add(spec_matrix_times(mat, s1), s2));
            let t1 = spec_polyvec_power2round_high(t);
            let t0 = spec_polyvec_power2round_low(t);
            &&& t1.len() == p.k
            &&& t0.len() == p.k
            &&& forall|i: int| 0 <= i < p.k ==> (#[trigger] t1[i]).len() == 256
            &&& forall|i: int| 0 <= i < p.k ==> (#[trigger] t0[i]).len() == 256
            &&& forall|i: int| 0 <= i < p.l ==> (#[trigger] s1[i]).len() == 256
            &&& forall|i: int| 0 <= i < p.k ==> (#[trigger] s2[i]).len() == 256
            &&& spec_t1_fits(t1)
            &&& spec_t0_fits(t0)
            &&& spec_eta_fits(p.eta as int, s1)
            &&& spec_eta_fits(p.eta as int, s2)
            &&& spec_vector_within(t0, p.k as int, 4096)
        }),
{
    let p = mode.spec_params();
    let l = p.l as int;
    let k = p.k as int;
    let eta = p.eta as int;
    let prod = spec_matrix_times(mat, s1);
    let t = spec_polyvec_caddq(spec_polyvec_add(prod, s2));
    let t1 = spec_polyvec_power2round_high(t);
    let t0 = spec_polyvec_power2round_low(t);
    lemma_params_derived(mode);
    lemma_vector_ntt_within(s1, l, 4);
    let s1hat = spec_polyvec_ntt(s1);
    assert(crate::bitpack::spec_pow2(3) == 8);
    assert(crate::bitpack::spec_pow2(4) == 16);
    assert(crate::bitpack::spec_pow2(10) == 1024);
    assert(crate::bitpack::spec_pow2(13) == 8192);
    assert(8380416 * 75423752 < 0x8000_0000 * 8380417);
    assert forall|i: int| 0 <= i < k implies (#[trigger] t1[i]).len() == 256 && t0[i].len() == 256
        && crate::polypack::spec_plain_fits(t1[i], 10) && crate::polypack::spec_offset_fits(
        4096,
        t0[i],
        13,
    ) && spec_poly_within(t0[i], 4096) by {
        let u = mat[i];
        assert(spec_vector_within(u, l, 8380416));
        assert forall|j: int| 0 <= j < l implies spec_poly_within(#[trigger] s1hat[j], 75423752) by {
            assert(spec_poly_within(s1hat[j], 67043340));
            assert forall|c: int| 0 <= c < s1hat[j].len() implies -75423752 <= #[trigger] s1hat[j][c]
                <= 75423752 by {
                assert(-67043340 <= s1hat[j][c] <= 67043340);
            }
        }
        let pp = spec_pointwise_acc(u, s1hat, l as nat);
        lemma_pointwise_acc_within(u, s1hat, l as nat, 8380416, 75423752);
        assert(spec_poly_within(pp, 58662912)) by {
            assert forall|c: int| 0 <= c < pp.len() implies -58662912 <= #[trigger] pp[c]
                <= 58662912 by {
                assert(-(l * 8380416) <= pp[c] <= l * 8380416);
            }
        }
        lemma_back_within(pp, 58662912);
        let ip = spec_invntt_tomont(spec_poly_reduce(pp));
        assert(prod[i] == ip);
        assert(spec_poly_within(s2[i], 4));
        assert forall|c: int| 0 <= c < 256 implies 0 <= #[trigger] t1[i][c] <= 1023 && -4095
            <= t0[i][c] <= 4096 by {
            assert(-4211197 <= ip[c] <= 4211197);
            assert(-4 <= s2[i][c] <= 4);
            assert(t[i][c] == spec_caddq(ip[c] + s2[i][c]));
            crate::rounding::lemma_power2round_recomposes(t[i][c]);
        }
        assert forall|c: int| 0 <= c < 256 implies 0 <= 4096 - #[trigger] t0[i][c]
            < crate::bitpack::spec_pow2(13) by {
            assert(-4095 <= t0[i][c] <= 4096);
        }
        assert forall|c: int| 0 <= c < 256 implies 0 <= #[trigger] t1[i][c]
            < crate::bitpack::spec_pow2(10) by {
            assert(0 <= t1[i][c] <= 1023);
        }
    }
    assert forall|i: int| 0 <= i < s1.len() implies crate::polypack::spec_offset_fits(
        eta,
        #[trigger] s1[i],
        crate::polypack::spec_eta_bits(eta),
    ) && s1[i].len() == 256 by {
        assert(spec_poly_within(s1[i], 4));
        assert(spec_in_range(s1[i], -eta, eta));
        assert forall|c: int| 0 <= c < 256 implies 0 <= eta - #[trigger] s1[i][c]
            < crate::bitpack::spec_pow2(crate::polypack::spec_eta_bits(eta)) by {}
    }
    assert forall|i: int| 0 <= i < s2.len() implies crate::polypack::spec_offset_fits(
        eta,
        #[trigger] s2[i],
        crate::polypack::spec_eta_bits(eta),
    ) && s2[i].len() == 256 by {
        assert(spec_poly_within(s2[i], 4));
        assert(spec_in_range(s2[i], -eta, eta));
        assert forall|c: int| 0 <= c < 256 implies 0 <= eta - #[trigger] s2[i][c]
            < crate::bitpack::spec_pow2(crate::polypack::spec_eta_bits(eta)) by {}
    }
}

/// The high parts that the verifier computes are those of the signer, for
/// the masking vector of the attempt `nonce` and the challenge of the seed
/// `ctilde`, where the signer kept the bounds on `w0 - c * s2` and `c * t0`.
proof fn lemma_attempt_w1(
    mode: Algorithm,
    rho: Seq<u8>,
    s1: Seq<Seq<int>>,
    s2: Seq<Seq<int>>,
    rhoprime: Seq<u8>,
    nonce: int,
    ctilde: Seq<u8>,
)
    requires
        spec_matrix_filled(mode.spec_params(), rho),
        spec_vector_within(s1, mode.spec_params().l as int, 4),
        spec_vector_within(s2, mode.spec_params().k as int, 4),
        ({
            let p = mode.spec_params();
            let mat = spec_matrix(p, rho);
            let t = spec_polyvec_caddq(spec_polyvec_add(spec_matrix_times(mat, s1), s2));
            let t0 = spec_polyvec_power2round_low(t);
            let y = spec_polyvec_uniform_gamma1(
                p.gamma1 as int,
                p.l as int,
                p.l as int,
                rhoprime,
                nonce,
            );
            let w = spec_sign_w(mat, y);
            let w0 = spec_polyvec_decompose_low(p.gamma2 as int, w);
            let chat = spec_ntt(spec_challenge(p, ctilde));
            let r0 = spec_response_r0(chat, spec_polyvec_ntt(s2), w0);
            let ct0 = spec_response_ct0(chat, spec_polyvec_ntt(t0));
            !spec_polyvec_norm_reaches(r0, p.gamma2 - p.beta) && !spec_polyvec_norm_reaches(
                ct0,
                p.gamma2 as int,
            )
        }),
    ensures
        ({
            let p = mode.spec_params();
            let mat = spec_matrix(p, rho);
            let t = spec_polyvec_caddq(spec_polyvec_add(spec_matrix_times(mat, s1), s2));
            let t1 = spec_polyvec_power2round_high(t);
            let t0 = spec_polyvec_power2round_low(t);
            let y = spec_polyvec_uniform_gamma1(
                p.gamma1 as int,
                p.l as int,
                p.l as int,
                rhoprime,
                nonce,
            );
            let w = spec_sign_w(mat, y);
            let w1 = spec_polyvec_decompose_high(p.gamma2 as int, w);
            let w0 = spec_polyvec_decompose_low(p.gamma2 as int, w);
            let chat = spec_ntt(spec_challenge(p, ctilde));
            let r0 = spec_response_r0(chat, spec_polyvec_ntt(s2), w0);
            let ct0 = spec_response_ct0(chat, spec_polyvec_ntt(t0));
            let h = spec_response_hint(p.gamma2 as int, r0, ct0, w1);
            let z = spec_response_z(chat, spec_polyvec_ntt(s1), y);
            &&& spec_verify_w1(p, mat, z, chat, t1, h) == w1
            &&& z.len() == p.l
            &&& h.len() == p.k
            &&& forall|j: int| 0 <= j < z.len() ==> (#[trigger] z[j]).len() == 256
            &&& forall|j: int| 0 <= j < h.len() ==> (#[trigger] h[j]).len() == 256
            &&& spec_polyvec_in_range(h, 0, 1)
        }),
{
    let p = mode.spec_params();
    let mat = spec_matrix(p, rho);
    let y = spec_polyvec_uniform_gamma1(p.gamma1 as int, p.l as int, p.l as int, rhoprime, nonce);
    let chat = spec_ntt(spec_challenge(p, ctilde));
    lemma_params_derived(mode);
    lemma_matrix_within(p, rho);
    lemma_uniform_gamma1_within(p.gamma1 as int, p.l as int, p.l as int, rhoprime, nonce);
    lemma_challenge_within(p, ctilde);
    lemma_w1_recovered(p, mat, s1, s2, y, chat);
    let t = spec_polyvec_caddq(spec_polyvec_add(spec_matrix_times(mat, s1), s2));
    let t0 = spec_polyvec_power2round_low(t);
    let w = spec_sign_w(mat, y);
    let w1 = spec_polyvec_decompose_high(p.gamma2 as int, w);
    let w0 = spec_polyvec_decompose_low(p.gamma2 as int, w);
    let r0 = spec_response_r0(chat, spec_polyvec_ntt(s2), w0);
    let ct0 = spec_response_ct0(chat, spec_polyvec_ntt(t0));
    lemma_polyvec_make_hint_range(p.gamma2 as int, spec_polyvec_add(r0, ct0), w1);
}

/// The last step of verification: where the unpacked parts are those of the
/// signer, `z` keeps its bound, the samplers had enough, and the high parts
/// computed are those whose hash with `mu` the challenge seed is, the
/// signature is accepted for `mu`, and for another `mu2` nothing but the
/// comparison of the challenge seeds can fail.
proof fn lemma_accepts(
    p: ParameterSet,
    rho: Seq<u8>,
    t1: Seq<Seq<int>>,
    mu: Seq<u8>,
    mu2: Seq<u8>,
    c: Seq<u8>,
    z: Seq<Seq<int>>,
    h: Seq<Seq<int>>,
    w1: Seq<Seq<int>>,
)
    requires
        !spec_polyvec_norm_reaches(z, p.gamma1 - p.beta),
        spec_challenge_filled(p, c),
        spec_matrix_filled(p, rho),
        spec_verify_w1(p, spec_matrix(p, rho), z, spec_ntt(spec_challenge(p, c)), t1, h) == w1,
        c == spec_challenge_seed(p, mu, w1),
    ensures
        spec_verify_unpacked(p, rho, t1, mu2, c, z, h) == Ok::<(), DilithiumError>(())
            || spec_verify_unpacked(p, rho, t1, mu2, c, z, h) == Err::<(), DilithiumError>(
            DilithiumError::ChallengeMismatch,
        ),
        mu2 == mu ==> spec_verify_unpacked(p, rho, t1, mu2, c, z, h) == Ok::<(), DilithiumError>(
            (),
        ),
{
}

/// The parts of the signature of an attempt, and the high parts `w1` of the
/// attempt: the challenge seed, the vector `z`, the hints, and `w1`.
#[verifier::opaque]
pub open spec fn spec_attempt_parts(
    p: ParameterSet,
    mat: Seq<Seq<Seq<int>>>,
    s1hat: Seq<Seq<int>>,
    s2hat: Seq<Seq<int>>,
    t0hat: Seq<Seq<int>>,
    mu: Seq<u8>,
    rhoprime: Seq<u8>,
    nonce: int,
) -> (Seq<u8>, Seq<Seq<int>>, Seq<Seq<int>>, Seq<Seq<int>>) {
    let y = spec_polyvec_uniform_gamma1(p.gamma1 as int, p.l as int, p.l as int, rhoprime, nonce);
    let w = spec_sign_w(mat, y);
    let w1 = spec_polyvec_decompose_high(p.gamma2 as int, w);
    let w0 = spec_polyvec_decompose_low(p.gamma2 as int, w);
    let ctilde = spec_challenge_seed(p, mu, w1);
    let chat = spec_ntt(spec_challenge(p, ctilde));
    let z = spec_response_z(chat, s1hat, y);
    let r0 = spec_response_r0(chat, s2hat, w0);
    let ct0 = spec_response_ct0(chat, t0hat);
    let h = spec_response_hint(p.gamma2 as int, r0, ct0, w1);
    (ctilde, z, h, w1)
}

/// What holds of the parts of an attempt that gave a signature, under the
/// vectors of a key: they keep their bounds, the signature is made of them,
/// and the verifier computes the high parts from them.
proof fn lemma_attempt_parts(
    mode: Algorithm,
    rho: Seq<u8>,
    s1: Seq<Seq<int>>,
    s2: Seq<Seq<int>>,
    mu: Seq<u8>,
    rhoprime: Seq<u8>,
    nonce: int,
    sig: Seq<u8>,
)
    requires
        spec_matrix_filled(mode.spec_params(), rho),
        spec_vector_within(s1, mode.spec_params().l as int, 4),
        spec_vector_within(s2, mode.spec_params().k as int, 4),
        ({
            let p = mode.spec_params();
            let mat = spec_matrix(p, rho);
            let t = spec_polyvec_caddq(spec_polyvec_add(spec_matrix_times(mat, s1), s2));
            let t0 = spec_polyvec_power2round_low(t);
            spec_sign_attempt(
                p,
                mat,
                spec_polyvec_ntt(s1),
                spec_polyvec_ntt(s2),
                spec_polyvec_ntt(t0),
                mu,
                rhoprime,
                nonce,
            ) == Attempt::Signed(sig)
        }),
    ensures
        ({
            let p = mode.spec_params();
            let mat = spec_matrix(p, rho);
            let t = spec_polyvec_caddq(spec_polyvec_add(spec_matrix_times(mat, s1), s2));
            let t1 = spec_polyvec_power2round_high(t);
            let t0 = spec_polyvec_power2round_low(t);
            let parts = spec_attempt_parts(
                p,
                mat,
                spec_polyvec_ntt(s1),
                spec_polyvec_ntt(s2),
                spec_polyvec_ntt(t0),
                mu,
                rhoprime,
                nonce,
            );
            &&& parts.0.len() == 32
            &&& parts.1.len() == p.l
            &&& parts.2.len() == p.k
            &&& forall|j: int| 0 <= j < parts.1.len() ==> (#[trigger] parts.1[j]).len() == 256
            &&& forall|j: int| 0 <= j < parts.2.len() ==> (#[trigger] parts.2[j]).len() == 256
            &&& spec_polyvec_in_range(parts.2, 0, 1)
            &&& !spec_polyvec_norm_reaches(parts.1, p.gamma1 - p.beta)
            &&& spec_polyvec_sum(parts.2) <= p.omega
            &&& sig == spec_pack_sig(p, parts.0, parts.1, parts.2)
            &&& spec_challenge_filled(p, parts.0)
            &&& spec_verify_w1(
                p,
                mat,
                parts.1,
                spec_ntt(spec_challenge(p, parts.0)),
                t1,
                parts.2,
            ) == parts.3
            &&& parts.0 == spec_challenge_seed(p, mu, parts.3)
        }),
{
    reveal(spec_attempt_parts);
    let p = mode.spec_params();
    let mat = spec_matrix(p, rho);
    let t = spec_polyvec_caddq(spec_polyvec_add(spec_matrix_times(mat, s1), s2));
    let t0 = spec_polyvec_power2round_low(t);
    let s1hat = spec_polyvec_ntt(s1);
    let s2hat = spec_polyvec_ntt(s2);
    let t0hat = spec_polyvec_ntt(t0);
    lemma_attempt_signed(p, mat, s1hat, s2hat, t0hat, mu, rhoprime, nonce, sig);
    let y = spec_polyvec_uniform_gamma1(p.gamma1 as int, p.l as int, p.l as int, rhoprime, nonce);
    let w1 = spec_polyvec_decompose_high(p.gamma2 as int, spec_sign_w(mat, y));
    let ctilde = spec_challenge_seed(p, mu, w1);
    lemma_attempt_w1(mode, rho, s1, s2, rhoprime, nonce, ctilde);
    lemma_shake256_len(mu + crate::polyvec::spec_polyvec_pack_w1(p.gamma2 as int, w1), 32);
}

/// A signature that an attempt gave under the vectors of a key, for the
/// message hash `mu`, against the parts of the public key: it has the length
/// of its level, its hints are encoded without fault, and its parts pass
/// every test of the verifier for `mu`; for another message hash `mu2`
/// nothing but the comparison of the challenge seeds can fail.
pub proof fn lemma_attempt_verifies(
    mode: Algorithm,
    rho: Seq<u8>,
    s1: Seq<Seq<int>>,
    s2: Seq<Seq<int>>,
    mu: Seq<u8>,
    mu2: Seq<u8>,
    rhoprime: Seq<u8>,
    nonce: int,
    sig: Seq<u8>,
)
    requires
        spec_matrix_filled(mode.spec_params(), rho),
        spec_vector_within(s1, mode.spec_params().l as int, 4),
        spec_vector_within(s2, mode.spec_params().k as int, 4),
        ({
            let p = mode.spec_params();
            let mat = spec_matrix(p, rho);
            let t = spec_polyvec_caddq(spec_polyvec_add(spec_matrix_times(mat, s1), s2));
            let t0 = spec_polyvec_power2round_low(t);
            spec_sign_attempt(
                p,
                mat,
                spec_polyvec_ntt(s1),
                spec_polyvec_ntt(s2),
                spec_polyvec_ntt(t0),
                mu,
                rhoprime,
                nonce,
            ) == Attempt::Signed(sig)
        }),
    ensures
        ({
            let p = mode.spec_params();
            let mat = spec_matrix(p, rho);
            let t = spec_polyvec_caddq(spec_polyvec_add(spec_matrix_times(mat, s1), s2));
            let t1 = spec_polyvec_power2round_high(t);
            let hb = spec_sig_hint_bytes(p, sig);
            let r = spec_verify_unpacked(
                p,
                rho,
                t1,
                mu2,
                sig.take(32),
                spec_unpack_polys_z(p.gamma1 as int, sig.skip(32), p.l as int),
                spec_decode_hint(hb, p.omega as int, p.k as int),
            );
            &&& sig.len() == p.signbytes
            &&& spec_decode_hint_error(hb, p.omega as int, p.k as nat) is None
            &&& (r == Ok::<(), DilithiumError>(()) || r == Err::<(), DilithiumError>(
                DilithiumError::ChallengeMismatch,
            ))
            &&& mu2 == mu ==> r == Ok::<(), DilithiumError>(())
        }),
{
    let p = mode.spec_params();
    let mat = spec_matrix(p, rho);
    let t = spec_polyvec_caddq(spec_polyvec_add(spec_matrix_times(mat, s1), s2));
    let t1 = spec_polyvec_power2round_high(t);
    let t0 = spec_polyvec_power2round_low(t);
    let parts = spec_attempt_parts(
        p,
        mat,
        spec_polyvec_ntt(s1),
        spec_polyvec_ntt(s2),
        spec_polyvec_ntt(t0),
        mu,
        rhoprime,
        nonce,
    );
    lemma_attempt_parts(mode, rho, s1, s2, mu, rhoprime, nonce, sig);
    lemma_verifies_from_facts(mode, rho, t1, mu, mu2, parts.0, parts.1, parts.2, parts.3, sig);
}

/// A signature made of the parts `ctilde`, `z` and `h` is accepted for `mu`
/// where these keep their bounds, the samplers had enough, and the verifier
/// computes from them the high parts `w1` whose hash with `mu` is `ctilde`;
/// and for another `mu2` nothing but the comparison of the challenge seeds
/// can fail.
proof fn lemma_verifies_from_facts(
    mode: Algorithm,
    rho: Seq<u8>,
    t1: Seq<Seq<int>>,
    mu: Seq<u8>,
    mu2: Seq<u8>,
    ctilde: Seq<u8>,
    z: Seq<Seq<int>>,
    h: Seq<Seq<int>>,
    w1: Seq<Seq<int>>,
    sig: Seq<u8>,
)
    requires
        ctilde.len() == 32,
        z.len() == mode.spec_params().l,
        h.len() == mode.spec_params().k,
        forall|j: int| 0 <= j < z.len() ==> (#[trigger] z[j]).len() == 256,
        forall|j: int| 0 <= j < h.len() ==> (#[trigger] h[j]).len() == 256,
        spec_polyvec_in_range(h, 0, 1),
        !spec_polyvec_norm_reaches(z, mode.spec_params().gamma1 - mode.spec_params().beta),
        spec_polyvec_sum(h) <= mode.spec_params().omega,
        sig == spec_pack_sig(mode.spec_params(), ctilde, z, h),
        spec_challenge_filled(mode.spec_params(), ctilde),
        spec_matrix_filled(mode.spec_params(), rho),
        spec_verify_w1(
            mode.spec_params(),
            spec_matrix(mode.spec_params(), rho),
            z,
            spec_ntt(spec_challenge(mode.spec_params(), ctilde)),
            t1,
            h,
        ) == w1,
        ctilde == spec_challenge_seed(mode.spec_params(), mu, w1),
    ensures
        ({
            let p = mode.spec_params();
            let hb = spec_sig_hint_bytes(p, sig);
            let r = spec_verify_unpacked(
                p,
                rho,
                t1,
                mu2,
                sig.take(32),
                spec_unpack_polys_z(p.gamma1 as int, sig.skip(32), p.l as int),
                spec_decode_hint(hb, p.omega as int, p.k as int),
            );
            &&& sig.len() == p.signbytes
            &&& spec_decode_hint_error(hb, p.omega as int, p.k as nat) is None
            &&& (r == Ok::<(), DilithiumError>(()) || r == Err::<(), DilithiumError>(
                DilithiumError::ChallengeMismatch,
            ))
            &&& mu2 == mu ==> r == Ok::<(), DilithiumError>(())
        }),
{
    let p = mode.spec_params();
    lemma_signature_parts(mode, ctilde, z, h, sig);
    lemma_accepts(p, rho, t1, mu, mu2, ctilde, z, h, w1);
}

/// A signature made of a challenge seed, a vector `z` that keeps its bound
/// and hints that are no more than `omega` gives these parts back.
proof fn lemma_signature_parts(
    mode: Algorithm,
    ctilde: Seq<u8>,
    z: Seq<Seq<int>>,
    h: Seq<Seq<int>>,
    sig: Seq<u8>,
)
    requires
        ctilde.len() == 32,
        z.len() == mode.spec_params().l,
        h.len() == mode.spec_params().k,
        forall|j: int| 0 <= j < z.len() ==> (#[trigger] z[j]).len() == 256,
        forall|j: int| 0 <= j < h.len() ==> (#[trigger] h[j]).len() == 256,
        spec_polyvec_in_range(h, 0, 1),
        !spec_polyvec_norm_reaches(z, mode.spec_params().gamma1 - mode.spec_params().beta),
        spec_polyvec_sum(h) <= mode.spec_params().omega,
        sig == spec_pack_sig(mode.spec_params(), ctilde, z, h),
    ensures
        ({
            let p = mode.spec_params();
            let hb = spec_sig_hint_bytes(p, sig);
            &&& sig.len() == p.signbytes
            &&& sig.take(32) == ctilde
            &&& spec_unpack_polys_z(p.gamma1 as int, sig.skip(32), p.l as int) == z
            &&& spec_decode_hint_error(hb, p.omega as int, p.k as nat) is None
            &&& spec_decode_hint(hb, p.omega as int, p.k as int) == h
        }),
{
    let p = mode.spec_params();
    lemma_params_derived(mode);
    lemma_polyvec_norm_below(z, p.gamma1 - p.beta);
    lemma_z_fits(p, z);
    lemma_polyvec_sum_counts(h, h.len());
    assert(h.take(h.len() as int) =~= h);
    assert forall|k: int, x: int| 0 <= k < h.len() && 0 <= x < 256 implies 0 <= #[trigger] h[k][x]
        <= 1 by {
        assert(spec_in_range(h[k], 0, 1));
    }
    lemma_unpack_pack_sig(mode, ctilde, z, h);
}

/// The parts of the keys of a seed: the matrix and the secret vectors keep
/// their ranges, and unpacking the packed keys gives the parts back.
pub proof fn lemma_key_summary(mode: Algorithm, seed: Seq<u8>)
    requires
        spec_keygen(mode.spec_params(), seed) is Some,
    ensures
        ({
            let p = mode.spec_params();
            let buf = spec_shake256(seed, 128);
            let rho = buf.subrange(0, 32);
            let rhoprime = buf.subrange(32, 96);
            let key = buf.subrange(96, 128);
            let s1 = spec_keygen_s1(p, rhoprime);
            let s2 = spec_keygen_s2(p, rhoprime);
            let mat = spec_matrix(p, rho);
            let t = spec_polyvec_caddq(spec_polyvec_add(spec_matrix_times(mat, s1), s2));
            let t1 = spec_polyvec_power2round_high(t);
            let t0 = spec_polyvec_power2round_low(t);
            let pk = spec_pack_pk(rho, t1);
            let tr = spec_shake256(pk, 32);
            let sk = spec_secret_key(p, rho, key, tr, s1, s2, t0);
            &&& spec_keygen(p, seed) == Some((pk, sk))
            &&& spec_matrix_filled(p, rho)
            &&& spec_vector_within(s1, p.l as int, 4)
            &&& spec_vector_within(s2, p.k as int, 4)
            &&& pk.len() == p.public_key_bytes
            &&& pk.take(32) == rho
            &&& spec_unpack_polys_t1(pk.skip(32), p.k as int) == t1
            &&& sk.len() == p.secret_key_bytes
            &&& sk.subrange(0, 32) == rho
            &&& sk.subrange(32, 64) == key
            &&& sk.subrange(64, 96) == tr
            &&& spec_unpack_polys_eta(p.eta as int, sk.skip(96), p.l as int) == s1
            &&& spec_unpack_polys_eta(
                p.eta as int,
                sk.skip(96 + p.l * p.polyeta_packedbytes),
                p.k as int,
            ) == s2
            &&& spec_unpack_polys_t0(
                sk.skip(96 + (p.l + p.k) * p.polyeta_packedbytes),
                p.k as int,
            ) == t0
        }),
{
    let p = mode.spec_params();
    let buf = spec_shake256(seed, 128);
    let rho = buf.subrange(0, 32);
    let rhoprime = buf.subrange(32, 96);
    let key = buf.subrange(96, 128);
    let s1 = spec_keygen_s1(p, rhoprime);
    let s2 = spec_keygen_s2(p, rhoprime);
    let mat = spec_matrix(p, rho);
    let t = spec_polyvec_caddq(spec_polyvec_add(spec_matrix_times(mat, s1), s2));
    let t1 = spec_polyvec_power2round_high(t);
    let t0 = spec_polyvec_power2round_low(t);
    let pk = spec_pack_pk(rho, t1);
    let tr = spec_shake256(pk, 32);
    lemma_params_derived(mode);
    lemma_shake256_len(seed, 128);
    lemma_shake256_len(pk, 32);
    assert(spec_keygen_filled(p, rho, rhoprime));
    lemma_uniform_eta_within(p.eta as int, p.l as int, rhoprime, 0);
    lemma_uniform_eta_within(p.eta as int, p.k as int, rhoprime, p.l as int);
    lemma_matrix_within(p, rho);
    lemma_key_fits(mode, mat, s1, s2);
    lemma_unpack_pack_pk(p, rho, t1);
    lemma_unpack_pack_sk(
        mode,
        rho,
        key,
        tr,
        s1,
        s2,
        t0,
        spec_zero_bytes(p.secret_key_bytes - p.secret_key_packed_bytes),
    );
}

/// Where signing with a secret key gives a signature, some attempt gave it,
/// with the matrix and the vectors that the key unpacks to.
pub proof fn lemma_sign_summary(
    p: ParameterSet,
    sk: Seq<u8>,
    m: Seq<u8>,
    rnd: Option<Seq<u8>>,
    s1: Seq<Seq<int>>,
    s2: Seq<Seq<int>>,
    t0: Seq<Seq<int>>,
    sig: Seq<u8>,
) -> (nonce: int)
    requires
        sk.len() == p.secret_key_bytes,
        spec_unpack_polys_eta(p.eta as int, sk.skip(96), p.l as int) == s1,
        spec_unpack_polys_eta(
            p.eta as int,
            sk.skip(96 + p.l * p.polyeta_packedbytes),
            p.k as int,
        ) == s2,
        spec_unpack_polys_t0(sk.skip(96 + (p.l + p.k) * p.polyeta_packedbytes), p.k as int) == t0,
        spec_sign(p, sk, m, rnd) == Ok::<Seq<u8>, DilithiumError>(sig),
    ensures
        spec_matrix_filled(p, sk.subrange(0, 32)),
        spec_sign_attempt(
            p,
            spec_matrix(p, sk.subrange(0, 32)),
            spec_polyvec_ntt(s1),
            spec_polyvec_ntt(s2),
            spec_polyvec_ntt(t0),
            spec_shake256(sk.subrange(64, 96) + m, 64),
            match rnd {
                Some(r) => r.take(64),
                None => spec_shake256(
                    sk.subrange(32, 64) + spec_shake256(sk.subrange(64, 96) + m, 64),
                    64,
                ),
            },
            nonce,
        ) == Attempt::Signed(sig),
{
    let mu = spec_shake256(sk.subrange(64, 96) + m, 64);
    let rhoprime = match rnd {
        Some(r) => r.take(64),
        None => spec_shake256(sk.subrange(32, 64) + mu, 64),
    };
    lemma_sign_unfold(p, sk, m, rnd, mu, rhoprime, s1, s2, t0);
    lemma_sign_loop_signed(
        p,
        spec_matrix(p, sk.subrange(0, 32)),
        spec_polyvec_ntt(s1),
        spec_polyvec_ntt(s2),
        spec_polyvec_ntt(t0),
        mu,
        rhoprime,
        0,
        sig,
    )
}

/// A signature made with the secret key of a seed is accepted under the
/// public key of the seed, for every message and whatever took the place of
/// the seed of the masking vectors.
pub proof fn lemma_signature_verifies(
    mode: Algorithm,
    seed: Seq<u8>,
    m: Seq<u8>,
    rnd: Option<Seq<u8>>,
)
    requires
        spec_keygen(mode.spec_params(), seed) is Some,
        spec_sign(mode.spec_params(), spec_keygen(mode.spec_params(), seed)->Some_0.1, m, rnd)
            is Ok,
    ensures
        spec_verify(
            mode.spec_params(),
            spec_keygen(mode.spec_params(), seed)->Some_0.0,
            m,
            spec_sign(
                mode.spec_params(),
                spec_keygen(mode.spec_params(), seed)->Some_0.1,
                m,
                rnd,
            )->Ok_0,
        ) == Ok::<(), DilithiumError>(()),
{
    let p = mode.spec_params();
    let buf = spec_shake256(seed, 128);
    let rho = buf.subrange(0, 32);
    let rhoprime = buf.subrange(32, 96);
    let s1 = spec_keygen_s1(p, rhoprime);
    let s2 = spec_keygen_s2(p, rhoprime);
    let mat = spec_matrix(p, rho);
    let t = spec_polyvec_caddq(spec_polyvec_add(spec_matrix_times(mat, s1), s2));
    let t0 = spec_polyvec_power2round_low(t);
    let pk = spec_keygen(p, seed)->Some_0.0;
    let sk = spec_keygen(p, seed)->Some_0.1;
    let sig = spec_sign(p, sk, m, rnd)->Ok_0;
    lemma_key_summary(mode, seed);
    let nonce = lemma_sign_summary(p, sk, m, rnd, s1, s2, t0, sig);
    let mu = spec_shake256(sk.subrange(64, 96) + m, 64);
    let rp = match rnd {
        Some(r) => r.take(64),
        None => spec_shake256(sk.subrange(32, 64) + mu, 64),
    };
    lemma_attempt_verifies(mode, rho, s1, s2, mu, mu, rp, nonce, sig);
    lemma_verify_unfold(p, pk, m, sig);
}

/// The hash of a message that signer and verifier start from: that of the
/// hash of the public key `pk`, followed by the message `m`.
pub open spec fn spec_message_hash(pk: Seq<u8>, m: Seq<u8>) -> Seq<u8> {
    spec_shake256(spec_shake256(pk, 32) + m, 64)
}

/// The high parts that the verifier computes from the public key `pk` and
/// the signature `sig`. They do not depend on the message.
pub open spec fn spec_signature_w1(p: ParameterSet, pk: Seq<u8>, sig: Seq<u8>) -> Seq<Seq<int>> {
    spec_verify_w1(
        p,
        spec_matrix(p, pk.take(32)),
        spec_unpack_polys_z(p.gamma1 as int, sig.skip(32), p.l as int),
        spec_ntt(spec_challenge(p, sig.take(32))),
        spec_unpack_polys_t1(pk.skip(32), p.k as int),
        spec_decode_hint(spec_sig_hint_bytes(p, sig), p.omega as int, p.k as int),
    )
}

/// Parts of a key and a signature that fit each other for the message hash
/// `mu` fit each other for the hash `mu2` if it gives the same challenge
/// seed, and else are refused with a challenge mismatch.
proof fn lemma_unpacked_other_hash(
    p: ParameterSet,
    rho: Seq<u8>,
    t1: Seq<Seq<int>>,
    mu: Seq<u8>,
    mu2: Seq<u8>,
    c: Seq<u8>,
    z: Seq<Seq<int>>,
    h: Seq<Seq<int>>,
)
    requires
        spec_verify_unpacked(p, rho, t1, mu, c, z, h) == Ok::<(), DilithiumError>(()),
    ensures
        ({
            let w1 = spec_verify_w1(
                p,
                spec_matrix(p, rho),
                z,
                spec_ntt(spec_challenge(p, c)),
                t1,
                h,
            );
            spec_verify_unpacked(p, rho, t1, mu2, c, z, h) == (if spec_challenge_seed(p, mu2, w1)
                == spec_challenge_seed(p, mu, w1) {
                Ok::<(), DilithiumError>(())
            } else {
                Err::<(), DilithiumError>(DilithiumError::ChallengeMismatch)
            })
        }),
{
}

/// A signature made with the secret key of a seed for the message `m` is
/// refused for another message `m2` with a challenge mismatch, and for no
/// other reason, unless the two messages give the same challenge seed with
/// the high parts of the signature: then, and only then, it is accepted.
pub proof fn lemma_other_message_mismatch(
    mode: Algorithm,
    seed: Seq<u8>,
    m: Seq<u8>,
    m2: Seq<u8>,
    rnd: Option<Seq<u8>>,
)
    requires
        spec_keygen(mode.spec_params(), seed) is Some,
        spec_sign(mode.spec_params(), spec_keygen(mode.spec_params(), seed)->Some_0.1, m, rnd)
            is Ok,
    ensures
        ({
            let p = mode.spec_params();
            let pk = spec_keygen(p, seed)->Some_0.0;
            let sig = spec_sign(p, spec_keygen(p, seed)->Some_0.1, m, rnd)->Ok_0;
            let w1 = spec_signature_w1(p, pk, sig);
            spec_verify(p, pk, m2, sig) == (if spec_challenge_seed(
                p,
                spec_message_hash(pk, m2),
                w1,
            ) == spec_challenge_seed(p, spec_message_hash(pk, m), w1) {
                Ok::<(), DilithiumError>(())
            } else {
                Err::<(), DilithiumError>(DilithiumError::ChallengeMismatch)
            })
        }),
{
    let p = mode.spec_params();
    let pk = spec_keygen(p, seed)->Some_0.0;
    let sk = spec_keygen(p, seed)->Some_0.1;
    let sig = spec_sign(p, sk, m, rnd)->Ok_0;
    lemma_signature_verifies(mode, seed, m, rnd);
    if sig.len() != p.signbytes {
        lemma_verify_bad_signature(p, pk, m, sig);
    } else if pk.len() != p.public_key_bytes {
        lemma_verify_bad_key(p, pk, m, sig);
    } else {
        lemma_verify_unfold(p, pk, m, sig);
        lemma_verify_unfold(p, pk, m2, sig);
        lemma_unpacked_other_hash(
            p,
            pk.take(32),
            spec_unpack_polys_t1(pk.skip(32), p.k as int),
            spec_message_hash(pk, m),
            spec_message_hash(pk, m2),
            sig.take(32),
            spec_unpack_polys_z(p.gamma1 as int, sig.skip(32), p.l as int),
            spec_decode_hint(spec_sig_hint_bytes(p, sig), p.omega as int, p.k as int),
        );
    }
}

/// A signature made with the secret key of a seed, with nothing but its
/// challenge seed changed, is accepted or refused with a challenge mismatch:
/// no other test of the verifier fails.
pub proof fn lemma_changed_challenge_seed(
    mode: Algorithm,
    seed: Seq<u8>,
    m: Seq<u8>,
    rnd: Option<Seq<u8>>,
    changed: Seq<u8>,
)
    requires
        spec_keygen(mode.spec_params(), seed) is Some,
        spec_sign(mode.spec_params(), spec_keygen(mode.spec_params(), seed)->Some_0.1, m, rnd)
            is Ok,
        changed.len() == mode.spec_params().signbytes,
        changed.skip(32) == spec_sign(
            mode.spec_params(),
            spec_keygen(mode.spec_params(), seed)->Some_0.1,
            m,
            rnd,
        )->Ok_0.skip(32),
    ensures
        ({
            let r = spec_verify(
                mode.spec_params(),
                spec_keygen(mode.spec_params(), seed)->Some_0.0,
                m,
                changed,
            );
            r == Ok::<(), DilithiumError>(()) || r == Err::<(), DilithiumError>(
                DilithiumError::ChallengeMismatch,
            )
        }),
{
    let p = mode.spec_params();
    let pk = spec_keygen(p, seed)->Some_0.0;
    let sk = spec_keygen(p, seed)->Some_0.1;
    let sig = spec_sign(p, sk, m, rnd)->Ok_0;
    lemma_signature_verifies(mode, seed, m, rnd);
    if sig.len() != p.signbytes {
        lemma_verify_bad_signature(p, pk, m, sig);
    } else if pk.len() != p.public_key_bytes {
        lemma_verify_bad_key(p, pk, m, sig);
    } else {
        lemma_verify_unfold(p, pk, m, sig);
        lemma_verify_unfold(p, pk, m, changed);
        lemma_same_hint_bytes(mode, sig, changed);
        lemma_unpacked_other_seed(
            p,
            pk.take(32),
            spec_unpack_polys_t1(pk.skip(32), p.k as int),
            spec_message_hash(pk, m),
            sig.take(32),
            changed.take(32),
            spec_unpack_polys_z(p.gamma1 as int, sig.skip(32), p.l as int),
            spec_decode_hint(spec_sig_hint_bytes(p, sig), p.omega as int, p.k as int),
        );
    }
}

/// Two signatures that agree behind the challenge seed hold the same encoded
/// hints.
proof fn lemma_same_hint_bytes(mode: Algorithm, sig: Seq<u8>, changed: Seq<u8>)
    requires
        sig.len() == mode.spec_params().signbytes,
        changed.len() == sig.len(),
        changed.skip(32) == sig.skip(32),
    ensures
        spec_sig_hint_bytes(mode.spec_params(), changed) == spec_sig_hint_bytes(
            mode.spec_params(),
            sig,
        ),
{
    let p = mode.spec_params();
    lemma_params_derived(mode);
    let at = 32 + p.l * p.polyz_packedbytes;
    assert(32 <= at <= sig.len());
    assert forall|x: int| 0 <= x < sig.len() - at implies changed.skip(at)[x] == sig.skip(at)[x] by {
        assert(changed.skip(32)[at - 32 + x] == sig.skip(32)[at - 32 + x]);
    }
    assert(changed.skip(at) =~= sig.skip(at));
}

/// Parts of a key and a signature that fit each other are, with another
/// challenge seed, accepted or refused with a challenge mismatch.
proof fn lemma_unpacked_other_seed(
    p: ParameterSet,
    rho: Seq<u8>,
    t1: Seq<Seq<int>>,
    mu: Seq<u8>,
    c: Seq<u8>,
    c2: Seq<u8>,
    z: Seq<Seq<int>>,
    h: Seq<Seq<int>>,
)
    requires
        spec_verify_unpacked(p, rho, t1, mu, c, z, h) == Ok::<(), DilithiumError>(()),
    ensures
        spec_verify_unpacked(p, rho, t1, mu, c2, z, h) == Ok::<(), DilithiumError>(())
            || spec_verify_unpacked(p, rho, t1, mu, c2, z, h) == Err::<(), DilithiumError>(
            DilithiumError::ChallengeMismatch,
        ),
{
}

/// Signing without given randomness is a function of the key and the
/// message: two results for the same key and message are the same.
pub proof fn lemma_signing_is_deterministic(
    p: ParameterSet,
    sk: Seq<u8>,
    m: Seq<u8>,
    first: Result<Seq<u8>, DilithiumError>,
    second: Result<Seq<u8>, DilithiumError>,
)
    requires
        first == spec_sign(p, sk, m, None),
        second == spec_sign(p, sk, m, None),
    ensures
        first == second,
{
}

} // verus!
