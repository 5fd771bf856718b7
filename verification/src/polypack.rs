use vstd::prelude::*;
use crate::bitpack::{
    lemma_unpack_pack_fields, pack_fields, spec_fields_fit, spec_nats, spec_pack_fields,
    spec_pow2, spec_unpack_field, spec_unpack_fields, unpack_field,
};
use crate::params::DilithiumParams;
use crate::poly::{spec_in_range, Poly};

verus! {

/// `c - p[i]` at every place: how a coefficient around 0 is stored as an
/// unsigned field, and how the field is turned back.
pub open spec fn spec_offset(c: int, p: Seq<int>) -> Seq<int> {
    Seq::new(256, |i: int| c - p[i])
}

/// The number of bits that a coefficient of a secret vector takes.
pub open spec fn spec_eta_bits(eta: int) -> int {
    if eta == 2 {
        3
    } else {
        4
    }
}

/// The number of bits that a coefficient of the vector `z` takes.
pub open spec fn spec_gamma1_bits(gamma1: int) -> int {
    if gamma1 == 131072 {
        18
    } else {
        20
    }
}

/// The number of bits that a high part takes.
pub open spec fn spec_w1_bits(gamma2: int) -> int {
    if gamma2 == 95232 {
        6
    } else {
        4
    }
}

/// The packed form of a polynomial with coefficients in `[0, 2^10)`.
pub open spec fn spec_polyt1_pack(p: Seq<int>) -> Seq<u8> {
    spec_pack_fields(p, 10)
}

pub open spec fn spec_polyt1_unpack(bytes: Seq<u8>) -> Seq<int> {
    spec_unpack_fields(bytes, 10)
}

/// The packed form of a polynomial with coefficients in `(-2^12, 2^12]`.
pub open spec fn spec_polyt0_pack(p: Seq<int>) -> Seq<u8> {
    spec_pack_fields(spec_offset(4096, p), 13)
}

pub open spec fn spec_polyt0_unpack(bytes: Seq<u8>) -> Seq<int> {
    spec_offset(4096, spec_unpack_fields(bytes, 13))
}

/// The packed form of a polynomial with coefficients in `[-eta, eta]`.
pub open spec fn spec_polyeta_pack(eta: int, p: Seq<int>) -> Seq<u8> {
    spec_pack_fields(spec_offset(eta, p), spec_eta_bits(eta))
}

pub open spec fn spec_polyeta_unpack(eta: int, bytes: Seq<u8>) -> Seq<int> {
    spec_offset(eta, spec_unpack_fields(bytes, spec_eta_bits(eta)))
}

/// The packed form of a polynomial with coefficients in `(-gamma1, gamma1]`.
pub open spec fn spec_polyz_pack(gamma1: int, p: Seq<int>) -> Seq<u8> {
    spec_pack_fields(spec_offset(gamma1, p), spec_gamma1_bits(gamma1))
}

pub open spec fn spec_polyz_unpack(gamma1: int, bytes: Seq<u8>) -> Seq<int> {
    spec_offset(gamma1, spec_unpack_fields(bytes, spec_gamma1_bits(gamma1)))
}

/// The packed form of a polynomial of high parts.
pub open spec fn spec_polyw1_pack(gamma2: int, p: Seq<int>) -> Seq<u8> {
    spec_pack_fields(p, spec_w1_bits(gamma2))
}

/// What `spec_polyw1_pack` packed, read back.
pub open spec fn spec_polyw1_unpack(gamma2: int, bytes: Seq<u8>) -> Seq<int> {
    spec_unpack_fields(bytes, spec_w1_bits(gamma2))
}

/// Whether `c - p[i]` fits `w` bits at every place.
pub open spec fn spec_offset_fits(c: int, p: Seq<int>, w: int) -> bool {
    forall|i: int| 0 <= i < 256 ==> 0 <= c - #[trigger] p[i] < spec_pow2(w)
}

/// Whether `p[i]` fits `w` bits at every place.
pub open spec fn spec_plain_fits(p: Seq<int>, w: int) -> bool {
    forall|i: int| 0 <= i < 256 ==> 0 <= #[trigger] p[i] < spec_pow2(w)
}

fn pack_poly(r: &mut [u8], a: &Poly, c: i32, flip: bool, w: usize)
    requires
        1 <= w <= 20,
        0 <= c <= 1048576,
        old(r).len() >= 32 * w,
        flip ==> spec_offset_fits(c as int, a@, w as int),
        !flip ==> spec_plain_fits(a@, w as int),
    ensures
        final(r).len() == old(r).len(),
        final(r)@.take(32 * w) == spec_pack_fields(
            if flip {
                spec_offset(c as int, a@)
            } else {
                a@
            },
            w as int,
        ),
        final(r)@.skip(32 * w) == old(r)@.skip(32 * w),
{
    let ghost stored = if flip {
        spec_offset(c as int, a@)
    } else {
        a@
    };
    let mut vals: [u32; 256] = [0u32; 256];
    let mut i: usize = 0;
    while i < 256
        invariant
            i <= 256,
            1 <= w <= 20,
            0 <= c <= 1048576,
            stored == (if flip {
                spec_offset(c as int, a@)
            } else {
                a@
            }),
            flip ==> spec_offset_fits(c as int, a@, w as int),
            !flip ==> spec_plain_fits(a@, w as int),
            forall|k: int| 0 <= k <= 20 ==> 1 <= #[trigger] spec_pow2(k) <= 1048576,
            forall|j: int| 0 <= j < i ==> #[trigger] vals@[j] as int == stored[j],
            forall|j: int| 0 <= j < i ==> 0 <= #[trigger] stored[j] < spec_pow2(w as int),
        decreases 256 - i,
    {
        let x: i32 = a.coeffs[i];
        proof {
            assert(x as int == a@[i as int]);
            if flip {
                assert(0 <= c - a@[i as int] < spec_pow2(w as int));
            } else {
                assert(0 <= a@[i as int] < spec_pow2(w as int));
            }
        }
        if flip {
            vals[i] = (c - x) as u32;
        } else {
            vals[i] = x as u32;
        }
        i += 1;
    }
    proof {
        assert(spec_nats(vals@) =~= stored);
        assert forall|j: int| 0 <= j < spec_nats(vals@).len() implies 0 <= #[trigger] spec_nats(
            vals@,
        )[j] < spec_pow2(w as int) by {
            assert(spec_nats(vals@)[j] == stored[j]);
        }
    }
    pack_fields(r, &vals, w);
}

fn unpack_poly(r: &mut Poly, a: &[u8], c: i32, flip: bool, w: usize)
    requires
        1 <= w <= 20,
        0 <= c <= 1048576,
        a.len() >= 32 * w,
    ensures
        final(r)@ == (if flip {
            spec_offset(c as int, spec_unpack_fields(a@, w as int))
        } else {
            spec_unpack_fields(a@, w as int)
        }),
        flip ==> spec_in_range(final(r)@, c - spec_pow2(w as int) + 1, c as int),
        !flip ==> spec_in_range(final(r)@, 0, spec_pow2(w as int) - 1),
{
    let ghost fields = spec_unpack_fields(a@, w as int);
    let ghost result = if flip {
        spec_offset(c as int, fields)
    } else {
        fields
    };
    let mut i: usize = 0;
    while i < 256
        invariant
            i <= 256,
            1 <= w <= 20,
            0 <= c <= 1048576,
            a.len() >= 32 * w,
            fields == spec_unpack_fields(a@, w as int),
            result == (if flip {
                spec_offset(c as int, fields)
            } else {
                fields
            }),
            forall|k: int| 0 <= k <= 20 ==> 1 <= #[trigger] spec_pow2(k) <= 1048576,
            forall|j: int| 0 <= j < i ==> #[trigger] r.coeffs@[j] as int == result[j],
            forall|j: int| 0 <= j < i ==> 0 <= #[trigger] fields[j] < spec_pow2(w as int),
        decreases 256 - i,
    {
        let v: u32 = unpack_field(a, w, i);
        if flip {
            r.coeffs[i] = c - (v as i32);
        } else {
            r.coeffs[i] = v as i32;
        }
        i += 1;
    }
    proof {
        assert(r@ =~= result);
        assert forall|j: int| 0 <= j < 256 implies (if flip {
            c - spec_pow2(w as int) + 1 <= #[trigger] r@[j] <= c
        } else {
            0 <= r@[j] <= spec_pow2(w as int) - 1
        }) by {
            assert(0 <= fields[j] < spec_pow2(w as int));
        }
    }
}

/// Packs a polynomial with coefficients in `[eta - 2^w + 1, eta]`, where `w`
/// is the number of bits of a field, into the first bytes of `r`.
pub fn polyeta_pack<P: DilithiumParams>(r: &mut [u8], a: &Poly)
    requires
        old(r).len() >= P::mode().spec_params().polyeta_packedbytes,
        spec_offset_fits(
            P::mode().spec_params().eta as int,
            a@,
            spec_eta_bits(P::mode().spec_params().eta as int),
        ),
    ensures
        final(r).len() == old(r).len(),
        final(r)@.take(P::mode().spec_params().polyeta_packedbytes as int) == spec_polyeta_pack(
            P::mode().spec_params().eta as int,
            a@,
        ),
        final(r)@.skip(P::mode().spec_params().polyeta_packedbytes as int) == old(r)@.skip(
            P::mode().spec_params().polyeta_packedbytes as int,
        ),
{
    let eta: i32 = P::algorithm().params().eta;
    if eta == 2 {
        pack_poly(r, a, eta, true, 3);
    } else {
        pack_poly(r, a, eta, true, 4);
    }
}

/// Reads a polynomial of the secret vectors from the first bytes of `a`.
pub fn polyeta_unpack<P: DilithiumParams>(r: &mut Poly, a: &[u8])
    requires
        a.len() >= P::mode().spec_params().polyeta_packedbytes,
    ensures
        final(r)@ == spec_polyeta_unpack(P::mode().spec_params().eta as int, a@),
        spec_in_range(final(r)@, -11, 4),
{
    let eta: i32 = P::algorithm().params().eta;
    if eta == 2 {
        unpack_poly(r, a, eta, true, 3);
    } else {
        unpack_poly(r, a, eta, true, 4);
    }
}

/// Packs a polynomial with coefficients in `[0, 2^10)` into the first 320
/// bytes of `r`.
pub fn polyt1_pack(r: &mut [u8], a: &Poly)
    requires
        old(r).len() >= 320,
        spec_plain_fits(a@, 10),
    ensures
        final(r).len() == old(r).len(),
        final(r)@.take(320) == spec_polyt1_pack(a@),
        final(r)@.skip(320) == old(r)@.skip(320),
{
    pack_poly(r, a, 0, false, 10);
}

/// Reads a polynomial of ten-bit coefficients from the first 320 bytes of `a`.
pub fn polyt1_unpack(r: &mut Poly, a: &[u8])
    requires
        a.len() >= 320,
    ensures
        final(r)@ == spec_polyt1_unpack(a@),
        spec_in_range(final(r)@, 0, 1023),
{
    unpack_poly(r, a, 0, false, 10);
}

/// Packs a polynomial with coefficients in `(-2^12, 2^12]` into the first
/// 416 bytes of `r`.
pub fn polyt0_pack(r: &mut [u8], a: &Poly)
    requires
        old(r).len() >= 416,
        spec_offset_fits(4096, a@, 13),
    ensures
        final(r).len() == old(r).len(),
        final(r)@.take(416) == spec_polyt0_pack(a@),
        final(r)@.skip(416) == old(r)@.skip(416),
{
    pack_poly(r, a, 4096, true, 13);
}

/// Reads a polynomial with coefficients in `(-2^12, 2^12]` from the first
/// 416 bytes of `a`.
pub fn polyt0_unpack(r: &mut Poly, a: &[u8])
    requires
        a.len() >= 416,
    ensures
        final(r)@ == spec_polyt0_unpack(a@),
        spec_in_range(final(r)@, -4095, 4096),
{
    unpack_poly(r, a, 4096, true, 13);
}

/// Packs a polynomial with coefficients in `(-gamma1, gamma1]` into the first
/// bytes of `r`.
pub fn polyz_pack<P: DilithiumParams>(r: &mut [u8], a: &Poly)
    requires
        old(r).len() >= P::mode().spec_params().polyz_packedbytes,
        spec_offset_fits(
            P::mode().spec_params().gamma1 as int,
            a@,
            spec_gamma1_bits(P::mode().spec_params().gamma1 as int),
        ),
    ensures
        final(r).len() == old(r).len(),
        final(r)@.take(P::mode().spec_params().polyz_packedbytes as int) == spec_polyz_pack(
            P::mode().spec_params().gamma1 as int,
            a@,
        ),
        final(r)@.skip(P::mode().spec_params().polyz_packedbytes as int) == old(r)@.skip(
            P::mode().spec_params().polyz_packedbytes as int,
        ),
{
    let gamma1: i32 = P::algorithm().params().gamma1;
    if gamma1 == 131072 {
        pack_poly(r, a, gamma1, true, 18);
    } else {
        pack_poly(r, a, gamma1, true, 20);
    }
}

/// Reads a polynomial with coefficients in `(-gamma1, gamma1]` from the first
/// bytes of `a`.
pub fn polyz_unpack<P: DilithiumParams>(r: &mut Poly, a: &[u8])
    requires
        a.len() >= P::mode().spec_params().polyz_packedbytes,
    ensures
        final(r)@ == spec_polyz_unpack(P::mode().spec_params().gamma1 as int, a@),
        spec_in_range(
            final(r)@,
            -P::mode().spec_params().gamma1 + 1,
            P::mode().spec_params().gamma1 as int,
        ),
{
    let gamma1: i32 = P::algorithm().params().gamma1;
    if gamma1 == 131072 {
        unpack_poly(r, a, gamma1, true, 18);
    } else {
        unpack_poly(r, a, gamma1, true, 20);
    }
}

/// Packs a polynomial of high parts, which fit six bits where `gamma2` is
/// `(Q - 1) / 88` and four bits otherwise, into the first bytes of `r`.
pub fn polyw1_pack<P: DilithiumParams>(r: &mut [u8], a: &Poly)
    requires
        old(r).len() >= P::mode().spec_params().polyw1_packedbytes,
        spec_plain_fits(a@, spec_w1_bits(P::mode().spec_params().gamma2 as int)),
    ensures
        final(r).len() == old(r).len(),
        final(r)@.take(P::mode().spec_params().polyw1_packedbytes as int) == spec_polyw1_pack(
            P::mode().spec_params().gamma2 as int,
            a@,
        ),
        final(r)@.skip(P::mode().spec_params().polyw1_packedbytes as int) == old(r)@.skip(
            P::mode().spec_params().polyw1_packedbytes as int,
        ),
{
    let gamma2: i32 = P::algorithm().params().gamma2;
    if gamma2 == 95232 {
        pack_poly(r, a, 0, false, 6);
    } else {
        pack_poly(r, a, 0, false, 4);
    }
}

/// The sequences `parts`, one after the other.
pub open spec fn spec_concat(parts: Seq<Seq<u8>>) -> Seq<u8>
    decreases parts.len(),
{
    if parts.len() == 0 {
        Seq::<u8>::empty()
    } else {
        spec_concat(parts.drop_last()) + parts.last()
    }
}

/// Where every part has `n` bytes, `k` parts have `k * n` bytes.
pub proof fn lemma_concat_len(parts: Seq<Seq<u8>>, n: int)
    requires
        forall|k: int| 0 <= k < parts.len() ==> (#[trigger] parts[k]).len() == n,
    ensures
        spec_concat(parts).len() == parts.len() * n,
    decreases parts.len(),
{
    if parts.len() > 0 {
        lemma_concat_len(parts.drop_last(), n);
        assert(parts.len() * n == (parts.len() - 1) * n + n) by (nonlinear_arith);
    } else {
        assert(parts.len() * n == 0) by (nonlinear_arith)
            requires
                parts.len() == 0,
        ;
    }
}

/// `c - (c - p[i])` is `p[i]`.
pub proof fn lemma_offset_twice(c: int, p: Seq<int>)
    requires
        p.len() == 256,
    ensures
        spec_offset(c, spec_offset(c, p)) == p,
{
    assert(spec_offset(c, spec_offset(c, p)) =~= p);
}

/// Unpacking a packed polynomial of ten-bit coefficients gives it back.
pub proof fn lemma_polyt1_unpack_pack(p: Seq<int>)
    requires
        p.len() == 256,
        spec_plain_fits(p, 10),
    ensures
        spec_polyt1_unpack(spec_polyt1_pack(p)) == p,
{
    lemma_unpack_pack_fields(p, 10);
}

/// Unpacking a packed polynomial with coefficients in `(-2^12, 2^12]` gives it
/// back.
pub proof fn lemma_polyt0_unpack_pack(p: Seq<int>)
    requires
        p.len() == 256,
        spec_offset_fits(4096, p, 13),
    ensures
        spec_polyt0_unpack(spec_polyt0_pack(p)) == p,
{
    lemma_unpack_pack_fields(spec_offset(4096, p), 13);
    lemma_offset_twice(4096, p);
}

/// Unpacking a packed polynomial of a secret vector gives it back.
pub proof fn lemma_polyeta_unpack_pack(eta: int, p: Seq<int>)
    requires
        eta == 2 || eta == 4,
        p.len() == 256,
        spec_offset_fits(eta, p, spec_eta_bits(eta)),
    ensures
        spec_polyeta_unpack(eta, spec_polyeta_pack(eta, p)) == p,
{
    lemma_unpack_pack_fields(spec_offset(eta, p), spec_eta_bits(eta));
    lemma_offset_twice(eta, p);
}

/// Unpacking a packed polynomial with coefficients in `(-gamma1, gamma1]`
/// gives it back.
pub proof fn lemma_polyz_unpack_pack(gamma1: int, p: Seq<int>)
    requires
        gamma1 == 131072 || gamma1 == 524288,
        p.len() == 256,
        spec_offset_fits(gamma1, p, spec_gamma1_bits(gamma1)),
    ensures
        spec_polyz_unpack(gamma1, spec_polyz_pack(gamma1, p)) == p,
{
    lemma_unpack_pack_fields(spec_offset(gamma1, p), spec_gamma1_bits(gamma1));
    lemma_offset_twice(gamma1, p);
}

/// The fields of a packed polynomial of high parts are the high parts.
pub proof fn lemma_polyw1_unpack_pack(gamma2: int, p: Seq<int>)
    requires
        gamma2 == 95232 || gamma2 == 261888,
        p.len() == 256,
        spec_plain_fits(p, spec_w1_bits(gamma2)),
    ensures
        spec_polyw1_unpack(gamma2, spec_polyw1_pack(gamma2, p)) == p,
{
    lemma_unpack_pack_fields(p, spec_w1_bits(gamma2));
}

} // verus!
