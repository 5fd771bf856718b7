use vstd::prelude::*;
use crate::ntt::{
    invntt_tomont, ntt, spec_invntt_tomont, spec_ntt, INVNTT_INPUT_BOUND, INVNTT_OUTPUT_BOUND,
    NTT_INPUT_BOUND,
};
use crate::params::{filled_array, DilithiumParams};
use crate::reduce::{
    caddq, montgomery_reduce, reduce32, spec_bounded, spec_caddq, spec_ints,
    spec_montgomery_reduce, spec_reduce32,
};
use crate::rounding::{
    decompose, make_hint, power2round, spec_decompose, spec_high_parts, spec_make_hint,
    spec_power2round, spec_use_hint, use_hint,
};

verus! {

/// A polynomial of the ring: its 256 coefficients, that of `X^0` first.
#[derive(Copy, Clone, Debug)]
pub struct Poly {
    pub coeffs: [i32; 256],
}

impl View for Poly {
    type V = Seq<int>;

    /// The coefficients as integers.
    open spec fn view(&self) -> Seq<int> {
        spec_ints(self.coeffs@)
    }
}

impl Default for Poly {
    /// The zero polynomial.
    fn default() -> (p: Poly)
        ensures
            p@ == spec_poly_zero(),
    {
        let p = Poly { coeffs: filled_array::<i32, 256>(0) };
        proof {
            assert forall|i: int| 0 <= i < 256 implies #[trigger] p@[i] == 0 by {
                assert(p.coeffs@[i] == 0);
            }
            assert(p@ =~= spec_poly_zero());
        }
        p
    }
}

pub open spec fn spec_poly_zero() -> Seq<int> {
    Seq::new(256, |i: int| 0int)
}

pub open spec fn spec_poly_reduce(p: Seq<int>) -> Seq<int> {
    Seq::new(256, |i: int| spec_reduce32(p[i]))
}

pub open spec fn spec_poly_caddq(p: Seq<int>) -> Seq<int> {
    Seq::new(256, |i: int| spec_caddq(p[i]))
}

pub open spec fn spec_poly_add(a: Seq<int>, b: Seq<int>) -> Seq<int> {
    Seq::new(256, |i: int| a[i] + b[i])
}

pub open spec fn spec_poly_sub(a: Seq<int>, b: Seq<int>) -> Seq<int> {
    Seq::new(256, |i: int| a[i] - b[i])
}

pub open spec fn spec_poly_shiftl(p: Seq<int>) -> Seq<int> {
    Seq::new(256, |i: int| p[i] * 8192)
}

pub open spec fn spec_poly_pointwise_montgomery(a: Seq<int>, b: Seq<int>) -> Seq<int> {
    Seq::new(256, |i: int| spec_montgomery_reduce(a[i] * b[i]))
}

pub open spec fn spec_poly_power2round_high(p: Seq<int>) -> Seq<int> {
    Seq::new(256, |i: int| spec_power2round(p[i]).0)
}

pub open spec fn spec_poly_power2round_low(p: Seq<int>) -> Seq<int> {
    Seq::new(256, |i: int| spec_power2round(p[i]).1)
}

pub open spec fn spec_poly_decompose_high(gamma2: int, p: Seq<int>) -> Seq<int> {
    Seq::new(256, |i: int| spec_decompose(gamma2, p[i]).0)
}

pub open spec fn spec_poly_decompose_low(gamma2: int, p: Seq<int>) -> Seq<int> {
    Seq::new(256, |i: int| spec_decompose(gamma2, p[i]).1)
}

pub open spec fn spec_poly_make_hint(gamma2: int, a0: Seq<int>, a1: Seq<int>) -> Seq<int> {
    Seq::new(256, |i: int| spec_make_hint(gamma2, a0[i], a1[i]))
}

pub open spec fn spec_poly_use_hint(gamma2: int, a: Seq<int>, h: Seq<int>) -> Seq<int> {
    Seq::new(256, |i: int| spec_use_hint(gamma2, a[i], h[i]))
}

/// The sum of the entries of `s`.
pub open spec fn spec_sum(s: Seq<int>) -> int
    decreases s.len(),
{
    if s.len() == 0 {
        0
    } else {
        spec_sum(s.drop_last()) + s.last()
    }
}

/// Whether some coefficient of `p` is at least `b` in absolute value.
pub open spec fn spec_norm_reaches(p: Seq<int>, b: int) -> bool {
    exists|i: int| 0 <= i < p.len() && (#[trigger] p[i] >= b || -p[i] >= b)
}

/// Whether every entry of `p` lies in `[lo, hi]`.
pub open spec fn spec_in_range(p: Seq<int>, lo: int, hi: int) -> bool {
    forall|i: int| 0 <= i < p.len() ==> lo <= #[trigger] p[i] <= hi
}

/// Whether the product of the coefficients at each place can be
/// Montgomery-reduced.
pub open spec fn spec_products_fit(a: Seq<int>, b: Seq<int>) -> bool {
    forall|i: int|
        0 <= i < 256 ==> -0x8000_0000 * 8380417 <= #[trigger] (a[i] * b[i]) < 0x8000_0000
            * 8380417
}

/// Coefficients within `ba` and within `bb` have products that can be
/// Montgomery-reduced where `ba * bb < 2^31 * Q`.
pub proof fn lemma_products_fit(a: Seq<int>, b: Seq<int>, ba: int, bb: int)
    requires
        a.len() == 256,
        b.len() == 256,
        spec_bounded(a, ba),
        spec_bounded(b, bb),
        0 <= ba,
        0 <= bb,
        ba * bb < 0x8000_0000 * 8380417,
    ensures
        spec_products_fit(a, b),
{
    assert forall|i: int| 0 <= i < 256 implies -0x8000_0000 * 8380417 <= #[trigger] (a[i] * b[i])
        < 0x8000_0000 * 8380417 by {
        let x = a[i];
        let y = b[i];
        assert(-(ba * bb) <= x * y <= ba * bb) by (nonlinear_arith)
            requires
                -ba <= x <= ba,
                -bb <= y <= bb,
        ;
    }
}

/// Reduces every coefficient as `reduce32` does.
pub fn poly_reduce<P: DilithiumParams>(a: &mut Poly)
    requires
        spec_in_range(old(a)@, -0x8000_0000, 0x7fff_ffff - 0x40_0000),
    ensures
        final(a)@ == spec_poly_reduce(old(a)@),
        spec_in_range(final(a)@, -6283009, 6283008),
{
    let ghost p0 = a@;
    let mut i: usize = 0;
    while i < 256
        invariant
            i <= 256,
            p0.len() == 256,
            spec_in_range(p0, -0x8000_0000, 0x7fff_ffff - 0x40_0000),
            forall|j: int| 0 <= j < i ==> #[trigger] a.coeffs@[j] as int == spec_reduce32(p0[j]),
            forall|j: int| 0 <= j < i ==> -6283009 <= #[trigger] a.coeffs@[j] <= 6283008,
            forall|j: int| i <= j < 256 ==> #[trigger] a.coeffs@[j] as int == p0[j],
        decreases 256 - i,
    {
        let x: i32 = a.coeffs[i];
        assert(x as int == p0[i as int]);
        a.coeffs[i] = reduce32::<P>(x);
        i += 1;
    }
    assert(a@ =~= spec_poly_reduce(p0));
    assert forall|j: int| 0 <= j < a@.len() implies -6283009 <= #[trigger] a@[j] <= 6283008 by {
        assert(a@[j] == a.coeffs@[j] as int);
    }
}

/// Adds `Q` to every negative coefficient.
pub fn poly_caddq<P: DilithiumParams>(a: &mut Poly)
    ensures
        final(a)@ == spec_poly_caddq(old(a)@),
{
    let ghost p0 = a@;
    let mut i: usize = 0;
    while i < 256
        invariant
            i <= 256,
            p0.len() == 256,
            forall|j: int| 0 <= j < i ==> #[trigger] a.coeffs@[j] as int == spec_caddq(p0[j]),
            forall|j: int| i <= j < 256 ==> #[trigger] a.coeffs@[j] as int == p0[j],
        decreases 256 - i,
    {
        let x: i32 = a.coeffs[i];
        assert(x as int == p0[i as int]);
        a.coeffs[i] = caddq::<P>(x);
        i += 1;
    }
    assert(a@ =~= spec_poly_caddq(p0));
}

/// Whether the sum of the coefficients at each place fits a machine integer.
pub open spec fn spec_sums_fit(a: Seq<int>, b: Seq<int>) -> bool {
    forall|i: int| 0 <= i < 256 ==> -0x8000_0000 <= #[trigger] a[i] + b[i] <= 0x7fff_ffff
}

/// Whether the difference of the coefficients at each place fits a machine
/// integer.
pub open spec fn spec_differences_fit(a: Seq<int>, b: Seq<int>) -> bool {
    forall|i: int| 0 <= i < 256 ==> -0x8000_0000 <= #[trigger] a[i] - b[i] <= 0x7fff_ffff
}

/// Coefficient by coefficient, `c = a + b`, with no reduction.
pub fn poly_add(c: &mut Poly, a: &Poly, b: &Poly)
    requires
        spec_sums_fit(a@, b@),
    ensures
        final(c)@ == spec_poly_add(a@, b@),
{
    let mut i: usize = 0;
    while i < 256
        invariant
            i <= 256,
            spec_sums_fit(a@, b@),
            forall|j: int| 0 <= j < i ==> #[trigger] c.coeffs@[j] as int == a@[j] + b@[j],
        decreases 256 - i,
    {
        assert(a.coeffs@[i as int] as int == a@[i as int]);
        assert(b.coeffs@[i as int] as int == b@[i as int]);
        assert(-0x8000_0000 <= a@[i as int] + b@[i as int] <= 0x7fff_ffff);
        c.coeffs[i] = a.coeffs[i] + b.coeffs[i];
        i += 1;
    }
    assert(c@ =~= spec_poly_add(a@, b@));
}

/// Coefficient by coefficient, `c = a - b`, with no reduction.
pub fn poly_sub(c: &mut Poly, a: &Poly, b: &Poly)
    requires
        spec_differences_fit(a@, b@),
    ensures
        final(c)@ == spec_poly_sub(a@, b@),
{
    let mut i: usize = 0;
    while i < 256
        invariant
            i <= 256,
            spec_differences_fit(a@, b@),
            forall|j: int| 0 <= j < i ==> #[trigger] c.coeffs@[j] as int == a@[j] - b@[j],
        decreases 256 - i,
    {
        assert(a.coeffs@[i as int] as int == a@[i as int]);
        assert(b.coeffs@[i as int] as int == b@[i as int]);
        assert(-0x8000_0000 <= a@[i as int] - b@[i as int] <= 0x7fff_ffff);
        c.coeffs[i] = a.coeffs[i] - b.coeffs[i];
        i += 1;
    }
    assert(c@ =~= spec_poly_sub(a@, b@));
}

proof fn lemma_shiftl_bits(x: i32)
    by (bit_vector)
    requires
        -0x4_0000 <= x < 0x4_0000,
    ensures
        (x << 13) == x * 8192,
{
}

/// Multiplies every coefficient by `2^13`. The coefficients lie in
/// `[-2^18, 2^18)`.
pub fn poly_shiftl(a: &mut Poly)
    requires
        spec_in_range(old(a)@, -0x4_0000, 0x4_0000 - 1),
    ensures
        final(a)@ == spec_poly_shiftl(old(a)@),
{
    let ghost p0 = a@;
    let mut i: usize = 0;
    while i < 256
        invariant
            i <= 256,
            p0.len() == 256,
            spec_in_range(p0, -0x4_0000, 0x4_0000 - 1),
            forall|j: int| 0 <= j < i ==> #[trigger] a.coeffs@[j] as int == p0[j] * 8192,
            forall|j: int| i <= j < 256 ==> #[trigger] a.coeffs@[j] as int == p0[j],
        decreases 256 - i,
    {
        let x: i32 = a.coeffs[i];
        proof {
            assert(x as int == p0[i as int]);
            lemma_shiftl_bits(x);
        }
        a.coeffs[i] = x << 13;
        i += 1;
    }
    assert(a@ =~= spec_poly_shiftl(p0));
}

/// The forward transform of `a`, in place.
pub fn poly_ntt<P: DilithiumParams>(a: &mut Poly)
    requires
        spec_bounded(old(a)@, NTT_INPUT_BOUND as int),
    ensures
        final(a)@ == spec_ntt(old(a)@),
{
    ntt::<P>(&mut a.coeffs);
}

/// The inverse transform of `a`, times `2^32`, in place.
pub fn poly_invntt_tomont<P: DilithiumParams>(a: &mut Poly)
    requires
        spec_bounded(old(a)@, INVNTT_INPUT_BOUND as int),
    ensures
        final(a)@ == spec_invntt_tomont(old(a)@),
        spec_bounded(final(a)@, INVNTT_OUTPUT_BOUND as int),
{
    invntt_tomont::<P>(&mut a.coeffs);
}

/// Coefficient by coefficient, `c = a * b / 2^32` modulo `Q`.
pub fn poly_pointwise_montgomery<P: DilithiumParams>(c: &mut Poly, a: &Poly, b: &Poly)
    requires
        spec_products_fit(a@, b@),
    ensures
        final(c)@ == spec_poly_pointwise_montgomery(a@, b@),
        spec_bounded(final(c)@, 8380416),
{
    let mut i: usize = 0;
    while i < 256
        invariant
            i <= 256,
            spec_products_fit(a@, b@),
            forall|j: int|
                0 <= j < i ==> #[trigger] c.coeffs@[j] as int == spec_montgomery_reduce(
                    a@[j] * b@[j],
                ),
            forall|j: int| 0 <= j < i ==> -8380416 <= #[trigger] c.coeffs@[j] <= 8380416,
        decreases 256 - i,
    {
        let x: i32 = a.coeffs[i];
        let y: i32 = b.coeffs[i];
        proof {
            assert(x as int == a@[i as int]);
            assert(y as int == b@[i as int]);
            assert(-0x8000_0000 * 8380417 <= a@[i as int] * b@[i as int] < 0x8000_0000 * 8380417);
        }
        c.coeffs[i] = montgomery_reduce::<P>((x as i64) * (y as i64));
        i += 1;
    }
    assert(c@ =~= spec_poly_pointwise_montgomery(a@, b@));
    assert forall|j: int| 0 <= j < c@.len() implies -8380416 <= #[trigger] c@[j] <= 8380416 by {
        assert(c@[j] == c.coeffs@[j] as int);
    }
}

/// Splits every coefficient of `a` as `power2round` does: the high parts go
/// to `a1`, the low parts to `a0`.
pub fn poly_power2round<P: DilithiumParams>(a1: &mut Poly, a0: &mut Poly, a: &Poly)
    requires
        spec_in_range(a@, -0x8000_0000, 0x7fff_ffff - 4096),
    ensures
        final(a1)@ == spec_poly_power2round_high(a@),
        final(a0)@ == spec_poly_power2round_low(a@),
{
    let mut i: usize = 0;
    while i < 256
        invariant
            i <= 256,
            spec_in_range(a@, -0x8000_0000, 0x7fff_ffff - 4096),
            forall|j: int|
                0 <= j < i ==> #[trigger] a1.coeffs@[j] as int == spec_power2round(a@[j]).0,
            forall|j: int|
                0 <= j < i ==> #[trigger] a0.coeffs@[j] as int == spec_power2round(a@[j]).1,
        decreases 256 - i,
    {
        let x: i32 = a.coeffs[i];
        assert(x as int == a@[i as int]);
        let mut low: i32 = 0;
        a1.coeffs[i] = power2round::<P>(&mut low, x);
        a0.coeffs[i] = low;
        i += 1;
    }
    assert(a1@ =~= spec_poly_power2round_high(a@));
    assert(a0@ =~= spec_poly_power2round_low(a@));
}

/// Splits every coefficient of `a` as `decompose` does: the high parts go to
/// `a1`, the low parts to `a0`. The coefficients of `a` are standard
/// representatives.
pub fn poly_decompose<P: DilithiumParams>(a1: &mut Poly, a0: &mut Poly, a: &Poly)
    requires
        spec_in_range(a@, 0, 8380416),
    ensures
        final(a1)@ == spec_poly_decompose_high(P::mode().spec_params().gamma2 as int, a@),
        final(a0)@ == spec_poly_decompose_low(P::mode().spec_params().gamma2 as int, a@),
{
    let ghost gamma2 = P::mode().spec_params().gamma2 as int;
    let mut i: usize = 0;
    while i < 256
        invariant
            i <= 256,
            gamma2 == P::mode().spec_params().gamma2 as int,
            spec_in_range(a@, 0, 8380416),
            forall|j: int|
                0 <= j < i ==> #[trigger] a1.coeffs@[j] as int == spec_decompose(gamma2, a@[j]).0,
            forall|j: int|
                0 <= j < i ==> #[trigger] a0.coeffs@[j] as int == spec_decompose(gamma2, a@[j]).1,
        decreases 256 - i,
    {
        let x: i32 = a.coeffs[i];
        assert(x as int == a@[i as int]);
        let mut low: i32 = 0;
        a1.coeffs[i] = decompose::<P>(&mut low, x);
        a0.coeffs[i] = low;
        i += 1;
    }
    assert(a1@ =~= spec_poly_decompose_high(gamma2, a@));
    assert(a0@ =~= spec_poly_decompose_low(gamma2, a@));
}

/// Makes the hint of every place from the low parts `a0` and the high parts
/// `a1`, and returns the number of ones among them.
pub fn poly_make_hint<P: DilithiumParams>(h: &mut Poly, a0: &Poly, a1: &Poly) -> (s: i32)
    ensures
        final(h)@ == spec_poly_make_hint(P::mode().spec_params().gamma2 as int, a0@, a1@),
        s == spec_sum(final(h)@),
        0 <= s <= 256,
{
    let ghost gamma2 = P::mode().spec_params().gamma2 as int;
    let ghost hints = spec_poly_make_hint(gamma2, a0@, a1@);
    let mut s: i32 = 0;
    let mut i: usize = 0;
    assert(hints.take(0) =~= Seq::<int>::empty());
    while i < 256
        invariant
            i <= 256,
            gamma2 == P::mode().spec_params().gamma2 as int,
            hints == spec_poly_make_hint(gamma2, a0@, a1@),
            forall|j: int| 0 <= j < i ==> #[trigger] h.coeffs@[j] as int == hints[j],
            s == spec_sum(hints.take(i as int)),
            0 <= s <= i,
        decreases 256 - i,
    {
        assert(a0.coeffs@[i as int] as int == a0@[i as int]);
        assert(a1.coeffs@[i as int] as int == a1@[i as int]);
        let bit: u32 = make_hint::<P>(a0.coeffs[i], a1.coeffs[i]);
        h.coeffs[i] = bit as i32;
        s += bit as i32;
        proof {
            assert(hints.take(i + 1).drop_last() =~= hints.take(i as int));
        }
        i += 1;
    }
    assert(h@ =~= hints);
    assert(hints.take(256) =~= hints);
    s
}

/// Corrects the high part of every coefficient of `a` by the hint of its
/// place. The coefficients of `a` are standard representatives.
pub fn poly_use_hint<P: DilithiumParams>(b: &mut Poly, a: &Poly, h: &Poly)
    requires
        spec_in_range(a@, 0, 8380416),
    ensures
        final(b)@ == spec_poly_use_hint(P::mode().spec_params().gamma2 as int, a@, h@),
        spec_in_range(
            final(b)@,
            0,
            spec_high_parts(P::mode().spec_params().gamma2 as int) - 1,
        ),
{
    let ghost gamma2 = P::mode().spec_params().gamma2 as int;
    let mut i: usize = 0;
    while i < 256
        invariant
            i <= 256,
            gamma2 == P::mode().spec_params().gamma2 as int,
            spec_in_range(a@, 0, 8380416),
            forall|j: int|
                0 <= j < i ==> #[trigger] b.coeffs@[j] as int == spec_use_hint(
                    gamma2,
                    a@[j],
                    h@[j],
                ),
            forall|j: int| 0 <= j < i ==> 0 <= #[trigger] b.coeffs@[j] < spec_high_parts(gamma2),
        decreases 256 - i,
    {
        let x: i32 = a.coeffs[i];
        assert(x as int == a@[i as int]);
        assert(h.coeffs@[i as int] as int == h@[i as int]);
        let hint: u32 = if h.coeffs[i] == 0 {
            0
        } else {
            1
        };
        b.coeffs[i] = use_hint::<P>(x, hint);
        i += 1;
    }
    assert(b@ =~= spec_poly_use_hint(gamma2, a@, h@));
    assert forall|j: int| 0 <= j < b@.len() implies 0 <= #[trigger] b@[j] <= spec_high_parts(
        gamma2,
    ) - 1 by {
        assert(b@[j] == b.coeffs@[j] as int);
    }
}

proof fn lemma_abs_bits(x: i32)
    by (bit_vector)
    requires
        -0x4000_0000 <= x < 0x4000_0000,
    ensures
        x - ((x >> 31) & ((2 * x) as i32)) == (if x < 0 { -x } else { x as int }),
{
}

/// 1 where some coefficient of `a` is at least `b` in absolute value, else 0.
/// The coefficients lie in `[-2^30, 2^30)`.
pub fn poly_chknorm<P: DilithiumParams>(a: &Poly, b: i32) -> (r: u8)
    requires
        spec_in_range(a@, -0x4000_0000, 0x4000_0000 - 1),
    ensures
        r == (if spec_norm_reaches(a@, b as int) { 1int } else { 0int }),
{
    let mut r: u8 = 0;
    let mut i: usize = 0;
    while i < 256
        invariant
            i <= 256,
            spec_in_range(a@, -0x4000_0000, 0x4000_0000 - 1),
            r == 0 || r == 1,
            r == 1 <==> spec_norm_reaches(a@.take(i as int), b as int),
        decreases 256 - i,
    {
        let x: i32 = a.coeffs[i];
        proof {
            assert(x as int == a@[i as int]);
            lemma_abs_bits(x);
        }
        let t: i32 = x - ((x >> 31) & (2 * x));
        if t >= b {
            r = 1;
        }
        proof {
            let prev = a@.take(i as int);
            let next = a@.take(i + 1);
            if spec_norm_reaches(prev, b as int) {
                let w = choose|w: int| 0 <= w < prev.len() && (#[trigger] prev[w] >= b || -prev[w] >= b);
                assert(next[w] == prev[w]);
            }
            if t >= b {
                assert(next[i as int] >= b || -next[i as int] >= b);
            }
            if spec_norm_reaches(next, b as int) {
                let w = choose|w: int| 0 <= w < next.len() && (#[trigger] next[w] >= b || -next[w] >= b);
                if w < i {
                    assert(prev[w] == next[w]);
                }
            }
        }
        i += 1;
    }
    assert(a@.take(256) =~= a@);
    r
}

} // verus!
