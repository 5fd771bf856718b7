use vstd::prelude::*;
use crate::params::{DilithiumParams, Q};

verus! {

/// The inverse of `Q` modulo 2^32.
pub const QINV: i32 = 58728449;

/// A sequence of machine integers as a sequence of integers.
pub open spec fn spec_ints(s: Seq<i32>) -> Seq<int> {
    Seq::new(s.len(), |i: int| s[i] as int)
}

/// Whether every entry of `p` lies in `[-b, b]`.
pub open spec fn spec_bounded(p: Seq<int>, b: int) -> bool {
    forall|i: int| 0 <= i < p.len() ==> -b <= #[trigger] p[i] <= b
}

/// The representative of `x` modulo 2^32 that lies in `[-2^31, 2^31)`.
pub open spec fn spec_wrap32(x: int) -> int {
    let r = x % 0x1_0000_0000;
    if r >= 0x8000_0000 {
        r - 0x1_0000_0000
    } else {
        r
    }
}

/// Montgomery reduction: with `t = a * QINV` wrapped to 32 bits, `a - t * Q`
/// is a multiple of 2^32, and the result is the quotient.
pub open spec fn spec_montgomery_reduce(a: int) -> int {
    let t = spec_wrap32(spec_wrap32(a) * 58728449);
    (a - t * 8380417) / 0x1_0000_0000
}

/// `a - t * Q`, where `t` is `a / 2^23` rounded to the nearest integer.
pub open spec fn spec_reduce32(a: int) -> int {
    a - ((a + 0x40_0000) / 0x80_0000) * 8380417
}

pub open spec fn spec_caddq(a: int) -> int {
    if a < 0 {
        a + Q
    } else {
        a
    }
}

proof fn lemma_truncate_i64(a: i64)
    by (bit_vector)
    ensures
        a % 0x1_0000_0000 >= 0x8000_0000 ==> (a as i32) == a % 0x1_0000_0000 - 0x1_0000_0000,
        a % 0x1_0000_0000 < 0x8000_0000 ==> (a as i32) == a % 0x1_0000_0000,
        0 <= a % 0x1_0000_0000 < 0x1_0000_0000,
{
}

proof fn lemma_shift_i64(a: i64)
    by (bit_vector)
    ensures
        (a >> 32) == a / 0x1_0000_0000,
{
}

/// For `-2^31 * Q <= a < 2^31 * Q`, computes `r` with `r * 2^32 == a` modulo
/// `Q` and `-Q < r < Q`.
pub fn montgomery_reduce<P: DilithiumParams>(a: i64) -> (r: i32)
    requires
        -0x8000_0000 * 8380417 <= a < 0x8000_0000 * 8380417,
    ensures
        r == spec_montgomery_reduce(a as int),
        -Q < r < Q,
        (r * 0x1_0000_0000 - a) % (Q as int) == 0,
        a - 0x7fff_ffff * 8380417 <= r * 0x1_0000_0000 <= a + 0x8000_0000 * 8380417,
{
    let low: i32 = #[verifier::truncate] (a as i32);
    let wide: i64 = (low as i64) * 58728449;
    let t: i32 = #[verifier::truncate] (wide as i32);
    let diff: i64 = a - (t as i64) * 8380417;
    proof {
        lemma_truncate_i64(a);
        lemma_truncate_i64(wide);
        lemma_shift_i64(diff);
        lemma_montgomery_exact(a as int);
        assert(low == spec_wrap32(a as int));
        assert(t == spec_wrap32(low * QINV));
    }
    let shifted: i64 = diff >> 32;
    shifted as i32
}

/// `a - t * Q` is a multiple of 2^32 when `t` is `a * QINV` modulo 2^32.
pub proof fn lemma_montgomery_exact(a: int)
    ensures
        spec_montgomery_reduce(a) * 0x1_0000_0000 == a - spec_wrap32(spec_wrap32(a) * QINV) * Q,
        (spec_montgomery_reduce(a) * 0x1_0000_0000 - a) % (Q as int) == 0,
{
    let m: int = 0x1_0000_0000;
    let lo = spec_wrap32(a);
    let t = spec_wrap32(lo * 58728449);
    let c1 = if a % m >= 0x8000_0000 { a / m + 1 } else { a / m };
    let x = lo * 58728449;
    let c2 = if x % m >= 0x8000_0000 { x / m + 1 } else { x / m };
    assert(a == c1 * m + lo);
    assert(x == c2 * m + t);
    let w = c1 - lo * 114592 + c2 * 8380417;
    assert(a - t * 8380417 == w * m) by (nonlinear_arith)
        requires
            a == c1 * m + lo,
            lo * 58728449 == c2 * m + t,
            m == 0x1_0000_0000,
            w == c1 - lo * 114592 + c2 * 8380417,
    ;
    assert((w * m) / m == w) by (nonlinear_arith)
        requires
            m == 0x1_0000_0000,
    ;
    let r = spec_montgomery_reduce(a);
    assert(r == (a - t * 8380417) / m);
    assert(r == w);
    assert(r * m - a == (-t) * 8380417);
    assert(((-t) * 8380417) % 8380417 == 0) by (nonlinear_arith);
}

/// The Montgomery reduction of `a` lies in `(-Q, Q)` where `a` lies in
/// `[-2^31 * Q, 2^31 * Q)`, and within `Q / 2` of `a / 2^32`.
pub proof fn lemma_montgomery_range(a: int)
    requires
        -0x8000_0000 * 8380417 <= a < 0x8000_0000 * 8380417,
    ensures
        -8380417 < spec_montgomery_reduce(a) < 8380417,
        a - 0x7fff_ffff * 8380417 <= spec_montgomery_reduce(a) * 0x1_0000_0000 <= a + 0x8000_0000
            * 8380417,
{
    lemma_montgomery_exact(a);
}

/// For `a <= 2^31 - 2^22 - 1`, computes `r` with `r == a` modulo `Q` and
/// `-6283009 <= r <= 6283008`.
pub fn reduce32<P: DilithiumParams>(a: i32) -> (r: i32)
    requires
        a <= 0x7fff_ffff - 0x40_0000,
    ensures
        r == spec_reduce32(a as int),
        -6283009 <= r <= 6283008,
        (r - a) % (Q as int) == 0,
{
    proof {
        lemma_reduce32_shift(a);
        let tt = (a + 0x40_0000) / 0x80_0000;
        assert(((-tt) * 8380417) % 8380417 == 0) by (nonlinear_arith);
    }
    let t: i32 = (a + (1i32 << 22)) >> 23;
    a - t * 8380417
}

proof fn lemma_reduce32_shift(a: i32)
    by (bit_vector)
    requires
        a <= 0x7fff_ffff - 0x40_0000,
    ensures
        (1i32 << 22) == 0x40_0000,
        (((a + 0x40_0000) as i32) >> 23) == (a + 0x40_0000) / 0x80_0000,
{
}

proof fn lemma_caddq_mask(a: i32)
    by (bit_vector)
    ensures
        ((a >> 31) & 8380417i32) == (if a < 0 { 8380417i32 } else { 0i32 }),
{
}

/// Adds `Q` to a negative value.
pub fn caddq<P: DilithiumParams>(a: i32) -> (r: i32)
    ensures
        r == spec_caddq(a as int),
{
    proof {
        lemma_caddq_mask(a);
    }
    a + ((a >> 31) & Q)
}

/// The standard representative of `a` modulo `Q`.
pub fn freeze<P: DilithiumParams>(a: i32) -> (r: i32)
    requires
        a <= 0x7fff_ffff - 0x40_0000,
    ensures
        r == (a as int) % (Q as int),
{
    let b: i32 = reduce32::<P>(a);
    let r: i32 = caddq::<P>(b);
    proof {
        lemma_freeze(a as int, b as int, r as int);
    }
    r
}

proof fn lemma_freeze(a: int, b: int, r: int)
    requires
        (b - a) % (Q as int) == 0,
        0 <= r < Q,
        r == b || r == b + Q,
    ensures
        r == a % (Q as int),
{
    let q: int = 8380417;
    let c = (b - a) / q;
    assert(b - a == c * q);
    if r == b {
        assert(a == (-c) * q + r) by (nonlinear_arith)
            requires
                b - a == c * q,
                r == b,
        ;
        vstd::arithmetic::div_mod::lemma_fundamental_div_mod_converse(a, q, -c, r);
    } else {
        assert(a == (-1 - c) * q + r) by (nonlinear_arith)
            requires
                b - a == c * q,
                r == b + q,
        ;
        vstd::arithmetic::div_mod::lemma_fundamental_div_mod_converse(a, q, -1 - c, r);
    }
}

} // verus!
