use vstd::prelude::*;
use crate::params::{DilithiumParams, Q};

verus! {

/// The remainder of `a` modulo `alpha` that lies in `(-alpha / 2, alpha / 2]`.
pub open spec fn spec_centered_rem(a: int, alpha: int) -> int {
    let r = a % alpha;
    if r > alpha / 2 {
        r - alpha
    } else {
        r
    }
}

/// High and low part of `a` with respect to `2^13`: the low part lies in
/// `(-2^12, 2^12]`.
pub open spec fn spec_power2round(a: int) -> (int, int) {
    let a1 = (a + 4095) / 8192;
    (a1, a - a1 * 8192)
}

/// High and low part of `a` with respect to `2 * gamma2`: the low part is the
/// centred remainder, except where the high part would be
/// `(Q - 1) / (2 * gamma2)`; there the high part is 0 and the low part one less.
pub open spec fn spec_decompose(gamma2: int, a: int) -> (int, int) {
    let r0 = spec_centered_rem(a, 2 * gamma2);
    if a - r0 == 8380416 {
        (0, r0 - 1)
    } else {
        ((a - r0) / (2 * gamma2), r0)
    }
}

/// The number of high parts, `(Q - 1) / (2 * gamma2)`.
pub open spec fn spec_high_parts(gamma2: int) -> int {
    if gamma2 == 95232 {
        44
    } else {
        16
    }
}

/// Whether a low part `a0`, beside the high part `a1`, lies outside the range
/// in which adding it leaves the high part as it is.
pub open spec fn spec_make_hint(gamma2: int, a0: int, a1: int) -> int {
    if a0 > gamma2 || a0 < -gamma2 || (a0 == -gamma2 && a1 != 0) {
        1
    } else {
        0
    }
}

/// The high part of `a`, moved by one towards the side of its low part where
/// `hint` is not 0. The high parts are counted modulo their number.
pub open spec fn spec_use_hint(gamma2: int, a: int, hint: int) -> int {
    let (a1, a0) = spec_decompose(gamma2, a);
    let m = spec_high_parts(gamma2);
    if hint == 0 {
        a1
    } else if a0 > 0 {
        (a1 + 1) % m
    } else {
        (a1 - 1) % m
    }
}

proof fn lemma_power2round_bits(a: i32)
    by (bit_vector)
    requires
        a <= 0x7fff_ffff - 4096,
    ensures
        (1i32 << 12) == 4096,
        (((a + 4095) as i32) >> 13) == (a + 4095) / 8192,
        ((((a + 4095) as i32) >> 13) << 13) == ((a + 4095) / 8192) * 8192,
{
}

/// Splits `a` into `a1 * 2^13 + a0` with `-2^12 < a0 <= 2^12`; returns `a1`
/// and stores `a0`.
pub fn power2round<P: DilithiumParams>(a0: &mut i32, a: i32) -> (a1: i32)
    requires
        a <= 0x7fff_ffff - 4096,
    ensures
        (a1 as int, *final(a0) as int) == spec_power2round(a as int),
        a1 * 8192 + *final(a0) == a,
        -4096 < *final(a0) <= 4096,
{
    proof {
        lemma_power2round_bits(a);
    }
    let a1: i32 = (a + (1i32 << 12) - 1) >> 13;
    *a0 = a - (a1 << 13);
    a1
}

proof fn lemma_decompose_bits_32(a: i32)
    by (bit_vector)
    requires
        0 <= a < 8380417,
    ensures
        0 <= (((a + 127) as i32) >> 7) <= 65473,
        (1i32 << 21) == 0x20_0000,
        0 <= ((((((a + 127) as i32) >> 7) * 1025 + 0x20_0000) as i32) >> 22) <= 16,
        ((((((a + 127) as i32) >> 7) * 1025 + 0x20_0000) as i32) >> 22) * 523776 - 261888 < a,
        a <= ((((((a + 127) as i32) >> 7) * 1025 + 0x20_0000) as i32) >> 22) * 523776 + 261888,
{
}

proof fn lemma_decompose_bits_88(a: i32)
    by (bit_vector)
    requires
        0 <= a < 8380417,
    ensures
        0 <= (((a + 127) as i32) >> 7) <= 65473,
        (1i32 << 23) == 0x80_0000,
        0 <= ((((((a + 127) as i32) >> 7) * 11275 + 0x80_0000) as i32) >> 24) <= 44,
        ((((((a + 127) as i32) >> 7) * 11275 + 0x80_0000) as i32) >> 24) * 190464 - 95232 < a,
        a <= ((((((a + 127) as i32) >> 7) * 11275 + 0x80_0000) as i32) >> 24) * 190464 + 95232,
{
}

proof fn lemma_decompose_masks(h: i32, x: i32)
    by (bit_vector)
    requires
        -1 <= h <= 44,
        -8380417 <= x <= 8380417,
    ensures
        0 <= h <= 16 ==> (h & 15) == (if h == 16 { 0i32 } else { h }),
        h == -1 ==> (h & 15) == 15i32,
        0 <= h ==> (h ^ ((((43 - h) as i32) >> 31) & h)) == (if h == 44 { 0i32 } else { h }),
        ((((4190208 - x) as i32) >> 31) & 8380417i32) == (if x > 4190208 { 8380417i32 } else { 0i32 }),
{
}

/// A pair `(h, r)` with `a == h * alpha + r` and `r` in `(-alpha / 2, alpha / 2]`
/// gives the decomposition of `a`.
pub proof fn lemma_decompose_unique(gamma2: int, a: int, h: int, r: int)
    requires
        gamma2 == 95232 || gamma2 == 261888,
        0 <= a < 8380417,
        a == h * (2 * gamma2) + r,
        -gamma2 < r <= gamma2,
    ensures
        0 <= h <= spec_high_parts(gamma2),
        r == spec_centered_rem(a, 2 * gamma2),
        spec_decompose(gamma2, a) == (if h == spec_high_parts(gamma2) {
            (0int, r - 1)
        } else {
            (h, r)
        }),
{
    if gamma2 == 95232 {
        assert(a == h * 190464 + r);
        if r >= 0 {
            vstd::arithmetic::div_mod::lemma_fundamental_div_mod_converse(a, 190464, h, r);
        } else {
            vstd::arithmetic::div_mod::lemma_fundamental_div_mod_converse(
                a,
                190464,
                h - 1,
                r + 190464,
            );
        }
        assert((a - r) / 190464 == h) by {
            vstd::arithmetic::div_mod::lemma_fundamental_div_mod_converse(a - r, 190464, h, 0);
        }
    } else {
        assert(a == h * 523776 + r);
        if r >= 0 {
            vstd::arithmetic::div_mod::lemma_fundamental_div_mod_converse(a, 523776, h, r);
        } else {
            vstd::arithmetic::div_mod::lemma_fundamental_div_mod_converse(
                a,
                523776,
                h - 1,
                r + 523776,
            );
        }
        assert((a - r) / 523776 == h) by {
            vstd::arithmetic::div_mod::lemma_fundamental_div_mod_converse(a - r, 523776, h, 0);
        }
    }
}

/// For a standard representative `a`, returns the high part of `a` and stores
/// the low part.
pub fn decompose<P: DilithiumParams>(a0: &mut i32, a: i32) -> (a1: i32)
    requires
        0 <= a < Q,
    ensures
        (a1 as int, *final(a0) as int) == spec_decompose(
            P::mode().spec_params().gamma2 as int,
            a as int,
        ),
        0 <= a1 < spec_high_parts(P::mode().spec_params().gamma2 as int),
        -P::mode().spec_params().gamma2 <= *final(a0) <= P::mode().spec_params().gamma2,
{
    let gamma2: i32 = P::algorithm().params().gamma2;
    proof {
        lemma_decompose_bits_32(a);
        lemma_decompose_bits_88(a);
    }
    let t: i32 = (a + 127) >> 7;
    let h: i32;
    let a1: i32;
    if gamma2 == 261888 {
        h = (t * 1025 + (1i32 << 21)) >> 22;
        proof {
            lemma_decompose_masks(h, 0);
        }
        a1 = h & 15;
    } else {
        h = (t * 11275 + (1i32 << 23)) >> 24;
        proof {
            lemma_decompose_masks(h, 0);
        }
        a1 = h ^ (((43 - h) >> 31) & h);
    }
    let low: i32 = a - a1 * 2 * gamma2;
    proof {
        lemma_decompose_masks(0, low);
        lemma_decompose_unique(gamma2 as int, a as int, h as int, a - h * 2 * gamma2);
    }
    *a0 = low - ((((8380417 - 1) / 2 - low) >> 31) & 8380417);
    a1
}

/// 1 where the low part `a0` beside the high part `a1` calls for a hint, else 0.
pub fn make_hint<P: DilithiumParams>(a0: i32, a1: i32) -> (r: u32)
    ensures
        r == spec_make_hint(P::mode().spec_params().gamma2 as int, a0 as int, a1 as int),
{
    let gamma2: i32 = P::algorithm().params().gamma2;
    if a0 > gamma2 || a0 < -gamma2 || (a0 == -gamma2 && a1 != 0) {
        1
    } else {
        0
    }
}

/// The high part of the standard representative `a`, corrected by `hint`.
pub fn use_hint<P: DilithiumParams>(a: i32, hint: u32) -> (r: i32)
    requires
        0 <= a < Q,
    ensures
        r == spec_use_hint(P::mode().spec_params().gamma2 as int, a as int, hint as int),
        0 <= r < spec_high_parts(P::mode().spec_params().gamma2 as int),
{
    let gamma2: i32 = P::algorithm().params().gamma2;
    let mut a0: i32 = 0;
    let a1: i32 = decompose::<P>(&mut a0, a);
    if hint == 0 {
        return a1;
    }
    proof {
        lemma_decompose_masks((a1 + 1) as i32, 0);
        lemma_decompose_masks((a1 - 1) as i32, 0);
    }
    if gamma2 == 261888 {
        if a0 > 0 {
            (a1 + 1) & 15
        } else {
            (a1 - 1) & 15
        }
    } else {
        if a0 > 0 {
            if a1 == 43 {
                0
            } else {
                a1 + 1
            }
        } else {
            if a1 == 0 {
                43
            } else {
                a1 - 1
            }
        }
    }
}

/// The two parts that `power2round` gives put `a` together again, and the low
/// part lies in `(-2^12, 2^12]`.
pub proof fn lemma_power2round_recomposes(a: int)
    ensures
        spec_power2round(a).0 * 8192 + spec_power2round(a).1 == a,
        -4096 < spec_power2round(a).1 <= 4096,
{
}

/// The two parts that `decompose` gives put `a` together again modulo `Q`, and
/// the low part lies in `[-gamma2, gamma2]`.
pub proof fn lemma_decompose_recomposes(gamma2: int, a: int)
    requires
        gamma2 == 95232 || gamma2 == 261888,
        0 <= a < 8380417,
    ensures
        (spec_decompose(gamma2, a).0 * (2 * gamma2) + spec_decompose(gamma2, a).1 - a) % 8380417
            == 0,
        -gamma2 <= spec_decompose(gamma2, a).1 <= gamma2,
        0 <= spec_decompose(gamma2, a).0 < spec_high_parts(gamma2),
{
    if gamma2 == 95232 {
        let r = spec_centered_rem(a, 190464);
        let h = (a - r) / 190464;
        assert(a == h * 190464 + r);
        lemma_decompose_unique(gamma2, a, h, r);
    } else {
        let r = spec_centered_rem(a, 523776);
        let h = (a - r) / 523776;
        assert(a == h * 523776 + r);
        lemma_decompose_unique(gamma2, a, h, r);
    }
}

/// Let `b` be `a + delta` modulo `Q` with `|delta| <= gamma2`, and let
/// `(b1, b0)` be the decomposition of `b`. The hint made from `b0 - delta` and
/// `b1` leads `use_hint` from `a` back to `b1`.
pub proof fn lemma_use_hint_recovers_high(gamma2: int, a: int, delta: int)
    requires
        gamma2 == 95232 || gamma2 == 261888,
        0 <= a < 8380417,
        -gamma2 <= delta <= gamma2,
    ensures
        ({
            let b = (a + delta) % 8380417;
            let (b1, b0) = spec_decompose(gamma2, b);
            spec_use_hint(gamma2, a, spec_make_hint(gamma2, b0 - delta, b1)) == b1
        }),
{
    let b = (a + delta) % 8380417;
    let (b1, b0) = spec_decompose(gamma2, b);
    let x = b0 - delta;
    if gamma2 == 95232 {
        let rb = spec_centered_rem(b, 190464);
        let hb = (b - rb) / 190464;
        assert(b == hb * 190464 + rb);
        lemma_decompose_unique(gamma2, b, hb, rb);
        let y = b1 * 190464 + x;
        assert(y == a || y == a - 8380417 || y == a + 8380417);
        lemma_use_hint_cases_88(a, b1, x);
    } else {
        let rb = spec_centered_rem(b, 523776);
        let hb = (b - rb) / 523776;
        assert(b == hb * 523776 + rb);
        lemma_decompose_unique(gamma2, b, hb, rb);
        let y = b1 * 523776 + x;
        assert(y == a || y == a - 8380417 || y == a + 8380417);
        lemma_use_hint_cases_32(a, b1, x);
    }
}

proof fn lemma_use_hint_cases_88(a: int, b1: int, x: int)
    requires
        0 <= a < 8380417,
        0 <= b1 < 44,
        -190464 <= x <= 190464,
        b1 != 0 ==> -190464 < x,
        b1 * 190464 + x == a || b1 * 190464 + x == a - 8380417 || b1 * 190464 + x == a
            + 8380417,
    ensures
        spec_use_hint(95232, a, spec_make_hint(95232, x, b1)) == b1,
{
    let y = b1 * 190464 + x;
    if x > 95232 {
        if y == a {
            lemma_decompose_unique(95232, a, b1 + 1, x - 190464);
        } else {
            assert(y == a + 8380417);
            assert(y <= 8380416);
        }
    } else if x < -95232 {
        if y == a {
            lemma_decompose_unique(95232, a, b1 - 1, x + 190464);
        } else {
            assert(y == a - 8380417);
            assert(b1 == 0);
            lemma_decompose_unique(95232, a, 43, x + 190464 + 1);
        }
    } else if x == -95232 && b1 != 0 {
        lemma_decompose_unique(95232, a, b1 - 1, 95232);
    } else {
        if y == a {
            lemma_decompose_unique(95232, a, b1, x);
        } else {
            assert(y == a - 8380417);
            assert(b1 == 0);
            lemma_decompose_unique(95232, a, 44, x + 1);
        }
    }
}

proof fn lemma_use_hint_cases_32(a: int, b1: int, x: int)
    requires
        0 <= a < 8380417,
        0 <= b1 < 16,
        -523776 <= x <= 523776,
        b1 != 0 ==> -523776 < x,
        b1 * 523776 + x == a || b1 * 523776 + x == a - 8380417 || b1 * 523776 + x == a
            + 8380417,
    ensures
        spec_use_hint(261888, a, spec_make_hint(261888, x, b1)) == b1,
{
    let y = b1 * 523776 + x;
    if x > 261888 {
        if y == a {
            lemma_decompose_unique(261888, a, b1 + 1, x - 523776);
        } else {
            assert(y == a + 8380417);
            assert(y <= 8380416);
        }
    } else if x < -261888 {
        if y == a {
            lemma_decompose_unique(261888, a, b1 - 1, x + 523776);
        } else {
            assert(y == a - 8380417);
            assert(b1 == 0);
            lemma_decompose_unique(261888, a, 15, x + 523776 + 1);
        }
    } else if x == -261888 && b1 != 0 {
        lemma_decompose_unique(261888, a, b1 - 1, 261888);
    } else {
        if y == a {
            lemma_decompose_unique(261888, a, b1, x);
        } else {
            assert(y == a - 8380417);
            assert(b1 == 0);
            lemma_decompose_unique(261888, a, 16, x + 1);
        }
    }
}

} // verus!
