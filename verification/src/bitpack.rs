use vstd::prelude::*;

verus! {

/// The powers of two up to `2^20`.
pub const POW2: [u32; 21] = [
    1u32, 2u32, 4u32, 8u32, 16u32, 32u32, 64u32, 128u32,
    256u32, 512u32, 1024u32, 2048u32, 4096u32, 8192u32, 16384u32, 32768u32,
    65536u32, 131072u32, 262144u32, 524288u32, 1048576u32,
];

/// `2^k` for `0 <= k <= 20`.
pub open spec fn spec_pow2(k: int) -> int {
    POW2@[k] as int
}

/// A sequence of unsigned machine integers as a sequence of integers.
pub open spec fn spec_nats(s: Seq<u32>) -> Seq<int> {
    Seq::new(s.len(), |i: int| s[i] as int)
}

/// Bit `n` of the string that holds the values `vals` one after the other,
/// each in `w` bits, low bit first.
pub open spec fn spec_value_bit(vals: Seq<int>, w: int, n: int) -> int {
    (vals[n / w] / spec_pow2(n % w)) % 2
}

/// Bit `n` of the bytes `bytes`, the low bit of each byte first.
pub open spec fn spec_byte_bit(bytes: Seq<u8>, n: int) -> int {
    (bytes[n / 8] as int / spec_pow2(n % 8)) % 2
}

/// The number made of the first `k` of the bits that `bit` gives, the first
/// being the lowest.
pub open spec fn spec_bits_value(bit: spec_fn(int) -> int, k: nat) -> int
    decreases k,
{
    if k == 0 {
        0
    } else {
        spec_bits_value(bit, (k - 1) as nat) + spec_pow2(k - 1) * bit(k - 1)
    }
}

/// Byte `j` of the packed form of `vals`: its bit `b` is bit `8 * j + b` of
/// the string of values.
pub open spec fn spec_pack_byte(vals: Seq<int>, w: int, j: int) -> int {
    spec_bits_value(|b: int| spec_value_bit(vals, w, 8 * j + b), 8)
}

/// The values `vals`, each of `w` bits, packed without gaps, low bits first.
pub open spec fn spec_pack_fields(vals: Seq<int>, w: int) -> Seq<u8> {
    Seq::new((vals.len() * w / 8) as nat, |j: int| spec_pack_byte(vals, w, j) as u8)
}

/// Field `i` of `w` bits in `bytes`: its bit `b` is bit `w * i + b` of the bytes.
pub open spec fn spec_unpack_field(bytes: Seq<u8>, w: int, i: int) -> int {
    spec_bits_value(|b: int| spec_byte_bit(bytes, w * i + b), w as nat)
}

/// Whether every entry of `vals` fits `w` bits.
pub open spec fn spec_fields_fit(vals: Seq<int>, w: int) -> bool {
    forall|i: int| 0 <= i < vals.len() ==> 0 <= #[trigger] vals[i] < spec_pow2(w)
}

proof fn lemma_pow2_table()
    ensures
        forall|k: int| 0 <= k < 20 ==> #[trigger] spec_pow2(k + 1) == 2 * spec_pow2(k),
        forall|k: int| 0 <= k <= 20 ==> 1 <= #[trigger] spec_pow2(k) <= 1048576,
        spec_pow2(0) == 1,
        spec_pow2(8) == 256,
{
    assert forall|k: int| 0 <= k < 20 implies #[trigger] spec_pow2(k + 1) == 2 * spec_pow2(k) by {
        if k < 10 {
            assert(POW2@[k + 1] == 2 * POW2@[k]);
        } else {
            assert(POW2@[k + 1] == 2 * POW2@[k]);
        }
    }
    assert forall|k: int| 0 <= k <= 20 implies 1 <= #[trigger] spec_pow2(k) <= 1048576 by {
        if k < 10 {
            assert(1 <= POW2@[k] <= 1048576);
        } else {
            assert(1 <= POW2@[k] <= 1048576);
        }
    }
}

/// A number made of `k` bits is below `2^k`.
proof fn lemma_bits_value_bound(bit: spec_fn(int) -> int, k: nat)
    requires
        k <= 20,
        forall|b: int| 0 <= b < k ==> 0 <= #[trigger] bit(b) <= 1,
    ensures
        0 <= spec_bits_value(bit, k) < spec_pow2(k as int),
    decreases k,
{
    lemma_pow2_table();
    if k > 0 {
        lemma_bits_value_bound(bit, (k - 1) as nat);
        let p = spec_pow2(k - 1);
        let x = bit(k - 1);
        assert(0 <= p * x <= p) by (nonlinear_arith)
            requires
                0 <= x <= 1,
                1 <= p,
        ;
        assert(spec_pow2(k - 1 + 1) == 2 * spec_pow2(k - 1));
    }
}

/// Two sources of bits that agree on the first `k` bits give the same number.
proof fn lemma_bits_value_equal(f: spec_fn(int) -> int, g: spec_fn(int) -> int, k: nat)
    requires
        forall|b: int| 0 <= b < k ==> #[trigger] f(b) == g(b),
    ensures
        spec_bits_value(f, k) == spec_bits_value(g, k),
    decreases k,
{
    if k > 0 {
        lemma_bits_value_equal(f, g, (k - 1) as nat);
    }
}

/// Bit `b` of a number made of `k` bits is the bit that it was made of.
proof fn lemma_bits_value_digit(bit: spec_fn(int) -> int, k: nat, b: int)
    requires
        k <= 20,
        0 <= b < k,
        forall|c: int| 0 <= c < k ==> 0 <= #[trigger] bit(c) <= 1,
    ensures
        (spec_bits_value(bit, k) / spec_pow2(b)) % 2 == bit(b),
    decreases k,
{
    lemma_pow2_table();
    let low = spec_bits_value(bit, (k - 1) as nat);
    let p = spec_pow2(k - 1);
    let x = bit(k - 1);
    let q = spec_pow2(b);
    lemma_bits_value_bound(bit, (k - 1) as nat);
    assert(spec_bits_value(bit, k) == low + p * x);
    if b == k - 1 {
        if x == 0 {
            assert(p * x == 0);
            vstd::arithmetic::div_mod::lemma_fundamental_div_mod_converse(low, p, 0, low);
        } else {
            assert(p * x == p);
            assert(low + p == p * 1 + low);
            vstd::arithmetic::div_mod::lemma_fundamental_div_mod_converse(low + p, p, 1, low);
        }
    } else {
        lemma_bits_value_digit(bit, (k - 1) as nat, b);
        // p is a multiple of 2 * q, so adding p * x changes no bit below
        lemma_pow2_multiple(b, k - 1);
        let m = p / (2 * q);
        assert(p == m * (2 * q));
        let d = low / q;
        assert(low == q * d + low % q) by {
            vstd::arithmetic::div_mod::lemma_fundamental_div_mod(low, q);
        }
        assert(low + p * x == q * (d + 2 * m * x) + low % q) by (nonlinear_arith)
            requires
                low == q * d + low % q,
                p == m * (2 * q),
        ;
        assert(0 <= low % q < q) by {
            vstd::arithmetic::div_mod::lemma_mod_bound(low, q);
        }
        vstd::arithmetic::div_mod::lemma_fundamental_div_mod_converse(
            low + p * x,
            q,
            d + 2 * m * x,
            low % q,
        );
        assert((d + 2 * m * x) % 2 == d % 2) by {
            assert(d + 2 * m * x == 2 * (m * x) + d) by (nonlinear_arith);
            vstd::arithmetic::div_mod::lemma_mod_multiples_vanish(m * x, d, 2);
        }
    }
}

/// For `b < k`, `2^k` is a multiple of `2 * 2^b`.
proof fn lemma_pow2_multiple(b: int, k: int)
    requires
        0 <= b < k <= 20,
    ensures
        spec_pow2(k) == (spec_pow2(k) / (2 * spec_pow2(b))) * (2 * spec_pow2(b)),
    decreases k - b,
{
    lemma_pow2_table();
    if k == b + 1 {
        assert(spec_pow2(b + 1) == 2 * spec_pow2(b));
        let t = 2 * spec_pow2(b);
        assert(t / t == 1) by (nonlinear_arith)
            requires
                t > 0,
        ;
    } else {
        lemma_pow2_multiple(b, k - 1);
        let t = 2 * spec_pow2(b);
        let m = spec_pow2(k - 1) / t;
        assert(spec_pow2(k - 1 + 1) == 2 * spec_pow2(k - 1));
        assert(spec_pow2(k) == t * (2 * m) + 0) by (nonlinear_arith)
            requires
                spec_pow2(k) == 2 * spec_pow2(k - 1),
                spec_pow2(k - 1) == m * t,
        ;
        vstd::arithmetic::div_mod::lemma_fundamental_div_mod_converse(spec_pow2(k), t, 2 * m, 0);
        assert(spec_pow2(k) == (2 * m) * t) by (nonlinear_arith)
            requires
                spec_pow2(k) == t * (2 * m) + 0,
        ;
    }
}

/// A number below `2^k` is made of its own first `k` bits.
proof fn lemma_bits_value_of_digits(v: int, k: nat)
    requires
        k <= 20,
        0 <= v,
    ensures
        spec_bits_value(|b: int| (v / spec_pow2(b)) % 2, k) == v % spec_pow2(k as int),
    decreases k,
{
    lemma_pow2_table();
    let bit = |b: int| (v / spec_pow2(b)) % 2;
    if k == 0 {
        assert(v % 1 == 0);
    } else {
        lemma_bits_value_of_digits(v, (k - 1) as nat);
        let p = spec_pow2(k - 1);
        assert(spec_pow2(k - 1 + 1) == 2 * p);
        let d = v / p;
        assert(v == p * d + v % p) by {
            vstd::arithmetic::div_mod::lemma_fundamental_div_mod(v, p);
        }
        assert(0 <= v % p < p) by {
            vstd::arithmetic::div_mod::lemma_mod_bound(v, p);
        }
        let e = d / 2;
        assert(d == 2 * e + d % 2);
        assert(v == (2 * p) * e + (p * (d % 2) + v % p)) by (nonlinear_arith)
            requires
                v == p * d + v % p,
                d == 2 * e + d % 2,
        ;
        assert(0 <= p * (d % 2) + v % p < 2 * p) by (nonlinear_arith)
            requires
                0 <= d % 2 <= 1,
                0 <= v % p < p,
        ;
        vstd::arithmetic::div_mod::lemma_fundamental_div_mod_converse(
            v,
            2 * p,
            e,
            p * (d % 2) + v % p,
        );
        assert(bit(k - 1) == d % 2);
    }
}

/// Position `w * i + b` of the string of values lies in value `i`, at bit `b`.
proof fn lemma_field_position(w: int, i: int, b: int)
    requires
        0 < w,
        0 <= b < w,
        0 <= i,
    ensures
        (w * i + b) / w == i,
        (w * i + b) % w == b,
        0 <= w * i,
{
    assert(w * i == i * w) by (nonlinear_arith);
    vstd::arithmetic::div_mod::lemma_fundamental_div_mod_converse(w * i + b, w, i, b);
    assert(0 <= w * i) by (nonlinear_arith)
        requires
            0 < w,
            0 <= i,
    ;
}

/// Every bit of the packed form is the bit of the string of values at the
/// same position.
pub proof fn lemma_packed_bit(vals: Seq<int>, w: int, n: int)
    requires
        1 <= w <= 20,
        spec_fields_fit(vals, w),
        0 <= n < 8 * (vals.len() * w / 8),
    ensures
        spec_byte_bit(spec_pack_fields(vals, w), n) == spec_value_bit(vals, w, n),
{
    lemma_pow2_table();
    let j = n / 8;
    let b = n % 8;
    let bit = |c: int| spec_value_bit(vals, w, 8 * j + c);
    assert forall|c: int| 0 <= c < 8 implies 0 <= #[trigger] bit(c) <= 1 by {}
    lemma_bits_value_bound(bit, 8);
    lemma_bits_value_digit(bit, 8, b);
    assert(spec_pack_fields(vals, w)[j] == spec_pack_byte(vals, w, j) as u8);
    assert(bit(b) == spec_value_bit(vals, w, n));
}

/// Unpacking what was packed gives the values back.
pub proof fn lemma_unpack_pack(vals: Seq<int>, w: int, i: int)
    requires
        1 <= w <= 20,
        vals.len() % 8 == 0,
        spec_fields_fit(vals, w),
        0 <= i < vals.len(),
    ensures
        spec_unpack_field(spec_pack_fields(vals, w), w, i) == vals[i],
{
    lemma_pow2_table();
    let bytes = spec_pack_fields(vals, w);
    let len = vals.len() as int;
    let f = |b: int| spec_byte_bit(bytes, w * i + b);
    let g = |b: int| (vals[i] / spec_pow2(b)) % 2;
    assert(len * w / 8 * 8 == len * w) by {
        let e = len / 8;
        assert(len == 8 * e);
        assert(len * w == 8 * (e * w) + 0) by (nonlinear_arith)
            requires
                len == 8 * e,
        ;
        vstd::arithmetic::div_mod::lemma_fundamental_div_mod_converse(len * w, 8, e * w, 0);
    }
    assert forall|b: int| 0 <= b < w implies #[trigger] f(b) == g(b) by {
        lemma_field_position(w, i, b);
        assert(w * i + b < len * w) by (nonlinear_arith)
            requires
                0 <= i < len,
                0 <= b < w,
        ;
        lemma_packed_bit(vals, w, w * i + b);
    }
    lemma_bits_value_equal(f, g, w as nat);
    lemma_bits_value_of_digits(vals[i], w as nat);
    let v = vals[i];
    let p = spec_pow2(w);
    vstd::arithmetic::div_mod::lemma_small_mod(v as nat, p as nat);
}

/// A field of `w` bits is below `2^w`.
pub proof fn lemma_unpack_field_range(bytes: Seq<u8>, w: int, i: int)
    requires
        1 <= w <= 20,
    ensures
        0 <= spec_unpack_field(bytes, w, i) < spec_pow2(w),
{
    let bit = |b: int| spec_byte_bit(bytes, w * i + b);
    assert forall|b: int| 0 <= b < w implies 0 <= #[trigger] bit(b) <= 1 by {}
    lemma_bits_value_bound(bit, w as nat);
}

/// The fields of `w` bits that `bytes` holds, 256 of them.
pub open spec fn spec_unpack_fields(bytes: Seq<u8>, w: int) -> Seq<int> {
    Seq::new(256, |i: int| spec_unpack_field(bytes, w, i))
}

/// Unpacking 256 packed values gives them back.
pub proof fn lemma_unpack_pack_fields(vals: Seq<int>, w: int)
    requires
        1 <= w <= 20,
        vals.len() == 256,
        spec_fields_fit(vals, w),
    ensures
        spec_unpack_fields(spec_pack_fields(vals, w), w) == vals,
        spec_pack_fields(vals, w).len() == 32 * w,
{
    assert forall|i: int| 0 <= i < 256 implies spec_unpack_field(
        spec_pack_fields(vals, w),
        w,
        i,
    ) == vals[i] by {
        lemma_unpack_pack(vals, w, i);
    }
    assert(spec_unpack_fields(spec_pack_fields(vals, w), w) =~= vals);
}

proof fn lemma_bit_position(w: int, i: int, c: int)
    requires
        1 <= w <= 20,
        0 <= i < 256,
        0 <= c < w,
    ensures
        0 <= w * i + c < 256 * w,
        0 <= (w * i + c) / 8 < 32 * w,
        0 <= (w * i + c) % 8 < 8,
{
    assert(0 <= w * i + c < 256 * w) by (nonlinear_arith)
        requires
            1 <= w,
            0 <= i < 256,
            0 <= c < w,
    ;
}

proof fn lemma_value_position(w: int, n: int)
    requires
        1 <= w <= 20,
        0 <= n < 256 * w,
    ensures
        0 <= n / w < 256,
        0 <= n % w < w,
{
    vstd::arithmetic::div_mod::lemma_fundamental_div_mod(n, w);
    vstd::arithmetic::div_mod::lemma_mod_bound(n, w);
    let d = n / w;
    assert(0 <= d < 256) by (nonlinear_arith)
        requires
            n == w * d + n % w,
            0 <= n % w < w,
            0 <= n < 256 * w,
            1 <= w,
    ;
}

/// Packs the 256 values `vals`, each of `w` bits, into the first `32 * w`
/// bytes of `r`.
pub fn pack_fields(r: &mut [u8], vals: &[u32; 256], w: usize)
    requires
        1 <= w <= 20,
        old(r).len() >= 32 * w,
        spec_fields_fit(spec_nats(vals@), w as int),
    ensures
        final(r).len() == old(r).len(),
        final(r)@.take(32 * w) == spec_pack_fields(spec_nats(vals@), w as int),
        final(r)@.skip(32 * w) == old(r)@.skip(32 * w),
{
    let ghost v = spec_nats(vals@);
    let nbytes: usize = 32 * w;
    let mut j: usize = 0;
    proof {
        lemma_pow2_table();
    }
    while j < nbytes
        invariant
            1 <= w <= 20,
            nbytes == 32 * w,
            j <= nbytes,
            r.len() == old(r).len(),
            nbytes <= r.len(),
            v == spec_nats(vals@),
            forall|k: int| 0 <= k <= 20 ==> 1 <= #[trigger] spec_pow2(k) <= 1048576,
            forall|k: int| 0 <= k < j ==> #[trigger] r@[k] == spec_pack_byte(v, w as int, k) as u8,
            forall|k: int| nbytes <= k < r.len() ==> #[trigger] r@[k] == old(r)@[k],
        decreases nbytes - j,
    {
        let ghost bit = |c: int| spec_value_bit(v, w as int, 8 * j + c);
        let mut byte: u32 = 0;
        let mut b: usize = 0;
        while b < 8
            invariant
                1 <= w <= 20,
                b <= 8,
                j < 32 * w,
                v == spec_nats(vals@),
                bit == (|c: int| spec_value_bit(v, w as int, 8 * j + c)),
                forall|k: int| 0 <= k <= 20 ==> 1 <= #[trigger] spec_pow2(k) <= 1048576,
                byte == spec_bits_value(bit, b as nat),
                byte < spec_pow2(b as int),
            decreases 8 - b,
        {
            let n: usize = 8 * j + b;
            proof {
                lemma_value_position(w as int, n as int);
                lemma_pow2_table();
                assert(spec_pow2(b + 1) == 2 * spec_pow2(b as int));
            }
            let x: u32 = vals[n / w];
            let one: u32 = (x / POW2[n % w]) % 2;
            proof {
                assert(x as int == v[n as int / w as int]);
                assert(one == bit(b as int));
                let p = spec_pow2(b as int);
                assert(0 <= p * one <= p) by (nonlinear_arith)
                    requires
                        0 <= one <= 1,
                        1 <= p,
                ;
            }
            byte = byte + POW2[b] * one;
            b += 1;
        }
        proof {
            assert(spec_pow2(8) == 256);
        }
        r[j] = byte as u8;
        j += 1;
    }
    proof {
        assert(256 * w / 8 == 32 * w);
        assert(r@.take(32 * w) =~= spec_pack_fields(v, w as int));
        assert(r@.skip(32 * w) =~= old(r)@.skip(32 * w));
    }
}

/// Reads field `i` of `w` bits from `bytes`.
pub fn unpack_field(bytes: &[u8], w: usize, i: usize) -> (v: u32)
    requires
        1 <= w <= 20,
        i < 256,
        bytes.len() >= 32 * w,
    ensures
        v == spec_unpack_field(bytes@, w as int, i as int),
        v < spec_pow2(w as int),
{
    let ghost bit = |c: int| spec_byte_bit(bytes@, w * i + c);
    let mut v: u32 = 0;
    let mut b: usize = 0;
    proof {
        lemma_pow2_table();
    }
    while b < w
        invariant
            1 <= w <= 20,
            i < 256,
            b <= w,
            bytes.len() >= 32 * w,
            bit == (|c: int| spec_byte_bit(bytes@, w * i + c)),
            forall|k: int| 0 <= k <= 20 ==> 1 <= #[trigger] spec_pow2(k) <= 1048576,
            v == spec_bits_value(bit, b as nat),
            v < spec_pow2(b as int),
        decreases w - b,
    {
        proof {
            lemma_bit_position(w as int, i as int, b as int);
            lemma_pow2_table();
            assert(spec_pow2(b + 1) == 2 * spec_pow2(b as int));
        }
        let n: usize = w * i + b;
        let x: u32 = bytes[n / 8] as u32;
        let one: u32 = (x / POW2[n % 8]) % 2;
        proof {
            assert(one == bit(b as int));
            let p = spec_pow2(b as int);
            assert(0 <= p * one <= p) by (nonlinear_arith)
                requires
                    0 <= one <= 1,
                    1 <= p,
            ;
        }
        v = v + POW2[b] * one;
        b += 1;
    }
    v
}

} // verus!
