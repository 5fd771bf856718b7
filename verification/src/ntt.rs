use vstd::prelude::*;
use crate::params::DilithiumParams;
use crate::reduce::{
    lemma_montgomery_range, montgomery_reduce, spec_bounded, spec_ints, spec_montgomery_reduce,
};

verus! {

/// The powers of the root of unity 1753, in Montgomery form, in
/// bit-reversed order: entry `k` is `1753^brv(k) * 2^32` modulo `Q`, centred.
/// Entry 0 is not used.
pub const ZETAS: [i32; 256] = [
    0i32, 25847i32, -2608894i32, -518909i32, 237124i32, -777960i32, -876248i32, 466468i32,
    1826347i32, 2353451i32, -359251i32, -2091905i32, 3119733i32, -2884855i32, 3111497i32, 2680103i32,
    2725464i32, 1024112i32, -1079900i32, 3585928i32, -549488i32, -1119584i32, 2619752i32, -2108549i32,
    -2118186i32, -3859737i32, -1399561i32, -3277672i32, 1757237i32, -19422i32, 4010497i32, 280005i32,
    2706023i32, 95776i32, 3077325i32, 3530437i32, -1661693i32, -3592148i32, -2537516i32, 3915439i32,
    -3861115i32, -3043716i32, 3574422i32, -2867647i32, 3539968i32, -300467i32, 2348700i32, -539299i32,
    -1699267i32, -1643818i32, 3505694i32, -3821735i32, 3507263i32, -2140649i32, -1600420i32, 3699596i32,
    811944i32, 531354i32, 954230i32, 3881043i32, 3900724i32, -2556880i32, 2071892i32, -2797779i32,
    -3930395i32, -1528703i32, -3677745i32, -3041255i32, -1452451i32, 3475950i32, 2176455i32, -1585221i32,
    -1257611i32, 1939314i32, -4083598i32, -1000202i32, -3190144i32, -3157330i32, -3632928i32, 126922i32,
    3412210i32, -983419i32, 2147896i32, 2715295i32, -2967645i32, -3693493i32, -411027i32, -2477047i32,
    -671102i32, -1228525i32, -22981i32, -1308169i32, -381987i32, 1349076i32, 1852771i32, -1430430i32,
    -3343383i32, 264944i32, 508951i32, 3097992i32, 44288i32, -1100098i32, 904516i32, 3958618i32,
    -3724342i32, -8578i32, 1653064i32, -3249728i32, 2389356i32, -210977i32, 759969i32, -1316856i32,
    189548i32, -3553272i32, 3159746i32, -1851402i32, -2409325i32, -177440i32, 1315589i32, 1341330i32,
    1285669i32, -1584928i32, -812732i32, -1439742i32, -3019102i32, -3881060i32, -3628969i32, 3839961i32,
    2091667i32, 3407706i32, 2316500i32, 3817976i32, -3342478i32, 2244091i32, -2446433i32, -3562462i32,
    266997i32, 2434439i32, -1235728i32, 3513181i32, -3520352i32, -3759364i32, -1197226i32, -3193378i32,
    900702i32, 1859098i32, 909542i32, 819034i32, 495491i32, -1613174i32, -43260i32, -522500i32,
    -655327i32, -3122442i32, 2031748i32, 3207046i32, -3556995i32, -525098i32, -768622i32, -3595838i32,
    342297i32, 286988i32, -2437823i32, 4108315i32, 3437287i32, -3342277i32, 1735879i32, 203044i32,
    2842341i32, 2691481i32, -2590150i32, 1265009i32, 4055324i32, 1247620i32, 2486353i32, 1595974i32,
    -3767016i32, 1250494i32, 2635921i32, -3548272i32, -2994039i32, 1869119i32, 1903435i32, -1050970i32,
    -1333058i32, 1237275i32, -3318210i32, -1430225i32, -451100i32, 1312455i32, 3306115i32, -1962642i32,
    -1279661i32, 1917081i32, -2546312i32, -1374803i32, 1500165i32, 777191i32, 2235880i32, 3406031i32,
    -542412i32, -2831860i32, -1671176i32, -1846953i32, -2584293i32, -3724270i32, 594136i32, -3776993i32,
    -2013608i32, 2432395i32, 2454455i32, -164721i32, 1957272i32, 3369112i32, 185531i32, -1207385i32,
    -3183426i32, 162844i32, 1616392i32, 3014001i32, 810149i32, 1652634i32, -3694233i32, -1799107i32,
    -3038916i32, 3523897i32, 3866901i32, 269760i32, 2213111i32, -975884i32, 1717735i32, 472078i32,
    -426683i32, 1723600i32, -1803090i32, 1910376i32, -1667432i32, -1104333i32, -260646i32, -3833893i32,
    -2939036i32, -2235985i32, -420899i32, -2286327i32, 183443i32, -976891i32, 1612842i32, -3545687i32,
    -554416i32, 3919660i32, -48306i32, -1362209i32, 3937738i32, 1400424i32, -846154i32, 1976782i32,
];

/// The largest absolute value of a coefficient that `ntt` accepts: each of its
/// eight layers may add up to `Q` to it.
pub const NTT_INPUT_BOUND: i32 = 0x7fff_ffff - 8 * 8380417;

/// The largest absolute value of a coefficient that `invntt_tomont` accepts:
/// each of its eight layers may double it.
pub const INVNTT_INPUT_BOUND: i32 = 8388607;

/// The largest absolute value of a coefficient that `invntt_tomont` gives.
pub const INVNTT_OUTPUT_BOUND: i32 = 4211197;

/// One layer of the forward transform. The coefficients are taken in blocks
/// of `2 * len`; block `b` uses entry `k0 + b` of `ZETAS`. In each block, `u`
/// in the lower half and `v`, `len` places above it, become `u + zeta * v`
/// and `u - zeta * v`, the product Montgomery-reduced.
pub open spec fn spec_ntt_layer(p: Seq<int>, len: int, k0: int) -> Seq<int> {
    Seq::new(
        256,
        |j: int|
            {
                let zeta = ZETAS@[k0 + j / (2 * len)] as int;
                if j % (2 * len) < len {
                    p[j] + spec_montgomery_reduce(zeta * p[j + len])
                } else {
                    p[j - len] - spec_montgomery_reduce(zeta * p[j])
                }
            },
    )
}

/// The forward number-theoretic transform: eight layers, from blocks of 256
/// down to blocks of 2.
pub open spec fn spec_ntt(p: Seq<int>) -> Seq<int> {
    let p1 = spec_ntt_layer(p, 128, 1);
    let p2 = spec_ntt_layer(p1, 64, 2);
    let p3 = spec_ntt_layer(p2, 32, 4);
    let p4 = spec_ntt_layer(p3, 16, 8);
    let p5 = spec_ntt_layer(p4, 8, 16);
    let p6 = spec_ntt_layer(p5, 4, 32);
    let p7 = spec_ntt_layer(p6, 2, 64);
    spec_ntt_layer(p7, 1, 128)
}

/// One layer of the inverse transform. Block `b` uses the negative of entry
/// `k_top - b` of `ZETAS`. In each block, `u` in the lower half and `v`, `len`
/// places above it, become `u + v` and `zeta * (u - v)`, the product
/// Montgomery-reduced.
pub open spec fn spec_invntt_layer(p: Seq<int>, len: int, k_top: int) -> Seq<int> {
    Seq::new(
        256,
        |j: int|
            {
                let zeta = -(ZETAS@[k_top - j / (2 * len)] as int);
                if j % (2 * len) < len {
                    p[j] + p[j + len]
                } else {
                    spec_montgomery_reduce(zeta * (p[j - len] - p[j]))
                }
            },
    )
}

/// The last step of the inverse transform: every coefficient is multiplied by
/// `2^64 / 256` modulo `Q`, which is 41978, and Montgomery-reduced.
pub open spec fn spec_invntt_scale(p: Seq<int>) -> Seq<int> {
    Seq::new(256, |j: int| spec_montgomery_reduce(41978 * p[j]))
}

/// The inverse number-theoretic transform, times `2^32`: eight layers, from
/// blocks of 2 up to blocks of 256, and the scaling.
pub open spec fn spec_invntt_tomont(p: Seq<int>) -> Seq<int> {
    let p1 = spec_invntt_layer(p, 1, 255);
    let p2 = spec_invntt_layer(p1, 2, 127);
    let p3 = spec_invntt_layer(p2, 4, 63);
    let p4 = spec_invntt_layer(p3, 8, 31);
    let p5 = spec_invntt_layer(p4, 16, 15);
    let p6 = spec_invntt_layer(p5, 32, 7);
    let p7 = spec_invntt_layer(p6, 64, 3);
    let p8 = spec_invntt_layer(p7, 128, 1);
    spec_invntt_scale(p8)
}

/// Every entry of `ZETAS` lies in `(-Q / 2, Q / 2)`.
pub proof fn lemma_zetas_bounded()
    ensures
        forall|k: int| 0 <= k < 256 ==> -4190208 <= #[trigger] ZETAS@[k] <= 4190208,
{
    assert forall|k: int| 0 <= k < 256 implies -4190208 <= #[trigger] ZETAS@[k] <= 4190208 by {
        if k < 64 {
            assert(-4190208 <= ZETAS@[k] <= 4190208);
        } else if k < 128 {
            assert(-4190208 <= ZETAS@[k] <= 4190208);
        } else if k < 192 {
            assert(-4190208 <= ZETAS@[k] <= 4190208);
        } else {
            assert(-4190208 <= ZETAS@[k] <= 4190208);
        }
    }
}

pub proof fn lemma_block_position(idx: int, len: int, block: int, off: int)
    requires
        0 < len,
        idx == block * (2 * len) + off,
        0 <= off < 2 * len,
    ensures
        idx / (2 * len) == block,
        idx % (2 * len) == off,
{
    assert(idx == (2 * len) * block + off) by (nonlinear_arith)
        requires
            idx == block * (2 * len) + off,
    ;
    vstd::arithmetic::div_mod::lemma_fundamental_div_mod_converse(idx, 2 * len, block, off);
}

proof fn lemma_block_step(start: int, len: int, block: int, blocks: int)
    requires
        0 < len,
        start == block * (2 * len),
        blocks * (2 * len) == 256,
        0 <= start < 256,
    ensures
        0 <= block < blocks,
        start + 2 * len <= 256,
        start + 2 * len == (block + 1) * (2 * len),
{
    assert(block >= 0 && block < blocks && start + 2 * len <= 256 && start + 2 * len == (block
        + 1) * (2 * len)) by (nonlinear_arith)
        requires
            0 < len,
            start == block * (2 * len),
            blocks * (2 * len) == 256,
            0 <= start < 256,
    ;
}

proof fn lemma_zeta_product_fits(zeta: int, x: int)
    requires
        -4190208 <= zeta <= 4190208,
        -0x8000_0000 <= x <= 0x7fff_ffff,
    ensures
        -0x8000_0000 * 8380417 <= zeta * x < 0x8000_0000 * 8380417,
{
    assert(-0x8000_0000 * 8380417 <= zeta * x < 0x8000_0000 * 8380417) by (nonlinear_arith)
        requires
            -4190208 <= zeta <= 4190208,
            -0x8000_0000 <= x <= 0x7fff_ffff,
    ;
}

/// A layer of the forward transform adds less than `Q` to the bound of the
/// coefficients.
pub proof fn lemma_ntt_layer_bound(p: Seq<int>, len: int, k0: int, b: int)
    requires
        p.len() == 256,
        0 < len <= 128,
        1 <= k0 <= 128,
        k0 * (2 * len) == 256,
        0 <= b <= 0x7fff_ffff,
        spec_bounded(p, b),
    ensures
        spec_bounded(spec_ntt_layer(p, len, k0), b + 8380417),
        spec_ntt_layer(p, len, k0).len() == 256,
{
    lemma_zetas_bounded();
    let layer = spec_ntt_layer(p, len, k0);
    assert forall|j: int| 0 <= j < 256 implies -(b + 8380417) <= #[trigger] layer[j] <= b
        + 8380417 by {
        let block = j / (2 * len);
        let off = j % (2 * len);
        vstd::arithmetic::div_mod::lemma_fundamental_div_mod(j, 2 * len);
        vstd::arithmetic::div_mod::lemma_mod_bound(j, 2 * len);
        assert(0 <= block < k0) by (nonlinear_arith)
            requires
                j == (2 * len) * block + off,
                0 <= off < 2 * len,
                0 <= j < 256,
                k0 * (2 * len) == 256,
                0 < len,
        ;
        assert((2 * len) * block + 2 * len <= 256) by (nonlinear_arith)
            requires
                0 <= block < k0,
                k0 * (2 * len) == 256,
                0 < len,
        ;
        let zeta = ZETAS@[k0 + block] as int;
        if off < len {
            lemma_zeta_product_fits(zeta, p[j + len]);
            lemma_montgomery_range(zeta * p[j + len]);
        } else {
            lemma_zeta_product_fits(zeta, p[j]);
            lemma_montgomery_range(zeta * p[j]);
        }
    }
}

/// The forward transform adds less than `8 * Q` to the bound of the
/// coefficients.
pub proof fn lemma_ntt_bound(p: Seq<int>, b: int)
    requires
        p.len() == 256,
        0 <= b <= NTT_INPUT_BOUND,
        spec_bounded(p, b),
    ensures
        spec_bounded(spec_ntt(p), b + 8 * 8380417),
        spec_ntt(p).len() == 256,
{
    let p1 = spec_ntt_layer(p, 128, 1);
    let p2 = spec_ntt_layer(p1, 64, 2);
    let p3 = spec_ntt_layer(p2, 32, 4);
    let p4 = spec_ntt_layer(p3, 16, 8);
    let p5 = spec_ntt_layer(p4, 8, 16);
    let p6 = spec_ntt_layer(p5, 4, 32);
    let p7 = spec_ntt_layer(p6, 2, 64);
    lemma_ntt_layer_bound(p, 128, 1, b);
    lemma_ntt_layer_bound(p1, 64, 2, b + 8380417);
    lemma_ntt_layer_bound(p2, 32, 4, b + 2 * 8380417);
    lemma_ntt_layer_bound(p3, 16, 8, b + 3 * 8380417);
    lemma_ntt_layer_bound(p4, 8, 16, b + 4 * 8380417);
    lemma_ntt_layer_bound(p5, 4, 32, b + 5 * 8380417);
    lemma_ntt_layer_bound(p6, 2, 64, b + 6 * 8380417);
    lemma_ntt_layer_bound(p7, 1, 128, b + 7 * 8380417);
}

fn ntt_layer<P: DilithiumParams>(a: &mut [i32; 256], len: usize, k0: usize, Ghost(b): Ghost<int>)
    requires
        0 < len <= 128,
        k0 * (2 * len) == 256,
        1 <= k0 <= 128,
        0 <= b,
        b + 8380417 <= 0x7fff_ffff,
        spec_bounded(spec_ints(old(a)@), b),
    ensures
        spec_ints(final(a)@) == spec_ntt_layer(spec_ints(old(a)@), len as int, k0 as int),
        spec_bounded(spec_ints(final(a)@), b + 8380417),
{
    let ghost p0 = spec_ints(a@);
    let ghost layer = spec_ntt_layer(p0, len as int, k0 as int);
    let mut start: usize = 0;
    let mut block: usize = 0;
    proof {
        lemma_zetas_bounded();
    }
    while start < 256
        invariant
            0 < len <= 128,
            k0 * (2 * len) == 256,
            1 <= k0 <= 128,
            0 <= b,
            b + 8380417 <= 0x7fff_ffff,
            start <= 256,
            start == block * (2 * len),
            p0.len() == 256,
            spec_bounded(p0, b),
            layer == spec_ntt_layer(p0, len as int, k0 as int),
            forall|k: int| 0 <= k < 256 ==> -4190208 <= #[trigger] ZETAS@[k] <= 4190208,
            forall|i: int| 0 <= i < start ==> #[trigger] a@[i] as int == layer[i],
            forall|i: int| 0 <= i < start ==> -(b + 8380417) <= #[trigger] a@[i] <= b + 8380417,
            forall|i: int| start <= i < 256 ==> #[trigger] a@[i] as int == p0[i],
        decreases 256 - start,
    {
        proof {
            lemma_block_step(start as int, len as int, block as int, k0 as int);
        }
        let zeta: i32 = ZETAS[k0 + block];
        let mut j: usize = start;
        while j < start + len
            invariant
                0 < len <= 128,
                start + 2 * len <= 256,
                start == block * (2 * len),
                0 <= block < k0 <= 128,
                zeta == ZETAS@[k0 + block],
                -4190208 <= zeta <= 4190208,
                0 <= b,
                b + 8380417 <= 0x7fff_ffff,
                start <= j <= start + len,
                p0.len() == 256,
                spec_bounded(p0, b),
                layer == spec_ntt_layer(p0, len as int, k0 as int),
                forall|i: int| 0 <= i < start ==> #[trigger] a@[i] as int == layer[i],
                forall|i: int| start <= i < j ==> #[trigger] a@[i] as int == layer[i],
                forall|i: int| j <= i < start + len ==> #[trigger] a@[i] as int == p0[i],
                forall|i: int| start + len <= i < j + len ==> #[trigger] a@[i] as int == layer[i],
                forall|i: int| j + len <= i < 256 ==> #[trigger] a@[i] as int == p0[i],
                forall|i: int|
                    0 <= i < j || (start + len <= i < j + len) ==> -(b + 8380417) <= #[trigger] a@[i]
                        <= b + 8380417,
            decreases start + len - j,
        {
            let hi: i32 = a[j + len];
            let lo: i32 = a[j];
            proof {
                assert(hi as int == p0[j + len]);
                assert(lo as int == p0[j as int]);
                lemma_zeta_product_fits(zeta as int, hi as int);
                lemma_block_position(j as int, len as int, block as int, j - start);
                lemma_block_position(j + len, len as int, block as int, j - start + len);
            }
            let t: i32 = montgomery_reduce::<P>((zeta as i64) * (hi as i64));
            a[j + len] = lo - t;
            a[j] = lo + t;
            j += 1;
        }
        start = j + len;
        block += 1;
    }
    proof {
        assert(spec_ints(a@) =~= layer);
        assert(spec_bounded(spec_ints(a@), b + 8380417));
    }
}

/// The forward transform, in place. No coefficient may exceed
/// `NTT_INPUT_BOUND` in absolute value.
pub fn ntt<P: DilithiumParams>(a: &mut [i32; 256])
    requires
        spec_bounded(spec_ints(old(a)@), NTT_INPUT_BOUND as int),
    ensures
        spec_ints(final(a)@) == spec_ntt(spec_ints(old(a)@)),
{
    let ghost b: int = NTT_INPUT_BOUND as int;
    ntt_layer::<P>(a, 128, 1, Ghost(b));
    ntt_layer::<P>(a, 64, 2, Ghost(b + 8380417));
    ntt_layer::<P>(a, 32, 4, Ghost(b + 2 * 8380417));
    ntt_layer::<P>(a, 16, 8, Ghost(b + 3 * 8380417));
    ntt_layer::<P>(a, 8, 16, Ghost(b + 4 * 8380417));
    ntt_layer::<P>(a, 4, 32, Ghost(b + 5 * 8380417));
    ntt_layer::<P>(a, 2, 64, Ghost(b + 6 * 8380417));
    ntt_layer::<P>(a, 1, 128, Ghost(b + 7 * 8380417));
}

fn invntt_layer<P: DilithiumParams>(
    a: &mut [i32; 256],
    len: usize,
    blocks: usize,
    Ghost(b): Ghost<int>,
)
    requires
        0 < len <= 128,
        blocks * (2 * len) == 256,
        1 <= blocks <= 128,
        0 <= b,
        2 * b <= 0x7fff_ffff,
        spec_bounded(spec_ints(old(a)@), b),
    ensures
        spec_ints(final(a)@) == spec_invntt_layer(
            spec_ints(old(a)@),
            len as int,
            2 * blocks - 1,
        ),
        spec_bounded(spec_ints(final(a)@), if 2 * b >= 8380417 { 2 * b } else { 8380417 }),
{
    let ghost p0 = spec_ints(a@);
    let ghost layer = spec_invntt_layer(p0, len as int, 2 * blocks - 1);
    let ghost nb: int = if 2 * b >= 8380417 { 2 * b } else { 8380417 };
    let mut start: usize = 0;
    let mut block: usize = 0;
    proof {
        lemma_zetas_bounded();
    }
    while start < 256
        invariant
            0 < len <= 128,
            blocks * (2 * len) == 256,
            1 <= blocks <= 128,
            0 <= b,
            2 * b <= 0x7fff_ffff,
            nb == (if 2 * b >= 8380417 { 2 * b } else { 8380417 }),
            start <= 256,
            start == block * (2 * len),
            p0.len() == 256,
            spec_bounded(p0, b),
            layer == spec_invntt_layer(p0, len as int, 2 * blocks - 1),
            forall|k: int| 0 <= k < 256 ==> -4190208 <= #[trigger] ZETAS@[k] <= 4190208,
            forall|i: int| 0 <= i < start ==> #[trigger] a@[i] as int == layer[i],
            forall|i: int| 0 <= i < start ==> -nb <= #[trigger] a@[i] <= nb,
            forall|i: int| start <= i < 256 ==> #[trigger] a@[i] as int == p0[i],
        decreases 256 - start,
    {
        proof {
            lemma_block_step(start as int, len as int, block as int, blocks as int);
        }
        let zeta: i32 = -ZETAS[2 * blocks - 1 - block];
        let mut j: usize = start;
        while j < start + len
            invariant
                0 < len <= 128,
                start + 2 * len <= 256,
                start == block * (2 * len),
                0 <= block < blocks <= 128,
                zeta == -ZETAS@[2 * blocks - 1 - block],
                -4190208 <= zeta <= 4190208,
                0 <= b,
                2 * b <= 0x7fff_ffff,
                nb == (if 2 * b >= 8380417 { 2 * b } else { 8380417 }),
                start <= j <= start + len,
                p0.len() == 256,
                spec_bounded(p0, b),
                layer == spec_invntt_layer(p0, len as int, 2 * blocks - 1),
                forall|i: int| 0 <= i < start ==> #[trigger] a@[i] as int == layer[i],
                forall|i: int| start <= i < j ==> #[trigger] a@[i] as int == layer[i],
                forall|i: int| j <= i < start + len ==> #[trigger] a@[i] as int == p0[i],
                forall|i: int| start + len <= i < j + len ==> #[trigger] a@[i] as int == layer[i],
                forall|i: int| j + len <= i < 256 ==> #[trigger] a@[i] as int == p0[i],
                forall|i: int|
                    0 <= i < j || (start + len <= i < j + len) ==> -nb <= #[trigger] a@[i] <= nb,
            decreases start + len - j,
        {
            let hi: i32 = a[j + len];
            let lo: i32 = a[j];
            proof {
                assert(hi as int == p0[j + len]);
                assert(lo as int == p0[j as int]);
                lemma_zeta_product_fits(zeta as int, lo - hi);
                lemma_block_position(j as int, len as int, block as int, j - start);
                lemma_block_position(j + len, len as int, block as int, j - start + len);
            }
            a[j] = lo + hi;
            a[j + len] = montgomery_reduce::<P>((zeta as i64) * ((lo - hi) as i64));
            j += 1;
        }
        start = j + len;
        block += 1;
    }
    proof {
        assert(spec_ints(a@) =~= layer);
        assert(spec_bounded(spec_ints(a@), nb));
    }
}

/// The inverse transform, times `2^32`, in place. No coefficient may exceed
/// `INVNTT_INPUT_BOUND` in absolute value.
pub fn invntt_tomont<P: DilithiumParams>(a: &mut [i32; 256])
    requires
        spec_bounded(spec_ints(old(a)@), INVNTT_INPUT_BOUND as int),
    ensures
        spec_ints(final(a)@) == spec_invntt_tomont(spec_ints(old(a)@)),
        spec_bounded(spec_ints(final(a)@), INVNTT_OUTPUT_BOUND as int),
{
    let ghost b: int = INVNTT_INPUT_BOUND as int;
    invntt_layer::<P>(a, 1, 128, Ghost(b));
    invntt_layer::<P>(a, 2, 64, Ghost(2 * b));
    invntt_layer::<P>(a, 4, 32, Ghost(4 * b));
    invntt_layer::<P>(a, 8, 16, Ghost(8 * b));
    invntt_layer::<P>(a, 16, 8, Ghost(16 * b));
    invntt_layer::<P>(a, 32, 4, Ghost(32 * b));
    invntt_layer::<P>(a, 64, 2, Ghost(64 * b));
    invntt_layer::<P>(a, 128, 1, Ghost(128 * b));
    let ghost p8 = spec_ints(a@);
    let mut j: usize = 0;
    while j < 256
        invariant
            j <= 256,
            p8.len() == 256,
            spec_bounded(p8, 2147483392),
            forall|i: int| 0 <= i < j ==> #[trigger] a@[i] as int == spec_invntt_scale(p8)[i],
            forall|i: int| 0 <= i < j ==> -4211197 <= #[trigger] a@[i] <= 4211197,
            forall|i: int| j <= i < 256 ==> #[trigger] a@[i] as int == p8[i],
        decreases 256 - j,
    {
        let x: i32 = a[j];
        proof {
            assert(x as int == p8[j as int]);
        }
        a[j] = montgomery_reduce::<P>(41978 * (x as i64));
        j += 1;
    }
    proof {
        assert(spec_ints(a@) =~= spec_invntt_scale(p8));
    }
}

} // verus!
