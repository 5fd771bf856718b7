use vstd::prelude::*;
use crate::fips202::{spec_shake128, spec_shake256, spec_shake_absorbed, KeccakState};
use crate::params::DilithiumParams;
use crate::poly::{spec_in_range, spec_poly_zero, Poly};
use crate::polypack::{polyz_unpack, spec_polyz_unpack};
use crate::symmetric::{lemma_stream_block, spec_stream, spec_stream_input, spec_stream_lanes};

verus! {

/// The number of SHAKE-128 blocks that `poly_uniform` squeezes at first.
pub const POLY_UNIFORM_NBLOCKS: usize = 5;

/// The number of SHAKE-128 blocks after which `poly_uniform` gives up.
pub const POLY_UNIFORM_MAX_BLOCKS: usize = 64;

/// The number of SHAKE-256 blocks after which `poly_uniform_eta` gives up.
pub const POLY_UNIFORM_ETA_MAX_BLOCKS: usize = 64;

/// The number that three bytes of the stream stand for: the low 23 bits of
/// the three bytes read as a number, low byte first.
pub open spec fn spec_uniform_candidate(b0: u8, b1: u8, b2: u8) -> int {
    (b0 as int + 256 * (b1 as int) + 65536 * (b2 as int)) % 8388608
}

/// The numbers below `Q` among those that the whole groups of three bytes of
/// `buf` stand for, in their order.
pub open spec fn spec_rej_uniform(buf: Seq<u8>) -> Seq<int>
    decreases buf.len(),
{
    if buf.len() < 3 {
        Seq::<int>::empty()
    } else {
        let m = 3 * (buf.len() / 3) - 3;
        let prev = spec_rej_uniform(buf.take(m));
        let t = spec_uniform_candidate(buf[m], buf[m + 1], buf[m + 2]);
        if t < 8380417 {
            prev.push(t)
        } else {
            prev
        }
    }
}

/// What a sampler that fills at most `len` places leaves in `after`: the
/// first `ctr` places hold the first values of `acc`, as many as there are
/// but no more than `len`, and the other places are as they were.
pub open spec fn spec_filled(
    before: Seq<i32>,
    after: Seq<i32>,
    ctr: int,
    len: int,
    acc: Seq<int>,
) -> bool {
    &&& after.len() == before.len()
    &&& ctr == (if acc.len() < len {
        acc.len() as int
    } else {
        len
    })
    &&& forall|i: int| 0 <= i < ctr ==> #[trigger] after[i] as int == acc[i]
    &&& forall|i: int| ctr <= i < before.len() ==> #[trigger] after[i] == before[i]
}

/// Where `x` ends with a whole group, the values of `x + y` are those of `x`
/// and then those of `y`.
pub proof fn lemma_rej_uniform_concat(x: Seq<u8>, y: Seq<u8>)
    requires
        x.len() % 3 == 0,
    ensures
        spec_rej_uniform(x + y) == spec_rej_uniform(x) + spec_rej_uniform(y),
        forall|i: int|
            0 <= i < spec_rej_uniform(y).len() ==> 0 <= #[trigger] spec_rej_uniform(y)[i] < 8380417,
    decreases y.len(),
{
    let xy = x + y;
    if y.len() < 3 {
        assert(spec_rej_uniform(y) =~= Seq::<int>::empty());
        assert(spec_rej_uniform(x) + spec_rej_uniform(y) =~= spec_rej_uniform(x));
        if x.len() >= 3 {
            let m = x.len() - 3;
            assert(3 * (xy.len() / 3) - 3 == m);
            assert(3 * (x.len() / 3) - 3 == m);
            assert(xy.take(m) =~= x.take(m));
        }
    } else {
        let my = 3 * (y.len() / 3) - 3;
        let m = x.len() + my;
        assert(3 * (xy.len() / 3) - 3 == m);
        assert(xy.take(m) =~= x + y.take(my));
        lemma_rej_uniform_concat(x, y.take(my));
        let a = spec_rej_uniform(x);
        let b = spec_rej_uniform(y.take(my));
        let t = spec_uniform_candidate(y[my], y[my + 1], y[my + 2]);
        assert((a + b).push(t) =~= a + b.push(t));
    }
}

/// Writes the candidates below `Q` that the first `buflen` bytes of `buf`
/// hold into `a`, from its start, until `len` are written or the bytes are
/// used up. Returns how many were written.
pub fn rej_uniform(a: &mut [i32], len: u32, buf: &[u8], buflen: usize) -> (ctr: u32)
    requires
        len <= old(a).len(),
        buflen <= buf.len(),
    ensures
        spec_filled(
            old(a)@,
            final(a)@,
            ctr as int,
            len as int,
            spec_rej_uniform(buf@.take(buflen as int)),
        ),
{
    let ghost data = buf@.take(buflen as int);
    let mut ctr: u32 = 0;
    let mut pos: usize = 0;
    proof {
        assert(data.take(0) =~= Seq::<u8>::empty());
    }
    while ctr < len && buflen - pos >= 3
        invariant
            pos <= buflen,
            buflen <= buf.len(),
            pos % 3 == 0,
            ctr <= len,
            len <= a.len(),
            a.len() == old(a).len(),
            data == buf@.take(buflen as int),
            ctr == spec_rej_uniform(data.take(pos as int)).len(),
            forall|i: int|
                0 <= i < ctr ==> #[trigger] a@[i] as int == spec_rej_uniform(
                    data.take(pos as int),
                )[i],
            forall|i: int| ctr <= i < a.len() ==> #[trigger] a@[i] == old(a)@[i],
        decreases buflen - pos,
    {
        let t: u32 = ((buf[pos] as u32) + 256 * (buf[pos + 1] as u32) + 65536 * (buf[pos + 2] as u32))
            % 8388608;
        proof {
            let next = data.take(pos + 3);
            assert(3 * (next.len() / 3) - 3 == pos);
            assert(next.take(pos as int) =~= data.take(pos as int));
            assert(t == spec_uniform_candidate(next[pos as int], next[pos + 1], next[pos + 2]));
        }
        pos += 3;
        if t < 8380417 {
            a[ctr as usize] = t as i32;
            ctr += 1;
        }
    }
    proof {
        assert(data.take(pos as int) + data.skip(pos as int) =~= data);
        lemma_rej_uniform_concat(data.take(pos as int), data.skip(pos as int));
    }
    ctr
}

/// The polynomial that `poly_uniform` makes from the stream `stream` where the
/// polynomial was `before`: the first 256 values if there are that many, else
/// the values that there are and behind them what was there.
pub open spec fn spec_sampled_poly(before: Seq<int>, acc: Seq<int>) -> Seq<int> {
    if acc.len() >= 256 {
        acc.take(256)
    } else {
        acc + before.skip(acc.len() as int)
    }
}

/// The bytes that SHAKE-128 gives for `seed` and `nonce`, as far as
/// `poly_uniform` reads them at most.
pub open spec fn spec_uniform_stream(seed: Seq<u8>, nonce: u16) -> Seq<u8> {
    spec_shake128(spec_stream_input(seed, nonce), (168 * POLY_UNIFORM_MAX_BLOCKS) as nat)
}

/// Samples a polynomial with coefficients in `[0, Q)` from the SHAKE-128
/// stream of `seed` and `nonce` by rejection. Returns whether the stream,
/// as far as it is read, held 256 values.
pub fn poly_uniform<P: DilithiumParams>(a: &mut Poly, seed: &[u8], nonce: u16) -> (filled: bool)
    ensures
        filled == (spec_rej_uniform(spec_uniform_stream(seed@, nonce)).len() >= 256),
        final(a)@ == spec_sampled_poly(
            old(a)@,
            spec_rej_uniform(spec_uniform_stream(seed@, nonce)),
        ),
        filled ==> spec_in_range(final(a)@, 0, 8380416),
{
    let ghost st0 = spec_shake_absorbed(168, spec_stream_input(seed@, nonce));
    let ghost total = spec_uniform_stream(seed@, nonce);
    let mut buf: [u8; 840] = [0u8; 840];
    let mut state = KeccakState::default();
    state.dilithium_shake128_stream_init(seed, nonce);
    state.shake128_squeezeblocks(&mut buf, POLY_UNIFORM_NBLOCKS);
    proof {
        assert(buf@.take(840) =~= buf@);
    }
    let mut ctr: u32 = rej_uniform(&mut a.coeffs, 256, &buf, 840);
    let mut blocks: usize = POLY_UNIFORM_NBLOCKS;
    while ctr < 256 && blocks < POLY_UNIFORM_MAX_BLOCKS
        invariant
            5 <= blocks <= 64,
            ctr <= 256,
            st0 == spec_shake_absorbed(168, spec_stream_input(seed@, nonce)),
            state.s@ == spec_stream_lanes(st0, 168, (168 * blocks) as nat),
            spec_filled(
                old(a).coeffs@,
                a.coeffs@,
                ctr as int,
                256,
                spec_rej_uniform(spec_stream(st0, 168, (168 * blocks) as nat)),
            ),
        decreases 64 - blocks,
    {
        let ghost sofar = spec_stream(st0, 168, (168 * blocks) as nat);
        let ghost before = a.coeffs@;
        state.shake128_squeezeblocks(&mut buf, 1);
        let mut tmp: [i32; 256] = [0i32; 256];
        let n: u32 = rej_uniform(&mut tmp, 256 - ctr, &buf, 168);
        let ghost block = buf@.take(168);
        proof {
            lemma_stream_block(st0, 168, blocks as nat, (blocks + 1) as nat);
            assert(spec_stream(st0, 168, (168 * (blocks + 1)) as nat) =~= sofar + block);
            lemma_stream_block(st0, 168, 0, blocks as nat);
            lemma_rej_uniform_concat(sofar, block);
        }
        let mut j: u32 = 0;
        while j < n
            invariant
                j <= n,
                ctr + n <= 256,
                forall|i: int| 0 <= i < ctr + j ==> #[trigger] a.coeffs@[i] == (if i < ctr {
                    before[i]
                } else {
                    tmp@[i - ctr]
                }),
                forall|i: int| ctr + j <= i < 256 ==> #[trigger] a.coeffs@[i] == before[i],
            decreases n - j,
        {
            a.coeffs[(ctr + j) as usize] = tmp[j as usize];
            j += 1;
        }
        ctr += n;
        blocks += 1;
    }
    proof {
        let sofar = spec_stream(st0, 168, (168 * blocks) as nat);
        let acc = spec_rej_uniform(sofar);
        if blocks < 64 {
            lemma_stream_block(st0, 168, blocks as nat, 64);
            assert(total =~= sofar + total.skip(168 * blocks));
            lemma_stream_block(st0, 168, 0, blocks as nat);
            lemma_rej_uniform_concat(sofar, total.skip(168 * blocks));
        }
        let all = spec_rej_uniform(total);
        assert(a@ =~= spec_sampled_poly(old(a)@, all));
        lemma_rej_uniform_concat(Seq::<u8>::empty(), total);
    }
    ctr == 256
}

/// Whether a nibble gives a coefficient.
pub open spec fn spec_eta_accepts(eta: int, t: int) -> bool {
    if eta == 2 {
        t < 15
    } else {
        t < 9
    }
}

/// The coefficient that an accepted nibble gives.
pub open spec fn spec_eta_value(eta: int, t: int) -> int {
    if eta == 2 {
        2 - (t - (205 * t / 1024) * 5)
    } else {
        4 - t
    }
}

/// The values `acc` and behind them what the two nibbles of `b` give, the low
/// nibble first.
pub open spec fn spec_rej_eta_byte(eta: int, acc: Seq<int>, b: u8) -> Seq<int> {
    let lo = (b % 16) as int;
    let hi = (b / 16) as int;
    let first = if spec_eta_accepts(eta, lo) {
        acc.push(spec_eta_value(eta, lo))
    } else {
        acc
    };
    if spec_eta_accepts(eta, hi) {
        first.push(spec_eta_value(eta, hi))
    } else {
        first
    }
}

/// The coefficients that the nibbles of `buf` give, in their order.
pub open spec fn spec_rej_eta(eta: int, buf: Seq<u8>) -> Seq<int>
    decreases buf.len(),
{
    if buf.len() == 0 {
        Seq::<int>::empty()
    } else {
        spec_rej_eta_byte(eta, spec_rej_eta(eta, buf.drop_last()), buf.last())
    }
}

/// The values of `x + y` are those of `x` and then those of `y`, and all lie
/// in `[-eta, eta]`.
pub proof fn lemma_rej_eta_concat(eta: int, x: Seq<u8>, y: Seq<u8>)
    requires
        eta == 2 || eta == 4,
    ensures
        spec_rej_eta(eta, x + y) == spec_rej_eta(eta, x) + spec_rej_eta(eta, y),
        forall|i: int|
            0 <= i < spec_rej_eta(eta, y).len() ==> -eta <= #[trigger] spec_rej_eta(eta, y)[i]
                <= eta,
    decreases y.len(),
{
    if y.len() == 0 {
        assert(x + y =~= x);
        assert(spec_rej_eta(eta, x) + spec_rej_eta(eta, y) =~= spec_rej_eta(eta, x));
    } else {
        assert((x + y).drop_last() =~= x + y.drop_last());
        lemma_rej_eta_concat(eta, x, y.drop_last());
        let a = spec_rej_eta(eta, x);
        let b = spec_rej_eta(eta, y.drop_last());
        assert(spec_rej_eta_byte(eta, a + b, y.last()) =~= a + spec_rej_eta_byte(
            eta,
            b,
            y.last(),
        ));
    }
}

/// Writes the coefficients that the nibbles of the first `buflen` bytes of
/// `buf` give into `a`, from its start, until `len` are written or the bytes
/// are used up. Returns how many were written.
pub fn rej_eta<P: DilithiumParams>(a: &mut [i32], len: usize, buf: &[u8], buflen: usize) -> (ctr:
    u32)
    requires
        len <= old(a).len(),
        len <= 0xffff_ffff,
        buflen <= buf.len(),
    ensures
        spec_filled(
            old(a)@,
            final(a)@,
            ctr as int,
            len as int,
            spec_rej_eta(P::mode().spec_params().eta as int, buf@.take(buflen as int)),
        ),
{
    let eta: i32 = P::algorithm().params().eta;
    let ghost data = buf@.take(buflen as int);
    let mut ctr: usize = 0;
    let mut pos: usize = 0;
    proof {
        assert(data.take(0) =~= Seq::<u8>::empty());
    }
    while ctr < len && pos < buflen
        invariant
            pos <= buflen,
            buflen <= buf.len(),
            ctr <= len,
            len <= a.len(),
            a.len() == old(a).len(),
            eta == P::mode().spec_params().eta,
            data == buf@.take(buflen as int),
            spec_filled(
                old(a)@,
                a@,
                ctr as int,
                len as int,
                spec_rej_eta(eta as int, data.take(pos as int)),
            ),
        decreases buflen - pos,
    {
        let ghost prev = spec_rej_eta(eta as int, data.take(pos as int));
        let t0: u32 = (buf[pos] % 16) as u32;
        let t1: u32 = (buf[pos] / 16) as u32;
        proof {
            assert(data.take(pos + 1).drop_last() =~= data.take(pos as int));
            assert(data.take(pos + 1).last() == buf@[pos as int]);
        }
        pos += 1;
        if eta == 2 {
            if t0 < 15 {
                let v: u32 = t0 - (205 * t0 / 1024) * 5;
                a[ctr] = 2 - (v as i32);
                ctr += 1;
            }
            if t1 < 15 && ctr < len {
                let v: u32 = t1 - (205 * t1 / 1024) * 5;
                a[ctr] = 2 - (v as i32);
                ctr += 1;
            }
        } else {
            if t0 < 9 {
                a[ctr] = 4 - (t0 as i32);
                ctr += 1;
            }
            if t1 < 9 && ctr < len {
                a[ctr] = 4 - (t1 as i32);
                ctr += 1;
            }
        }
    }
    proof {
        assert(data.take(pos as int) + data.skip(pos as int) =~= data);
        lemma_rej_eta_concat(eta as int, data.take(pos as int), data.skip(pos as int));
    }
    ctr as u32
}

/// The number of SHAKE-256 blocks that `poly_uniform_eta` squeezes at first.
pub fn poly_uniform_eta_nblocks(eta: usize) -> (n: usize)
    ensures
        n == (if eta == 2 { 1int } else { 2int }),
{
    if eta == 2 {
        1
    } else {
        2
    }
}

/// The bytes that SHAKE-256 gives for the first 64 bytes of `seed` and
/// `nonce`, as far as `poly_uniform_eta` reads them at most.
pub open spec fn spec_eta_stream(seed: Seq<u8>, nonce: u16) -> Seq<u8> {
    spec_shake256(
        spec_stream_input(seed.take(64), nonce),
        (136 * POLY_UNIFORM_ETA_MAX_BLOCKS) as nat,
    )
}

/// Samples a polynomial with coefficients in `[-eta, eta]` from the SHAKE-256
/// stream of `seed` and `nonce` by rejection. Returns whether the stream, as
/// far as it is read, held 256 values.
pub fn poly_uniform_eta<P: DilithiumParams>(a: &mut Poly, seed: &[u8], nonce: u16) -> (filled:
    bool)
    requires
        seed.len() >= 64,
    ensures
        filled == (spec_rej_eta(
            P::mode().spec_params().eta as int,
            spec_eta_stream(seed@, nonce),
        ).len() >= 256),
        final(a)@ == spec_sampled_poly(
            old(a)@,
            spec_rej_eta(P::mode().spec_params().eta as int, spec_eta_stream(seed@, nonce)),
        ),
        filled ==> spec_in_range(
            final(a)@,
            -P::mode().spec_params().eta,
            P::mode().spec_params().eta as int,
        ),
{
    let eta: i32 = P::algorithm().params().eta;
    let ghost st0 = spec_shake_absorbed(136, spec_stream_input(seed@.take(64), nonce));
    let ghost total = spec_eta_stream(seed@, nonce);
    let mut buf: [u8; 272] = [0u8; 272];
    let mut state = KeccakState::default();
    state.dilithium_shake256_stream_init(seed, nonce);
    let nblocks: usize = poly_uniform_eta_nblocks(eta as usize);
    state.shake256_squeezeblocks(&mut buf, nblocks);
    let mut ctr: u32 = rej_eta::<P>(&mut a.coeffs, 256, &buf, nblocks * 136);
    let mut blocks: usize = nblocks;
    while ctr < 256 && blocks < POLY_UNIFORM_ETA_MAX_BLOCKS
        invariant
            1 <= blocks <= 64,
            ctr <= 256,
            eta == P::mode().spec_params().eta,
            eta == 2 || eta == 4,
            st0 == spec_shake_absorbed(136, spec_stream_input(seed@.take(64), nonce)),
            state.s@ == spec_stream_lanes(st0, 136, (136 * blocks) as nat),
            spec_filled(
                old(a).coeffs@,
                a.coeffs@,
                ctr as int,
                256,
                spec_rej_eta(eta as int, spec_stream(st0, 136, (136 * blocks) as nat)),
            ),
        decreases 64 - blocks,
    {
        let ghost sofar = spec_stream(st0, 136, (136 * blocks) as nat);
        let ghost before = a.coeffs@;
        state.shake256_squeezeblocks(&mut buf, 1);
        let mut tmp: [i32; 256] = [0i32; 256];
        let n: u32 = rej_eta::<P>(&mut tmp, (256 - ctr) as usize, &buf, 136);
        let ghost block = buf@.take(136);
        proof {
            lemma_stream_block(st0, 136, blocks as nat, (blocks + 1) as nat);
            assert(spec_stream(st0, 136, (136 * (blocks + 1)) as nat) =~= sofar + block);
            lemma_rej_eta_concat(eta as int, sofar, block);
        }
        let mut j: u32 = 0;
        while j < n
            invariant
                j <= n,
                ctr + n <= 256,
                forall|i: int| 0 <= i < ctr + j ==> #[trigger] a.coeffs@[i] == (if i < ctr {
                    before[i]
                } else {
                    tmp@[i - ctr]
                }),
                forall|i: int| ctr + j <= i < 256 ==> #[trigger] a.coeffs@[i] == before[i],
            decreases n - j,
        {
            a.coeffs[(ctr + j) as usize] = tmp[j as usize];
            j += 1;
        }
        ctr += n;
        blocks += 1;
    }
    proof {
        let sofar = spec_stream(st0, 136, (136 * blocks) as nat);
        let acc = spec_rej_eta(eta as int, sofar);
        if blocks < 64 {
            lemma_stream_block(st0, 136, blocks as nat, 64);
            assert(total =~= sofar + total.skip(136 * blocks));
            lemma_rej_eta_concat(eta as int, sofar, total.skip(136 * blocks));
        }
        let all = spec_rej_eta(eta as int, total);
        assert(a@ =~= spec_sampled_poly(old(a)@, all));
        lemma_rej_eta_concat(eta as int, Seq::<u8>::empty(), total);
    }
    ctr == 256
}

/// The polynomial of the masking vector that belongs to `seed` and `nonce`:
/// what the first five SHAKE-256 blocks hold, unpacked.
pub open spec fn spec_poly_uniform_gamma1(gamma1: int, seed: Seq<u8>, nonce: u16) -> Seq<int> {
    spec_polyz_unpack(gamma1, spec_shake256(spec_stream_input(seed.take(64), nonce), 680))
}

/// Samples a polynomial with coefficients in `(-gamma1, gamma1]` from the
/// SHAKE-256 stream of `seed` and `nonce`.
pub fn poly_uniform_gamma1<P: DilithiumParams>(a: &mut Poly, seed: &[u8], nonce: u16)
    requires
        seed.len() >= 64,
    ensures
        final(a)@ == spec_poly_uniform_gamma1(
            P::mode().spec_params().gamma1 as int,
            seed@,
            nonce,
        ),
        spec_in_range(
            final(a)@,
            -P::mode().spec_params().gamma1 + 1,
            P::mode().spec_params().gamma1 as int,
        ),
{
    let mut poly_buf = P::poly_uniform_gamma1_buffer();
    let buf = poly_buf.buf();
    let mut state = KeccakState::default();
    state.dilithium_shake256_stream_init(seed, nonce);
    state.shake256_squeezeblocks(buf, 5);
    proof {
        assert(buf@.take(680) =~= buf@);
    }
    polyz_unpack::<P>(a, buf);
}

/// The number of SHAKE-256 blocks after which `poly_challenge` gives up.
pub const POLY_CHALLENGE_MAX_BLOCKS: usize = 64;

/// The bytes that SHAKE-256 gives for the first 32 bytes of `seed`, as far as
/// `poly_challenge` reads them at most.
pub open spec fn spec_challenge_stream(seed: Seq<u8>) -> Seq<u8> {
    spec_shake256(seed.take(32), (136 * POLY_CHALLENGE_MAX_BLOCKS) as nat)
}

/// The first eight bytes of the stream as a number, low byte first. Its bits
/// give the signs of the nonzero coefficients, the lowest bit first.
pub open spec fn spec_signs(s: Seq<u8>) -> int {
    s[0] as int + 256 * (s[1] as int + 256 * (s[2] as int + 256 * (s[3] as int + 256 * (s[4] as int
        + 256 * (s[5] as int + 256 * (s[6] as int + 256 * (s[7] as int)))))))
}

/// The first place at or after `pos` where the stream holds a byte that is at
/// most `i`, or the length of the stream if there is none.
pub open spec fn spec_challenge_position(stream: Seq<u8>, pos: int, i: int) -> int
    decreases stream.len() - pos,
{
    if pos < 0 || pos >= stream.len() {
        stream.len() as int
    } else if stream[pos] <= i {
        pos
    } else {
        spec_challenge_position(stream, pos + 1, i)
    }
}

/// The challenge after `k` of its `tau` nonzero coefficients have been
/// placed, with the place up to which the stream has been read and the signs
/// that are left. Step `k` has `i = 256 - tau + k - 1`: it takes the next
/// byte `b` that is at most `i`, moves the coefficient at `b` to `i` and puts
/// the next sign at `b`. Where the stream ends before such a byte is found,
/// the place is one past the end of the stream and nothing changes any more.
pub open spec fn spec_challenge_steps(stream: Seq<u8>, tau: int, k: nat) -> (Seq<int>, int, int)
    decreases k,
{
    if k == 0 {
        (spec_poly_zero(), 8, spec_signs(stream))
    } else {
        let prev = spec_challenge_steps(stream, tau, (k - 1) as nat);
        let i = 256 - tau + k - 1;
        let p = spec_challenge_position(stream, prev.1, i);
        if p >= stream.len() {
            (prev.0, stream.len() as int + 1, prev.2)
        } else {
            let b = stream[p] as int;
            (prev.0.update(i, prev.0[b]).update(b, 1 - 2 * (prev.2 % 2)), p + 1, prev.2 / 2)
        }
    }
}

/// The place that a search gives is no later than the end of the stream.
pub proof fn lemma_challenge_position_bound(stream: Seq<u8>, pos: int, i: int)
    ensures
        spec_challenge_position(stream, pos, i) <= stream.len(),
    decreases stream.len() - pos,
{
    if 0 <= pos < stream.len() && stream[pos] > i {
        lemma_challenge_position_bound(stream, pos + 1, i);
    }
}

/// The place up to which the stream has been read is at most one past its end.
pub proof fn lemma_challenge_place_bound(stream: Seq<u8>, tau: int, k: nat)
    requires
        stream.len() >= 8,
    ensures
        spec_challenge_steps(stream, tau, k).1 <= stream.len() + 1,
    decreases k,
{
    if k > 0 {
        lemma_challenge_place_bound(stream, tau, (k - 1) as nat);
        let prev = spec_challenge_steps(stream, tau, (k - 1) as nat);
        lemma_challenge_position_bound(stream, prev.1, 256 - tau + k - 1);
    }
}

/// Once the stream has ended, further steps change nothing.
pub proof fn lemma_challenge_stuck(stream: Seq<u8>, tau: int, k: nat, n: nat)
    requires
        k <= n,
        stream.len() >= 8,
        spec_challenge_steps(stream, tau, k).1 > stream.len(),
    ensures
        spec_challenge_steps(stream, tau, n) == spec_challenge_steps(stream, tau, k),
    decreases n - k,
{
    if k < n {
        lemma_challenge_stuck(stream, tau, k, (n - 1) as nat);
        lemma_challenge_place_bound(stream, tau, k);
        let prev = spec_challenge_steps(stream, tau, (n - 1) as nat);
        assert(spec_challenge_position(stream, prev.1, 256 - tau + n - 1) == stream.len());
    }
}

/// Every coefficient of a challenge is 0, 1 or -1.
pub proof fn lemma_challenge_range(stream: Seq<u8>, tau: int, k: nat)
    requires
        k <= tau <= 256,
    ensures
        spec_challenge_steps(stream, tau, k).0.len() == 256,
        spec_in_range(spec_challenge_steps(stream, tau, k).0, -1, 1),
    decreases k,
{
    if k > 0 {
        lemma_challenge_range(stream, tau, (k - 1) as nat);
        let prev = spec_challenge_steps(stream, tau, (k - 1) as nat);
        lemma_challenge_position_bound(stream, prev.1, 256 - tau + k - 1);
        lemma_challenge_position_found(stream, prev.1, 256 - tau + k - 1);
    }
}

/// The byte at the place that a search gives is at most `i`.
pub proof fn lemma_challenge_position_found(stream: Seq<u8>, pos: int, i: int)
    ensures
        spec_challenge_position(stream, pos, i) < stream.len() ==> 0 <= spec_challenge_position(
            stream,
            pos,
            i,
        ) && stream[spec_challenge_position(stream, pos, i)] <= i,
    decreases stream.len() - pos,
{
    if 0 <= pos < stream.len() && stream[pos] > i {
        lemma_challenge_position_found(stream, pos + 1, i);
    }
}

/// The number of places below `n` where `p` is not zero.
pub open spec fn spec_nonzero_count(p: Seq<int>, n: nat) -> nat
    decreases n,
{
    if n == 0 {
        0
    } else {
        spec_nonzero_count(p, (n - 1) as nat) + (if p[n - 1] != 0 {
            1nat
        } else {
            0nat
        })
    }
}

/// The zero polynomial has no nonzero coefficient.
proof fn lemma_nonzero_count_zero(n: nat)
    requires
        n <= 256,
    ensures
        spec_nonzero_count(spec_poly_zero(), n) == 0,
    decreases n,
{
    if n > 0 {
        lemma_nonzero_count_zero((n - 1) as nat);
    }
}

/// A change at a place from `n` on does not change the count below `n`.
proof fn lemma_nonzero_count_above(p: Seq<int>, n: nat, at: int, v: int)
    requires
        n <= at < p.len(),
    ensures
        spec_nonzero_count(p.update(at, v), n) == spec_nonzero_count(p, n),
    decreases n,
{
    if n > 0 {
        lemma_nonzero_count_above(p, (n - 1) as nat, at, v);
    }
}

/// A nonzero value put at a place below `n` raises the count below `n` by
/// one where the place held zero, and leaves it where it did not.
proof fn lemma_nonzero_count_update(p: Seq<int>, n: nat, at: int, v: int)
    requires
        0 <= at < n <= p.len(),
        v != 0,
    ensures
        spec_nonzero_count(p.update(at, v), n) == spec_nonzero_count(p, n) + (if p[at] == 0 {
            1nat
        } else {
            0nat
        }),
    decreases n,
{
    if at == n - 1 {
        lemma_nonzero_count_above(p, (n - 1) as nat, at, v);
    } else {
        lemma_nonzero_count_update(p, (n - 1) as nat, at, v);
    }
}

/// After `k` steps that each found their byte, the challenge has `k` nonzero
/// coefficients, all of them below `256 - tau + k`. So a challenge that was
/// made to its end has exactly `tau` nonzero coefficients.
pub proof fn lemma_challenge_weight(stream: Seq<u8>, tau: int, k: nat)
    requires
        k <= tau <= 256,
        k == 0 || spec_challenge_steps(stream, tau, k).1 <= stream.len(),
    ensures
        spec_nonzero_count(spec_challenge_steps(stream, tau, k).0, (256 - tau + k) as nat) == k,
        forall|j: int|
            256 - tau + k <= j < 256 ==> #[trigger] spec_challenge_steps(stream, tau, k).0[j] == 0,
    decreases k,
{
    if k == 0 {
        lemma_nonzero_count_zero((256 - tau) as nat);
    } else {
        let prev = spec_challenge_steps(stream, tau, (k - 1) as nat);
        let i = 256 - tau + k - 1;
        let p = spec_challenge_position(stream, prev.1, i);
        lemma_challenge_position_bound(stream, prev.1, i);
        lemma_challenge_position_found(stream, prev.1, i);
        assert(p < stream.len());
        assert(prev.1 <= stream.len());
        lemma_challenge_weight(stream, tau, (k - 1) as nat);
        lemma_challenge_range(stream, tau, (k - 1) as nat);
        let b = stream[p] as int;
        let v = 1 - 2 * (prev.2 % 2);
        let q = prev.0;
        let q1 = q.update(i, q[b]);
        let q2 = q1.update(b, v);
        assert(spec_challenge_steps(stream, tau, k).0 == q2);
        assert(q[i] == 0);
        lemma_nonzero_count_above(q, i as nat, i, q[b]);
        if b == i {
            lemma_nonzero_count_above(q1, i as nat, i, v);
        } else {
            lemma_nonzero_count_update(q1, i as nat, b, v);
        }
        assert(spec_nonzero_count(q2, (i + 1) as nat) == spec_nonzero_count(q2, i as nat) + (
        if q2[i] != 0 {
            1nat
        } else {
            0nat
        }));
        assert forall|j: int| 256 - tau + k <= j < 256 implies #[trigger] q2[j] == 0 by {
            assert(q2[j] == q[j]);
        }
    }
}

/// Makes the challenge polynomial, with `tau` coefficients that are 1 or -1
/// and the others 0, from the SHAKE-256 stream of the first 32 bytes of
/// `seed`. Returns whether the stream, as far as it is read, sufficed.
pub fn poly_challenge<P: DilithiumParams>(c: &mut Poly, seed: &[u8]) -> (filled: bool)
    requires
        seed.len() >= 32,
    ensures
        filled == (spec_challenge_steps(
            spec_challenge_stream(seed@),
            P::mode().spec_params().tau as int,
            P::mode().spec_params().tau as nat,
        ).1 <= spec_challenge_stream(seed@).len()),
        final(c)@ == spec_challenge_steps(
            spec_challenge_stream(seed@),
            P::mode().spec_params().tau as int,
            P::mode().spec_params().tau as nat,
        ).0,
        spec_in_range(final(c)@, -1, 1),
        filled ==> spec_nonzero_count(final(c)@, 256) == P::mode().spec_params().tau,
{
    let tau: usize = P::algorithm().params().tau;
    let ghost st0 = spec_shake_absorbed(136, seed@.take(32));
    let ghost stream = spec_challenge_stream(seed@);
    let mut buf: [u8; 136] = [0u8; 136];
    let mut state = KeccakState::default();
    state.shake256_absorb(seed, 32);
    state.shake256_finalize();
    state.shake256_squeezeblocks(&mut buf, 1);
    proof {
        lemma_stream_block(st0, 136, 0, 64);
        assert(buf@.take(136) =~= buf@);
        assert(spec_stream_lanes(st0, 136, 0) == st0);
    }
    let signs0: u64 = (buf[0] as u64) + 256 * ((buf[1] as u64) + 256 * ((buf[2] as u64) + 256 * ((
    buf[3] as u64) + 256 * ((buf[4] as u64) + 256 * ((buf[5] as u64) + 256 * ((buf[6] as u64) + 256
        * (buf[7] as u64)))))));
    let mut signs: u64 = signs0;
    let mut pos: usize = 8;
    let mut blocks: usize = 1;
    *c = Poly::default();
    let mut i: usize = 256 - tau;
    let mut ok: bool = true;
    while i < 256 && ok
        invariant
            1 <= tau <= 60,
            256 - tau <= i <= 256,
            1 <= blocks <= 64,
            pos <= 136,
            st0 == spec_shake_absorbed(136, seed@.take(32)),
            stream == spec_challenge_stream(seed@),
            stream.len() == 8704,
            buf@ == stream.subrange(136 * (blocks - 1), 136 * blocks),
            state.s@ == spec_stream_lanes(st0, 136, (136 * blocks) as nat),
            ok ==> spec_challenge_steps(stream, tau as int, (i - (256 - tau)) as nat) == (
                c@,
                136 * (blocks - 1) + pos,
                signs as int,
            ),
            !ok ==> spec_challenge_steps(stream, tau as int, (i - (256 - tau)) as nat) == (
                c@,
                8705int,
                signs as int,
            ),
        decreases 256 - i,
    {
        let ghost start = 136 * (blocks - 1) + pos;
        let ghost c0 = c@;
        let mut found: bool = false;
        let mut b: usize = 0;
        while !found && ok
            invariant
                i < 256,
                1 <= blocks <= 64,
                pos <= 136,
                st0 == spec_shake_absorbed(136, seed@.take(32)),
                stream == spec_challenge_stream(seed@),
                stream.len() == 8704,
                buf@ == stream.subrange(136 * (blocks - 1), 136 * blocks),
                state.s@ == spec_stream_lanes(st0, 136, (136 * blocks) as nat),
                start <= 136 * (blocks - 1) + pos,
                !found && ok ==> spec_challenge_position(stream, start, i as int)
                    == spec_challenge_position(stream, 136 * (blocks - 1) + pos, i as int),
                found ==> ok && spec_challenge_position(stream, start, i as int) == 136 * (blocks
                    - 1) + pos - 1 && b == stream[136 * (blocks - 1) + pos - 1] && b <= i,
                !ok ==> !found && spec_challenge_position(stream, start, i as int) == 8704,
            decreases (if ok && !found { 1int } else { 0int }) + (8704 - (136 * (blocks - 1) + pos)),
        {
            if pos >= 136 {
                if blocks >= POLY_CHALLENGE_MAX_BLOCKS {
                    ok = false;
                } else {
                    state.shake256_squeezeblocks(&mut buf, 1);
                    proof {
                        lemma_stream_block(st0, 136, blocks as nat, 64);
                        assert(buf@.take(136) =~= buf@);
                    }
                    blocks += 1;
                    pos = 0;
                }
            }
            if ok {
                proof {
                    assert(buf@[pos as int] == stream[136 * (blocks - 1) + pos]);
                }
                b = buf[pos] as usize;
                pos += 1;
                if b <= i {
                    found = true;
                }
            }
        }
        if ok {
            let moved: i32 = c.coeffs[b];
            c.coeffs[i] = moved;
            c.coeffs[b] = 1 - 2 * ((signs % 2) as i32);
            proof {
                assert(c@ =~= c0.update(i as int, c0[b as int]).update(
                    b as int,
                    1 - 2 * ((signs as int) % 2),
                ));
            }
            signs = signs / 2;
        }
        i += 1;
    }
    proof {
        if !ok {
            lemma_challenge_stuck(stream, tau as int, (i - (256 - tau)) as nat, tau as nat);
        }
        lemma_challenge_range(stream, tau as int, tau as nat);
        if ok {
            lemma_challenge_weight(stream, tau as int, tau as nat);
        }
    }
    ok
}

} // verus!
