use vstd::prelude::*;
use crate::params::{SEEDBYTES, SHAKE128_RATE, SHAKE256_RATE};

verus! {

pub const KECCAKF_ROUND_CONSTANTS: [u64; 24] = [
    0x0000000000000001u64,
    0x0000000000008082u64,
    0x800000000000808au64,
    0x8000000080008000u64,
    0x000000000000808bu64,
    0x0000000080000001u64,
    0x8000000080008081u64,
    0x8000000000008009u64,
    0x000000000000008au64,
    0x0000000000000088u64,
    0x0000000080008009u64,
    0x000000008000000au64,
    0x000000008000808bu64,
    0x800000000000008bu64,
    0x8000000000008089u64,
    0x8000000000008003u64,
    0x8000000000008002u64,
    0x8000000000000080u64,
    0x000000000000800au64,
    0x800000008000000au64,
    0x8000000080008081u64,
    0x8000000000008080u64,
    0x0000000080000001u64,
    0x8000000080008008u64,
];

/// By how many bits the rho step rotates lane `x + 5 * y`.
pub const KECCAKF_ROTATIONS: [u32; 25] = [
    0u32, 1u32, 62u32, 28u32, 27u32,
    36u32, 44u32, 6u32, 55u32, 20u32,
    3u32, 10u32, 43u32, 25u32, 39u32,
    41u32, 45u32, 15u32, 21u32, 8u32,
    18u32, 2u32, 61u32, 56u32, 14u32,
];

/// `a` rotated to the left by `offset` bits.
pub open spec fn spec_rol(a: u64, offset: u32) -> u64 {
    if offset == 0 {
        a
    } else {
        (a << offset) ^ (a >> ((64 - offset) as u32))
    }
}

/// The parity of column `x` of the state `a`, whose lane `(x, y)` is `a[x + 5 * y]`.
pub open spec fn spec_theta_parity(a: Seq<u64>, x: int) -> u64 {
    a[x] ^ a[x + 5] ^ a[x + 10] ^ a[x + 15] ^ a[x + 20]
}

/// What the theta step adds to each lane of column `x`.
pub open spec fn spec_theta_effect(a: Seq<u64>, x: int) -> u64 {
    spec_theta_parity(a, (x + 4) % 5) ^ spec_rol(spec_theta_parity(a, (x + 1) % 5), 1)
}

pub open spec fn spec_theta(a: Seq<u64>) -> Seq<u64> {
    Seq::new(25, |i: int| a[i] ^ spec_theta_effect(a, i % 5))
}

/// The lane that the pi step moves to place `j`.
pub open spec fn spec_pi_source(j: int) -> int {
    (j % 5 + 3 * (j / 5)) % 5 + 5 * (j % 5)
}

/// The rho and pi steps: each lane is rotated by its own offset and moved
/// from `(x, y)` to `(y, 2 * x + 3 * y)`.
pub open spec fn spec_rho_pi(a: Seq<u64>) -> Seq<u64> {
    Seq::new(
        25,
        |j: int| spec_rol(a[spec_pi_source(j)], KECCAKF_ROTATIONS@[spec_pi_source(j)]),
    )
}

pub open spec fn spec_chi(a: Seq<u64>) -> Seq<u64> {
    Seq::new(
        25,
        |i: int| a[i] ^ ((!a[(i % 5 + 1) % 5 + 5 * (i / 5)]) & a[(i % 5 + 2) % 5 + 5 * (i / 5)]),
    )
}

pub open spec fn spec_iota(a: Seq<u64>, round: int) -> Seq<u64> {
    a.update(0, a[0] ^ KECCAKF_ROUND_CONSTANTS@[round])
}

/// One round of Keccak-f[1600] on a state of 25 lanes.
pub open spec fn spec_keccak_round(a: Seq<u64>, round: int) -> Seq<u64> {
    spec_iota(spec_chi(spec_rho_pi(spec_theta(a))), round)
}

/// The first `n` rounds of Keccak-f[1600].
pub open spec fn spec_keccak_rounds(a: Seq<u64>, n: nat) -> Seq<u64>
    decreases n,
{
    if n == 0 {
        a
    } else {
        spec_keccak_round(spec_keccak_rounds(a, (n - 1) as nat), n - 1)
    }
}

/// The permutation Keccak-f[1600].
pub open spec fn spec_keccak_f1600(a: Seq<u64>) -> Seq<u64> {
    spec_keccak_rounds(a, 24)
}

fn rol(a: u64, offset: u32) -> (r: u64)
    requires
        0 < offset < 64,
    ensures
        r == spec_rol(a, offset),
{
    (a << offset) ^ (a >> (64 - offset))
}

fn keccak_round(state: &mut [u64], round: usize)
    requires
        old(state).len() == 25,
        round < 24,
    ensures
        final(state)@ == spec_keccak_round(old(state)@, round as int),
{
    let ghost a = state@;
    let mut c: [u64; 5] = [0u64; 5];
    let mut x: usize = 0;
    while x < 5
        invariant
            x <= 5,
            state@ == a,
            a.len() == 25,
            forall|k: int| 0 <= k < x ==> c@[k] == spec_theta_parity(a, k),
        decreases 5 - x,
    {
        c[x] = state[x] ^ state[x + 5] ^ state[x + 10] ^ state[x + 15] ^ state[x + 20];
        x += 1;
    }
    let mut t: [u64; 25] = [0u64; 25];
    let mut i: usize = 0;
    while i < 25
        invariant
            i <= 25,
            state@ == a,
            a.len() == 25,
            forall|k: int| 0 <= k < 5 ==> c@[k] == spec_theta_parity(a, k),
            forall|k: int| 0 <= k < i ==> t@[k] == spec_theta(a)[k],
        decreases 25 - i,
    {
        let col: usize = i % 5;
        let d: u64 = c[(col + 4) % 5] ^ rol(c[(col + 1) % 5], 1);
        t[i] = state[i] ^ d;
        i += 1;
    }
    assert(t@ =~= spec_theta(a));
    let mut b: [u64; 25] = [0u64; 25];
    let mut j: usize = 0;
    while j < 25
        invariant
            j <= 25,
            forall|k: int| 0 <= k < j ==> b@[k] == spec_rho_pi(t@)[k],
        decreases 25 - j,
    {
        let src: usize = (j % 5 + 3 * (j / 5)) % 5 + 5 * (j % 5);
        let offset: u32 = KECCAKF_ROTATIONS[src];
        if offset == 0 {
            b[j] = t[src];
        } else {
            b[j] = rol(t[src], offset);
        }
        j += 1;
    }
    assert(b@ =~= spec_rho_pi(t@));
    let mut i: usize = 0;
    while i < 25
        invariant
            i <= 25,
            state.len() == 25,
            forall|k: int| 0 <= k < i ==> state@[k] == spec_chi(b@)[k],
        decreases 25 - i,
    {
        let row: usize = 5 * (i / 5);
        let col: usize = i % 5;
        state[i] = b[i] ^ ((!b[(col + 1) % 5 + row]) & b[(col + 2) % 5 + row]);
        i += 1;
    }
    assert(state@ =~= spec_chi(b@));
    state[0] = state[0] ^ KECCAKF_ROUND_CONSTANTS[round];
}

/// Applies Keccak-f[1600] to the 25 lanes of `state`.
pub fn keccakf1600_state_permute(state: &mut [u64])
    requires
        old(state).len() == 25,
    ensures
        final(state)@ == spec_keccak_f1600(old(state)@),
{
    let mut round: usize = 0;
    while round < 24
        invariant
            round <= 24,
            state.len() == 25,
            state@ == spec_keccak_rounds(old(state)@, round as nat),
        decreases 24 - round,
    {
        keccak_round(state, round);
        round += 1;
    }
}

/// The state of 25 lanes that are all zero.
pub open spec fn spec_zero_lanes() -> Seq<u64> {
    Seq::new(25, |i: int| 0u64)
}

/// The state `lanes` with the byte `b` added to byte `i` of the state. Byte
/// `i` of the state is byte `i % 8`, counted from the low end, of lane `i / 8`.
pub open spec fn spec_xor_byte(lanes: Seq<u64>, i: int, b: u8) -> Seq<u64> {
    lanes.update(i / 8, lanes[i / 8] ^ ((b as u64) << ((8 * (i % 8)) as usize)))
}

/// Byte `i` of the state.
pub open spec fn spec_state_byte(lanes: Seq<u64>, i: int) -> u8 {
    (lanes[i / 8] >> ((8 * (i % 8)) as usize)) as u8
}

/// The state with `bytes` added to the bytes of the state from byte `pos` on.
pub open spec fn spec_xor_bytes(lanes: Seq<u64>, pos: int, bytes: Seq<u8>) -> Seq<u64>
    decreases bytes.len(),
{
    if bytes.len() == 0 {
        lanes
    } else {
        spec_xor_byte(
            spec_xor_bytes(lanes, pos, bytes.drop_last()),
            pos + bytes.len() - 1,
            bytes.last(),
        )
    }
}

/// Absorbing `input` into a sponge with the given rate whose cursor stands at
/// `pos`: the input is added to the state byte by byte, and each time the
/// cursor reaches the rate the state is permuted and the cursor goes back to
/// 0. Gives the new lanes and the new cursor.
pub open spec fn spec_absorb(lanes: Seq<u64>, pos: int, rate: int, input: Seq<u8>) -> (
    Seq<u64>,
    int,
)
    decreases input.len(), pos,
{
    if 0 <= pos <= rate && 0 < rate && pos + input.len() >= rate {
        spec_absorb(
            spec_keccak_f1600(spec_xor_bytes(lanes, pos, input.take(rate - pos))),
            0,
            rate,
            input.skip(rate - pos),
        )
    } else {
        (spec_xor_bytes(lanes, pos, input), pos + input.len())
    }
}

/// The end of the input: the domain byte `p` is added at the cursor and the
/// top bit of the last byte of the block is flipped.
pub open spec fn spec_finalize(lanes: Seq<u64>, pos: int, rate: int, p: u8) -> Seq<u64> {
    let padded = spec_xor_byte(lanes, pos, p);
    padded.update(rate / 8 - 1, padded[rate / 8 - 1] ^ 0x8000_0000_0000_0000u64)
}

/// Squeezing `n` bytes out of a sponge whose cursor stands at `pos`: each
/// byte is the byte of the state at the cursor, and where the cursor has
/// reached the rate the state is permuted first and the cursor goes back to
/// 0. Gives the bytes, the new lanes and the new cursor.
pub open spec fn spec_squeeze(lanes: Seq<u64>, pos: int, rate: int, n: nat) -> (
    Seq<u8>,
    Seq<u64>,
    int,
)
    decreases n, (if pos >= rate && rate > 0 { 1int } else { 0int }),
{
    if n == 0 {
        (Seq::<u8>::empty(), lanes, pos)
    } else if pos >= rate && rate > 0 {
        spec_squeeze(spec_keccak_f1600(lanes), 0, rate, n)
    } else {
        let rest = spec_squeeze(lanes, pos + 1, rate, (n - 1) as nat);
        (seq![spec_state_byte(lanes, pos)] + rest.0, rest.1, rest.2)
    }
}

/// The state of a SHAKE sponge of the given rate after `input` has been
/// absorbed and the input closed.
pub open spec fn spec_shake_absorbed(rate: int, input: Seq<u8>) -> Seq<u64> {
    let st = spec_absorb(spec_zero_lanes(), 0, rate, input);
    spec_finalize(st.0, st.1, rate, 0x1F)
}

/// The first `n` bytes of SHAKE-128 of `input`.
pub open spec fn spec_shake128(input: Seq<u8>, n: nat) -> Seq<u8> {
    spec_squeeze(spec_shake_absorbed(168, input), 168, 168, n).0
}

/// The first `n` bytes of SHAKE-256 of `input`.
pub open spec fn spec_shake256(input: Seq<u8>, n: nat) -> Seq<u8> {
    spec_squeeze(spec_shake_absorbed(136, input), 136, 136, n).0
}

/// Adding `a` and then `b` to the state is adding `a + b`.
pub proof fn lemma_xor_bytes_concat(lanes: Seq<u64>, pos: int, a: Seq<u8>, b: Seq<u8>)
    ensures
        spec_xor_bytes(lanes, pos, a + b) == spec_xor_bytes(
            spec_xor_bytes(lanes, pos, a),
            pos + a.len(),
            b,
        ),
    decreases b.len(),
{
    if b.len() == 0 {
        assert(a + b =~= a);
    } else {
        assert((a + b).drop_last() =~= a + b.drop_last());
        lemma_xor_bytes_concat(lanes, pos, a, b.drop_last());
    }
}

/// Absorbing `a` and then `b` is absorbing `a + b`.
pub proof fn lemma_absorb_concat(lanes: Seq<u64>, pos: int, rate: int, a: Seq<u8>, b: Seq<u8>)
    requires
        0 <= pos <= rate,
        0 < rate,
    ensures
        spec_absorb(lanes, pos, rate, a + b) == spec_absorb(
            spec_absorb(lanes, pos, rate, a).0,
            spec_absorb(lanes, pos, rate, a).1,
            rate,
            b,
        ),
        0 <= spec_absorb(lanes, pos, rate, a).1 <= rate,
        a.len() > 0 ==> spec_absorb(lanes, pos, rate, a).1 < rate,
    decreases a.len(), pos,
{
    let n = rate - pos;
    if pos + a.len() >= rate {
        assert((a + b).take(n) =~= a.take(n));
        assert((a + b).skip(n) =~= a.skip(n) + b);
        lemma_absorb_concat(
            spec_keccak_f1600(spec_xor_bytes(lanes, pos, a.take(n))),
            0,
            rate,
            a.skip(n),
            b,
        );
    } else {
        let l1 = spec_xor_bytes(lanes, pos, a);
        let p1 = pos + a.len();
        if p1 + b.len() >= rate {
            let m = rate - p1;
            assert((a + b).take(n) =~= a + b.take(m));
            assert((a + b).skip(n) =~= b.skip(m));
            lemma_xor_bytes_concat(lanes, pos, a, b.take(m));
        } else {
            lemma_xor_bytes_concat(lanes, pos, a, b);
        }
    }
}

/// Squeezing `n1` bytes and then `n2` bytes gives what squeezing `n1 + n2`
/// bytes gives.
pub proof fn lemma_squeeze_append(lanes: Seq<u64>, pos: int, rate: int, n1: nat, n2: nat)
    requires
        0 <= pos <= rate,
        0 < rate,
    ensures
        ({
            let a = spec_squeeze(lanes, pos, rate, n1);
            let b = spec_squeeze(a.1, a.2, rate, n2);
            &&& spec_squeeze(lanes, pos, rate, n1 + n2) == (a.0 + b.0, b.1, b.2)
            &&& a.0.len() == n1
            &&& 0 <= a.2 <= rate
        }),
    decreases n1, (if pos >= rate && rate > 0 { 1int } else { 0int }),
{
    let a = spec_squeeze(lanes, pos, rate, n1);
    let b = spec_squeeze(a.1, a.2, rate, n2);
    if n1 == 0 {
        assert(a.0 + b.0 =~= b.0);
    } else if pos >= rate {
        lemma_squeeze_append(spec_keccak_f1600(lanes), 0, rate, n1, n2);
    } else {
        lemma_squeeze_append(lanes, pos + 1, rate, (n1 - 1) as nat, n2);
        let rest = spec_squeeze(lanes, pos + 1, rate, (n1 - 1) as nat);
        assert((seq![spec_state_byte(lanes, pos)] + rest.0) + b.0 =~= seq![
            spec_state_byte(lanes, pos),
        ] + (rest.0 + b.0));
    }
}

/// The permutation gives 25 lanes.
pub proof fn lemma_keccak_len(lanes: Seq<u64>)
    ensures
        spec_keccak_f1600(lanes).len() == 25,
{
    reveal_with_fuel(spec_keccak_rounds, 2);
}

/// Within one block, squeezing reads the state and leaves it as it is.
pub proof fn lemma_squeeze_within_block(lanes: Seq<u64>, pos: int, rate: int, k: nat)
    requires
        0 <= pos,
        pos + k <= rate,
    ensures
        spec_squeeze(lanes, pos, rate, k) == (
            Seq::new(k, |j: int| spec_state_byte(lanes, pos + j)),
            lanes,
            pos + k,
        ),
    decreases k,
{
    if k > 0 {
        lemma_squeeze_within_block(lanes, pos + 1, rate, (k - 1) as nat);
        let rest = Seq::new((k - 1) as nat, |j: int| spec_state_byte(lanes, pos + 1 + j));
        assert(seq![spec_state_byte(lanes, pos)] + rest =~= Seq::new(
            k,
            |j: int| spec_state_byte(lanes, pos + j),
        ));
    } else {
        assert(Seq::<u8>::empty() =~= Seq::new(k, |j: int| spec_state_byte(lanes, pos + j)));
    }
}

/// The eight bytes at the start of `x` as a 64-bit number, low byte first.
pub open spec fn spec_load64(x: Seq<u8>) -> u64 {
    (x[0] as u64) | ((x[1] as u64) << 8) | ((x[2] as u64) << 16) | ((x[3] as u64) << 24) | ((
    x[4] as u64) << 32) | ((x[5] as u64) << 40) | ((x[6] as u64) << 48) | ((x[7] as u64) << 56)
}

/// Reads eight bytes as a 64-bit number, low byte first.
pub fn load64(x: &[u8]) -> (r: u64)
    requires
        x.len() >= 8,
    ensures
        r == spec_load64(x@),
{
    (x[0] as u64) | ((x[1] as u64) << 8) | ((x[2] as u64) << 16) | ((x[3] as u64) << 24) | ((
    x[4] as u64) << 32) | ((x[5] as u64) << 40) | ((x[6] as u64) << 48) | ((x[7] as u64) << 56)
}

/// Writes `u` into the first eight bytes of `x`, low byte first.
pub fn store64(u: u64, x: &mut [u8])
    requires
        old(x).len() >= 8,
    ensures
        final(x).len() == old(x).len(),
        forall|i: int| 0 <= i < 8 ==> #[trigger] final(x)@[i] == (u >> ((8 * i) as usize)) as u8,
        forall|i: int| 8 <= i < old(x).len() ==> #[trigger] final(x)@[i] == old(x)@[i],
{
    let mut i: usize = 0;
    while i < 8
        invariant
            i <= 8,
            x.len() == old(x).len(),
            old(x).len() >= 8,
            forall|j: int| 0 <= j < i ==> #[trigger] x@[j] == (u >> ((8 * j) as usize)) as u8,
            forall|j: int| i <= j < old(x).len() ==> #[trigger] x@[j] == old(x)@[j],
        decreases 8 - i,
    {
        x[i] = #[verifier::truncate] ((u >> (8 * i)) as u8);
        i += 1;
    }
}

fn keccak_init(s: &mut [u64; 25])
    ensures
        final(s)@ == spec_zero_lanes(),
{
    let mut i: usize = 0;
    while i < 25
        invariant
            i <= 25,
            forall|j: int| 0 <= j < i ==> s@[j] == 0,
        decreases 25 - i,
    {
        s[i] = 0;
        i += 1;
    }
    assert(s@ =~= spec_zero_lanes());
}

fn keccak_absorb(state: &mut KeccakState, r: usize, input: &[u8], inlen: usize)
    requires
        0 < r <= 200,
        old(state).pos <= r,
        inlen <= input.len(),
    ensures
        (final(state).s@, final(state).pos as int) == spec_absorb(
            old(state).s@,
            old(state).pos as int,
            r as int,
            input@.take(inlen as int),
        ),
        final(state).pos <= r,
        inlen > 0 ==> final(state).pos < r,
{
    let ghost data = input@.take(inlen as int);
    let mut idx: usize = 0;
    let mut pos: usize = state.pos;
    let mut remaining: usize = inlen;
    proof {
        assert(data.skip(0) =~= data);
    }
    while remaining >= r - pos
        invariant
            0 < r <= 200,
            pos <= r,
            idx + remaining == inlen,
            inlen <= input.len(),
            data == input@.take(inlen as int),
            idx > 0 ==> pos < r,
            spec_absorb(state.s@, pos as int, r as int, data.skip(idx as int)) == spec_absorb(
                old(state).s@,
                old(state).pos as int,
                r as int,
                data,
            ),
        decreases remaining, pos,
    {
        let ghost lanes0 = state.s@;
        let ghost start = idx;
        let mut i: usize = pos;
        while i < r
            invariant
                pos <= i <= r,
                r <= 200,
                idx == start + (i - pos),
                start + (r - pos) <= inlen,
                inlen <= input.len(),
                data == input@.take(inlen as int),
                state.s@ == spec_xor_bytes(lanes0, pos as int, data.subrange(start as int, idx as int)),
            decreases r - i,
        {
            proof {
                assert(data.subrange(start as int, idx + 1).drop_last() =~= data.subrange(
                    start as int,
                    idx as int,
                ));
            }
            state.s[i / 8] = state.s[i / 8] ^ ((input[idx] as u64) << (8 * (i % 8)));
            idx += 1;
            i += 1;
        }
        proof {
            assert(data.skip(start as int).take(r - pos) =~= data.subrange(
                start as int,
                idx as int,
            ));
            assert(data.skip(start as int).skip(r - pos) =~= data.skip(idx as int));
        }
        remaining -= r - pos;
        keccakf1600_state_permute(&mut state.s);
        pos = 0;
    }
    let ghost lanes0 = state.s@;
    let ghost start = idx;
    let mut i: usize = pos;
    while i < pos + remaining
        invariant
            pos <= i <= pos + remaining,
            pos + remaining < r,
            r <= 200,
            idx == start + (i - pos),
            start + remaining == inlen,
            inlen <= input.len(),
            data == input@.take(inlen as int),
            state.s@ == spec_xor_bytes(lanes0, pos as int, data.subrange(start as int, idx as int)),
        decreases pos + remaining - i,
    {
        proof {
            assert(data.subrange(start as int, idx + 1).drop_last() =~= data.subrange(
                start as int,
                idx as int,
            ));
        }
        state.s[i / 8] = state.s[i / 8] ^ ((input[idx] as u64) << (8 * (i % 8)));
        idx += 1;
        i += 1;
    }
    proof {
        assert(data.skip(start as int) =~= data.subrange(start as int, idx as int));
    }
    state.pos = i;
}

fn keccak_finalize(s: &mut [u64; 25], pos: usize, r: usize, p: u8)
    requires
        8 <= r <= 200,
        pos < 200,
    ensures
        final(s)@ == spec_finalize(old(s)@, pos as int, r as int, p),
{
    s[pos / 8] = s[pos / 8] ^ ((p as u64) << (8 * (pos % 8)));
    s[r / 8 - 1] = s[r / 8 - 1] ^ 0x8000_0000_0000_0000u64;
}

fn keccak_squeeze(out: &mut [u8], outlen: usize, s: &mut [u64; 25], pos: usize, r: usize) -> (newpos: usize)
    requires
        0 < r <= 200,
        pos <= r,
        outlen <= old(out).len(),
    ensures
        final(out).len() == old(out).len(),
        (final(out)@.take(outlen as int), final(s)@, newpos as int) == spec_squeeze(
            old(s)@,
            pos as int,
            r as int,
            outlen as nat,
        ),
        final(out)@.skip(outlen as int) == old(out)@.skip(outlen as int),
        newpos <= r,
{
    let ghost full = spec_squeeze(old(s)@, pos as int, r as int, outlen as nat);
    let mut idx: usize = 0;
    let mut pos: usize = pos;
    proof {
        assert(out@.take(0) + full.0 =~= full.0);
    }
    while idx < outlen
        invariant
            0 < r <= 200,
            pos <= r,
            idx <= outlen,
            outlen <= out.len(),
            out.len() == old(out).len(),
            out@.skip(outlen as int) == old(out)@.skip(outlen as int),
            full == (
                out@.take(idx as int) + spec_squeeze(
                    s@,
                    pos as int,
                    r as int,
                    (outlen - idx) as nat,
                ).0,
                spec_squeeze(s@, pos as int, r as int, (outlen - idx) as nat).1,
                spec_squeeze(s@, pos as int, r as int, (outlen - idx) as nat).2,
            ),
        decreases outlen - idx,
    {
        let ghost remaining = (outlen - idx) as nat;
        if pos == r {
            let ghost lanes_before = s@;
            keccakf1600_state_permute(s);
            proof {
                assert(spec_squeeze(lanes_before, r as int, r as int, remaining) == spec_squeeze(
                    s@,
                    0,
                    r as int,
                    remaining,
                ));
            }
            pos = 0;
        }
        let ghost before = out@;
        let ghost rest = spec_squeeze(s@, pos + 1, r as int, (remaining - 1) as nat);
        out[idx] = #[verifier::truncate] ((s[pos / 8] >> (8 * (pos % 8))) as u8);
        proof {
            assert(spec_squeeze(s@, pos as int, r as int, remaining) == (
                seq![spec_state_byte(s@, pos as int)] + rest.0,
                rest.1,
                rest.2,
            ));
            assert(out@.take(idx + 1) + rest.0 =~= before.take(idx as int) + (seq![
                spec_state_byte(s@, pos as int),
            ] + rest.0));
            assert(out@.skip(outlen as int) =~= before.skip(outlen as int));
        }
        idx += 1;
        pos += 1;
    }
    proof {
        assert(out@.take(outlen as int) + Seq::<u8>::empty() =~= out@.take(outlen as int));
    }
    pos
}

fn keccak_absorb_once(s: &mut [u64; 25], r: usize, input: &[u8], inlen: usize, p: u8)
    requires
        8 <= r <= 200,
        inlen <= input.len(),
    ensures
        final(s)@ == spec_finalize(
            spec_absorb(spec_zero_lanes(), 0, r as int, input@.take(inlen as int)).0,
            spec_absorb(spec_zero_lanes(), 0, r as int, input@.take(inlen as int)).1,
            r as int,
            p,
        ),
{
    let mut state = KeccakState { s: [0u64; 25], pos: 0 };
    assert(state.s@ =~= spec_zero_lanes());
    keccak_absorb(&mut state, r, input, inlen);
    keccak_finalize(&mut state.s, state.pos, r, p);
    *s = state.s;
}

fn keccak_squeezeblocks(out: &mut [u8], nblocks: usize, s: &mut [u64], r: usize)
    requires
        8 <= r <= 200,
        r % 8 == 0,
        old(s).len() == 25,
        nblocks * r <= old(out).len(),
    ensures
        final(out).len() == old(out).len(),
        final(s).len() == 25,
        (final(out)@.take(nblocks * r), final(s)@, r as int) == spec_squeeze(
            old(s)@,
            r as int,
            r as int,
            (nblocks * r) as nat,
        ),
        final(out)@.skip(nblocks * r) == old(out)@.skip(nblocks * r),
{
    let ghost total = (nblocks * r) as nat;
    let ghost full = spec_squeeze(old(s)@, r as int, r as int, total);
    let mut idx: usize = 0;
    let mut n: usize = nblocks;
    proof {
        assert(out@.take(0) + full.0 =~= full.0);
    }
    while n > 0
        invariant
            8 <= r <= 200,
            s.len() == 25,
            out.len() == old(out).len(),
            total == nblocks * r,
            total <= out.len(),
            idx + n * r == total,
            out@.skip(total as int) == old(out)@.skip(total as int),
            full == (
                out@.take(idx as int) + spec_squeeze(s@, r as int, r as int, (n * r) as nat).0,
                spec_squeeze(s@, r as int, r as int, (n * r) as nat).1,
                spec_squeeze(s@, r as int, r as int, (n * r) as nat).2,
            ),
        decreases n,
    {
        let ghost lanes_before = s@;
        let ghost out_before = out@;
        proof {
            assert(n * r == (n - 1) * r + r) by (nonlinear_arith);
            assert((n - 1) * r >= 0) by (nonlinear_arith)
                requires
                    n >= 1,
                    r >= 0,
            ;
        }
        keccakf1600_state_permute(s);
        proof {
            lemma_keccak_len(lanes_before);
        }
        let mut j: usize = 0;
        while j < r
            invariant
                j <= r,
                r <= 200,
                s.len() == 25,
                idx + r <= total,
                total <= out.len(),
                out.len() == old(out).len(),
                forall|k: int| 0 <= k < idx ==> out@[k] == out_before[k],
                forall|k: int| idx + j <= k < out.len() ==> out@[k] == out_before[k],
                forall|k: int| 0 <= k < j ==> out@[idx + k] == spec_state_byte(s@, k),
            decreases r - j,
        {
            out[idx + j] = #[verifier::truncate] ((s[j / 8] >> (8 * (j % 8))) as u8);
            j += 1;
        }
        proof {
            let block = Seq::new(r as nat, |k: int| spec_state_byte(s@, k));
            lemma_squeeze_within_block(s@, 0, r as int, r as nat);
            lemma_squeeze_append(s@, 0, r as int, r as nat, ((n - 1) * r) as nat);
            assert(out@.take(idx + r) =~= out_before.take(idx as int) + block);
            let rest = spec_squeeze(s@, r as int, r as int, ((n - 1) * r) as nat);
            assert(out@.take(idx + r) + rest.0 =~= out_before.take(idx as int) + (block + rest.0));
            assert(out@.skip(total as int) =~= out_before.skip(total as int));
        }
        idx += r;
        n -= 1;
    }
    proof {
        assert(out@.take(idx as int) + Seq::<u8>::empty() =~= out@.take(idx as int));
    }
}

/// A Keccak sponge: 25 lanes, and the cursor, the number of bytes of the
/// current block that have been absorbed or squeezed.
#[derive(Copy, Clone, Debug)]
pub struct KeccakState {
    pub s: [u64; 25],
    pub pos: usize,
}

impl Default for KeccakState {
    fn default() -> (st: Self)
        ensures
            st.s@ == spec_zero_lanes(),
            st.pos == 0,
    {
        let st = KeccakState { s: [0u64; 25], pos: 0usize };
        assert(st.s@ =~= spec_zero_lanes());
        st
    }
}

impl KeccakState {
    /// Back to the state of a fresh sponge.
    pub fn init(&mut self)
        ensures
            final(self).s@ == spec_zero_lanes(),
            final(self).pos == 0,
    {
        keccak_init(&mut self.s);
        self.pos = 0;
    }

    /// Absorbs `input` at the rate of SHAKE-128.
    pub fn shake128_absorb(&mut self, input: &[u8])
        requires
            old(self).pos <= 168,
        ensures
            (final(self).s@, final(self).pos as int) == spec_absorb(
                old(self).s@,
                old(self).pos as int,
                168,
                input@,
            ),
            final(self).pos <= 168,
            input@.len() > 0 ==> final(self).pos < 168,
    {
        assert(input@.take(input@.len() as int) =~= input@);
        keccak_absorb(self, SHAKE128_RATE, input, input.len());
    }

    /// Closes the input of a SHAKE-128 sponge.
    pub fn shake128_finalize(&mut self)
        requires
            old(self).pos < 200,
        ensures
            final(self).s@ == spec_finalize(old(self).s@, old(self).pos as int, 168, 0x1F),
            final(self).pos == 168,
    {
        keccak_finalize(&mut self.s, self.pos, SHAKE128_RATE, 0x1F);
        self.pos = SHAKE128_RATE;
    }

    /// Squeezes 32 bytes at the rate of SHAKE-128 into the start of `out`.
    pub fn shake128_squeeze(&mut self, out: &mut [u8])
        requires
            old(self).pos <= 168,
            old(out).len() >= 32,
        ensures
            final(out).len() == old(out).len(),
            (final(out)@.take(32), final(self).s@, final(self).pos as int) == spec_squeeze(
                old(self).s@,
                old(self).pos as int,
                168,
                32,
            ),
            final(out)@.skip(32) == old(out)@.skip(32),
            final(self).pos <= 168,
    {
        self.pos = keccak_squeeze(out, SEEDBYTES, &mut self.s, self.pos, SHAKE128_RATE);
    }

    /// Squeezes `nblocks` whole blocks of SHAKE-128 into the start of `out`,
    /// beginning with a permutation of the state. The cursor is not read and
    /// stays as it is.
    pub fn shake128_squeezeblocks(&mut self, out: &mut [u8], nblocks: usize)
        requires
            nblocks * 168 <= old(out).len(),
        ensures
            final(out).len() == old(out).len(),
            (final(out)@.take(nblocks * 168), final(self).s@, 168int) == spec_squeeze(
                old(self).s@,
                168,
                168,
                (nblocks * 168) as nat,
            ),
            final(out)@.skip(nblocks * 168) == old(out)@.skip(nblocks * 168),
            final(self).pos == old(self).pos,
    {
        keccak_squeezeblocks(out, nblocks, &mut self.s, SHAKE128_RATE);
    }

    /// Absorbs the first `inlen` bytes of `input` at the rate of SHAKE-256.
    pub fn shake256_absorb(&mut self, input: &[u8], inlen: usize)
        requires
            old(self).pos <= 136,
            inlen <= input.len(),
        ensures
            (final(self).s@, final(self).pos as int) == spec_absorb(
                old(self).s@,
                old(self).pos as int,
                136,
                input@.take(inlen as int),
            ),
            final(self).pos <= 136,
            inlen > 0 ==> final(self).pos < 136,
    {
        keccak_absorb(self, SHAKE256_RATE, input, inlen);
    }

    /// Closes the input of a SHAKE-256 sponge.
    pub fn shake256_finalize(&mut self)
        requires
            old(self).pos < 200,
        ensures
            final(self).s@ == spec_finalize(old(self).s@, old(self).pos as int, 136, 0x1F),
            final(self).pos == 136,
    {
        keccak_finalize(&mut self.s, self.pos, SHAKE256_RATE, 0x1F);
        self.pos = SHAKE256_RATE;
    }

    /// Squeezes `outlen` bytes at the rate of SHAKE-256 into the start of `out`.
    pub fn shake256_squeeze(&mut self, out: &mut [u8], outlen: usize)
        requires
            old(self).pos <= 136,
            outlen <= old(out).len(),
        ensures
            final(out).len() == old(out).len(),
            (final(out)@.take(outlen as int), final(self).s@, final(self).pos as int)
                == spec_squeeze(old(self).s@, old(self).pos as int, 136, outlen as nat),
            final(out)@.skip(outlen as int) == old(out)@.skip(outlen as int),
            final(self).pos <= 136,
    {
        self.pos = keccak_squeeze(out, outlen, &mut self.s, self.pos, SHAKE256_RATE);
    }

    /// Makes the sponge that of SHAKE-256 after the first `inlen` bytes of
    /// `input`, with the input closed.
    pub fn shake256_absorb_once(&mut self, input: &[u8], inlen: usize)
        requires
            inlen <= input.len(),
        ensures
            final(self).s@ == spec_shake_absorbed(136, input@.take(inlen as int)),
            final(self).pos == 136,
    {
        keccak_absorb_once(&mut self.s, SHAKE256_RATE, input, inlen, 0x1F);
        self.pos = SHAKE256_RATE;
    }

    /// Squeezes `nblocks` whole blocks of SHAKE-256 into the start of `out`,
    /// beginning with a permutation of the state. The cursor is not read and
    /// stays as it is.
    pub fn shake256_squeezeblocks(&mut self, out: &mut [u8], nblocks: usize)
        requires
            nblocks * 136 <= old(out).len(),
        ensures
            final(out).len() == old(out).len(),
            (final(out)@.take(nblocks * 136), final(self).s@, 136int) == spec_squeeze(
                old(self).s@,
                136,
                136,
                (nblocks * 136) as nat,
            ),
            final(out)@.skip(nblocks * 136) == old(out)@.skip(nblocks * 136),
            final(self).pos == old(self).pos,
    {
        keccak_squeezeblocks(out, nblocks, &mut self.s, SHAKE256_RATE);
    }
}

/// Writes the first `outlen` bytes of SHAKE-256 of the first `inlen` bytes of
/// `input` into the start of `out`.
pub fn shake256(out: &mut [u8], input: &[u8], outlen: usize, inlen: usize)
    requires
        outlen <= old(out).len(),
        inlen <= input.len(),
    ensures
        final(out).len() == old(out).len(),
        final(out)@.take(outlen as int) == spec_shake256(input@.take(inlen as int), outlen as nat),
        final(out)@.skip(outlen as int) == old(out)@.skip(outlen as int),
{
    let mut state = KeccakState::default();
    state.shake256_absorb_once(input, inlen);
    state.shake256_squeeze(out, outlen);
}

/// Writes the first `outlen` bytes of SHAKE-256 of the first `alen` bytes of
/// `a` followed by the first `blen` bytes of `b` into the start of `out`.
pub fn shake256_two(out: &mut [u8], outlen: usize, a: &[u8], alen: usize, b: &[u8], blen: usize)
    requires
        outlen <= old(out).len(),
        alen <= a.len(),
        blen <= b.len(),
    ensures
        final(out).len() == old(out).len(),
        final(out)@.take(outlen as int) == spec_shake256(
            a@.take(alen as int) + b@.take(blen as int),
            outlen as nat,
        ),
        final(out)@.skip(outlen as int) == old(out)@.skip(outlen as int),
{
    let mut state = KeccakState::default();
    state.shake256_absorb(a, alen);
    state.shake256_absorb(b, blen);
    proof {
        lemma_absorb_concat(
            spec_zero_lanes(),
            0,
            136,
            a@.take(alen as int),
            b@.take(blen as int),
        );
    }
    state.shake256_finalize();
    state.shake256_squeeze(out, outlen);
}

} // verus!
