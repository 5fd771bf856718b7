use vstd::prelude::*;
use crate::fips202::{
    lemma_absorb_concat, lemma_squeeze_append, spec_absorb, spec_shake_absorbed, spec_squeeze,
    spec_zero_lanes, KeccakState,
};

verus! {

/// The two bytes of `nonce`, low byte first.
pub open spec fn spec_nonce_bytes(nonce: u16) -> Seq<u8> {
    seq![(nonce % 256) as u8, (nonce / 256) as u8]
}

/// What a stream absorbs: the seed, then the nonce.
pub open spec fn spec_stream_input(seed: Seq<u8>, nonce: u16) -> Seq<u8> {
    seed + spec_nonce_bytes(nonce)
}

/// The first `n` bytes that a sponge of the given rate gives whose input has
/// been closed and whose lanes are `lanes`.
pub open spec fn spec_stream(lanes: Seq<u64>, rate: int, n: nat) -> Seq<u8> {
    spec_squeeze(lanes, rate, rate, n).0
}

/// The lanes of such a sponge after `n` bytes have been squeezed.
pub open spec fn spec_stream_lanes(lanes: Seq<u64>, rate: int, n: nat) -> Seq<u64> {
    spec_squeeze(lanes, rate, rate, n).1
}

/// After `k` whole blocks, the next block that the sponge gives is the part
/// of every longer stream that lies at that place.
pub proof fn lemma_stream_block(lanes: Seq<u64>, rate: int, k: nat, total: nat)
    requires
        0 < rate,
        k < total,
    ensures
        spec_stream(spec_stream_lanes(lanes, rate, (rate * k) as nat), rate, rate as nat)
            == spec_stream(lanes, rate, (rate * total) as nat).subrange(rate * k, rate * (k + 1)),
        spec_stream_lanes(spec_stream_lanes(lanes, rate, (rate * k) as nat), rate, rate as nat)
            == spec_stream_lanes(lanes, rate, (rate * (k + 1)) as nat),
        spec_stream(lanes, rate, (rate * total) as nat).take(rate * (k + 1)) == spec_stream(
            lanes,
            rate,
            (rate * (k + 1)) as nat,
        ),
        spec_stream(lanes, rate, (rate * total) as nat).take(rate * k) == spec_stream(
            lanes,
            rate,
            (rate * k) as nat,
        ),
        spec_stream(lanes, rate, (rate * total) as nat).len() == rate * total,
        0 <= rate * k,
        rate * (k + 1) == rate * k + rate,
        rate * (k + 1) <= rate * total,
{
    assert(0 <= rate * k && rate * (k + 1) == rate * k + rate && rate * (k + 1) <= rate * total)
        by (nonlinear_arith)
        requires
            0 < rate,
            0 <= k < total,
    ;
    let n1 = (rate * k) as nat;
    let n2 = rate as nat;
    let n3 = (rate * total - rate * (k + 1)) as nat;
    lemma_squeeze_append(lanes, rate, rate, n1, n2);
    lemma_squeeze_append(lanes, rate, rate, n1 + n2, n3);
    lemma_squeeze_append(lanes, rate, rate, n1, 0);
    let a = spec_squeeze(lanes, rate, rate, n1);
    let b = spec_squeeze(a.1, a.2, rate, n2);
    let ab = spec_squeeze(lanes, rate, rate, n1 + n2);
    let c = spec_squeeze(ab.1, ab.2, rate, n3);
    let full = spec_squeeze(lanes, rate, rate, (rate * total) as nat);
    assert(n1 + n2 + n3 == rate * total);
    assert(full.0 == ab.0 + c.0);
    assert(ab.0 == a.0 + b.0);
    lemma_squeeze_position(lanes, rate, k);
    assert(a.2 == rate);
    assert(full.0.subrange(rate * k, rate * (k + 1)) =~= b.0);
    assert(full.0.take(rate * (k + 1)) =~= ab.0);
    assert(full.0.take(rate * k) =~= a.0);
    lemma_squeeze_append(lanes, rate, rate, (rate * total) as nat, 0);
}

/// After whole blocks the cursor stands at the rate.
pub proof fn lemma_squeeze_position(lanes: Seq<u64>, rate: int, k: nat)
    requires
        0 < rate,
    ensures
        spec_squeeze(lanes, rate, rate, (rate * k) as nat).2 == rate,
    decreases k,
{
    if k > 0 {
        assert(rate * k == rate * (k - 1) + rate && rate * (k - 1) >= 0) by (nonlinear_arith)
            requires
                0 < rate,
                k >= 1,
        ;
        lemma_squeeze_position(lanes, rate, (k - 1) as nat);
        let n1 = (rate * (k - 1)) as nat;
        lemma_squeeze_append(lanes, rate, rate, n1, rate as nat);
        let a = spec_squeeze(lanes, rate, rate, n1);
        lemma_block_position(a.1, rate);
    } else {
        assert(rate * k == 0) by (nonlinear_arith)
            requires
                k == 0,
        ;
    }
}

/// One whole block, squeezed from a cursor at the rate, leaves the cursor at
/// the rate.
pub proof fn lemma_block_position(lanes: Seq<u64>, rate: int)
    requires
        0 < rate,
    ensures
        spec_squeeze(lanes, rate, rate, rate as nat).2 == rate,
{
    let f = crate::fips202::spec_keccak_f1600(lanes);
    crate::fips202::lemma_squeeze_within_block(f, 0, rate, rate as nat);
    assert(spec_squeeze(lanes, rate, rate, rate as nat) == spec_squeeze(f, 0, rate, rate as nat));
}

impl KeccakState {
    /// Makes the sponge that of SHAKE-256 after the first 64 bytes of `seed`
    /// and the two bytes of `nonce`, with the input closed.
    pub fn dilithium_shake256_stream_init(&mut self, seed: &[u8], nonce: u16)
        requires
            seed.len() >= 64,
        ensures
            final(self).s@ == spec_shake_absorbed(
                136,
                spec_stream_input(seed@.take(64), nonce),
            ),
            final(self).pos == 136,
    {
        let t: [u8; 2] = [(nonce % 256) as u8, (nonce / 256) as u8];
        self.init();
        self.shake256_absorb(seed, 64);
        self.shake256_absorb(&t, 2);
        proof {
            assert(t@.take(2) =~= spec_nonce_bytes(nonce));
            lemma_absorb_concat(spec_zero_lanes(), 0, 136, seed@.take(64), spec_nonce_bytes(nonce));
        }
        self.shake256_finalize();
    }

    /// Makes the sponge that of SHAKE-128 after `seed` and the two bytes of
    /// `nonce`, with the input closed.
    pub fn dilithium_shake128_stream_init(&mut self, seed: &[u8], nonce: u16)
        ensures
            final(self).s@ == spec_shake_absorbed(168, spec_stream_input(seed@, nonce)),
            final(self).pos == 168,
    {
        let t: [u8; 2] = [(nonce % 256) as u8, (nonce / 256) as u8];
        self.init();
        self.shake128_absorb(seed);
        self.shake128_absorb(&t);
        proof {
            assert(t@ =~= spec_nonce_bytes(nonce));
            lemma_absorb_concat(spec_zero_lanes(), 0, 168, seed@, spec_nonce_bytes(nonce));
        }
        self.shake128_finalize();
    }
}

} // verus!
