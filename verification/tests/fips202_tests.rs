use pure_dsa::fips202::{
    keccakf1600_state_permute, load64, shake256, shake256_two, store64, KeccakState,
};

fn hex(bytes: &[u8]) -> String {
    let mut s = String::new();
    for b in bytes {
        s.push_str(&format!("{:02x}", b));
    }
    s
}

#[test]
fn shake256_of_empty_input() {
    let mut out = [0u8; 64];
    shake256(&mut out, &[], 64, 0);
    assert_eq!(
        hex(&out),
        "46b9dd2b0ba88d13233b3feb743eeb243fcd52ea62b81b82b50c27646ed5762fd75dc4ddd8c0f200cb05019d67b592f6fc821c49479ab48640292eacb3b7c4be"
    );
}

#[test]
fn shake128_of_empty_input() {
    let mut state = KeccakState::default();
    state.shake128_absorb(&[]);
    state.shake128_finalize();
    let mut out = [0u8; 32];
    state.shake128_squeeze(&mut out);
    assert_eq!(hex(&out), "7f9c2ba4e88f827d616045507605853ed73b8093f6efbc88eb1a6eacfa66ef26");
}

#[test]
fn shake256_long_output_of_long_input() {
    let input: Vec<u8> = (0..200u32).map(|i| i as u8).collect();
    let mut out = [0u8; 300];
    shake256(&mut out, &input, 300, 200);
    assert_eq!(hex(&out[..16]), "4ee1ca03272b05d3bfb1e1c79a967f82");
    let mut digest = [0u8; 32];
    shake256(&mut digest, &out, 32, 300);
    assert_eq!(hex(&digest), "960aef7e4d2ecb6636c296b38f3852f5ad601e2cbb6804b27ed9bcaa0eb25a9a");
}

#[test]
fn shake256_leaves_the_rest_of_the_buffer() {
    let mut out = [0xaau8; 12];
    shake256(&mut out, &[9u8; 136], 8, 136);
    assert_eq!(hex(&out), "c69803fa0d943a7aaaaaaaaa");
    let mut out = [0u8; 8];
    shake256(&mut out, &[9u8; 136], 8, 135);
    assert_eq!(hex(&out), "e8fd99e482cf614e");
}

#[test]
fn shake128_input_of_one_block() {
    let mut state = KeccakState::default();
    state.shake128_absorb(&[7u8; 168]);
    state.shake128_finalize();
    let mut out = [0u8; 168];
    state.shake128_squeezeblocks(&mut out, 1);
    assert_eq!(
        hex(&out[..40]),
        "d376bd67f0583bfd66c71e723424eb5ebc9b262a29ba0edc844eb2424598671854005909f7ad46c4"
    );
}

#[test]
fn absorbing_in_parts_is_absorbing_the_whole() {
    let input: Vec<u8> = (0..200u32).map(|i| i as u8).collect();
    let mut whole = [0u8; 64];
    shake256(&mut whole, &input, 64, 200);
    for cut in [0usize, 1, 7, 135, 136, 137, 199, 200] {
        let mut state = KeccakState::default();
        state.shake256_absorb(&input[..cut], cut);
        state.shake256_absorb(&input[cut..], 200 - cut);
        state.shake256_finalize();
        let mut out = [0u8; 64];
        state.shake256_squeeze(&mut out, 64);
        assert_eq!(out, whole);
        let mut two = [0u8; 64];
        shake256_two(&mut two, 64, &input[..cut], cut, &input[cut..], 200 - cut);
        assert_eq!(two, whole);
    }
}

#[test]
fn squeezing_in_parts_is_squeezing_the_whole() {
    let mut whole = [0u8; 400];
    shake256(&mut whole, b"abc", 400, 3);
    let mut state = KeccakState::default();
    state.shake256_absorb_once(b"abc", 3);
    let mut parts = [0u8; 400];
    state.shake256_squeeze(&mut parts[..100], 100);
    state.shake256_squeeze(&mut parts[100..136], 36);
    state.shake256_squeeze(&mut parts[136..137], 1);
    state.shake256_squeeze(&mut parts[137..], 263);
    assert_eq!(parts, whole);
    let mut state = KeccakState::default();
    state.shake256_absorb_once(b"abc", 3);
    let mut blocks = [0u8; 408];
    state.shake256_squeezeblocks(&mut blocks, 2);
    state.shake256_squeezeblocks(&mut blocks[272..], 1);
    assert_eq!(blocks[..400], whole[..]);
}

#[test]
fn stream_init_absorbs_seed_and_nonce() {
    let seed: Vec<u8> = (0..64u32).map(|i| i as u8).collect();
    let mut state = KeccakState::default();
    state.dilithium_shake128_stream_init(&seed[..32], 0x1234);
    let mut out = [0u8; 168];
    state.shake128_squeezeblocks(&mut out, 1);
    assert_eq!(hex(&out[..16]), "fa16a128651d27afd37ec5ba38b2237c");
    let mut state = KeccakState::default();
    state.dilithium_shake256_stream_init(&seed, 0x1234);
    let mut out = [0u8; 136];
    state.shake256_squeezeblocks(&mut out, 1);
    assert_eq!(hex(&out[..16]), "6812622d436237564c2fcb4b81712784");
}

#[test]
fn init_gives_a_fresh_sponge() {
    let mut state = KeccakState::default();
    state.shake256_absorb(b"something", 9);
    state.init();
    assert_eq!(state.pos, 0);
    assert_eq!(state.s, [0u64; 25]);
    state.shake256_absorb(&[], 0);
    state.shake256_finalize();
    assert_eq!(state.pos, 136);
    let mut out = [0u8; 8];
    state.shake256_squeeze(&mut out, 8);
    assert_eq!(hex(&out), "46b9dd2b0ba88d13");
    assert_eq!(state.pos, 8);
}

#[test]
fn permutation_of_the_zero_state() {
    let mut state = [0u64; 25];
    keccakf1600_state_permute(&mut state);
    assert_eq!(state[0], 0xf1258f7940e1dde7);
    assert_eq!(state[1], 0x84d5ccf933c0478a);
    assert_eq!(state[24], 0xeaf1ff7b5ceca249);
}

#[test]
fn load_and_store() {
    let bytes = [1u8, 2, 3, 4, 5, 6, 7, 8, 9];
    assert_eq!(load64(&bytes), 0x0807060504030201);
    let mut out = [0xffu8; 10];
    store64(0x1122334455667788, &mut out);
    assert_eq!(out, [0x88, 0x77, 0x66, 0x55, 0x44, 0x33, 0x22, 0x11, 0xff, 0xff]);
}
