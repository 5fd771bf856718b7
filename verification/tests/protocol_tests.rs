use pure_dsa::fips202::shake256;
use pure_dsa::params::{DilithiumParams, Mode2, Mode3, Mode5};
use pure_dsa::randombytes::randombytes;
use pure_dsa::sign::{
    bytes_equal, crypto_sign_keypair, crypto_sign_signature, crypto_sign_verify,
};
use pure_dsa::{Algorithm, DilithiumError};

fn hex(bytes: &[u8]) -> String {
    let mut s = String::new();
    for b in bytes {
        s.push_str(&format!("{:02x}", b));
    }
    s
}

fn digest(bytes: &[u8]) -> String {
    let mut out = [0u8; 32];
    shake256(&mut out, bytes, 32, bytes.len());
    hex(&out)
}

fn levels() -> [(Algorithm, usize, usize, usize, usize, usize); 3] {
    [
        (Algorithm::Mode2, 1312, 2544, 2420, 80, 4),
        (Algorithm::Mode3, 1952, 4032, 3293, 55, 6),
        (Algorithm::Mode5, 2592, 4896, 4595, 75, 8),
    ]
}

#[test]
fn parameter_table() {
    let p = Algorithm::Mode2.params();
    assert_eq!((p.k, p.l, p.eta, p.tau, p.beta, p.omega), (4, 4, 2, 39, 78, 80));
    assert_eq!((p.gamma1, p.gamma2), (1 << 17, (8380417 - 1) / 88));
    assert_eq!((p.public_key_bytes, p.secret_key_bytes, p.signbytes), (1312, 2544, 2420));
    let p = Algorithm::Mode3.params();
    assert_eq!((p.k, p.l, p.eta, p.tau, p.beta, p.omega), (6, 5, 4, 49, 196, 55));
    assert_eq!((p.gamma1, p.gamma2), (1 << 19, (8380417 - 1) / 32));
    assert_eq!((p.public_key_bytes, p.secret_key_bytes, p.signbytes), (1952, 4032, 3293));
    let p = Algorithm::Mode5.params();
    assert_eq!((p.k, p.l, p.eta, p.tau, p.beta, p.omega), (8, 7, 2, 60, 120, 75));
    assert_eq!((p.gamma1, p.gamma2), (1 << 19, (8380417 - 1) / 32));
    assert_eq!((p.public_key_bytes, p.secret_key_bytes, p.signbytes), (2592, 4896, 4595));
    for mode in [Algorithm::Mode2, Algorithm::Mode3, Algorithm::Mode5] {
        let p = mode.params();
        assert_eq!(p.ctildebytes, 32);
        assert_eq!(p.beta, p.tau as i32 * p.eta);
        assert_eq!(p.signbytes, 32 + p.l * p.polyz_packedbytes + p.omega + p.k);
        assert_eq!(p.public_key_bytes, 32 + p.k * 320);
        assert_eq!(
            p.secret_key_packed_bytes,
            96 + (p.l + p.k) * p.polyeta_packedbytes + p.k * 416
        );
        assert_eq!(p.polyvech_packedbytes, p.omega + p.k);
    }
    assert_eq!(Mode2::algorithm(), Algorithm::Mode2);
    assert_eq!(Mode3::algorithm(), Algorithm::Mode3);
    assert_eq!(Mode5::algorithm(), Algorithm::Mode5);
    assert_eq!(Mode2::polyz_packedbytes(), 576);
    assert_eq!(Mode5::polyz_packedbytes(), 640);
    assert_eq!(Mode2::polyw1_packedbytes(), 192);
    assert_eq!(Mode3::polyw1_packedbytes(), 128);
    assert_eq!(Mode3::crypto_publickeybytes(), 1952);
}

#[test]
fn generated_secret_keys_end_in_zero_bytes() {
    for (mode, packed) in [(Algorithm::Mode2, 2528), (Algorithm::Mode3, 4000), (Algorithm::Mode5, 4864)]
    {
        let pair = mode.generate_from_seed(&[0x5au8; 32]).unwrap();
        let sk = pair.secret();
        assert!(sk[packed..].iter().all(|b| *b == 0));
        assert!(sk[packed - 416..packed].iter().any(|b| *b != 0));
    }
    let mut pk = [0x77u8; 1312];
    let mut sk = [0x77u8; 2544];
    assert_eq!(crypto_sign_keypair::<Mode2>(&mut pk, &mut sk, &[0x5au8; 32]), 0);
    let pair = Algorithm::Mode2.generate_from_seed(&[0x5au8; 32]).unwrap();
    assert_eq!(sk[..], pair.secret()[..]);
    assert_eq!(pk[..], pair.public()[..]);
}

#[test]
fn mode2_keys_and_signature_of_the_zero_seed() {
    let pair = Algorithm::Mode2.generate_from_seed(&[0u8; 32]).unwrap();
    assert_eq!(pair.public().len(), 1312);
    assert_eq!(pair.secret().len(), 2544);
    assert_eq!(
        digest(pair.public()),
        "7522162619f3329b5312322d3ee45b8716de9097ada790a11b3eb3e143d770a2"
    );
    assert_eq!(
        digest(pair.secret()),
        "d9ade43aee6aaeba9dacd5768b0706901d0fc46dcbe880a5a7e2531419e69f42"
    );
    let sig = pair.sign(b"").unwrap();
    assert_eq!(sig.bytes().len(), 2420);
    assert_eq!(
        digest(sig.bytes()),
        "130a6750bf08e36da857a61386337e889b3eb2378b107baa64b85bd44411b6e0"
    );
    assert_eq!(
        hex(&sig.bytes()[..32]),
        "a84f95bdef6af4797ee13de55996a05f2f3e804f527d968ebd1a709565df114d"
    );
    assert_eq!(Algorithm::Mode2.verify(&sig, b"", pair.public()), Ok(()));
}

#[test]
fn mode3_keys_and_signature_of_the_zero_seed() {
    let pair = Algorithm::Mode3.generate_from_seed(&[0u8; 32]).unwrap();
    assert_eq!(pair.public().len(), 1952);
    assert_eq!(pair.secret().len(), 4032);
    assert_eq!(
        digest(pair.public()),
        "3562fc184dce1a10aad099051705b5d3f81103b1b866e77d4dc445d75a090d7b"
    );
    assert_eq!(
        digest(pair.secret()),
        "b7fe4cecc17dca4b862d3da5f060e8d170a9b73e01d0337b866391b733d6b7d2"
    );
    let sig = pair.sign(b"").unwrap();
    assert_eq!(sig.bytes().len(), 3293);
    assert_eq!(
        digest(sig.bytes()),
        "f47a2c92885a38fef48c68b5b1d1131a7d6812de9461c189c5b76822461b07ba"
    );
    assert_eq!(Algorithm::Mode3.verify(&sig, b"", pair.public()), Ok(()));
}

#[test]
fn mode5_keys_and_signature_of_the_zero_seed() {
    let pair = Algorithm::Mode5.generate_from_seed(&[0u8; 32]).unwrap();
    assert_eq!(pair.public().len(), 2592);
    assert_eq!(pair.secret().len(), 4896);
    assert_eq!(
        digest(pair.public()),
        "665388291aa01e12e7f94bdc7769db1817bdb1df0897fef990cc05cd8af2a4b7"
    );
    assert_eq!(
        digest(pair.secret()),
        "d23c5e35291a6e14559850337bf66a44dae7fc105a31c43da41c2783e172f136"
    );
    let sig = pair.sign(b"").unwrap();
    assert_eq!(sig.bytes().len(), 4595);
    assert_eq!(
        digest(sig.bytes()),
        "e7b32c0914c78dabe6613290f3b5c357d84f98616deaf5064799ae5123ea66e1"
    );
    assert_eq!(Algorithm::Mode5.verify(&sig, b"", pair.public()), Ok(()));
}

#[test]
fn keys_and_signature_of_another_seed() {
    let seed: Vec<u8> = (0..32u8).collect();
    let want = [
        (
            "8522a0b08e82b4e7ca1480f7e21cb144a9b7ab01d5fb648f9deb127e637692c0",
            "0cdef31aefae22a28b424f8b792ec242b5cb6bc46a73c077654908e381d1966c",
            "29bb136aad9c2c0dac996ecb05420fa3f0ef0325d5b70d56c0951bb2b358bef1",
        ),
        (
            "561d4f1572fa8d7434d604252888a00f9b5c310b864cca83cce72b6d0cd96141",
            "726c764d82bb5bb9269343c02aed9d9758438a7a51375dcd42a1f7bb0994cee7",
            "37012a58ffc192a90b5c05c18a438809febf3a2efe1c6447c3d7bd939a1d5061",
        ),
        (
            "3668d081fc726c0986cb496c3525f833bc127afbf8bcedad0c694e3a9ae1f3de",
            "12d6504f7bc829064449b955ca04849992776688418d3cc7593c5c05d3fcc1b0",
            "dee7f57e24a2e78f20da7f84a7764bb388c7dabd1d34e4cbd2b30ea74703eea3",
        ),
    ];
    for ((mode, _, _, _, _, _), (pk, sk, sig)) in levels().iter().zip(want.iter()) {
        let pair = mode.generate_from_seed(&seed).unwrap();
        assert_eq!(digest(pair.public()), *pk);
        assert_eq!(digest(pair.secret()), *sk);
        let signature = pair.sign(b"abc").unwrap();
        assert_eq!(digest(signature.bytes()), *sig);
        assert_eq!(mode.verify(&signature, b"abc", pair.public()), Ok(()));
    }
}

#[test]
fn benchmark_message_with_first_byte_corrupted() {
    let want = [
        "eb8b213f2de05268240e441d757598686dcccbe61cb41a8d91e065a9757f990f",
        "9643ea203c93e3c1deb973ff474e04a6aa2d6f9a989e5038234d317ec09fa989",
        "56dd571c44e152075702022d7a8e5af77b4f88d698614f45646ab383c262395f",
    ];
    for ((mode, _, _, _, _, _), sig_digest) in levels().iter().zip(want.iter()) {
        let pair = mode.generate_from_seed(&[0u8; 32]).unwrap();
        let sig = pair.sign(b"benchmark message").unwrap();
        assert_eq!(digest(sig.bytes()), *sig_digest);
        assert_eq!(mode.verify(&sig, b"benchmark message", pair.public()), Ok(()));
        let mut bytes = sig.bytes().to_vec();
        bytes[0] ^= 1;
        assert_eq!(
            mode.verify_raw(&bytes, b"benchmark message", pair.public()),
            Err(DilithiumError::ChallengeMismatch)
        );
    }
}

#[test]
fn another_message_gives_a_challenge_mismatch() {
    for (mode, _, _, _, _, _) in levels() {
        let pair = mode.generate_from_seed(&[3u8; 32]).unwrap();
        let sig = pair.sign(b"message one").unwrap();
        assert_eq!(mode.verify(&sig, b"message one", pair.public()), Ok(()));
        assert_eq!(
            mode.verify(&sig, b"message two", pair.public()),
            Err(DilithiumError::ChallengeMismatch)
        );
        assert_eq!(
            mode.verify(&sig, b"", pair.public()),
            Err(DilithiumError::ChallengeMismatch)
        );
    }
}

#[test]
fn flipped_bits_are_noticed() {
    let mode = Algorithm::Mode2;
    let pair = mode.generate_from_seed(&[4u8; 32]).unwrap();
    let msg = b"some message".to_vec();
    let sig = pair.sign(&msg).unwrap().bytes().to_vec();
    let pk = pair.public().to_vec();
    for (i, bit) in [(0usize, 0u8), (31, 7), (32, 0), (1000, 3), (2335, 1), (2336, 0), (2419, 2)] {
        let mut bad = sig.clone();
        bad[i] ^= 1 << bit;
        assert!(mode.verify_raw(&bad, &msg, &pk).is_err());
    }
    for (i, bit) in [(0usize, 0u8), (31, 7), (32, 0), (700, 5), (1311, 7)] {
        let mut bad = pk.clone();
        bad[i] ^= 1 << bit;
        assert!(mode.verify_raw(&sig, &msg, &bad).is_err());
    }
    for (i, bit) in [(0usize, 0u8), (5, 4), (11, 7)] {
        let mut bad = msg.clone();
        bad[i] ^= 1 << bit;
        assert_eq!(mode.verify_raw(&sig, &bad, &pk), Err(DilithiumError::ChallengeMismatch));
    }
}

#[test]
fn nonzero_padding_of_the_hints_is_refused() {
    for (mode, _, _, siglen, omega, k) in levels() {
        let pair = mode.generate_from_seed(&[0u8; 32]).unwrap();
        let mut sig = pair.sign(b"").unwrap().bytes().to_vec();
        for i in 0..omega {
            sig[siglen - k - omega + i] = 1 + (i % 200) as u8;
        }
        for i in 0..k {
            sig[siglen - k + i] = 0;
        }
        assert_eq!(
            mode.verify_raw(&sig, b"", pair.public()),
            Err(DilithiumError::BadHintPadding)
        );
    }
}

#[test]
fn decreasing_hint_indices_are_refused() {
    for (mode, _, _, siglen, omega, k) in levels() {
        let pair = mode.generate_from_seed(&[0u8; 32]).unwrap();
        let mut sig = pair.sign(b"").unwrap().bytes().to_vec();
        for i in 0..omega {
            sig[siglen - k - omega + i] = 0;
        }
        sig[siglen - k - omega] = 5;
        sig[siglen - k - omega + 1] = 3;
        for i in 0..k {
            sig[siglen - k + i] = 2;
        }
        assert_eq!(mode.verify_raw(&sig, b"", pair.public()), Err(DilithiumError::BadHintOrder));
    }
}

#[test]
fn bad_hint_counts_are_refused() {
    for (mode, _, _, siglen, omega, k) in levels() {
        let pair = mode.generate_from_seed(&[0u8; 32]).unwrap();
        let sig = pair.sign(b"").unwrap().bytes().to_vec();
        let mut bad = sig.clone();
        bad[siglen - 1] = omega as u8 + 1;
        assert_eq!(mode.verify_raw(&bad, b"", pair.public()), Err(DilithiumError::BadHintOmega));
        let mut bad = sig.clone();
        for i in 0..omega + k {
            bad[siglen - k - omega + i] = 0;
        }
        bad[siglen - k] = 1;
        assert_eq!(mode.verify_raw(&bad, b"", pair.public()), Err(DilithiumError::BadHintOmega));
    }
}

#[test]
fn wrong_lengths_are_refused() {
    for (mode, pklen, sklen, siglen, _, _) in levels() {
        let pair = mode.generate_from_seed(&[0u8; 32]).unwrap();
        let sig = pair.sign(b"x").unwrap().bytes().to_vec();
        assert_eq!(
            mode.verify_raw(&sig[..siglen - 1], b"x", pair.public()),
            Err(DilithiumError::BadSignatureLength)
        );
        let mut longer = sig.clone();
        longer.push(0);
        assert_eq!(
            mode.verify_raw(&longer, b"x", pair.public()),
            Err(DilithiumError::BadSignatureLength)
        );
        assert_eq!(
            mode.verify_raw(&longer, b"x", &pair.public()[1..]),
            Err(DilithiumError::BadSignatureLength)
        );
        assert_eq!(
            mode.verify_raw(&sig, b"x", &pair.public()[1..]),
            Err(DilithiumError::BadKeyLength)
        );
        assert!(matches!(
            mode.load_from_bytes(&pair.secret()[1..], pair.public()),
            Err(DilithiumError::BadKeyLength)
        ));
        assert!(matches!(
            mode.load_from_bytes(pair.secret(), &pair.public()[..pklen - 1]),
            Err(DilithiumError::BadKeyLength)
        ));
        assert!(matches!(
            mode.load_from_bytes(pair.public(), pair.secret()),
            Err(DilithiumError::BadKeyLength)
        ));
        let loaded = mode.load_from_bytes(pair.secret(), pair.public()).unwrap();
        assert_eq!(loaded.public(), pair.public());
        assert_eq!(loaded.secret(), pair.secret());
        assert_eq!(loaded.secret().len(), sklen);
        assert_eq!(loaded.sign(b"x").unwrap().bytes(), &sig[..]);
        assert!(matches!(
            pair.sign_to_slice(b"x", &pair.secret()[1..]),
            Err(DilithiumError::BadKeyLength)
        ));
        assert_eq!(pair.sign_to_slice(b"x", pair.secret()).unwrap(), sig);
    }
    let pair = Algorithm::Mode2.generate_from_seed(&[0u8; 32]).unwrap();
    let sig = pair.sign(b"x").unwrap();
    assert_eq!(
        Algorithm::Mode3.verify(&sig, b"x", pair.public()),
        Err(DilithiumError::BadSignatureLength)
    );
}

#[test]
fn too_large_z_is_a_norm_violation() {
    for (mode, _, _, _, _, _) in levels() {
        let pair = mode.generate_from_seed(&[0u8; 32]).unwrap();
        let mut sig = pair.sign(b"").unwrap().bytes().to_vec();
        // the first coefficient of z becomes gamma1
        sig[32] = 0;
        sig[33] = 0;
        sig[34] &= if mode == Algorithm::Mode2 { 0xfc } else { 0xf0 };
        assert_eq!(mode.verify_raw(&sig, b"", pair.public()), Err(DilithiumError::NormViolation));
    }
}

#[test]
fn signing_is_deterministic() {
    for (mode, _, _, _, _, _) in levels() {
        let pair = mode.generate_from_seed(&[9u8; 32]).unwrap();
        let a = pair.sign(b"twice").unwrap();
        let b = pair.sign(b"twice").unwrap();
        assert_eq!(a.bytes(), b.bytes());
        let c = pair.sign(b"other").unwrap();
        assert_ne!(a.bytes(), c.bytes());
    }
}

#[test]
fn signing_with_given_randomness() {
    let mut pk = [0u8; 1312];
    let mut sk = [0u8; 2544];
    assert_eq!(crypto_sign_keypair::<Mode2>(&mut pk, &mut sk, &[1u8; 32]), 0);
    let mut det = [0u8; 2420];
    assert_eq!(crypto_sign_signature::<Mode2>(&mut det, b"m", &sk, None), Ok(()));
    let mut one = [0u8; 2420];
    assert_eq!(crypto_sign_signature::<Mode2>(&mut one, b"m", &sk, Some(&[1u8; 64])), Ok(()));
    let mut two = [0u8; 2420];
    assert_eq!(crypto_sign_signature::<Mode2>(&mut two, b"m", &sk, Some(&[2u8; 64])), Ok(()));
    let mut again = [0u8; 2420];
    assert_eq!(crypto_sign_signature::<Mode2>(&mut again, b"m", &sk, Some(&[1u8; 70])), Ok(()));
    assert_ne!(det, one);
    assert_ne!(one, two);
    assert_eq!(one, again);
    for sig in [&det, &one, &two] {
        assert_eq!(crypto_sign_verify::<Mode2>(&sig[..], b"m", &pk), Ok(()));
    }
    let mut untouched = [7u8; 2420];
    assert_eq!(
        crypto_sign_signature::<Mode2>(&mut untouched, b"m", &sk[..2543], None),
        Err(DilithiumError::BadKeyLength)
    );
    assert_eq!(untouched, [7u8; 2420]);
}

#[test]
fn generated_keys_sign_and_differ() {
    let zero = Algorithm::Mode2.generate_from_seed(&[0u8; 32]).unwrap();
    let a = Algorithm::Mode2.generate().unwrap();
    let b = Algorithm::Mode2.generate().unwrap();
    assert_ne!(a.public(), b.public());
    assert_ne!(a.public(), zero.public());
    assert_ne!(a.secret(), b.secret());
    let sig = a.sign(b"hello").unwrap();
    assert_eq!(Algorithm::Mode2.verify(&sig, b"hello", a.public()), Ok(()));
    assert!(Algorithm::Mode2.verify(&sig, b"hello", b.public()).is_err());
    let mut x = [0u8; 48];
    let mut y = [0u8; 48];
    assert!(randombytes(&mut x));
    assert!(randombytes(&mut y));
    assert_ne!(x, [0u8; 48]);
    assert_ne!(x, y);
}

#[test]
fn error_messages() {
    assert_eq!(DilithiumError::BadSignatureLength.message(), "signature length mismatch");
    assert_eq!(DilithiumError::ChallengeMismatch.message(), "invalid signature");
    assert_eq!(DilithiumError::NormViolation.message(), "invalid z");
    assert_ne!(DilithiumError::BadHintOmega.message(), DilithiumError::BadHintOrder.message());
}

#[test]
fn bytes_equal_compares() {
    assert!(bytes_equal(&[], &[]));
    assert!(bytes_equal(&[1, 2, 3], &[1, 2, 3]));
    assert!(!bytes_equal(&[1, 2, 3], &[1, 2, 4]));
    assert!(!bytes_equal(&[1, 2, 3], &[1, 2]));
}
