use vstd::prelude::*;
use crate::params::{Mode2, Mode3, Mode5};
use crate::randombytes::randombytes;
use crate::sign::{
    crypto_sign_keypair, crypto_sign_signature, crypto_sign_verify, spec_keygen, spec_sign,
    spec_verify,
};

verus! {

/// The three parameter levels of the signature scheme.
#[derive(Clone, Copy, PartialEq, Eq, Structural, Debug)]
pub enum Algorithm {
    Mode2,
    Mode3,
    Mode5,
}

/// Why a key or a signature was refused, or could not be made.
#[derive(Clone, Copy, PartialEq, Eq, Structural, Debug)]
pub enum DilithiumError {
    /// A key buffer has not the length of its level.
    BadKeyLength,
    /// A signature has not the length of its level.
    BadSignatureLength,
    /// The count of a row of hints is below that of the row before, or above
    /// the largest number of hints.
    BadHintOmega,
    /// The indices of a row of hints do not grow strictly.
    BadHintOrder,
    /// A byte behind the last hint index is not zero.
    BadHintPadding,
    /// A coefficient of the vector `z` is too large.
    NormViolation,
    /// The challenge seed computed from the signature is not the one it
    /// holds, or none could be computed.
    ChallengeMismatch,
    /// While keys or a signature were made, a stream of a sampler ended
    /// before it had given enough values, or every nonce was used up before
    /// an attempt at signing was accepted.
    SamplingFailed,
    /// The operating system gave no random bytes.
    NoRandomness,
}

impl DilithiumError {
    /// The text that describes the error.
    pub open spec fn spec_message(&self) -> Seq<char> {
        match self {
            DilithiumError::BadKeyLength => "invalid key length"@,
            DilithiumError::BadSignatureLength => "signature length mismatch"@,
            DilithiumError::BadHintOmega => "invalid hint count"@,
            DilithiumError::BadHintOrder => "invalid hint order"@,
            DilithiumError::BadHintPadding => "invalid hint padding"@,
            DilithiumError::NormViolation => "invalid z"@,
            DilithiumError::ChallengeMismatch => "invalid signature"@,
            DilithiumError::SamplingFailed => "sampling failed"@,
            DilithiumError::NoRandomness => "no randomness"@,
        }
    }

    /// A short description of the error.
    pub fn message(&self) -> (s: String)
        ensures
            s@ == self.spec_message(),
    {
        match self {
            DilithiumError::BadKeyLength => "invalid key length".to_owned(),
            DilithiumError::BadSignatureLength => "signature length mismatch".to_owned(),
            DilithiumError::BadHintOmega => "invalid hint count".to_owned(),
            DilithiumError::BadHintOrder => "invalid hint order".to_owned(),
            DilithiumError::BadHintPadding => "invalid hint padding".to_owned(),
            DilithiumError::NormViolation => "invalid z".to_owned(),
            DilithiumError::ChallengeMismatch => "invalid signature".to_owned(),
            DilithiumError::SamplingFailed => "sampling failed".to_owned(),
            DilithiumError::NoRandomness => "no randomness".to_owned(),
        }
    }
}

/// A public key and its secret key, each in a buffer of the length of its
/// level.
#[derive(Clone, Debug)]
pub enum Keypair {
    Mode2([u8; 1312], [u8; 2544]),
    Mode3([u8; 1952], [u8; 4032]),
    Mode5([u8; 2592], [u8; 4896]),
}

/// A signature, in a buffer of the length of its level.
pub struct Signature {
    bytes: SignType,
}

enum SignType {
    SignMode2([u8; 2420]),
    SignMode3([u8; 3293]),
    SignMode5([u8; 4595]),
}

impl Keypair {
    /// The level of the keys.
    pub open spec fn mode(&self) -> Algorithm {
        match self {
            Keypair::Mode2(_, _) => Algorithm::Mode2,
            Keypair::Mode3(_, _) => Algorithm::Mode3,
            Keypair::Mode5(_, _) => Algorithm::Mode5,
        }
    }

    /// The bytes of the public key.
    pub open spec fn spec_public(&self) -> Seq<u8> {
        match self {
            Keypair::Mode2(pk, _) => pk@,
            Keypair::Mode3(pk, _) => pk@,
            Keypair::Mode5(pk, _) => pk@,
        }
    }

    /// The bytes of the secret key.
    pub open spec fn spec_secret(&self) -> Seq<u8> {
        match self {
            Keypair::Mode2(_, sk) => sk@,
            Keypair::Mode3(_, sk) => sk@,
            Keypair::Mode5(_, sk) => sk@,
        }
    }

    /// Signs `msg`, deterministically.
    pub fn sign(&self, msg: &[u8]) -> (r: Result<Signature, DilithiumError>)
        ensures
            match spec_sign(self.mode().spec_params(), self.spec_secret(), msg@, None) {
                Ok(s) => r matches Ok(sig) && sig.spec_bytes() == s && sig.mode() == self.mode(),
                Err(e) => r matches Err(f) && f == e,
            },
    {
        match self {
            Keypair::Mode2(_, sk) => {
                let mut sig: [u8; 2420] = [0u8; 2420];
                match crypto_sign_signature::<Mode2>(&mut sig, msg, sk, None) {
                    Ok(_) => Ok(Signature { bytes: SignType::SignMode2(sig) }),
                    Err(e) => Err(e),
                }
            },
            Keypair::Mode3(_, sk) => {
                let mut sig: [u8; 3293] = [0u8; 3293];
                match crypto_sign_signature::<Mode3>(&mut sig, msg, sk, None) {
                    Ok(_) => Ok(Signature { bytes: SignType::SignMode3(sig) }),
                    Err(e) => Err(e),
                }
            },
            Keypair::Mode5(_, sk) => {
                let mut sig: [u8; 4595] = [0u8; 4595];
                match crypto_sign_signature::<Mode5>(&mut sig, msg, sk, None) {
                    Ok(_) => Ok(Signature { bytes: SignType::SignMode5(sig) }),
                    Err(e) => Err(e),
                }
            },
        }
    }

    /// Signs `msg`, deterministically, with the secret key `sk` in place of
    /// the secret key of the pair, at the level of the pair.
    pub fn sign_to_slice(&self, msg: &[u8], sk: &[u8]) -> (r: Result<Vec<u8>, DilithiumError>)
        ensures
            match spec_sign(self.mode().spec_params(), sk@, msg@, None) {
                Ok(s) => r matches Ok(sig) && sig@ == s,
                Err(e) => r matches Err(f) && f == e,
            },
    {
        match self {
            Keypair::Mode2(_, _) => {
                let mut sig: [u8; 2420] = [0u8; 2420];
                match crypto_sign_signature::<Mode2>(&mut sig, msg, sk, None) {
                    Ok(_) => Ok(vstd::slice::slice_to_vec(&sig)),
                    Err(e) => Err(e),
                }
            },
            Keypair::Mode3(_, _) => {
                let mut sig: [u8; 3293] = [0u8; 3293];
                match crypto_sign_signature::<Mode3>(&mut sig, msg, sk, None) {
                    Ok(_) => Ok(vstd::slice::slice_to_vec(&sig)),
                    Err(e) => Err(e),
                }
            },
            Keypair::Mode5(_, _) => {
                let mut sig: [u8; 4595] = [0u8; 4595];
                match crypto_sign_signature::<Mode5>(&mut sig, msg, sk, None) {
                    Ok(_) => Ok(vstd::slice::slice_to_vec(&sig)),
                    Err(e) => Err(e),
                }
            },
        }
    }

    /// The public key.
    pub fn public(&self) -> (r: &[u8])
        ensures
            r@ == self.spec_public(),
    {
        match self {
            Keypair::Mode2(pk, _) => pk,
            Keypair::Mode3(pk, _) => pk,
            Keypair::Mode5(pk, _) => pk,
        }
    }

    /// The secret key.
    pub fn secret(&self) -> (r: &[u8])
        ensures
            r@ == self.spec_secret(),
    {
        match self {
            Keypair::Mode2(_, sk) => sk,
            Keypair::Mode3(_, sk) => sk,
            Keypair::Mode5(_, sk) => sk,
        }
    }
}

impl Signature {
    /// The level of the signature.
    pub closed spec fn mode(&self) -> Algorithm {
        match self.bytes {
            SignType::SignMode2(_) => Algorithm::Mode2,
            SignType::SignMode3(_) => Algorithm::Mode3,
            SignType::SignMode5(_) => Algorithm::Mode5,
        }
    }

    /// The bytes of the signature.
    pub closed spec fn spec_bytes(&self) -> Seq<u8> {
        match self.bytes {
            SignType::SignMode2(arr) => arr@,
            SignType::SignMode3(arr) => arr@,
            SignType::SignMode5(arr) => arr@,
        }
    }

    /// The signature of the level `mode` that `bytes` holds, which must have
    /// the length of the level.
    pub fn from_bytes(mode: Algorithm, bytes: &[u8]) -> (r: Result<Signature, DilithiumError>)
        ensures
            bytes.len() == mode.spec_params().signbytes ==> (r matches Ok(sig) && sig.mode() == mode
                && sig.spec_bytes() == bytes@),
            bytes.len() != mode.spec_params().signbytes ==> (r matches Err(e) && e
                == DilithiumError::BadSignatureLength),
    {
        if bytes.len() != mode.params().signbytes {
            return Err(DilithiumError::BadSignatureLength);
        }
        match mode {
            Algorithm::Mode2 => {
                let mut buf: [u8; 2420] = [0u8; 2420];
                crate::packing::write_bytes(&mut buf, 0, bytes, 2420);
                proof {
                    assert(buf@ =~= bytes@);
                }
                Ok(Signature { bytes: SignType::SignMode2(buf) })
            },
            Algorithm::Mode3 => {
                let mut buf: [u8; 3293] = [0u8; 3293];
                crate::packing::write_bytes(&mut buf, 0, bytes, 3293);
                proof {
                    assert(buf@ =~= bytes@);
                }
                Ok(Signature { bytes: SignType::SignMode3(buf) })
            },
            Algorithm::Mode5 => {
                let mut buf: [u8; 4595] = [0u8; 4595];
                crate::packing::write_bytes(&mut buf, 0, bytes, 4595);
                proof {
                    assert(buf@ =~= bytes@);
                }
                Ok(Signature { bytes: SignType::SignMode5(buf) })
            },
        }
    }

    /// The bytes of the signature.
    pub fn bytes(&self) -> (r: &[u8])
        ensures
            r@ == self.spec_bytes(),
            r@.len() == self.mode().spec_params().signbytes,
    {
        match &self.bytes {
            SignType::SignMode2(arr) => arr,
            SignType::SignMode3(arr) => arr,
            SignType::SignMode5(arr) => arr,
        }
    }
}

impl Algorithm {
    /// The keys that belong to a seed of 32 bytes.
    pub fn generate_from_seed(&self, seed: &[u8]) -> (r: Result<Keypair, DilithiumError>)
        requires
            seed.len() == 32,
        ensures
            match spec_keygen(self.spec_params(), seed@) {
                Some(keys) => r matches Ok(pair) && pair.mode() == *self && pair.spec_public()
                    == keys.0 && pair.spec_secret() == keys.1,
                None => r matches Err(e) && e == DilithiumError::SamplingFailed,
            },
    {
        match self {
            Algorithm::Mode2 => {
                let mut pk: [u8; 1312] = [0u8; 1312];
                let mut sk: [u8; 2544] = [0u8; 2544];
                if crypto_sign_keypair::<Mode2>(&mut pk, &mut sk, seed) == 0 {
                    Ok(Keypair::Mode2(pk, sk))
                } else {
                    Err(DilithiumError::SamplingFailed)
                }
            },
            Algorithm::Mode3 => {
                let mut pk: [u8; 1952] = [0u8; 1952];
                let mut sk: [u8; 4032] = [0u8; 4032];
                if crypto_sign_keypair::<Mode3>(&mut pk, &mut sk, seed) == 0 {
                    Ok(Keypair::Mode3(pk, sk))
                } else {
                    Err(DilithiumError::SamplingFailed)
                }
            },
            Algorithm::Mode5 => {
                let mut pk: [u8; 2592] = [0u8; 2592];
                let mut sk: [u8; 4896] = [0u8; 4896];
                if crypto_sign_keypair::<Mode5>(&mut pk, &mut sk, seed) == 0 {
                    Ok(Keypair::Mode5(pk, sk))
                } else {
                    Err(DilithiumError::SamplingFailed)
                }
            },
        }
    }

    /// Makes keys from a seed that the operating system gives. The keys are
    /// those that belong to some seed of 32 bytes.
    pub fn generate(&self) -> (r: Result<Keypair, DilithiumError>)
        ensures
            match r {
                Ok(pair) => pair.mode() == *self && exists|seed: Seq<u8>|
                    seed.len() == 32 && #[trigger] spec_keygen(self.spec_params(), seed) == Some(
                        (pair.spec_public(), pair.spec_secret()),
                    ),
                Err(e) => e == DilithiumError::SamplingFailed || e == DilithiumError::NoRandomness,
            },
    {
        let mut seed: [u8; 32] = [0u8; 32];
        if !randombytes(&mut seed) {
            return Err(DilithiumError::NoRandomness);
        }
        let r = self.generate_from_seed(&seed);
        proof {
            if r is Ok {
                let pair = r->Ok_0;
                assert(spec_keygen(self.spec_params(), seed@) == Some(
                    (pair.spec_public(), pair.spec_secret()),
                ));
            }
        }
        r
    }

    /// The pair of the keys `sk` and `pk`, which must have the lengths of the
    /// level.
    pub fn load_from_bytes(&self, sk: &[u8], pk: &[u8]) -> (r: Result<Keypair, DilithiumError>)
        ensures
            pk.len() == self.spec_params().public_key_bytes && sk.len()
                == self.spec_params().secret_key_bytes ==> (r matches Ok(pair) && pair.mode()
                == *self && pair.spec_public() == pk@ && pair.spec_secret() == sk@),
            !(pk.len() == self.spec_params().public_key_bytes && sk.len()
                == self.spec_params().secret_key_bytes) ==> (r matches Err(e) && e
                == DilithiumError::BadKeyLength),
    {
        let params = self.params();
        if pk.len() != params.public_key_bytes || sk.len() != params.secret_key_bytes {
            return Err(DilithiumError::BadKeyLength);
        }
        match self {
            Algorithm::Mode2 => {
                let mut pk_buf: [u8; 1312] = [0u8; 1312];
                let mut sk_buf: [u8; 2544] = [0u8; 2544];
                crate::packing::write_bytes(&mut pk_buf, 0, pk, 1312);
                crate::packing::write_bytes(&mut sk_buf, 0, sk, 2544);
                proof {
                    assert(pk_buf@ =~= pk@);
                    assert(sk_buf@ =~= sk@);
                }
                Ok(Keypair::Mode2(pk_buf, sk_buf))
            },
            Algorithm::Mode3 => {
                let mut pk_buf: [u8; 1952] = [0u8; 1952];
                let mut sk_buf: [u8; 4032] = [0u8; 4032];
                crate::packing::write_bytes(&mut pk_buf, 0, pk, 1952);
                crate::packing::write_bytes(&mut sk_buf, 0, sk, 4032);
                proof {
                    assert(pk_buf@ =~= pk@);
                    assert(sk_buf@ =~= sk@);
                }
                Ok(Keypair::Mode3(pk_buf, sk_buf))
            },
            Algorithm::Mode5 => {
                let mut pk_buf: [u8; 2592] = [0u8; 2592];
                let mut sk_buf: [u8; 4896] = [0u8; 4896];
                crate::packing::write_bytes(&mut pk_buf, 0, pk, 2592);
                crate::packing::write_bytes(&mut sk_buf, 0, sk, 4896);
                proof {
                    assert(pk_buf@ =~= pk@);
                    assert(sk_buf@ =~= sk@);
                }
                Ok(Keypair::Mode5(pk_buf, sk_buf))
            },
        }
    }

    /// Checks whether `signature` is a signature of `msg` under `public_key`.
    pub fn verify(&self, signature: &Signature, msg: &[u8], public_key: &[u8]) -> (r: Result<
        (),
        DilithiumError,
    >)
        ensures
            r == spec_verify(self.spec_params(), public_key@, msg@, signature.spec_bytes()),
    {
        self.verify_raw(signature.bytes(), msg, public_key)
    }

    /// Checks whether the bytes `signature` are a signature of `msg` under
    /// `public_key`.
    pub fn verify_raw(&self, signature: &[u8], msg: &[u8], public_key: &[u8]) -> (r: Result<
        (),
        DilithiumError,
    >)
        ensures
            r == spec_verify(self.spec_params(), public_key@, msg@, signature@),
    {
        match self {
            Algorithm::Mode2 => crypto_sign_verify::<Mode2>(signature, msg, public_key),
            Algorithm::Mode3 => crypto_sign_verify::<Mode3>(signature, msg, public_key),
            Algorithm::Mode5 => crypto_sign_verify::<Mode5>(signature, msg, public_key),
        }
    }
}

} // verus!
