use vstd::prelude::*;
use crate::objects::Algorithm;
use crate::poly::spec_poly_zero;
use crate::polyvec::{Polyveck, PolyveckStruct, Polyvecl, PolyveclStruct};

verus! {

pub const SEEDBYTES: usize = 32;
pub const CRHBYTES: usize = 64;
pub const TRBYTES: usize = 32;
pub const RNDBYTES: usize = 32;
pub const N: usize = 256;
pub const Q: i32 = 8380417;
pub const D: usize = 13;
pub const ROOT_OF_UNITY: i32 = 1753;
pub const POLYT1_PACKEDBYTES: usize = 320;
pub const POLYT0_PACKEDBYTES: usize = 416;
pub const SHAKE128_RATE: usize = 168;
pub const SHAKE256_RATE: usize = 136;
pub const STREAM128_BLOCKBYTES: usize = 168;
pub const STREAM256_BLOCKBYTES: usize = 136;

/// An array whose `N` entries are all `t`.
pub fn filled_array<T: Copy, const N: usize>(t: T) -> (a: [T; N])
    ensures
        forall|i: int| 0 <= i < N ==> #[trigger] a@[i] == t,
{
    let mut a: [T; N] = [t;N];
    let mut i: usize = 0;
    while i < N
        invariant
            i <= N,
            forall|j: int| 0 <= j < i ==> #[trigger] a@[j] == t,
        decreases N - i,
    {
        a[i] = t;
        i += 1;
    }
    a
}

/// The record of values that one parameter level fixes.
#[derive(Clone, Copy, PartialEq, Eq, Structural, Debug)]
pub struct ParameterSet {
    /// Number of rows of the matrix, and length of a K-vector.
    pub k: usize,
    /// Number of columns of the matrix, and length of an L-vector.
    pub l: usize,
    /// Bound on the coefficients of the secret vectors.
    pub eta: i32,
    /// Number of nonzero coefficients of a challenge polynomial.
    pub tau: usize,
    /// `tau * eta`, the bound used in the rejection tests.
    pub beta: i32,
    /// Bound on the coefficients of the masking vector.
    pub gamma1: i32,
    /// Radius of the high/low decomposition.
    pub gamma2: i32,
    /// Largest number of ones in a hint vector.
    pub omega: usize,
    /// Length of the challenge seed.
    pub ctildebytes: usize,
    pub polyeta_packedbytes: usize,
    pub polyz_packedbytes: usize,
    pub polyw1_packedbytes: usize,
    pub polyvech_packedbytes: usize,
    pub signbytes: usize,
    pub public_key_bytes: usize,
    /// Length of a secret-key buffer. The packed fields take the first
    /// `secret_key_packed_bytes` of it; key generation zeroes the others.
    pub secret_key_bytes: usize,
    /// `3 * 32 + (l + k) * polyeta_packedbytes + k * 416`.
    pub secret_key_packed_bytes: usize,
}

impl Algorithm {
    /// The parameter table.
    pub open spec fn spec_params(self) -> ParameterSet {
        match self {
            Algorithm::Mode2 => ParameterSet {
                k: 4,
                l: 4,
                eta: 2,
                tau: 39,
                beta: 78,
                gamma1: 131072,
                gamma2: 95232,
                omega: 80,
                ctildebytes: 32,
                polyeta_packedbytes: 96,
                polyz_packedbytes: 576,
                polyw1_packedbytes: 192,
                polyvech_packedbytes: 84,
                signbytes: 2420,
                public_key_bytes: 1312,
                secret_key_bytes: 2544,
                secret_key_packed_bytes: 2528,
            },
            Algorithm::Mode3 => ParameterSet {
                k: 6,
                l: 5,
                eta: 4,
                tau: 49,
                beta: 196,
                gamma1: 524288,
                gamma2: 261888,
                omega: 55,
                ctildebytes: 32,
                polyeta_packedbytes: 128,
                polyz_packedbytes: 640,
                polyw1_packedbytes: 128,
                polyvech_packedbytes: 61,
                signbytes: 3293,
                public_key_bytes: 1952,
                secret_key_bytes: 4032,
                secret_key_packed_bytes: 4000,
            },
            Algorithm::Mode5 => ParameterSet {
                k: 8,
                l: 7,
                eta: 2,
                tau: 60,
                beta: 120,
                gamma1: 524288,
                gamma2: 261888,
                omega: 75,
                ctildebytes: 32,
                polyeta_packedbytes: 96,
                polyz_packedbytes: 640,
                polyw1_packedbytes: 128,
                polyvech_packedbytes: 83,
                signbytes: 4595,
                public_key_bytes: 2592,
                secret_key_bytes: 4896,
                secret_key_packed_bytes: 4864,
            },
        }
    }

    /// The parameters of this level.
    #[verifier::when_used_as_spec(spec_params)]
    pub fn params(self) -> (p: ParameterSet)
        ensures
            p == self.spec_params(),
    {
        match self {
            Algorithm::Mode2 => ParameterSet {
                k: 4,
                l: 4,
                eta: 2,
                tau: 39,
                beta: 78,
                gamma1: 131072,
                gamma2: 95232,
                omega: 80,
                ctildebytes: 32,
                polyeta_packedbytes: 96,
                polyz_packedbytes: 576,
                polyw1_packedbytes: 192,
                polyvech_packedbytes: 84,
                signbytes: 2420,
                public_key_bytes: 1312,
                secret_key_bytes: 2544,
                secret_key_packed_bytes: 2528,
            },
            Algorithm::Mode3 => ParameterSet {
                k: 6,
                l: 5,
                eta: 4,
                tau: 49,
                beta: 196,
                gamma1: 524288,
                gamma2: 261888,
                omega: 55,
                ctildebytes: 32,
                polyeta_packedbytes: 128,
                polyz_packedbytes: 640,
                polyw1_packedbytes: 128,
                polyvech_packedbytes: 61,
                signbytes: 3293,
                public_key_bytes: 1952,
                secret_key_bytes: 4032,
                secret_key_packed_bytes: 4000,
            },
            Algorithm::Mode5 => ParameterSet {
                k: 8,
                l: 7,
                eta: 2,
                tau: 60,
                beta: 120,
                gamma1: 524288,
                gamma2: 261888,
                omega: 75,
                ctildebytes: 32,
                polyeta_packedbytes: 96,
                polyz_packedbytes: 640,
                polyw1_packedbytes: 128,
                polyvech_packedbytes: 83,
                signbytes: 4595,
                public_key_bytes: 2592,
                secret_key_bytes: 4896,
                secret_key_packed_bytes: 4864,
            },
        }
    }
}

/// The relations that hold between the entries of the parameter table.
pub proof fn lemma_params_derived(mode: Algorithm)
    ensures
        ({
            let p = mode.spec_params();
            &&& p.beta == p.tau * p.eta
            &&& p.gamma2 == (Q - 1) / 88 || p.gamma2 == (Q - 1) / 32
            &&& p.gamma1 == 131072 || p.gamma1 == 524288
            &&& p.eta == 2 || p.eta == 4
            &&& p.polyeta_packedbytes == (if p.eta == 2 { 96int } else { 128int })
            &&& p.polyz_packedbytes == (if p.gamma1 == 131072 { 576int } else { 640int })
            &&& p.polyw1_packedbytes == (if p.gamma2 == 95232 { 192int } else { 128int })
            &&& p.polyvech_packedbytes == p.omega + p.k
            &&& p.signbytes == p.ctildebytes + p.l * p.polyz_packedbytes + p.omega + p.k
            &&& p.public_key_bytes == SEEDBYTES + p.k * POLYT1_PACKEDBYTES
            &&& p.secret_key_packed_bytes == 2 * SEEDBYTES + TRBYTES + p.l * p.polyeta_packedbytes
                + p.k * p.polyeta_packedbytes + p.k * POLYT0_PACKEDBYTES
            &&& p.secret_key_packed_bytes <= p.secret_key_bytes
            &&& 0 <= p.l * p.polyeta_packedbytes <= 672
            &&& 0 <= p.k * p.polyeta_packedbytes <= 768
            &&& 0 <= (p.l + p.k) * p.polyeta_packedbytes <= 1440
            &&& (p.l + p.k) * p.polyeta_packedbytes == p.l * p.polyeta_packedbytes + p.k
                * p.polyeta_packedbytes
            &&& 0 <= p.k * POLYT0_PACKEDBYTES <= 3328
            &&& 0 <= p.k * POLYT1_PACKEDBYTES <= 2560
            &&& 0 <= p.l * p.polyz_packedbytes <= 4480
            &&& 0 <= p.k * p.polyw1_packedbytes <= 1024
            &&& p.tau <= p.omega
            &&& 1 <= p.tau <= 60
            &&& 4 <= p.l <= 7
            &&& 4 <= p.k <= 8
            &&& 78 <= p.beta <= 196
        }),
{
}

/// A buffer of `N` bytes.
#[derive(Clone, Copy, Debug)]
pub struct PolyUniformGamma1BufferStruct<const N: usize> {
    pub buf: [u8; N],
}

/// The buffer that takes the five SHAKE-256 blocks from which a polynomial
/// of the masking vector is unpacked.
#[derive(Clone, Copy, Debug)]
pub enum PolyUniformGamma1Buffer {
    Mode2(PolyUniformGamma1BufferStruct<680>),
    Mode3(PolyUniformGamma1BufferStruct<680>),
    Mode5(PolyUniformGamma1BufferStruct<680>),
}

impl PolyUniformGamma1Buffer {
    /// The bytes of the buffer.
    pub open spec fn bytes(&self) -> Seq<u8> {
        match self {
            PolyUniformGamma1Buffer::Mode2(v) => v.buf@,
            PolyUniformGamma1Buffer::Mode3(v) => v.buf@,
            PolyUniformGamma1Buffer::Mode5(v) => v.buf@,
        }
    }

    /// The bytes of the buffer, to be changed in place.
    pub fn buf(&mut self) -> (r: &mut [u8])
        ensures
            r@ == old(self).bytes(),
            r@.len() == 680,
            final(r)@ == final(self).bytes(),
    {
        match self {
            PolyUniformGamma1Buffer::Mode2(v) => &mut v.buf,
            PolyUniformGamma1Buffer::Mode3(v) => &mut v.buf,
            PolyUniformGamma1Buffer::Mode5(v) => &mut v.buf,
        }
    }
}

/// The matrix: as many L-vectors as it has rows.
#[derive(Clone, Copy, Debug)]
pub enum Mat {
    Mode2([Polyvecl; 4]),
    Mode3([Polyvecl; 6]),
    Mode5([Polyvecl; 8]),
}

/// The coefficient sequences of a sequence of L-vectors.
pub open spec fn spec_row_views(rows: Seq<Polyvecl>) -> Seq<Seq<Seq<int>>> {
    Seq::new(rows.len(), |i: int| rows[i]@)
}

/// Whether every one of `rows` is a vector of the level `mode`.
pub open spec fn spec_rows_of(rows: Seq<Polyvecl>, mode: Algorithm) -> bool {
    forall|i: int| 0 <= i < rows.len() ==> (#[trigger] rows[i]).mode() == mode
}

impl Mat {
    /// The rows of the matrix.
    pub open spec fn rows(&self) -> Seq<Polyvecl> {
        match self {
            Mat::Mode2(v) => v@,
            Mat::Mode3(v) => v@,
            Mat::Mode5(v) => v@,
        }
    }

    /// The level whose matrix has this number of rows.
    pub open spec fn mode(&self) -> Algorithm {
        match self {
            Mat::Mode2(_) => Algorithm::Mode2,
            Mat::Mode3(_) => Algorithm::Mode3,
            Mat::Mode5(_) => Algorithm::Mode5,
        }
    }

    /// Whether the rows are as long as the level of the matrix asks.
    pub open spec fn wf(&self) -> bool {
        spec_rows_of(self.rows(), self.mode())
    }
}

impl View for Mat {
    type V = Seq<Seq<Seq<int>>>;

    open spec fn view(&self) -> Seq<Seq<Seq<int>>> {
        spec_row_views(self.rows())
    }
}

/// A vector of `n` zero polynomials.
pub open spec fn spec_polyvec_zero(n: int) -> Seq<Seq<int>> {
    Seq::new(n as nat, |k: int| spec_poly_zero())
}

/// A matrix of `k` rows of `l` zero polynomials.
pub open spec fn spec_mat_zero(k: int, l: int) -> Seq<Seq<Seq<int>>> {
    Seq::new(k as nat, |i: int| spec_polyvec_zero(l))
}

/// A type that stands for one parameter level, so that a function can be
/// written once and used at each level.
pub trait DilithiumParams {
    /// The level that the type stands for.
    spec fn mode() -> Algorithm;

    /// The level that the type stands for, as a value.
    fn algorithm() -> (a: Algorithm)
        ensures
            a == Self::mode(),
    ;

    /// A K-vector of zero polynomials.
    fn polyvecknew() -> (v: Polyveck)
        ensures
            v.mode() == Self::mode(),
            v@ == spec_polyvec_zero(Self::mode().spec_params().k as int),
    {
        let v = match Self::algorithm() {
            Algorithm::Mode2 => Polyveck::Mode2(PolyveckStruct::default()),
            Algorithm::Mode3 => Polyveck::Mode3(PolyveckStruct::default()),
            Algorithm::Mode5 => Polyveck::Mode5(PolyveckStruct::default()),
        };
        assert(v@ =~= spec_polyvec_zero(Self::mode().spec_params().k as int));
        v
    }

    /// An L-vector of zero polynomials.
    fn polyveclnew() -> (v: Polyvecl)
        ensures
            v.mode() == Self::mode(),
            v@ == spec_polyvec_zero(Self::mode().spec_params().l as int),
    {
        let v = match Self::algorithm() {
            Algorithm::Mode2 => Polyvecl::Mode2(PolyveclStruct::default()),
            Algorithm::Mode3 => Polyvecl::Mode3(PolyveclStruct::default()),
            Algorithm::Mode5 => Polyvecl::Mode5(PolyveclStruct::default()),
        };
        assert(v@ =~= spec_polyvec_zero(Self::mode().spec_params().l as int));
        v
    }

    /// A buffer of zero bytes for `poly_uniform_gamma1`.
    fn poly_uniform_gamma1_buffer() -> (b: PolyUniformGamma1Buffer)
        ensures
            b.bytes() == Seq::new(680, |i: int| 0u8),
    {
        let buf = filled_array::<u8, 680>(0);
        let b = match Self::algorithm() {
            Algorithm::Mode2 => PolyUniformGamma1Buffer::Mode2(
                PolyUniformGamma1BufferStruct { buf },
            ),
            Algorithm::Mode3 => PolyUniformGamma1Buffer::Mode3(
                PolyUniformGamma1BufferStruct { buf },
            ),
            Algorithm::Mode5 => PolyUniformGamma1Buffer::Mode5(
                PolyUniformGamma1BufferStruct { buf },
            ),
        };
        assert(b.bytes() =~= Seq::new(680, |i: int| 0u8));
        b
    }

    /// A matrix of zero polynomials.
    fn mat() -> (m: Mat)
        ensures
            m.mode() == Self::mode(),
            m.wf(),
            m.rows().len() == Self::mode().spec_params().k,
            m@ == spec_mat_zero(
                Self::mode().spec_params().k as int,
                Self::mode().spec_params().l as int,
            ),
    {
        let row = Self::polyveclnew();
        let m = match Self::algorithm() {
            Algorithm::Mode2 => Mat::Mode2(filled_array::<Polyvecl, 4>(row)),
            Algorithm::Mode3 => Mat::Mode3(filled_array::<Polyvecl, 6>(row)),
            Algorithm::Mode5 => Mat::Mode5(filled_array::<Polyvecl, 8>(row)),
        };
        proof {
            assert forall|i: int| 0 <= i < m.rows().len() implies (#[trigger] m.rows()[i]).mode()
                == m.mode() by {
                assert(m.rows()[i] == row);
            }
            assert(m@ =~= spec_mat_zero(
                Self::mode().spec_params().k as int,
                Self::mode().spec_params().l as int,
            )) by {
                assert forall|i: int| 0 <= i < m.rows().len() implies #[trigger] m@[i]
                    == spec_polyvec_zero(Self::mode().spec_params().l as int) by {
                    assert(m.rows()[i] == row);
                }
            }
        }
        m
    }

    /// The number of bytes of a packed polynomial of the vector `z`.
    fn polyz_packedbytes() -> (n: usize)
        ensures
            n == Self::mode().spec_params().polyz_packedbytes,
    {
        Self::algorithm().params().polyz_packedbytes
    }

    /// The number of bytes of a packed polynomial of high parts.
    fn polyw1_packedbytes() -> (n: usize)
        ensures
            n == Self::mode().spec_params().polyw1_packedbytes,
    {
        Self::algorithm().params().polyw1_packedbytes
    }

    /// The number of bytes of a public key.
    fn crypto_publickeybytes() -> (n: usize)
        ensures
            n == Self::mode().spec_params().public_key_bytes,
    {
        Self::algorithm().params().public_key_bytes
    }
}

pub struct Mode2;

pub struct Mode3;

pub struct Mode5;

impl DilithiumParams for Mode2 {
    open spec fn mode() -> Algorithm {
        Algorithm::Mode2
    }

    fn algorithm() -> (a: Algorithm) {
        Algorithm::Mode2
    }
}

impl DilithiumParams for Mode3 {
    open spec fn mode() -> Algorithm {
        Algorithm::Mode3
    }

    fn algorithm() -> (a: Algorithm) {
        Algorithm::Mode3
    }
}

impl DilithiumParams for Mode5 {
    open spec fn mode() -> Algorithm {
        Algorithm::Mode5
    }

    fn algorithm() -> (a: Algorithm) {
        Algorithm::Mode5
    }
}

} // verus!
