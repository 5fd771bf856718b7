use vstd::prelude::*;
use crate::ntt::{spec_invntt_tomont, spec_ntt, INVNTT_INPUT_BOUND, NTT_INPUT_BOUND};
use crate::objects::Algorithm;
use crate::params::{filled_array, DilithiumParams};
use crate::poly::{
    poly_add, poly_caddq, poly_chknorm, poly_decompose, poly_invntt_tomont, poly_make_hint,
    poly_ntt, poly_pointwise_montgomery, poly_power2round, poly_reduce, poly_shiftl, poly_sub,
    poly_use_hint, spec_differences_fit, spec_in_range, spec_norm_reaches,
    spec_poly_add, spec_poly_caddq, spec_poly_decompose_high, spec_poly_decompose_low,
    spec_poly_make_hint, spec_poly_pointwise_montgomery, spec_poly_power2round_high,
    spec_poly_power2round_low, spec_poly_reduce, spec_poly_shiftl, spec_poly_sub,
    spec_poly_use_hint, spec_poly_zero, spec_products_fit, spec_sum, spec_sums_fit, Poly,
};
use crate::polypack::{
    polyw1_pack, spec_concat, spec_plain_fits, spec_polyw1_pack, spec_w1_bits,
};
use crate::rounding::spec_high_parts;
use crate::sampling::{
    poly_uniform, poly_uniform_eta, poly_uniform_gamma1, spec_eta_stream,
    spec_poly_uniform_gamma1, spec_rej_eta, spec_rej_uniform, spec_sampled_poly,
    spec_uniform_stream,
};

verus! {

/// A vector of `K` polynomials.
#[derive(Copy, Clone, Debug)]
pub struct PolyveckStruct<const K: usize> {
    pub vec: [Poly; K],
}

impl<const K: usize> Default for PolyveckStruct<K> {
    /// The vector of zero polynomials.
    fn default() -> (v: Self)
        ensures
            forall|k: int| 0 <= k < K ==> (#[trigger] v.vec@[k])@ == spec_poly_zero(),
    {
        let p = Poly::default();
        let v = PolyveckStruct { vec: filled_array::<Poly, K>(p) };
        proof {
            assert forall|k: int| 0 <= k < K implies (#[trigger] v.vec@[k])@ == spec_poly_zero() by {
                assert(v.vec@[k] == p);
            }
        }
        v
    }
}

/// A vector of `L` polynomials.
#[derive(Copy, Clone, Debug)]
pub struct PolyveclStruct<const L: usize> {
    pub vec: [Poly; L],
}

impl<const L: usize> Default for PolyveclStruct<L> {
    /// The vector of zero polynomials.
    fn default() -> (v: Self)
        ensures
            forall|k: int| 0 <= k < L ==> (#[trigger] v.vec@[k])@ == spec_poly_zero(),
    {
        let p = Poly::default();
        let v = PolyveclStruct { vec: filled_array::<Poly, L>(p) };
        proof {
            assert forall|k: int| 0 <= k < L implies (#[trigger] v.vec@[k])@ == spec_poly_zero() by {
                assert(v.vec@[k] == p);
            }
        }
        v
    }
}

/// A vector as long as the matrix has rows: 4, 6 or 8 polynomials.
#[derive(Copy, Clone, Debug)]
pub enum Polyveck {
    Mode2(PolyveckStruct<4>),
    Mode3(PolyveckStruct<6>),
    Mode5(PolyveckStruct<8>),
}

/// A vector as long as the matrix has columns: 4, 5 or 7 polynomials.
#[derive(Copy, Clone, Debug)]
pub enum Polyvecl {
    Mode2(PolyveclStruct<4>),
    Mode3(PolyveclStruct<5>),
    Mode5(PolyveclStruct<7>),
}

/// The coefficient sequences of a sequence of polynomials.
pub open spec fn spec_views(polys: Seq<Poly>) -> Seq<Seq<int>> {
    Seq::new(polys.len(), |k: int| polys[k]@)
}

impl Polyveck {
    /// The polynomials of the vector.
    pub open spec fn polys(&self) -> Seq<Poly> {
        match self {
            Polyveck::Mode2(v) => v.vec@,
            Polyveck::Mode3(v) => v.vec@,
            Polyveck::Mode5(v) => v.vec@,
        }
    }

    /// The level whose vectors have this length.
    pub open spec fn mode(&self) -> Algorithm {
        match self {
            Polyveck::Mode2(_) => Algorithm::Mode2,
            Polyveck::Mode3(_) => Algorithm::Mode3,
            Polyveck::Mode5(_) => Algorithm::Mode5,
        }
    }
}

impl View for Polyveck {
    type V = Seq<Seq<int>>;

    open spec fn view(&self) -> Seq<Seq<int>> {
        spec_views(self.polys())
    }
}

impl Polyvecl {
    /// The polynomials of the vector.
    pub open spec fn polys(&self) -> Seq<Poly> {
        match self {
            Polyvecl::Mode2(v) => v.vec@,
            Polyvecl::Mode3(v) => v.vec@,
            Polyvecl::Mode5(v) => v.vec@,
        }
    }

    /// The level whose vectors have this length.
    pub open spec fn mode(&self) -> Algorithm {
        match self {
            Polyvecl::Mode2(_) => Algorithm::Mode2,
            Polyvecl::Mode3(_) => Algorithm::Mode3,
            Polyvecl::Mode5(_) => Algorithm::Mode5,
        }
    }
}

impl View for Polyvecl {
    type V = Seq<Seq<int>>;

    open spec fn view(&self) -> Seq<Seq<int>> {
        spec_views(self.polys())
    }
}

/// The polynomials of a K-vector, to be changed in place.
pub fn vec_from_polyveck_mut(v: &mut Polyveck) -> (r: &mut [Poly])
    ensures
        r@ == old(v).polys(),
        final(r)@ == final(v).polys(),
        final(v).mode() == old(v).mode(),
        r@.len() == old(v).mode().spec_params().k,
{
    match v {
        Polyveck::Mode2(v) => &mut v.vec,
        Polyveck::Mode3(v) => &mut v.vec,
        Polyveck::Mode5(v) => &mut v.vec,
    }
}

/// The polynomials of a K-vector.
pub fn vec_from_polyveck(v: &Polyveck) -> (r: &[Poly])
    ensures
        r@ == v.polys(),
        r@.len() == v.mode().spec_params().k,
{
    match v {
        Polyveck::Mode2(inner) => &inner.vec,
        Polyveck::Mode3(inner) => &inner.vec,
        Polyveck::Mode5(inner) => &inner.vec,
    }
}

/// The polynomials of an L-vector, to be changed in place.
pub fn vec_from_polyvecl_mut(v: &mut Polyvecl) -> (r: &mut [Poly])
    ensures
        r@ == old(v).polys(),
        final(r)@ == final(v).polys(),
        final(v).mode() == old(v).mode(),
        r@.len() == old(v).mode().spec_params().l,
{
    match v {
        Polyvecl::Mode2(v) => &mut v.vec,
        Polyvecl::Mode3(v) => &mut v.vec,
        Polyvecl::Mode5(v) => &mut v.vec,
    }
}

/// The polynomials of an L-vector.
pub fn vec_from_polyvecl(v: &Polyvecl) -> (r: &[Poly])
    ensures
        r@ == v.polys(),
        r@.len() == v.mode().spec_params().l,
{
    match v {
        Polyvecl::Mode2(inner) => &inner.vec,
        Polyvecl::Mode3(inner) => &inner.vec,
        Polyvecl::Mode5(inner) => &inner.vec,
    }
}

/// Whether every coefficient of every polynomial lies in `[lo, hi]`.
pub open spec fn spec_polyvec_in_range(v: Seq<Seq<int>>, lo: int, hi: int) -> bool {
    forall|k: int| 0 <= k < v.len() ==> spec_in_range(#[trigger] v[k], lo, hi)
}

/// Whether the sums of the coefficients at each place fit a machine integer.
pub open spec fn spec_polyvec_sums_fit(u: Seq<Seq<int>>, v: Seq<Seq<int>>) -> bool {
    forall|k: int| 0 <= k < u.len() ==> spec_sums_fit(#[trigger] u[k], v[k])
}

/// Whether the differences of the coefficients at each place fit a machine
/// integer.
pub open spec fn spec_polyvec_differences_fit(u: Seq<Seq<int>>, v: Seq<Seq<int>>) -> bool {
    forall|k: int| 0 <= k < u.len() ==> spec_differences_fit(#[trigger] u[k], v[k])
}

/// Whether the products of the coefficients of `a` with those of every
/// polynomial of `v` can be Montgomery-reduced.
pub open spec fn spec_polyvec_products_fit(a: Seq<int>, v: Seq<Seq<int>>) -> bool {
    forall|k: int| 0 <= k < v.len() ==> spec_products_fit(a, #[trigger] v[k])
}

/// Whether the products of the coefficients at each place of each pair of
/// polynomials can be Montgomery-reduced.
pub open spec fn spec_polyvec_pairs_fit(u: Seq<Seq<int>>, v: Seq<Seq<int>>) -> bool {
    forall|k: int| 0 <= k < u.len() ==> spec_products_fit(#[trigger] u[k], v[k])
}

/// Whether some coefficient of some polynomial is at least `b` in absolute
/// value.
pub open spec fn spec_polyvec_norm_reaches(v: Seq<Seq<int>>, b: int) -> bool {
    exists|k: int| 0 <= k < v.len() && spec_norm_reaches(#[trigger] v[k], b)
}

/// The sum of all coefficients of all polynomials.
pub open spec fn spec_polyvec_sum(v: Seq<Seq<int>>) -> int
    decreases v.len(),
{
    if v.len() == 0 {
        0
    } else {
        spec_polyvec_sum(v.drop_last()) + spec_sum(v.last())
    }
}

pub open spec fn spec_polyvec_reduce(v: Seq<Seq<int>>) -> Seq<Seq<int>> {
    Seq::new(v.len(), |k: int| spec_poly_reduce(v[k]))
}

pub open spec fn spec_polyvec_caddq(v: Seq<Seq<int>>) -> Seq<Seq<int>> {
    Seq::new(v.len(), |k: int| spec_poly_caddq(v[k]))
}

pub open spec fn spec_polyvec_shiftl(v: Seq<Seq<int>>) -> Seq<Seq<int>> {
    Seq::new(v.len(), |k: int| spec_poly_shiftl(v[k]))
}

pub open spec fn spec_polyvec_ntt(v: Seq<Seq<int>>) -> Seq<Seq<int>> {
    Seq::new(v.len(), |k: int| spec_ntt(v[k]))
}

pub open spec fn spec_polyvec_invntt_tomont(v: Seq<Seq<int>>) -> Seq<Seq<int>> {
    Seq::new(v.len(), |k: int| spec_invntt_tomont(v[k]))
}

pub open spec fn spec_polyvec_power2round_high(v: Seq<Seq<int>>) -> Seq<Seq<int>> {
    Seq::new(v.len(), |k: int| spec_poly_power2round_high(v[k]))
}

pub open spec fn spec_polyvec_power2round_low(v: Seq<Seq<int>>) -> Seq<Seq<int>> {
    Seq::new(v.len(), |k: int| spec_poly_power2round_low(v[k]))
}

pub open spec fn spec_polyvec_decompose_high(gamma2: int, v: Seq<Seq<int>>) -> Seq<Seq<int>> {
    Seq::new(v.len(), |k: int| spec_poly_decompose_high(gamma2, v[k]))
}

pub open spec fn spec_polyvec_decompose_low(gamma2: int, v: Seq<Seq<int>>) -> Seq<Seq<int>> {
    Seq::new(v.len(), |k: int| spec_poly_decompose_low(gamma2, v[k]))
}

pub open spec fn spec_polyvec_add(u: Seq<Seq<int>>, v: Seq<Seq<int>>) -> Seq<Seq<int>> {
    Seq::new(u.len(), |k: int| spec_poly_add(u[k], v[k]))
}

pub open spec fn spec_polyvec_sub(u: Seq<Seq<int>>, v: Seq<Seq<int>>) -> Seq<Seq<int>> {
    Seq::new(u.len(), |k: int| spec_poly_sub(u[k], v[k]))
}

pub open spec fn spec_polyvec_make_hint(gamma2: int, u: Seq<Seq<int>>, v: Seq<Seq<int>>) -> Seq<Seq<int>> {
    Seq::new(u.len(), |k: int| spec_poly_make_hint(gamma2, u[k], v[k]))
}

pub open spec fn spec_polyvec_use_hint(gamma2: int, u: Seq<Seq<int>>, v: Seq<Seq<int>>) -> Seq<Seq<int>> {
    Seq::new(u.len(), |k: int| spec_poly_use_hint(gamma2, u[k], v[k]))
}

pub open spec fn spec_polyvec_pointwise_poly(a: Seq<int>, v: Seq<Seq<int>>) -> Seq<Seq<int>> {
    Seq::new(v.len(), |k: int| spec_poly_pointwise_montgomery(a, v[k]))
}

/// Reduces every coefficient of every polynomial as `reduce32` does.
pub fn polyvecl_reduce<P: DilithiumParams>(v: &mut Polyvecl)
    requires
        spec_polyvec_in_range(old(v)@, -0x8000_0000, 0x7fff_ffff - 0x40_0000),
    ensures
        final(v)@ == spec_polyvec_reduce(old(v)@),
        final(v).mode() == old(v).mode(),
        spec_polyvec_in_range(final(v)@, -6283009, 6283008),
{
    let ghost v0 = v@;
    let v_vec = vec_from_polyvecl_mut(v);
    let n: usize = v_vec.len();
    let mut i: usize = 0;
    while i < n
        invariant
            i <= n,
            n == v_vec@.len(),
            n == v0.len(),
            spec_polyvec_in_range(v0, -0x8000_0000, 0x7fff_ffff - 0x40_0000),
            forall|k: int| 0 <= k < i ==> (#[trigger] v_vec@[k])@ == spec_polyvec_reduce(v0)[k],
            forall|k: int| 0 <= k < i ==> (|p: Seq<int>| spec_in_range(p, -6283009, 6283008))((#[trigger] v_vec@[k])@),
            forall|k: int| i <= k < n ==> (#[trigger] v_vec@[k])@ == v0[k],
        decreases n - i,
    {
        proof {
            assert(v_vec@[i as int]@ == v0[i as int]);
        }
        poly_reduce::<P>(&mut v_vec[i]);
        i += 1;
    }
    proof {
        assert(spec_views(v_vec@) =~= spec_polyvec_reduce(v0));
        assert forall|k: int| 0 <= k < spec_views(v_vec@).len() implies spec_in_range(
            #[trigger] spec_views(v_vec@)[k],
            -6283009, 6283008,
        ) by {
            assert(spec_views(v_vec@)[k] == v_vec@[k]@);
        }
    }
}

/// The forward transform of every polynomial.
pub fn polyvecl_ntt<P: DilithiumParams>(v: &mut Polyvecl)
    requires
        spec_polyvec_in_range(old(v)@, -(NTT_INPUT_BOUND as int), NTT_INPUT_BOUND as int),
    ensures
        final(v)@ == spec_polyvec_ntt(old(v)@),
        final(v).mode() == old(v).mode(),
{
    let ghost v0 = v@;
    let v_vec = vec_from_polyvecl_mut(v);
    let n: usize = v_vec.len();
    let mut i: usize = 0;
    while i < n
        invariant
            i <= n,
            n == v_vec@.len(),
            n == v0.len(),
            spec_polyvec_in_range(v0, -(NTT_INPUT_BOUND as int), NTT_INPUT_BOUND as int),
            forall|k: int| 0 <= k < i ==> (#[trigger] v_vec@[k])@ == spec_polyvec_ntt(v0)[k],
            forall|k: int| i <= k < n ==> (#[trigger] v_vec@[k])@ == v0[k],
        decreases n - i,
    {
        proof {
            assert(v_vec@[i as int]@ == v0[i as int]);
        }
        poly_ntt::<P>(&mut v_vec[i]);
        i += 1;
    }
    proof {
        assert(spec_views(v_vec@) =~= spec_polyvec_ntt(v0));
    }
}

/// The inverse transform, times `2^32`, of every polynomial.
pub fn polyvecl_invntt_tomont<P: DilithiumParams>(v: &mut Polyvecl)
    requires
        spec_polyvec_in_range(old(v)@, -(INVNTT_INPUT_BOUND as int), INVNTT_INPUT_BOUND as int),
    ensures
        final(v)@ == spec_polyvec_invntt_tomont(old(v)@),
        final(v).mode() == old(v).mode(),
        spec_polyvec_in_range(final(v)@, -4211197, 4211197),
{
    let ghost v0 = v@;
    let v_vec = vec_from_polyvecl_mut(v);
    let n: usize = v_vec.len();
    let mut i: usize = 0;
    while i < n
        invariant
            i <= n,
            n == v_vec@.len(),
            n == v0.len(),
            spec_polyvec_in_range(v0, -(INVNTT_INPUT_BOUND as int), INVNTT_INPUT_BOUND as int),
            forall|k: int| 0 <= k < i ==> (#[trigger] v_vec@[k])@ == spec_polyvec_invntt_tomont(v0)[k],
            forall|k: int| 0 <= k < i ==> (|p: Seq<int>| spec_in_range(p, -4211197, 4211197))((#[trigger] v_vec@[k])@),
            forall|k: int| i <= k < n ==> (#[trigger] v_vec@[k])@ == v0[k],
        decreases n - i,
    {
        proof {
            assert(v_vec@[i as int]@ == v0[i as int]);
        }
        poly_invntt_tomont::<P>(&mut v_vec[i]);
        i += 1;
    }
    proof {
        assert(spec_views(v_vec@) =~= spec_polyvec_invntt_tomont(v0));
        assert forall|k: int| 0 <= k < spec_views(v_vec@).len() implies spec_in_range(
            #[trigger] spec_views(v_vec@)[k],
            -4211197, 4211197,
        ) by {
            assert(spec_views(v_vec@)[k] == v_vec@[k]@);
        }
    }
}

/// Reduces every coefficient of every polynomial as `reduce32` does.
pub fn polyveck_reduce<P: DilithiumParams>(v: &mut Polyveck)
    requires
        spec_polyvec_in_range(old(v)@, -0x8000_0000, 0x7fff_ffff - 0x40_0000),
    ensures
        final(v)@ == spec_polyvec_reduce(old(v)@),
        final(v).mode() == old(v).mode(),
        spec_polyvec_in_range(final(v)@, -6283009, 6283008),
{
    let ghost v0 = v@;
    let v_vec = vec_from_polyveck_mut(v);
    let n: usize = v_vec.len();
    let mut i: usize = 0;
    while i < n
        invariant
            i <= n,
            n == v_vec@.len(),
            n == v0.len(),
            spec_polyvec_in_range(v0, -0x8000_0000, 0x7fff_ffff - 0x40_0000),
            forall|k: int| 0 <= k < i ==> (#[trigger] v_vec@[k])@ == spec_polyvec_reduce(v0)[k],
            forall|k: int| 0 <= k < i ==> (|p: Seq<int>| spec_in_range(p, -6283009, 6283008))((#[trigger] v_vec@[k])@),
            forall|k: int| i <= k < n ==> (#[trigger] v_vec@[k])@ == v0[k],
        decreases n - i,
    {
        proof {
            assert(v_vec@[i as int]@ == v0[i as int]);
        }
        poly_reduce::<P>(&mut v_vec[i]);
        i += 1;
    }
    proof {
        assert(spec_views(v_vec@) =~= spec_polyvec_reduce(v0));
        assert forall|k: int| 0 <= k < spec_views(v_vec@).len() implies spec_in_range(
            #[trigger] spec_views(v_vec@)[k],
            -6283009, 6283008,
        ) by {
            assert(spec_views(v_vec@)[k] == v_vec@[k]@);
        }
    }
}

/// The forward transform of every polynomial.
pub fn polyveck_ntt<P: DilithiumParams>(v: &mut Polyveck)
    requires
        spec_polyvec_in_range(old(v)@, -(NTT_INPUT_BOUND as int), NTT_INPUT_BOUND as int),
    ensures
        final(v)@ == spec_polyvec_ntt(old(v)@),
        final(v).mode() == old(v).mode(),
{
    let ghost v0 = v@;
    let v_vec = vec_from_polyveck_mut(v);
    let n: usize = v_vec.len();
    let mut i: usize = 0;
    while i < n
        invariant
            i <= n,
            n == v_vec@.len(),
            n == v0.len(),
            spec_polyvec_in_range(v0, -(NTT_INPUT_BOUND as int), NTT_INPUT_BOUND as int),
            forall|k: int| 0 <= k < i ==> (#[trigger] v_vec@[k])@ == spec_polyvec_ntt(v0)[k],
            forall|k: int| i <= k < n ==> (#[trigger] v_vec@[k])@ == v0[k],
        decreases n - i,
    {
        proof {
            assert(v_vec@[i as int]@ == v0[i as int]);
        }
        poly_ntt::<P>(&mut v_vec[i]);
        i += 1;
    }
    proof {
        assert(spec_views(v_vec@) =~= spec_polyvec_ntt(v0));
    }
}

/// The inverse transform, times `2^32`, of every polynomial.
pub fn polyveck_invntt_tomont<P: DilithiumParams>(v: &mut Polyveck)
    requires
        spec_polyvec_in_range(old(v)@, -(INVNTT_INPUT_BOUND as int), INVNTT_INPUT_BOUND as int),
    ensures
        final(v)@ == spec_polyvec_invntt_tomont(old(v)@),
        final(v).mode() == old(v).mode(),
        spec_polyvec_in_range(final(v)@, -4211197, 4211197),
{
    let ghost v0 = v@;
    let v_vec = vec_from_polyveck_mut(v);
    let n: usize = v_vec.len();
    let mut i: usize = 0;
    while i < n
        invariant
            i <= n,
            n == v_vec@.len(),
            n == v0.len(),
            spec_polyvec_in_range(v0, -(INVNTT_INPUT_BOUND as int), INVNTT_INPUT_BOUND as int),
            forall|k: int| 0 <= k < i ==> (#[trigger] v_vec@[k])@ == spec_polyvec_invntt_tomont(v0)[k],
            forall|k: int| 0 <= k < i ==> (|p: Seq<int>| spec_in_range(p, -4211197, 4211197))((#[trigger] v_vec@[k])@),
            forall|k: int| i <= k < n ==> (#[trigger] v_vec@[k])@ == v0[k],
        decreases n - i,
    {
        proof {
            assert(v_vec@[i as int]@ == v0[i as int]);
        }
        poly_invntt_tomont::<P>(&mut v_vec[i]);
        i += 1;
    }
    proof {
        assert(spec_views(v_vec@) =~= spec_polyvec_invntt_tomont(v0));
        assert forall|k: int| 0 <= k < spec_views(v_vec@).len() implies spec_in_range(
            #[trigger] spec_views(v_vec@)[k],
            -4211197, 4211197,
        ) by {
            assert(spec_views(v_vec@)[k] == v_vec@[k]@);
        }
    }
}

/// Adds `Q` to every negative coefficient.
pub fn polyveck_caddq<P: DilithiumParams>(v: &mut Polyveck)
    ensures
        final(v)@ == spec_polyvec_caddq(old(v)@),
        final(v).mode() == old(v).mode(),
{
    let ghost v0 = v@;
    let v_vec = vec_from_polyveck_mut(v);
    let n: usize = v_vec.len();
    let mut i: usize = 0;
    while i < n
        invariant
            i <= n,
            n == v_vec@.len(),
            n == v0.len(),
            forall|k: int| 0 <= k < i ==> (#[trigger] v_vec@[k])@ == spec_polyvec_caddq(v0)[k],
            forall|k: int| i <= k < n ==> (#[trigger] v_vec@[k])@ == v0[k],
        decreases n - i,
    {
        proof {
            assert(v_vec@[i as int]@ == v0[i as int]);
        }
        poly_caddq::<P>(&mut v_vec[i]);
        i += 1;
    }
    proof {
        assert(spec_views(v_vec@) =~= spec_polyvec_caddq(v0));
    }
}

/// Multiplies every coefficient by `2^13`. The coefficients lie in
/// `[-2^18, 2^18)`.
pub fn polyveck_shiftl(v: &mut Polyveck)
    requires
        spec_polyvec_in_range(old(v)@, -0x4_0000, 0x4_0000 - 1),
    ensures
        final(v)@ == spec_polyvec_shiftl(old(v)@),
        final(v).mode() == old(v).mode(),
{
    let ghost v0 = v@;
    let v_vec = vec_from_polyveck_mut(v);
    let n: usize = v_vec.len();
    let mut i: usize = 0;
    while i < n
        invariant
            i <= n,
            n == v_vec@.len(),
            n == v0.len(),
            spec_polyvec_in_range(v0, -0x4_0000, 0x4_0000 - 1),
            forall|k: int| 0 <= k < i ==> (#[trigger] v_vec@[k])@ == spec_polyvec_shiftl(v0)[k],
            forall|k: int| i <= k < n ==> (#[trigger] v_vec@[k])@ == v0[k],
        decreases n - i,
    {
        proof {
            assert(v_vec@[i as int]@ == v0[i as int]);
        }
        poly_shiftl(&mut v_vec[i]);
        i += 1;
    }
    proof {
        assert(spec_views(v_vec@) =~= spec_polyvec_shiftl(v0));
    }
}

/// Polynomial by polynomial, `w = u + v`, with no reduction.
pub fn polyvecl_add(w: &mut Polyvecl, u: &Polyvecl, v: &Polyvecl)
    requires
        old(w).mode() == u.mode(),
        u.mode() == v.mode(),
        spec_polyvec_sums_fit(u@, v@),
    ensures
        final(w)@ == spec_polyvec_add(u@, v@),
        final(w).mode() == old(w).mode(),
{
    let w_vec = vec_from_polyvecl_mut(w);
    let u_vec = vec_from_polyvecl(u);
    let v_vec = vec_from_polyvecl(v);
    let n: usize = u_vec.len();
    let mut i: usize = 0;
    while i < n
        invariant
            i <= n,
            n == w_vec@.len(),
            n == u_vec@.len(),
            n == v_vec@.len(),
            u_vec@ == u.polys(),
            v_vec@ == v.polys(),
            spec_polyvec_sums_fit(u@, v@),
            forall|k: int| 0 <= k < i ==> (#[trigger] w_vec@[k])@ == spec_polyvec_add(u@, v@)[k],
        decreases n - i,
    {
        proof {
            assert(u@[i as int] == u_vec@[i as int]@);
            assert(v@[i as int] == v_vec@[i as int]@);
        }
        poly_add(&mut w_vec[i], &u_vec[i], &v_vec[i]);
        i += 1;
    }
    proof {
        assert(spec_views(w_vec@) =~= spec_polyvec_add(u@, v@));
    }
}

/// Polynomial by polynomial, `w = u + v`, with no reduction.
pub fn polyveck_add(w: &mut Polyveck, u: &Polyveck, v: &Polyveck)
    requires
        old(w).mode() == u.mode(),
        u.mode() == v.mode(),
        spec_polyvec_sums_fit(u@, v@),
    ensures
        final(w)@ == spec_polyvec_add(u@, v@),
        final(w).mode() == old(w).mode(),
{
    let w_vec = vec_from_polyveck_mut(w);
    let u_vec = vec_from_polyveck(u);
    let v_vec = vec_from_polyveck(v);
    let n: usize = u_vec.len();
    let mut i: usize = 0;
    while i < n
        invariant
            i <= n,
            n == w_vec@.len(),
            n == u_vec@.len(),
            n == v_vec@.len(),
            u_vec@ == u.polys(),
            v_vec@ == v.polys(),
            spec_polyvec_sums_fit(u@, v@),
            forall|k: int| 0 <= k < i ==> (#[trigger] w_vec@[k])@ == spec_polyvec_add(u@, v@)[k],
        decreases n - i,
    {
        proof {
            assert(u@[i as int] == u_vec@[i as int]@);
            assert(v@[i as int] == v_vec@[i as int]@);
        }
        poly_add(&mut w_vec[i], &u_vec[i], &v_vec[i]);
        i += 1;
    }
    proof {
        assert(spec_views(w_vec@) =~= spec_polyvec_add(u@, v@));
    }
}

/// Polynomial by polynomial, `w = u - v`, with no reduction.
pub fn polyveck_sub(w: &mut Polyveck, u: &Polyveck, v: &Polyveck)
    requires
        old(w).mode() == u.mode(),
        u.mode() == v.mode(),
        spec_polyvec_differences_fit(u@, v@),
    ensures
        final(w)@ == spec_polyvec_sub(u@, v@),
        final(w).mode() == old(w).mode(),
{
    let w_vec = vec_from_polyveck_mut(w);
    let u_vec = vec_from_polyveck(u);
    let v_vec = vec_from_polyveck(v);
    let n: usize = u_vec.len();
    let mut i: usize = 0;
    while i < n
        invariant
            i <= n,
            n == w_vec@.len(),
            n == u_vec@.len(),
            n == v_vec@.len(),
            u_vec@ == u.polys(),
            v_vec@ == v.polys(),
            spec_polyvec_differences_fit(u@, v@),
            forall|k: int| 0 <= k < i ==> (#[trigger] w_vec@[k])@ == spec_polyvec_sub(u@, v@)[k],
        decreases n - i,
    {
        proof {
            assert(u@[i as int] == u_vec@[i as int]@);
            assert(v@[i as int] == v_vec@[i as int]@);
        }
        poly_sub(&mut w_vec[i], &u_vec[i], &v_vec[i]);
        i += 1;
    }
    proof {
        assert(spec_views(w_vec@) =~= spec_polyvec_sub(u@, v@));
    }
}

/// Multiplies every polynomial of `v` by `a`, place by place, with Montgomery
/// reduction.
pub fn polyvecl_pointwise_poly_montgomery<P: DilithiumParams>(r: &mut Polyvecl, a: &Poly, v: &Polyvecl)
    requires
        old(r).mode() == v.mode(),
        spec_polyvec_products_fit(a@, v@),
    ensures
        final(r)@ == spec_polyvec_pointwise_poly(a@, v@),
        final(r).mode() == old(r).mode(),
        spec_polyvec_in_range(final(r)@, -8380416, 8380416),
{
    let r_vec = vec_from_polyvecl_mut(r);
    let v_vec = vec_from_polyvecl(v);
    let n: usize = v_vec.len();
    let mut i: usize = 0;
    while i < n
        invariant
            i <= n,
            n == r_vec@.len(),
            n == v_vec@.len(),
            v_vec@ == v.polys(),
            spec_polyvec_products_fit(a@, v@),
            forall|k: int|
                0 <= k < i ==> (#[trigger] r_vec@[k])@ == spec_polyvec_pointwise_poly(a@, v@)[k],
            forall|k: int| 0 <= k < i ==> spec_in_range((#[trigger] r_vec@[k])@, -8380416, 8380416),
        decreases n - i,
    {
        proof {
            assert(v@[i as int] == v_vec@[i as int]@);
        }
        poly_pointwise_montgomery::<P>(&mut r_vec[i], a, &v_vec[i]);
        i += 1;
    }
    proof {
        assert(spec_views(r_vec@) =~= spec_polyvec_pointwise_poly(a@, v@));
        assert forall|k: int| 0 <= k < spec_views(r_vec@).len() implies spec_in_range(
            #[trigger] spec_views(r_vec@)[k],
            -8380416,
            8380416,
        ) by {
            assert(spec_views(r_vec@)[k] == r_vec@[k]@);
        }
    }
}

/// Multiplies every polynomial of `v` by `a`, place by place, with Montgomery
/// reduction.
pub fn polyveck_pointwise_poly_montgomery<P: DilithiumParams>(r: &mut Polyveck, a: &Poly, v: &Polyveck)
    requires
        old(r).mode() == v.mode(),
        spec_polyvec_products_fit(a@, v@),
    ensures
        final(r)@ == spec_polyvec_pointwise_poly(a@, v@),
        final(r).mode() == old(r).mode(),
        spec_polyvec_in_range(final(r)@, -8380416, 8380416),
{
    let r_vec = vec_from_polyveck_mut(r);
    let v_vec = vec_from_polyveck(v);
    let n: usize = v_vec.len();
    let mut i: usize = 0;
    while i < n
        invariant
            i <= n,
            n == r_vec@.len(),
            n == v_vec@.len(),
            v_vec@ == v.polys(),
            spec_polyvec_products_fit(a@, v@),
            forall|k: int|
                0 <= k < i ==> (#[trigger] r_vec@[k])@ == spec_polyvec_pointwise_poly(a@, v@)[k],
            forall|k: int| 0 <= k < i ==> spec_in_range((#[trigger] r_vec@[k])@, -8380416, 8380416),
        decreases n - i,
    {
        proof {
            assert(v@[i as int] == v_vec@[i as int]@);
        }
        poly_pointwise_montgomery::<P>(&mut r_vec[i], a, &v_vec[i]);
        i += 1;
    }
    proof {
        assert(spec_views(r_vec@) =~= spec_polyvec_pointwise_poly(a@, v@));
        assert forall|k: int| 0 <= k < spec_views(r_vec@).len() implies spec_in_range(
            #[trigger] spec_views(r_vec@)[k],
            -8380416,
            8380416,
        ) by {
            assert(spec_views(r_vec@)[k] == r_vec@[k]@);
        }
    }
}

/// 1 where some coefficient is at least `bound` in absolute value, else 0.
/// The coefficients lie in `[-2^30, 2^30)`.
pub fn polyvecl_chknorm<P: DilithiumParams>(v: &Polyvecl, bound: i32) -> (r: u8)
    requires
        spec_polyvec_in_range(v@, -0x4000_0000, 0x4000_0000 - 1),
    ensures
        r == (if spec_polyvec_norm_reaches(v@, bound as int) { 1int } else { 0int }),
{
    let v_vec = vec_from_polyvecl(v);
    let n: usize = v_vec.len();
    let mut r: u8 = 0;
    let mut i: usize = 0;
    while i < n
        invariant
            i <= n,
            n == v_vec@.len(),
            v_vec@ == v.polys(),
            spec_polyvec_in_range(v@, -0x4000_0000, 0x4000_0000 - 1),
            r == 0 || r == 1,
            r == 1 <==> spec_polyvec_norm_reaches(v@.take(i as int), bound as int),
        decreases n - i,
    {
        proof {
            assert(v@[i as int] == v_vec@[i as int]@);
        }
        let one: u8 = poly_chknorm::<P>(&v_vec[i], bound);
        if one > 0 {
            r = 1;
        }
        proof {
            let prev = v@.take(i as int);
            let next = v@.take(i + 1);
            if spec_polyvec_norm_reaches(prev, bound as int) {
                let w = choose|w: int|
                    0 <= w < prev.len() && spec_norm_reaches(#[trigger] prev[w], bound as int);
                assert(next[w] == prev[w]);
            }
            if spec_norm_reaches(v@[i as int], bound as int) {
                assert(next[i as int] == v@[i as int]);
            }
            if spec_polyvec_norm_reaches(next, bound as int) {
                let w = choose|w: int|
                    0 <= w < next.len() && spec_norm_reaches(#[trigger] next[w], bound as int);
                if w < i {
                    assert(prev[w] == next[w]);
                }
            }
        }
        i += 1;
    }
    proof {
        assert(v@.take(n as int) =~= v@);
    }
    r
}

/// 1 where some coefficient is at least `bound` in absolute value, else 0.
/// The coefficients lie in `[-2^30, 2^30)`.
pub fn polyveck_chknorm<P: DilithiumParams>(v: &Polyveck, bound: i32) -> (r: u8)
    requires
        spec_polyvec_in_range(v@, -0x4000_0000, 0x4000_0000 - 1),
    ensures
        r == (if spec_polyvec_norm_reaches(v@, bound as int) { 1int } else { 0int }),
{
    let v_vec = vec_from_polyveck(v);
    let n: usize = v_vec.len();
    let mut r: u8 = 0;
    let mut i: usize = 0;
    while i < n
        invariant
            i <= n,
            n == v_vec@.len(),
            v_vec@ == v.polys(),
            spec_polyvec_in_range(v@, -0x4000_0000, 0x4000_0000 - 1),
            r == 0 || r == 1,
            r == 1 <==> spec_polyvec_norm_reaches(v@.take(i as int), bound as int),
        decreases n - i,
    {
        proof {
            assert(v@[i as int] == v_vec@[i as int]@);
        }
        let one: u8 = poly_chknorm::<P>(&v_vec[i], bound);
        if one > 0 {
            r = 1;
        }
        proof {
            let prev = v@.take(i as int);
            let next = v@.take(i + 1);
            if spec_polyvec_norm_reaches(prev, bound as int) {
                let w = choose|w: int|
                    0 <= w < prev.len() && spec_norm_reaches(#[trigger] prev[w], bound as int);
                assert(next[w] == prev[w]);
            }
            if spec_norm_reaches(v@[i as int], bound as int) {
                assert(next[i as int] == v@[i as int]);
            }
            if spec_polyvec_norm_reaches(next, bound as int) {
                let w = choose|w: int|
                    0 <= w < next.len() && spec_norm_reaches(#[trigger] next[w], bound as int);
                if w < i {
                    assert(prev[w] == next[w]);
                }
            }
        }
        i += 1;
    }
    proof {
        assert(v@.take(n as int) =~= v@);
    }
    r
}

/// Splits every coefficient of `v` as `power2round` does: the high parts go
/// to `v1`, the low parts to `v0`.
pub fn polyveck_power2round<P: DilithiumParams>(v1: &mut Polyveck, v0: &mut Polyveck, v: &Polyveck)
    requires
        old(v1).mode() == v.mode(),
        old(v0).mode() == v.mode(),
        spec_polyvec_in_range(v@, -0x8000_0000, 0x7fff_ffff - 4096),
    ensures
        final(v1)@ == spec_polyvec_power2round_high(v@),
        final(v0)@ == spec_polyvec_power2round_low(v@),
        final(v1).mode() == old(v1).mode(),
        final(v0).mode() == old(v0).mode(),
{
    let v1_vec = vec_from_polyveck_mut(v1);
    let v0_vec = vec_from_polyveck_mut(v0);
    let v_vec = vec_from_polyveck(v);
    let n: usize = v_vec.len();
    let mut i: usize = 0;
    while i < n
        invariant
            i <= n,
            n == v1_vec@.len(),
            n == v0_vec@.len(),
            n == v_vec@.len(),
            v_vec@ == v.polys(),
            spec_polyvec_in_range(v@, -0x8000_0000, 0x7fff_ffff - 4096),
            forall|k: int| 0 <= k < i ==> (#[trigger] v1_vec@[k])@ == spec_polyvec_power2round_high(v@)[k],
            forall|k: int| 0 <= k < i ==> (#[trigger] v0_vec@[k])@ == spec_polyvec_power2round_low(v@)[k],
        decreases n - i,
    {
        proof {
            assert(v@[i as int] == v_vec@[i as int]@);
        }
        poly_power2round::<P>(&mut v1_vec[i], &mut v0_vec[i], &v_vec[i]);
        i += 1;
    }
    proof {
        assert(spec_views(v1_vec@) =~= spec_polyvec_power2round_high(v@));
        assert(spec_views(v0_vec@) =~= spec_polyvec_power2round_low(v@));
    }
}

/// Splits every coefficient of `v` as `decompose` does: the high parts go to
/// `v1`, the low parts to `v0`. The coefficients are standard representatives.
pub fn polyveck_decompose<P: DilithiumParams>(v1: &mut Polyveck, v0: &mut Polyveck, v: &Polyveck)
    requires
        old(v1).mode() == v.mode(),
        old(v0).mode() == v.mode(),
        spec_polyvec_in_range(v@, 0, 8380416),
    ensures
        final(v1)@ == spec_polyvec_decompose_high(P::mode().spec_params().gamma2 as int, v@),
        final(v0)@ == spec_polyvec_decompose_low(P::mode().spec_params().gamma2 as int, v@),
        final(v1).mode() == old(v1).mode(),
        final(v0).mode() == old(v0).mode(),
{
    let v1_vec = vec_from_polyveck_mut(v1);
    let v0_vec = vec_from_polyveck_mut(v0);
    let v_vec = vec_from_polyveck(v);
    let n: usize = v_vec.len();
    let mut i: usize = 0;
    while i < n
        invariant
            i <= n,
            n == v1_vec@.len(),
            n == v0_vec@.len(),
            n == v_vec@.len(),
            v_vec@ == v.polys(),
            spec_polyvec_in_range(v@, 0, 8380416),
            forall|k: int| 0 <= k < i ==> (#[trigger] v1_vec@[k])@ == spec_polyvec_decompose_high(P::mode().spec_params().gamma2 as int, v@)[k],
            forall|k: int| 0 <= k < i ==> (#[trigger] v0_vec@[k])@ == spec_polyvec_decompose_low(P::mode().spec_params().gamma2 as int, v@)[k],
        decreases n - i,
    {
        proof {
            assert(v@[i as int] == v_vec@[i as int]@);
        }
        poly_decompose::<P>(&mut v1_vec[i], &mut v0_vec[i], &v_vec[i]);
        i += 1;
    }
    proof {
        assert(spec_views(v1_vec@) =~= spec_polyvec_decompose_high(P::mode().spec_params().gamma2 as int, v@));
        assert(spec_views(v0_vec@) =~= spec_polyvec_decompose_low(P::mode().spec_params().gamma2 as int, v@));
    }
}

/// Makes the hints from the low parts `v0` and the high parts `v1`, and
/// returns the number of ones among them.
pub fn polyveck_make_hint<P: DilithiumParams>(h: &mut Polyveck, v0: &Polyveck, v1: &Polyveck) -> (s:
    i32)
    requires
        old(h).mode() == v0.mode(),
        v0.mode() == v1.mode(),
    ensures
        final(h)@ == spec_polyvec_make_hint(P::mode().spec_params().gamma2 as int, v0@, v1@),
        final(h).mode() == old(h).mode(),
        s == spec_polyvec_sum(final(h)@),
        0 <= s <= 2048,
{
    let ghost gamma2 = P::mode().spec_params().gamma2 as int;
    let ghost hints = spec_polyvec_make_hint(gamma2, v0@, v1@);
    let v0_vec = vec_from_polyveck(v0);
    let v1_vec = vec_from_polyveck(v1);
    let h_vec = vec_from_polyveck_mut(h);
    let n: usize = v0_vec.len();
    let mut s: i32 = 0;
    let mut i: usize = 0;
    proof {
        assert(hints.take(0) =~= Seq::<Seq<int>>::empty());
    }
    while i < n
        invariant
            i <= n,
            n <= 8,
            n == h_vec@.len(),
            n == v0_vec@.len(),
            n == v1_vec@.len(),
            v0_vec@ == v0.polys(),
            v1_vec@ == v1.polys(),
            gamma2 == P::mode().spec_params().gamma2 as int,
            hints == spec_polyvec_make_hint(gamma2, v0@, v1@),
            forall|k: int| 0 <= k < i ==> (#[trigger] h_vec@[k])@ == hints[k],
            s == spec_polyvec_sum(hints.take(i as int)),
            0 <= s <= 256 * i,
        decreases n - i,
    {
        proof {
            assert(v0@[i as int] == v0_vec@[i as int]@);
            assert(v1@[i as int] == v1_vec@[i as int]@);
        }
        let one: i32 = poly_make_hint::<P>(&mut h_vec[i], &v0_vec[i], &v1_vec[i]);
        s += one;
        proof {
            assert(hints.take(i + 1).drop_last() =~= hints.take(i as int));
        }
        i += 1;
    }
    proof {
        assert(spec_views(h_vec@) =~= hints);
        assert(hints.take(n as int) =~= hints);
    }
    s
}

/// Corrects the high parts of the coefficients of `u` by the hints `h`. The
/// coefficients of `u` are standard representatives.
pub fn polyveck_use_hint<P: DilithiumParams>(w: &mut Polyveck, u: &Polyveck, h: &Polyveck)
    requires
        old(w).mode() == u.mode(),
        u.mode() == h.mode(),
        spec_polyvec_in_range(u@, 0, 8380416),
    ensures
        final(w)@ == spec_polyvec_use_hint(P::mode().spec_params().gamma2 as int, u@, h@),
        final(w).mode() == old(w).mode(),
        spec_polyvec_in_range(
            final(w)@,
            0,
            spec_high_parts(P::mode().spec_params().gamma2 as int) - 1,
        ),
{
    let ghost gamma2 = P::mode().spec_params().gamma2 as int;
    let w_vec = vec_from_polyveck_mut(w);
    let u_vec = vec_from_polyveck(u);
    let h_vec = vec_from_polyveck(h);
    let n: usize = u_vec.len();
    let mut i: usize = 0;
    while i < n
        invariant
            i <= n,
            n == w_vec@.len(),
            n == u_vec@.len(),
            n == h_vec@.len(),
            u_vec@ == u.polys(),
            h_vec@ == h.polys(),
            gamma2 == P::mode().spec_params().gamma2 as int,
            spec_polyvec_in_range(u@, 0, 8380416),
            forall|k: int|
                0 <= k < i ==> (#[trigger] w_vec@[k])@ == spec_polyvec_use_hint(gamma2, u@, h@)[k],
            forall|k: int|
                0 <= k < i ==> spec_in_range(
                    (#[trigger] w_vec@[k])@,
                    0,
                    spec_high_parts(gamma2) - 1,
                ),
        decreases n - i,
    {
        proof {
            assert(u@[i as int] == u_vec@[i as int]@);
            assert(h@[i as int] == h_vec@[i as int]@);
        }
        poly_use_hint::<P>(&mut w_vec[i], &u_vec[i], &h_vec[i]);
        i += 1;
    }
    proof {
        assert(spec_views(w_vec@) =~= spec_polyvec_use_hint(gamma2, u@, h@));
        assert forall|k: int| 0 <= k < spec_views(w_vec@).len() implies spec_in_range(
            #[trigger] spec_views(w_vec@)[k],
            0,
            spec_high_parts(gamma2) - 1,
        ) by {
            assert(spec_views(w_vec@)[k] == w_vec@[k]@);
        }
    }
}

/// What `polyvecl_uniform_eta` and `polyveck_uniform_eta` make of the vector
/// `before`.
pub open spec fn spec_polyvec_uniform_eta(
    eta: int,
    before: Seq<Seq<int>>,
    seed: Seq<u8>,
    nonce: int,
) -> Seq<Seq<int>> {
    Seq::new(
        before.len(),
        |k: int|
            spec_sampled_poly(
                before[k],
                spec_rej_eta(eta, spec_eta_stream(seed, (nonce + k) as u16)),
            ),
    )
}

/// Whether the streams of the first `n` polynomials each hold 256 values.
pub open spec fn spec_polyvec_uniform_eta_filled(eta: int, n: int, seed: Seq<u8>, nonce: int) -> bool {
    forall|k: int|
        0 <= k < n ==> (#[trigger] spec_rej_eta(
            eta,
            spec_eta_stream(seed, (nonce + k) as u16),
        )).len() >= 256
}

/// The masking vector of `n` polynomials that belongs to `seed` and `nonce`:
/// polynomial `k` has the nonce `l * nonce + k`.
pub open spec fn spec_polyvec_uniform_gamma1(
    gamma1: int,
    l: int,
    n: int,
    seed: Seq<u8>,
    nonce: int,
) -> Seq<Seq<int>> {
    Seq::new(
        n as nat,
        |k: int| spec_poly_uniform_gamma1(gamma1, seed, (l * nonce + k) as u16),
    )
}

/// The sum of the first `n` products of a polynomial of `u` with the
/// polynomial of `v` at the same place, each product taken place by place
/// with Montgomery reduction.
pub open spec fn spec_pointwise_acc(u: Seq<Seq<int>>, v: Seq<Seq<int>>, n: nat) -> Seq<int>
    decreases n,
{
    if n == 0 {
        spec_poly_zero()
    } else {
        spec_poly_add(
            spec_pointwise_acc(u, v, (n - 1) as nat),
            spec_poly_pointwise_montgomery(u[n - 1], v[n - 1]),
        )
    }
}

/// The product of the matrix with the vector `v`, in the transformed domain.
pub open spec fn spec_matrix_pointwise(mat: Seq<Seq<Seq<int>>>, v: Seq<Seq<int>>) -> Seq<
    Seq<int>,
> {
    Seq::new(mat.len(), |i: int| spec_pointwise_acc(mat[i], v, v.len()))
}

/// Entry `(i, j)` of the matrix that belongs to the seed `rho`, where the
/// entry was `before`.
pub open spec fn spec_matrix_entry(before: Seq<int>, rho: Seq<u8>, i: int, j: int) -> Seq<int> {
    spec_sampled_poly(before, spec_rej_uniform(spec_uniform_stream(rho, (256 * i + j) as u16)))
}

/// What `polyvec_matrix_expand` makes of the matrix `before`.
pub open spec fn spec_matrix_expand(before: Seq<Seq<Seq<int>>>, rho: Seq<u8>) -> Seq<
    Seq<Seq<int>>,
> {
    Seq::new(
        before.len(),
        |i: int|
            Seq::new(before[i].len(), |j: int| spec_matrix_entry(before[i][j], rho, i, j)),
    )
}

/// Whether the stream of entry `(i, j)` holds 256 values.
pub open spec fn spec_matrix_entry_filled(rho: Seq<u8>, i: int, j: int) -> bool {
    spec_rej_uniform(spec_uniform_stream(rho, (256 * i + j) as u16)).len() >= 256
}

/// Whether the streams of all entries before entry `(i, j)`, row by row, each
/// hold 256 values.
pub open spec fn spec_matrix_filled_to(shape: Seq<Seq<Seq<int>>>, rho: Seq<u8>, i: int, j: int) -> bool {
    forall|a: int, b: int|
        0 <= a < shape.len() && 0 <= b < shape[a].len() && (a < i || (a == i && b < j))
            ==> #[trigger] spec_matrix_entry_filled(rho, a, b)
}

/// The packed high parts of a vector: the packed polynomials, one after the
/// other.
pub open spec fn spec_polyvec_pack_w1(gamma2: int, v: Seq<Seq<int>>) -> Seq<u8> {
    spec_concat(Seq::new(v.len(), |k: int| spec_polyw1_pack(gamma2, v[k])))
}

/// Whether every coefficient of every polynomial fits `w` bits.
pub open spec fn spec_polyvec_plain_fits(v: Seq<Seq<int>>, w: int) -> bool {
    forall|k: int| 0 <= k < v.len() ==> spec_plain_fits(#[trigger] v[k], w)
}

/// Samples every polynomial of `v` as `poly_uniform_eta` does, polynomial `k`
/// with the nonce `nonce + k`. Returns whether every polynomial was filled.
pub fn polyvecl_uniform_eta<P: DilithiumParams>(v: &mut Polyvecl, seed: &[u8], nonce: u16) -> (filled: bool)
    requires
        seed.len() >= 64,
        nonce + old(v)@.len() <= 65536,
    ensures
        final(v)@ == spec_polyvec_uniform_eta(
            P::mode().spec_params().eta as int,
            old(v)@,
            seed@,
            nonce as int,
        ),
        final(v).mode() == old(v).mode(),
        filled == spec_polyvec_uniform_eta_filled(
            P::mode().spec_params().eta as int,
            old(v)@.len() as int,
            seed@,
            nonce as int,
        ),
        filled ==> spec_polyvec_in_range(
            final(v)@,
            -P::mode().spec_params().eta,
            P::mode().spec_params().eta as int,
        ),
{
    let ghost eta = P::mode().spec_params().eta as int;
    let ghost v0 = v@;
    let v_vec = vec_from_polyvecl_mut(v);
    let n: usize = v_vec.len();
    let mut filled: bool = true;
    let mut i: usize = 0;
    while i < n
        invariant
            i <= n,
            n == v_vec@.len(),
            n == v0.len(),
            n <= 8,
            seed.len() >= 64,
            nonce + n <= 65536,
            eta == P::mode().spec_params().eta as int,
            forall|k: int|
                0 <= k < i ==> (#[trigger] v_vec@[k])@ == spec_polyvec_uniform_eta(
                    eta,
                    v0,
                    seed@,
                    nonce as int,
                )[k],
            forall|k: int| i <= k < n ==> (#[trigger] v_vec@[k])@ == v0[k],
            filled == spec_polyvec_uniform_eta_filled(eta, i as int, seed@, nonce as int),
            filled ==> forall|k: int|
                0 <= k < i ==> spec_in_range((#[trigger] v_vec@[k])@, -eta, eta),
        decreases n - i,
    {
        proof {
            assert(v_vec@[i as int]@ == v0[i as int]);
        }
        let one: bool = poly_uniform_eta::<P>(&mut v_vec[i], seed, nonce + (i as u16));
        filled = filled && one;
        i += 1;
    }
    proof {
        assert(spec_views(v_vec@) =~= spec_polyvec_uniform_eta(eta, v0, seed@, nonce as int));
        if filled {
            assert forall|k: int| 0 <= k < spec_views(v_vec@).len() implies spec_in_range(
                #[trigger] spec_views(v_vec@)[k],
                -eta,
                eta,
            ) by {
                assert(spec_views(v_vec@)[k] == v_vec@[k]@);
            }
        }
    }
    filled
}

/// Samples every polynomial of `v` as `poly_uniform_eta` does, polynomial `k`
/// with the nonce `nonce + k`. Returns whether every polynomial was filled.
pub fn polyveck_uniform_eta<P: DilithiumParams>(v: &mut Polyveck, seed: &[u8], nonce: u16) -> (filled: bool)
    requires
        seed.len() >= 64,
        nonce + old(v)@.len() <= 65536,
    ensures
        final(v)@ == spec_polyvec_uniform_eta(
            P::mode().spec_params().eta as int,
            old(v)@,
            seed@,
            nonce as int,
        ),
        final(v).mode() == old(v).mode(),
        filled == spec_polyvec_uniform_eta_filled(
            P::mode().spec_params().eta as int,
            old(v)@.len() as int,
            seed@,
            nonce as int,
        ),
        filled ==> spec_polyvec_in_range(
            final(v)@,
            -P::mode().spec_params().eta,
            P::mode().spec_params().eta as int,
        ),
{
    let ghost eta = P::mode().spec_params().eta as int;
    let ghost v0 = v@;
    let v_vec = vec_from_polyveck_mut(v);
    let n: usize = v_vec.len();
    let mut filled: bool = true;
    let mut i: usize = 0;
    while i < n
        invariant
            i <= n,
            n == v_vec@.len(),
            n == v0.len(),
            n <= 8,
            seed.len() >= 64,
            nonce + n <= 65536,
            eta == P::mode().spec_params().eta as int,
            forall|k: int|
                0 <= k < i ==> (#[trigger] v_vec@[k])@ == spec_polyvec_uniform_eta(
                    eta,
                    v0,
                    seed@,
                    nonce as int,
                )[k],
            forall|k: int| i <= k < n ==> (#[trigger] v_vec@[k])@ == v0[k],
            filled == spec_polyvec_uniform_eta_filled(eta, i as int, seed@, nonce as int),
            filled ==> forall|k: int|
                0 <= k < i ==> spec_in_range((#[trigger] v_vec@[k])@, -eta, eta),
        decreases n - i,
    {
        proof {
            assert(v_vec@[i as int]@ == v0[i as int]);
        }
        let one: bool = poly_uniform_eta::<P>(&mut v_vec[i], seed, nonce + (i as u16));
        filled = filled && one;
        i += 1;
    }
    proof {
        assert(spec_views(v_vec@) =~= spec_polyvec_uniform_eta(eta, v0, seed@, nonce as int));
        if filled {
            assert forall|k: int| 0 <= k < spec_views(v_vec@).len() implies spec_in_range(
                #[trigger] spec_views(v_vec@)[k],
                -eta,
                eta,
            ) by {
                assert(spec_views(v_vec@)[k] == v_vec@[k]@);
            }
        }
    }
    filled
}

/// Samples every polynomial of the masking vector `v`, polynomial `k` with
/// the nonce `l * nonce + k`.
pub fn polyvecl_uniform_gamma1<P: DilithiumParams>(v: &mut Polyvecl, seed: &[u8], nonce: u16)
    requires
        seed.len() >= 64,
        P::mode().spec_params().l * nonce + old(v)@.len() <= 65536,
    ensures
        final(v)@ == spec_polyvec_uniform_gamma1(
            P::mode().spec_params().gamma1 as int,
            P::mode().spec_params().l as int,
            old(v)@.len() as int,
            seed@,
            nonce as int,
        ),
        final(v).mode() == old(v).mode(),
        spec_polyvec_in_range(
            final(v)@,
            -P::mode().spec_params().gamma1 + 1,
            P::mode().spec_params().gamma1 as int,
        ),
{
    let ghost gamma1 = P::mode().spec_params().gamma1 as int;
    let l: usize = P::algorithm().params().l;
    let ghost result = spec_polyvec_uniform_gamma1(
        gamma1,
        l as int,
        v@.len() as int,
        seed@,
        nonce as int,
    );
    let v_vec = vec_from_polyvecl_mut(v);
    let n: usize = v_vec.len();
    proof {
        assert(0 <= l * nonce) by (nonlinear_arith)
            requires
                0 <= l,
                0 <= nonce,
        ;
    }
    let base: usize = l * (nonce as usize);
    let mut i: usize = 0;
    while i < n
        invariant
            i <= n,
            n == v_vec@.len(),
            n <= 8,
            seed.len() >= 64,
            base == l * nonce,
            base + n <= 65536,
            gamma1 == P::mode().spec_params().gamma1 as int,
            result == spec_polyvec_uniform_gamma1(gamma1, l as int, n as int, seed@, nonce as int),
            forall|k: int| 0 <= k < i ==> (#[trigger] v_vec@[k])@ == result[k],
            forall|k: int|
                0 <= k < i ==> spec_in_range((#[trigger] v_vec@[k])@, -gamma1 + 1, gamma1),
        decreases n - i,
    {
        poly_uniform_gamma1::<P>(&mut v_vec[i], seed, (base + i) as u16);
        i += 1;
    }
    proof {
        assert(spec_views(v_vec@) =~= result);
        assert forall|k: int| 0 <= k < spec_views(v_vec@).len() implies spec_in_range(
            #[trigger] spec_views(v_vec@)[k],
            -gamma1 + 1,
            gamma1,
        ) by {
            assert(spec_views(v_vec@)[k] == v_vec@[k]@);
        }
    }
}

/// The sum over the places of the vectors of the products of the
/// polynomials of `u` and `v`, each product taken place by place with
/// Montgomery reduction.
pub fn polyvecl_pointwise_acc_montgomery<P: DilithiumParams>(
    w: &mut Poly,
    u: &Polyvecl,
    v: &Polyvecl,
)
    requires
        u.mode() == v.mode(),
        spec_polyvec_pairs_fit(u@, v@),
    ensures
        final(w)@ == spec_pointwise_acc(u@, v@, u@.len()),
        spec_in_range(final(w)@, -8380416 * (u@.len() as int), 8380416 * (u@.len() as int)),
{
    let u_vec = vec_from_polyvecl(u);
    let v_vec = vec_from_polyvecl(v);
    let n: usize = u_vec.len();
    let mut t = Poly::default();
    *w = Poly::default();
    let mut i: usize = 0;
    while i < n
        invariant
            i <= n,
            n <= 8,
            n == u_vec@.len(),
            n == v_vec@.len(),
            u_vec@ == u.polys(),
            v_vec@ == v.polys(),
            spec_polyvec_pairs_fit(u@, v@),
            w@ == spec_pointwise_acc(u@, v@, i as nat),
            spec_in_range(w@, -8380416 * i, 8380416 * i),
        decreases n - i,
    {
        proof {
            assert(u@[i as int] == u_vec@[i as int]@);
            assert(v@[i as int] == v_vec@[i as int]@);
        }
        poly_pointwise_montgomery::<P>(&mut t, &u_vec[i], &v_vec[i]);
        let tmp = *w;
        proof {
            assert forall|j: int| 0 <= j < 256 implies -0x8000_0000 <= #[trigger] tmp@[j] + t@[j]
                <= 0x7fff_ffff by {
                assert(-8380416 * i <= tmp@[j] <= 8380416 * i);
                assert(-8380416 <= t@[j] <= 8380416);
            }
        }
        poly_add(w, &tmp, &t);
        proof {
            assert forall|j: int| 0 <= j < w@.len() implies -8380416 * (i + 1) <= #[trigger] w@[j]
                <= 8380416 * (i + 1) by {
                assert(-8380416 * i <= tmp@[j] <= 8380416 * i);
                assert(-8380416 <= t@[j] <= 8380416);
            }
        }
        i += 1;
    }
}

/// The product of the matrix with the vector `v`, in the transformed domain:
/// polynomial `i` of `t` is the sum of the products of row `i` with `v`.
pub fn polyvec_matrix_pointwise_montgomery<P: DilithiumParams>(
    t: &mut Polyveck,
    mat: &[Polyvecl],
    v: &Polyvecl,
)
    requires
        mat@.len() == old(t)@.len(),
        forall|i: int| 0 <= i < mat@.len() ==> (#[trigger] mat@[i]).mode() == v.mode(),
        forall|i: int| 0 <= i < mat@.len() ==> spec_polyvec_pairs_fit((#[trigger] mat@[i])@, v@),
    ensures
        final(t)@ == spec_matrix_pointwise(crate::params::spec_row_views(mat@), v@),
        final(t).mode() == old(t).mode(),
        spec_polyvec_in_range(
            final(t)@,
            -8380416 * (v@.len() as int),
            8380416 * (v@.len() as int),
        ),
{
    let ghost result = spec_matrix_pointwise(crate::params::spec_row_views(mat@), v@);
    let ghost l = v@.len() as int;
    let t_vec = vec_from_polyveck_mut(t);
    let n: usize = t_vec.len();
    let mut i: usize = 0;
    while i < n
        invariant
            i <= n,
            n == t_vec@.len(),
            n == mat@.len(),
            l == v@.len(),
            result == spec_matrix_pointwise(crate::params::spec_row_views(mat@), v@),
            forall|k: int| 0 <= k < mat@.len() ==> (#[trigger] mat@[k]).mode() == v.mode(),
            forall|k: int|
                0 <= k < mat@.len() ==> spec_polyvec_pairs_fit((#[trigger] mat@[k])@, v@),
            forall|k: int| 0 <= k < i ==> (#[trigger] t_vec@[k])@ == result[k],
            forall|k: int|
                0 <= k < i ==> spec_in_range((#[trigger] t_vec@[k])@, -8380416 * l, 8380416 * l),
        decreases n - i,
    {
        proof {
            assert(mat@[i as int].mode() == v.mode());
            assert(spec_polyvec_pairs_fit(mat@[i as int]@, v@));
            assert(mat@[i as int]@.len() == v@.len());
        }
        polyvecl_pointwise_acc_montgomery::<P>(&mut t_vec[i], &mat[i], v);
        i += 1;
    }
    proof {
        assert(spec_views(t_vec@) =~= result);
        assert forall|k: int| 0 <= k < spec_views(t_vec@).len() implies spec_in_range(
            #[trigger] spec_views(t_vec@)[k],
            -8380416 * l,
            8380416 * l,
        ) by {
            assert(spec_views(t_vec@)[k] == t_vec@[k]@);
        }
    }
}

/// Samples every entry of the matrix from the seed `rho` as `poly_uniform`
/// does, entry `(i, j)` with the nonce `256 * i + j`. Returns whether every
/// entry was filled.
pub fn polyvec_matrix_expand<P: DilithiumParams>(mat: &mut [Polyvecl], rho: &[u8]) -> (filled:
    bool)
    requires
        old(mat)@.len() <= 256,
    ensures
        final(mat)@.len() == old(mat)@.len(),
        crate::params::spec_row_views(final(mat)@) == spec_matrix_expand(
            crate::params::spec_row_views(old(mat)@),
            rho@,
        ),
        forall|i: int|
            0 <= i < old(mat)@.len() ==> (#[trigger] final(mat)@[i]).mode() == old(mat)@[i].mode(),
        filled == spec_matrix_filled_to(
            crate::params::spec_row_views(old(mat)@),
            rho@,
            old(mat)@.len() as int,
            0,
        ),
        filled ==> forall|i: int|
            0 <= i < old(mat)@.len() ==> spec_polyvec_in_range(
                (#[trigger] final(mat)@[i])@,
                0,
                8380416,
            ),
{
    let ghost m0 = mat@;
    let ghost shape = crate::params::spec_row_views(mat@);
    let ghost result = spec_matrix_expand(shape, rho@);
    let rows: usize = mat.len();
    let mut filled: bool = true;
    let mut i: usize = 0;
    while i < rows
        invariant
            i <= rows,
            rows == mat@.len(),
            rows == m0.len(),
            rows <= 256,
            shape == crate::params::spec_row_views(m0),
            result == spec_matrix_expand(shape, rho@),
            forall|a: int| 0 <= a < rows ==> (#[trigger] mat@[a]).mode() == m0[a].mode(),
            forall|a: int| 0 <= a < i ==> (#[trigger] mat@[a])@ == result[a],
            forall|a: int| i <= a < rows ==> (#[trigger] mat@[a]) == m0[a],
            filled == spec_matrix_filled_to(shape, rho@, i as int, 0),
            filled ==> forall|a: int|
                0 <= a < i ==> spec_polyvec_in_range((#[trigger] mat@[a])@, 0, 8380416),
        decreases rows - i,
    {
        let ghost row0 = mat@[i as int]@;
        let ghost before_rows = mat@;
        proof {
            assert(shape[i as int] == m0[i as int]@);
        }
        let row_vec = vec_from_polyvecl_mut(&mut mat[i]);
        let cols: usize = row_vec.len();
        let mut j: usize = 0;
        while j < cols
            invariant
                j <= cols,
                cols <= 8,
                i < rows <= 256,
                cols == row_vec@.len(),
                cols == row0.len(),
                row0 == shape[i as int],
                i < shape.len(),
                result == spec_matrix_expand(shape, rho@),
                forall|b: int| 0 <= b < j ==> (#[trigger] row_vec@[b])@ == result[i as int][b],
                forall|b: int| j <= b < cols ==> (#[trigger] row_vec@[b])@ == row0[b],
                filled == spec_matrix_filled_to(shape, rho@, i as int, j as int),
                filled ==> forall|b: int|
                    0 <= b < j ==> spec_in_range((#[trigger] row_vec@[b])@, 0, 8380416),
            decreases cols - j,
        {
            proof {
                assert(row_vec@[j as int]@ == row0[j as int]);
            }
            let one: bool = poly_uniform::<P>(&mut row_vec[j], rho, (256 * i + j) as u16);
            proof {
                let was = filled;
                assert(one == spec_matrix_entry_filled(rho@, i as int, j as int));
                if was && one {
                    assert forall|a: int, b: int|
                        0 <= a < shape.len() && 0 <= b < shape[a].len() && (a < i || (a == i && b
                            < j + 1)) implies #[trigger] spec_matrix_entry_filled(rho@, a, b) by {
                        if a == i && b == j {
                        } else {
                            assert(a < i || (a == i && b < j));
                        }
                    }
                }
            }
            filled = filled && one;
            j += 1;
        }
        proof {
            assert(spec_views(row_vec@) =~= result[i as int]);
            if filled {
                assert forall|b: int| 0 <= b < spec_views(row_vec@).len() implies spec_in_range(
                    #[trigger] spec_views(row_vec@)[b],
                    0,
                    8380416,
                ) by {
                    assert(spec_views(row_vec@)[b] == row_vec@[b]@);
                }
            }
            assert(spec_matrix_filled_to(shape, rho@, i as int, cols as int)
                == spec_matrix_filled_to(shape, rho@, i + 1, 0)) by {
                if spec_matrix_filled_to(shape, rho@, i as int, cols as int) {
                    assert forall|a: int, b: int|
                        0 <= a < shape.len() && 0 <= b < shape[a].len() && (a < i + 1 || (a == i
                            + 1 && b < 0)) implies #[trigger] spec_matrix_entry_filled(rho@, a, b) by {
                        assert(a < i || (a == i && b < cols));
                    }
                }
                if spec_matrix_filled_to(shape, rho@, i + 1, 0) {
                    assert forall|a: int, b: int|
                        0 <= a < shape.len() && 0 <= b < shape[a].len() && (a < i || (a == i && b
                            < cols)) implies #[trigger] spec_matrix_entry_filled(rho@, a, b) by {
                        assert(a < i + 1 || (a == i + 1 && b < 0));
                    }
                }
            }
        }
        i += 1;
    }
    proof {
        assert(crate::params::spec_row_views(mat@) =~= result);
    }
    filled
}

/// Packs the high parts `w1` into the first bytes of `r`, polynomial after
/// polynomial.
pub fn polyveck_pack_w1<P: DilithiumParams>(r: &mut [u8], w1: &Polyveck)
    requires
        w1.mode() == P::mode(),
        old(r).len() >= P::mode().spec_params().k * P::mode().spec_params().polyw1_packedbytes,
        spec_polyvec_plain_fits(w1@, spec_w1_bits(P::mode().spec_params().gamma2 as int)),
    ensures
        final(r).len() == old(r).len(),
        final(r)@.take(
            P::mode().spec_params().k * P::mode().spec_params().polyw1_packedbytes,
        ) == spec_polyvec_pack_w1(P::mode().spec_params().gamma2 as int, w1@),
        final(r)@.skip(
            P::mode().spec_params().k * P::mode().spec_params().polyw1_packedbytes,
        ) == old(r)@.skip(
            P::mode().spec_params().k * P::mode().spec_params().polyw1_packedbytes,
        ),
{
    let ghost gamma2 = P::mode().spec_params().gamma2 as int;
    let ghost parts = Seq::new(w1@.len(), |k: int| spec_polyw1_pack(gamma2, w1@[k]));
    let w1_vec = vec_from_polyveck(w1);
    let n: usize = w1_vec.len();
    let nb: usize = P::polyw1_packedbytes();
    let ghost total = (P::mode().spec_params().k * P::mode().spec_params().polyw1_packedbytes) as int;
    let mut offset: usize = 0;
    let mut i: usize = 0;
    proof {
        assert(parts.take(0) =~= Seq::<Seq<u8>>::empty());
        assert(r@.take(0) =~= Seq::<u8>::empty());
    }
    while i < n
        invariant
            i <= n,
            n == w1_vec@.len(),
            w1_vec@ == w1.polys(),
            n == P::mode().spec_params().k,
            nb == P::mode().spec_params().polyw1_packedbytes,
            gamma2 == P::mode().spec_params().gamma2 as int,
            total == n * nb,
            offset == i * nb,
            offset <= total,
            total <= r.len(),
            r.len() == old(r).len(),
            parts == Seq::new(w1@.len(), |k: int| spec_polyw1_pack(gamma2, w1@[k])),
            spec_polyvec_plain_fits(w1@, spec_w1_bits(gamma2)),
            r@.take(offset as int) == spec_concat(parts.take(i as int)),
            r@.skip(total) == old(r)@.skip(total),
        decreases n - i,
    {
        let ghost before = r@;
        proof {
            assert(w1@[i as int] == w1_vec@[i as int]@);
            assert((i + 1) * nb == i * nb + nb && (i + 1) * nb <= n * nb) by (nonlinear_arith)
                requires
                    i < n,
                    0 <= nb,
            ;
        }
        let (head, tail) = r.split_at_mut(offset);
        let ghost tail_before = tail@;
        polyw1_pack::<P>(tail, &w1_vec[i]);
        let ghost tail_after = tail@;
        let ghost head_after = head@;
        proof {
            assert(parts.take(i + 1).drop_last() =~= parts.take(i as int));
            assert(r@ == head_after + tail_after);
            assert forall|x: int| offset + nb <= x < r@.len() implies r@[x] == before[x] by {
                assert(tail_after.skip(nb as int)[x - offset - nb] == tail_before.skip(
                    nb as int,
                )[x - offset - nb]);
            }
            assert forall|x: int| offset <= x < offset + nb implies r@[x] == parts[i as int][x
                - offset] by {
                assert(tail_after.take(nb as int)[x - offset] == parts[i as int][x - offset]);
            }
            assert(r@.take(offset + nb) =~= before.take(offset as int) + parts[i as int]);
            assert(r@.skip(total) =~= before.skip(total));
        }
        offset += nb;
        i += 1;
    }
    proof {
        assert(parts.take(n as int) =~= parts);
    }
}

/// Whether every polynomial of `v` has 256 coefficients.
pub open spec fn spec_polyvec_wf(v: Seq<Seq<int>>) -> bool {
    forall|k: int| 0 <= k < v.len() ==> (#[trigger] v[k]).len() == 256
}

/// The coefficient sequences of polynomials have 256 entries each.
pub proof fn lemma_views_wf(polys: Seq<Poly>)
    ensures
        spec_polyvec_wf(spec_views(polys)),
        spec_views(polys).len() == polys.len(),
{
    assert forall|k: int| 0 <= k < spec_views(polys).len() implies (#[trigger] spec_views(
        polys,
    )[k]).len() == 256 by {
        assert(spec_views(polys)[k] == polys[k]@);
    }
}

/// Coefficients in `[lo, hi]` lie in every wider range.
pub proof fn lemma_polyvec_widen(v: Seq<Seq<int>>, lo: int, hi: int, lo2: int, hi2: int)
    requires
        spec_polyvec_in_range(v, lo, hi),
        lo2 <= lo,
        hi <= hi2,
    ensures
        spec_polyvec_in_range(v, lo2, hi2),
{
    assert forall|k: int| 0 <= k < v.len() implies spec_in_range(#[trigger] v[k], lo2, hi2) by {
        assert(spec_in_range(v[k], lo, hi));
    }
}

/// The forward transform adds less than `8 * Q` to the bound of the
/// coefficients.
pub proof fn lemma_polyvec_ntt_range(v: Seq<Seq<int>>, b: int)
    requires
        spec_polyvec_wf(v),
        0 <= b <= NTT_INPUT_BOUND,
        spec_polyvec_in_range(v, -b, b),
    ensures
        spec_polyvec_in_range(spec_polyvec_ntt(v), -(b + 8 * 8380417), b + 8 * 8380417),
        spec_polyvec_wf(spec_polyvec_ntt(v)),
        spec_polyvec_ntt(v).len() == v.len(),
{
    assert forall|k: int| 0 <= k < v.len() implies spec_in_range(
        #[trigger] spec_polyvec_ntt(v)[k],
        -(b + 8 * 8380417),
        b + 8 * 8380417,
    ) && spec_polyvec_ntt(v)[k].len() == 256 by {
        assert(spec_in_range(v[k], -b, b));
        crate::ntt::lemma_ntt_bound(v[k], b);
    }
}

/// Polynomials within `bu` and within `bv` have products that can be
/// Montgomery-reduced where `bu * bv < 2^31 * Q`.
pub proof fn lemma_polyvec_pairs_fit(u: Seq<Seq<int>>, v: Seq<Seq<int>>, bu: int, bv: int)
    requires
        u.len() == v.len(),
        spec_polyvec_wf(u),
        spec_polyvec_wf(v),
        spec_polyvec_in_range(u, -bu, bu),
        spec_polyvec_in_range(v, -bv, bv),
        0 <= bu,
        0 <= bv,
        bu * bv < 0x8000_0000 * 8380417,
    ensures
        spec_polyvec_pairs_fit(u, v),
{
    assert forall|k: int| 0 <= k < u.len() implies spec_products_fit(#[trigger] u[k], v[k]) by {
        assert(spec_in_range(u[k], -bu, bu));
        assert(spec_in_range(v[k], -bv, bv));
        crate::poly::lemma_products_fit(u[k], v[k], bu, bv);
    }
}

/// A polynomial within `ba` and a vector within `bv` have products that can
/// be Montgomery-reduced where `ba * bv < 2^31 * Q`.
pub proof fn lemma_polyvec_products_fit(a: Seq<int>, v: Seq<Seq<int>>, ba: int, bv: int)
    requires
        a.len() == 256,
        spec_polyvec_wf(v),
        spec_in_range(a, -ba, ba),
        spec_polyvec_in_range(v, -bv, bv),
        0 <= ba,
        0 <= bv,
        ba * bv < 0x8000_0000 * 8380417,
    ensures
        spec_polyvec_products_fit(a, v),
{
    assert forall|k: int| 0 <= k < v.len() implies spec_products_fit(a, #[trigger] v[k]) by {
        assert(spec_in_range(v[k], -bv, bv));
        crate::poly::lemma_products_fit(a, v[k], ba, bv);
    }
}

/// Vectors within `bu` and within `bv` have sums and differences that fit a
/// machine integer where `bu + bv < 2^31`, and these lie within `bu + bv`.
pub proof fn lemma_polyvec_sums(u: Seq<Seq<int>>, v: Seq<Seq<int>>, bu: int, bv: int)
    requires
        u.len() == v.len(),
        spec_polyvec_wf(u),
        spec_polyvec_wf(v),
        spec_polyvec_in_range(u, -bu, bu),
        spec_polyvec_in_range(v, -bv, bv),
        bu + bv <= 0x7fff_ffff,
    ensures
        spec_polyvec_sums_fit(u, v),
        spec_polyvec_differences_fit(u, v),
        spec_polyvec_in_range(spec_polyvec_add(u, v), -(bu + bv), bu + bv),
        spec_polyvec_in_range(spec_polyvec_sub(u, v), -(bu + bv), bu + bv),
{
    assert forall|k: int| 0 <= k < u.len() implies spec_sums_fit(#[trigger] u[k], v[k])
        && spec_differences_fit(u[k], v[k]) by {
        assert(spec_in_range(u[k], -bu, bu));
        assert(spec_in_range(v[k], -bv, bv));
        assert forall|i: int| 0 <= i < 256 implies -0x8000_0000 <= #[trigger] (u[k][i] + v[k][i])
            <= 0x7fff_ffff && -0x8000_0000 <= #[trigger] (u[k][i] - v[k][i]) <= 0x7fff_ffff by {
            assert(-bu <= u[k][i] <= bu);
            assert(-bv <= v[k][i] <= bv);
        }
    }
    assert forall|k: int| 0 <= k < u.len() implies spec_in_range(
        #[trigger] spec_polyvec_add(u, v)[k],
        -(bu + bv),
        bu + bv,
    ) && spec_in_range(spec_polyvec_sub(u, v)[k], -(bu + bv), bu + bv) by {
        assert(spec_in_range(u[k], -bu, bu));
        assert(spec_in_range(v[k], -bv, bv));
        assert forall|i: int| 0 <= i < 256 implies -(bu + bv) <= #[trigger] spec_poly_add(
            u[k],
            v[k],
        )[i] <= bu + bv && -(bu + bv) <= spec_poly_sub(u[k], v[k])[i] <= bu + bv by {
            assert(-bu <= u[k][i] <= bu);
            assert(-bv <= v[k][i] <= bv);
        }
    }
}

/// Adding `Q` to the negative coefficients of a vector within `(-Q, Q)` gives
/// standard representatives.
pub proof fn lemma_polyvec_caddq_range(v: Seq<Seq<int>>)
    requires
        spec_polyvec_wf(v),
        spec_polyvec_in_range(v, -8380416, 8380416),
    ensures
        spec_polyvec_in_range(spec_polyvec_caddq(v), 0, 8380416),
{
    assert forall|k: int| 0 <= k < v.len() implies spec_in_range(
        #[trigger] spec_polyvec_caddq(v)[k],
        0,
        8380416,
    ) by {
        assert(spec_in_range(v[k], -8380416, 8380416));
        assert forall|i: int| 0 <= i < 256 implies 0 <= #[trigger] spec_poly_caddq(v[k])[i]
            <= 8380416 by {
            assert(-8380416 <= v[k][i] <= 8380416);
        }
    }
}

/// The high parts of standard representatives with respect to `2^13` fit ten
/// bits, and the low parts lie in `(-2^12, 2^12]`.
pub proof fn lemma_polyvec_power2round_range(v: Seq<Seq<int>>)
    requires
        spec_polyvec_wf(v),
        spec_polyvec_in_range(v, 0, 8380416),
    ensures
        spec_polyvec_in_range(spec_polyvec_power2round_high(v), 0, 1023),
        spec_polyvec_in_range(spec_polyvec_power2round_low(v), -4095, 4096),
{
    assert forall|k: int| 0 <= k < v.len() implies spec_in_range(
        #[trigger] spec_polyvec_power2round_high(v)[k],
        0,
        1023,
    ) by {
        assert(spec_in_range(v[k], 0, 8380416));
        assert forall|i: int| 0 <= i < 256 implies 0 <= #[trigger] spec_poly_power2round_high(
            v[k],
        )[i] <= 1023 by {
            assert(0 <= v[k][i] <= 8380416);
        }
    }
    assert forall|k: int| 0 <= k < v.len() implies spec_in_range(
        #[trigger] spec_polyvec_power2round_low(v)[k],
        -4095,
        4096,
    ) by {
        assert forall|i: int| 0 <= i < 256 implies -4095 <= #[trigger] spec_poly_power2round_low(
            v[k],
        )[i] <= 4096 by {}
    }
}

/// The high parts of standard representatives are below their number, and
/// the low parts lie in `[-gamma2, gamma2]`.
pub proof fn lemma_polyvec_decompose_range(gamma2: int, v: Seq<Seq<int>>)
    requires
        gamma2 == 95232 || gamma2 == 261888,
        spec_polyvec_wf(v),
        spec_polyvec_in_range(v, 0, 8380416),
    ensures
        spec_polyvec_in_range(
            spec_polyvec_decompose_high(gamma2, v),
            0,
            spec_high_parts(gamma2) - 1,
        ),
        spec_polyvec_in_range(spec_polyvec_decompose_low(gamma2, v), -gamma2, gamma2),
        spec_polyvec_wf(spec_polyvec_decompose_high(gamma2, v)),
        spec_polyvec_wf(spec_polyvec_decompose_low(gamma2, v)),
{
    assert forall|k: int| 0 <= k < v.len() implies spec_in_range(
        #[trigger] spec_polyvec_decompose_high(gamma2, v)[k],
        0,
        spec_high_parts(gamma2) - 1,
    ) && spec_in_range(spec_polyvec_decompose_low(gamma2, v)[k], -gamma2, gamma2) by {
        assert(spec_in_range(v[k], 0, 8380416));
        assert forall|i: int| 0 <= i < 256 implies 0 <= #[trigger] spec_poly_decompose_high(
            gamma2,
            v[k],
        )[i] <= spec_high_parts(gamma2) - 1 && -gamma2 <= spec_poly_decompose_low(gamma2, v[k])[i]
            <= gamma2 by {
            assert(0 <= v[k][i] <= 8380416);
            crate::rounding::lemma_decompose_recomposes(gamma2, v[k][i]);
        }
    }
}

/// Where no coefficient reaches `b` in absolute value, all lie within `b - 1`.
pub proof fn lemma_polyvec_norm_below(v: Seq<Seq<int>>, b: int)
    requires
        !spec_polyvec_norm_reaches(v, b),
    ensures
        spec_polyvec_in_range(v, -(b - 1), b - 1),
{
    assert forall|k: int| 0 <= k < v.len() implies spec_in_range(
        #[trigger] v[k],
        -(b - 1),
        b - 1,
    ) by {
        assert(!spec_norm_reaches(v[k], b));
        assert forall|i: int| 0 <= i < v[k].len() implies -(b - 1) <= #[trigger] v[k][i] <= b
            - 1 by {
            if v[k][i] >= b || -v[k][i] >= b {
                assert(spec_norm_reaches(v[k], b));
            }
        }
    }
}

/// Ten-bit coefficients times `2^13` are at most `Q - 1`.
pub proof fn lemma_polyvec_shiftl_range(v: Seq<Seq<int>>)
    requires
        spec_polyvec_wf(v),
        spec_polyvec_in_range(v, 0, 1023),
    ensures
        spec_polyvec_in_range(spec_polyvec_shiftl(v), 0, 8380416),
        spec_polyvec_wf(spec_polyvec_shiftl(v)),
{
    assert forall|k: int| 0 <= k < v.len() implies spec_in_range(
        #[trigger] spec_polyvec_shiftl(v)[k],
        0,
        8380416,
    ) by {
        assert(spec_in_range(v[k], 0, 1023));
        assert forall|i: int| 0 <= i < 256 implies 0 <= #[trigger] spec_poly_shiftl(v[k])[i]
            <= 8380416 by {
            assert(0 <= v[k][i] <= 1023);
        }
    }
}

/// The sum of the coefficients of a polynomial of zeros and ones is the
/// number of its nonzero places.
pub proof fn lemma_sum_counts(p: Seq<int>, n: nat)
    requires
        n <= p.len(),
        spec_in_range(p, 0, 1),
    ensures
        spec_sum(p.take(n as int)) == crate::packing::spec_nonzero_positions(p, n).len(),
    decreases n,
{
    if n > 0 {
        lemma_sum_counts(p, (n - 1) as nat);
        assert(p.take(n as int).drop_last() =~= p.take(n - 1));
        assert(0 <= p[n - 1] <= 1);
    } else {
        assert(p.take(0) =~= Seq::<int>::empty());
    }
}

/// The sum of the coefficients of a vector of zeros and ones is the number of
/// its hints.
pub proof fn lemma_polyvec_sum_counts(h: Seq<Seq<int>>, rows: nat)
    requires
        rows <= h.len(),
        spec_polyvec_wf(h),
        spec_polyvec_in_range(h, 0, 1),
    ensures
        spec_polyvec_sum(h.take(rows as int)) == crate::packing::spec_hint_positions(
            h,
            rows,
        ).len(),
    decreases rows,
{
    if rows > 0 {
        lemma_polyvec_sum_counts(h, (rows - 1) as nat);
        assert(h.take(rows as int).drop_last() =~= h.take(rows - 1));
        assert(spec_in_range(h[rows - 1], 0, 1));
        lemma_sum_counts(h[rows - 1], 256);
        assert(h[rows - 1].take(256) =~= h[rows - 1]);
    } else {
        assert(h.take(0) =~= Seq::<Seq<int>>::empty());
    }
}

/// Hints are zeros and ones.
pub proof fn lemma_polyvec_make_hint_range(gamma2: int, v0: Seq<Seq<int>>, v1: Seq<Seq<int>>)
    ensures
        spec_polyvec_in_range(spec_polyvec_make_hint(gamma2, v0, v1), 0, 1),
        spec_polyvec_wf(spec_polyvec_make_hint(gamma2, v0, v1)),
{
    assert forall|k: int| 0 <= k < v0.len() implies spec_in_range(
        #[trigger] spec_polyvec_make_hint(gamma2, v0, v1)[k],
        0,
        1,
    ) by {
        assert forall|i: int| 0 <= i < 256 implies 0 <= #[trigger] spec_poly_make_hint(
            gamma2,
            v0[k],
            v1[k],
        )[i] <= 1 by {}
    }
}

} // verus!
