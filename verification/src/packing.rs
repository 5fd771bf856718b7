use vstd::prelude::*;
use crate::objects::{Algorithm, DilithiumError};
use crate::params::{lemma_params_derived, DilithiumParams, ParameterSet};
use crate::poly::{spec_in_range, Poly};
use crate::polypack::{
    lemma_concat_len, polyeta_pack, polyeta_unpack, polyt0_pack, polyt0_unpack, polyt1_pack,
    polyt1_unpack, polyz_pack, polyz_unpack, spec_concat, spec_eta_bits, spec_gamma1_bits,
    spec_offset_fits, spec_plain_fits, spec_polyeta_pack, spec_polyeta_unpack, spec_polyt0_pack,
    spec_polyt0_unpack, spec_polyt1_pack, spec_polyt1_unpack, spec_polyz_pack,
    spec_polyz_unpack,
};
use crate::polyvec::{
    spec_polyvec_in_range, spec_views, vec_from_polyveck, vec_from_polyveck_mut,
    vec_from_polyvecl, vec_from_polyvecl_mut, Polyveck, Polyvecl,
};

verus! {

/// Copies the first `n` bytes of `src` into `dst` from place `offset` on.
pub fn write_bytes(dst: &mut [u8], offset: usize, src: &[u8], n: usize)
    requires
        n <= src.len(),
        offset + n <= old(dst).len(),
    ensures
        final(dst).len() == old(dst).len(),
        final(dst)@ == old(dst)@.take(offset as int) + src@.take(n as int) + old(dst)@.skip(
            offset + n,
        ),
{
    let mut i: usize = 0;
    while i < n
        invariant
            i <= n,
            n <= src.len(),
            offset + n <= dst.len(),
            dst.len() == old(dst).len(),
            forall|x: int| 0 <= x < offset ==> #[trigger] dst@[x] == old(dst)@[x],
            forall|x: int| offset <= x < offset + i ==> #[trigger] dst@[x] == src@[x - offset],
            forall|x: int| offset + i <= x < dst.len() ==> #[trigger] dst@[x] == old(dst)@[x],
        decreases n - i,
    {
        dst[offset + i] = src[i];
        i += 1;
    }
    assert(dst@ =~= old(dst)@.take(offset as int) + src@.take(n as int) + old(dst)@.skip(
        offset + n,
    ));
}

/// The packed polynomials of `v`, one after the other.
pub open spec fn spec_pack_polys_t1(v: Seq<Seq<int>>) -> Seq<u8> {
    spec_concat(Seq::new(v.len(), |k: int| spec_polyt1_pack(v[k])))
}

/// The `n` polynomials that `bytes` holds one after the other.
pub open spec fn spec_unpack_polys_t1(bytes: Seq<u8>, n: int) -> Seq<Seq<int>> {
    Seq::new(
        n as nat,
        |k: int| spec_polyt1_unpack(bytes.subrange(320 * k, 320 * (k + 1))),
    )
}

/// The packed polynomials of `v`, one after the other.
pub open spec fn spec_pack_polys_t0(v: Seq<Seq<int>>) -> Seq<u8> {
    spec_concat(Seq::new(v.len(), |k: int| spec_polyt0_pack(v[k])))
}

/// The `n` polynomials that `bytes` holds one after the other.
pub open spec fn spec_unpack_polys_t0(bytes: Seq<u8>, n: int) -> Seq<Seq<int>> {
    Seq::new(
        n as nat,
        |k: int| spec_polyt0_unpack(bytes.subrange(416 * k, 416 * (k + 1))),
    )
}

/// The packed polynomials of `v`, one after the other.
pub open spec fn spec_pack_polys_eta(eta: int, v: Seq<Seq<int>>) -> Seq<u8> {
    spec_concat(Seq::new(v.len(), |k: int| spec_polyeta_pack(eta, v[k])))
}

/// The `n` polynomials that `bytes` holds one after the other.
pub open spec fn spec_unpack_polys_eta(eta: int, bytes: Seq<u8>, n: int) -> Seq<Seq<int>> {
    Seq::new(
        n as nat,
        |k: int| spec_polyeta_unpack(eta, bytes.subrange((32 * spec_eta_bits(eta)) * k, (32 * spec_eta_bits(eta)) * (k + 1))),
    )
}

/// The packed polynomials of `v`, one after the other.
pub open spec fn spec_pack_polys_z(gamma1: int, v: Seq<Seq<int>>) -> Seq<u8> {
    spec_concat(Seq::new(v.len(), |k: int| spec_polyz_pack(gamma1, v[k])))
}

/// The `n` polynomials that `bytes` holds one after the other.
pub open spec fn spec_unpack_polys_z(gamma1: int, bytes: Seq<u8>, n: int) -> Seq<Seq<int>> {
    Seq::new(
        n as nat,
        |k: int| spec_polyz_unpack(gamma1, bytes.subrange((32 * spec_gamma1_bits(gamma1)) * k, (32 * spec_gamma1_bits(gamma1)) * (k + 1))),
    )
}

fn pack_polys_t1(dst: &mut [u8], offset: usize, polys: &[Poly])
    requires
        polys@.len() <= 8,
        offset + polys@.len() * 320 <= old(dst).len(),
        forall|k: int| 0 <= k < polys@.len() ==> spec_plain_fits((#[trigger] polys@[k])@, 10),
    ensures
        final(dst).len() == old(dst).len(),
        final(dst)@ == old(dst)@.take(offset as int) + spec_pack_polys_t1(spec_views(polys@))
            + old(dst)@.skip(offset + polys@.len() * 320),
        spec_pack_polys_t1(spec_views(polys@)).len() == polys@.len() * 320,
{
    let ghost d0 = dst@;
    let ghost parts = Seq::new(
        polys@.len(),
        |k: int| spec_polyt1_pack(spec_views(polys@)[k]),
    );
    let nb: usize = 320;
    let n: usize = polys.len();
    let mut pos: usize = offset;
    let mut i: usize = 0;
    proof {
        assert(parts.take(0) =~= Seq::<Seq<u8>>::empty());
        assert(dst@ =~= d0.take(offset as int) + spec_concat(parts.take(0)) + d0.skip(
            offset as int,
        ));
        assert(n * nb >= 0) by (nonlinear_arith)
            requires
                n >= 0,
                nb >= 0,
        ;
    }
    while i < n
        invariant
            i <= n,
            n == polys@.len(),
            n <= 8,
            nb == 320,
            nb <= 640,
            pos == offset + i * nb,
            offset + n * nb <= dst.len(),
            dst.len() == d0.len(),
            forall|k: int| 0 <= k < polys@.len() ==> spec_plain_fits((#[trigger] polys@[k])@, 10),
            parts == Seq::new(
                polys@.len(),
                |k: int| spec_polyt1_pack(spec_views(polys@)[k]),
            ),
            forall|k: int| 0 <= k < i ==> (#[trigger] parts[k]).len() == nb,
            dst@ == d0.take(offset as int) + spec_concat(parts.take(i as int)) + d0.skip(
                pos as int,
            ),
        decreases n - i,
    {
        let ghost before = dst@;
        proof {
            assert((i + 1) * nb == i * nb + nb && (i + 1) * nb <= n * nb) by (nonlinear_arith)
                requires
                    i < n,
                    0 <= nb,
            ;
        }
        let mut tmp: [u8; 640] = [0u8; 640];
        polyt1_pack(&mut tmp, &polys[i]);
        write_bytes(dst, pos, &tmp, nb);
        proof {
            assert(parts[i as int] == tmp@.take(nb as int));
            assert(parts.take(i + 1).drop_last() =~= parts.take(i as int));
            lemma_concat_len(parts.take(i as int), nb as int);
            assert(dst@ =~= d0.take(offset as int) + spec_concat(parts.take(i + 1)) + d0.skip(
                pos + nb,
            ));
        }
        pos += nb;
        i += 1;
    }
    proof {
        assert(parts.take(n as int) =~= parts);
        lemma_concat_len(parts, nb as int);
    }
}

fn pack_polys_t0(dst: &mut [u8], offset: usize, polys: &[Poly])
    requires
        polys@.len() <= 8,
        offset + polys@.len() * 416 <= old(dst).len(),
        forall|k: int| 0 <= k < polys@.len() ==> spec_offset_fits(4096, (#[trigger] polys@[k])@, 13),
    ensures
        final(dst).len() == old(dst).len(),
        final(dst)@ == old(dst)@.take(offset as int) + spec_pack_polys_t0(spec_views(polys@))
            + old(dst)@.skip(offset + polys@.len() * 416),
        spec_pack_polys_t0(spec_views(polys@)).len() == polys@.len() * 416,
{
    let ghost d0 = dst@;
    let ghost parts = Seq::new(
        polys@.len(),
        |k: int| spec_polyt0_pack(spec_views(polys@)[k]),
    );
    let nb: usize = 416;
    let n: usize = polys.len();
    let mut pos: usize = offset;
    let mut i: usize = 0;
    proof {
        assert(parts.take(0) =~= Seq::<Seq<u8>>::empty());
        assert(dst@ =~= d0.take(offset as int) + spec_concat(parts.take(0)) + d0.skip(
            offset as int,
        ));
        assert(n * nb >= 0) by (nonlinear_arith)
            requires
                n >= 0,
                nb >= 0,
        ;
    }
    while i < n
        invariant
            i <= n,
            n == polys@.len(),
            n <= 8,
            nb == 416,
            nb <= 640,
            pos == offset + i * nb,
            offset + n * nb <= dst.len(),
            dst.len() == d0.len(),
            forall|k: int| 0 <= k < polys@.len() ==> spec_offset_fits(4096, (#[trigger] polys@[k])@, 13),
            parts == Seq::new(
                polys@.len(),
                |k: int| spec_polyt0_pack(spec_views(polys@)[k]),
            ),
            forall|k: int| 0 <= k < i ==> (#[trigger] parts[k]).len() == nb,
            dst@ == d0.take(offset as int) + spec_concat(parts.take(i as int)) + d0.skip(
                pos as int,
            ),
        decreases n - i,
    {
        let ghost before = dst@;
        proof {
            assert((i + 1) * nb == i * nb + nb && (i + 1) * nb <= n * nb) by (nonlinear_arith)
                requires
                    i < n,
                    0 <= nb,
            ;
        }
        let mut tmp: [u8; 640] = [0u8; 640];
        polyt0_pack(&mut tmp, &polys[i]);
        write_bytes(dst, pos, &tmp, nb);
        proof {
            assert(parts[i as int] == tmp@.take(nb as int));
            assert(parts.take(i + 1).drop_last() =~= parts.take(i as int));
            lemma_concat_len(parts.take(i as int), nb as int);
            assert(dst@ =~= d0.take(offset as int) + spec_concat(parts.take(i + 1)) + d0.skip(
                pos + nb,
            ));
        }
        pos += nb;
        i += 1;
    }
    proof {
        assert(parts.take(n as int) =~= parts);
        lemma_concat_len(parts, nb as int);
    }
}

fn pack_polys_eta<P: DilithiumParams>(dst: &mut [u8], offset: usize, polys: &[Poly])
    requires
        polys@.len() <= 8,
        offset + polys@.len() * P::mode().spec_params().polyeta_packedbytes <= old(dst).len(),
        forall|k: int| 0 <= k < polys@.len() ==> spec_offset_fits(
                P::mode().spec_params().eta as int,
                (#[trigger] polys@[k])@,
                spec_eta_bits(P::mode().spec_params().eta as int),
            ),
    ensures
        final(dst).len() == old(dst).len(),
        final(dst)@ == old(dst)@.take(offset as int) + spec_pack_polys_eta(P::mode().spec_params().eta as int, spec_views(polys@))
            + old(dst)@.skip(offset + polys@.len() * P::mode().spec_params().polyeta_packedbytes),
        spec_pack_polys_eta(P::mode().spec_params().eta as int, spec_views(polys@)).len() == polys@.len() * P::mode().spec_params().polyeta_packedbytes,
{
    let ghost d0 = dst@;
    let ghost parts = Seq::new(
        polys@.len(),
        |k: int| spec_polyeta_pack(P::mode().spec_params().eta as int, spec_views(polys@)[k]),
    );
    let nb: usize = P::algorithm().params().polyeta_packedbytes;
    let n: usize = polys.len();
    let mut pos: usize = offset;
    let mut i: usize = 0;
    proof {
        assert(parts.take(0) =~= Seq::<Seq<u8>>::empty());
        assert(dst@ =~= d0.take(offset as int) + spec_concat(parts.take(0)) + d0.skip(
            offset as int,
        ));
        assert(n * nb >= 0) by (nonlinear_arith)
            requires
                n >= 0,
                nb >= 0,
        ;
    }
    while i < n
        invariant
            i <= n,
            n == polys@.len(),
            n <= 8,
            nb == P::mode().spec_params().polyeta_packedbytes,
            nb <= 640,
            pos == offset + i * nb,
            offset + n * nb <= dst.len(),
            dst.len() == d0.len(),
            forall|k: int| 0 <= k < polys@.len() ==> spec_offset_fits(
                P::mode().spec_params().eta as int,
                (#[trigger] polys@[k])@,
                spec_eta_bits(P::mode().spec_params().eta as int),
            ),
            parts == Seq::new(
                polys@.len(),
                |k: int| spec_polyeta_pack(P::mode().spec_params().eta as int, spec_views(polys@)[k]),
            ),
            forall|k: int| 0 <= k < i ==> (#[trigger] parts[k]).len() == nb,
            dst@ == d0.take(offset as int) + spec_concat(parts.take(i as int)) + d0.skip(
                pos as int,
            ),
        decreases n - i,
    {
        let ghost before = dst@;
        proof {
            assert((i + 1) * nb == i * nb + nb && (i + 1) * nb <= n * nb) by (nonlinear_arith)
                requires
                    i < n,
                    0 <= nb,
            ;
        }
        let mut tmp: [u8; 640] = [0u8; 640];
        polyeta_pack::<P>(&mut tmp, &polys[i]);
        write_bytes(dst, pos, &tmp, nb);
        proof {
            assert(parts[i as int] == tmp@.take(nb as int));
            assert(parts.take(i + 1).drop_last() =~= parts.take(i as int));
            lemma_concat_len(parts.take(i as int), nb as int);
            assert(dst@ =~= d0.take(offset as int) + spec_concat(parts.take(i + 1)) + d0.skip(
                pos + nb,
            ));
        }
        pos += nb;
        i += 1;
    }
    proof {
        assert(parts.take(n as int) =~= parts);
        lemma_concat_len(parts, nb as int);
    }
}

fn pack_polys_z<P: DilithiumParams>(dst: &mut [u8], offset: usize, polys: &[Poly])
    requires
        polys@.len() <= 8,
        offset + polys@.len() * P::mode().spec_params().polyz_packedbytes <= old(dst).len(),
        forall|k: int| 0 <= k < polys@.len() ==> spec_offset_fits(
                P::mode().spec_params().gamma1 as int,
                (#[trigger] polys@[k])@,
                spec_gamma1_bits(P::mode().spec_params().gamma1 as int),
            ),
    ensures
        final(dst).len() == old(dst).len(),
        final(dst)@ == old(dst)@.take(offset as int) + spec_pack_polys_z(P::mode().spec_params().gamma1 as int, spec_views(polys@))
            + old(dst)@.skip(offset + polys@.len() * P::mode().spec_params().polyz_packedbytes),
        spec_pack_polys_z(P::mode().spec_params().gamma1 as int, spec_views(polys@)).len() == polys@.len() * P::mode().spec_params().polyz_packedbytes,
{
    let ghost d0 = dst@;
    let ghost parts = Seq::new(
        polys@.len(),
        |k: int| spec_polyz_pack(P::mode().spec_params().gamma1 as int, spec_views(polys@)[k]),
    );
    let nb: usize = P::algorithm().params().polyz_packedbytes;
    let n: usize = polys.len();
    let mut pos: usize = offset;
    let mut i: usize = 0;
    proof {
        assert(parts.take(0) =~= Seq::<Seq<u8>>::empty());
        assert(dst@ =~= d0.take(offset as int) + spec_concat(parts.take(0)) + d0.skip(
            offset as int,
        ));
        assert(n * nb >= 0) by (nonlinear_arith)
            requires
                n >= 0,
                nb >= 0,
        ;
    }
    while i < n
        invariant
            i <= n,
            n == polys@.len(),
            n <= 8,
            nb == P::mode().spec_params().polyz_packedbytes,
            nb <= 640,
            pos == offset + i * nb,
            offset + n * nb <= dst.len(),
            dst.len() == d0.len(),
            forall|k: int| 0 <= k < polys@.len() ==> spec_offset_fits(
                P::mode().spec_params().gamma1 as int,
                (#[trigger] polys@[k])@,
                spec_gamma1_bits(P::mode().spec_params().gamma1 as int),
            ),
            parts == Seq::new(
                polys@.len(),
                |k: int| spec_polyz_pack(P::mode().spec_params().gamma1 as int, spec_views(polys@)[k]),
            ),
            forall|k: int| 0 <= k < i ==> (#[trigger] parts[k]).len() == nb,
            dst@ == d0.take(offset as int) + spec_concat(parts.take(i as int)) + d0.skip(
                pos as int,
            ),
        decreases n - i,
    {
        let ghost before = dst@;
        proof {
            assert((i + 1) * nb == i * nb + nb && (i + 1) * nb <= n * nb) by (nonlinear_arith)
                requires
                    i < n,
                    0 <= nb,
            ;
        }
        let mut tmp: [u8; 640] = [0u8; 640];
        polyz_pack::<P>(&mut tmp, &polys[i]);
        write_bytes(dst, pos, &tmp, nb);
        proof {
            assert(parts[i as int] == tmp@.take(nb as int));
            assert(parts.take(i + 1).drop_last() =~= parts.take(i as int));
            lemma_concat_len(parts.take(i as int), nb as int);
            assert(dst@ =~= d0.take(offset as int) + spec_concat(parts.take(i + 1)) + d0.skip(
                pos + nb,
            ));
        }
        pos += nb;
        i += 1;
    }
    proof {
        assert(parts.take(n as int) =~= parts);
        lemma_concat_len(parts, nb as int);
    }
}

fn unpack_polys_t1(polys: &mut [Poly], src: &[u8], offset: usize)
    requires
        old(polys)@.len() <= 8,
        offset + old(polys)@.len() * 320 <= src.len(),
    ensures
        final(polys)@.len() == old(polys)@.len(),
        spec_views(final(polys)@) == spec_unpack_polys_t1(
            src@.skip(offset as int),
            old(polys)@.len() as int,
        ),
        spec_polyvec_in_range(spec_views(final(polys)@), 0, 1023),
{
    let ghost result = spec_unpack_polys_t1(src@.skip(offset as int), polys@.len() as int);
    let nb: usize = 320;
    let n: usize = polys.len();
    let mut pos: usize = offset;
    let mut i: usize = 0;
    proof {
        assert(n * nb >= 0) by (nonlinear_arith)
            requires
                n >= 0,
                nb >= 0,
        ;
    }
    while i < n
        invariant
            i <= n,
            n == polys@.len(),
            n <= 8,
            nb == 320,
            pos == offset + i * nb,
            offset + n * nb <= src.len(),
            result == spec_unpack_polys_t1(src@.skip(offset as int), n as int),
            forall|k: int| 0 <= k < i ==> (#[trigger] polys@[k])@ == result[k],
            forall|k: int| 0 <= k < i ==> spec_in_range((#[trigger] polys@[k])@, 0, 1023),
        decreases n - i,
    {
        proof {
            assert((i + 1) * nb == i * nb + nb && (i + 1) * nb <= n * nb) by (nonlinear_arith)
                requires
                    i < n,
                    0 <= nb,
            ;
            assert(src@.subrange(pos as int, pos + nb) =~= src@.skip(offset as int).subrange(
                nb * i,
                nb * (i + 1),
            )) by {
                assert(nb * i == i * nb && nb * (i + 1) == i * nb + nb) by (nonlinear_arith);
            }
        }
        let part = &src[pos..pos + nb];
        polyt1_unpack(&mut polys[i], part);
        pos += nb;
        i += 1;
    }
    proof {
        assert(spec_views(polys@) =~= result);
        assert forall|k: int| 0 <= k < spec_views(polys@).len() implies spec_in_range(
            #[trigger] spec_views(polys@)[k],
            0,
            1023,
        ) by {
            assert(spec_views(polys@)[k] == polys@[k]@);
        }
    }
}

fn unpack_polys_t0(polys: &mut [Poly], src: &[u8], offset: usize)
    requires
        old(polys)@.len() <= 8,
        offset + old(polys)@.len() * 416 <= src.len(),
    ensures
        final(polys)@.len() == old(polys)@.len(),
        spec_views(final(polys)@) == spec_unpack_polys_t0(
            src@.skip(offset as int),
            old(polys)@.len() as int,
        ),
        spec_polyvec_in_range(spec_views(final(polys)@), -4095, 4096),
{
    let ghost result = spec_unpack_polys_t0(src@.skip(offset as int), polys@.len() as int);
    let nb: usize = 416;
    let n: usize = polys.len();
    let mut pos: usize = offset;
    let mut i: usize = 0;
    proof {
        assert(n * nb >= 0) by (nonlinear_arith)
            requires
                n >= 0,
                nb >= 0,
        ;
    }
    while i < n
        invariant
            i <= n,
            n == polys@.len(),
            n <= 8,
            nb == 416,
            pos == offset + i * nb,
            offset + n * nb <= src.len(),
            result == spec_unpack_polys_t0(src@.skip(offset as int), n as int),
            forall|k: int| 0 <= k < i ==> (#[trigger] polys@[k])@ == result[k],
            forall|k: int| 0 <= k < i ==> spec_in_range((#[trigger] polys@[k])@, -4095, 4096),
        decreases n - i,
    {
        proof {
            assert((i + 1) * nb == i * nb + nb && (i + 1) * nb <= n * nb) by (nonlinear_arith)
                requires
                    i < n,
                    0 <= nb,
            ;
            assert(src@.subrange(pos as int, pos + nb) =~= src@.skip(offset as int).subrange(
                nb * i,
                nb * (i + 1),
            )) by {
                assert(nb * i == i * nb && nb * (i + 1) == i * nb + nb) by (nonlinear_arith);
            }
        }
        let part = &src[pos..pos + nb];
        polyt0_unpack(&mut polys[i], part);
        pos += nb;
        i += 1;
    }
    proof {
        assert(spec_views(polys@) =~= result);
        assert forall|k: int| 0 <= k < spec_views(polys@).len() implies spec_in_range(
            #[trigger] spec_views(polys@)[k],
            -4095,
            4096,
        ) by {
            assert(spec_views(polys@)[k] == polys@[k]@);
        }
    }
}

fn unpack_polys_eta<P: DilithiumParams>(polys: &mut [Poly], src: &[u8], offset: usize)
    requires
        old(polys)@.len() <= 8,
        offset + old(polys)@.len() * P::mode().spec_params().polyeta_packedbytes <= src.len(),
    ensures
        final(polys)@.len() == old(polys)@.len(),
        spec_views(final(polys)@) == spec_unpack_polys_eta(
            P::mode().spec_params().eta as int, src@.skip(offset as int),
            old(polys)@.len() as int,
        ),
        spec_polyvec_in_range(spec_views(final(polys)@), -11, 4),
{
    let ghost result = spec_unpack_polys_eta(P::mode().spec_params().eta as int, src@.skip(offset as int), polys@.len() as int);
    let nb: usize = P::algorithm().params().polyeta_packedbytes;
    let n: usize = polys.len();
    let mut pos: usize = offset;
    let mut i: usize = 0;
    proof {
        assert(n * nb >= 0) by (nonlinear_arith)
            requires
                n >= 0,
                nb >= 0,
        ;
    }
    while i < n
        invariant
            i <= n,
            n == polys@.len(),
            n <= 8,
            nb == P::mode().spec_params().polyeta_packedbytes,
            pos == offset + i * nb,
            offset + n * nb <= src.len(),
            result == spec_unpack_polys_eta(P::mode().spec_params().eta as int, src@.skip(offset as int), n as int),
            forall|k: int| 0 <= k < i ==> (#[trigger] polys@[k])@ == result[k],
            forall|k: int| 0 <= k < i ==> spec_in_range((#[trigger] polys@[k])@, -11, 4),
        decreases n - i,
    {
        proof {
            assert((i + 1) * nb == i * nb + nb && (i + 1) * nb <= n * nb) by (nonlinear_arith)
                requires
                    i < n,
                    0 <= nb,
            ;
            assert(src@.subrange(pos as int, pos + nb) =~= src@.skip(offset as int).subrange(
                nb * i,
                nb * (i + 1),
            )) by {
                assert(nb * i == i * nb && nb * (i + 1) == i * nb + nb) by (nonlinear_arith);
            }
        }
        let part = &src[pos..pos + nb];
        polyeta_unpack::<P>(&mut polys[i], part);
        pos += nb;
        i += 1;
    }
    proof {
        assert(spec_views(polys@) =~= result);
        assert forall|k: int| 0 <= k < spec_views(polys@).len() implies spec_in_range(
            #[trigger] spec_views(polys@)[k],
            -11,
            4,
        ) by {
            assert(spec_views(polys@)[k] == polys@[k]@);
        }
    }
}

fn unpack_polys_z<P: DilithiumParams>(polys: &mut [Poly], src: &[u8], offset: usize)
    requires
        old(polys)@.len() <= 8,
        offset + old(polys)@.len() * P::mode().spec_params().polyz_packedbytes <= src.len(),
    ensures
        final(polys)@.len() == old(polys)@.len(),
        spec_views(final(polys)@) == spec_unpack_polys_z(
            P::mode().spec_params().gamma1 as int, src@.skip(offset as int),
            old(polys)@.len() as int,
        ),
        spec_polyvec_in_range(spec_views(final(polys)@), -P::mode().spec_params().gamma1 + 1, P::mode().spec_params().gamma1 as int),
{
    let ghost result = spec_unpack_polys_z(P::mode().spec_params().gamma1 as int, src@.skip(offset as int), polys@.len() as int);
    let nb: usize = P::algorithm().params().polyz_packedbytes;
    let n: usize = polys.len();
    let mut pos: usize = offset;
    let mut i: usize = 0;
    proof {
        assert(n * nb >= 0) by (nonlinear_arith)
            requires
                n >= 0,
                nb >= 0,
        ;
    }
    while i < n
        invariant
            i <= n,
            n == polys@.len(),
            n <= 8,
            nb == P::mode().spec_params().polyz_packedbytes,
            pos == offset + i * nb,
            offset + n * nb <= src.len(),
            result == spec_unpack_polys_z(P::mode().spec_params().gamma1 as int, src@.skip(offset as int), n as int),
            forall|k: int| 0 <= k < i ==> (#[trigger] polys@[k])@ == result[k],
            forall|k: int| 0 <= k < i ==> spec_in_range((#[trigger] polys@[k])@, -P::mode().spec_params().gamma1 + 1, P::mode().spec_params().gamma1 as int),
        decreases n - i,
    {
        proof {
            assert((i + 1) * nb == i * nb + nb && (i + 1) * nb <= n * nb) by (nonlinear_arith)
                requires
                    i < n,
                    0 <= nb,
            ;
            assert(src@.subrange(pos as int, pos + nb) =~= src@.skip(offset as int).subrange(
                nb * i,
                nb * (i + 1),
            )) by {
                assert(nb * i == i * nb && nb * (i + 1) == i * nb + nb) by (nonlinear_arith);
            }
        }
        let part = &src[pos..pos + nb];
        polyz_unpack::<P>(&mut polys[i], part);
        pos += nb;
        i += 1;
    }
    proof {
        assert(spec_views(polys@) =~= result);
        assert forall|k: int| 0 <= k < spec_views(polys@).len() implies spec_in_range(
            #[trigger] spec_views(polys@)[k],
            -P::mode().spec_params().gamma1 + 1,
            P::mode().spec_params().gamma1 as int,
        ) by {
            assert(spec_views(polys@)[k] == polys@[k]@);
        }
    }
}

/// Whether every coefficient of every polynomial of `v` fits ten bits.
pub open spec fn spec_t1_fits(v: Seq<Seq<int>>) -> bool {
    forall|k: int| 0 <= k < v.len() ==> spec_plain_fits(#[trigger] v[k], 10)
}

/// Whether every coefficient of every polynomial of `v` lies where the
/// packing of low parts can store it, in `(-2^12, 2^12]`.
pub open spec fn spec_t0_fits(v: Seq<Seq<int>>) -> bool {
    forall|k: int| 0 <= k < v.len() ==> spec_offset_fits(4096, #[trigger] v[k], 13)
}

/// Whether every coefficient of every polynomial of `v` lies where the
/// packing of secret vectors can store it.
pub open spec fn spec_eta_fits(eta: int, v: Seq<Seq<int>>) -> bool {
    forall|k: int| 0 <= k < v.len() ==> spec_offset_fits(eta, #[trigger] v[k], spec_eta_bits(eta))
}

/// Whether every coefficient of every polynomial of `v` lies where the
/// packing of the vector `z` can store it, in `(-gamma1, gamma1]`.
pub open spec fn spec_z_fits(gamma1: int, v: Seq<Seq<int>>) -> bool {
    forall|k: int|
        0 <= k < v.len() ==> spec_offset_fits(gamma1, #[trigger] v[k], spec_gamma1_bits(gamma1))
}

/// The public key: the seed `rho` and the packed vector `t1`.
pub open spec fn spec_pack_pk(rho: Seq<u8>, t1: Seq<Seq<int>>) -> Seq<u8> {
    rho + spec_pack_polys_t1(t1)
}

/// The packed secret key: the seeds `rho` and `key`, the hash `tr` and the
/// packed vectors `s1`, `s2` and `t0`.
pub open spec fn spec_pack_sk(
    p: ParameterSet,
    rho: Seq<u8>,
    key: Seq<u8>,
    tr: Seq<u8>,
    s1: Seq<Seq<int>>,
    s2: Seq<Seq<int>>,
    t0: Seq<Seq<int>>,
) -> Seq<u8> {
    rho + key + tr + spec_pack_polys_eta(p.eta as int, s1) + spec_pack_polys_eta(p.eta as int, s2)
        + spec_pack_polys_t0(t0)
}

/// Packs the public key `(rho, t1)` into the front of `pk`. The bytes of
/// `pk` behind the packed key stay as they are.
pub fn pack_pk<P: DilithiumParams>(pk: &mut [u8], rho: &[u8], t1: &Polyveck)
    requires
        old(pk).len() >= P::mode().spec_params().public_key_bytes,
        rho.len() == 32,
        t1.mode() == P::mode(),
        spec_t1_fits(t1@),
    ensures
        final(pk).len() == old(pk).len(),
        final(pk)@.take(P::mode().spec_params().public_key_bytes as int) == spec_pack_pk(
            rho@,
            t1@,
        ),
        final(pk)@.skip(P::mode().spec_params().public_key_bytes as int) == old(pk)@.skip(
            P::mode().spec_params().public_key_bytes as int,
        ),
{
    proof {
        lemma_params_derived(P::mode());
    }
    write_bytes(pk, 0, rho, 32);
    let t1_vec = vec_from_polyveck(t1);
    proof {
        assert forall|k: int| 0 <= k < t1_vec@.len() implies spec_plain_fits(
            (#[trigger] t1_vec@[k])@,
            10,
        ) by {
            assert(t1@[k] == t1_vec@[k]@);
        }
    }
    pack_polys_t1(pk, 32, t1_vec);
    proof {
        let n = P::mode().spec_params().public_key_bytes as int;
        assert(rho@.take(32) =~= rho@);
        assert(pk@ =~= spec_pack_pk(rho@, t1@) + old(pk)@.skip(n));
        assert(pk@.take(n) =~= spec_pack_pk(rho@, t1@));
        assert(pk@.skip(n) =~= old(pk)@.skip(n));
    }
}

/// Unpacks the public key `pk`: its seed goes to the first 32 bytes of `rho`,
/// its vector to `t1`. A key of another length than that of the level is
/// refused, and nothing is written.
pub fn unpack_pk<P: DilithiumParams>(rho: &mut [u8], t1: &mut Polyveck, pk: &[u8]) -> (r: Result<
    (),
    DilithiumError,
>)
    requires
        old(rho).len() >= 32,
        old(t1).mode() == P::mode(),
    ensures
        final(rho).len() == old(rho).len(),
        final(t1).mode() == old(t1).mode(),
        pk.len() != P::mode().spec_params().public_key_bytes ==> r == Err::<(), DilithiumError>(
            DilithiumError::BadKeyLength,
        ) && final(rho)@ == old(rho)@ && final(t1)@ == old(t1)@,
        pk.len() == P::mode().spec_params().public_key_bytes ==> r == Ok::<(), DilithiumError>(())
            && final(rho)@ == pk@.take(32) + old(rho)@.skip(32) && final(t1)@
            == spec_unpack_polys_t1(pk@.skip(32), P::mode().spec_params().k as int)
            && spec_polyvec_in_range(final(t1)@, 0, 1023),
{
    if pk.len() != P::algorithm().params().public_key_bytes {
        return Err(DilithiumError::BadKeyLength);
    }
    write_bytes(rho, 0, pk, 32);
    let t1_vec = vec_from_polyveck_mut(t1);
    unpack_polys_t1(t1_vec, pk, 32);
    proof {
        assert(rho@ =~= pk@.take(32) + old(rho)@.skip(32));
    }
    Ok(())
}

/// Packs the secret key `(rho, key, tr, s1, s2, t0)` into the front of `sk`.
/// Of `rho`, `key` and `tr` the first 32 bytes are taken. The bytes of `sk`
/// behind the packed key stay as they are.
pub fn pack_sk<P: DilithiumParams>(
    sk: &mut [u8],
    rho: &[u8],
    tr: &[u8],
    key: &[u8],
    t0: &Polyveck,
    s1: &Polyvecl,
    s2: &Polyveck,
)
    requires
        old(sk).len() >= P::mode().spec_params().secret_key_packed_bytes,
        rho.len() >= 32,
        tr.len() >= 32,
        key.len() >= 32,
        t0.mode() == P::mode(),
        s1.mode() == P::mode(),
        s2.mode() == P::mode(),
        spec_eta_fits(P::mode().spec_params().eta as int, s1@),
        spec_eta_fits(P::mode().spec_params().eta as int, s2@),
        spec_t0_fits(t0@),
    ensures
        final(sk).len() == old(sk).len(),
        final(sk)@.take(P::mode().spec_params().secret_key_packed_bytes as int) == spec_pack_sk(
            P::mode().spec_params(),
            rho@.take(32),
            key@.take(32),
            tr@.take(32),
            s1@,
            s2@,
            t0@,
        ),
        final(sk)@.skip(P::mode().spec_params().secret_key_packed_bytes as int) == old(sk)@.skip(
            P::mode().spec_params().secret_key_packed_bytes as int,
        ),
{
    let params = P::algorithm().params();
    let ghost eta = params.eta as int;
    proof {
        lemma_params_derived(P::mode());
    }
    let s1_vec = vec_from_polyvecl(s1);
    let s2_vec = vec_from_polyveck(s2);
    let t0_vec = vec_from_polyveck(t0);
    proof {
        assert forall|k: int| 0 <= k < s1_vec@.len() implies spec_offset_fits(
            eta,
            (#[trigger] s1_vec@[k])@,
            spec_eta_bits(eta),
        ) by {
            assert(s1@[k] == s1_vec@[k]@);
        }
        assert forall|k: int| 0 <= k < s2_vec@.len() implies spec_offset_fits(
            eta,
            (#[trigger] s2_vec@[k])@,
            spec_eta_bits(eta),
        ) by {
            assert(s2@[k] == s2_vec@[k]@);
        }
        assert forall|k: int| 0 <= k < t0_vec@.len() implies spec_offset_fits(
            4096,
            (#[trigger] t0_vec@[k])@,
            13,
        ) by {
            assert(t0@[k] == t0_vec@[k]@);
        }
    }
    write_bytes(sk, 0, rho, 32);
    write_bytes(sk, 32, key, 32);
    write_bytes(sk, 64, tr, 32);
    let nb: usize = params.polyeta_packedbytes;
    pack_polys_eta::<P>(sk, 96, s1_vec);
    let off2: usize = 96 + params.l * nb;
    pack_polys_eta::<P>(sk, off2, s2_vec);
    let off3: usize = off2 + params.k * nb;
    pack_polys_t0(sk, off3, t0_vec);
    proof {
        let a = rho@.take(32) + key@.take(32) + tr@.take(32);
        let b1 = spec_pack_polys_eta(eta, s1@);
        let b2 = spec_pack_polys_eta(eta, s2@);
        let b3 = spec_pack_polys_t0(t0@);
        let packed = params.secret_key_packed_bytes as int;
        assert(sk@ =~= a + b1 + b2 + b3 + old(sk)@.skip(packed));
        assert(sk@.take(packed) =~= a + b1 + b2 + b3);
        assert(sk@.skip(packed) =~= old(sk)@.skip(packed));
    }
}

/// Unpacks the secret key `sk`: its seeds and hash go to the first 32 bytes
/// of `rho`, `key` and `tr`, its vectors to `s1`, `s2` and `t0`. A key of
/// another length than that of the level is refused, and nothing is written.
pub fn unpack_sk<P: DilithiumParams>(
    rho: &mut [u8],
    tr: &mut [u8],
    key: &mut [u8],
    t0: &mut Polyveck,
    s1: &mut Polyvecl,
    s2: &mut Polyveck,
    sk: &[u8],
) -> (r: Result<(), DilithiumError>)
    requires
        old(rho).len() >= 32,
        old(tr).len() >= 32,
        old(key).len() >= 32,
        old(t0).mode() == P::mode(),
        old(s1).mode() == P::mode(),
        old(s2).mode() == P::mode(),
    ensures
        final(rho).len() == old(rho).len(),
        final(tr).len() == old(tr).len(),
        final(key).len() == old(key).len(),
        final(t0).mode() == old(t0).mode(),
        final(s1).mode() == old(s1).mode(),
        final(s2).mode() == old(s2).mode(),
        sk.len() != P::mode().spec_params().secret_key_bytes ==> r == Err::<(), DilithiumError>(
            DilithiumError::BadKeyLength,
        ) && final(rho)@ == old(rho)@ && final(tr)@ == old(tr)@ && final(key)@ == old(key)@
            && final(t0)@ == old(t0)@ && final(s1)@ == old(s1)@ && final(s2)@ == old(s2)@,
        sk.len() == P::mode().spec_params().secret_key_bytes ==> r == Ok::<(), DilithiumError>(())
            && final(rho)@ == sk@.subrange(0, 32) + old(rho)@.skip(32) && final(key)@
            == sk@.subrange(32, 64) + old(key)@.skip(32) && final(tr)@ == sk@.subrange(64, 96)
            + old(tr)@.skip(32) && final(s1)@ == spec_unpack_polys_eta(
            P::mode().spec_params().eta as int,
            sk@.skip(96),
            P::mode().spec_params().l as int,
        ) && final(s2)@ == spec_unpack_polys_eta(
            P::mode().spec_params().eta as int,
            sk@.skip(96 + P::mode().spec_params().l * P::mode().spec_params().polyeta_packedbytes),
            P::mode().spec_params().k as int,
        ) && final(t0)@ == spec_unpack_polys_t0(
            sk@.skip(
                96 + (P::mode().spec_params().l + P::mode().spec_params().k)
                    * P::mode().spec_params().polyeta_packedbytes,
            ),
            P::mode().spec_params().k as int,
        ) && spec_polyvec_in_range(final(s1)@, -11, 4) && spec_polyvec_in_range(
            final(s2)@,
            -11,
            4,
        ) && spec_polyvec_in_range(final(t0)@, -4095, 4096),
{
    let params = P::algorithm().params();
    if sk.len() != params.secret_key_bytes {
        return Err(DilithiumError::BadKeyLength);
    }
    proof {
        lemma_params_derived(P::mode());
    }
    let s1_vec = vec_from_polyvecl_mut(s1);
    let s2_vec = vec_from_polyveck_mut(s2);
    let t0_vec = vec_from_polyveck_mut(t0);
    write_bytes(rho, 0, sk, 32);
    let key_part = &sk[32..64];
    write_bytes(key, 0, key_part, 32);
    let tr_part = &sk[64..96];
    write_bytes(tr, 0, tr_part, 32);
    let nb: usize = params.polyeta_packedbytes;
    unpack_polys_eta::<P>(s1_vec, sk, 96);
    let off2: usize = 96 + params.l * nb;
    unpack_polys_eta::<P>(s2_vec, sk, off2);
    let off3: usize = off2 + params.k * nb;
    unpack_polys_t0(t0_vec, sk, off3);
    proof {
        assert(rho@ =~= sk@.subrange(0, 32) + old(rho)@.skip(32));
        assert(key@ =~= sk@.subrange(32, 64) + old(key)@.skip(32));
        assert(tr@ =~= sk@.subrange(64, 96) + old(tr)@.skip(32));
    }
    Ok(())
}

/// The places below `n` where `p` is not zero, in ascending order.
pub open spec fn spec_nonzero_positions(p: Seq<int>, n: nat) -> Seq<int>
    decreases n,
{
    if n == 0 {
        Seq::<int>::empty()
    } else {
        let prev = spec_nonzero_positions(p, (n - 1) as nat);
        if p[n - 1] != 0 {
            prev.push(n - 1)
        } else {
            prev
        }
    }
}

/// The places where the first `rows` polynomials of `h` are not zero, row
/// after row.
pub open spec fn spec_hint_positions(h: Seq<Seq<int>>, rows: nat) -> Seq<int>
    decreases rows,
{
    if rows == 0 {
        Seq::<int>::empty()
    } else {
        spec_hint_positions(h, (rows - 1) as nat) + spec_nonzero_positions(h[rows - 1], 256)
    }
}

/// The number of hints in `h`.
pub open spec fn spec_hint_count(h: Seq<Seq<int>>) -> int {
    spec_hint_positions(h, h.len()).len() as int
}

/// The encoding of the hint vector `h` in `omega + h.len()` bytes: the
/// places of the hints, row after row and ascending in each row; zero bytes
/// up to byte `omega`; then for each row the number of hints up to and with
/// that row.
pub open spec fn spec_pack_hint(h: Seq<Seq<int>>, omega: int) -> Seq<u8> {
    let pos = spec_hint_positions(h, h.len());
    Seq::new(
        (omega + h.len()) as nat,
        |x: int|
            if x < omega {
                if x < pos.len() {
                    pos[x] as u8
                } else {
                    0u8
                }
            } else {
                spec_hint_positions(h, (x - omega + 1) as nat).len() as u8
            },
    )
}

/// The signature: the challenge seed `c`, the packed vector `z` and the
/// encoded hints `h`.
pub open spec fn spec_pack_sig(
    p: ParameterSet,
    c: Seq<u8>,
    z: Seq<Seq<int>>,
    h: Seq<Seq<int>>,
) -> Seq<u8> {
    c + spec_pack_polys_z(p.gamma1 as int, z) + spec_pack_hint(h, p.omega as int)
}

/// A polynomial has no more nonzero places below `a` than below `b`, and
/// every place listed is below `b`.
pub proof fn lemma_nonzero_positions(p: Seq<int>, a: nat, b: nat)
    requires
        a <= b,
    ensures
        spec_nonzero_positions(p, a).len() <= spec_nonzero_positions(p, b).len(),
        spec_nonzero_positions(p, b).len() <= b,
        forall|x: int|
            0 <= x < spec_nonzero_positions(p, b).len() ==> 0 <= #[trigger] spec_nonzero_positions(
                p,
                b,
            )[x] < b,
    decreases b,
{
    if b > 0 {
        if a < b {
            lemma_nonzero_positions(p, a, (b - 1) as nat);
        } else {
            lemma_nonzero_positions(p, (b - 1) as nat, (b - 1) as nat);
        }
    }
}

/// The first `a` rows hold no more hints than the first `b` rows.
pub proof fn lemma_hint_positions(h: Seq<Seq<int>>, a: nat, b: nat)
    requires
        a <= b,
    ensures
        spec_hint_positions(h, a).len() <= spec_hint_positions(h, b).len(),
    decreases b,
{
    if a < b {
        lemma_hint_positions(h, a, (b - 1) as nat);
    }
}

fn pack_hint(sig: &mut [u8], idx: usize, polys: &[Poly], omega: usize)
    requires
        polys@.len() <= 8,
        omega <= 255,
        idx + omega + polys@.len() <= old(sig).len(),
        spec_hint_count(spec_views(polys@)) <= omega,
    ensures
        final(sig).len() == old(sig).len(),
        final(sig)@ == old(sig)@.take(idx as int) + spec_pack_hint(
            spec_views(polys@),
            omega as int,
        ) + old(sig)@.skip(idx + omega + polys@.len()),
{
    let ghost s0 = sig@;
    let ghost h = spec_views(polys@);
    let rows: usize = polys.len();
    let mut x: usize = 0;
    while x < omega + rows
        invariant
            x <= omega + rows,
            idx + omega + rows <= sig.len(),
            sig.len() == s0.len(),
            forall|y: int| 0 <= y < idx ==> #[trigger] sig@[y] == s0[y],
            forall|y: int| idx <= y < idx + x ==> #[trigger] sig@[y] == 0,
            forall|y: int| idx + x <= y < sig.len() ==> #[trigger] sig@[y] == s0[y],
        decreases omega + rows - x,
    {
        sig[idx + x] = 0;
        x += 1;
    }
    let mut cnt: usize = 0;
    let mut i: usize = 0;
    proof {
        assert(spec_hint_positions(h, 0) =~= Seq::<int>::empty());
    }
    while i < rows
        invariant
            i <= rows,
            rows == polys@.len(),
            rows <= 8,
            omega <= 255,
            h == spec_views(polys@),
            idx + omega + rows <= sig.len(),
            sig.len() == s0.len(),
            spec_hint_count(h) <= omega,
            cnt == spec_hint_positions(h, i as nat).len(),
            cnt <= omega,
            forall|y: int| 0 <= y < idx ==> #[trigger] sig@[y] == s0[y],
            forall|y: int|
                idx <= y < idx + cnt ==> #[trigger] sig@[y] == spec_hint_positions(h, i as nat)[y
                    - idx] as u8,
            forall|y: int| idx + cnt <= y < idx + omega ==> #[trigger] sig@[y] == 0,
            forall|y: int|
                idx + omega <= y < idx + omega + i ==> #[trigger] sig@[y] == spec_hint_positions(
                    h,
                    (y - idx - omega + 1) as nat,
                ).len() as u8,
            forall|y: int| idx + omega + i <= y < idx + omega + rows ==> #[trigger] sig@[y] == 0,
            forall|y: int| idx + omega + rows <= y < sig.len() ==> #[trigger] sig@[y] == s0[y],
        decreases rows - i,
    {
        let ghost base = spec_hint_positions(h, i as nat);
        let ghost row = h[i as int];
        let mut j: usize = 0;
        proof {
            assert(base + spec_nonzero_positions(row, 0) =~= base);
            assert(row == polys@[i as int]@);
        }
        while j < 256
            invariant
                j <= 256,
                i < rows,
                rows == polys@.len(),
                rows <= 8,
                omega <= 255,
                h == spec_views(polys@),
                row == h[i as int],
                row == polys@[i as int]@,
                base == spec_hint_positions(h, i as nat),
                idx + omega + rows <= sig.len(),
                sig.len() == s0.len(),
                spec_hint_count(h) <= omega,
                cnt == (base + spec_nonzero_positions(row, j as nat)).len(),
                cnt <= omega,
                forall|y: int| 0 <= y < idx ==> #[trigger] sig@[y] == s0[y],
                forall|y: int|
                    idx <= y < idx + cnt ==> #[trigger] sig@[y] == (base + spec_nonzero_positions(
                        row,
                        j as nat,
                    ))[y - idx] as u8,
                forall|y: int| idx + cnt <= y < idx + omega ==> #[trigger] sig@[y] == 0,
                forall|y: int|
                    idx + omega <= y < idx + omega + i ==> #[trigger] sig@[y]
                        == spec_hint_positions(h, (y - idx - omega + 1) as nat).len() as u8,
                forall|y: int|
                    idx + omega + i <= y < idx + omega + rows ==> #[trigger] sig@[y] == 0,
                forall|y: int| idx + omega + rows <= y < sig.len() ==> #[trigger] sig@[y] == s0[y],
            decreases 256 - j,
        {
            proof {
                lemma_nonzero_positions(row, (j + 1) as nat, 256);
                lemma_hint_positions(h, (i + 1) as nat, rows as nat);
                assert(polys@[i as int].coeffs@[j as int] as int == row[j as int]);
            }
            if polys[i].coeffs[j] != 0 {
                proof {
                    assert(base + spec_nonzero_positions(row, (j + 1) as nat) =~= (base
                        + spec_nonzero_positions(row, j as nat)).push(j as int));
                }
                sig[idx + cnt] = j as u8;
                cnt += 1;
            }
            j += 1;
        }
        sig[idx + omega + i] = cnt as u8;
        i += 1;
    }
    proof {
        assert(sig@ =~= s0.take(idx as int) + spec_pack_hint(h, omega as int) + s0.skip(
            idx + omega + rows,
        ));
    }
}

/// Packs the signature `(c, z, h)` into the front of `sig`. Where `c` is
/// `None`, the first 32 bytes of `sig` stay as they are. The hint vector
/// holds at most `omega` hints. The bytes of `sig` behind the packed
/// signature stay as they are.
pub fn pack_sig<P: DilithiumParams>(sig: &mut [u8], c: Option<&[u8]>, z: &Polyvecl, h: &Polyveck)
    requires
        old(sig).len() >= P::mode().spec_params().signbytes,
        c matches Some(challenge) ==> challenge.len() >= 32,
        z.mode() == P::mode(),
        h.mode() == P::mode(),
        spec_z_fits(P::mode().spec_params().gamma1 as int, z@),
        spec_hint_count(h@) <= P::mode().spec_params().omega,
    ensures
        final(sig).len() == old(sig).len(),
        final(sig)@.take(P::mode().spec_params().signbytes as int) == spec_pack_sig(
            P::mode().spec_params(),
            match c {
                Some(challenge) => challenge@.take(32),
                None => old(sig)@.take(32),
            },
            z@,
            h@,
        ),
        final(sig)@.skip(P::mode().spec_params().signbytes as int) == old(sig)@.skip(
            P::mode().spec_params().signbytes as int,
        ),
{
    let params = P::algorithm().params();
    let ghost gamma1 = params.gamma1 as int;
    proof {
        lemma_params_derived(P::mode());
    }
    let z_vec = vec_from_polyvecl(z);
    let h_vec = vec_from_polyveck(h);
    proof {
        assert forall|k: int| 0 <= k < z_vec@.len() implies spec_offset_fits(
            gamma1,
            (#[trigger] z_vec@[k])@,
            spec_gamma1_bits(gamma1),
        ) by {
            assert(z@[k] == z_vec@[k]@);
        }
    }
    match c {
        Some(challenge) => {
            write_bytes(sig, 0, challenge, 32);
        },
        None => {},
    }
    let ghost head = sig@.take(32);
    pack_polys_z::<P>(sig, 32, z_vec);
    let idx: usize = 32 + params.l * params.polyz_packedbytes;
    pack_hint(sig, idx, h_vec, params.omega);
    proof {
        let n = params.signbytes as int;
        assert(sig@ =~= head + spec_pack_polys_z(gamma1, z@) + spec_pack_hint(
            h@,
            params.omega as int,
        ) + old(sig)@.skip(n));
        assert(sig@.take(n) =~= head + spec_pack_polys_z(gamma1, z@) + spec_pack_hint(
            h@,
            params.omega as int,
        ));
        assert(sig@.skip(n) =~= old(sig)@.skip(n));
    }
}

/// Where row `i` of the hints begins in the list of places.
pub open spec fn spec_hint_row_start(hb: Seq<u8>, omega: int, i: int) -> int {
    if i == 0 {
        0
    } else {
        hb[omega + i - 1] as int
    }
}

/// Where row `i` of the hints ends in the list of places.
pub open spec fn spec_hint_row_end(hb: Seq<u8>, omega: int, i: int) -> int {
    hb[omega + i] as int
}

/// Whether the count of row `i` is neither below that of the row before nor
/// above `omega`.
pub open spec fn spec_hint_count_ok(hb: Seq<u8>, omega: int, i: int) -> bool {
    spec_hint_row_start(hb, omega, i) <= spec_hint_row_end(hb, omega, i) <= omega
}

/// Whether the place at `j` is above the place before it.
pub open spec fn spec_hint_grows(hb: Seq<u8>, j: int) -> bool {
    hb[j - 1] < hb[j]
}

/// Whether the places of row `i` grow strictly.
pub open spec fn spec_hint_order_ok(hb: Seq<u8>, omega: int, i: int) -> bool {
    forall|j: int|
        spec_hint_row_start(hb, omega, i) < j < spec_hint_row_end(hb, omega, i)
            ==> #[trigger] spec_hint_grows(hb, j)
}

/// Whether the bytes behind the last place, up to byte `omega`, are zero.
pub open spec fn spec_hint_padding_ok(hb: Seq<u8>, omega: int, rows: int) -> bool {
    forall|j: int| spec_hint_row_end(hb, omega, rows - 1) <= j < omega ==> #[trigger] hb[j] == 0
}

/// The first fault among the first `rows` rows: the rows are looked at in
/// their order, and in each row first its count and then its places.
pub open spec fn spec_hint_row_error(hb: Seq<u8>, omega: int, rows: nat) -> Option<DilithiumError>
    decreases rows,
{
    if rows == 0 {
        None
    } else {
        match spec_hint_row_error(hb, omega, (rows - 1) as nat) {
            Some(e) => Some(e),
            None => if !spec_hint_count_ok(hb, omega, rows - 1) {
                Some(DilithiumError::BadHintOmega)
            } else if !spec_hint_order_ok(hb, omega, rows - 1) {
                Some(DilithiumError::BadHintOrder)
            } else {
                None
            },
        }
    }
}

/// The fault of an encoding of hints in `omega + rows` bytes, if it has one:
/// that of the first faulty row, else that of the padding.
pub open spec fn spec_decode_hint_error(hb: Seq<u8>, omega: int, rows: nat) -> Option<
    DilithiumError,
> {
    match spec_hint_row_error(hb, omega, rows) {
        Some(e) => Some(e),
        None => if !spec_hint_padding_ok(hb, omega, rows as int) {
            Some(DilithiumError::BadHintPadding)
        } else {
            None
        },
    }
}

/// Whether `x` is among the places of `hb` from `start` up to `end`.
pub open spec fn spec_hint_listed(hb: Seq<u8>, start: int, end: int, x: int) -> bool {
    exists|j: int| start <= j < end && #[trigger] hb[j] == x
}

/// The hint vector that an encoding without fault stands for: row `i` is 1
/// at the places that the encoding lists for it, and 0 elsewhere.
pub open spec fn spec_decode_hint(hb: Seq<u8>, omega: int, rows: int) -> Seq<Seq<int>> {
    Seq::new(
        rows as nat,
        |i: int|
            Seq::new(
                256,
                |x: int|
                    if spec_hint_listed(
                        hb,
                        spec_hint_row_start(hb, omega, i),
                        spec_hint_row_end(hb, omega, i),
                        x,
                    ) {
                        1int
                    } else {
                        0int
                    },
            ),
    )
}

/// A fault among the first `a` rows is the fault among the first `b` rows.
pub proof fn lemma_hint_row_error_stays(hb: Seq<u8>, omega: int, a: nat, b: nat)
    requires
        a <= b,
        spec_hint_row_error(hb, omega, a) is Some,
    ensures
        spec_hint_row_error(hb, omega, b) == spec_hint_row_error(hb, omega, a),
    decreases b,
{
    if a < b {
        lemma_hint_row_error_stays(hb, omega, a, (b - 1) as nat);
    }
}

/// Where the first `b` rows have no fault, neither have the first `a`, and
/// the counts and places of every row among them are in order.
pub proof fn lemma_hint_rows_fine(hb: Seq<u8>, omega: int, b: nat, i: int)
    requires
        0 <= i < b,
        spec_hint_row_error(hb, omega, b) is None,
    ensures
        spec_hint_count_ok(hb, omega, i),
        spec_hint_order_ok(hb, omega, i),
    decreases b,
{
    if i < b - 1 {
        lemma_hint_rows_fine(hb, omega, (b - 1) as nat, i);
    }
}

/// Whether the counts and the places of the first `rows` rows are in order.
pub open spec fn spec_hint_rows_ok(hb: Seq<u8>, omega: int, rows: nat) -> bool {
    forall|i: int|
        0 <= i < rows ==> #[trigger] spec_hint_count_ok(hb, omega, i) && spec_hint_order_ok(
            hb,
            omega,
            i,
        )
}

/// An encoding of hints has no fault if and only if the count of every row
/// is neither below that of the row before nor above `omega`, the places of
/// every row grow strictly, and the bytes behind the last place are zero.
/// The fault of the padding is reported only where the rows are in order, and
/// every fault is one of these three.
pub proof fn lemma_hint_faults(hb: Seq<u8>, omega: int, rows: nat)
    ensures
        spec_decode_hint_error(hb, omega, rows) is None <==> (spec_hint_rows_ok(hb, omega, rows)
            && spec_hint_padding_ok(hb, omega, rows as int)),
        spec_decode_hint_error(hb, omega, rows) == Some(DilithiumError::BadHintPadding)
            ==> spec_hint_rows_ok(hb, omega, rows),
        spec_decode_hint_error(hb, omega, rows) is Some ==> (spec_decode_hint_error(
            hb,
            omega,
            rows,
        ) == Some(DilithiumError::BadHintOmega) || spec_decode_hint_error(hb, omega, rows) == Some(
            DilithiumError::BadHintOrder,
        ) || spec_decode_hint_error(hb, omega, rows) == Some(DilithiumError::BadHintPadding)),
{
    lemma_hint_row_error_kinds(hb, omega, rows);
    if spec_hint_row_error(hb, omega, rows) is None {
        assert forall|i: int| 0 <= i < rows implies #[trigger] spec_hint_count_ok(hb, omega, i)
            && spec_hint_order_ok(hb, omega, i) by {
            lemma_hint_rows_fine(hb, omega, rows, i);
        }
    } else {
        if spec_hint_rows_ok(hb, omega, rows) {
            lemma_hint_rows_have_no_error(hb, omega, rows);
        }
    }
}

/// The fault of a row is `BadHintOmega` or `BadHintOrder`.
proof fn lemma_hint_row_error_kinds(hb: Seq<u8>, omega: int, rows: nat)
    ensures
        spec_hint_row_error(hb, omega, rows) is Some ==> spec_hint_row_error(hb, omega, rows)
            == Some(DilithiumError::BadHintOmega) || spec_hint_row_error(hb, omega, rows) == Some(
            DilithiumError::BadHintOrder,
        ),
    decreases rows,
{
    if rows > 0 {
        lemma_hint_row_error_kinds(hb, omega, (rows - 1) as nat);
    }
}

/// Looks for a fault in the encoding of hints `hb`.
pub fn hint_error(hb: &[u8], omega: usize, rows: usize) -> (r: Option<DilithiumError>)
    requires
        1 <= rows,
        hb.len() == omega + rows,
    ensures
        r == spec_decode_hint_error(hb@, omega as int, rows as nat),
{
    let mut k: usize = 0;
    let mut i: usize = 0;
    while i < rows
        invariant
            i <= rows,
            hb.len() == omega + rows,
            spec_hint_row_error(hb@, omega as int, i as nat) is None,
            k == spec_hint_row_start(hb@, omega as int, i as int),
            k <= omega,
        decreases rows - i,
    {
        let end: usize = hb[omega + i] as usize;
        if end < k || end > omega {
            proof {
                lemma_hint_row_error_stays(hb@, omega as int, (i + 1) as nat, rows as nat);
            }
            return Some(DilithiumError::BadHintOmega);
        }
        let mut j: usize = k;
        while j < end
            invariant
                k <= j <= end,
                end <= omega,
                i < rows,
                hb.len() == omega + rows,
                spec_hint_row_error(hb@, omega as int, i as nat) is None,
                k == spec_hint_row_start(hb@, omega as int, i as int),
                end == spec_hint_row_end(hb@, omega as int, i as int),
                forall|y: int| k < y < j ==> #[trigger] spec_hint_grows(hb@, y),
            decreases end - j,
        {
            if j > k && hb[j] <= hb[j - 1] {
                proof {
                    assert(!spec_hint_order_ok(hb@, omega as int, i as int)) by {
                        if spec_hint_order_ok(hb@, omega as int, i as int) {
                            assert(spec_hint_grows(hb@, j as int));
                        }
                    }
                    lemma_hint_row_error_stays(hb@, omega as int, (i + 1) as nat, rows as nat);
                }
                return Some(DilithiumError::BadHintOrder);
            }
            j += 1;
        }
        k = end;
        i += 1;
    }
    let mut j: usize = k;
    while j < omega
        invariant
            k <= j <= omega,
            hb.len() == omega + rows,
            1 <= rows,
            k == spec_hint_row_end(hb@, omega as int, rows - 1),
            spec_hint_row_error(hb@, omega as int, rows as nat) is None,
            forall|y: int| k <= y < j ==> #[trigger] hb@[y] == 0,
        decreases omega - j,
    {
        if hb[j] != 0 {
            proof {
                assert(!spec_hint_padding_ok(hb@, omega as int, rows as int)) by {
                    if spec_hint_padding_ok(hb@, omega as int, rows as int) {
                        assert(hb@[j as int] == 0);
                    }
                }
            }
            return Some(DilithiumError::BadHintPadding);
        }
        j += 1;
    }
    None
}

fn decode_hint(polys: &mut [Poly], hb: &[u8], omega: usize)
    requires
        1 <= old(polys)@.len() <= 8,
        hb.len() == omega + old(polys)@.len(),
        spec_hint_row_error(hb@, omega as int, old(polys)@.len()) is None,
    ensures
        final(polys)@.len() == old(polys)@.len(),
        spec_views(final(polys)@) == spec_decode_hint(
            hb@,
            omega as int,
            old(polys)@.len() as int,
        ),
        spec_polyvec_in_range(spec_views(final(polys)@), 0, 1),
{
    let rows: usize = polys.len();
    let ghost result = spec_decode_hint(hb@, omega as int, rows as int);
    let mut k: usize = 0;
    let mut i: usize = 0;
    while i < rows
        invariant
            i <= rows,
            rows == polys@.len(),
            hb.len() == omega + rows,
            spec_hint_row_error(hb@, omega as int, rows as nat) is None,
            result == spec_decode_hint(hb@, omega as int, rows as int),
            k == spec_hint_row_start(hb@, omega as int, i as int),
            k <= omega,
            forall|r: int| 0 <= r < i ==> (#[trigger] polys@[r])@ == result[r],
            forall|r: int| 0 <= r < i ==> spec_in_range((#[trigger] polys@[r])@, 0, 1),
        decreases rows - i,
    {
        proof {
            lemma_hint_rows_fine(hb@, omega as int, rows as nat, i as int);
        }
        let end: usize = hb[omega + i] as usize;
        let mut row = Poly::default();
        let mut j: usize = k;
        proof {
            assert forall|x: int| 0 <= x < 256 implies #[trigger] row.coeffs@[x] == (
            if spec_hint_listed(hb@, k as int, k as int, x) {
                1int
            } else {
                0int
            }) by {
                assert(row@[x] == row.coeffs@[x] as int);
            }
        }
        while j < end
            invariant
                k <= j <= end,
                end <= omega,
                i < rows,
                hb.len() == omega + rows,
                forall|x: int|
                    0 <= x < 256 ==> #[trigger] row.coeffs@[x] == (if spec_hint_listed(
                        hb@,
                        k as int,
                        j as int,
                        x,
                    ) {
                        1int
                    } else {
                        0int
                    }),
            decreases end - j,
        {
            let place: usize = hb[j] as usize;
            let ghost before = row.coeffs@;
            row.coeffs[place] = 1;
            proof {
                assert forall|x: int| 0 <= x < 256 implies #[trigger] row.coeffs@[x] == (
                if spec_hint_listed(hb@, k as int, j + 1, x) {
                    1int
                } else {
                    0int
                }) by {
                    if x == place {
                        assert(hb@[j as int] == x);
                    } else {
                        if spec_hint_listed(hb@, k as int, j as int, x) {
                            let w = choose|w: int| k <= w < j && #[trigger] hb@[w] == x;
                            assert(k <= w < j + 1 && hb@[w] == x);
                        }
                        if spec_hint_listed(hb@, k as int, j + 1, x) {
                            let w = choose|w: int| k <= w < j + 1 && #[trigger] hb@[w] == x;
                            assert(w != j);
                            assert(k <= w < j && hb@[w] == x);
                        }
                    }
                }
            }
            j += 1;
        }
        proof {
            assert(row@ =~= result[i as int]);
        }
        polys[i] = row;
        k = end;
        i += 1;
    }
    proof {
        assert(spec_views(polys@) =~= result);
        assert forall|r: int| 0 <= r < spec_views(polys@).len() implies spec_in_range(
            #[trigger] spec_views(polys@)[r],
            0,
            1,
        ) by {
            assert(spec_views(polys@)[r] == polys@[r]@);
        }
    }
}

/// The encoded hints of a signature of the level with the parameters `p`.
pub open spec fn spec_sig_hint_bytes(p: ParameterSet, sig: Seq<u8>) -> Seq<u8> {
    sig.skip(32 + p.l * p.polyz_packedbytes)
}

/// Unpacks the signature `sig`, which has the length of the level: its
/// challenge seed goes to the first 32 bytes of `c`, its vectors to `z` and
/// `h`. A signature whose hints are not encoded as they must be is refused,
/// and nothing is written.
pub fn unpack_sig<P: DilithiumParams>(
    c: &mut [u8],
    z: &mut Polyvecl,
    h: &mut Polyveck,
    sig: &[u8],
) -> (r: Result<(), DilithiumError>)
    requires
        sig.len() == P::mode().spec_params().signbytes,
        old(c).len() >= 32,
        old(z).mode() == P::mode(),
        old(h).mode() == P::mode(),
    ensures
        final(c).len() == old(c).len(),
        final(z).mode() == old(z).mode(),
        final(h).mode() == old(h).mode(),
        match spec_decode_hint_error(
            spec_sig_hint_bytes(P::mode().spec_params(), sig@),
            P::mode().spec_params().omega as int,
            P::mode().spec_params().k as nat,
        ) {
            Some(e) => r == Err::<(), DilithiumError>(e) && final(c)@ == old(c)@ && final(z)@
                == old(z)@ && final(h)@ == old(h)@,
            None => r == Ok::<(), DilithiumError>(()) && final(c)@ == sig@.take(32) + old(
                c,
            )@.skip(32) && final(z)@ == spec_unpack_polys_z(
                P::mode().spec_params().gamma1 as int,
                sig@.skip(32),
                P::mode().spec_params().l as int,
            ) && final(h)@ == spec_decode_hint(
                spec_sig_hint_bytes(P::mode().spec_params(), sig@),
                P::mode().spec_params().omega as int,
                P::mode().spec_params().k as int,
            ) && spec_polyvec_in_range(
                final(z)@,
                -P::mode().spec_params().gamma1 + 1,
                P::mode().spec_params().gamma1 as int,
            ) && spec_polyvec_in_range(final(h)@, 0, 1),
        },
{
    let params = P::algorithm().params();
    proof {
        lemma_params_derived(P::mode());
    }
    let idx: usize = 32 + params.l * params.polyz_packedbytes;
    let hb = &sig[idx..sig.len()];
    proof {
        assert(hb@ =~= spec_sig_hint_bytes(params, sig@));
    }
    match hint_error(hb, params.omega, params.k) {
        Some(e) => {
            return Err(e);
        },
        None => {},
    }
    write_bytes(c, 0, sig, 32);
    let z_vec = vec_from_polyvecl_mut(z);
    unpack_polys_z::<P>(z_vec, sig, 32);
    let h_vec = vec_from_polyveck_mut(h);
    decode_hint(h_vec, hb, params.omega);
    proof {
        assert(c@ =~= sig@.take(32) + old(c)@.skip(32));
    }
    Ok(())
}

/// Where every part has `n` bytes, part `i` lies at bytes `n * i` to
/// `n * (i + 1)` of the parts put one after the other.
pub proof fn lemma_concat_part(parts: Seq<Seq<u8>>, n: int, i: int)
    requires
        0 <= i < parts.len(),
        0 <= n,
        forall|k: int| 0 <= k < parts.len() ==> (#[trigger] parts[k]).len() == n,
    ensures
        spec_concat(parts).len() == parts.len() * n,
        0 <= n * i,
        n * (i + 1) <= parts.len() * n,
        spec_concat(parts).subrange(n * i, n * (i + 1)) == parts[i],
    decreases parts.len(),
{
    lemma_concat_len(parts, n);
    lemma_concat_len(parts.drop_last(), n);
    let m = parts.len() as int;
    assert(0 <= n * i && n * (i + 1) == n * i + n && n * (i + 1) <= m * n && (m - 1) * n == m
        * n - n && n * (m - 1) == (m - 1) * n) by (nonlinear_arith)
        requires
            0 <= i < m,
            0 <= n,
    ;
    if i == m - 1 {
        assert(spec_concat(parts).subrange(n * i, n * (i + 1)) =~= parts[i]);
    } else {
        lemma_concat_part(parts.drop_last(), n, i);
        assert(spec_concat(parts).subrange(n * i, n * (i + 1)) =~= spec_concat(
            parts.drop_last(),
        ).subrange(n * i, n * (i + 1)));
    }
}

/// The packed forms of the polynomials of a vector have the length of their
/// kind.
pub proof fn lemma_pack_lengths(v: Seq<Seq<int>>)
    requires
        forall|k: int| 0 <= k < v.len() ==> (#[trigger] v[k]).len() == 256,
    ensures
        forall|k: int| 0 <= k < v.len() ==> (#[trigger] spec_polyt1_pack(v[k])).len() == 320,
        forall|k: int| 0 <= k < v.len() ==> (#[trigger] spec_polyt0_pack(v[k])).len() == 416,
        forall|k: int|
            0 <= k < v.len() ==> (#[trigger] spec_polyeta_pack(2, v[k])).len() == 96,
        forall|k: int|
            0 <= k < v.len() ==> (#[trigger] spec_polyeta_pack(4, v[k])).len() == 128,
        forall|k: int|
            0 <= k < v.len() ==> (#[trigger] spec_polyz_pack(131072, v[k])).len() == 576,
        forall|k: int|
            0 <= k < v.len() ==> (#[trigger] spec_polyz_pack(524288, v[k])).len() == 640,
{
}

/// Unpacking a packed vector of high parts of `t` gives it back.
pub proof fn lemma_unpack_pack_polys_t1(v: Seq<Seq<int>>, rest: Seq<u8>)
    requires
        forall|k: int| 0 <= k < v.len() ==> (#[trigger] v[k]).len() == 256,
        spec_t1_fits(v),
    ensures
        spec_unpack_polys_t1(spec_pack_polys_t1(v) + rest, v.len() as int) == v,
        spec_pack_polys_t1(v).len() == 320 * v.len(),
{
    lemma_pack_lengths(v);
    let parts = Seq::new(v.len(), |k: int| spec_polyt1_pack(v[k]));
    let whole = spec_pack_polys_t1(v) + rest;
    lemma_concat_len(parts, 320);
    assert forall|k: int| 0 <= k < v.len() implies spec_unpack_polys_t1(
        whole,
        v.len() as int,
    )[k] == v[k] by {
        lemma_concat_part(parts, 320, k);
        assert(whole.subrange(320 * k, 320 * (k + 1)) =~= spec_concat(parts).subrange(
            320 * k,
            320 * (k + 1),
        ));
        assert(spec_plain_fits(v[k], 10));
        crate::polypack::lemma_polyt1_unpack_pack(v[k]);
    }
    assert(spec_unpack_polys_t1(whole, v.len() as int) =~= v);
}

/// Unpacking a packed vector of low parts of `t` gives it back.
pub proof fn lemma_unpack_pack_polys_t0(v: Seq<Seq<int>>, rest: Seq<u8>)
    requires
        forall|k: int| 0 <= k < v.len() ==> (#[trigger] v[k]).len() == 256,
        spec_t0_fits(v),
    ensures
        spec_unpack_polys_t0(spec_pack_polys_t0(v) + rest, v.len() as int) == v,
        spec_pack_polys_t0(v).len() == 416 * v.len(),
{
    lemma_pack_lengths(v);
    let parts = Seq::new(v.len(), |k: int| spec_polyt0_pack(v[k]));
    let whole = spec_pack_polys_t0(v) + rest;
    lemma_concat_len(parts, 416);
    assert forall|k: int| 0 <= k < v.len() implies spec_unpack_polys_t0(
        whole,
        v.len() as int,
    )[k] == v[k] by {
        lemma_concat_part(parts, 416, k);
        assert(whole.subrange(416 * k, 416 * (k + 1)) =~= spec_concat(parts).subrange(
            416 * k,
            416 * (k + 1),
        ));
        assert(spec_offset_fits(4096, v[k], 13));
        crate::polypack::lemma_polyt0_unpack_pack(v[k]);
    }
    assert(spec_unpack_polys_t0(whole, v.len() as int) =~= v);
}

/// Unpacking a packed secret vector gives it back.
pub proof fn lemma_unpack_pack_polys_eta(eta: int, v: Seq<Seq<int>>, rest: Seq<u8>)
    requires
        eta == 2 || eta == 4,
        forall|k: int| 0 <= k < v.len() ==> (#[trigger] v[k]).len() == 256,
        spec_eta_fits(eta, v),
    ensures
        spec_unpack_polys_eta(eta, spec_pack_polys_eta(eta, v) + rest, v.len() as int) == v,
        spec_pack_polys_eta(eta, v).len() == 32 * spec_eta_bits(eta) * v.len(),
{
    lemma_pack_lengths(v);
    let nb = 32 * spec_eta_bits(eta);
    let parts = Seq::new(v.len(), |k: int| spec_polyeta_pack(eta, v[k]));
    let whole = spec_pack_polys_eta(eta, v) + rest;
    lemma_concat_len(parts, nb);
    assert forall|k: int| 0 <= k < v.len() implies spec_unpack_polys_eta(
        eta,
        whole,
        v.len() as int,
    )[k] == v[k] by {
        lemma_concat_part(parts, nb, k);
        assert(whole.subrange(nb * k, nb * (k + 1)) =~= spec_concat(parts).subrange(
            nb * k,
            nb * (k + 1),
        ));
        assert(spec_offset_fits(eta, v[k], spec_eta_bits(eta)));
        crate::polypack::lemma_polyeta_unpack_pack(eta, v[k]);
    }
    assert(spec_unpack_polys_eta(eta, whole, v.len() as int) =~= v);
    assert(v.len() * nb == 32 * spec_eta_bits(eta) * v.len()) by (nonlinear_arith)
        requires
            nb == 32 * spec_eta_bits(eta),
    ;
}

/// Unpacking a packed vector `z` gives it back.
pub proof fn lemma_unpack_pack_polys_z(gamma1: int, v: Seq<Seq<int>>, rest: Seq<u8>)
    requires
        gamma1 == 131072 || gamma1 == 524288,
        forall|k: int| 0 <= k < v.len() ==> (#[trigger] v[k]).len() == 256,
        spec_z_fits(gamma1, v),
    ensures
        spec_unpack_polys_z(gamma1, spec_pack_polys_z(gamma1, v) + rest, v.len() as int) == v,
        spec_pack_polys_z(gamma1, v).len() == 32 * spec_gamma1_bits(gamma1) * v.len(),
{
    lemma_pack_lengths(v);
    let nb = 32 * spec_gamma1_bits(gamma1);
    let parts = Seq::new(v.len(), |k: int| spec_polyz_pack(gamma1, v[k]));
    let whole = spec_pack_polys_z(gamma1, v) + rest;
    lemma_concat_len(parts, nb);
    assert forall|k: int| 0 <= k < v.len() implies spec_unpack_polys_z(
        gamma1,
        whole,
        v.len() as int,
    )[k] == v[k] by {
        lemma_concat_part(parts, nb, k);
        assert(whole.subrange(nb * k, nb * (k + 1)) =~= spec_concat(parts).subrange(
            nb * k,
            nb * (k + 1),
        ));
        assert(spec_offset_fits(gamma1, v[k], spec_gamma1_bits(gamma1)));
        crate::polypack::lemma_polyz_unpack_pack(gamma1, v[k]);
    }
    assert(spec_unpack_polys_z(gamma1, whole, v.len() as int) =~= v);
    assert(v.len() * nb == 32 * spec_gamma1_bits(gamma1) * v.len()) by (nonlinear_arith)
        requires
            nb == 32 * spec_gamma1_bits(gamma1),
    ;
}

/// Unpacking a packed public key gives its seed and its vector back.
pub proof fn lemma_unpack_pack_pk(p: ParameterSet, rho: Seq<u8>, t1: Seq<Seq<int>>)
    requires
        rho.len() == 32,
        t1.len() == p.k,
        forall|k: int| 0 <= k < t1.len() ==> (#[trigger] t1[k]).len() == 256,
        spec_t1_fits(t1),
    ensures
        spec_pack_pk(rho, t1).len() == 32 + 320 * p.k,
        spec_pack_pk(rho, t1).take(32) == rho,
        spec_unpack_polys_t1(spec_pack_pk(rho, t1).skip(32), p.k as int) == t1,
{
    lemma_unpack_pack_polys_t1(t1, Seq::<u8>::empty());
    let pk = spec_pack_pk(rho, t1);
    assert(pk.take(32) =~= rho);
    assert(pk.skip(32) =~= spec_pack_polys_t1(t1) + Seq::<u8>::empty());
}

/// Unpacking a packed secret key gives its seeds, its hash and its vectors
/// back, whatever bytes `rest` stand behind it.
pub proof fn lemma_unpack_pack_sk(
    mode: Algorithm,
    rho: Seq<u8>,
    key: Seq<u8>,
    tr: Seq<u8>,
    s1: Seq<Seq<int>>,
    s2: Seq<Seq<int>>,
    t0: Seq<Seq<int>>,
    rest: Seq<u8>,
)
    requires
        rho.len() == 32,
        key.len() == 32,
        tr.len() == 32,
        s1.len() == mode.spec_params().l,
        s2.len() == mode.spec_params().k,
        t0.len() == mode.spec_params().k,
        forall|k: int| 0 <= k < s1.len() ==> (#[trigger] s1[k]).len() == 256,
        forall|k: int| 0 <= k < s2.len() ==> (#[trigger] s2[k]).len() == 256,
        forall|k: int| 0 <= k < t0.len() ==> (#[trigger] t0[k]).len() == 256,
        spec_eta_fits(mode.spec_params().eta as int, s1),
        spec_eta_fits(mode.spec_params().eta as int, s2),
        spec_t0_fits(t0),
    ensures
        ({
            let p = mode.spec_params();
            let sk = spec_pack_sk(p, rho, key, tr, s1, s2, t0) + rest;
            &&& spec_pack_sk(p, rho, key, tr, s1, s2, t0).len() == p.secret_key_packed_bytes
            &&& sk.subrange(0, 32) == rho
            &&& sk.subrange(32, 64) == key
            &&& sk.subrange(64, 96) == tr
            &&& spec_unpack_polys_eta(p.eta as int, sk.skip(96), p.l as int) == s1
            &&& spec_unpack_polys_eta(
                p.eta as int,
                sk.skip(96 + p.l * p.polyeta_packedbytes),
                p.k as int,
            ) == s2
            &&& spec_unpack_polys_t0(
                sk.skip(96 + (p.l + p.k) * p.polyeta_packedbytes),
                p.k as int,
            ) == t0
        }),
{
    let p = mode.spec_params();
    let eta = p.eta as int;
    let sk = spec_pack_sk(p, rho, key, tr, s1, s2, t0) + rest;
    let e1 = spec_pack_polys_eta(eta, s1);
    let e2 = spec_pack_polys_eta(eta, s2);
    let b0 = spec_pack_polys_t0(t0);
    let pad = rest;
    lemma_params_derived(mode);
    lemma_unpack_pack_polys_eta(eta, s1, e2 + b0 + pad);
    lemma_unpack_pack_polys_eta(eta, s2, b0 + pad);
    lemma_unpack_pack_polys_t0(t0, pad);
    assert(32 * spec_eta_bits(eta) == p.polyeta_packedbytes);
    assert(e1.len() == p.l * p.polyeta_packedbytes) by (nonlinear_arith)
        requires
            e1.len() == 32 * spec_eta_bits(eta) * s1.len(),
            s1.len() == p.l,
            32 * spec_eta_bits(eta) == p.polyeta_packedbytes,
    ;
    assert(e2.len() == p.k * p.polyeta_packedbytes) by (nonlinear_arith)
        requires
            e2.len() == 32 * spec_eta_bits(eta) * s2.len(),
            s2.len() == p.k,
            32 * spec_eta_bits(eta) == p.polyeta_packedbytes,
    ;
    assert(b0.len() == p.k * 416) by (nonlinear_arith)
        requires
            b0.len() == 416 * t0.len(),
            t0.len() == p.k,
    ;
    assert(sk.subrange(0, 32) =~= rho);
    assert(sk.subrange(32, 64) =~= key);
    assert(sk.subrange(64, 96) =~= tr);
    assert(sk.skip(96) =~= e1 + (e2 + b0 + pad));
    assert(sk.skip(96 + p.l * p.polyeta_packedbytes) =~= e2 + (b0 + pad));
    assert(sk.skip(96 + (p.l + p.k) * p.polyeta_packedbytes) =~= b0 + pad);
}

/// The places where a polynomial is not zero are listed in ascending order,
/// and a place is listed if and only if the polynomial is not zero there.
pub proof fn lemma_nonzero_positions_sorted(p: Seq<int>, n: nat)
    ensures
        forall|a: int, b: int|
            0 <= a < b < spec_nonzero_positions(p, n).len() ==> #[trigger] spec_nonzero_positions(
                p,
                n,
            )[a] < #[trigger] spec_nonzero_positions(p, n)[b],
        forall|a: int|
            0 <= a < spec_nonzero_positions(p, n).len() ==> 0 <= #[trigger] spec_nonzero_positions(
                p,
                n,
            )[a] < n && p[spec_nonzero_positions(p, n)[a]] != 0,
        forall|x: int|
            0 <= x < n && #[trigger] p[x] != 0 ==> exists|a: int|
                0 <= a < spec_nonzero_positions(p, n).len() && #[trigger] spec_nonzero_positions(
                    p,
                    n,
                )[a] == x,
    decreases n,
{
    if n > 0 {
        lemma_nonzero_positions_sorted(p, (n - 1) as nat);
        let prev = spec_nonzero_positions(p, (n - 1) as nat);
        let cur = spec_nonzero_positions(p, n);
        assert forall|x: int| 0 <= x < n && #[trigger] p[x] != 0 implies exists|a: int|
            0 <= a < cur.len() && #[trigger] cur[a] == x by {
            if x < n - 1 {
                let a = choose|a: int| 0 <= a < prev.len() && #[trigger] prev[a] == x;
                assert(cur[a] == x);
            } else {
                assert(cur[cur.len() - 1] == x);
            }
        }
    }
}

/// The hints of the first `a` rows stand at the front of the hints of the
/// first `b` rows.
pub proof fn lemma_hint_positions_prefix(h: Seq<Seq<int>>, a: nat, b: nat)
    requires
        a <= b,
    ensures
        spec_hint_positions(h, a).len() <= spec_hint_positions(h, b).len(),
        spec_hint_positions(h, b).take(spec_hint_positions(h, a).len() as int)
            == spec_hint_positions(h, a),
    decreases b,
{
    if a < b {
        lemma_hint_positions_prefix(h, a, (b - 1) as nat);
        let pa = spec_hint_positions(h, a);
        let pb1 = spec_hint_positions(h, (b - 1) as nat);
        let pb = spec_hint_positions(h, b);
        assert(pb.take(pa.len() as int) =~= pb1.take(pa.len() as int));
    } else {
        assert(spec_hint_positions(h, b).take(spec_hint_positions(h, a).len() as int)
            =~= spec_hint_positions(h, a));
    }
}

/// The encoding of a vector of zeros and ones that holds at most `omega`
/// ones, where `omega` is below 256, has no fault, and decoding it gives the
/// vector back.
pub proof fn lemma_decode_pack_hint(h: Seq<Seq<int>>, omega: int)
    requires
        1 <= h.len(),
        0 <= omega <= 255,
        forall|k: int| 0 <= k < h.len() ==> (#[trigger] h[k]).len() == 256,
        forall|k: int, x: int|
            0 <= k < h.len() && 0 <= x < 256 ==> 0 <= #[trigger] h[k][x] <= 1,
        spec_hint_count(h) <= omega,
    ensures
        spec_decode_hint_error(spec_pack_hint(h, omega), omega, h.len()) is None,
        spec_decode_hint(spec_pack_hint(h, omega), omega, h.len() as int) == h,
{
    let hb = spec_pack_hint(h, omega);
    let rows = h.len();
    let all = spec_hint_positions(h, rows);
    assert forall|i: int| 0 <= i < rows implies #[trigger] spec_hint_count_ok(hb, omega, i)
        && spec_hint_order_ok(hb, omega, i) by {
        lemma_hint_row(h, omega, i);
    }
    assert forall|i: int| 0 <= i < rows implies #[trigger] spec_decode_hint(
        hb,
        omega,
        rows as int,
    )[i] == h[i] by {
        lemma_hint_row(h, omega, i);
    }
    lemma_hint_row(h, omega, rows - 1);
    lemma_hint_rows_have_no_error(hb, omega, rows);
    assert(spec_hint_padding_ok(hb, omega, rows as int));
    assert(spec_decode_hint(hb, omega, rows as int) =~= h);
}

/// Rows whose counts and places are in order have no fault.
proof fn lemma_hint_rows_have_no_error(hb: Seq<u8>, omega: int, rows: nat)
    requires
        spec_hint_rows_ok(hb, omega, rows),
    ensures
        spec_hint_row_error(hb, omega, rows) is None,
    decreases rows,
{
    if rows > 0 {
        assert(spec_hint_rows_ok(hb, omega, (rows - 1) as nat)) by {
            assert forall|i: int| 0 <= i < rows - 1 implies #[trigger] spec_hint_count_ok(
                hb,
                omega,
                i,
            ) && spec_hint_order_ok(hb, omega, i) by {
                assert(spec_hint_count_ok(hb, omega, i));
            }
        }
        lemma_hint_rows_have_no_error(hb, omega, (rows - 1) as nat);
        assert(spec_hint_count_ok(hb, omega, rows - 1));
    }
}

/// Row `i` of the encoding of hints: its bounds are the counts of hints
/// before and up to the row, its places grow strictly, and it lists the
/// places where row `i` of the vector is 1.
proof fn lemma_hint_row(h: Seq<Seq<int>>, omega: int, i: int)
    requires
        0 <= i < h.len(),
        0 <= omega <= 255,
        forall|k: int| 0 <= k < h.len() ==> (#[trigger] h[k]).len() == 256,
        forall|k: int, x: int|
            0 <= k < h.len() && 0 <= x < 256 ==> 0 <= #[trigger] h[k][x] <= 1,
        spec_hint_count(h) <= omega,
    ensures
        spec_hint_row_start(spec_pack_hint(h, omega), omega, i) == spec_hint_positions(
            h,
            i as nat,
        ).len(),
        spec_hint_row_end(spec_pack_hint(h, omega), omega, i) == spec_hint_positions(
            h,
            (i + 1) as nat,
        ).len(),
        spec_hint_count_ok(spec_pack_hint(h, omega), omega, i),
        spec_hint_order_ok(spec_pack_hint(h, omega), omega, i),
        spec_decode_hint(spec_pack_hint(h, omega), omega, h.len() as int)[i] == h[i],
{
    let hb = spec_pack_hint(h, omega);
    let rows = h.len();
    let all = spec_hint_positions(h, rows);
    let before = spec_hint_positions(h, i as nat);
    let upto = spec_hint_positions(h, (i + 1) as nat);
    let row = spec_nonzero_positions(h[i], 256);
    lemma_hint_positions_prefix(h, i as nat, (i + 1) as nat);
    lemma_hint_positions_prefix(h, (i + 1) as nat, rows);
    lemma_hint_positions_prefix(h, 0, i as nat);
    lemma_nonzero_positions_sorted(h[i], 256);
    assert(upto == before + row);
    let start = before.len() as int;
    let end = upto.len() as int;
    assert(hb[omega + i] == end as u8);
    assert(spec_hint_row_end(hb, omega, i) == end);
    if i > 0 {
        assert(hb[omega + i - 1] == spec_hint_positions(h, (i - 1 + 1) as nat).len() as u8);
    }
    assert(spec_hint_row_start(hb, omega, i) == start);
    assert forall|j: int| start <= j < end implies hb[j] as int == row[j - start] by {
        assert(all.take(end)[j] == upto[j]);
        assert(upto[j] == row[j - start]);
        assert(0 <= row[j - start] < 256);
    }
    assert forall|j: int| start < j < end implies #[trigger] spec_hint_grows(hb, j) by {
        assert(hb[j - 1] as int == row[j - 1 - start]);
        assert(hb[j] as int == row[j - start]);
    }
    let decoded = spec_decode_hint(hb, omega, rows as int)[i];
    assert forall|x: int| 0 <= x < 256 implies decoded[x] == h[i][x] by {
        if h[i][x] != 0 {
            let a = choose|a: int| 0 <= a < row.len() && #[trigger] row[a] == x;
            assert(hb[start + a] as int == row[a]);
            assert(spec_hint_listed(hb, start, end, x));
        } else {
            if spec_hint_listed(hb, start, end, x) {
                let j = choose|j: int| start <= j < end && #[trigger] hb[j] == x;
                assert(hb[j] as int == row[j - start]);
                assert(h[i][row[j - start]] != 0);
            }
        }
    }
    assert(decoded =~= h[i]);
}

/// Unpacking a packed signature gives its challenge seed and its vectors
/// back.
pub proof fn lemma_unpack_pack_sig(
    mode: Algorithm,
    c: Seq<u8>,
    z: Seq<Seq<int>>,
    h: Seq<Seq<int>>,
)
    requires
        c.len() == 32,
        z.len() == mode.spec_params().l,
        h.len() == mode.spec_params().k,
        forall|k: int| 0 <= k < z.len() ==> (#[trigger] z[k]).len() == 256,
        forall|k: int| 0 <= k < h.len() ==> (#[trigger] h[k]).len() == 256,
        spec_z_fits(mode.spec_params().gamma1 as int, z),
        forall|k: int, x: int|
            0 <= k < h.len() && 0 <= x < 256 ==> 0 <= #[trigger] h[k][x] <= 1,
        spec_hint_count(h) <= mode.spec_params().omega,
    ensures
        ({
            let p = mode.spec_params();
            let sig = spec_pack_sig(p, c, z, h);
            let hb = spec_sig_hint_bytes(p, sig);
            &&& sig.len() == p.signbytes
            &&& sig.take(32) == c
            &&& spec_unpack_polys_z(p.gamma1 as int, sig.skip(32), p.l as int) == z
            &&& spec_decode_hint_error(hb, p.omega as int, p.k as nat) is None
            &&& spec_decode_hint(hb, p.omega as int, p.k as int) == h
        }),
{
    let p = mode.spec_params();
    let gamma1 = p.gamma1 as int;
    let sig = spec_pack_sig(p, c, z, h);
    let zb = spec_pack_polys_z(gamma1, z);
    let hp = spec_pack_hint(h, p.omega as int);
    lemma_params_derived(mode);
    lemma_unpack_pack_polys_z(gamma1, z, hp);
    lemma_decode_pack_hint(h, p.omega as int);
    assert(32 * spec_gamma1_bits(gamma1) == p.polyz_packedbytes);
    assert(zb.len() == p.l * p.polyz_packedbytes) by (nonlinear_arith)
        requires
            zb.len() == 32 * spec_gamma1_bits(gamma1) * z.len(),
            z.len() == p.l,
            32 * spec_gamma1_bits(gamma1) == p.polyz_packedbytes,
    ;
    assert(sig.take(32) =~= c);
    assert(sig.skip(32) =~= zb + hp);
    assert(spec_sig_hint_bytes(p, sig) =~= hp);
}

} // verus!
