use vstd::prelude::*;
use rand::RngCore;

verus! {

/// Fills `out` with bytes from the random number generator of the operating
/// system: `rand::rngs::OsRng`, through `RngCore::try_fill_bytes`. Returns
/// whether the operating system gave the bytes. Nothing is claimed of the
/// bytes themselves.
#[verifier::external_body]
pub fn randombytes(out: &mut [u8]) -> (filled: bool)
    ensures
        final(out).len() == old(out).len(),
{
    rand::rngs::OsRng.try_fill_bytes(out).is_ok()
}

} // verus!
