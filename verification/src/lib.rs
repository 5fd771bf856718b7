pub mod bitpack;
pub mod correctness;
pub mod fips202;
pub mod ntt;
pub mod ntt_laws;
pub mod objects;
pub mod packing;
pub mod params;
pub mod poly;
pub mod polypack;
pub mod polyvec;
pub mod randombytes;
pub mod reduce;
pub mod rounding;
pub mod sampling;
pub mod sign;
pub mod symmetric;

pub use objects::{Algorithm, DilithiumError, Keypair, Signature};
