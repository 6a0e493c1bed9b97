//! A pairing-based threshold cryptosystem for collaborative decryption and
//! signatures, built on the BLS12-381 curve.
//!
//! Group elements are modelled in specifications by the integer they are a
//! multiple of: both pairing groups are cyclic of the prime order
//! [`fr_order()`], so a point is determined by its multiplier of the fixed
//! generator, and every group operation acts on that multiplier modulo the
//! order. The curve arithmetic itself is performed by the `bls12_381` crate
//! behind trusted wrappers.

use vstd::prelude::*;

pub mod arith;
pub mod cmp_pairing;
pub mod error;
pub mod fr;
pub mod groups;
pub mod hashes;
pub mod interpolate;
pub mod keys;
pub mod poly;

pub use cmp_pairing::cmp_projective;
pub use error::Error;
pub use fr::IntoFr;
pub use hashes::{hash_g1_g2, hash_g2, xor_with_hash};
pub use interpolate::{interpolate_g1, interpolate_g2};
pub use keys::{
    Ciphertext, DecryptionShare, PublicKey, PublicKeySet, PublicKeyShare, SecretKey,
    SecretKeySet, SecretKeyShare, Signature, SignatureShare,
};

verus! {

/// The order of the BLS12-381 scalar field `F_r`; both pairing groups are
/// cyclic of this prime order.
pub open spec fn fr_order() -> nat {
    0x73eda753299d7d483339d80809a1d80553bda402fffe5bfeffffffff00000001nat
}

/// The size in bytes of a compressed `G1` point: a public key.
pub const PK_SIZE: usize = 48;

/// The size in bytes of a compressed `G2` point: a signature.
pub const SIG_SIZE: usize = 96;

} // verus!
