//! The private half of a key pair.

use num::bigint::BigInt;
use vstd::prelude::*;

verus! {

/// What decryption needs beside the public key.
pub struct PrivateKey {
    /// The least common multiple of `p - 1` and `q - 1`, for the two factors
    /// `p` and `q` of the modulus.
    pub lambda: BigInt,
    /// The inverse, modulo the modulus, that completes a decryption.
    pub denominator: BigInt,
}

} // verus!
