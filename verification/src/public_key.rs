//! The public half of a key pair, and encryption.

use crate::arith::{pow_mod, trunc_rem};
use crate::big::{
    big_eq, big_from_u64, big_lt, big_mul, big_rem, os_rng, secure_random_below, val,
};
use crate::bigint_extensions::ModPow;
use num::bigint::BigInt;
use vstd::prelude::*;

verus! {

/// What encryption needs.
pub struct PublicKey {
    /// The bit length that the two factors of the modulus were drawn with.
    pub bits: usize,
    /// The modulus.
    pub n: BigInt,
    /// The square of the modulus.
    pub n_squared: BigInt,
    /// The generator.
    pub g: BigInt,
}

impl PublicKey {
    /// The modulus is positive and `n_squared` is its square.
    pub open spec fn wf(&self) -> bool {
        &&& val(&self.n) >= 1
        &&& val(&self.n_squared) == val(&self.n) * val(&self.n)
    }

    /// The ciphertext of `m` under the blinding factor `r`:
    /// `g^m * r^n`, each power and the product reduced by `n_squared`.
    pub open spec fn encryption(&self, m: int, r: int) -> int {
        trunc_rem(
            pow_mod(val(&self.g), m, val(&self.n_squared)) * pow_mod(
                r,
                val(&self.n),
                val(&self.n_squared),
            ),
            val(&self.n_squared),
        )
    }

    /// Encrypts `m` with the blinding factor `r`. A plaintext is meant to be
    /// in `0 .. n`; one outside is encrypted as it is, and a negative one as
    /// zero.
    pub fn encrypt_with(&self, m: &BigInt, r: &BigInt) -> (c: BigInt)
        requires
            self.wf(),
        ensures
            val(&c) == self.encryption(val(m), val(r)),
    {
        proof {
            lemma_square_positive(val(&self.n));
        }
        let mut result = self.g.mod_pow(m, &self.n_squared);
        let x = r.mod_pow(&self.n, &self.n_squared);
        result = big_mul(&result, &x);
        big_rem(&result, &self.n_squared)
    }

    /// Encrypts `m` with a blinding factor drawn from `n .. n_squared` out of
    /// the operating system's random source. The range is empty where the
    /// modulus is one.
    pub fn encrypt(&self, m: &BigInt) -> (c: BigInt)
        requires
            self.wf(),
            val(&self.n) > 1,
        ensures
            exists|r: int|
                val(&self.n) <= r < val(&self.n_squared) && val(&c) == #[trigger] self.encryption(
                    val(m),
                    r,
                ),
    {
        proof {
            lemma_square_positive(val(&self.n));
        }
        let mut rng = os_rng();
        let r = secure_random_below(&mut rng, &self.n, &self.n_squared);
        self.encrypt_with(m, &r)
    }

    /// Whether the key is well-formed.
    pub fn is_well_formed(&self) -> (ok: bool)
        ensures
            ok == self.wf(),
    {
        let zero = big_from_u64(0);
        big_lt(&zero, &self.n) && big_eq(&big_mul(&self.n, &self.n), &self.n_squared)
    }

    /// Encrypts `m` as [`PublicKey::encrypt`] does, where the key is
    /// well-formed and its modulus is above one, and gives nothing where it
    /// is not.
    pub fn try_encrypt(&self, m: &BigInt) -> (out: Option<BigInt>)
        ensures
            out.is_some() <==> self.wf() && val(&self.n) > 1,
            out matches Some(c) ==> exists|r: int|
                val(&self.n) <= r < val(&self.n_squared) && val(&c) == #[trigger] self.encryption(
                    val(m),
                    r,
                ),
    {
        let one = big_from_u64(1);
        if self.is_well_formed() && big_lt(&one, &self.n) {
            Some(self.encrypt(m))
        } else {
            None
        }
    }
}

/// The square of a positive number is positive, and above the number where
/// that is above one.
pub proof fn lemma_square_positive(n: int)
    requires
        n >= 1,
    ensures
        n * n >= 1,
        n > 1 ==> n < n * n,
{
    assert(n * n >= 1) by (nonlinear_arith)
        requires
            n >= 1,
    ;
    if n > 1 {
        assert(n < n * n) by (nonlinear_arith)
            requires
                n > 1,
        ;
    }
}

} // verus!
