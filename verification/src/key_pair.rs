//! A key pair, and decryption.

use crate::arith::{
    coprime, is_inverse, lcm, lemma_gcd_one_iff_coprime, lemma_lcm_unique, pow_mod, trunc_div,
    trunc_rem,
};
use crate::big::{
    big_clone, big_div, big_eq, big_from_u64, big_gcd, big_lcm, big_lt, big_mul, big_rem, big_sub,
    val,
};
use crate::bigint_extensions::{ModInverse, ModPow};
use crate::private_key::PrivateKey;
use crate::public_key::{lemma_square_positive, PublicKey};
use num::bigint::BigInt;
use vstd::arithmetic::div_mod::lemma_small_mod;
use vstd::prelude::*;

verus! {

/// A public key with the private key that was made with it.
pub struct KeyPair {
    pub public_key: PublicKey,
    pub private_key: PrivateKey,
}

/// The function `L`: the quotient of `u - 1` by `n`, rounded toward zero.
pub open spec fn l_function(u: int, n: int) -> int {
    trunc_div(u - 1, n)
}

/// `L(g^lambda)`, the power reduced by the square of `n`: what decides
/// whether `g` is a generator for the modulus `n` and the exponent `lambda`,
/// and what the denominator of the private key inverts.
pub open spec fn generator_quotient(g: int, lambda: int, n: int) -> int {
    l_function(pow_mod(g, lambda, n * n), n)
}

impl KeyPair {
    /// The public key is well-formed, and the denominator is the inverse of
    /// the generator's quotient modulo the modulus.
    pub open spec fn wf(&self) -> bool {
        &&& self.public_key.wf()
        &&& is_inverse(
            val(&self.private_key.denominator),
            generator_quotient(
                val(&self.public_key.g),
                val(&self.private_key.lambda),
                val(&self.public_key.n),
            ),
            val(&self.public_key.n),
        )
    }

    /// The key pair is the one on the modulus `n`, the exponent `lambda` and
    /// the generator `g`, for factors of `bits` bits.
    pub open spec fn is_key_of(&self, bits: usize, n: int, lambda: int, g: int) -> bool {
        &&& self.public_key.bits == bits
        &&& val(&self.public_key.n) == n
        &&& val(&self.public_key.g) == g
        &&& val(&self.private_key.lambda) == lambda
        &&& self.wf()
    }

    /// The plaintext of `c`: `L(c^lambda) * denominator`, the power reduced
    /// by `n_squared` and the product by `n`.
    pub open spec fn decryption(&self, c: int) -> int {
        trunc_rem(
            l_function(
                pow_mod(c, val(&self.private_key.lambda), val(&self.public_key.n_squared)),
                val(&self.public_key.n),
            ) * val(&self.private_key.denominator),
            val(&self.public_key.n),
        )
    }

    /// Decrypts `c`. A ciphertext is meant to be in `0 .. n_squared`.
    pub fn decrypt(&self, c: &BigInt) -> (m: BigInt)
        requires
            self.public_key.wf(),
        ensures
            val(&m) == self.decryption(val(c)),
    {
        proof {
            lemma_square_positive(val(&self.public_key.n));
        }
        let n = &self.public_key.n;
        let n_square = &self.public_key.n_squared;
        let lambda = &self.private_key.lambda;
        let u = &self.private_key.denominator;

        let l = calculate_l(&c.mod_pow(lambda, n_square), n);
        big_rem(&big_mul(&l, u), n)
    }

    /// Decrypts `c` as [`KeyPair::decrypt`] does, where the public key is
    /// well-formed, and gives nothing where it is not.
    pub fn try_decrypt(&self, c: &BigInt) -> (out: Option<BigInt>)
        ensures
            out.is_some() <==> self.public_key.wf(),
            out matches Some(m) ==> val(&m) == self.decryption(val(c)),
    {
        if self.public_key.is_well_formed() {
            Some(self.decrypt(c))
        } else {
            None
        }
    }

    /// The key pair on the modulus `n` and the exponent `lambda` with the
    /// generator `g`, where `g` is one: where its quotient is coprime to `n`.
    pub fn with_generator(
        bits: usize,
        n: &BigInt,
        n_squared: &BigInt,
        lambda: &BigInt,
        g: BigInt,
    ) -> (out: Option<KeyPair>)
        requires
            val(n) >= 1,
            val(n_squared) == val(n) * val(n),
        ensures
            out.is_some() <==> coprime(generator_quotient(val(&g), val(lambda), val(n)), val(n)),
            out matches Some(pair) ==> pair.is_key_of(bits, val(n), val(lambda), val(&g)),
    {
        proof {
            lemma_square_positive(val(n));
        }
        let one = big_from_u64(1);
        let helper = calculate_l(&g.mod_pow(lambda, n_squared), n);
        let a = big_gcd(&helper, n);
        proof {
            lemma_gcd_one_iff_coprime(val(&a), val(&helper), val(n));
        }
        if !big_eq(&a, &one) {
            return None;
        }
        let denominator = helper.mod_inverse(n).unwrap();
        let public_key = PublicKey {
            bits: bits,
            n: big_clone(n),
            n_squared: big_clone(n_squared),
            g: g,
        };
        let private_key = PrivateKey { lambda: big_clone(lambda), denominator: denominator };
        Some(KeyPair { public_key: public_key, private_key: private_key })
    }

    /// The key pair on the factors `p` and `q` with the generator `g`, where
    /// both factors are positive and `g` is a generator.
    pub fn from_primes(bits: usize, p: &BigInt, q: &BigInt, g: BigInt) -> (out: Option<KeyPair>)
        ensures
            out.is_some() <==> val(p) >= 1 && val(q) >= 1 && coprime(
                generator_quotient(val(&g), carmichael(val(p), val(q)), val(p) * val(q)),
                val(p) * val(q),
            ),
            out matches Some(pair) ==> pair.is_key_of(
                bits,
                val(p) * val(q),
                carmichael(val(p), val(q)),
                val(&g),
            ),
    {
        let one = big_from_u64(1);
        if big_lt(p, &one) || big_lt(q, &one) {
            return None;
        }
        let (n, n_squared, lambda) = modulus_and_exponent(p, q);
        proof {
            lemma_product_positive(val(p), val(q));
        }
        KeyPair::with_generator(bits, &n, &n_squared, &lambda, g)
    }
}

/// The modulus on the factors `p` and `q`, its square, and the private
/// exponent.
pub fn modulus_and_exponent(p: &BigInt, q: &BigInt) -> (out: (BigInt, BigInt, BigInt))
    ensures
        val(&out.0) == val(p) * val(q),
        val(&out.1) == val(&out.0) * val(&out.0),
        val(&out.2) == carmichael(val(p), val(q)),
{
    let n = big_mul(p, q);
    let n_squared = big_mul(&n, &n);

    let one = big_from_u64(1);
    let p_minus_one = big_sub(p, &one);
    let q_minus_one = big_sub(q, &one);

    let lambda = big_lcm(&p_minus_one, &q_minus_one);
    proof {
        lemma_lcm_unique(val(&lambda), val(p) - 1, val(q) - 1);
    }
    (n, n_squared, lambda)
}

/// The product of two numbers that are at least `low` is at least the square
/// of `low`, for a positive `low`.
pub proof fn lemma_product_at_least(p: int, q: int, low: int)
    requires
        low >= 1,
        p >= low,
        q >= low,
    ensures
        p * q >= low * low,
        low * low >= low,
{
    assert(p * q >= low * low) by (nonlinear_arith)
        requires
            low >= 1,
            p >= low,
            q >= low,
    ;
    assert(low * low >= low) by (nonlinear_arith)
        requires
            low >= 1,
    ;
}

/// The product of two positive numbers is positive.
pub proof fn lemma_product_positive(p: int, q: int)
    requires
        p >= 1,
        q >= 1,
    ensures
        p * q >= 1,
{
    lemma_product_at_least(p, q, 1);
}

/// In a well-formed key pair, the generator's quotient times the denominator
/// leaves the remainder of one.
pub proof fn denominator_inverts(pair: KeyPair)
    requires
        pair.wf(),
    ensures
        (generator_quotient(
            val(&pair.public_key.g),
            val(&pair.private_key.lambda),
            val(&pair.public_key.n),
        ) * val(&pair.private_key.denominator)) % val(&pair.public_key.n) == 1int % val(
            &pair.public_key.n,
        ),
        val(&pair.public_key.n) > 1 ==> (generator_quotient(
            val(&pair.public_key.g),
            val(&pair.private_key.lambda),
            val(&pair.public_key.n),
        ) * val(&pair.private_key.denominator)) % val(&pair.public_key.n) == 1,
{
    if val(&pair.public_key.n) > 1 {
        lemma_small_mod(1, val(&pair.public_key.n) as nat);
    }
}

/// The exponent of a key on the factors `p` and `q`: the least common
/// multiple of `p - 1` and `q - 1`.
pub open spec fn carmichael(p: int, q: int) -> int {
    lcm(p - 1, q - 1)
}

/// The function `L` on `u` and the modulus `n`, and nothing where `n` is
/// zero.
pub fn checked_calculate_l(u: &BigInt, n: &BigInt) -> (out: Option<BigInt>)
    ensures
        out.is_some() <==> val(n) != 0,
        out matches Some(l) ==> val(&l) == l_function(val(u), val(n)),
{
    if big_eq(n, &big_from_u64(0)) {
        None
    } else {
        Some(calculate_l(u, n))
    }
}

/// The function `L` on `u` and the modulus `n`.
pub fn calculate_l(u: &BigInt, n: &BigInt) -> (l: BigInt)
    requires
        val(n) != 0,
    ensures
        val(&l) == l_function(val(u), val(n)),
{
    let r = big_sub(u, &big_from_u64(1));
    big_div(&r, n)
}

} // verus!
