//! What holds of ciphertexts: the product of two is a ciphertext of the sum,
//! and decryption undoes encryption where the generator and the blinding
//! factor, raised to the private exponent, give one modulo the modulus. That
//! is so for every number coprime to a product of two distinct primes; it is
//! a premise here, since a key is made of probable primes.

use crate::arith::{
    is_inverse, lemma_pow_nonnegative, lemma_trunc_nonneg, lemma_trunc_rem_mul, pow_mod, trunc_rem,
};
use crate::big::val;
use crate::key_pair::{generator_quotient, l_function, KeyPair};
use crate::public_key::{lemma_square_positive, PublicKey};
use vstd::arithmetic::div_mod::{
    lemma_div_multiples_vanish, lemma_fundamental_div_mod,
    lemma_fundamental_div_mod_converse_mod, lemma_mod_bound, lemma_mod_multiples_vanish,
    lemma_mod_mod, lemma_mod_twice, lemma_mul_mod_noop, lemma_mul_mod_noop_left,
    lemma_mul_mod_noop_right, lemma_small_mod,
};
use vstd::arithmetic::power::{
    lemma_pow0, lemma_pow1, lemma_pow_adds, lemma_pow_distributes, lemma_pow_mod_noop,
    lemma_pow_multiplies, pow,
};
use vstd::prelude::*;

verus! {

/// The product of a ciphertext of `m1` and a ciphertext of `m2`, reduced by
/// the square of the modulus, is a ciphertext of `m1 + m2`: the one under the
/// product of the two blinding factors.
pub proof fn product_of_ciphertexts(key: PublicKey, m1: int, r1: int, m2: int, r2: int)
    requires
        key.wf(),
        m1 >= 0,
        m2 >= 0,
    ensures
        trunc_rem(key.encryption(m1, r1) * key.encryption(m2, r2), val(&key.n_squared))
            == key.encryption(m1 + m2, r1 * r2),
{
    let n = val(&key.n);
    let nn = val(&key.n_squared);
    let g = val(&key.g);
    lemma_square_positive(n);
    let g1 = pow(g, m1 as nat);
    let g2 = pow(g, m2 as nat);
    let b1 = pow(r1, n as nat);
    let b2 = pow(r2, n as nat);
    lemma_trunc_rem_mul(g1, b1, nn);
    lemma_trunc_rem_mul(g2, b2, nn);
    lemma_trunc_rem_mul(g1 * b1, g2 * b2, nn);
    lemma_pow_adds(g, m1 as nat, m2 as nat);
    lemma_pow_distributes(r1, r2, n as nat);
    assert((g1 * b1) * (g2 * b2) == (g1 * g2) * (b1 * b2)) by (nonlinear_arith);
    lemma_trunc_rem_mul(pow(g, (m1 + m2) as nat), pow(r1 * r2, n as nat), nn);
}

/// A power of one more than a multiple of `n`, modulo the square of `n`:
/// `(1 + n * x)^m` is `1 + m * n * x`.
pub proof fn lemma_power_of_one_plus_multiple(n: int, x: int, m: nat)
    requires
        n >= 1,
    ensures
        pow(1 + n * x, m) % (n * n) == (1 + m * (n * x)) % (n * n),
    decreases m,
{
    let nn = n * n;
    let b = 1 + n * x;
    lemma_square_positive(n);
    if m == 0 {
        lemma_pow0(b);
    } else {
        let k = (m - 1) as nat;
        lemma_power_of_one_plus_multiple(n, x, k);
        lemma_pow_adds(b, 1, k);
        lemma_pow1(b);
        assert(pow(b, m) == b * pow(b, k));
        lemma_mul_mod_noop_right(b, pow(b, k), nn);
        lemma_mul_mod_noop_right(b, 1 + k * (n * x), nn);
        assert(b * (1 + k * (n * x)) == (1 + m * (n * x)) + (k * x * x) * nn) by (nonlinear_arith)
            requires
                b == 1 + n * x,
                nn == n * n,
                m == k + 1,
        ;
        lemma_mod_multiples_vanish(k * x * x, 1 + m * (n * x), nn);
    }
}

/// One more than a multiple of `n`, reduced by the square of `n`, is one
/// more than `n` times the remainder of the factor.
pub proof fn lemma_one_plus_multiple_reduced(n: int, y: int)
    requires
        n > 1,
    ensures
        (1 + n * y) % (n * n) == 1 + n * (y % n),
        ((1 + n * y) % (n * n) - 1) / n == y % n,
{
    let q = y / n;
    let t = y % n;
    lemma_fundamental_div_mod(y, n);
    lemma_mod_bound(y, n);
    lemma_square_positive(n);
    assert(1 + n * y == (n * n) * q + (1 + n * t)) by (nonlinear_arith)
        requires
            y == n * q + t,
    ;
    assert(0 <= 1 + n * t < n * n) by (nonlinear_arith)
        requires
            0 <= t < n,
            n > 1,
    ;
    lemma_fundamental_div_mod_converse_mod(1 + n * y, n * n, q, 1 + n * t);
    lemma_div_multiples_vanish(t, n);
    assert(n * t == t * n) by (nonlinear_arith);
}

impl KeyPair {
    /// The generator to the private exponent is one modulo the modulus, as
    /// every number coprime to a product of two distinct primes is.
    pub open spec fn generator_is_regular(&self) -> bool {
        &&& val(&self.public_key.g) >= 0
        &&& val(&self.private_key.lambda) >= 0
        &&& pow_mod(
            val(&self.public_key.g),
            val(&self.private_key.lambda),
            val(&self.public_key.n_squared),
        ) % val(&self.public_key.n) == 1
    }

    /// The blinding factor `r` gives one when it is raised to the modulus and
    /// then to the private exponent, modulo the square of the modulus, as
    /// every number coprime to a product of two distinct primes does.
    pub open spec fn is_blinding_factor(&self, r: int) -> bool {
        &&& r >= 0
        &&& pow_mod(
            r,
            val(&self.public_key.n) * val(&self.private_key.lambda),
            val(&self.public_key.n_squared),
        ) == 1
    }
}

/// Decryption undoes encryption: with a regular generator and a blinding
/// factor, the plaintext `m` comes back, reduced by the modulus.
pub proof fn decryption_of_encryption(pair: KeyPair, m: int, r: int)
    requires
        pair.wf(),
        pair.generator_is_regular(),
        pair.is_blinding_factor(r),
        m >= 0,
    ensures
        pair.decryption(pair.public_key.encryption(m, r)) == m % val(&pair.public_key.n),
        m < val(&pair.public_key.n) ==> pair.decryption(pair.public_key.encryption(m, r)) == m,
{
    let n = val(&pair.public_key.n);
    let nn = val(&pair.public_key.n_squared);
    let g = val(&pair.public_key.g);
    let lambda = val(&pair.private_key.lambda);
    let d = val(&pair.private_key.denominator);
    lemma_square_positive(n);
    lemma_small_mod(0, 1);
    assert(n > 1) by {
        if n == 1 {
            assert(pow_mod(g, lambda, nn) % 1 == 0);
        }
    }
    lemma_small_mod(1, n as nat);
    lemma_small_mod(1, nn as nat);

    // The ciphertext is the product of the two powers, reduced.
    let gm = pow(g, m as nat);
    let rn = pow(r, n as nat);
    lemma_pow_nonnegative(g, m as nat);
    lemma_pow_nonnegative(r, n as nat);
    lemma_trunc_rem_mul(gm, rn, nn);
    assert(gm * rn >= 0) by (nonlinear_arith)
        requires
            gm >= 0,
            rn >= 0,
    ;
    let c = pair.public_key.encryption(m, r);
    assert(c == (gm * rn) % nn);
    lemma_mod_bound(gm * rn, nn);

    // Its power to the private exponent is the power of the generator's.
    let gl = pow(g, lambda as nat);
    let ug = gl % nn;
    lemma_pow_nonnegative(g, lambda as nat);
    lemma_mod_bound(gl, nn);
    assert(ug == pow_mod(g, lambda, nn));
    lemma_pow_nonnegative(c, lambda as nat);
    let u = pow_mod(c, lambda, nn);
    assert(u == pow(c, lambda as nat) % nn);
    lemma_pow_mod_noop(gm * rn, lambda as nat, nn);
    lemma_pow_distributes(gm, rn, lambda as nat);
    lemma_pow_multiplies(g, m as nat, lambda as nat);
    lemma_pow_multiplies(g, lambda as nat, m as nat);
    lemma_pow_multiplies(r, n as nat, lambda as nat);
    assert(m * lambda == lambda * m) by (nonlinear_arith);
    assert(pow(gm, lambda as nat) == pow(gl, m as nat));
    let rl = pow(r, (n * lambda) as nat);
    assert(n * lambda >= 0) by (nonlinear_arith)
        requires
            n >= 1,
            lambda >= 0,
    ;
    lemma_pow_nonnegative(r, (n * lambda) as nat);
    assert(rl % nn == 1);
    assert(u == (pow(gl, m as nat) * rl) % nn);
    lemma_mul_mod_noop(pow(gl, m as nat), rl, nn);
    lemma_pow_mod_noop(gl, m as nat, nn);
    assert((pow(gl, m as nat) % nn) * 1 == pow(gl, m as nat) % nn);
    lemma_mod_twice(pow(gl, m as nat), nn);
    assert(u == pow(ug, m as nat) % nn);

    // The generator's power is one more than a multiple of the modulus.
    let lg = generator_quotient(g, lambda, n);
    assert(nn == n * n);
    lemma_fundamental_div_mod(ug, n);
    assert(ug >= 1) by {
        if ug == 0 {
            lemma_small_mod(0, n as nat);
        }
    }
    lemma_trunc_nonneg(ug - 1, n);
    assert(lg == (ug - 1) / n);
    assert(ug - 1 == (ug / n) * n + 0) by (nonlinear_arith)
        requires
            ug == n * (ug / n) + 1,
    ;
    lemma_fundamental_div_mod_converse_mod(ug - 1, n, ug / n, 0);
    lemma_fundamental_div_mod(ug - 1, n);
    assert(ug == 1 + n * lg);
    lemma_power_of_one_plus_multiple(n, lg, m as nat);
    assert(m * (n * lg) == n * (m * lg)) by (nonlinear_arith);
    lemma_one_plus_multiple_reduced(n, m * lg);
    assert(u == 1 + n * ((m * lg) % n));
    lemma_mod_bound(m * lg, n);
    assert(n * ((m * lg) % n) >= 0) by (nonlinear_arith)
        requires
            n >= 1,
            (m * lg) % n >= 0,
    ;
    lemma_trunc_nonneg(u - 1, n);
    assert(l_function(u, n) == (m * lg) % n);

    // The denominator takes the generator's part away.
    let l = (m * lg) % n;
    assert(l * d >= 0) by (nonlinear_arith)
        requires
            l >= 0,
            d >= 0,
    ;
    assert(pair.decryption(c) == (l * d) % n);
    lemma_mul_mod_noop_left(m * lg, d, n);
    assert((m * lg) * d == m * (lg * d)) by (nonlinear_arith);
    lemma_mul_mod_noop_right(m, lg * d, n);
    assert(is_inverse(d, lg, n));
    assert((lg * d) % n == 1);
    assert(m * 1 == m);
    if m < n {
        lemma_small_mod(m as nat, n as nat);
    }
}

/// The product of two ciphertexts decrypts to the sum of the plaintexts,
/// reduced by the modulus.
pub proof fn decryption_of_product(pair: KeyPair, m1: int, r1: int, m2: int, r2: int)
    requires
        pair.wf(),
        pair.generator_is_regular(),
        pair.is_blinding_factor(r1),
        pair.is_blinding_factor(r2),
        m1 >= 0,
        m2 >= 0,
    ensures
        pair.decryption(
            trunc_rem(
                pair.public_key.encryption(m1, r1) * pair.public_key.encryption(m2, r2),
                val(&pair.public_key.n_squared),
            ),
        ) == (m1 + m2) % val(&pair.public_key.n),
{
    let n = val(&pair.public_key.n);
    let nn = val(&pair.public_key.n_squared);
    let lambda = val(&pair.private_key.lambda);
    lemma_square_positive(n);
    product_of_ciphertexts(pair.public_key, m1, r1, m2, r2);
    // the product of two blinding factors is one
    assert(n * lambda >= 0) by (nonlinear_arith)
        requires
            n >= 1,
            lambda >= 0,
    ;
    let e = (n * lambda) as nat;
    lemma_pow_distributes(r1, r2, e);
    lemma_trunc_rem_mul(pow(r1, e), pow(r2, e), nn);
    lemma_small_mod(1, nn as nat);
    assert(n > 1) by {
        if n == 1 {
            assert(pow_mod(val(&pair.public_key.g), lambda, nn) % 1 == 0);
        }
    }
    assert(nn > 1) by (nonlinear_arith)
        requires
            nn == n * n,
            n > 1,
    ;
    assert(r1 * r2 >= 0) by (nonlinear_arith)
        requires
            r1 >= 0,
            r2 >= 0,
    ;
    assert(trunc_rem(1int * 1int, nn) == 1);
    assert(pair.is_blinding_factor(r1 * r2));
    decryption_of_encryption(pair, m1 + m2, r1 * r2);
}

/// `x` to the power `lambda` is one modulo `n`: what Carmichael's theorem
/// gives for the private exponent of a product `n` of two distinct primes and
/// every `x` coprime to it.
pub open spec fn is_unit_power(x: int, lambda: int, n: int) -> bool {
    &&& x >= 0
    &&& lambda >= 0
    &&& pow_mod(x, lambda, n) == 1
}

/// A generator whose power to the private exponent is one modulo the modulus
/// is regular.
pub proof fn regular_from_unit_power(pair: KeyPair)
    requires
        pair.wf(),
        is_unit_power(
            val(&pair.public_key.g),
            val(&pair.private_key.lambda),
            val(&pair.public_key.n),
        ),
    ensures
        pair.generator_is_regular(),
{
    let n = val(&pair.public_key.n);
    let g = val(&pair.public_key.g);
    let lambda = val(&pair.private_key.lambda);
    lemma_square_positive(n);
    lemma_pow_nonnegative(g, lambda as nat);
    lemma_mod_mod(pow(g, lambda as nat), n, n);
}

/// A number whose power to the private exponent is one modulo the modulus is
/// a blinding factor: its power to the modulus times the exponent is one
/// modulo the square of the modulus.
pub proof fn blinding_from_unit_power(pair: KeyPair, r: int)
    requires
        pair.wf(),
        is_unit_power(r, val(&pair.private_key.lambda), val(&pair.public_key.n)),
    ensures
        pair.is_blinding_factor(r),
{
    let n = val(&pair.public_key.n);
    let nn = val(&pair.public_key.n_squared);
    let lambda = val(&pair.private_key.lambda);
    lemma_square_positive(n);
    lemma_small_mod(0, 1);
    assert(n > 1);
    let x = pow(r, lambda as nat);
    lemma_pow_nonnegative(r, lambda as nat);
    assert(x % n == 1);
    lemma_fundamental_div_mod(x, n);
    let k = x / n;
    assert(x == 1 + n * k);
    assert(n * lambda >= 0) by (nonlinear_arith)
        requires
            n >= 1,
            lambda >= 0,
    ;
    assert(lambda * n == n * lambda) by (nonlinear_arith);
    lemma_pow_multiplies(r, lambda as nat, n as nat);
    lemma_power_of_one_plus_multiple(n, k, n as nat);
    assert(1 + n * (n * k) == 1 + k * (n * n)) by (nonlinear_arith);
    lemma_mod_multiples_vanish(k, 1, nn);
    assert(nn > 1) by (nonlinear_arith)
        requires
            nn == n * n,
            n > 1,
    ;
    lemma_small_mod(1, nn as nat);
    lemma_pow_nonnegative(r, (n * lambda) as nat);
}

/// Decryption undoes encryption where the generator and the blinding factor
/// both give one modulo the modulus when raised to the private exponent.
pub proof fn round_trip(pair: KeyPair, m: int, r: int)
    requires
        pair.wf(),
        is_unit_power(
            val(&pair.public_key.g),
            val(&pair.private_key.lambda),
            val(&pair.public_key.n),
        ),
        is_unit_power(r, val(&pair.private_key.lambda), val(&pair.public_key.n)),
        0 <= m < val(&pair.public_key.n),
    ensures
        pair.decryption(pair.public_key.encryption(m, r)) == m,
{
    regular_from_unit_power(pair);
    blinding_from_unit_power(pair, r);
    decryption_of_encryption(pair, m, r);
}

} // verus!
