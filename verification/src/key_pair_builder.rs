//! Key generation.

use crate::arith::coprime;
use crate::big::{os_rng, random_bits, std_rng, val};
use crate::key_pair::{
    carmichael, generator_quotient, lemma_product_at_least, lemma_product_positive,
    modulus_and_exponent, KeyPair,
};
use crate::prime::{generate_possible_prime, has_bit_length, is_failed_search, is_probable_prime};
use num::bigint::BigInt;
use rand::rngs::{OsRng, StdRng};
use vstd::arithmetic::power2::{
    lemma2_to64, lemma_pow2_pos, lemma_pow2_strictly_increases, pow2,
};
use vstd::prelude::*;

verus! {

/// Why no key pair was made.
#[derive(Clone, Copy, Debug, PartialEq, Eq, Structural)]
pub enum BuildError {
    /// None of the candidates that the search was allowed was a probable
    /// prime.
    NoPrime,
    /// None of the candidates that the search was allowed was a generator.
    NoGenerator,
}

/// The options of key generation.
pub struct KeyPairBuilder {
    bits: usize,
    certainty: u32,
    attempts: u64,
}

/// Whether `pair` is a key pair that generation with these options gives on
/// the factors `p` and `q`: both are probable primes, the generator is below
/// `2^bits` and valid, and the pair is the key on them.
pub open spec fn is_generated(pair: KeyPair, bits: usize, certainty: u32, p: int, q: int) -> bool {
    let g = val(&pair.public_key.g);
    &&& is_probable_prime(p, bits as int, certainty as int)
    &&& is_probable_prime(q, bits as int, certainty as int)
    &&& 0 <= g < pow2(bits as nat)
    &&& coprime(generator_quotient(g, carmichael(p, q), p * q), p * q)
    &&& pair.is_key_of(bits, p * q, carmichael(p, q), g)
}

/// Whether `tried` are candidates of at most `bits` bits of which none is a
/// generator for the key on the probable primes `p` and `q`.
pub open spec fn is_failed_generator_search(
    tried: Seq<int>,
    bits: usize,
    certainty: u32,
    p: int,
    q: int,
) -> bool {
    &&& is_probable_prime(p, bits as int, certainty as int)
    &&& is_probable_prime(q, bits as int, certainty as int)
    &&& forall|i: int|
        0 <= i < tried.len() ==> 0 <= #[trigger] tried[i] < pow2(bits as nat) && !coprime(
            generator_quotient(tried[i], carmichael(p, q), p * q),
            p * q,
        )
}

impl KeyPairBuilder {
    /// The bit length of each factor of the modulus.
    pub closed spec fn prime_bits(&self) -> usize {
        self.bits
    }

    /// The number of Miller-Rabin rounds that a factor has to pass.
    pub closed spec fn rounds(&self) -> u32 {
        self.certainty
    }

    /// The number of candidates that each search may draw.
    pub closed spec fn attempt_limit(&self) -> u64 {
        self.attempts
    }

    /// Factors of 512 bits, four rounds, and searches that are as good as
    /// unbounded.
    pub fn new() -> (builder: KeyPairBuilder)
        ensures
            builder.prime_bits() == 512,
            builder.rounds() == 4,
            builder.attempt_limit() == u64::MAX,
    {
        KeyPairBuilder { bits: 512, certainty: 4, attempts: u64::MAX }
    }

    /// Sets the bit length of each factor.
    pub fn bits(&mut self, bits: usize) -> (builder: &mut KeyPairBuilder)
        ensures
            builder.prime_bits() == bits,
            builder.rounds() == old(self).rounds(),
            builder.attempt_limit() == old(self).attempt_limit(),
            *final(self) == *final(builder),
    {
        self.bits = bits;
        self
    }

    /// Sets the number of Miller-Rabin rounds.
    pub fn certainty(&mut self, certainty: u32) -> (builder: &mut KeyPairBuilder)
        ensures
            builder.prime_bits() == old(self).prime_bits(),
            builder.rounds() == certainty,
            builder.attempt_limit() == old(self).attempt_limit(),
            *final(self) == *final(builder),
    {
        self.certainty = certainty;
        self
    }

    /// Sets the number of candidates that each of the three searches may
    /// draw: the two for a factor and the one for a generator.
    pub fn attempts(&mut self, attempts: u64) -> (builder: &mut KeyPairBuilder)
        ensures
            builder.prime_bits() == old(self).prime_bits(),
            builder.rounds() == old(self).rounds(),
            builder.attempt_limit() == attempts,
            *final(self) == *final(builder),
    {
        self.attempts = attempts;
        self
    }

    /// Searches for one factor of the modulus.
    fn draw_factor(&self, sec_rng: &mut OsRng, rng: &mut StdRng) -> (found: Option<BigInt>)
        ensures
            found matches Some(p) ==> is_probable_prime(
                val(&p),
                self.prime_bits() as int,
                self.rounds() as int,
            ),
            found.is_none() ==> exists|rejected: Seq<int>|
                rejected.len() == self.attempt_limit() && #[trigger] is_failed_search(
                    rejected,
                    self.prime_bits() as int,
                    self.rounds() as int,
                ),
            self.attempt_limit() == 0 || self.prime_bits() == 0 ==> found.is_none(),
    {
        let found = generate_possible_prime(
            sec_rng,
            rng,
            self.bits,
            self.certainty,
            self.attempts,
        );
        proof {
            if found.is_none() {
                let rejected = choose|rejected: Seq<int>|
                    rejected.len() == self.attempts && #[trigger] is_failed_search(
                        rejected,
                        self.bits as int,
                        self.certainty as int,
                    );
                assert(is_failed_search(
                    rejected,
                    self.prime_bits() as int,
                    self.rounds() as int,
                ));
            }
        }
        found
    }

    /// Generates a key pair: two probable primes, their product as the
    /// modulus, and the first candidate drawn that is a generator. No prime
    /// is reported where one of the two searches for a factor used up its
    /// candidates, no generator where the search for one did.
    pub fn finalize(&self) -> (out: Result<KeyPair, BuildError>)
        ensures
            out matches Ok(pair) ==> pair.wf() && exists|p: int, q: int| #[trigger]
                is_generated(pair, self.prime_bits(), self.rounds(), p, q),
            out matches Ok(pair) ==> (self.prime_bits() >= 2 ==> val(&pair.public_key.n) > 1),
            out matches Err(BuildError::NoPrime) ==> exists|rejected: Seq<int>|
                rejected.len() == self.attempt_limit() && #[trigger] is_failed_search(
                    rejected,
                    self.prime_bits() as int,
                    self.rounds() as int,
                ),
            out matches Err(BuildError::NoGenerator) ==> exists|p: int, q: int, tried: Seq<int>|
                tried.len() == self.attempt_limit() && #[trigger] is_failed_generator_search(
                    tried,
                    self.prime_bits(),
                    self.rounds(),
                    p,
                    q,
                ),
            self.attempt_limit() == 0 || self.prime_bits() == 0 ==> out matches Err(
                BuildError::NoPrime,
            ),
    {
        let mut sec_rng = os_rng();
        let mut rng = std_rng();

        let p = match self.draw_factor(&mut sec_rng, &mut rng) {
            Some(p) => p,
            None => {
                return Err(BuildError::NoPrime);
            },
        };
        let q = match self.draw_factor(&mut sec_rng, &mut rng) {
            Some(q) => q,
            None => {
                return Err(BuildError::NoPrime);
            },
        };

        let (n, n_squared, lambda) = modulus_and_exponent(&p, &q);
        proof {
            lemma_factors_above_one(val(&p), val(&q), self.bits as int);
        }

        let mut left = self.attempts;
        let ghost mut tried: Seq<int> = Seq::empty();
        while left > 0
            invariant
                left <= self.attempts,
                val(&n) == val(&p) * val(&q),
                val(&n) >= 1,
                self.bits >= 2 ==> val(&n) > 1,
                val(&n_squared) == val(&n) * val(&n),
                val(&lambda) == carmichael(val(&p), val(&q)),
                is_probable_prime(val(&p), self.bits as int, self.certainty as int),
                is_probable_prime(val(&q), self.bits as int, self.certainty as int),
                tried.len() == self.attempts - left,
                is_failed_generator_search(tried, self.bits, self.certainty, val(&p), val(&q)),
            decreases left,
        {
            left -= 1;
            let g = random_bits(&mut sec_rng, self.bits);
            let ghost drawn = val(&g);
            match KeyPair::with_generator(self.bits, &n, &n_squared, &lambda, g) {
                Some(pair) => {
                    let out = Ok(pair);
                    assert(out matches Ok(made) && is_generated(
                        made,
                        self.prime_bits(),
                        self.rounds(),
                        val(&p),
                        val(&q),
                    ));
                    return out;
                },
                None => {
                    proof {
                        tried = tried.push(drawn);
                    }
                },
            }
        }
        let out = Err(BuildError::NoGenerator);
        assert(tried.len() == self.attempt_limit() && is_failed_generator_search(
            tried,
            self.prime_bits(),
            self.rounds(),
            val(&p),
            val(&q),
        ));
        out
    }
}

/// Two factors of exactly `bits` bits are positive, and their product is
/// above one where `bits` is at least two.
pub proof fn lemma_factors_above_one(p: int, q: int, bits: int)
    requires
        has_bit_length(p, bits),
        has_bit_length(q, bits),
    ensures
        p >= 1,
        q >= 1,
        p * q >= 1,
        bits >= 2 ==> p * q > 1,
{
    lemma2_to64();
    lemma_pow2_pos((bits - 1) as nat);
    lemma_product_positive(p, q);
    if bits >= 2 {
        if bits > 2 {
            lemma_pow2_strictly_increases(1, (bits - 1) as nat);
        }
        lemma_product_at_least(p, q, 2);
    }
}

} // verus!
