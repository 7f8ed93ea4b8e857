//! Probable primes: trial division by small primes, the Miller-Rabin test,
//! and the search for a candidate that passes both.

use crate::arith::{lemma_pow_mod_adds, lemma_trunc_nonneg, lemma_trunc_rem_zero, pow_mod};
use crate::big::{
    big_bits, big_clone, big_div, big_eq, big_from_u64, big_lt, big_mul, big_rem, big_sub,
    random_below, random_bits, val,
};
use crate::bigint_extensions::ModPow;
use num::bigint::BigInt;
use rand::rngs::{OsRng, StdRng};
use vstd::arithmetic::div_mod::{
    lemma_div_decreases, lemma_div_pos_is_pos, lemma_fundamental_div_mod,
};
use vstd::arithmetic::power2::{
    lemma2_to64, lemma_pow2_pos, lemma_pow2_strictly_increases, lemma_pow2_unfold, pow2,
};
use vstd::prelude::*;

verus! {

/// The primes that a candidate is divided by before the Miller-Rabin test.
pub open spec fn small_primes() -> Seq<u64> {
    seq![2u64, 3u64, 5u64, 7u64, 11u64, 13u64, 17u64, 19u64, 23u64]
}

/// None of the small primes divides `n`.
pub open spec fn survives_trial_division(n: int) -> bool {
    forall|i: int| 0 <= i < small_primes().len() ==> n % (#[trigger] small_primes()[i] as int) != 0
}

/// How often two divides `n`, for a positive `n`.
pub open spec fn twos(n: int) -> nat
    decreases n,
    via twos_decreases
{
    if n > 0 && n % 2 == 0 {
        1 + twos(n / 2)
    } else {
        0
    }
}

#[via_fn]
proof fn twos_decreases(n: int) {
    if n > 0 {
        lemma_div_decreases(n, 2);
        lemma_div_pos_is_pos(n, 2);
    }
}

/// What is left of a positive `n` when every factor two is taken out.
pub open spec fn odd_part(n: int) -> int
    decreases n,
    via odd_part_decreases
{
    if n > 0 && n % 2 == 0 {
        odd_part(n / 2)
    } else {
        n
    }
}

#[via_fn]
proof fn odd_part_decreases(n: int) {
    if n > 0 {
        lemma_div_decreases(n, 2);
        lemma_div_pos_is_pos(n, 2);
    }
}

/// The witness `a` raised to the odd part of `n - 1` and then squared `j`
/// times, reduced by `n`.
pub open spec fn witness_power(n: int, a: int, j: nat) -> int {
    pow_mod(a, odd_part(n - 1) * pow2(j), n)
}

/// Whether `n` passes one round of the test with the witness `a`. With
/// `n - 1 = 2^s * r` and `r` odd, the round passes where `a^r` is `1` or
/// `n - 1`, or where `s - 2` squarings of it end on `n - 1` and never give
/// `1` on the way.
pub open spec fn round_passes(n: int, a: int) -> bool {
    let s = twos(n - 1);
    let first = witness_power(n, a, 0);
    ||| first == 1
    ||| first == n - 1
    ||| {
        &&& s >= 3
        &&& witness_power(n, a, (s - 2) as nat) == n - 1
        &&& forall|j: nat| 1 <= j <= s - 2 ==> #[trigger] witness_power(n, a, j) != 1
    }
}

/// Whether `witnesses` is a run of `rounds` rounds that `n` passes: the
/// first witness is two, each is in `2 ..= n - 2`, and `n` passes the round
/// of each.
pub open spec fn is_passed_run(n: int, rounds: int, witnesses: Seq<int>) -> bool {
    &&& witnesses.len() == rounds
    &&& rounds > 0 ==> witnesses[0] == 2
    &&& forall|i: int|
        0 <= i < witnesses.len() ==> 2 <= #[trigger] witnesses[i] <= n - 2 && round_passes(
            n,
            witnesses[i],
        )
}

/// `n` is odd and none of the small primes divides it.
pub open spec fn passes_filters(n: int) -> bool {
    n % 2 == 1 && survives_trial_division(n)
}

/// `n` has exactly `bits` bits: it is in `2^(bits - 1) .. 2^bits`.
pub open spec fn has_bit_length(n: int, bits: int) -> bool {
    &&& bits >= 1
    &&& pow2((bits - 1) as nat) <= n < pow2(bits as nat)
}

/// Whether `n` can come out of the search for a probable prime of `bits`
/// bits with `certainty` rounds: it has exactly `bits` bits, it is odd, no
/// small prime divides it, and it is at most three or has passed a run of
/// rounds.
pub open spec fn is_probable_prime(n: int, bits: int, certainty: int) -> bool {
    &&& has_bit_length(n, bits)
    &&& passes_filters(n)
    &&& n <= 3 || exists|witnesses: Seq<int>| is_passed_run(n, certainty, witnesses)
}

/// The odd part of a positive number is positive.
pub proof fn lemma_odd_part_positive(n: int)
    requires
        n > 0,
    ensures
        odd_part(n) > 0,
    decreases n,
{
    if n % 2 == 0 {
        lemma_div_decreases(n, 2);
        lemma_fundamental_div_mod(n, 2);
        lemma_odd_part_positive(n / 2);
    }
}

/// Whether none of the small primes divides `candidate`.
pub fn passes_trial_division(candidate: &BigInt) -> (ok: bool)
    ensures
        ok == survives_trial_division(val(candidate)),
{
    let primes: [u64; 9] = [2, 3, 5, 7, 11, 13, 17, 19, 23];
    assert(primes@ =~= small_primes());
    let zero = big_from_u64(0);
    let mut i: usize = 0;
    while i < 9
        invariant
            i <= 9,
            val(&zero) == 0,
            primes@ == small_primes(),
            forall|j: int| 0 <= j < i ==> val(candidate) % (#[trigger] small_primes()[j] as int) != 0,
        decreases 9 - i,
    {
        let prime = big_from_u64(primes[i]);
        proof {
            lemma_trunc_rem_zero(val(candidate), val(&prime));
        }
        if big_eq(&big_rem(candidate, &prime), &zero) {
            assert(val(candidate) % (small_primes()[i as int] as int) == 0);
            return false;
        }
        i += 1;
    }
    true
}

/// Splits a positive `m` into `2^s * r` with `r` odd, by halving while even.
pub fn split_powers_of_two(m: &BigInt) -> (out: (u64, BigInt))
    requires
        val(m) > 0,
    ensures
        out.0 == twos(val(m)),
        val(&out.1) == odd_part(val(m)),
        val(&out.1) > 0,
{
    let zero = big_from_u64(0);
    let two = big_from_u64(2);
    let limit = big_bits(m);
    let mut s: u64 = 0;
    let mut r = big_clone(m);
    proof {
        lemma2_to64();
    }
    while big_eq(&big_rem(&r, &two), &zero)
        invariant
            val(&zero) == 0,
            val(&two) == 2,
            val(&r) > 0,
            val(m) < pow2(limit as nat),
            pow2(s as nat) * val(&r) == val(m),
            twos(val(m)) == s + twos(val(&r)),
            odd_part(val(m)) == odd_part(val(&r)),
        decreases val(&r),
    {
        proof {
            let v = val(&r);
            lemma_trunc_nonneg(v, 2);
            lemma_fundamental_div_mod(v, 2);
            lemma_div_decreases(v, 2);
            lemma_pow2_unfold((s + 1) as nat);
            assert(pow2((s + 1) as nat) * (v / 2) == val(m)) by (nonlinear_arith)
                requires
                    pow2(s as nat) * v == val(m),
                    v == 2 * (v / 2),
                    pow2((s + 1) as nat) == 2 * pow2(s as nat),
            ;
            assert(pow2((s + 1) as nat) <= val(m)) by (nonlinear_arith)
                requires
                    pow2((s + 1) as nat) * (v / 2) == val(m),
                    v / 2 >= 1,
                    pow2((s + 1) as nat) >= 0,
            ;
            if s + 1 >= limit {
                if s + 1 > limit {
                    lemma_pow2_strictly_increases(limit as nat, (s + 1) as nat);
                }
                assert(false);
            }
        }
        s += 1;
        r = big_div(&r, &two);
    }
    proof {
        lemma_trunc_nonneg(val(&r), 2);
    }
    (s, r)
}

/// One round of the Miller-Rabin test on `n` with the witness `a`, given
/// `n - 1` and its split into `2^s * r`.
pub fn witness_round(n: &BigInt, n_minus_one: &BigInt, s: u64, r: &BigInt, a: &BigInt) -> (passes:
    bool)
    requires
        val(n) > 1,
        val(n_minus_one) == val(n) - 1,
        s == twos(val(n) - 1),
        val(r) == odd_part(val(n) - 1),
    ensures
        passes == round_passes(val(n), val(a)),
{
    proof {
        lemma_odd_part_positive(val(n) - 1);
    }
    let one = big_from_u64(1);
    let mut x = a.mod_pow(r, n);
    proof {
        lemma2_to64();
        assert(val(r) * pow2(0) == val(r));
    }
    if big_eq(&x, &one) || big_eq(&x, n_minus_one) {
        return true;
    }
    let mut j: u64 = 1;
    while j + 1 < s
        invariant
            1 <= j,
            j == 1 || j + 1 <= s,
            val(n) > 1,
            val(r) == odd_part(val(n) - 1),
            val(r) > 0,
            val(&one) == 1,
            s == twos(val(n) - 1),
            witness_power(val(n), val(a), 0) != 1,
            witness_power(val(n), val(a), 0) != val(n) - 1,
            val(&x) == witness_power(val(n), val(a), (j - 1) as nat),
            forall|i: nat| 1 <= i < j ==> #[trigger] witness_power(val(n), val(a), i) != 1,
        decreases s - j,
    {
        proof {
            let e = val(r) * pow2((j - 1) as nat);
            lemma_pow2_pos((j - 1) as nat);
            lemma_pow2_unfold(j as nat);
            assert(e >= 0) by (nonlinear_arith)
                requires
                    e == val(r) * pow2((j - 1) as nat),
                    val(r) > 0,
            ;
            assert(e + e == val(r) * pow2(j as nat)) by (nonlinear_arith)
                requires
                    e == val(r) * pow2((j - 1) as nat),
                    pow2(j as nat) == 2 * pow2((j - 1) as nat),
            ;
            lemma_pow_mod_adds(val(a), e as nat, e as nat, val(n));
        }
        x = big_rem(&big_mul(&x, &x), n);
        assert(val(&x) == witness_power(val(n), val(a), j as nat));
        if big_eq(&x, &one) {
            return false;
        }
        j += 1;
    }
    big_eq(&x, n_minus_one)
}

/// The Miller-Rabin test on `n` with `k` rounds. The first round takes the
/// witness two, each later one a witness drawn from `2 ..= n - 2`. Anything up
/// to three passes without a round.
pub fn miller_rabin(n: &BigInt, k: u32, rng: &mut StdRng) -> (probable: bool)
    ensures
        val(n) <= 3 || k == 0 ==> probable,
        k == 1 && round_passes(val(n), 2) ==> probable,
        probable ==> val(n) <= 3 || exists|witnesses: Seq<int>|
            is_passed_run(val(n), k as int, witnesses),
        !probable ==> exists|a: int| 2 <= a <= val(n) - 2 && !round_passes(val(n), a),
{
    let three = big_from_u64(3);
    if !big_lt(&three, n) {
        return true;
    }
    let one = big_from_u64(1);
    let two = big_from_u64(2);
    let n_minus_one = big_sub(n, &one);
    let (s, r) = split_powers_of_two(&n_minus_one);

    let mut a = big_clone(&two);
    let mut round: u32 = 0;
    let ghost mut witnesses: Seq<int> = Seq::empty();
    while round < k
        invariant
            round <= k,
            val(n) > 3,
            val(&two) == 2,
            val(&n_minus_one) == val(n) - 1,
            s == twos(val(n) - 1),
            val(&r) == odd_part(val(n) - 1),
            val(&r) > 0,
            round == 0 ==> val(&a) == 2,
            is_passed_run(val(n), round as int, witnesses),
        decreases k - round,
    {
        if round > 0 {
            a = random_below(rng, &two, &n_minus_one);
        }
        if !witness_round(n, &n_minus_one, s, &r, &a) {
            return false;
        }
        proof {
            witnesses = witnesses.push(val(&a));
        }
        round += 1;
    }
    true
}

/// Whether `candidate` is odd, survives trial division, and passes the
/// Miller-Rabin test with `certainty` rounds.
pub fn is_acceptable(candidate: &BigInt, certainty: u32, rng: &mut StdRng) -> (ok: bool)
    ensures
        ok ==> passes_filters(val(candidate)),
        ok ==> val(candidate) <= 3 || exists|witnesses: Seq<int>|
            is_passed_run(val(candidate), certainty as int, witnesses),
        passes_filters(val(candidate)) && (val(candidate) <= 3 || certainty == 0 || (certainty
            == 1 && round_passes(val(candidate), 2))) ==> ok,
        !ok ==> fails_screening(val(candidate), certainty as int),
{
    let zero = big_from_u64(0);
    let two = big_from_u64(2);
    proof {
        lemma_trunc_rem_zero(val(candidate), 2);
    }
    if big_eq(&big_rem(candidate, &two), &zero) {
        return false;
    }
    if !passes_trial_division(candidate) {
        return false;
    }
    miller_rabin(candidate, certainty, rng)
}

/// Draws candidates of at most `bits` bits from `sec_rng` until one has
/// exactly `bits` bits and is acceptable, and gives up after `attempts` of
/// them. What comes back is the first such draw; nothing comes back where
/// every draw was rejected.
pub fn generate_possible_prime(
    sec_rng: &mut OsRng,
    rng: &mut StdRng,
    bits: usize,
    certainty: u32,
    attempts: u64,
) -> (found: Option<BigInt>)
    ensures
        found matches Some(p) ==> is_probable_prime(val(&p), bits as int, certainty as int),
        found matches Some(p) ==> exists|rejected: Seq<int>|
            rejected.len() < attempts && #[trigger] is_failed_search(
                rejected,
                bits as int,
                certainty as int,
            ),
        found.is_none() ==> exists|rejected: Seq<int>|
            rejected.len() == attempts && #[trigger] is_failed_search(
                rejected,
                bits as int,
                certainty as int,
            ),
        attempts == 0 || bits == 0 ==> found.is_none(),
{
    let mut left = attempts;
    let ghost mut rejected: Seq<int> = Seq::empty();
    while left > 0
        invariant
            left <= attempts,
            rejected.len() == attempts - left,
            is_failed_search(rejected, bits as int, certainty as int),
        decreases left,
    {
        left -= 1;
        let candidate = random_bits(sec_rng, bits);
        if is_of_bit_length(&candidate, bits) && is_acceptable(&candidate, certainty, rng) {
            return Some(candidate);
        }
        proof {
            rejected = rejected.push(val(&candidate));
        }
    }
    None
}

/// Whether `candidate` has exactly `bits` bits.
pub fn is_of_bit_length(candidate: &BigInt, bits: usize) -> (ok: bool)
    ensures
        ok == has_bit_length(val(candidate), bits as int),
{
    let zero = big_from_u64(0);
    proof {
        lemma2_to64();
        if bits >= 1 {
            lemma_pow2_pos((bits - 1) as nat);
        }
    }
    if bits == 0 || big_lt(candidate, &zero) {
        return false;
    }
    let length = big_bits(candidate);
    proof {
        let v = val(candidate);
        if length != bits && has_bit_length(v, bits as int) {
            if length < bits {
                if length < bits - 1 {
                    lemma_pow2_strictly_increases(length as nat, (bits - 1) as nat);
                }
            } else {
                if length - 1 > bits {
                    lemma_pow2_strictly_increases(bits as nat, (length - 1) as nat);
                }
            }
        }
    }
    length == bits as u64
}

/// Whether a candidate `n` can be turned away by the filters and the test
/// with `certainty` rounds: it is even, or a small prime divides it, or it is
/// above three and fails the round of some witness of `2 ..= n - 2`.
pub open spec fn fails_screening(n: int, certainty: int) -> bool {
    ||| !passes_filters(n)
    ||| {
        &&& n > 3
        &&& certainty >= 1
        &&& exists|a: int| 2 <= a <= n - 2 && !round_passes(n, a)
    }
}

/// Whether a draw `n` can be turned away by the search for a probable prime
/// of `bits` bits: it has fewer bits, or it fails the screening.
pub open spec fn is_rejected(n: int, bits: int, certainty: int) -> bool {
    !has_bit_length(n, bits) || fails_screening(n, certainty)
}

/// Whether `draws` are draws of at most `bits` bits of which each was
/// rejected.
pub open spec fn is_failed_search(draws: Seq<int>, bits: int, certainty: int) -> bool {
    forall|i: int|
        0 <= i < draws.len() ==> 0 <= #[trigger] draws[i] < pow2(bits as nat) && is_rejected(
            draws[i],
            bits,
            certainty,
        )
}

} // verus!
