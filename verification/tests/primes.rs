use num::bigint::BigInt;
use rand::rngs::{OsRng, StdRng};
use rand::SeedableRng;
use rpaillier::bigint_extensions::ModPow;
use rpaillier::prime::{
    generate_possible_prime, is_acceptable, is_of_bit_length, miller_rabin,
    passes_trial_division, split_powers_of_two, witness_round,
};

fn round(n: i64, a: i64) -> bool {
    let big_n = BigInt::from(n);
    let n_minus_one = BigInt::from(n - 1);
    let (s, r) = split_powers_of_two(&n_minus_one);
    witness_round(&big_n, &n_minus_one, s, &r, &BigInt::from(a))
}

#[test]
fn trial_division_rejects_multiples_of_small_primes() {
    for p in [2i64, 3, 5, 7, 11, 13, 17, 19, 23] {
        assert!(!passes_trial_division(&BigInt::from(p)));
        assert!(!passes_trial_division(&BigInt::from(p * 29)));
        assert!(!passes_trial_division(&BigInt::from(-p)));
    }
    assert!(!passes_trial_division(&BigInt::from(0)));
}

#[test]
fn trial_division_accepts_what_no_small_prime_divides() {
    assert!(passes_trial_division(&BigInt::from(1)));
    assert!(passes_trial_division(&BigInt::from(29)));
    assert!(passes_trial_division(&BigInt::from(31)));
    assert!(passes_trial_division(&BigInt::from(29 * 31)));
    assert!(passes_trial_division(&BigInt::from(-29)));
}

#[test]
fn split_powers_of_two_halves_while_even() {
    assert_eq!(split_powers_of_two(&BigInt::from(40)), (3, BigInt::from(5)));
    assert_eq!(split_powers_of_two(&BigInt::from(1)), (0, BigInt::from(1)));
    assert_eq!(split_powers_of_two(&BigInt::from(7)), (0, BigInt::from(7)));
    assert_eq!(split_powers_of_two(&BigInt::from(16)), (4, BigInt::from(1)));
    let big = BigInt::from(3) << 200;
    assert_eq!(split_powers_of_two(&big), (200, BigInt::from(3)));
}

#[test]
fn witness_round_passes_on_one_and_minus_one() {
    // 7 - 1 = 2 * 3, and 2^3 = 1, 3^3 = 6 modulo 7
    assert!(round(7, 2));
    assert!(round(7, 3));
    // 29 - 1 = 4 * 7, and 4^7 = 28, 7^7 = 1 modulo 29
    assert!(round(29, 4));
    assert!(round(29, 7));
    // 12^7 = 17, and no squaring is left
    assert!(!round(29, 12));
}

#[test]
fn witness_round_squares_two_times_less_than_the_exponent_of_two() {
    // 17 - 1 = 2^4: 2, 4, 16
    assert!(round(17, 2));
    // 3, 9, 13
    assert!(!round(17, 3));
    // 13 - 1 = 4 * 3: 2^3 = 8, and no squaring is left
    assert!(!round(13, 2));
    // 41 - 1 = 8 * 5: 3^5 = 38, 38^2 = 9, and 9 is not 40
    assert!(!round(41, 3));
    // 97 - 1 = 32 * 3: 5^3 = 28, then 8, 64, 22, and 22 is not 96
    assert!(!round(97, 5));
}

#[test]
fn witness_round_fails_where_a_square_is_one() {
    // 33 - 1 = 32: 10 squared is 1
    assert!(!round(33, 10));
    // 65 - 1 = 64: 8 squared is 64, and 64 squared is 1
    assert!(!round(65, 8));
}

#[test]
fn witness_round_fails_on_composites() {
    assert!(!round(9, 2));
    assert!(!round(15, 2));
    assert!(!round(21, 2));
    assert!(!round(899, 2));
}

#[test]
fn miller_rabin_accepts_anything_up_to_three() {
    let mut rng = StdRng::seed_from_u64(7);
    for n in -3i64..4 {
        assert!(miller_rabin(&BigInt::from(n), 4, &mut rng));
    }
}

#[test]
fn miller_rabin_without_rounds_accepts() {
    let mut rng = StdRng::seed_from_u64(7);
    assert!(miller_rabin(&BigInt::from(9), 0, &mut rng));
    assert!(miller_rabin(&BigInt::from(4), 0, &mut rng));
}

#[test]
fn miller_rabin_rejects_composites() {
    let mut rng = StdRng::seed_from_u64(7);
    for n in [4i64, 9, 15, 21, 25, 899, 561, 1105] {
        assert!(!miller_rabin(&BigInt::from(n), 4, &mut rng));
    }
}

#[test]
fn strong_pseudoprime_passes_its_round_and_fails_trial_division() {
    // 2047 = 23 * 89, and 2^1023 = 1 modulo 2047
    assert!(round(2047, 2));
    let mut rng = StdRng::seed_from_u64(7);
    assert!(miller_rabin(&BigInt::from(2047), 1, &mut rng));
    assert!(!is_acceptable(&BigInt::from(2047), 1, &mut rng));
}

#[test]
fn miller_rabin_accepts_primes_that_every_witness_passes() {
    // modulo 7 every cube is one or minus one
    for seed in 0u64..20 {
        let mut rng = StdRng::seed_from_u64(seed);
        assert!(miller_rabin(&BigInt::from(7), 10, &mut rng));
    }
}

#[test]
fn miller_rabin_on_a_large_prime() {
    // 2^127 - 1 is three modulo four, so a round passes on every witness
    let p = (BigInt::from(1) << 127) - BigInt::from(1);
    let mut rng = StdRng::seed_from_u64(3);
    assert!(miller_rabin(&p, 8, &mut rng));
    let composite = &p * BigInt::from(29);
    assert!(!miller_rabin(&composite, 8, &mut rng));
}

#[test]
fn is_acceptable_rejects_even_and_divisible_candidates() {
    let mut rng = StdRng::seed_from_u64(1);
    assert!(!is_acceptable(&BigInt::from(0), 4, &mut rng));
    assert!(!is_acceptable(&BigInt::from(2), 4, &mut rng));
    assert!(!is_acceptable(&BigInt::from(3), 4, &mut rng));
    assert!(!is_acceptable(&BigInt::from(23), 4, &mut rng));
    assert!(!is_acceptable(&BigInt::from(29 * 31), 4, &mut rng));
    assert!(is_acceptable(&BigInt::from(1), 4, &mut rng));
    assert!(is_acceptable(&BigInt::from(31), 4, &mut rng));
}

#[test]
fn generate_possible_prime_without_attempts_finds_none() {
    let mut sec_rng = OsRng;
    let mut rng = StdRng::seed_from_u64(1);
    assert_eq!(generate_possible_prime(&mut sec_rng, &mut rng, 64, 4, 0), None);
}

#[test]
fn generate_possible_prime_of_no_bits_finds_none() {
    let mut sec_rng = OsRng;
    let mut rng = StdRng::seed_from_u64(1);
    assert_eq!(generate_possible_prime(&mut sec_rng, &mut rng, 0, 4, 50), None);
}

#[test]
fn generated_primes_pass_every_filter() {
    let mut sec_rng = OsRng;
    let mut rng = StdRng::seed_from_u64(1);
    for _ in 0..5 {
        let p = generate_possible_prime(&mut sec_rng, &mut rng, 64, 10, 1_000_000).unwrap();
        assert!(p >= (BigInt::from(1) << 63));
        assert!(p < (BigInt::from(1) << 64));
        assert_eq!(&p % BigInt::from(2), BigInt::from(1));
        for small in [2i64, 3, 5, 7, 11, 13, 17, 19, 23] {
            assert!(&p % BigInt::from(small) != BigInt::from(0));
        }
        assert!(passes_trial_division(&p));
        if p > BigInt::from(3) {
            let n_minus_one = &p - BigInt::from(1);
            let (s, r) = split_powers_of_two(&n_minus_one);
            assert!(witness_round(&p, &n_minus_one, s, &r, &BigInt::from(2)));
            // a probable prime to the base two
            assert_eq!(BigInt::from(2).mod_pow(&n_minus_one, &p), BigInt::from(1));
        }
    }
}

#[test]
fn is_of_bit_length_counts_the_bits() {
    assert!(is_of_bit_length(&BigInt::from(1), 1));
    assert!(is_of_bit_length(&BigInt::from(16), 5));
    assert!(is_of_bit_length(&BigInt::from(31), 5));
    assert!(!is_of_bit_length(&BigInt::from(15), 5));
    assert!(!is_of_bit_length(&BigInt::from(32), 5));
    assert!(!is_of_bit_length(&BigInt::from(0), 0));
    assert!(!is_of_bit_length(&BigInt::from(0), 1));
    assert!(!is_of_bit_length(&BigInt::from(-16), 5));
    let big = BigInt::from(1) << 200;
    assert!(is_of_bit_length(&big, 201));
    assert!(!is_of_bit_length(&big, 200));
}

#[test]
fn generate_possible_prime_of_few_bits_finds_none() {
    let mut sec_rng = OsRng;
    let mut rng = StdRng::seed_from_u64(1);
    for bits in 2usize..5 {
        assert_eq!(generate_possible_prime(&mut sec_rng, &mut rng, bits, 4, 200), None);
    }
}

#[test]
fn generate_possible_prime_of_one_bit_finds_one() {
    let mut sec_rng = OsRng;
    let mut rng = StdRng::seed_from_u64(1);
    let p = generate_possible_prime(&mut sec_rng, &mut rng, 1, 4, 200).unwrap();
    assert_eq!(p, BigInt::from(1));
}

#[test]
fn generate_possible_prime_of_five_bits_finds_31() {
    let mut sec_rng = OsRng;
    let mut rng = StdRng::seed_from_u64(1);
    for _ in 0..10 {
        let p = generate_possible_prime(&mut sec_rng, &mut rng, 5, 4, 100000).unwrap();
        assert_eq!(p, BigInt::from(31));
    }
}
