//! Modular exponentiation and modular inversion on `BigInt`.

use crate::arith::{
    abs, common_divisor, coprime, inverse_needs_coprime, inverse_unique, is_inverse,
    lemma_common_divisor_residue, lemma_common_divisor_step, lemma_coprime_by_unit,
    lemma_pow_mod_adds,
    lemma_pow_mod_next, lemma_trunc_nonneg, pow_mod, trunc_rem,
};
use crate::big::{
    big_add, big_clone, big_div, big_eq, big_from_u64, big_lt, big_mul, big_rem, big_sub,
    big_to_usize, val,
};
use num::bigint::BigInt;
use vstd::arithmetic::div_mod::{
    lemma_basic_div, lemma_div_decreases, lemma_div_non_zero, lemma_div_pos_is_pos,
    lemma_fundamental_div_mod, lemma_fundamental_div_mod_converse_mod, lemma_mod_bound,
    lemma_mod_multiples_vanish, lemma_mod_self_0, lemma_mul_mod_noop_left, lemma_small_mod,
};
use vstd::arithmetic::power::lemma_pow0;
use vstd::arithmetic::power2::{
    lemma2_to64, lemma_pow2_pos, lemma_pow2_strictly_increases, lemma_pow2_unfold, pow2,
};
use vstd::prelude::*;

verus! {

/// The window width that `mod_pow` works with.
const DEFAULT_BUCKET_SIZE: usize = 5;

/// The digits of `n` in base `b`, least significant first. Zero has no
/// digits, and neither has a negative number.
pub open spec fn digits_of(n: int, b: int) -> Seq<usize>
    decreases n,
    when b >= 2
    via digits_of_decreases
{
    if n <= 0 {
        Seq::empty()
    } else {
        seq![(n % b) as usize].add(digits_of(n / b, b))
    }
}

#[via_fn]
proof fn digits_of_decreases(n: int, b: int) {
    if n > 0 {
        lemma_div_decreases(n, b);
        lemma_div_pos_is_pos(n, b);
    }
}

/// The number that `digits` stand for in base `b`, least significant first.
pub open spec fn digits_value(digits: Seq<usize>, b: int) -> int
    decreases digits.len(),
{
    if digits.len() == 0 {
        0
    } else {
        digits[0] + b * digits_value(digits.drop_first(), b)
    }
}

/// Every digit of a number is below the base.
pub proof fn lemma_digits_below_base(n: int, b: int)
    requires
        2 <= b <= usize::MAX,
    ensures
        forall|i: int| 0 <= i < digits_of(n, b).len() ==> 0 <= #[trigger] digits_of(n, b)[i] < b,
    decreases n,
{
    if n > 0 {
        lemma_div_decreases(n, b);
        lemma_div_pos_is_pos(n, b);
        lemma_mod_bound(n, b);
        lemma_digits_below_base(n / b, b);
        let rest = digits_of(n / b, b);
        assert forall|i: int| 0 <= i < digits_of(n, b).len() implies 0 <= #[trigger] digits_of(
            n,
            b,
        )[i] < b by {
            if i > 0 {
                assert(digits_of(n, b)[i] == rest[i - 1]);
            }
        }
    }
}

/// The digits of a number stand for that number.
pub proof fn lemma_digits_value(n: int, b: int)
    requires
        0 <= n,
        2 <= b <= usize::MAX,
    ensures
        digits_value(digits_of(n, b), b) == n,
    decreases n,
{
    if n > 0 {
        lemma_div_decreases(n, b);
        lemma_div_pos_is_pos(n, b);
        lemma_mod_bound(n, b);
        lemma_fundamental_div_mod(n, b);
        lemma_digits_value(n / b, b);
        assert(digits_of(n, b).drop_first() =~= digits_of(n / b, b));
    }
}

/// The digits of `e` in base `b`, least significant first.
pub fn digits_of_n(e: &BigInt, b: usize) -> (digits: Vec<usize>)
    requires
        b >= 2,
    ensures
        digits@ == digits_of(val(e), b as int),
{
    let mut digits: Vec<usize> = Vec::new();
    let mut n = big_clone(e);
    let base = big_from_u64(b as u64);
    let zero = big_from_u64(0);
    while big_lt(&zero, &n)
        invariant
            b >= 2,
            val(&base) == b,
            val(&zero) == 0,
            digits_of(val(e), b as int) == digits@.add(digits_of(val(&n), b as int)),
        decreases val(&n),
    {
        proof {
            lemma_trunc_nonneg(val(&n), b as int);
            lemma_div_decreases(val(&n), b as int);
            assert(digits@.push((val(&n) % (b as int)) as usize).add(
                digits_of(val(&n) / (b as int), b as int),
            ) =~= digits@.add(digits_of(val(&n), b as int)));
        }
        let digit = big_to_usize(&big_rem(&n, &base)).unwrap();
        digits.push(digit);
        n = big_div(&n, &base);
    }
    assert(digits@.add(digits_of(val(&n), b as int)) =~= digits@);
    digits
}

/// Two to the power `k`, the base in which a window of `k` bits is a digit.
pub fn window_base(k: usize) -> (base: usize)
    requires
        pow2(k as nat) <= usize::MAX,
    ensures
        base == pow2(k as nat),
{
    let mut base: usize = 1;
    let mut i: usize = 0;
    proof {
        lemma2_to64();
    }
    while i < k
        invariant
            i <= k,
            base == pow2(i as nat),
            pow2(k as nat) <= usize::MAX,
        decreases k - i,
    {
        proof {
            lemma_pow2_unfold((i + 1) as nat);
            if i + 1 < k {
                lemma_pow2_strictly_increases((i + 1) as nat, k as nat);
            }
        }
        base = base * 2;
        i += 1;
    }
    base
}

/// Modular exponentiation.
pub trait ModPow<T, K>: Sized {
    /// Whether `m` can be reduced by.
    spec fn is_modulus(m: &K) -> bool;

    /// Whether `r` is `self` to the power `exp`, reduced by `m`.
    spec fn is_mod_pow(&self, exp: &T, m: &K, r: &Self) -> bool;

    /// `self` to the power `exp`, reduced by `m`.
    fn mod_pow(&self, exp: &T, m: &K) -> (r: Self)
        requires
            Self::is_modulus(m),
        ensures
            self.is_mod_pow(exp, m, &r),
    ;

    /// `self` to the power `exp`, reduced by `m`, worked out with windows of
    /// `k` bits of the exponent at a time.
    fn mod_pow_k(&self, exp: &T, m: &K, k: usize) -> (r: Self)
        requires
            Self::is_modulus(m),
            k >= 1,
            pow2(k as nat) <= usize::MAX,
        ensures
            self.is_mod_pow(exp, m, &r),
    ;
}

/// What the table of powers holds in its first `len` places: the powers of
/// `base` by the place, each reduced by `m`.
pub open spec fn is_power_table(table: Seq<BigInt>, len: int, base: int, m: int) -> bool {
    &&& len <= table.len()
    &&& forall|j: int| 0 <= j < len ==> val(&#[trigger] table[j]) == pow_mod(base, j, m)
}

impl ModPow<BigInt, BigInt> for BigInt {
    /// Any modulus but zero.
    open spec fn is_modulus(m: &BigInt) -> bool {
        val(m) != 0
    }

    /// The result is the power reduced with the remainder that rounds toward
    /// zero; a negative exponent counts as zero.
    open spec fn is_mod_pow(&self, exp: &BigInt, m: &BigInt, r: &BigInt) -> bool {
        val(r) == pow_mod(val(self), val(exp), val(m))
    }

    fn mod_pow(&self, exp: &BigInt, m: &BigInt) -> (r: BigInt) {
        proof {
            lemma2_to64();
        }
        self.mod_pow_k(exp, m, DEFAULT_BUCKET_SIZE)
    }

    fn mod_pow_k(&self, exp: &BigInt, m: &BigInt, k: usize) -> (r: BigInt) {
        let base = window_base(k);
        proof {
            lemma_pow2_unfold(k as nat);
            lemma_pow2_pos((k - 1) as nat);
        }
        let one = big_from_u64(1);
        let unit = big_rem(&one, m);
        proof {
            lemma_pow0(val(self));
        }

        let mut table: Vec<BigInt> = Vec::with_capacity(base);
        table.push(big_clone(&unit));
        let mut i: usize = 1;
        while i < base
            invariant
                1 <= i <= base,
                table.len() == i,
                val(m) != 0,
                is_power_table(table@, i as int, val(self), val(m)),
            decreases base - i,
        {
            let next = big_rem(&big_mul(&table[i - 1], self), m);
            proof {
                lemma_pow_mod_next(val(self), (i - 1) as nat, val(m));
            }
            table.push(next);
            i += 1;
        }

        let digits = digits_of_n(exp, base);
        proof {
            lemma_digits_below_base(val(exp), base as int);
        }
        let mut r = unit;
        let mut idx: usize = digits.len();
        assert(digits@.subrange(idx as int, digits.len() as int) =~= Seq::<usize>::empty());
        while idx > 0
            invariant
                idx <= digits.len(),
                val(m) != 0,
                base == pow2(k as nat),
                table.len() == base,
                is_power_table(table@, base as int, val(self), val(m)),
                forall|j: int| 0 <= j < digits.len() ==> 0 <= #[trigger] digits@[j] < base,
                digits_value(digits@.subrange(idx as int, digits.len() as int), base as int) >= 0,
                val(&r) == pow_mod(
                    val(self),
                    digits_value(digits@.subrange(idx as int, digits.len() as int), base as int),
                    val(m),
                ),
            decreases idx,
        {
            let ghost high = digits_value(
                digits@.subrange(idx as int, digits.len() as int),
                base as int,
            );
            idx -= 1;
            let mut j: usize = 0;
            proof {
                lemma2_to64();
            }
            while j < k
                invariant
                    j <= k,
                    val(m) != 0,
                    high >= 0,
                    val(&r) == pow_mod(val(self), pow2(j as nat) * high, val(m)),
                decreases k - j,
            {
                proof {
                    let e = pow2(j as nat) * high;
                    assert(e >= 0) by (nonlinear_arith)
                        requires
                            e == pow2(j as nat) * high,
                            high >= 0,
                    ;
                    lemma_pow_mod_adds(val(self), e as nat, e as nat, val(m));
                    lemma_pow2_unfold((j + 1) as nat);
                    assert(e + e == pow2((j + 1) as nat) * high) by (nonlinear_arith)
                        requires
                            e == pow2(j as nat) * high,
                            pow2((j + 1) as nat) == 2 * pow2(j as nat),
                    ;
                }
                r = big_rem(&big_mul(&r, &r), m);
                j += 1;
            }
            let digit = digits[idx];
            proof {
                let rest = digits@.subrange(idx as int, digits.len() as int);
                assert(rest.drop_first() =~= digits@.subrange(
                    idx as int + 1,
                    digits.len() as int,
                ));
                assert(rest[0] == digit);
                assert(base * high >= 0) by (nonlinear_arith)
                    requires
                        base >= 0,
                        high >= 0,
                ;
                assert(digits_value(rest, base as int) == digit + base * high);
                if digit != 0 {
                    lemma_pow_mod_adds(val(self), (base * high) as nat, digit as nat, val(m));
                }
            }
            if digit != 0 {
                r = big_rem(&big_mul(&r, &table[digit]), m);
            }
        }
        proof {
            assert(digits@.subrange(0, digits.len() as int) =~= digits@);
            if val(exp) > 0 {
                lemma_digits_value(val(exp), base as int);
            }
        }
        r
    }
}

/// `base` to the power `exp`, reduced by `m`, and nothing where `m` is zero.
pub fn checked_mod_pow(base: &BigInt, exp: &BigInt, m: &BigInt) -> (out: Option<BigInt>)
    ensures
        out.is_some() <==> val(m) != 0,
        out matches Some(r) ==> val(&r) == pow_mod(val(base), val(exp), val(m)),
{
    if big_eq(m, &big_from_u64(0)) {
        None
    } else {
        Some(base.mod_pow(exp, m))
    }
}

/// Modular inversion.
pub trait ModInverse<T>: Sized {
    /// Whether `self` has an inverse modulo `n`.
    spec fn has_mod_inverse(&self, n: &T) -> bool;

    /// Whether `x` is the inverse of `self` modulo `n`.
    spec fn is_mod_inverse(&self, n: &T, x: &Self) -> bool;

    /// The inverse of `self` modulo `n`, where there is one.
    fn mod_inverse(&self, n: &T) -> (r: Option<Self>)
        ensures
            r.is_some() <==> self.has_mod_inverse(n),
            r matches Some(x) ==> self.is_mod_inverse(n, &x),
    ;
}

/// What holds between the rounds of the extended Euclidean algorithm on `a`
/// and `n`, with `0 <= a < n`. `(u1, u3)` and `(v1, v3)` are the running
/// pairs, `even` says whether an even number of rounds is done, and `ku`,
/// `kv` are the multiples of `n` that the algorithm does not keep.
pub open spec fn euclid_state(
    a: int,
    n: int,
    u1: int,
    u3: int,
    v1: int,
    v3: int,
    even: bool,
    ku: int,
    kv: int,
) -> bool {
    let s = if even {
        1int
    } else {
        -1int
    };
    &&& 0 <= u1 && 0 <= v1 && 0 <= u3 && 0 <= v3
    &&& u1 * a + ku * n == s * u3
    &&& v1 * a + kv * n == -s * v3
    &&& u1 * v3 + v1 * u3 == n
    &&& (u1 == 1 && v1 == 0 && u3 == a && v3 == n && even) || (u1 <= v1 && v3 < u3)
    &&& forall|d: int| d > 0 ==> (#[trigger] common_divisor(d, u3, v3) <==> common_divisor(d, a, n))
}

/// One round of the algorithm keeps [`euclid_state`].
proof fn lemma_euclid_round(
    a: int,
    n: int,
    u1: int,
    u3: int,
    v1: int,
    v3: int,
    even: bool,
    ku: int,
    kv: int,
)
    requires
        0 <= a < n,
        euclid_state(a, n, u1, u3, v1, v3, even, ku, kv),
        v3 != 0,
    ensures
        euclid_state(
            a,
            n,
            v1,
            v3,
            u1 + (u3 / v3) * v1,
            u3 % v3,
            !even,
            kv,
            ku + (u3 / v3) * kv,
        ),
        0 <= u3 % v3 < v3,
{
    let q = u3 / v3;
    let t3 = u3 % v3;
    let t1 = u1 + q * v1;
    let s = if even {
        1int
    } else {
        -1int
    };
    lemma_fundamental_div_mod(u3, v3);
    lemma_mod_bound(u3, v3);
    lemma_div_pos_is_pos(u3, v3);
    assert(t3 == u3 - q * v3) by (nonlinear_arith)
        requires
            u3 == v3 * q + t3,
    ;
    assert(q * v1 >= 0) by (nonlinear_arith)
        requires
            q >= 0,
            v1 >= 0,
    ;
    let x = u1 * a + ku * n;
    let y = v1 * a + kv * n;
    assert(t1 * a == u1 * a + q * (v1 * a)) by (nonlinear_arith)
        requires
            t1 == u1 + q * v1,
    ;
    assert((ku + q * kv) * n == ku * n + q * (kv * n)) by (nonlinear_arith);
    assert(q * y == q * (v1 * a) + q * (kv * n)) by (nonlinear_arith)
        requires
            y == v1 * a + kv * n,
    ;
    assert(x + q * y == s * t3) by (nonlinear_arith)
        requires
            t3 == u3 - q * v3,
            x == s * u3,
            y == -s * v3,
            s == 1 || s == -1,
    ;
    assert(v1 * t3 + t1 * v3 == n) by (nonlinear_arith)
        requires
            t1 == u1 + q * v1,
            t3 == u3 - q * v3,
            u1 * v3 + v1 * u3 == n,
    ;
    if u1 == 1 && v1 == 0 && u3 == a && v3 == n && even {
        lemma_small_mod(a as nat, n as nat);
        assert(q == 0) by {
            lemma_basic_div(a, n);
        }
    } else {
        assert(q >= 1) by {
            lemma_div_non_zero(u3, v3);
        }
        assert(q * v1 >= v1) by (nonlinear_arith)
            requires
                q >= 1,
                v1 >= 0,
        ;
    }
    assert forall|d: int| d > 0 implies (#[trigger] common_divisor(d, v3, t3) <==> common_divisor(
        d,
        a,
        n,
    )) by {
        lemma_common_divisor_step(d, u3, v3, q);
        assert(common_divisor(d, u3, v3) <==> common_divisor(d, a, n));
    }
}

impl ModInverse<BigInt> for BigInt {
    /// The modulus is not zero, and no integer above one divides both.
    open spec fn has_mod_inverse(&self, n: &BigInt) -> bool {
        val(n) != 0 && coprime(val(self), val(n))
    }

    /// `x` is in `0 .. |n|`, and `self * x` leaves the remainder of one.
    open spec fn is_mod_inverse(&self, n: &BigInt, x: &BigInt) -> bool {
        is_inverse(val(x), val(self), val(n))
    }

    fn mod_inverse(&self, n: &BigInt) -> (r: Option<BigInt>)
        ensures
            r.is_none() ==> forall|y: int| !#[trigger] is_inverse(y, val(self), val(n)),
            r matches Some(x) ==> forall|y: int| #[trigger]
                is_inverse(y, val(self), val(n)) ==> y == val(&x),
    {
        proof {
            assert forall|y: int| #[trigger] is_inverse(y, val(self), val(n)) implies val(n) != 0
                && coprime(val(self), val(n)) by {
                inverse_needs_coprime(y, val(self), val(n));
            }
        }
        let zero = big_from_u64(0);
        let one = big_from_u64(1);
        if big_eq(n, &zero) {
            return None;
        }
        let modulus = if big_lt(n, &zero) {
            big_sub(&zero, n)
        } else {
            big_clone(n)
        };
        let rem = big_rem(self, &modulus);
        let residue = if big_lt(&rem, &zero) {
            big_add(&rem, &modulus)
        } else {
            rem
        };
        let ghost a = val(&residue);
        let ghost m = val(&modulus);
        proof {
            lemma_residue(val(self), val(n));
            assert forall|d: int| d > 0 implies (#[trigger] common_divisor(d, a, m)
                <==> common_divisor(d, val(self), val(n))) by {
                lemma_common_divisor_residue(d, val(self), val(n));
            }
        }
        if big_eq(&modulus, &one) {
            proof {
                lemma_coprime_by_unit(val(self), val(n), a, m);
            }
            return Some(zero);
        }
        let mut u1 = big_clone(&one);
        let mut u3 = residue;
        let mut v1 = big_clone(&zero);
        let mut v3 = big_clone(&modulus);
        let mut iter = true;
        let ghost mut ku = 0int;
        let ghost mut kv = -1int;

        while !big_eq(&v3, &zero)
            invariant
                0 <= a < m,
                val(&zero) == 0,
                euclid_state(a, m, val(&u1), val(&u3), val(&v1), val(&v3), iter, ku, kv),
            decreases val(&v3),
        {
            proof {
                lemma_euclid_round(a, m, val(&u1), val(&u3), val(&v1), val(&v3), iter, ku, kv);
                lemma_trunc_nonneg(val(&u3), val(&v3));
            }
            let q = big_div(&u3, &v3);
            let t3 = big_rem(&u3, &v3);
            let t1 = big_add(&u1, &big_mul(&q, &v1));
            proof {
                let k = ku + val(&q) * kv;
                ku = kv;
                kv = k;
            }
            u1 = v1;
            v1 = t1;
            u3 = v3;
            v3 = t3;
            iter = !iter;
        }

        let ghost g = val(&u3);
        let ghost x = val(&u1);
        proof {
            assert(val(&v1) * g == m) by (nonlinear_arith)
                requires
                    val(&u1) * val(&v3) + val(&v1) * g == m,
                    val(&v3) == 0,
            ;
            assert(g >= 1) by (nonlinear_arith)
                requires
                    val(&v1) * g == m,
                    m >= 2,
                    g >= 0,
            ;
            assert(common_divisor(g, g, 0)) by {
                lemma_mod_self_0(g);
                lemma_small_mod(0, g as nat);
            }
            assert(common_divisor(g, val(self), val(n)));
        }
        if !big_eq(&u3, &one) {
            return None;
        }
        proof {
            assert(val(&v1) == m) by (nonlinear_arith)
                requires
                    val(&v1) * g == m,
                    g == 1,
            ;
            lemma_coprime_by_unit(val(self), val(n), 1, 0);
            assert(x * a + ku * m == (if iter {
                1int
            } else {
                -1int
            })) by (nonlinear_arith)
                requires
                    x * a + ku * m == (if iter {
                        1int
                    } else {
                        -1int
                    }) * g,
                    g == 1,
            ;
            lemma_inverse_from_bezout(val(self), val(n), a, x, ku, iter);
        }
        let inv = if iter == false {
            big_sub(&modulus, &u1)
        } else {
            u1
        };
        proof {
            assert forall|y: int| #[trigger] is_inverse(y, val(self), val(n)) implies y == val(
                &inv,
            ) by {
                inverse_unique(y, val(&inv), val(self), val(n));
            }
        }
        Some(inv)
    }
}

/// The residue of `a` in `0 .. |n|`, from the remainder that has the sign of
/// `a`.
proof fn lemma_residue(a: int, n: int)
    requires
        n != 0,
    ensures
        a % abs(n) == (if trunc_rem(a, n) < 0 {
            trunc_rem(a, n) + abs(n)
        } else {
            trunc_rem(a, n)
        }),
        0 <= a % abs(n) < abs(n),
{
    let m = abs(n);
    lemma_mod_bound(a, m);
    lemma_mod_bound(-a, m);
    if a < 0 {
        let r = (-a) % m;
        lemma_fundamental_div_mod(-a, m);
        let q = (-a) / m;
        if r == 0 {
            assert(a == m * (-q) + 0) by (nonlinear_arith)
                requires
                    -a == m * q + r,
                    r == 0,
            ;
            lemma_fundamental_div_mod_converse_mod(a, m, -q, 0);
        } else {
            assert(a == m * (-q - 1) + (m - r)) by (nonlinear_arith)
                requires
                    -a == m * q + r,
            ;
            lemma_fundamental_div_mod_converse_mod(a, m, -q - 1, m - r);
        }
    }
}

/// From the last state of the algorithm to the inverse: with
/// `x * r + k * |n| == 1` after an even number of rounds the inverse is `x`,
/// with `x * r + k * |n| == -1` after an odd number it is `|n| - x`.
proof fn lemma_inverse_from_bezout(a: int, n: int, r: int, x: int, k: int, even: bool)
    requires
        abs(n) >= 2,
        r == a % abs(n),
        0 <= x <= abs(n),
        x * r + k * abs(n) == (if even {
            1int
        } else {
            -1int
        }),
    ensures
        is_inverse(
            if even {
                x
            } else {
                abs(n) - x
            },
            a,
            n,
        ),
{
    let m = abs(n);
    let y = if even {
        x
    } else {
        m - x
    };
    if even {
        if x == m {
            assert(m * (r + k) == 1) by (nonlinear_arith)
                requires
                    x * r + k * m == 1,
                    x == m,
            ;
            assert(false) by (nonlinear_arith)
                requires
                    m * (r + k) == 1,
                    m >= 2,
            ;
        }
        assert(r * y == 1 + (-k) * m) by (nonlinear_arith)
            requires
                x * r + k * m == 1,
                y == x,
        ;
        lemma_mod_multiples_vanish(-k, 1, m);
    } else {
        if x == 0 {
            assert(false) by (nonlinear_arith)
                requires
                    x * r + k * m == -1,
                    x == 0,
                    m >= 2,
            ;
        }
        assert(r * y == 1 + (r + k) * m) by (nonlinear_arith)
            requires
                x * r + k * m == -1,
                y == m - x,
        ;
        lemma_mod_multiples_vanish(r + k, 1, m);
    }
    assert((r * y) % m == 1int % m);
    lemma_mul_mod_noop_left(a, y, m);
}

} // verus!
