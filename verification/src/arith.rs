//! The integer arithmetic that the contracts of this crate are stated in:
//! division that rounds toward zero, divisibility, and modular powers.

use vstd::arithmetic::div_mod::*;
use vstd::arithmetic::power::*;
use vstd::prelude::*;

verus! {

/// The absolute value of `x`.
#[verifier::inline]
pub open spec fn abs(x: int) -> int {
    if x < 0 {
        -x
    } else {
        x
    }
}

/// The quotient of `a` by `b`, rounded toward zero.
pub open spec fn trunc_div(a: int, b: int) -> int {
    if (a >= 0) == (b >= 0) {
        abs(a) / abs(b)
    } else {
        -(abs(a) / abs(b))
    }
}

/// The remainder that goes with [`trunc_div`]: its sign is that of `a`, its
/// magnitude is below that of `b`.
pub open spec fn trunc_rem(a: int, b: int) -> int {
    if a >= 0 {
        abs(a) % abs(b)
    } else {
        -(abs(a) % abs(b))
    }
}

/// `exp` as an exponent; a negative one counts as zero.
pub open spec fn exponent(exp: int) -> nat {
    if exp > 0 {
        exp as nat
    } else {
        0
    }
}

/// `base` to the power `exp`, reduced by `m` with the remainder that rounds
/// toward zero. The result has the sign of the power.
pub open spec fn pow_mod(base: int, exp: int, m: int) -> int {
    trunc_rem(pow(base, exponent(exp)), m)
}

/// No integer above one divides both `a` and `b`.
pub open spec fn coprime(a: int, b: int) -> bool {
    forall|d: int| d > 1 ==> !(#[trigger] (a % d) == 0 && b % d == 0)
}

/// `g` is the greatest common divisor of `a` and `b`, which is zero where
/// both are zero.
pub open spec fn is_gcd(g: int, a: int, b: int) -> bool {
    if a == 0 && b == 0 {
        g == 0
    } else {
        &&& g > 0
        &&& a % g == 0
        &&& b % g == 0
        &&& forall|d: int| d > 0 && #[trigger] (a % d) == 0 && b % d == 0 ==> d <= g
    }
}

/// `l` is the least common multiple of `a` and `b`, which is zero where one
/// of them is zero.
pub open spec fn is_lcm(l: int, a: int, b: int) -> bool {
    if a == 0 || b == 0 {
        l == 0
    } else {
        &&& l > 0
        &&& l % a == 0
        &&& l % b == 0
        &&& forall|m: int| m > 0 && #[trigger] (m % a) == 0 && m % b == 0 ==> l <= m
    }
}

/// `x` is the inverse of `a` modulo `n`, taken from `0 .. |n|`.
pub open spec fn is_inverse(x: int, a: int, n: int) -> bool {
    &&& 0 <= x < abs(n)
    &&& (a * x) % abs(n) == 1int % abs(n)
}

/// The truncated quotient and remainder make up the dividend.
pub proof fn lemma_trunc_div_rem(a: int, b: int)
    requires
        b != 0,
    ensures
        a == trunc_div(a, b) * b + trunc_rem(a, b),
        abs(trunc_rem(a, b)) < abs(b),
{
    let q = abs(a) / abs(b);
    let r = abs(a) % abs(b);
    lemma_fundamental_div_mod(abs(a), abs(b));
    lemma_mod_bound(abs(a), abs(b));
    assert(abs(a) == abs(b) * q + r);
    assert(a == trunc_div(a, b) * b + trunc_rem(a, b)) by (nonlinear_arith)
        requires
            abs(a) == abs(b) * q + r,
            0 <= r,
            b != 0,
            trunc_div(a, b) == (if (a >= 0) == (b >= 0) {
                q
            } else {
                -q
            }),
            trunc_rem(a, b) == (if a >= 0 {
                r
            } else {
                -r
            }),
    ;
}

/// On a non-negative dividend and a positive divisor, rounding toward zero
/// is Euclidean division.
pub proof fn lemma_trunc_nonneg(a: int, b: int)
    requires
        a >= 0,
        b > 0,
    ensures
        trunc_div(a, b) == a / b,
        trunc_rem(a, b) == a % b,
        0 <= trunc_rem(a, b) < b,
        0 <= trunc_div(a, b),
{
    lemma_mod_bound(a, b);
    lemma_div_pos_is_pos(a, b);
}

/// Reducing the left factor first does not change the reduced product.
pub proof fn lemma_trunc_rem_mul_left(a: int, b: int, m: int)
    requires
        m != 0,
    ensures
        trunc_rem(trunc_rem(a, m) * b, m) == trunc_rem(a * b, m),
{
    let mm = abs(m);
    let x = abs(a) % mm;
    let ta = trunc_rem(a, m);
    lemma_mod_bound(abs(a), mm);
    assert(abs(ta) == x);
    assert(abs(ta * b) == x * abs(b)) by (nonlinear_arith)
        requires
            abs(ta) == x,
    ;
    assert(abs(a * b) == abs(a) * abs(b)) by (nonlinear_arith);
    lemma_mul_mod_noop_left(abs(a), abs(b), mm);
    assert(abs(ta * b) % mm == abs(a * b) % mm);
    assert((ta * b >= 0 && a * b >= 0) || (ta * b <= 0 && a * b <= 0)) by (nonlinear_arith)
        requires
            (a >= 0 && ta >= 0) || (a < 0 && ta <= 0),
    ;
    lemma_small_mod(0, mm as nat);
}

/// Reducing both factors first does not change the reduced product.
pub proof fn lemma_trunc_rem_mul(a: int, b: int, m: int)
    requires
        m != 0,
    ensures
        trunc_rem(trunc_rem(a, m) * trunc_rem(b, m), m) == trunc_rem(a * b, m),
{
    let tb = trunc_rem(b, m);
    lemma_trunc_rem_mul_left(a, tb, m);
    lemma_trunc_rem_mul_left(b, a, m);
    assert(tb * a == a * tb) by (nonlinear_arith);
    assert(b * a == a * b) by (nonlinear_arith);
}

/// `d` divides both `x` and `y`.
pub open spec fn common_divisor(d: int, x: int, y: int) -> bool {
    x % d == 0 && y % d == 0
}

/// Taking a multiple of `y` away from `x` keeps the divisors that the two
/// have in common.
pub proof fn lemma_common_divisor_step(d: int, x: int, y: int, q: int)
    requires
        d > 0,
    ensures
        common_divisor(d, y, x - q * y) <==> common_divisor(d, x, y),
{
    if y % d == 0 {
        lemma_fundamental_div_mod(y, d);
        let k = y / d;
        assert(x - q * y == x + (-(q * k)) * d) by (nonlinear_arith)
            requires
                y == d * k,
        ;
        lemma_mod_multiples_vanish(-(q * k), x, d);
    }
}

/// A number and its negation have the same divisors.
pub proof fn lemma_mod_neg_zero(x: int, d: int)
    requires
        d > 0,
    ensures
        (x % d == 0) <==> ((-x) % d == 0),
{
    lemma_fundamental_div_mod(x, d);
    lemma_fundamental_div_mod(-x, d);
    let k = x / d;
    let j = (-x) / d;
    if x % d == 0 {
        assert(-x == d * (-k) + 0) by (nonlinear_arith)
            requires
                x == d * k,
        ;
        lemma_fundamental_div_mod_converse_mod(-x, d, -k, 0);
    }
    if (-x) % d == 0 {
        assert(x == d * (-j) + 0) by (nonlinear_arith)
            requires
                -x == d * j,
        ;
        lemma_fundamental_div_mod_converse_mod(x, d, -j, 0);
    }
}

/// Reducing `a` into `0 .. |n|` and taking the magnitude of `n` keeps the
/// divisors that the two have in common.
pub proof fn lemma_common_divisor_residue(d: int, a: int, n: int)
    requires
        d > 0,
        n != 0,
    ensures
        common_divisor(d, a % abs(n), abs(n)) <==> common_divisor(d, a, n),
{
    lemma_mod_neg_zero(n, d);
    lemma_fundamental_div_mod(a, abs(n));
    let q = a / abs(n);
    assert(a % abs(n) == a - q * abs(n)) by (nonlinear_arith)
        requires
            a == abs(n) * q + a % abs(n),
    ;
    lemma_common_divisor_step(d, a, abs(n), q);
}

/// The greatest common divisor is one exactly where the two are coprime.
pub proof fn lemma_gcd_one_iff_coprime(g: int, a: int, b: int)
    requires
        is_gcd(g, a, b),
    ensures
        g == 1 <==> coprime(a, b),
{
    if a == 0 && b == 0 {
        assert(0int % 2 == 0);
        assert(a % 2 == 0 && b % 2 == 0);
    } else if g == 1 {
        assert forall|d: int| d > 1 implies !(#[trigger] (a % d) == 0 && b % d == 0) by {}
    } else {
        assert(a % g == 0 && b % g == 0);
    }
}

/// Multiplying two reduced powers of one base gives the reduced power of the
/// sum of the exponents.
pub proof fn lemma_pow_mod_adds(base: int, e1: nat, e2: nat, m: int)
    requires
        m != 0,
    ensures
        trunc_rem(pow_mod(base, e1 as int, m) * pow_mod(base, e2 as int, m), m) == pow_mod(
            base,
            (e1 + e2) as int,
            m,
        ),
{
    lemma_trunc_rem_mul(pow(base, e1), pow(base, e2), m);
    lemma_pow_adds(base, e1, e2);
}

/// Multiplying a reduced power by the base gives the next reduced power.
pub proof fn lemma_pow_mod_next(base: int, e: nat, m: int)
    requires
        m != 0,
    ensures
        trunc_rem(pow_mod(base, e as int, m) * base, m) == pow_mod(base, e as int + 1, m),
{
    lemma_trunc_rem_mul_left(pow(base, e), base, m);
    lemma_pow_adds(base, e, 1);
    lemma_pow1(base);
}

/// On a positive divisor, the two remainders are zero on the same dividends.
pub proof fn lemma_trunc_rem_zero(a: int, b: int)
    requires
        b > 0,
    ensures
        trunc_rem(a, b) == 0 <==> a % b == 0,
{
    lemma_mod_neg_zero(a, b);
}

/// The least common multiple of `a` and `b`.
pub open spec fn lcm(a: int, b: int) -> int {
    choose|l: int| is_lcm(l, a, b)
}

/// Two numbers have one least common multiple.
pub proof fn lemma_lcm_unique(l: int, a: int, b: int)
    requires
        is_lcm(l, a, b),
    ensures
        l == lcm(a, b),
{
    let k = lcm(a, b);
    assert(is_lcm(k, a, b));
    if a != 0 && b != 0 {
        assert(k % a == 0 && k % b == 0);
        assert(l % a == 0 && l % b == 0);
    }
}

/// A reduced power differs from the power by a multiple of the modulus. On a
/// base that is not negative it is the remainder of the power.
pub proof fn pow_mod_congruent(base: int, exp: int, m: int)
    requires
        m != 0,
        exp >= 0,
    ensures
        (pow_mod(base, exp, m) - pow(base, exp as nat)) % abs(m) == 0,
        base >= 0 ==> pow_mod(base, exp, m) == pow(base, exp as nat) % abs(m),
{
    let x = pow(base, exp as nat);
    lemma_trunc_div_rem(x, m);
    let q = if m > 0 {
        trunc_div(x, m)
    } else {
        -trunc_div(x, m)
    };
    assert(pow_mod(base, exp, m) - x == (-q) * abs(m)) by (nonlinear_arith)
        requires
            x == trunc_div(x, m) * m + pow_mod(base, exp, m),
            q == (if m > 0 {
                trunc_div(x, m)
            } else {
                -trunc_div(x, m)
            }),
    ;
    lemma_mod_multiples_basic(-q, abs(m));
    if base >= 0 {
        lemma_pow_nonnegative(base, exp as nat);
    }
}

/// A power of a base that is not negative is not negative.
pub proof fn lemma_pow_nonnegative(base: int, exp: nat)
    requires
        base >= 0,
    ensures
        pow(base, exp) >= 0,
{
    if base > 0 {
        lemma_pow_positive(base, exp);
    } else if exp == 0 {
        lemma_pow0(base);
    } else {
        lemma0_pow(exp);
    }
}

/// Any base to the power zero, reduced, is one reduced.
pub proof fn pow_mod_zero_exponent(base: int, m: int)
    requires
        m >= 1,
    ensures
        pow_mod(base, 0, m) == 1int % m,
        m > 1 ==> pow_mod(base, 0, m) == 1,
        m == 1 ==> pow_mod(base, 0, m) == 0,
{
    lemma_pow0(base);
    if m > 1 {
        lemma_small_mod(1, m as nat);
    }
}

/// Modulo `n`, a number has at most one inverse in `0 .. |n|`.
pub proof fn inverse_unique(x: int, y: int, a: int, n: int)
    requires
        is_inverse(x, a, n),
        is_inverse(y, a, n),
    ensures
        x == y,
{
    let m = abs(n);
    if m > 1 {
        lemma_small_mod(1, m as nat);
        // x == x * (a * y) == (a * x) * y == y, all modulo m
        lemma_mul_mod_noop_right(x, a * y, m);
        lemma_mul_mod_noop_left(a * x, y, m);
        assert(x * (a * y) == (a * x) * y) by (nonlinear_arith);
        assert(x * 1 == x && 1 * y == y);
        lemma_small_mod(x as nat, m as nat);
        lemma_small_mod(y as nat, m as nat);
    }
}

/// Only a number that is coprime to the modulus has an inverse.
pub proof fn inverse_needs_coprime(x: int, a: int, n: int)
    requires
        is_inverse(x, a, n),
    ensures
        n != 0,
        coprime(a, n),
{
    let m = abs(n);
    assert forall|d: int| d > 1 implies !(#[trigger] (a % d) == 0 && n % d == 0) by {
        if a % d == 0 && n % d == 0 {
            lemma_mod_neg_zero(n, d);
            assert(m % d == 0);
            // a * x == q * m + 1 % m, and d divides a * x and m
            lemma_fundamental_div_mod(a * x, m);
            let q = (a * x) / m;
            lemma_fundamental_div_mod(a, d);
            lemma_fundamental_div_mod(m, d);
            let ka = a / d;
            let km = m / d;
            assert(1int % m == (ka * x - q * km) * d) by (nonlinear_arith)
                requires
                    a * x == m * q + 1int % m,
                    a == d * ka,
                    m == d * km,
            ;
            lemma_mod_multiples_basic(ka * x - q * km, d);
            if m > 1 {
                lemma_small_mod(1, m as nat);
            }
            lemma_small_mod(1, d as nat);
            lemma_small_mod(m as nat, d as nat);
        }
    }
}

/// Two numbers are coprime where they have their common divisors in common
/// with a pair of which one member is one.
pub proof fn lemma_coprime_by_unit(a: int, n: int, x: int, y: int)
    requires
        x == 1 || y == 1,
        forall|d: int|
            d > 0 ==> (#[trigger] common_divisor(d, x, y) <==> common_divisor(d, a, n)),
    ensures
        coprime(a, n),
{
    assert forall|d: int| d > 1 implies !(#[trigger] (a % d) == 0 && n % d == 0) by {
        if a % d == 0 && n % d == 0 {
            assert(common_divisor(d, a, n));
            assert(common_divisor(d, x, y));
            lemma_small_mod(1, d as nat);
        }
    }
}

} // verus!
