//! Fermat's little theorem, by way of the binomial theorem: in a prime field every non-zero
//! element `a` satisfies `a^(p-1) = 1`, so `a^(p-2)` is its inverse.

use vstd::arithmetic::div_mod::*;
use vstd::arithmetic::power::*;
use vstd::prelude::*;

use crate::field::{field_mul, field_pow};
use crate::primes::{is_prime, lemma_euclid};

verus! {

/// The binomial coefficient `n choose k`, by Pascal's rule.
pub open spec fn binomial(n: nat, k: nat) -> nat
    decreases n,
{
    if k == 0 {
        1
    } else if n == 0 {
        0
    } else {
        binomial((n - 1) as nat, (k - 1) as nat) + binomial((n - 1) as nat, k)
    }
}

/// The first `m` terms of the binomial expansion of `(x + 1)^n`: `sum_{k < m} C(n, k) x^k`.
pub open spec fn binomial_sum(n: nat, x: nat, m: nat) -> int
    decreases m,
{
    if m == 0 {
        0
    } else {
        binomial_sum(n, x, (m - 1) as nat) + binomial(n, (m - 1) as nat) * pow(x as int, (m - 1) as nat)
    }
}

/// No subsets have more elements than the set.
proof fn lemma_binomial_above(n: nat, k: nat)
    requires
        k > n,
    ensures
        binomial(n, k) == 0,
    decreases n,
{
    if n > 0 {
        lemma_binomial_above((n - 1) as nat, (k - 1) as nat);
        lemma_binomial_above((n - 1) as nat, k);
    }
}

/// The absorption identity `k C(n, k) = n C(n - 1, k - 1)`.
proof fn lemma_absorption(n: nat, k: nat)
    requires
        n >= 1,
        k >= 1,
    ensures
        k * binomial(n, k) == n * binomial((n - 1) as nat, (k - 1) as nat),
    decreases n,
{
    if n == 1 {
        assert(binomial(0, 0) == 1);
        if k > 1 {
            lemma_binomial_above(0, (k - 1) as nat);
            lemma_binomial_above(0, k);
            assert(binomial(1, k) == 0);
        } else {
            assert(binomial(0, 1) == 0);
            assert(binomial(1, 1) == 1);
        }
        let c = binomial(1, k);
        let e = binomial(0, (k - 1) as nat);
        assert(k * c == 1 * e) by (nonlinear_arith)
            requires
                (k == 1 && c == 1 && e == 1) || (c == 0 && e == 0),
        ;
    } else if k == 1 {
        lemma_absorption((n - 1) as nat, 1);
        assert(binomial((n - 1) as nat, 0) == 1);
        assert(binomial((n - 2) as nat, 0) == 1);
        let b = binomial((n - 1) as nat, 1);
        assert(1 * b == (n - 1) * 1);
        assert(binomial(n, 1) == 1 + b);
        assert(1 * binomial(n, 1) == n * 1) by (nonlinear_arith)
            requires
                binomial(n, 1) == 1 + b,
                b == n - 1,
        ;
    } else {
        lemma_absorption((n - 1) as nat, (k - 1) as nat);
        lemma_absorption((n - 1) as nat, k);
        let a = binomial((n - 1) as nat, (k - 1) as nat);
        let b = binomial((n - 1) as nat, k);
        let c = binomial((n - 2) as nat, (k - 2) as nat);
        let d = binomial((n - 2) as nat, (k - 1) as nat);
        assert(binomial(n, k) == a + b);
        assert(a == c + d);
        assert(k * (a + b) == n * a) by (nonlinear_arith)
            requires
                (k - 1) * a == (n - 1) * c,
                k * b == (n - 1) * d,
                a == c + d,
        ;
    }
}

/// A prime divides `C(p, k)` for `0 < k < p`.
proof fn lemma_prime_divides_binomial(p: nat, k: nat)
    requires
        is_prime(p),
        0 < k < p,
    ensures
        binomial(p, k) % p == 0,
{
    lemma_absorption(p, k);
    let c = binomial((p - 1) as nat, (k - 1) as nat);
    lemma_mod_multiples_vanish(c as int, 0, p as int);
    assert((p * c) % p == 0) by {
        assert((p as int) * (c as int) + 0 == p * c);
        lemma_small_mod(0, p);
    }
    lemma_euclid(k, binomial(p, k), p);
}

/// Pascal's rule, summed: the terms of `(x + 1)^(n + 1)` are those of `(x + 1)^n` plus `x` times
/// them.
proof fn lemma_pascal_sum(n: nat, x: nat, m: nat)
    ensures
        binomial_sum(n + 1, x, m + 1) == binomial_sum(n, x, m + 1) + x * binomial_sum(n, x, m),
    decreases m,
{
    reveal(pow);
    if m == 0 {
        assert(binomial_sum(n + 1, x, 0) == 0);
        assert(binomial_sum(n + 1, x, 1) == binomial(n + 1, 0) * pow(x as int, 0));
        assert(binomial_sum(n, x, 0) == 0);
        assert(binomial_sum(n, x, 1) == binomial(n, 0) * pow(x as int, 0));
        assert(x * binomial_sum(n, x, 0) == 0);
    } else {
        lemma_pascal_sum(n, x, (m - 1) as nat);
        let xm = pow(x as int, m);
        let xm1 = pow(x as int, (m - 1) as nat);
        assert(xm == x * xm1);
        assert(binomial(n + 1, m) == binomial(n, (m - 1) as nat) + binomial(n, m));
        let s1 = binomial_sum(n, x, m);
        let s0 = binomial_sum(n, x, (m - 1) as nat);
        let c0 = binomial(n, (m - 1) as nat);
        let c1 = binomial(n, m);
        assert(binomial_sum(n + 1, x, m + 1) == binomial_sum(n + 1, x, m) + binomial(n + 1, m) * xm);
        assert(binomial_sum(n, x, m + 1) == s1 + c1 * xm);
        assert(s1 == s0 + c0 * xm1);
        assert((c0 + c1) * xm == c1 * xm + x * (c0 * xm1)) by (nonlinear_arith)
            requires
                xm == x * xm1,
        ;
        assert(x * s1 == x * s0 + x * (c0 * xm1)) by (nonlinear_arith)
            requires
                s1 == s0 + c0 * xm1,
        ;
    }
}

/// The binomial theorem for `(x + 1)^n`.
proof fn lemma_binomial_theorem(n: nat, x: nat)
    ensures
        pow((x + 1) as int, n) == binomial_sum(n, x, n + 1),
    decreases n,
{
    reveal(pow);
    if n == 0 {
        assert(binomial_sum(0, x, 0) == 0);
        assert(binomial_sum(0, x, 1) == binomial(0, 0) * pow(x as int, 0));
        assert(pow(x as int, 0) == 1);
        assert(pow((x + 1) as int, 0) == 1);
        assert(binomial(0, 0) == 1);
    } else {
        let m = (n - 1) as nat;
        lemma_binomial_theorem(m, x);
        lemma_pascal_sum(m, x, n);
        lemma_binomial_above(m, n);
        assert(binomial_sum(m, x, n + 1) == binomial_sum(m, x, n) + binomial(m, n) * pow(x as int, n));
        let s = binomial_sum(m, x, n);
        assert(m + 1 == n);
        assert(binomial_sum(m, x, n + 1) == s);
        assert(pow((x + 1) as int, m) == s);
        assert(binomial_sum(n, x, n + 1) == s + x * s);
        assert(pow((x + 1) as int, n) == (x + 1) * pow((x + 1) as int, m));
        assert((x + 1) * s == s + x * s) by (nonlinear_arith);
    }
}

/// Modulo a prime, the terms between the first and the last of the expansion of `(x + 1)^p`
/// vanish.
proof fn lemma_middle_terms(p: nat, x: nat, m: nat)
    requires
        is_prime(p),
        1 <= m <= p,
    ensures
        binomial_sum(p, x, m) % (p as int) == 1,
    decreases m,
{
    reveal(pow);
    if m == 1 {
        assert(binomial_sum(p, x, 0) == 0);
        assert(binomial_sum(p, x, 1) == binomial(p, 0) * pow(x as int, 0));
        lemma_small_mod(1, p);
    } else {
        let k = (m - 1) as nat;
        lemma_middle_terms(p, x, k);
        lemma_prime_divides_binomial(p, k);
        let c = binomial(p, k);
        let q = c / p;
        lemma_fundamental_div_mod(c as int, p as int);
        let t = pow(x as int, k);
        assert(c * t == p * (q * t)) by (nonlinear_arith)
            requires
                c == p * q + c % p,
                c % p == 0,
        ;
        lemma_mod_multiples_vanish(q * t, binomial_sum(p, x, k), p as int);
        assert(binomial_sum(p, x, m) == binomial_sum(p, x, k) + (p as int) * (q * t));
    }
}

/// The freshman's dream modulo a prime: `(x + 1)^p = x^p + 1`.
proof fn lemma_freshman(p: nat, x: nat)
    requires
        is_prime(p),
    ensures
        pow((x + 1) as int, p) % (p as int) == (pow(x as int, p) + 1) % (p as int),
{
    reveal(pow);
    lemma_binomial_theorem(p, x);
    lemma_middle_terms(p, x, p);
    assert(binomial(p, p) == 1) by {
        lemma_binomial_p_p(p);
    }
    let s = binomial_sum(p, x, p);
    assert(binomial_sum(p, x, p + 1) == s + binomial(p, p) * pow(x as int, p));
    lemma_add_mod_noop(s, pow(x as int, p), p as int);
    lemma_add_mod_noop(1, pow(x as int, p), p as int);
    lemma_small_mod(1, p);
}

/// Exactly one subset has all the elements.
proof fn lemma_binomial_p_p(n: nat)
    ensures
        binomial(n, n) == 1,
    decreases n,
{
    if n > 0 {
        lemma_binomial_p_p((n - 1) as nat);
        lemma_binomial_above((n - 1) as nat, n);
    }
}

/// Fermat's little theorem in the form `x^p = x` modulo a prime.
pub proof fn lemma_fermat_power(p: nat, x: nat)
    requires
        is_prime(p),
    ensures
        pow(x as int, p) % (p as int) == (x as int) % (p as int),
    decreases x,
{
    if x == 0 {
        lemma0_pow(p);
    } else {
        let y = (x - 1) as nat;
        lemma_fermat_power(p, y);
        lemma_freshman(p, y);
        lemma_add_mod_noop(pow(y as int, p), 1, p as int);
        lemma_add_mod_noop(y as int, 1, p as int);
    }
}

/// Fermat's little theorem: a non-zero element of a prime field raised to `p - 1` is 1.
pub proof fn lemma_fermat(p: nat, a: nat)
    requires
        is_prime(p),
        0 < a < p,
    ensures
        pow(a as int, (p - 1) as nat) % (p as int) == 1,
{
    lemma_fermat_power(p, a);
    let e = (p - 1) as nat;
    lemma_pow_adds(a as int, 1, e);
    lemma_pow1(a as int);
    lemma_pow_positive(a as int, e);
    let t = pow(a as int, e);
    let y = (t - 1) as nat;
    lemma_small_mod(a, p);
    assert(a * t == a * y + a) by (nonlinear_arith)
        requires
            y == t - 1,
            t >= 1,
    ;
    // a * y = a * t - a, and a * t = a modulo p.
    lemma_fundamental_div_mod((a * t) as int, p as int);
    let q = (a * t) / (p as int);
    assert(a * y == p * q) by (nonlinear_arith)
        requires
            a * t == p * q + (a * t) % (p as int),
            (a * t) % (p as int) == a,
            a * t == a * y + a,
    ;
    lemma_mod_multiples_vanish(q, 0, p as int);
    lemma_small_mod(0, p);
    assert((a * y) % p == 0);
    lemma_euclid(a, y, p);
    lemma_fundamental_div_mod(y as int, p as int);
    lemma_mod_multiples_vanish(y as int / p as int, 1, p as int);
    lemma_small_mod(1, p);
}

/// Modulo a prime, `x^(p + k (p - 1)) = x`.
pub proof fn lemma_pow_period(p: nat, x: nat, k: nat)
    requires
        is_prime(p),
        x < p,
    ensures
        pow(x as int, p + k * ((p - 1) as nat)) % (p as int) == x,
{
    let pi = p as int;
    let q = (p - 1) as nat;
    lemma_fermat_power(p, x);
    lemma_small_mod(x, p);
    lemma_pow_adds(x as int, p, k * q);
    lemma_pow_multiplies(x as int, q, k);
    assert(q * k == k * q) by (nonlinear_arith);
    if x == 0 {
        lemma0_pow(p + k * q);
        lemma_small_mod(0, p);
    } else {
        lemma_fermat(p, x);
        lemma_pow_positive(x as int, q);
        lemma_pow_mod_noop(pow(x as int, q), k, pi);
        lemma1_pow(k);
        lemma_small_mod(1, p);
        lemma_mul_mod_noop_general(pow(x as int, p), pow(pow(x as int, q), k), pi);
        assert(x * 1 == x);
    }
}

/// In a prime field, `a^(p-2)` is the inverse of a non-zero `a`.
pub proof fn lemma_inverse(p: nat, a: nat)
    requires
        is_prime(p),
        0 < a < p,
    ensures
        field_mul(a, field_pow(a, (p - 2) as nat, p), p) == 1,
{
    lemma_fermat(p, a);
    let e = (p - 2) as nat;
    lemma_pow_adds(a as int, 1, e);
    lemma_pow1(a as int);
    lemma_pow_positive(a as int, e);
    assert(1 + e == (p - 1) as nat);
    lemma_mul_mod_noop_right(a as int, pow(a as int, e), p as int);
}

} // verus!
