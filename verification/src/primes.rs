//! Prime moduli, and the facts about them that make gadget constraints exact: in `F_p` with `p`
//! prime, a product is zero only when a factor is.

use vstd::arithmetic::div_mod::{
    lemma_fundamental_div_mod, lemma_mod_multiples_basic, lemma_small_mod,
};
use vstd::prelude::*;

use crate::field::{field_mul, field_sub, spec_gcd};

verus! {

/// `p` is prime: it exceeds 1 and no number strictly between 1 and `p` divides it.
pub open spec fn is_prime(p: nat) -> bool {
    &&& p > 1
    &&& forall|d: nat| 1 < d < p ==> #[trigger] (p % d) != 0
}

/// Euclid's algorithm yields Bezout coefficients: `a x + b y = gcd(x, y)`.
proof fn lemma_bezout(x: nat, y: nat) -> (r: (int, int))
    ensures
        r.0 * x + r.1 * y == spec_gcd(x, y),
    decreases y,
{
    if y == 0 {
        (1, 0)
    } else {
        let (a, c) = lemma_bezout(y, x % y);
        lemma_fundamental_div_mod(x as int, y as int);
        let q = (x / y) as int;
        let (xi, yi, ri) = (x as int, y as int, (x % y) as int);
        let g = spec_gcd(x, y) as int;
        assert(c * xi + (a - c * q) * yi == g) by (nonlinear_arith)
            requires
                xi == yi * q + ri,
                a * yi + c * ri == g,
        ;
        (c, a - c * q)
    }
}

/// `d` divides `n`, as `n = k d`.
proof fn lemma_divides_sum(d: nat, y: nat, q: nat, r: nat)
    requires
        d > 0,
        y % d == 0,
        r % d == 0,
    ensures
        (q * y + r) % d == 0,
{
    lemma_fundamental_div_mod(y as int, d as int);
    lemma_fundamental_div_mod(r as int, d as int);
    let (ky, kr) = ((y / d) as int, (r / d) as int);
    let (di, qi, yi, ri) = (d as int, q as int, y as int, r as int);
    assert(qi * yi + ri == (qi * ky + kr) * di) by (nonlinear_arith)
        requires
            yi == di * ky,
            ri == di * kr,
    ;
    lemma_mod_multiples_basic(qi * ky + kr, di);
}

/// The greatest common divisor divides both numbers, and is positive unless both are zero.
proof fn lemma_gcd_divides(x: nat, y: nat)
    requires
        x > 0 || y > 0,
    ensures
        spec_gcd(x, y) > 0,
        x % spec_gcd(x, y) == 0,
        y % spec_gcd(x, y) == 0,
    decreases y,
{
    if y == 0 {
        lemma_mod_multiples_basic(1, x as int);
        lemma_small_mod(0, x);
    } else {
        lemma_gcd_divides(y, x % y);
        let g = spec_gcd(x, y);
        lemma_fundamental_div_mod(x as int, y as int);
        lemma_divides_sum(g, y, x / y, x % y);
    }
}

/// A positive multiple of `d` is at least `d`.
proof fn lemma_divisor_at_most(d: nat, x: nat)
    requires
        d > 0,
        x > 0,
        x % d == 0,
    ensures
        d <= x,
{
    lemma_fundamental_div_mod(x as int, d as int);
    let k = (x / d) as int;
    let (di, xi) = (d as int, x as int);
    assert(di <= xi) by (nonlinear_arith)
        requires
            xi == di * k,
            xi > 0,
            di > 0,
    ;
}

/// A prime divides a product only when it divides a factor (Euclid's lemma), for a first factor
/// below the prime.
pub proof fn lemma_euclid(x: nat, y: nat, p: nat)
    requires
        is_prime(p),
        0 < x < p,
        (x * y) % p == 0,
    ensures
        y % p == 0,
{
    lemma_gcd_divides(x, p);
    let g = spec_gcd(x, p);
    lemma_divisor_at_most(g, x);
    if g > 1 {
        assert(p % g != 0);
    }
    assert(g == 1);
    let (a, c) = lemma_bezout(x, p);
    lemma_fundamental_div_mod((x * y) as int, p as int);
    let k = ((x * y) / p) as int;
    let (xi, yi, pi) = (x as int, y as int, p as int);
    assert(yi == a * (xi * yi) + (c * yi) * pi) by (nonlinear_arith)
        requires
            a * xi + c * pi == 1,
    ;
    assert(a * (k * pi) + (c * yi) * pi == (a * k + c * yi) * pi) by (nonlinear_arith);
    lemma_mod_multiples_basic(a * k + c * yi, pi);
}

/// In `F_p` with `p` prime, a product of elements is zero only when a factor is.
pub proof fn lemma_product_zero(x: nat, y: nat, p: nat)
    requires
        is_prime(p),
        x < p,
        y < p,
        field_mul(x, y, p) == 0,
    ensures
        x == 0 || y == 0,
{
    if x != 0 {
        lemma_euclid(x, y, p);
        lemma_small_mod(y, p);
    }
}

/// In `F_p` with `p` prime, the roots of `b (b - 1)` are 0 and 1.
pub proof fn lemma_boolean_root(b: nat, p: nat)
    requires
        is_prime(p),
        b < p,
        field_mul(b, field_sub(b, 1, p), p) == 0,
    ensures
        b == 0 || b == 1,
{
    vstd::arithmetic::div_mod::lemma_mod_bound(b - 1, p as int);
    lemma_product_zero(b, field_sub(b, 1, p), p);
    if b != 0 {
        lemma_small_mod((b - 1) as nat, p);
    }
}

/// In `F_p` with `p` prime, the constraints `x = 0 => r = 0` and `(1 - r) x = 0` make `r` the bit
/// `x != 0`.
pub proof fn lemma_nonzero_exact(x: nat, r: nat, p: nat)
    requires
        is_prime(p),
        x < p,
        r < p,
        x == 0 ==> r == 0,
        field_mul(field_sub(1, r, p), x, p) == 0,
    ensures
        r == if x == 0 {
            0nat
        } else {
            1nat
        },
{
    if x != 0 {
        vstd::arithmetic::div_mod::lemma_mod_bound(1 - r, p as int);
        lemma_product_zero(field_sub(1, r, p), x, p);
        if r != 1 {
            if r == 0 {
                lemma_small_mod(1, p);
            } else {
                vstd::arithmetic::div_mod::lemma_mod_add_multiples_vanish(1 - r, p as int);
                lemma_small_mod((p + 1 - r) as nat, p);
            }
        }
    }
}

/// In `F_p` with `p` prime, the constraints `x = 0 => r = 1` and `r x = 0` make `r` the bit
/// `x == 0`.
pub proof fn lemma_zero_exact(x: nat, r: nat, p: nat)
    requires
        is_prime(p),
        x < p,
        r < p,
        x == 0 ==> r == 1,
        field_mul(r, x, p) == 0,
    ensures
        r == if x == 0 {
            1nat
        } else {
            0nat
        },
{
    if x != 0 {
        lemma_product_zero(r, x, p);
    }
}

/// In `F_p`, `x - y` is zero exactly when `x == y`.
pub proof fn lemma_sub_zero(x: nat, y: nat, p: nat)
    requires
        p > 0,
        x < p,
        y < p,
    ensures
        field_sub(x, y, p) < p,
        field_sub(x, y, p) == 0 <==> x == y,
{
    vstd::arithmetic::div_mod::lemma_mod_bound(x - y, p as int);
    if x >= y {
        lemma_small_mod((x - y) as nat, p);
    } else {
        vstd::arithmetic::div_mod::lemma_mod_add_multiples_vanish(x - y, p as int);
        lemma_small_mod((p + x - y) as nat, p);
    }
}

} // verus!
