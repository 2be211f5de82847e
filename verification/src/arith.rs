//! Divisibility, greatest common divisors, and rounded division on exact
//! integers. These are the arithmetic facts behind the rational conversion
//! factors: reducing a fraction keeps its value and bounds its parts, and
//! rounding a quotient to the nearest integer loses at most half a unit.

use vstd::prelude::*;
use vstd::arithmetic::div_mod::{lemma_fundamental_div_mod, lemma_fundamental_div_mod_converse};

verus! {

/// `d` divides `n`.
pub open spec fn divides(d: int, n: int) -> bool {
    exists|k: int| n == #[trigger] (k * d)
}

/// The greatest common divisor, by Euclid's recursion.
pub open spec fn gcd(a: nat, b: nat) -> nat
    decreases b,
{
    if b == 0 {
        a
    } else {
        gcd(b, a % b)
    }
}

/// The gcd divides both of its arguments.
pub proof fn lemma_gcd_divides(a: nat, b: nat)
    ensures
        divides(gcd(a, b) as int, a as int),
        divides(gcd(a, b) as int, b as int),
    decreases b,
{
    if b == 0 {
        assert(a as int == 1 * (gcd(a, b) as int));
        assert(0int == 0 * (gcd(a, b) as int));
    } else {
        lemma_gcd_divides(b, a % b);
        let g = gcd(b, a % b) as int;
        let k1 = choose|k: int| b as int == #[trigger] (k * g);
        let k2 = choose|k: int| (a % b) as int == #[trigger] (k * g);
        lemma_fundamental_div_mod(a as int, b as int);
        let q = a as int / b as int;
        let r = (a as int) % (b as int);
        assert(a as int == (q * k1 + k2) * g) by (nonlinear_arith)
            requires
                a as int == (b as int) * q + r,
                b as int == k1 * g,
                r == k2 * g,
        ;
    }
}

/// Any common divisor of `a` and `b` divides their gcd.
pub proof fn lemma_divisor_divides_gcd(c: int, a: nat, b: nat)
    requires
        divides(c, a as int),
        divides(c, b as int),
    ensures
        divides(c, gcd(a, b) as int),
    decreases b,
{
    if b != 0 {
        let k1 = choose|k: int| a as int == #[trigger] (k * c);
        let k2 = choose|k: int| b as int == #[trigger] (k * c);
        lemma_fundamental_div_mod(a as int, b as int);
        let q = a as int / b as int;
        let r = (a as int) % (b as int);
        assert(r == (k1 - q * k2) * c) by (nonlinear_arith)
            requires
                a as int == (b as int) * q + r,
                a as int == k1 * c,
                b as int == k2 * c,
        ;
        lemma_divisor_divides_gcd(c, b, a % b);
    }
}

/// The gcd of two numbers, at least one of them positive, is positive.
pub proof fn lemma_gcd_pos(a: nat, b: nat)
    requires
        a >= 1 || b >= 1,
    ensures
        gcd(a, b) >= 1,
    decreases b,
{
    if b != 0 {
        lemma_gcd_pos(b, a % b);
    }
}

/// A positive divisor of a positive number is no larger than it.
pub proof fn lemma_divides_le(d: int, n: int)
    requires
        d >= 1,
        n >= 1,
        divides(d, n),
    ensures
        d <= n,
{
    let k = choose|k: int| n == #[trigger] (k * d);
    assert(k >= 1 ==> n >= d) by (nonlinear_arith)
        requires
            n == k * d,
            d >= 1,
    ;
    assert(k >= 1) by (nonlinear_arith)
        requires
            n == k * d,
            d >= 1,
            n >= 1,
    ;
}

/// A positive divisor goes into its multiple without remainder.
pub proof fn lemma_divides_split(d: int, n: int)
    requires
        d >= 1,
        n >= 0,
        divides(d, n),
    ensures
        n % d == 0,
        n == (n / d) * d,
{
    let k = choose|k: int| n == #[trigger] (k * d);
    lemma_fundamental_div_mod_converse(n, d, k, 0);
}

/// Scaling both arguments scales the remainder: `(k*a) % (k*b) == k * (a % b)`.
proof fn lemma_mod_scale(k: nat, a: nat, b: nat)
    requires
        k >= 1,
        b >= 1,
    ensures
        (k * a) % (k * b) == k * (a % b),
        (k * a) as int / (k * b) as int == a as int / b as int,
{
    lemma_fundamental_div_mod(a as int, b as int);
    let q = a as int / b as int;
    let r = (a as int) % (b as int);
    assert((k * a) as int == ((k * b) as int) * q + (k as int) * r) by (nonlinear_arith)
        requires
            a as int == (b as int) * q + r,
    ;
    assert((k as int) * r < (k * b) as int) by (nonlinear_arith)
        requires
            r < b as int,
            k >= 1,
    ;
    assert((k as int) * r >= 0) by (nonlinear_arith)
        requires
            r >= 0,
            k >= 1,
    ;
    lemma_fundamental_div_mod_converse((k * a) as int, (k * b) as int, q, (k as int) * r);
}

/// The gcd scales: `gcd(k*a, k*b) == k * gcd(a, b)`.
pub proof fn lemma_gcd_scale(k: nat, a: nat, b: nat)
    requires
        k >= 1,
    ensures
        gcd(k * a, k * b) == k * gcd(a, b),
    decreases b,
{
    if b == 0 {
        assert(k * b == 0);
    } else {
        lemma_mod_scale(k, a, b);
        lemma_gcd_scale(k, b, a % b);
        assert(k * b >= 1) by (nonlinear_arith)
            requires
                k >= 1,
                b >= 1,
        ;
        assert(gcd(k * a, k * b) == gcd(k * b, (k * a) % (k * b)));
    }
}

/// Euclid's lemma: a number coprime to `d` that divides `d * m` divides `m`.
pub proof fn lemma_coprime_divides(n: nat, d: nat, m: nat)
    requires
        n >= 1,
        gcd(n, d) == 1,
        divides(n as int, (d * m) as int),
    ensures
        divides(n as int, m as int),
{
    if m == 0 {
        assert(0int == 0 * (n as int));
    } else {
        lemma_gcd_scale(m, n, d);
        assert(gcd(m * n, m * d) == m * gcd(n, d));
        assert(m * d == d * m) by (nonlinear_arith);
        assert((m * n) as int == (m as int) * (n as int)) by (nonlinear_arith);
        lemma_divisor_divides_gcd(n as int, m * n, m * d);
    }
}

/// The gcd is symmetric in its arguments.
pub proof fn lemma_gcd_comm(a: nat, b: nat)
    ensures
        gcd(a, b) == gcd(b, a),
{
    if a == 0 && b == 0 {
    } else {
        lemma_gcd_pos(a, b);
        lemma_gcd_pos(b, a);
        lemma_gcd_divides(a, b);
        lemma_gcd_divides(b, a);
        lemma_divisor_divides_gcd(gcd(a, b) as int, b, a);
        lemma_divisor_divides_gcd(gcd(b, a) as int, a, b);
        lemma_divides_le(gcd(a, b) as int, gcd(b, a) as int);
        lemma_divides_le(gcd(b, a) as int, gcd(a, b) as int);
    }
}

/// Dividing two numbers by their gcd leaves a coprime pair.
pub proof fn lemma_quotients_coprime(a: nat, b: nat, x: nat, y: nat)
    requires
        a >= 1,
        b >= 1,
        a == x * gcd(a, b),
        b == y * gcd(a, b),
    ensures
        gcd(x, y) == 1,
{
    let g = gcd(a, b);
    lemma_gcd_pos(a, b);
    assert(x >= 1) by (nonlinear_arith)
        requires
            a >= 1,
            a == x * g,
    ;
    let c = gcd(x, y);
    lemma_gcd_pos(x, y);
    lemma_gcd_divides(x, y);
    let k1 = choose|k: int| x as int == #[trigger] (k * c as int);
    let k2 = choose|k: int| y as int == #[trigger] (k * c as int);
    assert(a as int == k1 * ((c * g) as int) && b as int == k2 * ((c * g) as int))
        by (nonlinear_arith)
        requires
            a == x * g,
            b == y * g,
            x as int == k1 * c as int,
            y as int == k2 * c as int,
    ;
    lemma_divisor_divides_gcd((c * g) as int, a, b);
    lemma_gcd_pos(a, b);
    assert((c * g) as int >= 1) by (nonlinear_arith)
        requires
            c >= 1,
            g >= 1,
    ;
    lemma_divides_le((c * g) as int, g as int);
    assert(c == 1) by (nonlinear_arith)
        requires
            c >= 1,
            g >= 1,
            (c * g) as int <= g as int,
    ;
}

/// A coprime fraction equal in value to `p / q` has parts no larger than
/// `p` and `q`.
pub proof fn lemma_reduced_bound(n: nat, d: nat, p: int, q: int)
    requires
        n >= 1,
        d >= 1,
        p >= 1,
        q >= 1,
        gcd(n, d) == 1,
        n as int * q == d as int * p,
    ensures
        n as int <= p,
        d as int <= q,
{
    assert(divides(n as int, (d * (p as nat)) as int)) by {
        assert((d * (p as nat)) as int == q * n as int) by (nonlinear_arith)
            requires
                n as int * q == d as int * p,
                p >= 1,
        ;
    }
    lemma_coprime_divides(n, d, p as nat);
    lemma_divides_le(n as int, p);
    lemma_gcd_comm(n, d);
    assert(divides(d as int, (n * (q as nat)) as int)) by {
        assert((n * (q as nat)) as int == p * d as int) by (nonlinear_arith)
            requires
                n as int * q == d as int * p,
                q >= 1,
        ;
    }
    lemma_coprime_divides(d, n, q as nat);
    lemma_divides_le(d as int, q);
}

/// Euclid's algorithm.
pub fn gcd_u128(a: u128, b: u128) -> (g: u128)
    ensures
        g as nat == gcd(a as nat, b as nat),
{
    let mut x = a;
    let mut y = b;
    while y != 0
        invariant
            gcd(x as nat, y as nat) == gcd(a as nat, b as nat),
        decreases y,
    {
        let r = x % y;
        x = y;
        y = r;
    }
    x
}

/// Division of `a` by `d`, rounded to the nearest integer, halves away
/// from zero.
pub open spec fn rounded_div(a: int, d: int) -> int
    recommends
        d >= 1,
{
    if a >= 0 {
        (2 * a + d) / (2 * d)
    } else {
        -((2 * (-a) + d) / (2 * d))
    }
}

/// Rounded division is symmetric in the sign of the dividend.
pub proof fn lemma_rounded_div_neg(a: int, d: int)
    requires
        d >= 1,
    ensures
        rounded_div(-a, d) == -rounded_div(a, d),
{
    if a == 0 {
        lemma_fundamental_div_mod_converse(d, 2 * d, 0, d);
    }
}

/// Two representations of the same rational value divide to the same
/// integer quotient.
pub proof fn lemma_div_frac_eq(x: int, y: int, u: int, v: int)
    requires
        y >= 1,
        v >= 1,
        x >= 0,
        x * v == u * y,
    ensures
        x / y == u / v,
{
    lemma_fundamental_div_mod(x, y);
    let q = x / y;
    let r = x % y;
    let s = (u - q * v);
    assert(r * v == s * y) by (nonlinear_arith)
        requires
            x == y * q + r,
            x * v == u * y,
            s == u - q * v,
    ;
    assert(0 <= s && s < v) by (nonlinear_arith)
        requires
            r * v == s * y,
            0 <= r,
            r < y,
            y >= 1,
            v >= 1,
    ;
    lemma_fundamental_div_mod_converse(u, v, q, s);
}

/// Two representations of the same rational value round to the same
/// integer.
pub proof fn lemma_rounded_div_frac_eq(a: int, d: int, b: int, e: int)
    requires
        d >= 1,
        e >= 1,
        a * e == b * d,
    ensures
        rounded_div(a, d) == rounded_div(b, e),
{
    if a >= 0 {
        assert(b >= 0) by (nonlinear_arith)
            requires
                a * e == b * d,
                a >= 0,
                d >= 1,
                e >= 1,
        ;
        assert((2 * a + d) * (2 * e) == (2 * b + e) * (2 * d)) by (nonlinear_arith)
            requires
                a * e == b * d,
        ;
        lemma_div_frac_eq(2 * a + d, 2 * d, 2 * b + e, 2 * e);
    } else {
        assert(b < 0) by (nonlinear_arith)
            requires
                a * e == b * d,
                a < 0,
                d >= 1,
                e >= 1,
        ;
        assert((2 * (-a) + d) * (2 * e) == (2 * (-b) + e) * (2 * d)) by (nonlinear_arith)
            requires
                a * e == b * d,
        ;
        lemma_div_frac_eq(2 * (-a) + d, 2 * d, 2 * (-b) + e, 2 * e);
    }
}

/// Rounding an exact multiple gives back the multiplier.
pub proof fn lemma_rounded_div_exact(q: int, m: int)
    requires
        m >= 1,
    ensures
        rounded_div(q * m, m) == q,
{
    if q >= 0 {
        assert(2 * (q * m) + m == q * (2 * m) + m) by (nonlinear_arith);
        lemma_fundamental_div_mod_converse(2 * (q * m) + m, 2 * m, q, m);
    } else {
        assert(q * m < 0) by (nonlinear_arith)
            requires
                q < 0,
                m >= 1,
        ;
        assert(2 * (-(q * m)) + m == (-q) * (2 * m) + m) by (nonlinear_arith);
        lemma_fundamental_div_mod_converse(2 * (-(q * m)) + m, 2 * m, -q, m);
    }
}

/// The rounded quotient is within half a unit of the exact quotient:
/// `|rounded_div(a, d) * d - a| <= d / 2`, stated without division.
pub proof fn lemma_rounded_div_error(a: int, d: int)
    requires
        d >= 1,
    ensures
        2 * d * rounded_div(a, d) - 2 * a <= d,
        2 * a - 2 * d * rounded_div(a, d) <= d,
{
    if a >= 0 {
        let r = (2 * a + d) / (2 * d);
        lemma_fundamental_div_mod(2 * a + d, 2 * d);
        assert(2 * d * r - 2 * a <= d && 2 * a - 2 * d * r <= d) by (nonlinear_arith)
            requires
                2 * a + d == (2 * d) * r + (2 * a + d) % (2 * d),
                0 <= (2 * a + d) % (2 * d),
                (2 * a + d) % (2 * d) < 2 * d,
        ;
    } else {
        let r = (2 * (-a) + d) / (2 * d);
        lemma_fundamental_div_mod(2 * (-a) + d, 2 * d);
        assert(2 * d * (-r) - 2 * a <= d && 2 * a - 2 * d * (-r) <= d) by (nonlinear_arith)
            requires
                2 * (-a) + d == (2 * d) * r + (2 * (-a) + d) % (2 * d),
                0 <= (2 * (-a) + d) % (2 * d),
                (2 * (-a) + d) % (2 * d) < 2 * d,
        ;
    }
}

/// Rounded division of `a` by `d`, halves away from zero.
pub fn rounded_div_i128(a: i128, d: i128) -> (r: i128)
    requires
        1 <= d <= 0x10000000000000000000000000000i128,
        -0x10000000000000000000000000000i128 <= a <= 0x10000000000000000000000000000i128,
    ensures
        r == rounded_div(a as int, d as int),
{
    if a >= 0 {
        (2 * a + d) / (2 * d)
    } else {
        -((2 * (-a) + d) / (2 * d))
    }
}

} // verus!
