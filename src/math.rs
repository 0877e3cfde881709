//! Integer utilities: absolute value and Euclid's greatest common divisor,
//! with the facts about them that fraction normalization needs.

use vstd::prelude::*;
use vstd::arithmetic::div_mod::{
    lemma_fundamental_div_mod,
    lemma_mod_multiples_basic,
    lemma_small_mod,
    lemma_truncate_middle,
};

verus! {

/// Absolute value of a mathematical integer.
pub open spec fn abs_spec(n: int) -> int {
    if n < 0 {
        -n
    } else {
        n
    }
}

/// Euclid's algorithm on naturals: `gcd(a, 0) = a`.
pub open spec fn gcd_spec(a: nat, b: nat) -> nat
    decreases b,
{
    if b == 0 {
        a
    } else {
        gcd_spec(b, a % b)
    }
}

/// The gcd of two naturals that are not both zero is positive and divides both.
pub proof fn lemma_gcd_divides(a: nat, b: nat)
    requires
        a > 0 || b > 0,
    ensures
        gcd_spec(a, b) > 0,
        a % gcd_spec(a, b) == 0,
        b % gcd_spec(a, b) == 0,
    decreases b,
{
    if b == 0 {
        lemma_mod_multiples_basic(1, a as int);
    } else {
        let r = a % b;
        lemma_gcd_divides(b, r);
        let g = gcd_spec(b, r) as int;
        let q = a as int / b as int;
        let kb = b as int / g;
        let kr = r as int / g;
        lemma_fundamental_div_mod(b as int, g);
        lemma_fundamental_div_mod(r as int, g);
        lemma_fundamental_div_mod(a as int, b as int);
        assert(a as int == (kb * q + kr) * g) by (nonlinear_arith)
            requires
                a as int == b * q + r,
                b as int == g * kb,
                r as int == g * kr,
        ;
        lemma_mod_multiples_basic(kb * q + kr, g);
    }
}

/// The gcd is no larger than the larger of its arguments.
pub proof fn lemma_gcd_bound(a: nat, b: nat)
    ensures
        gcd_spec(a, b) <= a || gcd_spec(a, b) <= b,
{
    if b > 0 {
        lemma_gcd_divides(a, b);
        if gcd_spec(a, b) > b {
            lemma_small_mod(b, gcd_spec(a, b));
        }
    }
}

/// Scaling both arguments scales the gcd.
pub proof fn lemma_gcd_scale(k: nat, a: nat, b: nat)
    requires
        k > 0,
    ensures
        gcd_spec(k * a, k * b) == k * gcd_spec(a, b),
    decreases b,
{
    if b == 0 {
        assert(k * b == 0);
    } else {
        lemma_truncate_middle(a as int, k as int, b as int);
        lemma_gcd_scale(k, b, a % b);
        assert(k * b > 0) by (nonlinear_arith)
            requires
                k > 0,
                b > 0,
        ;
    }
}

/// Dividing both arguments by their gcd leaves them coprime.
pub proof fn lemma_gcd_reduced(a: nat, b: nat)
    requires
        a > 0 || b > 0,
    ensures
        gcd_spec(a / gcd_spec(a, b), b / gcd_spec(a, b)) == 1,
{
    let g = gcd_spec(a, b);
    lemma_gcd_divides(a, b);
    let a1 = a / g;
    let b1 = b / g;
    lemma_fundamental_div_mod(a as int, g as int);
    lemma_fundamental_div_mod(b as int, g as int);
    lemma_gcd_scale(g, a1, b1);
    assert(g * a1 == a && g * b1 == b);
    let c = gcd_spec(a1, b1);
    assert(c == 1) by (nonlinear_arith)
        requires
            g > 0,
            g == g * c,
    ;
}

/// When `d` divides `a`, their gcd is `d`.
pub proof fn lemma_gcd_of_multiple(a: nat, d: nat)
    requires
        d > 0,
        a % d == 0,
    ensures
        gcd_spec(a, d) == d,
{
    assert(gcd_spec(d, 0) == d);
}

/// `gcd(0, b) = b`.
pub proof fn lemma_gcd_zero_left(b: nat)
    ensures
        gcd_spec(0, b) == b,
{
    if b > 0 {
        lemma_small_mod(0, b);
        assert(gcd_spec(b, 0) == b);
    }
}

/// Computes the absolute value of a number.
pub fn abs(number: i32) -> (r: i32)
    requires
        number > i32::MIN,
    ensures
        r == abs_spec(number as int),
{
    if number < 0 {
        -number
    } else {
        number
    }
}

/// Euclid's algorithm on unsigned 64-bit values.
pub fn gcd_u64(a: u64, b: u64) -> (r: u64)
    ensures
        r == gcd_spec(a as nat, b as nat),
    decreases b,
{
    if b == 0 {
        a
    } else {
        gcd_u64(b, a % b)
    }
}

/// Computes the greatest common divisor of two non-negative numbers with
/// Euclid's algorithm; `gcd(a, 0) = a`.
pub fn gcd(a: i32, b: i32) -> (r: i32)
    requires
        a >= 0,
        b >= 0,
    ensures
        r == gcd_spec(a as nat, b as nat),
{
    let g = gcd_u64(a as u64, b as u64);
    proof {
        lemma_gcd_bound(a as nat, b as nat);
    }
    g as i32
}

} // verus!
