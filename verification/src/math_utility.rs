//! Integer helpers: absolute value and greatest common divisor on `i64`,
//! both of which report overflow instead of wrapping.
use vstd::prelude::*;
use vstd::arithmetic::div_mod::{
    lemma_fundamental_div_mod, lemma_mod_bound, lemma_mod_multiples_basic,
};

verus! {

/// The absolute value of an integer.
pub open spec fn abs(a: int) -> int {
    if a < 0 {
        -a
    } else {
        a
    }
}

/// The greatest common divisor of two naturals by Euclid's remainders.
/// `gcd(a, 0)` and `gcd(0, a)` are `a`, so `gcd(0, 0)` is `0`.
pub open spec fn gcd(a: nat, b: nat) -> nat
    decreases b,
{
    if b == 0 {
        a
    } else {
        gcd(b, a % b)
    }
}

/// Whether `d` divides `n`.
pub open spec fn divides(d: nat, n: nat) -> bool {
    d != 0 && n % d == 0
}

/// The absolute value of `a`, or `None` where it does not fit in an `i64`,
/// which holds of `i64::MIN` alone.
pub fn checked_abs(a: i64) -> (r: Option<i64>)
    ensures
        a == i64::MIN ==> r is None,
        a != i64::MIN ==> (r matches Some(v) && v == abs(a as int)),
{
    if a < 0 {
        0i64.checked_sub(a)
    } else {
        Some(a)
    }
}

/// Euclid's algorithm on two non-negative integers.
fn gcd_loop(a: i64, b: i64) -> (r: i64)
    requires
        a >= 0,
        b >= 0,
    ensures
        r == gcd(a as nat, b as nat),
{
    let mut x = a;
    let mut y = b;
    while y > 0
        invariant
            a >= 0,
            b >= 0,
            x >= 0,
            y >= 0,
            gcd(x as nat, y as nat) == gcd(a as nat, b as nat),
        decreases y,
    {
        proof {
            lemma_fundamental_div_mod(x as int, y as int);
            lemma_mod_bound(x as int, y as int);
            assert((x / y) * y == y * (x / y)) by (nonlinear_arith);
            assert(x - (x / y) * y == x % y);
        }
        let rest: i64 = x - (x / y) * y;
        x = y;
        y = rest;
    }
    x
}

/// The greatest common divisor of `|a|` and `|b|`, or `None` where one of
/// the absolute values does not fit in an `i64`.
pub fn checked_gcd(a: i64, b: i64) -> (r: Option<i64>)
    ensures
        a == i64::MIN || b == i64::MIN ==> r is None,
        a != i64::MIN && b != i64::MIN ==> (r matches Some(v) && v == gcd(
            abs(a as int) as nat,
            abs(b as int) as nat,
        )),
{
    let a = match checked_abs(a) {
        Some(v) => v,
        None => return None,
    };
    let b = match checked_abs(b) {
        Some(v) => v,
        None => return None,
    };
    if a == 0 {
        assert(gcd(0, b as nat) == b) by {
            if b > 0 {
                assert(0nat % (b as nat) == 0);
                assert(gcd(b as nat, 0) == b);
            }
        }
        return Some(b);
    }
    if b == 0 {
        return Some(a);
    }
    Some(gcd_loop(a, b))
}

/// A sum of two multiples of `d` is a multiple of `d`, and so is the
/// product of a multiple of `d` with any natural.
proof fn lemma_multiples(d: nat, x: nat, y: nat, q: nat)
    requires
        divides(d, x),
        divides(d, y),
    ensures
        divides(d, x * q + y),
{
    lemma_fundamental_div_mod(x as int, d as int);
    lemma_fundamental_div_mod(y as int, d as int);
    let k = (x / d) * q + (y / d);
    assert(x * q + y == k * d) by (nonlinear_arith)
        requires
            x == d * (x / d),
            y == d * (y / d),
            k == (x / d) * q + (y / d),
    ;
    lemma_mod_multiples_basic(k as int, d as int);
}

/// The difference between a multiple of `d` and a smaller multiple of `d`
/// is a multiple of `d`.
proof fn lemma_multiples_apart(d: nat, x: nat, y: nat, q: nat)
    requires
        divides(d, x),
        divides(d, y),
        y * q <= x,
    ensures
        divides(d, (x - y * q) as nat),
{
    lemma_fundamental_div_mod(x as int, d as int);
    lemma_fundamental_div_mod(y as int, d as int);
    let k = (x / d) - (y / d) * q;
    assert(x - y * q == k * d) by (nonlinear_arith)
        requires
            x == d * (x / d),
            y == d * (y / d),
            k == (x / d) - (y / d) * q,
    ;
    lemma_mod_multiples_basic(k, d as int);
}

/// The greatest common divisor of two naturals that are not both zero is
/// above zero and divides both.
pub proof fn lemma_gcd_divides(a: nat, b: nat)
    requires
        a > 0 || b > 0,
    ensures
        gcd(a, b) > 0,
        divides(gcd(a, b), a),
        divides(gcd(a, b), b),
    decreases b,
{
    if b == 0 {
        lemma_mod_multiples_basic(1, a as int);
        assert(0nat % a == 0);
    } else {
        lemma_mod_bound(a as int, b as int);
        lemma_gcd_divides(b, a % b);
        lemma_fundamental_div_mod(a as int, b as int);
        lemma_multiples(gcd(a, b), b, a % b, a / b);
        assert(b * (a / b) + a % b == a) by (nonlinear_arith)
            requires
                a == b * (a / b) + a % b,
        ;
    }
}

/// Every common divisor of two naturals divides their greatest common divisor.
pub proof fn lemma_gcd_greatest(a: nat, b: nat, d: nat)
    requires
        divides(d, a),
        divides(d, b),
    ensures
        divides(d, gcd(a, b)),
    decreases b,
{
    if b != 0 {
        lemma_mod_bound(a as int, b as int);
        lemma_fundamental_div_mod(a as int, b as int);
        assert(b * (a / b) <= a && a - b * (a / b) == a % b) by (nonlinear_arith)
            requires
                a == b * (a / b) + a % b,
                a % b >= 0,
        ;
        lemma_multiples_apart(d, a, b, a / b);
        lemma_gcd_greatest(b, a % b, d);
    }
}

/// Two naturals divided by their greatest common divisor have no common
/// divisor but one.
pub proof fn lemma_gcd_of_quotients(a: nat, b: nat)
    requires
        a > 0 || b > 0,
    ensures
        gcd(a / gcd(a, b), b / gcd(a, b)) == 1,
{
    let g = gcd(a, b);
    lemma_gcd_divides(a, b);
    lemma_fundamental_div_mod(a as int, g as int);
    lemma_fundamental_div_mod(b as int, g as int);
    let x = a / g;
    let y = b / g;
    assert(x > 0 || y > 0) by (nonlinear_arith)
        requires
            a == g * x,
            b == g * y,
            a > 0 || b > 0,
    ;
    let h = gcd(x, y);
    lemma_gcd_divides(x, y);
    lemma_fundamental_div_mod(x as int, h as int);
    lemma_fundamental_div_mod(y as int, h as int);
    assert(a == (x / h) * (g * h) && b == (y / h) * (g * h)) by (nonlinear_arith)
        requires
            a == g * x,
            b == g * y,
            x == h * (x / h),
            y == h * (y / h),
    ;
    assert(g * h > 0) by (nonlinear_arith)
        requires
            g > 0,
            h > 0,
    ;
    lemma_mod_multiples_basic((x / h) as int, (g * h) as int);
    lemma_mod_multiples_basic((y / h) as int, (g * h) as int);
    lemma_gcd_greatest(a, b, g * h);
    lemma_fundamental_div_mod(g as int, (g * h) as int);
    let m = g / (g * h);
    assert(h == 1) by (nonlinear_arith)
        requires
            g == (g * h) * m,
            g > 0,
            h > 0,
            m >= 0,
    ;
}

} // verus!
