//! Fractions of 64-bit integers with the sign on the numerator.
use vstd::prelude::*;
use vstd::arithmetic::div_mod::{lemma_fundamental_div_mod, lemma_fundamental_div_mod_converse};
use crate::math_utility::{abs, checked_gcd, gcd, lemma_gcd_divides, lemma_gcd_of_quotients};
use crate::text::{decimal, push_integer};

verus! {

/// A fraction whose denominator is above zero and whose numerator is
/// above `i64::MIN`, so that both have an absolute value.
#[derive(Debug, Clone, Copy, PartialEq, Eq)]
pub struct Fraction {
    top: i64,
    bottom: i64,
}

/// The numerator and the denominator of `num / den` in lowest terms.
pub open spec fn lowest(num: int, den: int) -> (int, int) {
    let g = gcd(abs(num) as nat, abs(den) as nat) as int;
    (num / g, den / g)
}

/// The text of a fraction: the numerator alone over the denominator `1`,
/// `numerator / denominator` else.
pub open spec fn fraction_text(num: int, den: int) -> Seq<char> {
    if den == 1 {
        decimal(num)
    } else {
        decimal(num) + " / "@ + decimal(den)
    }
}

impl Fraction {
    #[verifier::type_invariant]
    spec fn valid(self) -> bool {
        self.bottom > 0 && self.top > i64::MIN
    }

    /// The numerator, which carries the sign.
    pub closed spec fn numerator(self) -> int {
        self.top as int
    }

    /// The denominator.
    pub closed spec fn denominator(self) -> int {
        self.bottom as int
    }

    /// The numerator, which carries the sign.
    pub fn top(&self) -> (r: i64)
        ensures
            r == self.numerator(),
            r > i64::MIN,
    {
        proof {
            use_type_invariant(self);
        }
        self.top
    }

    /// The denominator, which is above zero.
    pub fn bottom(&self) -> (r: i64)
        ensures
            r == self.denominator(),
            r > 0,
    {
        proof {
            use_type_invariant(self);
        }
        self.bottom
    }

    /// The fraction `top / bottom` with the sign moved to the numerator.
    /// There is none where `bottom` is zero, nor where `top` or `bottom` is
    /// `i64::MIN`, which has no absolute value in 64 bits.
    pub fn safe_new(top: i64, bottom: i64) -> (r: Option<Fraction>)
        ensures
            r is None <==> bottom == 0 || top == i64::MIN || bottom == i64::MIN,
            r matches Some(f) ==> {
                &&& f.denominator() == abs(bottom as int)
                &&& f.numerator() == if bottom < 0 {
                    -top
                } else {
                    top as int
                }
            },
    {
        if bottom == 0 {
            None
        } else {
            if bottom < 0 {
                let neg_top = match 0i64.checked_sub(top) {
                    Some(n) => n,
                    None => return None,
                };
                let neg_bottom = match 0i64.checked_sub(bottom) {
                    Some(n) => n,
                    None => return None,
                };
                Some(Fraction { top: neg_top, bottom: neg_bottom })
            } else {
                if top == i64::MIN {
                    return None
                }
                Some(Fraction { top, bottom })
            }
        }
    }

    /// The same fraction in lowest terms: numerator and denominator are
    /// divided by their greatest common divisor. What comes out has no
    /// common divisor left, so that doing it again changes nothing.
    pub fn make_irreducible_fraction(&self) -> (r: Fraction)
        ensures
            (r.numerator(), r.denominator()) == lowest(self.numerator(), self.denominator()),
            gcd(abs(r.numerator()) as nat, r.denominator() as nat) == 1,
            lowest(r.numerator(), r.denominator()) == (r.numerator(), r.denominator()),
    {
        proof {
            use_type_invariant(self);
            lemma_lowest(self.top as int, self.bottom as int);
            lemma_lowest_idempotent(self.top as int, self.bottom as int);
        }
        let gcd_value = match checked_gcd(self.top, self.bottom) {
            Some(v) => v,
            None => 1,
        };
        Fraction { top: self.top / gcd_value, bottom: self.bottom / gcd_value }
    }

    /// The fraction as text: `N` where the denominator is one, `N / D` else.
    pub fn to_string(&self) -> (r: String)
        ensures
            r@ == fraction_text(self.numerator(), self.denominator()),
    {
        let mut text = String::new();
        push_integer(&mut text, self.top);
        if self.bottom != 1 {
            text.append(" / ");
            push_integer(&mut text, self.bottom);
        }
        text
    }
}

/// What dividing by the greatest common divisor does to a fraction with a
/// denominator above zero: both divisions are exact, the signs stay, and
/// what comes out has no common divisor left.
pub proof fn lemma_lowest(num: int, den: int)
    requires
        den > 0,
    ensures
        ({
            let g = gcd(abs(num) as nat, den as nat) as int;
            let (n, d) = lowest(num, den);
            &&& 0 < g <= den
            &&& n * g == num
            &&& d * g == den
            &&& 0 < d <= den
            &&& abs(n) <= abs(num)
            &&& n == if num < 0 {
                -(abs(num) / g)
            } else {
                num / g
            }
            &&& gcd(abs(n) as nat, d as nat) == 1
        }),
{
    let a = abs(num) as nat;
    let b = den as nat;
    let g = gcd(a, b);
    lemma_gcd_divides(a, b);
    lemma_gcd_of_quotients(a, b);
    lemma_fundamental_div_mod(a as int, g as int);
    lemma_fundamental_div_mod(b as int, g as int);
    let x = a / g;
    let y = b / g;
    assert(0 < y <= b && x <= a && g <= b) by (nonlinear_arith)
        requires
            a == g * x,
            b == g * y,
            g > 0,
            b > 0,
            x >= 0,
            y >= 0,
    ;
    if num < 0 {
        assert(num == (-x) * g + 0) by (nonlinear_arith)
            requires
                -num == g * x,
        ;
        lemma_fundamental_div_mod_converse(num, g as int, -(x as int), 0);
    }
    assert(lowest(num, den).1 * g == den) by (nonlinear_arith)
        requires
            b == g * y,
            lowest(num, den).1 == y,
            den == b,
    ;
    let n = lowest(num, den).0;
    assert(n * g == num) by (nonlinear_arith)
        requires
            a == g * x,
            n == if num < 0 {
                -(x as int)
            } else {
                x as int
            },
            a == if num < 0 {
                -num
            } else {
                num
            },
    ;
}

/// Putting a fraction in lowest terms twice is the same as doing it once.
pub proof fn lemma_lowest_idempotent(num: int, den: int)
    requires
        den > 0,
    ensures
        lowest(lowest(num, den).0, lowest(num, den).1) == lowest(num, den),
{
    lemma_lowest(num, den);
    let (n, d) = lowest(num, den);
    assert(n / 1 == n && d / 1 == d);
}

} // verus!
