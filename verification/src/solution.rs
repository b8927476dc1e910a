//! Solving the reduced equation of degree zero, one or two.
//!
//! An equation of degree zero or one is solved in one step. Of a
//! quadratic equation [`solution`] hands out the discriminant; the caller
//! evaluates it, finds its square root, and calls [`degree_2_solution`],
//! which takes both as they are given. Every function here reads the
//! signs of coefficients, so their values must have been settled.
use vstd::prelude::*;
use crate::fraction::{fraction_text, lemma_lowest, lowest, Fraction};
use crate::math_utility::{abs, gcd};
use crate::term::{Approx, Coefficient, Term};
use crate::text::{parts, Part, Piece};
use crate::utility::all_settled;

verus! {

/// What the solver has come to.
#[derive(Debug, PartialEq)]
pub enum Step {
    /// The solution, complete.
    Done(Vec<Piece>),
    /// The equation is quadratic and this is its discriminant. The caller
    /// evaluates it, takes its square root where it is above zero, and
    /// goes on with [`degree_2_solution`].
    Quadratic(Coefficient),
}

/// The answer to an equation that every number solves.
pub open spec fn every_number() -> Seq<char> {
    "The solution is an arbitrary real number."@
}

/// The answer to an equation that no number solves.
pub open spec fn no_number() -> Seq<char> {
    "There is no solution."@
}

/// The coefficient of the first term of the given degree, and zero where
/// there is no such term.
pub open spec fn coefficient_at(terms: Seq<Term>, degree: int) -> Coefficient
    decreases terms.len(),
{
    if terms.len() == 0 {
        Coefficient::NumInt(0)
    } else if terms[0].degree == degree {
        terms[0].coefficient
    } else {
        coefficient_at(terms.drop_first(), degree)
    }
}

/// Whether the terms are those of the degrees `0` to `degree`, in order.
pub open spec fn gapless(terms: Seq<Term>, degree: int) -> bool {
    &&& terms.len() == degree + 1
    &&& forall|i: int| 0 <= i <= degree ==> (#[trigger] terms[i]).degree == i
}

/// Whether `top / bottom` is a fraction: `bottom` is not zero, and
/// neither of the two is `i64::MIN`.
pub open spec fn is_fraction(top: int, bottom: int) -> bool {
    bottom != 0 && top != i64::MIN && bottom != i64::MIN
}

/// The numerator and the denominator of `top / bottom` in lowest terms,
/// with the sign on the numerator.
pub open spec fn exact_fraction(top: int, bottom: int) -> (int, int) {
    lowest(
        if bottom < 0 {
            -top
        } else {
            top
        },
        abs(bottom),
    )
}

/// `top / bottom` in lowest terms with the sign on the numerator, as text.
pub open spec fn exact_quotient(top: int, bottom: int) -> Seq<char> {
    let (n, d) = exact_fraction(top, bottom);
    fraction_text(n, d)
}

/// The fraction in lowest terms is the number `top / bottom`: its
/// denominator is above zero, it has no common divisor left, and
/// multiplying across gives the same on both sides.
pub proof fn lemma_exact_fraction(top: int, bottom: int)
    requires
        bottom != 0,
    ensures
        ({
            let (n, d) = exact_fraction(top, bottom);
            &&& d > 0
            &&& n * bottom == top * d
            &&& gcd(abs(n) as nat, d as nat) == 1
        }),
{
    let num = if bottom < 0 {
        -top
    } else {
        top
    };
    let den = abs(bottom);
    lemma_lowest(num, den);
    let g = gcd(abs(num) as nat, den as nat) as int;
    let (n, d) = exact_fraction(top, bottom);
    assert(n * bottom == top * d) by (nonlinear_arith)
        requires
            n * g == num,
            d * g == den,
            num == if bottom < 0 {
                -top
            } else {
                top
            },
            den == if bottom < 0 {
                -bottom
            } else {
                bottom
            },
    ;
}

/// The fraction that is written for `-b / a` solves `a * X + b = 0`.
pub proof fn lemma_exact_linear_solves(a: int, b: int)
    requires
        a != 0,
    ensures
        ({
            let (n, d) = exact_fraction(-b, a);
            d > 0 && a * n + b * d == 0
        }),
{
    lemma_exact_fraction(-b, a);
    let (n, d) = exact_fraction(-b, a);
    assert(a * n + b * d == 0) by (nonlinear_arith)
        requires
            n * a == (-b) * d,
    ;
}

/// The fraction that is written for `(-b + r) / (2 * a)` solves
/// `a * X^2 + b * X + c = 0` where `r * r` is the discriminant; so does
/// the one for `(-b - r) / (2 * a)`, as `-r` has the same square.
pub proof fn lemma_exact_root_solves(a: int, b: int, c: int, r: int)
    requires
        a != 0,
        r * r == b * b - 4 * a * c,
    ensures
        ({
            let (n, d) = exact_fraction(r - b, 2 * a);
            d > 0 && a * n * n + b * n * d + c * d * d == 0
        }),
{
    lemma_exact_fraction(r - b, 2 * a);
    let (n, d) = exact_fraction(r - b, 2 * a);
    let w = r - b;
    let p = a * n;
    let q = 2 * p;
    let e = a * n * n + b * n * d + c * d * d;
    assert(q == w * d) by (nonlinear_arith)
        requires
            n * (2 * a) == w * d,
            q == 2 * (a * n),
    ;
    let n2 = n * n;
    let nd = n * d;
    let d2 = d * d;
    assert(a * e == p * p + b * d * p + a * c * d2) by {
        assert(a * (a * n2) == p * p) by (nonlinear_arith)
            requires
                p == a * n,
                n2 == n * n,
        ;
        assert(a * (b * nd) == b * d * p) by (nonlinear_arith)
            requires
                p == a * n,
                nd == n * d,
        ;
        assert(e == a * n2 + b * nd + c * d2) by (nonlinear_arith)
            requires
                e == a * n * n + b * n * d + c * d * d,
                n2 == n * n,
                nd == n * d,
                d2 == d * d,
        ;
        assert(a * e == a * (a * n2) + a * (b * nd) + a * (c * d2)) by (nonlinear_arith)
            requires
                e == a * n2 + b * nd + c * d2,
        ;
        assert(a * (c * d2) == a * c * d2) by (nonlinear_arith);
    }
    let bd = b * d;
    assert(4 * (a * e) == q * q + 2 * bd * q + 4 * (a * c * d2)) by (nonlinear_arith)
        requires
            a * e == p * p + bd * p + a * c * d2,
            q == 2 * p,
    ;
    assert(q * q == w * w * d2) by (nonlinear_arith)
        requires
            q == w * d,
            d2 == d * d,
    ;
    assert(bd * q == b * w * d2) by (nonlinear_arith)
        requires
            q == w * d,
            bd == b * d,
            d2 == d * d,
    ;
    let k = w * w + 2 * (b * w) + 4 * (a * c);
    assert(k == 0) by (nonlinear_arith)
        requires
            k == w * w + 2 * (b * w) + 4 * (a * c),
            w == r - b,
            r * r == b * b - 4 * a * c,
    ;
    assert(4 * (a * e) == k * d2) by (nonlinear_arith)
        requires
            4 * (a * e) == q * q + 2 * bd * q + 4 * (a * c * d2),
            q * q == w * w * d2,
            bd * q == b * w * d2,
            k == w * w + 2 * (b * w) + 4 * (a * c),
    ;
    assert(e == 0) by (nonlinear_arith)
        requires
            4 * (a * e) == 0,
            a != 0,
    ;
}

/// `num / den`: the fraction in lowest terms where both are integers of
/// which a fraction can be made, the floating-point quotient else.
pub open spec fn quotient(num: Coefficient, den: Coefficient) -> Part {
    match (num, den) {
        (Coefficient::NumInt(n), Coefficient::NumInt(d)) if is_fraction(n as int, d as int) => {
            Part::Text(exact_quotient(n as int, d as int))
        },
        _ => Part::Number(Approx::Quotient(Box::new(num.approx()), Box::new(den.approx()))),
    }
}

/// `-num / den`: `0` where `num` is zero; else the fraction in lowest
/// terms where both are integers of which a fraction can be made; else
/// the floating-point quotient.
pub open spec fn negated_quotient(num: Coefficient, den: Coefficient) -> Part {
    if num.zero() {
        Part::Text("0"@)
    } else {
        match (num, den) {
            (Coefficient::NumInt(n), Coefficient::NumInt(d)) if n != i64::MIN && is_fraction(
                -n,
                d as int,
            ) => Part::Text(exact_quotient(-n, d as int)),
            _ => Part::Number(
                Approx::Quotient(
                    Box::new(Approx::Negation(Box::new(num.approx()))),
                    Box::new(den.approx()),
                ),
            ),
        }
    }
}

/// The answer to `a * X + b = 0`.
pub open spec fn degree_1_parts(b: Coefficient, a: Coefficient) -> Seq<Part> {
    seq![Part::Text("The solution is:\n"@), negated_quotient(b, a)]
}

/// The discriminant `b * b - 4 * a * c` of `a * X^2 + b * X + c`, as the
/// sum of `b * b` and `((-4) * a) * c`.
pub open spec fn discriminant(c: Coefficient, b: Coefficient, a: Coefficient) -> Coefficient {
    b.product(b).sum(Coefficient::NumInt(-4i64).product(a).product(c))
}

/// The answer to a quadratic equation whose discriminant is zero: `-b / (2 * a)`.
pub open spec fn one_root_parts(b: Coefficient, a: Coefficient) -> Seq<Part> {
    seq![
        Part::Text("Discriminant is zero, the solution is:\n"@),
        negated_quotient(b, a.product(Coefficient::NumInt(2))),
    ]
}

/// The answer to a quadratic equation whose discriminant is above zero
/// and has the square root `root`: `(-b + root) / (2 * a)` and
/// `(-b - root) / (2 * a)`.
pub open spec fn two_roots_parts(b: Coefficient, a: Coefficient, root: Coefficient) -> Seq<Part> {
    let twice = a.product(Coefficient::NumInt(2));
    seq![
        Part::Text("Discriminant is strictly positive, the two solutions are:\n"@),
        quotient(b.negated().sum(root), twice),
        Part::Text("\n"@),
        quotient(b.negated().sum(root.negated()), twice),
    ]
}

/// The answer to a quadratic equation whose discriminant `d` is below
/// zero: `-b / (2 * a)` for the real part and `sqrt(-d) / (2 * a)` for
/// the imaginary part, both in floating point.
pub open spec fn complex_parts(b: Coefficient, a: Coefficient, d: Coefficient) -> Seq<Part> {
    let twice = Approx::Product(Box::new(a.approx()), Box::new(Approx::Int(2)));
    seq![
        Part::Text("Discriminant is strictly negative, the two complex solutions are:\n"@),
        Part::Number(
            Approx::Quotient(Box::new(Approx::Negation(Box::new(b.approx()))), Box::new(twice)),
        ),
        Part::Text(" ± "@),
        Part::Number(
            Approx::Quotient(
                Box::new(Approx::Root(Box::new(Approx::Negation(Box::new(d.approx()))))),
                Box::new(twice),
            ),
        ),
        Part::Text("i"@),
    ]
}

/// The answer to a quadratic equation with the discriminant `d`, whose
/// square root is `root` where `d` is above zero.
pub open spec fn degree_2_parts(
    b: Coefficient,
    a: Coefficient,
    d: Coefficient,
    root: Coefficient,
) -> Seq<Part> {
    if d.zero() {
        one_root_parts(b, a)
    } else if d.non_negative() {
        two_roots_parts(b, a, root)
    } else {
        complex_parts(b, a, d)
    }
}

/// The answer to an equation that every number solves.
pub fn degree_0_solution_all() -> (r: String)
    ensures
        r@ == every_number(),
{
    String::from_str("The solution is an arbitrary real number.")
}

/// The answer to an equation that no number solves.
pub fn degree_0_solution_non() -> (r: String)
    ensures
        r@ == no_number(),
{
    String::from_str("There is no solution.")
}

/// The answer to an equation of degree zero: every number solves it where
/// its first term is zero or missing, and none else.
pub fn degree_0_solution(terms: &Vec<Term>) -> (r: String)
    requires
        all_settled(terms@),
    ensures
        r@ == if terms.len() == 0 || terms[0].coefficient.zero() {
            every_number()
        } else {
            no_number()
        },
{
    if terms.is_empty() {
        degree_0_solution_all()
    } else {
        if terms[0].coefficient.is_zero() {
            degree_0_solution_all()
        } else {
            degree_0_solution_non()
        }
    }
}

/// Whether every coefficient is an exact integer.
fn check_all_int_terms(terms: &Vec<Term>) -> (r: bool)
    ensures
        r == forall|i: int| 0 <= i < terms.len() ==> (#[trigger] terms[i]).coefficient is NumInt,
{
    for n in 0..terms.len()
        invariant
            forall|i: int| 0 <= i < n ==> (#[trigger] terms[i]).coefficient is NumInt,
    {
        match terms[n].coefficient {
            Coefficient::NumInt(_) => {},
            Coefficient::NumFloat(_) => return false,
        }
    }
    true
}

/// The coefficient of the first term of the given degree, and zero where
/// there is no such term.
fn find_coefficient(terms: &Vec<Term>, degree: i64) -> (r: Coefficient)
    ensures
        r == coefficient_at(terms@, degree as int),
{
    assert(terms@.skip(0) == terms@);
    for n in 0..terms.len()
        invariant
            coefficient_at(terms@.skip(n as int), degree as int) == coefficient_at(
                terms@,
                degree as int,
            ),
    {
        assert(terms@.skip(n as int).drop_first() == terms@.skip(n + 1));
        if terms[n].degree == degree {
            return terms[n].coefficient.clone();
        }
    }
    Coefficient::NumInt(0)
}

/// Among settled terms, the coefficient of each degree is settled.
proof fn lemma_coefficient_at_settled(terms: Seq<Term>, degree: int)
    requires
        all_settled(terms),
    ensures
        coefficient_at(terms, degree).settled(),
    decreases terms.len(),
{
    if terms.len() > 0 {
        assert(terms[0].coefficient.settled());
        assert forall|i: int| 0 <= i < terms.drop_first().len() implies (
        #[trigger] terms.drop_first()[i]).coefficient.settled() by {
            assert(terms.drop_first()[i] == terms[i + 1]);
        }
        lemma_coefficient_at_settled(terms.drop_first(), degree);
    }
}

/// The terms of the degrees `0` to `degree`, a term with the coefficient
/// zero standing in for each degree that `terms` does not hold.
fn make_terms_no_gaps(terms: &Vec<Term>, degree: i64) -> (r: Vec<Term>)
    requires
        0 <= degree < i64::MAX,
    ensures
        gapless(r@, degree as int),
        forall|i: int|
            0 <= i <= degree ==> (#[trigger] r[i]).coefficient == coefficient_at(terms@, i),
{
    let mut vec: Vec<Term> = Vec::new();
    let mut i: i64 = 0;
    while i <= degree
        invariant
            0 <= i <= degree + 1,
            degree < i64::MAX,
            vec.len() == i,
            forall|j: int| 0 <= j < i ==> (#[trigger] vec[j]).degree == j,
            forall|j: int|
                0 <= j < i ==> (#[trigger] vec[j]).coefficient == coefficient_at(terms@, j),
        decreases degree + 1 - i,
    {
        vec.push(Term { coefficient: find_coefficient(terms, i), degree: i });
        i += 1;
    }
    vec
}

/// `num / den` as a piece of the answer.
fn degree_2_solution_one_from_two_coefficient(a: &Coefficient, b: &Coefficient) -> (r: Piece)
    ensures
        r@ == quotient(*b, *a),
{
    if let (Coefficient::NumInt(n1), Coefficient::NumInt(n2)) = (a, b) {
        match Fraction::safe_new(*n2, *n1) {
            Some(fraction) => {
                let fraction = fraction.make_irreducible_fraction();
                return Piece::Text(fraction.to_string());
            },
            None => {},
        };
    }
    Piece::Number(Approx::Quotient(Box::new(b.to_float()), Box::new(a.to_float())))
}

/// `-b / a` for the terms `b` and `a * X`, as a fraction in lowest terms.
/// There is none where one of the two is no integer, or no fraction can
/// be made of them.
fn degree_1_solution_2_terms_fraction(terms: &Vec<Term>) -> (r: Option<String>)
    requires
        terms.len() == 2,
    ensures
        match (terms[0].coefficient, terms[1].coefficient) {
            (Coefficient::NumInt(n), Coefficient::NumInt(d)) if n != i64::MIN && is_fraction(
                -n,
                d as int,
            ) => r matches Some(text) && text@ == exact_quotient(-n, d as int),
            _ => r is None,
        },
{
    let b = match terms[0].coefficient {
        Coefficient::NumInt(n) => {
            match 0i64.checked_sub(n) {
                Some(x) => x,
                None => return None,
            }
        },
        _ => return None,
    };
    let a = match terms[1].coefficient {
        Coefficient::NumInt(n) => n,
        _ => return None,
    };
    let mut fraction = match Fraction::safe_new(b, a) {
        Some(x) => x,
        None => return None,
    };
    fraction = fraction.make_irreducible_fraction();
    Some(fraction.to_string())
}

/// `-b / a` for the terms `b` and `a * X`, in floating point.
fn degree_1_solution_2_terms_decimals(terms: &Vec<Term>) -> (r: Approx)
    requires
        terms.len() == 2,
    ensures
        r == Approx::Quotient(
            Box::new(Approx::Negation(Box::new(terms[0].coefficient.approx()))),
            Box::new(terms[1].coefficient.approx()),
        ),
{
    let a = terms[1].coefficient.to_float();
    let b = Approx::Negation(Box::new(terms[0].coefficient.to_float()));
    Approx::Quotient(Box::new(b), Box::new(a))
}

/// `-b / a` for the terms `b` and `a * X`, as a piece of the answer.
fn degree_1_solution_2_terms(terms: &Vec<Term>) -> (r: Piece)
    requires
        terms.len() == 2,
        terms[0].coefficient.settled(),
    ensures
        r@ == negated_quotient(terms[0].coefficient, terms[1].coefficient),
{
    if terms[0].coefficient.is_zero() {
        return Piece::Text(String::from_str("0"));
    }
    let is_all_int = check_all_int_terms(terms);
    if is_all_int {
        match degree_1_solution_2_terms_fraction(terms) {
            Some(s) => return Piece::Text(s),
            None => {},
        }
    }
    Piece::Number(degree_1_solution_2_terms_decimals(terms))
}

/// The answer to an equation of degree one.
pub fn degree_1_solution(terms: &Vec<Term>) -> (r: Vec<Piece>)
    requires
        all_settled(terms@),
    ensures
        parts(r@) == degree_1_parts(coefficient_at(terms@, 0), coefficient_at(terms@, 1)),
{
    proof {
        lemma_coefficient_at_settled(terms@, 0);
    }
    let terms = make_terms_no_gaps(terms, 1);
    let mut pieces: Vec<Piece> = Vec::new();
    pieces.push(Piece::Text(String::from_str("The solution is:\n")));
    pieces.push(degree_1_solution_2_terms(&terms));
    pieces
}

/// The discriminant of the quadratic equation whose terms of degree zero,
/// one and two are given in this order.
pub fn degree_2_discriminant(terms: &Vec<Term>) -> (r: Coefficient)
    requires
        terms.len() >= 3,
    ensures
        r == discriminant(terms[0].coefficient, terms[1].coefficient, terms[2].coefficient),
{
    let c = &terms[0].coefficient;
    let b = &terms[1].coefficient;
    let a = &terms[2].coefficient;
    let temp = Coefficient::NumInt(-4);
    b.mul(b).add(&temp.mul(a).mul(c))
}

/// The answer to a quadratic equation whose discriminant is zero.
fn degree_2_solution_one(terms: &Vec<Term>) -> (r: Vec<Piece>)
    requires
        terms.len() >= 3,
        terms[1].coefficient.settled(),
    ensures
        parts(r@) == one_root_parts(terms[1].coefficient, terms[2].coefficient),
{
    let b = &terms[1].coefficient;
    let a = &terms[2].coefficient;
    let temp = Coefficient::NumInt(2);
    let a = a.mul(&temp);
    let mut linear: Vec<Term> = Vec::new();
    linear.push(Term { coefficient: b.clone(), degree: 0 });
    linear.push(Term { coefficient: a, degree: 1 });
    let mut pieces: Vec<Piece> = Vec::new();
    pieces.push(Piece::Text(String::from_str("Discriminant is zero, the solution is:\n")));
    pieces.push(degree_1_solution_2_terms(&linear));
    pieces
}

/// The answer to a quadratic equation whose discriminant is above zero
/// and has the square root `discriminant_root`.
fn degree_2_solution_two(terms: &Vec<Term>, discriminant_root: &Coefficient) -> (r: Vec<Piece>)
    requires
        terms.len() >= 3,
    ensures
        parts(r@) == two_roots_parts(
            terms[1].coefficient,
            terms[2].coefficient,
            *discriminant_root,
        ),
{
    let b = &terms[1].coefficient;
    let a = &terms[2].coefficient;
    let temp = Coefficient::NumInt(2);
    let a = a.mul(&temp);
    let b_plus = b.mul_minus().add(discriminant_root);
    let b_minus = b.mul_minus().add(&discriminant_root.mul_minus());
    let mut pieces: Vec<Piece> = Vec::new();
    pieces.push(
        Piece::Text(
            String::from_str("Discriminant is strictly positive, the two solutions are:\n"),
        ),
    );
    pieces.push(degree_2_solution_one_from_two_coefficient(&a, &b_plus));
    pieces.push(Piece::Text(String::from_str("\n")));
    pieces.push(degree_2_solution_one_from_two_coefficient(&a, &b_minus));
    pieces
}

/// The answer to a quadratic equation whose discriminant is below zero.
fn degree_2_solution_complex(terms: &Vec<Term>, discriminant: &Coefficient) -> (r: Vec<Piece>)
    requires
        terms.len() >= 3,
    ensures
        parts(r@) == complex_parts(terms[1].coefficient, terms[2].coefficient, *discriminant),
{
    let b = terms[1].coefficient.to_float();
    let a = Approx::Product(Box::new(terms[2].coefficient.to_float()), Box::new(Approx::Int(2)));
    let discriminant_root = Approx::Root(
        Box::new(Approx::Negation(Box::new(discriminant.to_float()))),
    );
    let real_num = Approx::Quotient(Box::new(Approx::Negation(Box::new(b))), Box::new(a.clone()));
    let complex_num = Approx::Quotient(Box::new(discriminant_root), Box::new(a));
    let mut pieces: Vec<Piece> = Vec::new();
    pieces.push(
        Piece::Text(
            String::from_str(
                "Discriminant is strictly negative, the two complex solutions are:\n",
            ),
        ),
    );
    pieces.push(Piece::Number(real_num));
    pieces.push(Piece::Text(String::from_str(" ± ")));
    pieces.push(Piece::Number(complex_num));
    pieces.push(Piece::Text(String::from_str("i")));
    pieces
}

/// The answer to a quadratic equation, given its discriminant with the
/// sign settled and, for a discriminant above zero, the square root of it.
pub fn degree_2_solution(
    terms: &Vec<Term>,
    discriminant: &Coefficient,
    discriminant_root: &Coefficient,
) -> (r: Vec<Piece>)
    requires
        all_settled(terms@),
        discriminant.settled(),
    ensures
        parts(r@) == degree_2_parts(
            coefficient_at(terms@, 1),
            coefficient_at(terms@, 2),
            *discriminant,
            *discriminant_root,
        ),
{
    proof {
        lemma_coefficient_at_settled(terms@, 1);
    }
    let terms = make_terms_no_gaps(terms, 2);
    if discriminant.is_zero() {
        degree_2_solution_one(&terms)
    } else if discriminant.is_plus() {
        degree_2_solution_two(&terms, discriminant_root)
    } else {
        degree_2_solution_complex(&terms, discriminant)
    }
}

/// What solving comes to for the terms of a reduced equation and its degree.
pub open spec fn solved(terms: Seq<Term>, degree: int) -> Seq<Part> {
    if degree == 0 {
        seq![
            Part::Text(
                if terms.len() == 0 || terms[0].coefficient.zero() {
                    every_number()
                } else {
                    no_number()
                },
            ),
        ]
    } else if degree == 1 {
        degree_1_parts(coefficient_at(terms, 0), coefficient_at(terms, 1))
    } else {
        Seq::empty()
    }
}

/// Solves the reduced equation of the given degree as far as integers
/// go. An equation of degree zero or one is solved; of a quadratic one
/// the discriminant is handed out; for any other degree the answer is empty.
pub fn solution(terms: &Vec<Term>, degree: i64) -> (r: Step)
    requires
        all_settled(terms@),
    ensures
        degree == 2 ==> r == Step::Quadratic(
            discriminant(
                coefficient_at(terms@, 0),
                coefficient_at(terms@, 1),
                coefficient_at(terms@, 2),
            ),
        ),
        degree != 2 ==> (r matches Step::Done(pieces) && parts(pieces@) == solved(
            terms@,
            degree as int,
        )),
{
    match degree {
        0 => {
            let mut pieces: Vec<Piece> = Vec::new();
            pieces.push(Piece::Text(degree_0_solution(terms)));
            Step::Done(pieces)
        },
        1 => Step::Done(degree_1_solution(terms)),
        2 => {
            let terms = make_terms_no_gaps(terms, 2);
            Step::Quadratic(degree_2_discriminant(&terms))
        },
        _ => Step::Done(Vec::new()),
    }
}

} // verus!
