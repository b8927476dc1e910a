//! From tokens to terms: one term out of each run of tokens, and the runs
//! of an equation sorted into its two sides.
use vstd::prelude::*;
use crate::parse_string::{
    equal_lexemes, equal_signs, lemma_tokenize_equals, spelled, tokenize, Lexeme,
};
use crate::term::{Approx, Coefficient, Elem, Term};
use crate::text::Failure;

verus! {

/// How far the reading of one term has come. The phases are ordered as
/// they are listed, and a term is read by moving forward through them.
#[derive(Debug, Clone, Copy, PartialEq, Eq, Structural)]
pub enum TermStep {
    Start,
    PlusMinus,
    Value,
    Prod,
    Variable,
    Power,
    Degree,
}

impl TermStep {
    /// The place of the phase in the order of the phases.
    pub open spec fn rank(self) -> int {
        match self {
            TermStep::Start => 0,
            TermStep::PlusMinus => 1,
            TermStep::Value => 2,
            TermStep::Prod => 3,
            TermStep::Variable => 4,
            TermStep::Power => 5,
            TermStep::Degree => 6,
        }
    }

    /// Whether a term may end in this phase.
    pub open spec fn terminal(self) -> bool {
        self == TermStep::Value || self == TermStep::Variable || self == TermStep::Degree
    }

    /// Whether this phase is `other` or comes after it.
    fn reached(&self, other: TermStep) -> (r: bool)
        ensures
            r == (self.rank() >= other.rank()),
    {
        self.number() >= other.number()
    }

    fn number(&self) -> (r: u8)
        ensures
            r == self.rank(),
    {
        match self {
            TermStep::Start => 0,
            TermStep::PlusMinus => 1,
            TermStep::Value => 2,
            TermStep::Prod => 3,
            TermStep::Variable => 4,
            TermStep::Power => 5,
            TermStep::Degree => 6,
        }
    }
}

/// A term in the making.
pub struct Reading {
    pub coefficient: Coefficient,
    pub degree: i64,
    pub is_plus: bool,
    pub step: TermStep,
}

/// Before the first token: the coefficient is `1`, the degree `0`, the sign `+`.
pub open spec fn fresh() -> Reading {
    Reading {
        coefficient: Coefficient::NumInt(1),
        degree: 0,
        is_plus: true,
        step: TermStep::Start,
    }
}

/// The reading after one more token, or the failure that the token causes.
///
/// A sign comes first or not at all, and `-` turns the coefficient to `-1`.
/// A literal is taken once, before `*` and `X`, and carries the sign; an
/// integer literal right after `^` is the degree instead. `*` follows a
/// literal only, `^` follows `X` only, and `X` is taken once and makes the
/// degree `1`. `=` is passed over.
pub open spec fn accept(s: Reading, e: Elem) -> Result<Reading, Failure> {
    match e {
        Elem::Plus | Elem::Minus => {
            if s.step.rank() >= TermStep::PlusMinus.rank() {
                Err(Failure::Syntax)
            } else if e is Minus {
                Ok(
                    Reading {
                        coefficient: Coefficient::NumInt(-1i64),
                        is_plus: false,
                        step: TermStep::PlusMinus,
                        ..s
                    },
                )
            } else {
                Ok(Reading { step: TermStep::PlusMinus, ..s })
            }
        },
        Elem::NumInt(n) => {
            if s.step == TermStep::Power {
                Ok(Reading { degree: n, step: TermStep::Degree, ..s })
            } else if s.step.rank() >= TermStep::Value.rank() {
                Err(Failure::Syntax)
            } else if !s.is_plus && n == i64::MIN {
                Err(Failure::Overflow(n))
            } else {
                Ok(
                    Reading {
                        coefficient: Coefficient::NumInt(
                            if s.is_plus {
                                n
                            } else {
                                (-n) as i64
                            },
                        ),
                        step: TermStep::Value,
                        ..s
                    },
                )
            }
        },
        Elem::NumFloat(x) => {
            if s.step.rank() >= TermStep::Value.rank() {
                Err(Failure::Syntax)
            } else {
                Ok(
                    Reading {
                        coefficient: Coefficient::NumFloat(
                            if s.is_plus {
                                x
                            } else {
                                Approx::Negation(Box::new(x))
                            },
                        ),
                        step: TermStep::Value,
                        ..s
                    },
                )
            }
        },
        Elem::Prod => {
            if s.step != TermStep::Value {
                Err(Failure::Syntax)
            } else {
                Ok(Reading { step: TermStep::Prod, ..s })
            }
        },
        Elem::X => {
            if s.step.rank() >= TermStep::Variable.rank() {
                Err(Failure::Syntax)
            } else {
                Ok(Reading { degree: 1, step: TermStep::Variable, ..s })
            }
        },
        Elem::Power => {
            if s.step != TermStep::Variable {
                Err(Failure::Syntax)
            } else {
                Ok(Reading { step: TermStep::Power, ..s })
            }
        },
        Elem::Equal => Ok(s),
    }
}

/// The reading after a run of tokens, or the first failure on the way.
pub open spec fn scan(s: Reading, run: Seq<Elem>) -> Result<Reading, Failure>
    decreases run.len(),
{
    if run.len() == 0 {
        Ok(s)
    } else {
        match accept(s, run[0]) {
            Ok(next) => scan(next, run.drop_first()),
            Err(f) => Err(f),
        }
    }
}

/// The term that a run of tokens stands for. The run must end on a
/// literal, on `X` or on a degree.
pub open spec fn assemble(run: Seq<Elem>) -> Result<Term, Failure> {
    match scan(fresh(), run) {
        Ok(s) => {
            if s.step.terminal() {
                Ok(Term { coefficient: s.coefficient, degree: s.degree })
            } else {
                Err(Failure::Syntax)
            }
        },
        Err(f) => Err(f),
    }
}

/// Reads one term off a run of tokens and appends it to `terms`, which a
/// failure leaves as it was.
pub fn check_and_push_term(elems: &Vec<Elem>, terms: &mut Vec<Term>) -> (r: Result<(), String>)
    ensures
        match assemble(elems@) {
            Ok(term) => r is Ok && final(terms)@ == old(terms)@.push(term),
            Err(f) => r matches Err(e) && e@ == f.message() && final(terms)@ == old(terms)@,
        },
{
    let mut coefficient = Coefficient::NumInt(1);
    let mut degree: i64 = 0;
    let mut is_plus = true;
    let mut term_step = TermStep::Start;
    let mut i: usize = 0;
    assert(elems@.skip(0) == elems@);
    while i < elems.len()
        invariant
            i <= elems.len(),
            *terms == *old(terms),
            scan(
                Reading { coefficient, degree, is_plus, step: term_step },
                elems@.skip(i as int),
            ) == scan(fresh(), elems@),
        decreases elems.len() - i,
    {
        assert(elems@.skip(i as int).drop_first() == elems@.skip(i + 1));
        assert(elems@.skip(i as int)[0] == elems@[i as int]);
        match &elems[i] {
            Elem::Minus | Elem::Plus => {
                if term_step.reached(TermStep::PlusMinus) {
                    return Err(Failure::Syntax.to_string());
                }
                if let Elem::Minus = &elems[i] {
                    is_plus = false;
                    coefficient = Coefficient::NumInt(-1);
                }
                term_step = TermStep::PlusMinus;
            },
            Elem::NumInt(n) => {
                if term_step == TermStep::Power {
                    degree = *n;
                    term_step = TermStep::Degree;
                } else {
                    if term_step.reached(TermStep::Value) {
                        return Err(Failure::Syntax.to_string());
                    }
                    let value = match n.checked_mul(if is_plus { 1 } else { -1 }) {
                        Some(temp) => temp,
                        None => return Err(Failure::Overflow(*n).to_string()),
                    };
                    coefficient = Coefficient::NumInt(value);
                    term_step = TermStep::Value;
                }
            },
            Elem::NumFloat(n) => {
                if term_step.reached(TermStep::Value) {
                    return Err(Failure::Syntax.to_string());
                }
                let value = if is_plus {
                    n.clone()
                } else {
                    Approx::Negation(Box::new(n.clone()))
                };
                coefficient = Coefficient::NumFloat(value);
                term_step = TermStep::Value;
            },
            Elem::Prod => {
                if term_step != TermStep::Value {
                    return Err(Failure::Syntax.to_string());
                }
                term_step = TermStep::Prod;
            },
            Elem::X => {
                if term_step.reached(TermStep::Variable) {
                    return Err(Failure::Syntax.to_string());
                }
                degree = 1;
                term_step = TermStep::Variable;
            },
            Elem::Power => {
                if term_step != TermStep::Variable {
                    return Err(Failure::Syntax.to_string());
                }
                term_step = TermStep::Power;
            },
            Elem::Equal => {},
        }
        i += 1;
    }
    if term_step != TermStep::Value && term_step != TermStep::Variable && term_step
        != TermStep::Degree {
        return Err(Failure::Syntax.to_string());
    }
    terms.push(Term { coefficient, degree });
    Ok(())
}

/// The two sides of an equation in the making.
pub struct Gathering {
    /// The terms left of `=`, as far as they are read.
    pub left: Seq<Term>,
    /// The terms right of `=`, as far as they are read.
    pub right: Seq<Term>,
    /// The tokens of the term that is being read.
    pub run: Seq<Elem>,
    /// Whether `=` is still to come.
    pub is_left: bool,
}

/// Before the first token: no term, an empty run, left of `=`.
pub open spec fn nothing() -> Gathering {
    Gathering { left: Seq::empty(), right: Seq::empty(), run: Seq::empty(), is_left: true }
}

/// Closes the pending run: its term joins the side that is being read.
pub open spec fn dispatch(g: Gathering) -> Result<Gathering, Failure> {
    match assemble(g.run) {
        Ok(term) => Ok(
            if g.is_left {
                Gathering { left: g.left.push(term), run: Seq::empty(), ..g }
            } else {
                Gathering { right: g.right.push(term), run: Seq::empty(), ..g }
            },
        ),
        Err(f) => Err(f),
    }
}

/// The gathering after one more token.
///
/// A sign closes the run in progress, if there is one, and opens the next
/// run. The first `=` closes the run and turns to the right side; a second
/// one fails. Every other token joins the run.
pub open spec fn gather_one(g: Gathering, e: Elem) -> Result<Gathering, Failure> {
    match e {
        Elem::Plus | Elem::Minus => {
            if g.run.len() == 0 {
                Ok(Gathering { run: seq![e], ..g })
            } else {
                match dispatch(g) {
                    Ok(next) => Ok(Gathering { run: seq![e], ..next }),
                    Err(f) => Err(f),
                }
            }
        },
        Elem::Equal => {
            if g.is_left {
                match dispatch(g) {
                    Ok(next) => Ok(Gathering { is_left: false, ..next }),
                    Err(f) => Err(f),
                }
            } else {
                Err(Failure::MultipleEquals)
            }
        },
        _ => Ok(Gathering { run: g.run.push(e), ..g }),
    }
}

/// The gathering after a sequence of tokens, or the first failure on the way.
pub open spec fn gather(g: Gathering, tokens: Seq<Elem>) -> Result<Gathering, Failure>
    decreases tokens.len(),
{
    if tokens.len() == 0 {
        Ok(g)
    } else {
        match gather_one(g, tokens[0]) {
            Ok(next) => gather(next, tokens.drop_first()),
            Err(f) => Err(f),
        }
    }
}

/// What is left to do after the last token: a run in progress is closed
/// and its term joins the right side, and an equation without `=` fails.
pub open spec fn conclude(g: Gathering) -> Result<(Seq<Term>, Seq<Term>), Failure> {
    if g.run.len() > 0 {
        match assemble(g.run) {
            Ok(term) => {
                if g.is_left {
                    Err(Failure::MissingEquals)
                } else {
                    Ok((g.left, g.right.push(term)))
                }
            },
            Err(f) => Err(f),
        }
    } else if g.is_left {
        Err(Failure::MissingEquals)
    } else {
        Ok((g.left, g.right))
    }
}

/// The terms of the two sides of an equation, each side in the order of the text.
pub open spec fn split(tokens: Seq<Elem>) -> Result<(Seq<Term>, Seq<Term>), Failure> {
    match gather(nothing(), tokens) {
        Ok(g) => conclude(g),
        Err(f) => Err(f),
    }
}

/// Sorts the tokens of an equation into the terms of its left and of its
/// right side.
pub fn elem_to_term(elems: Vec<Elem>) -> (r: Result<(Vec<Term>, Vec<Term>), String>)
    ensures
        match split(elems@) {
            Ok(sides) => r matches Ok(v) && v.0@ == sides.0 && v.1@ == sides.1,
            Err(f) => r matches Err(e) && e@ == f.message(),
        },
{
    let mut vec_left: Vec<Term> = Vec::new();
    let mut vec_right: Vec<Term> = Vec::new();
    let mut elem_stock: Vec<Elem> = Vec::new();
    let mut is_left = true;
    let ghost tokens = elems@;
    let ghost mut g = nothing();
    assert(tokens.skip(0) == tokens);

    for elem in it: elems
        invariant
            it.seq() == tokens,
            g.left == vec_left@,
            g.right == vec_right@,
            g.run == elem_stock@,
            g.is_left == is_left,
            gather(g, tokens.skip(it.index() as int)) == gather(nothing(), tokens),
    {
        assert(tokens.skip(it.index() as int).drop_first() == tokens.skip(it.index() + 1));
        assert(tokens.skip(it.index() as int)[0] == elem);
        proof {
            if let Ok(next) = gather_one(g, elem) {
                g = next;
            }
        }
        match elem {
            Elem::Plus | Elem::Minus => {
                if elem_stock.len() == 0 {
                    elem_stock.push(elem);
                } else {
                    let done = if is_left {
                        check_and_push_term(&elem_stock, &mut vec_left)
                    } else {
                        check_and_push_term(&elem_stock, &mut vec_right)
                    };
                    if let Err(e) = done {
                        return Err(e);
                    }
                    elem_stock.clear();
                    elem_stock.push(elem);
                }
            },
            Elem::Equal => {
                if is_left {
                    if let Err(e) = check_and_push_term(&elem_stock, &mut vec_left) {
                        return Err(e);
                    }
                    elem_stock.clear();
                    is_left = false;
                } else {
                    return Err(Failure::MultipleEquals.to_string());
                }
            },
            _ => elem_stock.push(elem),
        }
    }
    if !elem_stock.is_empty() {
        if let Err(e) = check_and_push_term(&elem_stock, &mut vec_right) {
            return Err(e);
        }
    }
    if is_left {
        return Err(Failure::MissingEquals.to_string());
    }
    Ok((vec_left, vec_right))
}

/// Reading a token and then the rest is reading the whole.
proof fn lemma_scan_first(s: Reading, e: Elem, rest: Seq<Elem>)
    ensures
        scan(s, seq![e] + rest) == match accept(s, e) {
            Ok(next) => scan(next, rest),
            Err(f) => Err(f),
        },
{
    assert((seq![e] + rest).drop_first() == rest);
}

/// The sign in front of a term: none, `+` or `-`.
pub open spec fn is_sign(sign: Seq<Elem>) -> bool {
    sign == Seq::<Elem>::empty() || sign == seq![Elem::Plus] || sign == seq![Elem::Minus]
}

/// Whether the token is a numeral.
pub open spec fn is_literal(e: Elem) -> bool {
    e is NumInt || e is NumFloat
}

/// The value of a numeral behind the given sign. There is none for
/// `i64::MIN` behind `-`.
pub open spec fn signed(sign: Seq<Elem>, literal: Elem) -> Coefficient {
    match literal {
        Elem::NumInt(n) => Coefficient::NumInt(
            if sign == seq![Elem::Minus] {
                (-n) as i64
            } else {
                n
            },
        ),
        Elem::NumFloat(x) => Coefficient::NumFloat(
            if sign == seq![Elem::Minus] {
                Approx::Negation(Box::new(x))
            } else {
                x
            },
        ),
        _ => Coefficient::NumInt(0),
    }
}

/// The reading behind a sign, before any other token.
pub open spec fn behind(sign: Seq<Elem>) -> Reading {
    if sign == seq![Elem::Plus] {
        Reading { step: TermStep::PlusMinus, ..fresh() }
    } else if sign == seq![Elem::Minus] {
        Reading {
            coefficient: Coefficient::NumInt(-1i64),
            is_plus: false,
            step: TermStep::PlusMinus,
            ..fresh()
        }
    } else {
        fresh()
    }
}

/// Reading a sign and then the rest is reading the rest behind the sign.
proof fn lemma_scan_sign(sign: Seq<Elem>, rest: Seq<Elem>)
    requires
        is_sign(sign),
    ensures
        scan(fresh(), sign + rest) == scan(behind(sign), rest),
{
    if sign == Seq::<Elem>::empty() {
        assert(sign + rest == rest);
    } else {
        assert(sign == seq![sign[0]]);
        lemma_scan_first(fresh(), sign[0], rest);
    }
}

/// A numeral alone, behind a sign or none, is a term of degree zero, and
/// its coefficient is the numeral with that sign. Only `i64::MIN` behind
/// `-` is none: its value does not fit.
pub proof fn lemma_literal_alone(sign: Seq<Elem>, literal: Elem)
    requires
        is_sign(sign),
        is_literal(literal),
    ensures
        assemble(sign + seq![literal]) == if sign == seq![Elem::Minus] && literal
            == Elem::NumInt(i64::MIN) {
            Err::<Term, Failure>(Failure::Overflow(i64::MIN))
        } else {
            Ok(Term { coefficient: signed(sign, literal), degree: 0 })
        },
{
    reveal_with_fuel(scan, 2);
    lemma_scan_sign(sign, seq![literal]);
}

/// `X` alone, behind a sign or none, is a term of degree one with the
/// coefficient one, or minus one behind `-`.
pub proof fn lemma_variable_alone(sign: Seq<Elem>)
    requires
        is_sign(sign),
    ensures
        assemble(sign + seq![Elem::X]) == Ok::<Term, Failure>(
            Term {
                coefficient: Coefficient::NumInt(
                    if sign == seq![Elem::Minus] {
                        -1i64
                    } else {
                        1i64
                    },
                ),
                degree: 1,
            },
        ),
{
    reveal_with_fuel(scan, 2);
    lemma_scan_sign(sign, seq![Elem::X]);
}

/// The tokens of a power of the variable: `X`, or `X ^ n`.
pub open spec fn power_run(power: Option<i64>) -> Seq<Elem> {
    match power {
        Some(n) => seq![Elem::X, Elem::Power, Elem::NumInt(n)],
        None => seq![Elem::X],
    }
}

/// `c * X ^ n` and `c X ^ n`, behind a sign or none, are the term of
/// degree `n` whose coefficient is `c` with that sign; `c * X` and `c X`
/// are the same of degree one. The one exception is `i64::MIN` behind `-`.
pub proof fn lemma_full_term(sign: Seq<Elem>, literal: Elem, star: bool, power: Option<i64>)
    requires
        is_sign(sign),
        is_literal(literal),
        !(sign == seq![Elem::Minus] && literal == Elem::NumInt(i64::MIN)),
    ensures
        assemble(
            sign + seq![literal] + (if star {
                seq![Elem::Prod]
            } else {
                Seq::<Elem>::empty()
            }) + power_run(power),
        ) == Ok::<Term, Failure>(
            Term {
                coefficient: signed(sign, literal),
                degree: match power {
                    Some(n) => n,
                    None => 1,
                },
            },
        ),
{
    let tail = power_run(power);
    let middle = if star {
        seq![Elem::Prod] + tail
    } else {
        tail
    };
    let run = sign + seq![literal] + (if star {
        seq![Elem::Prod]
    } else {
        Seq::<Elem>::empty()
    }) + tail;
    assert(run == sign + (seq![literal] + middle));
    lemma_scan_sign(sign, seq![literal] + middle);
    lemma_scan_first(behind(sign), literal, middle);
    let after_literal = accept(behind(sign), literal)->Ok_0;
    if star {
        lemma_scan_first(after_literal, Elem::Prod, tail);
    }
    reveal_with_fuel(scan, 4);
}

/// Whether `=` is among the tokens.
pub open spec fn has_equal(tokens: Seq<Elem>) -> bool {
    exists|i: int| 0 <= i < tokens.len() && #[trigger] tokens[i] is Equal
}

/// Gathering two sequences of tokens in a row is gathering their concatenation.
proof fn lemma_gather_both(g: Gathering, a: Seq<Elem>, b: Seq<Elem>)
    ensures
        gather(g, a + b) == match gather(g, a) {
            Ok(m) => gather(m, b),
            Err(f) => Err(f),
        },
    decreases a.len(),
{
    if a.len() == 0 {
        assert(a + b == b);
    } else {
        assert((a + b).drop_first() == a.drop_first() + b);
        if let Ok(next) = gather_one(g, a[0]) {
            lemma_gather_both(next, a.drop_first(), b);
        }
    }
}

/// The side that is being read is the left one until the first `=`, and
/// the right one from then on.
proof fn lemma_gather_side(g: Gathering, tokens: Seq<Elem>)
    requires
        gather(g, tokens) is Ok,
    ensures
        gather(g, tokens)->Ok_0.is_left == (g.is_left && !has_equal(tokens)),
    decreases tokens.len(),
{
    if tokens.len() > 0 {
        let next = gather_one(g, tokens[0])->Ok_0;
        let rest = tokens.drop_first();
        lemma_gather_side(next, rest);
        if has_equal(rest) {
            let i = choose|i: int| 0 <= i < rest.len() && #[trigger] rest[i] is Equal;
            assert(tokens[i + 1] is Equal);
        }
        if has_equal(tokens) {
            let i = choose|i: int| 0 <= i < tokens.len() && #[trigger] tokens[i] is Equal;
            if i > 0 {
                assert(rest[i - 1] is Equal);
            }
        }
        if tokens[0] is Equal {
            assert(has_equal(tokens));
        }
    }
}

/// Whether every term of the tokens can be read, whatever becomes of the
/// equation as a whole.
pub open spec fn terms_readable(tokens: Seq<Elem>) -> bool {
    gather(nothing(), tokens) matches Ok(g) && (g.run.len() > 0 ==> assemble(g.run) is Ok)
}

/// Tokens without `=` are no equation. Where each of their terms can be
/// read, the failure is that `=` is missing.
pub proof fn lemma_missing_equals(tokens: Seq<Elem>)
    requires
        !has_equal(tokens),
    ensures
        split(tokens) is Err,
        terms_readable(tokens) ==> split(tokens) == Err::<(Seq<Term>, Seq<Term>), Failure>(
            Failure::MissingEquals,
        ),
{
    if gather(nothing(), tokens) is Ok {
        lemma_gather_side(nothing(), tokens);
    }
}

/// Tokens with `=` in two places are no equation. Where the terms before
/// the second `=` can be read, the failure is that there is more than one.
pub proof fn lemma_multiple_equals(before: Seq<Elem>, after: Seq<Elem>)
    requires
        has_equal(before),
    ensures
        gather(nothing(), before + seq![Elem::Equal] + after) is Err,
        split(before + seq![Elem::Equal] + after) is Err,
        gather(nothing(), before) is Ok ==> split(before + seq![Elem::Equal] + after) == Err::<
            (Seq<Term>, Seq<Term>),
            Failure,
        >(Failure::MultipleEquals),
{
    let rest = seq![Elem::Equal] + after;
    assert(before + seq![Elem::Equal] + after == before + rest);
    lemma_gather_both(nothing(), before, rest);
    if gather(nothing(), before) is Ok {
        lemma_gather_side(nothing(), before);
        assert(rest[0] is Equal);
    }
}

/// How many of the tokens are `=`.
pub open spec fn equal_tokens(tokens: Seq<Elem>) -> nat
    decreases tokens.len(),
{
    if tokens.len() == 0 {
        0
    } else {
        equal_tokens(tokens.drop_last()) + if tokens.last() is Equal {
            1nat
        } else {
            0nat
        }
    }
}

/// Tokens hold `=` as often as the lexemes that they are.
proof fn lemma_equal_tokens_spelled(lexemes: Seq<Lexeme>, tokens: Seq<Elem>)
    requires
        spelled(lexemes, tokens),
    ensures
        equal_tokens(tokens) == equal_lexemes(lexemes),
    decreases tokens.len(),
{
    if tokens.len() > 0 {
        assert(lexemes.last().is_elem(tokens.last()));
        assert forall|i: int| 0 <= i < lexemes.drop_last().len() implies (
        #[trigger] lexemes.drop_last()[i]).is_elem(tokens.drop_last()[i]) by {
            assert(lexemes[i].is_elem(tokens[i]));
        }
        lemma_equal_tokens_spelled(lexemes.drop_last(), tokens.drop_last());
    }
}

/// Tokens without `=` hold it nowhere; tokens with two or more can be
/// cut at a later `=` so that another stands before the cut.
proof fn lemma_equal_tokens(tokens: Seq<Elem>)
    ensures
        equal_tokens(tokens) == 0 <==> !has_equal(tokens),
        equal_tokens(tokens) >= 2 ==> exists|before: Seq<Elem>, after: Seq<Elem>|
            has_equal(before) && tokens == #[trigger] (before + seq![Elem::Equal] + after),
    decreases tokens.len(),
{
    if tokens.len() > 0 {
        let front = tokens.drop_last();
        lemma_equal_tokens(front);
        if has_equal(front) {
            let i = choose|i: int| 0 <= i < front.len() && #[trigger] front[i] is Equal;
            assert(tokens[i] is Equal);
        }
        if has_equal(tokens) && !(tokens.last() is Equal) {
            let i = choose|i: int| 0 <= i < tokens.len() && #[trigger] tokens[i] is Equal;
            assert(front[i] is Equal);
        }
        if tokens.last() is Equal {
            assert(tokens[tokens.len() - 1] is Equal);
        }
        if equal_tokens(tokens) >= 2 {
            if tokens.last() is Equal {
                let after = Seq::<Elem>::empty();
                assert(tokens == front + seq![Elem::Equal] + after);
            } else {
                let (before, after) = choose|before: Seq<Elem>, after: Seq<Elem>|
                    has_equal(before) && front == #[trigger] (before + seq![Elem::Equal] + after);
                let longer = after.push(tokens.last());
                assert(tokens == front.push(tokens.last()));
                assert((before + seq![Elem::Equal] + after).push(tokens.last()) == before
                    + seq![Elem::Equal] + longer);
            }
        }
    }
}

/// A term fails for its syntax or for an overflow, and for nothing else.
proof fn lemma_scan_failures(s: Reading, run: Seq<Elem>)
    ensures
        scan(s, run) matches Err(f) ==> f == Failure::Syntax || f is Overflow,
    decreases run.len(),
{
    if run.len() > 0 {
        if let Ok(next) = accept(s, run[0]) {
            lemma_scan_failures(next, run.drop_first());
        }
    }
}

/// Gathering fails where a term fails, or at a second `=`.
proof fn lemma_gather_failures(g: Gathering, tokens: Seq<Elem>)
    ensures
        gather(g, tokens) matches Err(f) ==> f == Failure::Syntax || f is Overflow || (f
            == Failure::MultipleEquals && has_equal(tokens)),
    decreases tokens.len(),
{
    if tokens.len() > 0 {
        lemma_scan_failures(fresh(), g.run);
        if tokens[0] is Equal {
            assert(has_equal(tokens));
        }
        if let Ok(next) = gather_one(g, tokens[0]) {
            let rest = tokens.drop_first();
            lemma_gather_failures(next, rest);
            if has_equal(rest) {
                let i = choose|i: int| 0 <= i < rest.len() && #[trigger] rest[i] is Equal;
                assert(tokens[i + 1] is Equal);
            }
        }
    }
}

/// A text without `=` is no equation: its tokens fail, for the missing
/// `=` unless one of its terms fails first.
pub proof fn lemma_text_without_equal(text: Seq<char>, tokens: Seq<Elem>)
    requires
        equal_signs(text) == 0,
        tokenize(text) matches Ok(lexemes) && spelled(lexemes, tokens),
    ensures
        split(tokens) matches Err(f) && (f == Failure::MissingEquals || f == Failure::Syntax
            || f is Overflow),
        terms_readable(tokens) ==> split(tokens) == Err::<(Seq<Term>, Seq<Term>), Failure>(
            Failure::MissingEquals,
        ),
{
    lemma_tokenize_equals(text);
    lemma_equal_tokens_spelled(tokenize(text)->Ok_0, tokens);
    lemma_equal_tokens(tokens);
    lemma_missing_equals(tokens);
    lemma_gather_failures(nothing(), tokens);
    if let Ok(g) = gather(nothing(), tokens) {
        lemma_scan_failures(fresh(), g.run);
        lemma_gather_side(nothing(), tokens);
    }
}

/// A text with `=` twice or more is no equation: its tokens fail, for
/// the second `=` unless one of its terms fails first.
pub proof fn lemma_text_with_more_equals(text: Seq<char>, tokens: Seq<Elem>)
    requires
        equal_signs(text) >= 2,
        tokenize(text) matches Ok(lexemes) && spelled(lexemes, tokens),
    ensures
        split(tokens) matches Err(f) && (f == Failure::MultipleEquals || f == Failure::Syntax
            || f is Overflow),
{
    lemma_tokenize_equals(text);
    lemma_equal_tokens_spelled(tokenize(text)->Ok_0, tokens);
    lemma_equal_tokens(tokens);
    let (before, after) = choose|before: Seq<Elem>, after: Seq<Elem>|
        has_equal(before) && tokens == #[trigger] (before + seq![Elem::Equal] + after);
    lemma_multiple_equals(before, after);
    lemma_gather_failures(nothing(), tokens);
    if let Ok(g) = gather(nothing(), tokens) {
        lemma_scan_failures(fresh(), g.run);
    }
}

} // verus!
