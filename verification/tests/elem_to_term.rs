use computor_v1::elem_to_term::{check_and_push_term, elem_to_term};
use computor_v1::term::{Approx, Coefficient, Elem, Term};

fn newton_sqrt(v: f64) -> f64 {
    if v <= 0.0 {
        return 0.0;
    }
    let mut x = v;
    for _ in 0..1000 {
        x = (x * x + v) / (2.0 * x);
    }
    x
}

fn evaluate(x: &Approx) -> f64 {
    match x {
        Approx::Numeral(text) => text.parse().unwrap(),
        Approx::Int(n) => *n as f64,
        Approx::Value(bits) => f64::from_bits(*bits),
        Approx::Sum(a, b) => evaluate(a) + evaluate(b),
        Approx::Product(a, b) => evaluate(a) * evaluate(b),
        Approx::Quotient(a, b) => evaluate(a) / evaluate(b),
        Approx::Negation(a) => -evaluate(a),
        Approx::Root(a) => newton_sqrt(evaluate(a)),
    }
}

#[derive(Debug, PartialEq, Clone)]
enum Number {
    Int(i64),
    Float(f64),
}

fn number(c: &Coefficient) -> Number {
    match c {
        Coefficient::NumInt(n) => Number::Int(*n),
        Coefficient::NumFloat(x) => Number::Float(evaluate(x)),
    }
}

fn float(x: f64) -> Coefficient {
    Coefficient::NumFloat(Approx::Value(x.to_bits()))
}

fn decimal(x: f64) -> Elem {
    Elem::NumFloat(Approx::Value(x.to_bits()))
}

fn term(t: &Term) -> (Number, i64) {
    (number(&t.coefficient), t.degree)
}

fn sides(tokens: Vec<Elem>) -> Result<(Vec<(Number, i64)>, Vec<(Number, i64)>), String> {
    elem_to_term(tokens).map(|(left, right)| (left.iter().map(term).collect(), right.iter().map(term).collect()))
}

#[test]
fn check_and_push_term_x() {
    let elems = vec![Elem::X];
    let mut terms = Vec::new();
    let result = check_and_push_term(&elems, &mut terms);
    assert_eq!(result, Ok(()));
    assert_eq!(term(&terms[0]), (Number::Int(1), 1));
}

#[test]
fn check_and_push_term_int() {
    let elems = vec![Elem::NumInt(2)];
    let mut terms = Vec::new();
    let result = check_and_push_term(&elems, &mut terms);
    assert_eq!(result, Ok(()));
    assert_eq!(term(&terms[0]), (Number::Int(2), 0));
}

#[test]
fn check_and_push_term_float() {
    let elems = vec![decimal(2.0)];
    let mut terms = Vec::new();
    let result = check_and_push_term(&elems, &mut terms);
    assert_eq!(result, Ok(()));
    assert_eq!(term(&terms[0]), (Number::Float(2.0), 0));
}

#[test]
fn check_and_push_term_plus_int() {
    let elems = vec![Elem::Plus, Elem::NumInt(2)];
    let mut terms = Vec::new();
    let result = check_and_push_term(&elems, &mut terms);
    assert_eq!(result, Ok(()));
    assert_eq!(term(&terms[0]), (Number::Int(2), 0));
}

#[test]
fn check_and_push_term_minus_int() {
    let elems = vec![Elem::Minus, Elem::NumInt(2)];
    let mut terms = Vec::new();
    let result = check_and_push_term(&elems, &mut terms);
    assert_eq!(result, Ok(()));
    assert_eq!(term(&terms[0]), (Number::Int(-2), 0));
}

#[test]
fn check_and_push_term_plus_float() {
    let elems = vec![Elem::Plus, decimal(2.0)];
    let mut terms = Vec::new();
    let result = check_and_push_term(&elems, &mut terms);
    assert_eq!(result, Ok(()));
    assert_eq!(term(&terms[0]), (Number::Float(2.0), 0));
}

#[test]
fn check_and_push_term_minus_float() {
    let elems = vec![Elem::Minus, decimal(2.0)];
    let mut terms = Vec::new();
    let result = check_and_push_term(&elems, &mut terms);
    assert_eq!(result, Ok(()));
    assert_eq!(term(&terms[0]), (Number::Float(-2.0), 0));
}

#[test]
fn check_and_push_term_plus_x() {
    let elems = vec![Elem::Plus, Elem::X];
    let mut terms = Vec::new();
    let result = check_and_push_term(&elems, &mut terms);
    assert_eq!(result, Ok(()));
    assert_eq!(term(&terms[0]), (Number::Int(1), 1));
}

#[test]
fn check_and_push_term_minus_x() {
    let elems = vec![Elem::Minus, Elem::X];
    let mut terms = Vec::new();
    let result = check_and_push_term(&elems, &mut terms);
    assert_eq!(result, Ok(()));
    assert_eq!(term(&terms[0]), (Number::Int(-1), 1));
}

#[test]
fn check_and_push_term_prod_int() {
    let elems = vec![Elem::Minus, Elem::NumInt(2), Elem::Prod, Elem::X];
    let mut terms = Vec::new();
    let result = check_and_push_term(&elems, &mut terms);
    assert_eq!(result, Ok(()));
    assert_eq!(term(&terms[0]), (Number::Int(-2), 1));
}

#[test]
fn check_and_push_term_prod_float() {
    let elems = vec![Elem::Minus, decimal(2.0), Elem::Prod, Elem::X];
    let mut terms = Vec::new();
    let result = check_and_push_term(&elems, &mut terms);
    assert_eq!(result, Ok(()));
    assert_eq!(term(&terms[0]), (Number::Float(-2.0), 1));
}

#[test]
fn check_and_push_term_non_prod_int() {
    let elems = vec![Elem::Minus, Elem::NumInt(2), Elem::X];
    let mut terms = Vec::new();
    let result = check_and_push_term(&elems, &mut terms);
    assert_eq!(result, Ok(()));
    assert_eq!(term(&terms[0]), (Number::Int(-2), 1));
}

#[test]
fn check_and_push_term_non_prod_float() {
    let elems = vec![Elem::Minus, decimal(2.0), Elem::X];
    let mut terms = Vec::new();
    let result = check_and_push_term(&elems, &mut terms);
    assert_eq!(result, Ok(()));
    assert_eq!(term(&terms[0]), (Number::Float(-2.0), 1));
}

#[test]
fn check_and_push_term_power() {
    let elems = vec![Elem::X, Elem::Power, Elem::NumInt(2)];
    let mut terms = Vec::new();
    let result = check_and_push_term(&elems, &mut terms);
    assert_eq!(result, Ok(()));
    assert_eq!(term(&terms[0]), (Number::Int(1), 2));
}

#[test]
fn check_and_push_term_full() {
    let elems = vec![Elem::Minus, decimal(2.0), Elem::Prod, Elem::X, Elem::Power, Elem::NumInt(2)];
    let mut terms = Vec::new();
    let result = check_and_push_term(&elems, &mut terms);
    assert_eq!(result, Ok(()));
    assert_eq!(term(&terms[0]), (Number::Float(-2.0), 2));
}

#[test]
fn check_and_push_term_error_only_plus() {
    let elems = vec![Elem::Plus];
    let mut terms = Vec::new();
    let result = check_and_push_term(&elems, &mut terms);
    assert_eq!(result, Err("Incorrect syntax".to_string()));
}

#[test]
fn check_and_push_term_error_only_minus() {
    let elems = vec![Elem::Minus];
    let mut terms = Vec::new();
    let result = check_and_push_term(&elems, &mut terms);
    assert_eq!(result, Err("Incorrect syntax".to_string()));
}

#[test]
fn check_and_push_term_error_only_prod() {
    let elems = vec![Elem::Prod];
    let mut terms = Vec::new();
    let result = check_and_push_term(&elems, &mut terms);
    assert_eq!(result, Err("Incorrect syntax".to_string()));
}

#[test]
fn check_and_push_term_error_only_power() {
    let elems = vec![Elem::Power];
    let mut terms = Vec::new();
    let result = check_and_push_term(&elems, &mut terms);
    assert_eq!(result, Err("Incorrect syntax".to_string()));
}

#[test]
fn check_and_push_term_error_two_plus() {
    let elems = vec![Elem::Plus, Elem::Plus];
    let mut terms = Vec::new();
    let result = check_and_push_term(&elems, &mut terms);
    assert_eq!(result, Err("Incorrect syntax".to_string()));
}

#[test]
fn check_and_push_term_keeps_the_terms_before() {
    let mut terms = vec![Term { coefficient: Coefficient::NumInt(7), degree: 3 }];
    assert_eq!(check_and_push_term(&vec![Elem::NumInt(2), Elem::X], &mut terms), Ok(()));
    assert_eq!(
        terms,
        vec![
            Term { coefficient: Coefficient::NumInt(7), degree: 3 },
            Term { coefficient: Coefficient::NumInt(2), degree: 1 },
        ]
    );
    assert_eq!(check_and_push_term(&vec![Elem::Prod], &mut terms), Err("Incorrect syntax".to_string()));
    assert_eq!(terms.len(), 2);
}

#[test]
fn check_and_push_term_records_the_sign_of_a_decimal() {
    let mut terms = Vec::new();
    let numeral = Approx::Numeral("9.3".to_string());
    assert_eq!(check_and_push_term(&vec![Elem::Minus, Elem::NumFloat(numeral.clone())], &mut terms), Ok(()));
    assert_eq!(check_and_push_term(&vec![Elem::Plus, Elem::NumFloat(numeral.clone())], &mut terms), Ok(()));
    assert_eq!(
        terms,
        vec![
            Term { coefficient: Coefficient::NumFloat(Approx::Negation(Box::new(numeral.clone()))), degree: 0 },
            Term { coefficient: Coefficient::NumFloat(numeral), degree: 0 },
        ]
    );
}

#[test]
fn check_and_push_term_overflow() {
    let mut terms = Vec::new();
    assert_eq!(
        check_and_push_term(&vec![Elem::Minus, Elem::NumInt(i64::MIN)], &mut terms),
        Err("Overflow value -1 * -9223372036854775808".to_string())
    );
    assert_eq!(check_and_push_term(&vec![Elem::Plus, Elem::NumInt(i64::MIN)], &mut terms), Ok(()));
    assert_eq!(check_and_push_term(&vec![Elem::Minus, Elem::NumInt(i64::MAX)], &mut terms), Ok(()));
    assert_eq!(
        terms,
        vec![
            Term { coefficient: Coefficient::NumInt(i64::MIN), degree: 0 },
            Term { coefficient: Coefficient::NumInt(-i64::MAX), degree: 0 },
        ]
    );
}

#[test]
fn check_and_push_term_refuses_tokens_out_of_order() {
    let wrong: Vec<Vec<Elem>> = vec![
        vec![],
        vec![Elem::Equal],
        vec![Elem::NumInt(1), Elem::NumInt(2)],
        vec![Elem::NumInt(1), decimal(2.0)],
        vec![decimal(1.0), Elem::NumInt(2)],
        vec![Elem::NumInt(1), Elem::Plus],
        vec![Elem::NumInt(1), Elem::Minus, Elem::X],
        vec![Elem::NumInt(1), Elem::Prod],
        vec![Elem::NumInt(1), Elem::Prod, Elem::Prod, Elem::X],
        vec![Elem::Plus, Elem::Prod, Elem::X],
        vec![Elem::X, Elem::X],
        vec![Elem::X, Elem::NumInt(2)],
        vec![Elem::X, Elem::Prod, Elem::NumInt(2)],
        vec![Elem::X, Elem::Power],
        vec![Elem::X, Elem::Power, decimal(2.0)],
        vec![Elem::X, Elem::Power, Elem::X],
        vec![Elem::X, Elem::Power, Elem::Minus, Elem::NumInt(2)],
        vec![Elem::X, Elem::Power, Elem::NumInt(2), Elem::NumInt(2)],
        vec![Elem::X, Elem::Power, Elem::NumInt(2), Elem::Power, Elem::NumInt(2)],
        vec![Elem::NumInt(2), Elem::Power, Elem::NumInt(2)],
        vec![Elem::Minus, Elem::Minus, Elem::NumInt(2)],
    ];
    for elems in wrong {
        let mut terms = Vec::new();
        assert_eq!(check_and_push_term(&elems, &mut terms), Err("Incorrect syntax".to_string()), "{:?}", elems);
        assert_eq!(terms, vec![]);
    }
}

#[test]
fn check_and_push_term_reads_the_degree_as_it_stands() {
    let mut terms = Vec::new();
    assert_eq!(
        check_and_push_term(&vec![Elem::NumInt(3), Elem::X, Elem::Power, Elem::NumInt(0)], &mut terms),
        Ok(())
    );
    assert_eq!(
        check_and_push_term(&vec![Elem::Plus, Elem::NumInt(3), Elem::Prod, Elem::X, Elem::Power, Elem::NumInt(i64::MAX)], &mut terms),
        Ok(())
    );
    assert_eq!(
        check_and_push_term(&vec![Elem::Equal, Elem::NumInt(4), Elem::Equal], &mut terms),
        Ok(())
    );
    assert_eq!(
        terms,
        vec![
            Term { coefficient: Coefficient::NumInt(3), degree: 0 },
            Term { coefficient: Coefficient::NumInt(3), degree: i64::MAX },
            Term { coefficient: Coefficient::NumInt(4), degree: 0 },
        ]
    );
}

#[test]
fn elem_to_term_two_sides() {
    let tokens = vec![
        Elem::NumInt(5), Elem::Prod, Elem::X, Elem::Power, Elem::NumInt(0), Elem::Plus, Elem::NumInt(4), Elem::Prod,
        Elem::X, Elem::Power, Elem::NumInt(1), Elem::Minus, decimal(9.3), Elem::Prod, Elem::X, Elem::Power,
        Elem::NumInt(2), Elem::Equal, Elem::NumInt(1), Elem::Prod, Elem::X, Elem::Power, Elem::NumInt(0),
    ];
    assert_eq!(
        sides(tokens),
        Ok((
            vec![(Number::Int(5), 0), (Number::Int(4), 1), (Number::Float(-9.3), 2)],
            vec![(Number::Int(1), 0)],
        ))
    );
}

#[test]
fn elem_to_term_signs_open_terms() {
    assert_eq!(
        sides(vec![Elem::Minus, Elem::X, Elem::Plus, Elem::NumInt(2), Elem::Equal, Elem::Minus, Elem::NumInt(3), Elem::Minus, Elem::X]),
        Ok((vec![(Number::Int(-1), 1), (Number::Int(2), 0)], vec![(Number::Int(-3), 0), (Number::Int(-1), 1)]))
    );
    assert_eq!(sides(vec![Elem::X, Elem::Equal]), Ok((vec![(Number::Int(1), 1)], vec![])));
    assert_eq!(
        sides(vec![Elem::X, Elem::Equal, Elem::NumInt(0)]),
        Ok((vec![(Number::Int(1), 1)], vec![(Number::Int(0), 0)]))
    );
}

#[test]
fn elem_to_term_without_equal() {
    assert_eq!(sides(vec![]), Err("There was no equal".to_string()));
    assert_eq!(sides(vec![Elem::NumInt(5)]), Err("There was no equal".to_string()));
    assert_eq!(
        sides(vec![Elem::NumInt(5), Elem::Plus, Elem::X, Elem::Power, Elem::NumInt(2)]),
        Err("There was no equal".to_string())
    );
    assert_eq!(sides(vec![Elem::NumInt(5), Elem::Plus]), Err("Incorrect syntax".to_string()));
}

#[test]
fn elem_to_term_with_two_equals() {
    assert_eq!(
        sides(vec![Elem::NumInt(5), Elem::Equal, Elem::NumInt(5), Elem::Equal, Elem::NumInt(5)]),
        Err("There were multiple equals".to_string())
    );
    assert_eq!(
        sides(vec![Elem::X, Elem::Equal, Elem::Equal]),
        Err("There were multiple equals".to_string())
    );
    assert_eq!(
        sides(vec![Elem::X, Elem::Equal, Elem::Prod, Elem::Equal]),
        Err("There were multiple equals".to_string())
    );
    assert_eq!(
        sides(vec![Elem::Prod, Elem::Equal, Elem::X, Elem::Equal]),
        Err("Incorrect syntax".to_string())
    );
}

#[test]
fn elem_to_term_failures_of_a_term() {
    assert_eq!(sides(vec![Elem::Equal, Elem::NumInt(5)]), Err("Incorrect syntax".to_string()));
    assert_eq!(sides(vec![Elem::NumInt(5), Elem::Equal, Elem::Prod]), Err("Incorrect syntax".to_string()));
    assert_eq!(
        sides(vec![Elem::Plus, Elem::Plus, Elem::NumInt(5), Elem::Equal, Elem::NumInt(5)]),
        Err("Incorrect syntax".to_string())
    );
    assert_eq!(
        sides(vec![Elem::NumInt(5), Elem::Equal, Elem::Minus, Elem::NumInt(i64::MIN)]),
        Err("Overflow value -1 * -9223372036854775808".to_string())
    );
}
