use computor_v1::parse_string::{parse_string, str_to_int};
use computor_v1::term::{Approx, Elem};

#[derive(Debug, PartialEq)]
enum Token {
    X,
    Plus,
    Minus,
    Prod,
    Power,
    Equal,
    NumInt(i64),
    NumFloat(f64),
}

fn token(elem: &Elem) -> Token {
    match elem {
        Elem::X => Token::X,
        Elem::Plus => Token::Plus,
        Elem::Minus => Token::Minus,
        Elem::Prod => Token::Prod,
        Elem::Power => Token::Power,
        Elem::Equal => Token::Equal,
        Elem::NumInt(n) => Token::NumInt(*n),
        Elem::NumFloat(Approx::Numeral(text)) => Token::NumFloat(text.parse().unwrap()),
        Elem::NumFloat(_) => panic!("the lexer yields numerals only"),
    }
}

fn tokens(text: &str) -> Result<Vec<Token>, String> {
    parse_string(&text.to_string()).map(|elems| elems.iter().map(token).collect())
}

#[test]
fn str_to_int_normal() {
    assert_eq!(str_to_int(&"123".to_string()), Ok(123));
}

#[test]
fn str_to_int_float() {
    assert_eq!(str_to_int(&"123.456".to_string()), Err("Conversion Failure".to_string()));
}

#[test]
fn str_to_int_not_number() {
    assert_eq!(str_to_int(&"a".to_string()), Err("Conversion Failure".to_string()));
}

#[test]
fn str_to_int_maximum_plus() {
    assert_eq!(str_to_int(&"9223372036854775808".to_string()), Err("Conversion Failure".to_string()));
}

#[test]
fn str_to_int_minimum_minus() {
    assert_eq!(str_to_int(&"-9223372036854775809".to_string()), Err("Conversion Failure".to_string()));
}

#[test]
fn parse_string_normal() {
    assert_eq!(tokens("5 * X^0 + 4 * X^1 - 9.3 * X^2 = 1 * X^0"), Ok(vec![
        Token::NumInt(5), Token::Prod, Token::X, Token::Power, Token::NumInt(0), Token::Plus, Token::NumInt(4), Token::Prod, Token::X, Token::Power, Token::NumInt(1), Token::Minus, Token::NumFloat(9.3), Token::Prod, Token::X, Token::Power, Token::NumInt(2), Token::Equal, Token::NumInt(1), Token::Prod, Token::X, Token::Power, Token::NumInt(0)]));
}

#[test]
fn parse_string_unacceptable_value() {
    assert_eq!(parse_string(&"123a".to_string()), Err("Unsupported characters: a".to_string()));
}

#[test]
fn parse_string_int_maximum_plus() {
    assert_eq!(parse_string(&"9223372036854775808".to_string()), Err("Conversion Failure".to_string()));
}

#[test]
fn parse_string_two_dot() {
    assert_eq!(parse_string(&"123..456".to_string()), Err("With multiple decimal places".to_string()));
}

#[test]
fn str_to_int_agrees_with_the_standard_library() {
    for text in [
        "", "0", "7", "007", "+7", "-7", "+", "-", "+-7", "--7", "7-", "7+", " 7", "7 ", "1_000", "0x10",
        "9223372036854775807", "-9223372036854775808", "+9223372036854775807", "9223372036854775808",
        "-9223372036854775809", "00000000000000000000000000000000000009223372036854775807",
        "-00000000000000000000000000000000000009223372036854775808", "18446744073709551616",
        "99999999999999999999999999999999999999999999", "12a", "a12", "1.0", ".", "１２",
        "-0", "+0", "92233720368547758070", "-92233720368547758080",
    ] {
        let expected: Result<i64, String> = text.parse::<i64>().map_err(|_| "Conversion Failure".to_string());
        assert_eq!(str_to_int(&text.to_string()), expected, "{:?}", text);
    }
}

#[test]
fn parse_string_keeps_the_numeral_of_a_decimal() {
    assert_eq!(
        parse_string(&"9.30".to_string()),
        Ok(vec![Elem::NumFloat(Approx::Numeral("9.30".to_string()))])
    );
    assert_eq!(
        parse_string(&".5+5.".to_string()),
        Ok(vec![
            Elem::NumFloat(Approx::Numeral(".5".to_string())),
            Elem::Plus,
            Elem::NumFloat(Approx::Numeral("5.".to_string())),
        ])
    );
}

#[test]
fn parse_string_edges() {
    assert_eq!(tokens(""), Ok(vec![]));
    assert_eq!(tokens("   "), Ok(vec![]));
    assert_eq!(tokens("X"), Ok(vec![Token::X]));
    assert_eq!(tokens("12 34"), Ok(vec![Token::NumInt(12), Token::NumInt(34)]));
    assert_eq!(tokens("1.5 2"), Ok(vec![Token::NumFloat(1.5), Token::NumInt(2)]));
    assert_eq!(tokens("1.5.2"), Err("With multiple decimal places".to_string()));
    assert_eq!(tokens("1.5 2.5"), Ok(vec![Token::NumFloat(1.5), Token::NumFloat(2.5)]));
    assert_eq!(tokens("2X^2=-X"), Ok(vec![Token::NumInt(2), Token::X, Token::Power, Token::NumInt(2), Token::Equal, Token::Minus, Token::X]));
    assert_eq!(tokens("9223372036854775807"), Ok(vec![Token::NumInt(9223372036854775807)]));
    assert_eq!(tokens("0009223372036854775807"), Ok(vec![Token::NumInt(9223372036854775807)]));
    assert_eq!(tokens("9223372036854775808 "), Err("Conversion Failure".to_string()));
    assert_eq!(tokens("."), Err("Conversion Failure".to_string()));
    assert_eq!(tokens(". "), Err("Conversion Failure".to_string()));
    assert_eq!(tokens(".="), Err("Conversion Failure".to_string()));
    assert_eq!(tokens("x"), Err("Unsupported characters: x".to_string()));
    assert_eq!(tokens("1\t2"), Err("Unsupported characters: \t".to_string()));
    assert_eq!(tokens("1 + é"), Err("Unsupported characters: é".to_string()));
    assert_eq!(tokens("1..a"), Err("With multiple decimal places".to_string()));
    assert_eq!(tokens(".a"), Err("Conversion Failure".to_string()));
    assert_eq!(tokens("99999999999999999999a"), Err("Conversion Failure".to_string()));
    assert_eq!(
        tokens("100000000000000000000000000000000000000000.5"),
        Ok(vec![Token::NumFloat(100000000000000000000000000000000000000000.5)])
    );
}
