//! Text: integers written in decimal, and the messages of the failures.
use vstd::prelude::*;
use crate::term::Approx;

verus! {

/// `String::push` of the standard library, taken on trust: it appends
/// the character to the end of the string and leaves what stood there.
pub assume_specification[ String::push ](s: &mut String, c: char)
    ensures
        final(s)@ == old(s)@.push(c),
;

/// The character of a decimal digit.
pub open spec fn digit_char(d: int) -> char {
    if d == 0 {
        '0'
    } else if d == 1 {
        '1'
    } else if d == 2 {
        '2'
    } else if d == 3 {
        '3'
    } else if d == 4 {
        '4'
    } else if d == 5 {
        '5'
    } else if d == 6 {
        '6'
    } else if d == 7 {
        '7'
    } else if d == 8 {
        '8'
    } else {
        '9'
    }
}

/// The decimal digits of a natural number, most significant first,
/// without leading zeros; `0` is the single digit `0`.
pub open spec fn digits(n: nat) -> Seq<char>
    decreases n,
{
    if n < 10 {
        seq![digit_char(n as int)]
    } else {
        digits(n / 10).push(digit_char((n % 10) as int))
    }
}

/// An integer in decimal, with a leading `-` where it is below zero.
pub open spec fn decimal(n: int) -> Seq<char> {
    if n < 0 {
        seq!['-'] + digits((-n) as nat)
    } else {
        digits(n as nat)
    }
}

/// Why an equation's text was refused.
#[derive(Debug, Clone, Copy, PartialEq, Eq)]
pub enum Failure {
    /// A numeral holds a second decimal point.
    MalformedNumber,
    /// A character that no token starts with.
    UnsupportedCharacter(char),
    /// A numeral that stands for no 64-bit number.
    NumberConversion,
    /// A token out of place within a term, or a term that ends too early.
    Syntax,
    /// A literal whose product with this sign does not fit in 64 bits.
    Overflow(i64),
    /// A second `=`.
    MultipleEquals,
    /// No `=` at all.
    MissingEquals,
}

impl Failure {
    /// The message that reports the failure.
    pub open spec fn message(self) -> Seq<char> {
        match self {
            Failure::MalformedNumber => "With multiple decimal places"@,
            Failure::UnsupportedCharacter(c) => "Unsupported characters: "@.push(c),
            Failure::NumberConversion => "Conversion Failure"@,
            Failure::Syntax => "Incorrect syntax"@,
            Failure::Overflow(n) => "Overflow value -1 * "@ + decimal(n as int),
            Failure::MultipleEquals => "There were multiple equals"@,
            Failure::MissingEquals => "There was no equal"@,
        }
    }

    /// The message that reports the failure.
    pub fn to_string(&self) -> (r: String)
        ensures
            r@ == self.message(),
    {
        match self {
            Failure::MalformedNumber => String::from_str("With multiple decimal places"),
            Failure::UnsupportedCharacter(c) => {
                let mut text = String::from_str("Unsupported characters: ");
                text.push(*c);
                text
            },
            Failure::NumberConversion => String::from_str("Conversion Failure"),
            Failure::Syntax => String::from_str("Incorrect syntax"),
            Failure::Overflow(n) => {
                let mut text = String::from_str("Overflow value -1 * ");
                push_integer(&mut text, *n);
                text
            },
            Failure::MultipleEquals => String::from_str("There were multiple equals"),
            Failure::MissingEquals => String::from_str("There was no equal"),
        }
    }
}

/// Appends one decimal digit.
fn push_digit(text: &mut String, d: u64)
    requires
        d < 10,
    ensures
        final(text)@ == old(text)@.push(digit_char(d as int)),
{
    let c = if d == 0 {
        '0'
    } else if d == 1 {
        '1'
    } else if d == 2 {
        '2'
    } else if d == 3 {
        '3'
    } else if d == 4 {
        '4'
    } else if d == 5 {
        '5'
    } else if d == 6 {
        '6'
    } else if d == 7 {
        '7'
    } else if d == 8 {
        '8'
    } else {
        '9'
    };
    text.push(c);
}

/// Appends a natural number in decimal.
pub fn push_natural(text: &mut String, n: u64)
    ensures
        final(text)@ == old(text)@ + digits(n as nat),
    decreases n,
{
    if n >= 10 {
        push_natural(text, n / 10);
    }
    push_digit(text, n % 10);
}

/// Appends an integer in decimal.
pub fn push_integer(text: &mut String, n: i64)
    ensures
        final(text)@ == old(text)@ + decimal(n as int),
{
    if n < 0 {
        text.push('-');
        let below: u64 = (-(n + 1)) as u64;
        push_natural(text, below + 1);
    } else {
        push_natural(text, n as u64);
    }
}

/// A piece of an answer, which is the pieces written one after the other.
#[derive(Debug, PartialEq)]
pub enum Piece {
    /// Text that is ready.
    Text(String),
    /// A number that the caller is to evaluate and to write in decimal.
    Number(Approx),
}

/// A piece of an answer with its text as a sequence of characters.
pub enum Part {
    Text(Seq<char>),
    Number(Approx),
}

impl View for Piece {
    type V = Part;

    open spec fn view(&self) -> Part {
        match self {
            Piece::Text(text) => Part::Text(text@),
            Piece::Number(x) => Part::Number(*x),
        }
    }
}

/// The pieces of an answer, each as a [`Part`].
pub open spec fn parts(pieces: Seq<Piece>) -> Seq<Part> {
    pieces.map_values(|p: Piece| p@)
}

} // verus!
