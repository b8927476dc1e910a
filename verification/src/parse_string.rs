//! From text to tokens.
use vstd::prelude::*;
use crate::numeral::{beyond_doubles, exceeds_doubles};
use crate::term::{Approx, Elem};
use crate::text::{decimal, digit_char, digits, Failure};

verus! {

/// Whether the character is one of the ten decimal digits.
pub open spec fn is_digit(c: char) -> bool {
    '0' <= c <= '9'
}

/// The number that a decimal digit stands for.
pub open spec fn digit_value(c: char) -> nat {
    (c as int - '0' as int) as nat
}

/// Whether the text holds decimal digits only.
pub open spec fn all_digits(s: Seq<char>) -> bool {
    forall|i: int| 0 <= i < s.len() ==> is_digit(#[trigger] s[i])
}

/// Whether the text holds a decimal digit.
pub open spec fn has_digit(s: Seq<char>) -> bool {
    exists|i: int| 0 <= i < s.len() && is_digit(#[trigger] s[i])
}

/// The number that a text of decimal digits stands for; `0` for the empty text.
pub open spec fn natural(s: Seq<char>) -> nat
    decreases s.len(),
{
    if s.len() == 0 {
        0
    } else {
        natural(s.drop_last()) * 10 + digit_value(s.last())
    }
}

/// The integer that a text stands for: one or more decimal digits, with
/// `+` or `-` in front of them or neither. Any other text stands for none.
pub open spec fn integer(text: Seq<char>) -> Option<int> {
    if text.len() > 0 && (text[0] == '+' || text[0] == '-') {
        let rest = text.drop_first();
        if rest.len() > 0 && all_digits(rest) {
            if text[0] == '-' {
                Some(-(natural(rest) as int))
            } else {
                Some(natural(rest) as int)
            }
        } else {
            None
        }
    } else if text.len() > 0 && all_digits(text) {
        Some(natural(text) as int)
    } else {
        None
    }
}

/// A text of digits stands for no less than any of its beginnings.
pub proof fn lemma_natural_grows(s: Seq<char>, k: int)
    requires
        0 <= k <= s.len(),
    ensures
        natural(s.take(k)) <= natural(s),
    decreases s.len(),
{
    if k == s.len() {
        assert(s.take(k) == s);
    } else {
        lemma_natural_grows(s.drop_last(), k);
        assert(s.drop_last().take(k) == s.take(k));
    }
}

/// The decimal digits of a number are digits, and stand for the number.
proof fn lemma_digits_read_back(n: nat)
    ensures
        digits(n).len() > 0,
        all_digits(digits(n)),
        natural(digits(n)) == n,
    decreases n,
{
    assert(forall|d: int| 0 <= d <= 9 ==> digit_value(#[trigger] digit_char(d)) == d);
    assert(forall|d: int| 0 <= d <= 9 ==> is_digit(#[trigger] digit_char(d)));
    if n < 10 {
        let only = digits(n);
        assert(only.drop_last().len() == 0);
        assert(natural(only.drop_last()) == 0);
        assert(only.last() == digit_char(n as int));
        assert(natural(only) == natural(only.drop_last()) * 10 + digit_value(only.last()));
    } else {
        lemma_digits_read_back(n / 10);
        let head = digits(n / 10);
        let last = digit_char((n % 10) as int);
        let all = head.push(last);
        assert(all.drop_last() == head);
        assert(all.last() == last);
        assert(natural(all) == natural(all.drop_last()) * 10 + digit_value(all.last()));
        assert(digits(n) == all);
    }
}

/// An integer written in decimal stands for itself.
pub proof fn lemma_decimal_read_back(n: int)
    ensures
        integer(decimal(n)) == Some(n),
{
    if n < 0 {
        lemma_digits_read_back((-n) as nat);
        assert(decimal(n).drop_first() == digits((-n) as nat));
    } else {
        lemma_digits_read_back(n as nat);
        assert(is_digit(decimal(n)[0]));
    }
}

/// The 64-bit integer that the text stands for, where [`integer`] gives
/// one and it fits; a failure of conversion for every other text.
pub fn str_to_int(num_str: &String) -> (r: Result<i64, String>)
    ensures
        match integer(num_str@) {
            Some(v) if i64::MIN <= v <= i64::MAX => r == Ok::<i64, String>(v as i64),
            _ => r matches Err(e) && e@ == Failure::NumberConversion.message(),
        },
{
    let mut first = true;
    let mut negative = false;
    let mut any = false;
    let mut value: u64 = 0;
    let ghost text = num_str@;
    let ghost mut start: int = 0;
    for c in it: num_str.as_str().chars()
        invariant
            it.seq() == text,
            text == num_str@,
            first == (it.index() == 0),
            start == 0 || start == 1,
            start == 1 <==> text.len() > 0 && (text[0] == '+' || text[0] == '-') && !first,
            negative <==> start == 1 && text[0] == '-',
            start <= it.index() || first,
            any <==> !first && start < it.index(),
            first ==> value == 0 && start == 0,
            !first ==> all_digits(text.subrange(start, it.index() as int)),
            !first ==> value == natural(text.subrange(start, it.index() as int)),
            value <= 0x8000_0000_0000_0000,
    {
        let ghost i = it.index() as int;
        if first && (c == '+' || c == '-') {
            negative = c == '-';
            proof {
                start = 1;
                assert(text.subrange(1, 1).len() == 0);
            }
        } else if c >= '0' && c <= '9' {
            let d: u64 = (c as u32 - '0' as u32) as u64;
            proof {
                let now = text.subrange(start, i + 1);
                assert(now.drop_last() == text.subrange(start, i));
                assert(now.last() == c);
                if first {
                    assert(text.subrange(start, i).len() == 0);
                }
                assert(natural(now) == natural(text.subrange(start, i)) * 10 + d);
                assert(all_digits(now));
            }
            if value > (0x8000_0000_0000_0000 - d) / 10 {
                proof {
                    let rest = text.subrange(start, text.len() as int);
                    let now = text.subrange(start, i + 1);
                    assert(natural(now) > 0x8000_0000_0000_0000);
                    if all_digits(rest) {
                        lemma_natural_grows(rest, i + 1 - start);
                        assert(rest.take(i + 1 - start) == now);
                    }
                    if start == 1 {
                        assert(rest == text.drop_first());
                    } else {
                        assert(rest == text);
                    }
                }
                return Err(Failure::NumberConversion.to_string());
            }
            value = value * 10 + d;
            any = true;
        } else {
            proof {
                let rest = text.subrange(start, text.len() as int);
                assert(!is_digit(rest[i - start]));
                if start == 1 {
                    assert(rest == text.drop_first());
                } else {
                    assert(rest == text);
                }
            }
            return Err(Failure::NumberConversion.to_string());
        }
        first = false;
    }
    proof {
        let rest = text.subrange(start, text.len() as int);
        if start == 1 {
            assert(rest == text.drop_first());
        } else {
            assert(rest == text);
        }
    }
    if !any {
        return Err(Failure::NumberConversion.to_string());
    }
    if negative {
        if value == 0x8000_0000_0000_0000 {
            Ok(i64::MIN)
        } else {
            Ok(-(value as i64))
        }
    } else if value <= 0x7FFF_FFFF_FFFF_FFFF {
        Ok(value as i64)
    } else {
        Err(Failure::NumberConversion.to_string())
    }
}

/// A token as it is read off the text.
pub enum Lexeme {
    X,
    Plus,
    Minus,
    Prod,
    Power,
    Equal,
    /// An integer numeral, by its value.
    Integer(i64),
    /// A decimal numeral, by its characters.
    Decimal(Seq<char>),
}

impl Lexeme {
    /// Whether the token `e` is this lexeme: the same symbol, the same
    /// integer, or the decimal numeral of the same characters.
    pub open spec fn is_elem(self, e: Elem) -> bool {
        match self {
            Lexeme::X => e is X,
            Lexeme::Plus => e is Plus,
            Lexeme::Minus => e is Minus,
            Lexeme::Prod => e is Prod,
            Lexeme::Power => e is Power,
            Lexeme::Equal => e is Equal,
            Lexeme::Integer(n) => e == Elem::NumInt(n),
            Lexeme::Decimal(numeral) => e matches Elem::NumFloat(Approx::Numeral(text))
                && text@ == numeral,
        }
    }
}

/// Whether the tokens are the lexemes, one by one.
pub open spec fn spelled(lexemes: Seq<Lexeme>, tokens: Seq<Elem>) -> bool {
    &&& lexemes.len() == tokens.len()
    &&& forall|i: int| 0 <= i < lexemes.len() ==> (#[trigger] lexemes[i]).is_elem(tokens[i])
}

/// The token that a character stands for by itself.
pub open spec fn symbol(c: char) -> Option<Lexeme> {
    if c == 'X' {
        Some(Lexeme::X)
    } else if c == '+' {
        Some(Lexeme::Plus)
    } else if c == '-' {
        Some(Lexeme::Minus)
    } else if c == '*' {
        Some(Lexeme::Prod)
    } else if c == '^' {
        Some(Lexeme::Power)
    } else if c == '=' {
        Some(Lexeme::Equal)
    } else {
        None
    }
}

/// The lexer between two characters.
pub struct Scanning {
    /// The tokens read so far.
    pub lexemes: Seq<Lexeme>,
    /// The characters of the numeral that is being read.
    pub numeral: Seq<char>,
    /// Whether that numeral holds a decimal point.
    pub is_float: bool,
}

/// Before the first character.
pub open spec fn blank() -> Scanning {
    Scanning { lexemes: Seq::empty(), numeral: Seq::empty(), is_float: false }
}

/// Ends the numeral that is being read, if there is one, and makes it a
/// token. A numeral with a point needs a digit beside it, and must not
/// be too large for a double; one without must not exceed `i64::MAX`.
pub open spec fn flush(s: Scanning) -> Result<Scanning, Failure> {
    if s.numeral.len() == 0 {
        Ok(s)
    } else if s.is_float {
        if has_digit(s.numeral) && !beyond_doubles(s.numeral) {
            Ok(
                Scanning {
                    lexemes: s.lexemes.push(Lexeme::Decimal(s.numeral)),
                    numeral: Seq::empty(),
                    is_float: false,
                },
            )
        } else {
            Err(Failure::NumberConversion)
        }
    } else if natural(s.numeral) <= i64::MAX {
        Ok(
            Scanning {
                lexemes: s.lexemes.push(Lexeme::Integer(natural(s.numeral) as i64)),
                numeral: Seq::empty(),
                is_float: false,
            },
        )
    } else {
        Err(Failure::NumberConversion)
    }
}

/// The lexer after one more character.
///
/// A digit joins the numeral, and so does a point, once. Any other
/// character ends the numeral; then a symbol is a token, a blank is
/// nothing, and everything else is refused.
pub open spec fn read(s: Scanning, c: char) -> Result<Scanning, Failure> {
    if is_digit(c) {
        Ok(Scanning { numeral: s.numeral.push(c), ..s })
    } else if c == '.' {
        if s.is_float {
            Err(Failure::MalformedNumber)
        } else {
            Ok(Scanning { numeral: s.numeral.push(c), is_float: true, ..s })
        }
    } else {
        match flush(s) {
            Ok(next) => match symbol(c) {
                Some(lexeme) => Ok(Scanning { lexemes: next.lexemes.push(lexeme), ..next }),
                None => if c == ' ' {
                    Ok(next)
                } else {
                    Err(Failure::UnsupportedCharacter(c))
                },
            },
            Err(f) => Err(f),
        }
    }
}

/// The lexer after a text, or the first failure on the way.
pub open spec fn read_all(s: Scanning, text: Seq<char>) -> Result<Scanning, Failure>
    decreases text.len(),
{
    if text.len() == 0 {
        Ok(s)
    } else {
        match read(s, text[0]) {
            Ok(next) => read_all(next, text.drop_first()),
            Err(f) => Err(f),
        }
    }
}

/// The tokens of a text, read from left to right.
pub open spec fn tokenize(text: Seq<char>) -> Result<Seq<Lexeme>, Failure> {
    match read_all(blank(), text) {
        Ok(s) => match flush(s) {
            Ok(done) => Ok(done.lexemes),
            Err(f) => Err(f),
        },
        Err(f) => Err(f),
    }
}

/// Whether a numeral in the reading is made of digits, and of points if
/// it is marked as decimal.
pub open spec fn numeral_in_order(s: Scanning) -> bool {
    &&& forall|i: int|
        0 <= i < s.numeral.len() ==> is_digit(#[trigger] s.numeral[i]) || s.numeral[i] == '.'
    &&& !s.is_float ==> all_digits(s.numeral)
}

/// Whether the text holds a decimal digit.
fn contains_digit(text: &String) -> (r: bool)
    ensures
        r == has_digit(text@),
{
    for c in it: text.as_str().chars()
        invariant
            it.seq() == text@,
            !has_digit(text@.take(it.index() as int)),
    {
        if c >= '0' && c <= '9' {
            assert(is_digit(text@[it.index() as int]));
            return true;
        }
        assert forall|i: int| 0 <= i < it.index() + 1 implies !is_digit(
            #[trigger] text@.take(it.index() + 1)[i],
        ) by {
            if i < it.index() {
                assert(text@.take(it.index() as int)[i] == text@[i]);
            }
        }
    }
    assert(text@.take(text@.len() as int) == text@);
    false
}

/// Turns the pending numeral into a token at the end of `vec`, and
/// empties it.
fn update_vec_str_to_num(
    is_float: &mut bool,
    num_str: &mut String,
    vec: &mut Vec<Elem>,
    Ghost(s): Ghost<Scanning>,
) -> (r: Result<(), String>)
    requires
        s.numeral == old(num_str)@,
        s.numeral.len() > 0,
        s.is_float == *old(is_float),
        numeral_in_order(s),
        spelled(s.lexemes, old(vec)@),
    ensures
        match flush(s) {
            Ok(next) => {
                &&& r is Ok
                &&& spelled(next.lexemes, final(vec)@)
                &&& final(num_str)@ == next.numeral
                &&& *final(is_float) == next.is_float
            },
            Err(f) => r matches Err(e) && e@ == f.message(),
        },
{
    let mut numeral = String::new();
    std::mem::swap(num_str, &mut numeral);
    if *is_float {
        *is_float = false;
        if !contains_digit(&numeral) || exceeds_doubles(&numeral) {
            return Err(Failure::NumberConversion.to_string());
        }
        vec.push(Elem::NumFloat(Approx::Numeral(numeral)));
    } else {
        proof {
            assert(!(s.numeral[0] == '+' || s.numeral[0] == '-'));
        }
        match str_to_int(&numeral) {
            Ok(n) => vec.push(Elem::NumInt(n)),
            Err(e) => return Err(e),
        };
    }
    Ok(())
}

/// Appends the token that the character stands for, and nothing for a blank.
fn update_vec_char_to_elem_except_num(
    c: char,
    vec: &mut Vec<Elem>,
    Ghost(lexemes): Ghost<Seq<Lexeme>>,
) -> (r: Result<(), String>)
    requires
        spelled(lexemes, old(vec)@),
    ensures
        match symbol(c) {
            Some(lexeme) => r is Ok && spelled(lexemes.push(lexeme), final(vec)@),
            None => if c == ' ' {
                r is Ok && final(vec)@ == old(vec)@
            } else {
                r matches Err(e) && e@ == Failure::UnsupportedCharacter(c).message()
            },
        },
{
    match c {
        'X' => vec.push(Elem::X),
        '+' => vec.push(Elem::Plus),
        '-' => vec.push(Elem::Minus),
        '*' => vec.push(Elem::Prod),
        '^' => vec.push(Elem::Power),
        '=' => vec.push(Elem::Equal),
        ' ' => {},
        _ => {
            return Err(Failure::UnsupportedCharacter(c).to_string());
        },
    };
    Ok(())
}

/// Cuts the text of an equation into its tokens.
pub fn parse_string(equation: &String) -> (r: Result<Vec<Elem>, String>)
    ensures
        match tokenize(equation@) {
            Ok(lexemes) => r matches Ok(tokens) && spelled(lexemes, tokens@),
            Err(f) => r matches Err(e) && e@ == f.message(),
        },
{
    let mut vec: Vec<Elem> = Vec::new();
    let mut num_str = String::new();
    let mut is_float = false;
    let ghost text = equation@;
    let ghost mut s = blank();
    assert(text.skip(0) == text);

    for c in it: equation.as_str().chars()
        invariant
            it.seq() == text,
            text == equation@,
            spelled(s.lexemes, vec@),
            s.numeral == num_str@,
            s.is_float == is_float,
            numeral_in_order(s),
            read_all(s, text.skip(it.index() as int)) == read_all(blank(), text),
    {
        assert(text.skip(it.index() as int).drop_first() == text.skip(it.index() + 1));
        assert(text.skip(it.index() as int)[0] == c);
        let ghost before = s;
        proof {
            if let Ok(next) = read(s, c) {
                s = next;
            }
        }
        if c >= '0' && c <= '9' {
            num_str.push(c);
        } else if c == '.' {
            if is_float {
                return Err(Failure::MalformedNumber.to_string());
            }
            is_float = true;
            num_str.push(c);
        } else {
            let ghost mut flushed = before;
            if !num_str.as_str().is_empty() {
                if let Err(e) = update_vec_str_to_num(
                    &mut is_float,
                    &mut num_str,
                    &mut vec,
                    Ghost(before),
                ) {
                    return Err(e);
                }
                proof {
                    flushed = flush(before)->Ok_0;
                }
            }
            if let Err(e) = update_vec_char_to_elem_except_num(
                c,
                &mut vec,
                Ghost(flushed.lexemes),
            ) {
                return Err(e);
            }
        }
    }
    if !num_str.as_str().is_empty() {
        if let Err(e) = update_vec_str_to_num(&mut is_float, &mut num_str, &mut vec, Ghost(s)) {
            return Err(e);
        }
    }
    Ok(vec)
}

/// How often `=` stands in the text.
pub open spec fn equal_signs(text: Seq<char>) -> nat
    decreases text.len(),
{
    if text.len() == 0 {
        0
    } else {
        equal_signs(text.drop_first()) + if text[0] == '=' {
            1nat
        } else {
            0nat
        }
    }
}

/// How many of the lexemes are `=`.
pub open spec fn equal_lexemes(lexemes: Seq<Lexeme>) -> nat
    decreases lexemes.len(),
{
    if lexemes.len() == 0 {
        0
    } else {
        equal_lexemes(lexemes.drop_last()) + if lexemes.last() is Equal {
            1nat
        } else {
            0nat
        }
    }
}

/// One more lexeme is one more `=` where it is one, and none else.
proof fn lemma_equal_lexemes_push(lexemes: Seq<Lexeme>, lexeme: Lexeme)
    ensures
        equal_lexemes(lexemes.push(lexeme)) == equal_lexemes(lexemes) + if lexeme is Equal {
            1nat
        } else {
            0nat
        },
{
    assert(lexemes.push(lexeme).drop_last() == lexemes);
}

/// The lexer reads each `=` of the text as one token, and nothing else as `=`.
proof fn lemma_read_all_equals(s: Scanning, text: Seq<char>)
    requires
        read_all(s, text) is Ok,
    ensures
        equal_lexemes(read_all(s, text)->Ok_0.lexemes) == equal_lexemes(s.lexemes) + equal_signs(
            text,
        ),
    decreases text.len(),
{
    if text.len() > 0 {
        let c = text[0];
        let next = read(s, c)->Ok_0;
        lemma_read_all_equals(next, text.drop_first());
        if !is_digit(c) && c != '.' {
            let flushed = flush(s)->Ok_0;
            if s.numeral.len() > 0 {
                if s.is_float {
                    lemma_equal_lexemes_push(s.lexemes, Lexeme::Decimal(s.numeral));
                } else {
                    lemma_equal_lexemes_push(
                        s.lexemes,
                        Lexeme::Integer(natural(s.numeral) as i64),
                    );
                }
            }
            if let Some(lexeme) = symbol(c) {
                lemma_equal_lexemes_push(flushed.lexemes, lexeme);
            }
        }
    }
}

/// The tokens of a text hold `=` as often as the text does.
pub proof fn lemma_tokenize_equals(text: Seq<char>)
    requires
        tokenize(text) is Ok,
    ensures
        equal_lexemes(tokenize(text)->Ok_0) == equal_signs(text),
{
    lemma_read_all_equals(blank(), text);
    let s = read_all(blank(), text)->Ok_0;
    if s.numeral.len() > 0 {
        if s.is_float {
            lemma_equal_lexemes_push(s.lexemes, Lexeme::Decimal(s.numeral));
        } else {
            lemma_equal_lexemes_push(s.lexemes, Lexeme::Integer(natural(s.numeral) as i64));
        }
    }
}

} // verus!
