//! The vocabulary of an equation: tokens, coefficients and terms.
//!
//! A coefficient is an exact integer for as long as 64 bits hold it.
//! Beyond that, and wherever a decimal numeral takes part, it is a
//! [`Approx`]: the floating-point computation that gives its value,
//! written down and left to the caller to carry out.
use vstd::prelude::*;

verus! {

/// A 64-bit floating-point number, named by the way it is obtained.
///
/// The leaves are numbers that are given; the other variants are the
/// operations of IEEE-754 double precision applied to them, each rounded
/// to the nearest double. Nothing here evaluates one: the caller does, and
/// hands the result back as an [`Approx::Value`], of which the sign can
/// then be read.
#[derive(Debug, PartialEq)]
pub enum Approx {
    /// A decimal numeral as it stands in the text: digits around one
    /// point, read as the double that is nearest to its value.
    Numeral(String),
    /// An integer, rounded to the nearest double.
    Int(i64),
    /// The double with this IEEE-754 encoding.
    Value(u64),
    /// The sum of two numbers.
    Sum(Box<Approx>, Box<Approx>),
    /// The product of two numbers.
    Product(Box<Approx>, Box<Approx>),
    /// The first number divided by the second.
    Quotient(Box<Approx>, Box<Approx>),
    /// The number with its sign changed.
    Negation(Box<Approx>),
    /// The square root of a number by Newton's iteration `x -> (x * x + v) / (2 * x)`,
    /// started at the number itself and applied a thousand times; `0` for a
    /// number that is not above zero.
    Root(Box<Approx>),
}

/// One token of an equation's text.
#[derive(Debug, PartialEq)]
pub enum Elem {
    /// The variable, `X`.
    X,
    /// `+`
    Plus,
    /// `-`
    Minus,
    /// `*`
    Prod,
    /// `^`
    Power,
    /// `=`
    Equal,
    /// An integer numeral.
    NumInt(i64),
    /// A decimal numeral.
    NumFloat(Approx),
}

/// The factor of a term: an exact integer, or a number known approximately.
#[derive(Debug, PartialEq)]
pub enum Coefficient {
    /// An exact integer.
    NumInt(i64),
    /// A floating-point number.
    NumFloat(Approx),
}

/// `coefficient * X^degree`.
#[derive(Debug, PartialEq)]
pub struct Term {
    pub coefficient: Coefficient,
    pub degree: i64,
}

/// The encoding of a double with its sign bit cleared.
pub open spec fn magnitude(bits: u64) -> int {
    if bits >= 0x8000_0000_0000_0000 {
        bits - 0x8000_0000_0000_0000
    } else {
        bits as int
    }
}

/// Whether the encoding is that of a NaN: exponent all ones, fraction not zero.
pub open spec fn encodes_nan(bits: u64) -> bool {
    magnitude(bits) > 0x7FF0_0000_0000_0000
}

/// Whether the encoding is that of `0.0` or `-0.0`.
pub open spec fn encodes_zero(bits: u64) -> bool {
    magnitude(bits) == 0
}

/// Whether the encoded double compares `>= 0.0`: it is no NaN, and it is
/// a zero or has its sign bit clear.
pub open spec fn encodes_non_negative(bits: u64) -> bool {
    !encodes_nan(bits) && (bits < 0x8000_0000_0000_0000 || encodes_zero(bits))
}

/// Whether the encoded double compares `< 0.0`: it is no NaN and no zero,
/// and has its sign bit set.
pub open spec fn encodes_negative(bits: u64) -> bool {
    !encodes_nan(bits) && !encodes_zero(bits) && bits >= 0x8000_0000_0000_0000
}

impl Clone for Approx {
    fn clone(&self) -> (r: Self)
        ensures
            r == *self,
        decreases self,
    {
        match self {
            Approx::Numeral(text) => Approx::Numeral(text.clone()),
            Approx::Int(n) => Approx::Int(*n),
            Approx::Value(bits) => Approx::Value(*bits),
            Approx::Sum(a, b) => Approx::Sum(Box::new((&**a).clone()), Box::new((&**b).clone())),
            Approx::Product(a, b) => Approx::Product(
                Box::new((&**a).clone()),
                Box::new((&**b).clone()),
            ),
            Approx::Quotient(a, b) => Approx::Quotient(
                Box::new((&**a).clone()),
                Box::new((&**b).clone()),
            ),
            Approx::Negation(a) => Approx::Negation(Box::new((&**a).clone())),
            Approx::Root(a) => Approx::Root(Box::new((&**a).clone())),
        }
    }
}

impl Clone for Coefficient {
    fn clone(&self) -> (r: Self)
        ensures
            r == *self,
    {
        match self {
            Coefficient::NumInt(n) => Coefficient::NumInt(*n),
            Coefficient::NumFloat(x) => Coefficient::NumFloat(x.clone()),
        }
    }
}

impl Clone for Term {
    fn clone(&self) -> (r: Self)
        ensures
            r == *self,
    {
        Term { coefficient: self.coefficient.clone(), degree: self.degree }
    }
}

impl Coefficient {
    /// The coefficient as a floating-point number: an integer is rounded
    /// to the nearest double.
    pub open spec fn approx(self) -> Approx {
        match self {
            Coefficient::NumInt(n) => Approx::Int(n),
            Coefficient::NumFloat(x) => x,
        }
    }

    /// The sum of two coefficients. Two integers whose sum fits in 64 bits
    /// give that integer. Every other pair gives the floating-point sum of
    /// the two taken as floating-point numbers.
    pub open spec fn sum(self, other: Coefficient) -> Coefficient {
        if let (Coefficient::NumInt(a), Coefficient::NumInt(b)) = (self, other) {
            if i64::MIN <= a + b <= i64::MAX {
                Coefficient::NumInt((a + b) as i64)
            } else {
                Coefficient::NumFloat(
                    Approx::Sum(Box::new(self.approx()), Box::new(other.approx())),
                )
            }
        } else {
            Coefficient::NumFloat(Approx::Sum(Box::new(self.approx()), Box::new(other.approx())))
        }
    }

    /// The product of two coefficients, by the rule of [`Coefficient::sum`].
    pub open spec fn product(self, other: Coefficient) -> Coefficient {
        if let (Coefficient::NumInt(a), Coefficient::NumInt(b)) = (self, other) {
            if i64::MIN <= a * b <= i64::MAX {
                Coefficient::NumInt((a * b) as i64)
            } else {
                Coefficient::NumFloat(
                    Approx::Product(Box::new(self.approx()), Box::new(other.approx())),
                )
            }
        } else {
            Coefficient::NumFloat(
                Approx::Product(Box::new(self.approx()), Box::new(other.approx())),
            )
        }
    }

    /// The coefficient with its sign changed: exactly for every integer
    /// but `i64::MIN`, in floating point for the rest.
    pub open spec fn negated(self) -> Coefficient {
        match self {
            Coefficient::NumInt(n) if n != i64::MIN => Coefficient::NumInt((-n) as i64),
            _ => Coefficient::NumFloat(Approx::Negation(Box::new(self.approx()))),
        }
    }

    /// Whether the sign of the coefficient can be read: it is an integer,
    /// or a floating-point number that has been evaluated.
    pub open spec fn settled(self) -> bool {
        match self {
            Coefficient::NumInt(_) => true,
            Coefficient::NumFloat(x) => x is Value,
        }
    }

    /// Whether a settled coefficient equals zero.
    pub open spec fn zero(self) -> bool {
        match self {
            Coefficient::NumInt(n) => n == 0,
            Coefficient::NumFloat(Approx::Value(bits)) => encodes_zero(bits),
            Coefficient::NumFloat(_) => false,
        }
    }

    /// Whether a settled coefficient is zero or above.
    pub open spec fn non_negative(self) -> bool {
        match self {
            Coefficient::NumInt(n) => n >= 0,
            Coefficient::NumFloat(Approx::Value(bits)) => encodes_non_negative(bits),
            Coefficient::NumFloat(_) => false,
        }
    }

    /// Whether a settled coefficient is below zero.
    pub open spec fn negative(self) -> bool {
        match self {
            Coefficient::NumInt(n) => n < 0,
            Coefficient::NumFloat(Approx::Value(bits)) => encodes_negative(bits),
            Coefficient::NumFloat(_) => false,
        }
    }

    /// Whether the sign of the coefficient can be read.
    pub fn is_settled(&self) -> (r: bool)
        ensures
            r == self.settled(),
    {
        match self {
            Coefficient::NumInt(_) => true,
            Coefficient::NumFloat(x) => match x {
                Approx::Value(_) => true,
                _ => false,
            },
        }
    }

    /// The sum of two coefficients: exact where both are integers and the
    /// sum fits, the floating-point sum to be computed else.
    pub fn add(&self, other: &Coefficient) -> (r: Coefficient)
        ensures
            r == self.sum(*other),
    {
        if let (Coefficient::NumInt(a), Coefficient::NumInt(b)) = (self, other) {
            if let Some(n) = a.checked_add(*b) {
                return Coefficient::NumInt(n);
            }
        }
        Coefficient::NumFloat(Approx::Sum(Box::new(self.to_float()), Box::new(other.to_float())))
    }

    /// The product of two coefficients: exact where both are integers and
    /// the product fits, the floating-point product to be computed else.
    pub fn mul(&self, other: &Coefficient) -> (r: Coefficient)
        ensures
            r == self.product(*other),
    {
        if let (Coefficient::NumInt(a), Coefficient::NumInt(b)) = (self, other) {
            if let Some(n) = a.checked_mul(*b) {
                return Coefficient::NumInt(n);
            }
        }
        Coefficient::NumFloat(
            Approx::Product(Box::new(self.to_float()), Box::new(other.to_float())),
        )
    }

    /// The coefficient with its sign changed.
    pub fn mul_minus(&self) -> (r: Coefficient)
        ensures
            r == self.negated(),
    {
        if let Coefficient::NumInt(n) = self {
            if let Some(value) = 0i64.checked_sub(*n) {
                return Coefficient::NumInt(value);
            }
        }
        Coefficient::NumFloat(Approx::Negation(Box::new(self.to_float())))
    }

    /// Whether the coefficient equals zero. Both zeros of floating point
    /// do, and no NaN does.
    pub fn is_zero(&self) -> (r: bool)
        requires
            self.settled(),
        ensures
            r == self.zero(),
    {
        match self {
            Coefficient::NumInt(n) => *n == 0,
            Coefficient::NumFloat(x) => match x {
                Approx::Value(bits) => *bits == 0 || *bits == 0x8000_0000_0000_0000,
                _ => false,
            },
        }
    }

    /// Whether the coefficient is below zero. No zero and no NaN is.
    pub fn is_minus(&self) -> (r: bool)
        requires
            self.settled(),
        ensures
            r == self.negative(),
    {
        match self {
            Coefficient::NumInt(n) => *n < 0,
            Coefficient::NumFloat(x) => match x {
                Approx::Value(bits) => 0x8000_0000_0000_0000 < *bits && *bits
                    <= 0xFFF0_0000_0000_0000,
                _ => false,
            },
        }
    }

    /// The coefficient as a floating-point number.
    pub fn to_float(&self) -> (r: Approx)
        ensures
            r == self.approx(),
    {
        match self {
            Coefficient::NumInt(n) => Approx::Int(*n),
            Coefficient::NumFloat(x) => x.clone(),
        }
    }

    /// Whether the coefficient is zero or above. Both zeros of floating
    /// point are, and no NaN is.
    pub fn is_plus(&self) -> (r: bool)
        requires
            self.settled(),
        ensures
            r == self.non_negative(),
    {
        match self {
            Coefficient::NumInt(n) => *n >= 0,
            Coefficient::NumFloat(x) => match x {
                Approx::Value(bits) => *bits <= 0x7FF0_0000_0000_0000 || *bits
                    == 0x8000_0000_0000_0000,
                _ => false,
            },
        }
    }
}

} // verus!
