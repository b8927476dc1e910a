//! Solving polynomial equations in one variable, of degree two at most.
//!
//! The text of an equation is cut into tokens ([`parse_string`]), the
//! tokens are gathered into the terms of its two sides ([`elem_to_term`]),
//! the terms are reduced to one coefficient per degree
//! ([`reduce_equation`], [`utility`]), and the reduced equation is solved
//! ([`solution`]).
//!
//! Every step that works on integers is carried out here, exactly: a
//! solution is a fraction in lowest terms wherever integers give it. A
//! number that is only known approximately is never computed here. It is
//! carried as a [`term::Approx`], the record of the floating-point
//! operations that yield it, and left to the caller to evaluate; where
//! the sign of such a number decides how to go on, the caller hands its
//! value back first.
pub mod math_utility;
pub mod fraction;
pub mod text;
pub mod term;
pub mod numeral;
pub mod parse_string;
pub mod elem_to_term;
pub mod reduce_equation;
pub mod utility;
pub mod solution;
