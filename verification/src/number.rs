//! The two-variant number model.
//!
//! The variant is chosen lexically by the tokenizer: a literal without a
//! fraction and without an exponent is `Integer`; any other numeric literal
//! is `Float`.  A `Float` carries its lexeme unchanged, exactly as it stood
//! in the input; turning the lexeme into a machine floating-point value is
//! left to unverified callers.

use vstd::prelude::*;

verus! {

/// A JSON number: a 64-bit signed integer, or a floating-point literal
/// carried as its lexeme.
#[derive(Debug, PartialEq, Eq)]
pub enum Number {
    Integer(i64),
    Float(String),
}

/// The mathematical model of a [`Number`]: an unbounded integer, or the
/// character sequence of a floating-point lexeme.
pub enum NumberModel {
    Integer(int),
    Float(Seq<char>),
}

impl View for Number {
    type V = NumberModel;

    open spec fn view(&self) -> NumberModel {
        match self {
            Number::Integer(n) => NumberModel::Integer(*n as int),
            Number::Float(s) => NumberModel::Float(s@),
        }
    }
}

impl Clone for Number {
    fn clone(&self) -> (r: Self)
        ensures
            r@ == self@,
    {
        match self {
            Number::Integer(n) => Number::Integer(*n),
            Number::Float(s) => Number::Float(s.clone()),
        }
    }
}

} // verus!
