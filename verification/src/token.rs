//! The closed set of lexemes the tokenizer can produce.

use vstd::prelude::*;

use crate::number::{Number, NumberModel};

verus! {

/// A lexeme: a structural character, a literal keyword, or a full number
/// or string.  Lexemes are produced once by the tokenizer, held as an
/// ordered sequence, and consumed exactly once by the parser.
#[derive(Debug, PartialEq, Eq)]
pub enum Token {
    BeginArray,
    EndArray,
    BeginObject,
    EndObject,
    NameSeparator,
    ValueSeparator,
    True,
    False,
    Null,
    Number(Number),
    String(String),
}

/// The mathematical model of a [`Token`].
pub enum TokenModel {
    BeginArray,
    EndArray,
    BeginObject,
    EndObject,
    NameSeparator,
    ValueSeparator,
    True,
    False,
    Null,
    Number(NumberModel),
    String(Seq<char>),
}

impl View for Token {
    type V = TokenModel;

    open spec fn view(&self) -> TokenModel {
        match self {
            Token::BeginArray => TokenModel::BeginArray,
            Token::EndArray => TokenModel::EndArray,
            Token::BeginObject => TokenModel::BeginObject,
            Token::EndObject => TokenModel::EndObject,
            Token::NameSeparator => TokenModel::NameSeparator,
            Token::ValueSeparator => TokenModel::ValueSeparator,
            Token::True => TokenModel::True,
            Token::False => TokenModel::False,
            Token::Null => TokenModel::Null,
            Token::Number(n) => TokenModel::Number(n@),
            Token::String(s) => TokenModel::String(s@),
        }
    }
}

/// The model of a whole lexeme sequence.
pub open spec fn tokens_view(ts: Seq<Token>) -> Seq<TokenModel> {
    ts.map_values(|t: Token| t@)
}

impl Clone for Token {
    /// A copy with the same model.
    fn clone(&self) -> (r: Self)
        ensures
            r@ == self@,
    {
        match self {
            Token::BeginArray => Token::BeginArray,
            Token::EndArray => Token::EndArray,
            Token::BeginObject => Token::BeginObject,
            Token::EndObject => Token::EndObject,
            Token::NameSeparator => Token::NameSeparator,
            Token::ValueSeparator => Token::ValueSeparator,
            Token::True => Token::True,
            Token::False => Token::False,
            Token::Null => Token::Null,
            Token::Number(n) => Token::Number(n.clone()),
            Token::String(s) => Token::String(s.clone()),
        }
    }
}

} // verus!
