//! A small JSON library: a tokenizer that scans text into a lexeme
//! sequence, a recursive-descent parser that builds a value tree from it,
//! a string escape/unescape codec, and read-only accessors over the tree.

pub mod chars;
pub mod json_value;
pub mod number;
pub mod parser;
pub mod parser_error;
pub mod string;
pub mod token;
pub mod tokenizer;
