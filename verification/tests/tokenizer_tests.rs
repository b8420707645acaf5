use json_parser::number::Number;
use json_parser::token::Token;
use json_parser::tokenizer::Tokenizer;

#[test]
fn consume_begin_array() {
    let mut tokenizer = Tokenizer::new("[");
    assert_eq!(Some(Token::BeginArray), tokenizer.consume_char());

    let mut tokenizer = Tokenizer::new("[");
    assert_eq!(Some(Token::BeginArray), tokenizer.consume());
}

#[test]
fn consume_end_array() {
    let mut tokenizer = Tokenizer::new("]");
    assert_eq!(Some(Token::EndArray), tokenizer.consume_char());

    let mut tokenizer = Tokenizer::new("]");
    assert_eq!(Some(Token::EndArray), tokenizer.consume());
}

#[test]
fn consume_begin_object() {
    let mut tokenizer = Tokenizer::new("{");
    assert_eq!(Some(Token::BeginObject), tokenizer.consume_char());
    let mut tokenizer = Tokenizer::new("{");
    assert_eq!(Some(Token::BeginObject), tokenizer.consume());
}

#[test]
fn consume_end_object() {
    let mut tokenizer = Tokenizer::new("}");
    assert_eq!(Some(Token::EndObject), tokenizer.consume_char());

    let mut tokenizer = Tokenizer::new("}");
    assert_eq!(Some(Token::EndObject), tokenizer.consume());
}

#[test]
fn consume_name_separator() {
    let mut tokenizer = Tokenizer::new(":");
    assert_eq!(Some(Token::NameSeparator), tokenizer.consume_char());

    let mut tokenizer = Tokenizer::new(":");
    assert_eq!(Some(Token::NameSeparator), tokenizer.consume());
}

#[test]
fn consume_value_separator() {
    let mut tokenizer = Tokenizer::new(",");
    assert_eq!(Some(Token::ValueSeparator), tokenizer.consume_char());

    let mut tokenizer = Tokenizer::new(",");
    assert_eq!(Some(Token::ValueSeparator), tokenizer.consume());
}

#[test]
fn consume_true() {
    let mut tokenizer = Tokenizer::new("true");
    assert_eq!(Some(Token::True), tokenizer.consume_bool_and_null());

    let mut tokenizer = Tokenizer::new("true");
    assert_eq!(Some(Token::True), tokenizer.consume());
}

#[test]
fn consume_false() {
    let mut tokenizer = Tokenizer::new("false");
    assert_eq!(Some(Token::False), tokenizer.consume_bool_and_null());

    let mut tokenizer = Tokenizer::new("false");
    assert_eq!(Some(Token::False), tokenizer.consume());
}

#[test]
fn consume_null() {
    let mut tokenizer = Tokenizer::new("null");
    assert_eq!(Some(Token::Null), tokenizer.consume_bool_and_null());

    let mut tokenizer = Tokenizer::new("null");
    assert_eq!(Some(Token::Null), tokenizer.consume());
}

#[test]
fn string() {
    let mut tokenizer = Tokenizer::new("\"hello\"");
    assert_eq!(
        Some(Token::String(String::from("hello"))),
        tokenizer.consume_string()
    );

    let mut tokenizer = Tokenizer::new("\"hello\"");
    assert_eq!(
        Some(Token::String(String::from("hello"))),
        tokenizer.consume()
    );
}

#[test]
fn string_with_escape() {
    let mut tokenizer = Tokenizer::new("\"hello\\\"\"");
    assert_eq!(
        Some(Token::String(String::from("hello\""))),
        tokenizer.consume_string()
    );

    let mut tokenizer = Tokenizer::new("\"hello\\\"\"");
    assert_eq!(
        Some(Token::String(String::from("hello\""))),
        tokenizer.consume()
    );
}

#[test]
fn string_with_unicode() {
    let mut tokenizer = Tokenizer::new("\"\\u3042\"");
    assert_eq!(
        Some(Token::String(String::from("\u{3042}"))),
        tokenizer.consume_string()
    );

    let mut tokenizer = Tokenizer::new("\"\\u3042\"");
    assert_eq!(
        Some(Token::String(String::from("\u{3042}"))),
        tokenizer.consume()
    );
}

#[test]
fn positive_int_number() {
    let mut tokenizer = Tokenizer::new("123");
    assert_eq!(
        Some(Token::Number(Number::Integer(123))),
        tokenizer.consume_number()
    );

    let mut tokenizer = Tokenizer::new("123");
    assert_eq!(
        Some(Token::Number(Number::Integer(123))),
        tokenizer.consume()
    );
}

#[test]
fn negative_int_number() {
    let mut tokenizer = Tokenizer::new("-123");
    assert_eq!(
        Some(Token::Number(Number::Integer(-123))),
        tokenizer.consume_number()
    );

    let mut tokenizer = Tokenizer::new("-123");
    assert_eq!(
        Some(Token::Number(Number::Integer(-123))),
        tokenizer.consume()
    );
}

#[test]
fn positive_float_number() {
    let mut tokenizer = Tokenizer::new("123.456");
    assert_eq!(
        Some(Token::Number(Number::Float(String::from("123.456")))),
        tokenizer.consume_number()
    );

    let mut tokenizer = Tokenizer::new("123.456");
    assert_eq!(
        Some(Token::Number(Number::Float(String::from("123.456")))),
        tokenizer.consume()
    );
}

#[test]
fn positive_float_number_starts_with_0() {
    let mut tokenizer = Tokenizer::new("0.456");
    assert_eq!(
        Some(Token::Number(Number::Float(String::from("0.456")))),
        tokenizer.consume_number()
    );

    let mut tokenizer = Tokenizer::new("0.456");
    assert_eq!(
        Some(Token::Number(Number::Float(String::from("0.456")))),
        tokenizer.consume()
    );
}

#[test]
fn negative_float_number() {
    let mut tokenizer = Tokenizer::new("-123.456");
    assert_eq!(
        Some(Token::Number(Number::Float(String::from("-123.456")))),
        tokenizer.consume_number()
    );

    let mut tokenizer = Tokenizer::new("-123.456");
    assert_eq!(
        Some(Token::Number(Number::Float(String::from("-123.456")))),
        tokenizer.consume()
    );
}

#[test]
fn positive_float_number_with_exponent() {
    let mut tokenizer = Tokenizer::new("123.456e+10");
    assert_eq!(
        Some(Token::Number(Number::Float(String::from("123.456e+10")))),
        tokenizer.consume_number()
    );

    let mut tokenizer = Tokenizer::new("123.456e+10");
    assert_eq!(
        Some(Token::Number(Number::Float(String::from("123.456e+10")))),
        tokenizer.consume()
    );
}

#[test]
fn negative_float_number_with_exponent() {
    let mut tokenizer = Tokenizer::new("-123.456e-10");
    assert_eq!(
        Some(Token::Number(Number::Float(String::from("-123.456e-10")))),
        tokenizer.consume_number()
    );

    let mut tokenizer = Tokenizer::new("-123.456e-10");
    assert_eq!(
        Some(Token::Number(Number::Float(String::from("-123.456e-10")))),
        tokenizer.consume()
    );
}

#[test]
fn positive_float_number_with_exponent_without_fractional_part() {
    let mut tokenizer = Tokenizer::new("123e+10");
    assert_eq!(
        Some(Token::Number(Number::Float(String::from("123e+10")))),
        tokenizer.consume_number()
    );

    let mut tokenizer = Tokenizer::new("123e+10");
    assert_eq!(
        Some(Token::Number(Number::Float(String::from("123e+10")))),
        tokenizer.consume()
    );
}

#[test]
fn negative_float_number_with_exponent_without_fractional_part() {
    let mut tokenizer = Tokenizer::new("-123e-10");
    assert_eq!(
        Some(Token::Number(Number::Float(String::from("-123e-10")))),
        tokenizer.consume_number()
    );

    let mut tokenizer = Tokenizer::new("-123e-10");
    assert_eq!(
        Some(Token::Number(Number::Float(String::from("-123e-10")))),
        tokenizer.consume()
    );
}

#[test]
fn positive_float_number_with_exponent_without_fractional_part_and_plus() {
    let mut tokenizer = Tokenizer::new("123e10");
    assert_eq!(
        Some(Token::Number(Number::Float(String::from("123e10")))),
        tokenizer.consume_number()
    );

    let mut tokenizer = Tokenizer::new("123e10");
    assert_eq!(
        Some(Token::Number(Number::Float(String::from("123e10")))),
        tokenizer.consume()
    );
}

#[test]
fn random_sequence() {
    let mut tokenizer =
        Tokenizer::new("  [  ]  {  }  :  ,  true  false  null  123  123.456  \"hello\"  ");
    assert_eq!(Some(Token::BeginArray), tokenizer.consume());
    assert_eq!(Some(Token::EndArray), tokenizer.consume());
    assert_eq!(Some(Token::BeginObject), tokenizer.consume());
    assert_eq!(Some(Token::EndObject), tokenizer.consume());
    assert_eq!(Some(Token::NameSeparator), tokenizer.consume());
    assert_eq!(Some(Token::ValueSeparator), tokenizer.consume());
    assert_eq!(Some(Token::True), tokenizer.consume());
    assert_eq!(Some(Token::False), tokenizer.consume());
    assert_eq!(Some(Token::Null), tokenizer.consume());
    assert_eq!(
        Some(Token::Number(Number::Integer(123))),
        tokenizer.consume()
    );
    assert_eq!(
        Some(Token::Number(Number::Float(String::from("123.456")))),
        tokenizer.consume()
    );
    assert_eq!(
        Some(Token::String(String::from("hello"))),
        tokenizer.consume()
    );
}

#[test]
fn tokenize_stops_at_unusable_head() {
    // a stray character ends the scan: the sequence is cut short there
    assert_eq!(vec![Token::True], Tokenizer::tokenize("true @ false"));
    assert_eq!(Vec::<Token>::new(), Tokenizer::tokenize("@"));
}

#[test]
fn tokenize_stops_at_unterminated_string() {
    assert_eq!(
        vec![Token::BeginArray],
        Tokenizer::tokenize("[\"no closing quote")
    );
}

#[test]
fn tokenize_whole_document() {
    assert_eq!(
        vec![
            Token::BeginObject,
            Token::String(String::from("a")),
            Token::NameSeparator,
            Token::Number(Number::Integer(1)),
            Token::EndObject,
        ],
        Tokenizer::tokenize("{\"a\": 1}")
    );
}

#[test]
fn integer_prefix_of_leading_zero_run() {
    // `0123` is scanned as `0`, then `123`
    assert_eq!(
        vec![
            Token::Number(Number::Integer(0)),
            Token::Number(Number::Integer(123)),
        ],
        Tokenizer::tokenize("0123")
    );
}

#[test]
fn tokens_clone() {
    let tokens = Tokenizer::tokenize("[\"hi\", 1.5]");
    let copies: Vec<Token> = tokens.iter().map(|t| t.clone()).collect();
    assert_eq!(tokens, copies);
}
