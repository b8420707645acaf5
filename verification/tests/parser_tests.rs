use json_parser::json_value::JSONValue;
use json_parser::number::Number;
use json_parser::parser::Parser;
use json_parser::parser_error::{ParserError, ParserErrorKind};

#[test]
fn value_true() {
    assert_eq!(Ok(JSONValue::True), Parser::parse("true"));
}

#[test]
fn value_false() {
    assert_eq!(Ok(JSONValue::False), Parser::parse("false"));
}

#[test]
fn value_null() {
    assert_eq!(Ok(JSONValue::Null), Parser::parse("null"));
}

#[test]
fn value_number() {
    assert_eq!(
        Ok(JSONValue::Number(Number::Integer(123))),
        Parser::parse("123")
    );
    assert_eq!(
        Ok(JSONValue::Number(Number::Integer(-123))),
        Parser::parse("-123")
    );
    assert_eq!(
        Ok(JSONValue::Number(Number::Float(String::from("123.456")))),
        Parser::parse("123.456")
    );
    assert_eq!(
        Ok(JSONValue::Number(Number::Float(String::from("-123.456")))),
        Parser::parse("-123.456")
    );
}

#[test]
fn value_string() {
    assert_eq!(
        Ok(JSONValue::String("hello".to_string())),
        Parser::parse("\"hello\"")
    );
}

#[test]
fn value_array() {
    assert_eq!(
        Ok(JSONValue::Array(vec![
            JSONValue::Number(Number::Integer(1)),
            JSONValue::Number(Number::Integer(2)),
            JSONValue::Number(Number::Integer(3)),
        ])),
        Parser::parse("[1, 2, 3]")
    );
}

#[test]
fn value_array_mixed() {
    assert_eq!(
        Ok(JSONValue::Array(vec![
            JSONValue::Number(Number::Integer(1)),
            JSONValue::String("abc".to_string()),
            JSONValue::True,
        ])),
        Parser::parse("[1, \"abc\", true]")
    );
}

#[test]
fn value_array_empty() {
    assert_eq!(Ok(JSONValue::Array(vec![])), Parser::parse("[]"));
}

#[test]
fn value_array_nested() {
    assert_eq!(
        Ok(JSONValue::Array(vec![
            JSONValue::Array(vec![JSONValue::Number(Number::Integer(1))]),
            JSONValue::Array(vec![
                JSONValue::Number(Number::Integer(2)),
                JSONValue::Number(Number::Integer(3))
            ])
        ])),
        Parser::parse("[[1], [2, 3]]")
    );
}

#[test]
fn value_object() {
    let map: Vec<(String, JSONValue)> = vec![
        ("a".to_string(), JSONValue::Number(Number::Integer(0))),
        ("b".to_string(), JSONValue::True),
        ("c".to_string(), JSONValue::Null),
    ];

    assert_eq!(
        Ok(JSONValue::Object(map)),
        Parser::parse("{\"a\": 0, \"b\": true, \"c\": null}")
    );
}

#[test]
fn value_object_empty() {
    assert_eq!(Ok(JSONValue::Object(Vec::new())), Parser::parse("{}"));
}

#[test]
fn value_object_nested() {
    let inner_map: Vec<(String, JSONValue)> =
        vec![("b".to_string(), JSONValue::Number(Number::Integer(0)))];

    let map: Vec<(String, JSONValue)> = vec![("a".to_string(), JSONValue::Object(inner_map))];

    assert_eq!(
        Ok(JSONValue::Object(map)),
        Parser::parse("{\"a\": {\"b\": 0}}")
    );
}

#[test]
fn trailing_content_rejected() {
    assert_eq!(
        Err(ParserError::new(ParserErrorKind::UnexpectedToken)),
        Parser::parse("true true")
    );
}

#[test]
fn empty_input_is_eof() {
    assert_eq!(
        Err(ParserError::new(ParserErrorKind::UnexpectedEOF)),
        Parser::parse("")
    );
    assert_eq!(
        Err(ParserError::new(ParserErrorKind::UnexpectedEOF)),
        Parser::parse("   ")
    );
}

#[test]
fn duplicate_keys_last_wins() {
    assert_eq!(
        Ok(JSONValue::Object(vec![(
            "a".to_string(),
            JSONValue::Number(Number::Integer(2))
        )])),
        Parser::parse("{\"a\":1,\"a\":2}")
    );
}

#[test]
fn input_ending_mid_structure_is_eof() {
    // the lexemes run out where one was required
    assert_eq!(
        Err(ParserError::new(ParserErrorKind::UnexpectedEOF)),
        Parser::parse("[1, 2")
    );
    assert_eq!(
        Err(ParserError::new(ParserErrorKind::UnexpectedEOF)),
        Parser::parse("[")
    );
    assert_eq!(
        Err(ParserError::new(ParserErrorKind::UnexpectedEOF)),
        Parser::parse("[1,")
    );
    assert_eq!(
        Err(ParserError::new(ParserErrorKind::UnexpectedEOF)),
        Parser::parse("{")
    );
    assert_eq!(
        Err(ParserError::new(ParserErrorKind::UnexpectedEOF)),
        Parser::parse("{\"a\"")
    );
    assert_eq!(
        Err(ParserError::new(ParserErrorKind::UnexpectedEOF)),
        Parser::parse("{\"a\":")
    );
}

#[test]
fn non_string_key_rejected() {
    assert_eq!(
        Err(ParserError::new(ParserErrorKind::UnexpectedToken)),
        Parser::parse("{1: 2}")
    );
}

#[test]
fn missing_name_separator_rejected() {
    assert_eq!(
        Err(ParserError::new(ParserErrorKind::UnexpectedToken)),
        Parser::parse("{\"a\" 1}")
    );
}

#[test]
fn bare_separator_rejected() {
    assert_eq!(
        Err(ParserError::new(ParserErrorKind::UnexpectedToken)),
        Parser::parse(",")
    );
}

#[test]
fn float_with_exponent_keeps_lexeme() {
    assert_eq!(
        Ok(JSONValue::Number(Number::Float(String::from("123e10")))),
        Parser::parse("123e10")
    );
    assert_eq!(
        Ok(JSONValue::Number(Number::Float(String::from("123.456e+10")))),
        Parser::parse("123.456e+10")
    );
}

#[test]
fn integer_bounds() {
    assert_eq!(
        Ok(JSONValue::Number(Number::Integer(i64::MAX))),
        Parser::parse("9223372036854775807")
    );
    assert_eq!(
        Ok(JSONValue::Number(Number::Integer(i64::MIN))),
        Parser::parse("-9223372036854775808")
    );
    // a literal past the 64-bit range is no lexeme: the scan stops there
    assert_eq!(
        Err(ParserError::new(ParserErrorKind::UnexpectedEOF)),
        Parser::parse("9223372036854775808")
    );
}

#[test]
fn string_with_escapes_in_document() {
    assert_eq!(
        Ok(JSONValue::String("a\"b\\c\nd".to_string())),
        Parser::parse("\"a\\\"b\\\\c\\nd\"")
    );
}

#[test]
fn error_message_text() {
    assert_eq!(
        "UnexpectedToken",
        Parser::parse("true true").unwrap_err().message()
    );
    assert_eq!("UnexpectedEOF", Parser::parse("").unwrap_err().message());
}
