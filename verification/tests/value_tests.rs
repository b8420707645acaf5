use json_parser::json_value::JSONValue;
use json_parser::number::Number;
use json_parser::parser::Parser;

#[test]
fn as_bool_on_variants() {
    assert_eq!(Some(true), JSONValue::True.as_bool());
    assert_eq!(Some(false), JSONValue::False.as_bool());
    assert_eq!(None, JSONValue::Null.as_bool());
    assert_eq!(None, JSONValue::Number(Number::Integer(1)).as_bool());
}

#[test]
fn is_null_on_variants() {
    assert!(JSONValue::Null.is_null());
    assert!(!JSONValue::True.is_null());
    assert!(!JSONValue::String("null".to_string()).is_null());
}

#[test]
fn as_number_returns_the_number() {
    let v = JSONValue::Number(Number::Integer(5));
    assert_eq!(Some(Number::Integer(5)), v.as_number());
    let f = JSONValue::Number(Number::Float("1.5".to_string()));
    assert_eq!(Some(Number::Float("1.5".to_string())), f.as_number());
    assert_eq!(None, JSONValue::Null.as_number());
}

#[test]
fn as_i64_on_integers() {
    assert_eq!(
        Some(-42),
        JSONValue::Number(Number::Integer(-42)).as_i64()
    );
    assert_eq!(None, JSONValue::True.as_i64());
    // a floating-point literal has no verified integer reading
    assert_eq!(
        None,
        JSONValue::Number(Number::Float("1.9".to_string())).as_i64()
    );
}

#[test]
fn as_string_on_variants() {
    assert_eq!(
        Some("hi".to_string()),
        JSONValue::String("hi".to_string()).as_string()
    );
    assert_eq!(None, JSONValue::Null.as_string());
}

#[test]
fn array_accessors() {
    let doc = Parser::parse("[10, 20, 30]").unwrap();
    assert!(doc.is_array());
    assert!(!doc.is_object());
    assert_eq!(
        Some(&JSONValue::Number(Number::Integer(20))),
        doc.get_as_array(1)
    );
    assert_eq!(None, doc.get_as_array(3));
    assert_eq!(None, JSONValue::Null.get_as_array(0));
}

#[test]
fn object_accessors() {
    let doc = Parser::parse("{\"name\": \"Alice\", \"age\": 15}").unwrap();
    assert!(doc.is_object());
    assert!(!doc.is_array());
    assert_eq!(
        Some("Alice".to_string()),
        doc.get_as_object("name").unwrap().as_string()
    );
    assert_eq!(Some(15), doc.get_as_object("age").unwrap().as_i64());
    assert_eq!(None, doc.get_as_object("absent"));
    assert_eq!(None, JSONValue::Null.get_as_object("name"));
}

#[test]
fn nested_lookup() {
    let doc = Parser::parse("{\"a\": {\"b\": 0}}").unwrap();
    let inner = doc.get_as_object("a").unwrap();
    assert!(inner.is_object());
    assert_eq!(Some(0), inner.get_as_object("b").unwrap().as_i64());
}

#[test]
fn clone_keeps_the_tree() {
    let doc = Parser::parse("{\"a\": [1, \"x\", true], \"b\": null}").unwrap();
    let copy = doc.clone();
    assert_eq!(doc, copy);
}
