use json_parser::string::{escape, unescape};

#[test]
fn escape_rewrites_the_escape_set() {
    assert_eq!("a\\\"b\\\\c\\n", escape("a\"b\\c\n"));
    assert_eq!("\\b\\f\\r\\t", escape("\u{8}\u{c}\r\t"));
    assert_eq!("plain text", escape("plain text"));
    assert_eq!("caf\u{e9}", escape("caf\u{e9}"));
}

#[test]
fn unescape_inverts_escape() {
    let texts = [
        "hello",
        "a\"b\\c\n",
        "\u{8}\u{c}\n\r\t\"\\",
        "mixed \t text \"quoted\" and \\slashed\\",
        "caf\u{e9} \u{3042}",
        "",
    ];
    for text in texts {
        assert_eq!(text, unescape(&escape(text)));
    }
}

#[test]
fn unescape_named_escapes() {
    assert_eq!("\"/\\\u{8}\u{c}\n\r\t", unescape("\\\"\\/\\\\\\b\\f\\n\\r\\t"));
}

#[test]
fn unescape_unicode_escape() {
    assert_eq!("\u{3042}", unescape("\\u3042"));
    assert_eq!("A", unescape("\\u0041"));
    assert_eq!("\u{ffff}", unescape("\\uffff"));
    assert_eq!("\u{ffff}", unescape("\\uFFFF"));
}

#[test]
fn unescape_malformed_unicode_is_placeholder() {
    // digits that are not hexadecimal
    assert_eq!("?", unescape("\\uzzzz"));
    // a surrogate value is no scalar
    assert_eq!("?", unescape("\\uD800"));
    assert_eq!("? after", unescape("\\uDFFF after"));
}

#[test]
fn unescape_truncated_unicode_ends_output() {
    // fewer than four digits remain: a placeholder, and nothing after it
    assert_eq!("abc?", unescape("abc\\u12"));
    assert_eq!("?", unescape("\\u"));
}

#[test]
fn unescape_trailing_backslash_is_literal() {
    assert_eq!("abc\\", unescape("abc\\"));
}

#[test]
fn unescape_unknown_escape_is_copied() {
    assert_eq!("x", unescape("\\x"));
    assert_eq!("q8", unescape("\\q8"));
}
