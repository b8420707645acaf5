//! The string escape/unescape codec.
//!
//! `escape` rewrites the quote, the backslash and the five control
//! characters of the JSON escape set to their two-character escapes and
//! passes every other character through unchanged.  `unescape` inverts
//! that, also accepting `\/` and `\u` followed by four hexadecimal digits;
//! it never fails, degrading silently to a `?` placeholder on a malformed
//! or truncated `\u` escape.

use vstd::prelude::*;

use crate::chars::{char_from_u32, chars_of, string_from_chars};

verus! {

/// The two-character escape for a character of the escape set, or the
/// character itself.
pub open spec fn spec_escape_char(c: char) -> Seq<char> {
    if c == '"' {
        seq!['\\', '"']
    } else if c == '\\' {
        seq!['\\', '\\']
    } else if c == '\u{8}' {
        seq!['\\', 'b']
    } else if c == '\u{c}' {
        seq!['\\', 'f']
    } else if c == '\n' {
        seq!['\\', 'n']
    } else if c == '\r' {
        seq!['\\', 'r']
    } else if c == '\t' {
        seq!['\\', 't']
    } else {
        seq![c]
    }
}

/// The escaped form of a text: each character's escape, concatenated.
pub open spec fn spec_escape(s: Seq<char>) -> Seq<char>
    decreases s.len(),
{
    if s.len() == 0 {
        Seq::empty()
    } else {
        spec_escape_char(s[0]) + spec_escape(s.drop_first())
    }
}

/// The literal a single escape character stands for: `b`, `f`, `n`, `r`
/// and `t` map to their control characters; anything else, the quote, the
/// slash and the backslash included, stands for itself.
pub open spec fn spec_unescape_pair(c: char) -> char {
    if c == 'b' {
        '\u{8}'
    } else if c == 'f' {
        '\u{c}'
    } else if c == 'n' {
        '\n'
    } else if c == 'r' {
        '\r'
    } else if c == 't' {
        '\t'
    } else {
        c
    }
}

/// The value of one hexadecimal digit, upper or lower case.
pub open spec fn hex_digit_value(c: char) -> Option<int> {
    let u = (c as u32) as int;
    if ('0' as u32) as int <= u <= ('9' as u32) as int {
        Some(u - ('0' as u32) as int)
    } else if ('a' as u32) as int <= u <= ('f' as u32) as int {
        Some(u - ('a' as u32) as int + 10)
    } else if ('A' as u32) as int <= u <= ('F' as u32) as int {
        Some(u - ('A' as u32) as int + 10)
    } else {
        None
    }
}

/// The value of four hexadecimal digits, most significant first.
pub open spec fn hex4_value(s: Seq<char>) -> Option<int> {
    match (hex_digit_value(s[0]), hex_digit_value(s[1]), hex_digit_value(s[2]), hex_digit_value(
        s[3],
    )) {
        (Some(a), Some(b), Some(c), Some(d)) => Some(a * 4096 + b * 256 + c * 16 + d),
        _ => None,
    }
}

/// The unescaped form of a text, scanned left to right.
///
/// A `\u` escape whose four digits name a Unicode scalar value yields that
/// character; one with non-hexadecimal digits or a surrogate value yields
/// `?`; one truncated by the end of the input yields `?` and ends the
/// output there.  A backslash at the very end is passed through literally.
pub open spec fn spec_unescape(s: Seq<char>) -> Seq<char>
    decreases s.len(),
{
    if s.len() == 0 {
        Seq::empty()
    } else if s[0] != '\\' {
        seq![s[0]] + spec_unescape(s.drop_first())
    } else if s.len() == 1 {
        seq!['\\']
    } else if s[1] == 'u' {
        if s.len() < 6 {
            seq!['?']
        } else {
            let piece = match hex4_value(s.subrange(2, 6)) {
                Some(n) => if vstd::utf8::is_scalar(n as u32) {
                    seq![(n as u32) as char]
                } else {
                    seq!['?']
                },
                None => seq!['?'],
            };
            piece + spec_unescape(s.skip(6))
        }
    } else {
        seq![spec_unescape_pair(s[1])] + spec_unescape(s.skip(2))
    }
}

/// One hexadecimal digit's value, or `None`.
fn hex_digit(c: char) -> (r: Option<u32>)
    ensures
        match hex_digit_value(c) {
            Some(v) => r is Some && r->0 as int == v && 0 <= v < 16,
            None => r is None,
        },
{
    let u: u32 = c as u32;
    if 48 <= u && u <= 57 {
        Some(u - 48)
    } else if 97 <= u && u <= 102 {
        Some(u - 97 + 10)
    } else if 65 <= u && u <= 70 {
        Some(u - 65 + 10)
    } else {
        None
    }
}

/// The literal for one escape character.
fn unescape_one(c: char) -> (r: char)
    ensures
        r == spec_unescape_pair(c),
{
    if c == 'b' {
        '\u{8}'
    } else if c == 'f' {
        '\u{c}'
    } else if c == 'n' {
        '\n'
    } else if c == 'r' {
        '\r'
    } else if c == 't' {
        '\t'
    } else {
        c
    }
}

/// Escapes a character vector.
pub fn escape_chars(input: &Vec<char>) -> (out: Vec<char>)
    ensures
        out@ == spec_escape(input@),
{
    let n: usize = input.len();
    let mut out: Vec<char> = Vec::new();
    let mut i: usize = 0;
    proof {
        assert(input@.skip(0) =~= input@);
    }
    while i < n
        invariant
            n == input@.len(),
            i <= n,
            spec_escape(input@) == out@ + spec_escape(input@.skip(i as int)),
        decreases n - i,
    {
        let c = input[i];
        proof {
            assert(input@.skip(i as int)[0] == input@[i as int]);
            assert(input@.skip(i as int).drop_first() =~= input@.skip(i + 1));
        }
        if c == '"' {
            out.push('\\');
            out.push('"');
        } else if c == '\\' {
            out.push('\\');
            out.push('\\');
        } else if c == '\u{8}' {
            out.push('\\');
            out.push('b');
        } else if c == '\u{c}' {
            out.push('\\');
            out.push('f');
        } else if c == '\n' {
            out.push('\\');
            out.push('n');
        } else if c == '\r' {
            out.push('\\');
            out.push('r');
        } else if c == '\t' {
            out.push('\\');
            out.push('t');
        } else {
            out.push(c);
        }
        i = i + 1;
        proof {
            assert(spec_escape(input@) =~= out@ + spec_escape(input@.skip(i as int)));
        }
    }
    proof {
        assert(spec_escape(input@.skip(n as int)) =~= Seq::<char>::empty());
        assert(out@ =~= spec_escape(input@));
    }
    out
}

/// Unescapes a character vector.
pub fn unescape_chars(input: &Vec<char>) -> (out: Vec<char>)
    ensures
        out@ == spec_unescape(input@),
{
    let n: usize = input.len();
    let mut out: Vec<char> = Vec::new();
    let mut i: usize = 0;
    proof {
        assert(input@.skip(0) =~= input@);
    }
    while i < n
        invariant
            n == input@.len(),
            i <= n,
            spec_unescape(input@) == out@ + spec_unescape(input@.skip(i as int)),
        decreases n - i,
    {
        let ghost rem = input@.skip(i as int);
        let c = input[i];
        proof {
            assert(rem[0] == input@[i as int]);
            assert(rem.drop_first() =~= input@.skip(i + 1));
        }
        if c != '\\' {
            out.push(c);
            i = i + 1;
        } else if i + 1 == n {
            // a backslash with nothing after it is emitted literally
            out.push('\\');
            i = i + 1;
        } else {
            let e = input[i + 1];
            proof {
                assert(rem[1] == input@[i + 1]);
                assert(rem.len() >= 2);
            }
            if e == 'u' {
                if n - i < 6 {
                    // truncated mid-escape: a placeholder, and nothing after it
                    out.push('?');
                    proof {
                        assert(rem.len() < 6);
                        assert(spec_unescape(rem) == seq!['?']);
                    }
                    i = n;
                } else {
                    proof {
                        assert(rem.subrange(2, 6) =~= input@.subrange(i + 2, i + 6));
                        assert(rem.skip(6) =~= input@.skip(i + 6));
                    }
                    let d0 = hex_digit(input[i + 2]);
                    let d1 = hex_digit(input[i + 3]);
                    let d2 = hex_digit(input[i + 4]);
                    let d3 = hex_digit(input[i + 5]);
                    proof {
                        assert(input@.subrange(i + 2, i + 6)[0] == input@[i + 2]);
                        assert(input@.subrange(i + 2, i + 6)[1] == input@[i + 3]);
                        assert(input@.subrange(i + 2, i + 6)[2] == input@[i + 4]);
                        assert(input@.subrange(i + 2, i + 6)[3] == input@[i + 5]);
                    }
                    match (d0, d1, d2, d3) {
                        (Some(a), Some(b), Some(cc), Some(d)) => {
                            let v: u32 = a * 4096 + b * 256 + cc * 16 + d;
                            proof {
                                assert(hex4_value(input@.subrange(i + 2, i + 6)) == Some(
                                    v as int,
                                ));
                            }
                            match char_from_u32(v) {
                                Some(ch) => {
                                    proof {
                                        vstd::utf8::char_u32_cast(ch, v);
                                    }
                                    out.push(ch);
                                },
                                None => out.push('?'),
                            }
                        },
                        _ => {
                            out.push('?');
                        },
                    }
                    i = i + 6;
                }
            } else {
                proof {
                    assert(rem.skip(2) =~= input@.skip(i + 2));
                }
                out.push(unescape_one(e));
                i = i + 2;
            }
        }
        proof {
            assert(spec_unescape(input@) =~= out@ + spec_unescape(input@.skip(i as int)));
        }
    }
    proof {
        assert(spec_unescape(input@.skip(n as int)) =~= Seq::<char>::empty());
        assert(out@ =~= spec_unescape(input@));
    }
    out
}

/// Escapes a text: pure and total.
pub fn escape(s: &str) -> (r: String)
    ensures
        r@ == spec_escape(s@),
{
    let cs = chars_of(s);
    let out = escape_chars(&cs);
    string_from_chars(out)
}

/// Unescapes a text: pure and total, never an error.
pub fn unescape(s: &str) -> (r: String)
    ensures
        r@ == spec_unescape(s@),
{
    let cs = chars_of(s);
    let out = unescape_chars(&cs);
    string_from_chars(out)
}

/// Unescaping an escaped text restores it exactly, whatever the text:
/// every escape the escaper emits is one the unescaper maps back.
pub proof fn lemma_unescape_escape(text: Seq<char>)
    ensures
        spec_unescape(spec_escape(text)) == text,
    decreases text.len(),
{
    if text.len() == 0 {
    } else {
        let c = text[0];
        let rest = text.drop_first();
        lemma_unescape_escape(rest);
        let s = spec_escape(text);
        assert(s == spec_escape_char(c) + spec_escape(rest));
        if c == '"' || c == '\\' || c == '\u{8}' || c == '\u{c}' || c == '\n' || c == '\r' || c
            == '\t' {
            assert(spec_escape_char(c).len() == 2);
            assert(s[0] == '\\');
            assert(s[1] == spec_escape_char(c)[1]);
            assert(s[1] != 'u');
            assert(s.skip(2) =~= spec_escape(rest));
            assert(spec_unescape_pair(s[1]) == c);
            assert(spec_unescape(s) =~= text);
        } else {
            assert(spec_escape_char(c) =~= seq![c]);
            assert(s[0] == c);
            assert(s.drop_first() =~= spec_escape(rest));
            assert(spec_unescape(s) =~= text);
        }
    }
}

} // verus!
