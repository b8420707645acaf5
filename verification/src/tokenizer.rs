//! The tokenizer: scans raw text left to right and eagerly produces the
//! finite ordered sequence of lexemes.
//!
//! A single scan step first skips whitespace, then tries, in order: a
//! one-character structural token, the literals `true`, `null` and
//! `false`, a string, and a number (the floating-point grammar before the
//! plain integer grammar, so a literal with a fraction or an exponent is
//! never taken for an integer).  When nothing matches, scanning stops:
//! end of input and a malformed head are treated alike, and the lexeme
//! sequence is simply cut short there.
//!
//! An integer literal whose value does not fit a signed 64-bit integer is
//! not turned into a lexeme; the scan stops at it, like at any other
//! unusable head.

use vstd::prelude::*;

use crate::chars::{chars_of, string_from_chars};
use crate::number::{Number, NumberModel};
use crate::string::{spec_unescape, unescape_chars};
use crate::token::{tokens_view, Token, TokenModel};

verus! {

/// JSON whitespace: space, tab, line feed, carriage return.
pub open spec fn is_ws(c: char) -> bool {
    c == ' ' || c == '\t' || c == '\n' || c == '\r'
}

/// A decimal digit.
pub open spec fn is_digit_char(c: char) -> bool {
    48 <= (c as u32) as int <= 57
}

/// The value of a decimal digit.
pub open spec fn digit_val(c: char) -> int {
    (c as u32) as int - 48
}

/// The first index at or after `i` holding no whitespace.
pub open spec fn skip_ws(text: Seq<char>, i: int) -> int
    decreases text.len() - i,
{
    if 0 <= i < text.len() && is_ws(text[i]) {
        skip_ws(text, i + 1)
    } else {
        i
    }
}

/// The first index at or after `i` holding no digit.
pub open spec fn digits_end(text: Seq<char>, i: int) -> int
    decreases text.len() - i,
{
    if 0 <= i < text.len() && is_digit_char(text[i]) {
        digits_end(text, i + 1)
    } else {
        i
    }
}

/// The lexeme a single structural character stands for.
pub open spec fn structural_token(c: char) -> Option<TokenModel> {
    if c == '[' {
        Some(TokenModel::BeginArray)
    } else if c == ']' {
        Some(TokenModel::EndArray)
    } else if c == '{' {
        Some(TokenModel::BeginObject)
    } else if c == '}' {
        Some(TokenModel::EndObject)
    } else if c == ':' {
        Some(TokenModel::NameSeparator)
    } else if c == ',' {
        Some(TokenModel::ValueSeparator)
    } else {
        None
    }
}

/// An exact match of `true`, `null` or `false` at `i`, with the index
/// just past it.
pub open spec fn scan_keyword(text: Seq<char>, i: int) -> Option<(TokenModel, int)> {
    if 0 <= i && i + 4 <= text.len() && text[i] == 't' && text[i + 1] == 'r' && text[i + 2] == 'u'
        && text[i + 3] == 'e' {
        Some((TokenModel::True, i + 4))
    } else if 0 <= i && i + 4 <= text.len() && text[i] == 'n' && text[i + 1] == 'u' && text[i + 2]
        == 'l' && text[i + 3] == 'l' {
        Some((TokenModel::Null, i + 4))
    } else if 0 <= i && i + 5 <= text.len() && text[i] == 'f' && text[i + 1] == 'a' && text[i + 2]
        == 'l' && text[i + 3] == 's' && text[i + 4] == 'e' {
        Some((TokenModel::False, i + 5))
    } else {
        None
    }
}

/// The index of the closing quote of a string body starting at `i`, where
/// a backslash skips the character after it; `None` when the input ends
/// first.
pub open spec fn string_body_end(text: Seq<char>, i: int) -> Option<int>
    decreases text.len() - i,
{
    if !(0 <= i < text.len()) {
        None
    } else if text[i] == '"' {
        Some(i)
    } else if text[i] == '\\' {
        if i + 2 <= text.len() {
            string_body_end(text, i + 2)
        } else {
            None
        }
    } else {
        string_body_end(text, i + 1)
    }
}

/// The index after an optional leading minus sign.
pub open spec fn signed_start(text: Seq<char>, i: int) -> int {
    if 0 <= i < text.len() && text[i] == '-' {
        i + 1
    } else {
        i
    }
}

/// The end of an integer part at `i`: a lone `0`, or a nonzero digit
/// followed by any digits.
pub open spec fn int_part_end(text: Seq<char>, i: int) -> Option<int> {
    if !(0 <= i < text.len()) {
        None
    } else if text[i] == '0' {
        Some(i + 1)
    } else if 49 <= (text[i] as u32) as int <= 57 {
        Some(digits_end(text, i + 1))
    } else {
        None
    }
}

/// The end of a fractional part at `k`: a dot followed by one or more
/// digits.
pub open spec fn frac_end(text: Seq<char>, k: int) -> Option<int> {
    if 0 <= k && k + 1 < text.len() && text[k] == '.' && is_digit_char(text[k + 1]) {
        Some(digits_end(text, k + 1))
    } else {
        None
    }
}

/// The end of an exponent part at `m`: `e` or `E`, an optional sign, and
/// one or more digits.
pub open spec fn exp_end(text: Seq<char>, m: int) -> Option<int> {
    if 0 <= m < text.len() && (text[m] == 'e' || text[m] == 'E') {
        let p = if m + 1 < text.len() && (text[m + 1] == '+' || text[m + 1] == '-') {
            m + 2
        } else {
            m + 1
        };
        if p < text.len() && is_digit_char(text[p]) {
            Some(digits_end(text, p))
        } else {
            None
        }
    } else {
        None
    }
}

/// The end of a floating-point literal at `i`: sign, integer part, then a
/// fraction with an optional exponent, or an exponent alone.  `None` when
/// neither a fraction nor an exponent follows the integer part.
pub open spec fn float_end(text: Seq<char>, i: int) -> Option<int> {
    match int_part_end(text, signed_start(text, i)) {
        None => None,
        Some(k) => match frac_end(text, k) {
            Some(f) => match exp_end(text, f) {
                Some(x) => Some(x),
                None => Some(f),
            },
            None => match exp_end(text, k) {
                Some(x) => Some(x),
                None => None,
            },
        },
    }
}

/// The end of a plain integer literal at `i`: sign and integer part.
pub open spec fn int_end(text: Seq<char>, i: int) -> Option<int> {
    int_part_end(text, signed_start(text, i))
}

/// The value of a run of decimal digits, most significant first.
pub open spec fn digits_value(s: Seq<char>) -> int
    decreases s.len(),
{
    if s.len() == 0 {
        0
    } else {
        digits_value(s.drop_last()) * 10 + digit_val(s.last())
    }
}

/// The value of an integer lexeme: an optional minus sign, then digits.
pub open spec fn int_lex_value(s: Seq<char>) -> int {
    if s.len() > 0 && s[0] == '-' {
        -digits_value(s.drop_first())
    } else {
        digits_value(s)
    }
}

/// The number lexeme at `i`, if any: the floating-point grammar is tried
/// first and carries its lexeme; a plain integer literal is valued, and
/// yields a lexeme only when the value fits a signed 64-bit integer.
pub open spec fn scan_number(text: Seq<char>, i: int) -> Option<(TokenModel, int)> {
    match float_end(text, i) {
        Some(e) => Some((TokenModel::Number(NumberModel::Float(text.subrange(i, e))), e)),
        None => match int_end(text, i) {
            Some(e) => {
                let v = int_lex_value(text.subrange(i, e));
                if i64::MIN as int <= v <= i64::MAX as int {
                    Some((TokenModel::Number(NumberModel::Integer(v)), e))
                } else {
                    None
                }
            },
            None => None,
        },
    }
}

/// The lexeme at position `i` (no whitespace skipped), with the index
/// just past it: a structural character, a keyword, a string, or a
/// number.
pub open spec fn scan_value_at(text: Seq<char>, i: int) -> Option<(TokenModel, int)> {
    if !(0 <= i < text.len()) {
        None
    } else if structural_token(text[i]) is Some {
        Some((structural_token(text[i])->0, i + 1))
    } else if scan_keyword(text, i) is Some {
        scan_keyword(text, i)
    } else if text[i] == '"' {
        match string_body_end(text, i + 1) {
            Some(e) => Some(
                (TokenModel::String(spec_unescape(text.subrange(i + 1, e))), e + 1),
            ),
            None => None,
        }
    } else {
        scan_number(text, i)
    }
}

/// The lexeme sequence from position `i` on: skip whitespace, scan one
/// lexeme, continue after it; stop when nothing matches.
pub open spec fn spec_tokenize_from(text: Seq<char>, i: int) -> Seq<TokenModel>
    decreases text.len() - i,
{
    let j = skip_ws(text, i);
    if j >= text.len() {
        Seq::empty()
    } else {
        match scan_value_at(text, j) {
            None => Seq::empty(),
            Some((t, k)) => if i < k <= text.len() {
                seq![t] + spec_tokenize_from(text, k)
            } else {
                Seq::empty()
            },
        }
    }
}

/// The complete lexeme sequence of a text.
pub open spec fn spec_tokenize(text: Seq<char>) -> Seq<TokenModel> {
    spec_tokenize_from(text, 0)
}

/// Ten to the `n`.
pub open spec fn pow10(n: nat) -> int
    decreases n,
{
    if n == 0 {
        1
    } else {
        10 * pow10((n - 1) as nat)
    }
}

/// Whitespace skipping stays within the text and lands past `i`.
pub proof fn lemma_skip_ws_bounds(text: Seq<char>, i: int)
    requires
        0 <= i <= text.len(),
    ensures
        i <= skip_ws(text, i) <= text.len(),
    decreases text.len() - i,
{
    if 0 <= i < text.len() && is_ws(text[i]) {
        lemma_skip_ws_bounds(text, i + 1);
    }
}

/// Skipping whitespace twice is skipping it once.
pub proof fn lemma_skip_ws_idempotent(text: Seq<char>, i: int)
    ensures
        skip_ws(text, skip_ws(text, i)) == skip_ws(text, i),
    decreases text.len() - i,
{
    if 0 <= i < text.len() && is_ws(text[i]) {
        lemma_skip_ws_idempotent(text, i + 1);
    }
}

/// Leading whitespace never changes the lexemes: scanning from a
/// position and from the first non-whitespace position at or after it
/// give the same sequence.  Each scan step skips whitespace first, so
/// whitespace between lexemes is invisible to the result.
pub proof fn lemma_tokenize_from_skip_ws(text: Seq<char>, i: int)
    ensures
        spec_tokenize_from(text, skip_ws(text, i)) == spec_tokenize_from(text, i),
{
    let j = skip_ws(text, i);
    lemma_skip_ws_idempotent(text, i);
    if 0 <= i <= text.len() {
        lemma_skip_ws_bounds(text, i);
        if j < text.len() && scan_value_at(text, j) is Some {
            lemma_scan_advance(text, j);
        }
    }
}

/// A digit run stays within the text, and every character in it is a
/// digit.
pub proof fn lemma_digits_end_bounds(text: Seq<char>, i: int)
    requires
        0 <= i <= text.len(),
    ensures
        i <= digits_end(text, i) <= text.len(),
        forall|j: int| i <= j < digits_end(text, i) ==> is_digit_char(text[j]),
    decreases text.len() - i,
{
    if 0 <= i < text.len() && is_digit_char(text[i]) {
        lemma_digits_end_bounds(text, i + 1);
    }
}

/// A found closing quote lies within the text, past the body's start.
pub proof fn lemma_string_body_end_bounds(text: Seq<char>, i: int)
    requires
        0 <= i,
        string_body_end(text, i) is Some,
    ensures
        i <= string_body_end(text, i)->0 < text.len(),
        text[string_body_end(text, i)->0] == '"',
    decreases text.len() - i,
{
    if 0 <= i < text.len() {
        if text[i] == '"' {
        } else if text[i] == '\\' {
            if i + 2 <= text.len() {
                lemma_string_body_end_bounds(text, i + 2);
            }
        } else {
            lemma_string_body_end_bounds(text, i + 1);
        }
    }
}

/// A matched number ends within the text, past its start.
pub proof fn lemma_number_end_bounds(text: Seq<char>, i: int)
    requires
        0 <= i <= text.len(),
    ensures
        float_end(text, i) is Some ==> i < float_end(text, i)->0 <= text.len(),
        int_end(text, i) is Some ==> i < int_end(text, i)->0 <= text.len(),
{
    let j = signed_start(text, i);
    if int_part_end(text, j) is Some {
        let k = int_part_end(text, j)->0;
        if !(0 <= j < text.len() && text[j] == '0') {
            lemma_digits_end_bounds(text, j + 1);
        }
        assert(j < k <= text.len());
        if frac_end(text, k) is Some {
            lemma_digits_end_bounds(text, k + 1);
        }
        if frac_end(text, k) is Some && exp_end(text, frac_end(text, k)->0) is Some {
            let f = frac_end(text, k)->0;
            let p = if f + 1 < text.len() && (text[f + 1] == '+' || text[f + 1] == '-') {
                f + 2
            } else {
                f + 1
            };
            lemma_digits_end_bounds(text, p);
        }
        if exp_end(text, k) is Some {
            let p = if k + 1 < text.len() && (text[k + 1] == '+' || text[k + 1] == '-') {
                k + 2
            } else {
                k + 1
            };
            lemma_digits_end_bounds(text, p);
        }
    }
}

/// A scanned lexeme ends within the text, past its start.
pub proof fn lemma_scan_advance(text: Seq<char>, i: int)
    requires
        0 <= i < text.len(),
        scan_value_at(text, i) is Some,
    ensures
        ({
            let r = scan_value_at(text, i)->0;
            i < r.1 <= text.len()
        }),
{
    if structural_token(text[i]) is Some {
    } else if scan_keyword(text, i) is Some {
    } else if text[i] == '"' {
        lemma_string_body_end_bounds(text, i + 1);
    } else {
        lemma_number_end_bounds(text, i);
    }
}

/// Ten to the `n` does not shrink as `n` grows.
pub proof fn lemma_pow10_mono(a: nat, b: nat)
    requires
        a <= b,
    ensures
        0 < pow10(a) <= pow10(b),
    decreases b,
{
    if b > 0 {
        if a == b {
            lemma_pow10_mono((a - 1) as nat, (b - 1) as nat);
        } else {
            lemma_pow10_mono(a, (b - 1) as nat);
        }
    }
}

/// The two powers of ten that bracket the 64-bit signed range.
pub proof fn lemma_pow10_values()
    ensures
        pow10(18) == 1_000_000_000_000_000_000,
        pow10(19) == 10_000_000_000_000_000_000,
{
    assert(pow10(0) == 1);
    assert(pow10(1) == 10);
    assert(pow10(2) == 100);
    assert(pow10(3) == 1000);
    assert(pow10(4) == 10000);
    assert(pow10(5) == 100000);
    assert(pow10(6) == 1000000);
    assert(pow10(7) == 10000000);
    assert(pow10(8) == 100000000);
    assert(pow10(9) == 1000000000);
    assert(pow10(10) == 10000000000);
    assert(pow10(11) == 100000000000);
    assert(pow10(12) == 1000000000000);
    assert(pow10(13) == 10000000000000);
    assert(pow10(14) == 100000000000000);
    assert(pow10(15) == 1000000000000000);
    assert(pow10(16) == 10000000000000000);
    assert(pow10(17) == 100000000000000000);
    assert(pow10(18) == 1000000000000000000);
    assert(pow10(19) == 10000000000000000000);
}

/// A digit run's value is bounded by ten to its length.
pub proof fn lemma_digits_value_upper(s: Seq<char>)
    requires
        forall|j: int| 0 <= j < s.len() ==> is_digit_char(s[j]),
    ensures
        0 <= digits_value(s) < pow10(s.len()),
    decreases s.len(),
{
    if s.len() > 0 {
        lemma_digits_value_upper(s.drop_last());
    }
}

/// A digit run with a nonzero leading digit is worth at least ten to one
/// less than its length.
pub proof fn lemma_digits_value_lower(s: Seq<char>)
    requires
        s.len() > 0,
        forall|j: int| 0 <= j < s.len() ==> is_digit_char(s[j]),
        digit_val(s[0]) >= 1,
    ensures
        digits_value(s) >= pow10((s.len() - 1) as nat),
    decreases s.len(),
{
    if s.len() == 1 {
    } else {
        assert(forall|j: int| 0 <= j < s.drop_last().len() ==> s.drop_last()[j] == s[j]);
        lemma_digits_value_lower(s.drop_last());
        assert(is_digit_char(s[s.len() - 1]));
        assert(digit_val(s.last()) >= 0);
        assert(pow10((s.len() - 1) as nat) == 10 * pow10((s.len() - 2) as nat));
        assert(digits_value(s.drop_last()) * 10 >= pow10((s.len() - 2) as nat) * 10)
            by (nonlinear_arith)
            requires
                digits_value(s.drop_last()) >= pow10((s.len() - 2) as nat),
                s.len() >= 2,
        ;
    }
}

/// A single scan over one text: the character buffer and a cursor.
pub struct Tokenizer {
    pub text: Vec<char>,
    pub index: usize,
}

impl Tokenizer {
    /// The cursor never leaves the buffer.
    pub open spec fn wf(&self) -> bool {
        self.index <= self.text@.len()
    }

    /// A fresh scan over `text`, positioned at its start.
    pub fn new(text: &str) -> (r: Self)
        ensures
            r.text@ == text@,
            r.index == 0,
            r.wf(),
    {
        Tokenizer { text: chars_of(text), index: 0 }
    }

    /// Skips whitespace; `None` when that reached the end of the text.
    pub fn consume_whitespaces(&mut self) -> (r: Option<()>)
        requires
            old(self).wf(),
        ensures
            final(self).text == old(self).text,
            final(self).wf(),
            final(self).index as int == skip_ws(old(self).text@, old(self).index as int),
            r is Some <==> final(self).index < old(self).text@.len(),
    {
        let n: usize = self.text.len();
        loop
            invariant
                self.text == old(self).text,
                n == self.text@.len(),
                self.index <= n,
                skip_ws(old(self).text@, old(self).index as int) == skip_ws(
                    self.text@,
                    self.index as int,
                ),
            decreases n - self.index,
        {
            if self.index >= n {
                return None;
            }
            let c = self.text[self.index];
            if c == ' ' || c == '\t' || c == '\n' || c == '\r' {
                self.index = self.index + 1;
            } else {
                return Some(());
            }
        }
    }

    /// A one-character structural lexeme at the cursor, if any.
    pub fn consume_char(&mut self) -> (r: Option<Token>)
        requires
            old(self).wf(),
        ensures
            final(self).text == old(self).text,
            final(self).wf(),
            ({
                let text = old(self).text@;
                let i = old(self).index as int;
                if i < text.len() && structural_token(text[i]) is Some {
                    r is Some && r->0@ == structural_token(text[i])->0 && final(self).index == i
                        + 1
                } else {
                    r is None && final(self).index == i
                }
            }),
    {
        if self.index >= self.text.len() {
            return None;
        }
        let c = self.text[self.index];
        let token: Option<Token> = if c == '[' {
            Some(Token::BeginArray)
        } else if c == ']' {
            Some(Token::EndArray)
        } else if c == '{' {
            Some(Token::BeginObject)
        } else if c == '}' {
            Some(Token::EndObject)
        } else if c == ':' {
            Some(Token::NameSeparator)
        } else if c == ',' {
            Some(Token::ValueSeparator)
        } else {
            None
        };
        if token.is_some() {
            self.index = self.index + 1;
        }
        token
    }

    /// An exact `true`, `null` or `false` at the cursor, if any.
    pub fn consume_bool_and_null(&mut self) -> (r: Option<Token>)
        requires
            old(self).wf(),
        ensures
            final(self).text == old(self).text,
            final(self).wf(),
            ({
                let text = old(self).text@;
                let i = old(self).index as int;
                match scan_keyword(text, i) {
                    Some((tm, k)) => r is Some && r->0@ == tm && final(self).index == k,
                    None => r is None && final(self).index == i,
                }
            }),
    {
        let n: usize = self.text.len();
        let i: usize = self.index;
        if n - i >= 4 {
            if self.text[i] == 't' && self.text[i + 1] == 'r' && self.text[i + 2] == 'u'
                && self.text[i + 3] == 'e' {
                self.index = i + 4;
                return Some(Token::True);
            }
            if self.text[i] == 'n' && self.text[i + 1] == 'u' && self.text[i + 2] == 'l'
                && self.text[i + 3] == 'l' {
                self.index = i + 4;
                return Some(Token::Null);
            }
        }
        if n - i >= 5 {
            if self.text[i] == 'f' && self.text[i + 1] == 'a' && self.text[i + 2] == 'l'
                && self.text[i + 3] == 's' && self.text[i + 4] == 'e' {
                self.index = i + 5;
                return Some(Token::False);
            }
        }
        None
    }

    /// A string lexeme at the cursor, if any: the raw body runs to the
    /// first unescaped quote and is unescaped by the codec.  With no
    /// closing quote before the end of the text, nothing is consumed.
    pub fn consume_string(&mut self) -> (r: Option<Token>)
        requires
            old(self).wf(),
        ensures
            final(self).text == old(self).text,
            final(self).wf(),
            ({
                let text = old(self).text@;
                let i = old(self).index as int;
                if i < text.len() && text[i] == '"' && string_body_end(text, i + 1) is Some {
                    let e = string_body_end(text, i + 1)->0;
                    r is Some && r->0@ == TokenModel::String(
                        spec_unescape(text.subrange(i + 1, e)),
                    ) && final(self).index == e + 1
                } else {
                    r is None && final(self).index == i
                }
            }),
    {
        let n: usize = self.text.len();
        let i: usize = self.index;
        if i >= n || self.text[i] != '"' {
            return None;
        }
        match find_string_end(&self.text, i + 1) {
            None => None,
            Some(e) => {
                proof {
                    lemma_string_body_end_bounds(self.text@, i as int + 1);
                }
                let raw = copy_range(&self.text, i + 1, e);
                let un = unescape_chars(&raw);
                let s = string_from_chars(un);
                self.index = e + 1;
                Some(Token::String(s))
            },
        }
    }

    /// A number lexeme at the cursor, if any: the floating-point grammar
    /// first, then the plain integer grammar.  An integer literal whose
    /// value does not fit a signed 64-bit integer yields nothing, and the
    /// cursor stays put.
    pub fn consume_number(&mut self) -> (r: Option<Token>)
        requires
            old(self).wf(),
        ensures
            final(self).text == old(self).text,
            final(self).wf(),
            ({
                let text = old(self).text@;
                let i = old(self).index as int;
                match scan_number(text, i) {
                    Some((tm, k)) => r is Some && r->0@ == tm && final(self).index == k,
                    None => r is None && final(self).index == i,
                }
            }),
    {
        let i: usize = self.index;
        match find_float_end(&self.text, i) {
            Some(e) => {
                let raw = copy_range(&self.text, i, e);
                let s = string_from_chars(raw);
                self.index = e;
                return Some(Token::Number(Number::Float(s)));
            },
            None => {},
        }
        match find_int_end(&self.text, i) {
            Some(e) => {
                match int_token_value(&self.text, i, e) {
                    Some(x) => {
                        self.index = e;
                        Some(Token::Number(Number::Integer(x)))
                    },
                    None => None,
                }
            },
            None => None,
        }
    }

    /// One scan step: skip whitespace, then the first matching lexeme
    /// form.  `None` -- with the cursor left after the whitespace -- when
    /// the text is exhausted or nothing matches there.
    pub fn consume(&mut self) -> (r: Option<Token>)
        requires
            old(self).wf(),
        ensures
            final(self).text == old(self).text,
            final(self).wf(),
            ({
                let text = old(self).text@;
                let j = skip_ws(text, old(self).index as int);
                match scan_value_at(text, j) {
                    Some((tm, k)) => r is Some && r->0@ == tm && final(self).index == k,
                    None => r is None && final(self).index == j,
                }
            }),
    {
        let ws = self.consume_whitespaces();
        if ws.is_none() {
            return None;
        }
        match self.consume_char() {
            Some(t) => {
                return Some(t);
            },
            None => {},
        }
        match self.consume_bool_and_null() {
            Some(t) => {
                return Some(t);
            },
            None => {},
        }
        match self.consume_string() {
            Some(t) => {
                return Some(t);
            },
            None => {},
        }
        self.consume_number()
    }

    /// The complete lexeme sequence of `text`: scan steps until nothing
    /// more matches.
    pub fn tokenize(text: &str) -> (r: Vec<Token>)
        ensures
            tokens_view(r@) == spec_tokenize(text@),
    {
        let mut tokenizer = Tokenizer::new(text);
        let mut tokens: Vec<Token> = Vec::new();
        proof {
            assert(tokens_view(tokens@) + spec_tokenize_from(text@, 0) =~= spec_tokenize_from(
                text@,
                0,
            ));
        }
        loop
            invariant
                tokenizer.wf(),
                tokenizer.text@ == text@,
                spec_tokenize(text@) == tokens_view(tokens@) + spec_tokenize_from(
                    text@,
                    tokenizer.index as int,
                ),
            decreases text@.len() - tokenizer.index,
        {
            let ghost i0 = tokenizer.index as int;
            match tokenizer.consume() {
                Some(t) => {
                    proof {
                        let j = skip_ws(text@, i0);
                        lemma_skip_ws_bounds(text@, i0);
                        lemma_scan_advance(text@, j);
                        let (tm, k) = scan_value_at(text@, j)->0;
                        assert(spec_tokenize_from(text@, i0) == seq![tm] + spec_tokenize_from(
                            text@,
                            k,
                        ));
                    }
                    let ghost old_tokens = tokens@;
                    tokens.push(t);
                    proof {
                        assert(tokens_view(tokens@) =~= tokens_view(old_tokens).push(t@));
                        assert(tokens_view(old_tokens) + (seq![t@] + spec_tokenize_from(
                            text@,
                            tokenizer.index as int,
                        )) =~= tokens_view(tokens@) + spec_tokenize_from(
                            text@,
                            tokenizer.index as int,
                        ));
                    }
                },
                None => {
                    proof {
                        assert(spec_tokenize_from(text@, i0) =~= Seq::<TokenModel>::empty());
                        assert(tokens_view(tokens@) + Seq::<TokenModel>::empty() =~= tokens_view(
                            tokens@,
                        ));
                    }
                    return tokens;
                },
            }
        }
    }
}

/// A copy of the characters in `[from, to)`.
fn copy_range(text: &Vec<char>, from: usize, to: usize) -> (r: Vec<char>)
    requires
        from <= to <= text@.len(),
    ensures
        r@ == text@.subrange(from as int, to as int),
{
    let mut r: Vec<char> = Vec::new();
    let mut p: usize = from;
    proof {
        assert(r@ =~= text@.subrange(from as int, from as int));
    }
    while p < to
        invariant
            from <= p <= to <= text@.len(),
            r@ == text@.subrange(from as int, p as int),
        decreases to - p,
    {
        r.push(text[p]);
        p = p + 1;
        proof {
            assert(r@ =~= text@.subrange(from as int, p as int));
        }
    }
    r
}

/// The closing quote of a string body starting at `from`, if any.
fn find_string_end(text: &Vec<char>, from: usize) -> (r: Option<usize>)
    requires
        from <= text@.len(),
    ensures
        match string_body_end(text@, from as int) {
            Some(e) => r is Some && r->0 as int == e,
            None => r is None,
        },
{
    let n: usize = text.len();
    let mut j: usize = from;
    loop
        invariant
            from <= j <= n,
            n == text@.len(),
            string_body_end(text@, from as int) == string_body_end(text@, j as int),
        decreases n - j,
    {
        if j >= n {
            return None;
        }
        let c = text[j];
        if c == '"' {
            return Some(j);
        }
        if c == '\\' {
            if n - j >= 2 {
                j = j + 2;
            } else {
                return None;
            }
        } else {
            j = j + 1;
        }
    }
}

/// The end of the digit run starting at `from`.
fn scan_digits(text: &Vec<char>, from: usize) -> (r: usize)
    requires
        from <= text@.len(),
    ensures
        r as int == digits_end(text@, from as int),
        from <= r <= text@.len(),
{
    let n: usize = text.len();
    let mut j: usize = from;
    loop
        invariant
            from <= j <= n,
            n == text@.len(),
            digits_end(text@, from as int) == digits_end(text@, j as int),
        decreases n - j,
    {
        if j >= n {
            return j;
        }
        let u: u32 = text[j] as u32;
        if 48 <= u && u <= 57 {
            j = j + 1;
        } else {
            return j;
        }
    }
}

/// The end of an integer part at `i`, if any.
fn find_int_part_end(text: &Vec<char>, i: usize) -> (r: Option<usize>)
    requires
        i <= text@.len(),
    ensures
        match int_part_end(text@, i as int) {
            Some(e) => r is Some && r->0 as int == e && i < e <= text@.len(),
            None => r is None,
        },
{
    let n: usize = text.len();
    if i >= n {
        return None;
    }
    let c = text[i];
    if c == '0' {
        return Some(i + 1);
    }
    let u: u32 = c as u32;
    if 49 <= u && u <= 57 {
        Some(scan_digits(text, i + 1))
    } else {
        None
    }
}

/// The end of a fractional part at `k`, if any.
fn find_frac_end(text: &Vec<char>, k: usize) -> (r: Option<usize>)
    requires
        k <= text@.len(),
    ensures
        match frac_end(text@, k as int) {
            Some(e) => r is Some && r->0 as int == e && k < e <= text@.len(),
            None => r is None,
        },
{
    let n: usize = text.len();
    if k < n && n - k >= 2 && text[k] == '.' {
        let u: u32 = text[k + 1] as u32;
        if 48 <= u && u <= 57 {
            return Some(scan_digits(text, k + 1));
        }
    }
    None
}

/// The end of an exponent part at `m`, if any.
fn find_exp_end(text: &Vec<char>, m: usize) -> (r: Option<usize>)
    requires
        m <= text@.len(),
    ensures
        match exp_end(text@, m as int) {
            Some(e) => r is Some && r->0 as int == e && m < e <= text@.len(),
            None => r is None,
        },
{
    let n: usize = text.len();
    if m < n && (text[m] == 'e' || text[m] == 'E') {
        let p: usize = if m + 1 < n && (text[m + 1] == '+' || text[m + 1] == '-') {
            m + 2
        } else {
            m + 1
        };
        if p < n {
            let u: u32 = text[p] as u32;
            if 48 <= u && u <= 57 {
                return Some(scan_digits(text, p));
            }
        }
    }
    None
}

/// The end of a floating-point literal at `i`, if any.
fn find_float_end(text: &Vec<char>, i: usize) -> (r: Option<usize>)
    requires
        i <= text@.len(),
    ensures
        match float_end(text@, i as int) {
            Some(e) => r is Some && r->0 as int == e && i < e <= text@.len(),
            None => r is None,
        },
{
    let n: usize = text.len();
    let j: usize = if i < n && text[i] == '-' {
        i + 1
    } else {
        i
    };
    match find_int_part_end(text, j) {
        None => None,
        Some(k) => {
            match find_frac_end(text, k) {
                Some(f) => {
                    match find_exp_end(text, f) {
                        Some(x) => Some(x),
                        None => Some(f),
                    }
                },
                None => {
                    match find_exp_end(text, k) {
                        Some(x) => Some(x),
                        None => None,
                    }
                },
            }
        },
    }
}

/// The signed 64-bit value of the integer lexeme in `[i, e)`, or `None`
/// when the literal's value does not fit.
fn int_token_value(text: &Vec<char>, i: usize, e: usize) -> (r: Option<i64>)
    requires
        i < e <= text@.len(),
        int_end(text@, i as int) == Some(e as int),
    ensures
        ({
            let v = int_lex_value(text@.subrange(i as int, e as int));
            match r {
                Some(x) => x as int == v && i64::MIN as int <= v <= i64::MAX as int,
                None => !(i64::MIN as int <= v <= i64::MAX as int),
            }
        }),
{
    let neg: bool = text[i] == '-';
    let id: usize = if neg {
        i + 1
    } else {
        i
    };
    proof {
        assert(signed_start(text@, i as int) == id as int);
        assert(int_part_end(text@, id as int) == Some(e as int));
        if text@[id as int] == '0' {
            assert(e == id + 1);
        } else {
            lemma_digits_end_bounds(text@, id as int + 1);
        }
        assert(forall|j: int| id <= j < e ==> is_digit_char(text@[j]));
    }
    let ghost sd = text@.subrange(id as int, e as int);
    let ghost s = text@.subrange(i as int, e as int);
    proof {
        assert(forall|j: int| 0 <= j < sd.len() ==> sd[j] == text@[id + j]);
        assert(s[0] == text@[i as int]);
        if neg {
            assert(s.drop_first() =~= sd);
        } else {
            assert(s =~= sd);
        }
    }
    let dl: usize = e - id;
    if dl > 19 {
        proof {
            // a `0` head would have ended the run at once, so the leading
            // digit is nonzero and the magnitude exceeds the 64-bit range
            assert(text@[id as int] != '0');
            assert(digit_val(sd[0]) >= 1);
            lemma_digits_value_lower(sd);
            lemma_pow10_mono(19, (sd.len() - 1) as nat);
            lemma_pow10_values();
        }
        return None;
    }
    let mut acc: u64 = 0;
    let mut p: usize = id;
    proof {
        assert(text@.subrange(id as int, id as int) =~= Seq::<char>::empty());
    }
    while p < e
        invariant
            i < e <= text@.len(),
            id <= p <= e,
            id <= e,
            dl == e - id,
            dl <= 19,
            sd == text@.subrange(id as int, e as int),
            forall|j: int| id <= j < e ==> is_digit_char(text@[j]),
            acc as int == digits_value(text@.subrange(id as int, p as int)),
            (acc as int) < pow10((p - id) as nat),
        decreases e - p,
    {
        let u: u32 = text[p] as u32;
        proof {
            assert(is_digit_char(text@[p as int]));
        }
        let d: u64 = (u - 48) as u64;
        proof {
            assert(d as int == digit_val(text@[p as int]));
            lemma_pow10_mono((p - id) as nat, 18);
            lemma_pow10_values();
        }
        let ghost prev = text@.subrange(id as int, p as int);
        acc = acc * 10 + d;
        p = p + 1;
        proof {
            let cur = text@.subrange(id as int, p as int);
            assert(cur.drop_last() =~= prev);
            assert(cur.last() == text@[p - 1]);
            assert(pow10((p - id) as nat) == 10 * pow10((p - 1 - id) as nat));
        }
    }
    proof {
        assert(acc as int == digits_value(sd));
        assert(forall|j: int| 0 <= j < sd.len() ==> is_digit_char(sd[j]));
        lemma_digits_value_upper(sd);
    }
    if neg {
        if acc > 9_223_372_036_854_775_808u64 {
            None
        } else if acc == 9_223_372_036_854_775_808u64 {
            Some(i64::MIN)
        } else {
            Some(-(acc as i64))
        }
    } else {
        if acc > 9_223_372_036_854_775_807u64 {
            None
        } else {
            Some(acc as i64)
        }
    }
}

/// The end of a plain integer literal at `i`, if any.
fn find_int_end(text: &Vec<char>, i: usize) -> (r: Option<usize>)
    requires
        i <= text@.len(),
    ensures
        match int_end(text@, i as int) {
            Some(e) => r is Some && r->0 as int == e && i < e <= text@.len(),
            None => r is None,
        },
{
    let n: usize = text.len();
    let j: usize = if i < n && text[i] == '-' {
        i + 1
    } else {
        i
    };
    find_int_part_end(text, j)
}

} // verus!
