//! The recursive-descent parser: a single pass over the lexeme sequence
//! with one token of lookahead, building a value tree.
//!
//! Grammar:
//! ```text
//! value  := True | False | Null | Number | String | array | object
//! array  := '[' (value (',' value)*)? ']'
//! object := '{' (member (',' member)*)? '}'
//! member := String ':' value
//! ```
//!
//! `parse` tokenizes, parses exactly one `value`, and requires the lexeme
//! sequence to be fully consumed.  The first error aborts the whole
//! parse: end of the lexeme sequence where a token was required is
//! `UnexpectedEOF`, a token that does not fit the grammar position is
//! `UnexpectedToken`.

use vstd::prelude::*;

use crate::chars::str_eq;
use crate::json_value::{elems_view, pairs_view, JSONValue, ValueModel};
use crate::parser_error::{ParserError, ParserErrorKind};
use crate::token::{tokens_view, Token, TokenModel};
use crate::tokenizer::{spec_tokenize, Tokenizer};

verus! {

/// Last-write-wins insertion into an object's pair sequence: a later
/// occurrence of a key overwrites the value at the key's first position;
/// a new key is appended.
pub open spec fn obj_insert(
    pairs: Seq<(Seq<char>, ValueModel)>,
    k: Seq<char>,
    v: ValueModel,
) -> Seq<(Seq<char>, ValueModel)>
    decreases pairs.len(),
{
    if pairs.len() == 0 {
        seq![(k, v)]
    } else if pairs[0].0 == k {
        seq![(k, v)] + pairs.drop_first()
    } else {
        seq![pairs[0]] + obj_insert(pairs.drop_first(), k, v)
    }
}

/// One `value` at position `i` of the lexeme sequence, with the position
/// just past it.
pub open spec fn spec_parse_value(ts: Seq<TokenModel>, i: int) -> Result<
    (ValueModel, int),
    ParserErrorKind,
>
    decreases ts.len() - i, 2int,
{
    if !(0 <= i < ts.len()) {
        Err(ParserErrorKind::UnexpectedEOF)
    } else {
        match ts[i] {
            TokenModel::True => Ok((ValueModel::True, i + 1)),
            TokenModel::False => Ok((ValueModel::False, i + 1)),
            TokenModel::Null => Ok((ValueModel::Null, i + 1)),
            TokenModel::Number(n) => Ok((ValueModel::Number(n), i + 1)),
            TokenModel::String(s) => Ok((ValueModel::String(s), i + 1)),
            TokenModel::BeginArray => spec_parse_array(ts, i),
            TokenModel::BeginObject => spec_parse_object(ts, i),
            _ => Err(ParserErrorKind::UnexpectedToken),
        }
    }
}

/// An `array` at position `i`: `[`, an optional first element and
/// element list, `]`.
pub open spec fn spec_parse_array(ts: Seq<TokenModel>, i: int) -> Result<
    (ValueModel, int),
    ParserErrorKind,
>
    decreases ts.len() - i, 1int,
{
    if !(0 <= i < ts.len()) {
        Err(ParserErrorKind::UnexpectedEOF)
    } else if !(ts[i] is BeginArray) {
        Err(ParserErrorKind::UnexpectedToken)
    } else if i + 1 >= ts.len() {
        Err(ParserErrorKind::UnexpectedEOF)
    } else if ts[i + 1] is EndArray {
        Ok((ValueModel::Array(Seq::empty()), i + 2))
    } else {
        match spec_parse_value(ts, i + 1) {
            Err(e) => Err(e),
            Ok((v, j)) => if i + 1 < j <= ts.len() {
                spec_parse_elems(ts, j, seq![v])
            } else {
                Err(ParserErrorKind::UnexpectedToken)
            },
        }
    }
}

/// The rest of an array after at least one element: `,`-led elements
/// until `]`.
pub open spec fn spec_parse_elems(ts: Seq<TokenModel>, i: int, acc: Seq<ValueModel>) -> Result<
    (ValueModel, int),
    ParserErrorKind,
>
    decreases ts.len() - i, 0int,
{
    if 0 <= i < ts.len() && ts[i] is ValueSeparator {
        match spec_parse_value(ts, i + 1) {
            Err(e) => Err(e),
            Ok((v, j)) => if i + 1 < j <= ts.len() {
                spec_parse_elems(ts, j, acc.push(v))
            } else {
                Err(ParserErrorKind::UnexpectedToken)
            },
        }
    } else if 0 <= i < ts.len() && ts[i] is EndArray {
        Ok((ValueModel::Array(acc), i + 1))
    } else if !(0 <= i < ts.len()) {
        Err(ParserErrorKind::UnexpectedEOF)
    } else {
        Err(ParserErrorKind::UnexpectedToken)
    }
}

/// One `member` at position `i`: a string key, `:`, a value.
pub open spec fn spec_parse_kv(ts: Seq<TokenModel>, i: int) -> Result<
    ((Seq<char>, ValueModel), int),
    ParserErrorKind,
>
    decreases ts.len() - i, 0int,
{
    if !(0 <= i < ts.len()) {
        Err(ParserErrorKind::UnexpectedEOF)
    } else if !(ts[i] is String) {
        Err(ParserErrorKind::UnexpectedToken)
    } else if i + 1 >= ts.len() {
        Err(ParserErrorKind::UnexpectedEOF)
    } else if !(ts[i + 1] is NameSeparator) {
        Err(ParserErrorKind::UnexpectedToken)
    } else {
        match spec_parse_value(ts, i + 2) {
            Err(e) => Err(e),
            Ok((v, j)) => Ok(((ts[i]->String_0, v), j)),
        }
    }
}

/// An `object` at position `i`: `{`, an optional first member and member
/// list, `}`.
pub open spec fn spec_parse_object(ts: Seq<TokenModel>, i: int) -> Result<
    (ValueModel, int),
    ParserErrorKind,
>
    decreases ts.len() - i, 1int,
{
    if !(0 <= i < ts.len()) {
        Err(ParserErrorKind::UnexpectedEOF)
    } else if !(ts[i] is BeginObject) {
        Err(ParserErrorKind::UnexpectedToken)
    } else if i + 1 >= ts.len() {
        Err(ParserErrorKind::UnexpectedEOF)
    } else if ts[i + 1] is EndObject {
        Ok((ValueModel::Object(Seq::empty()), i + 2))
    } else {
        match spec_parse_kv(ts, i + 1) {
            Err(e) => Err(e),
            Ok(((k, v), j)) => if i + 1 < j <= ts.len() {
                spec_parse_members(ts, j, seq![(k, v)])
            } else {
                Err(ParserErrorKind::UnexpectedToken)
            },
        }
    }
}

/// The rest of an object after at least one member: `,`-led members
/// until `}`; a repeated key overwrites the earlier value.
pub open spec fn spec_parse_members(
    ts: Seq<TokenModel>,
    i: int,
    acc: Seq<(Seq<char>, ValueModel)>,
) -> Result<(ValueModel, int), ParserErrorKind>
    decreases ts.len() - i, 0int,
{
    if 0 <= i < ts.len() && ts[i] is ValueSeparator {
        match spec_parse_kv(ts, i + 1) {
            Err(e) => Err(e),
            Ok(((k, v), j)) => if i + 1 < j <= ts.len() {
                spec_parse_members(ts, j, obj_insert(acc, k, v))
            } else {
                Err(ParserErrorKind::UnexpectedToken)
            },
        }
    } else if 0 <= i < ts.len() && ts[i] is EndObject {
        Ok((ValueModel::Object(acc), i + 1))
    } else if !(0 <= i < ts.len()) {
        Err(ParserErrorKind::UnexpectedEOF)
    } else {
        Err(ParserErrorKind::UnexpectedToken)
    }
}

/// The whole parse of a text: tokenize, one `value`, nothing left over.
pub open spec fn spec_parse(text: Seq<char>) -> Result<ValueModel, ParserErrorKind> {
    let ts = spec_tokenize(text);
    match spec_parse_value(ts, 0) {
        Err(e) => Err(e),
        Ok((v, j)) => if j == ts.len() {
            Ok(v)
        } else {
            Err(ParserErrorKind::UnexpectedToken)
        },
    }
}

/// The later occurrence of a key wins: after an insertion, looking the
/// key up yields the newly inserted value.
pub proof fn lemma_obj_insert_lookup_same(
    pairs: Seq<(Seq<char>, ValueModel)>,
    k: Seq<char>,
    v: ValueModel,
)
    ensures
        crate::json_value::object_lookup(obj_insert(pairs, k, v), k) == Some(v),
    decreases pairs.len(),
{
    if pairs.len() == 0 {
        assert(obj_insert(pairs, k, v)[0] == (k, v));
    } else if pairs[0].0 == k {
        assert(obj_insert(pairs, k, v)[0] == (k, v));
    } else {
        lemma_obj_insert_lookup_same(pairs.drop_first(), k, v);
        assert(obj_insert(pairs, k, v)[0] == pairs[0]);
        assert(obj_insert(pairs, k, v).drop_first() =~= obj_insert(pairs.drop_first(), k, v));
    }
}

/// An insertion leaves every other key's value untouched.
pub proof fn lemma_obj_insert_lookup_other(
    pairs: Seq<(Seq<char>, ValueModel)>,
    k: Seq<char>,
    v: ValueModel,
    other: Seq<char>,
)
    requires
        other != k,
    ensures
        crate::json_value::object_lookup(obj_insert(pairs, k, v), other)
            == crate::json_value::object_lookup(pairs, other),
    decreases pairs.len(),
{
    if pairs.len() == 0 {
        assert(obj_insert(pairs, k, v)[0] == (k, v));
        assert(obj_insert(pairs, k, v).drop_first() =~= Seq::<(Seq<char>, ValueModel)>::empty());
        assert(crate::json_value::object_lookup(obj_insert(pairs, k, v).drop_first(), other)
            is None);
        assert(crate::json_value::object_lookup(obj_insert(pairs, k, v), other) is None);
        assert(crate::json_value::object_lookup(pairs, other) is None);
    } else if pairs[0].0 == k {
        assert(obj_insert(pairs, k, v)[0] == (k, v));
        assert(obj_insert(pairs, k, v).drop_first() =~= pairs.drop_first());
        assert(crate::json_value::object_lookup(obj_insert(pairs, k, v), other)
            == crate::json_value::object_lookup(pairs.drop_first(), other));
        assert(crate::json_value::object_lookup(pairs, other)
            == crate::json_value::object_lookup(pairs.drop_first(), other));
    } else {
        lemma_obj_insert_lookup_other(pairs.drop_first(), k, v, other);
        assert(obj_insert(pairs, k, v)[0] == pairs[0]);
        assert(obj_insert(pairs, k, v).drop_first() =~= obj_insert(pairs.drop_first(), k, v));
        if pairs[0].0 == other {
            assert(crate::json_value::object_lookup(obj_insert(pairs, k, v), other) == Some(
                pairs[0].1,
            ));
            assert(crate::json_value::object_lookup(pairs, other) == Some(pairs[0].1));
        } else {
            assert(crate::json_value::object_lookup(obj_insert(pairs, k, v), other)
                == crate::json_value::object_lookup(obj_insert(pairs.drop_first(), k, v), other));
            assert(crate::json_value::object_lookup(pairs, other)
                == crate::json_value::object_lookup(pairs.drop_first(), other));
        }
    }
}

/// An insertion into an object with unique keys and well-formed values
/// keeps the keys unique and the values well-formed.
proof fn lemma_obj_insert_preserves_wf(
    pairs: Seq<(Seq<char>, ValueModel)>,
    k: Seq<char>,
    v: ValueModel,
)
    requires
        crate::json_value::keys_unique(pairs),
        forall|m: int| #![trigger pairs[m]] 0 <= m < pairs.len() ==> crate::json_value::value_wf(
            pairs[m].1,
        ),
        crate::json_value::value_wf(v),
    ensures
        crate::json_value::keys_unique(obj_insert(pairs, k, v)),
        forall|m: int|
            #![trigger obj_insert(pairs, k, v)[m]]
            0 <= m < obj_insert(pairs, k, v).len() ==> crate::json_value::value_wf(
                obj_insert(pairs, k, v)[m].1,
            ),
{
    if exists|m: int| 0 <= m < pairs.len() && pairs[m].0 == k {
        let idx = choose|m: int| 0 <= m < pairs.len() && pairs[m].0 == k;
        assert(forall|m: int| 0 <= m < idx ==> pairs[m].0 != k);
        lemma_obj_insert_found(pairs, k, v, idx);
        let r = pairs.update(idx, (k, v));
        assert(forall|m: int| #![trigger r[m]] 0 <= m < r.len() ==> r[m].0 == pairs[m].0);
    } else {
        lemma_obj_insert_absent(pairs, k, v);
        let r = pairs.push((k, v));
        assert(forall|m: int| #![trigger r[m]] 0 <= m < pairs.len() ==> r[m] == pairs[m]);
        assert(r[pairs.len() as int] == (k, v));
    }
}

/// A parsed `value` is well-formed: every object in it has unique keys.
pub proof fn lemma_value_wf(ts: Seq<TokenModel>, i: int)
    ensures
        match spec_parse_value(ts, i) {
            Ok((v, j)) => crate::json_value::value_wf(v),
            Err(_) => true,
        },
    decreases ts.len() - i, 2int,
{
    if 0 <= i < ts.len() {
        match ts[i] {
            TokenModel::BeginArray => lemma_array_wf(ts, i),
            TokenModel::BeginObject => lemma_object_wf(ts, i),
            _ => {},
        }
    }
}

/// A parsed `array` is well-formed.
pub proof fn lemma_array_wf(ts: Seq<TokenModel>, i: int)
    ensures
        match spec_parse_array(ts, i) {
            Ok((v, j)) => crate::json_value::value_wf(v),
            Err(_) => true,
        },
    decreases ts.len() - i, 1int,
{
    if 0 <= i < ts.len() && ts[i] is BeginArray {
        if i + 1 < ts.len() && !(ts[i + 1] is EndArray) {
            lemma_value_wf(ts, i + 1);
            match spec_parse_value(ts, i + 1) {
                Ok((v, j)) => {
                    if i + 1 < j <= ts.len() {
                        lemma_elems_wf(ts, j, seq![v]);
                    }
                },
                Err(_) => {},
            }
        }
    }
}

/// A parsed element list is well-formed when its accumulator is.
pub proof fn lemma_elems_wf(ts: Seq<TokenModel>, i: int, acc: Seq<ValueModel>)
    requires
        forall|m: int| #![trigger acc[m]] 0 <= m < acc.len() ==> crate::json_value::value_wf(
            acc[m],
        ),
    ensures
        match spec_parse_elems(ts, i, acc) {
            Ok((v, j)) => crate::json_value::value_wf(v),
            Err(_) => true,
        },
    decreases ts.len() - i, 0int,
{
    if 0 <= i < ts.len() && ts[i] is ValueSeparator {
        lemma_value_wf(ts, i + 1);
        match spec_parse_value(ts, i + 1) {
            Ok((v, j)) => {
                if i + 1 < j <= ts.len() {
                    assert(forall|m: int|
                        #![trigger acc.push(v)[m]]
                        0 <= m < acc.push(v).len() ==> crate::json_value::value_wf(
                            acc.push(v)[m],
                        ));
                    lemma_elems_wf(ts, j, acc.push(v));
                }
            },
            Err(_) => {},
        }
    }
}

/// A parsed `member`'s value is well-formed.
pub proof fn lemma_kv_wf(ts: Seq<TokenModel>, i: int)
    ensures
        match spec_parse_kv(ts, i) {
            Ok((kv, j)) => crate::json_value::value_wf(kv.1),
            Err(_) => true,
        },
    decreases ts.len() - i, 0int,
{
    if 0 <= i < ts.len() && ts[i] is String && i + 1 < ts.len() && ts[i + 1] is NameSeparator {
        lemma_value_wf(ts, i + 2);
    }
}

/// A parsed `object` is well-formed.
pub proof fn lemma_object_wf(ts: Seq<TokenModel>, i: int)
    ensures
        match spec_parse_object(ts, i) {
            Ok((v, j)) => crate::json_value::value_wf(v),
            Err(_) => true,
        },
    decreases ts.len() - i, 1int,
{
    if 0 <= i < ts.len() && ts[i] is BeginObject {
        if i + 1 < ts.len() && !(ts[i + 1] is EndObject) {
            lemma_kv_wf(ts, i + 1);
            match spec_parse_kv(ts, i + 1) {
                Ok(((k, v), j)) => {
                    if i + 1 < j <= ts.len() {
                        assert(forall|m: int|
                            #![trigger seq![(k, v)][m]]
                            0 <= m < 1 ==> crate::json_value::value_wf(seq![(k, v)][m].1));
                        lemma_members_wf(ts, j, seq![(k, v)]);
                    }
                },
                Err(_) => {},
            }
        }
    }
}

/// A parsed member list is well-formed when its accumulator is.
pub proof fn lemma_members_wf(ts: Seq<TokenModel>, i: int, acc: Seq<(Seq<char>, ValueModel)>)
    requires
        crate::json_value::keys_unique(acc),
        forall|m: int| #![trigger acc[m]] 0 <= m < acc.len() ==> crate::json_value::value_wf(
            acc[m].1,
        ),
    ensures
        match spec_parse_members(ts, i, acc) {
            Ok((v, j)) => crate::json_value::value_wf(v),
            Err(_) => true,
        },
    decreases ts.len() - i, 0int,
{
    if 0 <= i < ts.len() && ts[i] is ValueSeparator {
        lemma_kv_wf(ts, i + 1);
        match spec_parse_kv(ts, i + 1) {
            Ok(((k, v), j)) => {
                if i + 1 < j <= ts.len() {
                    lemma_obj_insert_preserves_wf(acc, k, v);
                    lemma_members_wf(ts, j, obj_insert(acc, k, v));
                }
            },
            Err(_) => {},
        }
    }
}

/// Every object anywhere in a successfully parsed document has unique
/// keys: construction inserts pairs last-write-wins, so no key repeats.
pub proof fn lemma_parse_wf(text: Seq<char>)
    ensures
        match spec_parse(text) {
            Ok(v) => crate::json_value::value_wf(v),
            Err(_) => true,
        },
{
    lemma_value_wf(spec_tokenize(text), 0);
}

/// A parsed `value` ends within the sequence, past its start.
pub proof fn lemma_value_advance(ts: Seq<TokenModel>, i: int)
    ensures
        match spec_parse_value(ts, i) {
            Ok((v, j)) => i + 1 <= j <= ts.len(),
            Err(_) => true,
        },
    decreases ts.len() - i, 2int,
{
    if 0 <= i < ts.len() {
        match ts[i] {
            TokenModel::BeginArray => lemma_array_advance(ts, i),
            TokenModel::BeginObject => lemma_object_advance(ts, i),
            _ => {},
        }
    }
}

/// A parsed `array` ends within the sequence, past its start.
pub proof fn lemma_array_advance(ts: Seq<TokenModel>, i: int)
    ensures
        match spec_parse_array(ts, i) {
            Ok((v, j)) => i + 1 <= j <= ts.len(),
            Err(_) => true,
        },
    decreases ts.len() - i, 1int,
{
    if 0 <= i < ts.len() && ts[i] is BeginArray {
        if i + 1 < ts.len() && !(ts[i + 1] is EndArray) {
            lemma_value_advance(ts, i + 1);
            match spec_parse_value(ts, i + 1) {
                Ok((v, j)) => {
                    if i + 1 < j <= ts.len() {
                        lemma_elems_advance(ts, j, seq![v]);
                    }
                },
                Err(_) => {},
            }
        }
    }
}

/// A parsed element list ends within the sequence, past its start.
pub proof fn lemma_elems_advance(ts: Seq<TokenModel>, i: int, acc: Seq<ValueModel>)
    ensures
        match spec_parse_elems(ts, i, acc) {
            Ok((v, j)) => i + 1 <= j <= ts.len(),
            Err(_) => true,
        },
    decreases ts.len() - i, 0int,
{
    if 0 <= i < ts.len() && ts[i] is ValueSeparator {
        lemma_value_advance(ts, i + 1);
        match spec_parse_value(ts, i + 1) {
            Ok((v, j)) => {
                if i + 1 < j <= ts.len() {
                    lemma_elems_advance(ts, j, acc.push(v));
                }
            },
            Err(_) => {},
        }
    }
}

/// A parsed `member` ends within the sequence, past its key and colon.
pub proof fn lemma_kv_advance(ts: Seq<TokenModel>, i: int)
    ensures
        match spec_parse_kv(ts, i) {
            Ok((kv, j)) => i + 3 <= j <= ts.len(),
            Err(_) => true,
        },
    decreases ts.len() - i, 0int,
{
    if 0 <= i < ts.len() && ts[i] is String && i + 1 < ts.len() && ts[i + 1] is NameSeparator {
        lemma_value_advance(ts, i + 2);
    }
}

/// A parsed `object` ends within the sequence, past its start.
pub proof fn lemma_object_advance(ts: Seq<TokenModel>, i: int)
    ensures
        match spec_parse_object(ts, i) {
            Ok((v, j)) => i + 1 <= j <= ts.len(),
            Err(_) => true,
        },
    decreases ts.len() - i, 1int,
{
    if 0 <= i < ts.len() && ts[i] is BeginObject {
        if i + 1 < ts.len() && !(ts[i + 1] is EndObject) {
            lemma_kv_advance(ts, i + 1);
            match spec_parse_kv(ts, i + 1) {
                Ok(((k, v), j)) => {
                    if i + 1 < j <= ts.len() {
                        lemma_members_advance(ts, j, seq![(k, v)]);
                    }
                },
                Err(_) => {},
            }
        }
    }
}

/// A parsed member list ends within the sequence, past its start.
pub proof fn lemma_members_advance(ts: Seq<TokenModel>, i: int, acc: Seq<(Seq<char>, ValueModel)>)
    ensures
        match spec_parse_members(ts, i, acc) {
            Ok((v, j)) => i + 1 <= j <= ts.len(),
            Err(_) => true,
        },
    decreases ts.len() - i, 0int,
{
    if 0 <= i < ts.len() && ts[i] is ValueSeparator {
        lemma_kv_advance(ts, i + 1);
        match spec_parse_kv(ts, i + 1) {
            Ok(((k, v), j)) => {
                if i + 1 < j <= ts.len() {
                    lemma_members_advance(ts, j, obj_insert(acc, k, v));
                }
            },
            Err(_) => {},
        }
    }
}

/// Whether two lexemes are the same lexeme.
fn token_eq(a: &Token, b: &Token) -> (r: bool)
    ensures
        r == (a@ == b@),
{
    match a {
        Token::BeginArray => match b {
            Token::BeginArray => true,
            _ => false,
        },
        Token::EndArray => match b {
            Token::EndArray => true,
            _ => false,
        },
        Token::BeginObject => match b {
            Token::BeginObject => true,
            _ => false,
        },
        Token::EndObject => match b {
            Token::EndObject => true,
            _ => false,
        },
        Token::NameSeparator => match b {
            Token::NameSeparator => true,
            _ => false,
        },
        Token::ValueSeparator => match b {
            Token::ValueSeparator => true,
            _ => false,
        },
        Token::True => match b {
            Token::True => true,
            _ => false,
        },
        Token::False => match b {
            Token::False => true,
            _ => false,
        },
        Token::Null => match b {
            Token::Null => true,
            _ => false,
        },
        Token::Number(x) => match b {
            Token::Number(y) => number_eq(x, y),
            _ => false,
        },
        Token::String(s) => match b {
            Token::String(t) => str_eq(s.as_str(), t.as_str()),
            _ => false,
        },
    }
}

/// Whether two number lexemes are the same.
fn number_eq(a: &crate::number::Number, b: &crate::number::Number) -> (r: bool)
    ensures
        r == (a@ == b@),
{
    match a {
        crate::number::Number::Integer(p) => match b {
            crate::number::Number::Integer(q) => *p == *q,
            _ => false,
        },
        crate::number::Number::Float(s) => match b {
            crate::number::Number::Float(t) => str_eq(s.as_str(), t.as_str()),
            _ => false,
        },
    }
}

/// Whether a lexeme is the array-closing bracket.
fn is_end_array(t: &Token) -> (r: bool)
    ensures
        r == (t@ is EndArray),
{
    match t {
        Token::EndArray => true,
        _ => false,
    }
}

/// Whether a lexeme is the object-closing brace.
fn is_end_object(t: &Token) -> (r: bool)
    ensures
        r == (t@ is EndObject),
{
    match t {
        Token::EndObject => true,
        _ => false,
    }
}

/// Whether a lexeme is the value separator.
fn is_value_separator(t: &Token) -> (r: bool)
    ensures
        r == (t@ is ValueSeparator),
{
    match t {
        Token::ValueSeparator => true,
        _ => false,
    }
}

/// Inserting a key held at `idx`, with no earlier occurrence, overwrites
/// in place.
proof fn lemma_obj_insert_found(
    pairs: Seq<(Seq<char>, ValueModel)>,
    k: Seq<char>,
    v: ValueModel,
    idx: int,
)
    requires
        0 <= idx < pairs.len(),
        pairs[idx].0 == k,
        forall|m: int| 0 <= m < idx ==> pairs[m].0 != k,
    ensures
        obj_insert(pairs, k, v) == pairs.update(idx, (k, v)),
    decreases idx,
{
    if idx == 0 {
        assert(seq![(k, v)] + pairs.drop_first() =~= pairs.update(0, (k, v)));
    } else {
        assert(forall|m: int|
            0 <= m < idx - 1 ==> pairs.drop_first()[m].0 == pairs[m + 1].0);
        lemma_obj_insert_found(pairs.drop_first(), k, v, idx - 1);
        assert(seq![pairs[0]] + pairs.drop_first().update(idx - 1, (k, v)) =~= pairs.update(
            idx,
            (k, v),
        ));
    }
}

/// Inserting a key that occurs nowhere appends.
proof fn lemma_obj_insert_absent(pairs: Seq<(Seq<char>, ValueModel)>, k: Seq<char>, v: ValueModel)
    requires
        forall|m: int| 0 <= m < pairs.len() ==> pairs[m].0 != k,
    ensures
        obj_insert(pairs, k, v) == pairs.push((k, v)),
    decreases pairs.len(),
{
    if pairs.len() == 0 {
        assert(seq![(k, v)] =~= pairs.push((k, v)));
    } else {
        assert(forall|m: int|
            0 <= m < pairs.drop_first().len() ==> pairs.drop_first()[m].0 == pairs[m + 1].0);
        lemma_obj_insert_absent(pairs.drop_first(), k, v);
        assert(seq![pairs[0]] + pairs.drop_first().push((k, v)) =~= pairs.push((k, v)));
    }
}

/// Last-write-wins insertion into the pair vector backing an object.
fn insert_pair(contents: &mut Vec<(String, JSONValue)>, key: String, value: JSONValue)
    ensures
        pairs_view(final(contents)@) == obj_insert(pairs_view(old(contents)@), key@, value@),
{
    let ghost pairs = pairs_view(old(contents)@);
    let n: usize = contents.len();
    let mut idx: usize = 0;
    while idx < n
        invariant
            n == contents@.len(),
            idx <= n,
            contents@ == old(contents)@,
            pairs == pairs_view(contents@),
            forall|m: int| 0 <= m < idx ==> pairs[m].0 != key@,
        decreases n - idx,
    {
        proof {
            assert(pairs[idx as int] == (contents@[idx as int].0@, crate::json_value::value_view(
                contents@[idx as int].1,
            )));
        }
        if str_eq(contents[idx].0.as_str(), key.as_str()) {
            let ghost kview = key@;
            let ghost vview = value@;
            contents.set(idx, (key, value));
            proof {
                lemma_obj_insert_found(pairs, kview, vview, idx as int);
                assert(pairs_view(contents@) =~= pairs.update(idx as int, (kview, vview)));
            }
            return;
        }
        idx = idx + 1;
    }
    let ghost kview = key@;
    let ghost vview = value@;
    contents.push((key, value));
    proof {
        lemma_obj_insert_absent(pairs, kview, vview);
        assert(pairs_view(contents@) =~= pairs.push((kview, vview)));
    }
}

/// A single pass over one lexeme sequence: the lexemes and a cursor.
pub struct Parser {
    pub tokens: Vec<Token>,
    pub pos: usize,
}

impl Parser {
    /// The model of the lexeme sequence.
    pub open spec fn toks(&self) -> Seq<TokenModel> {
        tokens_view(self.tokens@)
    }

    /// The cursor never leaves the sequence.
    pub open spec fn wf(&self) -> bool {
        self.pos <= self.tokens@.len()
    }

    /// A fresh pass over `tokens`, positioned at the first lexeme.
    fn new(tokens: Vec<Token>) -> (r: Self)
        ensures
            r.tokens@ == tokens@,
            r.pos == 0,
            r.wf(),
    {
        Parser { tokens, pos: 0 }
    }

    /// Parses a complete JSON text: tokenize, parse exactly one value,
    /// and require the lexeme sequence to be fully consumed.
    pub fn parse(text: &str) -> (r: Result<JSONValue, ParserError>)
        ensures
            match r {
                Ok(v) => spec_parse(text@) == Ok::<ValueModel, ParserErrorKind>(v@),
                Err(e) => spec_parse(text@) == Err::<ValueModel, ParserErrorKind>(e.kind),
            },
    {
        let tokens = Tokenizer::tokenize(text);
        let ghost ts = spec_tokenize(text@);
        let mut parser = Parser::new(tokens);
        proof {
            assert(parser.toks() == ts);
            assert(parser.toks().len() == parser.tokens@.len());
        }
        match parser.parse_value() {
            Err(e) => Err(e),
            Ok(v) => {
                if parser.pos == parser.tokens.len() {
                    Ok(v)
                } else {
                    Err(ParserError::new(ParserErrorKind::UnexpectedToken))
                }
            },
        }
    }

    /// Consumes one lexeme, which must be the expected one.  A present
    /// lexeme that differs is `UnexpectedToken`; nothing left is
    /// `UnexpectedEOF`.
    fn consume_token(&mut self, token: Token) -> (r: Result<(), ParserError>)
        requires
            old(self).wf(),
        ensures
            final(self).tokens@ == old(self).tokens@,
            final(self).wf(),
            ({
                let i = old(self).pos as int;
                let ts = old(self).toks();
                if i >= ts.len() {
                    r is Err && r->Err_0.kind == ParserErrorKind::UnexpectedEOF
                        && final(self).pos == i
                } else if ts[i] == token@ {
                    r is Ok && final(self).pos == i + 1
                } else {
                    r is Err && r->Err_0.kind == ParserErrorKind::UnexpectedToken
                }
            }),
    {
        let i: usize = self.pos;
        if i >= self.tokens.len() {
            return Err(ParserError::new(ParserErrorKind::UnexpectedEOF));
        }
        proof {
            assert(old(self).toks()[i as int] == self.tokens@[i as int]@);
        }
        let same = token_eq(&self.tokens[i], &token);
        self.pos = i + 1;
        if same {
            Ok(())
        } else {
            Err(ParserError::new(ParserErrorKind::UnexpectedToken))
        }
    }

    /// One `value` at the cursor, by one token of lookahead.  Where the
    /// lookahead itself is unfit -- absent, or a separator or closing
    /// delimiter -- it is not consumed.
    fn parse_value(&mut self) -> (r: Result<JSONValue, ParserError>)
        requires
            old(self).wf(),
        ensures
            final(self).tokens@ == old(self).tokens@,
            final(self).wf(),
            ({
                let i = old(self).pos as int;
                let ts = old(self).toks();
                (i >= ts.len() || ts[i] is EndArray || ts[i] is EndObject || ts[i]
                    is NameSeparator || ts[i] is ValueSeparator) ==> final(self).pos == i
            }),
            match r {
                Ok(v) => spec_parse_value(old(self).toks(), old(self).pos as int) == Ok::<
                    (ValueModel, int),
                    ParserErrorKind,
                >((v@, final(self).pos as int)),
                Err(e) => spec_parse_value(old(self).toks(), old(self).pos as int) == Err::<
                    (ValueModel, int),
                    ParserErrorKind,
                >(e.kind),
            },
        decreases self.tokens@.len() - self.pos, 2int,
    {
        let i: usize = self.pos;
        if i >= self.tokens.len() {
            return Err(ParserError::new(ParserErrorKind::UnexpectedEOF));
        }
        proof {
            assert(old(self).toks()[i as int] == self.tokens@[i as int]@);
        }
        match &self.tokens[i] {
            Token::True => {
                self.pos = i + 1;
                Ok(JSONValue::True)
            },
            Token::False => {
                self.pos = i + 1;
                Ok(JSONValue::False)
            },
            Token::Null => {
                self.pos = i + 1;
                Ok(JSONValue::Null)
            },
            Token::Number(n) => {
                let num = n.clone();
                self.pos = i + 1;
                Ok(JSONValue::Number(num))
            },
            Token::String(s) => {
                let st = s.clone();
                self.pos = i + 1;
                Ok(JSONValue::String(st))
            },
            Token::BeginArray => self.parse_array(),
            Token::BeginObject => self.parse_object(),
            _ => Err(ParserError::new(ParserErrorKind::UnexpectedToken)),
        }
    }

    /// One `member` at the cursor: a string key, a colon, a value.
    fn parse_key_value_pair(&mut self) -> (r: Result<(String, JSONValue), ParserError>)
        requires
            old(self).wf(),
        ensures
            final(self).tokens@ == old(self).tokens@,
            final(self).wf(),
            match r {
                Ok(kv) => spec_parse_kv(old(self).toks(), old(self).pos as int) == Ok::<
                    ((Seq<char>, ValueModel), int),
                    ParserErrorKind,
                >(((kv.0@, kv.1@), final(self).pos as int)),
                Err(e) => spec_parse_kv(old(self).toks(), old(self).pos as int) == Err::<
                    ((Seq<char>, ValueModel), int),
                    ParserErrorKind,
                >(e.kind),
            },
        decreases self.tokens@.len() - self.pos, 0int,
    {
        let ghost ts = old(self).toks();
        let i: usize = self.pos;
        if i >= self.tokens.len() {
            return Err(ParserError::new(ParserErrorKind::UnexpectedEOF));
        }
        proof {
            assert(ts[i as int] == self.tokens@[i as int]@);
        }
        let key: String = match &self.tokens[i] {
            Token::String(s) => s.clone(),
            _ => {
                return Err(ParserError::new(ParserErrorKind::UnexpectedToken));
            },
        };
        self.pos = i + 1;
        match self.consume_token(Token::NameSeparator) {
            Err(e) => {
                return Err(e);
            },
            Ok(_) => {},
        }
        match self.parse_value() {
            Err(e) => Err(e),
            Ok(v) => Ok((key, v)),
        }
    }

    /// An `array` at the cursor: bracketed, comma-separated values.
    #[verifier::loop_isolation(false)]
    fn parse_array(&mut self) -> (r: Result<JSONValue, ParserError>)
        requires
            old(self).wf(),
        ensures
            final(self).tokens@ == old(self).tokens@,
            final(self).wf(),
            match r {
                Ok(v) => spec_parse_array(old(self).toks(), old(self).pos as int) == Ok::<
                    (ValueModel, int),
                    ParserErrorKind,
                >((v@, final(self).pos as int)),
                Err(e) => spec_parse_array(old(self).toks(), old(self).pos as int) == Err::<
                    (ValueModel, int),
                    ParserErrorKind,
                >(e.kind),
            },
        decreases self.tokens@.len() - self.pos, 1int,
    {
        let ghost ts = old(self).toks();
        let ghost i0 = old(self).pos as int;
        let mut contents: Vec<JSONValue> = Vec::new();
        match self.consume_token(Token::BeginArray) {
            Err(e) => {
                return Err(e);
            },
            Ok(_) => {},
        }
        let n: usize = self.tokens.len();
        if self.pos < n && !is_end_array(&self.tokens[self.pos]) {
            proof {
                assert(ts[i0 + 1] == self.tokens@[i0 + 1]@);
            }
            match self.parse_value() {
                Err(e) => {
                    return Err(e);
                },
                Ok(v) => {
                    proof {
                        lemma_value_advance(ts, i0 + 1);
                        assert(elems_view(contents@.push(v)) =~= seq![v@]);
                    }
                    contents.push(v);
                },
            }
            while self.pos < n && is_value_separator(&self.tokens[self.pos])
                invariant
                    n == self.tokens@.len(),
                    self.tokens@ == old(self).tokens@,
                    self.wf(),
                    i0 < self.pos,
                    ts == tokens_view(self.tokens@),
                    spec_parse_array(ts, i0) == spec_parse_elems(
                        ts,
                        self.pos as int,
                        elems_view(contents@),
                    ),
                decreases n - self.pos,
            {
                let ghost p0 = self.pos as int;
                proof {
                    assert(ts[p0] == self.tokens@[p0]@);
                }
                self.pos = self.pos + 1;
                let ghost acc = elems_view(contents@);
                proof {
                    assert(self.tokens@.len() - self.pos < old(self).tokens@.len() - old(
                        self,
                    ).pos);
                }
                match self.parse_value() {
                    Err(e) => {
                        proof {
                            assert(spec_parse_value(ts, p0 + 1) == Err::<
                                (ValueModel, int),
                                ParserErrorKind,
                            >(e.kind));
                            assert(spec_parse_elems(ts, p0, acc) == Err::<
                                (ValueModel, int),
                                ParserErrorKind,
                            >(e.kind));
                        }
                        return Err(e);
                    },
                    Ok(v) => {
                        proof {
                            lemma_value_advance(ts, p0 + 1);
                            assert(elems_view(contents@.push(v)) =~= acc.push(v@));
                        }
                        contents.push(v);
                    },
                }
            }
            proof {
                if self.pos < n {
                    assert(ts[self.pos as int] == self.tokens@[self.pos as int]@);
                }
            }
            let ghost before_end = self.pos as int;
            match self.consume_token(Token::EndArray) {
                Err(e) => {
                    proof {
                        assert(spec_parse_elems(ts, before_end, elems_view(contents@))
                            == Err::<(ValueModel, int), ParserErrorKind>(e.kind));
                    }
                    Err(e)
                },
                Ok(_) => Ok(JSONValue::Array(contents)),
            }
        } else {
            // an empty array, or the end of the lexemes: `]` is owed next
            match self.consume_token(Token::EndArray) {
                Err(e) => Err(e),
                Ok(_) => {
                    proof {
                        assert(elems_view(contents@) =~= Seq::<ValueModel>::empty());
                    }
                    Ok(JSONValue::Array(contents))
                },
            }
        }
    }

    /// An `object` at the cursor: braced, comma-separated members; a
    /// repeated key overwrites the earlier value.
    #[verifier::loop_isolation(false)]
    fn parse_object(&mut self) -> (r: Result<JSONValue, ParserError>)
        requires
            old(self).wf(),
        ensures
            final(self).tokens@ == old(self).tokens@,
            final(self).wf(),
            match r {
                Ok(v) => spec_parse_object(old(self).toks(), old(self).pos as int) == Ok::<
                    (ValueModel, int),
                    ParserErrorKind,
                >((v@, final(self).pos as int)),
                Err(e) => spec_parse_object(old(self).toks(), old(self).pos as int) == Err::<
                    (ValueModel, int),
                    ParserErrorKind,
                >(e.kind),
            },
        decreases self.tokens@.len() - self.pos, 1int,
    {
        let ghost ts = old(self).toks();
        let ghost i0 = old(self).pos as int;
        let mut contents: Vec<(String, JSONValue)> = Vec::new();
        match self.consume_token(Token::BeginObject) {
            Err(e) => {
                return Err(e);
            },
            Ok(_) => {},
        }
        let n: usize = self.tokens.len();
        if self.pos < n && !is_end_object(&self.tokens[self.pos]) {
            proof {
                assert(ts[i0 + 1] == self.tokens@[i0 + 1]@);
            }
            match self.parse_key_value_pair() {
                Err(e) => {
                    return Err(e);
                },
                Ok(kv) => {
                    proof {
                        lemma_kv_advance(ts, i0 + 1);
                        assert(pairs_view(contents@) =~= Seq::<(Seq<char>, ValueModel)>::empty());
                    }
                    let ghost kview = kv.0@;
                    let ghost vview = kv.1@;
                    insert_pair(&mut contents, kv.0, kv.1);
                    proof {
                        assert(obj_insert(Seq::empty(), kview, vview) =~= seq![(kview, vview)]);
                    }
                },
            }
            while self.pos < n && is_value_separator(&self.tokens[self.pos])
                invariant
                    n == self.tokens@.len(),
                    self.tokens@ == old(self).tokens@,
                    self.wf(),
                    i0 < self.pos,
                    ts == tokens_view(self.tokens@),
                    spec_parse_object(ts, i0) == spec_parse_members(
                        ts,
                        self.pos as int,
                        pairs_view(contents@),
                    ),
                decreases n - self.pos,
            {
                let ghost p0 = self.pos as int;
                proof {
                    assert(ts[p0] == self.tokens@[p0]@);
                }
                self.pos = self.pos + 1;
                let ghost acc = pairs_view(contents@);
                proof {
                    assert(self.tokens@.len() - self.pos < old(self).tokens@.len() - old(
                        self,
                    ).pos);
                }
                match self.parse_key_value_pair() {
                    Err(e) => {
                        proof {
                            assert(spec_parse_kv(ts, p0 + 1) == Err::<
                                ((Seq<char>, ValueModel), int),
                                ParserErrorKind,
                            >(e.kind));
                            assert(spec_parse_members(ts, p0, acc) == Err::<
                                (ValueModel, int),
                                ParserErrorKind,
                            >(e.kind));
                        }
                        return Err(e);
                    },
                    Ok(kv) => {
                        proof {
                            lemma_kv_advance(ts, p0 + 1);
                        }
                        insert_pair(&mut contents, kv.0, kv.1);
                    },
                }
            }
            proof {
                if self.pos < n {
                    assert(ts[self.pos as int] == self.tokens@[self.pos as int]@);
                }
            }
            let ghost before_end = self.pos as int;
            match self.consume_token(Token::EndObject) {
                Err(e) => {
                    proof {
                        assert(spec_parse_members(ts, before_end, pairs_view(contents@))
                            == Err::<(ValueModel, int), ParserErrorKind>(e.kind));
                    }
                    Err(e)
                },
                Ok(_) => Ok(JSONValue::Object(contents)),
            }
        } else {
            // an empty object, or the end of the lexemes: `}` is owed next
            match self.consume_token(Token::EndObject) {
                Err(e) => Err(e),
                Ok(_) => {
                    proof {
                        assert(pairs_view(contents@) =~= Seq::<(Seq<char>, ValueModel)>::empty());
                    }
                    Ok(JSONValue::Object(contents))
                },
            }
        }
    }
}

} // verus!
