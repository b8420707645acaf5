//! The tagged tree type representing a parsed JSON document, its
//! mathematical model, and the read-only accessors over it.

use vstd::prelude::*;

use crate::chars::str_eq;
use crate::number::{Number, NumberModel};

verus! {

/// A parsed JSON value.
///
/// An object is held as a sequence of key/value pairs in first-occurrence
/// order of the keys; the parser keeps keys unique by letting a later
/// occurrence of a key overwrite the earlier value in place.
#[derive(Debug, PartialEq)]
pub enum JSONValue {
    True,
    False,
    Null,
    Object(Vec<(String, JSONValue)>),
    Array(Vec<JSONValue>),
    Number(Number),
    String(String),
}

/// The mathematical model of a [`JSONValue`].
pub enum ValueModel {
    True,
    False,
    Null,
    Object(Seq<(Seq<char>, ValueModel)>),
    Array(Seq<ValueModel>),
    Number(NumberModel),
    String(Seq<char>),
}

/// The model of a parsed value tree.
pub open spec fn value_view(v: JSONValue) -> ValueModel
    decreases v,
{
    match v {
        JSONValue::True => ValueModel::True,
        JSONValue::False => ValueModel::False,
        JSONValue::Null => ValueModel::Null,
        JSONValue::Object(pairs) => ValueModel::Object(pairs_view(pairs@)),
        JSONValue::Array(items) => ValueModel::Array(elems_view(items@)),
        JSONValue::Number(n) => ValueModel::Number(n@),
        JSONValue::String(s) => ValueModel::String(s@),
    }
}

/// The models of an array's elements, in order.
pub open spec fn elems_view(items: Seq<JSONValue>) -> Seq<ValueModel>
    decreases items,
{
    Seq::new(
        items.len(),
        |i: int|
            if 0 <= i < items.len() {
                value_view(items[i])
            } else {
                ValueModel::Null
            },
    )
}

/// The models of an object's key/value pairs, in order.
pub open spec fn pairs_view(pairs: Seq<(String, JSONValue)>) -> Seq<(Seq<char>, ValueModel)>
    decreases pairs,
{
    Seq::new(
        pairs.len(),
        |i: int|
            if 0 <= i < pairs.len() {
                (pairs[i].0@, value_view(pairs[i].1))
            } else {
                (Seq::<char>::empty(), ValueModel::Null)
            },
    )
}

impl View for JSONValue {
    type V = ValueModel;

    open spec fn view(&self) -> ValueModel {
        value_view(*self)
    }
}

/// No two pairs of an object share a key.
pub open spec fn keys_unique(pairs: Seq<(Seq<char>, ValueModel)>) -> bool {
    forall|m: int, n: int| 0 <= m < n < pairs.len() ==> pairs[m].0 != pairs[n].0
}

/// A well-formed value tree: every object anywhere in it has unique keys.
pub open spec fn value_wf(v: ValueModel) -> bool
    decreases v,
{
    match v {
        ValueModel::Object(pairs) => keys_unique(pairs) && (forall|m: int|
            #![trigger pairs[m]]
            0 <= m < pairs.len() ==> value_wf(pairs[m].1)),
        ValueModel::Array(elems) => forall|m: int|
            #![trigger elems[m]]
            0 <= m < elems.len() ==> value_wf(elems[m]),
        _ => true,
    }
}

/// The value under the first pair whose key is `k`, if any.  The parser
/// keeps keys unique, so on a parsed object this is the value under `k`.
pub open spec fn object_lookup(pairs: Seq<(Seq<char>, ValueModel)>, k: Seq<char>) -> Option<
    ValueModel,
>
    decreases pairs.len(),
{
    if pairs.len() == 0 {
        None
    } else if pairs[0].0 == k {
        Some(pairs[0].1)
    } else {
        object_lookup(pairs.drop_first(), k)
    }
}

impl Clone for JSONValue {
    /// A deep copy with the same model.
    #[verifier::loop_isolation(false)]
    fn clone(&self) -> (r: Self)
        ensures
            r@ == self@,
        decreases *self,
    {
        match self {
            JSONValue::True => JSONValue::True,
            JSONValue::False => JSONValue::False,
            JSONValue::Null => JSONValue::Null,
            JSONValue::Number(n) => JSONValue::Number(n.clone()),
            JSONValue::String(s) => JSONValue::String(s.clone()),
            JSONValue::Array(items) => {
                let n: usize = items.len();
                let mut out: Vec<JSONValue> = Vec::new();
                let mut i: usize = 0;
                while i < n
                    invariant
                        n == items@.len(),
                        i <= n,
                        out@.len() == i as int,
                        forall|j: int|
                            0 <= j < i ==> value_view(out@[j]) == value_view(items@[j]),
                    decreases n - i,
                {
                    out.push(items[i].clone());
                    i = i + 1;
                }
                proof {
                    assert(elems_view(out@) =~= elems_view(items@));
                }
                JSONValue::Array(out)
            },
            JSONValue::Object(pairs) => {
                let n: usize = pairs.len();
                let mut out: Vec<(String, JSONValue)> = Vec::new();
                let mut i: usize = 0;
                while i < n
                    invariant
                        n == pairs@.len(),
                        i <= n,
                        out@.len() == i as int,
                        forall|j: int|
                            0 <= j < i ==> out@[j].0@ == pairs@[j].0@ && value_view(out@[j].1)
                                == value_view(pairs@[j].1),
                    decreases n - i,
                {
                    out.push((pairs[i].0.clone(), pairs[i].1.clone()));
                    i = i + 1;
                }
                proof {
                    assert(pairs_view(out@) =~= pairs_view(pairs@));
                }
                JSONValue::Object(out)
            },
        }
    }
}

impl JSONValue {
    /// `Some` exactly for the two boolean variants.
    pub fn as_bool(&self) -> (r: Option<bool>)
        ensures
            r == (match self@ {
                ValueModel::True => Some(true),
                ValueModel::False => Some(false),
                _ => None::<bool>,
            }),
    {
        match self {
            JSONValue::True => Some(true),
            JSONValue::False => Some(false),
            _ => None,
        }
    }

    /// Whether this value is the null variant.
    pub fn is_null(&self) -> (r: bool)
        ensures
            r == (self@ is Null),
    {
        match self {
            JSONValue::Null => true,
            _ => false,
        }
    }

    /// The number carried by the number variant, if any.
    pub fn as_number(&self) -> (r: Option<Number>)
        ensures
            match self@ {
                ValueModel::Number(nm) => r is Some && r->0@ == nm,
                _ => r is None,
            },
    {
        match self {
            JSONValue::Number(num) => Some(num.clone()),
            _ => None,
        }
    }

    /// The integer carried by an integer number, as is.  A floating-point
    /// literal has no verified integer reading, so it yields `None` here;
    /// unverified callers may convert its lexeme themselves.
    pub fn as_i64(&self) -> (r: Option<i64>)
        ensures
            match self@ {
                ValueModel::Number(NumberModel::Integer(n)) => r is Some && r->0 as int == n,
                _ => r is None,
            },
    {
        match self {
            JSONValue::Number(Number::Integer(num)) => Some(*num),
            _ => None,
        }
    }

    /// The text carried by the string variant, if any.
    pub fn as_string(&self) -> (r: Option<String>)
        ensures
            match self@ {
                ValueModel::String(s) => r is Some && r->0@ == s,
                _ => r is None,
            },
    {
        match self {
            JSONValue::String(val) => Some(val.clone()),
            _ => None,
        }
    }

    /// Whether this value is an array.
    pub fn is_array(&self) -> (r: bool)
        ensures
            r == (self@ is Array),
    {
        match self {
            JSONValue::Array(_) => true,
            _ => false,
        }
    }

    /// The array element at `index`: `None` on a non-array or an index out
    /// of bounds.
    pub fn get_as_array(&self, index: usize) -> (r: Option<&JSONValue>)
        ensures
            match self@ {
                ValueModel::Array(elems) => {
                    if index < elems.len() {
                        r is Some && r->0@ == elems[index as int]
                    } else {
                        r is None
                    }
                },
                _ => r is None,
            },
    {
        match self {
            JSONValue::Array(arr) => {
                if index < arr.len() {
                    Some(&arr[index])
                } else {
                    None
                }
            },
            _ => None,
        }
    }

    /// Whether this value is an object.
    pub fn is_object(&self) -> (r: bool)
        ensures
            r == (self@ is Object),
    {
        match self {
            JSONValue::Object(_) => true,
            _ => false,
        }
    }

    /// The value under `key`: `None` on a non-object or an absent key.
    pub fn get_as_object(&self, key: &str) -> (r: Option<&JSONValue>)
        ensures
            match self@ {
                ValueModel::Object(pairs) => {
                    match object_lookup(pairs, key@) {
                        Some(vm) => r is Some && r->0@ == vm,
                        None => r is None,
                    }
                },
                _ => r is None,
            },
    {
        match self {
            JSONValue::Object(obj) => {
                let ghost pairs = pairs_view(obj@);
                let n: usize = obj.len();
                let mut i: usize = 0;
                proof {
                    assert(pairs.skip(0) =~= pairs);
                }
                while i < n
                    invariant
                        n == obj@.len(),
                        i <= n,
                        pairs == pairs_view(obj@),
                        self@ == ValueModel::Object(pairs),
                        forall|j: int| 0 <= j < i ==> pairs[j].0 != key@,
                        object_lookup(pairs, key@) == object_lookup(
                            pairs.skip(i as int),
                            key@,
                        ),
                    decreases n - i,
                {
                    proof {
                        assert(pairs[i as int] == (obj@[i as int].0@, value_view(
                            obj@[i as int].1,
                        )));
                        assert(pairs.skip(i as int)[0] == pairs[i as int]);
                    }
                    if str_eq(obj[i].0.as_str(), key) {
                        proof {
                            assert(object_lookup(pairs.skip(i as int), key@) == Some(
                                pairs[i as int].1,
                            ));
                            assert((&obj[i as int].1)@ == pairs[i as int].1);
                        }
                        return Some(&obj[i].1);
                    }
                    proof {
                        assert(pairs.skip(i as int).drop_first() =~= pairs.skip(i + 1));
                    }
                    i = i + 1;
                }
                proof {
                    assert(pairs.skip(n as int).len() == 0);
                }
                None
            },
            _ => None,
        }
    }
}

} // verus!
