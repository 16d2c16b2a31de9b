//! JSON values as the engine reads them.
use vstd::prelude::*;

use crate::text::str_eq;

verus! {

/// A floating-point number in scientific notation: `d.ddd` times ten to the `exponent`.
#[derive(Debug, Clone, PartialEq)]
pub struct Float {
    pub negative: bool,
    /// The digits of the mantissa, of which the first stands before the point.
    pub digits: String,
    pub exponent: i32,
}

/// What a `Float` holds.
#[verifier::ext_equal]
pub struct FloatModel {
    pub negative: bool,
    pub digits: Seq<char>,
    pub exponent: int,
}

impl View for Float {
    type V = FloatModel;

    open spec fn view(&self) -> FloatModel {
        FloatModel { negative: self.negative, digits: self.digits@, exponent: self.exponent as int }
    }
}

/// A JSON number.
#[derive(Debug, Clone, PartialEq)]
pub enum Number {
    Unsigned(u64),
    Signed(i64),
    Float(Float),
}

/// What a `Number` holds.
#[verifier::ext_equal]
pub enum NumberModel {
    Int(int),
    Float(FloatModel),
}

impl View for Number {
    type V = NumberModel;

    open spec fn view(&self) -> NumberModel {
        match *self {
            Number::Unsigned(n) => NumberModel::Int(n as int),
            Number::Signed(n) => NumberModel::Int(n as int),
            Number::Float(f) => NumberModel::Float(f@),
        }
    }
}

/// A JSON value. The entries of an object keep their order.
#[derive(Debug, PartialEq)]
pub enum Json {
    Null,
    Bool(bool),
    Number(Number),
    Str(String),
    Array(Vec<Json>),
    Object(Vec<(String, Json)>),
}

/// What a `Json` holds.
#[verifier::ext_equal]
pub enum JsonModel {
    Null,
    Bool(bool),
    Number(NumberModel),
    Str(Seq<char>),
    Array(Seq<JsonModel>),
    Object(Seq<(Seq<char>, JsonModel)>),
}

impl Json {
    /// What the value holds.
    pub open spec fn model(&self) -> JsonModel
        decreases self,
    {
        match *self {
            Json::Null => JsonModel::Null,
            Json::Bool(b) => JsonModel::Bool(b),
            Json::Number(n) => JsonModel::Number(n@),
            Json::Str(s) => JsonModel::Str(s@),
            Json::Array(v) => JsonModel::Array(
                Seq::new(
                    v@.len(),
                    |i: int|
                        if 0 <= i < v@.len() {
                            v@[i].model()
                        } else {
                            JsonModel::Null
                        },
                ),
            ),
            Json::Object(v) => JsonModel::Object(
                Seq::new(
                    v@.len(),
                    |i: int|
                        if 0 <= i < v@.len() {
                            (v@[i].0@, v@[i].1.model())
                        } else {
                            (seq![], JsonModel::Null)
                        },
                ),
            ),
        }
    }
}

impl View for Json {
    type V = JsonModel;

    open spec fn view(&self) -> JsonModel {
        self.model()
    }
}

/// The value of the first entry with the given key.
pub open spec fn entry(entries: Seq<(Seq<char>, JsonModel)>, key: Seq<char>) -> Option<JsonModel>
    decreases entries.len(),
{
    if entries.len() == 0 {
        None
    } else if entries[0].0 == key {
        Some(entries[0].1)
    } else {
        entry(entries.drop_first(), key)
    }
}

/// What a value has under a key; what is no object has nothing.
pub open spec fn field(v: JsonModel, key: Seq<char>) -> Option<JsonModel> {
    match v {
        JsonModel::Object(entries) => entry(entries, key),
        _ => None,
    }
}

/// The contents of a value, if there is one.
pub open spec fn opt_json(v: Option<&Json>) -> Option<JsonModel> {
    match v {
        Some(x) => Some(x@),
        None => None,
    }
}

impl Json {
    /// What the value has under a key; what is no object has nothing.
    pub fn get(&self, key: &str) -> (r: Option<&Json>)
        ensures
            opt_json(r) == field(self@, key@),
    {
        match self {
            Json::Object(entries) => {
                let mut i: usize = 0;
                let ghost all = self@->Object_0;
                assert(all.skip(0) =~= all);
                while i < entries.len()
                    invariant
                        i <= entries@.len(),
                        all.len() == entries@.len(),
                        forall|j: int| 0 <= j < all.len() ==> #[trigger] all[j] == (entries@[j].0@, entries@[j].1@),
                        entry(all.skip(i as int), key@) == field(self@, key@),
                    decreases entries@.len() - i,
                {
                    assert(all.skip(i as int)[0] == all[i as int]);
                    if str_eq(entries[i].0.as_str(), key) {
                        return Some(&entries[i].1);
                    }
                    assert(all.skip(i as int).drop_first() =~= all.skip(i + 1));
                    i = i + 1;
                }
                None
            },
            _ => None,
        }
    }
}

} // verus!
