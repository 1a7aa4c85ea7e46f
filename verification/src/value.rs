use vstd::prelude::*;

verus! {

/// The text of a JSON number, exactly as it stood in the input, and whether
/// it has a fraction or an exponent part.
#[derive(Debug, PartialEq)]
pub struct JsonNumber {
    pub text: Vec<u8>,
    pub is_float: bool,
}

/// A decoded JSON value.
///
/// Objects keep their members in input order, duplicates included, so that a
/// consumer can apply its own rule for repeated keys.
#[derive(Debug, PartialEq)]
pub enum JsonValue {
    Null,
    Bool(bool),
    Number(JsonNumber),
    Str(String),
    Array(Vec<JsonValue>),
    Object(Vec<(String, JsonValue)>),
}

/// The mathematical model of a JSON value.
pub enum JsonModel {
    Null,
    Bool(bool),
    Number(Seq<u8>, bool),
    Str(Seq<char>),
    Array(Seq<JsonModel>),
    Object(Seq<(Seq<char>, JsonModel)>),
}

pub open spec fn model_of(v: JsonValue) -> JsonModel
    decreases v,
{
    match v {
        JsonValue::Null => JsonModel::Null,
        JsonValue::Bool(b) => JsonModel::Bool(b),
        JsonValue::Number(n) => JsonModel::Number(n.text@, n.is_float),
        JsonValue::Str(s) => JsonModel::Str(s@),
        JsonValue::Array(items) => JsonModel::Array(
            Seq::new(
                items@.len(),
                |i: int| if 0 <= i < items@.len() { model_of(items@[i]) } else { JsonModel::Null },
            ),
        ),
        JsonValue::Object(entries) => JsonModel::Object(
            Seq::new(
                entries@.len(),
                |i: int|
                    if 0 <= i < entries@.len() {
                        (entries@[i].0@, model_of(entries@[i].1))
                    } else {
                        (Seq::empty(), JsonModel::Null)
                    },
            ),
        ),
    }
}

/// How many arrays and objects are nested in a value, itself included.
pub open spec fn depth(v: JsonModel) -> nat
    decreases v,
{
    match v {
        JsonModel::Array(items) => 1 + items_depth(items),
        JsonModel::Object(entries) => 1 + members_depth(entries),
        _ => 0,
    }
}

/// The greatest depth of the items, or 0 if there are none.
pub open spec fn items_depth(items: Seq<JsonModel>) -> nat
    decreases items,
{
    if items.len() == 0 {
        0
    } else {
        let a = items_depth(items.subrange(0, items.len() - 1));
        let b = depth(items[items.len() - 1]);
        if a >= b {
            a
        } else {
            b
        }
    }
}

/// The greatest depth of the members' values, or 0 if there are none.
pub open spec fn members_depth(entries: Seq<(Seq<char>, JsonModel)>) -> nat
    decreases entries,
{
    if entries.len() == 0 {
        0
    } else {
        let a = members_depth(entries.subrange(0, entries.len() - 1));
        let b = depth(entries[entries.len() - 1].1);
        if a >= b {
            a
        } else {
            b
        }
    }
}

impl View for JsonValue {
    type V = JsonModel;

    open spec fn view(&self) -> JsonModel {
        model_of(*self)
    }
}

} // verus!
