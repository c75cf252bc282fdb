//! JSON values as they are written in a query.

use vstd::prelude::*;

verus! {

/// A JSON value. A number is kept as the text that stands in the query.
#[derive(Debug)]
pub enum JsonValue {
    Null,
    True,
    False,
    Number(String),
    String(String),
    Array(Vec<JsonValue>),
    Object(Vec<(String, JsonValue)>),
}

/// The mathematical form of a `JsonValue`.
pub enum JsonView {
    Null,
    True,
    False,
    Number(Seq<char>),
    String(Seq<char>),
    Array(Seq<JsonView>),
    Object(Seq<(Seq<char>, JsonView)>),
}

/// The mathematical form of `value`.
pub open spec fn json_view(value: JsonValue) -> JsonView
    decreases value,
{
    match value {
        JsonValue::Null => JsonView::Null,
        JsonValue::True => JsonView::True,
        JsonValue::False => JsonView::False,
        JsonValue::Number(text) => JsonView::Number(text@),
        JsonValue::String(text) => JsonView::String(text@),
        JsonValue::Array(items) => JsonView::Array(
            Seq::new(
                items@.len(),
                |i: int|
                    if 0 <= i < items@.len() {
                        json_view(items@[i])
                    } else {
                        JsonView::Null
                    },
            ),
        ),
        JsonValue::Object(members) => JsonView::Object(
            Seq::new(
                members@.len(),
                |i: int|
                    if 0 <= i < members@.len() {
                        (members@[i].0@, json_view(members@[i].1))
                    } else {
                        (Seq::empty(), JsonView::Null)
                    },
            ),
        ),
    }
}

impl DeepView for JsonValue {
    type V = JsonView;

    open spec fn deep_view(&self) -> JsonView {
        json_view(*self)
    }
}

/// The mathematical form of an array is made of those of its items.
pub broadcast proof fn lemma_array_view(items: Vec<JsonValue>)
    ensures
        #[trigger] json_view(JsonValue::Array(items)) == JsonView::Array(items.deep_view()),
{
    assert(json_view(JsonValue::Array(items))->Array_0 =~= items.deep_view());
}

/// The mathematical form of an object is made of those of its members.
pub broadcast proof fn lemma_object_view(members: Vec<(String, JsonValue)>)
    ensures
        #[trigger] json_view(JsonValue::Object(members)) == JsonView::Object(members.deep_view()),
{
    assert(json_view(JsonValue::Object(members))->Object_0 =~= members.deep_view());
}

} // verus!
