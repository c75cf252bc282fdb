//! JSON values.

use vstd::prelude::*;
use crate::grammar::{Step, later};
use crate::grammar::lexical::{after_token, expect, key, lemma_after_token, lemma_expect, lemma_key};
use crate::grammar::lexical::{lemma_marks, lemma_number, lemma_string_literal, number};
use crate::grammar::lexical::string_literal;
use crate::json_value::JsonView;
use crate::text::starts_at;

verus! {

/// The message of a value that is not JSON.
pub open spec fn invalid_json() -> Seq<char> {
    "Invalid json found"@
}

/// Reads a JSON value that is neither an object nor an array: a string, one of the three
/// words, or a number.
pub open spec fn scalar(s: Seq<char>, at: int) -> Step<Option<JsonView>> {
    match string_literal(s, at) {
        Step::Fail { message, at } => Step::Fail { message, at },
        Step::Done { value: Some(text), at } => Step::Done {
            value: Some(JsonView::String(text)),
            at,
        },
        Step::Done { value: None, at } => if let Some(next) = after_token(s, at, "true"@) {
            Step::Done { value: Some(JsonView::True), at: next }
        } else if let Some(next) = after_token(s, at, "false"@) {
            Step::Done { value: Some(JsonView::False), at: next }
        } else if let Some(next) = after_token(s, at, "null"@) {
            Step::Done { value: Some(JsonView::Null), at: next }
        } else {
            match number(s, at) {
                Step::Fail { message, at } => Step::Fail { message, at },
                Step::Done { value: Some(text), at } => Step::Done {
                    value: Some(JsonView::Number(text)),
                    at,
                },
                Step::Done { value: None, at } => Step::Done { value: None, at },
            }
        },
    }
}

/// Reads a JSON value, if one starts at `at`.
pub open spec fn json(s: Seq<char>, at: int) -> Step<Option<JsonView>>
    decreases s.len() - at, 2int,
{
    if starts_at(s, at, "{"@) {
        match json_object(s, at) {
            Step::Done { value, at } => Step::Done { value: Some(value), at },
            Step::Fail { message, at } => Step::Fail { message, at },
        }
    } else if starts_at(s, at, "["@) {
        match json_array(s, at) {
            Step::Done { value, at } => Step::Done { value: Some(value), at },
            Step::Fail { message, at } => Step::Fail { message, at },
        }
    } else {
        scalar(s, at)
    }
}

/// Reads a JSON object.
pub open spec fn json_object(s: Seq<char>, at: int) -> Step<JsonView>
    decreases s.len() - at, 1int,
{
    match expect(s, at, "{"@) {
        Step::Fail { message, at } => Step::Fail { message, at },
        Step::Done { value: _, at: first } => if let Some(next) = after_token(s, first, "}"@) {
            Step::Done { value: JsonView::Object(Seq::empty()), at: next }
        } else {
            proof {
                lemma_marks();
                lemma_expect(s, at, "{"@);
            }
            json_members(s, first, Seq::empty())
        },
    }
}

/// Reads the members of a JSON object behind those of `before`, and the closing brace.
pub open spec fn json_members(
    s: Seq<char>,
    at: int,
    before: Seq<(Seq<char>, JsonView)>,
) -> Step<JsonView>
    decreases s.len() - at, 0int,
{
    match key(s, at) {
        Step::Fail { message, at } => Step::Fail { message, at },
        Step::Done { value: None, at } => Step::Fail { message: invalid_json(), at },
        Step::Done { value: Some(name), at: colon } => match expect(s, colon, ":"@) {
            Step::Fail { message, at } => Step::Fail { message, at },
            Step::Done { value: _, at: start } => {
                proof {
                    lemma_marks();
                    lemma_key(s, at);
                    lemma_expect(s, colon, ":"@);
                }
                match json(s, start) {
                    Step::Fail { message, at } => Step::Fail { message, at },
                    Step::Done { value: None, at } => Step::Fail { message: invalid_json(), at },
                    Step::Done { value: Some(value), at: end } => {
                        let members = before.push((name, value));
                        match after_token(s, later(start, end), ","@) {
                            Some(next) => {
                                proof {
                                    lemma_after_token(s, later(start, end), ","@);
                                }
                                json_members(s, next, members)
                            },
                            None => match expect(s, end, "}"@) {
                                Step::Fail { message, at } => Step::Fail { message, at },
                                Step::Done { value: _, at } => Step::Done {
                                    value: JsonView::Object(members),
                                    at,
                                },
                            },
                        }
                    },
                }
            },
        },
    }
}

/// Reads a JSON array.
pub open spec fn json_array(s: Seq<char>, at: int) -> Step<JsonView>
    decreases s.len() - at, 1int,
{
    match expect(s, at, "["@) {
        Step::Fail { message, at } => Step::Fail { message, at },
        Step::Done { value: _, at: first } => if let Some(next) = after_token(s, first, "]"@) {
            Step::Done { value: JsonView::Array(Seq::empty()), at: next }
        } else {
            proof {
                lemma_marks();
                lemma_expect(s, at, "["@);
            }
            json_items(s, first, Seq::empty())
        },
    }
}

/// Reads the items of a JSON array behind those of `before`, and the closing bracket.
pub open spec fn json_items(s: Seq<char>, at: int, before: Seq<JsonView>) -> Step<JsonView>
    decreases s.len() - at, 3int,
{
    match json(s, at) {
        Step::Fail { message, at } => Step::Fail { message, at },
        Step::Done { value: None, at } => Step::Fail { message: invalid_json(), at },
        Step::Done { value: Some(value), at: end } => {
            let items = before.push(value);
            match after_token(s, later(at, end), ","@) {
                Some(next) => {
                    proof {
                        lemma_marks();
                        lemma_after_token(s, later(at, end), ","@);
                    }
                    json_items(s, next, items)
                },
                None => match expect(s, end, "]"@) {
                    Step::Fail { message, at } => Step::Fail { message, at },
                    Step::Done { value: _, at } => Step::Done {
                        value: JsonView::Array(items),
                        at,
                    },
                },
            }
        },
    }
}

/// The message of a default value that is missing.
pub open spec fn missing_default() -> Seq<char> {
    "Expected json value for default"@
}

/// Reads a default value, if the word `default` comes next.
pub open spec fn default_value(s: Seq<char>, at: int) -> Step<Option<JsonView>> {
    match after_token(s, at, "default"@) {
        None => Step::Done { value: None, at },
        Some(equals) => match expect(s, equals, "="@) {
            Step::Fail { message, at } => Step::Fail { message, at },
            Step::Done { value: _, at: start } => match json(s, start) {
                Step::Fail { message, at } => Step::Fail { message, at },
                Step::Done { value: None, at } => Step::Fail { message: missing_default(), at },
                Step::Done { value: Some(value), at } => Step::Done { value: Some(value), at },
            },
        },
    }
}

/// A value that is neither an object nor an array takes at least one character.
pub proof fn lemma_scalar(s: Seq<char>, at: int)
    requires
        0 <= at <= s.len(),
    ensures
        scalar(s, at).ends_within(s, at),
        scalar(s, at).takes_something(at),
{
    reveal_strlit("true");
    reveal_strlit("false");
    reveal_strlit("null");
    lemma_string_literal(s, at);
    lemma_after_token(s, at, "true"@);
    lemma_after_token(s, at, "false"@);
    lemma_after_token(s, at, "null"@);
    lemma_number(s, at);
}

/// A JSON value takes at least one character.
pub proof fn lemma_json(s: Seq<char>, at: int)
    requires
        0 <= at <= s.len(),
    ensures
        json(s, at).ends_within(s, at),
        json(s, at).takes_something(at),
    decreases s.len() - at, 2int,
{
    lemma_marks();
    if starts_at(s, at, "{"@) {
        lemma_json_object(s, at);
    } else if starts_at(s, at, "["@) {
        lemma_json_array(s, at);
    } else {
        lemma_scalar(s, at);
    }
}

/// A JSON object takes at least one character.
pub proof fn lemma_json_object(s: Seq<char>, at: int)
    requires
        0 <= at <= s.len(),
    ensures
        json_object(s, at).ends_within(s, at),
        json_object(s, at) is Done ==> at < json_object(s, at).end(),
    decreases s.len() - at, 1int,
{
    lemma_marks();
    lemma_expect(s, at, "{"@);
    if let Step::Done { value: _, at: first } = expect(s, at, "{"@) {
        lemma_after_token(s, first, "}"@);
        lemma_json_members(s, first, Seq::empty());
    }
}

/// The members of a JSON object are read forward.
pub proof fn lemma_json_members(s: Seq<char>, at: int, before: Seq<(Seq<char>, JsonView)>)
    requires
        0 <= at <= s.len(),
    ensures
        json_members(s, at, before).ends_within(s, at),
    decreases s.len() - at, 0int,
{
    lemma_marks();
    lemma_key(s, at);
    if let Step::Done { value: Some(name), at: colon } = key(s, at) {
        lemma_expect(s, colon, ":"@);
        if let Step::Done { value: _, at: start } = expect(s, colon, ":"@) {
            lemma_json(s, start);
            if let Step::Done { value: Some(value), at: end } = json(s, start) {
                lemma_after_token(s, end, ","@);
                lemma_expect(s, end, "}"@);
                if let Some(next) = after_token(s, end, ","@) {
                    lemma_json_members(s, next, before.push((name, value)));
                }
            }
        }
    }
}

/// A JSON array takes at least one character.
pub proof fn lemma_json_array(s: Seq<char>, at: int)
    requires
        0 <= at <= s.len(),
    ensures
        json_array(s, at).ends_within(s, at),
        json_array(s, at) is Done ==> at < json_array(s, at).end(),
    decreases s.len() - at, 1int,
{
    lemma_marks();
    lemma_expect(s, at, "["@);
    if let Step::Done { value: _, at: first } = expect(s, at, "["@) {
        lemma_after_token(s, first, "]"@);
        lemma_json_items(s, first, Seq::empty());
    }
}

/// The items of a JSON array are read forward.
pub proof fn lemma_json_items(s: Seq<char>, at: int, before: Seq<JsonView>)
    requires
        0 <= at <= s.len(),
    ensures
        json_items(s, at, before).ends_within(s, at),
    decreases s.len() - at, 3int,
{
    lemma_marks();
    lemma_json(s, at);
    if let Step::Done { value: Some(value), at: end } = json(s, at) {
        lemma_after_token(s, end, ","@);
        lemma_expect(s, end, "]"@);
        if let Some(next) = after_token(s, end, ","@) {
            lemma_json_items(s, next, before.push(value));
        }
    }
}

/// A default value is read forward.
pub proof fn lemma_default_value(s: Seq<char>, at: int)
    requires
        0 <= at <= s.len(),
    ensures
        default_value(s, at).ends_within(s, at),
{
    lemma_after_token(s, at, "default"@);
    if let Some(equals) = after_token(s, at, "default"@) {
        lemma_expect(s, equals, "="@);
        if let Step::Done { value: _, at: start } = expect(s, equals, "="@) {
            lemma_json(s, start);
        }
    }
}

} // verus!
