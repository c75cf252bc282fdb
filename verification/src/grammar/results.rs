//! The clause on the form of the results.

use vstd::prelude::*;
use crate::grammar::{Step, later};
use crate::grammar::clauses::{direction, keypath, lemma_direction, lemma_keypath};
use crate::grammar::json::{default_value, lemma_default_value};
use crate::grammar::lexical::{after_token, expect, key, lemma_after_token, lemma_expect, lemma_key};
use crate::grammar::lexical::{lemma_marks, lemma_number, lemma_string_literal, must_string_literal};
use crate::grammar::lexical::{number, string_literal};
use crate::json_value::JsonView;
use crate::key_builder::{Path, SegmentView};
use crate::query::{AggregateFun, RetView, Sort};
use crate::text::starts_at;

verus! {

/// Reads the word of a function over groups, if one comes next.
pub open spec fn aggregate_word(s: Seq<char>, at: int) -> Option<(AggregateFun, int)> {
    if let Some(next) = after_token(s, at, "group"@) {
        Some((AggregateFun::GroupAsc, next))
    } else if let Some(next) = after_token(s, at, "sum"@) {
        Some((AggregateFun::Sum, next))
    } else if let Some(next) = after_token(s, at, "max"@) {
        Some((AggregateFun::Max, next))
    } else if let Some(next) = after_token(s, at, "min"@) {
        Some((AggregateFun::Min, next))
    } else if let Some(next) = after_token(s, at, "list"@) {
        Some((AggregateFun::List, next))
    } else if let Some(next) = after_token(s, at, "concat"@) {
        Some((AggregateFun::Concat, next))
    } else if let Some(next) = after_token(s, at, "avg"@) {
        Some((AggregateFun::Avg, next))
    } else if let Some(next) = after_token(s, at, "count"@) {
        Some((AggregateFun::Count, next))
    } else {
        None
    }
}

/// Reads the text that `concat` puts between the values, a comma if none is given.
pub open spec fn separator(s: Seq<char>, at: int) -> Step<Seq<char>> {
    match after_token(s, at, "sep"@) {
        None => Step::Done { value: ","@, at },
        Some(equals) => match expect(s, equals, "="@) {
            Step::Fail { message, at } => Step::Fail { message, at },
            Step::Done { value: _, at: quote } => must_string_literal(s, quote),
        },
    }
}

/// Reads the order that is given to the function `fun`. With an order, every function
/// becomes the grouping in that order.
pub open spec fn aggregate_order(s: Seq<char>, at: int, fun: AggregateFun) -> Step<AggregateFun> {
    match after_token(s, at, "order"@) {
        None => Step::Done { value: fun, at },
        Some(equals) => match expect(s, equals, "="@) {
            Step::Fail { message, at } => Step::Fail { message, at },
            Step::Done { value: _, at: word } => match direction(s, word) {
                (Some(Sort::Asc), next) => Step::Done { value: AggregateFun::GroupAsc, at: next },
                (Some(Sort::Desc), next) => Step::Done {
                    value: AggregateFun::GroupDesc,
                    at: next,
                },
                (None, _) => Step::Fail { message: "Expected asc or desc"@, at: word },
            },
        },
    }
}

/// A function over groups, the path to its values, and its argument.
pub type Aggregate = (AggregateFun, Path, JsonView);

/// Reads the closing parenthesis behind what makes `aggregate`.
pub open spec fn close_aggregate(s: Seq<char>, at: int, aggregate: Aggregate) -> Step<
    Option<Aggregate>,
> {
    match expect(s, at, ")"@) {
        Step::Fail { message, at } => Step::Fail { message, at },
        Step::Done { value: _, at } => Step::Done { value: Some(aggregate), at },
    }
}

/// Reads what stands in the parentheses of the function `fun`, and the closing one.
/// `count` takes nothing; the others take a key path.
pub open spec fn aggregate_argument(s: Seq<char>, at: int, fun: AggregateFun) -> Step<
    Option<Aggregate>,
> {
    if fun == AggregateFun::Count {
        close_aggregate(s, at, (fun, Path::empty(), JsonView::Null))
    } else {
        match keypath(s, at) {
            Step::Fail { message, at } => Step::Fail { message, at },
            Step::Done { value: None, at } => Step::Fail {
                message: "Expected keypath or bind variable"@,
                at,
            },
            Step::Done { value: Some(path), at: end } => if fun == AggregateFun::Concat {
                match separator(s, end) {
                    Step::Fail { message, at } => Step::Fail { message, at },
                    Step::Done { value: text, at } => close_aggregate(
                        s,
                        at,
                        (fun, path, JsonView::String(text)),
                    ),
                }
            } else {
                match aggregate_order(s, end, fun) {
                    Step::Fail { message, at } => Step::Fail { message, at },
                    Step::Done { value: fun, at } => close_aggregate(
                        s,
                        at,
                        (fun, path, JsonView::Null),
                    ),
                }
            },
        }
    }
}

/// Reads a function over groups. Its word without a parenthesis behind it is none.
pub open spec fn aggregate(s: Seq<char>, at: int) -> Step<Option<Aggregate>> {
    match aggregate_word(s, at) {
        None => Step::Done { value: None, at },
        Some((fun, next)) => match after_token(s, next, "("@) {
            None => Step::Done { value: None, at },
            Some(start) => aggregate_argument(s, start, fun),
        },
    }
}

/// Reads what stands in for a missing value, null if nothing is given, behind the path
/// and the function of a value.
pub open spec fn finish_value(
    s: Seq<char>,
    at: int,
    path: Path,
    ag: Option<(AggregateFun, JsonView)>,
) -> Step<Option<RetView>> {
    match default_value(s, at) {
        Step::Fail { message, at } => Step::Fail { message, at },
        Step::Done { value, at } => {
            let default = match value {
                Some(json) => json,
                None => JsonView::Null,
            };
            Step::Done { value: Some(RetView::Value { path, ag, default, sort: None }), at }
        },
    }
}

/// Reads a fixed value in a result: a string, a number, or one of the three words.
pub open spec fn ret_literal(s: Seq<char>, at: int) -> Step<Option<RetView>> {
    match string_literal(s, at) {
        Step::Fail { message, at } => Step::Fail { message, at },
        Step::Done { value: Some(text), at } => Step::Done {
            value: Some(RetView::Literal(JsonView::String(text))),
            at,
        },
        Step::Done { value: None, at } => match number(s, at) {
            Step::Fail { message, at } => Step::Fail { message, at },
            Step::Done { value: Some(text), at } => Step::Done {
                value: Some(RetView::Literal(JsonView::Number(text))),
                at,
            },
            Step::Done { value: None, at } => if let Some(next) = after_token(s, at, "true"@) {
                Step::Done { value: Some(RetView::Literal(JsonView::True)), at: next }
            } else if let Some(next) = after_token(s, at, "false"@) {
                Step::Done { value: Some(RetView::Literal(JsonView::False)), at: next }
            } else if let Some(next) = after_token(s, at, "null"@) {
                Step::Done { value: Some(RetView::Literal(JsonView::Null)), at: next }
            } else {
                Step::Done { value: None, at }
            },
        },
    }
}

/// Reads a value of the document, with a function over groups or without one.
pub open spec fn ret_leaf(s: Seq<char>, at: int) -> Step<Option<RetView>> {
    match aggregate(s, at) {
        Step::Fail { message, at } => Step::Fail { message, at },
        Step::Done { value: Some((fun, path, json)), at } => finish_value(
            s,
            at,
            path,
            Some((fun, json)),
        ),
        Step::Done { value: None, at } => match keypath(s, at) {
            Step::Fail { message, at } => Step::Fail { message, at },
            Step::Done { value: Some(path), at } => finish_value(s, at, path, None),
            Step::Done { value: None, at } => Step::Done { value: None, at },
        },
    }
}

/// Reads the form of a result, if one starts at `at`.
pub open spec fn ret_value(s: Seq<char>, at: int) -> Step<Option<RetView>>
    decreases s.len() - at, 2int,
{
    match ret_leaf(s, at) {
        Step::Fail { message, at } => Step::Fail { message, at },
        Step::Done { value: Some(value), at } => Step::Done { value: Some(value), at },
        Step::Done { value: None, .. } => if starts_at(s, at, "{"@) {
            match ret_object(s, at) {
                Step::Done { value, at } => Step::Done { value: Some(value), at },
                Step::Fail { message, at } => Step::Fail { message, at },
            }
        } else if starts_at(s, at, "["@) {
            match ret_array(s, at) {
                Step::Done { value, at } => Step::Done { value: Some(value), at },
                Step::Fail { message, at } => Step::Fail { message, at },
            }
        } else {
            ret_literal(s, at)
        },
    }
}

/// Reads an object in a result.
pub open spec fn ret_object(s: Seq<char>, at: int) -> Step<RetView>
    decreases s.len() - at, 1int,
{
    match expect(s, at, "{"@) {
        Step::Fail { message, at } => Step::Fail { message, at },
        Step::Done { value: _, at: first } => {
            proof {
                lemma_marks();
                lemma_expect(s, at, "{"@);
            }
            ret_fields(s, first, Seq::empty())
        },
    }
}

/// Reads the closing brace of an object with the members `fields`.
pub open spec fn close_object(s: Seq<char>, at: int, fields: Seq<(Seq<char>, RetView)>) -> Step<
    RetView,
> {
    match expect(s, at, "}"@) {
        Step::Fail { message, at } => Step::Fail { message, at },
        Step::Done { value: _, at } => Step::Done { value: RetView::Object(fields), at },
    }
}

/// Reads the members of an object behind those of `before`, and the closing brace, which
/// may follow a comma.
pub open spec fn ret_fields(
    s: Seq<char>,
    at: int,
    before: Seq<(Seq<char>, RetView)>,
) -> Step<RetView>
    decreases s.len() - at, 0int,
{
    match key(s, at) {
        Step::Fail { message, at } => Step::Fail { message, at },
        Step::Done { value: None, at } => close_object(s, at, before),
        Step::Done { value: Some(name), at: colon } => match expect(s, colon, ":"@) {
            Step::Fail { message, at } => Step::Fail { message, at },
            Step::Done { value: _, at: start } => {
                proof {
                    lemma_marks();
                    lemma_key(s, at);
                    lemma_expect(s, colon, ":"@);
                }
                match ret_value(s, start) {
                    Step::Fail { message, at } => Step::Fail { message, at },
                    Step::Done { value: None, at } => Step::Fail {
                        message: "Expected key to return."@,
                        at,
                    },
                    Step::Done { value: Some(value), at: end } => {
                        let fields = before.push((name, value));
                        match after_token(s, later(start, end), ","@) {
                            Some(next) => {
                                proof {
                                    lemma_after_token(s, later(start, end), ","@);
                                }
                                ret_fields(s, next, fields)
                            },
                            None => close_object(s, end, fields),
                        }
                    },
                }
            },
        },
    }
}

/// Reads an array in a result.
pub open spec fn ret_array(s: Seq<char>, at: int) -> Step<RetView>
    decreases s.len() - at, 1int,
{
    match expect(s, at, "["@) {
        Step::Fail { message, at } => Step::Fail { message, at },
        Step::Done { value: _, at: first } => {
            proof {
                lemma_marks();
                lemma_expect(s, at, "["@);
            }
            ret_slots(s, first, Seq::empty())
        },
    }
}

/// Reads the closing bracket of an array with the items `slots`.
pub open spec fn close_array(s: Seq<char>, at: int, slots: Seq<RetView>) -> Step<RetView> {
    match expect(s, at, "]"@) {
        Step::Fail { message, at } => Step::Fail { message, at },
        Step::Done { value: _, at } => Step::Done { value: RetView::Array(slots), at },
    }
}

/// Reads the items of an array behind those of `before`, and the closing bracket, which
/// may follow a comma.
pub open spec fn ret_slots(s: Seq<char>, at: int, before: Seq<RetView>) -> Step<RetView>
    decreases s.len() - at, 3int,
{
    match ret_value(s, at) {
        Step::Fail { message, at } => Step::Fail { message, at },
        Step::Done { value: None, at } => close_array(s, at, before),
        Step::Done { value: Some(value), at: end } => {
            let slots = before.push(value);
            match after_token(s, later(at, end), ","@) {
                Some(next) => {
                    proof {
                        lemma_marks();
                        lemma_after_token(s, later(at, end), ","@);
                    }
                    ret_slots(s, next, slots)
                },
                None => close_array(s, end, slots),
            }
        },
    }
}

/// The form of a result where the query gives none: the identifier of the document.
pub open spec fn identifier() -> RetView {
    RetView::Value {
        path: seq![SegmentView::ObjectKey("_id"@)],
        ag: None,
        default: JsonView::Null,
        sort: None,
    }
}

/// Reads the clause on the form of the results, which may be missing.
pub open spec fn return_clause(s: Seq<char>, at: int) -> Step<RetView> {
    match after_token(s, at, "return"@) {
        None => Step::Done { value: identifier(), at },
        Some(start) => match ret_value(s, start) {
            Step::Fail { message, at } => Step::Fail { message, at },
            Step::Done { value: None, at } => Step::Fail {
                message: "Expected key, object or array to return."@,
                at,
            },
            Step::Done { value: Some(value), at } => Step::Done { value, at },
        },
    }
}

/// The word of a function takes at least one character.
pub proof fn lemma_aggregate_word(s: Seq<char>, at: int)
    ensures
        aggregate_word(s, at) matches Some((fun, next)) ==> 0 <= at < next <= s.len(),
{
    reveal_strlit("group");
    reveal_strlit("sum");
    reveal_strlit("max");
    reveal_strlit("min");
    reveal_strlit("list");
    reveal_strlit("concat");
    reveal_strlit("avg");
    reveal_strlit("count");
    lemma_after_token(s, at, "group"@);
    lemma_after_token(s, at, "sum"@);
    lemma_after_token(s, at, "max"@);
    lemma_after_token(s, at, "min"@);
    lemma_after_token(s, at, "list"@);
    lemma_after_token(s, at, "concat"@);
    lemma_after_token(s, at, "avg"@);
    lemma_after_token(s, at, "count"@);
}

/// What stands in the parentheses of a function is read forward.
pub proof fn lemma_aggregate_argument(s: Seq<char>, at: int, fun: AggregateFun)
    requires
        0 <= at <= s.len(),
    ensures
        aggregate_argument(s, at, fun).ends_within(s, at),
        aggregate_argument(s, at, fun) matches Step::Done { value, at: end } ==> value is Some,
{
    lemma_expect(s, at, ")"@);
    lemma_keypath(s, at);
    if let Step::Done { value: Some(path), at: end } = keypath(s, at) {
        lemma_after_token(s, end, "sep"@);
        if let Some(equals) = after_token(s, end, "sep"@) {
            lemma_expect(s, equals, "="@);
            if let Step::Done { value: _, at: quote } = expect(s, equals, "="@) {
                lemma_string_literal(s, quote);
            }
        }
        lemma_expect(s, separator(s, end).end(), ")"@);
        lemma_after_token(s, end, "order"@);
        if let Some(equals) = after_token(s, end, "order"@) {
            lemma_expect(s, equals, "="@);
            if let Step::Done { value: _, at: word } = expect(s, equals, "="@) {
                lemma_direction(s, word);
            }
        }
        lemma_expect(s, aggregate_order(s, end, fun).end(), ")"@);
    }
}

/// A function over groups takes at least one character.
pub proof fn lemma_aggregate(s: Seq<char>, at: int)
    requires
        0 <= at <= s.len(),
    ensures
        aggregate(s, at).ends_within(s, at),
        aggregate(s, at).takes_something(at),
{
    lemma_aggregate_word(s, at);
    if let Some((fun, next)) = aggregate_word(s, at) {
        lemma_after_token(s, next, "("@);
        if let Some(start) = after_token(s, next, "("@) {
            lemma_aggregate_argument(s, start, fun);
        }
    }
}

/// A fixed value takes at least one character.
pub proof fn lemma_ret_literal(s: Seq<char>, at: int)
    requires
        0 <= at <= s.len(),
    ensures
        ret_literal(s, at).ends_within(s, at),
        ret_literal(s, at).takes_something(at),
{
    reveal_strlit("true");
    reveal_strlit("false");
    reveal_strlit("null");
    lemma_string_literal(s, at);
    lemma_number(s, at);
    lemma_after_token(s, at, "true"@);
    lemma_after_token(s, at, "false"@);
    lemma_after_token(s, at, "null"@);
}

/// A value of the document takes at least one character.
pub proof fn lemma_ret_leaf(s: Seq<char>, at: int)
    requires
        0 <= at <= s.len(),
    ensures
        ret_leaf(s, at).ends_within(s, at),
        ret_leaf(s, at).takes_something(at),
{
    lemma_aggregate(s, at);
    lemma_keypath(s, at);
    lemma_default_value(s, aggregate(s, at).end());
    lemma_default_value(s, keypath(s, at).end());
}

/// The form of a result takes at least one character.
pub proof fn lemma_ret_value(s: Seq<char>, at: int)
    requires
        0 <= at <= s.len(),
    ensures
        ret_value(s, at).ends_within(s, at),
        ret_value(s, at).takes_something(at),
    decreases s.len() - at, 2int,
{
    lemma_marks();
    lemma_ret_leaf(s, at);
    if starts_at(s, at, "{"@) {
        lemma_ret_object(s, at);
    } else if starts_at(s, at, "["@) {
        lemma_ret_array(s, at);
    } else {
        lemma_ret_literal(s, at);
    }
}

/// An object in a result takes at least one character.
pub proof fn lemma_ret_object(s: Seq<char>, at: int)
    requires
        0 <= at <= s.len(),
    ensures
        ret_object(s, at).ends_within(s, at),
        ret_object(s, at) is Done ==> at < ret_object(s, at).end(),
    decreases s.len() - at, 1int,
{
    lemma_marks();
    lemma_expect(s, at, "{"@);
    if let Step::Done { value: _, at: first } = expect(s, at, "{"@) {
        lemma_ret_fields(s, first, Seq::empty());
    }
}

/// The members of an object are read forward.
pub proof fn lemma_ret_fields(s: Seq<char>, at: int, before: Seq<(Seq<char>, RetView)>)
    requires
        0 <= at <= s.len(),
    ensures
        ret_fields(s, at, before).ends_within(s, at),
    decreases s.len() - at, 0int,
{
    lemma_marks();
    lemma_key(s, at);
    lemma_expect(s, at, "}"@);
    if let Step::Done { value: Some(name), at: colon } = key(s, at) {
        lemma_expect(s, colon, ":"@);
        if let Step::Done { value: _, at: start } = expect(s, colon, ":"@) {
            lemma_ret_value(s, start);
            if let Step::Done { value: Some(value), at: end } = ret_value(s, start) {
                lemma_after_token(s, end, ","@);
                lemma_expect(s, end, "}"@);
                if let Some(next) = after_token(s, end, ","@) {
                    lemma_ret_fields(s, next, before.push((name, value)));
                }
            }
        }
    }
}

/// An array in a result takes at least one character.
pub proof fn lemma_ret_array(s: Seq<char>, at: int)
    requires
        0 <= at <= s.len(),
    ensures
        ret_array(s, at).ends_within(s, at),
        ret_array(s, at) is Done ==> at < ret_array(s, at).end(),
    decreases s.len() - at, 1int,
{
    lemma_marks();
    lemma_expect(s, at, "["@);
    if let Step::Done { value: _, at: first } = expect(s, at, "["@) {
        lemma_ret_slots(s, first, Seq::empty());
    }
}

/// The items of an array are read forward.
pub proof fn lemma_ret_slots(s: Seq<char>, at: int, before: Seq<RetView>)
    requires
        0 <= at <= s.len(),
    ensures
        ret_slots(s, at, before).ends_within(s, at),
    decreases s.len() - at, 3int,
{
    lemma_marks();
    lemma_ret_value(s, at);
    lemma_expect(s, at, "]"@);
    if let Step::Done { value: Some(value), at: end } = ret_value(s, at) {
        lemma_after_token(s, end, ","@);
        lemma_expect(s, end, "]"@);
        if let Some(next) = after_token(s, end, ","@) {
            lemma_ret_slots(s, next, before.push(value));
        }
    }
}

} // verus!
