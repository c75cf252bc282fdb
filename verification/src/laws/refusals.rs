//! What is refused, with which message, and where. What is wrong in a part is wrong in the
//! whole, with the message and the position of the part.

use vstd::prelude::*;
use crate::grammar::Step;
use crate::grammar::clauses::{keypath, lemma_sort_key, limit_clause, path_steps, sort_clause};
use crate::grammar::clauses::{sort_default, sort_key, sort_keys};
use crate::grammar::json::{default_value, json, json_array, json_items, json_members, json_object};
use crate::grammar::json::lemma_json;
use crate::grammar::lexical::{after_token, expect, field, integer, key, lemma_after_token};
use crate::grammar::lexical::{lemma_integer, lemma_key, lemma_marks, lemma_quote_token};
use crate::grammar::lexical::{must_string_literal, number, string_literal};
use crate::grammar::results::{aggregate, aggregate_order, aggregate_word, lemma_ret_value};
use crate::grammar::results::{ret_array, ret_fields, ret_leaf, ret_object, ret_slots, ret_value};
use crate::grammar::results::{return_clause, separator};
use crate::json_value::JsonView;
use crate::key_builder::{Path, SegmentView};
use crate::laws::basic::numeral;
use crate::laws::json::lemma_words;
use crate::laws::lexical::lemma_starts_at_char;
use crate::laws::pen_form::{alone, fun_word};
use crate::laws::pen_order::lemma_order_words;
use crate::query::{AggregateFun, RetView, SortView};
use crate::text::{skip_ws, starts_at};

verus! {

/// The message and the position of a reading that failed.
pub open spec fn refused<T>(step: Step<T>) -> Option<(Seq<char>, int)> {
    match step {
        Step::Done { .. } => None,
        Step::Fail { message, at } => Some((message, at)),
    }
}

/// Whether nothing is read at `at`, and nothing passed.
pub open spec fn nothing<T>(step: Step<Option<T>>, at: int) -> bool {
    step matches Step::Done { value: None, at: end } && end == at
}

/// Whether `value` is read up to `end`.
pub open spec fn reads<T>(step: Step<T>, value: T, end: int) -> bool {
    step matches Step::Done { value: read, at } && read == value && at == end
}

/// Where a string literal has to stand and none does, that is said. One that stands there is
/// read, and one that is wrong is refused as such.
pub proof fn law_literal_missing(s: Seq<char>, at: int)
    ensures
        nothing(string_literal(s, at), at) ==> refused(must_string_literal(s, at)) == Some(
            ("Expected string literal."@, at),
        ),
        string_literal(s, at) matches Step::Done { value: Some(text), at: end } ==> reads(
            must_string_literal(s, at),
            text,
            end,
        ),
        refused(string_literal(s, at)) matches Some(r) ==> refused(must_string_literal(s, at))
            == Some(r),
{
}

/// The steps of a path are read one by one. An index has to be an integer with a bracket
/// behind it, and a key has to be a name.
pub proof fn law_steps_refused(s: Seq<char>, at: int, before: Path, start: int)
    requires
        0 <= at <= s.len(),
    ensures
        after_token(s, at, "["@) == Some(start) ==> {
            let index = integer(s, start);
            &&& refused(index) matches Some(r) ==> refused(path_steps(s, at, before)) == Some(r)
            &&& nothing(index, start) ==> refused(path_steps(s, at, before)) == Some(
                ("Expected array index integer."@, start),
            )
            &&& index matches Step::Done { value: Some(i), at: end } ==> {
                &&& refused(expect(s, end, "]"@)) matches Some(r) ==> refused(
                    path_steps(s, at, before),
                ) == Some(r)
                &&& after_token(s, end, "]"@) matches Some(next) ==> path_steps(s, at, before)
                    == path_steps(s, next, before.push(SegmentView::ArrayIndex(i as u64)))
            }
        },
        after_token(s, at, "["@) is None && after_token(s, at, "."@) == Some(start) ==> {
            &&& field(s, start) is None ==> refused(path_steps(s, at, before)) == Some(
                ("Expected object key."@, start),
            )
            &&& field(s, start) matches Some((name, next)) ==> path_steps(s, at, before)
                == path_steps(s, next, before.push(SegmentView::ObjectKey(name)))
        },
{
}

/// Without a dot there is no path. In brackets behind the dot stands a string literal, and
/// what is wrong in the steps is wrong in the path.
pub proof fn law_path_refused(s: Seq<char>, at: int, start: int)
    ensures
        after_token(s, at, "."@) is None ==> nothing(keypath(s, at), at),
        after_token(s, at, "."@) == Some(start) ==> {
            &&& after_token(s, start, "["@) matches Some(quote) ==> {
                let literal = must_string_literal(s, quote);
                &&& refused(literal) matches Some(r) ==> refused(keypath(s, at)) == Some(r)
                &&& literal matches Step::Done { value: name, at: end } ==> {
                    &&& refused(expect(s, end, "]"@)) matches Some(r) ==> refused(keypath(s, at))
                        == Some(r)
                    &&& after_token(s, end, "]"@) matches Some(next) ==> (refused(
                        path_steps(s, next, seq![SegmentView::ObjectKey(name)]),
                    ) matches Some(r) ==> refused(keypath(s, at)) == Some(r))
                }
            }
            &&& after_token(s, start, "["@) is None ==> (field(s, start) matches Some((name, next))
                ==> (refused(path_steps(s, next, seq![SegmentView::ObjectKey(name)])) matches Some(
                r,
            ) ==> refused(keypath(s, at)) == Some(r)))
        },
{
}

/// Behind the word `default` stands an equals sign and a JSON value.
pub proof fn law_default_refused(s: Seq<char>, at: int, equals: int)
    ensures
        after_token(s, at, "default"@) is None ==> nothing(default_value(s, at), at) && reads(
            sort_default(s, at),
            JsonView::Null,
            at,
        ),
        after_token(s, at, "default"@) == Some(equals) ==> {
            &&& refused(expect(s, equals, "="@)) matches Some(r) ==> refused(default_value(s, at))
                == Some(r) && refused(sort_default(s, at)) == Some(r)
            &&& after_token(s, equals, "="@) matches Some(start) ==> {
                &&& refused(json(s, start)) matches Some(r) ==> refused(default_value(s, at))
                    == Some(r) && refused(sort_default(s, at)) == Some(r)
                &&& json(s, start) matches Step::Done { value: None, at: end } ==> refused(
                    default_value(s, at),
                ) == Some(("Expected json value for default"@, end)) && refused(
                    sort_default(s, at),
                ) == Some(("Expected Json after default."@, end))
                &&& json(s, start) matches Step::Done { value: Some(value), at: end } ==> reads(
                    default_value(s, at),
                    Some(value),
                    end,
                ) && reads(sort_default(s, at), value, end)
            }
        },
{
}

/// A key of the order needs a path, and what is wrong in its path or its default is wrong in
/// the key.
pub proof fn law_sort_key_refused(s: Seq<char>, at: int)
    requires
        0 <= at <= s.len(),
    ensures
        refused(keypath(s, at)) matches Some(r) ==> refused(sort_key(s, at)) == Some(r),
        keypath(s, at) matches Step::Done { value: None, at: end } ==> refused(sort_key(s, at))
            == Some(("Expected field path in sort expression."@, end)),
        keypath(s, at) matches Step::Done { value: Some(path), at: end } ==> {
            let start = if starts_at(s, end, "asc"@) || starts_at(s, end, "desc"@) {
                skip_ws(
                    s,
                    end + (if starts_at(s, end, "asc"@) {
                        3int
                    } else {
                        4int
                    }),
                )
            } else {
                end
            };
            refused(sort_default(s, start)) matches Some(r) ==> refused(sort_key(s, at)) == Some(r)
        },
{
    lemma_order_words();
}

/// The keys of an order are read one by one, with commas between them. What is wrong in one
/// is wrong in the order.
pub proof fn law_order_refused(s: Seq<char>, at: int, before: Seq<SortView>)
    requires
        0 <= at <= s.len(),
    ensures
        refused(sort_key(s, at)) matches Some(r) ==> refused(sort_keys(s, at, before)) == Some(r),
        sort_key(s, at) matches Step::Done { value, at: end } ==> {
            &&& after_token(s, end, ","@) matches Some(next) ==> sort_keys(s, at, before)
                == sort_keys(s, next, before.push(value))
            &&& after_token(s, end, ","@) is None ==> reads(
                sort_keys(s, at, before),
                before.push(value),
                end,
            )
        },
        after_token(s, at, "sort"@) matches Some(start) ==> sort_clause(s, at) == sort_keys(
            s,
            start,
            Seq::empty(),
        ),
        after_token(s, at, "sort"@) is None ==> reads(
            sort_clause(s, at),
            Seq::<SortView>::empty(),
            at,
        ),
{
    lemma_sort_key(s, at);
}

/// A limit is an integer greater than zero. Without the word for it there is none.
pub proof fn law_limit_read(s: Seq<char>, at: int)
    requires
        0 <= at <= s.len(),
    ensures
        after_token(s, at, "limit"@) is None ==> reads(limit_clause(s, at), usize::MAX, at),
        after_token(s, at, "limit"@) matches Some(start) ==> {
            &&& refused(integer(s, start)) matches Some(r) ==> refused(limit_clause(s, at)) == Some(
                r,
            )
            &&& nothing(integer(s, start), start) ==> refused(limit_clause(s, at)) == Some(
                ("limit expects an integer greater than 0"@, start),
            )
            &&& integer(s, start) matches Step::Done { value: Some(n), at: end } ==> if n == 0 {
                refused(limit_clause(s, at)) == Some(
                    ("limit must be an integer greater than 0"@, end),
                )
            } else {
                reads(limit_clause(s, at), n as usize, end)
            }
        },
{
    lemma_after_token(s, at, "limit"@);
    if let Some(start) = after_token(s, at, "limit"@) {
        lemma_integer(s, start);
    }
}

/// A JSON value is an object behind a brace and an array behind a bracket, and these are read
/// and refused as such. Where neither a mark, a word, a sign nor a digit stands, there is none.
pub proof fn law_json_kinds(s: Seq<char>, at: int)
    requires
        0 <= at <= s.len(),
    ensures
        starts_at(s, at, "{"@) ==> {
            &&& refused(json(s, at)) == refused(json_object(s, at))
            &&& json_object(s, at) matches Step::Done { value, at: end } ==> reads(
                json(s, at),
                Some(value),
                end,
            )
        },
        !starts_at(s, at, "{"@) ==> refused(json_object(s, at)) == refused(expect(s, at, "{"@)),
        starts_at(s, at, "["@) ==> {
            &&& refused(json(s, at)) == refused(json_array(s, at))
            &&& json_array(s, at) matches Step::Done { value, at: end } ==> reads(
                json(s, at),
                Some(value),
                end,
            )
        },
        !starts_at(s, at, "["@) ==> refused(json_array(s, at)) == refused(expect(s, at, "["@)),
        starts_at(s, at, "\""@) ==> refused(json(s, at)) == refused(string_literal(s, at)),
        at < s.len() && (s[at] == '-' || numeral(s[at])) ==> refused(json(s, at)) == refused(
            number(s, at),
        ),
        (at == s.len() || !(starts_at(s, at, "{"@) || starts_at(s, at, "["@) || starts_at(
            s,
            at,
            "\""@,
        ) || starts_at(s, at, "true"@) || starts_at(s, at, "false"@) || starts_at(s, at, "null"@)
            || s[at] == '-' || numeral(s[at]))) ==> nothing(json(s, at), at),
        at < s.len() && s[at] == '-' && nothing(number(s, at), at) ==> nothing(json(s, at), at),
{
    lemma_marks();
    lemma_words();
    lemma_quote_token();
    if at < s.len() {
        lemma_first_char(s, at, "{"@);
        lemma_first_char(s, at, "["@);
        lemma_first_char(s, at, "\""@);
        lemma_first_char(s, at, "true"@);
        lemma_first_char(s, at, "false"@);
        lemma_first_char(s, at, "null"@);
    }
}

/// A token that stands has its first character first.
proof fn lemma_first_char(s: Seq<char>, at: int, token: Seq<char>)
    requires
        token.len() > 0,
    ensures
        starts_at(s, at, token) ==> s[at] == token[0],
{
    if starts_at(s, at, token) {
        lemma_starts_at_char(s, at, token, 0);
    }
}

/// The members of an object are read one by one: a key, a colon, a value, and a comma or the
/// closing brace.
pub proof fn law_members_refused(s: Seq<char>, at: int, before: Seq<(Seq<char>, JsonView)>)
    requires
        0 <= at <= s.len(),
    ensures
        after_token(s, at, "{"@) matches Some(start) ==> if let Some(next) = after_token(
            s,
            start,
            "}"@,
        ) {
            reads(json_object(s, at), JsonView::Object(Seq::empty()), next)
        } else {
            json_object(s, at) == json_members(s, start, Seq::empty())
        },
        refused(key(s, at)) matches Some(r) ==> refused(json_members(s, at, before)) == Some(r),
        nothing(key(s, at), at) ==> refused(json_members(s, at, before)) == Some(
            ("Invalid json found"@, at),
        ),
        key(s, at) matches Step::Done { value: Some(name), at: colon } ==> {
            &&& refused(expect(s, colon, ":"@)) matches Some(r) ==> refused(
                json_members(s, at, before),
            ) == Some(r)
            &&& after_token(s, colon, ":"@) matches Some(start) ==> {
                &&& refused(json(s, start)) matches Some(r) ==> refused(
                    json_members(s, at, before),
                ) == Some(r)
                &&& nothing(json(s, start), start) ==> refused(json_members(s, at, before)) == Some(
                    ("Invalid json found"@, start),
                )
                &&& json(s, start) matches Step::Done { value: Some(value), at: end } ==> {
                    &&& after_token(s, end, ","@) matches Some(next) ==> json_members(s, at, before)
                        == json_members(s, next, before.push((name, value)))
                    &&& after_token(s, end, ","@) is None ==> (refused(expect(s, end, "}"@))
                        matches Some(r) ==> refused(json_members(s, at, before)) == Some(r))
                }
            }
        },
{
    lemma_marks();
    lemma_key(s, at);
    if let Step::Done { value: Some(name), at: colon } = key(s, at) {
        lemma_after_token(s, colon, ":"@);
        if let Some(start) = after_token(s, colon, ":"@) {
            lemma_json(s, start);
        }
    }
}

/// The items of an array are read one by one: a value, and a comma or the closing bracket.
pub proof fn law_items_refused(s: Seq<char>, at: int, before: Seq<JsonView>)
    requires
        0 <= at <= s.len(),
    ensures
        after_token(s, at, "["@) matches Some(start) ==> if let Some(next) = after_token(
            s,
            start,
            "]"@,
        ) {
            reads(json_array(s, at), JsonView::Array(Seq::empty()), next)
        } else {
            json_array(s, at) == json_items(s, start, Seq::empty())
        },
        refused(json(s, at)) matches Some(r) ==> refused(json_items(s, at, before)) == Some(r),
        nothing(json(s, at), at) ==> refused(json_items(s, at, before)) == Some(
            ("Invalid json found"@, at),
        ),
        json(s, at) matches Step::Done { value: Some(value), at: end } ==> {
            &&& after_token(s, end, ","@) matches Some(next) ==> json_items(s, at, before)
                == json_items(s, next, before.push(value))
            &&& after_token(s, end, ","@) is None ==> (refused(expect(s, end, "]"@)) matches Some(
                r,
            ) ==> refused(json_items(s, at, before)) == Some(r))
        },
{
    lemma_json(s, at);
}

/// The text between the values of a concatenation is a string literal behind `sep` and an
/// equals sign, and a comma without the word.
pub proof fn law_separator_refused(s: Seq<char>, at: int)
    ensures
        after_token(s, at, "sep"@) is None ==> reads(separator(s, at), ","@, at),
        after_token(s, at, "sep"@) matches Some(equals) ==> {
            &&& refused(expect(s, equals, "="@)) matches Some(r) ==> refused(separator(s, at))
                == Some(r)
            &&& after_token(s, equals, "="@) matches Some(quote) ==> separator(s, at)
                == must_string_literal(s, quote)
        },
{
}

/// The order of a function is one of two words behind `order` and an equals sign, and makes a
/// grouping of the function. Without the word the function stays what it is.
pub proof fn law_order_option_refused(s: Seq<char>, at: int, fun: AggregateFun)
    ensures
        after_token(s, at, "order"@) is None ==> reads(aggregate_order(s, at, fun), fun, at),
        after_token(s, at, "order"@) matches Some(equals) ==> {
            &&& refused(expect(s, equals, "="@)) matches Some(r) ==> refused(
                aggregate_order(s, at, fun),
            ) == Some(r)
            &&& after_token(s, equals, "="@) matches Some(word) ==> {
                &&& after_token(s, word, "asc"@) matches Some(next) ==> reads(
                    aggregate_order(s, at, fun),
                    AggregateFun::GroupAsc,
                    next,
                )
                &&& after_token(s, word, "asc"@) is None ==> {
                    &&& after_token(s, word, "desc"@) matches Some(next) ==> reads(
                        aggregate_order(s, at, fun),
                        AggregateFun::GroupDesc,
                        next,
                    )
                    &&& after_token(s, word, "desc"@) is None ==> refused(
                        aggregate_order(s, at, fun),
                    ) == Some(("Expected asc or desc"@, word))
                }
            }
        },
{
}

/// A function over groups is its word, a parenthesis, a path save for the count, what the
/// function takes besides, and the closing parenthesis. A word without a parenthesis is none.
pub proof fn law_function_refused(s: Seq<char>, at: int, fun: AggregateFun, next: int)
    requires
        after_token(s, at, fun_word(fun)) == Some(next),
        forall|other: AggregateFun|
            alone(other) != alone(fun) ==> (#[trigger] after_token(s, at, fun_word(other))) is None,
    ensures
        after_token(s, next, "("@) is None ==> nothing(aggregate(s, at), at),
        after_token(s, next, "("@) matches Some(start) ==> {
            &&& fun == AggregateFun::Count ==> (refused(expect(s, start, ")"@)) matches Some(r)
                ==> refused(aggregate(s, at)) == Some(r))
            &&& fun != AggregateFun::Count ==> {
                &&& refused(keypath(s, start)) matches Some(r) ==> refused(aggregate(s, at))
                    == Some(r)
                &&& keypath(s, start) matches Step::Done { value: None, at: end } ==> refused(
                    aggregate(s, at),
                ) == Some(("Expected keypath or bind variable"@, end))
                &&& keypath(s, start) matches Step::Done { value: Some(path), at: end } ==> {
                    &&& fun == AggregateFun::Concat ==> {
                        &&& refused(separator(s, end)) matches Some(r) ==> refused(aggregate(s, at))
                            == Some(r)
                        &&& separator(s, end) matches Step::Done { value, at: close } ==> (refused(
                            expect(s, close, ")"@),
                        ) matches Some(r) ==> refused(aggregate(s, at)) == Some(r))
                    }
                    &&& fun != AggregateFun::Concat ==> {
                        let order = aggregate_order(s, end, alone(fun));
                        &&& refused(order) matches Some(r) ==> refused(aggregate(s, at)) == Some(r)
                        &&& order matches Step::Done { value, at: close } ==> (refused(
                            expect(s, close, ")"@),
                        ) matches Some(r) ==> refused(aggregate(s, at)) == Some(r))
                    }
                }
            }
        },
{
    lemma_function_words(s, at, fun, next);
}

/// The word for a function is read as the function.
pub proof fn lemma_function_words(s: Seq<char>, at: int, fun: AggregateFun, next: int)
    requires
        after_token(s, at, fun_word(fun)) == Some(next),
        forall|other: AggregateFun|
            alone(other) != alone(fun) ==> (#[trigger] after_token(s, at, fun_word(other))) is None,
    ensures
        aggregate_word(s, at) == Some((alone(fun), next)),
{
    let group = after_token(s, at, fun_word(AggregateFun::GroupAsc));
    let sum = after_token(s, at, fun_word(AggregateFun::Sum));
    let max = after_token(s, at, fun_word(AggregateFun::Max));
    let min = after_token(s, at, fun_word(AggregateFun::Min));
    let list = after_token(s, at, fun_word(AggregateFun::List));
    let concat = after_token(s, at, fun_word(AggregateFun::Concat));
    let avg = after_token(s, at, fun_word(AggregateFun::Avg));
    let count = after_token(s, at, fun_word(AggregateFun::Count));
    assert(alone(fun) != AggregateFun::GroupAsc ==> group is None);
    assert(fun != AggregateFun::Sum ==> sum is None);
    assert(fun != AggregateFun::Max ==> max is None);
    assert(fun != AggregateFun::Min ==> min is None);
    assert(fun != AggregateFun::List ==> list is None);
    assert(fun != AggregateFun::Concat ==> concat is None);
    assert(fun != AggregateFun::Avg ==> avg is None);
    assert(fun != AggregateFun::Count ==> count is None);
}

/// Where no word of a function stands there is no function.
pub proof fn law_no_function(s: Seq<char>, at: int)
    requires
        forall|fun: AggregateFun| (#[trigger] after_token(s, at, fun_word(fun))) is None,
    ensures
        nothing(aggregate(s, at), at),
{
    let group = after_token(s, at, fun_word(AggregateFun::GroupAsc));
    let sum = after_token(s, at, fun_word(AggregateFun::Sum));
    let max = after_token(s, at, fun_word(AggregateFun::Max));
    let min = after_token(s, at, fun_word(AggregateFun::Min));
    let list = after_token(s, at, fun_word(AggregateFun::List));
    let concat = after_token(s, at, fun_word(AggregateFun::Concat));
    let avg = after_token(s, at, fun_word(AggregateFun::Avg));
    let count = after_token(s, at, fun_word(AggregateFun::Count));
    assert(group is None && sum is None && max is None && min is None && list is None);
    assert(concat is None && avg is None && count is None);
}

/// What is wrong in the function, the path or the default of a value of a form is wrong in
/// the form, whatever else might stand there.
pub proof fn law_value_refused(s: Seq<char>, at: int)
    ensures
        refused(aggregate(s, at)) matches Some(r) ==> refused(ret_value(s, at)) == Some(r),
        aggregate(s, at) matches Step::Done { value: Some(_), at: end } ==> (refused(
            default_value(s, end),
        ) matches Some(r) ==> refused(ret_value(s, at)) == Some(r)),
        nothing(aggregate(s, at), at) ==> {
            &&& refused(keypath(s, at)) matches Some(r) ==> refused(ret_value(s, at)) == Some(r)
            &&& keypath(s, at) matches Step::Done { value: Some(_), at: end } ==> (refused(
                default_value(s, end),
            ) matches Some(r) ==> refused(ret_value(s, at)) == Some(r))
        },
{
    let leaf = ret_leaf(s, at);
    assert(refused(leaf) matches Some(r) ==> refused(ret_value(s, at)) == Some(r));
}

/// The form of a result that is neither a function nor a path is an object behind a brace, an
/// array behind a bracket, or a fixed value, and is read and refused as such.
pub proof fn law_form_kinds(s: Seq<char>, at: int)
    requires
        0 <= at <= s.len(),
        nothing(aggregate(s, at), at),
        nothing(keypath(s, at), at),
    ensures
        starts_at(s, at, "{"@) ==> {
            &&& refused(ret_value(s, at)) == refused(ret_object(s, at))
            &&& ret_object(s, at) matches Step::Done { value, at: end } ==> reads(
                ret_value(s, at),
                Some(value),
                end,
            )
        },
        starts_at(s, at, "["@) ==> {
            &&& refused(ret_value(s, at)) == refused(ret_array(s, at))
            &&& ret_array(s, at) matches Step::Done { value, at: end } ==> reads(
                ret_value(s, at),
                Some(value),
                end,
            )
        },
        starts_at(s, at, "\""@) ==> refused(ret_value(s, at)) == refused(string_literal(s, at)),
        at < s.len() && (s[at] == '-' || numeral(s[at])) ==> refused(ret_value(s, at)) == refused(
            number(s, at),
        ),
        (at == s.len() || !(starts_at(s, at, "{"@) || starts_at(s, at, "["@) || starts_at(
            s,
            at,
            "\""@,
        ) || starts_at(s, at, "true"@) || starts_at(s, at, "false"@) || starts_at(s, at, "null"@)
            || s[at] == '-' || numeral(s[at]))) ==> nothing(ret_value(s, at), at),
        at < s.len() && s[at] == '-' && nothing(number(s, at), at) ==> nothing(ret_value(s, at), at),
{
    lemma_marks();
    lemma_words();
    lemma_quote_token();
    let leaf = ret_leaf(s, at);
    assert(nothing(leaf, at));
    if at < s.len() {
        lemma_first_char(s, at, "{"@);
        lemma_first_char(s, at, "["@);
        lemma_first_char(s, at, "\""@);
        lemma_first_char(s, at, "true"@);
        lemma_first_char(s, at, "false"@);
        lemma_first_char(s, at, "null"@);
    }
}

/// An object and an array of a form need the marks that open them, and what stands in them is
/// read from behind these.
pub proof fn law_form_opened(s: Seq<char>, at: int)
    ensures
        after_token(s, at, "{"@) is None ==> refused(ret_object(s, at)) == refused(
            expect(s, at, "{"@),
        ),
        after_token(s, at, "{"@) matches Some(start) ==> ret_object(s, at) == ret_fields(
            s,
            start,
            Seq::empty(),
        ),
        after_token(s, at, "["@) is None ==> refused(ret_array(s, at)) == refused(
            expect(s, at, "["@),
        ),
        after_token(s, at, "["@) matches Some(start) ==> ret_array(s, at) == ret_slots(
            s,
            start,
            Seq::empty(),
        ),
{
}

/// The members of an object of a form are read one by one: a key, a colon, a form, and a
/// comma or the closing brace. Without a key the brace has to stand there.
pub proof fn law_fields_refused(s: Seq<char>, at: int, before: Seq<(Seq<char>, RetView)>)
    requires
        0 <= at <= s.len(),
    ensures
        refused(key(s, at)) matches Some(r) ==> refused(ret_fields(s, at, before)) == Some(r),
        nothing(key(s, at), at) ==> (refused(expect(s, at, "}"@)) matches Some(r) ==> refused(
            ret_fields(s, at, before),
        ) == Some(r)),
        key(s, at) matches Step::Done { value: Some(name), at: colon } ==> {
            &&& refused(expect(s, colon, ":"@)) matches Some(r) ==> refused(
                ret_fields(s, at, before),
            ) == Some(r)
            &&& after_token(s, colon, ":"@) matches Some(start) ==> {
                &&& refused(ret_value(s, start)) matches Some(r) ==> refused(
                    ret_fields(s, at, before),
                ) == Some(r)
                &&& nothing(ret_value(s, start), start) ==> refused(ret_fields(s, at, before))
                    == Some(("Expected key to return."@, start))
                &&& ret_value(s, start) matches Step::Done { value: Some(value), at: end } ==> {
                    &&& after_token(s, end, ","@) matches Some(next) ==> ret_fields(s, at, before)
                        == ret_fields(s, next, before.push((name, value)))
                    &&& after_token(s, end, ","@) is None ==> (refused(expect(s, end, "}"@))
                        matches Some(r) ==> refused(ret_fields(s, at, before)) == Some(r))
                }
            }
        },
{
    lemma_marks();
    lemma_key(s, at);
    if let Step::Done { value: Some(name), at: colon } = key(s, at) {
        lemma_after_token(s, colon, ":"@);
        if let Some(start) = after_token(s, colon, ":"@) {
            lemma_ret_value(s, start);
        }
    }
}

/// The items of an array of a form are read one by one: a form, and a comma or the closing
/// bracket. Without a form the bracket has to stand there.
pub proof fn law_slots_refused(s: Seq<char>, at: int, before: Seq<RetView>)
    requires
        0 <= at <= s.len(),
    ensures
        refused(ret_value(s, at)) matches Some(r) ==> refused(ret_slots(s, at, before)) == Some(r),
        nothing(ret_value(s, at), at) ==> (refused(expect(s, at, "]"@)) matches Some(r) ==> refused(
            ret_slots(s, at, before),
        ) == Some(r)),
        ret_value(s, at) matches Step::Done { value: Some(value), at: end } ==> {
            &&& after_token(s, end, ","@) matches Some(next) ==> ret_slots(s, at, before)
                == ret_slots(s, next, before.push(value))
            &&& after_token(s, end, ","@) is None ==> (refused(expect(s, end, "]"@)) matches Some(
                r,
            ) ==> refused(ret_slots(s, at, before)) == Some(r))
        },
{
    lemma_ret_value(s, at);
}

/// Behind the word `return` stands a form, and what is wrong in it is wrong in the clause.
pub proof fn law_return_refused(s: Seq<char>, at: int, start: int)
    requires
        after_token(s, at, "return"@) == Some(start),
    ensures
        refused(ret_value(s, start)) matches Some(r) ==> refused(return_clause(s, at)) == Some(r),
        ret_value(s, start) matches Step::Done { value: None, at: end } ==> refused(
            return_clause(s, at),
        ) == Some(("Expected key, object or array to return."@, end)),
{
}

} // verus!
