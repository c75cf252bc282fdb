//! How the whole is made of its parts: what is read of a part is in what is read of the whole,
//! and the reading ends where that of the last part does.

use vstd::prelude::*;
use vstd::utf8::encode_utf8;
use crate::grammar::Step;
use crate::grammar::clauses::{direction, keypath, path_steps, sort_default, sort_key};
use crate::grammar::json::{default_value, json, json_items, json_members, lemma_json};
use crate::grammar::lexical::{after_token, field, key, lemma_after_token, lemma_key, lemma_marks};
use crate::grammar::lexical::{lemma_quote_token, must_string_literal, name_part, name_start};
use crate::grammar::lexical::{number, string_literal};
use crate::grammar::results::{aggregate, aggregate_order, lemma_ret_value, ret_fields, ret_leaf};
use crate::grammar::results::{ret_literal, ret_slots, ret_value, return_clause, separator};
use crate::json_value::JsonView;
use crate::key_builder::{Path, SegmentView};
use crate::laws::basic::{blank, hexadecimal, in_name, letter, numeral, opens_name};
use crate::laws::json::lemma_words;
use crate::laws::lexical::lemma_starts_at_char;
use crate::laws::pen_form::{alone, fun_word};
use crate::laws::pen_order::lemma_order_words;
use crate::laws::refusals::{lemma_function_words, nothing, reads};
use crate::query::{AggregateFun, RetView, Sort, SortView};
use crate::text::{ascii_letter, digit, hex_digit, lemma_byte_offset_step, skip_ws, starts_at};
use crate::text::{utf8_width, white_space};

verus! {

/// A path ends where neither a bracket nor a dot follows, and its steps are those of the
/// path. A dot alone is the empty path.
pub proof fn law_path_joined(s: Seq<char>, at: int, before: Path)
    ensures
        after_token(s, at, "["@) is None && after_token(s, at, "."@) is None ==> reads(
            path_steps(s, at, before),
            before,
            skip_ws(s, at),
        ),
        after_token(s, at, "."@) matches Some(start) ==> {
            &&& after_token(s, start, "["@) matches Some(quote) ==> (must_string_literal(s, quote)
                matches Step::Done { value: name, at: end } ==> (after_token(s, end, "]"@)
                matches Some(next) ==> (path_steps(s, next, seq![SegmentView::ObjectKey(name)])
                matches Step::Done { value: path, at: stop } ==> reads(
                keypath(s, at),
                Some(path),
                stop,
            ))))
            &&& after_token(s, start, "["@) is None ==> {
                &&& field(s, start) matches Some((name, next)) ==> (path_steps(
                    s,
                    next,
                    seq![SegmentView::ObjectKey(name)],
                ) matches Step::Done { value: path, at: stop } ==> reads(
                    keypath(s, at),
                    Some(path),
                    stop,
                ))
                &&& field(s, start) is None ==> reads(
                    keypath(s, at),
                    Some(Path::empty()),
                    skip_ws(s, start),
                )
            }
        },
{
}

/// The direction that a word at `at` stands for, and where the text goes on.
pub open spec fn way_at(s: Seq<char>, at: int) -> (Option<Sort>, int) {
    if starts_at(s, at, "asc"@) {
        (Some(Sort::Asc), skip_ws(s, at + 3))
    } else if starts_at(s, at, "desc"@) {
        (Some(Sort::Desc), skip_ws(s, at + 4))
    } else {
        (None, at)
    }
}

/// A key of the order is its path, at most one direction, at most one default, and at most one
/// direction behind that. The last direction counts, and without any it is ascending.
pub proof fn law_sort_key_joined(s: Seq<char>, at: int)
    ensures
        keypath(s, at) matches Step::Done { value: Some(path), at: end } ==> {
            let (early, start) = way_at(s, end);
            sort_default(s, start) matches Step::Done { value: default, at: behind } ==> {
                let (late, stop) = way_at(s, behind);
                &&& late matches Some(sort) ==> reads(
                    sort_key(s, at),
                    SortView { path, sort, default },
                    stop,
                )
                &&& late is None && early is Some ==> reads(
                    sort_key(s, at),
                    SortView { path, sort: early.unwrap(), default },
                    stop,
                )
                &&& late is None && early is None ==> reads(
                    sort_key(s, at),
                    SortView { path, sort: Sort::Asc, default },
                    stop,
                )
            }
        },
        direction(s, at) == way_at(s, at),
{
    lemma_order_words();
}

/// A JSON value is the string, the word or the number that stands there.
pub proof fn law_scalar_joined(s: Seq<char>, at: int)
    requires
        0 <= at < s.len(),
    ensures
        string_literal(s, at) matches Step::Done { value: Some(text), at: end } ==> reads(
            json(s, at),
            Some(JsonView::String(text)),
            end,
        ),
        number(s, at) matches Step::Done { value: Some(text), at: end } ==> reads(
            json(s, at),
            Some(JsonView::Number(text)),
            end,
        ),
        after_token(s, at, "true"@) matches Some(end) ==> reads(
            json(s, at),
            Some(JsonView::True),
            end,
        ),
        after_token(s, at, "false"@) matches Some(end) ==> reads(
            json(s, at),
            Some(JsonView::False),
            end,
        ),
        after_token(s, at, "null"@) matches Some(end) ==> reads(
            json(s, at),
            Some(JsonView::Null),
            end,
        ),
{
    lemma_scalar_marks(s, at);
}

/// Which value without parts can stand at `at` is told by the character there.
proof fn lemma_scalar_marks(s: Seq<char>, at: int)
    requires
        0 <= at < s.len(),
    ensures
        starts_at(s, at, "{"@) ==> s[at] == '{',
        starts_at(s, at, "["@) ==> s[at] == '[',
        starts_at(s, at, "true"@) ==> s[at] == 't',
        starts_at(s, at, "false"@) ==> s[at] == 'f',
        starts_at(s, at, "null"@) ==> s[at] == 'n',
        starts_at(s, at, "\""@) == (s[at] == '"'),
        number(s, at) matches Step::Done { value: Some(_), at: end } ==> s[at] == '-' || numeral(
            s[at],
        ),
        !(s[at] == '-' || numeral(s[at])) ==> nothing(number(s, at), at),
        s[at] != '"' ==> nothing(string_literal(s, at), at),
{
    lemma_marks();
    lemma_words();
    lemma_quote_token();
    if starts_at(s, at, "{"@) {
        lemma_starts_at_char(s, at, "{"@, 0);
    }
    if starts_at(s, at, "["@) {
        lemma_starts_at_char(s, at, "["@, 0);
    }
    if starts_at(s, at, "true"@) {
        lemma_starts_at_char(s, at, "true"@, 0);
    }
    if starts_at(s, at, "false"@) {
        lemma_starts_at_char(s, at, "false"@, 0);
    }
    if starts_at(s, at, "null"@) {
        lemma_starts_at_char(s, at, "null"@, 0);
    }
    if starts_at(s, at, "\""@) {
        lemma_starts_at_char(s, at, "\""@, 0);
    }
    if s[at] == '"' {
        assert(s.subrange(at, at + 1) =~= "\""@);
    }
}

/// An object is its members up to the brace that closes it, and an array its items up to the
/// bracket.
pub proof fn law_json_closed(
    s: Seq<char>,
    at: int,
    members: Seq<(Seq<char>, JsonView)>,
    items: Seq<JsonView>,
)
    requires
        0 <= at <= s.len(),
    ensures
        key(s, at) matches Step::Done { value: Some(name), at: colon } ==> (after_token(
            s,
            colon,
            ":"@,
        ) matches Some(start) ==> (json(s, start) matches Step::Done { value: Some(value), at: end }
            ==> (after_token(s, end, ","@) is None ==> (after_token(s, end, "}"@) matches Some(stop)
            ==> reads(
            json_members(s, at, members),
            JsonView::Object(members.push((name, value))),
            stop,
        ))))),
        json(s, at) matches Step::Done { value: Some(value), at: end } ==> (after_token(
            s,
            end,
            ","@,
        ) is None ==> (after_token(s, end, "]"@) matches Some(stop) ==> reads(
            json_items(s, at, items),
            JsonView::Array(items.push(value)),
            stop,
        ))),
{
    lemma_marks();
    lemma_key(s, at);
    lemma_json(s, at);
    if let Step::Done { value: Some(name), at: colon } = key(s, at) {
        lemma_after_token(s, colon, ":"@);
        if let Some(start) = after_token(s, colon, ":"@) {
            lemma_json(s, start);
        }
    }
}

/// A function over groups is made of its word, its path and what it takes besides, and ends
/// behind its parenthesis.
pub proof fn law_function_joined(s: Seq<char>, at: int, fun: AggregateFun, start: int)
    requires
        fun != AggregateFun::GroupDesc,
        after_token(s, at, fun_word(fun)) matches Some(next) && after_token(s, next, "("@) == Some(
            start,
        ),
        forall|other: AggregateFun|
            alone(other) != alone(fun) ==> (#[trigger] after_token(s, at, fun_word(other))) is None,
    ensures
        fun == AggregateFun::Count ==> (after_token(s, start, ")"@) matches Some(stop) ==> reads(
            aggregate(s, at),
            Some((fun, Path::empty(), JsonView::Null)),
            stop,
        )),
        fun != AggregateFun::Count ==> (keypath(s, start) matches Step::Done {
            value: Some(path),
            at: end,
        } ==> {
            &&& fun == AggregateFun::Concat ==> (separator(s, end) matches Step::Done {
                value: text,
                at: close,
            } ==> (after_token(s, close, ")"@) matches Some(stop) ==> reads(
                aggregate(s, at),
                Some((fun, path, JsonView::String(text))),
                stop,
            )))
            &&& fun != AggregateFun::Concat ==> (aggregate_order(s, end, fun) matches Step::Done {
                value: made,
                at: close,
            } ==> (after_token(s, close, ")"@) matches Some(stop) ==> reads(
                aggregate(s, at),
                Some((made, path, JsonView::Null)),
                stop,
            )))
        }),
{
    let next = after_token(s, at, fun_word(fun)).unwrap();
    lemma_function_words(s, at, fun, next);
}

/// A value of the document in a form is its function or its path with at most one default
/// behind it, and has no order of its own. Without a default null stands in.
pub proof fn law_value_joined(s: Seq<char>, at: int)
    ensures
        aggregate(s, at) matches Step::Done { value: Some((fun, path, argument)), at: end } ==> (
        default_value(s, end) matches Step::Done { value: given, at: stop } ==> reads(
            ret_value(s, at),
            Some(
                RetView::Value {
                    path,
                    ag: Some((fun, argument)),
                    default: match given {
                        Some(value) => value,
                        None => JsonView::Null,
                    },
                    sort: None,
                },
            ),
            stop,
        )),
        nothing(aggregate(s, at), at) ==> (keypath(s, at) matches Step::Done {
            value: Some(path),
            at: end,
        } ==> (default_value(s, end) matches Step::Done { value: given, at: stop } ==> reads(
            ret_value(s, at),
            Some(
                RetView::Value {
                    path,
                    ag: None,
                    default: match given {
                        Some(value) => value,
                        None => JsonView::Null,
                    },
                    sort: None,
                },
            ),
            stop,
        ))),
{
    let leaf = ret_leaf(s, at);
    assert(leaf matches Step::Done { value: Some(value), at: end } ==> reads(
        ret_value(s, at),
        Some(value),
        end,
    ));
}

/// A fixed value of a form is the string, the number or the word that stands there, where
/// neither a function nor a path does.
pub proof fn law_fixed_joined(s: Seq<char>, at: int)
    requires
        0 <= at < s.len(),
        nothing(aggregate(s, at), at),
        nothing(keypath(s, at), at),
    ensures
        string_literal(s, at) matches Step::Done { value: Some(text), at: end } ==> reads(
            ret_value(s, at),
            Some(RetView::Literal(JsonView::String(text))),
            end,
        ),
        number(s, at) matches Step::Done { value: Some(text), at: end } ==> reads(
            ret_value(s, at),
            Some(RetView::Literal(JsonView::Number(text))),
            end,
        ),
        after_token(s, at, "true"@) matches Some(end) ==> reads(
            ret_value(s, at),
            Some(RetView::Literal(JsonView::True)),
            end,
        ),
        after_token(s, at, "false"@) matches Some(end) ==> reads(
            ret_value(s, at),
            Some(RetView::Literal(JsonView::False)),
            end,
        ),
        after_token(s, at, "null"@) matches Some(end) ==> reads(
            ret_value(s, at),
            Some(RetView::Literal(JsonView::Null)),
            end,
        ),
{
    lemma_scalar_marks(s, at);
    let leaf = ret_leaf(s, at);
    assert(nothing(leaf, at));
    let fixed = ret_literal(s, at);
    assert(!starts_at(s, at, "{"@) && !starts_at(s, at, "["@) ==> ret_value(s, at) == fixed);
}

/// An object of a form is its members up to the brace that closes it, and an array its items
/// up to the bracket. Both may be closed behind a comma.
pub proof fn law_form_closed(
    s: Seq<char>,
    at: int,
    fields: Seq<(Seq<char>, RetView)>,
    slots: Seq<RetView>,
)
    requires
        0 <= at <= s.len(),
    ensures
        nothing(key(s, at), at) ==> (after_token(s, at, "}"@) matches Some(stop) ==> reads(
            ret_fields(s, at, fields),
            RetView::Object(fields),
            stop,
        )),
        key(s, at) matches Step::Done { value: Some(name), at: colon } ==> (after_token(
            s,
            colon,
            ":"@,
        ) matches Some(start) ==> (ret_value(s, start) matches Step::Done {
            value: Some(value),
            at: end,
        } ==> (after_token(s, end, ","@) is None ==> (after_token(s, end, "}"@) matches Some(stop)
            ==> reads(
            ret_fields(s, at, fields),
            RetView::Object(fields.push((name, value))),
            stop,
        ))))),
        nothing(ret_value(s, at), at) ==> (after_token(s, at, "]"@) matches Some(stop) ==> reads(
            ret_slots(s, at, slots),
            RetView::Array(slots),
            stop,
        )),
        ret_value(s, at) matches Step::Done { value: Some(value), at: end } ==> (after_token(
            s,
            end,
            ","@,
        ) is None ==> (after_token(s, end, "]"@) matches Some(stop) ==> reads(
            ret_slots(s, at, slots),
            RetView::Array(slots.push(value)),
            stop,
        ))),
{
    lemma_marks();
    lemma_key(s, at);
    lemma_ret_value(s, at);
    if let Step::Done { value: Some(name), at: colon } = key(s, at) {
        lemma_after_token(s, colon, ":"@);
        if let Some(start) = after_token(s, colon, ":"@) {
            lemma_ret_value(s, start);
        }
    }
}

/// The clause on the form of the results is the form behind its word.
pub proof fn law_return_joined(s: Seq<char>, at: int, start: int)
    requires
        after_token(s, at, "return"@) == Some(start),
    ensures
        ret_value(s, start) matches Step::Done { value: Some(value), at: end } ==> reads(
            return_clause(s, at),
            value,
            end,
        ),
{
}

/// The classes of characters and their lengths in UTF-8.
pub proof fn law_classes(c: char)
    ensures
        white_space(c) == blank(c),
        digit(c) == numeral(c),
        ascii_letter(c) == letter(c),
        hex_digit(c) == hexadecimal(c),
        name_start(c) == opens_name(c),
        name_part(c) == in_name(c),
        utf8_width(c) == encode_utf8(seq![c]).len(),
{
    let one = seq![c];
    lemma_byte_offset_step(one, 0);
    assert(one.take(1) =~= one);
    assert(one.take(0) =~= Seq::<char>::empty());
}

} // verus!
