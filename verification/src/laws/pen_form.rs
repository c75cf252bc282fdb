//! The form of the results is read as what was written, however it was written.

use vstd::prelude::*;
use crate::grammar::Step;
use crate::grammar::json::default_value;
use crate::grammar::lexical::{after_token, key, lemma_marks, lemma_quote_token};
use crate::grammar::results::{Aggregate, aggregate, aggregate_order, aggregate_word, close_array};
use crate::grammar::results::{finish_value, lemma_ret_value, ret_fields, ret_leaf, ret_literal};
use crate::grammar::results::{ret_slots, ret_value, return_clause, separator};
use crate::json_value::JsonView;
use crate::key_builder::{Path, SegmentView};
use crate::laws::basic::{NumberParts, law_name_read, spelling};
use crate::laws::json::lemma_words;
use crate::laws::pen::{Pen, begins, clean, lemma_begins, lemma_number_start, lemma_pen_key};
use crate::laws::pen::{lemma_pen_key_start, lemma_pen_literal, lemma_pen_number, lemma_pen_token};
use crate::laws::pen::{pos, suffix};
use crate::laws::pen_json::{json_by, law_json_read, lemma_json_by_start, lemma_token_first};
use crate::laws::pen_json::{opens_json, proper_json};
use crate::laws::pen_order::{default_by, law_path_read, lemma_order_words, lemma_path_by_start};
use crate::laws::pen_order::{lemma_way_read, path_by, path_stops, proper_path, way};
use crate::query::{AggregateFun, RetView, Sort};

verus! {

/// The word for a function over groups. A grouping has one word for both of its orders.
pub open spec fn fun_word(fun: AggregateFun) -> Seq<char> {
    match fun {
        AggregateFun::GroupAsc => "group"@,
        AggregateFun::GroupDesc => "group"@,
        AggregateFun::Sum => "sum"@,
        AggregateFun::Max => "max"@,
        AggregateFun::Min => "min"@,
        AggregateFun::List => "list"@,
        AggregateFun::Concat => "concat"@,
        AggregateFun::Avg => "avg"@,
        AggregateFun::Count => "count"@,
    }
}

/// Whether a function over groups can be written. A word behind a dot alone would be read as
/// a name, so nothing stands there.
pub open spec fn proper_function(path: Path, fun: AggregateFun, argument: JsonView) -> bool {
    &&& proper_path(path)
    &&& match fun {
        AggregateFun::Count => path.len() == 0 && argument == JsonView::Null,
        AggregateFun::Concat => argument is String && (path.len() == 0 ==> argument
            == JsonView::String(","@)),
        AggregateFun::GroupDesc => path.len() > 0 && argument == JsonView::Null,
        _ => argument == JsonView::Null,
    }
}

/// Whether the order of a grouping is written out.
pub open spec fn ordered(path: Path, fun: AggregateFun, pen: Pen, rest: Seq<char>) -> bool {
    path.len() > 0 && (fun == AggregateFun::GroupDesc || (fun == AggregateFun::GroupAsc && (
    pen.full)(rest)))
}

/// What is written behind the path in the parentheses of a function, before `rest`: the
/// text between the values, where a comma may be left out, and the order, where ascending
/// may be left out.
pub open spec fn argument_by(
    path: Path,
    fun: AggregateFun,
    argument: JsonView,
    pen: Pen,
    rest: Seq<char>,
) -> Seq<char> {
    if fun == AggregateFun::Concat {
        if path.len() > 0 && (argument != JsonView::String(","@) || (pen.full)(rest)) {
            pen.token("sep"@, pen.token("="@, pen.literal(argument->String_0, rest)))
        } else {
            rest
        }
    } else if ordered(path, fun, pen, rest) {
        pen.token(
            "order"@,
            pen.token(
                "="@,
                pen.token(
                    way(
                        if fun == AggregateFun::GroupDesc {
                            Sort::Desc
                        } else {
                            Sort::Asc
                        },
                    ),
                    rest,
                ),
            ),
        )
    } else {
        rest
    }
}

/// The function whose word is written for `fun`. With an order written out, every function
/// but the count and the concatenation stands for the grouping.
pub open spec fn spoken_function(
    path: Path,
    fun: AggregateFun,
    pen: Pen,
    rest: Seq<char>,
) -> AggregateFun {
    let other = (pen.function)(rest);
    if ordered(path, fun, pen, rest) && other != AggregateFun::Count && other
        != AggregateFun::Concat {
        other
    } else {
        fun
    }
}

/// A function over groups as it is written before `rest`.
pub open spec fn function_by(
    path: Path,
    fun: AggregateFun,
    argument: JsonView,
    pen: Pen,
    rest: Seq<char>,
) -> Seq<char> {
    let close = pen.token(")"@, rest);
    if fun == AggregateFun::Count {
        pen.token("count"@, pen.token("("@, close))
    } else {
        pen.token(
            fun_word(spoken_function(path, fun, pen, close)),
            pen.token("("@, path_by(path, pen, argument_by(path, fun, argument, pen, close))),
        )
    }
}

/// Whether `form` can be written.
pub open spec fn proper_form(form: RetView) -> bool
    decreases form,
{
    match form {
        RetView::Literal(value) => proper_json(value) && !(value is Array) && !(value is Object),
        RetView::Value { path, ag, default, sort } => {
            &&& sort is None
            &&& proper_json(default)
            &&& match ag {
                Some((fun, argument)) => proper_function(path, fun, argument),
                None => proper_path(path) && (path.len() == 0 ==> default == JsonView::Null),
            }
        },
        RetView::Object(fields) => proper_fields(fields),
        RetView::Array(slots) => proper_slots(slots),
    }
}

/// Whether all of `fields` can be written.
pub open spec fn proper_fields(fields: Seq<(Seq<char>, RetView)>) -> bool
    decreases fields,
{
    fields.len() > 0 ==> proper_form(fields[0].1) && proper_fields(fields.drop_first())
}

/// Whether all of `slots` can be written.
pub open spec fn proper_slots(slots: Seq<RetView>) -> bool
    decreases slots,
{
    slots.len() > 0 ==> proper_form(slots[0]) && proper_slots(slots.drop_first())
}

/// `form` as it is written before `rest`.
pub open spec fn form_by(form: RetView, pen: Pen, rest: Seq<char>) -> Seq<char>
    decreases form,
{
    match form {
        RetView::Literal(value) => json_by(value, pen, rest),
        RetView::Value { path, ag, default, sort } => match ag {
            Some((fun, argument)) => function_by(
                path,
                fun,
                argument,
                pen,
                default_by(default, pen, rest),
            ),
            None => path_by(
                path,
                pen,
                if path.len() == 0 {
                    rest
                } else {
                    default_by(default, pen, rest)
                },
            ),
        },
        RetView::Object(fields) => pen.token("{"@, fields_by(fields, pen, pen.token("}"@, rest))),
        RetView::Array(slots) => pen.token("["@, slots_by(slots, pen, pen.token("]"@, rest))),
    }
}

/// What is written behind the last member of an object or the last item of an array: a comma
/// or nothing.
pub open spec fn last_by(pen: Pen, rest: Seq<char>) -> Seq<char> {
    if (pen.full)(rest) {
        pen.token(","@, rest)
    } else {
        rest
    }
}

/// `fields` as they are written before `rest`, with commas between them.
pub open spec fn fields_by(fields: Seq<(Seq<char>, RetView)>, pen: Pen, rest: Seq<char>) -> Seq<
    char,
>
    decreases fields,
{
    if fields.len() == 0 {
        rest
    } else {
        let behind = if fields.len() == 1 {
            last_by(pen, rest)
        } else {
            pen.token(","@, fields_by(fields.drop_first(), pen, rest))
        };
        pen.key(fields[0].0, pen.token(":"@, form_by(fields[0].1, pen, behind)))
    }
}

/// `slots` as they are written before `rest`, with commas between them.
pub open spec fn slots_by(slots: Seq<RetView>, pen: Pen, rest: Seq<char>) -> Seq<char>
    decreases slots,
{
    if slots.len() == 0 {
        rest
    } else {
        let behind = if slots.len() == 1 {
            last_by(pen, rest)
        } else {
            pen.token(","@, slots_by(slots.drop_first(), pen, rest))
        };
        form_by(slots[0], pen, behind)
    }
}

/// Whether `form` does not go on with `rest`.
pub open spec fn form_stops(form: RetView, rest: Seq<char>) -> bool {
    &&& clean(rest)
    &&& form matches RetView::Value { path, ag, .. } ==> {
        &&& !begins(rest, "default"@)
        &&& ag is None ==> path_stops(path, rest)
    }
}

/// The words for functions over groups, by their characters.
proof fn lemma_fun_words()
    ensures
        "group"@ == seq!['g', 'r', 'o', 'u', 'p'],
        "sum"@ == seq!['s', 'u', 'm'],
        "max"@ == seq!['m', 'a', 'x'],
        "min"@ == seq!['m', 'i', 'n'],
        "list"@ == seq!['l', 'i', 's', 't'],
        "concat"@ == seq!['c', 'o', 'n', 'c', 'a', 't'],
        "avg"@ == seq!['a', 'v', 'g'],
        "count"@ == seq!['c', 'o', 'u', 'n', 't'],
{
    reveal_strlit("group");
    reveal_strlit("sum");
    reveal_strlit("max");
    reveal_strlit("min");
    reveal_strlit("list");
    reveal_strlit("concat");
    reveal_strlit("avg");
    reveal_strlit("count");
    assert("group"@ =~= seq!['g', 'r', 'o', 'u', 'p']);
    assert("sum"@ =~= seq!['s', 'u', 'm']);
    assert("max"@ =~= seq!['m', 'a', 'x']);
    assert("min"@ =~= seq!['m', 'i', 'n']);
    assert("list"@ =~= seq!['l', 'i', 's', 't']);
    assert("concat"@ =~= seq!['c', 'o', 'n', 'c', 'a', 't']);
    assert("avg"@ =~= seq!['a', 'v', 'g']);
    assert("count"@ =~= seq!['c', 'o', 'u', 'n', 't']);
}

/// The words in the parentheses of a function, by their characters.
proof fn lemma_argument_words()
    ensures
        "sep"@ == seq!['s', 'e', 'p'],
        "order"@ == seq!['o', 'r', 'd', 'e', 'r'],
        "="@ == seq!['='],
        "("@ == seq!['('],
        ")"@ == seq![')'],
{
    reveal_strlit("sep");
    reveal_strlit("order");
    reveal_strlit("=");
    reveal_strlit("(");
    reveal_strlit(")");
    assert("sep"@ =~= seq!['s', 'e', 'p']);
    assert("order"@ =~= seq!['o', 'r', 'd', 'e', 'r']);
    assert("="@ =~= seq!['=']);
    assert("("@ =~= seq!['(']);
    assert(")"@ =~= seq![')']);
}

/// Two tokens of which none starts with the other stand not at one place.
proof fn lemma_other_word(pen: Pen, t: Seq<char>, rest: Seq<char>, other: Seq<char>, i: int)
    requires
        0 <= i < t.len(),
        i < other.len(),
        t[i] != other[i],
    ensures
        !begins(pen.token(t, rest), other),
{
    let text = pen.token(t, rest);
    assert(text[i] == t[i]);
    if begins(text, other) {
        assert(text.take(other.len() as int)[i] == other[i]);
    }
}

/// The function that the word for `fun` stands for alone.
pub open spec fn alone(fun: AggregateFun) -> AggregateFun {
    if fun == AggregateFun::GroupDesc {
        AggregateFun::GroupAsc
    } else {
        fun
    }
}

/// No word for a function stands where another one does.
proof fn lemma_other_functions(
    s: Seq<char>,
    fun: AggregateFun,
    other: AggregateFun,
    pen: Pen,
    rest: Seq<char>,
)
    requires
        suffix(s, pen.token(fun_word(fun), rest)),
        alone(fun) != alone(other),
    ensures
        after_token(s, pos(s, pen.token(fun_word(fun), rest)), fun_word(other)) is None,
{
    lemma_fun_words();
    let t = fun_word(fun);
    let u = fun_word(other);
    let text = pen.token(t, rest);
    if t[0] != u[0] {
        lemma_other_word(pen, t, rest, u, 0);
    } else if t[1] != u[1] {
        lemma_other_word(pen, t, rest, u, 1);
    } else {
        lemma_other_word(pen, t, rest, u, 2);
    }
    lemma_begins(s, text, u);
}

/// The word for a function is read.
proof fn lemma_function_word_read(s: Seq<char>, fun: AggregateFun, pen: Pen, rest: Seq<char>)
    requires
        pen.ok(),
        clean(rest),
        suffix(s, pen.token(fun_word(fun), rest)),
    ensures
        suffix(s, rest),
        aggregate_word(s, pos(s, pen.token(fun_word(fun), rest))) == Some(
            (alone(fun), pos(s, rest)),
        ),
{
    lemma_pen_token(s, pen, fun_word(fun), rest);
    if alone(fun) != AggregateFun::GroupAsc {
        lemma_other_functions(s, fun, AggregateFun::GroupAsc, pen, rest);
    }
    if fun != AggregateFun::Sum {
        lemma_other_functions(s, fun, AggregateFun::Sum, pen, rest);
    }
    if fun != AggregateFun::Max {
        lemma_other_functions(s, fun, AggregateFun::Max, pen, rest);
    }
    if fun != AggregateFun::Min {
        lemma_other_functions(s, fun, AggregateFun::Min, pen, rest);
    }
    if fun != AggregateFun::List {
        lemma_other_functions(s, fun, AggregateFun::List, pen, rest);
    }
    if fun != AggregateFun::Concat {
        lemma_other_functions(s, fun, AggregateFun::Concat, pen, rest);
    }
    if fun != AggregateFun::Avg {
        lemma_other_functions(s, fun, AggregateFun::Avg, pen, rest);
    }
}

/// The text between the values of a concatenation is read.
proof fn lemma_separator_read(s: Seq<char>, path: Path, text: Seq<char>, pen: Pen, rest: Seq<char>)
    requires
        pen.ok(),
        clean(rest),
        path.len() == 0 ==> text == ","@,
        rest.len() > 0 ==> rest[0] != 's',
        suffix(
            s,
            argument_by(path, AggregateFun::Concat, JsonView::String(text), pen, rest),
        ),
    ensures
        suffix(s, rest),
        separator(
            s,
            pos(s, argument_by(path, AggregateFun::Concat, JsonView::String(text), pen, rest)),
        ) == (Step::Done { value: text, at: pos(s, rest) }),
{
    lemma_argument_words();
    let argument = JsonView::String(text);
    let written = argument_by(path, AggregateFun::Concat, argument, pen, rest);
    lemma_begins(s, written, "sep"@);
    if path.len() > 0 && (argument != JsonView::String(","@) || (pen.full)(rest)) {
        let quoted = pen.literal(text, rest);
        assert(clean(quoted)) by {
            let t = seq!['"'] + spelling(text, (pen.escapes)(rest)) + seq!['"'];
            assert(t[0] == '"');
        }
        let equals = pen.token("="@, quoted);
        lemma_token_first(pen, "="@, quoted);
        lemma_pen_token(s, pen, "sep"@, equals);
        lemma_pen_token(s, pen, "="@, quoted);
        lemma_pen_literal(s, pen, text, rest);
    }
}

/// The order of a function is read.
proof fn lemma_order_option_read(
    s: Seq<char>,
    path: Path,
    fun: AggregateFun,
    pen: Pen,
    rest: Seq<char>,
)
    requires
        pen.ok(),
        clean(rest),
        fun != AggregateFun::Concat,
        fun == AggregateFun::GroupDesc ==> path.len() > 0,
        rest.len() > 0 ==> rest[0] != 'o',
        suffix(s, argument_by(path, fun, JsonView::Null, pen, rest)),
    ensures
        suffix(s, rest),
        aggregate_order(
            s,
            pos(s, argument_by(path, fun, JsonView::Null, pen, rest)),
            alone(spoken_function(path, fun, pen, rest)),
        ) == (Step::Done { value: fun, at: pos(s, rest) }),
{
    lemma_argument_words();
    lemma_order_words();
    let written = argument_by(path, fun, JsonView::Null, pen, rest);
    lemma_begins(s, written, "order"@);
    if ordered(path, fun, pen, rest) {
        let sort = if fun == AggregateFun::GroupDesc {
            Sort::Desc
        } else {
            Sort::Asc
        };
        let word = pen.token(way(sort), rest);
        lemma_token_first(pen, way(sort), rest);
        let equals = pen.token("="@, word);
        lemma_token_first(pen, "="@, word);
        lemma_pen_token(s, pen, "order"@, equals);
        lemma_pen_token(s, pen, "="@, word);
        lemma_way_read(s, sort, pen, rest);
    }
}

/// What is written behind the path in the parentheses of a function does not go on with the
/// path.
proof fn lemma_argument_by_start(
    path: Path,
    fun: AggregateFun,
    argument: JsonView,
    pen: Pen,
    rest: Seq<char>,
)
    requires
        path_stops(path, rest),
    ensures
        path_stops(path, argument_by(path, fun, argument, pen, rest)),
{
    lemma_argument_words();
    lemma_order_words();
}

/// Every function over groups is read as what it is.
pub proof fn law_function_read(
    s: Seq<char>,
    path: Path,
    fun: AggregateFun,
    argument: JsonView,
    pen: Pen,
    rest: Seq<char>,
)
    requires
        pen.ok(),
        proper_function(path, fun, argument),
        clean(rest),
        suffix(s, function_by(path, fun, argument, pen, rest)),
    ensures
        suffix(s, rest),
        aggregate(s, pos(s, function_by(path, fun, argument, pen, rest))) == (Step::Done {
            value: Some((fun, path, argument)),
            at: pos(s, rest),
        }),
{
    lemma_argument_words();
    let close = pen.token(")"@, rest);
    lemma_token_first(pen, ")"@, rest);
    if fun == AggregateFun::Count {
        let open = pen.token("("@, close);
        lemma_token_first(pen, "("@, close);
        assert(function_by(path, fun, argument, pen, rest) == pen.token(fun_word(fun), open));
        lemma_function_word_read(s, fun, pen, open);
        lemma_pen_token(s, pen, "("@, close);
        lemma_pen_token(s, pen, ")"@, rest);
        assert(path =~= Path::empty());
    } else {
        let spoken = spoken_function(path, fun, pen, close);
        let behind = argument_by(path, fun, argument, pen, close);
        let inner = path_by(path, pen, behind);
        let open = pen.token("("@, inner);
        lemma_path_by_start(path, pen, behind);
        lemma_token_first(pen, "("@, inner);
        lemma_argument_by_start(path, fun, argument, pen, close);
        lemma_function_word_read(s, spoken, pen, open);
        lemma_pen_token(s, pen, "("@, inner);
        law_path_read(s, path, pen, behind);
        if fun == AggregateFun::Concat {
            lemma_separator_read(s, path, argument->String_0, pen, close);
        } else {
            lemma_order_option_read(s, path, fun, pen, close);
        }
        lemma_pen_token(s, pen, ")"@, rest);
    }
}

/// A default is read, and nothing where none is written.
proof fn lemma_default_read(s: Seq<char>, value: JsonView, pen: Pen, rest: Seq<char>)
    requires
        pen.ok(),
        proper_json(value),
        clean(rest),
        !begins(rest, "default"@),
        suffix(s, default_by(value, pen, rest)),
    ensures
        suffix(s, rest),
        default_value(s, pos(s, default_by(value, pen, rest))) == (Step::Done {
            value: if value != JsonView::Null || (pen.full)(rest) {
                Some(value)
            } else {
                None
            },
            at: pos(s, rest),
        }),
{
    lemma_order_words();
    lemma_argument_words();
    lemma_begins(s, default_by(value, pen, rest), "default"@);
    if value != JsonView::Null || (pen.full)(rest) {
        let written = json_by(value, pen, rest);
        lemma_json_by_start(value, pen, rest);
        let equals = pen.token("="@, written);
        lemma_token_first(pen, "="@, written);
        lemma_pen_token(s, pen, "default"@, equals);
        lemma_pen_token(s, pen, "="@, written);
        law_json_read(s, value, pen, rest);
    }
}

/// What stands in for a missing value is read behind a path and a function.
proof fn lemma_finish_read(
    s: Seq<char>,
    path: Path,
    ag: Option<(AggregateFun, JsonView)>,
    default: JsonView,
    pen: Pen,
    rest: Seq<char>,
)
    requires
        pen.ok(),
        proper_json(default),
        clean(rest),
        !begins(rest, "default"@),
        suffix(s, default_by(default, pen, rest)),
    ensures
        suffix(s, rest),
        finish_value(s, pos(s, default_by(default, pen, rest)), path, ag) == (Step::Done {
            value: Some(RetView::Value { path, ag, default, sort: None }),
            at: pos(s, rest),
        }),
{
    lemma_default_read(s, default, pen, rest);
}

/// Whether `c` can start the word for a function over groups.
spec fn opens_function(c: char) -> bool {
    c == 'g' || c == 's' || c == 'm' || c == 'l' || c == 'c' || c == 'a'
}

/// No function is read where none is written.
proof fn lemma_no_function_read(s: Seq<char>, rest: Seq<char>)
    requires
        suffix(s, rest),
        rest.len() > 0 ==> !opens_function(rest[0]),
    ensures
        aggregate(s, pos(s, rest)) == (Step::Done {
            value: None::<Aggregate>,
            at: pos(s, rest),
        }),
{
    lemma_fun_words();
    lemma_begins(s, rest, "group"@);
    lemma_begins(s, rest, "sum"@);
    lemma_begins(s, rest, "max"@);
    lemma_begins(s, rest, "min"@);
    lemma_begins(s, rest, "list"@);
    lemma_begins(s, rest, "concat"@);
    lemma_begins(s, rest, "avg"@);
    lemma_begins(s, rest, "count"@);
}

/// A value of the document is read.
proof fn lemma_value_read(
    s: Seq<char>,
    path: Path,
    ag: Option<(AggregateFun, JsonView)>,
    default: JsonView,
    pen: Pen,
    rest: Seq<char>,
)
    requires
        pen.ok(),
        proper_form(RetView::Value { path, ag, default, sort: None }),
        form_stops(RetView::Value { path, ag, default, sort: None }, rest),
        suffix(s, form_by(RetView::Value { path, ag, default, sort: None }, pen, rest)),
    ensures
        suffix(s, rest),
        ret_leaf(s, pos(s, form_by(RetView::Value { path, ag, default, sort: None }, pen, rest)))
            == (Step::Done {
            value: Some(RetView::Value { path, ag, default, sort: None }),
            at: pos(s, rest),
        }),
{
    lemma_order_words();
    let behind = default_by(default, pen, rest);
    match ag {
        Some((fun, argument)) => {
            law_function_read(s, path, fun, argument, pen, behind);
            lemma_finish_read(s, path, ag, default, pen, rest);
        },
        None => {
            let after = if path.len() == 0 {
                rest
            } else {
                behind
            };
            lemma_path_by_start(path, pen, after);
            lemma_no_function_read(s, path_by(path, pen, after));
            law_path_read(s, path, pen, after);
            if path.len() == 0 {
                lemma_begins(s, rest, "default"@);
            } else {
                lemma_finish_read(s, path, ag, default, pen, rest);
            }
        },
    }
}

/// Where neither a function nor a path starts, no value of the document is read.
proof fn lemma_no_value_read(s: Seq<char>, rest: Seq<char>)
    requires
        suffix(s, rest),
        rest.len() > 0 ==> !opens_function(rest[0]) && rest[0] != '.',
    ensures
        ret_leaf(s, pos(s, rest)) == (Step::Done { value: None::<RetView>, at: pos(s, rest) }),
{
    lemma_marks();
    lemma_no_function_read(s, rest);
    lemma_begins(s, rest, "."@);
}

/// A fixed value is read.
proof fn lemma_fixed_read(s: Seq<char>, value: JsonView, pen: Pen, rest: Seq<char>)
    requires
        pen.ok(),
        proper_json(value),
        !(value is Array) && !(value is Object),
        clean(rest),
        suffix(s, json_by(value, pen, rest)),
    ensures
        suffix(s, rest),
        ret_literal(s, pos(s, json_by(value, pen, rest))) == (Step::Done {
            value: Some(RetView::Literal(value)),
            at: pos(s, rest),
        }),
{
    lemma_words();
    lemma_quote_token();
    lemma_json_by_start(value, pen, rest);
    let text = json_by(value, pen, rest);
    lemma_begins(s, text, "\""@);
    lemma_begins(s, text, "true"@);
    lemma_begins(s, text, "false"@);
    lemma_begins(s, text, "null"@);
    match value {
        JsonView::Null => {
            lemma_pen_token(s, pen, "null"@, rest);
        },
        JsonView::True => {
            lemma_pen_token(s, pen, "true"@, rest);
        },
        JsonView::False => {
            lemma_pen_token(s, pen, "false"@, rest);
        },
        JsonView::Number(t) => {
            let parts = choose|parts: NumberParts| #[trigger] parts.proper() && parts.text() == t;
            lemma_number_start(parts);
            lemma_pen_number(s, pen, parts, rest);
        },
        JsonView::String(t) => {
            lemma_pen_literal(s, pen, t, rest);
        },
        _ => {},
    }
}

/// Whether `c` can start the form of a result.
spec fn opens_form(c: char) -> bool {
    opens_function(c) || c == '.' || opens_json(c)
}

/// A form is written with a character that starts one.
proof fn lemma_form_by_start(form: RetView, pen: Pen, rest: Seq<char>)
    requires
        proper_form(form),
    ensures
        form_by(form, pen, rest).len() > 0,
        opens_form(form_by(form, pen, rest)[0]),
        clean(form_by(form, pen, rest)),
{
    lemma_marks();
    match form {
        RetView::Literal(value) => {
            lemma_json_by_start(value, pen, rest);
        },
        RetView::Value { path, ag, default, sort } => match ag {
            Some((fun, argument)) => {
                lemma_fun_words();
                let behind = default_by(default, pen, rest);
                let close = pen.token(")"@, behind);
                if fun == AggregateFun::Count {
                    lemma_token_first(pen, "count"@, pen.token("("@, close));
                } else {
                    let spoken = spoken_function(path, fun, pen, close);
                    let inner = path_by(path, pen, argument_by(path, fun, argument, pen, close));
                    lemma_token_first(pen, fun_word(spoken), pen.token("("@, inner));
                }
            },
            None => {
                let after = if path.len() == 0 {
                    rest
                } else {
                    default_by(default, pen, rest)
                };
                lemma_path_by_start(path, pen, after);
            },
        },
        _ => {},
    }
}

/// A form does not go on with a mark that stands behind it in an object or an array.
proof fn lemma_form_stops(form: RetView, rest: Seq<char>)
    requires
        rest.len() > 0,
        rest[0] == ',' || rest[0] == '}' || rest[0] == ']',
    ensures
        form_stops(form, rest),
{
    lemma_order_words();
    if begins(rest, "default"@) {
        assert(rest.take("default"@.len() as int)[0] == rest[0]);
    }
}

/// No member is read before the brace that closes an object.
proof fn lemma_no_field_read(
    s: Seq<char>,
    fields: Seq<(Seq<char>, RetView)>,
    pen: Pen,
    rest: Seq<char>,
)
    requires
        pen.ok(),
        clean(rest),
        suffix(s, pen.token("}"@, rest)),
    ensures
        suffix(s, rest),
        ret_fields(s, pos(s, pen.token("}"@, rest)), fields) == (Step::Done {
            value: RetView::Object(fields),
            at: pos(s, rest),
        }),
{
    lemma_marks();
    lemma_quote_token();
    let close = pen.token("}"@, rest);
    lemma_pen_token(s, pen, "}"@, rest);
    law_name_read(s, pos(s, close));
    lemma_begins(s, close, "\""@);
}

/// No item is read before the bracket that closes an array.
proof fn lemma_no_slot_read(s: Seq<char>, slots: Seq<RetView>, pen: Pen, rest: Seq<char>)
    requires
        pen.ok(),
        clean(rest),
        suffix(s, pen.token("]"@, rest)),
    ensures
        suffix(s, rest),
        ret_slots(s, pos(s, pen.token("]"@, rest)), slots) == (Step::Done {
            value: RetView::Array(slots),
            at: pos(s, rest),
        }),
{
    lemma_marks();
    lemma_words();
    lemma_quote_token();
    let close = pen.token("]"@, rest);
    lemma_pen_token(s, pen, "]"@, rest);
    lemma_no_value_read(s, close);
    lemma_begins(s, close, "{"@);
    lemma_begins(s, close, "["@);
    lemma_begins(s, close, "\""@);
    lemma_begins(s, close, "true"@);
    lemma_begins(s, close, "false"@);
    lemma_begins(s, close, "null"@);
    let at = pos(s, close);
    assert(ret_literal(s, at) == (Step::Done { value: None::<RetView>, at }));
    assert(ret_value(s, at) == (Step::Done { value: None::<RetView>, at }));
}

/// Reads a form.
#[verifier::opaque]
spec fn form_at(s: Seq<char>, at: int) -> Step<Option<RetView>> {
    ret_value(s, at)
}

/// Reads items behind those of `before`.
#[verifier::opaque]
spec fn slots_at(s: Seq<char>, at: int, before: Seq<RetView>) -> Step<RetView> {
    ret_slots(s, at, before)
}

/// What becomes of an item that is read.
proof fn lemma_slot_read(s: Seq<char>, at: int, before: Seq<RetView>, value: RetView, end: int)
    requires
        0 <= at <= s.len(),
        form_at(s, at) == (Step::Done { value: Some(value), at: end }),
    ensures
        slots_at(s, at, before) == (match after_token(s, end, ","@) {
            Some(next) => slots_at(s, next, before.push(value)),
            None => close_array(s, end, before.push(value)),
        }),
{
    reveal(form_at);
    reveal(slots_at);
    lemma_ret_value(s, at);
}

/// A form is read before a mark that stands behind it in an object or an array.
proof fn lemma_form_read_inside(s: Seq<char>, form: RetView, pen: Pen, rest: Seq<char>)
    requires
        pen.ok(),
        proper_form(form),
        rest.len() > 0,
        rest[0] == ',' || rest[0] == '}' || rest[0] == ']',
        suffix(s, form_by(form, pen, rest)),
    ensures
        suffix(s, rest),
        form_at(s, pos(s, form_by(form, pen, rest))) == (Step::Done {
            value: Some(form),
            at: pos(s, rest),
        }),
    decreases form, 1int,
{
    reveal(form_at);
    lemma_form_stops(form, rest);
    law_form_read(s, form, pen, rest);
}

/// Every form of a result is read as what it is, with any white space between its tokens,
/// behind the mark that opens an object or an array too, with its keys as names or in
/// quotes, and with or without what may be left out.
pub proof fn law_form_read(s: Seq<char>, form: RetView, pen: Pen, rest: Seq<char>)
    requires
        pen.ok(),
        proper_form(form),
        form_stops(form, rest),
        suffix(s, form_by(form, pen, rest)),
    ensures
        suffix(s, rest),
        ret_value(s, pos(s, form_by(form, pen, rest))) == (Step::Done {
            value: Some(form),
            at: pos(s, rest),
        }),
    decreases form, 0int,
{
    lemma_marks();
    let text = form_by(form, pen, rest);
    lemma_form_by_start(form, pen, rest);
    lemma_begins(s, text, "{"@);
    lemma_begins(s, text, "["@);
    match form {
        RetView::Literal(value) => {
            lemma_json_by_start(value, pen, rest);
            lemma_literal_mark(value, pen, rest);
            lemma_no_value_read(s, text);
            lemma_fixed_read(s, value, pen, rest);
        },
        RetView::Value { path, ag, default, sort } => {
            lemma_value_read(s, path, ag, default, pen, rest);
        },
        RetView::Object(fields) => {
            lemma_no_value_read(s, text);
            let close = pen.token("}"@, rest);
            lemma_token_first(pen, "}"@, rest);
            let inner = fields_by(fields, pen, close);
            lemma_fields_by_start(fields, pen, close);
            lemma_pen_token(s, pen, "{"@, inner);
            lemma_fields_read(s, Seq::empty(), fields, pen, rest);
            assert(Seq::<(Seq<char>, RetView)>::empty() + fields =~= fields);
        },
        RetView::Array(slots) => {
            lemma_no_value_read(s, text);
            let close = pen.token("]"@, rest);
            lemma_token_first(pen, "]"@, rest);
            let inner = slots_by(slots, pen, close);
            lemma_slots_by_start(slots, pen, close);
            lemma_pen_token(s, pen, "["@, inner);
            lemma_slots_read(s, Seq::empty(), slots, pen, rest);
            reveal(slots_at);
            assert(Seq::<RetView>::empty() + slots =~= slots);
        },
    }
}

/// A value without parts is not written with a mark that opens one with parts.
proof fn lemma_literal_mark(value: JsonView, pen: Pen, rest: Seq<char>)
    requires
        proper_json(value),
        !(value is Array) && !(value is Object),
    ensures
        json_by(value, pen, rest)[0] != '[',
        json_by(value, pen, rest)[0] != '{',
{
    lemma_words();
    match value {
        JsonView::Number(t) => {
            let parts = choose|parts: NumberParts| #[trigger] parts.proper() && parts.text() == t;
            lemma_number_start(parts);
        },
        JsonView::String(t) => {
            let text = seq!['"'] + spelling(t, (pen.escapes)(rest)) + seq!['"'];
            assert(text[0] == '"');
        },
        _ => {},
    }
}

/// Members are written with no white space first.
proof fn lemma_fields_by_start(fields: Seq<(Seq<char>, RetView)>, pen: Pen, rest: Seq<char>)
    requires
        clean(rest),
    ensures
        clean(fields_by(fields, pen, rest)),
{
    if fields.len() > 0 {
        let behind = if fields.len() == 1 {
            last_by(pen, rest)
        } else {
            pen.token(","@, fields_by(fields.drop_first(), pen, rest))
        };
        lemma_pen_key_start(pen, fields[0].0, pen.token(":"@, form_by(fields[0].1, pen, behind)));
    }
}

/// Items are written with no white space first.
proof fn lemma_slots_by_start(slots: Seq<RetView>, pen: Pen, rest: Seq<char>)
    requires
        clean(rest),
        proper_slots(slots),
    ensures
        clean(slots_by(slots, pen, rest)),
{
    if slots.len() > 0 {
        let behind = if slots.len() == 1 {
            last_by(pen, rest)
        } else {
            pen.token(","@, slots_by(slots.drop_first(), pen, rest))
        };
        lemma_form_by_start(slots[0], pen, behind);
    }
}

/// The members of an object are read behind those of `before`.
proof fn lemma_fields_read(
    s: Seq<char>,
    before: Seq<(Seq<char>, RetView)>,
    fields: Seq<(Seq<char>, RetView)>,
    pen: Pen,
    rest: Seq<char>,
)
    requires
        pen.ok(),
        proper_fields(fields),
        clean(rest),
        suffix(s, fields_by(fields, pen, pen.token("}"@, rest))),
    ensures
        suffix(s, rest),
        ret_fields(s, pos(s, fields_by(fields, pen, pen.token("}"@, rest))), before) == (
        Step::Done { value: RetView::Object(before + fields), at: pos(s, rest) }),
    decreases fields, 0int,
{
    lemma_marks();
    let close = pen.token("}"@, rest);
    lemma_token_first(pen, "}"@, rest);
    if fields.len() == 0 {
        lemma_no_field_read(s, before, pen, rest);
        assert(before + fields =~= before);
    } else {
        let others = fields.drop_first();
        let more = fields_by(others, pen, close);
        lemma_token_first(pen, ","@, more);
        lemma_fields_by_start(others, pen, close);
        let behind = if fields.len() == 1 {
            last_by(pen, close)
        } else {
            pen.token(","@, more)
        };
        let value = form_by(fields[0].1, pen, behind);
        let colon = pen.token(":"@, value);
        lemma_token_first(pen, ":"@, value);
        lemma_form_by_start(fields[0].1, pen, behind);
        lemma_form_stops(fields[0].1, behind);
        lemma_pen_key(s, pen, fields[0].0, colon);
        lemma_pen_token(s, pen, ":"@, value);
        law_form_read(s, fields[0].1, pen, behind);
        lemma_ret_value(s, pos(s, value));
        let field = (fields[0].0, fields[0].1);
        assert(before.push(field) + others =~= before + fields);
        if fields.len() == 1 && !(pen.full)(close) {
            lemma_begins(s, close, ","@);
            lemma_pen_token(s, pen, "}"@, rest);
            assert(before.push(field) =~= before + fields);
        } else {
            lemma_pen_token(s, pen, ","@, more);
            lemma_fields_read(s, before.push(field), others, pen, rest);
        }
    }
}

/// The items of an array are read behind those of `before`.
proof fn lemma_slots_read(
    s: Seq<char>,
    before: Seq<RetView>,
    slots: Seq<RetView>,
    pen: Pen,
    rest: Seq<char>,
)
    requires
        pen.ok(),
        proper_slots(slots),
        clean(rest),
        suffix(s, slots_by(slots, pen, pen.token("]"@, rest))),
    ensures
        suffix(s, rest),
        slots_at(s, pos(s, slots_by(slots, pen, pen.token("]"@, rest))), before) == (Step::Done {
            value: RetView::Array(before + slots),
            at: pos(s, rest),
        }),
    decreases slots, 0int,
{
    lemma_marks();
    let close = pen.token("]"@, rest);
    lemma_token_first(pen, "]"@, rest);
    if slots.len() == 0 {
        assert(slots_at(s, pos(s, close), before) == (Step::Done {
            value: RetView::Array(before),
            at: pos(s, rest),
        })) by {
            reveal(slots_at);
            lemma_no_slot_read(s, before, pen, rest);
        }
        lemma_pen_token(s, pen, "]"@, rest);
        assert(before + slots =~= before);
    } else {
        let others = slots.drop_first();
        let more = slots_by(others, pen, close);
        lemma_token_first(pen, ","@, more);
        lemma_slots_by_start(others, pen, close);
        let behind = if slots.len() == 1 {
            last_by(pen, close)
        } else {
            pen.token(","@, more)
        };
        lemma_form_read_inside(s, slots[0], pen, behind);
        lemma_slot_read(s, pos(s, slots_by(slots, pen, close)), before, slots[0], pos(s, behind));
        assert(before.push(slots[0]) + others =~= before + slots);
        if slots.len() == 1 && !(pen.full)(close) {
            lemma_begins(s, close, ","@);
            lemma_pen_token(s, pen, "]"@, rest);
            assert(before.push(slots[0]) =~= before + slots);
        } else {
            lemma_pen_token(s, pen, ","@, more);
            lemma_slots_read(s, before.push(slots[0]), others, pen, rest);
        }
    }
}

/// Every clause on the form of the results is read as what it is. Without the word `return`
/// the results are the values of `_id`, and nothing is passed.
pub proof fn law_return_read(s: Seq<char>, form: RetView, pen: Pen, rest: Seq<char>)
    requires
        pen.ok(),
        proper_form(form),
        form_stops(form, rest),
        suffix(s, pen.token("return"@, form_by(form, pen, rest))),
    ensures
        suffix(s, rest),
        return_clause(s, pos(s, pen.token("return"@, form_by(form, pen, rest)))) == (Step::Done {
            value: form,
            at: pos(s, rest),
        }),
        !begins(rest, "return"@) ==> return_clause(s, pos(s, rest)) == (Step::Done {
            value: RetView::Value {
                path: seq![SegmentView::ObjectKey("_id"@)],
                ag: None,
                default: JsonView::Null,
                sort: None,
            },
            at: pos(s, rest),
        }),
{
    lemma_form_by_start(form, pen, rest);
    lemma_pen_token(s, pen, "return"@, form_by(form, pen, rest));
    law_form_read(s, form, pen, rest);
    lemma_begins(s, rest, "return"@);
}

/// How a form is written makes no difference: written by two hands, before texts with which
/// it does not go on, it is read as the same.
pub proof fn law_hands_agree(
    s: Seq<char>,
    t: Seq<char>,
    form: RetView,
    pen: Pen,
    other: Pen,
    rest: Seq<char>,
)
    requires
        pen.ok(),
        other.ok(),
        proper_form(form),
        form_stops(form, rest),
        s == pen.token("return"@, form_by(form, pen, rest)),
        t == other.token("return"@, form_by(form, other, rest)),
    ensures
        return_clause(s, 0) matches Step::Done { value: read, at } && return_clause(t, 0)
            matches Step::Done { value: again, at: end } && read == again && s.skip(at)
            == t.skip(end),
{
    assert(s.skip(0) =~= s);
    assert(t.skip(0) =~= t);
    law_return_read(s, form, pen, rest);
    law_return_read(t, form, other, rest);
}

} // verus!
