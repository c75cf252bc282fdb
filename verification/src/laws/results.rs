//! The form of a result that is written down is read back.

use vstd::prelude::*;
use crate::grammar::Step;
use crate::grammar::clauses::{keypath, lemma_keypath};
use crate::grammar::json::default_value;
use crate::grammar::lexical::{after_token, expect, field, key, lemma_after_token, lemma_expect};
use crate::grammar::lexical::{lemma_key, lemma_marks, lemma_quote_token, lemma_string_literal};
use crate::grammar::lexical::name_start;
use crate::grammar::results::{Aggregate, aggregate, aggregate_argument, aggregate_order};
use crate::grammar::results::{aggregate_word, close_object, finish_value, identifier};
use crate::grammar::results::{lemma_aggregate, lemma_ret_value, ret_array, ret_fields, ret_leaf};
use crate::grammar::results::{ret_literal, ret_object, ret_slots, ret_value, return_clause};
use crate::grammar::results::separator;
use crate::json_value::JsonView;
use crate::key_builder::Path;
use crate::laws::clauses::{law_keypath_round_trip, law_keypath_writable, path_ends, path_text};
use crate::laws::clauses::writable_path;
use crate::laws::json::{json_text, law_json_round_trip, law_json_writable, law_number_round_trip};
use crate::laws::json::{lemma_json_text_start, lemma_words, number_ends, starts_json, writable};
use crate::laws::lexical::{Style, law_key_round_trip, law_number_is_json, law_string_round_trip};
use crate::laws::lexical::{lemma_name_text_start, lemma_no_white_space, lemma_one_mark};
use crate::laws::lexical::{lemma_other_token, lemma_starts_at_char, lemma_starts_at_parts};
use crate::laws::lexical::{name_text, quoted};
use crate::query::{AggregateFun, RetView};
use crate::text::{skip_ws, starts_at, white_space};

verus! {

/// The word of a function over groups without a parenthesis behind it is none, and is not
/// passed.
pub proof fn law_bare_word_not_passed(s: Seq<char>, at: int)
    requires
        aggregate_word(s, at) matches Some((fun, next)) && !starts_at(s, next, "("@),
    ensures
        aggregate(s, at) == (Step::Done { value: None::<Aggregate>, at }),
{
}

/// Without a clause on the form of the results, these are the identifiers of the documents,
/// and nothing is passed.
pub proof fn law_return_missing(s: Seq<char>, at: int)
    requires
        !starts_at(s, at, "return"@),
    ensures
        return_clause(s, at) == (Step::Done { value: identifier(), at }),
{
}

/// The word of a function over groups.
#[verifier::opaque]
pub open spec fn word(fun: AggregateFun) -> Seq<char> {
    match fun {
        AggregateFun::GroupAsc => "group"@,
        AggregateFun::GroupDesc => "group"@,
        AggregateFun::Sum => "sum"@,
        AggregateFun::Max => "max"@,
        AggregateFun::Min => "min"@,
        AggregateFun::List => "list"@,
        AggregateFun::Concat => "concat"@,
        AggregateFun::Avg => "avg"@,
        AggregateFun::Count => "count"@,
    }
}

/// The function that a word alone stands for.
pub open spec fn plain(fun: AggregateFun) -> AggregateFun {
    match fun {
        AggregateFun::GroupDesc => AggregateFun::GroupAsc,
        _ => fun,
    }
}

/// What is written behind the path in the parentheses of a function: the text between the
/// values, if it is not a comma, and the order, if it is descending.
#[verifier::opaque]
pub open spec fn option_text(fun: AggregateFun, argument: JsonView, style: Style) -> Seq<char> {
    match (fun, argument) {
        (AggregateFun::Concat, JsonView::String(text)) => if text == ","@ {
            Seq::empty()
        } else {
            " sep="@ + quoted(text, style)
        },
        (AggregateFun::GroupDesc, _) => " order=desc"@,
        _ => Seq::empty(),
    }
}

/// A function over groups as it is written.
pub open spec fn aggregate_text(
    fun: AggregateFun,
    path: Path,
    argument: JsonView,
    style: Style,
) -> Seq<char> {
    if fun == AggregateFun::Count {
        word(fun) + "()"@
    } else {
        word(fun) + ("("@ + (path_text(path, style) + (option_text(fun, argument, style) + ")"@)))
    }
}

/// Whether a function over groups can be written. A word behind a dot alone would be read
/// as a name, so nothing else stands in the parentheses then.
pub open spec fn writable_aggregate(fun: AggregateFun, path: Path, argument: JsonView) -> bool {
    &&& writable_path(path)
    &&& fun == AggregateFun::Count ==> path.len() == 0
    &&& fun == AggregateFun::GroupDesc ==> path.len() > 0
    &&& if fun == AggregateFun::Concat {
        argument matches JsonView::String(text) && (path.len() == 0 ==> text == ","@)
    } else {
        argument == JsonView::Null
    }
}

/// What stands in for a missing value, as it is written behind the value.
pub open spec fn default_text(default: JsonView, style: Style) -> Seq<char> {
    if default == JsonView::Null {
        Seq::empty()
    } else {
        given_default_text(default, style)
    }
}

/// The part of a value of the document before its default, as it is written.
pub open spec fn source_text(
    path: Path,
    ag: Option<(AggregateFun, JsonView)>,
    style: Style,
) -> Seq<char> {
    match ag {
        None => path_text(path, style),
        Some((fun, argument)) => aggregate_text(fun, path, argument, style),
    }
}

/// Whether `form` can be written.
pub open spec fn writable_form(form: RetView) -> bool
    decreases form,
{
    match form {
        RetView::Value { path, ag, default, sort } => {
            &&& sort is None
            &&& writable(default)
            &&& match ag {
                None => writable_path(path) && (path.len() == 0 ==> default == JsonView::Null),
                Some((fun, argument)) => writable_aggregate(fun, path, argument),
            }
        },
        RetView::Object(fields) => writable_fields(fields),
        RetView::Array(slots) => writable_slots(slots),
        RetView::Literal(value) => writable(value) && !(value is Array) && !(value is Object),
    }
}

/// Whether all of `fields` can be written.
pub open spec fn writable_fields(fields: Seq<(Seq<char>, RetView)>) -> bool
    decreases fields,
{
    if fields.len() == 0 {
        true
    } else {
        writable_form(fields[0].1) && writable_fields(fields.drop_first())
    }
}

/// Whether all of `slots` can be written.
pub open spec fn writable_slots(slots: Seq<RetView>) -> bool
    decreases slots,
{
    if slots.len() == 0 {
        true
    } else {
        writable_form(slots[0]) && writable_slots(slots.drop_first())
    }
}

/// `form` as it is written.
pub open spec fn form_text(form: RetView, style: Style) -> Seq<char>
    decreases form,
{
    match form {
        RetView::Value { path, ag, default, sort } => source_text(path, ag, style) + default_text(
            default,
            style,
        ),
        RetView::Object(fields) => "{"@ + fields_text(fields, style) + "}"@,
        RetView::Array(slots) => "["@ + slots_text(slots, style) + "]"@,
        RetView::Literal(value) => json_text(value, style),
    }
}

/// `fields` as they are written, with commas between them.
pub open spec fn fields_text(fields: Seq<(Seq<char>, RetView)>, style: Style) -> Seq<char>
    decreases fields,
{
    if fields.len() == 0 {
        Seq::empty()
    } else {
        let first = name_text(fields[0].0, style) + ":"@ + form_text(fields[0].1, style);
        if fields.len() == 1 {
            first
        } else {
            first + ","@ + fields_text(fields.drop_first(), style)
        }
    }
}

/// `slots` as they are written, with commas between them.
pub open spec fn slots_text(slots: Seq<RetView>, style: Style) -> Seq<char>
    decreases slots,
{
    if slots.len() == 0 {
        Seq::empty()
    } else if slots.len() == 1 {
        form_text(slots[0], style)
    } else {
        form_text(slots[0], style) + ","@ + slots_text(slots.drop_first(), style)
    }
}

/// Whether the value `value`, which is written up to `end`, does not go on there.
pub open spec fn json_ends(s: Seq<char>, end: int, value: JsonView) -> bool {
    value matches JsonView::Number(t) ==> number_ends(s, end - t.len(), t)
}

/// Whether `form`, which is written up to `end`, does not go on there.
pub open spec fn form_ends(s: Seq<char>, end: int, form: RetView, style: Style) -> bool {
    match form {
        RetView::Value { path, ag, default, sort } => if default == JsonView::Null {
            &&& ag is None ==> path_ends(s, end, path, style)
            &&& !starts_at(s, skip_ws(s, end), "default"@)
        } else {
            json_ends(s, end, default)
        },
        RetView::Literal(value) => json_ends(s, end, value),
        _ => true,
    }
}

/// The words of functions over groups, by their characters.
proof fn lemma_function_words()
    ensures
        "group"@ == seq!['g', 'r', 'o', 'u', 'p'],
        "sum"@ == seq!['s', 'u', 'm'],
        "max"@ == seq!['m', 'a', 'x'],
        "min"@ == seq!['m', 'i', 'n'],
        "list"@ == seq!['l', 'i', 's', 't'],
        "concat"@ == seq!['c', 'o', 'n', 'c', 'a', 't'],
        "avg"@ == seq!['a', 'v', 'g'],
        "count"@ == seq!['c', 'o', 'u', 'n', 't'],
{
    reveal_strlit("group");
    reveal_strlit("sum");
    reveal_strlit("max");
    reveal_strlit("min");
    reveal_strlit("list");
    reveal_strlit("concat");
    reveal_strlit("avg");
    reveal_strlit("count");
    assert("group"@ =~= seq!['g', 'r', 'o', 'u', 'p']);
    assert("sum"@ =~= seq!['s', 'u', 'm']);
    assert("max"@ =~= seq!['m', 'a', 'x']);
    assert("min"@ =~= seq!['m', 'i', 'n']);
    assert("list"@ =~= seq!['l', 'i', 's', 't']);
    assert("concat"@ =~= seq!['c', 'o', 'n', 'c', 'a', 't']);
    assert("avg"@ =~= seq!['a', 'v', 'g']);
    assert("count"@ =~= seq!['c', 'o', 'u', 'n', 't']);
}

/// The words behind a path, by their characters.
pub proof fn lemma_option_words()
    ensures
        " sep="@ == seq![' '] + "sep"@ + seq!['='],
        "sep"@ == seq!['s', 'e', 'p'],
        " order=desc"@ == seq![' '] + "order"@ + seq!['='] + "desc"@,
        "order"@ == seq!['o', 'r', 'd', 'e', 'r'],
        "desc"@ == seq!['d', 'e', 's', 'c'],
        "asc"@ == seq!['a', 's', 'c'],
        " default="@ == seq![' '] + "default"@ + seq!['='],
        "default"@ == seq!['d', 'e', 'f', 'a', 'u', 'l', 't'],
        "()"@ == seq!['(', ')'],
{
    reveal_strlit(" sep=");
    reveal_strlit("sep");
    reveal_strlit(" order=desc");
    reveal_strlit("order");
    reveal_strlit("desc");
    reveal_strlit("asc");
    reveal_strlit(" default=");
    reveal_strlit("default");
    reveal_strlit("()");
    assert("sep"@ =~= seq!['s', 'e', 'p']);
    assert("order"@ =~= seq!['o', 'r', 'd', 'e', 'r']);
    assert("desc"@ =~= seq!['d', 'e', 's', 'c']);
    assert("asc"@ =~= seq!['a', 's', 'c']);
    assert("default"@ =~= seq!['d', 'e', 'f', 'a', 'u', 'l', 't']);
    assert("()"@ =~= seq!['(', ')']);
    assert(" sep="@ =~= seq![' '] + "sep"@ + seq!['=']);
    assert(" order=desc"@ =~= seq![' '] + "order"@ + seq!['='] + "desc"@);
    assert(" default="@ =~= seq![' '] + "default"@ + seq!['=']);
}

/// The word of a function is read before its parenthesis.
proof fn lemma_word_read(s: Seq<char>, at: int, fun: AggregateFun)
    requires
        starts_at(s, at, word(fun)),
        at + word(fun).len() < s.len(),
        s[at + word(fun).len()] == '(',
    ensures
        aggregate_word(s, at) == Some((plain(fun), at + word(fun).len())),
{
    reveal(word);
    lemma_function_words();
    lemma_no_white_space(s, at + word(fun).len());
    lemma_starts_at_char(s, at, word(fun), 0);
    lemma_starts_at_char(s, at, word(fun), 1);
    lemma_starts_at_char(s, at, word(fun), 2);
    if word(fun)[0] != 'g' {
        lemma_other_token(s, at, "group"@);
    }
    if word(fun)[0] != 's' {
        lemma_other_token(s, at, "sum"@);
    }
    if word(fun)[0] != 'm' {
        lemma_other_token(s, at, "max"@);
        lemma_other_token(s, at, "min"@);
    } else if starts_at(s, at, "max"@) {
        lemma_starts_at_char(s, at, "max"@, 1);
    }
    if word(fun)[0] != 'l' {
        lemma_other_token(s, at, "list"@);
    }
    if word(fun)[0] != 'c' {
        lemma_other_token(s, at, "concat"@);
    } else if starts_at(s, at, "concat"@) {
        lemma_starts_at_char(s, at, "concat"@, 2);
    }
    if word(fun)[0] != 'a' {
        lemma_other_token(s, at, "avg"@);
    }
}

/// Whether `c` can start the word of a function over groups.
spec fn starts_word(c: char) -> bool {
    c == 'g' || c == 's' || c == 'm' || c == 'l' || c == 'c' || c == 'a'
}

/// No function over groups is read where none starts.
proof fn lemma_no_function(s: Seq<char>, at: int)
    requires
        0 <= at < s.len(),
        !starts_word(s[at]),
    ensures
        aggregate(s, at) == (Step::Done { value: None::<Aggregate>, at }),
{
    lemma_function_words();
    lemma_other_token(s, at, "group"@);
    lemma_other_token(s, at, "sum"@);
    lemma_other_token(s, at, "max"@);
    lemma_other_token(s, at, "min"@);
    lemma_other_token(s, at, "list"@);
    lemma_other_token(s, at, "concat"@);
    lemma_other_token(s, at, "avg"@);
    lemma_other_token(s, at, "count"@);
}

/// A path is read back before the options of a function, and these are read back.
proof fn lemma_options_round_trip(
    s: Seq<char>,
    end: int,
    fun: AggregateFun,
    path: Path,
    argument: JsonView,
    style: Style,
)
    requires
        fun != AggregateFun::Count,
        writable_aggregate(fun, path, argument),
        starts_at(s, end, option_text(fun, argument, style) + ")"@),
    ensures
        path_ends(s, end, path, style),
        fun == AggregateFun::Concat ==> separator(s, skip_ws(s, end)) == (Step::Done {
            value: argument->String_0,
            at: end + option_text(fun, argument, style).len(),
        }),
        fun != AggregateFun::Concat ==> aggregate_order(s, skip_ws(s, end), plain(fun)) == (
        Step::Done { value: fun, at: end + option_text(fun, argument, style).len() }),
        s[end + option_text(fun, argument, style).len()] == ')',
        0 <= end + option_text(fun, argument, style).len() < s.len(),
{
    reveal(option_text);
    lemma_marks();
    lemma_option_words();
    let option = option_text(fun, argument, style);
    let close = end + option.len();
    lemma_starts_at_parts(s, end, option, ")"@);
    lemma_starts_at_char(s, close, ")"@, 0);
    lemma_no_white_space(s, close);
    if option.len() == 0 {
        lemma_other_token(s, end, "["@);
        lemma_other_token(s, end, "."@);
        lemma_other_token(s, end, "sep"@);
        lemma_other_token(s, end, "order"@);
    } else {
        lemma_starts_at_char(s, end, option, 0);
        lemma_starts_at_char(s, end, option, 1);
        lemma_no_white_space(s, end + 1);
        assert(skip_ws(s, end) == end + 1) by {
            assert(white_space(s[end]));
        }
        lemma_other_token(s, end + 1, "["@);
        lemma_other_token(s, end + 1, "."@);
        if fun == AggregateFun::Concat {
            let text = argument->String_0;
            assert(option =~= seq![' '] + ("sep"@ + ("="@ + quoted(text, style))));
            lemma_starts_at_parts(s, end, seq![' '], "sep"@ + ("="@ + quoted(text, style)));
            lemma_starts_at_parts(s, end + 1, "sep"@, "="@ + quoted(text, style));
            lemma_starts_at_parts(s, end + 4, "="@, quoted(text, style));
            lemma_starts_at_char(s, end + 4, "="@, 0);
            lemma_no_white_space(s, end + 4);
            lemma_starts_at_char(s, end + 5, quoted(text, style), 0);
            lemma_no_white_space(s, end + 5);
            law_string_round_trip(s, end + 5, text, style);
        } else {
            assert(option =~= seq![' '] + ("order"@ + ("="@ + "desc"@)));
            lemma_starts_at_parts(s, end, seq![' '], "order"@ + ("="@ + "desc"@));
            lemma_starts_at_parts(s, end + 1, "order"@, "="@ + "desc"@);
            lemma_starts_at_parts(s, end + 6, "="@, "desc"@);
            lemma_starts_at_char(s, end + 6, "="@, 0);
            lemma_no_white_space(s, end + 6);
            lemma_starts_at_char(s, end + 7, "desc"@, 0);
            lemma_no_white_space(s, end + 7);
            lemma_other_token(s, end + 7, "asc"@);
        }
    }
}

/// What stands in the parentheses of a function is read back.
proof fn lemma_argument_round_trip(
    s: Seq<char>,
    at: int,
    fun: AggregateFun,
    path: Path,
    argument: JsonView,
    style: Style,
)
    requires
        fun != AggregateFun::Count,
        writable_aggregate(fun, path, argument),
        starts_at(s, at, path_text(path, style) + (option_text(fun, argument, style) + ")"@)),
    ensures
        aggregate_argument(s, at, plain(fun)) == (Step::Done {
            value: Some((fun, path, argument)),
            at: skip_ws(
                s,
                at + path_text(path, style).len() + option_text(fun, argument, style).len() + 1,
            ),
        }),
{
    let end = at + path_text(path, style).len();
    let close = end + option_text(fun, argument, style).len();
    lemma_starts_at_parts(s, at, path_text(path, style), option_text(fun, argument, style) + ")"@);
    lemma_options_round_trip(s, end, fun, path, argument, style);
    law_keypath_round_trip(s, at, path, style);
    lemma_marks();
    lemma_one_mark(s, close, ")"@, ')');
}

/// A word with a parenthesis behind it is a function with what stands in there.
proof fn lemma_function_read(s: Seq<char>, at: int, fun: AggregateFun)
    requires
        starts_at(s, at, word(fun)),
        at + word(fun).len() + 1 < s.len(),
        s[at + word(fun).len()] == '(',
        !white_space(s[at + word(fun).len() + 1]),
    ensures
        aggregate(s, at) == aggregate_argument(s, at + word(fun).len() + 1, plain(fun)),
{
    let open = at + word(fun).len();
    lemma_marks();
    lemma_one_mark(s, open, "("@, '(');
    lemma_no_white_space(s, open + 1);
    lemma_word_read(s, at, fun);
}

/// Where the parts of a function stand.
proof fn lemma_function_parts(s: Seq<char>, at: int, name: Seq<char>, argument: Seq<char>)
    requires
        starts_at(s, at, name + ("("@ + argument)),
        argument.len() > 0,
    ensures
        starts_at(s, at, name),
        0 <= at + name.len(),
        at + name.len() + 1 < s.len(),
        s[at + name.len()] == '(',
        starts_at(s, at + name.len() + 1, argument),
        s[at + name.len() + 1] == argument[0],
{
    lemma_marks();
    lemma_starts_at_parts(s, at, name, "("@ + argument);
    lemma_starts_at_parts(s, at + name.len(), "("@, argument);
    lemma_starts_at_char(s, at + name.len(), "("@, 0);
    lemma_starts_at_char(s, at + name.len() + 1, argument, 0);
}

/// A function over groups is read back.
proof fn lemma_aggregate_round_trip(
    s: Seq<char>,
    at: int,
    fun: AggregateFun,
    path: Path,
    argument: JsonView,
    style: Style,
)
    requires
        writable_aggregate(fun, path, argument),
        starts_at(s, at, aggregate_text(fun, path, argument, style)),
    ensures
        aggregate(s, at) == (Step::Done {
            value: Some((fun, path, argument)),
            at: skip_ws(s, at + aggregate_text(fun, path, argument, style).len()),
        }),
{
    if fun == AggregateFun::Count {
        lemma_count_round_trip(s, at);
        assert(path =~= Path::empty());
        assert("()"@.len() == 2) by {
            lemma_option_words();
        }
    } else {
        lemma_path_function_round_trip(s, at, fun, path, argument, style);
        assert("("@.len() == 1 && ")"@.len() == 1) by {
            lemma_marks();
        }
    }
}

/// A function with a path is read back.
proof fn lemma_path_function_round_trip(
    s: Seq<char>,
    at: int,
    fun: AggregateFun,
    path: Path,
    argument: JsonView,
    style: Style,
)
    requires
        fun != AggregateFun::Count,
        writable_aggregate(fun, path, argument),
        starts_at(
            s,
            at,
            word(fun) + ("("@ + (path_text(path, style) + (option_text(fun, argument, style)
                + ")"@))),
        ),
    ensures
        aggregate(s, at) == (Step::Done {
            value: Some((fun, path, argument)),
            at: skip_ws(
                s,
                at + word(fun).len() + path_text(path, style).len() + option_text(
                    fun,
                    argument,
                    style,
                ).len() + 2,
            ),
        }),
{
    let rest = path_text(path, style) + (option_text(fun, argument, style) + ")"@);
    lemma_path_text_start(path, style);
    assert(rest[0] == '.');
    lemma_function_parts(s, at, word(fun), rest);
    lemma_argument_round_trip(s, at + word(fun).len() + 1, fun, path, argument, style);
    lemma_function_read(s, at, fun);
}

/// The count is read back.
proof fn lemma_count_round_trip(s: Seq<char>, at: int)
    requires
        starts_at(s, at, word(AggregateFun::Count) + "()"@),
    ensures
        aggregate(s, at) == (Step::Done {
            value: Some((AggregateFun::Count, Path::empty(), JsonView::Null)),
            at: skip_ws(s, at + word(AggregateFun::Count).len() + 2),
        }),
{
    reveal(word);
    let fun = AggregateFun::Count;
    let open = at + word(fun).len();
    lemma_marks();
    lemma_option_words();
    lemma_starts_at_parts(s, at, word(fun), "()"@);
    lemma_starts_at_char(s, open, "()"@, 0);
    lemma_starts_at_char(s, open, "()"@, 1);
    lemma_word_read(s, at, fun);
    lemma_one_mark(s, open, "("@, '(');
    lemma_no_white_space(s, open + 1);
    lemma_one_mark(s, open + 1, ")"@, ')');
}

/// A key path is written with a dot first.
pub proof fn lemma_path_text_start(path: Path, style: Style)
    ensures
        path_text(path, style).len() > 0,
        path_text(path, style)[0] == '.',
{
    lemma_marks();
}

/// A default that is written out, as it stands behind a value.
pub open spec fn given_default_text(default: JsonView, style: Style) -> Seq<char> {
    " default="@ + json_text(default, style)
}

/// A default that is written out is read back.
pub proof fn lemma_given_default_round_trip(
    s: Seq<char>,
    at: int,
    default: JsonView,
    style: Style,
)
    requires
        writable(default),
        starts_at(s, at, given_default_text(default, style)),
        json_ends(s, (at + given_default_text(default, style).len()) as int, default),
    ensures
        default_value(s, skip_ws(s, at)) == (Step::Done {
            value: Some(default),
            at: skip_ws(s, at + given_default_text(default, style).len()),
        }),
        0 <= at,
        at + 1 < s.len(),
        s[at] == ' ',
        s[at + 1] == 'd',
        skip_ws(s, at) == at + 1,
        starts_at(s, at + 1, "default"@),
{
    lemma_marks();
    lemma_option_words();
    let text = json_text(default, style);
    assert(given_default_text(default, style) =~= seq![' '] + ("default"@ + ("="@ + text)));
    lemma_starts_at_parts(s, at, seq![' '], "default"@ + ("="@ + text));
    lemma_starts_at_parts(s, at + 1, "default"@, "="@ + text);
    lemma_starts_at_parts(s, at + 8, "="@, text);
    lemma_starts_at_char(s, at, seq![' '], 0);
    lemma_starts_at_char(s, at + 1, "default"@, 0);
    lemma_no_white_space(s, at + 1);
    assert(skip_ws(s, at) == at + 1) by {
        assert(white_space(s[at]));
    }
    lemma_starts_at_char(s, at + 8, "="@, 0);
    lemma_no_white_space(s, at + 8);
    lemma_json_text_start(default, style);
    lemma_starts_at_char(s, at + 9, text, 0);
    lemma_no_white_space(s, at + 9);
    law_json_round_trip(s, at + 9, default, style);
}

/// A default is read back, and nothing is passed where there is none.
pub proof fn lemma_default_round_trip(s: Seq<char>, at: int, default: JsonView, style: Style)
    requires
        0 <= at <= s.len(),
        writable(default),
        starts_at(s, at, default_text(default, style)),
        if default == JsonView::Null {
            !starts_at(s, skip_ws(s, at), "default"@)
        } else {
            json_ends(s, (at + default_text(default, style).len()) as int, default)
        },
    ensures
        default_value(s, skip_ws(s, at)) == (Step::Done {
            value: if default == JsonView::Null { None } else { Some(default) },
            at: skip_ws(s, at + default_text(default, style).len()),
        }),
        default != JsonView::Null ==> at + 1 < s.len() && s[at] == ' ' && s[at + 1] == 'd',
{
    if default != JsonView::Null {
        lemma_given_default_round_trip(s, at, default, style);
    }
}

/// The source of a value is read back before its default.
proof fn lemma_source_round_trip(
    s: Seq<char>,
    at: int,
    path: Path,
    ag: Option<(AggregateFun, JsonView)>,
    style: Style,
)
    requires
        match ag {
            None => writable_path(path) && path_ends(
                s,
                (at + source_text(path, ag, style).len()) as int,
                path,
                style,
            ),
            Some((fun, argument)) => writable_aggregate(fun, path, argument),
        },
        starts_at(s, at, source_text(path, ag, style)),
    ensures
        ret_leaf(s, at) == finish_value(
            s,
            skip_ws(s, at + source_text(path, ag, style).len()),
            path,
            ag,
        ),
{
    match ag {
        None => {
            lemma_path_text_start(path, style);
            lemma_starts_at_char(s, at, path_text(path, style), 0);
            lemma_no_function(s, at);
            law_keypath_round_trip(s, at, path, style);
        },
        Some((fun, argument)) => {
            lemma_aggregate_round_trip(s, at, fun, path, argument, style);
        },
    }
}

/// A path does not go on before a word.
pub proof fn lemma_path_before_word(s: Seq<char>, end: int, path: Path, style: Style)
    requires
        path.len() > 0,
        0 <= end,
        end + 1 < s.len(),
        s[end] == ' ',
        name_start(s[end + 1]),
    ensures
        path_ends(s, end, path, style),
{
    lemma_marks();
    lemma_no_white_space(s, end + 1);
    assert(skip_ws(s, end) == end + 1) by {
        assert(white_space(s[end]));
    }
    lemma_other_token(s, end + 1, "["@);
    lemma_other_token(s, end + 1, "."@);
}

/// A value of the document is read back.
proof fn lemma_value_round_trip(s: Seq<char>, at: int, form: RetView, style: Style)
    requires
        form is Value,
        writable_form(form),
        starts_at(s, at, form_text(form, style)),
        form_ends(s, (at + form_text(form, style).len()) as int, form, style),
    ensures
        ret_leaf(s, at) == (Step::Done {
            value: Some(form),
            at: skip_ws(s, at + form_text(form, style).len()),
        }),
{
    if let RetView::Value { path, ag, default, sort } = form {
        let source = source_text(path, ag, style);
        let end = at + source.len();
        lemma_starts_at_parts(s, at, source, default_text(default, style));
        lemma_default_round_trip(s, end, default, style);
        if ag is None && default != JsonView::Null {
            lemma_path_before_word(s, end, path, style);
        }
        lemma_source_round_trip(s, at, path, ag, style);
    }
}

/// No value of the document is read where neither a function nor a path starts.
proof fn lemma_no_leaf(s: Seq<char>, at: int)
    requires
        0 <= at < s.len(),
        !starts_word(s[at]),
        s[at] != '.',
    ensures
        ret_leaf(s, at) == (Step::Done { value: None::<RetView>, at }),
{
    lemma_marks();
    lemma_no_function(s, at);
    lemma_other_token(s, at, "."@);
}

/// A fixed value is read back.
proof fn lemma_literal_round_trip(s: Seq<char>, at: int, value: JsonView, style: Style)
    requires
        writable(value),
        !(value is Array),
        !(value is Object),
        starts_at(s, at, json_text(value, style)),
        json_ends(s, (at + json_text(value, style).len()) as int, value),
    ensures
        ret_value(s, at) == (Step::Done {
            value: Some(RetView::Literal(value)),
            at: skip_ws(s, at + json_text(value, style).len()),
        }),
{
    lemma_words();
    lemma_marks();
    lemma_quote_token();
    lemma_json_text_start(value, style);
    lemma_starts_at_char(s, at, json_text(value, style), 0);
    lemma_no_leaf(s, at);
    lemma_other_token(s, at, "{"@);
    lemma_other_token(s, at, "["@);
    match value {
        JsonView::String(text) => {
            law_string_round_trip(s, at, text, style);
        },
        JsonView::Number(t) => {
            lemma_other_token(s, at, "\""@);
            law_number_round_trip(s, at, t);
        },
        JsonView::True => {
            lemma_other_token(s, at, "\""@);
        },
        JsonView::False => {
            lemma_other_token(s, at, "\""@);
            lemma_other_token(s, at, "true"@);
        },
        _ => {
            lemma_other_token(s, at, "\""@);
            lemma_other_token(s, at, "true"@);
            lemma_other_token(s, at, "false"@);
        },
    }
}

/// Whether `c` can start the form of a result.
spec fn starts_form(c: char) -> bool {
    starts_json(c) || starts_word(c) || c == '.'
}

/// A form is written with a character that starts one.
proof fn lemma_form_text_start(form: RetView, style: Style)
    requires
        writable_form(form),
    ensures
        form_text(form, style).len() > 0,
        starts_form(form_text(form, style)[0]),
{
    lemma_marks();
    match form {
        RetView::Value { path, ag, default, sort } => match ag {
            None => {
                lemma_path_text_start(path, style);
            },
            Some((fun, argument)) => {
                reveal(word);
                lemma_function_words();
            },
        },
        RetView::Literal(value) => {
            lemma_json_text_start(value, style);
        },
        _ => {},
    }
}

/// A form does not go on before a mark that stands behind it in an object or an array.
proof fn lemma_form_ends(s: Seq<char>, end: int, form: RetView, style: Style)
    requires
        0 <= end < s.len(),
        s[end] == ',' || s[end] == '}' || s[end] == ']',
    ensures
        form_ends(s, end, form, style),
{
    lemma_marks();
    lemma_option_words();
    lemma_no_white_space(s, end);
    lemma_other_token(s, end, "default"@);
    lemma_other_token(s, end, "["@);
    lemma_other_token(s, end, "."@);
}

/// Reads a form.
#[verifier::opaque]
spec fn form_at(s: Seq<char>, at: int) -> Step<Option<RetView>> {
    ret_value(s, at)
}

/// Reads members behind those of `before`.
#[verifier::opaque]
spec fn fields_at(s: Seq<char>, at: int, before: Seq<(Seq<char>, RetView)>) -> Step<RetView> {
    ret_fields(s, at, before)
}

/// Reads items behind those of `before`.
#[verifier::opaque]
spec fn slots_at(s: Seq<char>, at: int, before: Seq<RetView>) -> Step<RetView> {
    ret_slots(s, at, before)
}

/// The form of a result is read back where it ends.
pub proof fn law_form_round_trip(s: Seq<char>, at: int, form: RetView, style: Style)
    requires
        writable_form(form),
        starts_at(s, at, form_text(form, style)),
        form_ends(s, (at + form_text(form, style).len()) as int, form, style),
    ensures
        ret_value(s, at) == (Step::Done {
            value: Some(form),
            at: skip_ws(s, at + form_text(form, style).len()),
        }),
    decreases form, 0int,
{
    lemma_marks();
    lemma_form_text_start(form, style);
    let text = form_text(form, style);
    lemma_starts_at_char(s, at, text, 0);
    match form {
        RetView::Value { path, ag, default, sort } => {
            lemma_value_round_trip(s, at, form, style);
        },
        RetView::Literal(value) => {
            lemma_literal_round_trip(s, at, value, style);
        },
        RetView::Object(fields) => {
            let tail = fields_text(fields, style) + "}"@;
            assert(text =~= "{"@ + tail);
            lemma_starts_at_parts(s, at, "{"@, tail);
            lemma_starts_at_char(s, at + 1, tail, 0);
            lemma_fields_round_trip(s, at + 1, Seq::empty(), fields, style);
            lemma_object_read(s, at);
            assert(Seq::<(Seq<char>, RetView)>::empty() + fields =~= fields);
        },
        RetView::Array(slots) => {
            let tail = slots_text(slots, style) + "]"@;
            assert(text =~= "["@ + tail);
            lemma_starts_at_parts(s, at, "["@, tail);
            if slots.len() > 0 {
                lemma_form_text_start(slots[0], style);
            }
            lemma_starts_at_char(s, at + 1, tail, 0);
            lemma_slots_round_trip(s, at + 1, Seq::empty(), slots, style);
            lemma_array_read(s, at);
            assert(Seq::<RetView>::empty() + slots =~= slots);
        },
    }
    reveal(form_at);
}

/// A brace is read before the members of an object.
proof fn lemma_object_read(s: Seq<char>, at: int)
    requires
        0 <= at,
        at + 1 < s.len(),
        s[at] == '{',
        !white_space(s[at + 1]),
    ensures
        form_at(s, at) == match fields_at(s, at + 1, Seq::empty()) {
            Step::Done { value, at } => Step::Done { value: Some(value), at },
            Step::Fail { message, at } => Step::Fail { message, at },
        },
{
    lemma_marks();
    lemma_mark_read(s, at, "{"@, '{');
    lemma_no_leaf(s, at);
    reveal(form_at);
    reveal(fields_at);
}

/// A bracket is read before the items of an array.
proof fn lemma_array_read(s: Seq<char>, at: int)
    requires
        0 <= at,
        at + 1 < s.len(),
        s[at] == '[',
        !white_space(s[at + 1]),
    ensures
        form_at(s, at) == match slots_at(s, at + 1, Seq::empty()) {
            Step::Done { value, at } => Step::Done { value: Some(value), at },
            Step::Fail { message, at } => Step::Fail { message, at },
        },
{
    lemma_marks();
    lemma_mark_read(s, at, "["@, '[');
    lemma_other_token(s, at, "{"@);
    lemma_no_leaf(s, at);
    reveal(form_at);
    reveal(slots_at);
}

/// The form of a result is read back before a mark that stands behind it in an object or an
/// array.
proof fn lemma_form_before_mark(s: Seq<char>, at: int, form: RetView, style: Style)
    requires
        writable_form(form),
        starts_at(s, at, form_text(form, style)),
        at + form_text(form, style).len() < s.len(),
        ({
            let c = s[at + form_text(form, style).len()];
            c == ',' || c == '}' || c == ']'
        }),
    ensures
        form_at(s, at) == (Step::Done { value: Some(form), at: at + form_text(form, style).len() }),
    decreases form, 1int,
{
    reveal(form_at);
    reveal(fields_at);
    reveal(slots_at);
    let end = at + form_text(form, style).len();
    lemma_form_ends(s, end, form, style);
    law_form_round_trip(s, at, form, style);
    lemma_no_white_space(s, end);
}

/// A key with a form behind it is read before what follows it.
proof fn lemma_field_read(
    s: Seq<char>,
    at: int,
    before: Seq<(Seq<char>, RetView)>,
    name: Seq<char>,
    form: RetView,
    end: int,
    style: Style,
)
    requires
        starts_at(s, at, name_text(name, style) + ":"@),
        at + name_text(name, style).len() + 1 < end < s.len(),
        !white_space(s[at + name_text(name, style).len() + 1]),
        form_at(s, at + name_text(name, style).len() + 1) == (Step::Done {
            value: Some(form),
            at: end,
        }),
    ensures
        fields_at(s, at, before) == match after_token(s, end, ","@) {
            Some(next) => fields_at(s, next, before.push((name, form))),
            None => close_object(s, end, before.push((name, form))),
        },
{
    let start = at + name_text(name, style).len() + 1;
    assert(ret_value(s, start) == (Step::Done { value: Some(form), at: end })) by {
        reveal(form_at);
    }
    assert(key(s, at) == (Step::Done { value: Some(name), at: start - 1 }) && expect(
        s,
        start - 1,
        ":"@,
    ) == (Step::Done { value: (), at: start })) by {
        lemma_marks();
        lemma_starts_at_parts(s, at, name_text(name, style), ":"@);
        lemma_starts_at_char(s, start - 1, ":"@, 0);
        law_key_round_trip(s, at, name, style);
        lemma_no_white_space(s, start - 1);
        lemma_no_white_space(s, start);
    }
    reveal(fields_at);
}

/// A mark is read, and what follows it is.
proof fn lemma_mark_read(s: Seq<char>, at: int, token: Seq<char>, c: char)
    requires
        0 <= at < s.len(),
        s[at] == c,
        token == seq![c],
    ensures
        after_token(s, at, token) == Some(skip_ws(s, at + 1)),
        at + 1 < s.len() && !white_space(s[at + 1]) ==> skip_ws(s, at + 1) == at + 1,
{
    lemma_one_mark(s, at, token, c);
    if at + 1 < s.len() && !white_space(s[at + 1]) {
        lemma_no_white_space(s, at + 1);
    }
}

/// Where the parts of the first member stand.
proof fn lemma_field_parts(
    s: Seq<char>,
    at: int,
    name: Seq<char>,
    form: Seq<char>,
    mark: Seq<char>,
    rest: Seq<char>,
)
    requires
        starts_at(s, at, name + ":"@ + form + mark + rest),
        form.len() > 0,
        mark.len() == 1,
    ensures
        starts_at(s, at, name + ":"@),
        starts_at(s, at + name.len() + 1, form),
        at + name.len() + 1 + form.len() < s.len(),
        s[at + name.len() + 1] == form[0],
        s[at + name.len() + 1 + form.len()] == mark[0],
        starts_at(s, at + name.len() + 1 + form.len() + 1, rest),
{
    lemma_marks();
    let head = name + ":"@;
    lemma_starts_at_parts(s, at, head + form + mark, rest);
    lemma_starts_at_parts(s, at, head + form, mark);
    lemma_starts_at_parts(s, at, head, form);
    lemma_starts_at_char(s, at + head.len(), form, 0);
    lemma_starts_at_char(s, at + head.len() + form.len(), mark, 0);
}

/// The members of an object are read back behind those of `before`.
proof fn lemma_fields_round_trip(
    s: Seq<char>,
    at: int,
    before: Seq<(Seq<char>, RetView)>,
    fields: Seq<(Seq<char>, RetView)>,
    style: Style,
)
    requires
        writable_fields(fields),
        starts_at(s, at, fields_text(fields, style) + "}"@),
    ensures
        fields_at(s, at, before) == (Step::Done {
            value: RetView::Object(before + fields),
            at: skip_ws(s, at + fields_text(fields, style).len() + 1),
        }),
    decreases fields, 0int,
{
    lemma_marks();
    if fields.len() == 0 {
        assert(fields_text(fields, style) + "}"@ =~= "}"@);
        lemma_no_fields(s, at, before);
        assert(before + fields =~= before);
    } else {
        let name = fields[0].0;
        let form = fields[0].1;
        let text = form_text(form, style);
        let end = at + name_text(name, style).len() + 1 + text.len();
        let rest = fields.drop_first();
        lemma_form_text_start(form, style);
        if fields.len() == 1 {
            assert(fields_text(fields, style) + "}"@ =~= name_text(name, style) + ":"@ + text + "}"@
                + Seq::empty());
            lemma_field_parts(s, at, name_text(name, style), text, "}"@, Seq::empty());
            lemma_form_before_mark(s, at + name_text(name, style).len() + 1, form, style);
            lemma_field_read(s, at, before, name, form, end, style);
            lemma_other_token(s, end, ","@);
            lemma_mark_read(s, end, "}"@, '}');
            assert(before.push((name, form)) =~= before + fields);
        } else {
            let tail = fields_text(rest, style) + "}"@;
            assert(fields_text(fields, style) + "}"@ =~= name_text(name, style) + ":"@ + text + ","@
                + tail);
            lemma_field_parts(s, at, name_text(name, style), text, ","@, tail);
            lemma_form_before_mark(s, at + name_text(name, style).len() + 1, form, style);
            lemma_name_text_start(rest[0].0, style);
            lemma_starts_at_char(s, end + 1, tail, 0);
            lemma_field_read(s, at, before, name, form, end, style);
            lemma_mark_read(s, end, ","@, ',');
            lemma_fields_round_trip(s, end + 1, before.push((name, form)), rest, style);
            assert(before.push((name, form)) + rest =~= before + fields);
        }
    }
}

/// An object can end behind its members.
proof fn lemma_no_fields(s: Seq<char>, at: int, before: Seq<(Seq<char>, RetView)>)
    requires
        starts_at(s, at, "}"@),
    ensures
        fields_at(s, at, before) == (Step::Done {
            value: RetView::Object(before),
            at: skip_ws(s, at + 1),
        }),
{
    reveal(form_at);
    reveal(fields_at);
    reveal(slots_at);
    lemma_marks();
    lemma_quote_token();
    lemma_starts_at_char(s, at, "}"@, 0);
    lemma_other_token(s, at, "\""@);
    assert(key(s, at) == (Step::Done { value: None::<Seq<char>>, at }));
}

/// What becomes of an item that is read.
proof fn lemma_slot_read(s: Seq<char>, at: int, before: Seq<RetView>, form: RetView, end: int)
    requires
        0 <= at <= end < s.len(),
        form_at(s, at) == (Step::Done { value: Some(form), at: end }),
    ensures
        s[end] == ']' ==> slots_at(s, at, before) == (Step::Done {
            value: RetView::Array(before.push(form)),
            at: skip_ws(s, end + 1),
        }),
        s[end] == ',' && end + 1 < s.len() && !white_space(s[end + 1]) ==> slots_at(s, at, before)
            == slots_at(s, end + 1, before.push(form)),
{
    reveal(form_at);
    reveal(fields_at);
    reveal(slots_at);
    lemma_marks();
    if s[end] == ']' {
        lemma_other_token(s, end, ","@);
        lemma_one_mark(s, end, "]"@, ']');
    }
    if s[end] == ',' && end + 1 < s.len() && !white_space(s[end + 1]) {
        lemma_one_mark(s, end, ","@, ',');
        lemma_no_white_space(s, end + 1);
    }
}

/// The items of an array are read back behind those of `before`.
proof fn lemma_slots_round_trip(
    s: Seq<char>,
    at: int,
    before: Seq<RetView>,
    slots: Seq<RetView>,
    style: Style,
)
    requires
        writable_slots(slots),
        starts_at(s, at, slots_text(slots, style) + "]"@),
    ensures
        slots_at(s, at, before) == (Step::Done {
            value: RetView::Array(before + slots),
            at: skip_ws(s, at + slots_text(slots, style).len() + 1),
        }),
    decreases slots, 0int,
{
    reveal_with_fuel(writable_slots, 2);
    lemma_marks();
    if slots.len() == 0 {
        assert(slots_text(slots, style) + "]"@ =~= "]"@);
        lemma_no_slots(s, at, before);
        assert(before + slots =~= before);
    } else {
        let form = slots[0];
        let text = form_text(form, style);
        let end = at + text.len();
        let rest = slots.drop_first();
        if slots.len() == 1 {
            lemma_starts_at_parts(s, at, text, "]"@);
            lemma_starts_at_char(s, end, "]"@, 0);
            lemma_form_before_mark(s, at, form, style);
            lemma_slot_read(s, at, before, form, end);
            assert(before.push(form) =~= before + slots);
        } else {
            let tail = slots_text(rest, style) + "]"@;
            assert(slots_text(slots, style) + "]"@ =~= text + (","@ + tail));
            lemma_starts_at_parts(s, at, text, ","@ + tail);
            lemma_starts_at_parts(s, end, ","@, tail);
            lemma_starts_at_char(s, end, ","@, 0);
            lemma_form_before_mark(s, at, form, style);
            lemma_form_text_start(rest[0], style);
            lemma_starts_at_char(s, end + 1, tail, 0);
            lemma_slot_read(s, at, before, form, end);
            lemma_slots_round_trip(s, end + 1, before.push(form), rest, style);
            assert(before.push(form) + rest =~= before + slots);
        }
    }
}

/// An array can end behind its items.
proof fn lemma_no_slots(s: Seq<char>, at: int, before: Seq<RetView>)
    requires
        starts_at(s, at, "]"@),
    ensures
        slots_at(s, at, before) == (Step::Done {
            value: RetView::Array(before),
            at: skip_ws(s, at + 1),
        }),
{
    reveal(form_at);
    reveal(slots_at);
    lemma_marks();
    lemma_nothing_before_bracket(s, at);
}

/// No form is read before the bracket that closes an array.
proof fn lemma_nothing_before_bracket(s: Seq<char>, at: int)
    requires
        starts_at(s, at, "]"@),
    ensures
        form_at(s, at) == (Step::Done { value: None::<RetView>, at }),
{
    reveal(form_at);
    reveal(fields_at);
    reveal(slots_at);
    lemma_marks();
    lemma_words();
    lemma_quote_token();
    lemma_starts_at_char(s, at, "]"@, 0);
    lemma_no_leaf(s, at);
    lemma_other_token(s, at, "{"@);
    lemma_other_token(s, at, "["@);
    lemma_other_token(s, at, "\""@);
    lemma_other_token(s, at, "true"@);
    lemma_other_token(s, at, "false"@);
    lemma_other_token(s, at, "null"@);
}

/// The clause on the form of the results is read back where it ends.
pub proof fn law_return_round_trip(s: Seq<char>, at: int, form: RetView, style: Style)
    requires
        writable_form(form),
        after_token(s, at, "return"@) matches Some(start) && starts_at(s, start, form_text(form, style))
            && form_ends(s, (start + form_text(form, style).len()) as int, form, style),
    ensures
        return_clause(s, at) == (Step::Done {
            value: form,
            at: skip_ws(s, after_token(s, at, "return"@).unwrap() + form_text(form, style).len()),
        }),
{
    let start = after_token(s, at, "return"@).unwrap();
    law_form_round_trip(s, start, form, style);
}

/// A word does not follow where no name does.
pub proof fn lemma_no_word(s: Seq<char>, at: int, token: Seq<char>)
    requires
        field(s, at) is None,
        token.len() > 0,
        name_start(token[0]),
    ensures
        after_token(s, at, token) is None,
{
    if starts_at(s, at, token) {
        lemma_starts_at_char(s, at, token, 0);
    }
}

/// The options of a function that are read behind a path can be written.
proof fn lemma_options_writable(s: Seq<char>, at: int, path: Path, word_fun: AggregateFun)
    requires
        writable_path(path),
        path.len() == 0 ==> field(s, at) is None,
        word_fun != AggregateFun::GroupDesc,
        word_fun != AggregateFun::Count,
    ensures
        word_fun == AggregateFun::Concat ==> (separator(s, at) matches Step::Done {
            value,
            at: end,
        } ==> writable_aggregate(word_fun, path, JsonView::String(value))),
        word_fun != AggregateFun::Concat ==> (aggregate_order(s, at, word_fun) matches Step::Done {
            value,
            at: end,
        } ==> writable_aggregate(value, path, JsonView::Null)),
{
    lemma_option_words();
    if path.len() == 0 {
        lemma_no_word(s, at, "sep"@);
        lemma_no_word(s, at, "order"@);
    }
}

/// A function over groups that is read can be written.
proof fn lemma_aggregate_writable(s: Seq<char>, at: int)
    ensures
        aggregate(s, at) matches Step::Done { value: Some((fun, path, argument)), at: end }
            ==> writable_aggregate(fun, path, argument),
{
    if let Some((fun, next)) = aggregate_word(s, at) {
        if let Some(start) = after_token(s, next, "("@) {
            lemma_argument_writable(s, start, fun);
        }
    }
}

/// What is read in the parentheses of a function can be written.
proof fn lemma_argument_writable(s: Seq<char>, at: int, word_fun: AggregateFun)
    requires
        word_fun != AggregateFun::GroupDesc,
    ensures
        aggregate_argument(s, at, word_fun) matches Step::Done {
            value: Some((fun, path, argument)),
            at: end,
        } ==> writable_aggregate(fun, path, argument),
{
    if word_fun != AggregateFun::Count {
        law_keypath_writable(s, at);
        if let Step::Done { value: Some(path), at: end } = keypath(s, at) {
            lemma_options_writable(s, end, path, word_fun);
        }
    }
}

/// A value of the document that is read can be written.
proof fn lemma_leaf_writable(s: Seq<char>, at: int)
    requires
        0 <= at <= s.len(),
    ensures
        ret_leaf(s, at) matches Step::Done { value: Some(form), at: end } ==> writable_form(form),
{
    lemma_aggregate(s, at);
    lemma_aggregate_writable(s, at);
    lemma_keypath(s, at);
    law_keypath_writable(s, at);
    match aggregate(s, at) {
        Step::Done { value: Some((fun, path, argument)), at: end } => {
            lemma_value_writable(s, end, path, Some((fun, argument)));
        },
        Step::Done { value: None, .. } => {
            if let Step::Done { value: Some(path), at: end } = keypath(s, at) {
                lemma_value_writable(s, end, path, None);
            }
        },
        Step::Fail { .. } => {},
    }
}

/// A value whose source can be written can be written with the default that is read.
proof fn lemma_value_writable(
    s: Seq<char>,
    at: int,
    path: Path,
    ag: Option<(AggregateFun, JsonView)>,
)
    requires
        0 <= at <= s.len(),
        match ag {
            None => writable_path(path) && (path.len() == 0 ==> field(s, at) is None),
            Some((fun, argument)) => writable_aggregate(fun, path, argument),
        },
    ensures
        finish_value(s, at, path, ag) matches Step::Done { value: Some(form), at: end }
            ==> writable_form(form),
        finish_value(s, at, path, ag) matches Step::Done { value, at: end } ==> value is Some,
{
    lemma_finish_writable(s, at);
    if ag is None && path.len() == 0 {
        lemma_option_words();
        lemma_no_word(s, at, "default"@);
    }
}

/// A default that is read can be written.
pub proof fn lemma_finish_writable(s: Seq<char>, at: int)
    requires
        0 <= at <= s.len(),
    ensures
        default_value(s, at) matches Step::Done { value: Some(value), at: end } ==> writable(value),
{
    lemma_after_token(s, at, "default"@);
    if let Some(equals) = after_token(s, at, "default"@) {
        lemma_expect(s, equals, "="@);
        if let Step::Done { value: _, at: start } = expect(s, equals, "="@) {
            law_json_writable(s, start);
        }
    }
}

/// Items that can be written are written with another one.
proof fn lemma_writable_slots_push(slots: Seq<RetView>, form: RetView)
    requires
        writable_slots(slots),
        writable_form(form),
    ensures
        writable_slots(slots.push(form)),
    decreases slots.len(),
{
    reveal_with_fuel(writable_slots, 2);
    let all = slots.push(form);
    if slots.len() == 0 {
        assert(all.drop_first() =~= Seq::empty());
    } else {
        lemma_writable_slots_push(slots.drop_first(), form);
        assert(all.drop_first() =~= slots.drop_first().push(form));
    }
}

/// Members that can be written are written with another one.
proof fn lemma_writable_fields_push(
    fields: Seq<(Seq<char>, RetView)>,
    member: (Seq<char>, RetView),
)
    requires
        writable_fields(fields),
        writable_form(member.1),
    ensures
        writable_fields(fields.push(member)),
    decreases fields.len(),
{
    reveal_with_fuel(writable_fields, 2);
    let all = fields.push(member);
    if fields.len() == 0 {
        assert(all.drop_first() =~= Seq::empty());
    } else {
        lemma_writable_fields_push(fields.drop_first(), member);
        assert(all.drop_first() =~= fields.drop_first().push(member));
    }
}

/// The form of a result that is read can be written.
pub proof fn law_form_writable(s: Seq<char>, at: int)
    requires
        0 <= at <= s.len(),
    ensures
        ret_value(s, at) matches Step::Done { value: Some(form), at: end } ==> writable_form(form),
    decreases s.len() - at, 2int,
{
    lemma_marks();
    lemma_leaf_writable(s, at);
    if starts_at(s, at, "{"@) {
        lemma_ret_object_writable(s, at);
    } else if starts_at(s, at, "["@) {
        lemma_ret_array_writable(s, at);
    } else {
        lemma_literal_writable(s, at);
    }
}

/// A fixed value that is read can be written.
proof fn lemma_literal_writable(s: Seq<char>, at: int)
    requires
        0 <= at <= s.len(),
    ensures
        ret_literal(s, at) matches Step::Done { value: Some(form), at: end } ==> writable_form(form),
{
    lemma_string_literal(s, at);
    law_number_is_json(s, at);
}

/// An object in a result that is read can be written.
proof fn lemma_ret_object_writable(s: Seq<char>, at: int)
    requires
        0 <= at <= s.len(),
    ensures
        ret_object(s, at) matches Step::Done { value, at: end } ==> writable_form(value),
    decreases s.len() - at, 1int,
{
    lemma_marks();
    lemma_expect(s, at, "{"@);
    if let Step::Done { value: _, at: first } = expect(s, at, "{"@) {
        lemma_fields_writable(s, first, Seq::empty());
    }
}

/// The members of an object that are read behind those of `before` can be written.
proof fn lemma_fields_writable(s: Seq<char>, at: int, before: Seq<(Seq<char>, RetView)>)
    requires
        0 <= at <= s.len(),
        writable_fields(before),
    ensures
        ret_fields(s, at, before) matches Step::Done { value, at: end } ==> writable_form(value),
    decreases s.len() - at, 0int,
{
    lemma_marks();
    lemma_key(s, at);
    if let Step::Done { value: Some(name), at: colon } = key(s, at) {
        lemma_expect(s, colon, ":"@);
        if let Step::Done { value: _, at: start } = expect(s, colon, ":"@) {
            lemma_ret_value(s, start);
            law_form_writable(s, start);
            if let Step::Done { value: Some(form), at: end } = ret_value(s, start) {
                lemma_writable_fields_push(before, (name, form));
                lemma_after_token(s, end, ","@);
                if let Some(next) = after_token(s, end, ","@) {
                    lemma_fields_writable(s, next, before.push((name, form)));
                }
            }
        }
    }
}

/// An array in a result that is read can be written.
proof fn lemma_ret_array_writable(s: Seq<char>, at: int)
    requires
        0 <= at <= s.len(),
    ensures
        ret_array(s, at) matches Step::Done { value, at: end } ==> writable_form(value),
    decreases s.len() - at, 1int,
{
    lemma_marks();
    lemma_expect(s, at, "["@);
    if let Step::Done { value: _, at: first } = expect(s, at, "["@) {
        lemma_slots_writable(s, first, Seq::empty());
    }
}

/// The items of an array that are read behind those of `before` can be written.
proof fn lemma_slots_writable(s: Seq<char>, at: int, before: Seq<RetView>)
    requires
        0 <= at <= s.len(),
        writable_slots(before),
    ensures
        ret_slots(s, at, before) matches Step::Done { value, at: end } ==> writable_form(value),
    decreases s.len() - at, 3int,
{
    lemma_marks();
    lemma_ret_value(s, at);
    law_form_writable(s, at);
    if let Step::Done { value: Some(form), at: end } = ret_value(s, at) {
        lemma_writable_slots_push(before, form);
        lemma_after_token(s, end, ","@);
        if let Some(next) = after_token(s, end, ","@) {
            lemma_slots_writable(s, next, before.push(form));
        }
    }
}

} // verus!
