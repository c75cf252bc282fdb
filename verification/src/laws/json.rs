//! A JSON value that is written down is read back.

use vstd::prelude::*;
use crate::grammar::Step;
use crate::grammar::json::{json, json_array, json_items, json_members, json_object, lemma_json};
use crate::grammar::lexical::{after_token, char_at, expect, key, lemma_after_token, lemma_expect};
use crate::grammar::lexical::{lemma_key, lemma_marks, lemma_quote_token, lemma_string_literal};
use crate::grammar::lexical::{name_start, number, whole_end};
use crate::json_value::JsonView;
use crate::laws::lexical::{Style, first_digit, json_number, law_key_round_trip, law_number_is_json};
use crate::laws::lexical::{law_string_round_trip, lemma_name_text_start, lemma_no_white_space};
use crate::laws::lexical::{lemma_other_token, lemma_starts_at_char, lemma_starts_at_parts};
use crate::laws::lexical::{name_text, quoted};
use crate::text::{digit, lemma_run_end, lemma_run_end_unique, run_end, skip_ws, starts_at};

verus! {

/// Whether the number `t` would go on with `c`, if `c` followed it.
pub open spec fn goes_on(t: Seq<char>, c: char) -> bool {
    let whole = whole_end(t, first_digit(t));
    let fraction = run_end(t, whole + 1, |d: char| digit(d));
    if whole == t.len() {
        c == '.' || c == 'e' || c == 'E' || (digit(c) && t[first_digit(t)] != '0')
    } else if t[whole] == '.' && fraction == t.len() {
        digit(c) || c == 'e' || c == 'E'
    } else {
        digit(c)
    }
}

/// Whether the number `t` ends where it stands at `at`: nothing follows it with which it
/// would go on.
pub open spec fn number_ends(s: Seq<char>, at: int, t: Seq<char>) -> bool {
    at + t.len() < s.len() ==> !goes_on(t, s[at + t.len()])
}

/// A run of digits in a part of a text is one of the text, if no digit follows the part.
proof fn lemma_run_beyond_part(s: Seq<char>, from: int, to: int, at: int)
    requires
        0 <= from <= at <= to <= s.len(),
        to < s.len() ==> !digit(s[to]),
    ensures
        run_end(s, at, |c: char| digit(c)) == run_end(
            s.subrange(from, to),
            at - from,
            |c: char| digit(c),
        ) + from,
        run_end(s, at, |c: char| digit(c)) <= to,
{
    let class = |c: char| digit(c);
    let part = s.subrange(from, to);
    let end = run_end(part, at - from, class);
    lemma_run_end(part, at - from, class);
    assert forall|i: int| at <= i < end + from implies class(#[trigger] s[i]) by {
        assert(class(part[i - from]));
    }
    lemma_run_end_unique(s, at, end + from, class);
}

/// Every number of JSON is read back, where it ends.
pub proof fn law_number_round_trip(s: Seq<char>, at: int, t: Seq<char>)
    requires
        starts_at(s, at, t),
        json_number(t),
        number_ends(s, at, t),
    ensures
        number(s, at) == (Step::Done { value: Some(t), at: skip_ws(s, at + t.len()) }),
{
    let class = |c: char| digit(c);
    let to = at + t.len();
    assert(s.subrange(at, to) == t);
    let first = first_digit(t);
    lemma_starts_at_char(s, at, t, 0);
    lemma_starts_at_char(s, at, t, first);
    lemma_run_end(t, first + 1, class);
    if t[first] != '0' {
        lemma_run_beyond_part(s, at, to, at + first + 1);
    }
    let whole = whole_end(t, first);
    assert(whole_end(s, at + first) == at + whole);
    assert(char_at(s, at + whole, '.') == char_at(t, whole, '.')) by {
        if whole < t.len() {
            lemma_starts_at_char(s, at, t, whole);
        }
    }
    if char_at(t, whole, '.') {
        lemma_run_end(t, whole + 1, class);
        lemma_run_beyond_part(s, at, to, at + whole + 1);
    }
    let mantissa = if char_at(t, whole, '.') { run_end(t, whole + 1, class) } else { whole };
    if mantissa < t.len() {
        lemma_starts_at_char(s, at, t, mantissa);
        if mantissa + 1 < t.len() {
            lemma_starts_at_char(s, at, t, mantissa + 1);
            lemma_run_beyond_part(s, at, to, at + mantissa + 1);
            lemma_run_beyond_part(s, at, to, at + mantissa + 2);
        }
    }
}

/// Whether the numbers of `value` are numbers of JSON.
pub open spec fn writable(value: JsonView) -> bool
    decreases value,
{
    match value {
        JsonView::Number(t) => json_number(t),
        JsonView::Array(items) => writable_items(items),
        JsonView::Object(members) => writable_members(members),
        _ => true,
    }
}

/// Whether the numbers of all of `items` are numbers of JSON.
pub open spec fn writable_items(items: Seq<JsonView>) -> bool
    decreases items,
{
    if items.len() == 0 {
        true
    } else {
        writable(items[0]) && writable_items(items.drop_first())
    }
}

/// Whether the numbers of all of `members` are numbers of JSON.
pub open spec fn writable_members(members: Seq<(Seq<char>, JsonView)>) -> bool
    decreases members,
{
    if members.len() == 0 {
        true
    } else {
        writable(members[0].1) && writable_members(members.drop_first())
    }
}

/// `value` as it is written, without white space.
pub open spec fn json_text(value: JsonView, style: Style) -> Seq<char>
    decreases value,
{
    match value {
        JsonView::Null => "null"@,
        JsonView::True => "true"@,
        JsonView::False => "false"@,
        JsonView::Number(t) => t,
        JsonView::String(t) => quoted(t, style),
        JsonView::Array(items) => "["@ + items_text(items, style) + "]"@,
        JsonView::Object(members) => "{"@ + members_text(members, style) + "}"@,
    }
}

/// `items` as they are written, with commas between them.
pub open spec fn items_text(items: Seq<JsonView>, style: Style) -> Seq<char>
    decreases items,
{
    if items.len() == 0 {
        Seq::empty()
    } else if items.len() == 1 {
        json_text(items[0], style)
    } else {
        json_text(items[0], style) + ","@ + items_text(items.drop_first(), style)
    }
}

/// `members` as they are written, with commas between them.
pub open spec fn members_text(members: Seq<(Seq<char>, JsonView)>, style: Style) -> Seq<char>
    decreases members,
{
    if members.len() == 0 {
        Seq::empty()
    } else {
        let first = name_text(members[0].0, style) + ":"@ + json_text(members[0].1, style);
        if members.len() == 1 {
            first
        } else {
            first + ","@ + members_text(members.drop_first(), style)
        }
    }
}

/// The words of JSON, by their characters.
pub proof fn lemma_words()
    ensures
        "null"@ == seq!['n', 'u', 'l', 'l'],
        "true"@ == seq!['t', 'r', 'u', 'e'],
        "false"@ == seq!['f', 'a', 'l', 's', 'e'],
{
    reveal_strlit("null");
    reveal_strlit("true");
    reveal_strlit("false");
    assert("null"@ =~= seq!['n', 'u', 'l', 'l']);
    assert("true"@ =~= seq!['t', 'r', 'u', 'e']);
    assert("false"@ =~= seq!['f', 'a', 'l', 's', 'e']);
}

/// Whether `c` can start a JSON value.
pub open spec fn starts_json(c: char) -> bool {
    c == 'n' || c == 't' || c == 'f' || c == '"' || c == '-' || digit(c) || c == '[' || c == '{'
}

/// A JSON value is written with a character that starts one.
pub proof fn lemma_json_text_start(value: JsonView, style: Style)
    requires
        writable(value),
    ensures
        json_text(value, style).len() > 0,
        starts_json(json_text(value, style)[0]),
{
    lemma_words();
    lemma_marks();
}

/// A JSON value that is written without white space is read back, and the white space
/// behind it is skipped. A number has to end where it is written.
pub proof fn law_json_round_trip(s: Seq<char>, at: int, value: JsonView, style: Style)
    requires
        starts_at(s, at, json_text(value, style)),
        writable(value),
        value matches JsonView::Number(t) ==> number_ends(s, at, t),
    ensures
        json(s, at) == (Step::Done {
            value: Some(value),
            at: skip_ws(s, at + json_text(value, style).len()),
        }),
    decreases value,
{
    lemma_words();
    lemma_marks();
    lemma_quote_token();
    lemma_json_text_start(value, style);
    let text = json_text(value, style);
    lemma_starts_at_char(s, at, text, 0);
    match value {
        JsonView::Null => {
            lemma_other_token(s, at, "{"@);
            lemma_other_token(s, at, "["@);
            lemma_other_token(s, at, "\""@);
            lemma_other_token(s, at, "true"@);
            lemma_other_token(s, at, "false"@);
        },
        JsonView::True => {
            lemma_other_token(s, at, "{"@);
            lemma_other_token(s, at, "["@);
            lemma_other_token(s, at, "\""@);
        },
        JsonView::False => {
            lemma_other_token(s, at, "{"@);
            lemma_other_token(s, at, "["@);
            lemma_other_token(s, at, "\""@);
            lemma_other_token(s, at, "true"@);
        },
        JsonView::Number(t) => {
            lemma_other_token(s, at, "{"@);
            lemma_other_token(s, at, "["@);
            lemma_other_token(s, at, "\""@);
            lemma_other_token(s, at, "true"@);
            lemma_other_token(s, at, "false"@);
            lemma_other_token(s, at, "null"@);
            law_number_round_trip(s, at, t);
        },
        JsonView::String(t) => {
            lemma_other_token(s, at, "{"@);
            lemma_other_token(s, at, "["@);
            law_string_round_trip(s, at, t, style);
        },
        JsonView::Array(items) => {
            lemma_other_token(s, at, "{"@);
            let tail = items_text(items, style) + "]"@;
            assert(text =~= "["@ + tail);
            lemma_starts_at_parts(s, at, "["@, tail);
            lemma_starts_at_char(s, at + 1, tail, 0);
            if items.len() == 0 {
                assert(tail =~= "]"@);
                lemma_no_white_space(s, at + 1);
                assert(items =~= Seq::empty());
            } else {
                lemma_items_text_start(items, style);
                lemma_no_white_space(s, at + 1);
                lemma_other_token(s, at + 1, "]"@);
                lemma_items_round_trip(s, at + 1, Seq::empty(), items, style);
                assert(Seq::<JsonView>::empty() + items =~= items);
            }
        },
        JsonView::Object(members) => {
            let tail = members_text(members, style) + "}"@;
            assert(text =~= "{"@ + tail);
            lemma_starts_at_parts(s, at, "{"@, tail);
            lemma_starts_at_char(s, at + 1, tail, 0);
            if members.len() == 0 {
                assert(tail =~= "}"@);
                lemma_no_white_space(s, at + 1);
                assert(members =~= Seq::empty());
            } else {
                lemma_members_text_start(members, style);
                lemma_no_white_space(s, at + 1);
                lemma_other_token(s, at + 1, "}"@);
                lemma_members_round_trip(s, at + 1, Seq::empty(), members, style);
                assert(Seq::<(Seq<char>, JsonView)>::empty() + members =~= members);
            }
        },
    }
}

/// Items are written with a character that starts one.
proof fn lemma_items_text_start(items: Seq<JsonView>, style: Style)
    requires
        items.len() > 0,
        writable_items(items),
    ensures
        items_text(items, style).len() > 0,
        starts_json(items_text(items, style)[0]),
{
    lemma_json_text_start(items[0], style);
}

/// The items of an array are read back behind those of `before`.
proof fn lemma_items_round_trip(
    s: Seq<char>,
    at: int,
    before: Seq<JsonView>,
    items: Seq<JsonView>,
    style: Style,
)
    requires
        items.len() > 0,
        writable_items(items),
        starts_at(s, at, items_text(items, style) + "]"@),
    ensures
        json_items(s, at, before) == (Step::Done {
            value: JsonView::Array(before + items),
            at: skip_ws(s, at + items_text(items, style).len() + 1),
        }),
    decreases items,
{
    lemma_marks();
    let first = json_text(items[0], style);
    let end = at + first.len();
    if items.len() == 1 {
        lemma_starts_at_parts(s, at, first, "]"@);
        lemma_starts_at_char(s, end, "]"@, 0);
        law_json_round_trip(s, at, items[0], style);
        lemma_no_white_space(s, end);
        lemma_other_token(s, end, ","@);
        assert(before.push(items[0]) =~= before + items);
    } else {
        let rest = items.drop_first();
        let tail = items_text(rest, style) + "]"@;
        assert(items_text(items, style) + "]"@ =~= first + (","@ + tail));
        lemma_starts_at_parts(s, at, first, ","@ + tail);
        lemma_starts_at_parts(s, end, ","@, tail);
        lemma_starts_at_char(s, end, ","@, 0);
        law_json_round_trip(s, at, items[0], style);
        lemma_no_white_space(s, end);
        lemma_items_text_start(rest, style);
        lemma_starts_at_char(s, end + 1, tail, 0);
        lemma_no_white_space(s, end + 1);
        lemma_items_round_trip(s, end + 1, before.push(items[0]), rest, style);
        assert(before.push(items[0]) + rest =~= before + items);
    }
}

/// Members are written with a character that starts a key.
proof fn lemma_members_text_start(members: Seq<(Seq<char>, JsonView)>, style: Style)
    requires
        members.len() > 0,
    ensures
        members_text(members, style).len() > 0,
        ({
            let c = members_text(members, style)[0];
            c == '"' || name_start(c)
        }),
{
    lemma_name_text_start(members[0].0, style);
}

/// The members of an object are read back behind those of `before`.
proof fn lemma_members_round_trip(
    s: Seq<char>,
    at: int,
    before: Seq<(Seq<char>, JsonView)>,
    members: Seq<(Seq<char>, JsonView)>,
    style: Style,
)
    requires
        members.len() > 0,
        writable_members(members),
        starts_at(s, at, members_text(members, style) + "}"@),
    ensures
        json_members(s, at, before) == (Step::Done {
            value: JsonView::Object(before + members),
            at: skip_ws(s, at + members_text(members, style).len() + 1),
        }),
    decreases members,
{
    lemma_marks();
    let name = name_text(members[0].0, style);
    let value = json_text(members[0].1, style);
    let colon = at + name.len();
    let start = colon + 1;
    let end = start + value.len();
    let rest = members.drop_first();
    let tail = if members.len() == 1 {
        "}"@
    } else {
        ","@ + (members_text(rest, style) + "}"@)
    };
    assert(members_text(members, style) + "}"@ =~= name + (":"@ + (value + tail)));
    lemma_starts_at_parts(s, at, name, ":"@ + (value + tail));
    lemma_starts_at_parts(s, colon, ":"@, value + tail);
    lemma_starts_at_parts(s, start, value, tail);
    lemma_starts_at_char(s, colon, ":"@, 0);
    law_key_round_trip(s, at, members[0].0, style);
    lemma_no_white_space(s, colon);
    lemma_json_text_start(members[0].1, style);
    lemma_starts_at_char(s, start, value, 0);
    lemma_no_white_space(s, start);
    lemma_starts_at_char(s, end, tail, 0);
    law_json_round_trip(s, start, members[0].1, style);
    lemma_no_white_space(s, end);
    if members.len() == 1 {
        lemma_other_token(s, end, ","@);
        assert(before.push((members[0].0, members[0].1)) =~= before + members);
    } else {
        lemma_starts_at_parts(s, end, ","@, members_text(rest, style) + "}"@);
        lemma_members_text_start(rest, style);
        lemma_starts_at_char(s, end + 1, members_text(rest, style) + "}"@, 0);
        lemma_no_white_space(s, end + 1);
        lemma_members_round_trip(
            s,
            end + 1,
            before.push((members[0].0, members[0].1)),
            rest,
            style,
        );
        assert(before.push((members[0].0, members[0].1)) + rest =~= before + members);
    }
}

/// Items that can be written are written with another one.
proof fn lemma_writable_items_push(items: Seq<JsonView>, value: JsonView)
    requires
        writable_items(items),
        writable(value),
    ensures
        writable_items(items.push(value)),
    decreases items.len(),
{
    reveal_with_fuel(writable_items, 2);
    let all = items.push(value);
    if items.len() == 0 {
        assert(all.drop_first() =~= Seq::empty());
    } else {
        lemma_writable_items_push(items.drop_first(), value);
        assert(all.drop_first() =~= items.drop_first().push(value));
    }
}

/// Members that can be written are written with another one.
proof fn lemma_writable_members_push(
    members: Seq<(Seq<char>, JsonView)>,
    member: (Seq<char>, JsonView),
)
    requires
        writable_members(members),
        writable(member.1),
    ensures
        writable_members(members.push(member)),
    decreases members.len(),
{
    reveal_with_fuel(writable_members, 2);
    let all = members.push(member);
    if members.len() == 0 {
        assert(all.drop_first() =~= Seq::empty());
    } else {
        lemma_writable_members_push(members.drop_first(), member);
        assert(all.drop_first() =~= members.drop_first().push(member));
    }
}

/// A JSON value that is read can be written: its numbers are numbers of JSON.
pub proof fn law_json_writable(s: Seq<char>, at: int)
    requires
        0 <= at <= s.len(),
    ensures
        json(s, at) matches Step::Done { value: Some(value), at: end } ==> writable(value),
    decreases s.len() - at, 2int,
{
    lemma_marks();
    if starts_at(s, at, "{"@) {
        lemma_object_writable(s, at);
    } else if starts_at(s, at, "["@) {
        lemma_array_writable(s, at);
    } else {
        lemma_string_literal(s, at);
        law_number_is_json(s, at);
    }
}

/// A JSON object that is read can be written.
proof fn lemma_object_writable(s: Seq<char>, at: int)
    requires
        0 <= at <= s.len(),
    ensures
        json_object(s, at) matches Step::Done { value, at: end } ==> writable(value),
    decreases s.len() - at, 1int,
{
    lemma_marks();
    lemma_expect(s, at, "{"@);
    if let Step::Done { value: _, at: first } = expect(s, at, "{"@) {
        lemma_members_writable(s, first, Seq::empty());
    }
}

/// The members of a JSON object that are read behind those of `before` can be written.
proof fn lemma_members_writable(s: Seq<char>, at: int, before: Seq<(Seq<char>, JsonView)>)
    requires
        0 <= at <= s.len(),
        writable_members(before),
    ensures
        json_members(s, at, before) matches Step::Done { value, at: end } ==> writable(value),
    decreases s.len() - at, 0int,
{
    lemma_marks();
    lemma_key(s, at);
    if let Step::Done { value: Some(name), at: colon } = key(s, at) {
        lemma_expect(s, colon, ":"@);
        if let Step::Done { value: _, at: start } = expect(s, colon, ":"@) {
            lemma_json(s, start);
            law_json_writable(s, start);
            if let Step::Done { value: Some(value), at: end } = json(s, start) {
                lemma_writable_members_push(before, (name, value));
                lemma_after_token(s, end, ","@);
                if let Some(next) = after_token(s, end, ","@) {
                    lemma_members_writable(s, next, before.push((name, value)));
                }
            }
        }
    }
}

/// A JSON array that is read can be written.
proof fn lemma_array_writable(s: Seq<char>, at: int)
    requires
        0 <= at <= s.len(),
    ensures
        json_array(s, at) matches Step::Done { value, at: end } ==> writable(value),
    decreases s.len() - at, 1int,
{
    lemma_marks();
    lemma_expect(s, at, "["@);
    if let Step::Done { value: _, at: first } = expect(s, at, "["@) {
        lemma_items_writable(s, first, Seq::empty());
    }
}

/// The items of a JSON array that are read behind those of `before` can be written.
proof fn lemma_items_writable(s: Seq<char>, at: int, before: Seq<JsonView>)
    requires
        0 <= at <= s.len(),
        writable_items(before),
    ensures
        json_items(s, at, before) matches Step::Done { value, at: end } ==> writable(value),
    decreases s.len() - at, 3int,
{
    lemma_marks();
    lemma_json(s, at);
    law_json_writable(s, at);
    if let Step::Done { value: Some(value), at: end } = json(s, at) {
        lemma_writable_items_push(before, value);
        lemma_after_token(s, end, ","@);
        if let Some(next) = after_token(s, end, ","@) {
            lemma_items_writable(s, next, before.push(value));
        }
    }
}

} // verus!
