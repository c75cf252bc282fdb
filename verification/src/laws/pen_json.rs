//! A JSON value is read as what was written, however it was written.

use vstd::prelude::*;
use crate::grammar::Step;
use crate::grammar::json::{json, json_items, json_members, lemma_json};
use crate::grammar::lexical::{key, lemma_marks, lemma_quote_token, number};
use crate::json_value::JsonView;
use crate::laws::basic::{NumberParts, numeral, opens_name, spelling};
use crate::laws::json::lemma_words;
use crate::laws::pen::{Pen, clean, lemma_begins, lemma_number_start, lemma_pen_key};
use crate::laws::pen::{lemma_pen_key_start, lemma_pen_literal, lemma_pen_number, lemma_pen_token};
use crate::laws::pen::{pos, suffix};

verus! {

/// Whether the numbers of `value` are written as JSON asks.
pub open spec fn proper_json(value: JsonView) -> bool
    decreases value,
{
    match value {
        JsonView::Number(t) => exists|parts: NumberParts| #[trigger]
            parts.proper() && parts.text() == t,
        JsonView::Array(items) => proper_items(items),
        JsonView::Object(members) => proper_members(members),
        _ => true,
    }
}

/// Whether the numbers of all of `items` are written as JSON asks.
pub open spec fn proper_items(items: Seq<JsonView>) -> bool
    decreases items,
{
    items.len() > 0 ==> proper_json(items[0]) && proper_items(items.drop_first())
}

/// Whether the numbers of all of `members` are written as JSON asks.
pub open spec fn proper_members(members: Seq<(Seq<char>, JsonView)>) -> bool
    decreases members,
{
    members.len() > 0 ==> proper_json(members[0].1) && proper_members(members.drop_first())
}

/// `value` as it is written before `rest`.
pub open spec fn json_by(value: JsonView, pen: Pen, rest: Seq<char>) -> Seq<char>
    decreases value,
{
    match value {
        JsonView::Null => pen.token("null"@, rest),
        JsonView::True => pen.token("true"@, rest),
        JsonView::False => pen.token("false"@, rest),
        JsonView::Number(t) => pen.number(t, rest),
        JsonView::String(t) => pen.literal(t, rest),
        JsonView::Array(items) => pen.token("["@, items_by(items, pen, pen.token("]"@, rest))),
        JsonView::Object(members) => pen.token(
            "{"@,
            members_by(members, pen, pen.token("}"@, rest)),
        ),
    }
}

/// `items` as they are written before `rest`, with commas between them.
pub open spec fn items_by(items: Seq<JsonView>, pen: Pen, rest: Seq<char>) -> Seq<char>
    decreases items,
{
    if items.len() == 0 {
        rest
    } else if items.len() == 1 {
        json_by(items[0], pen, rest)
    } else {
        json_by(items[0], pen, pen.token(","@, items_by(items.drop_first(), pen, rest)))
    }
}

/// `members` as they are written before `rest`, with commas between them.
pub open spec fn members_by(
    members: Seq<(Seq<char>, JsonView)>,
    pen: Pen,
    rest: Seq<char>,
) -> Seq<char>
    decreases members,
{
    if members.len() == 0 {
        rest
    } else {
        let behind = if members.len() == 1 {
            rest
        } else {
            pen.token(","@, members_by(members.drop_first(), pen, rest))
        };
        pen.key(members[0].0, pen.token(":"@, json_by(members[0].1, pen, behind)))
    }
}

/// Whether `c` can start a JSON value.
pub open spec fn opens_json(c: char) -> bool {
    c == 'n' || c == 't' || c == 'f' || c == '"' || c == '-' || numeral(c) || c == '[' || c == '{'
}

/// A token stands first where it is written.
pub proof fn lemma_token_first(pen: Pen, t: Seq<char>, rest: Seq<char>)
    requires
        t.len() > 0,
    ensures
        pen.token(t, rest).len() > 0,
        pen.token(t, rest)[0] == t[0],
{
}

/// A JSON value is written with a character that starts one.
pub proof fn lemma_json_by_start(value: JsonView, pen: Pen, rest: Seq<char>)
    requires
        proper_json(value),
    ensures
        json_by(value, pen, rest).len() > 0,
        opens_json(json_by(value, pen, rest)[0]),
        clean(json_by(value, pen, rest)),
{
    lemma_words();
    lemma_marks();
    match value {
        JsonView::Number(t) => {
            let parts = choose|parts: NumberParts| #[trigger] parts.proper() && parts.text() == t;
            lemma_number_start(parts);
        },
        JsonView::String(t) => {
            let text = seq!['"'] + spelling(t, (pen.escapes)(rest)) + seq!['"'];
            assert(text[0] == '"');
        },
        _ => {},
    }
}

/// Items are written with a character that starts one, or as nothing.
pub proof fn lemma_items_by_start(items: Seq<JsonView>, pen: Pen, rest: Seq<char>)
    requires
        proper_items(items),
        items.len() > 0,
    ensures
        items_by(items, pen, rest).len() > 0,
        opens_json(items_by(items, pen, rest)[0]),
        clean(items_by(items, pen, rest)),
{
    if items.len() == 1 {
        lemma_json_by_start(items[0], pen, rest);
    } else {
        let behind = pen.token(","@, items_by(items.drop_first(), pen, rest));
        lemma_json_by_start(items[0], pen, behind);
    }
}

/// Members are written with a character that starts a key.
pub proof fn lemma_members_by_start(
    members: Seq<(Seq<char>, JsonView)>,
    pen: Pen,
    rest: Seq<char>,
)
    requires
        members.len() > 0,
    ensures
        members_by(members, pen, rest).len() > 0,
        ({
            let c = members_by(members, pen, rest)[0];
            c == '"' || opens_name(c)
        }),
        clean(members_by(members, pen, rest)),
{
    let behind = if members.len() == 1 {
        rest
    } else {
        pen.token(","@, members_by(members.drop_first(), pen, rest))
    };
    lemma_pen_key_start(pen, members[0].0, pen.token(":"@, json_by(members[0].1, pen, behind)));
}

/// Every JSON value is read as what it is, with any white space between its tokens, with its
/// keys as names or in quotes, and with any escapes in its literals.
pub proof fn law_json_read(s: Seq<char>, value: JsonView, pen: Pen, rest: Seq<char>)
    requires
        pen.ok(),
        proper_json(value),
        clean(rest),
        suffix(s, json_by(value, pen, rest)),
    ensures
        suffix(s, rest),
        json(s, pos(s, json_by(value, pen, rest))) == (Step::Done {
            value: Some(value),
            at: pos(s, rest),
        }),
    decreases value,
{
    lemma_words();
    lemma_marks();
    lemma_quote_token();
    lemma_json_by_start(value, pen, rest);
    let text = json_by(value, pen, rest);
    lemma_begins(s, text, "{"@);
    lemma_begins(s, text, "["@);
    match value {
        JsonView::Array(items) => {
            let close = pen.token("]"@, rest);
            let inner = items_by(items, pen, close);
            lemma_token_first(pen, "]"@, rest);
            if items.len() == 0 {
                lemma_pen_token(s, pen, "["@, close);
                lemma_pen_token(s, pen, "]"@, rest);
                assert(items =~= Seq::empty());
            } else {
                lemma_items_by_start(items, pen, close);
                lemma_pen_token(s, pen, "["@, inner);
                lemma_begins(s, inner, "]"@);
                lemma_items_read(s, Seq::empty(), items, pen, rest);
                assert(Seq::<JsonView>::empty() + items =~= items);
            }
        },
        JsonView::Object(members) => {
            let close = pen.token("}"@, rest);
            let inner = members_by(members, pen, close);
            lemma_token_first(pen, "}"@, rest);
            if members.len() == 0 {
                lemma_pen_token(s, pen, "{"@, close);
                lemma_pen_token(s, pen, "}"@, rest);
                assert(members =~= Seq::empty());
            } else {
                lemma_members_by_start(members, pen, close);
                lemma_pen_token(s, pen, "{"@, inner);
                lemma_begins(s, inner, "}"@);
                lemma_members_read(s, Seq::empty(), members, pen, rest);
                assert(Seq::<(Seq<char>, JsonView)>::empty() + members =~= members);
            }
        },
        _ => {
            lemma_scalar_read(s, value, pen, rest);
        },
    }
}

/// A value without parts is read.
proof fn lemma_scalar_read(s: Seq<char>, value: JsonView, pen: Pen, rest: Seq<char>)
    requires
        pen.ok(),
        proper_json(value),
        !(value is Array) && !(value is Object),
        clean(rest),
        suffix(s, json_by(value, pen, rest)),
    ensures
        suffix(s, rest),
        json(s, pos(s, json_by(value, pen, rest))) == (Step::Done {
            value: Some(value),
            at: pos(s, rest),
        }),
{
    lemma_words();
    lemma_marks();
    lemma_quote_token();
    lemma_json_by_start(value, pen, rest);
    let text = json_by(value, pen, rest);
    lemma_begins(s, text, "{"@);
    lemma_begins(s, text, "["@);
    lemma_begins(s, text, "\""@);
    lemma_begins(s, text, "true"@);
    lemma_begins(s, text, "false"@);
    lemma_begins(s, text, "null"@);
    match value {
        JsonView::Null => {
            lemma_pen_token(s, pen, "null"@, rest);
        },
        JsonView::True => {
            lemma_pen_token(s, pen, "true"@, rest);
        },
        JsonView::False => {
            lemma_pen_token(s, pen, "false"@, rest);
        },
        JsonView::Number(t) => {
            let parts = choose|parts: NumberParts| #[trigger] parts.proper() && parts.text() == t;
            lemma_number_start(parts);
            lemma_pen_number(s, pen, parts, rest);
        },
        JsonView::String(t) => {
            lemma_pen_literal(s, pen, t, rest);
        },
        _ => {},
    }
}

/// The items of an array are read behind those of `before`.
proof fn lemma_items_read(
    s: Seq<char>,
    before: Seq<JsonView>,
    items: Seq<JsonView>,
    pen: Pen,
    rest: Seq<char>,
)
    requires
        pen.ok(),
        items.len() > 0,
        proper_items(items),
        clean(rest),
        suffix(s, items_by(items, pen, pen.token("]"@, rest))),
    ensures
        suffix(s, rest),
        json_items(s, pos(s, items_by(items, pen, pen.token("]"@, rest))), before) == (Step::Done {
            value: JsonView::Array(before + items),
            at: pos(s, rest),
        }),
    decreases items,
{
    lemma_marks();
    let close = pen.token("]"@, rest);
    let text = items_by(items, pen, close);
    lemma_token_first(pen, "]"@, rest);
    if items.len() == 1 {
        law_json_read(s, items[0], pen, close);
        lemma_json(s, pos(s, text));
        lemma_begins(s, close, ","@);
        lemma_pen_token(s, pen, "]"@, rest);
        assert(before.push(items[0]) =~= before + items);
    } else {
        let others = items.drop_first();
        let more = items_by(others, pen, close);
        let comma = pen.token(","@, more);
        lemma_token_first(pen, ","@, more);
        lemma_items_by_start(others, pen, close);
        law_json_read(s, items[0], pen, comma);
        lemma_json(s, pos(s, text));
        lemma_pen_token(s, pen, ","@, more);
        lemma_items_read(s, before.push(items[0]), others, pen, rest);
        assert(before.push(items[0]) + others =~= before + items);
    }
}

/// The members of an object are read behind those of `before`.
proof fn lemma_members_read(
    s: Seq<char>,
    before: Seq<(Seq<char>, JsonView)>,
    members: Seq<(Seq<char>, JsonView)>,
    pen: Pen,
    rest: Seq<char>,
)
    requires
        pen.ok(),
        members.len() > 0,
        proper_members(members),
        clean(rest),
        suffix(s, members_by(members, pen, pen.token("}"@, rest))),
    ensures
        suffix(s, rest),
        json_members(s, pos(s, members_by(members, pen, pen.token("}"@, rest))), before) == (
        Step::Done { value: JsonView::Object(before + members), at: pos(s, rest) }),
    decreases members,
{
    lemma_marks();
    let close = pen.token("}"@, rest);
    let others = members.drop_first();
    let more = members_by(others, pen, close);
    lemma_token_first(pen, "}"@, rest);
    lemma_token_first(pen, ","@, more);
    let behind = if members.len() == 1 {
        close
    } else {
        pen.token(","@, more)
    };
    let value = json_by(members[0].1, pen, behind);
    let colon = pen.token(":"@, value);
    lemma_token_first(pen, ":"@, value);
    lemma_json_by_start(members[0].1, pen, behind);
    lemma_pen_key(s, pen, members[0].0, colon);
    lemma_pen_token(s, pen, ":"@, value);
    law_json_read(s, members[0].1, pen, behind);
    lemma_json(s, pos(s, value));
    let member = (members[0].0, members[0].1);
    if members.len() == 1 {
        lemma_begins(s, close, ","@);
        lemma_pen_token(s, pen, "}"@, rest);
        assert(before.push(member) =~= before + members);
    } else {
        lemma_members_by_start(others, pen, close);
        lemma_pen_token(s, pen, ","@, more);
        lemma_members_read(s, before.push(member), others, pen, rest);
        assert(before.push(member) + others =~= before + members);
    }
}

} // verus!
