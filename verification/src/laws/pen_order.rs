//! A key path and an order are read as what was written, however they were written.

use vstd::prelude::*;
use crate::grammar::Step;
use crate::grammar::clauses::{direction, keypath, lemma_sort_key, path_steps, sort_clause};
use crate::grammar::clauses::{sort_default, sort_key, sort_keys};
use crate::grammar::lexical::{key, lemma_field, lemma_integer, lemma_marks, number};
use crate::json_value::JsonView;
use crate::key_builder::{Path, SegmentView};
use crate::laws::basic::{law_name_read, numeral, opens_name, spelling};
use crate::laws::pen::{Pen, begins, clean, lemma_begins, lemma_clean, lemma_pen_integer};
use crate::laws::pen::{lemma_pen_literal, lemma_pen_name, lemma_pen_token, plain_name, pos, suffix};
use crate::laws::pen_json::{json_by, law_json_read, lemma_json_by_start, lemma_token_first};
use crate::laws::pen_json::proper_json;
use crate::query::{Sort, SortView};

verus! {

/// Whether a path can be written: only its first step can be a key that is no name, and it
/// leads into elements of arrays by their indices alone.
pub open spec fn proper_path(path: Path) -> bool {
    path.len() > 0 ==> path[0] is ObjectKey && forall|i: int|
        0 < i < path.len() ==> proper_step(#[trigger] path[i])
}

/// Whether a step behind the first one can be written.
pub open spec fn proper_step(step: SegmentView) -> bool {
    match step {
        SegmentView::ObjectKey(name) => plain_name(name),
        SegmentView::Array => false,
        SegmentView::ArrayIndex(index) => index <= i64::MAX,
    }
}

/// The steps of a path behind the first one as they are written before `rest`.
pub open spec fn steps_by(steps: Path, pen: Pen, rest: Seq<char>) -> Seq<char>
    decreases steps.len(),
{
    if steps.len() == 0 {
        rest
    } else {
        let behind = steps_by(steps.drop_first(), pen, rest);
        match steps[0] {
            SegmentView::ObjectKey(name) => pen.token("."@, pen.name(name, behind)),
            SegmentView::ArrayIndex(index) => {
                let close = pen.token("]"@, behind);
                pen.token("["@, pen.number((pen.digits)(index as int, close), close))
            },
            SegmentView::Array => rest,
        }
    }
}

/// A path as it is written before `rest`.
pub open spec fn path_by(path: Path, pen: Pen, rest: Seq<char>) -> Seq<char> {
    if path.len() == 0 {
        pen.token("."@, rest)
    } else {
        let name = path[0]->ObjectKey_0;
        let behind = steps_by(path.drop_first(), pen, rest);
        if (pen.plain)(behind) && plain_name(name) {
            pen.token("."@, pen.name(name, behind))
        } else {
            pen.token("."@, pen.token("["@, pen.literal(name, pen.token("]"@, behind))))
        }
    }
}

/// Whether `path` does not go on with `rest`.
pub open spec fn path_stops(path: Path, rest: Seq<char>) -> bool {
    &&& clean(rest)
    &&& rest.len() > 0 ==> {
        &&& rest[0] != '['
        &&& path.len() > 0 ==> rest[0] != '.'
        &&& path.len() == 0 ==> !opens_name(rest[0])
    }
}

/// The steps of a path are written with a mark first.
proof fn lemma_steps_by_start(steps: Path, pen: Pen, rest: Seq<char>)
    requires
        steps.len() > 0,
        proper_step(steps[0]),
    ensures
        steps_by(steps, pen, rest).len() > 0,
        steps_by(steps, pen, rest)[0] == '.' || steps_by(steps, pen, rest)[0] == '[',
{
    lemma_marks();
}

/// The steps of a path are read behind those of `before`.
proof fn lemma_steps_read(s: Seq<char>, before: Path, steps: Path, pen: Pen, rest: Seq<char>)
    requires
        pen.ok(),
        forall|i: int| 0 <= i < steps.len() ==> proper_step(#[trigger] steps[i]),
        clean(rest),
        rest.len() > 0 ==> rest[0] != '[' && rest[0] != '.',
        suffix(s, steps_by(steps, pen, rest)),
    ensures
        suffix(s, rest),
        path_steps(s, pos(s, steps_by(steps, pen, rest)), before) == (Step::Done {
            value: before + steps,
            at: pos(s, rest),
        }),
    decreases steps.len(),
{
    lemma_marks();
    let text = steps_by(steps, pen, rest);
    if steps.len() == 0 {
        lemma_begins(s, rest, "["@);
        lemma_begins(s, rest, "."@);
        lemma_clean(s, rest);
        assert(before + steps =~= before);
    } else {
        assert(proper_step(steps[0]));
        let others = steps.drop_first();
        assert forall|i: int| 0 <= i < others.len() implies proper_step(#[trigger] others[i]) by {
            assert(others[i] == steps[i + 1]);
        }
        let behind = steps_by(others, pen, rest);
        if others.len() > 0 {
            lemma_steps_by_start(others, pen, rest);
        }
        assert(before.push(steps[0]) + others =~= before + steps);
        match steps[0] {
            SegmentView::ObjectKey(name) => {
                let named = pen.name(name, behind);
                assert(named[0] == name[0]);
                lemma_pen_token(s, pen, "."@, named);
                lemma_begins(s, text, "["@);
                lemma_pen_name(s, pen, name, behind);
                lemma_field(s, pos(s, named));
                lemma_steps_read(s, before.push(steps[0]), others, pen, rest);
            },
            SegmentView::ArrayIndex(index) => {
                let close = pen.token("]"@, behind);
                lemma_token_first(pen, "]"@, behind);
                let d = (pen.digits)(index as int, close);
                let numbered = pen.number(d, close);
                assert(numeral(d[0]));
                assert(numbered[0] == d[0]);
                lemma_pen_token(s, pen, "["@, numbered);
                lemma_pen_integer(s, pen, index as int, close);
                lemma_integer(s, pos(s, numbered));
                lemma_pen_token(s, pen, "]"@, behind);
                lemma_steps_read(s, before.push(steps[0]), others, pen, rest);
            },
            SegmentView::Array => {},
        }
    }
}

/// A path is written with a dot first.
pub proof fn lemma_path_by_start(path: Path, pen: Pen, rest: Seq<char>)
    ensures
        path_by(path, pen, rest).len() > 0,
        path_by(path, pen, rest)[0] == '.',
        clean(path_by(path, pen, rest)),
{
    lemma_marks();
}

/// Every path is read as what it is, with any white space between its tokens, and with its
/// first key as a name or in brackets and quotes.
pub proof fn law_path_read(s: Seq<char>, path: Path, pen: Pen, rest: Seq<char>)
    requires
        pen.ok(),
        proper_path(path),
        path_stops(path, rest),
        suffix(s, path_by(path, pen, rest)),
    ensures
        suffix(s, rest),
        keypath(s, pos(s, path_by(path, pen, rest))) == (Step::Done {
            value: Some(path),
            at: pos(s, rest),
        }),
{
    lemma_marks();
    if path.len() == 0 {
        lemma_pen_token(s, pen, "."@, rest);
        lemma_begins(s, rest, "["@);
        lemma_clean(s, rest);
        law_name_read(s, pos(s, rest));
        assert(path =~= Path::empty());
    } else {
        let name = path[0]->ObjectKey_0;
        let others = path.drop_first();
        let behind = steps_by(others, pen, rest);
        assert forall|i: int| 0 <= i < others.len() implies proper_step(#[trigger] others[i]) by {
            assert(others[i] == path[i + 1]);
        }
        if others.len() > 0 {
            lemma_steps_by_start(others, pen, rest);
        }
        let first = seq![SegmentView::ObjectKey(name)];
        assert(first + others =~= path);
        if (pen.plain)(behind) && plain_name(name) {
            let named = pen.name(name, behind);
            assert(named[0] == name[0]);
            lemma_pen_token(s, pen, "."@, named);
            lemma_begins(s, named, "["@);
            lemma_pen_name(s, pen, name, behind);
            lemma_steps_read(s, first, others, pen, rest);
        } else {
            let close = pen.token("]"@, behind);
            lemma_token_first(pen, "]"@, behind);
            let quoted = pen.literal(name, close);
            assert(quoted[0] == '"') by {
                let t = seq!['"'] + spelling(name, (pen.escapes)(close)) + seq!['"'];
                assert(t[0] == '"');
            }
            let open = pen.token("["@, quoted);
            lemma_token_first(pen, "["@, quoted);
            lemma_pen_token(s, pen, "."@, open);
            lemma_pen_token(s, pen, "["@, quoted);
            lemma_pen_literal(s, pen, name, close);
            lemma_pen_token(s, pen, "]"@, behind);
            lemma_steps_read(s, first, others, pen, rest);
        }
    }
}

/// The word for a direction.
pub open spec fn way(sort: Sort) -> Seq<char> {
    match sort {
        Sort::Asc => "asc"@,
        Sort::Desc => "desc"@,
    }
}

/// Whether a key of the order can be written. A word behind a dot alone would be read as a
/// name, so neither a default nor a direction stands there.
pub open spec fn proper_key(key: SortView) -> bool {
    &&& proper_path(key.path)
    &&& proper_json(key.default)
    &&& key.path.len() == 0 ==> key.sort == Sort::Asc && key.default == JsonView::Null
}

/// The word for the direction of a key behind its default, as it is written before `rest`.
pub open spec fn late_by(key: SortView, pen: Pen, rest: Seq<char>) -> Seq<char> {
    let (early, late) = (pen.directions)(rest);
    let known = match early {
        Some(sort) => sort,
        None => Sort::Asc,
    };
    if late || known != key.sort {
        pen.token(way(key.sort), rest)
    } else {
        rest
    }
}

/// What stands in for a missing value, as it is written before `rest`. For null it may be
/// left out.
pub open spec fn default_by(value: JsonView, pen: Pen, rest: Seq<char>) -> Seq<char> {
    if value != JsonView::Null || (pen.full)(rest) {
        pen.token("default"@, pen.token("="@, json_by(value, pen, rest)))
    } else {
        rest
    }
}

/// What is written behind the path of a key, before `rest`. The word for its direction
/// stands before its default, behind it, or on both sides, where the one behind it counts;
/// without one the key is ascending.
pub open spec fn options_by(key: SortView, pen: Pen, rest: Seq<char>) -> Seq<char> {
    let behind = default_by(key.default, pen, late_by(key, pen, rest));
    match (pen.directions)(rest).0 {
        Some(sort) => pen.token(way(sort), behind),
        None => behind,
    }
}

/// A key of the order as it is written before `rest`.
pub open spec fn key_by(key: SortView, pen: Pen, rest: Seq<char>) -> Seq<char> {
    path_by(
        key.path,
        pen,
        if key.path.len() == 0 {
            rest
        } else {
            options_by(key, pen, rest)
        },
    )
}

/// Whether a key of the order with the path `path` does not go on with `rest`.
pub open spec fn key_stops(path: Path, rest: Seq<char>) -> bool {
    &&& path_stops(path, rest)
    &&& !begins(rest, "asc"@)
    &&& !begins(rest, "desc"@)
    &&& !begins(rest, "default"@)
}

/// The words of an order, by their characters.
pub proof fn lemma_order_words()
    ensures
        "asc"@ == seq!['a', 's', 'c'],
        "desc"@ == seq!['d', 'e', 's', 'c'],
        "default"@ == seq!['d', 'e', 'f', 'a', 'u', 'l', 't'],
        "sort"@ == seq!['s', 'o', 'r', 't'],
{
    reveal_strlit("asc");
    reveal_strlit("desc");
    reveal_strlit("default");
    reveal_strlit("sort");
    assert("asc"@ =~= seq!['a', 's', 'c']);
    assert("desc"@ =~= seq!['d', 'e', 's', 'c']);
    assert("default"@ =~= seq!['d', 'e', 'f', 'a', 'u', 'l', 't']);
    assert("sort"@ =~= seq!['s', 'o', 'r', 't']);
}

/// A text that starts with one token does not start with another one that differs in its
/// first or its third character.
pub proof fn lemma_not_begins(pen: Pen, t: Seq<char>, rest: Seq<char>, other: Seq<char>)
    requires
        t.len() > 0,
        other.len() > 0,
        t[0] != other[0] || (t.len() > 2 && other.len() > 2 && t[2] != other[2]),
    ensures
        !begins(pen.token(t, rest), other),
{
    let text = pen.token(t, rest);
    assert(text[0] == t[0]);
    if begins(text, other) {
        assert(text.take(other.len() as int)[0] == other[0]);
        if t.len() > 2 && other.len() > 2 {
            assert(text[2] == t[2]);
            assert(text.take(other.len() as int)[2] == other[2]);
        }
    }
}

/// The word for a direction is read.
pub proof fn lemma_way_read(s: Seq<char>, sort: Sort, pen: Pen, rest: Seq<char>)
    requires
        pen.ok(),
        clean(rest),
        suffix(s, pen.token(way(sort), rest)),
    ensures
        suffix(s, rest),
        direction(s, pos(s, pen.token(way(sort), rest))) == (Some(sort), pos(s, rest)),
{
    lemma_order_words();
    let text = pen.token(way(sort), rest);
    lemma_pen_token(s, pen, way(sort), rest);
    lemma_begins(s, text, "asc"@);
    lemma_begins(s, text, "desc"@);
}

/// No direction is read where none is written.
proof fn lemma_no_way(s: Seq<char>, rest: Seq<char>)
    requires
        suffix(s, rest),
        !begins(rest, "asc"@),
        !begins(rest, "desc"@),
    ensures
        direction(s, pos(s, rest)) == (None::<Sort>, pos(s, rest)),
{
    lemma_begins(s, rest, "asc"@);
    lemma_begins(s, rest, "desc"@);
}

/// A default is read, and null where none is written.
proof fn lemma_sort_default_read(s: Seq<char>, value: JsonView, pen: Pen, rest: Seq<char>)
    requires
        pen.ok(),
        proper_json(value),
        clean(rest),
        !begins(rest, "default"@),
        suffix(s, default_by(value, pen, rest)),
    ensures
        suffix(s, rest),
        sort_default(s, pos(s, default_by(value, pen, rest))) == (Step::Done {
            value,
            at: pos(s, rest),
        }),
{
    lemma_order_words();
    lemma_begins(s, default_by(value, pen, rest), "default"@);
    if value != JsonView::Null || (pen.full)(rest) {
        let written = json_by(value, pen, rest);
        lemma_json_by_start(value, pen, rest);
        reveal_strlit("=");
        let equals = pen.token("="@, written);
        lemma_token_first(pen, "="@, written);
        lemma_pen_token(s, pen, "default"@, equals);
        lemma_pen_token(s, pen, "="@, written);
        law_json_read(s, value, pen, rest);
    }
}

/// How the words behind a path are written.
proof fn lemma_options_by_start(key: SortView, pen: Pen, rest: Seq<char>)
    requires
        key_stops(key.path, rest),
        key.path.len() > 0,
    ensures
        path_stops(key.path, late_by(key, pen, rest)),
        path_stops(key.path, default_by(key.default, pen, late_by(key, pen, rest))),
        path_stops(key.path, options_by(key, pen, rest)),
        !begins(late_by(key, pen, rest), "default"@),
        ({
            let written = default_by(key.default, pen, late_by(key, pen, rest));
            key.default != JsonView::Null || (pen.full)(late_by(key, pen, rest)) ==> !begins(
                written,
                "asc"@,
            ) && !begins(written, "desc"@)
        }),
{
    lemma_order_words();
    let late = late_by(key, pen, rest);
    let written = default_by(key.default, pen, late);
    lemma_not_begins(pen, way(key.sort), rest, "default"@);
    let equals = pen.token("="@, json_by(key.default, pen, late));
    lemma_not_begins(pen, "default"@, equals, "asc"@);
    lemma_not_begins(pen, "default"@, equals, "desc"@);
}

/// The words behind the path of a key are read.
proof fn lemma_options_read(s: Seq<char>, key: SortView, pen: Pen, rest: Seq<char>)
    requires
        pen.ok(),
        proper_key(key),
        key.path.len() > 0,
        key_stops(key.path, rest),
        suffix(s, options_by(key, pen, rest)),
    ensures
        suffix(s, rest),
        ({
            let (early, start) = direction(s, pos(s, options_by(key, pen, rest)));
            &&& sort_default(s, start) matches Step::Done { value, at }
            &&& value == key.default
            &&& direction(s, at).1 == pos(s, rest)
            &&& match (early, direction(s, at).0) {
                (_, Some(sort)) => sort == key.sort,
                (Some(sort), None) => sort == key.sort,
                (None, None) => key.sort == Sort::Asc,
            }
        }),
{
    lemma_order_words();
    lemma_options_by_start(key, pen, rest);
    let late = late_by(key, pen, rest);
    let written = default_by(key.default, pen, late);
    let (early, flag) = (pen.directions)(rest);
    let known = match early {
        Some(sort) => sort,
        None => Sort::Asc,
    };
    let spoken = flag || known != key.sort;
    if early is Some {
        lemma_way_read(s, early.unwrap(), pen, written);
        lemma_sort_default_read(s, key.default, pen, late);
        if spoken {
            lemma_way_read(s, key.sort, pen, rest);
        } else {
            lemma_no_way(s, rest);
        }
    } else if key.default != JsonView::Null || (pen.full)(late) {
        lemma_no_way(s, written);
        lemma_sort_default_read(s, key.default, pen, late);
        if spoken {
            lemma_way_read(s, key.sort, pen, rest);
        } else {
            lemma_no_way(s, rest);
        }
    } else {
        if spoken {
            lemma_way_read(s, key.sort, pen, rest);
        }
        lemma_no_way(s, rest);
        lemma_begins(s, rest, "default"@);
    }
}

/// Every key of an order is read as what it is: its path, its direction, and what stands in
/// for a missing value.
pub proof fn law_sort_key_read(s: Seq<char>, key: SortView, pen: Pen, rest: Seq<char>)
    requires
        pen.ok(),
        proper_key(key),
        key_stops(key.path, rest),
        suffix(s, key_by(key, pen, rest)),
    ensures
        suffix(s, rest),
        sort_key(s, pos(s, key_by(key, pen, rest))) == (Step::Done {
            value: key,
            at: pos(s, rest),
        }),
{
    if key.path.len() == 0 {
        law_path_read(s, key.path, pen, rest);
        lemma_no_way(s, rest);
        lemma_begins(s, rest, "default"@);
    } else {
        lemma_options_by_start(key, pen, rest);
        law_path_read(s, key.path, pen, options_by(key, pen, rest));
        lemma_options_read(s, key, pen, rest);
    }
}

/// A path with the word for a direction behind it, and nothing else, is a key of the order
/// in that direction, with null for a missing value.
pub proof fn law_word_alone(
    s: Seq<char>,
    path: Path,
    sort: Sort,
    pen: Pen,
    rest: Seq<char>,
)
    requires
        pen.ok(),
        proper_path(path),
        path.len() > 0,
        key_stops(path, rest),
        suffix(s, path_by(path, pen, pen.token(way(sort), rest))),
    ensures
        suffix(s, rest),
        sort_key(s, pos(s, path_by(path, pen, pen.token(way(sort), rest)))) == (Step::Done {
            value: SortView { path, sort, default: JsonView::Null },
            at: pos(s, rest),
        }),
{
    lemma_order_words();
    let written = pen.token(way(sort), rest);
    lemma_token_first(pen, way(sort), rest);
    law_path_read(s, path, pen, written);
    lemma_way_read(s, sort, pen, rest);
    lemma_begins(s, rest, "default"@);
    lemma_no_way(s, rest);
}

/// Keys of the order as they are written before `rest`, with commas between them.
pub open spec fn keys_by(keys: Seq<SortView>, pen: Pen, rest: Seq<char>) -> Seq<char>
    decreases keys.len(),
{
    if keys.len() == 0 {
        rest
    } else if keys.len() == 1 {
        key_by(keys[0], pen, rest)
    } else {
        key_by(keys[0], pen, pen.token(","@, keys_by(keys.drop_first(), pen, rest)))
    }
}

/// The keys of an order are read behind those of `before`.
proof fn lemma_keys_read(
    s: Seq<char>,
    before: Seq<SortView>,
    keys: Seq<SortView>,
    pen: Pen,
    rest: Seq<char>,
)
    requires
        pen.ok(),
        keys.len() > 0,
        forall|i: int| 0 <= i < keys.len() ==> proper_key(#[trigger] keys[i]),
        key_stops(keys.last().path, rest),
        !begins(rest, ","@),
        suffix(s, keys_by(keys, pen, rest)),
    ensures
        suffix(s, rest),
        sort_keys(s, pos(s, keys_by(keys, pen, rest)), before) == (Step::Done {
            value: before + keys,
            at: pos(s, rest),
        }),
    decreases keys.len(),
{
    lemma_marks();
    lemma_order_words();
    let text = keys_by(keys, pen, rest);
    lemma_begins(s, text, ","@);
    lemma_sort_key(s, pos(s, text));
    assert(proper_key(keys[0]));
    if keys.len() == 1 {
        law_sort_key_read(s, keys[0], pen, rest);
        lemma_begins(s, rest, ","@);
        assert(before.push(keys[0]) =~= before + keys);
    } else {
        let others = keys.drop_first();
        assert forall|i: int| 0 <= i < others.len() implies proper_key(#[trigger] others[i]) by {
            assert(others[i] == keys[i + 1]);
        }
        assert(others.last() == keys.last());
        let more = keys_by(others, pen, rest);
        let comma = pen.token(","@, more);
        lemma_token_first(pen, ","@, more);
        lemma_not_begins(pen, ","@, more, "asc"@);
        lemma_not_begins(pen, ","@, more, "desc"@);
        lemma_not_begins(pen, ","@, more, "default"@);
        lemma_keys_by_start(others, pen, rest);
        law_sort_key_read(s, keys[0], pen, comma);
        lemma_pen_token(s, pen, ","@, more);
        lemma_keys_read(s, before.push(keys[0]), others, pen, rest);
        assert(before.push(keys[0]) + others =~= before + keys);
    }
}

/// Keys of the order are written with a dot first.
proof fn lemma_keys_by_start(keys: Seq<SortView>, pen: Pen, rest: Seq<char>)
    requires
        keys.len() > 0,
    ensures
        clean(keys_by(keys, pen, rest)),
{
    let behind = if keys.len() == 1 {
        rest
    } else {
        pen.token(","@, keys_by(keys.drop_first(), pen, rest))
    };
    let options = if keys[0].path.len() == 0 {
        behind
    } else {
        options_by(keys[0], pen, behind)
    };
    lemma_path_by_start(keys[0].path, pen, options);
}

/// Every order is read as what it is, and without the word `sort` there is none.
pub proof fn law_order_read(s: Seq<char>, keys: Seq<SortView>, pen: Pen, rest: Seq<char>)
    requires
        pen.ok(),
        keys.len() > 0,
        forall|i: int| 0 <= i < keys.len() ==> proper_key(#[trigger] keys[i]),
        key_stops(keys.last().path, rest),
        !begins(rest, ","@),
        suffix(s, pen.token("sort"@, keys_by(keys, pen, rest))),
    ensures
        suffix(s, rest),
        sort_clause(s, pos(s, pen.token("sort"@, keys_by(keys, pen, rest)))) == (Step::Done {
            value: keys,
            at: pos(s, rest),
        }),
        !begins(rest, "sort"@) ==> sort_clause(s, pos(s, rest)) == (Step::Done {
            value: Seq::<SortView>::empty(),
            at: pos(s, rest),
        }),
{
    lemma_keys_by_start(keys, pen, rest);
    lemma_pen_token(s, pen, "sort"@, keys_by(keys, pen, rest));
    lemma_keys_read(s, Seq::empty(), keys, pen, rest);
    lemma_begins(s, rest, "sort"@);
    assert(Seq::<SortView>::empty() + keys =~= keys);
}

} // verus!
