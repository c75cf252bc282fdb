//! An order of the results that is written down is read back.

use vstd::prelude::*;
use crate::grammar::Step;
use crate::grammar::clauses::{direction, keypath, lemma_direction, lemma_keypath, lemma_sort_key};
use crate::grammar::clauses::{sort_clause, sort_default, sort_key, sort_keys};
use crate::grammar::json::default_value;
use crate::grammar::lexical::{after_token, lemma_after_token, lemma_marks, lemma_skip_ws};
use crate::grammar::lexical::name_start;
use crate::json_value::JsonView;
use crate::laws::clauses::{law_keypath_round_trip, law_keypath_writable, path_ends, path_text};
use crate::laws::clauses::writable_path;
use crate::laws::json::writable;
use crate::laws::lexical::{Style, lemma_no_white_space, lemma_other_token, lemma_starts_at_char};
use crate::laws::lexical::lemma_starts_at_parts;
use crate::laws::results::{default_text, given_default_text, json_ends, lemma_default_round_trip};
use crate::laws::results::{lemma_finish_writable, lemma_given_default_round_trip, lemma_no_word};
use crate::laws::results::{lemma_option_words, lemma_path_before_word, lemma_path_text_start};
use crate::query::{Sort, SortView};
use crate::text::{skip_ws, starts_at, white_space};

verus! {

/// Whether a key of the order can be written. A word behind a dot alone would be read as a
/// name, so neither a default nor a direction stands there.
pub open spec fn writable_key(key: SortView) -> bool {
    &&& writable_path(key.path)
    &&& writable(key.default)
    &&& key.path.len() == 0 ==> key.default == JsonView::Null && key.sort == Sort::Asc
}

/// A direction as it is written, which is left out if it is ascending.
pub open spec fn direction_text(sort: Sort) -> Seq<char> {
    match sort {
        Sort::Asc => Seq::empty(),
        Sort::Desc => " desc"@,
    }
}

/// A key of the order as it is written.
pub open spec fn key_text(key: SortView, style: Style) -> Seq<char> {
    path_text(key.path, style) + (default_text(key.default, style) + direction_text(key.sort))
}

/// Keys of the order as they are written, with commas between them.
pub open spec fn keys_text(keys: Seq<SortView>, style: Style) -> Seq<char>
    decreases keys.len(),
{
    if keys.len() == 0 {
        Seq::empty()
    } else if keys.len() == 1 {
        key_text(keys[0], style)
    } else {
        key_text(keys[0], style) + (","@ + keys_text(keys.drop_first(), style))
    }
}

/// Whether the key `key`, which is written up to `end`, does not go on there.
pub open spec fn key_ends(s: Seq<char>, end: int, key: SortView, style: Style) -> bool {
    let next = skip_ws(s, end);
    &&& key.default == JsonView::Null && key.sort == Sort::Asc ==> path_ends(
        s,
        end,
        key.path,
        style,
    )
    &&& key.default == JsonView::Null ==> !starts_at(s, next, "default"@)
    &&& key.default != JsonView::Null && key.sort == Sort::Asc ==> json_ends(s, end, key.default)
    &&& key.default == JsonView::Null || key.sort == Sort::Asc ==> direction(s, next).0 is None
}

/// A descending direction is read behind white space.
proof fn lemma_desc_read(s: Seq<char>, at: int)
    requires
        starts_at(s, at, " desc"@),
    ensures
        0 <= at,
        at + 5 <= s.len(),
        s[at] == ' ',
        s[at + 1] == 'd',
        skip_ws(s, at) == at + 1,
        direction(s, at + 1) == (Some(Sort::Desc), skip_ws(s, at + 5)),
        !starts_at(s, at + 1, "default"@),
        " desc"@.len() == 5,
{
    lemma_option_words();
    reveal_strlit(" desc");
    assert(" desc"@ =~= seq![' '] + "desc"@);
    lemma_starts_at_parts(s, at, seq![' '], "desc"@);
    lemma_starts_at_char(s, at, seq![' '], 0);
    lemma_starts_at_char(s, at + 1, "desc"@, 0);
    lemma_starts_at_char(s, at + 1, "desc"@, 2);
    lemma_no_white_space(s, at + 1);
    assert(skip_ws(s, at) == at + 1) by {
        assert(white_space(s[at]));
    }
    lemma_other_token(s, at + 1, "asc"@);
    if starts_at(s, at + 1, "default"@) {
        lemma_starts_at_char(s, at + 1, "default"@, 2);
    }
}

/// No direction is read where another word starts.
proof fn lemma_no_direction(s: Seq<char>, at: int)
    requires
        starts_at(s, at, "default"@),
    ensures
        direction(s, at) == (None::<Sort>, at),
{
    lemma_option_words();
    lemma_starts_at_char(s, at, "default"@, 0);
    lemma_starts_at_char(s, at, "default"@, 2);
    lemma_other_token(s, at, "asc"@);
    if starts_at(s, at, "desc"@) {
        lemma_starts_at_char(s, at, "desc"@, 2);
    }
}

/// What is read behind the path of a key.
spec fn key_tail(s: Seq<char>, at: int, sort: Sort, default: JsonView, end: int) -> bool {
    let (early, start) = direction(s, at);
    &&& sort_default(s, start) matches Step::Done { value, at: behind }
    &&& value == default
    &&& direction(s, behind).1 == end
    &&& match direction(s, behind).0 {
        Some(late) => late == sort,
        None => match early {
            Some(early) => early == sort,
            None => sort == Sort::Asc,
        },
    }
}

/// A default is read for an order as it is elsewhere.
proof fn lemma_sort_default(s: Seq<char>, at: int)
    ensures
        default_value(s, at) matches Step::Done { value, at: end } ==> sort_default(s, at) == (
        Step::Done { value: if let Some(json) = value { json } else { JsonView::Null }, at: end }),
        sort_default(s, at) matches Step::Done { value, at: end } ==> default_value(s, at) is Done,
{
}

/// The default and the direction of a key are read back.
proof fn lemma_key_tail_round_trip(s: Seq<char>, at: int, key: SortView, style: Style)
    requires
        0 <= at <= s.len(),
        writable_key(key),
        starts_at(s, at, default_text(key.default, style) + direction_text(key.sort)),
        key_ends(
            s,
            (at + default_text(key.default, style).len() + direction_text(key.sort).len()) as int,
            key,
            style,
        ),
    ensures
        path_ends(s, at, key.path, style),
        key_tail(
            s,
            skip_ws(s, at),
            key.sort,
            key.default,
            skip_ws(
                s,
                at + default_text(key.default, style).len() + direction_text(key.sort).len(),
            ),
        ),
{
    let default = key.default;
    let behind = at + default_text(default, style).len();
    lemma_starts_at_parts(s, at, default_text(default, style), direction_text(key.sort));
    if key.sort == Sort::Desc {
        lemma_desc_read(s, behind);
    }
    if default == JsonView::Null {
        lemma_sort_default(s, skip_ws(s, behind + direction_text(key.sort).len()));
        if key.sort == Sort::Desc {
            lemma_path_before_word(s, at, key.path, style);
        }
    } else {
        if key.sort == Sort::Desc {
            assert(json_ends(s, behind as int, default));
        }
        lemma_default_round_trip(s, at, default, style);
        lemma_sort_default(s, skip_ws(s, at));
        lemma_path_before_word(s, at, key.path, style);
        assert(starts_at(s, skip_ws(s, at), "default"@));
        lemma_no_direction(s, skip_ws(s, at));
    }
}

/// A key of the order is read back where it ends.
proof fn lemma_key_round_trip(s: Seq<char>, at: int, key: SortView, style: Style)
    requires
        writable_key(key),
        starts_at(s, at, key_text(key, style)),
        key_ends(s, (at + key_text(key, style).len()) as int, key, style),
    ensures
        sort_key(s, at) == (Step::Done {
            value: key,
            at: skip_ws(s, at + key_text(key, style).len()),
        }),
{
    let end = at + path_text(key.path, style).len();
    lemma_starts_at_parts(
        s,
        at,
        path_text(key.path, style),
        default_text(key.default, style) + direction_text(key.sort),
    );
    lemma_key_tail_round_trip(s, end, key, style);
    law_keypath_round_trip(s, at, key.path, style);
}

/// Reads a key of the order.
#[verifier::opaque]
spec fn key_at(s: Seq<char>, at: int) -> Step<SortView> {
    sort_key(s, at)
}

/// Reads keys of the order behind those of `before`.
#[verifier::opaque]
spec fn keys_at(s: Seq<char>, at: int, before: Seq<SortView>) -> Step<Seq<SortView>> {
    sort_keys(s, at, before)
}

/// A key of the order is read back before a comma.
proof fn lemma_key_before_comma(s: Seq<char>, at: int, key: SortView, style: Style)
    requires
        writable_key(key),
        starts_at(s, at, key_text(key, style)),
        at + key_text(key, style).len() < s.len(),
        s[at + key_text(key, style).len()] == ',',
    ensures
        key_at(s, at) == (Step::Done { value: key, at: at + key_text(key, style).len() }),
{
    reveal(key_at);
    lemma_marks();
    lemma_option_words();
    let end = at + key_text(key, style).len();
    lemma_no_white_space(s, end);
    lemma_other_token(s, end, "default"@);
    lemma_other_token(s, end, "asc"@);
    lemma_other_token(s, end, "desc"@);
    lemma_other_token(s, end, "["@);
    lemma_other_token(s, end, "."@);
    lemma_key_round_trip(s, at, key, style);
}

/// What becomes of a key that is read.
proof fn lemma_key_read(s: Seq<char>, at: int, before: Seq<SortView>, key: SortView, end: int)
    requires
        0 <= at <= end <= s.len(),
        key_at(s, at) == (Step::Done { value: key, at: end }),
    ensures
        keys_at(s, at, before) == match after_token(s, end, ","@) {
            Some(next) => keys_at(s, next, before.push(key)),
            None => Step::Done { value: before.push(key), at: end },
        },
{
    assert(sort_key(s, at) == (Step::Done { value: key, at: end })) by {
        reveal(key_at);
    }
    reveal(keys_at);
}

/// Keys of the order are read back behind those of `before`.
proof fn lemma_keys_round_trip(
    s: Seq<char>,
    at: int,
    before: Seq<SortView>,
    keys: Seq<SortView>,
    style: Style,
)
    requires
        keys.len() > 0,
        forall|i: int| 0 <= i < keys.len() ==> writable_key(#[trigger] keys[i]),
        starts_at(s, at, keys_text(keys, style)),
        key_ends(s, (at + keys_text(keys, style).len()) as int, keys.last(), style),
        !starts_at(s, skip_ws(s, at + keys_text(keys, style).len()), ","@),
    ensures
        keys_at(s, at, before) == (Step::Done {
            value: before + keys,
            at: skip_ws(s, at + keys_text(keys, style).len()),
        }),
    decreases keys.len(),
{
    let key = keys[0];
    let end = at + key_text(key, style).len();
    assert(writable_key(keys[0]));
    if keys.len() == 1 {
        lemma_key_round_trip(s, at, key, style);
        assert(key_at(s, at) == (Step::Done { value: key, at: skip_ws(s, end) })) by {
            reveal(key_at);
        }
        lemma_skip_ws(s, end);
        lemma_key_read(s, at, before, key, skip_ws(s, end));
        assert(before.push(key) =~= before + keys);
    } else {
        lemma_marks();
        let rest = keys.drop_first();
        let tail = keys_text(rest, style);
        lemma_starts_at_parts(s, at, key_text(key, style), ","@ + tail);
        lemma_starts_at_parts(s, end, ","@, tail);
        lemma_starts_at_char(s, end, ","@, 0);
        lemma_key_before_comma(s, at, key, style);
        lemma_key_read(s, at, before, key, end);
        lemma_key_text_start(rest[0], style);
        lemma_starts_at_char(s, end + 1, tail, 0);
        lemma_no_white_space(s, end + 1);
        assert forall|i: int| 0 <= i < rest.len() implies writable_key(#[trigger] rest[i]) by {
            assert(writable_key(keys[i + 1]));
        }
        assert(rest.last() == keys.last());
        lemma_keys_round_trip(s, end + 1, before.push(key), rest, style);
        assert(before.push(key) + rest =~= before + keys);
    }
}

/// A key of the order is written with a dot first.
proof fn lemma_key_text_start(key: SortView, style: Style)
    ensures
        key_text(key, style).len() > 0,
        key_text(key, style)[0] == '.',
{
    lemma_path_text_start(key.path, style);
}

/// An order is read back where it ends.
pub proof fn law_sort_round_trip(s: Seq<char>, at: int, keys: Seq<SortView>, style: Style)
    requires
        keys.len() > 0,
        forall|i: int| 0 <= i < keys.len() ==> writable_key(#[trigger] keys[i]),
        after_token(s, at, "sort"@) matches Some(start) && {
            let end = start + keys_text(keys, style).len();
            &&& starts_at(s, start, keys_text(keys, style))
            &&& key_ends(s, end as int, keys.last(), style)
            &&& !starts_at(s, skip_ws(s, end as int), ","@)
        },
    ensures
        sort_clause(s, at) == (Step::Done {
            value: keys,
            at: skip_ws(s, after_token(s, at, "sort"@).unwrap() + keys_text(keys, style).len()),
        }),
{
    reveal(keys_at);
    lemma_keys_round_trip(s, after_token(s, at, "sort"@).unwrap(), Seq::empty(), keys, style);
    assert(Seq::<SortView>::empty() + keys =~= keys);
}

/// A key of the order that is read can be written.
proof fn lemma_key_writable(s: Seq<char>, at: int)
    requires
        0 <= at <= s.len(),
    ensures
        sort_key(s, at) matches Step::Done { value, at: end } ==> writable_key(value),
{
    lemma_keypath(s, at);
    law_keypath_writable(s, at);
    lemma_option_words();
    if let Step::Done { value: Some(path), at: end } = keypath(s, at) {
        if path.len() == 0 {
            lemma_no_word(s, end, "asc"@);
            lemma_no_word(s, end, "desc"@);
            lemma_no_word(s, end, "default"@);
        }
        lemma_direction(s, end);
        let start = direction(s, end).1;
        lemma_finish_writable(s, start);
        lemma_sort_default(s, start);
    }
}

/// The keys that are read behind those of `before` can be written.
proof fn lemma_keys_writable(s: Seq<char>, at: int, before: Seq<SortView>)
    requires
        0 <= at <= s.len(),
        forall|i: int| 0 <= i < before.len() ==> writable_key(#[trigger] before[i]),
    ensures
        sort_keys(s, at, before) matches Step::Done { value, at: end } ==> forall|i: int|
            0 <= i < value.len() ==> writable_key(#[trigger] value[i]),
    decreases s.len() - at,
{
    lemma_marks();
    lemma_sort_key(s, at);
    lemma_key_writable(s, at);
    if let Step::Done { value, at: end } = sort_key(s, at) {
        lemma_after_token(s, end, ","@);
        if let Some(next) = after_token(s, end, ","@) {
            lemma_keys_writable(s, next, before.push(value));
        }
    }
}

/// An order that is read can be written: its paths and defaults can, and a dot alone stands
/// without a default and ascending.
pub proof fn law_sort_writable(s: Seq<char>, at: int)
    requires
        0 <= at <= s.len(),
    ensures
        sort_clause(s, at) matches Step::Done { value, at: end } ==> forall|i: int|
            0 <= i < value.len() ==> writable_key(#[trigger] value[i]),
{
    lemma_after_token(s, at, "sort"@);
    if let Some(start) = after_token(s, at, "sort"@) {
        lemma_keys_writable(s, start, Seq::empty());
    }
}

/// The word of a direction.
pub open spec fn direction_word(sort: Sort) -> Seq<char> {
    match sort {
        Sort::Asc => "asc"@,
        Sort::Desc => "desc"@,
    }
}

/// A key of the order with the word for its direction before its default.
pub open spec fn direction_first_text(key: SortView, style: Style) -> Seq<char> {
    path_text(key.path, style) + (" "@ + direction_word(key.sort) + given_default_text(
        key.default,
        style,
    ))
}

/// A key of the order with the word for its direction behind its default.
pub open spec fn direction_last_text(key: SortView, style: Style) -> Seq<char> {
    path_text(key.path, style) + (given_default_text(key.default, style) + (" "@ + direction_word(
        key.sort,
    )))
}

/// The word of a direction is read behind a blank.
proof fn lemma_direction_read(s: Seq<char>, at: int, sort: Sort)
    requires
        starts_at(s, at, " "@ + direction_word(sort)),
    ensures
        0 <= at,
        at + 1 + direction_word(sort).len() <= s.len(),
        direction_word(sort).len() > 0,
        " "@.len() == 1,
        s[at] == ' ',
        name_start(s[at + 1]),
        skip_ws(s, at) == at + 1,
        direction(s, at + 1) == (Some(sort), skip_ws(s, at + 1 + direction_word(sort).len())),
{
    lemma_option_words();
    reveal_strlit(" ");
    assert(" "@ =~= seq![' ']);
    let word = direction_word(sort);
    lemma_starts_at_parts(s, at, " "@, word);
    lemma_starts_at_char(s, at, " "@, 0);
    lemma_starts_at_char(s, at + 1, word, 0);
    lemma_no_white_space(s, at + 1);
    assert(skip_ws(s, at) == at + 1) by {
        assert(white_space(s[at]));
    }
    if sort == Sort::Desc {
        lemma_other_token(s, at + 1, "asc"@);
    }
}

/// A key is read from its path and what stands behind it.
proof fn lemma_key_from_parts(s: Seq<char>, at: int, key: SortView, next: int, end: int)
    requires
        keypath(s, at) == (Step::Done { value: Some(key.path), at: next }),
        key_tail(s, next, key.sort, key.default, end),
    ensures
        key_at(s, at) == (Step::Done { value: key, at: end }),
{
    reveal(key_at);
}

/// A direction and a default behind it are read back.
proof fn lemma_direction_first_tail(s: Seq<char>, at: int, key: SortView, style: Style)
    requires
        writable(key.default),
        starts_at(
            s,
            at,
            " "@ + direction_word(key.sort) + given_default_text(key.default, style),
        ),
        ({
            let end = at + 1 + direction_word(key.sort).len() + given_default_text(
                key.default,
                style,
            ).len();
            json_ends(s, end as int, key.default) && direction(s, skip_ws(s, end as int)).0 is None
        }),
    ensures
        0 <= at,
        at + 1 < s.len(),
        s[at] == ' ',
        name_start(s[at + 1]),
        " "@.len() == 1,
        key_tail(
            s,
            skip_ws(s, at),
            key.sort,
            key.default,
            skip_ws(
                s,
                at + 1 + direction_word(key.sort).len() + given_default_text(
                    key.default,
                    style,
                ).len(),
            ),
        ),
{
    let word = " "@ + direction_word(key.sort);
    let given = given_default_text(key.default, style);
    let behind = at + word.len();
    lemma_starts_at_parts(s, at, word, given);
    lemma_direction_read(s, at, key.sort);
    lemma_given_default_round_trip(s, behind, key.default, style);
    lemma_sort_default(s, skip_ws(s, behind));
}

/// A key with the word for its direction before its default is read back.
proof fn lemma_direction_first(s: Seq<char>, at: int, key: SortView, style: Style)
    requires
        writable_path(key.path),
        key.path.len() > 0,
        writable(key.default),
        starts_at(s, at, direction_first_text(key, style)),
        ({
            let end = at + direction_first_text(key, style).len();
            json_ends(s, end as int, key.default) && direction(s, skip_ws(s, end as int)).0 is None
        }),
    ensures
        key_at(s, at) == (Step::Done {
            value: key,
            at: skip_ws(s, at + direction_first_text(key, style).len()),
        }),
{
    let path = path_text(key.path, style);
    let tail = " "@ + direction_word(key.sort) + given_default_text(key.default, style);
    let end = at + path.len();
    lemma_starts_at_parts(s, at, path, tail);
    assert(" "@.len() == 1) by {
        reveal_strlit(" ");
    }
    lemma_direction_first_tail(s, end, key, style);
    lemma_path_before_word(s, end, key.path, style);
    law_keypath_round_trip(s, at, key.path, style);
    lemma_key_from_parts(s, at, key, skip_ws(s, end), skip_ws(s, end + tail.len()));
}

/// A key with the word for its direction behind its default is read back.
proof fn lemma_direction_last(s: Seq<char>, at: int, key: SortView, style: Style)
    requires
        writable_path(key.path),
        key.path.len() > 0,
        writable(key.default),
        starts_at(s, at, direction_last_text(key, style)),
    ensures
        key_at(s, at) == (Step::Done {
            value: key,
            at: skip_ws(s, at + direction_last_text(key, style).len()),
        }),
{
    let path = path_text(key.path, style);
    let word = " "@ + direction_word(key.sort);
    let given = given_default_text(key.default, style);
    let end = at + path.len();
    let behind = end + given.len();
    lemma_starts_at_parts(s, at, path, given + word);
    lemma_starts_at_parts(s, end, given, word);
    lemma_direction_read(s, behind, key.sort);
    assert(json_ends(s, behind as int, key.default));
    lemma_given_default_round_trip(s, end, key.default, style);
    lemma_no_direction(s, end + 1);
    lemma_sort_default(s, end + 1);
    lemma_path_before_word(s, end, key.path, style);
    law_keypath_round_trip(s, at, key.path, style);
    lemma_key_from_parts(s, at, key, end + 1, skip_ws(s, behind + word.len()));
}

/// The direction of a key may be written before its default as well as behind it: both
/// texts are read, and as the same order.
pub proof fn law_direction_either_side(
    s: Seq<char>,
    at: int,
    t: Seq<char>,
    from: int,
    key: SortView,
    style: Style,
)
    requires
        writable_path(key.path),
        key.path.len() > 0,
        writable(key.default),
        after_token(s, at, "sort"@) matches Some(start) && starts_at(
            s,
            start,
            direction_first_text(key, style),
        ) && {
            let end = start + direction_first_text(key, style).len();
            &&& json_ends(s, end as int, key.default)
            &&& direction(s, skip_ws(s, end as int)).0 is None
            &&& !starts_at(s, skip_ws(s, end as int), ","@)
        },
        after_token(t, from, "sort"@) matches Some(start) && starts_at(
            t,
            start,
            direction_last_text(key, style),
        ) && !starts_at(
            t,
            skip_ws(t, start + direction_last_text(key, style).len()),
            ","@,
        ),
    ensures
        sort_clause(s, at) == (Step::Done {
            value: seq![key],
            at: skip_ws(
                s,
                after_token(s, at, "sort"@).unwrap() + direction_first_text(key, style).len(),
            ),
        }),
        sort_clause(t, from) == (Step::Done {
            value: seq![key],
            at: skip_ws(
                t,
                after_token(t, from, "sort"@).unwrap() + direction_last_text(key, style).len(),
            ),
        }),
{
    let start = after_token(s, at, "sort"@).unwrap();
    let end = start + direction_first_text(key, style).len();
    lemma_direction_first(s, start, key, style);
    lemma_skip_ws(s, end);
    lemma_key_read(s, start, Seq::empty(), key, skip_ws(s, end));
    let other = after_token(t, from, "sort"@).unwrap();
    let last = other + direction_last_text(key, style).len();
    lemma_direction_last(t, other, key, style);
    lemma_skip_ws(t, last);
    lemma_key_read(t, other, Seq::empty(), key, skip_ws(t, last));
    assert(Seq::<SortView>::empty().push(key) =~= seq![key]);
    reveal(keys_at);
}

} // verus!
