//! A key path that is written down is read back. And what the clauses of a query make of
//! what stands in them.

use vstd::prelude::*;
use crate::grammar::Step;
use crate::grammar::clauses::{keypath, lemma_sort_key, limit_clause, path_steps, sort_clause};
use crate::grammar::clauses::{sort_key, sort_keys};
use crate::grammar::lexical::{after_token, expect, field, integer, lemma_after_token, lemma_expect};
use crate::grammar::lexical::{lemma_field, lemma_integer, lemma_marks, lemma_string_literal};
use crate::grammar::lexical::{must_string_literal, name_part};
use crate::key_builder::{Path, SegmentView};
use crate::laws::lexical::{Style, is_name, law_field_is_name, law_field_round_trip};
use crate::laws::lexical::{law_integer_round_trip, law_string_round_trip, law_white_space_skipped};
use crate::laws::lexical::{lemma_no_white_space, lemma_one_mark, lemma_other_token};
use crate::laws::lexical::{lemma_starts_at_char, lemma_starts_at_parts, quoted};
use crate::query::SortView;
use crate::text::{decimal, digit, lemma_decimal_round_trip, skip_ws, starts_at};

verus! {

/// Whether a step of a key path behind the first can be written: a name, or an index.
pub open spec fn writable_step(step: SegmentView) -> bool {
    match step {
        SegmentView::ObjectKey(name) => is_name(name),
        SegmentView::ArrayIndex(index) => index <= i64::MAX,
        SegmentView::Array => false,
    }
}

/// Whether `path` can be written as a key path: it is empty, or starts with a key.
pub open spec fn writable_path(path: Path) -> bool {
    &&& path.len() > 0 ==> path[0] is ObjectKey
    &&& forall|i: int| 0 < i < path.len() ==> writable_step(#[trigger] path[i])
}

/// A step of a key path as it is written.
pub open spec fn step_text(step: SegmentView) -> Seq<char> {
    match step {
        SegmentView::ObjectKey(name) => "."@ + name,
        SegmentView::ArrayIndex(index) => "["@ + decimal(index as nat) + "]"@,
        SegmentView::Array => "[]"@,
    }
}

/// Steps of a key path as they are written.
pub open spec fn steps_text(steps: Path) -> Seq<char>
    decreases steps.len(),
{
    if steps.len() == 0 {
        Seq::empty()
    } else {
        step_text(steps[0]) + steps_text(steps.drop_first())
    }
}

/// The first step of a key path as it is written behind the dot.
pub open spec fn first_text(name: Seq<char>, style: Style) -> Seq<char> {
    if style.bare && is_name(name) {
        name
    } else {
        "["@ + quoted(name, style) + "]"@
    }
}

/// A key path as it is written.
pub open spec fn path_text(path: Path, style: Style) -> Seq<char> {
    if path.len() == 0 {
        "."@
    } else {
        "."@ + first_text(path[0]->ObjectKey_0, style) + steps_text(path.drop_first())
    }
}

/// Whether `path` is written with a name last.
pub open spec fn ends_with_name(path: Path, style: Style) -> bool {
    path.len() > 0 && path.last() is ObjectKey && (path.len() == 1 ==> style.bare && is_name(
        path[0]->ObjectKey_0,
    ))
}

/// Whether no step of a key path follows at `end`, behind a step that is a name where
/// `named` holds.
pub open spec fn steps_end(s: Seq<char>, end: int, named: bool) -> bool {
    let next = skip_ws(s, end);
    &&& !starts_at(s, next, "["@)
    &&& !starts_at(s, next, "."@)
    &&& named && end < s.len() ==> !name_part(s[end])
}

/// Whether the key path `path` does not go on at `end`.
pub open spec fn path_ends(s: Seq<char>, end: int, path: Path, style: Style) -> bool {
    if path.len() == 0 {
        !starts_at(s, skip_ws(s, end), "["@) && field(s, skip_ws(s, end)) is None
    } else {
        steps_end(s, end, ends_with_name(path, style))
    }
}

/// Steps are read back behind those of `before`.
proof fn lemma_steps_round_trip(s: Seq<char>, at: int, before: Path, steps: Path, named: bool)
    requires
        0 <= at,
        starts_at(s, at, steps_text(steps)),
        forall|i: int| 0 <= i < steps.len() ==> writable_step(#[trigger] steps[i]),
        steps_end(
            s,
            (at + steps_text(steps).len()) as int,
            if steps.len() == 0 { named } else { steps.last() is ObjectKey },
        ),
    ensures
        path_steps(s, skip_ws(s, at), before) == (Step::Done {
            value: before + steps,
            at: skip_ws(s, at + steps_text(steps).len()),
        }),
    decreases steps.len(),
{
    lemma_marks();
    if steps.len() == 0 {
        law_white_space_skipped(s, at);
        assert(before + steps =~= before);
    } else {
        let step = steps[0];
        let rest = steps.drop_first();
        let head = step_text(step);
        let next = at + head.len();
        lemma_starts_at_parts(s, at, head, steps_text(rest));
        lemma_starts_at_char(s, at, head, 0);
        lemma_no_white_space(s, at);
        assert forall|i: int| 0 <= i < rest.len() implies writable_step(#[trigger] rest[i]) by {
            assert(writable_step(steps[i + 1]));
        }
        assert(writable_step(steps[0]));
        if rest.len() > 0 {
            assert(writable_step(steps[1]));
            assert(rest[0] == steps[1]);
            lemma_starts_at_parts(s, next, step_text(rest[0]), steps_text(rest.drop_first()));
            lemma_starts_at_char(s, next, step_text(rest[0]), 0);
            assert(rest.last() == steps.last());
        }
        match step {
            SegmentView::ObjectKey(name) => {
                lemma_other_token(s, at, "["@);
                lemma_starts_at_parts(s, at, "."@, name);
                lemma_starts_at_char(s, at + 1, name, 0);
                lemma_no_white_space(s, at + 1);
                law_field_round_trip(s, at + 1, name);
                lemma_steps_round_trip(s, next, before.push(step), rest, true);
            },
            SegmentView::ArrayIndex(index) => {
                let digits = decimal(index as nat);
                lemma_decimal_round_trip(index as nat);
                assert(head =~= "["@ + (digits + "]"@));
                lemma_starts_at_parts(s, at, "["@, digits + "]"@);
                lemma_starts_at_parts(s, at + 1, digits, "]"@);
                lemma_starts_at_char(s, at + 1, digits, 0);
                assert(digit(digits[0]));
                lemma_no_white_space(s, at + 1);
                lemma_starts_at_char(s, next - 1, "]"@, 0);
                lemma_no_white_space(s, next - 1);
                law_integer_round_trip(s, at + 1, index as nat);
                lemma_one_mark(s, next - 1, "]"@, ']');
                assert((index as nat as i64) as u64 == index);
                lemma_steps_round_trip(s, next, before.push(step), rest, false);
            },
            SegmentView::Array => {},
        }
        assert(before.push(step) + rest =~= before + steps);
    }
}

/// A key path is read back where it ends. A dot alone leads to the whole document.
pub proof fn law_keypath_round_trip(s: Seq<char>, at: int, path: Path, style: Style)
    requires
        writable_path(path),
        starts_at(s, at, path_text(path, style)),
        path_ends(s, (at + path_text(path, style).len()) as int, path, style),
    ensures
        keypath(s, at) == (Step::Done {
            value: Some(path),
            at: skip_ws(s, at + path_text(path, style).len()),
        }),
{
    lemma_marks();
    if path.len() == 0 {
        law_white_space_skipped(s, at + 1);
        assert(path =~= Path::empty());
    } else {
        let name = path[0]->ObjectKey_0;
        let rest = path.drop_first();
        let first = first_text(name, style);
        let tail = steps_text(rest);
        assert(path_text(path, style) =~= "."@ + (first + tail));
        lemma_starts_at_parts(s, at, "."@, first + tail);
        lemma_starts_at_parts(s, at + 1, first, tail);
        lemma_starts_at_char(s, at + 1, first, 0);
        lemma_no_white_space(s, at + 1);
        let next = at + 1 + first.len();
        assert forall|i: int| 0 <= i < rest.len() implies writable_step(#[trigger] rest[i]) by {
            assert(writable_step(path[i + 1]));
        }
        if rest.len() > 0 {
            assert(writable_step(path[1]));
            assert(rest[0] == path[1]);
            lemma_starts_at_parts(s, next, step_text(rest[0]), steps_text(rest.drop_first()));
            lemma_starts_at_char(s, next, step_text(rest[0]), 0);
            assert(rest.last() == path.last());
        }
        if style.bare && is_name(name) {
            lemma_other_token(s, at + 1, "["@);
            law_field_round_trip(s, at + 1, name);
            lemma_steps_round_trip(s, next, seq![path[0]], rest, true);
        } else {
            let close = next - 1;
            assert(first =~= "["@ + (quoted(name, style) + "]"@));
            lemma_starts_at_parts(s, at + 1, "["@, quoted(name, style) + "]"@);
            lemma_starts_at_parts(s, at + 2, quoted(name, style), "]"@);
            lemma_starts_at_char(s, at + 2, quoted(name, style), 0);
            lemma_no_white_space(s, at + 2);
            law_string_round_trip(s, at + 2, name, style);
            lemma_starts_at_char(s, close, "]"@, 0);
            lemma_no_white_space(s, close);
            lemma_steps_round_trip(s, next, seq![path[0]], rest, false);
        }
        assert(seq![path[0]] + rest =~= path);
    }
}

/// The steps of a key path that are read behind those of `before` can be written.
proof fn lemma_steps_writable(s: Seq<char>, at: int, before: Path)
    requires
        0 <= at <= s.len(),
        before.len() > 0,
        writable_path(before),
    ensures
        path_steps(s, at, before) matches Step::Done { value, at: end } ==> writable_path(value)
            && value.len() > 0,
    decreases s.len() - at,
{
    lemma_marks();
    lemma_after_token(s, at, "["@);
    lemma_after_token(s, at, "."@);
    if let Some(start) = after_token(s, at, "["@) {
        lemma_integer(s, start);
        if let Step::Done { value: Some(index), at: end } = integer(s, start) {
            lemma_expect(s, end, "]"@);
            if let Step::Done { value: _, at: next } = expect(s, end, "]"@) {
                let step = SegmentView::ArrayIndex(index as u64);
                assert(writable_path(before.push(step)));
                lemma_steps_writable(s, next, before.push(step));
            }
        }
    } else if let Some(start) = after_token(s, at, "."@) {
        lemma_field(s, start);
        law_field_is_name(s, start);
        if let Some((name, next)) = field(s, start) {
            let step = SegmentView::ObjectKey(name);
            assert(writable_path(before.push(step)));
            lemma_steps_writable(s, next, before.push(step));
        }
    }
}

/// A key path that is read can be written: it is empty, or starts with a key, and leads on
/// through names and indices. Behind an empty one no name follows.
pub proof fn law_keypath_writable(s: Seq<char>, at: int)
    ensures
        keypath(s, at) matches Step::Done { value: Some(path), at: end } ==> writable_path(path)
            && (path.len() == 0 ==> field(s, end) is None),
{
    lemma_marks();
    lemma_after_token(s, at, "."@);
    if let Some(start) = after_token(s, at, "."@) {
        law_white_space_skipped(s, at + 1);
        lemma_after_token(s, start, "["@);
        if let Some(quote) = after_token(s, start, "["@) {
            lemma_string_literal(s, quote);
            if let Step::Done { value: name, at: end } = must_string_literal(s, quote) {
                lemma_expect(s, end, "]"@);
                if let Step::Done { value: _, at: next } = expect(s, end, "]"@) {
                    lemma_steps_writable(s, next, seq![SegmentView::ObjectKey(name)]);
                }
            }
        } else {
            lemma_field(s, start);
            if let Some((name, next)) = field(s, start) {
                lemma_steps_writable(s, next, seq![SegmentView::ObjectKey(name)]);
            }
        }
    }
}

/// The keys that are read behind those of `before` are one at least.
pub proof fn lemma_some_sort_key(s: Seq<char>, at: int, before: Seq<SortView>)
    requires
        0 <= at <= s.len(),
    ensures
        sort_keys(s, at, before) matches Step::Done { value, at: end } ==> value.len() > 0,
        sort_keys(s, at, before).ends_within(s, at),
    decreases s.len() - at,
{
    lemma_marks();
    lemma_sort_key(s, at);
    if let Step::Done { value, at: end } = sort_key(s, at) {
        lemma_after_token(s, end, ","@);
        if let Some(next) = after_token(s, end, ","@) {
            lemma_some_sort_key(s, next, before.push(value));
        }
    }
}

/// An order has no keys if and only if the query gives none, and then nothing is passed.
pub proof fn law_sort_given(s: Seq<char>, at: int)
    requires
        0 <= at <= s.len(),
    ensures
        sort_clause(s, at) matches Step::Done { value, at: end } ==> (value.len() == 0
            <==> !starts_at(s, at, "sort"@)),
        !starts_at(s, at, "sort"@) ==> sort_clause(s, at) is Done && sort_clause(s, at).end() == at,
{
    lemma_after_token(s, at, "sort"@);
    if let Some(start) = after_token(s, at, "sort"@) {
        lemma_some_sort_key(s, start, Seq::empty());
    }
}

/// A limit is never zero, on a machine whose sizes hold all that can be written. Without
/// one there is none, and nothing is passed.
pub proof fn law_limit_positive(s: Seq<char>, at: int)
    requires
        i64::MAX <= usize::MAX,
    ensures
        limit_clause(s, at) matches Step::Done { value, at: end } ==> value > 0,
        !starts_at(s, at, "limit"@) ==> limit_clause(s, at) == (Step::Done {
            value: usize::MAX,
            at,
        }),
{
}

} // verus!
