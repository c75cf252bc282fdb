//! How filters are made of their parts.

use vstd::prelude::*;
use crate::filters::{FilterView, Operator};
use crate::grammar::Step;
use crate::grammar::filters::{Walk, abool, acompare, aparens, array, compare, lemma_abool};
use crate::grammar::filters::{lemma_acompare, lemma_object, lemma_obool, lemma_ocompare, object};
use crate::grammar::filters::{obool, ocompare, oparens, parens};
use crate::grammar::lexical::{after_token, bare_integer, key, lemma_after_token, lemma_marks};
use crate::grammar::lexical::must_string_literal;
use crate::key_builder::{Path, SegmentView};
use crate::laws::basic::law_integer_read;
use crate::laws::filter_refusals::none_nested;
use crate::laws::lexical::lemma_starts_at_char;
use crate::text::starts_at;

verus! {

/// Whether `value` is read up to `end`.
pub open spec fn walks<T>(walk: Walk<T>, value: T, end: int) -> bool {
    walk matches Walk::Done { value: read, at } && read == value && at == end
}

/// A comparison is its operator, the literal behind it, and the path on which it stands.
pub proof fn law_compare_joined(s: Seq<char>, at: int, path: Path)
    requires
        0 <= at <= s.len(),
    ensures
        after_token(s, at, "=="@) matches Some(quote) ==> (must_string_literal(s, quote)
            matches Step::Done { value: literal, at: end } ==> walks(
            compare(s, at, path),
            FilterView::Compare { operator: Operator::Exact, literal, path },
            end,
        )),
        after_token(s, at, "~="@) matches Some(quote) ==> (must_string_literal(s, quote)
            matches Step::Done { value: literal, at: end } ==> walks(
            compare(s, at, path),
            FilterView::Compare { operator: Operator::Stemmed, literal, path },
            end,
        )),
        starts_at(s, at, "~"@) ==> (bare_integer(s, at + 1) matches Step::Done {
            value: Some(distance),
            at: equals,
        } ==> (after_token(s, equals, "="@) matches Some(quote) ==> (must_string_literal(s, quote)
            matches Step::Done { value: literal, at: end } ==> walks(
            compare(s, at, path),
            FilterView::Compare { operator: Operator::Distance(distance), literal, path },
            end,
        )))),
{
    reveal_strlit("==");
    reveal_strlit("~=");
    reveal_strlit("~");
    if starts_at(s, at, "~"@) {
        lemma_starts_at_char(s, at, "~"@, 0);
        law_integer_read(s, at + 1, Seq::empty());
    }
    if starts_at(s, at, "~="@) {
        lemma_starts_at_char(s, at, "~="@, 0);
        lemma_starts_at_char(s, at, "~="@, 1);
    }
    if starts_at(s, at, "=="@) {
        lemma_starts_at_char(s, at, "=="@, 0);
    }
}

/// Filters on members are joined to the right, on the path of the object: by `&&` and by a
/// comma as a pair of which both are asked for, by `||` as one of which either is.
pub proof fn law_members_joined(s: Seq<char>, at: int, path: Path, left: FilterView, end: int)
    requires
        0 <= at <= s.len(),
        walks(ocompare(s, at, path), left, end),
    ensures
        (after_token(s, end, "&&"@) matches Some(next) ==> (obool(s, next, path)
            matches Walk::Done { value: right, at: stop } ==> walks(
            obool(s, at, path),
            FilterView::And(Box::new(left), Box::new(right), path),
            stop,
        ))),
        after_token(s, end, "&&"@) is None ==> (after_token(s, end, ","@) matches Some(next) ==> (
        obool(s, next, path) matches Walk::Done { value: right, at: stop } ==> walks(
            obool(s, at, path),
            FilterView::And(Box::new(left), Box::new(right), path),
            stop,
        ))),
        after_token(s, end, "&&"@) is None && after_token(s, end, ","@) is None ==> {
            &&& after_token(s, end, "||"@) matches Some(next) ==> (obool(s, next, path)
                matches Walk::Done { value: right, at: stop } ==> walks(
                obool(s, at, path),
                FilterView::Or(Box::new(left), Box::new(right), path),
                stop,
            ))
            &&& after_token(s, end, "||"@) is None ==> walks(obool(s, at, path), left, end)
        },
{
    lemma_ocompare(s, at, path);
}

/// Filters on elements are joined to the right, on the path of the elements: by `&&` and by a
/// comma as a pair of which both are asked for, by `||` as one of which either is.
pub proof fn law_elements_joined(s: Seq<char>, at: int, path: Path, left: FilterView, end: int)
    requires
        0 <= at <= s.len(),
        walks(acompare(s, at, path), left, end),
    ensures
        (after_token(s, end, "&&"@) matches Some(next) ==> (abool(s, next, path)
            matches Walk::Done { value: right, at: stop } ==> walks(
            abool(s, at, path),
            FilterView::And(Box::new(left), Box::new(right), path),
            stop,
        ))),
        after_token(s, end, "&&"@) is None ==> (after_token(s, end, ","@) matches Some(next) ==> (
        abool(s, next, path) matches Walk::Done { value: right, at: stop } ==> walks(
            abool(s, at, path),
            FilterView::And(Box::new(left), Box::new(right), path),
            stop,
        ))),
        after_token(s, end, "&&"@) is None && after_token(s, end, ","@) is None ==> {
            &&& after_token(s, end, "||"@) matches Some(next) ==> (abool(s, next, path)
                matches Walk::Done { value: right, at: stop } ==> walks(
                abool(s, at, path),
                FilterView::Or(Box::new(left), Box::new(right), path),
                stop,
            ))
            &&& after_token(s, end, "||"@) is None ==> walks(abool(s, at, path), left, end)
        },
{
    lemma_acompare(s, at, path);
}

/// A filter behind a key looks on the member with that key. Else a filter on a member is the
/// nested one that stands there.
pub proof fn law_member_joined(s: Seq<char>, at: int, path: Path)
    ensures
        oparens(s, at, path) matches Walk::Done { value: Some(filter), at: end } ==> walks(
            ocompare(s, at, path),
            filter,
            end,
        ),
        none_nested(oparens(s, at, path), at) ==> (key(s, at) matches Step::Done {
            value: Some(name),
            at: colon,
        } ==> (after_token(s, colon, ":"@) matches Some(start) ==> (oparens(
            s,
            start,
            path.push(SegmentView::ObjectKey(name)),
        ) matches Walk::Done { value: Some(filter), at: end } ==> walks(
            ocompare(s, at, path),
            filter,
            end,
        )))),
        aparens(s, at, path) matches Walk::Done { value: Some(filter), at: end } ==> walks(
            acompare(s, at, path),
            filter,
            end,
        ),
{
}

/// Parentheses around a list are read as the list, and what opens with a bracket or a brace
/// as the filter on an array or on an object.
pub proof fn law_nested_joined(s: Seq<char>, at: int, path: Path)
    requires
        0 <= at <= s.len(),
    ensures
        after_token(s, at, "("@) matches Some(start) ==> {
            &&& obool(s, start, path) matches Walk::Done { value: filter, at: end } ==> (
            after_token(s, end, ")"@) matches Some(stop) ==> walks(
                oparens(s, at, path),
                Some(filter),
                stop,
            ))
            &&& abool(s, start, path) matches Walk::Done { value: filter, at: end } ==> (
            after_token(s, end, ")"@) matches Some(stop) ==> walks(
                aparens(s, at, path),
                Some(filter),
                stop,
            ))
        },
        starts_at(s, at, "["@) ==> (array(s, at, path) matches Walk::Done { value: filter, at: end }
            ==> walks(oparens(s, at, path), Some(filter), end) && walks(
            aparens(s, at, path),
            Some(filter),
            end,
        )),
        starts_at(s, at, "{"@) ==> (object(s, at, path) matches Walk::Done {
            value: filter,
            at: end,
        } ==> walks(oparens(s, at, path), Some(filter), end) && walks(
            aparens(s, at, path),
            Some(filter),
            end,
        )),
{
    lemma_marks();
    lemma_after_token(s, at, "("@);
    if let Some(start) = after_token(s, at, "("@) {
        lemma_obool(s, start, path);
        lemma_abool(s, start, path);
        lemma_starts_at_char(s, at, "("@, 0);
    }
    if starts_at(s, at, "["@) {
        lemma_starts_at_char(s, at, "["@, 0);
    }
    if starts_at(s, at, "{"@) {
        lemma_starts_at_char(s, at, "{"@, 0);
    }
}

/// A filter on an array is the list in its brackets, on the path of the elements.
pub proof fn law_array_joined(s: Seq<char>, at: int, path: Path, start: int)
    requires
        0 <= at <= s.len(),
        after_token(s, at, "["@) == Some(start),
    ensures
        abool(s, start, path.push(SegmentView::Array)) matches Walk::Done { value: filter, at: end }
            ==> (after_token(s, end, "]"@) matches Some(stop) ==> walks(
            array(s, at, path),
            filter,
            stop,
        )),
{
    lemma_after_token(s, at, "["@);
    lemma_abool(s, start, path.push(SegmentView::Array));
}

/// A filter on an object is the list in its braces, with the objects that `&&` and `||` join
/// to it on its right, and not a comma. Parentheses around one are read as the one.
pub proof fn law_objects_joined(s: Seq<char>, at: int, path: Path)
    requires
        0 <= at <= s.len(),
    ensures
        after_token(s, at, "{"@) matches Some(start) ==> (obool(s, start, path)
            matches Walk::Done { value: left, at: end } ==> (after_token(s, end, "}"@) matches Some(
            behind,
        ) ==> {
            &&& after_token(s, behind, "&&"@) matches Some(next) ==> (object(s, next, path)
                matches Walk::Done { value: right, at: stop } ==> walks(
                object(s, at, path),
                FilterView::And(Box::new(left), Box::new(right), path),
                stop,
            ))
            &&& after_token(s, behind, "&&"@) is None ==> {
                &&& after_token(s, behind, "||"@) matches Some(next) ==> (object(s, next, path)
                    matches Walk::Done { value: right, at: stop } ==> walks(
                    object(s, at, path),
                    FilterView::Or(Box::new(left), Box::new(right), path),
                    stop,
                ))
                &&& after_token(s, behind, "||"@) is None ==> walks(
                    object(s, at, path),
                    left,
                    behind,
                )
            }
        })),
        after_token(s, at, "("@) matches Some(start) ==> (object(s, start, path)
            matches Walk::Done { value: filter, at: end } ==> (after_token(s, end, ")"@)
            matches Some(stop) ==> walks(parens(s, at, path), filter, stop))),
{
    lemma_after_token(s, at, "{"@);
    lemma_after_token(s, at, "("@);
    if let Some(start) = after_token(s, at, "("@) {
        lemma_object(s, start, path);
    }
    if let Some(start) = after_token(s, at, "{"@) {
        lemma_obool(s, start, path);
        if let Walk::Done { value: left, at: end } = obool(s, start, path) {
            lemma_after_token(s, end, "}"@);
        }
    }
}

} // verus!
