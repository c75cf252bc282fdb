//! What is refused in a filter, with which message, where, and on which path. What is wrong in
//! a part is wrong in the whole, with the message, the position and the path of the part.

use vstd::prelude::*;
use crate::filters::FilterView;
use crate::grammar::Step;
use crate::grammar::filters::{Walk, abool, acompare, aparens, array, compare, find, lemma_abool};
use crate::grammar::filters::{lemma_acompare, lemma_object, lemma_obool, lemma_ocompare, object};
use crate::grammar::filters::{obool, ocompare, oparens, parens};
use crate::grammar::lexical::{after_token, bare_integer, expect, key, lemma_after_token};
use crate::grammar::lexical::must_string_literal;
use crate::key_builder::{Path, SegmentView};
use crate::laws::lexical::lemma_starts_at_char;
use crate::laws::refusals::{nothing, refused};
use crate::text::starts_at;

verus! {

/// The message, the position and the path of a reading that failed.
pub open spec fn refused_on<T>(walk: Walk<T>) -> Option<(Seq<char>, int, Path)> {
    match walk {
        Walk::Done { .. } => None,
        Walk::Fail { message, at, path } => Some((message, at, path)),
    }
}

/// Whether no nested filter is read at `at`, and nothing passed.
pub open spec fn none_nested(walk: Walk<Option<FilterView>>, at: int) -> bool {
    walk matches Walk::Done { value: None, at: end } && end == at
}

/// A comparison starts with one of three operators, and a string literal stands behind it. A
/// distance is an integer, with the equals sign right behind it.
pub proof fn law_compare_refused(s: Seq<char>, at: int, path: Path)
    requires
        0 <= at <= s.len(),
    ensures
        !starts_at(s, at, "=="@) && !starts_at(s, at, "~"@) ==> refused_on(compare(s, at, path))
            == Some(("Expected comparison operator"@, at, path)),
        after_token(s, at, "=="@) matches Some(quote) ==> (refused(must_string_literal(s, quote))
            matches Some((message, end)) ==> refused_on(compare(s, at, path)) == Some(
            (message, end, path),
        )),
        after_token(s, at, "~="@) matches Some(quote) ==> (refused(must_string_literal(s, quote))
            matches Some((message, end)) ==> refused_on(compare(s, at, path)) == Some(
            (message, end, path),
        )),
        starts_at(s, at, "~"@) && !starts_at(s, at, "~="@) ==> {
            let distance = bare_integer(s, at + 1);
            &&& refused(distance) matches Some((message, end)) ==> refused_on(compare(s, at, path))
                == Some((message, end, path))
            &&& nothing(distance, at + 1) ==> refused_on(compare(s, at, path)) == Some(
                ("Expected integer for proximity search"@, at + 1, path),
            )
            &&& distance matches Step::Done { value: Some(_), at: equals } ==> {
                &&& refused(expect(s, equals, "="@)) matches Some((message, end)) ==> refused_on(
                    compare(s, at, path),
                ) == Some((message, end, path))
                &&& after_token(s, equals, "="@) matches Some(quote) ==> (refused(
                    must_string_literal(s, quote),
                ) matches Some((message, end)) ==> refused_on(compare(s, at, path)) == Some(
                    (message, end, path),
                ))
            }
        },
{
    reveal_strlit("==");
    reveal_strlit("~=");
    reveal_strlit("~");
    if starts_at(s, at, "~"@) {
        lemma_starts_at_char(s, at, "~"@, 0);
    }
    if starts_at(s, at, "~="@) {
        lemma_starts_at_char(s, at, "~="@, 0);
        assert(s.subrange(at, at + 1) =~= "~"@);
    }
    if starts_at(s, at, "=="@) {
        lemma_starts_at_char(s, at, "=="@, 0);
    }
}

/// What is wrong in one filter of a list on members is wrong in the list, the first as well as
/// those that are joined to it.
pub proof fn law_obool_refused(s: Seq<char>, at: int, path: Path)
    requires
        0 <= at <= s.len(),
    ensures
        refused_on(ocompare(s, at, path)) matches Some(r) ==> refused_on(obool(s, at, path))
            == Some(r),
        ocompare(s, at, path) matches Walk::Done { value: left, at: end } ==> {
            &&& after_token(s, end, "&&"@) matches Some(next) ==> (refused_on(obool(s, next, path))
                matches Some(r) ==> refused_on(obool(s, at, path)) == Some(r))
            &&& after_token(s, end, "&&"@) is None ==> (after_token(s, end, ","@) matches Some(next)
                ==> (refused_on(obool(s, next, path)) matches Some(r) ==> refused_on(
                obool(s, at, path),
            ) == Some(r)))
            &&& after_token(s, end, "&&"@) is None && after_token(s, end, ","@) is None ==> (
            after_token(s, end, "||"@) matches Some(next) ==> (refused_on(obool(s, next, path))
                matches Some(r) ==> refused_on(obool(s, at, path)) == Some(r)))
        },
{
    lemma_ocompare(s, at, path);
}

/// What is wrong in one filter of a list on elements is wrong in the list, the first as well
/// as those that are joined to it.
pub proof fn law_abool_refused(s: Seq<char>, at: int, path: Path)
    requires
        0 <= at <= s.len(),
    ensures
        refused_on(acompare(s, at, path)) matches Some(r) ==> refused_on(abool(s, at, path))
            == Some(r),
        acompare(s, at, path) matches Walk::Done { value: left, at: end } ==> {
            &&& after_token(s, end, "&&"@) matches Some(next) ==> (refused_on(abool(s, next, path))
                matches Some(r) ==> refused_on(abool(s, at, path)) == Some(r))
            &&& after_token(s, end, "&&"@) is None ==> (after_token(s, end, ","@) matches Some(next)
                ==> (refused_on(abool(s, next, path)) matches Some(r) ==> refused_on(
                abool(s, at, path),
            ) == Some(r)))
            &&& after_token(s, end, "&&"@) is None && after_token(s, end, ","@) is None ==> (
            after_token(s, end, "||"@) matches Some(next) ==> (refused_on(abool(s, next, path))
                matches Some(r) ==> refused_on(abool(s, at, path)) == Some(r)))
        },
{
    lemma_acompare(s, at, path);
}

/// A filter on a member is a nested one, or a key, a colon, and a nested filter or a
/// comparison. Behind the key it is refused on the path of the member.
pub proof fn law_member_refused(s: Seq<char>, at: int, path: Path)
    ensures
        refused_on(oparens(s, at, path)) matches Some(r) ==> refused_on(ocompare(s, at, path))
            == Some(r),
        none_nested(oparens(s, at, path), at) ==> {
            &&& refused(key(s, at)) matches Some((message, end)) ==> refused_on(
                ocompare(s, at, path),
            ) == Some((message, end, path))
            &&& nothing(key(s, at), at) ==> refused_on(ocompare(s, at, path)) == Some(
                ("Expected object key or '('"@, at, path),
            )
            &&& key(s, at) matches Step::Done { value: Some(name), at: colon } ==> {
                let inner = path.push(SegmentView::ObjectKey(name));
                &&& refused(expect(s, colon, ":"@)) matches Some((message, end)) ==> refused_on(
                    ocompare(s, at, path),
                ) == Some((message, end, inner))
                &&& after_token(s, colon, ":"@) matches Some(start) ==> {
                    &&& refused_on(oparens(s, start, inner)) matches Some(r) ==> refused_on(
                        ocompare(s, at, path),
                    ) == Some(r)
                    &&& none_nested(oparens(s, start, inner), start) ==> ocompare(s, at, path)
                        == compare(s, start, inner)
                }
            }
        },
{
}

/// A filter on an element is a nested one or a comparison.
pub proof fn law_element_refused(s: Seq<char>, at: int, path: Path)
    ensures
        refused_on(aparens(s, at, path)) matches Some(r) ==> refused_on(acompare(s, at, path))
            == Some(r),
        none_nested(aparens(s, at, path), at) ==> acompare(s, at, path) == compare(s, at, path),
{
}

/// A nested filter on an object is a list in parentheses, which have to be closed, or one on
/// an array or on an object. Where nothing opens there is none.
pub proof fn law_oparens_refused(s: Seq<char>, at: int, path: Path)
    requires
        0 <= at <= s.len(),
    ensures
        after_token(s, at, "("@) matches Some(start) ==> {
            &&& refused_on(obool(s, start, path)) matches Some(r) ==> refused_on(
                oparens(s, at, path),
            ) == Some(r)
            &&& obool(s, start, path) matches Walk::Done { value, at: end } ==> (refused(
                expect(s, end, ")"@),
            ) matches Some((message, stop)) ==> refused_on(oparens(s, at, path)) == Some(
                (message, stop, path),
            ))
        },
        after_token(s, at, "("@) is None && starts_at(s, at, "["@) ==> refused_on(
            oparens(s, at, path),
        ) == refused_on(array(s, at, path)),
        after_token(s, at, "("@) is None && starts_at(s, at, "{"@) && !starts_at(s, at, "["@)
            ==> refused_on(oparens(s, at, path)) == refused_on(object(s, at, path)),
        after_token(s, at, "("@) is None && !starts_at(s, at, "["@) && !starts_at(s, at, "{"@)
            ==> none_nested(oparens(s, at, path), at),
{
    lemma_after_token(s, at, "("@);
    if let Some(start) = after_token(s, at, "("@) {
        lemma_obool(s, start, path);
    }
}

/// A nested filter on an array is a list in parentheses, which have to be closed, or one on an
/// array or on an object. Where nothing opens there is none.
pub proof fn law_aparens_refused(s: Seq<char>, at: int, path: Path)
    requires
        0 <= at <= s.len(),
    ensures
        after_token(s, at, "("@) matches Some(start) ==> {
            &&& refused_on(abool(s, start, path)) matches Some(r) ==> refused_on(
                aparens(s, at, path),
            ) == Some(r)
            &&& abool(s, start, path) matches Walk::Done { value, at: end } ==> (refused(
                expect(s, end, ")"@),
            ) matches Some((message, stop)) ==> refused_on(aparens(s, at, path)) == Some(
                (message, stop, path),
            ))
        },
        after_token(s, at, "("@) is None && starts_at(s, at, "["@) ==> refused_on(
            aparens(s, at, path),
        ) == refused_on(array(s, at, path)),
        after_token(s, at, "("@) is None && starts_at(s, at, "{"@) && !starts_at(s, at, "["@)
            ==> refused_on(aparens(s, at, path)) == refused_on(object(s, at, path)),
        after_token(s, at, "("@) is None && !starts_at(s, at, "["@) && !starts_at(s, at, "{"@)
            ==> none_nested(aparens(s, at, path), at),
{
    lemma_after_token(s, at, "("@);
    if let Some(start) = after_token(s, at, "("@) {
        lemma_abool(s, start, path);
    }
}

/// A filter on an array needs its brackets. What is wrong in them is refused on the path of
/// the elements, and a missing bracket behind them on the path of the array.
pub proof fn law_array_refused(s: Seq<char>, at: int, path: Path)
    requires
        0 <= at <= s.len(),
    ensures
        after_token(s, at, "["@) is None ==> refused_on(array(s, at, path)) == Some(
            ("Expected '['"@, at, path),
        ),
        after_token(s, at, "["@) matches Some(start) ==> {
            let elements = abool(s, start, path.push(SegmentView::Array));
            &&& refused_on(elements) matches Some(r) ==> refused_on(array(s, at, path)) == Some(r)
            &&& elements matches Walk::Done { value, at: end } ==> (refused(expect(s, end, "]"@))
                matches Some((message, stop)) ==> refused_on(array(s, at, path)) == Some(
                (message, stop, path),
            ))
        },
{
    lemma_after_token(s, at, "["@);
    if let Some(start) = after_token(s, at, "["@) {
        lemma_abool(s, start, path.push(SegmentView::Array));
    }
}

/// A filter on an object needs its braces. What is wrong in them, or in an object that is
/// joined behind them, is wrong in the whole.
pub proof fn law_object_refused(s: Seq<char>, at: int, path: Path, start: int)
    requires
        0 <= at <= s.len(),
        after_token(s, at, "{"@) == Some(start),
    ensures
        refused_on(obool(s, start, path)) matches Some(r) ==> refused_on(object(s, at, path))
            == Some(r),
        obool(s, start, path) matches Walk::Done { value, at: end } ==> {
            &&& refused(expect(s, end, "}"@)) matches Some((message, stop)) ==> refused_on(
                object(s, at, path),
            ) == Some((message, stop, path))
            &&& after_token(s, end, "}"@) matches Some(behind) ==> {
                &&& after_token(s, behind, "&&"@) matches Some(next) ==> (refused_on(
                    object(s, next, path),
                ) matches Some(r) ==> refused_on(object(s, at, path)) == Some(r))
                &&& after_token(s, behind, "&&"@) is None ==> (after_token(s, behind, "||"@)
                    matches Some(next) ==> (refused_on(object(s, next, path)) matches Some(r)
                    ==> refused_on(object(s, at, path)) == Some(r)))
            }
        },
{
    lemma_after_token(s, at, "{"@);
    lemma_obool(s, start, path);
    if let Walk::Done { value, at: end } = obool(s, start, path) {
        lemma_after_token(s, end, "}"@);
    }
}

/// Without a brace a filter on an object needs its parentheses, with a filter on an object in
/// them.
pub proof fn law_parens_refused(s: Seq<char>, at: int, path: Path)
    requires
        0 <= at <= s.len(),
    ensures
        after_token(s, at, "{"@) is None ==> object(s, at, path) == parens(s, at, path),
        refused(expect(s, at, "("@)) matches Some((message, stop)) ==> refused_on(
            parens(s, at, path),
        ) == Some((message, stop, path)),
        after_token(s, at, "("@) matches Some(start) ==> {
            &&& refused_on(object(s, start, path)) matches Some(r) ==> refused_on(
                parens(s, at, path),
            ) == Some(r)
            &&& object(s, start, path) matches Walk::Done { value, at: end } ==> (refused(
                expect(s, end, ")"@),
            ) matches Some((message, stop)) ==> refused_on(parens(s, at, path)) == Some(
                (message, stop, path),
            ))
        },
{
    lemma_after_token(s, at, "("@);
    if let Some(start) = after_token(s, at, "("@) {
        lemma_object(s, start, path);
    }
}

/// Behind the word `find` stands a filter on an object, and what is wrong in it is wrong in
/// the whole.
pub proof fn law_find_refused(s: Seq<char>, at: int, path: Path, start: int)
    requires
        after_token(s, at, "find"@) == Some(start),
    ensures
        find(s, at, path) == object(s, start, path),
{
}

} // verus!
