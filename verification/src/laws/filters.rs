//! A filter that is written down is read back. And how filters are joined.

use vstd::prelude::*;
use crate::filters::{FilterView, Operator};
use crate::grammar::Step;
use crate::grammar::filters::{Walk, abool, acompare, aparens, array, closed, compare, conjunction};
use crate::grammar::filters::{find, lemma_acompare, lemma_aparens, lemma_closed, lemma_obool};
use crate::grammar::filters::{lemma_ocompare, lemma_oparens, object, obool, ocompare, oparens};
use crate::grammar::filters::parens;
use crate::grammar::lexical::{after_token, expect, key, lemma_after_token, lemma_bare_integer};
use crate::grammar::lexical::{lemma_expect, lemma_key, lemma_marks, name_start};
use crate::key_builder::{Path, SegmentView};
use crate::laws::lexical::{Style, law_key_round_trip, law_string_round_trip};
use crate::laws::lexical::{lemma_bare_integer_round_trip, lemma_name_text_start};
use crate::laws::lexical::{lemma_no_white_space, lemma_one_mark, lemma_other_token};
use crate::laws::lexical::{lemma_starts_at_char, lemma_starts_at_parts, name_text, quoted};
use crate::text::{decimal, digit, lemma_decimal_round_trip, skip_ws, starts_at, white_space};

verus! {

/// Where a filter is written: as one on a member of an object, as the value behind the key
/// of a member, or as one on an element of an array.
pub enum Place {
    Member,
    Value,
    Element,
}

/// The path on which a filter looks.
pub open spec fn path_of(f: FilterView) -> Path {
    match f {
        FilterView::Compare { operator, literal, path } => path,
        FilterView::And(left, right, path) => path,
        FilterView::Or(left, right, path) => path,
    }
}

/// Where the filters of a pair are written that is written at `place`.
pub open spec fn inner_place(place: Place) -> Place {
    match place {
        Place::Element => Place::Element,
        _ => Place::Member,
    }
}

/// An operator as it is written.
pub open spec fn operator_text(operator: Operator) -> Seq<char> {
    match operator {
        Operator::Exact => "=="@,
        Operator::Stemmed => "~="@,
        Operator::Distance(n) => "~"@ + decimal(n as nat) + "="@,
    }
}

/// Whether `f` can be written at `place`, on the first `depth` steps of its path. A path
/// leads through keys and arrays, a comparison stands behind a key or in an array, and the
/// filters of a pair look on the path of the pair or beyond.
pub open spec fn writable(f: FilterView, depth: int, place: Place) -> bool
    decreases f, path_of(f).len() - depth,
{
    let path = path_of(f);
    if !(0 <= depth <= path.len()) {
        false
    } else if depth < path.len() {
        match path[depth] {
            SegmentView::ObjectKey(_) => writable(f, depth + 1, Place::Value),
            SegmentView::Array => writable(f, depth + 1, Place::Element),
            SegmentView::ArrayIndex(_) => false,
        }
    } else {
        match f {
            FilterView::Compare { operator, literal, path } => {
                &&& !(place is Member)
                &&& operator matches Operator::Distance(n) ==> 0 <= n
            },
            FilterView::And(left, right, path) => {
                &&& extends(*left, path)
                &&& writable(*left, depth, inner_place(place))
                &&& extends(*right, path)
                &&& writable(*right, depth, inner_place(place))
            },
            FilterView::Or(left, right, path) => {
                &&& extends(*left, path)
                &&& writable(*left, depth, inner_place(place))
                &&& extends(*right, path)
                &&& writable(*right, depth, inner_place(place))
            },
        }
    }
}

/// Whether `f` looks on `path` or beyond.
pub open spec fn extends(f: FilterView, path: Path) -> bool {
    path.len() <= path_of(f).len() && path_of(f).take(path.len() as int) == path
}

/// `f` as it is written at `place`, on the first `depth` steps of its path, without white
/// space.
pub open spec fn filter_text(f: FilterView, depth: int, place: Place, style: Style) -> Seq<char>
    decreases f, path_of(f).len() - depth, if place is Member { 0int } else { 1int },
{
    let path = path_of(f);
    if 0 <= depth < path.len() {
        match path[depth] {
            SegmentView::ObjectKey(name) => if place is Member {
                name_text(name, style) + ":"@ + filter_text(f, depth + 1, Place::Value, style)
            } else {
                "{"@ + filter_text(f, depth, Place::Member, style) + "}"@
            },
            _ => "["@ + filter_text(f, depth + 1, Place::Element, style) + "]"@,
        }
    } else {
        match f {
            FilterView::Compare { operator, literal, path } => operator_text(operator) + quoted(
                literal,
                style,
            ),
            FilterView::And(left, right, path) => pair_text(
                filter_text(*left, depth, inner_place(place), style),
                "&&"@,
                filter_text(*right, depth, inner_place(place), style),
            ),
            FilterView::Or(left, right, path) => pair_text(
                filter_text(*left, depth, inner_place(place), style),
                "||"@,
                filter_text(*right, depth, inner_place(place), style),
            ),
        }
    }
}

/// Two filters with an operator between them, in parentheses each and together.
pub open spec fn pair_text(left: Seq<char>, operator: Seq<char>, right: Seq<char>) -> Seq<char> {
    "("@ + ("("@ + left + ")"@) + operator + ("("@ + right + ")"@) + ")"@
}

/// The operators of comparisons, by their characters.
pub proof fn lemma_operators()
    ensures
        "=="@ == seq!['=', '='],
        "~="@ == seq!['~', '='],
        "~"@ == seq!['~'],
{
    reveal_strlit("==");
    reveal_strlit("~=");
    reveal_strlit("~");
    assert("=="@ =~= seq!['=', '=']);
    assert("~="@ =~= seq!['~', '=']);
    assert("~"@ =~= seq!['~']);
}

/// The characters that close something.
pub open spec fn closes(c: char) -> bool {
    c == ')' || c == ']' || c == '}'
}

/// Reads filters joined on an array or on an object.
#[verifier::opaque]
spec fn list(s: Seq<char>, at: int, path: Path, on_array: bool) -> Walk<FilterView> {
    if on_array {
        abool(s, at, path)
    } else {
        obool(s, at, path)
    }
}

/// Reads a filter on an array or on an object.
#[verifier::opaque]
spec fn element(s: Seq<char>, at: int, path: Path, on_array: bool) -> Walk<FilterView> {
    if on_array {
        acompare(s, at, path)
    } else {
        ocompare(s, at, path)
    }
}

/// Reads a nested filter on an array or on an object.
#[verifier::opaque]
spec fn nested(s: Seq<char>, at: int, path: Path, on_array: bool) -> Walk<Option<FilterView>> {
    if on_array {
        aparens(s, at, path)
    } else {
        oparens(s, at, path)
    }
}

/// A filter before something that closes is the last of its list.
proof fn lemma_last_of_list(
    s: Seq<char>,
    at: int,
    path: Path,
    on_array: bool,
    f: FilterView,
    end: int,
)
    requires
        element(s, at, path, on_array) == (Walk::Done { value: f, at: end }),
        0 <= at <= end < s.len(),
        closes(s[end]),
    ensures
        list(s, at, path, on_array) == (Walk::Done { value: f, at: end }),
{
    reveal(list);
    reveal(element);
    reveal(nested);
    lemma_marks();
    lemma_other_token(s, end, "&&"@);
    lemma_other_token(s, end, ","@);
    lemma_other_token(s, end, "||"@);
}

/// A list in parentheses is a nested filter.
proof fn lemma_group(
    s: Seq<char>,
    at: int,
    path: Path,
    on_array: bool,
    f: FilterView,
    end: int,
)
    requires
        0 <= at,
        at + 1 <= end < s.len(),
        s[at] == '(',
        !white_space(s[at + 1]),
        list(s, at + 1, path, on_array) == (Walk::Done { value: f, at: end }),
        s[end] == ')',
        end + 1 < s.len() ==> !white_space(s[end + 1]),
    ensures
        nested(s, at, path, on_array) == (Walk::Done { value: Some(f), at: end + 1 }),
        element(s, at, path, on_array) == (Walk::Done { value: f, at: end + 1 }),
{
    reveal(list);
    reveal(element);
    reveal(nested);
    lemma_marks();
    lemma_one_mark(s, at, "("@, '(');
    lemma_no_white_space(s, at + 1);
    lemma_one_mark(s, end, ")"@, ')');
}

/// A comparison that is written down is read back.
proof fn lemma_compare_round_trip(
    s: Seq<char>,
    at: int,
    path: Path,
    operator: Operator,
    literal: Seq<char>,
    style: Style,
)
    requires
        starts_at(s, at, operator_text(operator) + quoted(literal, style)),
        operator matches Operator::Distance(n) ==> 0 <= n,
    ensures
        compare(s, at, path) == (Walk::Done {
            value: FilterView::Compare { operator, literal, path },
            at: skip_ws(s, at + operator_text(operator).len() + quoted(literal, style).len()),
        }),
{
    lemma_operators();
    lemma_marks();
    let sign = operator_text(operator);
    let start = at + sign.len();
    lemma_starts_at_parts(s, at, sign, quoted(literal, style));
    lemma_starts_at_char(s, start, quoted(literal, style), 0);
    lemma_no_white_space(s, start);
    law_string_round_trip(s, start, literal, style);
    match operator {
        Operator::Exact => {},
        Operator::Stemmed => {
            lemma_starts_at_char(s, at, sign, 0);
            lemma_other_token(s, at, "=="@);
        },
        Operator::Distance(n) => {
            let digits = decimal(n as nat);
            lemma_decimal_round_trip(n as nat);
            assert(sign =~= "~"@ + (digits + "="@));
            lemma_starts_at_parts(s, at, "~"@, digits + "="@);
            lemma_starts_at_parts(s, at + 1, digits, "="@);
            lemma_starts_at_char(s, at, sign, 0);
            lemma_other_token(s, at, "=="@);
            lemma_starts_at_char(s, at + 1, digits, 0);
            assert(digit(digits[0]));
            if starts_at(s, at, "~="@) {
                lemma_starts_at_char(s, at, "~="@, 1);
            }
            lemma_starts_at_char(s, at + 1 + digits.len(), "="@, 0);
            lemma_bare_integer_round_trip(s, at + 1, n as nat);
        },
    }
}

/// Whether `c` can start a filter.
pub open spec fn starts_filter(c: char) -> bool {
    c == '"' || name_start(c) || c == '{' || c == '[' || c == '(' || c == '=' || c == '~'
}

/// A filter is written with a character that starts one.
proof fn lemma_filter_text_start(f: FilterView, depth: int, place: Place, style: Style)
    ensures
        filter_text(f, depth, place, style).len() > 0,
        starts_filter(filter_text(f, depth, place, style)[0]),
{
    lemma_marks();
    lemma_operators();
    if 0 <= depth < path_of(f).len() {
        if let SegmentView::ObjectKey(name) = path_of(f)[depth] {
            lemma_name_text_start(name, style);
        }
    }
}

/// The filter that two filters with an operator between them make.
spec fn pair(both: bool, left: FilterView, right: FilterView, path: Path) -> FilterView {
    if both {
        FilterView::And(Box::new(left), Box::new(right), path)
    } else {
        FilterView::Or(Box::new(left), Box::new(right), path)
    }
}

/// The operator between two filters.
spec fn pair_operator(both: bool) -> Seq<char> {
    if both {
        "&&"@
    } else {
        "||"@
    }
}

/// Two filters with an operator between them are read as a pair.
proof fn lemma_join(
    s: Seq<char>,
    at: int,
    path: Path,
    on_array: bool,
    both: bool,
    left: FilterView,
    middle: int,
    right: FilterView,
    end: int,
)
    requires
        0 <= at <= middle,
        middle + 2 < s.len(),
        element(s, at, path, on_array) == (Walk::Done { value: left, at: middle }),
        starts_at(s, middle, pair_operator(both)),
        !white_space(s[middle + 2]),
        list(s, middle + 2, path, on_array) == (Walk::Done { value: right, at: end }),
    ensures
        list(s, at, path, on_array) == (Walk::Done {
            value: pair(both, left, right, path),
            at: end,
        }),
{
    reveal(list);
    reveal(element);
    reveal(nested);
    lemma_marks();
    lemma_starts_at_char(s, middle, pair_operator(both), 0);
    lemma_no_white_space(s, middle + 2);
    if !both {
        lemma_other_token(s, middle, "&&"@);
        lemma_other_token(s, middle, ","@);
    }
}

/// Where the parts of a pair stand.
proof fn lemma_pair_parts(
    s: Seq<char>,
    at: int,
    left: Seq<char>,
    operator: Seq<char>,
    right: Seq<char>,
)
    requires
        starts_at(s, at, pair_text(left, operator, right)),
        operator.len() == 2,
    ensures
        pair_text(left, operator, right).len() == left.len() + right.len() + 8,
        0 <= at,
        at + left.len() + right.len() + 8 <= s.len(),
        s[at] == '(',
        s[at + 1] == '(',
        starts_at(s, at + 2, left),
        s[at + 2 + left.len()] == ')',
        starts_at(s, at + 3 + left.len(), operator),
        s[at + 5 + left.len()] == '(',
        starts_at(s, at + 6 + left.len(), right),
        s[at + 6 + left.len() + right.len()] == ')',
        s[at + 7 + left.len() + right.len()] == ')',
{
    lemma_marks();
    let middle = at + 3 + left.len();
    let second = middle + 2;
    let last = second + 1 + right.len();
    let right_part = "("@ + (right + (")"@ + ")"@));
    let left_part = "("@ + (left + (")"@ + (operator + right_part)));
    assert(pair_text(left, operator, right) =~= "("@ + left_part);
    lemma_starts_at_parts(s, at, "("@, left_part);
    lemma_starts_at_parts(s, at + 1, "("@, left + (")"@ + (operator + right_part)));
    lemma_starts_at_parts(s, at + 2, left, ")"@ + (operator + right_part));
    lemma_starts_at_parts(s, middle - 1, ")"@, operator + right_part);
    lemma_starts_at_parts(s, middle, operator, right_part);
    lemma_starts_at_parts(s, second, "("@, right + (")"@ + ")"@));
    lemma_starts_at_parts(s, second + 1, right, ")"@ + ")"@);
    lemma_starts_at_parts(s, last, ")"@, ")"@);
    lemma_starts_at_char(s, at, "("@, 0);
    lemma_starts_at_char(s, at + 1, "("@, 0);
    lemma_starts_at_char(s, middle - 1, ")"@, 0);
    lemma_starts_at_char(s, second, "("@, 0);
    lemma_starts_at_char(s, last, ")"@, 0);
    lemma_starts_at_char(s, last + 1, ")"@, 0);
}

/// A pair is read back if its filters are.
proof fn lemma_pair_round_trip(
    s: Seq<char>,
    at: int,
    path: Path,
    on_array: bool,
    both: bool,
    left: FilterView,
    middle: int,
    right: FilterView,
    last: int,
)
    requires
        0 <= at,
        at + 2 < middle,
        middle + 5 < last,
        last + 2 < s.len(),
        s[at] == '(',
        s[at + 1] == '(',
        !white_space(s[at + 2]),
        element(s, at + 2, path, on_array) == (Walk::Done { value: left, at: middle }),
        s[middle] == ')',
        starts_at(s, middle + 1, pair_operator(both)),
        s[middle + 3] == '(',
        !white_space(s[middle + 4]),
        element(s, middle + 4, path, on_array) == (Walk::Done { value: right, at: last }),
        s[last] == ')',
        s[last + 1] == ')',
        closes(s[last + 2]),
    ensures
        nested(s, at, path, on_array) == (Walk::Done {
            value: Some(pair(both, left, right, path)),
            at: last + 2,
        }),
        element(s, at, path, on_array) == (Walk::Done {
            value: pair(both, left, right, path),
            at: last + 2,
        }),
{
    lemma_marks();
    lemma_starts_at_char(s, middle + 1, pair_operator(both), 0);
    lemma_last_of_list(s, at + 2, path, on_array, left, middle);
    lemma_group(s, at + 1, path, on_array, left, middle);
    lemma_last_of_list(s, middle + 4, path, on_array, right, last);
    lemma_group(s, middle + 3, path, on_array, right, last);
    lemma_last_of_list(s, middle + 3, path, on_array, right, last + 1);
    lemma_join(s, at + 1, path, on_array, both, left, middle + 1, right, last + 1);
    lemma_group(s, at, path, on_array, pair(both, left, right, path), last + 1);
}

/// A list in braces is a nested filter.
proof fn lemma_braces(
    s: Seq<char>,
    at: int,
    path: Path,
    on_array: bool,
    f: FilterView,
    end: int,
)
    requires
        0 <= at,
        at + 1 <= end,
        end + 1 < s.len(),
        s[at] == '{',
        !white_space(s[at + 1]),
        list(s, at + 1, path, false) == (Walk::Done { value: f, at: end }),
        s[end] == '}',
        closes(s[end + 1]),
    ensures
        nested(s, at, path, on_array) == (Walk::Done { value: Some(f), at: end + 1 }),
        element(s, at, path, on_array) == (Walk::Done { value: f, at: end + 1 }),
{
    reveal(list);
    reveal(element);
    reveal(nested);
    lemma_marks();
    lemma_one_mark(s, at, "{"@, '{');
    lemma_other_token(s, at, "("@);
    lemma_other_token(s, at, "["@);
    lemma_no_white_space(s, at + 1);
    lemma_one_mark(s, end, "}"@, '}');
    lemma_no_white_space(s, end + 1);
    lemma_other_token(s, end + 1, "&&"@);
    lemma_other_token(s, end + 1, "||"@);
    assert(object(s, at, path) == (Walk::Done { value: f, at: end + 1 }));
}

/// A list in brackets is a nested filter on the elements of an array.
proof fn lemma_brackets(
    s: Seq<char>,
    at: int,
    path: Path,
    on_array: bool,
    f: FilterView,
    end: int,
)
    requires
        0 <= at,
        at + 1 <= end,
        end + 1 < s.len(),
        s[at] == '[',
        !white_space(s[at + 1]),
        list(s, at + 1, path.push(SegmentView::Array), true) == (Walk::Done { value: f, at: end }),
        s[end] == ']',
        closes(s[end + 1]),
    ensures
        nested(s, at, path, on_array) == (Walk::Done { value: Some(f), at: end + 1 }),
        element(s, at, path, on_array) == (Walk::Done { value: f, at: end + 1 }),
{
    reveal(list);
    reveal(element);
    reveal(nested);
    lemma_marks();
    lemma_one_mark(s, at, "["@, '[');
    lemma_other_token(s, at, "("@);
    lemma_no_white_space(s, at + 1);
    lemma_one_mark(s, end, "]"@, ']');
    lemma_no_white_space(s, end + 1);
    assert(array(s, at, path) == (Walk::Done { value: f, at: end + 1 }));
}

/// Whether `f` is read as the value behind a key from `at` to `end`.
spec fn read_as_value(s: Seq<char>, at: int, path: Path, f: FilterView, end: int) -> bool {
    ||| nested(s, at, path, false) == (Walk::Done { value: Some(f), at: end })
    ||| nested(s, at, path, false) == (Walk::Done { value: None::<FilterView>, at }) && compare(
        s,
        at,
        path,
    ) == (Walk::Done { value: f, at: end })
}

/// A key with a value behind it is a filter on a member.
proof fn lemma_member(
    s: Seq<char>,
    at: int,
    path: Path,
    name: Seq<char>,
    f: FilterView,
    end: int,
    style: Style,
)
    requires
        starts_at(s, at, name_text(name, style) + ":"@),
        at + name_text(name, style).len() + 1 < s.len(),
        !white_space(s[at + name_text(name, style).len() + 1]),
        read_as_value(
            s,
            at + name_text(name, style).len() + 1,
            path.push(SegmentView::ObjectKey(name)),
            f,
            end,
        ),
    ensures
        element(s, at, path, false) == (Walk::Done { value: f, at: end }),
{
    let colon = at + name_text(name, style).len();
    assert(key(s, at) == (Step::Done { value: Some(name), at: colon }) && expect(s, colon, ":"@) == (
    Step::Done { value: (), at: colon + 1 })) by {
        lemma_marks();
        lemma_starts_at_parts(s, at, name_text(name, style), ":"@);
        lemma_starts_at_char(s, colon, ":"@, 0);
        law_key_round_trip(s, at, name, style);
        lemma_no_white_space(s, colon);
        lemma_no_white_space(s, colon + 1);
    }
    assert(oparens(s, at, path) == (Walk::Done { value: None::<FilterView>, at })) by {
        lemma_marks();
        lemma_starts_at_parts(s, at, name_text(name, style), ":"@);
        lemma_name_text_start(name, style);
        lemma_starts_at_char(s, at, name_text(name, style), 0);
        lemma_other_token(s, at, "("@);
        lemma_other_token(s, at, "["@);
        lemma_other_token(s, at, "{"@);
    }
    reveal(element);
    reveal(nested);
}

/// A comparison in an array, or behind a key, is read back.
proof fn lemma_leaf_round_trip(
    s: Seq<char>,
    at: int,
    path: Path,
    operator: Operator,
    literal: Seq<char>,
    style: Style,
)
    requires
        starts_at(s, at, operator_text(operator) + quoted(literal, style)),
        operator matches Operator::Distance(n) ==> 0 <= n,
        at + operator_text(operator).len() + quoted(literal, style).len() < s.len(),
        closes(s[at + operator_text(operator).len() + quoted(literal, style).len()]),
    ensures
        ({
            let f = FilterView::Compare { operator, literal, path };
            let end = at + operator_text(operator).len() + quoted(literal, style).len();
            &&& read_as_value(s, at, path, f, end as int)
            &&& element(s, at, path, true) == (Walk::Done { value: f, at: end as int })
        }),
{
    reveal(element);
    reveal(nested);
    lemma_marks();
    lemma_operators();
    let text = operator_text(operator) + quoted(literal, style);
    lemma_starts_at_char(s, at, text, 0);
    lemma_other_token(s, at, "("@);
    lemma_other_token(s, at, "["@);
    lemma_other_token(s, at, "{"@);
    lemma_no_white_space(s, at + text.len());
    lemma_compare_round_trip(s, at, path, operator, literal, style);
}

/// A filter that is written at `place`, before something that closes, is read back.
proof fn lemma_filter_round_trip(
    s: Seq<char>,
    at: int,
    f: FilterView,
    depth: int,
    place: Place,
    style: Style,
)
    requires
        writable(f, depth, place),
        starts_at(s, at, filter_text(f, depth, place, style)),
        at + filter_text(f, depth, place, style).len() < s.len(),
        closes(s[at + filter_text(f, depth, place, style).len()]),
    ensures
        ({
            let path = path_of(f).take(depth);
            let end = at + filter_text(f, depth, place, style).len();
            match place {
                Place::Member => element(s, at, path, false) == (Walk::Done {
                    value: f,
                    at: end as int,
                }),
                Place::Value => read_as_value(s, at, path, f, end as int),
                Place::Element => element(s, at, path, true) == (Walk::Done {
                    value: f,
                    at: end as int,
                }),
            }
        }),
    decreases f, path_of(f).len() - depth, if place is Member { 1int } else { 2int },
{
    lemma_marks();
    let whole = path_of(f);
    let path = whole.take(depth);
    let text = filter_text(f, depth, place, style);
    let end = at + text.len();
    let on_array = place is Element;
    if depth < whole.len() {
        match whole[depth] {
            SegmentView::ObjectKey(name) => {
                if place is Member {
                    let head = name_text(name, style) + ":"@;
                    let tail = filter_text(f, depth + 1, Place::Value, style);
                    lemma_starts_at_parts(s, at, head, tail);
                    lemma_filter_text_start(f, depth + 1, Place::Value, style);
                    lemma_starts_at_char(s, at + head.len(), tail, 0);
                    lemma_filter_round_trip(s, at + head.len(), f, depth + 1, Place::Value, style);
                    assert(whole.take(depth + 1) =~= path.push(whole[depth]));
                    lemma_member(s, at, path, name, f, end, style);
                } else {
                    let inner = filter_text(f, depth, Place::Member, style);
                    assert(text =~= "{"@ + (inner + "}"@));
                    lemma_starts_at_parts(s, at, "{"@, inner + "}"@);
                    lemma_starts_at_parts(s, at + 1, inner, "}"@);
                    lemma_starts_at_char(s, at, "{"@, 0);
                    lemma_filter_text_start(f, depth, Place::Member, style);
                    lemma_starts_at_char(s, at + 1, inner, 0);
                    lemma_starts_at_char(s, end - 1, "}"@, 0);
                    lemma_filter_round_trip(s, at + 1, f, depth, Place::Member, style);
                    lemma_last_of_list(s, at + 1, path, false, f, end - 1);
                    lemma_braces(s, at, path, on_array, f, end - 1);
                }
            },
            _ => {
                let inner = filter_text(f, depth + 1, Place::Element, style);
                assert(text =~= "["@ + (inner + "]"@));
                lemma_starts_at_parts(s, at, "["@, inner + "]"@);
                lemma_starts_at_parts(s, at + 1, inner, "]"@);
                lemma_starts_at_char(s, at, "["@, 0);
                lemma_filter_text_start(f, depth + 1, Place::Element, style);
                lemma_starts_at_char(s, at + 1, inner, 0);
                lemma_starts_at_char(s, end - 1, "]"@, 0);
                lemma_filter_round_trip(s, at + 1, f, depth + 1, Place::Element, style);
                assert(whole.take(depth + 1) =~= path.push(SegmentView::Array));
                lemma_last_of_list(s, at + 1, path.push(SegmentView::Array), true, f, end - 1);
                lemma_brackets(s, at, path, on_array, f, end - 1);
            },
        }
    } else {
        assert(path =~= whole);
        match f {
            FilterView::Compare { operator, literal, path: _ } => {
                lemma_leaf_round_trip(s, at, path, operator, literal, style);
            },
            FilterView::And(left, right, _) => {
                lemma_filters_of_pair(s, at, f, depth, place, true, *left, *right, style);
            },
            FilterView::Or(left, right, _) => {
                lemma_filters_of_pair(s, at, f, depth, place, false, *left, *right, style);
            },
        }
    }
}

/// A pair that is written at `place` is read back.
proof fn lemma_filters_of_pair(
    s: Seq<char>,
    at: int,
    f: FilterView,
    depth: int,
    place: Place,
    both: bool,
    left: FilterView,
    right: FilterView,
    style: Style,
)
    requires
        f == pair(both, left, right, path_of(f)),
        path_of(f).len() == depth,
        extends(left, path_of(f)),
        writable(left, depth, inner_place(place)),
        extends(right, path_of(f)),
        writable(right, depth, inner_place(place)),
        ({
            let text = pair_text(
                filter_text(left, depth, inner_place(place), style),
                pair_operator(both),
                filter_text(right, depth, inner_place(place), style),
            );
            starts_at(s, at, text) && at + text.len() < s.len() && closes(s[at + text.len()])
        }),
    ensures
        ({
            let text = pair_text(
                filter_text(left, depth, inner_place(place), style),
                pair_operator(both),
                filter_text(right, depth, inner_place(place), style),
            );
            let end = at + text.len();
            let path = path_of(f);
            &&& nested(s, at, path, place is Element) == (Walk::Done {
                value: Some(f),
                at: end as int,
            })
            &&& element(s, at, path, place is Element) == (Walk::Done { value: f, at: end as int })
        }),
    decreases f, 0int, 0int,
{
    let path = path_of(f);
    lemma_marks();
    let inner = inner_place(place);
    let left_text = filter_text(left, depth, inner, style);
    let right_text = filter_text(right, depth, inner, style);
    let middle = at + 2 + left_text.len();
    let second = middle + 4;
    let last = second + right_text.len();
    lemma_pair_parts(s, at, left_text, pair_operator(both), right_text);
    lemma_filter_text_start(left, depth, inner, style);
    lemma_filter_text_start(right, depth, inner, style);
    lemma_starts_at_char(s, at + 2, left_text, 0);
    lemma_starts_at_char(s, second, right_text, 0);
    match f {
        FilterView::And(first, second, _) => {
            assert(decreases_to!(f => *first));
            assert(decreases_to!(f => *second));
        },
        FilterView::Or(first, second, _) => {
            assert(decreases_to!(f => *first));
            assert(decreases_to!(f => *second));
        },
        _ => {},
    }
    lemma_filter_round_trip(s, at + 2, left, depth, inner, style);
    lemma_filter_round_trip(s, second, right, depth, inner, style);
    lemma_pair_round_trip(s, at, path, place is Element, both, left, middle, right, last);
}

/// A filter on members that is written in braces behind `find` is read back, and the white
/// space behind it is skipped, where the query does not go on with another filter.
pub proof fn law_filter_round_trip(s: Seq<char>, at: int, f: FilterView, style: Style)
    requires
        writable(f, 0, Place::Member),
        after_token(s, at, "find"@) matches Some(start) && {
            let text = "{"@ + filter_text(f, 0, Place::Member, style) + "}"@;
            let end = skip_ws(s, start + text.len());
            &&& starts_at(s, start, text)
            &&& !starts_at(s, end, "&&"@)
            &&& !starts_at(s, end, "||"@)
        },
    ensures
        find(s, at, Seq::empty()) == (Walk::Done {
            value: f,
            at: skip_ws(
                s,
                after_token(s, at, "find"@).unwrap() + filter_text(
                    f,
                    0,
                    Place::Member,
                    style,
                ).len() + 2,
            ),
        }),
{
    lemma_marks();
    let start = after_token(s, at, "find"@).unwrap();
    let inner = filter_text(f, 0, Place::Member, style);
    let end = start + 1 + inner.len();
    let path: Path = Seq::empty();
    assert(path_of(f).take(0) =~= path);
    assert("{"@ + inner + "}"@ =~= "{"@ + (inner + "}"@));
    lemma_starts_at_parts(s, start, "{"@, inner + "}"@);
    lemma_starts_at_parts(s, start + 1, inner, "}"@);
    lemma_starts_at_char(s, end, "}"@, 0);
    lemma_filter_text_start(f, 0, Place::Member, style);
    lemma_starts_at_char(s, start + 1, inner, 0);
    lemma_no_white_space(s, start + 1);
    lemma_filter_round_trip(s, start + 1, f, 0, Place::Member, style);
    lemma_last_of_list(s, start + 1, path, false, f, end);
    assert(obool(s, start + 1, path) == (Walk::Done { value: f, at: end })) by {
        reveal(list);
    }
    lemma_after_token(s, end, "}"@);
}

/// A filter that can be written on a member can be written elsewhere.
proof fn lemma_writable_elsewhere(f: FilterView, depth: int, place: Place)
    requires
        writable(f, depth, Place::Member),
    ensures
        writable(f, depth, place),
    decreases f,
{
    if depth == path_of(f).len() {
        match f {
            FilterView::Compare { .. } => {},
            FilterView::And(left, right, _) => {
                lemma_writable_elsewhere(*left, depth, inner_place(place));
                lemma_writable_elsewhere(*right, depth, inner_place(place));
            },
            FilterView::Or(left, right, _) => {
                lemma_writable_elsewhere(*left, depth, inner_place(place));
                lemma_writable_elsewhere(*right, depth, inner_place(place));
            },
        }
    }
}

/// Whether a filter that was read on `path` looks there or beyond, and can be written at
/// `place`.
pub open spec fn reads_writable(filter: Walk<FilterView>, path: Path, place: Place) -> bool {
    filter matches Walk::Done { value, at } ==> extends(value, path) && writable(
        value,
        path.len() as int,
        place,
    )
}

/// Whether a nested filter that was read on `path` looks there or beyond, and can be
/// written at `place`.
pub open spec fn nested_writable(
    filter: Walk<Option<FilterView>>,
    path: Path,
    place: Place,
) -> bool {
    filter matches Walk::Done { value: Some(value), at } ==> extends(value, path) && writable(
        value,
        path.len() as int,
        place,
    )
}

/// A filter that looks beyond a path looks on it.
proof fn lemma_extends_shorter(f: FilterView, path: Path, step: SegmentView)
    requires
        extends(f, path.push(step)),
    ensures
        extends(f, path),
        path_of(f)[path.len() as int] == step,
{
    let longer = path.push(step);
    assert(longer[path.len() as int] == step);
    assert(path_of(f).take(longer.len() as int)[path.len() as int]
        == path_of(f)[path.len() as int]);
    assert(path_of(f).take(path.len() as int) =~= longer.take(path.len() as int));
    assert(longer.take(path.len() as int) =~= path);
}

/// A comparison that is read can be written behind a key or in an array.
proof fn lemma_compare_writable(s: Seq<char>, at: int, path: Path)
    requires
        0 <= at <= s.len(),
    ensures
        reads_writable(compare(s, at, path), path, Place::Value),
        reads_writable(compare(s, at, path), path, Place::Element),
{
    assert(path.take(path.len() as int) =~= path);
    lemma_operators();
    if starts_at(s, at, "~"@) {
        lemma_bare_integer(s, at + 1);
    }
}

/// Two filters that can be written on a path can be written as a pair.
proof fn lemma_pair_writable(left: FilterView, right: FilterView, path: Path, place: Place)
    requires
        extends(left, path),
        writable(left, path.len() as int, inner_place(place)),
        extends(right, path),
        writable(right, path.len() as int, inner_place(place)),
    ensures
        extends(FilterView::And(Box::new(left), Box::new(right), path), path),
        writable(
            FilterView::And(Box::new(left), Box::new(right), path),
            path.len() as int,
            place,
        ),
        extends(FilterView::Or(Box::new(left), Box::new(right), path), path),
        writable(
            FilterView::Or(Box::new(left), Box::new(right), path),
            path.len() as int,
            place,
        ),
{
    assert(path.take(path.len() as int) =~= path);
}

/// A filter on an object that is read can be written on a member.
proof fn lemma_object_writable(s: Seq<char>, at: int, path: Path)
    requires
        0 <= at <= s.len(),
    ensures
        reads_writable(object(s, at, path), path, Place::Member),
    decreases s.len() - at, 1int,
{
    lemma_marks();
    lemma_after_token(s, at, "{"@);
    if let Some(start) = after_token(s, at, "{"@) {
        lemma_obool(s, start, path);
        lemma_obool_writable(s, start, path);
        let filter = obool(s, start, path);
        lemma_closed(s, start, filter, "}"@, path);
        if let Walk::Done { value: left, at: end } = closed(s, start, filter, "}"@, path) {
            lemma_after_token(s, end, "&&"@);
            lemma_after_token(s, end, "||"@);
            let next = if let Some(next) = after_token(s, end, "&&"@) {
                Some(next)
            } else {
                after_token(s, end, "||"@)
            };
            if let Some(next) = next {
                lemma_object_writable(s, next, path);
                if let Walk::Done { value: right, .. } = object(s, next, path) {
                    lemma_pair_writable(left, right, path, Place::Member);
                }
            }
        }
    } else {
        lemma_parens_writable(s, at, path);
    }
}

/// A filter in parentheses that is read can be written on a member.
proof fn lemma_parens_writable(s: Seq<char>, at: int, path: Path)
    requires
        0 <= at <= s.len(),
    ensures
        reads_writable(parens(s, at, path), path, Place::Member),
    decreases s.len() - at, 0int,
{
    lemma_marks();
    lemma_expect(s, at, "("@);
    if let Step::Done { value: _, at: start } = expect(s, at, "("@) {
        lemma_object_writable(s, start, path);
    }
}

/// Filters on members that are read can be written on a member.
proof fn lemma_obool_writable(s: Seq<char>, at: int, path: Path)
    requires
        0 <= at <= s.len(),
    ensures
        reads_writable(obool(s, at, path), path, Place::Member),
    decreases s.len() - at, 4int,
{
    lemma_marks();
    lemma_ocompare(s, at, path);
    lemma_ocompare_writable(s, at, path);
    if let Walk::Done { value: left, at: end } = ocompare(s, at, path) {
        lemma_after_token(s, end, "&&"@);
        lemma_after_token(s, end, ","@);
        lemma_after_token(s, end, "||"@);
        let next = if let Some(next) = conjunction(s, end) {
            Some(next)
        } else {
            after_token(s, end, "||"@)
        };
        if let Some(next) = next {
            lemma_obool_writable(s, next, path);
            if let Walk::Done { value: right, .. } = obool(s, next, path) {
                lemma_pair_writable(left, right, path, Place::Member);
            }
        }
    }
}

/// A filter on a member that is read can be written there.
proof fn lemma_ocompare_writable(s: Seq<char>, at: int, path: Path)
    requires
        0 <= at <= s.len(),
    ensures
        reads_writable(ocompare(s, at, path), path, Place::Member),
    decreases s.len() - at, 3int,
{
    lemma_marks();
    lemma_oparens_writable(s, at, path);
    lemma_key(s, at);
    if let Step::Done { value: Some(name), at: colon } = key(s, at) {
        let step = SegmentView::ObjectKey(name);
        let inner = path.push(step);
        lemma_expect(s, colon, ":"@);
        if let Step::Done { value: _, at: start } = expect(s, colon, ":"@) {
            lemma_oparens(s, start, inner);
            lemma_oparens_writable(s, start, inner);
            lemma_compare_writable(s, start, inner);
            if let Walk::Done { value: Some(f), .. } = oparens(s, start, inner) {
                lemma_extends_shorter(f, path, step);
                lemma_writable_elsewhere(f, inner.len() as int, Place::Value);
            } else if let Walk::Done { value: f, .. } = compare(s, start, inner) {
                lemma_extends_shorter(f, path, step);
            }
        }
    }
}

/// A nested filter on an object that is read can be written on a member.
proof fn lemma_oparens_writable(s: Seq<char>, at: int, path: Path)
    requires
        0 <= at <= s.len(),
    ensures
        nested_writable(oparens(s, at, path), path, Place::Member),
    decreases s.len() - at, 2int,
{
    lemma_marks();
    lemma_after_token(s, at, "("@);
    if let Some(start) = after_token(s, at, "("@) {
        lemma_obool_writable(s, start, path);
    } else if starts_at(s, at, "["@) {
        lemma_array_writable(s, at, path);
    } else if starts_at(s, at, "{"@) {
        lemma_object_writable(s, at, path);
    }
}

/// Filters on elements that are read can be written on an element.
proof fn lemma_abool_writable(s: Seq<char>, at: int, path: Path)
    requires
        0 <= at <= s.len(),
    ensures
        reads_writable(abool(s, at, path), path, Place::Element),
    decreases s.len() - at, 4int,
{
    lemma_marks();
    lemma_acompare(s, at, path);
    lemma_aparens(s, at, path);
    lemma_aparens_writable(s, at, path);
    lemma_compare_writable(s, at, path);
    if let Walk::Done { value: left, at: end } = acompare(s, at, path) {
        lemma_after_token(s, end, "&&"@);
        lemma_after_token(s, end, ","@);
        lemma_after_token(s, end, "||"@);
        let next = if let Some(next) = conjunction(s, end) {
            Some(next)
        } else {
            after_token(s, end, "||"@)
        };
        if let Some(next) = next {
            lemma_abool_writable(s, next, path);
            if let Walk::Done { value: right, .. } = abool(s, next, path) {
                lemma_pair_writable(left, right, path, Place::Element);
            }
        }
    }
}

/// A nested filter on an array that is read can be written on an element.
proof fn lemma_aparens_writable(s: Seq<char>, at: int, path: Path)
    requires
        0 <= at <= s.len(),
    ensures
        nested_writable(aparens(s, at, path), path, Place::Element),
    decreases s.len() - at, 2int,
{
    lemma_marks();
    lemma_after_token(s, at, "("@);
    if let Some(start) = after_token(s, at, "("@) {
        lemma_abool_writable(s, start, path);
    } else if starts_at(s, at, "["@) {
        lemma_array_writable(s, at, path);
        if let Walk::Done { value: f, .. } = array(s, at, path) {
            lemma_writable_elsewhere(f, path.len() as int, Place::Element);
        }
    } else if starts_at(s, at, "{"@) {
        lemma_object_writable(s, at, path);
        if let Walk::Done { value: f, .. } = object(s, at, path) {
            lemma_writable_elsewhere(f, path.len() as int, Place::Element);
        }
    }
}

/// A filter on an array that is read can be written on a member.
proof fn lemma_array_writable(s: Seq<char>, at: int, path: Path)
    requires
        0 <= at <= s.len(),
    ensures
        reads_writable(array(s, at, path), path, Place::Member),
    decreases s.len() - at, 0int,
{
    lemma_marks();
    lemma_after_token(s, at, "["@);
    if let Some(start) = after_token(s, at, "["@) {
        let inner = path.push(SegmentView::Array);
        lemma_abool_writable(s, start, inner);
        if let Walk::Done { value: f, .. } = abool(s, start, inner) {
            lemma_extends_shorter(f, path, SegmentView::Array);
        }
    }
}

/// A filter that is read can be written: its paths lead through keys and arrays, each
/// comparison stands behind a key or in an array, and the filters of a pair look on the
/// path of the pair or beyond.
pub proof fn law_filter_writable(s: Seq<char>, at: int)
    requires
        0 <= at <= s.len(),
    ensures
        find(s, at, Seq::empty()) matches Walk::Done { value, at: end } ==> writable(
            value,
            0,
            Place::Member,
        ),
{
    lemma_after_token(s, at, "find"@);
    if let Some(start) = after_token(s, at, "find"@) {
        lemma_object_writable(s, start, Seq::empty());
    }
}

/// Filters on the members of an object, or on the elements of an array, are read as far as
/// they go: no operator follows them.
pub proof fn law_joined_to_the_end(s: Seq<char>, at: int, path: Path)
    requires
        0 <= at <= s.len(),
    ensures
        obool(s, at, path) matches Walk::Done { value, at: end } ==> conjunction(s, end) is None
            && after_token(s, end, "||"@) is None,
        abool(s, at, path) matches Walk::Done { value, at: end } ==> conjunction(s, end) is None
            && after_token(s, end, "||"@) is None,
    decreases s.len() - at,
{
    lemma_marks();
    lemma_ocompare(s, at, path);
    lemma_acompare(s, at, path);
    if let Walk::Done { value: left, at: end } = ocompare(s, at, path) {
        lemma_after_token(s, end, "&&"@);
        lemma_after_token(s, end, ","@);
        lemma_after_token(s, end, "||"@);
        if let Some(next) = conjunction(s, end) {
            law_joined_to_the_end(s, next, path);
        } else if let Some(next) = after_token(s, end, "||"@) {
            law_joined_to_the_end(s, next, path);
        }
    }
    if let Walk::Done { value: left, at: end } = acompare(s, at, path) {
        lemma_after_token(s, end, "&&"@);
        lemma_after_token(s, end, ","@);
        lemma_after_token(s, end, "||"@);
        if let Some(next) = conjunction(s, end) {
            law_joined_to_the_end(s, next, path);
        } else if let Some(next) = after_token(s, end, "||"@) {
            law_joined_to_the_end(s, next, path);
        }
    }
}

} // verus!
