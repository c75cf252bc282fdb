//! A filter is read as what was written, however it was written.

use vstd::prelude::*;
use crate::filters::{FilterView, Operator};
use crate::grammar::Step;
use crate::grammar::filters::{Walk, abool, acompare, aparens, array, both, closed, compare, either};
use crate::grammar::filters::{find, lemma_abool, lemma_acompare, lemma_object, lemma_obool};
use crate::grammar::filters::{lemma_ocompare, object, obool, ocompare, oparens, parens};
use crate::grammar::lexical::{after_token, key, lemma_after_token, lemma_marks};
use crate::key_builder::{Path, SegmentView};
use crate::laws::basic::{blank, law_integer_read, numeral, opens_name, spelling};
use crate::laws::lexical::{lemma_starts_at_char, lemma_starts_at_parts};
use crate::laws::pen::{Pen, begins, clean, lemma_begins, lemma_pen_key, lemma_pen_key_start};
use crate::laws::pen::{lemma_pen_literal, lemma_pen_token, lemma_token, pos, suffix};
use crate::laws::pen_json::lemma_token_first;
use crate::laws::pen_order::lemma_not_begins;
use crate::text::starts_at;

verus! {

/// What stands between two filters: `&&`, a comma, or `||`.
pub enum Sign {
    Ampersands,
    Comma,
    Bars,
}

/// What a filter is written as.
pub enum Sought {
    /// An operator and a literal.
    Test(Operator, Seq<char>),
    /// A key, a colon, and a filter behind it.
    Member(Seq<char>, Box<Sought>),
    /// A filter in parentheses.
    Group(Box<Sought>),
    /// A filter in brackets.
    List(Box<Sought>),
    /// A filter in braces.
    Braces(Box<Sought>),
    /// Two filters with a sign between them.
    Pair(Box<Sought>, Sign, Box<Sought>),
}

/// The filter that `n` is on `path`: a key leads into the member with that key, brackets
/// lead into the elements of an array, and parentheses and braces lead nowhere. `&&` and a
/// comma ask for both of the filters, `||` asks for one.
pub open spec fn meaning(n: Sought, path: Path) -> FilterView
    decreases n,
{
    match n {
        Sought::Test(operator, literal) => FilterView::Compare { operator, literal, path },
        Sought::Member(name, inner) => meaning(*inner, path.push(SegmentView::ObjectKey(name))),
        Sought::Group(inner) => meaning(*inner, path),
        Sought::List(inner) => meaning(*inner, path.push(SegmentView::Array)),
        Sought::Braces(inner) => meaning(*inner, path),
        Sought::Pair(left, sign, right) => match sign {
            Sign::Bars => FilterView::Or(
                Box::new(meaning(*left, path)),
                Box::new(meaning(*right, path)),
                path,
            ),
            _ => FilterView::And(
                Box::new(meaning(*left, path)),
                Box::new(meaning(*right, path)),
                path,
            ),
        },
    }
}

/// A sign as it is written.
pub open spec fn sign_text(sign: Sign) -> Seq<char> {
    match sign {
        Sign::Ampersands => "&&"@,
        Sign::Comma => ","@,
        Sign::Bars => "||"@,
    }
}

/// An operator as it is written, without white space in it.
pub open spec fn operator_by(operator: Operator, pen: Pen, rest: Seq<char>) -> Seq<char> {
    match operator {
        Operator::Exact => "=="@,
        Operator::Stemmed => "~="@,
        Operator::Distance(n) => "~"@ + (pen.digits)(n as int, rest) + "="@,
    }
}

/// `n` as it is written before `rest`.
pub open spec fn sought_by(n: Sought, pen: Pen, rest: Seq<char>) -> Seq<char>
    decreases n,
{
    match n {
        Sought::Test(operator, literal) => {
            let quoted = pen.literal(literal, rest);
            pen.token(operator_by(operator, pen, quoted), quoted)
        },
        Sought::Member(name, inner) => pen.key(
            name,
            pen.token(":"@, sought_by(*inner, pen, rest)),
        ),
        Sought::Group(inner) => pen.token("("@, sought_by(*inner, pen, pen.token(")"@, rest))),
        Sought::List(inner) => pen.token("["@, sought_by(*inner, pen, pen.token("]"@, rest))),
        Sought::Braces(inner) => pen.token("{"@, sought_by(*inner, pen, pen.token("}"@, rest))),
        Sought::Pair(left, sign, right) => sought_by(
            *left,
            pen,
            pen.token(sign_text(sign), sought_by(*right, pen, rest)),
        ),
    }
}

/// Whether `n` ends with a brace behind which `&&` or `||` joins another object.
pub open spec fn chains(n: Sought) -> bool
    decreases n,
{
    match n {
        Sought::Braces(_) => true,
        Sought::Pair(_, _, right) => chains(*right),
        Sought::Member(_, inner) => chains(*inner),
        _ => false,
    }
}

/// Whether `n` is a comparison. A distance is not negative.
pub open spec fn fits_test(n: Sought) -> bool {
    n matches Sought::Test(operator, literal) && (operator matches Operator::Distance(d) ==> 0 <= d)
}

/// Whether `n` is a filter on an object: one in braces, others joined behind it by `&&` or
/// `||`, or one in parentheses.
pub open spec fn fits_object(n: Sought) -> bool
    decreases n, 0int,
{
    match n {
        Sought::Braces(inner) => fits_list(*inner, false),
        Sought::Group(inner) => fits_object(*inner),
        Sought::Pair(left, sign, right) => {
            &&& !(sign is Comma)
            &&& *left is Braces
            &&& fits_object(*left)
            &&& fits_object(*right)
        },
        _ => false,
    }
}

/// Whether `n` is a nested filter, on an array or on an object: a list in parentheses or in
/// brackets, or a filter on an object.
pub open spec fn fits_nested(n: Sought, on_array: bool) -> bool
    decreases n, 1int,
{
    match n {
        Sought::Group(inner) => fits_list(*inner, on_array),
        Sought::List(inner) => fits_list(*inner, true),
        Sought::Braces(_) => fits_object(n),
        Sought::Pair(_, _, _) => fits_object(n),
        _ => false,
    }
}

/// Whether `n` is one filter on an element of an array, or on a member of an object. A
/// comparison stands behind a key or in an array.
pub open spec fn fits_one(n: Sought, on_array: bool) -> bool
    decreases n, 2int,
{
    ||| fits_nested(n, on_array)
    ||| (on_array && fits_test(n))
    ||| (!on_array && (n matches Sought::Member(name, inner) && (fits_nested(*inner, false)
        || fits_test(*inner))))
}

/// Whether `n` is a list of filters, joined to the right. Behind a brace only a comma joins
/// another one to it, since the other signs join objects there.
pub open spec fn fits_list(n: Sought, on_array: bool) -> bool
    decreases n, 3int,
{
    ||| fits_one(n, on_array)
    ||| (n matches Sought::Pair(left, sign, right) && fits_one(*left, on_array) && fits_list(
        *right,
        on_array,
    ) && (sign is Comma || !chains(*left)))
}

/// Whether no object is joined to what `rest` follows.
pub open spec fn object_stops(n: Sought, rest: Seq<char>) -> bool {
    clean(rest) && (chains(n) ==> !begins(rest, "&&"@) && !begins(rest, "||"@))
}

/// Whether a list of filters does not go on with `rest`.
pub open spec fn list_stops(rest: Seq<char>) -> bool {
    clean(rest) && !begins(rest, "&&"@) && !begins(rest, ","@) && !begins(rest, "||"@)
}

/// Reads a list of filters.
#[verifier::opaque]
spec fn list_at(s: Seq<char>, at: int, path: Path, on_array: bool) -> Walk<FilterView> {
    if on_array {
        abool(s, at, path)
    } else {
        obool(s, at, path)
    }
}

/// Reads one filter.
#[verifier::opaque]
spec fn one_at(s: Seq<char>, at: int, path: Path, on_array: bool) -> Walk<FilterView> {
    if on_array {
        acompare(s, at, path)
    } else {
        ocompare(s, at, path)
    }
}

/// Reads a nested filter.
#[verifier::opaque]
spec fn nested_at(s: Seq<char>, at: int, path: Path, on_array: bool) -> Walk<Option<FilterView>> {
    if on_array {
        aparens(s, at, path)
    } else {
        oparens(s, at, path)
    }
}

/// Reads a filter on an object.
#[verifier::opaque]
spec fn object_at(s: Seq<char>, at: int, path: Path) -> Walk<FilterView> {
    object(s, at, path)
}

/// The marks of filters, by their characters.
proof fn lemma_filter_marks()
    ensures
        "&&"@ == seq!['&', '&'],
        "||"@ == seq!['|', '|'],
        ","@ == seq![','],
        "=="@ == seq!['=', '='],
        "~="@ == seq!['~', '='],
        "~"@ == seq!['~'],
        "="@ == seq!['='],
        "("@ == seq!['('],
        ")"@ == seq![')'],
{
    reveal_strlit("&&");
    reveal_strlit("||");
    reveal_strlit(",");
    reveal_strlit("==");
    reveal_strlit("~=");
    reveal_strlit("~");
    reveal_strlit("=");
    reveal_strlit("(");
    reveal_strlit(")");
    assert("&&"@ =~= seq!['&', '&']);
    assert("||"@ =~= seq!['|', '|']);
    assert(","@ =~= seq![',']);
    assert("=="@ =~= seq!['=', '=']);
    assert("~="@ =~= seq!['~', '=']);
    assert("~"@ =~= seq!['~']);
    assert("="@ =~= seq!['=']);
    assert("("@ =~= seq!['(']);
    assert(")"@ =~= seq![')']);
}

/// The character with which `n` is written first.
spec fn opens_sought(n: Sought, c: char) -> bool
    decreases n,
{
    match n {
        Sought::Test(_, _) => c == '=' || c == '~',
        Sought::Member(_, _) => c == '"' || opens_name(c),
        Sought::Group(_) => c == '(',
        Sought::List(_) => c == '[',
        Sought::Braces(_) => c == '{',
        Sought::Pair(left, _, _) => opens_sought(*left, c),
    }
}

/// A filter is written with a character that starts one.
proof fn lemma_sought_by_start(n: Sought, pen: Pen, rest: Seq<char>)
    ensures
        sought_by(n, pen, rest).len() > 0,
        opens_sought(n, sought_by(n, pen, rest)[0]),
        clean(sought_by(n, pen, rest)),
    decreases n,
{
    lemma_filter_marks();
    lemma_marks();
    match n {
        Sought::Test(operator, literal) => {
            let quoted = pen.literal(literal, rest);
            let t = operator_by(operator, pen, quoted);
            assert(t.len() > 0 && (t[0] == '=' || t[0] == '~'));
            lemma_token_first(pen, t, quoted);
        },
        Sought::Member(name, inner) => {
            lemma_pen_key_start(pen, name, pen.token(":"@, sought_by(*inner, pen, rest)));
        },
        Sought::Pair(left, sign, right) => {
            let behind = pen.token(sign_text(sign), sought_by(*right, pen, rest));
            lemma_sought_by_start(*left, pen, behind);
            lemma_opens(*left, sought_by(n, pen, rest)[0]);
        },
        _ => {},
    }
    lemma_opens(n, sought_by(n, pen, rest)[0]);
}

/// What starts a filter is no white space.
proof fn lemma_opens(n: Sought, c: char)
    requires
        opens_sought(n, c),
    ensures
        !blank(c),
    decreases n,
{
    if let Sought::Pair(left, sign, right) = n {
        lemma_opens(*left, c);
    }
}

/// A comparison is read.
proof fn lemma_test_read(s: Seq<char>, n: Sought, path: Path, pen: Pen, rest: Seq<char>)
    requires
        pen.ok(),
        fits_test(n),
        clean(rest),
        suffix(s, sought_by(n, pen, rest)),
    ensures
        suffix(s, rest),
        compare(s, pos(s, sought_by(n, pen, rest)), path) == (Walk::Done {
            value: meaning(n, path),
            at: pos(s, rest),
        }),
{
    lemma_filter_marks();
    let operator = n->Test_0;
    let literal = n->Test_1;
    let quoted = pen.literal(literal, rest);
    assert(clean(quoted)) by {
        let t = seq!['"'] + spelling(literal, (pen.escapes)(rest)) + seq!['"'];
        assert(t[0] == '"');
    }
    let t = operator_by(operator, pen, quoted);
    let text = pen.token(t, quoted);
    let at = pos(s, text);
    lemma_token(s, t, (pen.gap)(quoted), quoted);
    lemma_pen_literal(s, pen, literal, rest);
    lemma_begins(s, text, "=="@);
    lemma_begins(s, text, "~="@);
    match operator {
        Operator::Exact => {},
        Operator::Stemmed => {},
        Operator::Distance(d) => {
            let digits = (pen.digits)(d as int, quoted);
            assert(t =~= "~"@ + (digits + "="@));
            lemma_starts_at_parts(s, at, "~"@, digits + "="@);
            lemma_starts_at_parts(s, at + 1, digits, "="@);
            assert(numeral(digits[0]));
            lemma_starts_at_char(s, at, t, 1);
            if starts_at(s, at, "~="@) {
                lemma_starts_at_char(s, at, "~="@, 1);
            }
            lemma_starts_at_char(s, at + 1 + digits.len(), "="@, 0);
            law_integer_read(s, at + 1, digits);
        },
    }
}

/// What becomes of a filter that is read in a list.
proof fn lemma_list_step(
    s: Seq<char>,
    at: int,
    path: Path,
    on_array: bool,
    left: FilterView,
    end: int,
)
    requires
        0 <= at <= s.len(),
        one_at(s, at, path, on_array) == (Walk::Done { value: left, at: end }),
    ensures
        at < end <= s.len(),
        after_token(s, end, "&&"@) matches Some(next) ==> list_at(s, at, path, on_array) == both(
            left,
            list_at(s, next, path, on_array),
            path,
        ),
        after_token(s, end, "&&"@) is None ==> (after_token(s, end, ","@) matches Some(next)
            ==> list_at(s, at, path, on_array) == both(
            left,
            list_at(s, next, path, on_array),
            path,
        )),
        after_token(s, end, "&&"@) is None && after_token(s, end, ","@) is None ==> (after_token(
            s,
            end,
            "||"@,
        ) matches Some(next) ==> list_at(s, at, path, on_array) == either(
            left,
            list_at(s, next, path, on_array),
            path,
        )),
        after_token(s, end, "&&"@) is None && after_token(s, end, ","@) is None && after_token(
            s,
            end,
            "||"@,
        ) is None ==> list_at(s, at, path, on_array) == (Walk::Done { value: left, at: end }),
{
    reveal(list_at);
    reveal(one_at);
    if on_array {
        lemma_acompare(s, at, path);
    } else {
        lemma_ocompare(s, at, path);
    }
}

/// The sign behind a filter in a list is read.
proof fn lemma_sign_read(s: Seq<char>, sign: Sign, pen: Pen, rest: Seq<char>)
    requires
        pen.ok(),
        clean(rest),
        suffix(s, pen.token(sign_text(sign), rest)),
    ensures
        suffix(s, rest),
        clean(pen.token(sign_text(sign), rest)),
        ({
            let at = pos(s, pen.token(sign_text(sign), rest));
            &&& after_token(s, at, "&&"@) == (if sign is Ampersands {
                Some(pos(s, rest))
            } else {
                None
            })
            &&& after_token(s, at, ","@) == (if sign is Comma {
                Some(pos(s, rest))
            } else {
                None
            })
            &&& after_token(s, at, "||"@) == (if sign is Bars {
                Some(pos(s, rest))
            } else {
                None
            })
        }),
        sign is Comma ==> !begins(pen.token(sign_text(sign), rest), "&&"@) && !begins(
            pen.token(sign_text(sign), rest),
            "||"@,
        ),
{
    lemma_filter_marks();
    let text = pen.token(sign_text(sign), rest);
    lemma_pen_token(s, pen, sign_text(sign), rest);
    lemma_begins(s, text, "&&"@);
    lemma_begins(s, text, "||"@);
    lemma_begins(s, text, ","@);
}

/// No sign is read where none is written.
proof fn lemma_no_sign(s: Seq<char>, rest: Seq<char>)
    requires
        suffix(s, rest),
        list_stops(rest),
    ensures
        after_token(s, pos(s, rest), "&&"@) is None,
        after_token(s, pos(s, rest), ","@) is None,
        after_token(s, pos(s, rest), "||"@) is None,
{
    lemma_begins(s, rest, "&&"@);
    lemma_begins(s, rest, "||"@);
    lemma_begins(s, rest, ","@);
}

/// A list in parentheses is a nested filter.
proof fn lemma_group_step(
    s: Seq<char>,
    at: int,
    path: Path,
    on_array: bool,
    start: int,
    f: FilterView,
    end: int,
    next: int,
)
    requires
        0 <= start <= s.len(),
        after_token(s, at, "("@) == Some(start),
        list_at(s, start, path, on_array) == (Walk::Done { value: f, at: end }),
        after_token(s, end, ")"@) == Some(next),
    ensures
        nested_at(s, at, path, on_array) == (Walk::Done { value: Some(f), at: next }),
{
    reveal(list_at);
    reveal(nested_at);
    lemma_obool(s, start, path);
    lemma_abool(s, start, path);
}

/// A list in brackets is a nested filter on the elements of an array.
proof fn lemma_brackets_step(
    s: Seq<char>,
    at: int,
    path: Path,
    on_array: bool,
    start: int,
    f: FilterView,
    end: int,
    next: int,
)
    requires
        0 <= start <= s.len(),
        after_token(s, at, "("@) is None,
        after_token(s, at, "["@) == Some(start),
        list_at(s, start, path.push(SegmentView::Array), true) == (Walk::Done {
            value: f,
            at: end,
        }),
        after_token(s, end, "]"@) == Some(next),
    ensures
        nested_at(s, at, path, on_array) == (Walk::Done { value: Some(f), at: next }),
{
    reveal(list_at);
    let inner = path.push(SegmentView::Array);
    lemma_abool(s, start, inner);
    assert(closed(s, start, abool(s, start, inner), "]"@, path) == (Walk::Done {
        value: f,
        at: next,
    }));
    assert(array(s, at, path) == (Walk::Done { value: f, at: next }));
    reveal(nested_at);
}

/// A filter on an object is a nested filter.
proof fn lemma_object_step(
    s: Seq<char>,
    at: int,
    path: Path,
    on_array: bool,
    f: FilterView,
    end: int,
)
    requires
        after_token(s, at, "("@) is None,
        !starts_at(s, at, "["@),
        starts_at(s, at, "{"@),
        object_at(s, at, path) == (Walk::Done { value: f, at: end }),
    ensures
        nested_at(s, at, path, on_array) == (Walk::Done { value: Some(f), at: end }),
{
    reveal(object_at);
    let found = object(s, at, path);
    reveal(nested_at);
}

/// Where nothing opens, there is no nested filter.
proof fn lemma_none_step(s: Seq<char>, at: int, path: Path, on_array: bool)
    requires
        after_token(s, at, "("@) is None,
        !starts_at(s, at, "["@),
        !starts_at(s, at, "{"@),
    ensures
        nested_at(s, at, path, on_array) == (Walk::Done { value: None::<FilterView>, at }),
{
    reveal(nested_at);
}

/// A nested filter is one filter, and so is a comparison in an array.
proof fn lemma_one_step(s: Seq<char>, at: int, path: Path, on_array: bool)
    ensures
        nested_at(s, at, path, on_array) matches Walk::Done { value: Some(f), at: end } ==> one_at(
            s,
            at,
            path,
            on_array,
        ) == (Walk::Done { value: f, at: end }),
        nested_at(s, at, path, true) == (Walk::Done { value: None::<FilterView>, at }) ==> one_at(
            s,
            at,
            path,
            true,
        ) == compare(s, at, path),
{
    reveal(nested_at);
    reveal(one_at);
}

/// A filter behind a key is one on the member with that key.
proof fn lemma_member_step(
    s: Seq<char>,
    at: int,
    path: Path,
    name: Seq<char>,
    colon: int,
    start: int,
)
    requires
        nested_at(s, at, path, false) == (Walk::Done { value: None::<FilterView>, at }),
        key(s, at) == (Step::Done { value: Some(name), at: colon }),
        after_token(s, colon, ":"@) == Some(start),
    ensures
        ({
            let inner = path.push(SegmentView::ObjectKey(name));
            &&& nested_at(s, start, inner, false) matches Walk::Done { value: Some(f), at: end }
                ==> one_at(s, at, path, false) == (Walk::Done { value: f, at: end })
            &&& nested_at(s, start, inner, false) == (Walk::Done {
                value: None::<FilterView>,
                at: start,
            }) ==> one_at(s, at, path, false) == compare(s, start, inner)
        }),
{
    reveal(nested_at);
    reveal(one_at);
}

/// A list in braces is a filter on an object, and `&&` and `||` join another one to it.
proof fn lemma_braces_step(
    s: Seq<char>,
    at: int,
    path: Path,
    start: int,
    f: FilterView,
    end: int,
    next: int,
)
    requires
        0 <= start <= s.len(),
        after_token(s, at, "{"@) == Some(start),
        list_at(s, start, path, false) == (Walk::Done { value: f, at: end }),
        after_token(s, end, "}"@) == Some(next),
    ensures
        after_token(s, next, "&&"@) matches Some(other) ==> object_at(s, at, path) == both(
            f,
            object_at(s, other, path),
            path,
        ),
        after_token(s, next, "&&"@) is None ==> (after_token(s, next, "||"@) matches Some(other)
            ==> object_at(s, at, path) == either(f, object_at(s, other, path), path)),
        after_token(s, next, "&&"@) is None && after_token(s, next, "||"@) is None ==> object_at(
            s,
            at,
            path,
        ) == (Walk::Done { value: f, at: next }),
{
    reveal(list_at);
    lemma_obool(s, start, path);
    lemma_after_token(s, end, "}"@);
    assert(closed(s, start, obool(s, start, path), "}"@, path) == (Walk::Done {
        value: f,
        at: next,
    }));
    reveal(object_at);
}

/// A filter on an object in parentheses is one.
proof fn lemma_parens_step(
    s: Seq<char>,
    at: int,
    path: Path,
    start: int,
    f: FilterView,
    end: int,
    next: int,
)
    requires
        0 <= start <= s.len(),
        after_token(s, at, "{"@) is None,
        after_token(s, at, "("@) == Some(start),
        object_at(s, start, path) == (Walk::Done { value: f, at: end }),
        after_token(s, end, ")"@) == Some(next),
    ensures
        object_at(s, at, path) == (Walk::Done { value: f, at: next }),
{
    reveal(object_at);
    lemma_object(s, start, path);
    assert(closed(s, start, object(s, start, path), ")"@, path) == (Walk::Done {
        value: f,
        at: next,
    }));
    assert(parens(s, at, path) == (Walk::Done { value: f, at: next }));
}

/// What stands where a filter starts.
proof fn lemma_sought_marks(s: Seq<char>, n: Sought, pen: Pen, rest: Seq<char>)
    requires
        suffix(s, sought_by(n, pen, rest)),
    ensures
        ({
            let at = pos(s, sought_by(n, pen, rest));
            &&& 0 <= at < s.len()
            &&& clean(sought_by(n, pen, rest))
            &&& !(n is Group) && !(n is Pair) ==> after_token(s, at, "("@) is None
            &&& !(n is List) && !(n is Pair) ==> !starts_at(s, at, "["@)
            &&& !(n is Braces) && !(n is Pair) ==> !starts_at(s, at, "{"@) && after_token(
                s,
                at,
                "{"@,
            ) is None
            &&& n matches Sought::Pair(left, _, _) ==> (*left is Braces ==> after_token(
                s,
                at,
                "("@,
            ) is None && !starts_at(s, at, "["@) && starts_at(s, at, "{"@))
            &&& n is Braces ==> starts_at(s, at, "{"@)
        }),
{
    lemma_filter_marks();
    lemma_marks();
    let text = sought_by(n, pen, rest);
    lemma_sought_by_start(n, pen, rest);
    if let Sought::Pair(left, sign, right) = n {
        reveal_with_fuel(opens_sought, 2);
        assert(*left is Braces ==> text[0] == '{');
    }
    lemma_begins(s, text, "("@);
    lemma_begins(s, text, "["@);
    lemma_begins(s, text, "{"@);
    if text[0] == '{' {
        assert(text.take(1) =~= seq!['{']);
    }
}

/// A filter on an object is read.
proof fn lemma_object_read(s: Seq<char>, n: Sought, path: Path, pen: Pen, rest: Seq<char>)
    requires
        pen.ok(),
        fits_object(n),
        object_stops(n, rest),
        suffix(s, sought_by(n, pen, rest)),
    ensures
        suffix(s, rest),
        object_at(s, pos(s, sought_by(n, pen, rest)), path) == (Walk::Done {
            value: meaning(n, path),
            at: pos(s, rest),
        }),
    decreases n, 0int,
{
    lemma_filter_marks();
    lemma_marks();
    lemma_sought_marks(s, n, pen, rest);
    let at = pos(s, sought_by(n, pen, rest));
    match n {
        Sought::Braces(inner) => {
            lemma_braces_read(s, *inner, path, pen, rest);
            assert(chains(n));
            lemma_begins(s, rest, "&&"@);
            lemma_begins(s, rest, "||"@);
            assert(after_token(s, pos(s, rest), "&&"@) is None);
            assert(after_token(s, pos(s, rest), "||"@) is None);
            assert(meaning(n, path) == meaning(*inner, path));
            assert(n == Sought::Braces(Box::new(*inner)));
        },
        Sought::Group(inner) => {
            let close = pen.token(")"@, rest);
            let text = sought_by(*inner, pen, close);
            lemma_token_first(pen, ")"@, rest);
            lemma_closing(close);
            lemma_sought_by_start(*inner, pen, close);
            lemma_pen_token(s, pen, "("@, text);
            lemma_object_read(s, *inner, path, pen, close);
            lemma_pen_token(s, pen, ")"@, rest);
            lemma_parens_step(
                s,
                at,
                path,
                pos(s, text),
                meaning(*inner, path),
                pos(s, close),
                pos(s, rest),
            );
        },
        Sought::Pair(left, sign, right) => {
            let more = sought_by(*right, pen, rest);
            let behind = pen.token(sign_text(sign), more);
            lemma_sought_by_start(*right, pen, rest);
            lemma_token_first(pen, sign_text(sign), more);
            let inner = left->Braces_0;
            assert(*left == Sought::Braces(Box::new(*inner)));
            reveal_with_fuel(fits_object, 2);
            reveal_with_fuel(fits_list, 2);
            reveal_with_fuel(meaning, 2);
            lemma_braces_read(s, *inner, path, pen, behind);
            lemma_sign_read(s, sign, pen, more);
            lemma_object_read(s, *right, path, pen, rest);
        },
        _ => {},
    }
}

/// A list in braces is read, up to what stands behind the brace.
proof fn lemma_braces_read(s: Seq<char>, inner: Sought, path: Path, pen: Pen, rest: Seq<char>)
    requires
        pen.ok(),
        fits_list(inner, false),
        clean(rest),
        suffix(s, sought_by(Sought::Braces(Box::new(inner)), pen, rest)),
    ensures
        suffix(s, rest),
        ({
            let at = pos(s, sought_by(Sought::Braces(Box::new(inner)), pen, rest));
            let next = pos(s, rest);
            let f = meaning(inner, path);
            &&& after_token(s, next, "&&"@) matches Some(other) ==> object_at(s, at, path)
                == both(f, object_at(s, other, path), path)
            &&& after_token(s, next, "&&"@) is None ==> (after_token(s, next, "||"@) matches Some(
                other,
            ) ==> object_at(s, at, path) == either(f, object_at(s, other, path), path))
            &&& after_token(s, next, "&&"@) is None && after_token(s, next, "||"@) is None
                ==> object_at(s, at, path) == (Walk::Done { value: f, at: next })
        }),
    decreases inner, 5int,
{
    lemma_marks();
    let n = Sought::Braces(Box::new(inner));
    let at = pos(s, sought_by(n, pen, rest));
    let close = pen.token("}"@, rest);
    let text = sought_by(inner, pen, close);
    lemma_token_first(pen, "}"@, rest);
    lemma_closing(close);
    lemma_sought_by_start(inner, pen, close);
    lemma_pen_token(s, pen, "{"@, text);
    lemma_list_read(s, inner, path, false, pen, close);
    lemma_pen_token(s, pen, "}"@, rest);
    lemma_braces_step(
        s,
        at,
        path,
        pos(s, text),
        meaning(inner, path),
        pos(s, close),
        pos(s, rest),
    );
}

/// A nested filter is read.
proof fn lemma_nested_read(
    s: Seq<char>,
    n: Sought,
    path: Path,
    on_array: bool,
    pen: Pen,
    rest: Seq<char>,
)
    requires
        pen.ok(),
        fits_nested(n, on_array),
        object_stops(n, rest),
        suffix(s, sought_by(n, pen, rest)),
    ensures
        suffix(s, rest),
        nested_at(s, pos(s, sought_by(n, pen, rest)), path, on_array) == (Walk::Done {
            value: Some(meaning(n, path)),
            at: pos(s, rest),
        }),
    decreases n, 1int,
{
    lemma_filter_marks();
    lemma_marks();
    lemma_sought_marks(s, n, pen, rest);
    let at = pos(s, sought_by(n, pen, rest));
    match n {
        Sought::Group(inner) => {
            let close = pen.token(")"@, rest);
            let text = sought_by(*inner, pen, close);
            lemma_token_first(pen, ")"@, rest);
            lemma_closing(close);
            lemma_sought_by_start(*inner, pen, close);
            lemma_pen_token(s, pen, "("@, text);
            lemma_list_read(s, *inner, path, on_array, pen, close);
            lemma_pen_token(s, pen, ")"@, rest);
            lemma_group_step(
                s,
                at,
                path,
                on_array,
                pos(s, text),
                meaning(*inner, path),
                pos(s, close),
                pos(s, rest),
            );
        },
        Sought::List(inner) => {
            let close = pen.token("]"@, rest);
            let text = sought_by(*inner, pen, close);
            let deeper = path.push(SegmentView::Array);
            lemma_token_first(pen, "]"@, rest);
            lemma_closing(close);
            lemma_sought_by_start(*inner, pen, close);
            lemma_pen_token(s, pen, "["@, text);
            lemma_list_read(s, *inner, deeper, true, pen, close);
            lemma_pen_token(s, pen, "]"@, rest);
            lemma_brackets_step(
                s,
                at,
                path,
                on_array,
                pos(s, text),
                meaning(*inner, deeper),
                pos(s, close),
                pos(s, rest),
            );
        },
        _ => {
            lemma_object_read(s, n, path, pen, rest);
            lemma_object_step(s, at, path, on_array, meaning(n, path), pos(s, rest));
        },
    }
}

/// One filter is read.
proof fn lemma_one_read(
    s: Seq<char>,
    n: Sought,
    path: Path,
    on_array: bool,
    pen: Pen,
    rest: Seq<char>,
)
    requires
        pen.ok(),
        fits_one(n, on_array),
        object_stops(n, rest),
        suffix(s, sought_by(n, pen, rest)),
    ensures
        suffix(s, rest),
        one_at(s, pos(s, sought_by(n, pen, rest)), path, on_array) == (Walk::Done {
            value: meaning(n, path),
            at: pos(s, rest),
        }),
    decreases n, 2int,
{
    lemma_sought_marks(s, n, pen, rest);
    let at = pos(s, sought_by(n, pen, rest));
    lemma_one_step(s, at, path, on_array);
    if fits_nested(n, on_array) {
        lemma_nested_read(s, n, path, on_array, pen, rest);
    } else if on_array {
        lemma_none_step(s, at, path, on_array);
        lemma_test_read(s, n, path, pen, rest);
    } else {
        lemma_marks();
        lemma_none_step(s, at, path, on_array);
        let name = n->Member_0;
        let inner = *n->Member_1;
        let deeper = path.push(SegmentView::ObjectKey(name));
        let text = sought_by(inner, pen, rest);
        let colon = pen.token(":"@, text);
        lemma_token_first(pen, ":"@, text);
        lemma_sought_by_start(inner, pen, rest);
        lemma_pen_key(s, pen, name, colon);
        lemma_pen_token(s, pen, ":"@, text);
        lemma_member_step(s, at, path, name, pos(s, colon), pos(s, text));
        if fits_nested(inner, false) {
            lemma_nested_read(s, inner, deeper, false, pen, rest);
        } else {
            lemma_sought_marks(s, inner, pen, rest);
            lemma_none_step(s, pos(s, text), deeper, false);
            lemma_test_read(s, inner, deeper, pen, rest);
        }
    }
}

/// A list of filters is read.
proof fn lemma_list_read(
    s: Seq<char>,
    n: Sought,
    path: Path,
    on_array: bool,
    pen: Pen,
    rest: Seq<char>,
)
    requires
        pen.ok(),
        fits_list(n, on_array),
        list_stops(rest),
        suffix(s, sought_by(n, pen, rest)),
    ensures
        suffix(s, rest),
        list_at(s, pos(s, sought_by(n, pen, rest)), path, on_array) == (Walk::Done {
            value: meaning(n, path),
            at: pos(s, rest),
        }),
    decreases n, 3int,
{
    let at = pos(s, sought_by(n, pen, rest));
    lemma_sought_marks(s, n, pen, rest);
    if fits_one(n, on_array) {
        lemma_one_read(s, n, path, on_array, pen, rest);
        lemma_no_sign(s, rest);
        lemma_list_step(s, at, path, on_array, meaning(n, path), pos(s, rest));
    } else {
        let left = *n->Pair_0;
        let sign = n->Pair_1;
        let right = *n->Pair_2;
        let more = sought_by(right, pen, rest);
        let behind = pen.token(sign_text(sign), more);
        lemma_sought_by_start(right, pen, rest);
        lemma_sign_start(sign, pen, more);
        lemma_one_read(s, left, path, on_array, pen, behind);
        lemma_sign_read(s, sign, pen, more);
        lemma_list_step(s, at, path, on_array, meaning(left, path), pos(s, behind));
        lemma_list_read(s, right, path, on_array, pen, rest);
    }
}

/// Nothing is joined by something that closes.
proof fn lemma_closing(rest: Seq<char>)
    requires
        rest.len() > 0,
        rest[0] == ')' || rest[0] == ']' || rest[0] == '}',
    ensures
        list_stops(rest),
{
    lemma_filter_marks();
    if begins(rest, "&&"@) {
        assert(rest.take(2)[0] == rest[0]);
    }
    if begins(rest, "||"@) {
        assert(rest.take(2)[0] == rest[0]);
    }
    if begins(rest, ","@) {
        assert(rest.take(1)[0] == rest[0]);
    }
}

/// A sign starts with no white space, and a comma joins no objects.
proof fn lemma_sign_start(sign: Sign, pen: Pen, rest: Seq<char>)
    ensures
        clean(pen.token(sign_text(sign), rest)),
        sign is Comma ==> !begins(pen.token(sign_text(sign), rest), "&&"@) && !begins(
            pen.token(sign_text(sign), rest),
            "||"@,
        ),
{
    lemma_filter_marks();
    lemma_token_first(pen, sign_text(sign), rest);
    if sign is Comma {
        lemma_not_begins(pen, ","@, rest, "&&"@);
        lemma_not_begins(pen, ","@, rest, "||"@);
    }
}

/// Every filter behind the word `find` is read as what it is, with any white space between
/// its tokens, and its filters are joined to the right.
pub proof fn law_find_read(s: Seq<char>, n: Sought, path: Path, pen: Pen, rest: Seq<char>)
    requires
        pen.ok(),
        fits_object(n),
        object_stops(n, rest),
        suffix(s, pen.token("find"@, sought_by(n, pen, rest))),
    ensures
        suffix(s, rest),
        find(s, pos(s, pen.token("find"@, sought_by(n, pen, rest))), path) == (Walk::Done {
            value: meaning(n, path),
            at: pos(s, rest),
        }),
{
    lemma_sought_by_start(n, pen, rest);
    lemma_pen_token(s, pen, "find"@, sought_by(n, pen, rest));
    lemma_object_read(s, n, path, pen, rest);
    reveal(object_at);
}

/// Every part of a filter is read as what it is by the rule for it: a filter on an object, a
/// list of filters on the members of an object, one of them, and a nested one.
pub proof fn law_member_parts_read(s: Seq<char>, n: Sought, path: Path, pen: Pen, rest: Seq<char>)
    requires
        pen.ok(),
        object_stops(n, rest),
        suffix(s, sought_by(n, pen, rest)),
    ensures
        ({
            let at = pos(s, sought_by(n, pen, rest));
            let filter = Walk::Done { value: meaning(n, path), at: pos(s, rest) };
            &&& fits_object(n) ==> object(s, at, path) == filter
            &&& fits_object(n) && n is Group ==> parens(s, at, path) == filter
            &&& fits_nested(n, false) ==> oparens(s, at, path) == (Walk::Done {
                value: Some(meaning(n, path)),
                at: pos(s, rest),
            })
            &&& fits_one(n, false) ==> ocompare(s, at, path) == filter
            &&& fits_list(n, false) && list_stops(rest) ==> obool(s, at, path) == filter
        }),
{
    if fits_object(n) {
        lemma_sought_marks(s, n, pen, rest);
        lemma_object_read(s, n, path, pen, rest);
        reveal(object_at);
    }
    if fits_nested(n, false) {
        lemma_nested_read(s, n, path, false, pen, rest);
        reveal(nested_at);
    }
    if fits_one(n, false) {
        lemma_one_read(s, n, path, false, pen, rest);
        reveal(one_at);
    }
    if fits_list(n, false) && list_stops(rest) {
        lemma_list_read(s, n, path, false, pen, rest);
        reveal(list_at);
    }
}

/// Every part of a filter on an array is read as what it is by the rule for it: a list of
/// filters on its elements, one of them, a nested one, and a comparison.
pub proof fn law_element_parts_read(s: Seq<char>, n: Sought, path: Path, pen: Pen, rest: Seq<char>)
    requires
        pen.ok(),
        object_stops(n, rest),
        suffix(s, sought_by(n, pen, rest)),
    ensures
        ({
            let at = pos(s, sought_by(n, pen, rest));
            let filter = Walk::Done { value: meaning(n, path), at: pos(s, rest) };
            &&& fits_test(n) ==> compare(s, at, path) == filter
            &&& fits_nested(n, true) && n is List ==> array(s, at, path) == filter
            &&& fits_nested(n, true) ==> aparens(s, at, path) == (Walk::Done {
                value: Some(meaning(n, path)),
                at: pos(s, rest),
            })
            &&& fits_one(n, true) ==> acompare(s, at, path) == filter
            &&& fits_list(n, true) && list_stops(rest) ==> abool(s, at, path) == filter
        }),
{
    if fits_test(n) {
        lemma_test_read(s, n, path, pen, rest);
    }
    if fits_nested(n, true) {
        lemma_sought_marks(s, n, pen, rest);
        lemma_nested_read(s, n, path, true, pen, rest);
        reveal(nested_at);
        if n is List {
            lemma_marks();
            let inner = sought_by(*n->List_0, pen, pen.token("]"@, rest));
            lemma_sought_by_start(*n->List_0, pen, pen.token("]"@, rest));
            lemma_pen_token(s, pen, "["@, inner);
        }
    }
    if fits_one(n, true) {
        lemma_one_read(s, n, path, true, pen, rest);
        reveal(one_at);
    }
    if fits_list(n, true) && list_stops(rest) {
        lemma_list_read(s, n, path, true, pen, rest);
        reveal(list_at);
    }
}

/// A text without the word `find` holds no filter, and nothing of it is passed.
pub proof fn law_find_missing(s: Seq<char>, path: Path, rest: Seq<char>)
    requires
        suffix(s, rest),
        !begins(rest, "find"@),
    ensures
        find(s, pos(s, rest), path) == (Walk::<FilterView>::Fail {
            message: "Missing 'find' keyword"@,
            at: pos(s, rest),
            path,
        }),
{
    lemma_begins(s, rest, "find"@);
}

} // verus!
