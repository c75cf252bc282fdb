//! What makes no difference to a filter: the white space between its tokens, and which of
//! the two signs stands between filters of which both are asked for.

use vstd::prelude::*;
use crate::filters::{FilterView, Operator};
use crate::grammar::Step;
use crate::grammar::filters::{Walk, abool, acompare, aparens, array, both, closed, compare};
use crate::grammar::filters::{compare_literal, conjunction, either, find, lemma_abool};
use crate::grammar::filters::{lemma_acompare, lemma_aparens, lemma_array, lemma_closed};
use crate::grammar::filters::{lemma_compare, lemma_object, lemma_obool, lemma_ocompare};
use crate::grammar::filters::{lemma_oparens, lemma_parens, object, obool, ocompare, oparens};
use crate::grammar::filters::{parens, present};
use crate::grammar::lexical::{Body, after_token, bare_integer, escaped, expect, integer_overflow};
use crate::grammar::lexical::{key, lemma_after_token, lemma_expect, lemma_key, lemma_marks};
use crate::grammar::lexical::{lemma_quote_token, lemma_skip_ws, lemma_string_literal, literal_body};
use crate::grammar::lexical::{name_part, string_literal};
use crate::key_builder::{Path, SegmentView};
use crate::laws::filters::lemma_operators;
use crate::laws::lexical::{is_name, law_field_round_trip, law_white_space_skipped, lemma_one_mark};
use crate::laws::lexical::{lemma_other_token, lemma_starts_at_char};
use crate::text::{decimal_value, digit, lemma_run_end_unique, skip_ws, starts_at, white_space};

verus! {

/// The marks of filters.
pub open spec fn is_mark(t: Seq<char>) -> bool {
    ||| t == "{"@
    ||| t == "}"@
    ||| t == "("@
    ||| t == ")"@
    ||| t == "["@
    ||| t == "]"@
    ||| t == ":"@
    ||| t == ","@
    ||| t == "&&"@
    ||| t == "||"@
}

/// Whether `t` is an operator that gives a distance: a tilde, digits and an equals sign.
pub open spec fn is_distance(t: Seq<char>) -> bool {
    &&& t.len() > 2
    &&& t[0] == '~'
    &&& t.last() == '='
    &&& forall|i: int| 0 < i < t.len() - 1 ==> digit(#[trigger] t[i])
}

/// Whether `t` is the operator of a comparison.
pub open spec fn is_operator(t: Seq<char>) -> bool {
    t == "=="@ || t == "~="@ || is_distance(t)
}

/// The text of the string literal `t`, if it is one from its first character to its last.
pub open spec fn literal_text(t: Seq<char>) -> Option<Seq<char>> {
    match literal_body(t, 1, Seq::empty()) {
        Body::End { text, at } => if t.len() > 0 && t[0] == '"' && at == t.len() - 1 && t[at]
            == '"' {
            Some(text)
        } else {
            None
        },
        Body::Bad { .. } => None,
    }
}

/// Whether `t` is a token of a filter: a mark, an operator, a name or a string literal.
pub open spec fn is_token(t: Seq<char>) -> bool {
    is_mark(t) || is_operator(t) || is_name(t) || literal_text(t) is Some
}

/// A text in which tokens stand from a position on, with any white space between them.
pub struct Written {
    pub s: Seq<char>,
    pub at: int,
    pub tokens: Seq<Seq<char>>,
}

impl Written {
    /// Where the token `k` stands, and behind the last one where the text goes on.
    pub open spec fn place(self, k: int) -> int
        decreases k,
    {
        if k <= 0 {
            self.at
        } else {
            skip_ws(self.s, self.place(k - 1) + self.tokens[k - 1].len())
        }
    }

    /// Where the text goes on behind the tokens.
    pub open spec fn end(self) -> int {
        self.place(self.tokens.len() as int)
    }

    /// Whether the tokens stand in the text. No two names stand side by side, and none is
    /// the last: behind a name of a filter comes a colon.
    #[verifier::opaque]
    pub open spec fn ok(self) -> bool {
        &&& 0 <= self.at <= self.s.len()
        &&& forall|k: int| 0 <= k < self.tokens.len() ==> is_token(#[trigger] self.tokens[k])
        &&& forall|k: int|
            0 <= k < self.tokens.len() ==> starts_at(
                self.s,
                self.place(k),
                #[trigger] self.tokens[k],
            )
        &&& forall|k: int|
            0 <= k < self.tokens.len() && is_name(#[trigger] self.tokens[k]) ==> k + 1
                < self.tokens.len() && !is_name(self.tokens[k + 1])
    }

    /// The text behind the tokens.
    pub open spec fn rest(self) -> Seq<char> {
        self.s.skip(self.end())
    }
}

/// Whether `t` asks for both of the filters around it.
pub open spec fn joins_both(t: Seq<char>) -> bool {
    t == "&&"@ || t == ","@
}

/// The other marks do not.
proof fn lemma_other_marks()
    ensures
        !joins_both("{"@),
        !joins_both("}"@),
        !joins_both("("@),
        !joins_both(")"@),
        !joins_both("["@),
        !joins_both("]"@),
        !joins_both(":"@),
        !joins_both("||"@),
{
    lemma_marks();
    assert("&&"@[0] == '&' && ","@[0] == ',');
    assert("{"@[0] == '{' && "}"@[0] == '}' && "("@[0] == '(' && ")"@[0] == ')');
    assert("["@[0] == '[' && "]"@[0] == ']' && ":"@[0] == ':' && "||"@[0] == '|');
}

/// Whether two texts have the same tokens, but for the sign between filters of which both
/// are asked for. Behind a brace it is the same, since only `&&` joins objects.
#[verifier::opaque]
pub open spec fn alike(w: Written, v: Written) -> bool {
    &&& w.tokens.len() == v.tokens.len()
    &&& forall|k: int|
        0 <= k < w.tokens.len() && w.tokens[k] != v.tokens[k] ==> joins_both(
            #[trigger] w.tokens[k],
        ) && joins_both(v.tokens[k]) && (k > 0 ==> w.tokens[k - 1] != "}"@)
    &&& w.rest() == v.rest()
}

/// The first character of a token.
proof fn lemma_token_start(t: Seq<char>)
    requires
        is_token(t),
    ensures
        t.len() > 0,
        !white_space(t[0]),
        !is_name(t) ==> !name_part(t[0]),
        is_mark(t) ==> !name_part(t[0]) && t[0] != '=' && t[0] != '~' && t[0] != '"',
        is_operator(t) ==> t[0] == '=' || t[0] == '~',
        literal_text(t) is Some ==> t[0] == '"',
{
    lemma_marks();
    lemma_operators();
}

/// Tokens stand one behind the other, and within the text.
proof fn lemma_place(w: Written, k: int)
    requires
        w.ok(),
        0 <= k <= w.tokens.len(),
    ensures
        0 <= w.place(k) <= w.s.len(),
        k < w.tokens.len() ==> w.place(k) + w.tokens[k].len() <= w.place(k + 1) <= w.s.len(),
        k < w.tokens.len() ==> w.place(k) < w.place(k + 1),
        k < w.tokens.len() ==> w.place(k) < w.s.len() && w.s[w.place(k)] == w.tokens[k][0],
    decreases k,
{
    reveal(Written::ok);
    if k > 0 {
        lemma_place(w, k - 1);
    }
    if k < w.tokens.len() {
        assert(is_token(w.tokens[k]));
        lemma_token_start(w.tokens[k]);
        lemma_starts_at_char(w.s, w.place(k), w.tokens[k], 0);
        lemma_skip_ws(w.s, w.place(k) + w.tokens[k].len());
    }
}

/// A token stands before each later place.
proof fn lemma_places(w: Written, j: int, k: int)
    requires
        w.ok(),
        0 <= j <= k <= w.tokens.len(),
    ensures
        w.place(j) <= w.place(k),
        j < k ==> w.place(j) < w.place(k),
    decreases k - j,
{
    if j < k {
        lemma_places(w, j + 1, k);
        lemma_place(w, j);
    }
}

/// A mark stands where it is the token, and nowhere else.
proof fn lemma_mark(w: Written, k: int, mark: Seq<char>)
    requires
        w.ok(),
        0 <= k < w.tokens.len(),
        is_mark(mark),
    ensures
        starts_at(w.s, w.place(k), mark) == (w.tokens[k] == mark),
        after_token(w.s, w.place(k), mark) == if w.tokens[k] == mark {
            Some(w.place(k + 1))
        } else {
            None
        },
{
    reveal(Written::ok);
    let t = w.tokens[k];
    assert(is_token(t));
    lemma_place(w, k);
    lemma_token_start(t);
    lemma_token_start(mark);
    lemma_marks();
    if starts_at(w.s, w.place(k), mark) {
        lemma_starts_at_char(w.s, w.place(k), mark, 0);
        assert(t[0] == mark[0]);
        assert(t == mark);
    }
}

/// The key that a token is.
spec fn token_key(t: Seq<char>) -> Option<Seq<char>> {
    if is_name(t) {
        Some(t)
    } else {
        literal_text(t)
    }
}

/// The characters of a literal are read alone as they are in a text.
proof fn lemma_literal_in_text(
    s: Seq<char>,
    from: int,
    t: Seq<char>,
    at: int,
    text: Seq<char>,
)
    requires
        starts_at(s, from, t),
        0 <= at <= t.len(),
        literal_body(t, at, text) matches Body::End { text: _, at: end } && end == t.len() - 1
            && t[end] == '"',
    ensures
        literal_body(s, from + at, text) == (match literal_body(t, at, text) {
            Body::End { text: whole, at: end } => Body::End { text: whole, at: from + end },
            Body::Bad { message, at: end } => Body::Bad { message, at: end },
        }),
    decreases t.len() - at,
{
    if at < t.len() {
        lemma_starts_at_char(s, from, t, at);
        if t[at] == '"' {
        } else if t[at] != '\\' {
            lemma_literal_in_text(s, from, t, at + 1, text.push(t[at]));
        } else if at + 1 < t.len() {
            lemma_starts_at_char(s, from, t, at + 1);
            if escaped(t[at + 1]) is Some {
                lemma_literal_in_text(s, from, t, at + 2, text.push(escaped(t[at + 1]).unwrap()));
            }
        }
    }
}

/// A token is read as a string literal if it is one.
proof fn lemma_literal_token(w: Written, k: int)
    requires
        w.ok(),
        0 <= k < w.tokens.len(),
    ensures
        string_literal(w.s, w.place(k)) == match literal_text(w.tokens[k]) {
            Some(text) => Step::Done { value: Some(text), at: w.place(k + 1) },
            None => Step::Done { value: None, at: w.place(k) },
        },
{
    reveal(Written::ok);
    let t = w.tokens[k];
    let p = w.place(k);
    assert(is_token(t));
    lemma_place(w, k);
    lemma_token_start(t);
    lemma_quote_token();
    if literal_text(t) is Some {
        lemma_one_mark(w.s, p, "\""@, '"');
        lemma_literal_in_text(w.s, p, t, 1, Seq::empty());
        lemma_starts_at_char(w.s, p, t, t.len() - 1);
        lemma_one_mark(w.s, p + t.len() - 1, "\""@, '"');
    } else {
        lemma_other_token(w.s, p, "\""@);
    }
}

/// A token is read as a key if it is one.
proof fn lemma_key_token(w: Written, k: int)
    requires
        w.ok(),
        0 <= k < w.tokens.len(),
    ensures
        key(w.s, w.place(k)) == match token_key(w.tokens[k]) {
            Some(name) => Step::Done { value: Some(name), at: w.place(k + 1) },
            None => Step::Done { value: None, at: w.place(k) },
        },
{
    reveal(Written::ok);
    let t = w.tokens[k];
    let p = w.place(k);
    assert(is_token(t));
    lemma_place(w, k);
    lemma_token_start(t);
    lemma_literal_token(w, k);
    if is_name(t) {
        let behind = p + t.len();
        lemma_place(w, k + 1);
        assert(is_token(w.tokens[k + 1]));
        lemma_token_start(w.tokens[k + 1]);
        law_white_space_skipped(w.s, behind);
        assert(behind < w.s.len() && !name_part(w.s[behind])) by {
            if behind < w.place(k + 1) {
                assert(white_space(w.s[behind]));
            }
        }
        law_field_round_trip(w.s, p, t);
    }
}

/// The operator that a token is.
spec fn token_operator(t: Seq<char>) -> Option<Operator> {
    if t == "=="@ {
        Some(Operator::Exact)
    } else if t == "~="@ {
        Some(Operator::Stemmed)
    } else if is_distance(t) && decimal_value(t.subrange(1, t.len() - 1)) <= i64::MAX {
        Some(Operator::Distance(decimal_value(t.subrange(1, t.len() - 1)) as i64))
    } else {
        None
    }
}

/// The digits of a distance are read.
proof fn lemma_distance_token(s: Seq<char>, at: int, t: Seq<char>)
    requires
        starts_at(s, at, t),
        is_distance(t),
    ensures
        bare_integer(s, at + 1) == if decimal_value(t.subrange(1, t.len() - 1)) <= i64::MAX {
            Step::Done {
                value: Some(decimal_value(t.subrange(1, t.len() - 1)) as i64),
                at: at + t.len() - 1,
            }
        } else {
            Step::Fail { message: integer_overflow(), at: at + t.len() - 1 }
        },
{
    let class = |c: char| digit(c);
    let end = at + t.len() - 1;
    lemma_starts_at_char(s, at, t, t.len() - 1);
    assert forall|i: int| at + 1 <= i < end implies class(#[trigger] s[i]) by {
        lemma_starts_at_char(s, at, t, i - at);
        assert(digit(t[i - at]));
    }
    lemma_run_end_unique(s, at + 1, end, class);
    assert(s.subrange(at + 1, end) =~= t.subrange(1, t.len() - 1)) by {
        assert forall|i: int| 0 <= i < t.len() - 2 implies #[trigger] s.subrange(at + 1, end)[i]
            == t.subrange(1, t.len() - 1)[i] by {
            lemma_starts_at_char(s, at, t, i + 1);
        }
    }
}

/// Reads a comparison.
#[verifier::opaque]
spec fn comparison_at(s: Seq<char>, at: int, path: Path) -> Walk<FilterView> {
    compare(s, at, path)
}

/// A token is read as the operator of a comparison if it is one.
proof fn lemma_operator_token(w: Written, k: int, path: Path)
    requires
        w.ok(),
        0 <= k < w.tokens.len(),
    ensures
        match token_operator(w.tokens[k]) {
            Some(operator) => comparison_at(w.s, w.place(k), path) == compare_literal(
                w.s,
                w.place(k + 1),
                path,
                operator,
            ),
            None => comparison_at(w.s, w.place(k), path) is Fail,
        },
{
    reveal(Written::ok);
    reveal(comparison_at);
    let t = w.tokens[k];
    let p = w.place(k);
    assert(is_token(t));
    lemma_place(w, k);
    lemma_token_start(t);
    lemma_operators();
    if t == "=="@ {
    } else {
        if starts_at(w.s, p, "=="@) {
            lemma_starts_at_char(w.s, p, "=="@, 0);
            assert(t[0] == '=');
        }
        if t == "~="@ {
        } else if is_distance(t) {
            assert(digit(t[1]));
            if starts_at(w.s, p, "~="@) {
                lemma_starts_at_char(w.s, p, "~="@, 1);
                lemma_starts_at_char(w.s, p, t, 1);
            }
            lemma_one_mark(w.s, p, "~"@, '~');
            lemma_distance_token(w.s, p, t);
            lemma_marks();
            lemma_starts_at_char(w.s, p, t, t.len() - 1);
            lemma_one_mark(w.s, p + t.len() - 1, "="@, '=');
        } else {
            lemma_other_token(w.s, p, "~="@);
            lemma_other_token(w.s, p, "~"@);
        }
    }
}

/// Texts that are alike have equally many tokens.
proof fn lemma_as_many(w: Written, v: Written)
    requires
        alike(w, v),
    ensures
        w.tokens.len() == v.tokens.len(),
{
    reveal(alike);
}

/// Whether a filter that is read from the token `k` on in one text is read so in the other:
/// the same filter, up to the same token.
#[verifier::opaque]
spec fn same(
    w: Written,
    v: Written,
    k: int,
    one: Walk<FilterView>,
    other: Walk<FilterView>,
) -> bool {
    one matches Walk::Done { value, at } ==> (at <= w.end() ==> exists|j: int|
        k < j <= w.tokens.len() && at == #[trigger] w.place(j) && other == (Walk::Done {
            value,
            at: v.place(j),
        }))
}

/// Two readings up to the token `j` are the same.
proof fn lemma_same(w: Written, v: Written, k: int, j: int, value: FilterView)
    requires
        k < j <= w.tokens.len(),
    ensures
        same(
            w,
            v,
            k,
            Walk::Done { value, at: w.place(j) },
            Walk::Done { value, at: v.place(j) },
        ),
{
    reveal(same);
}

/// What is not read, or reaches beyond the tokens, need not be read in the other text.
proof fn lemma_not_same(
    w: Written,
    v: Written,
    k: int,
    one: Walk<FilterView>,
    other: Walk<FilterView>,
)
    requires
        one matches Walk::Done { value, at } ==> w.end() < at,
    ensures
        same(w, v, k, one, other),
{
    reveal(same);
}

/// Up to which token a filter is read.
proof fn same_to(
    w: Written,
    v: Written,
    k: int,
    one: Walk<FilterView>,
    other: Walk<FilterView>,
) -> (j: int)
    requires
        same(w, v, k, one, other),
        one is Done,
        one.end() <= w.end(),
    ensures
        k < j <= w.tokens.len(),
        one.end() == w.place(j),
        other == (Walk::Done { value: one->Done_value, at: v.place(j) }),
{
    reveal(same);
    choose|j: int|
        k < j <= w.tokens.len() && one.end() == #[trigger] w.place(j) && other == (Walk::Done {
            value: one->Done_value,
            at: v.place(j),
        })
}

/// A mark other than the two that ask for both stands in both texts or in none.
proof fn lemma_same_mark(w: Written, v: Written, k: int, mark: Seq<char>)
    requires
        w.ok(),
        v.ok(),
        alike(w, v),
        0 <= k <= w.tokens.len(),
        is_mark(mark),
        !joins_both(mark) || (k > 0 && w.tokens[k - 1] == "}"@),
    ensures
        starts_at(w.s, w.place(k), mark) == starts_at(v.s, v.place(k), mark),
        k < w.tokens.len() ==> after_token(w.s, w.place(k), mark) == if w.tokens[k] == mark {
            Some(w.place(k + 1))
        } else {
            None
        } && after_token(v.s, v.place(k), mark) == if w.tokens[k] == mark {
            Some(v.place(k + 1))
        } else {
            None
        },
        k == w.tokens.len() ==> (after_token(w.s, w.place(k), mark) matches Some(next) ==> w.end()
            < next),
{
    reveal(alike);
    if k < w.tokens.len() {
        lemma_mark(w, k, mark);
        lemma_mark(v, k, mark);
    } else {
        lemma_rest(w, v, mark);
    }
}

/// A token stands behind the tokens of both texts or of none.
proof fn lemma_rest(w: Written, v: Written, mark: Seq<char>)
    requires
        w.ok(),
        v.ok(),
        alike(w, v),
        is_mark(mark),
    ensures
        starts_at(w.s, w.end(), mark) == starts_at(v.s, v.end(), mark),
        after_token(w.s, w.end(), mark) matches Some(next) ==> w.end() < next,
{
    reveal(alike);
    lemma_place(w, w.tokens.len() as int);
    lemma_place(v, v.tokens.len() as int);
    lemma_token_start(mark);
    let rest = w.rest();
    assert(rest.len() == w.s.len() - w.end());
    assert(rest.len() == v.s.len() - v.end());
    if mark.len() <= rest.len() {
        assert(w.s.subrange(w.end(), w.end() + mark.len()) =~= rest.subrange(0, mark.len() as int));
        assert(v.s.subrange(v.end(), v.end() + mark.len()) =~= rest.subrange(0, mark.len() as int));
    }
    lemma_after_token(w.s, w.end(), mark);
}

/// The literal of a comparison is read from both texts.
proof fn lemma_same_literal(w: Written, v: Written, k: int, path: Path, operator: Operator)
    requires
        w.ok(),
        v.ok(),
        alike(w, v),
        0 <= k <= w.tokens.len(),
    ensures
        same(
            w,
            v,
            k,
            compare_literal(w.s, w.place(k), path, operator),
            compare_literal(v.s, v.place(k), path, operator),
        ),
{
    reveal(Written::ok);
    reveal(alike);
    let one = compare_literal(w.s, w.place(k), path, operator);
    let other = compare_literal(v.s, v.place(k), path, operator);
    lemma_place(w, k);
    if k == w.tokens.len() {
        lemma_string_literal(w.s, w.place(k));
        lemma_not_same(w, v, k, one, other);
    } else {
        lemma_literal_token(w, k);
        lemma_literal_token(v, k);
        assert(is_token(w.tokens[k]));
        lemma_token_start(w.tokens[k]);
        lemma_marks();
        if literal_text(w.tokens[k]) is None {
            lemma_not_same(w, v, k, one, other);
        } else {
            lemma_same(w, v, k, k + 1, one->Done_value);
        }
    }
}

/// A comparison is read from both texts.
proof fn lemma_same_compare(w: Written, v: Written, k: int, path: Path)
    requires
        w.ok(),
        v.ok(),
        alike(w, v),
        0 <= k <= w.tokens.len(),
    ensures
        same(w, v, k, compare(w.s, w.place(k), path), compare(v.s, v.place(k), path)),
{
    lemma_as_many(w, v);
    let one = comparison_at(w.s, w.place(k), path);
    let other = comparison_at(v.s, v.place(k), path);
    if k == w.tokens.len() {
        lemma_place(w, k);
        lemma_compare(w.s, w.place(k), path);
        reveal(comparison_at);
        lemma_not_same(w, v, k, one, other);
    } else {
        lemma_operator_token(w, k, path);
        lemma_operator_token(v, k, path);
        match token_operator(w.tokens[k]) {
            None => {
                lemma_not_same(w, v, k, one, other);
            },
            Some(operator) => {
                lemma_same_operator(w, v, k);
                lemma_same_literal(w, v, k + 1, path, operator);
                lemma_same_from(w, v, k, k + 1, one, other);
            },
        }
        reveal(comparison_at);
    }
}

/// A token that is an operator is the same in both texts.
proof fn lemma_same_operator(w: Written, v: Written, k: int)
    requires
        alike(w, v),
        0 <= k < w.tokens.len(),
        token_operator(w.tokens[k]) is Some,
    ensures
        w.tokens[k] == v.tokens[k],
{
    reveal(alike);
    lemma_marks();
    lemma_operators();
}

/// A filter with a closing mark behind it is read from both texts, if the filter is.
proof fn lemma_same_closed(
    w: Written,
    v: Written,
    k: int,
    path: Path,
    one: Walk<FilterView>,
    other: Walk<FilterView>,
    mark: Seq<char>,
)
    requires
        w.ok(),
        v.ok(),
        alike(w, v),
        0 <= k <= w.tokens.len(),
        same(w, v, k, one, other),
        one is Done ==> w.place(k) < one.end() <= w.s.len(),
        is_mark(mark),
        !joins_both(mark),
    ensures
        same(
            w,
            v,
            k,
            closed(w.s, w.place(k), one, mark, path),
            closed(v.s, v.place(k), other, mark, path),
        ),
        closed(w.s, w.place(k), one, mark, path) is Done ==> {
            let end = closed(w.s, w.place(k), one, mark, path).end();
            &&& w.place(k) < end <= w.s.len()
            &&& end <= w.end() ==> exists|j: int|
                k < j < w.tokens.len() && #[trigger] w.tokens[j] == mark && end == w.place(j + 1)
        },
{
    lemma_as_many(w, v);
    let closed_one = closed(w.s, w.place(k), one, mark, path);
    let closed_other = closed(v.s, v.place(k), other, mark, path);
    if one is Fail {
        lemma_not_same(w, v, k, closed_one, closed_other);
    } else {
        lemma_token_start(mark);
        lemma_after_token(w.s, one.end(), mark);
        if one.end() > w.end() {
            lemma_not_same(w, v, k, closed_one, closed_other);
        } else {
            let j = same_to(w, v, k, one, other);
            lemma_places(v, k, j);
            lemma_same_mark(w, v, j, mark);
            if j < w.tokens.len() && w.tokens[j] == mark {
                lemma_same(w, v, k, j + 1, one->Done_value);
                assert(closed_one.end() == w.place(j + 1));
            } else {
                lemma_not_same(w, v, k, closed_one, closed_other);
            }
        }
    }
}

/// A filter with an operator and another one behind it is read from both texts.
proof fn lemma_same_pair(
    w: Written,
    v: Written,
    k: int,
    j: int,
    path: Path,
    left: FilterView,
    one: Walk<FilterView>,
    other: Walk<FilterView>,
)
    requires
        0 <= k <= j,
        same(w, v, j, one, other),
    ensures
        same(w, v, k, both(left, one, path), both(left, other, path)),
        same(w, v, k, either(left, one, path), either(left, other, path)),
{
    if one is Fail || one.end() > w.end() {
        lemma_not_same(w, v, k, both(left, one, path), both(left, other, path));
        lemma_not_same(w, v, k, either(left, one, path), either(left, other, path));
    } else {
        let i = same_to(w, v, j, one, other);
        let right = one->Done_value;
        lemma_same(
            w,
            v,
            k,
            i,
            FilterView::And(Box::new(left), Box::new(right), path),
        );
        lemma_same(
            w,
            v,
            k,
            i,
            FilterView::Or(Box::new(left), Box::new(right), path),
        );
    }
}

/// Readings from a later token on are the same from an earlier one on.
proof fn lemma_same_from(
    w: Written,
    v: Written,
    k: int,
    j: int,
    one: Walk<FilterView>,
    other: Walk<FilterView>,
)
    requires
        k <= j,
        same(w, v, j, one, other),
    ensures
        same(w, v, k, one, other),
{
    if one is Done && one.end() <= w.end() {
        let i = same_to(w, v, j, one, other);
        lemma_same(w, v, k, i, one->Done_value);
    } else {
        lemma_not_same(w, v, k, one, other);
    }
}

/// The rules of filters that give one.
enum Rule {
    Object,
    Parens,
    Obool,
    Ocompare,
    Abool,
    Acompare,
    Array,
}

/// Reads a filter by a rule.
#[verifier::opaque]
spec fn read(rule: Rule, s: Seq<char>, at: int, path: Path) -> Walk<FilterView> {
    match rule {
        Rule::Object => object(s, at, path),
        Rule::Parens => parens(s, at, path),
        Rule::Obool => obool(s, at, path),
        Rule::Ocompare => ocompare(s, at, path),
        Rule::Abool => abool(s, at, path),
        Rule::Acompare => acompare(s, at, path),
        Rule::Array => array(s, at, path),
    }
}

/// Reads a nested filter on an array or on an object.
#[verifier::opaque]
spec fn read_nested(on_array: bool, s: Seq<char>, at: int, path: Path) -> Walk<Option<FilterView>> {
    if on_array {
        aparens(s, at, path)
    } else {
        oparens(s, at, path)
    }
}

/// The filter that was read, where one was.
spec fn found(nested: Walk<Option<FilterView>>) -> Walk<FilterView> {
    match nested {
        Walk::Done { value: Some(value), at } => Walk::Done { value, at },
        Walk::Done { value: None, at } => Walk::Fail {
            message: Seq::empty(),
            at,
            path: Path::empty(),
        },
        Walk::Fail { message, at, path } => Walk::Fail { message, at, path },
    }
}

/// Filters are read forward by each rule, and take at least one character.
proof fn lemma_read(rule: Rule, s: Seq<char>, at: int, path: Path)
    requires
        0 <= at <= s.len(),
    ensures
        read(rule, s, at, path).ends_within(s, at),
        read(rule, s, at, path) is Done ==> at < read(rule, s, at, path).end(),
{
    reveal(read);
    match rule {
        Rule::Object => lemma_object(s, at, path),
        Rule::Parens => lemma_parens(s, at, path),
        Rule::Obool => lemma_obool(s, at, path),
        Rule::Ocompare => lemma_ocompare(s, at, path),
        Rule::Abool => lemma_abool(s, at, path),
        Rule::Acompare => lemma_acompare(s, at, path),
        Rule::Array => lemma_array(s, at, path),
    }
}

/// What is read behind the closing brace of an object, which ends the filter `left`.
spec fn behind_brace(s: Seq<char>, left: FilterView, at: int, path: Path) -> Walk<FilterView> {
    if let Some(next) = after_token(s, at, "&&"@) {
        both(left, read(Rule::Object, s, next, path), path)
    } else if let Some(next) = after_token(s, at, "||"@) {
        either(left, read(Rule::Object, s, next, path), path)
    } else {
        Walk::Done { value: left, at }
    }
}

/// How an object is read.
proof fn lemma_read_object(s: Seq<char>, at: int, path: Path)
    requires
        0 <= at <= s.len(),
    ensures
        read(Rule::Object, s, at, path) == match after_token(s, at, "{"@) {
            None => read(Rule::Parens, s, at, path),
            Some(start) => match closed(
                s,
                start,
                read(Rule::Obool, s, start, path),
                "}"@,
                path,
            ) {
                Walk::Fail { message, at, path } => Walk::Fail { message, at, path },
                Walk::Done { value, at } => behind_brace(s, value, at, path),
            },
        },
{
    lemma_after_token(s, at, "{"@);
    if let Some(start) = after_token(s, at, "{"@) {
        lemma_obool(s, start, path);
        lemma_closed(s, start, obool(s, start, path), "}"@, path);
    }
    reveal(read);
}

/// How parentheses around an object are read.
proof fn lemma_read_parens(s: Seq<char>, at: int, path: Path)
    ensures
        match after_token(s, at, "("@) {
            None => read(Rule::Parens, s, at, path) is Fail,
            Some(start) => read(Rule::Parens, s, at, path) == closed(
                s,
                start,
                read(Rule::Object, s, start, path),
                ")"@,
                path,
            ),
        },
{
    reveal(read);
}

/// What is read behind the filter `left` on a member or on an element.
spec fn behind_filter(
    rule: Rule,
    s: Seq<char>,
    left: FilterView,
    at: int,
    path: Path,
) -> Walk<FilterView> {
    if let Some(next) = conjunction(s, at) {
        both(left, read(rule, s, next, path), path)
    } else if let Some(next) = after_token(s, at, "||"@) {
        either(left, read(rule, s, next, path), path)
    } else {
        Walk::Done { value: left, at }
    }
}

/// How joined filters are read.
proof fn lemma_read_joined(on_array: bool, s: Seq<char>, at: int, path: Path)
    requires
        0 <= at <= s.len(),
    ensures
        ({
            let list = if on_array { Rule::Abool } else { Rule::Obool };
            let one = if on_array { Rule::Acompare } else { Rule::Ocompare };
            read(list, s, at, path) == match read(one, s, at, path) {
                Walk::Fail { message, at, path } => Walk::Fail { message, at, path },
                Walk::Done { value, at } => behind_filter(list, s, value, at, path),
            }
        }),
{
    reveal(read);
    if on_array {
        lemma_acompare(s, at, path);
    } else {
        lemma_ocompare(s, at, path);
    }
}

/// How a nested filter is read.
proof fn lemma_read_nested(on_array: bool, s: Seq<char>, at: int, path: Path)
    ensures
        ({
            let list = if on_array { Rule::Abool } else { Rule::Obool };
            read_nested(on_array, s, at, path) == if let Some(start) = after_token(s, at, "("@) {
                present(closed(s, start, read(list, s, start, path), ")"@, path))
            } else if starts_at(s, at, "["@) {
                present(read(Rule::Array, s, at, path))
            } else if starts_at(s, at, "{"@) {
                present(read(Rule::Object, s, at, path))
            } else {
                Walk::Done { value: None, at }
            }
        }),
{
    reveal(read);
    reveal(read_nested);
}

/// How an array is read.
proof fn lemma_read_array(s: Seq<char>, at: int, path: Path)
    ensures
        match after_token(s, at, "["@) {
            None => read(Rule::Array, s, at, path) is Fail,
            Some(start) => read(Rule::Array, s, at, path) == closed(
                s,
                start,
                read(Rule::Abool, s, start, path.push(SegmentView::Array)),
                "]"@,
                path,
            ),
        },
{
    reveal(read);
}

/// How a filter on an element is read.
proof fn lemma_read_acompare(s: Seq<char>, at: int, path: Path)
    requires
        0 <= at <= s.len(),
    ensures
        read(Rule::Acompare, s, at, path) == match read_nested(true, s, at, path) {
            Walk::Fail { message, at, path } => Walk::Fail { message, at, path },
            Walk::Done { value: Some(value), at } => Walk::Done { value, at },
            Walk::Done { value: None, .. } => compare(s, at, path),
        },
{
    lemma_aparens(s, at, path);
    reveal(read);
    reveal(read_nested);
}

/// What is read behind the key `name` of a member.
spec fn behind_key(s: Seq<char>, name: Seq<char>, colon: int, path: Path) -> Walk<FilterView> {
    let inner = path.push(SegmentView::ObjectKey(name));
    match expect(s, colon, ":"@) {
        Step::Fail { message, at } => Walk::Fail { message, at, path: inner },
        Step::Done { value: _, at: start } => match read_nested(false, s, start, inner) {
            Walk::Fail { message, at, path } => Walk::Fail { message, at, path },
            Walk::Done { value: Some(value), at } => Walk::Done { value, at },
            Walk::Done { value: None, .. } => compare(s, start, inner),
        },
    }
}

/// How a filter on a member is read.
proof fn lemma_read_ocompare(s: Seq<char>, at: int, path: Path)
    requires
        0 <= at <= s.len(),
    ensures
        match read_nested(false, s, at, path) {
            Walk::Fail { .. } => read(Rule::Ocompare, s, at, path) is Fail,
            Walk::Done { value: Some(value), at: end } => read(Rule::Ocompare, s, at, path) == (
            Walk::Done { value, at: end }),
            Walk::Done { value: None, .. } => match key(s, at) {
                Step::Done { value: Some(name), at: colon } => read(Rule::Ocompare, s, at, path)
                    == behind_key(s, name, colon, path),
                _ => read(Rule::Ocompare, s, at, path) is Fail,
            },
        },
{
    lemma_key(s, at);
    if let Step::Done { value: Some(name), at: colon } = key(s, at) {
        let inner = path.push(SegmentView::ObjectKey(name));
        lemma_expect(s, colon, ":"@);
        if let Step::Done { value: _, at: start } = expect(s, colon, ":"@) {
            lemma_oparens(s, start, inner);
        }
    }
    reveal(read);
    reveal(read_nested);
}

/// Whether the nested filters that are read from the token `k` on are the same in both texts.
spec fn same_nested(w: Written, v: Written, k: int, on_array: bool, path: Path) -> bool {
    let one = read_nested(on_array, w.s, w.place(k), path);
    let other = read_nested(on_array, v.s, v.place(k), path);
    &&& same(w, v, k, found(one), found(other))
    &&& one matches Walk::Done { value: None, at } ==> other == (Walk::Done {
        value: None::<FilterView>,
        at: v.place(k),
    })
}

/// Whether the filters that are read by `rule` from the token `k` on are the same in both
/// texts.
spec fn same_read(w: Written, v: Written, k: int, rule: Rule, path: Path) -> bool {
    same(w, v, k, read(rule, w.s, w.place(k), path), read(rule, v.s, v.place(k), path))
}

/// Nothing is read behind the tokens that ends there.
proof fn lemma_same_at_end(w: Written, v: Written, rule: Rule, path: Path)
    requires
        w.ok(),
    ensures
        same_read(w, v, w.tokens.len() as int, rule, path),
{
    let n = w.tokens.len() as int;
    lemma_place(w, n);
    lemma_read(rule, w.s, w.place(n), path);
    lemma_not_same(w, v, n, read(rule, w.s, w.place(n), path), read(rule, v.s, v.place(n), path));
}

/// A filter between two marks is read from both texts.
proof fn lemma_same_between(
    w: Written,
    v: Written,
    k: int,
    rule: Rule,
    path: Path,
    outer: Path,
    mark: Seq<char>,
)
    requires
        w.ok(),
        v.ok(),
        alike(w, v),
        0 <= k < w.tokens.len(),
        same_read(w, v, k + 1, rule, path),
        is_mark(mark),
        !joins_both(mark),
    ensures
        ({
            let one = closed(
                w.s,
                w.place(k + 1),
                read(rule, w.s, w.place(k + 1), path),
                mark,
                outer,
            );
            let other = closed(
                v.s,
                v.place(k + 1),
                read(rule, v.s, v.place(k + 1), path),
                mark,
                outer,
            );
            &&& same(w, v, k, one, other)
            &&& one is Done ==> w.place(k) < one.end() <= w.s.len()
            &&& one is Done && one.end() <= w.end() ==> exists|j: int|
                k < j < w.tokens.len() && #[trigger] w.tokens[j] == mark && one.end() == w.place(
                    j + 1,
                )
        }),
{
    lemma_as_many(w, v);
    let one = read(rule, w.s, w.place(k + 1), path);
    let other = read(rule, v.s, v.place(k + 1), path);
    lemma_place(w, k);
    lemma_place(w, k + 1);
    lemma_read(rule, w.s, w.place(k + 1), path);
    lemma_same_closed(w, v, k + 1, outer, one, other, mark);
    lemma_same_from(
        w,
        v,
        k,
        k + 1,
        closed(w.s, w.place(k + 1), one, mark, outer),
        closed(v.s, v.place(k + 1), other, mark, outer),
    );
}

/// Objects are read from both texts.
proof fn lemma_same_object(w: Written, v: Written, k: int, path: Path)
    requires
        w.ok(),
        v.ok(),
        alike(w, v),
        0 <= k <= w.tokens.len(),
    ensures
        same_read(w, v, k, Rule::Object, path),
    decreases w.tokens.len() - k, 1int,
{
    lemma_as_many(w, v);
    if k == w.tokens.len() {
        lemma_same_at_end(w, v, Rule::Object, path);
    } else {
        lemma_place(w, k);
        lemma_place(v, k);
        lemma_read_object(w.s, w.place(k), path);
        lemma_read_object(v.s, v.place(k), path);
        lemma_other_marks();
        lemma_same_mark(w, v, k, "{"@);
        if w.tokens[k] == "{"@ {
            lemma_same_joined(w, v, k + 1, false, path);
            lemma_same_between(w, v, k, Rule::Obool, path, path, "}"@);
            let one = closed(
                w.s,
                w.place(k + 1),
                read(Rule::Obool, w.s, w.place(k + 1), path),
                "}"@,
                path,
            );
            let other = closed(
                v.s,
                v.place(k + 1),
                read(Rule::Obool, v.s, v.place(k + 1), path),
                "}"@,
                path,
            );
            lemma_same_behind_brace(w, v, k, path, one, other);
        } else {
            lemma_same_parens(w, v, k, path);
        }
    }
}

/// What stands behind the closing brace of an object is read from both texts.
proof fn lemma_same_behind_brace(
    w: Written,
    v: Written,
    k: int,
    path: Path,
    one: Walk<FilterView>,
    other: Walk<FilterView>,
)
    requires
        w.ok(),
        v.ok(),
        alike(w, v),
        0 <= k < w.tokens.len(),
        same(w, v, k, one, other),
        one is Done ==> w.place(k) <= one.end() <= w.s.len(),
        one is Done && one.end() <= w.end() ==> exists|j: int|
            k < j < w.tokens.len() && #[trigger] w.tokens[j] == "}"@ && one.end() == w.place(j + 1),
    ensures
        ({
            let whole = match one {
                Walk::Fail { message, at, path } => Walk::Fail { message, at, path },
                Walk::Done { value, at } => behind_brace(w.s, value, at, path),
            };
            let same_whole = match other {
                Walk::Fail { message, at, path } => Walk::Fail { message, at, path },
                Walk::Done { value, at } => behind_brace(v.s, value, at, path),
            };
            same(w, v, k, whole, same_whole)
        }),
    decreases w.tokens.len() - k, 0int,
{
    lemma_as_many(w, v);
    let whole = match one {
        Walk::Fail { message, at, path } => Walk::Fail { message, at, path },
        Walk::Done { value, at } => behind_brace(w.s, value, at, path),
    };
    let same_whole = match other {
        Walk::Fail { message, at, path } => Walk::Fail { message, at, path },
        Walk::Done { value, at } => behind_brace(v.s, value, at, path),
    };
    lemma_other_marks();
    if one is Fail {
        lemma_not_same(w, v, k, whole, same_whole);
    } else {
        lemma_place(w, k);
        lemma_behind_brace(w.s, one->Done_value, one.end(), path);
        if one.end() > w.end() {
            lemma_not_same(w, v, k, whole, same_whole);
        } else {
            let left = one->Done_value;
            let i = same_to(w, v, k, one, other);
            let j = choose|j: int|
                k < j < w.tokens.len() && #[trigger] w.tokens[j] == "}"@ && one.end() == w.place(
                    j + 1,
                );
            if i < j + 1 {
                lemma_places(w, i, j + 1);
            } else if j + 1 < i {
                lemma_places(w, j + 1, i);
            }
            lemma_same_mark(w, v, i, "&&"@);
            lemma_same_mark(w, v, i, "||"@);
            if i == w.tokens.len() {
                if starts_at(w.s, w.place(i), "&&"@) || starts_at(w.s, w.place(i), "||"@) {
                    lemma_not_same(w, v, k, whole, same_whole);
                } else {
                    lemma_same(w, v, k, i, left);
                }
            } else if w.tokens[i] == "&&"@ || w.tokens[i] == "||"@ {
                lemma_same_object(w, v, i + 1, path);
                lemma_same_pair(
                    w,
                    v,
                    k,
                    i + 1,
                    path,
                    left,
                    read(Rule::Object, w.s, w.place(i + 1), path),
                    read(Rule::Object, v.s, v.place(i + 1), path),
                );
            } else {
                lemma_same(w, v, k, i, left);
            }
        }
    }
}

/// What stands behind the closing brace of an object is read forward.
proof fn lemma_behind_brace(s: Seq<char>, left: FilterView, at: int, path: Path)
    requires
        0 <= at <= s.len(),
    ensures
        behind_brace(s, left, at, path) matches Walk::Done { value, at: end } ==> at <= end,
        (starts_at(s, at, "&&"@) || starts_at(s, at, "||"@)) ==> (behind_brace(
            s,
            left,
            at,
            path,
        ) matches Walk::Done { value, at: end } ==> at < end),
{
    lemma_marks();
    lemma_after_token(s, at, "&&"@);
    lemma_after_token(s, at, "||"@);
    if let Some(next) = after_token(s, at, "&&"@) {
        lemma_read(Rule::Object, s, next, path);
    }
    if let Some(next) = after_token(s, at, "||"@) {
        lemma_read(Rule::Object, s, next, path);
    }
}

/// Parentheses around an object are read from both texts.
proof fn lemma_same_parens(w: Written, v: Written, k: int, path: Path)
    requires
        w.ok(),
        v.ok(),
        alike(w, v),
        0 <= k < w.tokens.len(),
    ensures
        same_read(w, v, k, Rule::Parens, path),
    decreases w.tokens.len() - k, 0int,
{
    lemma_as_many(w, v);
    lemma_read_parens(w.s, w.place(k), path);
    lemma_read_parens(v.s, v.place(k), path);
    lemma_other_marks();
    lemma_same_mark(w, v, k, "("@);
    if w.tokens[k] == "("@ {
        lemma_same_object(w, v, k + 1, path);
        lemma_same_between(w, v, k, Rule::Object, path, path, ")"@);
    } else {
        lemma_not_same(
            w,
            v,
            k,
            read(Rule::Parens, w.s, w.place(k), path),
            read(Rule::Parens, v.s, v.place(k), path),
        );
    }
}

/// Arrays are read from both texts.
proof fn lemma_same_array(w: Written, v: Written, k: int, path: Path)
    requires
        w.ok(),
        v.ok(),
        alike(w, v),
        0 <= k < w.tokens.len(),
    ensures
        same_read(w, v, k, Rule::Array, path),
    decreases w.tokens.len() - k, 0int,
{
    lemma_as_many(w, v);
    let inner = path.push(SegmentView::Array);
    lemma_read_array(w.s, w.place(k), path);
    lemma_read_array(v.s, v.place(k), path);
    lemma_other_marks();
    lemma_same_mark(w, v, k, "["@);
    if w.tokens[k] == "["@ {
        lemma_same_joined(w, v, k + 1, true, inner);
        lemma_same_between(w, v, k, Rule::Abool, inner, path, "]"@);
    } else {
        lemma_not_same(
            w,
            v,
            k,
            read(Rule::Array, w.s, w.place(k), path),
            read(Rule::Array, v.s, v.place(k), path),
        );
    }
}

/// A filter as a nested one is the filter.
proof fn lemma_found(filter: Walk<FilterView>)
    ensures
        found(present(filter)) == filter,
        !(present(filter) matches Walk::Done { value: None, at }),
{
}

/// Nested filters are read from both texts.
proof fn lemma_same_nested(w: Written, v: Written, k: int, on_array: bool, path: Path)
    requires
        w.ok(),
        v.ok(),
        alike(w, v),
        0 <= k <= w.tokens.len(),
    ensures
        same_nested(w, v, k, on_array, path),
    decreases w.tokens.len() - k, 2int,
{
    lemma_as_many(w, v);
    let list = if on_array { Rule::Abool } else { Rule::Obool };
    let one = read_nested(on_array, w.s, w.place(k), path);
    let other = read_nested(on_array, v.s, v.place(k), path);
    lemma_read_nested(on_array, w.s, w.place(k), path);
    lemma_read_nested(on_array, v.s, v.place(k), path);
    lemma_other_marks();
    lemma_same_mark(w, v, k, "("@);
    lemma_same_mark(w, v, k, "["@);
    lemma_same_mark(w, v, k, "{"@);
    if k == w.tokens.len() {
        lemma_place(w, k);
        lemma_nested_takes(on_array, w.s, w.place(k), path);
        lemma_not_same(w, v, k, found(one), found(other));
    } else if w.tokens[k] == "("@ {
        lemma_same_joined(w, v, k + 1, on_array, path);
        lemma_same_between(w, v, k, list, path, path, ")"@);
        lemma_found(closed(w.s, w.place(k + 1), read(list, w.s, w.place(k + 1), path), ")"@, path));
        lemma_found(closed(v.s, v.place(k + 1), read(list, v.s, v.place(k + 1), path), ")"@, path));
    } else if w.tokens[k] == "["@ {
        lemma_same_array(w, v, k, path);
        lemma_found(read(Rule::Array, w.s, w.place(k), path));
        lemma_found(read(Rule::Array, v.s, v.place(k), path));
    } else if w.tokens[k] == "{"@ {
        lemma_same_object(w, v, k, path);
        lemma_found(read(Rule::Object, w.s, w.place(k), path));
        lemma_found(read(Rule::Object, v.s, v.place(k), path));
    } else {
        lemma_not_same(w, v, k, found(one), found(other));
    }
}

/// A nested filter takes at least one character.
proof fn lemma_nested_takes(on_array: bool, s: Seq<char>, at: int, path: Path)
    requires
        0 <= at <= s.len(),
    ensures
        found(read_nested(on_array, s, at, path)) matches Walk::Done { value, at: end } ==> at
            < end <= s.len(),
{
    reveal(read_nested);
    lemma_aparens(s, at, path);
    lemma_oparens(s, at, path);
}

/// A nested filter, or a comparison where there is none, is read from both texts.
proof fn lemma_same_value(w: Written, v: Written, k: int, on_array: bool, path: Path)
    requires
        w.ok(),
        v.ok(),
        alike(w, v),
        0 <= k <= w.tokens.len(),
        same_nested(w, v, k, on_array, path),
    ensures
        ({
            let one = match read_nested(on_array, w.s, w.place(k), path) {
                Walk::Fail { message, at, path } => Walk::Fail { message, at, path },
                Walk::Done { value: Some(value), at } => Walk::Done { value, at },
                Walk::Done { value: None, .. } => compare(w.s, w.place(k), path),
            };
            let other = match read_nested(on_array, v.s, v.place(k), path) {
                Walk::Fail { message, at, path } => Walk::Fail { message, at, path },
                Walk::Done { value: Some(value), at } => Walk::Done { value, at },
                Walk::Done { value: None, .. } => compare(v.s, v.place(k), path),
            };
            same(w, v, k, one, other)
        }),
{
    lemma_as_many(w, v);
    let nested = read_nested(on_array, w.s, w.place(k), path);
    let same_nested = read_nested(on_array, v.s, v.place(k), path);
    match nested {
        Walk::Done { value: None, .. } => {
            lemma_same_compare(w, v, k, path);
        },
        Walk::Done { value: Some(value), at } => {
            if at <= w.end() {
                let j = same_to(w, v, k, found(nested), found(same_nested));
                lemma_same(w, v, k, j, value);
            } else {
                let other = match same_nested {
                    Walk::Fail { message, at, path } => Walk::Fail { message, at, path },
                    Walk::Done { value: Some(value), at } => Walk::Done { value, at },
                    Walk::Done { value: None, .. } => compare(v.s, v.place(k), path),
                };
                lemma_not_same(w, v, k, Walk::Done { value, at }, other);
            }
        },
        Walk::Fail { message, at, path: reached } => {
            let other = match same_nested {
                Walk::Fail { message, at, path } => Walk::Fail { message, at, path },
                Walk::Done { value: Some(value), at } => Walk::Done { value, at },
                Walk::Done { value: None, .. } => compare(v.s, v.place(k), path),
            };
            lemma_not_same(w, v, k, Walk::Fail { message, at, path: reached }, other);
        },
    }
}

/// Filters on members and on elements are read from both texts.
proof fn lemma_same_one(w: Written, v: Written, k: int, on_array: bool, path: Path)
    requires
        w.ok(),
        v.ok(),
        alike(w, v),
        0 <= k <= w.tokens.len(),
    ensures
        same_read(w, v, k, if on_array { Rule::Acompare } else { Rule::Ocompare }, path),
    decreases w.tokens.len() - k, 3int,
{
    lemma_as_many(w, v);
    if k == w.tokens.len() {
        lemma_same_at_end(w, v, if on_array { Rule::Acompare } else { Rule::Ocompare }, path);
    } else {
        lemma_place(w, k);
        lemma_place(v, k);
        lemma_same_nested(w, v, k, on_array, path);
        if on_array {
            lemma_read_acompare(w.s, w.place(k), path);
            lemma_read_acompare(v.s, v.place(k), path);
            lemma_same_value(w, v, k, true, path);
        } else {
            lemma_same_member(w, v, k, path);
        }
    }
}

/// A filter on a member is read from both texts, if a nested one is.
proof fn lemma_same_member(w: Written, v: Written, k: int, path: Path)
    requires
        w.ok(),
        v.ok(),
        alike(w, v),
        0 <= k < w.tokens.len(),
        same_nested(w, v, k, false, path),
    ensures
        same_read(w, v, k, Rule::Ocompare, path),
    decreases w.tokens.len() - k, 0int,
{
    lemma_as_many(w, v);
    let one = read(Rule::Ocompare, w.s, w.place(k), path);
    let other = read(Rule::Ocompare, v.s, v.place(k), path);
    let nested = read_nested(false, w.s, w.place(k), path);
    lemma_place(w, k);
    lemma_place(v, k);
    lemma_read_ocompare(w.s, w.place(k), path);
    lemma_read_ocompare(v.s, v.place(k), path);
    match nested {
        Walk::Fail { .. } => {
            lemma_not_same(w, v, k, one, other);
        },
        Walk::Done { value: Some(value), at } => {
            if at <= w.end() {
                let j = same_to(
                    w,
                    v,
                    k,
                    found(nested),
                    found(read_nested(false, v.s, v.place(k), path)),
                );
                lemma_same(w, v, k, j, value);
            } else {
                lemma_not_same(w, v, k, one, other);
            }
        },
        Walk::Done { value: None, .. } => {
            lemma_key_token(w, k);
            lemma_key_token(v, k);
            match token_key(w.tokens[k]) {
                None => {
                    lemma_not_same(w, v, k, one, other);
                },
                Some(name) => {
                    lemma_same_key(w, v, k);
                    lemma_same_behind_key(w, v, k + 1, name, path);
                    lemma_same_from(w, v, k, k + 1, one, other);
                },
            }
        },
    }
}

/// A token that is a key is the same in both texts.
proof fn lemma_same_key(w: Written, v: Written, k: int)
    requires
        alike(w, v),
        0 <= k < w.tokens.len(),
        token_key(w.tokens[k]) is Some,
    ensures
        w.tokens[k] == v.tokens[k],
{
    reveal(alike);
    lemma_marks();
}

/// What stands behind a key is read from both texts.
proof fn lemma_same_behind_key(w: Written, v: Written, k: int, name: Seq<char>, path: Path)
    requires
        w.ok(),
        v.ok(),
        alike(w, v),
        0 < k <= w.tokens.len(),
    ensures
        same(
            w,
            v,
            k,
            behind_key(w.s, name, w.place(k), path),
            behind_key(v.s, name, v.place(k), path),
        ),
    decreases w.tokens.len() - k, 5int,
{
    lemma_as_many(w, v);
    let inner = path.push(SegmentView::ObjectKey(name));
    let one = behind_key(w.s, name, w.place(k), path);
    let other = behind_key(v.s, name, v.place(k), path);
    lemma_other_marks();
    lemma_same_mark(w, v, k, ":"@);
    lemma_place(w, k);
    if k == w.tokens.len() {
        lemma_behind_key(w.s, name, w.place(k), path);
        lemma_not_same(w, v, k, one, other);
    } else if w.tokens[k] == ":"@ {
        lemma_same_nested(w, v, k + 1, false, inner);
        lemma_same_value(w, v, k + 1, false, inner);
        lemma_same_from(w, v, k, k + 1, one, other);
    } else {
        lemma_not_same(w, v, k, one, other);
    }
}

/// What stands behind a key takes at least one character.
proof fn lemma_behind_key(s: Seq<char>, name: Seq<char>, at: int, path: Path)
    requires
        0 <= at <= s.len(),
    ensures
        behind_key(s, name, at, path) matches Walk::Done { value, at: end } ==> at < end,
{
    let inner = path.push(SegmentView::ObjectKey(name));
    lemma_expect(s, at, ":"@);
    if let Step::Done { value: _, at: start } = expect(s, at, ":"@) {
        lemma_nested_takes(false, s, start, inner);
        lemma_compare(s, start, inner);
    }
}

/// Joined filters are read from both texts.
proof fn lemma_same_joined(w: Written, v: Written, k: int, on_array: bool, path: Path)
    requires
        w.ok(),
        v.ok(),
        alike(w, v),
        0 <= k <= w.tokens.len(),
    ensures
        same_read(w, v, k, if on_array { Rule::Abool } else { Rule::Obool }, path),
    decreases w.tokens.len() - k, 4int,
{
    lemma_as_many(w, v);
    let list = if on_array { Rule::Abool } else { Rule::Obool };
    let single = if on_array { Rule::Acompare } else { Rule::Ocompare };
    if k == w.tokens.len() {
        lemma_same_at_end(w, v, list, path);
    } else {
        lemma_place(w, k);
        lemma_place(v, k);
        lemma_same_one(w, v, k, on_array, path);
        lemma_read_joined(on_array, w.s, w.place(k), path);
        lemma_read_joined(on_array, v.s, v.place(k), path);
        let first = read(single, w.s, w.place(k), path);
        let same_first = read(single, v.s, v.place(k), path);
        let one = read(list, w.s, w.place(k), path);
        let other = read(list, v.s, v.place(k), path);
        lemma_read(single, w.s, w.place(k), path);
        if first is Fail {
            lemma_not_same(w, v, k, one, other);
        } else {
            let left = first->Done_value;
            lemma_behind_filter(list, w.s, left, first.end(), path);
            if first.end() > w.end() {
                lemma_not_same(w, v, k, one, other);
            } else {
                let j = same_to(w, v, k, first, same_first);
                lemma_same_conjunction(w, v, j);
                lemma_other_marks();
                lemma_same_mark(w, v, j, "||"@);
                if j == w.tokens.len() {
                    if conjunction(w.s, w.place(j)) is Some || starts_at(w.s, w.place(j), "||"@) {
                        lemma_not_same(w, v, k, one, other);
                    } else {
                        lemma_same(w, v, k, j, left);
                    }
                } else if joins_both(w.tokens[j]) || w.tokens[j] == "||"@ {
                    lemma_same_joined(w, v, j + 1, on_array, path);
                    lemma_same_pair(
                        w,
                        v,
                        k,
                        j + 1,
                        path,
                        left,
                        read(list, w.s, w.place(j + 1), path),
                        read(list, v.s, v.place(j + 1), path),
                    );
                } else {
                    lemma_same(w, v, k, j, left);
                }
            }
        }
    }
}

/// What stands behind a filter on a member or on an element is read forward.
proof fn lemma_behind_filter(rule: Rule, s: Seq<char>, left: FilterView, at: int, path: Path)
    requires
        0 <= at <= s.len(),
    ensures
        behind_filter(rule, s, left, at, path) matches Walk::Done { value, at: end } ==> at <= end,
        (conjunction(s, at) is Some || starts_at(s, at, "||"@)) ==> (behind_filter(
            rule,
            s,
            left,
            at,
            path,
        ) matches Walk::Done { value, at: end } ==> at < end),
{
    lemma_marks();
    lemma_after_token(s, at, "&&"@);
    lemma_after_token(s, at, ","@);
    lemma_after_token(s, at, "||"@);
    if let Some(next) = conjunction(s, at) {
        lemma_read(rule, s, next, path);
    }
    if let Some(next) = after_token(s, at, "||"@) {
        lemma_read(rule, s, next, path);
    }
}

/// One of the signs that ask for both stands in both texts or in none.
proof fn lemma_same_conjunction(w: Written, v: Written, k: int)
    requires
        w.ok(),
        v.ok(),
        alike(w, v),
        0 <= k <= w.tokens.len(),
    ensures
        k < w.tokens.len() ==> conjunction(w.s, w.place(k)) == if joins_both(w.tokens[k]) {
            Some(w.place(k + 1))
        } else {
            None
        } && conjunction(v.s, v.place(k)) == if joins_both(w.tokens[k]) {
            Some(v.place(k + 1))
        } else {
            None
        },
        k == w.tokens.len() ==> conjunction(w.s, w.place(k)) is Some == conjunction(
            v.s,
            v.place(k),
        ) is Some,
{
    reveal(alike);
    if k < w.tokens.len() {
        lemma_mark(w, k, "&&"@);
        lemma_mark(w, k, ","@);
        lemma_mark(v, k, "&&"@);
        lemma_mark(v, k, ","@);
    } else {
        lemma_rest(w, v, "&&"@);
        lemma_rest(w, v, ","@);
    }
}

/// The amount of white space between the tokens of a filter makes no difference: two texts
/// with the same tokens are read as the same filter.
pub proof fn law_white_space_between_tokens(w: Written, v: Written, path: Path)
    requires
        w.ok(),
        v.ok(),
        w.tokens == v.tokens,
        w.rest() == v.rest(),
        w.tokens.len() > 0,
        w.tokens[0] == "find"@,
        find(w.s, w.at, path) is Done,
        find(w.s, w.at, path).end() == w.end(),
    ensures
        find(v.s, v.at, path) == (Walk::Done {
            value: find(w.s, w.at, path)->Done_value,
            at: v.end(),
        }),
{
    reveal(alike);
    law_comma_is_conjunction(w, v, path);
}

/// A comma means what `&&` means: exchanging one for the other between filters on members
/// or on elements leaves the filter the same.
pub proof fn law_comma_is_conjunction(w: Written, v: Written, path: Path)
    requires
        w.ok(),
        v.ok(),
        alike(w, v),
    ensures
        obool(w.s, w.at, path) matches Walk::Done { value, at } ==> (at == w.end() ==> obool(
            v.s,
            v.at,
            path,
        ) == (Walk::Done { value, at: v.end() })),
        abool(w.s, w.at, path) matches Walk::Done { value, at } ==> (at == w.end() ==> abool(
            v.s,
            v.at,
            path,
        ) == (Walk::Done { value, at: v.end() })),
        w.tokens.len() > 0 && w.tokens[0] == "find"@ && v.tokens[0] == "find"@ ==> (find(
            w.s,
            w.at,
            path,
        ) matches Walk::Done { value, at } ==> (at == w.end() ==> find(v.s, v.at, path) == (
        Walk::Done { value, at: v.end() }))),
{
    lemma_as_many(w, v);
    lemma_same_joined(w, v, 0, false, path);
    lemma_same_joined(w, v, 0, true, path);
    lemma_same_to_end(w, v, 0, Rule::Obool, path);
    lemma_same_to_end(w, v, 0, Rule::Abool, path);
    if w.tokens.len() > 0 && w.tokens[0] == "find"@ && v.tokens[0] == "find"@ {
        lemma_same_object(w, v, 1, path);
        lemma_same_to_end(w, v, 1, Rule::Object, path);
        assert(w.place(0) == w.at && v.place(0) == v.at);
        assert(starts_at(w.s, w.place(0), w.tokens[0]) && starts_at(
            v.s,
            v.place(0),
            v.tokens[0],
        )) by {
            reveal(Written::ok);
        }
        assert(after_token(w.s, w.at, "find"@) == Some(w.place(1)));
        assert(after_token(v.s, v.at, "find"@) == Some(v.place(1)));
    }
    reveal(read);
}

/// What is read to the end of the tokens in one text is read to their end in the other.
proof fn lemma_same_to_end(w: Written, v: Written, k: int, rule: Rule, path: Path)
    requires
        w.ok(),
        v.ok(),
        alike(w, v),
        0 <= k <= w.tokens.len(),
        same_read(w, v, k, rule, path),
    ensures
        read(rule, w.s, w.place(k), path) matches Walk::Done { value, at } ==> (at == w.end()
            ==> read(rule, v.s, v.place(k), path) == (Walk::Done { value, at: v.end() })),
{
    lemma_as_many(w, v);
    let one = read(rule, w.s, w.place(k), path);
    if one is Done && one.end() == w.end() {
        let j = same_to(w, v, k, one, read(rule, v.s, v.place(k), path));
        lemma_places(w, j, w.tokens.len() as int);
    }
}

} // verus!
