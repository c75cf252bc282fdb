//! Filters.
//!
//! ```text
//! find     = "find" object
//! object   = "{" obool "}" (("&&" / "||") object)?
//!          / "(" object ")"
//! obool    = ocompare (("&&" / "," / "||") obool)?
//! ocompare = oparens
//!          / key ":" (oparens / compare)
//! oparens  = "(" obool ")" / array / object
//! array    = "[" abool "]"
//! abool    = acompare (("&&" / "," / "||") abool)?
//! acompare = aparens / compare
//! aparens  = "(" abool ")" / array / object
//! compare  = ("==" / "~=" / "~" digits "=") string
//! key      = field / string
//! ```

use vstd::prelude::*;
use crate::filters::{FilterView, Operator};
use crate::grammar::{Step, later};
use crate::grammar::lexical::{after_token, bare_integer, expect, key, lemma_after_token};
use crate::grammar::lexical::{lemma_bare_integer, lemma_expect, lemma_key, lemma_marks};
use crate::grammar::lexical::{lemma_string_literal, must_string_literal};
use crate::key_builder::{Path, SegmentView};
use crate::text::starts_at;

verus! {

/// What becomes of an attempt to read a part of a filter on a path.
pub enum Walk<T> {
    /// It was read, and the next thing starts at `at`. The path is the same again.
    Done { value: T, at: int },
    /// The text does not fit. The reading stops at `at`, and on the path `path`.
    Fail { message: Seq<char>, at: int, path: Path },
}

impl<T> Walk<T> {
    /// Where the reading ends.
    pub open spec fn end(self) -> int {
        match self {
            Walk::Done { value, at } => at,
            Walk::Fail { message, at, path } => at,
        }
    }

    /// Whether the reading ends in the text, at `from` or later.
    pub open spec fn ends_within(self, s: Seq<char>, from: int) -> bool {
        from <= self.end() <= s.len()
    }
}

/// The filter on `path` that both filters make.
pub open spec fn both(left: FilterView, right: Walk<FilterView>, path: Path) -> Walk<FilterView> {
    match right {
        Walk::Done { value, at } => Walk::Done {
            value: FilterView::And(Box::new(left), Box::new(value), path),
            at,
        },
        Walk::Fail { .. } => right,
    }
}

/// The filter on `path` that one of the filters makes.
pub open spec fn either(left: FilterView, right: Walk<FilterView>, path: Path) -> Walk<FilterView> {
    match right {
        Walk::Done { value, at } => Walk::Done {
            value: FilterView::Or(Box::new(left), Box::new(value), path),
            at,
        },
        Walk::Fail { .. } => right,
    }
}

/// A filter as a part that was read.
pub open spec fn present(filter: Walk<FilterView>) -> Walk<Option<FilterView>> {
    match filter {
        Walk::Done { value, at } => Walk::Done { value: Some(value), at },
        Walk::Fail { message, at, path } => Walk::Fail { message, at, path },
    }
}

/// A filter with the token `token` behind it, where the filter starts no earlier than
/// at `from`.
pub open spec fn closed(
    s: Seq<char>,
    from: int,
    filter: Walk<FilterView>,
    token: Seq<char>,
    path: Path,
) -> Walk<FilterView> {
    match filter {
        Walk::Fail { .. } => filter,
        Walk::Done { value, at } => match expect(s, later(from, at), token) {
            Step::Done { value: _, at } => Walk::Done { value, at },
            Step::Fail { message, at } => Walk::Fail { message, at, path },
        },
    }
}

/// Reads the operator that asks for both filters: `&&` or a comma.
pub open spec fn conjunction(s: Seq<char>, at: int) -> Option<int> {
    if let Some(next) = after_token(s, at, "&&"@) {
        Some(next)
    } else {
        after_token(s, at, ","@)
    }
}

/// Reads the literal of a comparison.
pub open spec fn compare_literal(
    s: Seq<char>,
    at: int,
    path: Path,
    operator: Operator,
) -> Walk<FilterView> {
    match must_string_literal(s, at) {
        Step::Done { value: literal, at } => Walk::Done {
            value: FilterView::Compare { operator, literal, path },
            at,
        },
        Step::Fail { message, at } => Walk::Fail { message, at, path },
    }
}

/// Reads a comparison. No white space stands within its operator.
pub open spec fn compare(s: Seq<char>, at: int, path: Path) -> Walk<FilterView> {
    if let Some(next) = after_token(s, at, "=="@) {
        compare_literal(s, next, path, Operator::Exact)
    } else if let Some(next) = after_token(s, at, "~="@) {
        compare_literal(s, next, path, Operator::Stemmed)
    } else if starts_at(s, at, "~"@) {
        match bare_integer(s, at + 1) {
            Step::Fail { message, at } => Walk::Fail { message, at, path },
            Step::Done { value: None, at } => Walk::Fail {
                message: "Expected integer for proximity search"@,
                at,
                path,
            },
            Step::Done { value: Some(distance), at: equals } => match expect(s, equals, "="@) {
                Step::Fail { message, at } => Walk::Fail { message, at, path },
                Step::Done { value: _, at } => compare_literal(
                    s,
                    at,
                    path,
                    Operator::Distance(distance),
                ),
            },
        }
    } else {
        Walk::Fail { message: "Expected comparison operator"@, at, path }
    }
}

/// Reads a whole filter.
pub open spec fn find(s: Seq<char>, at: int, path: Path) -> Walk<FilterView> {
    match after_token(s, at, "find"@) {
        Some(next) => object(s, next, path),
        None => Walk::Fail { message: "Missing 'find' keyword"@, at, path },
    }
}

/// Reads a filter on an object, with others behind it.
pub open spec fn object(s: Seq<char>, at: int, path: Path) -> Walk<FilterView>
    decreases s.len() - at, 1int,
{
    match after_token(s, at, "{"@) {
        None => parens(s, at, path),
        Some(start) => {
            proof {
                lemma_marks();
                lemma_after_token(s, at, "{"@);
            }
            match closed(s, start, obool(s, start, path), "}"@, path) {
                Walk::Fail { message, at, path } => Walk::Fail { message, at, path },
                Walk::Done { value: left, at: end } => if let Some(next) = after_token(
                    s,
                    later(start, end),
                    "&&"@,
                ) {
                    proof {
                        lemma_after_token(s, later(start, end), "&&"@);
                    }
                    both(left, object(s, next, path), path)
                } else if let Some(next) = after_token(s, later(start, end), "||"@) {
                    proof {
                        lemma_after_token(s, later(start, end), "||"@);
                    }
                    either(left, object(s, next, path), path)
                } else {
                    Walk::Done { value: left, at: end }
                },
            }
        },
    }
}

/// Reads a filter on an object in parentheses.
pub open spec fn parens(s: Seq<char>, at: int, path: Path) -> Walk<FilterView>
    decreases s.len() - at, 0int,
{
    match expect(s, at, "("@) {
        Step::Fail { message, at } => Walk::Fail { message, at, path },
        Step::Done { value: _, at: start } => {
            proof {
                lemma_marks();
                lemma_expect(s, at, "("@);
            }
            closed(s, start, object(s, start, path), ")"@, path)
        },
    }
}

/// Reads filters on the members of an object, joined to the right.
pub open spec fn obool(s: Seq<char>, at: int, path: Path) -> Walk<FilterView>
    decreases s.len() - at, 4int,
{
    match ocompare(s, at, path) {
        Walk::Fail { message, at, path } => Walk::Fail { message, at, path },
        Walk::Done { value: left, at: end } => if let Some(next) = conjunction(s, later(at, end)) {
            proof {
                lemma_marks();
                lemma_after_token(s, later(at, end), "&&"@);
                lemma_after_token(s, later(at, end), ","@);
            }
            both(left, obool(s, next, path), path)
        } else if let Some(next) = after_token(s, later(at, end), "||"@) {
            proof {
                lemma_marks();
                lemma_after_token(s, later(at, end), "||"@);
            }
            either(left, obool(s, next, path), path)
        } else {
            Walk::Done { value: left, at: end }
        },
    }
}

/// Reads a filter on a member of an object, or a nested one.
pub open spec fn ocompare(s: Seq<char>, at: int, path: Path) -> Walk<FilterView>
    decreases s.len() - at, 3int,
{
    match oparens(s, at, path) {
        Walk::Fail { message, at, path } => Walk::Fail { message, at, path },
        Walk::Done { value: Some(filter), at } => Walk::Done { value: filter, at },
        Walk::Done { value: None, .. } => match key(s, at) {
            Step::Fail { message, at } => Walk::Fail { message, at, path },
            Step::Done { value: None, at } => Walk::Fail {
                message: "Expected object key or '('"@,
                at,
                path,
            },
            Step::Done { value: Some(name), at: colon } => {
                let inner = path.push(SegmentView::ObjectKey(name));
                match expect(s, colon, ":"@) {
                    Step::Fail { message, at } => Walk::Fail { message, at, path: inner },
                    Step::Done { value: _, at: start } => {
                        proof {
                            lemma_marks();
                            lemma_key(s, at);
                            lemma_expect(s, colon, ":"@);
                        }
                        match oparens(s, start, inner) {
                            Walk::Fail { message, at, path } => Walk::Fail { message, at, path },
                            Walk::Done { value: Some(filter), at } => Walk::Done {
                                value: filter,
                                at,
                            },
                            Walk::Done { value: None, at } => compare(s, at, inner),
                        }
                    },
                }
            },
        },
    }
}

/// Reads filters in parentheses, or one on an array or on an object, if one starts at
/// `at`.
pub open spec fn oparens(s: Seq<char>, at: int, path: Path) -> Walk<Option<FilterView>>
    decreases s.len() - at, 2int,
{
    if let Some(start) = after_token(s, at, "("@) {
        proof {
            lemma_marks();
            lemma_after_token(s, at, "("@);
        }
        present(closed(s, start, obool(s, start, path), ")"@, path))
    } else if starts_at(s, at, "["@) {
        present(array(s, at, path))
    } else if starts_at(s, at, "{"@) {
        present(object(s, at, path))
    } else {
        Walk::Done { value: None, at }
    }
}

/// Reads filters on the elements of an array, joined to the right.
pub open spec fn abool(s: Seq<char>, at: int, path: Path) -> Walk<FilterView>
    decreases s.len() - at, 4int,
{
    match acompare(s, at, path) {
        Walk::Fail { message, at, path } => Walk::Fail { message, at, path },
        Walk::Done { value: left, at: end } => if let Some(next) = conjunction(s, later(at, end)) {
            proof {
                lemma_marks();
                lemma_after_token(s, later(at, end), "&&"@);
                lemma_after_token(s, later(at, end), ","@);
            }
            both(left, abool(s, next, path), path)
        } else if let Some(next) = after_token(s, later(at, end), "||"@) {
            proof {
                lemma_marks();
                lemma_after_token(s, later(at, end), "||"@);
            }
            either(left, abool(s, next, path), path)
        } else {
            Walk::Done { value: left, at: end }
        },
    }
}

/// Reads a filter on an element of an array, or a nested one.
pub open spec fn acompare(s: Seq<char>, at: int, path: Path) -> Walk<FilterView>
    decreases s.len() - at, 3int,
{
    match aparens(s, at, path) {
        Walk::Fail { message, at, path } => Walk::Fail { message, at, path },
        Walk::Done { value: Some(filter), at } => Walk::Done { value: filter, at },
        Walk::Done { value: None, at } => compare(s, at, path),
    }
}

/// Reads filters in parentheses, or one on an array or on an object, if one starts at
/// `at`.
pub open spec fn aparens(s: Seq<char>, at: int, path: Path) -> Walk<Option<FilterView>>
    decreases s.len() - at, 2int,
{
    if let Some(start) = after_token(s, at, "("@) {
        proof {
            lemma_marks();
            lemma_after_token(s, at, "("@);
        }
        present(closed(s, start, abool(s, start, path), ")"@, path))
    } else if starts_at(s, at, "["@) {
        present(array(s, at, path))
    } else if starts_at(s, at, "{"@) {
        present(object(s, at, path))
    } else {
        Walk::Done { value: None, at }
    }
}

/// Reads filters on the elements of an array.
pub open spec fn array(s: Seq<char>, at: int, path: Path) -> Walk<FilterView>
    decreases s.len() - at, 0int,
{
    match after_token(s, at, "["@) {
        None => Walk::Fail { message: "Expected '['"@, at, path },
        Some(start) => {
            proof {
                lemma_marks();
                lemma_after_token(s, at, "["@);
            }
            closed(s, start, abool(s, start, path.push(SegmentView::Array)), "]"@, path)
        },
    }
}

/// A filter with a token behind it ends behind where the filter starts.
pub proof fn lemma_closed(
    s: Seq<char>,
    from: int,
    filter: Walk<FilterView>,
    token: Seq<char>,
    path: Path,
)
    requires
        filter.ends_within(s, from),
    ensures
        closed(s, from, filter, token, path).ends_within(s, from),
{
    lemma_expect(s, later(from, filter.end()), token);
}

/// A comparison is read forward, and takes at least one character.
pub proof fn lemma_compare(s: Seq<char>, at: int, path: Path)
    requires
        0 <= at <= s.len(),
    ensures
        compare(s, at, path).ends_within(s, at),
        compare(s, at, path) is Done ==> at < compare(s, at, path).end(),
{
    lemma_after_token(s, at, "=="@);
    lemma_after_token(s, at, "~="@);
    if let Some(next) = after_token(s, at, "=="@) {
        lemma_string_literal(s, next);
    }
    if let Some(next) = after_token(s, at, "~="@) {
        lemma_string_literal(s, next);
    }
    reveal_strlit("~");
    if starts_at(s, at, "~"@) {
        lemma_bare_integer(s, at + 1);
        if let Step::Done { value: Some(distance), at: equals } = bare_integer(s, at + 1) {
            lemma_expect(s, equals, "="@);
            if let Step::Done { value: _, at: quote } = expect(s, equals, "="@) {
                lemma_string_literal(s, quote);
            }
        }
    }
}

/// A filter on an object is read forward, and takes at least one character.
pub proof fn lemma_object(s: Seq<char>, at: int, path: Path)
    requires
        0 <= at <= s.len(),
    ensures
        object(s, at, path).ends_within(s, at),
        object(s, at, path) is Done ==> at < object(s, at, path).end(),
    decreases s.len() - at, 1int,
{
    lemma_marks();
    lemma_after_token(s, at, "{"@);
    if let Some(start) = after_token(s, at, "{"@) {
        lemma_obool(s, start, path);
        let filter = obool(s, start, path);
        lemma_closed(s, start, filter, "}"@, path);
        if let Walk::Done { value: left, at: end } = closed(s, start, filter, "}"@, path) {
            lemma_after_token(s, end, "&&"@);
            lemma_after_token(s, end, "||"@);
            if let Some(next) = after_token(s, end, "&&"@) {
                lemma_object(s, next, path);
            } else if let Some(next) = after_token(s, end, "||"@) {
                lemma_object(s, next, path);
            }
        }
    } else {
        lemma_parens(s, at, path);
    }
}

/// A filter in parentheses is read forward, and takes at least one character.
pub proof fn lemma_parens(s: Seq<char>, at: int, path: Path)
    requires
        0 <= at <= s.len(),
    ensures
        parens(s, at, path).ends_within(s, at),
        parens(s, at, path) is Done ==> at < parens(s, at, path).end(),
    decreases s.len() - at, 0int,
{
    lemma_marks();
    lemma_expect(s, at, "("@);
    if let Step::Done { value: _, at: start } = expect(s, at, "("@) {
        lemma_object(s, start, path);
        lemma_closed(s, start, object(s, start, path), ")"@, path);
    }
}

/// Filters on the members of an object are read forward, and take at least one character.
pub proof fn lemma_obool(s: Seq<char>, at: int, path: Path)
    requires
        0 <= at <= s.len(),
    ensures
        obool(s, at, path).ends_within(s, at),
        obool(s, at, path) is Done ==> at < obool(s, at, path).end(),
    decreases s.len() - at, 4int,
{
    lemma_marks();
    lemma_ocompare(s, at, path);
    if let Walk::Done { value: left, at: end } = ocompare(s, at, path) {
        lemma_after_token(s, end, "&&"@);
        lemma_after_token(s, end, ","@);
        lemma_after_token(s, end, "||"@);
        if let Some(next) = conjunction(s, end) {
            lemma_obool(s, next, path);
        } else if let Some(next) = after_token(s, end, "||"@) {
            lemma_obool(s, next, path);
        }
    }
}

/// A filter on a member of an object is read forward, and takes at least one character.
pub proof fn lemma_ocompare(s: Seq<char>, at: int, path: Path)
    requires
        0 <= at <= s.len(),
    ensures
        ocompare(s, at, path).ends_within(s, at),
        ocompare(s, at, path) is Done ==> at < ocompare(s, at, path).end(),
    decreases s.len() - at, 3int,
{
    lemma_marks();
    lemma_oparens(s, at, path);
    lemma_key(s, at);
    if let Step::Done { value: Some(name), at: colon } = key(s, at) {
        let inner = path.push(SegmentView::ObjectKey(name));
        lemma_expect(s, colon, ":"@);
        if let Step::Done { value: _, at: start } = expect(s, colon, ":"@) {
            lemma_oparens(s, start, inner);
            lemma_compare(s, start, inner);
        }
    }
}

/// A nested filter is read forward, and nothing is passed where there is none.
pub proof fn lemma_oparens(s: Seq<char>, at: int, path: Path)
    requires
        0 <= at <= s.len(),
    ensures
        oparens(s, at, path).ends_within(s, at),
        oparens(s, at, path) matches Walk::Done { value: None, at: end } ==> end == at,
        oparens(s, at, path) matches Walk::Done { value: Some(_), at: end } ==> at < end,
    decreases s.len() - at, 2int,
{
    lemma_marks();
    lemma_after_token(s, at, "("@);
    if let Some(start) = after_token(s, at, "("@) {
        lemma_obool(s, start, path);
        lemma_closed(s, start, obool(s, start, path), ")"@, path);
    } else if starts_at(s, at, "["@) {
        lemma_array(s, at, path);
    } else if starts_at(s, at, "{"@) {
        lemma_object(s, at, path);
    }
}

/// Filters on the elements of an array are read forward, and take at least one character.
pub proof fn lemma_abool(s: Seq<char>, at: int, path: Path)
    requires
        0 <= at <= s.len(),
    ensures
        abool(s, at, path).ends_within(s, at),
        abool(s, at, path) is Done ==> at < abool(s, at, path).end(),
    decreases s.len() - at, 4int,
{
    lemma_marks();
    lemma_acompare(s, at, path);
    if let Walk::Done { value: left, at: end } = acompare(s, at, path) {
        lemma_after_token(s, end, "&&"@);
        lemma_after_token(s, end, ","@);
        lemma_after_token(s, end, "||"@);
        if let Some(next) = conjunction(s, end) {
            lemma_abool(s, next, path);
        } else if let Some(next) = after_token(s, end, "||"@) {
            lemma_abool(s, next, path);
        }
    }
}

/// A filter on an element of an array is read forward, and takes at least one character.
pub proof fn lemma_acompare(s: Seq<char>, at: int, path: Path)
    requires
        0 <= at <= s.len(),
    ensures
        acompare(s, at, path).ends_within(s, at),
        acompare(s, at, path) is Done ==> at < acompare(s, at, path).end(),
    decreases s.len() - at, 3int,
{
    lemma_aparens(s, at, path);
    lemma_compare(s, at, path);
}

/// A nested filter is read forward, and nothing is passed where there is none.
pub proof fn lemma_aparens(s: Seq<char>, at: int, path: Path)
    requires
        0 <= at <= s.len(),
    ensures
        aparens(s, at, path).ends_within(s, at),
        aparens(s, at, path) matches Walk::Done { value: None, at: end } ==> end == at,
        aparens(s, at, path) matches Walk::Done { value: Some(_), at: end } ==> at < end,
    decreases s.len() - at, 2int,
{
    lemma_marks();
    lemma_after_token(s, at, "("@);
    if let Some(start) = after_token(s, at, "("@) {
        lemma_abool(s, start, path);
        lemma_closed(s, start, abool(s, start, path), ")"@, path);
    } else if starts_at(s, at, "["@) {
        lemma_array(s, at, path);
    } else if starts_at(s, at, "{"@) {
        lemma_object(s, at, path);
    }
}

/// A filter on an array is read forward, and takes at least one character.
pub proof fn lemma_array(s: Seq<char>, at: int, path: Path)
    requires
        0 <= at <= s.len(),
    ensures
        array(s, at, path).ends_within(s, at),
        array(s, at, path) is Done ==> at < array(s, at, path).end(),
    decreases s.len() - at, 0int,
{
    lemma_marks();
    lemma_after_token(s, at, "["@);
    if let Some(start) = after_token(s, at, "["@) {
        let inner = path.push(SegmentView::Array);
        lemma_abool(s, start, inner);
        lemma_closed(s, start, abool(s, start, inner), "]"@, path);
    }
}

} // verus!
