//! Key paths, and the clauses of a query on the order and the number of its results.

use vstd::prelude::*;
use crate::grammar::{Step, later};
use crate::grammar::json::{json, lemma_json};
use crate::grammar::lexical::{after_token, expect, field, integer, lemma_after_token, lemma_expect};
use crate::grammar::lexical::{lemma_field, lemma_integer, lemma_marks, lemma_skip_ws};
use crate::grammar::lexical::{lemma_string_literal, must_string_literal};
use crate::json_value::JsonView;
use crate::key_builder::{Path, SegmentView};
use crate::query::{Sort, SortView};
use crate::text::skip_ws;

verus! {

/// Reads the steps of a key path behind those of `before`.
pub open spec fn path_steps(s: Seq<char>, at: int, before: Path) -> Step<Path>
    decreases s.len() - at,
{
    if let Some(start) = after_token(s, at, "["@) {
        match integer(s, start) {
            Step::Fail { message, at } => Step::Fail { message, at },
            Step::Done { value: None, at } => Step::Fail {
                message: "Expected array index integer."@,
                at,
            },
            Step::Done { value: Some(index), at: end } => match expect(s, end, "]"@) {
                Step::Fail { message, at } => Step::Fail { message, at },
                Step::Done { value: _, at: next } => {
                    proof {
                        lemma_marks();
                        lemma_after_token(s, at, "["@);
                        lemma_integer(s, start);
                        lemma_expect(s, end, "]"@);
                    }
                    path_steps(s, next, before.push(SegmentView::ArrayIndex(index as u64)))
                },
            },
        }
    } else if let Some(start) = after_token(s, at, "."@) {
        match field(s, start) {
            None => Step::Fail { message: "Expected object key."@, at: start },
            Some((name, next)) => {
                proof {
                    lemma_marks();
                    lemma_after_token(s, at, "."@);
                    lemma_field(s, start);
                }
                path_steps(s, next, before.push(SegmentView::ObjectKey(name)))
            },
        }
    } else {
        Step::Done { value: before, at: skip_ws(s, at) }
    }
}

/// A path as a value that was read.
pub open spec fn some_path(step: Step<Path>) -> Step<Option<Path>> {
    match step {
        Step::Done { value, at } => Step::Done { value: Some(value), at },
        Step::Fail { message, at } => Step::Fail { message, at },
    }
}

/// Reads a key path, if a dot stands at `at`. A dot alone leads to the whole document.
pub open spec fn keypath(s: Seq<char>, at: int) -> Step<Option<Path>> {
    match after_token(s, at, "."@) {
        None => Step::Done { value: None, at },
        Some(start) => match after_token(s, start, "["@) {
            Some(quote) => match must_string_literal(s, quote) {
                Step::Fail { message, at } => Step::Fail { message, at },
                Step::Done { value: name, at: end } => match expect(s, end, "]"@) {
                    Step::Fail { message, at } => Step::Fail { message, at },
                    Step::Done { value: _, at: next } => some_path(
                        path_steps(s, next, seq![SegmentView::ObjectKey(name)]),
                    ),
                },
            },
            None => match field(s, start) {
                Some((name, next)) => some_path(
                    path_steps(s, next, seq![SegmentView::ObjectKey(name)]),
                ),
                None => Step::Done { value: Some(Path::empty()), at: skip_ws(s, start) },
            },
        },
    }
}

/// Reads the word for a direction, if one comes next.
pub open spec fn direction(s: Seq<char>, at: int) -> (Option<Sort>, int) {
    if let Some(next) = after_token(s, at, "asc"@) {
        (Some(Sort::Asc), next)
    } else if let Some(next) = after_token(s, at, "desc"@) {
        (Some(Sort::Desc), next)
    } else {
        (None, at)
    }
}

/// Reads what stands in for a missing value in the order, null if nothing is given.
pub open spec fn sort_default(s: Seq<char>, at: int) -> Step<JsonView> {
    match after_token(s, at, "default"@) {
        None => Step::Done { value: JsonView::Null, at },
        Some(equals) => match expect(s, equals, "="@) {
            Step::Fail { message, at } => Step::Fail { message, at },
            Step::Done { value: _, at: start } => match json(s, start) {
                Step::Fail { message, at } => Step::Fail { message, at },
                Step::Done { value: None, at } => Step::Fail {
                    message: "Expected Json after default."@,
                    at,
                },
                Step::Done { value: Some(value), at } => Step::Done { value, at },
            },
        },
    }
}

/// Reads one key of the order. The direction stands before the default or behind it, and
/// behind it counts more; without one it is ascending.
pub open spec fn sort_key(s: Seq<char>, at: int) -> Step<SortView> {
    match keypath(s, at) {
        Step::Fail { message, at } => Step::Fail { message, at },
        Step::Done { value: None, at } => Step::Fail {
            message: "Expected field path in sort expression."@,
            at,
        },
        Step::Done { value: Some(path), at: end } => {
            let (early, start) = direction(s, end);
            match sort_default(s, start) {
                Step::Fail { message, at } => Step::Fail { message, at },
                Step::Done { value: default, at: behind } => {
                    let (late, next) = direction(s, behind);
                    let sort = match (early, late) {
                        (_, Some(sort)) => sort,
                        (Some(sort), None) => sort,
                        (None, None) => Sort::Asc,
                    };
                    Step::Done { value: SortView { path, sort, default }, at: next }
                },
            }
        },
    }
}

/// Reads the keys of the order behind those of `before`, with commas between them.
pub open spec fn sort_keys(s: Seq<char>, at: int, before: Seq<SortView>) -> Step<Seq<SortView>>
    decreases s.len() - at,
{
    match sort_key(s, at) {
        Step::Fail { message, at } => Step::Fail { message, at },
        Step::Done { value, at: end } => match after_token(s, later(at, end), ","@) {
            Some(next) => {
                proof {
                    lemma_marks();
                    lemma_after_token(s, later(at, end), ","@);
                }
                sort_keys(s, next, before.push(value))
            },
            None => Step::Done { value: before.push(value), at: end },
        },
    }
}

/// Reads the clause on the order of the results, which may be missing.
pub open spec fn sort_clause(s: Seq<char>, at: int) -> Step<Seq<SortView>> {
    match after_token(s, at, "sort"@) {
        Some(start) => sort_keys(s, start, Seq::empty()),
        None => Step::Done { value: Seq::empty(), at },
    }
}

/// Reads the clause on the number of results, which may be missing: then as many as there
/// are.
pub open spec fn limit_clause(s: Seq<char>, at: int) -> Step<usize> {
    match after_token(s, at, "limit"@) {
        None => Step::Done { value: usize::MAX, at },
        Some(start) => match integer(s, start) {
            Step::Fail { message, at } => Step::Fail { message, at },
            Step::Done { value: None, at } => Step::Fail {
                message: "limit expects an integer greater than 0"@,
                at,
            },
            Step::Done { value: Some(n), at } => if n <= 0 {
                Step::Fail { message: "limit must be an integer greater than 0"@, at }
            } else {
                Step::Done { value: n as usize, at }
            },
        },
    }
}

/// The steps of a key path are read forward.
pub proof fn lemma_path_steps(s: Seq<char>, at: int, before: Path)
    requires
        0 <= at <= s.len(),
    ensures
        path_steps(s, at, before).ends_within(s, at),
    decreases s.len() - at,
{
    lemma_marks();
    lemma_after_token(s, at, "["@);
    lemma_after_token(s, at, "."@);
    lemma_skip_ws(s, at);
    if let Some(start) = after_token(s, at, "["@) {
        lemma_integer(s, start);
        if let Step::Done { value: Some(index), at: end } = integer(s, start) {
            lemma_expect(s, end, "]"@);
            if let Step::Done { value: _, at: next } = expect(s, end, "]"@) {
                lemma_path_steps(s, next, before.push(SegmentView::ArrayIndex(index as u64)));
            }
        }
    } else if let Some(start) = after_token(s, at, "."@) {
        lemma_field(s, start);
        if let Some((name, next)) = field(s, start) {
            lemma_path_steps(s, next, before.push(SegmentView::ObjectKey(name)));
        }
    }
}

/// A key path takes at least one character.
pub proof fn lemma_keypath(s: Seq<char>, at: int)
    requires
        0 <= at <= s.len(),
    ensures
        keypath(s, at).ends_within(s, at),
        keypath(s, at).takes_something(at),
{
    lemma_marks();
    lemma_after_token(s, at, "."@);
    if let Some(start) = after_token(s, at, "."@) {
        lemma_skip_ws(s, start);
        lemma_after_token(s, start, "["@);
        if let Some(quote) = after_token(s, start, "["@) {
            lemma_string_literal(s, quote);
            if let Step::Done { value: name, at: end } = must_string_literal(s, quote) {
                lemma_expect(s, end, "]"@);
                if let Step::Done { value: _, at: next } = expect(s, end, "]"@) {
                    lemma_path_steps(s, next, seq![SegmentView::ObjectKey(name)]);
                }
            }
        } else {
            lemma_field(s, start);
            if let Some((name, next)) = field(s, start) {
                lemma_path_steps(s, next, seq![SegmentView::ObjectKey(name)]);
            }
        }
    }
}

/// A direction is read forward.
pub proof fn lemma_direction(s: Seq<char>, at: int)
    requires
        0 <= at <= s.len(),
    ensures
        at <= direction(s, at).1 <= s.len(),
{
    lemma_after_token(s, at, "asc"@);
    lemma_after_token(s, at, "desc"@);
}

/// A key of the order takes at least one character.
pub proof fn lemma_sort_key(s: Seq<char>, at: int)
    requires
        0 <= at <= s.len(),
    ensures
        sort_key(s, at).ends_within(s, at),
        sort_key(s, at) is Done ==> at < sort_key(s, at).end(),
{
    lemma_keypath(s, at);
    if let Step::Done { value: Some(path), at: end } = keypath(s, at) {
        lemma_direction(s, end);
        let start = direction(s, end).1;
        lemma_after_token(s, start, "default"@);
        if let Some(equals) = after_token(s, start, "default"@) {
            lemma_expect(s, equals, "="@);
            if let Step::Done { value: _, at: first } = expect(s, equals, "="@) {
                lemma_json(s, first);
            }
        }
        if let Step::Done { value: default, at: behind } = sort_default(s, start) {
            lemma_direction(s, behind);
        }
    }
}

} // verus!
