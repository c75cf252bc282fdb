//! The clauses of a query follow one another.

use vstd::prelude::*;
use crate::grammar::clauses::{limit_clause, sort_clause};
use crate::grammar::filters::{find, lemma_object};
use crate::grammar::lexical::{after_token, lemma_after_token, lemma_integer};
use crate::grammar::results::{lemma_ret_value, return_clause};
use crate::key_builder::Path;
use crate::laws::clauses::lemma_some_sort_key;

verus! {

/// Each clause is read forward and within the query, also where it fails, so that the next
/// one can be read from where it ends.
pub proof fn law_clauses_read_forward(s: Seq<char>, at: int, path: Path)
    requires
        0 <= at <= s.len(),
    ensures
        find(s, at, path).ends_within(s, at),
        sort_clause(s, at).ends_within(s, at),
        return_clause(s, at).ends_within(s, at),
        limit_clause(s, at).ends_within(s, at),
{
    lemma_after_token(s, at, "find"@);
    lemma_after_token(s, at, "sort"@);
    lemma_after_token(s, at, "return"@);
    lemma_after_token(s, at, "limit"@);
    if let Some(start) = after_token(s, at, "find"@) {
        lemma_object(s, start, path);
    }
    if let Some(start) = after_token(s, at, "sort"@) {
        lemma_some_sort_key(s, start, Seq::empty());
    }
    if let Some(start) = after_token(s, at, "return"@) {
        lemma_ret_value(s, start);
    }
    if let Some(start) = after_token(s, at, "limit"@) {
        lemma_integer(s, start);
    }
}

} // verus!
