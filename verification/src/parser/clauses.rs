//! Reading key paths, and the clauses on the order and the number of the results.

use vstd::prelude::*;
use crate::error::Error;
use crate::grammar::clauses::{direction, keypath, lemma_sort_key, limit_clause, path_steps};
use crate::grammar::clauses::{some_path, sort_clause, sort_default, sort_key, sort_keys};
use crate::grammar::lexical::{field, integer, lemma_after_token, lemma_expect, lemma_field};
use crate::grammar::lexical::{lemma_integer, lemma_marks};
use crate::json_value::JsonValue;
use crate::key_builder::{KeyBuilder, SegmentView};
use crate::parser::{Parser, ParserView};
use crate::query::{Sort, SortInfo};

verus! {

impl Parser {
    /// Reads a key path and the white space behind it, if a dot comes next.
    pub fn consume_keypath(&mut self) -> (r: Result<Option<KeyBuilder>, Error>)
        requires
            old(self).wf(),
        ensures
            final(self).wf(),
            final(self).lands(old(self)@, r, keypath(old(self)@.src, old(self)@.at)),
    {
        if !self.consume(".") {
            return Ok(None);
        }
        let key: String = if self.consume("[") {
            let key = match self.must_consume_string_literal() {
                Ok(key) => key,
                Err(err) => {
                    return Err(err);
                },
            };
            if let Err(err) = self.must_consume("]") {
                return Err(err);
            }
            key
        } else {
            match self.consume_field() {
                Some(key) => key,
                None => {
                    self.ws();
                    return Ok(Some(KeyBuilder::new()));
                },
            }
        };
        let mut kb = KeyBuilder::new();
        kb.push_object_key(key.as_str());
        assert(kb.deep_view() =~= seq![SegmentView::ObjectKey(key@)]);
        loop
            invariant
                self.wf(),
                self@.src == old(self)@.src,
                self@.path == old(self)@.path,
                keypath(old(self)@.src, old(self)@.at) == some_path(
                    path_steps(self@.src, self@.at, kb.deep_view()),
                ),
            decreases self@.src.len() - self@.at,
        {
            proof {
                lemma_marks();
                lemma_after_token(self@.src, self@.at, "["@);
                lemma_after_token(self@.src, self@.at, "."@);
            }
            if self.consume("[") {
                proof {
                    lemma_integer(self@.src, self@.at);
                }
                let index: i64 = match self.consume_integer() {
                    Ok(Some(index)) => index,
                    Ok(None) => {
                        return Err(Error::Parse("Expected array index integer.".to_owned()));
                    },
                    Err(err) => {
                        return Err(err);
                    },
                };
                kb.push_array_index(index as u64);
                proof {
                    lemma_expect(self@.src, self@.at, "]"@);
                }
                if let Err(err) = self.must_consume("]") {
                    return Err(err);
                }
            } else if self.consume(".") {
                proof {
                    lemma_field(self@.src, self@.at);
                }
                match self.consume_field() {
                    Some(key) => {
                        kb.push_object_key(key.as_str());
                    },
                    None => {
                        return Err(Error::Parse("Expected object key.".to_owned()));
                    },
                }
            } else {
                self.ws();
                return Ok(Some(kb));
            }
        }
    }

    /// Reads the word for a direction and the white space behind it, if one comes next.
    pub(crate) fn consume_direction(&mut self) -> (r: Option<Sort>)
        requires
            old(self).wf(),
        ensures
            final(self).wf(),
            r == direction(old(self)@.src, old(self)@.at).0,
            final(self)@ == (ParserView {
                at: direction(old(self)@.src, old(self)@.at).1,
                ..old(self)@
            }),
    {
        if self.consume("asc") {
            Some(Sort::Asc)
        } else if self.consume("desc") {
            Some(Sort::Desc)
        } else {
            None
        }
    }

    /// Reads what stands in for a missing value in the order.
    fn sort_default(&mut self) -> (r: Result<JsonValue, Error>)
        requires
            old(self).wf(),
        ensures
            final(self).wf(),
            final(self).lands(old(self)@, r, sort_default(old(self)@.src, old(self)@.at)),
    {
        if !self.consume("default") {
            return Ok(JsonValue::Null);
        }
        if let Err(err) = self.must_consume("=") {
            return Err(err);
        }
        match self.json() {
            Ok(Some(json)) => Ok(json),
            Ok(None) => Err(Error::Parse("Expected Json after default.".to_owned())),
            Err(err) => Err(err),
        }
    }

    /// Reads one key of the order and the white space behind it.
    fn sort_key(&mut self) -> (r: Result<SortInfo, Error>)
        requires
            old(self).wf(),
        ensures
            final(self).wf(),
            final(self).lands(old(self)@, r, sort_key(old(self)@.src, old(self)@.at)),
    {
        let kb = match self.consume_keypath() {
            Ok(Some(kb)) => kb,
            Ok(None) => {
                return Err(Error::Parse("Expected field path in sort expression.".to_owned()));
            },
            Err(err) => {
                return Err(err);
            },
        };
        let early = self.consume_direction();
        let default = match self.sort_default() {
            Ok(default) => default,
            Err(err) => {
                return Err(err);
            },
        };
        let late = self.consume_direction();
        let sort = match (early, late) {
            (_, Some(sort)) => sort,
            (Some(sort), None) => sort,
            (None, None) => Sort::Asc,
        };
        Ok(SortInfo { kb, sort, default })
    }

    /// Reads the clause on the order of the results, if the word `sort` comes next, and
    /// returns its keys as they stand in the query. Without the clause there are none.
    pub fn sort_clause(&mut self) -> (r: Result<Vec<SortInfo>, Error>)
        requires
            old(self).wf(),
        ensures
            final(self).wf(),
            final(self).lands(old(self)@, r, sort_clause(old(self)@.src, old(self)@.at)),
    {
        let mut sort_infos: Vec<SortInfo> = Vec::new();
        assert(sort_infos.deep_view() =~= Seq::empty());
        if !self.consume("sort") {
            return Ok(sort_infos);
        }
        loop
            invariant
                self.wf(),
                self@.src == old(self)@.src,
                self@.path == old(self)@.path,
                sort_clause(old(self)@.src, old(self)@.at) == sort_keys(
                    self@.src,
                    self@.at,
                    sort_infos.deep_view(),
                ),
            decreases self@.src.len() - self@.at,
        {
            let ghost before = sort_infos.deep_view();
            proof {
                lemma_marks();
                lemma_sort_key(self@.src, self@.at);
            }
            match self.sort_key() {
                Ok(info) => {
                    sort_infos.push(info);
                    assert(sort_infos.deep_view() =~= before.push(info.deep_view()));
                },
                Err(err) => {
                    return Err(err);
                },
            }
            proof {
                lemma_after_token(self@.src, self@.at, ","@);
            }
            if !self.consume(",") {
                return Ok(sort_infos);
            }
        }
    }

    /// Reads the clause on the number of results, if the word `limit` comes next. Without
    /// the clause the number is the greatest there is.
    pub fn limit_clause(&mut self) -> (r: Result<usize, Error>)
        requires
            old(self).wf(),
        ensures
            final(self).wf(),
            final(self).lands(old(self)@, r, limit_clause(old(self)@.src, old(self)@.at)),
    {
        if !self.consume("limit") {
            return Ok(usize::MAX);
        }
        match self.consume_integer() {
            Ok(Some(i)) => {
                if i <= 0 {
                    return Err(Error::Parse("limit must be an integer greater than 0".to_owned()));
                }
                Ok(#[verifier::truncate] (i as usize))
            },
            Ok(None) => Err(Error::Parse("limit expects an integer greater than 0".to_owned())),
            Err(err) => Err(err),
        }
    }
}

} // verus!
