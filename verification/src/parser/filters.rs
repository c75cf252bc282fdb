//! Reading filters.

use vstd::prelude::*;
use crate::error::Error;
use crate::filters::{Comparison, Filter, Operator};
use crate::grammar::filters::{Walk, abool, acompare, aparens, array, compare, compare_literal};
use crate::grammar::filters::{conjunction, find, lemma_abool, lemma_acompare, lemma_closed};
use crate::grammar::filters::{lemma_object, lemma_obool, lemma_ocompare, lemma_oparens, object};
use crate::grammar::filters::{obool, ocompare, oparens, parens};
use crate::grammar::lexical::{lemma_after_token, lemma_expect, lemma_key, lemma_marks};
use crate::key_builder::SegmentView;
use crate::parser::{Parser, ParserView};
use crate::text::skip_ws;

verus! {

impl Parser {
    /// Whether a method that started from `was` ends as `walk` says: with its value on
    /// the path on which it started, or with its message on the path that it had reached,
    /// and at the position where it ends.
    pub open spec fn ends<T: DeepView>(
        self,
        was: ParserView,
        r: Result<T, Error>,
        walk: Walk<T::V>,
    ) -> bool {
        match walk {
            Walk::Done { value, at } => {
                &&& r matches Ok(read)
                &&& read.deep_view() == value
                &&& self@ == (ParserView { at, ..was })
            },
            Walk::Fail { message, at, path } => {
                &&& r matches Err(Error::Parse(text))
                &&& text@ == message
                &&& self@ == (ParserView { at, path, ..was })
            },
        }
    }

    /// Reads a whole filter from the start of a query, with white space before it.
    pub fn build_filter(&mut self) -> (r: Result<Filter, Error>)
        requires
            old(self).wf(),
        ensures
            final(self).wf(),
            final(self).ends(
                old(self)@,
                r,
                find(old(self)@.src, skip_ws(old(self)@.src, old(self)@.at), old(self)@.path),
            ),
    {
        self.ws();
        self.find()
    }

    /// Reads a whole filter and the white space behind it.
    pub fn find(&mut self) -> (r: Result<Filter, Error>)
        requires
            old(self).wf(),
        ensures
            final(self).wf(),
            final(self).ends(
                old(self)@,
                r,
                find(old(self)@.src, old(self)@.at, old(self)@.path),
            ),
    {
        if !self.consume("find") {
            return Err(Error::Parse("Missing 'find' keyword".to_owned()));
        }
        self.object()
    }

    /// Reads a filter on an object, with others behind it.
    pub fn object(&mut self) -> (r: Result<Filter, Error>)
        requires
            old(self).wf(),
        ensures
            final(self).wf(),
            final(self).ends(
                old(self)@,
                r,
                object(old(self)@.src, old(self)@.at, old(self)@.path),
            ),
        decreases old(self)@.src.len() - old(self)@.at, 1int,
    {
        proof {
            lemma_marks();
            lemma_after_token(self@.src, self@.at, "{"@);
        }
        if !self.consume("{") {
            return self.parens();
        }
        proof {
            let filter = obool(self@.src, self@.at, self@.path);
            lemma_obool(self@.src, self@.at, self@.path);
            lemma_closed(self@.src, self@.at, filter, "}"@, self@.path);
        }
        let left = match self.obool() {
            Ok(left) => left,
            Err(err) => {
                return Err(err);
            },
        };
        if let Err(err) = self.must_consume("}") {
            return Err(err);
        }
        proof {
            lemma_after_token(self@.src, self@.at, "&&"@);
            lemma_after_token(self@.src, self@.at, "||"@);
        }
        if self.consume("&&") {
            match self.object() {
                Ok(right) => Ok(Filter::And(Box::new(left), Box::new(right), self.kb.clone())),
                Err(err) => Err(err),
            }
        } else if self.consume("||") {
            match self.object() {
                Ok(right) => Ok(Filter::Or(Box::new(left), Box::new(right), self.kb.clone())),
                Err(err) => Err(err),
            }
        } else {
            Ok(left)
        }
    }

    /// Reads a filter on an object in parentheses.
    pub fn parens(&mut self) -> (r: Result<Filter, Error>)
        requires
            old(self).wf(),
        ensures
            final(self).wf(),
            final(self).ends(
                old(self)@,
                r,
                parens(old(self)@.src, old(self)@.at, old(self)@.path),
            ),
        decreases old(self)@.src.len() - old(self)@.at, 0int,
    {
        proof {
            lemma_marks();
            lemma_expect(self@.src, self@.at, "("@);
        }
        if let Err(err) = self.must_consume("(") {
            return Err(err);
        }
        proof {
            lemma_object(self@.src, self@.at, self@.path);
        }
        let filter = match self.object() {
            Ok(filter) => filter,
            Err(err) => {
                return Err(err);
            },
        };
        match self.must_consume(")") {
            Ok(()) => Ok(filter),
            Err(err) => Err(err),
        }
    }

    /// Reads the operator that asks for both filters, if it comes next.
    fn conjunction(&mut self) -> (r: bool)
        requires
            old(self).wf(),
        ensures
            final(self).wf(),
            match conjunction(old(self)@.src, old(self)@.at) {
                Some(next) => r && final(self)@ == (ParserView { at: next, ..old(self)@ }),
                None => !r && final(self)@ == old(self)@,
            },
    {
        if self.consume("&&") {
            true
        } else {
            self.consume(",")
        }
    }

    /// Reads filters on the members of an object, joined to the right.
    pub fn obool(&mut self) -> (r: Result<Filter, Error>)
        requires
            old(self).wf(),
        ensures
            final(self).wf(),
            final(self).ends(
                old(self)@,
                r,
                obool(old(self)@.src, old(self)@.at, old(self)@.path),
            ),
        decreases old(self)@.src.len() - old(self)@.at, 4int,
    {
        proof {
            lemma_marks();
            lemma_ocompare(self@.src, self@.at, self@.path);
        }
        let filter = match self.ocompare() {
            Ok(filter) => filter,
            Err(err) => {
                return Err(err);
            },
        };
        proof {
            lemma_after_token(self@.src, self@.at, "&&"@);
            lemma_after_token(self@.src, self@.at, ","@);
            lemma_after_token(self@.src, self@.at, "||"@);
        }
        if self.conjunction() {
            match self.obool() {
                Ok(right) => Ok(Filter::And(Box::new(filter), Box::new(right), self.kb.clone())),
                Err(err) => Err(err),
            }
        } else if self.consume("||") {
            match self.obool() {
                Ok(right) => Ok(Filter::Or(Box::new(filter), Box::new(right), self.kb.clone())),
                Err(err) => Err(err),
            }
        } else {
            Ok(filter)
        }
    }

    /// Reads a filter on a member of an object, or a nested one.
    pub fn ocompare(&mut self) -> (r: Result<Filter, Error>)
        requires
            old(self).wf(),
        ensures
            final(self).wf(),
            final(self).ends(
                old(self)@,
                r,
                ocompare(old(self)@.src, old(self)@.at, old(self)@.path),
            ),
        decreases old(self)@.src.len() - old(self)@.at, 3int,
    {
        proof {
            lemma_marks();
            lemma_oparens(self@.src, self@.at, self@.path);
        }
        match self.oparens() {
            Ok(Some(filter)) => {
                return Ok(filter);
            },
            Ok(None) => {},
            Err(err) => {
                return Err(err);
            },
        }
        proof {
            lemma_key(self@.src, self@.at);
        }
        let field = match self.consume_key() {
            Ok(Some(field)) => field,
            Ok(None) => {
                return Err(Error::Parse("Expected object key or '('".to_owned()));
            },
            Err(err) => {
                return Err(err);
            },
        };
        self.kb.push_object_key(field.as_str());
        let ghost inner = old(self)@.path.push(SegmentView::ObjectKey(field@));
        proof {
            lemma_expect(self@.src, self@.at, ":"@);
        }
        if let Err(err) = self.must_consume(":") {
            return Err(err);
        }
        proof {
            lemma_oparens(self@.src, self@.at, self@.path);
            assert(inner.drop_last() =~= old(self)@.path);
        }
        let filter = match self.oparens() {
            Ok(Some(filter)) => filter,
            Ok(None) => match self.compare() {
                Ok(filter) => filter,
                Err(err) => {
                    return Err(err);
                },
            },
            Err(err) => {
                return Err(err);
            },
        };
        self.kb.pop_object_key();
        Ok(filter)
    }

    /// Reads filters in parentheses, or one on an array or on an object, if one comes
    /// next.
    pub fn oparens(&mut self) -> (r: Result<Option<Filter>, Error>)
        requires
            old(self).wf(),
        ensures
            final(self).wf(),
            final(self).ends(
                old(self)@,
                r,
                oparens(old(self)@.src, old(self)@.at, old(self)@.path),
            ),
        decreases old(self)@.src.len() - old(self)@.at, 2int,
    {
        proof {
            lemma_marks();
            lemma_after_token(self@.src, self@.at, "("@);
        }
        if self.consume("(") {
            proof {
                lemma_obool(self@.src, self@.at, self@.path);
            }
            let filter = match self.obool() {
                Ok(filter) => filter,
                Err(err) => {
                    return Err(err);
                },
            };
            match self.must_consume(")") {
                Ok(()) => Ok(Some(filter)),
                Err(err) => Err(err),
            }
        } else if self.could_consume("[") {
            match self.array() {
                Ok(filter) => Ok(Some(filter)),
                Err(err) => Err(err),
            }
        } else if self.could_consume("{") {
            match self.object() {
                Ok(filter) => Ok(Some(filter)),
                Err(err) => Err(err),
            }
        } else {
            Ok(None)
        }
    }

    /// Reads the literal of a comparison.
    fn compare_literal(&mut self, operator: Operator) -> (r: Result<Filter, Error>)
        requires
            old(self).wf(),
        ensures
            final(self).wf(),
            final(self).ends(
                old(self)@,
                r,
                compare_literal(old(self)@.src, old(self)@.at, old(self)@.path, operator),
            ),
    {
        match self.must_consume_string_literal() {
            Ok(literal) => Ok(
                Filter::Compare(Comparison { operator, literal, kb: self.kb.clone() }),
            ),
            Err(err) => Err(err),
        }
    }

    /// Reads a comparison and the white space behind it.
    pub fn compare(&mut self) -> (r: Result<Filter, Error>)
        requires
            old(self).wf(),
        ensures
            final(self).wf(),
            final(self).ends(
                old(self)@,
                r,
                compare(old(self)@.src, old(self)@.at, old(self)@.path),
            ),
    {
        if self.consume("==") {
            self.compare_literal(Operator::Exact)
        } else if self.consume("~=") {
            self.compare_literal(Operator::Stemmed)
        } else if self.pass("~") {
            proof {
                reveal_strlit("~");
            }
            let distance: i64 = match self.consume_digits() {
                Ok(Some(distance)) => distance,
                Ok(None) => {
                    return Err(Error::Parse("Expected integer for proximity search".to_owned()));
                },
                Err(err) => {
                    return Err(err);
                },
            };
            if let Err(err) = self.must_consume("=") {
                return Err(err);
            }
            self.compare_literal(Operator::Distance(distance))
        } else {
            Err(Error::Parse("Expected comparison operator".to_owned()))
        }
    }

    /// Reads filters on the elements of an array, joined to the right.
    pub fn abool(&mut self) -> (r: Result<Filter, Error>)
        requires
            old(self).wf(),
        ensures
            final(self).wf(),
            final(self).ends(
                old(self)@,
                r,
                abool(old(self)@.src, old(self)@.at, old(self)@.path),
            ),
        decreases old(self)@.src.len() - old(self)@.at, 4int,
    {
        proof {
            lemma_marks();
            lemma_acompare(self@.src, self@.at, self@.path);
        }
        let filter = match self.acompare() {
            Ok(filter) => filter,
            Err(err) => {
                return Err(err);
            },
        };
        proof {
            lemma_after_token(self@.src, self@.at, "&&"@);
            lemma_after_token(self@.src, self@.at, ","@);
            lemma_after_token(self@.src, self@.at, "||"@);
        }
        if self.conjunction() {
            match self.abool() {
                Ok(right) => Ok(Filter::And(Box::new(filter), Box::new(right), self.kb.clone())),
                Err(err) => Err(err),
            }
        } else if self.consume("||") {
            match self.abool() {
                Ok(right) => Ok(Filter::Or(Box::new(filter), Box::new(right), self.kb.clone())),
                Err(err) => Err(err),
            }
        } else {
            Ok(filter)
        }
    }

    /// Reads a filter on an element of an array, or a nested one.
    pub fn acompare(&mut self) -> (r: Result<Filter, Error>)
        requires
            old(self).wf(),
        ensures
            final(self).wf(),
            final(self).ends(
                old(self)@,
                r,
                acompare(old(self)@.src, old(self)@.at, old(self)@.path),
            ),
        decreases old(self)@.src.len() - old(self)@.at, 3int,
    {
        match self.aparens() {
            Ok(Some(filter)) => Ok(filter),
            Ok(None) => self.compare(),
            Err(err) => Err(err),
        }
    }

    /// Reads filters in parentheses, or one on an array or on an object, if one comes
    /// next.
    pub fn aparens(&mut self) -> (r: Result<Option<Filter>, Error>)
        requires
            old(self).wf(),
        ensures
            final(self).wf(),
            final(self).ends(
                old(self)@,
                r,
                aparens(old(self)@.src, old(self)@.at, old(self)@.path),
            ),
        decreases old(self)@.src.len() - old(self)@.at, 2int,
    {
        proof {
            lemma_marks();
            lemma_after_token(self@.src, self@.at, "("@);
        }
        if self.consume("(") {
            proof {
                lemma_abool(self@.src, self@.at, self@.path);
            }
            let filter = match self.abool() {
                Ok(filter) => filter,
                Err(err) => {
                    return Err(err);
                },
            };
            match self.must_consume(")") {
                Ok(()) => Ok(Some(filter)),
                Err(err) => Err(err),
            }
        } else if self.could_consume("[") {
            match self.array() {
                Ok(filter) => Ok(Some(filter)),
                Err(err) => Err(err),
            }
        } else if self.could_consume("{") {
            match self.object() {
                Ok(filter) => Ok(Some(filter)),
                Err(err) => Err(err),
            }
        } else {
            Ok(None)
        }
    }

    /// Reads filters on the elements of an array, and the white space behind them.
    pub fn array(&mut self) -> (r: Result<Filter, Error>)
        requires
            old(self).wf(),
        ensures
            final(self).wf(),
            final(self).ends(
                old(self)@,
                r,
                array(old(self)@.src, old(self)@.at, old(self)@.path),
            ),
        decreases old(self)@.src.len() - old(self)@.at, 0int,
    {
        proof {
            lemma_marks();
            lemma_after_token(self@.src, self@.at, "["@);
        }
        if !self.consume("[") {
            return Err(Error::Parse("Expected '['".to_owned()));
        }
        self.kb.push_array();
        proof {
            lemma_abool(self@.src, self@.at, self@.path);
            assert(self@.path.drop_last() =~= old(self)@.path);
        }
        let filter = match self.abool() {
            Ok(filter) => filter,
            Err(err) => {
                return Err(err);
            },
        };
        self.kb.pop_array();
        match self.must_consume("]") {
            Ok(()) => Ok(filter),
            Err(err) => Err(err),
        }
    }
}

} // verus!
