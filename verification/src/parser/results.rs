//! Reading the clause on the form of the results.

use vstd::prelude::*;
use crate::error::Error;
use crate::grammar::lexical::{lemma_after_token, lemma_expect, lemma_key, lemma_marks};
use crate::grammar::results::{aggregate, aggregate_argument, aggregate_order, aggregate_word};
use crate::grammar::results::{finish_value, lemma_ret_leaf, lemma_ret_value, ret_array, ret_fields};
use crate::grammar::results::{ret_leaf, ret_literal, ret_object, ret_slots, ret_value};
use crate::grammar::results::{return_clause, separator};
use crate::json_value::JsonValue;
use crate::key_builder::{KeyBuilder, SegmentView};
use crate::parser::{Parser, ParserView};
use crate::query::{AggregateFun, RetArray, RetLiteral, RetObject, RetValue, Returnable, Sort};
use crate::query::{lemma_ret_array_view, lemma_ret_object_view};

verus! {

broadcast use {lemma_ret_array_view, lemma_ret_object_view};

impl Parser {
    /// Reads the word of a function over groups and the white space behind it, if one
    /// comes next.
    fn aggregate_word(&mut self) -> (r: Option<AggregateFun>)
        requires
            old(self).wf(),
        ensures
            final(self).wf(),
            match aggregate_word(old(self)@.src, old(self)@.at) {
                Some((fun, next)) => r == Some(fun) && final(self)@ == (ParserView {
                    at: next,
                    ..old(self)@
                }),
                None => r is None && final(self)@ == old(self)@,
            },
    {
        if self.consume("group") {
            Some(AggregateFun::GroupAsc)
        } else if self.consume("sum") {
            Some(AggregateFun::Sum)
        } else if self.consume("max") {
            Some(AggregateFun::Max)
        } else if self.consume("min") {
            Some(AggregateFun::Min)
        } else if self.consume("list") {
            Some(AggregateFun::List)
        } else if self.consume("concat") {
            Some(AggregateFun::Concat)
        } else if self.consume("avg") {
            Some(AggregateFun::Avg)
        } else if self.consume("count") {
            Some(AggregateFun::Count)
        } else {
            None
        }
    }

    /// Reads the text that `concat` puts between the values.
    fn separator(&mut self) -> (r: Result<String, Error>)
        requires
            old(self).wf(),
        ensures
            final(self).wf(),
            final(self).lands(old(self)@, r, separator(old(self)@.src, old(self)@.at)),
    {
        if !self.consume("sep") {
            return Ok(",".to_owned());
        }
        if let Err(err) = self.must_consume("=") {
            return Err(err);
        }
        self.must_consume_string_literal()
    }

    /// Reads the order that is given to the function `fun`.
    fn aggregate_order(&mut self, fun: AggregateFun) -> (r: Result<AggregateFun, Error>)
        requires
            old(self).wf(),
        ensures
            final(self).wf(),
            final(self).lands(old(self)@, r, aggregate_order(old(self)@.src, old(self)@.at, fun)),
    {
        if !self.consume("order") {
            return Ok(fun);
        }
        if let Err(err) = self.must_consume("=") {
            return Err(err);
        }
        match self.consume_direction() {
            Some(Sort::Asc) => Ok(AggregateFun::GroupAsc),
            Some(Sort::Desc) => Ok(AggregateFun::GroupDesc),
            None => Err(Error::Parse("Expected asc or desc".to_owned())),
        }
    }

    /// Reads what stands in the parentheses of the function `fun`, and the closing one.
    fn aggregate_argument(&mut self, fun: AggregateFun) -> (r: Result<
        Option<(AggregateFun, KeyBuilder, JsonValue)>,
        Error,
    >)
        requires
            old(self).wf(),
        ensures
            final(self).wf(),
            final(self).lands(
                old(self)@,
                r,
                aggregate_argument(old(self)@.src, old(self)@.at, fun),
            ),
    {
        if fun == AggregateFun::Count {
            return match self.must_consume(")") {
                Ok(()) => Ok(Some((fun, KeyBuilder::new(), JsonValue::Null))),
                Err(err) => Err(err),
            };
        }
        let kb = match self.consume_keypath() {
            Ok(Some(kb)) => kb,
            Ok(None) => {
                return Err(Error::Parse("Expected keypath or bind variable".to_owned()));
            },
            Err(err) => {
                return Err(err);
            },
        };
        if fun == AggregateFun::Concat {
            let text = match self.separator() {
                Ok(text) => text,
                Err(err) => {
                    return Err(err);
                },
            };
            return match self.must_consume(")") {
                Ok(()) => Ok(Some((fun, kb, JsonValue::String(text)))),
                Err(err) => Err(err),
            };
        }
        let fun = match self.aggregate_order(fun) {
            Ok(fun) => fun,
            Err(err) => {
                return Err(err);
            },
        };
        match self.must_consume(")") {
            Ok(()) => Ok(Some((fun, kb, JsonValue::Null))),
            Err(err) => Err(err),
        }
    }

    /// Reads a function over groups and the white space behind it, if one comes next.
    pub fn consume_aggregate(&mut self) -> (r: Result<
        Option<(AggregateFun, KeyBuilder, JsonValue)>,
        Error,
    >)
        requires
            old(self).wf(),
        ensures
            final(self).wf(),
            final(self).lands(old(self)@, r, aggregate(old(self)@.src, old(self)@.at)),
    {
        let start = self.place();
        match self.aggregate_word() {
            None => Ok(None),
            Some(fun) => {
                if self.consume("(") {
                    self.aggregate_argument(fun)
                } else {
                    self.go_back(start);
                    Ok(None)
                }
            },
        }
    }

    /// Reads what stands in for a missing value behind the path and the function of a
    /// value.
    fn finish_value(&mut self, kb: KeyBuilder, ag: Option<(AggregateFun, JsonValue)>) -> (r: Result<
        Option<Returnable>,
        Error,
    >)
        requires
            old(self).wf(),
        ensures
            final(self).wf(),
            final(self).lands(
                old(self)@,
                r,
                finish_value(old(self)@.src, old(self)@.at, kb.deep_view(), ag.deep_view()),
            ),
    {
        let default = match self.consume_default() {
            Ok(Some(default)) => default,
            Ok(None) => JsonValue::Null,
            Err(err) => {
                return Err(err);
            },
        };
        Ok(Some(Returnable::Value(RetValue { kb, ag, default, sort: None })))
    }

    /// Reads a value of the document and the white space behind it, if one comes next.
    fn ret_leaf(&mut self) -> (r: Result<Option<Returnable>, Error>)
        requires
            old(self).wf(),
        ensures
            final(self).wf(),
            final(self).lands(old(self)@, r, ret_leaf(old(self)@.src, old(self)@.at)),
    {
        match self.consume_aggregate() {
            Err(err) => Err(err),
            Ok(Some((ag, kb, json))) => self.finish_value(kb, Some((ag, json))),
            Ok(None) => match self.consume_keypath() {
                Err(err) => Err(err),
                Ok(Some(kb)) => self.finish_value(kb, None),
                Ok(None) => Ok(None),
            },
        }
    }

    /// Reads a fixed value and the white space behind it, if one comes next.
    fn ret_literal(&mut self) -> (r: Result<Option<Returnable>, Error>)
        requires
            old(self).wf(),
        ensures
            final(self).wf(),
            final(self).lands(old(self)@, r, ret_literal(old(self)@.src, old(self)@.at)),
    {
        match self.consume_string_literal() {
            Err(err) => Err(err),
            Ok(Some(text)) => Ok(
                Some(Returnable::Literal(RetLiteral { json: JsonValue::String(text) })),
            ),
            Ok(None) => match self.consume_number() {
                Err(err) => Err(err),
                Ok(Some(text)) => Ok(
                    Some(Returnable::Literal(RetLiteral { json: JsonValue::Number(text) })),
                ),
                Ok(None) => {
                    if self.consume("true") {
                        Ok(Some(Returnable::Literal(RetLiteral { json: JsonValue::True })))
                    } else if self.consume("false") {
                        Ok(Some(Returnable::Literal(RetLiteral { json: JsonValue::False })))
                    } else if self.consume("null") {
                        Ok(Some(Returnable::Literal(RetLiteral { json: JsonValue::Null })))
                    } else {
                        Ok(None)
                    }
                },
            },
        }
    }

    /// Reads the form of a result and the white space behind it, if one comes next.
    pub fn ret_value(&mut self) -> (r: Result<Option<Returnable>, Error>)
        requires
            old(self).wf(),
        ensures
            final(self).wf(),
            final(self).lands(old(self)@, r, ret_value(old(self)@.src, old(self)@.at)),
        decreases old(self)@.src.len() - old(self)@.at, 2int,
    {
        proof {
            lemma_ret_leaf(self@.src, self@.at);
        }
        match self.ret_leaf() {
            Err(err) => {
                return Err(err);
            },
            Ok(Some(value)) => {
                return Ok(Some(value));
            },
            Ok(None) => {},
        }
        if self.could_consume("{") {
            match self.ret_object() {
                Ok(object) => Ok(Some(object)),
                Err(err) => Err(err),
            }
        } else if self.could_consume("[") {
            match self.ret_array() {
                Ok(array) => Ok(Some(array)),
                Err(err) => Err(err),
            }
        } else {
            self.ret_literal()
        }
    }

    /// Reads an object in a result and the white space behind it.
    pub fn ret_object(&mut self) -> (r: Result<Returnable, Error>)
        requires
            old(self).wf(),
        ensures
            final(self).wf(),
            final(self).lands(old(self)@, r, ret_object(old(self)@.src, old(self)@.at)),
        decreases old(self)@.src.len() - old(self)@.at, 1int,
    {
        proof {
            lemma_marks();
            lemma_expect(self@.src, self@.at, "{"@);
        }
        if let Err(err) = self.must_consume("{") {
            return Err(err);
        }
        let mut fields: Vec<(String, Returnable)> = Vec::new();
        assert(fields.deep_view() =~= Seq::empty());
        loop
            invariant
                self.wf(),
                old(self)@.at < self@.at,
                self@.src == old(self)@.src,
                self@.path == old(self)@.path,
                ret_object(old(self)@.src, old(self)@.at) == ret_fields(
                    self@.src,
                    self@.at,
                    fields.deep_view(),
                ),
            decreases self@.src.len() - self@.at,
        {
            let ghost before = fields.deep_view();
            proof {
                lemma_key(self@.src, self@.at);
            }
            let field = match self.consume_key() {
                Ok(Some(field)) => field,
                Ok(None) => {
                    return self.close_object(fields);
                },
                Err(err) => {
                    return Err(err);
                },
            };
            proof {
                lemma_expect(self@.src, self@.at, ":"@);
            }
            if let Err(err) = self.must_consume(":") {
                return Err(err);
            }
            proof {
                lemma_ret_value(self@.src, self@.at);
            }
            match self.ret_value() {
                Ok(Some(value)) => {
                    fields.push((field, value));
                    assert(fields.deep_view() =~= before.push((field@, value.deep_view())));
                },
                Ok(None) => {
                    return Err(Error::Parse("Expected key to return.".to_owned()));
                },
                Err(err) => {
                    return Err(err);
                },
            }
            proof {
                lemma_after_token(self@.src, self@.at, ","@);
            }
            if !self.consume(",") {
                return self.close_object(fields);
            }
        }
    }

    /// Reads the closing brace of an object with the members `fields`.
    fn close_object(&mut self, fields: Vec<(String, Returnable)>) -> (r: Result<Returnable, Error>)
        requires
            old(self).wf(),
        ensures
            final(self).wf(),
            final(self).lands(
                old(self)@,
                r,
                crate::grammar::results::close_object(
                    old(self)@.src,
                    old(self)@.at,
                    fields.deep_view(),
                ),
            ),
    {
        match self.must_consume("}") {
            Ok(()) => Ok(Returnable::Object(RetObject { fields })),
            Err(err) => Err(err),
        }
    }

    /// Reads an array in a result and the white space behind it.
    pub fn ret_array(&mut self) -> (r: Result<Returnable, Error>)
        requires
            old(self).wf(),
        ensures
            final(self).wf(),
            final(self).lands(old(self)@, r, ret_array(old(self)@.src, old(self)@.at)),
        decreases old(self)@.src.len() - old(self)@.at, 1int,
    {
        proof {
            lemma_marks();
            lemma_expect(self@.src, self@.at, "["@);
        }
        if let Err(err) = self.must_consume("[") {
            return Err(err);
        }
        let mut slots: Vec<Returnable> = Vec::new();
        assert(slots.deep_view() =~= Seq::empty());
        loop
            invariant
                self.wf(),
                old(self)@.at < self@.at,
                self@.src == old(self)@.src,
                self@.path == old(self)@.path,
                ret_array(old(self)@.src, old(self)@.at) == ret_slots(
                    self@.src,
                    self@.at,
                    slots.deep_view(),
                ),
            decreases self@.src.len() - self@.at,
        {
            let ghost before = slots.deep_view();
            proof {
                lemma_ret_value(self@.src, self@.at);
            }
            match self.ret_value() {
                Ok(Some(value)) => {
                    slots.push(value);
                    assert(slots.deep_view() =~= before.push(value.deep_view()));
                },
                Ok(None) => {
                    return self.close_array(slots);
                },
                Err(err) => {
                    return Err(err);
                },
            }
            proof {
                lemma_after_token(self@.src, self@.at, ","@);
            }
            if !self.consume(",") {
                return self.close_array(slots);
            }
        }
    }

    /// Reads the closing bracket of an array with the items `slots`.
    fn close_array(&mut self, slots: Vec<Returnable>) -> (r: Result<Returnable, Error>)
        requires
            old(self).wf(),
        ensures
            final(self).wf(),
            final(self).lands(
                old(self)@,
                r,
                crate::grammar::results::close_array(
                    old(self)@.src,
                    old(self)@.at,
                    slots.deep_view(),
                ),
            ),
    {
        match self.must_consume("]") {
            Ok(()) => Ok(Returnable::Array(RetArray { slots })),
            Err(err) => Err(err),
        }
    }

    /// Reads the clause on the form of the results, if the word `return` comes next.
    /// Without the clause a result is the identifier of the document.
    pub fn return_clause(&mut self) -> (r: Result<Returnable, Error>)
        requires
            old(self).wf(),
        ensures
            final(self).wf(),
            final(self).lands(old(self)@, r, return_clause(old(self)@.src, old(self)@.at)),
    {
        if !self.consume("return") {
            let mut kb = KeyBuilder::new();
            kb.push_object_key("_id");
            assert(kb.deep_view() =~= seq![SegmentView::ObjectKey("_id"@)]);
            return Ok(
                Returnable::Value(
                    RetValue { kb, ag: None, default: JsonValue::Null, sort: None },
                ),
            );
        }
        match self.ret_value() {
            Ok(Some(value)) => Ok(value),
            Ok(None) => Err(Error::Parse("Expected key, object or array to return.".to_owned())),
            Err(err) => Err(err),
        }
    }
}

} // verus!
