//! Reading JSON values.

use vstd::prelude::*;
use crate::error::Error;
use crate::grammar::json::{default_value, json, json_array, json_items, json_members, json_object};
use crate::grammar::json::{lemma_json, scalar};
use crate::grammar::lexical::{lemma_after_token, lemma_expect, lemma_key, lemma_marks};
use crate::json_value::{JsonValue, lemma_array_view, lemma_object_view};
use crate::parser::Parser;

verus! {

broadcast use {lemma_array_view, lemma_object_view};

impl Parser {
    /// Reads a JSON value and the white space behind it, if one comes next.
    pub fn json(&mut self) -> (r: Result<Option<JsonValue>, Error>)
        requires
            old(self).wf(),
        ensures
            final(self).wf(),
            final(self).lands(old(self)@, r, json(old(self)@.src, old(self)@.at)),
        decreases old(self)@.src.len() - old(self)@.at, 2int,
    {
        if self.could_consume("{") {
            match self.json_object() {
                Ok(value) => Ok(Some(value)),
                Err(err) => Err(err),
            }
        } else if self.could_consume("[") {
            match self.json_array() {
                Ok(value) => Ok(Some(value)),
                Err(err) => Err(err),
            }
        } else {
            self.json_scalar()
        }
    }

    /// Reads a JSON value that is neither an object nor an array, and the white space
    /// behind it, if one comes next.
    fn json_scalar(&mut self) -> (r: Result<Option<JsonValue>, Error>)
        requires
            old(self).wf(),
        ensures
            final(self).wf(),
            final(self).lands(old(self)@, r, scalar(old(self)@.src, old(self)@.at)),
    {
        match self.consume_string_literal() {
            Err(err) => Err(err),
            Ok(Some(text)) => Ok(Some(JsonValue::String(text))),
            Ok(None) => {
                if self.consume("true") {
                    Ok(Some(JsonValue::True))
                } else if self.consume("false") {
                    Ok(Some(JsonValue::False))
                } else if self.consume("null") {
                    Ok(Some(JsonValue::Null))
                } else {
                    match self.consume_number() {
                        Err(err) => Err(err),
                        Ok(Some(text)) => Ok(Some(JsonValue::Number(text))),
                        Ok(None) => Ok(None),
                    }
                }
            },
        }
    }

    /// Reads a JSON object and the white space behind it.
    pub fn json_object(&mut self) -> (r: Result<JsonValue, Error>)
        requires
            old(self).wf(),
        ensures
            final(self).wf(),
            final(self).lands(old(self)@, r, json_object(old(self)@.src, old(self)@.at)),
        decreases old(self)@.src.len() - old(self)@.at, 1int,
    {
        proof {
            lemma_marks();
            lemma_expect(self@.src, self@.at, "{"@);
        }
        if let Err(err) = self.must_consume("{") {
            return Err(err);
        }
        let mut object: Vec<(String, JsonValue)> = Vec::new();
        assert(object.deep_view() =~= Seq::empty());
        if self.consume("}") {
            return Ok(JsonValue::Object(object));
        }
        loop
            invariant
                self.wf(),
                old(self)@.at < self@.at,
                self@.src == old(self)@.src,
                self@.path == old(self)@.path,
                json_object(old(self)@.src, old(self)@.at) == json_members(
                    self@.src,
                    self@.at,
                    object.deep_view(),
                ),
            decreases self@.src.len() - self@.at,
        {
            let ghost before = object.deep_view();
            proof {
                lemma_key(self@.src, self@.at);
            }
            let field = match self.consume_key() {
                Ok(Some(field)) => field,
                Ok(None) => {
                    return Err(Error::Parse("Invalid json found".to_owned()));
                },
                Err(err) => {
                    return Err(err);
                },
            };
            proof {
                lemma_expect(self@.src, self@.at, ":"@);
            }
            if let Err(err) = self.must_consume(":") {
                return Err(err);
            }
            proof {
                lemma_json(self@.src, self@.at);
            }
            match self.json() {
                Ok(Some(value)) => {
                    object.push((field, value));
                    assert(object.deep_view() =~= before.push((field@, value.deep_view())));
                },
                Ok(None) => {
                    return Err(Error::Parse("Invalid json found".to_owned()));
                },
                Err(err) => {
                    return Err(err);
                },
            }
            proof {
                lemma_after_token(self@.src, self@.at, ","@);
            }
            if !self.consume(",") {
                return match self.must_consume("}") {
                    Ok(()) => Ok(JsonValue::Object(object)),
                    Err(err) => Err(err),
                };
            }
        }
    }

    /// Reads a JSON array and the white space behind it.
    pub fn json_array(&mut self) -> (r: Result<JsonValue, Error>)
        requires
            old(self).wf(),
        ensures
            final(self).wf(),
            final(self).lands(old(self)@, r, json_array(old(self)@.src, old(self)@.at)),
        decreases old(self)@.src.len() - old(self)@.at, 1int,
    {
        proof {
            lemma_marks();
            lemma_expect(self@.src, self@.at, "["@);
        }
        if let Err(err) = self.must_consume("[") {
            return Err(err);
        }
        let mut array: Vec<JsonValue> = Vec::new();
        assert(array.deep_view() =~= Seq::empty());
        if self.consume("]") {
            return Ok(JsonValue::Array(array));
        }
        loop
            invariant
                self.wf(),
                old(self)@.at < self@.at,
                self@.src == old(self)@.src,
                self@.path == old(self)@.path,
                json_array(old(self)@.src, old(self)@.at) == json_items(
                    self@.src,
                    self@.at,
                    array.deep_view(),
                ),
            decreases self@.src.len() - self@.at,
        {
            let ghost before = array.deep_view();
            proof {
                lemma_json(self@.src, self@.at);
            }
            match self.json() {
                Ok(Some(value)) => {
                    array.push(value);
                    assert(array.deep_view() =~= before.push(value.deep_view()));
                },
                Ok(None) => {
                    return Err(Error::Parse("Invalid json found".to_owned()));
                },
                Err(err) => {
                    return Err(err);
                },
            }
            proof {
                lemma_after_token(self@.src, self@.at, ","@);
            }
            if !self.consume(",") {
                return match self.must_consume("]") {
                    Ok(()) => Ok(JsonValue::Array(array)),
                    Err(err) => Err(err),
                };
            }
        }
    }

    /// Reads a default value and the white space behind it, if the word `default` comes
    /// next.
    pub fn consume_default(&mut self) -> (r: Result<Option<JsonValue>, Error>)
        requires
            old(self).wf(),
        ensures
            final(self).wf(),
            final(self).lands(old(self)@, r, default_value(old(self)@.src, old(self)@.at)),
    {
        if !self.consume("default") {
            return Ok(None);
        }
        if let Err(err) = self.must_consume("=") {
            return Err(err);
        }
        match self.json() {
            Ok(Some(value)) => Ok(Some(value)),
            Ok(None) => Err(Error::Parse("Expected json value for default".to_owned())),
            Err(err) => Err(err),
        }
    }
}

} // verus!
