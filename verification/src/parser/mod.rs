//! The parser of queries.

pub mod clauses;
pub mod filters;
pub mod json;
pub mod results;

use vstd::prelude::*;
use crate::error::Error;
use crate::grammar::Step;
use crate::grammar::lexical::{Body, after_token, bare_integer, char_at, escaped, expect};
use crate::grammar::lexical::{expected_message, field, found_at, integer, key, lemma_quote_token};
use crate::grammar::lexical::{literal_body, must_string_literal, name_part, name_start, number};
use crate::grammar::lexical::{number_end, string_literal};
use crate::key_builder::{KeyBuilder, Path};
use crate::text::{append, byte_offset, decimal_text, decimal_value, digit, hex_digit};
use crate::text::{is_ascii_letter, is_digit, is_hex_digit, is_white_space};
use crate::text::{lemma_byte_offset_monotone, lemma_byte_offset_step, lemma_run_end_from};
use crate::text::{lemma_run_end_unique, run_end, skip_ws, starts_at, white_space, width};

verus! {

/// Returns the character that `c` stands for behind a backslash.
fn unescape(c: char) -> (r: Option<char>)
    ensures
        r == escaped(c),
{
    match c {
        '\\' | '"' | '/' => Some(c),
        'n' => Some('\n'),
        'b' => Some('\u{8}'),
        'r' => Some('\r'),
        'f' => Some('\u{C}'),
        't' => Some('\t'),
        'v' => Some('\u{B}'),
        _ => None,
    }
}

/// Answers whether `c` can start a name.
fn is_name_start(c: char) -> (r: bool)
    ensures
        r == name_start(c),
{
    is_ascii_letter(c) || c == '_' || c == '$'
}

/// Answers whether `c` can stand in a name behind the first character.
fn is_name_part(c: char) -> (r: bool)
    ensures
        r == name_part(c),
{
    is_name_start(c) || is_digit(c)
}

/// A parser at work: the query, the position of the next character to read, and the path
/// of the document on which the filter being read looks.
pub struct Parser {
    query: Vec<char>,
    position: usize,
    offset: usize,
    kb: KeyBuilder,
}

/// The mathematical form of a `Parser`.
pub struct ParserView {
    /// The characters of the query.
    pub src: Seq<char>,
    /// The position of the next character to read.
    pub at: int,
    /// The path on which the filter being read looks.
    pub path: Path,
}

impl View for Parser {
    type V = ParserView;

    closed spec fn view(&self) -> ParserView {
        ParserView { src: self.query@, at: self.position as int, path: self.kb.deep_view() }
    }
}

impl Parser {
    /// The byte offset that is kept is the one of the position, and fits.
    pub closed spec fn in_step(&self) -> bool {
        &&& self.offset == byte_offset(self.query@, self.position as int)
        &&& byte_offset(self.query@, self.query@.len() as int) <= usize::MAX
    }

    /// The invariant of a parser: it stands within its query.
    pub open spec fn wf(&self) -> bool {
        &&& 0 <= self@.at <= self@.src.len()
        &&& self.in_step()
    }

    /// Whether a method that started from `was` ends as `step` says: with its value or
    /// with its message, at the position where it ends, and with nothing else changed.
    pub open spec fn lands<T: DeepView>(
        self,
        was: ParserView,
        r: Result<T, Error>,
        step: Step<T::V>,
    ) -> bool {
        match step {
            Step::Done { value, at } => {
                &&& r matches Ok(read)
                &&& read.deep_view() == value
                &&& self@ == (ParserView { at, ..was })
            },
            Step::Fail { message, at } => {
                &&& r matches Err(Error::Parse(text))
                &&& text@ == message
                &&& self@ == (ParserView { at, ..was })
            },
        }
    }

    /// Makes a parser that stands at the start of `query`.
    pub fn new(query: String) -> (r: Parser)
        ensures
            r.wf(),
            r@ == (ParserView { src: query@, at: 0, path: Path::empty() }),
    {
        let bytes: usize = query.as_str().as_bytes().len();
        let mut chars: Vec<char> = Vec::new();
        for c in iter: query.as_str().chars()
            invariant
                iter.seq() == query@,
                chars@ == query@.take(iter.index() as int),
        {
            chars.push(c);
            assert(query@.take(iter.index() + 1) =~= query@.take(iter.index() as int).push(c));
        }
        assert(query@.take(query@.len() as int) =~= query@);
        assert(query@.take(0) =~= Seq::<char>::empty());
        Parser { query: chars, position: 0, offset: 0, kb: KeyBuilder::new() }
    }

    /// Returns the number of bytes of the query before the next character to read.
    pub fn offset(&self) -> (r: usize)
        requires
            self.wf(),
        ensures
            r == byte_offset(self@.src, self@.at),
    {
        self.offset
    }

    /// Returns where the parser stands, in characters and in bytes.
    pub(crate) fn place(&self) -> (r: (usize, usize))
        requires
            self.wf(),
        ensures
            r.0 == self@.at,
            r.1 == byte_offset(self@.src, self@.at),
    {
        (self.position, self.offset)
    }

    /// Goes back to where the parser stood.
    pub(crate) fn go_back(&mut self, place: (usize, usize))
        requires
            old(self).wf(),
            place.0 <= old(self)@.src.len(),
            place.1 == byte_offset(old(self)@.src, place.0 as int),
        ensures
            final(self).wf(),
            final(self)@ == (ParserView { at: place.0 as int, ..old(self)@ }),
    {
        self.position = place.0;
        self.offset = place.1;
    }

    /// Moves on to the position `to`.
    fn move_to(&mut self, to: usize)
        requires
            old(self).wf(),
            old(self)@.at <= to <= old(self)@.src.len(),
        ensures
            final(self).wf(),
            final(self)@ == (ParserView { at: to as int, ..old(self)@ }),
    {
        while self.position < to
            invariant
                self.wf(),
                old(self)@.at <= self@.at <= to <= self@.src.len(),
                self@.src == old(self)@.src,
                self@.path == old(self)@.path,
            decreases to - self@.at,
        {
            proof {
                let at = self@.at;
                lemma_byte_offset_step(self@.src, at);
                lemma_byte_offset_monotone(self@.src, at + 1, self@.src.len() as int);
            }
            self.offset = self.offset + width(self.query[self.position]);
            self.position = self.position + 1;
        }
    }

    /// Skips white space.
    pub fn ws(&mut self)
        requires
            old(self).wf(),
        ensures
            final(self).wf(),
            final(self)@ == (ParserView {
                at: skip_ws(old(self)@.src, old(self)@.at),
                ..old(self)@
            }),
    {
        let ghost class = |c: char| white_space(c);
        let mut end: usize = self.position;
        while end < self.query.len() && is_white_space(self.query[end])
            invariant
                self@.at <= end <= self@.src.len(),
                class == (|c: char| white_space(c)),
                self@.src == self.query@,
                forall|i: int| self@.at <= i < end ==> class(#[trigger] self@.src[i]),
            decreases self@.src.len() - end,
        {
            end += 1;
        }
        proof {
            lemma_run_end_unique(self@.src, self@.at, end as int, class);
        }
        self.move_to(end);
    }

    /// Answers whether `token` comes next.
    pub fn could_consume(&self, token: &str) -> (r: bool)
        requires
            self.wf(),
        ensures
            r == starts_at(self@.src, self@.at, token@),
    {
        let mut i: usize = self.position;
        for c in iter: token.chars()
            invariant
                iter.seq() == token@,
                self@.src == self.query@,
                i == self@.at + iter.index(),
                i <= self@.src.len(),
                self@.src.subrange(self@.at, i as int) == token@.take(iter.index() as int),
        {
            let ghost n = iter.index() as int;
            if i >= self.query.len() {
                return false;
            }
            if self.query[i] != c {
                proof {
                    if starts_at(self@.src, self@.at, token@) {
                        assert(self@.src.subrange(self@.at, self@.at + token@.len())[n]
                            == self@.src[i as int]);
                    }
                }
                return false;
            }
            i += 1;
            assert(self@.src.subrange(self@.at, i as int) =~= token@.take(n + 1));
        }
        assert(token@.take(token@.len() as int) =~= token@);
        true
    }

    /// Passes `token`, if it comes next, and no white space behind it.
    pub(crate) fn pass(&mut self, token: &str) -> (r: bool)
        requires
            old(self).wf(),
        ensures
            final(self).wf(),
            r == starts_at(old(self)@.src, old(self)@.at, token@),
            final(self)@ == (ParserView {
                at: if r { old(self)@.at + token@.len() } else { old(self)@.at },
                ..old(self)@
            }),
    {
        if self.could_consume(token) {
            let length: usize = token.unicode_len();
            let total: usize = self.query.len();
            assert(self.position + length <= total);
            self.move_to(self.position + length);
            true
        } else {
            false
        }
    }

    /// Reads `token` and the white space behind it, if it comes next.
    pub fn consume(&mut self, token: &str) -> (r: bool)
        requires
            old(self).wf(),
        ensures
            final(self).wf(),
            match after_token(old(self)@.src, old(self)@.at, token@) {
                Some(next) => r && final(self)@ == (ParserView { at: next, ..old(self)@ }),
                None => !r && final(self)@ == old(self)@,
            },
    {
        if self.pass(token) {
            self.ws();
            true
        } else {
            false
        }
    }

    /// Makes the error that `token` does not come next.
    fn expected(&self, token: &str) -> (r: Error)
        requires
            self.wf(),
        ensures
            r matches Error::Parse(text) && text@ == expected_message(self@.src, self@.at, token@),
    {
        let mut text: String = append("Expected '", token);
        text.append("' at character ");
        text.append(decimal_text(self.offset).as_str());
        text.append(", found ");
        let ghost before = text@;
        if self.position < self.query.len() {
            text.push(self.query[self.position]);
        }
        assert(text@ =~= before + found_at(self@.src, self@.at));
        text.append(".");
        Error::Parse(text)
    }

    /// Reads `token`, which has to come next, and the white space behind it.
    pub fn must_consume(&mut self, token: &str) -> (r: Result<(), Error>)
        requires
            old(self).wf(),
        ensures
            final(self).wf(),
            final(self).lands(old(self)@, r, expect(old(self)@.src, old(self)@.at, token@)),
    {
        if self.consume(token) {
            Ok(())
        } else {
            Err(self.expected(token))
        }
    }

    /// Reads a name and the white space behind it, if a name comes next.
    pub fn consume_field(&mut self) -> (r: Option<String>)
        requires
            old(self).wf(),
        ensures
            final(self).wf(),
            match field(old(self)@.src, old(self)@.at) {
                Some((name, next)) => {
                    &&& r matches Some(text)
                    &&& text@ == name
                    &&& final(self)@ == (ParserView { at: next, ..old(self)@ })
                },
                None => r is None && final(self)@ == old(self)@,
            },
    {
        let ghost class = |c: char| name_part(c);
        let start: usize = self.position;
        if start >= self.query.len() {
            return None;
        }
        let first = self.query[start];
        if !is_name_start(first) {
            return None;
        }
        let mut name: String = String::new();
        name.push(first);
        let mut end: usize = start + 1;
        assert(name@ =~= self@.src.subrange(start as int, end as int));
        while end < self.query.len() && is_name_part(self.query[end])
            invariant
                start < end <= self@.src.len(),
                class == (|c: char| name_part(c)),
                self@.src == self.query@,
                name@ == self@.src.subrange(start as int, end as int),
                forall|i: int| start < i < end ==> class(#[trigger] self@.src[i]),
            decreases self@.src.len() - end,
        {
            name.push(self.query[end]);
            end += 1;
            assert(name@ =~= self@.src.subrange(start as int, end as int));
        }
        proof {
            lemma_run_end_unique(self@.src, start + 1, end as int, class);
        }
        self.move_to(end);
        self.ws();
        Some(name)
    }

    /// Reads an integer and the white space behind it, if a digit comes next.
    pub fn consume_integer(&mut self) -> (r: Result<Option<i64>, Error>)
        requires
            old(self).wf(),
        ensures
            final(self).wf(),
            final(self).lands(old(self)@, r, integer(old(self)@.src, old(self)@.at)),
    {
        match self.consume_digits() {
            Ok(None) => Ok(None),
            Ok(Some(n)) => {
                self.ws();
                Ok(Some(n))
            },
            Err(err) => {
                self.ws();
                Err(err)
            },
        }
    }

    /// Reads an integer and no white space behind it, if a digit comes next.
    pub(crate) fn consume_digits(&mut self) -> (r: Result<Option<i64>, Error>)
        requires
            old(self).wf(),
        ensures
            final(self).wf(),
            final(self).lands(old(self)@, r, bare_integer(old(self)@.src, old(self)@.at)),
    {
        let ghost class = |c: char| digit(c);
        let ghost s = self@.src;
        let start: usize = self.position;
        let mut end: usize = start;
        let mut number: Option<i64> = Some(0);
        assert(s.subrange(start as int, end as int) =~= Seq::<char>::empty());
        while end < self.query.len() && is_digit(self.query[end])
            invariant
                start <= end <= s.len(),
                class == (|c: char| digit(c)),
                s == self.query@,
                forall|i: int| start <= i < end ==> class(#[trigger] s[i]),
                match number {
                    Some(n) => n == decimal_value(s.subrange(start as int, end as int)) && 0 <= n,
                    None => decimal_value(s.subrange(start as int, end as int)) > i64::MAX,
                },
            decreases s.len() - end,
        {
            let value: i64 = (self.query[end] as u32 - '0' as u32) as i64;
            proof {
                let longer = s.subrange(start as int, end + 1);
                assert(longer.drop_last() =~= s.subrange(start as int, end as int));
                assert(longer.last() == s[end as int]);
            }
            number = match number {
                Some(n) => if n > (i64::MAX - value) / 10 {
                    None
                } else {
                    Some(n * 10 + value)
                },
                None => None,
            };
            end += 1;
        }
        proof {
            lemma_run_end_unique(s, start as int, end as int, class);
        }
        if end == start {
            return Ok(None);
        }
        self.move_to(end);
        match number {
            Some(n) => Ok(Some(n)),
            None => Err(Error::Parse("number too large to fit in target type".to_owned())),
        }
    }

    /// Returns the end of the run of digits that starts at `from`.
    fn digits_end(&self, from: usize) -> (r: usize)
        requires
            from <= self@.src.len(),
        ensures
            r == run_end(self@.src, from as int, |c: char| digit(c)),
            from <= r <= self@.src.len(),
    {
        let ghost class = |c: char| digit(c);
        let mut end: usize = from;
        while end < self.query.len() && is_digit(self.query[end])
            invariant
                from <= end <= self@.src.len(),
                class == (|c: char| digit(c)),
                self@.src == self.query@,
                forall|i: int| from <= i < end ==> class(#[trigger] self@.src[i]),
            decreases self@.src.len() - end,
        {
            end += 1;
        }
        proof {
            lemma_run_end_unique(self@.src, from as int, end as int, class);
        }
        end
    }

    /// Answers whether `c` stands at the position `at`.
    fn is_at(&self, at: usize, c: char) -> (r: bool)
        ensures
            r == char_at(self@.src, at as int, c),
    {
        at < self.query.len() && self.query[at] == c
    }

    /// Returns the end of the number whose first digit stands at `first`, or the error of
    /// what is missing in it.
    fn number_end_from(&self, first: usize) -> (r: Result<usize, Error>)
        requires
            first < self@.src.len(),
        ensures
            match number_end(self@.src, first as int) {
                Ok(end) => r matches Ok(at) && at == end && first < at <= self@.src.len(),
                Err(message) => r matches Err(Error::Parse(text)) && text@ == message,
            },
    {
        let total: usize = self.query.len();
        assert(first < total);
        let whole: usize = if self.query[first] == '0' {
            first + 1
        } else {
            self.digits_end(first + 1)
        };
        let mantissa: usize = if self.is_at(whole, '.') {
            let fraction: usize = self.digits_end(whole + 1);
            if fraction == whole + 1 {
                return Err(Error::Parse("Expected digits after decimal point.".to_owned()));
            }
            fraction
        } else {
            whole
        };
        if !self.is_at(mantissa, 'e') && !self.is_at(mantissa, 'E') {
            return Ok(mantissa);
        }
        let digits: usize = if self.is_at(mantissa + 1, '+') || self.is_at(mantissa + 1, '-') {
            mantissa + 2
        } else {
            mantissa + 1
        };
        let end: usize = self.digits_end(digits);
        if end == digits {
            return Err(Error::Parse("Expected exponent after e.".to_owned()));
        }
        Ok(end)
    }

    /// Returns the characters of the query from `from` to `to`.
    fn slice(&self, from: usize, to: usize) -> (r: String)
        requires
            from <= to <= self@.src.len(),
        ensures
            r@ == self@.src.subrange(from as int, to as int),
    {
        let mut text: String = String::new();
        let mut i: usize = from;
        assert(text@ =~= self@.src.subrange(from as int, i as int));
        while i < to
            invariant
                from <= i <= to <= self@.src.len(),
                self@.src == self.query@,
                text@ == self@.src.subrange(from as int, i as int),
            decreases to - i,
        {
            text.push(self.query[i]);
            i += 1;
            assert(text@ =~= self@.src.subrange(from as int, i as int));
        }
        text
    }

    /// Reads a number and the white space behind it, if a number comes next, and returns
    /// its text.
    pub fn consume_number(&mut self) -> (r: Result<Option<String>, Error>)
        requires
            old(self).wf(),
        ensures
            final(self).wf(),
            final(self).lands(old(self)@, r, number(old(self)@.src, old(self)@.at)),
    {
        let start: usize = self.position;
        let total: usize = self.query.len();
        assert(start <= total);
        let signed: bool = self.is_at(start, '-');
        let first: usize = if signed {
            start + 1
        } else {
            start
        };
        if first >= self.query.len() {
            return Ok(None);
        }
        if !is_digit(self.query[first]) {
            if signed {
                return Err(Error::Parse("Expected digits after sign (-).".to_owned()));
            }
            return Ok(None);
        }
        match self.number_end_from(first) {
            Ok(end) => {
                let text = self.slice(start, end);
                self.move_to(end);
                self.ws();
                Ok(Some(text))
            },
            Err(err) => Err(err),
        }
    }

    /// Reads the characters of a string literal from the position `from`. Returns the
    /// text, or the error of an escape that is none, and where the reading ends.
    fn literal_body_from(&self, from: usize) -> (r: (Result<String, Error>, usize))
        requires
            from <= self@.src.len(),
        ensures
            match literal_body(self@.src, from as int, Seq::empty()) {
                Body::End { text, at } => {
                    &&& r.0 matches Ok(read)
                    &&& read@ == text
                    &&& r.1 == at
                },
                Body::Bad { message, at } => {
                    &&& r.0 matches Err(Error::Parse(text))
                    &&& text@ == message
                    &&& r.1 == at
                },
            },
            from <= r.1 <= self@.src.len(),
    {
        let ghost s = self@.src;
        let ghost hex = |c: char| hex_digit(c);
        let total: usize = self.query.len();
        let mut text: String = String::new();
        let mut i: usize = from;
        assert(text@ =~= Seq::<char>::empty());
        while i < total && self.query[i] != '"'
            invariant
                from <= i <= total == s.len(),
                s == self.query@,
                s == self@.src,
                hex == (|c: char| hex_digit(c)),
                literal_body(s, i as int, text@) == literal_body(s, from as int, Seq::empty()),
            decreases total - i,
        {
            let c = self.query[i];
            if c != '\\' {
                text.push(c);
                i += 1;
                continue;
            }
            if i + 1 >= total {
                return (Ok(text), i + 1);
            }
            let escape = self.query[i + 1];
            if let Some(plain) = unescape(escape) {
                text.push(plain);
                i += 2;
                continue;
            }
            if escape == 'u' {
                let mut end: usize = i + 2;
                while end < total && end - i < 6 && is_hex_digit(self.query[end])
                    invariant
                        i + 2 <= end <= total == s.len(),
                        end - i <= 6,
                        s == self.query@,
                        hex == (|c: char| hex_digit(c)),
                        forall|k: int| i + 2 <= k < end ==> hex(#[trigger] s[k]),
                    decreases total - end,
                {
                    end += 1;
                }
                if end - i < 6 {
                    proof {
                        lemma_run_end_unique(s, i + 2, end as int, hex);
                    }
                    if end >= total {
                        return (Ok(text), i + 1);
                    }
                    let mut message: String = "Invalid hexidecimal escape: ".to_owned();
                    message.push(self.query[end]);
                    return (Err(Error::Parse(message)), i + 1);
                }
                proof {
                    lemma_run_end_from(s, i + 2, end as int, hex);
                }
            }
            let mut message: String = "Unknown character escape: ".to_owned();
            message.push(escape);
            return (Err(Error::Parse(message)), i + 1);
        }
        (Ok(text), i)
    }

    /// Reads a string literal and the white space behind it, if a quote comes next.
    pub fn consume_string_literal(&mut self) -> (r: Result<Option<String>, Error>)
        requires
            old(self).wf(),
        ensures
            final(self).wf(),
            final(self).lands(old(self)@, r, string_literal(old(self)@.src, old(self)@.at)),
    {
        proof {
            lemma_quote_token();
        }
        if !self.could_consume("\"") {
            return Ok(None);
        }
        let total: usize = self.query.len();
        assert(self.position < total);
        let (read, end) = self.literal_body_from(self.position + 1);
        self.move_to(end);
        match read {
            Ok(text) => match self.must_consume("\"") {
                Ok(()) => Ok(Some(text)),
                Err(err) => Err(err),
            },
            Err(err) => Err(err),
        }
    }

    /// Reads a string literal, which has to come next, and the white space behind it.
    pub fn must_consume_string_literal(&mut self) -> (r: Result<String, Error>)
        requires
            old(self).wf(),
        ensures
            final(self).wf(),
            final(self).lands(old(self)@, r, must_string_literal(old(self)@.src, old(self)@.at)),
    {
        match self.consume_string_literal() {
            Ok(Some(text)) => Ok(text),
            Ok(None) => Err(Error::Parse("Expected string literal.".to_owned())),
            Err(err) => Err(err),
        }
    }

    /// Reads the key of a member and the white space behind it, if a name or a quote
    /// comes next.
    pub fn consume_key(&mut self) -> (r: Result<Option<String>, Error>)
        requires
            old(self).wf(),
        ensures
            final(self).wf(),
            final(self).lands(old(self)@, r, key(old(self)@.src, old(self)@.at)),
    {
        if let Some(name) = self.consume_field() {
            Ok(Some(name))
        } else {
            self.consume_string_literal()
        }
    }
}

} // verus!
