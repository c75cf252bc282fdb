//! Texts as they can be written by hand: with any white space between the tokens, and with a
//! free choice wherever the language has more than one way to write a thing.

use vstd::prelude::*;
use crate::grammar::Step;
use crate::grammar::lexical::{after_token, expect, field, integer, key, must_string_literal};
use crate::grammar::lexical::{name_part, number, string_literal};
use crate::laws::basic::{NumberParts, blank, in_name, law_integer_read, law_key_read};
use crate::laws::basic::{law_literal_read, law_number_read, numeral, numerals, opens_name};
use crate::laws::basic::{spelling, value_of};
use crate::laws::lexical::{is_name, law_field_round_trip};
use crate::query::{AggregateFun, Sort};
use crate::text::{lemma_run_end_unique, skip_ws, starts_at, white_space};

verus! {

/// A hand that writes. Each of its choices may depend on the text that follows.
pub struct Pen {
    /// The white space between two tokens, which may be none.
    pub gap: spec_fn(Seq<char>) -> Seq<char>,
    /// The white space between two tokens that would run together without it.
    pub space: spec_fn(Seq<char>) -> Seq<char>,
    /// Whether a key that is a name is written without quotes.
    pub plain: spec_fn(Seq<char>) -> bool,
    /// Which characters of a literal are written as escapes.
    pub escapes: spec_fn(Seq<char>) -> Seq<bool>,
    /// The digits of an integer.
    pub digits: spec_fn(int, Seq<char>) -> Seq<char>,
    /// Whether what may be left out is written all the same.
    pub full: spec_fn(Seq<char>) -> bool,
    /// The word for a direction before the default of a key of the order, if one is written
    /// there, and whether the word for the direction of the key is written behind it.
    pub directions: spec_fn(Seq<char>) -> (Option<Sort>, bool),
    /// The function whose word is written where an order makes a grouping of it.
    pub function: spec_fn(Seq<char>) -> AggregateFun,
}

/// White space and nothing else.
pub open spec fn blanks(g: Seq<char>) -> bool {
    forall|i: int| 0 <= i < g.len() ==> blank(#[trigger] g[i])
}

impl Pen {
    /// Whether the hand writes white space where it has to, and digits for numbers.
    pub open spec fn ok(self) -> bool {
        &&& forall|rest: Seq<char>| blanks(#[trigger] (self.gap)(rest))
        &&& forall|rest: Seq<char>|
            blanks(#[trigger] (self.space)(rest)) && (self.space)(rest).len() > 0
        &&& forall|n: int, rest: Seq<char>|
            n >= 0 ==> numerals(#[trigger] (self.digits)(n, rest)) && value_of(
                (self.digits)(n, rest),
            ) == n
    }

    /// A token before `rest`.
    pub open spec fn token(self, t: Seq<char>, rest: Seq<char>) -> Seq<char> {
        t + (self.gap)(rest) + rest
    }

    /// A name before `rest`.
    pub open spec fn name(self, t: Seq<char>, rest: Seq<char>) -> Seq<char> {
        t + (if rest.len() > 0 && in_name(rest[0]) {
            (self.space)(rest)
        } else {
            (self.gap)(rest)
        }) + rest
    }

    /// A number before `rest`.
    pub open spec fn number(self, t: Seq<char>, rest: Seq<char>) -> Seq<char> {
        t + (if rest.len() > 0 && (numeral(rest[0]) || rest[0] == '.' || rest[0] == 'e' || rest[0]
            == 'E') {
            (self.space)(rest)
        } else {
            (self.gap)(rest)
        }) + rest
    }

    /// A string literal before `rest`.
    pub open spec fn literal(self, text: Seq<char>, rest: Seq<char>) -> Seq<char> {
        self.token(seq!['"'] + spelling(text, (self.escapes)(rest)) + seq!['"'], rest)
    }

    /// A key before `rest`.
    pub open spec fn key(self, name: Seq<char>, rest: Seq<char>) -> Seq<char> {
        if (self.plain)(rest) && plain_name(name) {
            self.name(name, rest)
        } else {
            self.literal(name, rest)
        }
    }
}

/// A name: a letter, a low line or a dollar sign, and such characters or digits behind it.
pub open spec fn plain_name(t: Seq<char>) -> bool {
    &&& t.len() > 0
    &&& opens_name(t[0])
    &&& forall|i: int| 0 <= i < t.len() ==> in_name(#[trigger] t[i])
}

/// Whether a text does not start with white space.
pub open spec fn clean(rest: Seq<char>) -> bool {
    rest.len() > 0 ==> !blank(rest[0])
}

/// Whether a text starts with `t`.
pub open spec fn begins(rest: Seq<char>, t: Seq<char>) -> bool {
    t.len() <= rest.len() && rest.take(t.len() as int) == t
}

/// Whether `s` ends with `rest`.
pub open spec fn suffix(s: Seq<char>, rest: Seq<char>) -> bool {
    rest.len() <= s.len() && s.skip(s.len() - rest.len()) == rest
}

/// Where `rest` starts in a text that ends with it.
pub open spec fn pos(s: Seq<char>, rest: Seq<char>) -> int {
    s.len() - rest.len()
}

/// What stands before a part of the end of a text, and where that part stands.
pub proof fn lemma_token(s: Seq<char>, t: Seq<char>, g: Seq<char>, rest: Seq<char>)
    requires
        suffix(s, t + g + rest),
        blanks(g),
        clean(rest),
    ensures
        suffix(s, rest),
        starts_at(s, pos(s, t + g + rest), t),
        pos(s, t + g + rest) + t.len() + g.len() == pos(s, rest),
        skip_ws(s, pos(s, t + g + rest) + t.len()) == pos(s, rest),
        after_token(s, pos(s, t + g + rest), t) == Some(pos(s, rest)),
        0 <= pos(s, t + g + rest) <= s.len(),
        t.len() > 0 ==> s[pos(s, t + g + rest)] == t[0],
        g.len() > 0 ==> pos(s, t + g + rest) + t.len() < s.len() && blank(
            s[pos(s, t + g + rest) + t.len()],
        ),
        g.len() == 0 && rest.len() > 0 ==> s[pos(s, t + g + rest) + t.len()] == rest[0],
        g.len() == 0 && rest.len() == 0 ==> pos(s, t + g + rest) + t.len() == s.len(),
{
    let all = t + g + rest;
    let at = pos(s, all);
    assert forall|i: int| 0 <= i < all.len() implies s[at + i] == #[trigger] all[i] by {
        assert(s.skip(at)[i] == all[i]);
    }
    assert(s.subrange(at, at + t.len()) =~= t) by {
        assert forall|i: int| 0 <= i < t.len() implies s[at + i] == t[i] by {
            assert(all[i] == t[i]);
        }
    }
    assert(s.skip(pos(s, rest)) =~= rest) by {
        assert forall|i: int| 0 <= i < rest.len() implies s[pos(s, rest) + i] == rest[i] by {
            assert(all[t.len() + g.len() + i] == rest[i]);
        }
    }
    let class = |c: char| white_space(c);
    assert forall|i: int| at + t.len() <= i < pos(s, rest) implies class(#[trigger] s[i]) by {
        assert(all[i - at] == g[i - at - t.len()]);
        assert(blank(g[i - at - t.len()]));
    }
    if rest.len() > 0 {
        assert(all[(t.len() + g.len()) as int] == rest[0]);
    }
    if t.len() > 0 {
        assert(all[0] == t[0]);
    }
    lemma_run_end_unique(s, at + t.len(), pos(s, rest), class);
}

/// A token stands at the end of a text that starts with it, and nowhere else.
pub proof fn lemma_begins(s: Seq<char>, rest: Seq<char>, t: Seq<char>)
    requires
        suffix(s, rest),
    ensures
        0 <= pos(s, rest) <= s.len(),
        rest.len() > 0 ==> s[pos(s, rest)] == rest[0],
        starts_at(s, pos(s, rest), t) == begins(rest, t),
        !begins(rest, t) ==> after_token(s, pos(s, rest), t) is None,
        t.len() > 0 && (rest.len() == 0 || rest[0] != t[0]) ==> !begins(rest, t),
{
    let at = pos(s, rest);
    if t.len() <= rest.len() {
        assert(s.subrange(at, at + t.len()) =~= rest.take(t.len() as int)) by {
            assert forall|i: int| 0 <= i < t.len() implies s[at + i] == rest[i] by {
                assert(s.skip(at)[i] == rest[i]);
            }
        }
    }
    if rest.len() > 0 {
        assert(s.skip(at)[0] == rest[0]);
    }
    if begins(rest, t) && t.len() > 0 {
        assert(rest.take(t.len() as int)[0] == rest[0]);
    }
}

/// Nothing is passed before a text that does not start with white space.
pub proof fn lemma_clean(s: Seq<char>, rest: Seq<char>)
    requires
        suffix(s, rest),
        clean(rest),
    ensures
        skip_ws(s, pos(s, rest)) == pos(s, rest),
{
    let none = Seq::<char>::empty();
    assert(none + none + rest =~= rest);
    lemma_token(s, none, none, rest);
}

/// A token of a hand is read, and what follows it comes next.
pub proof fn lemma_pen_token(s: Seq<char>, pen: Pen, t: Seq<char>, rest: Seq<char>)
    requires
        pen.ok(),
        suffix(s, pen.token(t, rest)),
        clean(rest),
    ensures
        suffix(s, rest),
        0 <= pos(s, pen.token(t, rest)) <= s.len(),
        pos(s, pen.token(t, rest)) + t.len() <= pos(s, rest),
        starts_at(s, pos(s, pen.token(t, rest)), t),
        after_token(s, pos(s, pen.token(t, rest)), t) == Some(pos(s, rest)),
        expect(s, pos(s, pen.token(t, rest)), t) == (Step::Done { value: (), at: pos(s, rest) }),
        t.len() > 0 ==> s[pos(s, pen.token(t, rest))] == t[0] && pen.token(t, rest)[0] == t[0]
            && pen.token(t, rest).len() > 0,
{
    lemma_token(s, t, (pen.gap)(rest), rest);
}

/// A string literal of a hand is read.
pub proof fn lemma_pen_literal(s: Seq<char>, pen: Pen, text: Seq<char>, rest: Seq<char>)
    requires
        pen.ok(),
        suffix(s, pen.literal(text, rest)),
        clean(rest),
    ensures
        suffix(s, rest),
        string_literal(s, pos(s, pen.literal(text, rest))) == (Step::Done {
            value: Some(text),
            at: pos(s, rest),
        }),
        must_string_literal(s, pos(s, pen.literal(text, rest))) == (Step::Done {
            value: text,
            at: pos(s, rest),
        }),
        0 <= pos(s, pen.literal(text, rest)) < s.len(),
        s[pos(s, pen.literal(text, rest))] == '"',
        pos(s, pen.literal(text, rest)) < pos(s, rest),
{
    let escapes = (pen.escapes)(rest);
    let t = seq!['"'] + spelling(text, escapes) + seq!['"'];
    lemma_token(s, t, (pen.gap)(rest), rest);
    law_literal_read(s, pos(s, pen.literal(text, rest)), text, escapes);
}

/// A name of a hand is read.
pub proof fn lemma_pen_name(s: Seq<char>, pen: Pen, name: Seq<char>, rest: Seq<char>)
    requires
        pen.ok(),
        plain_name(name),
        suffix(s, pen.name(name, rest)),
        clean(rest),
    ensures
        suffix(s, rest),
        field(s, pos(s, pen.name(name, rest))) == Some((name, pos(s, rest))),
        0 <= pos(s, pen.name(name, rest)) < s.len(),
        s[pos(s, pen.name(name, rest))] == name[0],
        pos(s, pen.name(name, rest)) < pos(s, rest),
{
    let g = if rest.len() > 0 && in_name(rest[0]) {
        (pen.space)(rest)
    } else {
        (pen.gap)(rest)
    };
    lemma_token(s, name, g, rest);
    assert(is_name(name)) by {
        assert forall|i: int| 0 < i < name.len() implies name_part(#[trigger] name[i]) by {
            assert(in_name(name[i]));
        }
    }
    law_field_round_trip(s, pos(s, pen.name(name, rest)), name);
}

/// A key of a hand is read.
pub proof fn lemma_pen_key(s: Seq<char>, pen: Pen, name: Seq<char>, rest: Seq<char>)
    requires
        pen.ok(),
        suffix(s, pen.key(name, rest)),
        clean(rest),
    ensures
        suffix(s, rest),
        key(s, pos(s, pen.key(name, rest))) == (Step::Done { value: Some(name), at: pos(s, rest) }),
        0 <= pos(s, pen.key(name, rest)) < s.len(),
        pos(s, pen.key(name, rest)) < pos(s, rest),
{
    if (pen.plain)(rest) && plain_name(name) {
        lemma_pen_name(s, pen, name, rest);
    } else {
        lemma_pen_literal(s, pen, name, rest);
        law_key_read(s, pos(s, pen.key(name, rest)));
    }
}

/// Keys are written with a quote or with what starts a name.
pub proof fn lemma_pen_key_start(pen: Pen, name: Seq<char>, rest: Seq<char>)
    ensures
        pen.key(name, rest).len() > 0,
        pen.key(name, rest)[0] == '"' || opens_name(pen.key(name, rest)[0]),
{
    if !((pen.plain)(rest) && plain_name(name)) {
        let t = seq!['"'] + spelling(name, (pen.escapes)(rest)) + seq!['"'];
        assert(t[0] == '"');
    }
}

/// An integer of a hand is read.
pub proof fn lemma_pen_integer(s: Seq<char>, pen: Pen, n: int, rest: Seq<char>)
    requires
        pen.ok(),
        0 <= n <= i64::MAX,
        suffix(s, pen.number((pen.digits)(n, rest), rest)),
        clean(rest),
    ensures
        suffix(s, rest),
        integer(s, pos(s, pen.number((pen.digits)(n, rest), rest))) == (Step::Done {
            value: Some(n as i64),
            at: pos(s, rest),
        }),
        numeral(pen.number((pen.digits)(n, rest), rest)[0]),
        pen.number((pen.digits)(n, rest), rest).len() > 0,
{
    let d = (pen.digits)(n, rest);
    let g = if rest.len() > 0 && (numeral(rest[0]) || rest[0] == '.' || rest[0] == 'e' || rest[0]
        == 'E') {
        (pen.space)(rest)
    } else {
        (pen.gap)(rest)
    };
    assert(numeral(d[0]));
    lemma_token(s, d, g, rest);
    law_integer_read(s, pos(s, pen.number(d, rest)), d);
}

/// A number of JSON that a hand writes is read.
pub proof fn lemma_pen_number(s: Seq<char>, pen: Pen, parts: NumberParts, rest: Seq<char>)
    requires
        pen.ok(),
        parts.proper(),
        suffix(s, pen.number(parts.text(), rest)),
        clean(rest),
    ensures
        suffix(s, rest),
        number(s, pos(s, pen.number(parts.text(), rest))) == (Step::Done {
            value: Some(parts.text()),
            at: pos(s, rest),
        }),
        0 <= pos(s, pen.number(parts.text(), rest)) < s.len(),
        s[pos(s, pen.number(parts.text(), rest))] == parts.text()[0],
{
    let g = if rest.len() > 0 && (numeral(rest[0]) || rest[0] == '.' || rest[0] == 'e' || rest[0]
        == 'E') {
        (pen.space)(rest)
    } else {
        (pen.gap)(rest)
    };
    lemma_number_start(parts);
    lemma_token(s, parts.text(), g, rest);
    law_number_read(s, pos(s, pen.number(parts.text(), rest)), parts);
}

/// A number is written with a sign or a digit first.
pub proof fn lemma_number_start(parts: NumberParts)
    requires
        parts.proper(),
    ensures
        parts.text().len() > 0,
        parts.text()[0] == '-' || numeral(parts.text()[0]),
{
    assert(numeral(parts.whole[0]));
    assert(parts.head().len() > 0);
    assert(parts.mantissa()[0] == parts.head()[0]);
    assert(parts.text()[0] == parts.mantissa()[0]);
}

} // verus!
