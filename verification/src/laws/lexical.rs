//! What is written down is read back: string literals, integers, the limit. And what is
//! read as a number is one of JSON.

use vstd::prelude::*;
use crate::grammar::Step;
use crate::grammar::clauses::limit_clause;
use crate::grammar::lexical::{Body, after_token, bare_integer, char_at, exponent_end, field};
use crate::grammar::lexical::{integer, key, lemma_number_end, lemma_quote_token, literal_body};
use crate::grammar::lexical::{name_part, name_start, number, number_end, string_literal, whole_end};
use crate::text::{decimal, digit, lemma_decimal_round_trip, lemma_run_end, lemma_run_end_unique};
use crate::text::{run_end, skip_ws, starts_at, white_space};

verus! {

/// A token in two parts stands where its parts stand one behind the other.
pub proof fn lemma_starts_at_parts(s: Seq<char>, at: int, head: Seq<char>, tail: Seq<char>)
    ensures
        starts_at(s, at, head + tail) <==> starts_at(s, at, head) && starts_at(
            s,
            at + head.len(),
            tail,
        ),
{
    let both = head + tail;
    if starts_at(s, at, both) {
        assert(s.subrange(at, at + head.len()) =~= head) by {
            assert forall|i: int| 0 <= i < head.len() implies s.subrange(at, at + head.len())[i]
                == head[i] by {
                assert(s.subrange(at, at + both.len())[i] == both[i]);
            }
        }
        assert(s.subrange(at + head.len(), at + head.len() + tail.len()) =~= tail) by {
            assert forall|i: int| 0 <= i < tail.len() implies s.subrange(
                at + head.len(),
                at + head.len() + tail.len(),
            )[i] == tail[i] by {
                assert(s.subrange(at, at + both.len())[head.len() + i] == both[head.len() + i]);
            }
        }
    }
    if starts_at(s, at, head) && starts_at(s, at + head.len(), tail) {
        assert(s.subrange(at, at + both.len()) =~= both) by {
            assert forall|i: int| 0 <= i < both.len() implies s.subrange(at, at + both.len())[i]
                == both[i] by {
                if i < head.len() {
                    assert(s.subrange(at, at + head.len())[i] == head[i]);
                } else {
                    let k = i - head.len();
                    assert(s.subrange(at + head.len(), at + head.len() + tail.len())[k] == tail[k]);
                }
            }
        }
    }
}

/// The characters of a token stand where the token stands.
pub proof fn lemma_starts_at_char(s: Seq<char>, at: int, token: Seq<char>, i: int)
    requires
        starts_at(s, at, token),
        0 <= i < token.len(),
    ensures
        0 <= at + i < s.len(),
        s[at + i] == token[i],
{
    assert(s.subrange(at, at + token.len())[i] == token[i]);
}

/// A token does not stand where its first character does not.
pub proof fn lemma_other_token(s: Seq<char>, at: int, token: Seq<char>)
    requires
        token.len() > 0,
        0 <= at < s.len(),
        s[at] != token[0],
    ensures
        !starts_at(s, at, token),
{
    if starts_at(s, at, token) {
        lemma_starts_at_char(s, at, token, 0);
    }
}

/// One character that stands somewhere is read as a token there.
pub proof fn lemma_one_mark(s: Seq<char>, at: int, token: Seq<char>, c: char)
    requires
        0 <= at < s.len(),
        s[at] == c,
        token == seq![c],
    ensures
        starts_at(s, at, token),
{
    assert(s.subrange(at, at + 1) =~= token);
}

/// White space is skipped once and for all: what follows is none.
pub proof fn law_white_space_skipped(s: Seq<char>, at: int)
    requires
        0 <= at <= s.len(),
    ensures
        at <= skip_ws(s, at) <= s.len(),
        forall|i: int| at <= i < skip_ws(s, at) ==> white_space(#[trigger] s[i]),
        skip_ws(s, at) < s.len() ==> !white_space(s[skip_ws(s, at)]),
        skip_ws(s, skip_ws(s, at)) == skip_ws(s, at),
{
    let class = |c: char| white_space(c);
    lemma_run_end(s, at, class);
    assert forall|i: int| at <= i < skip_ws(s, at) implies white_space(#[trigger] s[i]) by {
        assert(class(s[i]));
    }
}

/// White space is not skipped where there is none.
pub proof fn lemma_no_white_space(s: Seq<char>, at: int)
    requires
        0 <= at < s.len(),
        !white_space(s[at]),
    ensures
        skip_ws(s, at) == at,
{
}

/// How texts are written, where there is a choice.
pub struct Style {
    /// The characters that are written as an escape, among those that have one of a single
    /// letter. The quote and the backslash are so in any case.
    pub escapes: spec_fn(char) -> bool,
    /// Whether keys that are names are written without quotes.
    pub bare: bool,
}

/// The letter that stands for `c` behind a backslash.
pub open spec fn escape_letter(c: char) -> Option<char> {
    if c == '\\' || c == '"' || c == '/' {
        Some(c)
    } else if c == '\n' {
        Some('n')
    } else if c == '\u{8}' {
        Some('b')
    } else if c == '\r' {
        Some('r')
    } else if c == '\u{C}' {
        Some('f')
    } else if c == '\t' {
        Some('t')
    } else if c == '\u{B}' {
        Some('v')
    } else {
        None
    }
}

/// The form of `c` in a string literal.
pub open spec fn quoted_char(c: char, style: Style) -> Seq<char> {
    let must = c == '"' || c == '\\';
    match escape_letter(c) {
        Some(letter) => if must || (style.escapes)(c) {
            seq!['\\', letter]
        } else {
            seq![c]
        },
        None => seq![c],
    }
}

/// The form of `text` between the quotes of a string literal.
pub open spec fn quoted_body(text: Seq<char>, style: Style) -> Seq<char>
    decreases text.len(),
{
    if text.len() == 0 {
        Seq::empty()
    } else {
        quoted_char(text[0], style) + quoted_body(text.drop_first(), style)
    }
}

/// `text` as a string literal.
pub open spec fn quoted(text: Seq<char>, style: Style) -> Seq<char> {
    seq!['"'] + quoted_body(text, style) + seq!['"']
}

/// The characters of a literal are read back up to the closing quote.
proof fn lemma_quoted_body(
    s: Seq<char>,
    at: int,
    before: Seq<char>,
    text: Seq<char>,
    style: Style,
)
    requires
        starts_at(s, at, quoted_body(text, style) + seq!['"']),
    ensures
        literal_body(s, at, before) == (Body::End {
            text: before + text,
            at: at + quoted_body(text, style).len(),
        }),
    decreases text.len(),
{
    let whole = quoted_body(text, style) + seq!['"'];
    if text.len() == 0 {
        lemma_starts_at_char(s, at, whole, 0);
        assert(before + text =~= before);
    } else {
        let first = text[0];
        let rest = text.drop_first();
        let tail = quoted_body(rest, style) + seq!['"'];
        let form = quoted_char(first, style);
        assert(whole =~= form + tail);
        lemma_starts_at_parts(s, at, form, tail);
        lemma_starts_at_char(s, at, whole, 0);
        lemma_starts_at_char(s, at, whole, 1);
        assert(whole[0] == form[0]);
        if form.len() == 2 {
            assert(whole[1] == form[1]);
        }
        lemma_quoted_body(s, at + form.len(), before.push(first), rest, style);
        assert(before.push(first) + rest =~= before + text);
    }
}

/// A text that is written as a string literal is read back, whichever of its characters are
/// escaped by a letter, and the white space behind it is skipped.
pub proof fn law_string_round_trip(s: Seq<char>, at: int, text: Seq<char>, style: Style)
    requires
        starts_at(s, at, quoted(text, style)),
    ensures
        string_literal(s, at) == (Step::Done {
            value: Some(text),
            at: skip_ws(s, at + quoted(text, style).len()),
        }),
{
    lemma_quote_token();
    let tail = quoted_body(text, style) + seq!['"'];
    assert(quoted(text, style) =~= "\""@ + tail);
    lemma_starts_at_parts(s, at, "\""@, tail);
    lemma_quoted_body(s, at + 1, Seq::empty(), text, style);
    assert(Seq::<char>::empty() + text =~= text);
    lemma_starts_at_parts(s, at + 1, quoted_body(text, style), "\""@);
}

/// Whether `t` is a name, which can be written without quotes.
pub open spec fn is_name(t: Seq<char>) -> bool {
    &&& t.len() > 0
    &&& name_start(t[0])
    &&& forall|i: int| 0 < i < t.len() ==> name_part(#[trigger] t[i])
}

/// A name is read whole: what is read is one, it does not start with a digit, and no
/// character follows it with which it would go on.
pub proof fn law_field_is_name(s: Seq<char>, at: int)
    ensures
        field(s, at) matches Some((name, next)) ==> {
            &&& is_name(name)
            &&& !digit(name[0])
            &&& starts_at(s, at, name)
            &&& at + name.len() < s.len() ==> !name_part(s[at + name.len()])
            &&& next == skip_ws(s, at + name.len())
        },
{
    let class = |c: char| name_part(c);
    if 0 <= at < s.len() && name_start(s[at]) {
        lemma_run_end(s, at + 1, class);
        let end = run_end(s, at + 1, class);
        let name = s.subrange(at, end);
        assert forall|i: int| 0 < i < name.len() implies name_part(#[trigger] name[i]) by {
            assert(class(s[at + i]));
        }
    }
}

/// A name is read back where it ends.
pub proof fn law_field_round_trip(s: Seq<char>, at: int, name: Seq<char>)
    requires
        is_name(name),
        starts_at(s, at, name),
        at + name.len() < s.len() ==> !name_part(s[at + name.len()]),
    ensures
        field(s, at) == Some((name, skip_ws(s, at + name.len()))),
{
    let class = |c: char| name_part(c);
    lemma_starts_at_char(s, at, name, 0);
    assert forall|i: int| at + 1 <= i < at + name.len() implies class(#[trigger] s[i]) by {
        lemma_starts_at_char(s, at, name, i - at);
    }
    lemma_run_end_unique(s, at + 1, at + name.len(), class);
}

/// A key as it is written: as a name, or as a string literal.
pub open spec fn name_text(name: Seq<char>, style: Style) -> Seq<char> {
    if style.bare && is_name(name) {
        name
    } else {
        quoted(name, style)
    }
}

/// A key is written with a character that is no white space.
pub proof fn lemma_name_text_start(name: Seq<char>, style: Style)
    ensures
        name_text(name, style).len() > 0,
        name_text(name, style)[0] == '"' || name_start(name_text(name, style)[0]),
{
}

/// A key is read back where no name goes on.
pub proof fn law_key_round_trip(s: Seq<char>, at: int, name: Seq<char>, style: Style)
    requires
        starts_at(s, at, name_text(name, style)),
        at + name_text(name, style).len() < s.len() ==> !name_part(
            s[at + name_text(name, style).len()],
        ),
    ensures
        key(s, at) == (Step::Done {
            value: Some(name),
            at: skip_ws(s, at + name_text(name, style).len()),
        }),
{
    if style.bare && is_name(name) {
        law_field_round_trip(s, at, name);
    } else {
        lemma_starts_at_char(s, at, quoted(name, style), 0);
        law_string_round_trip(s, at, name, style);
    }
}

/// A decimal numeral is read back.
pub proof fn lemma_bare_integer_round_trip(s: Seq<char>, at: int, n: nat)
    requires
        starts_at(s, at, decimal(n)),
        at + decimal(n).len() < s.len() ==> !digit(s[at + decimal(n).len()]),
        n <= i64::MAX,
    ensures
        bare_integer(s, at) == (Step::Done {
            value: Some(n as i64),
            at: at + decimal(n).len(),
        }),
{
    let class = |c: char| digit(c);
    let end = at + decimal(n).len();
    lemma_decimal_round_trip(n);
    assert forall|i: int| at <= i < end implies class(#[trigger] s[i]) by {
        lemma_starts_at_char(s, at, decimal(n), i - at);
        assert(digit(decimal(n)[i - at]));
    }
    lemma_run_end_unique(s, at, end, class);
}

/// A decimal numeral is read back, and the white space behind it is skipped.
pub proof fn law_integer_round_trip(s: Seq<char>, at: int, n: nat)
    requires
        starts_at(s, at, decimal(n)),
        at + decimal(n).len() < s.len() ==> !digit(s[at + decimal(n).len()]),
        n <= i64::MAX,
    ensures
        integer(s, at) == (Step::Done {
            value: Some(n as i64),
            at: skip_ws(s, at + decimal(n).len()),
        }),
{
    lemma_bare_integer_round_trip(s, at, n);
}

/// A limit is read back as the number that was written, on a machine where it fits.
pub proof fn law_limit_round_trip(s: Seq<char>, at: int, n: nat)
    requires
        after_token(s, at, "limit"@) matches Some(start) && starts_at(s, start, decimal(n)) && (
        start + decimal(n).len() < s.len() ==> !digit(s[start + decimal(n).len()])),
        0 < n <= i64::MAX,
        n <= usize::MAX,
    ensures
        limit_clause(s, at) matches Step::Done { value, at: end } && value == n,
{
    let start = after_token(s, at, "limit"@).unwrap();
    law_integer_round_trip(s, start, n);
}

/// The end of the fraction of a number of JSON whose whole part ends at `at`, where there
/// is one.
pub open spec fn json_fraction_end(t: Seq<char>, at: int) -> Option<int> {
    let end = run_end(t, at + 1, |c: char| digit(c));
    if !char_at(t, at, '.') {
        Some(at)
    } else if end == at + 1 {
        None
    } else {
        Some(end)
    }
}

/// The end of the exponent of a number of JSON whose fraction ends at `at`, where there
/// is one.
pub open spec fn json_exponent_end(t: Seq<char>, at: int) -> Option<int> {
    if char_at(t, at, 'e') || char_at(t, at, 'E') {
        exponent_end(t, at)
    } else {
        Some(at)
    }
}

/// Where the first digit of a number stands in its text.
pub open spec fn first_digit(t: Seq<char>) -> int {
    if char_at(t, 0, '-') {
        1
    } else {
        0
    }
}

/// The numbers of JSON: a sign or none, a zero or digits that start with another digit, a
/// fraction or none, and an exponent or none.
pub open spec fn json_number(t: Seq<char>) -> bool {
    let first = first_digit(t);
    &&& first < t.len()
    &&& digit(t[first])
    &&& json_fraction_end(t, whole_end(t, first)) matches Some(end)
    &&& json_exponent_end(t, end) == Some(t.len() as int)
}

/// A run within a part of a text is one of the part.
proof fn lemma_run_in_part(s: Seq<char>, from: int, to: int, at: int)
    requires
        0 <= from <= at <= s.len(),
        run_end(s, at, |c: char| digit(c)) <= to <= s.len(),
    ensures
        run_end(s.subrange(from, to), at - from, |c: char| digit(c)) == run_end(
            s,
            at,
            |c: char| digit(c),
        ) - from,
{
    let class = |c: char| digit(c);
    let end = run_end(s, at, class);
    lemma_run_end(s, at, class);
    let part = s.subrange(from, to);
    assert forall|i: int| at - from <= i < end - from implies class(#[trigger] part[i]) by {
        assert(class(s[i + from]));
    }
    lemma_run_end_unique(part, at - from, end - from, class);
}

/// The text that is read as a number is a number of JSON.
pub proof fn law_number_is_json(s: Seq<char>, at: int)
    requires
        0 <= at <= s.len(),
    ensures
        number(s, at) matches Step::Done { value: Some(text), at: end } ==> json_number(text),
{
    if let Step::Done { value: Some(text), .. } = number(s, at) {
        let class = |c: char| digit(c);
        let first = if char_at(s, at, '-') { at + 1 } else { at };
        lemma_number_end(s, first);
        let end = number_end(s, first)->Ok_0;
        assert(text == s.subrange(at, end));
        let whole = whole_end(s, first);
        lemma_run_end(s, first + 1, class);
        if whole < s.len() {
            lemma_run_end(s, whole + 1, class);
        }
        let mantissa = if char_at(s, whole, '.') { run_end(s, whole + 1, class) } else { whole };
        if mantissa < s.len() {
            lemma_run_end(s, mantissa + 1, class);
        }
        if mantissa + 1 < s.len() {
            lemma_run_end(s, mantissa + 2, class);
        }
        if s[first] != '0' {
            lemma_run_in_part(s, at, end, first + 1);
        }
        if char_at(s, whole, '.') {
            lemma_run_in_part(s, at, end, whole + 1);
        }
        if char_at(s, mantissa, 'e') || char_at(s, mantissa, 'E') {
            let digits = if mantissa + 1 < s.len() && (s[mantissa + 1] == '+' || s[mantissa + 1]
                == '-') {
                mantissa + 2
            } else {
                mantissa + 1
            };
            lemma_run_in_part(s, at, end, digits);
        }
    }
}

} // verus!
