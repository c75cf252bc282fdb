//! What the smallest parts of a query are, character by character: white space, tokens,
//! names, integers, numbers and string literals.

use vstd::prelude::*;
use vstd::utf8::encode_utf8;
use crate::grammar::Step;
use crate::grammar::lexical::{Body, after_token, bare_integer, char_at, escaped, expect};
use crate::grammar::lexical::{expected_message, exponent_end, field, integer, key};
use crate::grammar::lexical::{lemma_number_end, lemma_quote_token, lemma_string_literal};
use crate::grammar::lexical::{literal_body, must_string_literal, name_part, number, string_literal};
use crate::grammar::lexical::whole_end;
use crate::laws::json::{goes_on, law_number_round_trip};
use crate::laws::lexical::{escape_letter, first_digit, json_number, law_field_is_name};
use crate::laws::lexical::{law_white_space_skipped, lemma_one_mark, lemma_other_token};
use crate::laws::lexical::{lemma_starts_at_char, lemma_starts_at_parts};
use crate::text::{decimal, decimal_value, digit, hex_digit, lemma_decimal_round_trip};
use crate::text::{lemma_run_end_from, lemma_run_end_unique, run_end, skip_ws, starts_at};

verus! {

/// White space.
pub open spec fn blank(c: char) -> bool {
    c == ' ' || c == '\t' || c == '\n' || c == '\r'
}

/// A letter of ASCII, of either case.
pub open spec fn letter(c: char) -> bool {
    ('a' <= c && c <= 'z') || ('A' <= c && c <= 'Z')
}

/// A decimal digit.
pub open spec fn numeral(c: char) -> bool {
    '0' <= c && c <= '9'
}

/// A character with which a name can start.
pub open spec fn opens_name(c: char) -> bool {
    letter(c) || c == '_' || c == '$'
}

/// A character that can stand in a name.
pub open spec fn in_name(c: char) -> bool {
    letter(c) || c == '_' || c == '$' || numeral(c)
}

/// A digit or more, and nothing else.
pub open spec fn numerals(d: Seq<char>) -> bool {
    d.len() > 0 && forall|i: int| 0 <= i < d.len() ==> numeral(#[trigger] d[i])
}

/// White space is passed up to the first character that is none.
pub proof fn law_blanks_passed(s: Seq<char>, at: int)
    requires
        0 <= at <= s.len(),
    ensures
        at <= skip_ws(s, at) <= s.len(),
        forall|i: int| at <= i < skip_ws(s, at) ==> blank(#[trigger] s[i]),
        skip_ws(s, at) < s.len() ==> !blank(s[skip_ws(s, at)]),
{
    law_white_space_skipped(s, at);
}

/// A token stands where its characters stand, one by one.
pub proof fn law_token_stands(s: Seq<char>, at: int, token: Seq<char>)
    ensures
        starts_at(s, at, token) <==> 0 <= at && at + token.len() <= s.len() && forall|i: int|
            0 <= i < token.len() ==> s[at + i] == #[trigger] token[i],
{
    if 0 <= at && at + token.len() <= s.len() {
        let part = s.subrange(at, at + token.len());
        if forall|i: int| 0 <= i < token.len() ==> s[at + i] == #[trigger] token[i] {
            assert(part =~= token);
        }
        if starts_at(s, at, token) {
            assert forall|i: int| 0 <= i < token.len() implies s[at + i] == #[trigger] token[i] by {
                assert(part[i] == token[i]);
            }
        }
    }
}

/// A token that stands is passed with the white space behind it, and one that does not
/// leaves the position and is named in the message, with the byte offset of the position
/// and the character that is found there.
pub proof fn law_token_passed(s: Seq<char>, at: int, token: Seq<char>)
    requires
        0 <= at <= s.len(),
    ensures
        starts_at(s, at, token) ==> after_token(s, at, token) == Some(
            skip_ws(s, at + token.len()),
        ) && expect(s, at, token) == (Step::Done { value: (), at: skip_ws(s, at + token.len()) }),
        !starts_at(s, at, token) ==> after_token(s, at, token) is None && expect(s, at, token) == (
        Step::<()>::Fail {
            message: "Expected '"@ + token + "' at character "@ + decimal(
                encode_utf8(s.take(at)).len(),
            ) + ", found "@ + (if at < s.len() {
                seq![s[at]]
            } else {
                Seq::empty()
            }) + "."@,
            at,
        }),
{
}

/// The number that digits stand for, each ten times what it is one place further back.
pub open spec fn value_of(d: Seq<char>) -> int
    decreases d.len(),
{
    if d.len() == 0 {
        0
    } else {
        10 * value_of(d.drop_last()) + (d.last() as int - '0' as int)
    }
}

/// The two ways to compute the number of digits agree.
proof fn lemma_value_of(d: Seq<char>)
    ensures
        value_of(d) == decimal_value(d),
    decreases d.len(),
{
    if d.len() > 0 {
        lemma_value_of(d.drop_last());
    }
}

/// A decimal numeral is made of digits, stands for its number, and has no zero in front.
pub proof fn law_decimal(n: nat)
    ensures
        numerals(decimal(n)),
        value_of(decimal(n)) == n,
        decimal(n)[0] == '0' ==> decimal(n).len() == 1,
    decreases n,
{
    lemma_decimal_round_trip(n);
    lemma_value_of(decimal(n));
    assert forall|i: int| 0 <= i < decimal(n).len() implies numeral(#[trigger] decimal(n)[i]) by {
        assert(digit(decimal(n)[i]));
    }
    if n >= 10 {
        law_decimal(n / 10);
        assert(decimal(n)[0] == decimal(n / 10)[0]);
        if decimal(n / 10)[0] == '0' {
            assert(decimal(n / 10) =~= seq!['0']);
            assert(decimal(n / 10).drop_last() =~= Seq::empty());
            reveal_with_fuel(value_of, 2);
        }
    }
}

/// A name is read exactly where a character stands with which a name can start, and as far
/// as characters of names follow.
pub proof fn law_name_read(s: Seq<char>, at: int)
    ensures
        field(s, at) is Some <==> 0 <= at < s.len() && opens_name(s[at]),
        field(s, at) matches Some((name, next)) ==> {
            &&& name.len() > 0
            &&& at + name.len() <= s.len()
            &&& forall|i: int| 0 <= i < name.len() ==> s[at + i] == #[trigger] name[i]
            &&& forall|i: int| 0 <= i < name.len() ==> in_name(#[trigger] name[i])
            &&& at + name.len() < s.len() ==> !in_name(s[at + name.len()])
            &&& next == skip_ws(s, at + name.len())
        },
{
    law_field_is_name(s, at);
    if let Some((name, next)) = field(s, at) {
        law_token_stands(s, at, name);
        assert forall|i: int| 0 <= i < name.len() implies in_name(#[trigger] name[i]) by {
            if i > 0 {
                assert(name_part(name[i]));
            }
        }
    }
}

/// Digits are read as their number, as far as digits follow, and where none stands nothing
/// is read.
pub proof fn law_integer_read(s: Seq<char>, at: int, d: Seq<char>)
    requires
        0 <= at <= s.len(),
    ensures
        (at == s.len() || !numeral(s[at])) ==> integer(s, at) == (Step::Done {
            value: None::<i64>,
            at,
        }) && bare_integer(s, at) == (Step::Done { value: None::<i64>, at }),
        numerals(d) && starts_at(s, at, d) && (at + d.len() < s.len() ==> !numeral(
            s[at + d.len()],
        )) ==> if value_of(d) <= i64::MAX {
            &&& bare_integer(s, at) == (Step::Done {
                value: Some(value_of(d) as i64),
                at: at + d.len(),
            })
            &&& integer(s, at) == (Step::Done {
                value: Some(value_of(d) as i64),
                at: skip_ws(s, at + d.len()),
            })
        } else {
            &&& bare_integer(s, at) == (Step::<Option<i64>>::Fail {
                message: "number too large to fit in target type"@,
                at: at + d.len(),
            })
            &&& integer(s, at) == (Step::<Option<i64>>::Fail {
                message: "number too large to fit in target type"@,
                at: skip_ws(s, at + d.len()),
            })
        },
{
    let class = |c: char| digit(c);
    if numerals(d) && starts_at(s, at, d) && (at + d.len() < s.len() ==> !numeral(
        s[at + d.len()],
    )) {
        law_token_stands(s, at, d);
        assert forall|i: int| at <= i < at + d.len() implies class(#[trigger] s[i]) by {
            assert(numeral(d[i - at]));
        }
        lemma_run_end_unique(s, at, at + d.len(), class);
        assert(s.subrange(at, at + d.len()) == d);
        lemma_value_of(d);
    }
}

/// The parts of a number.
pub struct NumberParts {
    pub negative: bool,
    pub whole: Seq<char>,
    pub fraction: Option<Seq<char>>,
    /// The mark of the exponent with its sign, and its digits.
    pub exponent: Option<(Seq<char>, Seq<char>)>,
}

impl NumberParts {
    /// Whether the parts make a number of JSON.
    pub open spec fn proper(self) -> bool {
        &&& numerals(self.whole)
        &&& self.whole[0] == '0' ==> self.whole.len() == 1
        &&& self.fraction matches Some(d) ==> numerals(d)
        &&& self.exponent matches Some((mark, d)) ==> numerals(d) && (mark == seq!['e'] || mark
            == seq!['E'] || mark == seq!['e', '+'] || mark == seq!['E', '+'] || mark
            == seq!['e', '-'] || mark == seq!['E', '-'])
    }

    /// The sign and the digits before the fraction.
    pub open spec fn head(self) -> Seq<char> {
        if self.negative {
            seq!['-'] + self.whole
        } else {
            self.whole
        }
    }

    /// The number before the exponent.
    pub open spec fn mantissa(self) -> Seq<char> {
        match self.fraction {
            Some(d) => self.head() + seq!['.'] + d,
            None => self.head(),
        }
    }

    /// The number as it is written.
    pub open spec fn text(self) -> Seq<char> {
        match self.exponent {
            Some((mark, d)) => self.mantissa() + mark + d,
            None => self.mantissa(),
        }
    }

    /// Whether the number would go on with `c`, if `c` followed it.
    pub open spec fn continues(self, c: char) -> bool {
        if self.exponent is Some {
            numeral(c)
        } else if self.fraction is Some {
            numeral(c) || c == 'e' || c == 'E'
        } else {
            (numeral(c) && self.whole[0] != '0') || c == '.' || c == 'e' || c == 'E'
        }
    }
}

/// The runs of digits in the text of a number are its parts.
proof fn lemma_parts(parts: NumberParts)
    requires
        parts.proper(),
    ensures
        json_number(parts.text()),
        forall|c: char| #[trigger] goes_on(parts.text(), c) == parts.continues(c),
{
    let class = |c: char| digit(c);
    let t = parts.text();
    let first = if parts.negative { 1int } else { 0int };
    let whole = first + parts.whole.len();
    assert(numeral(parts.whole[0]));
    assert(parts.head().len() == whole);
    assert(t.take(whole) =~= parts.head());
    assert forall|i: int| 0 <= i < parts.whole.len() implies t[first + i]
        == #[trigger] parts.whole[i] by {
        assert(t.take(whole)[first + i] == parts.head()[first + i]);
    }
    assert(t[0] == if parts.negative { '-' } else { parts.whole[0] }) by {
        assert(t.take(whole)[0] == parts.head()[0]);
    }
    assert(first_digit(t) == first);
    assert(digit(t[first])) by {
        assert(t[first + 0] == parts.whole[0]);
    }
    let mantissa = parts.mantissa().len() as int;
    assert(t.take(mantissa) =~= parts.mantissa());
    if parts.fraction is Some {
        let d = parts.fraction.unwrap();
        assert(t.take(mantissa)[whole] == parts.mantissa()[whole]);
        assert(t[whole] == '.');
        assert forall|i: int| 0 <= i < d.len() implies t[whole + 1 + i] == #[trigger] d[i] by {
            assert(t.take(mantissa)[whole + 1 + i] == parts.mantissa()[whole + 1 + i]);
        }
    }
    if parts.exponent is Some {
        let (mark, d) = parts.exponent.unwrap();
        assert(t[mantissa] == mark[0]);
        assert(mark.len() == 2 ==> t[mantissa + 1] == mark[1]);
        assert forall|i: int| 0 <= i < d.len() implies t[mantissa + mark.len() + i]
            == #[trigger] d[i] by {
        }
    }
    // the whole part
    assert(whole < t.len() ==> !digit(t[whole]));
    if parts.whole[0] != '0' {
        assert forall|i: int| first + 1 <= i < whole implies class(#[trigger] t[i]) by {
            assert(t[first + (i - first)] == parts.whole[i - first]);
            assert(numeral(parts.whole[i - first]));
        }
        lemma_run_end_unique(t, first + 1, whole, class);
    }
    assert(whole_end(t, first) == whole);
    // the fraction
    if parts.fraction is Some {
        let d = parts.fraction.unwrap();
        assert forall|i: int| whole + 1 <= i < mantissa implies class(#[trigger] t[i]) by {
            assert(t[whole + 1 + (i - whole - 1)] == d[i - whole - 1]);
            assert(numeral(d[i - whole - 1]));
        }
        lemma_run_end_unique(t, whole + 1, mantissa, class);
    }
    // the exponent
    if parts.exponent is Some {
        let (mark, d) = parts.exponent.unwrap();
        let from = mantissa + mark.len();
        assert forall|i: int| from <= i < t.len() implies class(#[trigger] t[i]) by {
            assert(t[from + (i - from)] == d[i - from]);
            assert(numeral(d[i - from]));
        }
        lemma_run_end_unique(t, from as int, t.len() as int, class);
        assert(t[from + 0] == d[0]);
        assert(numeral(d[0]));
        assert(exponent_end(t, mantissa) == Some(t.len() as int));
    }
}

/// A number that is written by its parts is read whole, where it does not go on.
pub proof fn law_number_read(s: Seq<char>, at: int, parts: NumberParts)
    requires
        parts.proper(),
        starts_at(s, at, parts.text()),
        at + parts.text().len() < s.len() ==> !parts.continues(s[at + parts.text().len()]),
    ensures
        number(s, at) == (Step::Done {
            value: Some(parts.text()),
            at: skip_ws(s, at + parts.text().len()),
        }),
{
    lemma_parts(parts);
    if at + parts.text().len() < s.len() {
        assert(goes_on(parts.text(), s[at + parts.text().len()]) == parts.continues(
            s[at + parts.text().len()],
        ));
    }
    law_number_round_trip(s, at, parts.text());
}

/// Where the digits before the fraction of a number end in a text.
proof fn lemma_whole_in_text(s: Seq<char>, at: int, parts: NumberParts)
    requires
        parts.proper(),
        starts_at(s, at, parts.head()),
        parts.whole[0] != '0' && at + parts.head().len() < s.len() ==> !numeral(
            s[at + parts.head().len()],
        ),
    ensures
        ({
            let first = if parts.negative { at + 1 } else { at };
            &&& char_at(s, at, '-') == parts.negative
            &&& 0 <= first < s.len()
            &&& digit(s[first])
            &&& whole_end(s, first) == at + parts.head().len()
        }),
{
    let class = |c: char| digit(c);
    let head = parts.head();
    let first = if parts.negative { at + 1 } else { at };
    law_token_stands(s, at, head);
    assert(numeral(parts.whole[0]));
    assert(s[at + 0] == head[0]);
    assert forall|i: int| 0 <= i < parts.whole.len() implies s[first + i]
        == #[trigger] parts.whole[i] by {
        assert(s[at + (first - at + i)] == head[first - at + i]);
    }
    assert(s[first + 0] == parts.whole[0]);
    if parts.whole[0] != '0' {
        let end = at + head.len();
        assert forall|i: int| first + 1 <= i < end implies class(#[trigger] s[i]) by {
            assert(s[first + (i - first)] == parts.whole[i - first]);
            assert(numeral(parts.whole[i - first]));
        }
        lemma_run_end_unique(s, first + 1, end as int, class);
    }
}

/// Where the number before the exponent ends in a text.
proof fn lemma_mantissa_in_text(s: Seq<char>, at: int, parts: NumberParts)
    requires
        parts.proper(),
        parts.fraction is Some,
        starts_at(s, at, parts.mantissa()),
        at + parts.mantissa().len() < s.len() ==> !numeral(s[at + parts.mantissa().len()]),
    ensures
        ({
            let first = if parts.negative { at + 1 } else { at };
            let whole = at + parts.head().len();
            &&& char_at(s, at, '-') == parts.negative
            &&& 0 <= first < s.len()
            &&& digit(s[first])
            &&& whole_end(s, first) == whole
            &&& char_at(s, whole as int, '.')
            &&& run_end(s, whole + 1, |c: char| digit(c)) == at + parts.mantissa().len()
            &&& parts.mantissa().len() > parts.head().len() + 1
        }),
{
    let class = |c: char| digit(c);
    let d = parts.fraction.unwrap();
    let mantissa = parts.mantissa();
    let whole = at + parts.head().len();
    let end = at + mantissa.len();
    law_token_stands(s, at, mantissa);
    law_token_stands(s, at, parts.head());
    assert forall|i: int| 0 <= i < parts.head().len() implies s[at + i]
        == #[trigger] parts.head()[i] by {
        assert(mantissa[i] == parts.head()[i]);
    }
    assert(mantissa[parts.head().len() as int] == '.');
    lemma_whole_in_text(s, at, parts);
    assert forall|i: int| whole + 1 <= i < end implies class(#[trigger] s[i]) by {
        assert(s[at + (i - at)] == mantissa[i - at]);
        assert(mantissa[i - at] == d[i - whole - 1]);
        assert(numeral(d[i - whole - 1]));
    }
    lemma_run_end_unique(s, whole + 1, end as int, class);
}

/// What is no number: a text with neither a digit nor a sign in front, and a sign at the end.
/// And where a number is refused: behind a sign without a digit, a point without one, and the
/// mark of an exponent without one.
pub proof fn law_number_refused(s: Seq<char>, at: int, parts: NumberParts, mark: Seq<char>)
    requires
        0 <= at <= s.len(),
        parts.proper(),
        parts.exponent is None,
    ensures
        number(s, at) == (Step::Done { value: None::<Seq<char>>, at }) <==> at == s.len() || (
        !numeral(s[at]) && s[at] != '-') || (s[at] == '-' && at + 1 == s.len()),
        at + 1 < s.len() && s[at] == '-' && !numeral(s[at + 1]) ==> number(s, at) == (Step::<
            Option<Seq<char>>,
        >::Fail { message: "Expected digits after sign (-)."@, at }),
        ({
            let end = at + parts.head().len();
            parts.fraction is None && starts_at(s, at, parts.head())
                && end < s.len() && s[end as int]
                == '.' && (end + 1 < s.len() ==> !numeral(s[end + 1]))
        }) ==> number(s, at) == (Step::<Option<Seq<char>>>::Fail {
            message: "Expected digits after decimal point."@,
            at,
        }),
        ({
            let end = at + parts.mantissa().len();
            let behind = end + mark.len();
            &&& starts_at(s, at, parts.mantissa())
            &&& starts_at(s, end as int, mark)
            &&& mark == seq!['e'] || mark == seq!['E'] || mark == seq!['e', '+'] || mark
                == seq!['E', '+'] || mark == seq!['e', '-'] || mark == seq!['E', '-']
            &&& behind < s.len() ==> !numeral(s[behind as int]) && (mark.len() == 1 ==> s[behind as int]
                != '+' && s[behind as int] != '-')
        }) ==> number(s, at) == (Step::<Option<Seq<char>>>::Fail {
            message: "Expected exponent after e."@,
            at,
        }),
{
    let class = |c: char| digit(c);
    if at < s.len() {
        let first = if s[at] == '-' { at + 1 } else { at };
        if first < s.len() && digit(s[first]) {
            lemma_number_end(s, first);
        }
    }
    let end = at + parts.head().len();
    if parts.fraction is None && starts_at(s, at, parts.head()) && end < s.len() && s[end as int] == '.' && (
    end + 1 < s.len() ==> !numeral(s[end + 1])) {
        lemma_whole_in_text(s, at, parts);
        lemma_run_end_unique(s, end + 1, end + 1, class);
    }
    let middle = at + parts.mantissa().len();
    let behind = middle + mark.len();
    if starts_at(s, at, parts.mantissa()) && starts_at(s, middle as int, mark) && (mark == seq!['e'] || mark
        == seq!['E'] || mark == seq!['e', '+'] || mark == seq!['E', '+'] || mark == seq!['e', '-']
        || mark == seq!['E', '-']) && (behind < s.len() ==> !numeral(s[behind as int]) && (mark.len() == 1
        ==> s[behind as int] != '+' && s[behind as int] != '-')) {
        law_token_stands(s, middle as int, mark);
        assert(s[middle + 0] == mark[0]);
        if mark.len() == 2 {
            assert(s[middle + 1] == mark[1]);
        }
        if parts.fraction is Some {
            lemma_mantissa_in_text(s, at, parts);
        } else {
            lemma_whole_in_text(s, at, parts);
        }
        lemma_run_end_unique(s, behind as int, behind as int, class);
    }
}

/// The form of `c` in a string literal, as an escape where it has one and `escape` holds, or
/// where it has to be.
pub open spec fn spelled(c: char, escape: bool) -> Seq<char> {
    let must = c == '"' || c == '\\';
    match escape_letter(c) {
        Some(letter) => if must || escape {
            seq!['\\', letter]
        } else {
            seq![c]
        },
        None => seq![c],
    }
}

/// `text` between the quotes of a string literal, with an escape for the characters that
/// `escapes` tells.
pub open spec fn spelling(text: Seq<char>, escapes: Seq<bool>) -> Seq<char>
    decreases text.len(),
{
    if text.len() == 0 {
        Seq::empty()
    } else {
        spelled(text[0], escapes[0]) + spelling(text.drop_first(), escapes.drop_first())
    }
}

/// The characters of a literal are read up to what follows them.
proof fn lemma_spelling(
    s: Seq<char>,
    at: int,
    before: Seq<char>,
    text: Seq<char>,
    escapes: Seq<bool>,
)
    requires
        starts_at(s, at, spelling(text, escapes)),
    ensures
        literal_body(s, at, before) == literal_body(
            s,
            at + spelling(text, escapes).len(),
            before + text,
        ),
    decreases text.len(),
{
    if text.len() == 0 {
        assert(before + text =~= before);
    } else {
        let form = spelled(text[0], escapes[0]);
        let rest = spelling(text.drop_first(), escapes.drop_first());
        lemma_starts_at_parts(s, at, form, rest);
        lemma_starts_at_char(s, at, form, 0);
        if form.len() == 2 {
            lemma_starts_at_char(s, at, form, 1);
        }
        lemma_spelling(
            s,
            at + form.len(),
            before.push(text[0]),
            text.drop_first(),
            escapes.drop_first(),
        );
        assert(before.push(text[0]) + text.drop_first() =~= before + text);
    }
}

/// A string literal is read as the text that it spells, whichever characters are escaped.
pub proof fn law_literal_read(s: Seq<char>, at: int, text: Seq<char>, escapes: Seq<bool>)
    requires
        starts_at(s, at, seq!['"'] + spelling(text, escapes) + seq!['"']),
    ensures
        string_literal(s, at) == (Step::Done {
            value: Some(text),
            at: skip_ws(s, at + spelling(text, escapes).len() + 2),
        }),
        must_string_literal(s, at) == (Step::Done {
            value: text,
            at: skip_ws(s, at + spelling(text, escapes).len() + 2),
        }),
{
    lemma_quote_token();
    let body = spelling(text, escapes);
    lemma_starts_at_parts(s, at, seq!['"'] + body, seq!['"']);
    lemma_starts_at_parts(s, at, seq!['"'], body);
    lemma_starts_at_char(s, at + 1 + body.len(), seq!['"'], 0);
    lemma_spelling(s, at + 1, Seq::empty(), text, escapes);
    assert(Seq::<char>::empty() + text =~= text);
}

/// The text that was read from a literal is what its characters spell.
proof fn lemma_spelt(s: Seq<char>, at: int, before: Seq<char>) -> (r: (Seq<char>, Seq<bool>))
    requires
        0 <= at <= s.len(),
        literal_body(s, at, before) matches Body::End { text: _, at: end } && char_at(s, end, '"'),
    ensures
        ({
            let (text, escapes) = r;
            &&& escapes.len() == text.len()
            &&& starts_at(s, at, spelling(text, escapes))
            &&& literal_body(s, at, before) == (Body::End {
                text: before + text,
                at: at + spelling(text, escapes).len(),
            })
        }),
    decreases s.len() - at,
{
    if at >= s.len() || s[at] == '"' {
        assert(s.subrange(at, at) =~= Seq::empty());
        assert(before + Seq::<char>::empty() =~= before);
        (Seq::empty(), Seq::empty())
    } else {
        let escape = s[at] == '\\';
        let c = if escape { escaped(s[at + 1]).unwrap() } else { s[at] };
        let next = if escape { at + 2 } else { at + 1 };
        assert(escape ==> at + 1 < s.len() && escaped(s[at + 1]) is Some);
        let (text, escapes) = lemma_spelt(s, next, before.push(c));
        let all = seq![c] + text;
        let flags = seq![escape] + escapes;
        assert(all.drop_first() =~= text);
        assert(flags.drop_first() =~= escapes);
        assert(s.subrange(at, next) =~= spelled(c, escape));
        lemma_starts_at_parts(s, at, spelled(c, escape), spelling(text, escapes));
        assert(before.push(c) + text =~= before + all);
        (all, flags)
    }
}

/// What is read as a string literal spells its text between two quotes, and where no quote
/// stands nothing is read.
pub proof fn law_literal_spelt(s: Seq<char>, at: int)
    requires
        0 <= at <= s.len(),
    ensures
        string_literal(s, at) == (Step::Done { value: None::<Seq<char>>, at }) <==> !(at < s.len()
            && s[at] == '"'),
        string_literal(s, at) matches Step::Done { value: Some(text), at: end } ==> exists|
            escapes: Seq<bool>,
        | #[trigger] starts_at(s, at, seq!['"'] + spelling(text, escapes) + seq!['"']) && end
            == skip_ws(s, at + spelling(text, escapes).len() + 2),
        !(at < s.len() && s[at] == '"') ==> must_string_literal(s, at) == (Step::<
            Seq<char>,
        >::Fail { message: "Expected string literal."@, at }),
{
    lemma_quote_token();
    law_token_stands(s, at, "\""@);
    assert(at < s.len() && s[at] == '"' ==> starts_at(s, at, "\""@)) by {
        if at < s.len() && s[at] == '"' {
            lemma_one_mark(s, at, "\""@, '"');
        }
    }
    assert(starts_at(s, at, "\""@) ==> at < s.len() && s[at] == '"') by {
        if starts_at(s, at, "\""@) {
            lemma_starts_at_char(s, at, "\""@, 0);
        }
    }
    lemma_string_literal(s, at);
    if let Step::Done { value: Some(text), at: end } = string_literal(s, at) {
        let body_end = literal_body(s, at + 1, Seq::empty())->End_at;
        assert(starts_at(s, body_end, "\""@));
        lemma_starts_at_char(s, body_end, "\""@, 0);
        let (read, escapes) = lemma_spelt(s, at + 1, Seq::empty());
        assert(Seq::<char>::empty() + read =~= read);
        let body = spelling(text, escapes);
        lemma_starts_at_parts(s, at, seq!['"'], body);
        lemma_starts_at_parts(s, at, seq!['"'] + body, seq!['"']);
    }
}

/// Where a string literal is refused: without a closing quote, and behind a backslash with a
/// letter that is no escape.
pub proof fn law_literal_refused(s: Seq<char>, at: int, text: Seq<char>, escapes: Seq<bool>)
    requires
        starts_at(s, at, seq!['"'] + spelling(text, escapes)),
    ensures
        ({
            let end = at + 1 + spelling(text, escapes).len();
            let lone = end + 1 == s.len() && s[end as int] == '\\';
            &&& end == s.len() || lone ==> string_literal(s, at) == (Step::<
                Option<Seq<char>>,
            >::Fail {
                message: expected_message(s, s.len() as int, seq!['"']),
                at: s.len() as int,
            })
            &&& end + 1 < s.len() && s[end as int] == '\\' && s[end + 1] != 'u' && !(exists|c: char|
                #[trigger] escape_letter(c) == Some(s[end + 1])) ==> string_literal(s, at) == (Step::<
                Option<Seq<char>>,
            >::Fail { message: "Unknown character escape: "@ + seq![s[end + 1]], at: end + 1 })
        }),
{
    lemma_quote_token();
    let body = spelling(text, escapes);
    let end = at + 1 + body.len();
    lemma_starts_at_parts(s, at, seq!['"'], body);
    lemma_starts_at_char(s, at, seq!['"'], 0);
    lemma_spelling(s, at + 1, Seq::empty(), text, escapes);
    if end + 1 < s.len() && s[end as int] == '\\' {
        let letter = s[end + 1];
        if escaped(letter) is Some {
            assert(escape_letter(escaped(letter).unwrap()) == Some(letter));
        }
        assert("Unknown character escape: "@.push(letter) =~= "Unknown character escape: "@ + seq![
            letter,
        ]);
    }
}

/// A hexadecimal digit.
pub open spec fn hexadecimal(c: char) -> bool {
    numeral(c) || ('a' <= c && c <= 'f') || ('A' <= c && c <= 'F')
}

/// No escape stands for a character by its number: where `k` hexadecimal digits follow a `u`
/// behind a backslash, four of them make an unknown escape, and with fewer what follows them
/// is named, or at the end of the text the closing quote is looked for at the `u`.
pub proof fn law_numbered_escape_refused(
    s: Seq<char>,
    at: int,
    text: Seq<char>,
    escapes: Seq<bool>,
    k: int,
)
    requires
        starts_at(s, at, seq!['"'] + spelling(text, escapes) + seq!['\\', 'u']),
        0 <= k <= 4,
        at + spelling(text, escapes).len() + 3 + k <= s.len(),
        forall|i: int|
            at + spelling(text, escapes).len() + 3 <= i < at + spelling(text, escapes).len() + 3 + k
                ==> hexadecimal(#[trigger] s[i]),
    ensures
        ({
            let u = at + spelling(text, escapes).len() + 2;
            let end = u + 1 + k;
            &&& k == 4 ==> string_literal(s, at) == (Step::<Option<Seq<char>>>::Fail {
                message: "Unknown character escape: u"@,
                at: u,
            })
            &&& k < 4 && end < s.len() && !hexadecimal(s[end]) ==> string_literal(s, at) == (Step::<
                Option<Seq<char>>,
            >::Fail { message: "Invalid hexidecimal escape: "@ + seq![s[end]], at: u })
            &&& k < 4 && end == s.len() ==> string_literal(s, at) == (Step::<
                Option<Seq<char>>,
            >::Fail {
                message: expected_message(s, u, seq!['"']),
                at: u,
            })
        }),
{
    let class = |c: char| hex_digit(c);
    let body = spelling(text, escapes);
    let slash = at + 1 + body.len();
    let end = slash + 2 + k;
    lemma_quote_token();
    lemma_starts_at_parts(s, at, seq!['"'] + body, seq!['\\', 'u']);
    lemma_starts_at_parts(s, at, seq!['"'], body);
    lemma_starts_at_char(s, at, seq!['"'], 0);
    lemma_starts_at_char(s, slash as int, seq!['\\', 'u'], 0);
    lemma_starts_at_char(s, slash as int, seq!['\\', 'u'], 1);
    lemma_spelling(s, at + 1, Seq::empty(), text, escapes);
    assert forall|i: int| slash + 2 <= i < end implies class(#[trigger] s[i]) by {
        assert(hexadecimal(s[i]));
    }
    reveal_strlit("Unknown character escape: u");
    reveal_strlit("Unknown character escape: ");
    assert("Unknown character escape: "@.push('u') =~= "Unknown character escape: u"@);
    if k == 4 {
        lemma_run_end_from(s, slash + 2, end as int, class);
    } else if end == s.len() {
        lemma_run_end_unique(s, slash + 2, end as int, class);
        lemma_other_token(s, slash + 1, "\""@);
    } else if !hexadecimal(s[end as int]) {
        lemma_run_end_unique(s, slash + 2, end as int, class);
        assert("Invalid hexidecimal escape: "@.push(s[end as int]) =~= "Invalid hexidecimal escape: "@
            + seq![s[end as int]]);
    }
}

/// A key is a name, where one is read, and else a string literal.
pub proof fn law_key_read(s: Seq<char>, at: int)
    ensures
        0 <= at < s.len() && opens_name(s[at]) ==> (field(s, at) matches Some((name, next)) && key(
            s,
            at,
        ) == (Step::Done { value: Some(name), at: next })),
        !(0 <= at < s.len() && opens_name(s[at])) ==> key(s, at) == string_literal(s, at),
{
    law_name_read(s, at);
}

} // verus!
