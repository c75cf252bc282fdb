//! Tokens, names, integers, numbers and string literals.

use vstd::prelude::*;
use crate::grammar::Step;
use crate::text::{ascii_letter, byte_offset, decimal, decimal_value, digit, hex_digit};
use crate::text::{lemma_decimal_value_nonnegative, lemma_run_end, run_end, skip_ws, starts_at};
use crate::text::white_space;

verus! {

/// Where the text goes on after `token` and the white space behind it, if `token` stands
/// at `at`.
pub open spec fn after_token(s: Seq<char>, at: int, token: Seq<char>) -> Option<int> {
    if starts_at(s, at, token) {
        Some(skip_ws(s, at + token.len()))
    } else {
        None
    }
}

/// The character at `at` as a text, which is empty at the end.
pub open spec fn found_at(s: Seq<char>, at: int) -> Seq<char> {
    if 0 <= at < s.len() {
        seq![s[at]]
    } else {
        Seq::empty()
    }
}

/// The message that `token` does not stand at `at`.
pub open spec fn expected_message(s: Seq<char>, at: int, token: Seq<char>) -> Seq<char> {
    "Expected '"@ + token + "' at character "@ + decimal(byte_offset(s, at)) + ", found "@
        + found_at(s, at) + "."@
}

/// Reads `token` and the white space behind it.
pub open spec fn expect(s: Seq<char>, at: int, token: Seq<char>) -> Step<()> {
    match after_token(s, at, token) {
        Some(next) => Step::Done { value: (), at: next },
        None => Step::Fail { message: expected_message(s, at, token), at },
    }
}

/// The characters that can start a name: the letters of ASCII, the low line and the dollar
/// sign.
pub open spec fn name_start(c: char) -> bool {
    ascii_letter(c) || c == '_' || c == '$'
}

/// The characters that can stand in a name behind the first: those that can start one, and
/// the digits.
pub open spec fn name_part(c: char) -> bool {
    name_start(c) || digit(c)
}

/// Reads the longest name and the white space behind it.
pub open spec fn field(s: Seq<char>, at: int) -> Option<(Seq<char>, int)> {
    if 0 <= at < s.len() && name_start(s[at]) {
        let end = run_end(s, at + 1, |c: char| name_part(c));
        Some((s.subrange(at, end), skip_ws(s, end)))
    } else {
        None
    }
}

/// The message of an integer that is too great.
pub open spec fn integer_overflow() -> Seq<char> {
    "number too large to fit in target type"@
}

/// Reads the longest run of decimal digits. The number has to fit in 64 bits with a sign.
pub open spec fn bare_integer(s: Seq<char>, at: int) -> Step<Option<i64>> {
    let end = run_end(s, at, |c: char| digit(c));
    let number = decimal_value(s.subrange(at, end));
    if end == at {
        Step::Done { value: None, at }
    } else if number <= i64::MAX {
        Step::Done { value: Some(number as i64), at: end }
    } else {
        Step::Fail { message: integer_overflow(), at: end }
    }
}

/// Reads the longest run of decimal digits and the white space behind it. The number
/// has to fit in 64 bits with a sign.
pub open spec fn integer(s: Seq<char>, at: int) -> Step<Option<i64>> {
    match bare_integer(s, at) {
        Step::Done { value: None, at } => Step::Done { value: None, at },
        Step::Done { value: Some(n), at } => Step::Done { value: Some(n), at: skip_ws(s, at) },
        Step::Fail { message, at } => Step::Fail { message, at: skip_ws(s, at) },
    }
}

/// The end of the whole part of a number whose first digit stands at `at`: a zero stands
/// alone.
pub open spec fn whole_end(s: Seq<char>, at: int) -> int {
    if s[at] == '0' {
        at + 1
    } else {
        run_end(s, at + 1, |c: char| digit(c))
    }
}

/// Reads the exponent of a number whose `e` stands at `at`, up to its end.
pub open spec fn exponent_end(s: Seq<char>, at: int) -> Option<int> {
    let digits = if at + 1 < s.len() && (s[at + 1] == '+' || s[at + 1] == '-') {
        at + 2
    } else {
        at + 1
    };
    let end = run_end(s, digits, |c: char| digit(c));
    if end == digits {
        None
    } else {
        Some(end)
    }
}

/// Whether `c` stands at `at`.
pub open spec fn char_at(s: Seq<char>, at: int, c: char) -> bool {
    0 <= at < s.len() && s[at] == c
}

/// The end of a number whose first digit stands at `at`, or the message of what is
/// missing in it: digits, a fraction or none, and an exponent or none.
pub open spec fn number_end(s: Seq<char>, at: int) -> Result<int, Seq<char>> {
    let whole = whole_end(s, at);
    let fraction = run_end(s, whole + 1, |c: char| digit(c));
    let mantissa = if char_at(s, whole, '.') { fraction } else { whole };
    if char_at(s, whole, '.') && fraction == whole + 1 {
        Err("Expected digits after decimal point."@)
    } else if !char_at(s, mantissa, 'e') && !char_at(s, mantissa, 'E') {
        Ok(mantissa)
    } else {
        match exponent_end(s, mantissa) {
            Some(end) => Ok(end),
            None => Err("Expected exponent after e."@),
        }
    }
}

/// Reads a number and the white space behind it, as the text of the number. A sign at the
/// end of the text is none.
pub open spec fn number(s: Seq<char>, at: int) -> Step<Option<Seq<char>>> {
    let signed = char_at(s, at, '-');
    let first = if signed { at + 1 } else { at };
    if first >= s.len() || (!signed && !digit(s[first])) {
        Step::Done { value: None, at }
    } else if !digit(s[first]) {
        Step::Fail { message: "Expected digits after sign (-)."@, at }
    } else {
        match number_end(s, first) {
            Ok(end) => Step::Done { value: Some(s.subrange(at, end)), at: skip_ws(s, end) },
            Err(message) => Step::Fail { message, at },
        }
    }
}

/// The character that `c` stands for behind a backslash.
pub open spec fn escaped(c: char) -> Option<char> {
    if c == '\\' || c == '"' || c == '/' {
        Some(c)
    } else if c == 'n' {
        Some('\n')
    } else if c == 'b' {
        Some('\u{8}')
    } else if c == 'r' {
        Some('\r')
    } else if c == 'f' {
        Some('\u{C}')
    } else if c == 't' {
        Some('\t')
    } else if c == 'v' {
        Some('\u{B}')
    } else {
        None
    }
}

/// How the characters of a string literal end.
pub enum Body {
    /// They end at `at`, where the closing quote is looked for, and made `text`.
    End { text: Seq<char>, at: int },
    /// An escape is none. The reading stops at `at`.
    Bad { message: Seq<char>, at: int },
}

/// The message of an escape that the letter `c` does not make.
pub open spec fn unknown_escape(c: char) -> Seq<char> {
    "Unknown character escape: "@.push(c)
}

/// Reads the characters of a string literal from `at` to the closing quote, where
/// `text` was read before. No escape stands for a character by its number.
///
/// Behind a `u`, up to four hexadecimal digits are looked at for the message: the first
/// character that is none is named. Where the text ends within them, the closing quote is
/// looked for at the `u`.
pub open spec fn literal_body(s: Seq<char>, at: int, text: Seq<char>) -> Body
    decreases s.len() - at,
{
    if !(0 <= at < s.len()) || s[at] == '"' {
        Body::End { text, at }
    } else if s[at] != '\\' {
        literal_body(s, at + 1, text.push(s[at]))
    } else if at + 1 >= s.len() {
        Body::End { text, at: at + 1 }
    } else if escaped(s[at + 1]) is Some {
        literal_body(s, at + 2, text.push(escaped(s[at + 1]).unwrap()))
    } else if s[at + 1] == 'u' {
        let end = run_end(s, at + 2, |c: char| hex_digit(c));
        if end >= at + 6 {
            Body::Bad { message: unknown_escape('u'), at: at + 1 }
        } else if end >= s.len() {
            Body::End { text, at: at + 1 }
        } else {
            Body::Bad { message: "Invalid hexidecimal escape: "@.push(s[end]), at: at + 1 }
        }
    } else {
        Body::Bad { message: unknown_escape(s[at + 1]), at: at + 1 }
    }
}

/// Reads a string literal and the white space behind it.
pub open spec fn string_literal(s: Seq<char>, at: int) -> Step<Option<Seq<char>>> {
    if !starts_at(s, at, "\""@) {
        Step::Done { value: None, at }
    } else {
        match literal_body(s, at + 1, Seq::empty()) {
            Body::Bad { message, at } => Step::Fail { message, at },
            Body::End { text, at } => match expect(s, at, "\""@) {
                Step::Done { value, at } => Step::Done { value: Some(text), at },
                Step::Fail { message, at } => Step::Fail { message, at },
            },
        }
    }
}

/// Reads a string literal, which has to be there.
pub open spec fn must_string_literal(s: Seq<char>, at: int) -> Step<Seq<char>> {
    match string_literal(s, at) {
        Step::Done { value: Some(text), at } => Step::Done { value: text, at },
        Step::Done { value: None, at } => Step::Fail { message: "Expected string literal."@, at },
        Step::Fail { message, at } => Step::Fail { message, at },
    }
}

/// Reads the key of a member: a name or a string literal.
pub open spec fn key(s: Seq<char>, at: int) -> Step<Option<Seq<char>>> {
    match field(s, at) {
        Some((name, next)) => Step::Done { value: Some(name), at: next },
        None => string_literal(s, at),
    }
}

/// White space is skipped forward, and within the text.
pub proof fn lemma_skip_ws(s: Seq<char>, at: int)
    requires
        0 <= at <= s.len(),
    ensures
        at <= skip_ws(s, at) <= s.len(),
{
    lemma_run_end(s, at, |c: char| white_space(c));
}

/// A token takes its length at least.
pub proof fn lemma_after_token(s: Seq<char>, at: int, token: Seq<char>)
    ensures
        after_token(s, at, token) matches Some(next) ==> 0 <= at && at + token.len() <= next
            <= s.len(),
{
    if starts_at(s, at, token) {
        lemma_skip_ws(s, at + token.len() as int);
    }
}

/// A token that has to be there is passed, or the reading stays where it is.
pub proof fn lemma_expect(s: Seq<char>, at: int, token: Seq<char>)
    ensures
        expect(s, at, token) matches Step::Done { value, at: next } ==> 0 <= at && at + token.len()
            <= next <= s.len(),
        expect(s, at, token) matches Step::Fail { message, at: next } ==> next == at,
{
    lemma_after_token(s, at, token);
}

/// A name takes at least one character.
pub proof fn lemma_field(s: Seq<char>, at: int)
    ensures
        field(s, at) matches Some((name, next)) ==> 0 <= at < next <= s.len() && name.len() > 0,
{
    if 0 <= at < s.len() && name_start(s[at]) {
        lemma_run_end(s, at + 1, |c: char| name_part(c));
        lemma_skip_ws(s, run_end(s, at + 1, |c: char| name_part(c)));
    }
}

/// A run of digits is no negative number, and takes at least one character.
pub proof fn lemma_bare_integer(s: Seq<char>, at: int)
    requires
        0 <= at <= s.len(),
    ensures
        bare_integer(s, at).ends_within(s, at),
        bare_integer(s, at).takes_something(at),
        bare_integer(s, at) matches Step::Done { value: Some(n), at: next } ==> 0 <= n && n
            == decimal_value(s.subrange(at, run_end(s, at, |c: char| digit(c)))),
{
    let class = |c: char| digit(c);
    let end = run_end(s, at, class);
    lemma_run_end(s, at, class);
    assert forall|i: int| 0 <= i < end - at implies digit(#[trigger] s.subrange(at, end)[i]) by {
        assert(class(s[at + i]));
    }
    lemma_decimal_value_nonnegative(s.subrange(at, end));
}

/// An integer is not negative, and takes at least one character.
pub proof fn lemma_integer(s: Seq<char>, at: int)
    requires
        0 <= at <= s.len(),
    ensures
        integer(s, at).ends_within(s, at),
        integer(s, at).takes_something(at),
        integer(s, at) matches Step::Done { value: Some(n), at: next } ==> 0 <= n && n
            == decimal_value(s.subrange(at, run_end(s, at, |c: char| digit(c)))),
{
    lemma_bare_integer(s, at);
    lemma_skip_ws(s, bare_integer(s, at).end());
}

/// The end of a number lies behind its first digit.
pub proof fn lemma_number_end(s: Seq<char>, at: int)
    requires
        0 <= at < s.len(),
    ensures
        at < whole_end(s, at) <= s.len(),
        number_end(s, at) matches Ok(end) ==> at < end <= s.len(),
{
    let class = |c: char| digit(c);
    lemma_run_end(s, at + 1, class);
    let whole = whole_end(s, at);
    if whole < s.len() {
        lemma_run_end(s, whole + 1, class);
        let fraction = run_end(s, whole + 1, class);
        let mantissa = if s[whole] == '.' { fraction } else { whole };
        if mantissa < s.len() {
            lemma_run_end(s, mantissa + 1, class);
            if mantissa + 1 < s.len() {
                lemma_run_end(s, mantissa + 2, class);
            }
        }
    }
}

/// A number takes at least one character.
pub proof fn lemma_number(s: Seq<char>, at: int)
    requires
        0 <= at <= s.len(),
    ensures
        number(s, at).ends_within(s, at),
        number(s, at).takes_something(at),
{
    let first = if char_at(s, at, '-') { at + 1 } else { at };
    if first < s.len() {
        lemma_number_end(s, first);
        if let Ok(end) = number_end(s, first) {
            lemma_skip_ws(s, end);
        }
    }
}

/// The characters of a literal are read forward.
pub proof fn lemma_literal_body(s: Seq<char>, at: int, text: Seq<char>)
    requires
        0 <= at <= s.len(),
    ensures
        match literal_body(s, at, text) {
            Body::End { text: whole, at: end } => at <= end <= s.len(),
            Body::Bad { message, at: end } => at <= end <= s.len(),
        },
    decreases s.len() - at,
{
    if at >= s.len() || s[at] == '"' {
    } else if s[at] != '\\' {
        lemma_literal_body(s, at + 1, text.push(s[at]));
    } else if at + 1 >= s.len() {
    } else if escaped(s[at + 1]) is Some {
        lemma_literal_body(s, at + 2, text.push(escaped(s[at + 1]).unwrap()));
    }
}

/// A string literal takes at least one character.
pub proof fn lemma_string_literal(s: Seq<char>, at: int)
    requires
        0 <= at <= s.len(),
    ensures
        string_literal(s, at).ends_within(s, at),
        string_literal(s, at).takes_something(at),
{
    lemma_quote_token();
    if starts_at(s, at, "\""@) {
        lemma_literal_body(s, at + 1, Seq::empty());
        if let Body::End { text, at: end } = literal_body(s, at + 1, Seq::empty()) {
            lemma_expect(s, end, "\""@);
        }
    }
}

/// The quote is one character.
pub proof fn lemma_quote_token()
    ensures
        "\""@ == seq!['"'],
{
    reveal_strlit("\"");
    assert("\""@ =~= seq!['"']);
}

/// The marks of the grammar, by their characters.
pub proof fn lemma_marks()
    ensures
        "{"@ == seq!['{'],
        "}"@ == seq!['}'],
        "["@ == seq!['['],
        "]"@ == seq![']'],
        "("@ == seq!['('],
        ")"@ == seq![')'],
        ":"@ == seq![':'],
        ","@ == seq![','],
        "."@ == seq!['.'],
        "="@ == seq!['='],
        "&&"@ == seq!['&', '&'],
        "||"@ == seq!['|', '|'],
{
    reveal_strlit("{");
    reveal_strlit("}");
    reveal_strlit("[");
    reveal_strlit("]");
    reveal_strlit("(");
    reveal_strlit(")");
    reveal_strlit(":");
    reveal_strlit(",");
    reveal_strlit(".");
    reveal_strlit("=");
    reveal_strlit("&&");
    reveal_strlit("||");
    assert("{"@ =~= seq!['{']);
    assert("}"@ =~= seq!['}']);
    assert("["@ =~= seq!['[']);
    assert("]"@ =~= seq![']']);
    assert("("@ =~= seq!['(']);
    assert(")"@ =~= seq![')']);
    assert(":"@ =~= seq![':']);
    assert(","@ =~= seq![',']);
    assert("."@ =~= seq!['.']);
    assert("="@ =~= seq!['=']);
    assert("&&"@ =~= seq!['&', '&']);
    assert("||"@ =~= seq!['|', '|']);
}

/// A key takes at least one character.
pub proof fn lemma_key(s: Seq<char>, at: int)
    requires
        0 <= at <= s.len(),
    ensures
        key(s, at).ends_within(s, at),
        key(s, at).takes_something(at),
{
    lemma_field(s, at);
    lemma_string_literal(s, at);
}

} // verus!
