//! Characters and text: character classes, byte widths, runs of characters
//! and decimal numerals.

use vstd::prelude::*;
use vstd::utf8::encode_utf8;
use vstd::utf8::encode_scalar;

verus! {

/// White space: the blank, the tab, the newline and the carriage return.
pub open spec fn white_space(c: char) -> bool {
    c == ' ' || c == '\t' || c == '\n' || c == '\r'
}

/// Answers whether `c` is white space.
pub fn is_white_space(c: char) -> (r: bool)
    ensures
        r == white_space(c),
{
    c == ' ' || c == '\t' || c == '\n' || c == '\r'
}

/// `String::push` appends one character to the string.
pub assume_specification[ std::string::String::push ](s: &mut std::string::String, c: char)
    ensures
        final(s)@ == old(s)@.push(c),
;

/// Returns `head` followed by `tail`.
pub fn append(head: &str, tail: &str) -> (r: String)
    ensures
        r@ == head@ + tail@,
{
    head.to_owned().concat(tail)
}

/// The letters of ASCII.
pub open spec fn ascii_letter(c: char) -> bool {
    'a' <= c <= 'z' || 'A' <= c <= 'Z'
}

/// The decimal digits of ASCII.
pub open spec fn digit(c: char) -> bool {
    '0' <= c <= '9'
}

/// Answers whether `c` is a decimal digit.
pub fn is_digit(c: char) -> (r: bool)
    ensures
        r == digit(c),
{
    c >= '0' && c <= '9'
}

/// The hexadecimal digits of ASCII.
pub open spec fn hex_digit(c: char) -> bool {
    digit(c) || 'a' <= c <= 'f' || 'A' <= c <= 'F'
}

/// Answers whether `c` is a hexadecimal digit.
pub fn is_hex_digit(c: char) -> (r: bool)
    ensures
        r == hex_digit(c),
{
    is_digit(c) || (c >= 'a' && c <= 'f') || (c >= 'A' && c <= 'F')
}

/// Answers whether `c` is a letter of ASCII.
pub fn is_ascii_letter(c: char) -> (r: bool)
    ensures
        r == ascii_letter(c),
{
    (c >= 'a' && c <= 'z') || (c >= 'A' && c <= 'Z')
}

/// The end of the longest run of characters of `s` that starts at `at` and holds only
/// characters of which `class` is true.
pub open spec fn run_end(s: Seq<char>, at: int, class: spec_fn(char) -> bool) -> int
    decreases s.len() - at,
{
    if 0 <= at < s.len() && class(s[at]) {
        run_end(s, at + 1, class)
    } else {
        at
    }
}

/// A run reaches from its start to the first character outside the class.
pub proof fn lemma_run_end(s: Seq<char>, at: int, class: spec_fn(char) -> bool)
    requires
        0 <= at <= s.len(),
    ensures
        at <= run_end(s, at, class) <= s.len(),
        forall|i: int| at <= i < run_end(s, at, class) ==> class(#[trigger] s[i]),
        run_end(s, at, class) < s.len() ==> !class(s[run_end(s, at, class)]),
    decreases s.len() - at,
{
    if at < s.len() && class(s[at]) {
        lemma_run_end(s, at + 1, class);
    }
}

/// A run is fixed by where it stops.
pub proof fn lemma_run_end_unique(s: Seq<char>, at: int, end: int, class: spec_fn(char) -> bool)
    requires
        0 <= at <= end <= s.len(),
        forall|i: int| at <= i < end ==> class(#[trigger] s[i]),
        end < s.len() ==> !class(s[end]),
    ensures
        run_end(s, at, class) == end,
    decreases end - at,
{
    if at < end {
        lemma_run_end_unique(s, at + 1, end, class);
    }
}

/// A run that reaches `to` goes on as the run that starts there.
pub proof fn lemma_run_end_from(s: Seq<char>, at: int, to: int, class: spec_fn(char) -> bool)
    requires
        0 <= at <= to <= s.len(),
        forall|i: int| at <= i < to ==> class(#[trigger] s[i]),
    ensures
        run_end(s, at, class) == run_end(s, to, class),
        to <= run_end(s, at, class) <= s.len(),
    decreases to - at,
{
    if at < to {
        lemma_run_end_from(s, at + 1, to, class);
    } else {
        lemma_run_end(s, at, class);
    }
}

/// The position of the first character at or after `at` that is not white space.
pub open spec fn skip_ws(s: Seq<char>, at: int) -> int {
    run_end(s, at, |c: char| white_space(c))
}

/// Whether `token` stands in `s` at `at`.
pub open spec fn starts_at(s: Seq<char>, at: int, token: Seq<char>) -> bool {
    0 <= at && at + token.len() <= s.len() && s.subrange(at, at + token.len()) == token
}

/// The number of bytes that `c` takes in UTF-8.
pub open spec fn utf8_width(c: char) -> nat {
    if c <= '\u{7F}' {
        1
    } else if c <= '\u{7FF}' {
        2
    } else if c <= '\u{FFFF}' {
        3
    } else {
        4
    }
}

/// Returns the number of bytes that `c` takes in UTF-8.
pub fn width(c: char) -> (r: usize)
    ensures
        r == utf8_width(c),
{
    if c <= '\u{7F}' {
        1
    } else if c <= '\u{7FF}' {
        2
    } else if c <= '\u{FFFF}' {
        3
    } else {
        4
    }
}

/// The number of bytes of the UTF-8 form of `s` before its character `at`.
pub open spec fn byte_offset(s: Seq<char>, at: int) -> nat {
    encode_utf8(s.take(at)).len()
}

/// The UTF-8 form of a character has its width.
proof fn lemma_encoded_width(c: char)
    ensures
        encode_scalar(c as u32).len() == utf8_width(c),
{
    vstd::utf8::char_is_scalar(c);
}

/// The byte offset grows by the width of the character that is passed.
pub proof fn lemma_byte_offset_step(s: Seq<char>, at: int)
    requires
        0 <= at < s.len(),
    ensures
        byte_offset(s, at + 1) == byte_offset(s, at) + utf8_width(s[at]),
    decreases at,
{
    let longer = s.take(at + 1);
    let shorter = s.take(at);
    if at == 0 {
        assert(longer.drop_first() =~= Seq::<char>::empty());
        reveal_with_fuel(encode_utf8, 2);
        lemma_encoded_width(s[0]);
        assert(encode_utf8(longer.drop_first()).len() == 0);
    } else {
        let rest = s.drop_first();
        lemma_byte_offset_step(rest, at - 1);
        assert(longer.drop_first() =~= rest.take(at));
        assert(shorter.drop_first() =~= rest.take(at - 1));
        assert(longer[0] == shorter[0]);
    }
}

/// A later character has a byte offset at least as great.
pub proof fn lemma_byte_offset_monotone(s: Seq<char>, from: int, to: int)
    requires
        0 <= from <= to <= s.len(),
    ensures
        byte_offset(s, from) + (to - from) <= byte_offset(s, to),
    decreases to - from,
{
    if from < to {
        lemma_byte_offset_monotone(s, from, to - 1);
        lemma_byte_offset_step(s, to - 1);
    }
}

/// The character of a number below ten.
pub open spec fn digit_char(n: int) -> char {
    (('0' as int) + n) as char
}

/// The number that a decimal digit stands for.
pub open spec fn digit_value(c: char) -> int {
    c as int - '0' as int
}

/// The decimal numeral of `n`, without leading zeros.
pub open spec fn decimal(n: nat) -> Seq<char>
    decreases n,
{
    if n < 10 {
        seq![digit_char(n as int)]
    } else {
        decimal(n / 10).push(digit_char((n % 10) as int))
    }
}

/// The number that a sequence of decimal digits stands for.
pub open spec fn decimal_value(digits: Seq<char>) -> int
    decreases digits.len(),
{
    if digits.len() == 0 {
        0
    } else {
        decimal_value(digits.drop_last()) * 10 + digit_value(digits.last())
    }
}

/// Returns the decimal numeral of `n`.
pub fn decimal_text(n: usize) -> (r: String)
    ensures
        r@ == decimal(n as nat),
    decreases n,
{
    let mut text: String = if n < 10 {
        String::new()
    } else {
        decimal_text(n / 10)
    };
    let code: u8 = 48 + (n % 10) as u8;
    text.push(code as char);
    proof {
        assert(Seq::<char>::empty().push(digit_char(n as int)) =~= seq![digit_char(n as int)]);
    }
    text
}

/// A numeral stands for the number that it was made of, and holds digits alone.
pub proof fn lemma_decimal_round_trip(n: nat)
    ensures
        decimal(n).len() > 0,
        forall|i: int| 0 <= i < decimal(n).len() ==> digit(#[trigger] decimal(n)[i]),
        decimal_value(decimal(n)) == n,
    decreases n,
{
    if n < 10 {
        assert(decimal(n).drop_last() =~= Seq::<char>::empty());
        reveal_with_fuel(decimal_value, 2);
    } else {
        lemma_decimal_round_trip(n / 10);
        assert(decimal(n).drop_last() =~= decimal(n / 10));
    }
}

/// Digits stand for a number that is not negative.
pub proof fn lemma_decimal_value_nonnegative(digits: Seq<char>)
    requires
        forall|i: int| 0 <= i < digits.len() ==> digit(#[trigger] digits[i]),
    ensures
        0 <= decimal_value(digits),
    decreases digits.len(),
{
    if digits.len() > 0 {
        lemma_decimal_value_nonnegative(digits.drop_last());
        assert(digit(digits[digits.len() - 1]));
    }
}

} // verus!
