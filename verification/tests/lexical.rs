use noise_query::error::Error;
use noise_query::parser::Parser;
use noise_query::text::{append, decimal_text, is_ascii_letter, is_digit, is_hex_digit};
use noise_query::text::is_white_space;

fn parser(query: &str) -> Parser {
    Parser::new(query.to_string())
}

fn message<T>(r: Result<T, Error>) -> String {
    match r {
        Err(Error::Parse(text)) => text,
        _ => panic!("not a parse error"),
    }
}

#[test]
fn test_whitespace() {
    let mut query = " \n \t test".to_string();
    let mut parser = Parser::new(query);
    parser.ws();
    assert_eq!(parser.offset(), 5);

    query = "test".to_string();
    parser = Parser::new(query);
    parser.ws();
    assert_eq!(parser.offset(), 0);
}

#[test]
fn test_must_consume_string_literal() {
    let query = r#"" \n \t test""#.to_string();
    let mut parser = Parser::new(query);
    assert_eq!(parser.must_consume_string_literal().unwrap(), " \n \t test".to_string());
}

#[test]
fn white_space_is_skipped_once_and_for_all() {
    let mut p = parser("\r\n\t a");
    p.ws();
    assert_eq!(p.offset(), 4);
    p.ws();
    assert_eq!(p.offset(), 4);
    assert!(p.could_consume("a"));
}

#[test]
fn other_blanks_are_no_white_space() {
    for query in ["\u{A0}x", "\u{3000}x", "\u{B}x", "\u{C}x", "\u{85}x", "\u{2028}x"] {
        let mut p = parser(query);
        p.ws();
        assert_eq!(p.offset(), 0);
    }
    for c in '\u{0}'..=char::MAX {
        assert_eq!(is_white_space(c), [' ', '\t', '\n', '\r'].contains(&c));
    }
}

#[test]
fn letters_and_digits_of_ascii() {
    for c in '\u{0}'..=char::MAX {
        assert_eq!(is_ascii_letter(c), c.is_ascii_alphabetic());
        assert_eq!(is_digit(c), c.is_ascii_digit());
        assert_eq!(is_hex_digit(c), c.is_ascii_hexdigit());
    }
}

#[test]
fn texts_are_put_together() {
    assert_eq!(append("ab", "cd"), "abcd");
    let mut text = String::from("ab");
    text.push('ß');
    assert_eq!(text, "abß");
}

#[test]
fn numerals() {
    assert_eq!(decimal_text(0), "0");
    assert_eq!(decimal_text(9), "9");
    assert_eq!(decimal_text(10), "10");
    assert_eq!(decimal_text(1207), "1207");
    assert_eq!(decimal_text(usize::MAX), usize::MAX.to_string());
}

#[test]
fn tokens() {
    let mut p = parser("find  {");
    assert!(p.could_consume("fi"));
    assert!(!p.consume("fin{"));
    assert_eq!(p.offset(), 0);
    assert!(p.consume("find"));
    assert_eq!(p.offset(), 6);
    assert!(p.must_consume("{").is_ok());
    assert_eq!(p.offset(), 7);
    assert!(!p.consume("{"));
}

#[test]
fn a_missing_token_is_reported_with_its_place() {
    let mut p = parser("a: b");
    assert_eq!(message(p.must_consume("]")), "Expected ']' at character 0, found a.");
    assert!(p.consume("a"));
    assert!(p.consume(":"));
    assert_eq!(message(p.must_consume("]")), "Expected ']' at character 3, found b.");
    assert_eq!(p.offset(), 3);
}

#[test]
fn a_missing_token_before_a_wide_character() {
    let mut p = parser("ä§");
    assert!(p.consume("ä"));
    assert_eq!(message(p.must_consume(")")), "Expected ')' at character 2, found §.");
}

#[test]
fn a_missing_token_at_the_end() {
    let mut p = parser("");
    assert_eq!(message(p.must_consume("(")), "Expected '(' at character 0, found .");
}

#[test]
fn names() {
    let mut p = parser("_foo$9  bar");
    assert_eq!(p.consume_field(), Some("_foo$9".to_string()));
    assert_eq!(p.offset(), 8);
    assert_eq!(p.consume_field(), Some("bar".to_string()));
    assert_eq!(p.consume_field(), None);
    assert_eq!(parser("$a-b").consume_field(), Some("$a".to_string()));
    assert_eq!(parser("größe").consume_field(), Some("gr".to_string()));
    assert_eq!(parser("aZ09٣").consume_field(), Some("aZ09".to_string()));
    assert_eq!(parser("9a").consume_field(), None);
    let mut p = parser("éa");
    assert_eq!(p.consume_field(), None);
    assert_eq!(p.offset(), 0);
    assert_eq!(parser("\"a\"").consume_field(), None);
    assert_eq!(parser(" a").consume_field(), None);
}

#[test]
fn keys() {
    assert_eq!(parser("a:").consume_key().unwrap(), Some("a".to_string()));
    assert_eq!(parser("\"a b\" :").consume_key().unwrap(), Some("a b".to_string()));
    assert_eq!(parser(":").consume_key().unwrap(), None);
    assert_eq!(message(parser("\"\\x\"").consume_key()), "Unknown character escape: x");
}

#[test]
fn integers() {
    let mut p = parser("0012 x");
    assert_eq!(p.consume_integer().unwrap(), Some(12));
    assert_eq!(p.offset(), 5);
    assert_eq!(p.consume_integer().unwrap(), None);
    assert_eq!(p.offset(), 5);
    assert_eq!(parser("").consume_integer().unwrap(), None);
    assert_eq!(parser("-1").consume_integer().unwrap(), None);
    assert_eq!(parser("9223372036854775807").consume_integer().unwrap(), Some(i64::MAX));
}

#[test]
fn an_integer_that_is_too_great() {
    let mut p = parser("9223372036854775808 x");
    assert_eq!(message(p.consume_integer()), "number too large to fit in target type");
    assert_eq!(p.offset(), 20);
}

fn number(query: &str) -> Option<String> {
    parser(query).consume_number().unwrap()
}

#[test]
fn numbers() {
    assert_eq!(number("12 "), Some("12".to_string()));
    assert_eq!(number("12"), Some("12".to_string()));
    assert_eq!(number("-12.50,"), Some("-12.50".to_string()));
    assert_eq!(number("0.25e10]"), Some("0.25e10".to_string()));
    assert_eq!(number("1.5E+07"), Some("1.5E+07".to_string()));
    assert_eq!(number("1.5e-7}"), Some("1.5e-7".to_string()));
    assert_eq!(number("x"), None);
    assert_eq!(number(""), None);
    assert_eq!(number("+1"), None);
    let mut p = parser("-1.5  ,");
    assert_eq!(p.consume_number().unwrap(), Some("-1.5".to_string()));
    assert_eq!(p.offset(), 6);
}

#[test]
fn a_zero_stands_alone() {
    let mut p = parser("012");
    assert_eq!(p.consume_number().unwrap(), Some("0".to_string()));
    assert_eq!(p.offset(), 1);
}

#[test]
fn an_exponent_without_a_fraction() {
    for text in ["1e5", "1E5", "-12e+07", "0e-1"] {
        let mut p = parser(text);
        assert_eq!(p.consume_number().unwrap(), Some(text.to_string()));
        assert_eq!(p.offset(), text.len());
    }
}

#[test]
fn one_digit_at_the_end() {
    for text in ["5", "0", "-5"] {
        let mut p = parser(text);
        assert_eq!(p.consume_number().unwrap(), Some(text.to_string()));
        assert_eq!(p.offset(), text.len());
    }
}

#[test]
fn a_sign_at_the_end_is_no_number() {
    let mut p = parser("-");
    assert_eq!(p.consume_number().unwrap(), None);
    assert_eq!(p.offset(), 0);
}

#[test]
fn numbers_that_break_off() {
    assert_eq!(message(parser("-x").consume_number()), "Expected digits after sign (-).");
    assert_eq!(message(parser("1.").consume_number()), "Expected digits after decimal point.");
    assert_eq!(message(parser("1.x").consume_number()), "Expected digits after decimal point.");
    assert_eq!(message(parser("1e").consume_number()), "Expected exponent after e.");
    assert_eq!(message(parser("0E-x").consume_number()), "Expected exponent after e.");
    assert_eq!(message(parser("1.5e").consume_number()), "Expected exponent after e.");
    assert_eq!(message(parser("1.5e+").consume_number()), "Expected exponent after e.");
    assert_eq!(message(parser("1.5Ex").consume_number()), "Expected exponent after e.");
    let mut p = parser("1.x");
    assert!(p.consume_number().is_err());
    assert_eq!(p.offset(), 0);
}

#[test]
fn a_literal_is_read_back() {
    for text in ["", "a", " a ", "\\", "\"", "\\\"\\", "zwölf\n\u{1F600}", "\\u0041"] {
        let mut query = String::from("\"");
        for c in text.chars() {
            if c == '"' || c == '\\' {
                query.push('\\');
            }
            query.push(c);
        }
        query.push_str("\"  :");
        let mut p = parser(&query);
        assert_eq!(p.consume_string_literal().unwrap(), Some(text.to_string()));
        assert_eq!(p.offset(), query.len() - 1);
    }
}

#[test]
fn escapes() {
    let mut p = parser(r#""\\\"\/\n\b\r\f\t\v""#);
    assert_eq!(
        p.consume_string_literal().unwrap(),
        Some("\\\"/\n\u{8}\r\u{C}\t\u{B}".to_string())
    );
    assert_eq!(p.offset(), 20);
}

#[test]
fn escapes_that_are_none() {
    let mut p = parser(r#""a\qb""#);
    assert_eq!(message(p.consume_string_literal()), "Unknown character escape: q");
    assert_eq!(p.offset(), 3);
    let mut p = parser(r#""\u12G4""#);
    assert_eq!(message(p.consume_string_literal()), "Invalid hexidecimal escape: G");
    assert_eq!(p.offset(), 2);
}

#[test]
fn no_escape_by_number() {
    for query in [r#""\u0041""#, r#""\u00e4b""#, r#""\u0041\"" x"#, r#""\ud800""#] {
        let mut p = parser(query);
        assert_eq!(message(p.consume_string_literal()), "Unknown character escape: u");
        assert_eq!(p.offset(), 2);
    }
}

#[test]
fn a_literal_without_an_end() {
    assert_eq!(
        message(parser("\"ab").consume_string_literal()),
        "Expected '\"' at character 3, found ."
    );
    assert_eq!(
        message(parser("\"ab\\").consume_string_literal()),
        "Expected '\"' at character 4, found ."
    );
    assert_eq!(
        message(parser("\"\\u12").consume_string_literal()),
        "Expected '\"' at character 2, found u."
    );
}

#[test]
fn a_literal_that_is_missing() {
    let mut p = parser("a");
    assert_eq!(p.consume_string_literal().unwrap(), None);
    assert_eq!(message(p.must_consume_string_literal()), "Expected string literal.");
    assert_eq!(p.offset(), 0);
}
