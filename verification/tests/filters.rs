use noise_query::error::Error;
use noise_query::filters::{Comparison, Filter, Operator, TermFilter};
use noise_query::key_builder::{KeyBuilder, Segment};
use noise_query::parser::Parser;

fn parser(query: &str) -> Parser {
    Parser::new(query.to_string())
}

fn message<T>(r: Result<T, Error>) -> String {
    match r {
        Err(Error::Parse(text)) => text,
        _ => panic!("not a parse error"),
    }
}

fn path(kb: &KeyBuilder) -> String {
    let mut r = String::new();
    for segment in &kb.segments {
        match segment {
            Segment::ObjectKey(key) => r.push_str(&format!("/{}", key)),
            Segment::Array => r.push_str("[]"),
            Segment::ArrayIndex(index) => r.push_str(&format!("[{}]", index)),
        }
    }
    r
}

/// Shows a filter with the path of each part.
fn show(filter: &Filter) -> String {
    match filter {
        Filter::Compare(c) => {
            let operator = match c.operator {
                Operator::Exact => "==".to_string(),
                Operator::Stemmed => "~=".to_string(),
                Operator::Distance(n) => format!("~{}=", n),
            };
            format!("{} {} {}", path(&c.kb), operator, c.literal)
        }
        Filter::And(left, right, kb) => format!("and{}({}; {})", path(kb), show(left), show(right)),
        Filter::Or(left, right, kb) => format!("or{}({}; {})", path(kb), show(left), show(right)),
    }
}

fn read(query: &str) -> String {
    show(&parser(query).build_filter().unwrap())
}

fn fails(query: &str) -> String {
    message(parser(query).build_filter())
}

fn write_text(text: &str) -> String {
    let mut r = String::from("\"");
    for c in text.chars() {
        if c == '"' || c == '\\' {
            r.push('\\');
        }
        r.push(c);
    }
    r.push('"');
    r
}

fn filter_path(filter: &Filter) -> &Vec<Segment> {
    match filter {
        Filter::Compare(c) => &c.kb.segments,
        Filter::And(_, _, kb) => &kb.segments,
        Filter::Or(_, _, kb) => &kb.segments,
    }
}

/// Where a filter is written.
#[derive(Clone, Copy, PartialEq)]
enum Place {
    Member,
    Value,
    Element,
}

fn write_filter(filter: &Filter, depth: usize, place: Place) -> String {
    let steps = filter_path(filter);
    let inner = if place == Place::Element { Place::Element } else { Place::Member };
    if depth < steps.len() {
        match &steps[depth] {
            Segment::ObjectKey(name) => {
                if place == Place::Member {
                    let value = write_filter(filter, depth + 1, Place::Value);
                    format!("{}:{}", write_text(name), value)
                } else {
                    format!("{{{}}}", write_filter(filter, depth, Place::Member))
                }
            }
            _ => format!("[{}]", write_filter(filter, depth + 1, Place::Element)),
        }
    } else {
        match filter {
            Filter::Compare(c) => {
                let operator = match c.operator {
                    Operator::Exact => "==".to_string(),
                    Operator::Stemmed => "~=".to_string(),
                    Operator::Distance(n) => format!("~{}=", n),
                };
                format!("{}{}", operator, write_text(&c.literal))
            }
            Filter::And(left, right, _) => format!(
                "(({})&&({}))",
                write_filter(left, depth, inner),
                write_filter(right, depth, inner)
            ),
            Filter::Or(left, right, _) => format!(
                "(({})||({}))",
                write_filter(left, depth, inner),
                write_filter(right, depth, inner)
            ),
        }
    }
}

#[test]
fn comparisons() {
    assert_eq!(read("find {a: ==\"x\"}"), "/a == x");
    assert_eq!(read("find {a: ~=\"x y\"}"), "/a ~= x y");
    assert_eq!(read("find {a: ~12=\"x y\"}"), "/a ~12= x y");
    assert_eq!(read("  \n find{\"a b\":{c:==\"x\"}}"), "/a b/c == x");
}

#[test]
fn pairs_are_joined_to_the_right() {
    assert_eq!(
        read("find {a: ==\"1\" && b: ==\"2\" || c: ==\"3\"}"),
        "and(/a == 1; or(/b == 2; /c == 3))"
    );
    assert_eq!(
        read("find {a: ==\"1\" || b: ==\"2\" && c: ==\"3\"}"),
        "or(/a == 1; and(/b == 2; /c == 3))"
    );
    assert_eq!(
        read("find {(a: ==\"1\" || b: ==\"2\") && c: ==\"3\"}"),
        "and(or(/a == 1; /b == 2); /c == 3)"
    );
}

#[test]
fn a_comma_asks_for_both() {
    assert_eq!(read("find {a: ==\"1\", b: ==\"2\"}"), read("find {a: ==\"1\" && b: ==\"2\"}"));
    assert_eq!(read("find {a: [==\"1\", ==\"2\"]}"), read("find {a: [==\"1\" && ==\"2\"]}"));
}

#[test]
fn white_space_between_tokens_makes_no_difference() {
    let tokens = [
        "find", "{", "a", ":", "[", "==", "\" 1 \"", "||", "{", "\"b c\"", ":", "~12=", "\"2\"",
        "}", "]", ",", "(", "d", ":", "~=", "\"3\"", ")", "}", "&&", "(", "{", "e", ":", "==",
        "\"4\"", "}", ")",
    ];
    let packed = tokens.concat();
    let spread = tokens.join(" \r\n\t ");
    assert_eq!(read(&packed), read(&spread));
    assert_eq!(read(&packed), read(&format!("\n{}  limit 1", tokens.join(" "))));
    assert_eq!(
        read(&packed),
        "and(and(or/a[](/a[] ==  1 ; /a[]/b c ~12= 2); /d ~= 3); /e == 4)"
    );
}

#[test]
fn arrays() {
    assert_eq!(read("find {a: [==\"x\"]}"), "/a[] == x");
    assert_eq!(read("find {a: [{b: [~=\"x\"]}]}"), "/a[]/b[] ~= x");
    assert_eq!(
        read("find {a: [(==\"1\" || ==\"2\") && {b: ==\"3\"}]}"),
        "and/a[](or/a[](/a[] == 1; /a[] == 2); /a[]/b == 3)"
    );
    assert_eq!(read("find {[==\"x\"]}"), "[] == x");
    assert_eq!(read("find {a: [[==\"x\"]]}"), "/a[][] == x");
}

#[test]
fn pairs_keep_their_path() {
    assert_eq!(
        read("find {a: {b: ==\"1\", c: ==\"2\"}, d: ==\"3\"}"),
        "and(and/a(/a/b == 1; /a/c == 2); /d == 3)"
    );
    assert_eq!(
        read("find {a: (b: ==\"1\" || c: ==\"2\")}"),
        "or/a(/a/b == 1; /a/c == 2)"
    );
}

#[test]
fn objects_are_joined_to_the_right() {
    assert_eq!(
        read("find {a: ==\"1\"} && {b: ==\"2\"} || ({c: ==\"3\"})"),
        "and(/a == 1; or(/b == 2; /c == 3))"
    );
    assert_eq!(read("find ({a: ==\"1\"} || {b: ==\"2\"})"), "or(/a == 1; /b == 2)");
}

#[test]
fn nothing_is_joined_behind_parentheses_around_objects() {
    let query = "find ({a: ==\"1\"}) && {b: ==\"2\"}";
    let mut p = parser(query);
    assert_eq!(show(&p.build_filter().unwrap()), "/a == 1");
    assert!(p.could_consume("&& {b"));
}

#[test]
fn filters_are_read_to_the_end() {
    let query = "find {a: ==\"1\", b: ==\"2\" }  sort .a";
    let mut p = parser(query);
    assert!(p.build_filter().is_ok());
    assert!(p.could_consume("sort .a"));
    let mut p = parser("a: ==\"1\" || b: ==\"2\" }");
    assert!(p.obool().is_ok());
    assert!(!p.could_consume("&&") && !p.could_consume(",") && !p.could_consume("||"));
}

#[test]
fn filters_are_read_back() {
    let queries = [
        "find {a: ==\"x\"}",
        "find {a: {b: [~=\"x\" || ~3=\"\\\"y\"]}, \"c d\": (e: ==\"1\" && [==\"2\"])}",
        "find {a: [{b: ==\"1\", c: [[==\"2\"], {d: ==\"3\"} || {e: ==\"4\"}]}]} || {f: ==\"5\"}",
        "find {[==\"x\"], [(~=\"y\")]}",
    ];
    for query in queries {
        let first = parser(query).build_filter().unwrap();
        let text = format!("find{{{}}}", write_filter(&first, 0, Place::Member));
        let mut p = parser(&text);
        let second = p.build_filter().unwrap();
        assert_eq!(show(&second), show(&first));
        assert_eq!(p.offset(), text.len());
        assert_eq!(write_filter(&second, 0, Place::Member), write_filter(&first, 0, Place::Member));
    }
}

#[test]
fn filters_that_break_off() {
    assert_eq!(fails("sort .a"), "Missing 'find' keyword");
    assert_eq!(fails("find a"), "Expected '(' at character 5, found a.");
    assert_eq!(fails("find ({a: ==\"1\"}"), "Expected ')' at character 16, found .");
    assert_eq!(fails("find {}"), "Expected object key or '('");
    assert_eq!(fails("find {a ==\"1\"}"), "Expected ':' at character 8, found =.");
    assert_eq!(fails("find {a: =\"1\"}"), "Expected comparison operator");
    assert_eq!(fails("find {a: ==1}"), "Expected string literal.");
    assert_eq!(fails("find {a: ~=1}"), "Expected string literal.");
    assert_eq!(fails("find {a: ~x=\"1\"}"), "Expected integer for proximity search");
    assert_eq!(fails("find {a: ~ 2=\"1\"}"), "Expected integer for proximity search");
    assert_eq!(fails("find {a: ~2 =\"1\"}"), "Expected '=' at character 11, found  .");
    assert_eq!(fails("find {a: ~2\"1\"}"), "Expected '=' at character 11, found \".");
    assert_eq!(fails("find {a: ~2=1}"), "Expected string literal.");
    assert_eq!(
        fails("find {a: ~9223372036854775808=\"1\"}"),
        "number too large to fit in target type"
    );
    assert_eq!(fails("find {a: [==\"1\"}"), "Expected ']' at character 15, found }.");
    assert_eq!(fails("find {a: [x]}"), "Expected comparison operator");
    assert_eq!(fails("find {(a: ==\"1\"}"), "Expected ')' at character 15, found }.");
    assert_eq!(fails("find {a: [(==\"1\"]}"), "Expected ')' at character 16, found ].");
    assert_eq!(fails("find {a: ==\"1\" b: ==\"2\"}"), "Expected '}' at character 15, found b.");
    assert_eq!(fails("find {a: ==\"1\"} && x"), "Expected '(' at character 19, found x.");
    assert_eq!(fails("find {\"\\q\": ==\"1\"}"), "Unknown character escape: q");
    assert_eq!(message(parser("a").array()), "Expected '['");
}

fn comparison(operator: Operator) -> Comparison {
    let mut kb = KeyBuilder::new();
    kb.push_object_key("a");
    Comparison { operator, literal: "x y".to_string(), kb }
}

#[test]
fn a_comparison_over_one_stem() {
    match comparison(Operator::Exact).with_stems(vec!["x"]) {
        TermFilter::ExactMatch { stem, kb } => {
            assert_eq!(stem, "x");
            assert_eq!(path(&kb), "/a");
        }
        _ => panic!("not an exact match"),
    }
    match comparison(Operator::Stemmed).with_stems(vec!["x"]) {
        TermFilter::StemmedWord { stem, kb } => {
            assert_eq!(stem, "x");
            assert_eq!(path(&kb), "/a");
        }
        _ => panic!("not a word"),
    }
    match comparison(Operator::Distance(3)).with_stems(vec!["x"]) {
        TermFilter::Distance { stems, kb, distance } => {
            assert_eq!(stems, vec!["x"]);
            assert_eq!(path(&kb), "/a");
            assert_eq!(distance, 3);
        }
        _ => panic!("not a distance"),
    }
}

#[test]
fn a_comparison_over_several_stems() {
    match comparison(Operator::Exact).with_stems(vec!["x", "y"]) {
        TermFilter::ExactMatchAll { stems, kb } => {
            assert_eq!(stems, vec!["x", "y"]);
            assert_eq!(path(&kb), "/a");
        }
        _ => panic!("not exact matches"),
    }
    match comparison(Operator::Stemmed).with_stems(vec!["x", "y"]) {
        TermFilter::StemmedPhrase { stems, kb } => {
            assert_eq!(stems, vec!["x", "y"]);
            assert_eq!(path(&kb), "/a");
        }
        _ => panic!("not a phrase"),
    }
    match comparison(Operator::Distance(0)).with_stems(vec!["x", "y"]) {
        TermFilter::Distance { stems, kb, distance } => {
            assert_eq!(stems, vec!["x", "y"]);
            assert_eq!(path(&kb), "/a");
            assert_eq!(distance, 0);
        }
        _ => panic!("not a distance"),
    }
}
