use noise_query::error::Error;
use noise_query::json_value::JsonValue;
use noise_query::parser::Parser;

fn parser(query: &str) -> Parser {
    Parser::new(query.to_string())
}

fn message<T>(r: Result<T, Error>) -> String {
    match r {
        Err(Error::Parse(text)) => text,
        _ => panic!("not a parse error"),
    }
}

fn write_text(text: &str) -> String {
    let mut r = String::from("\"");
    for c in text.chars() {
        if c == '"' || c == '\\' {
            r.push('\\');
        }
        r.push(c);
    }
    r.push('"');
    r
}

fn write_json(value: &JsonValue) -> String {
    match value {
        JsonValue::Null => "null".to_string(),
        JsonValue::True => "true".to_string(),
        JsonValue::False => "false".to_string(),
        JsonValue::Number(text) => text.clone(),
        JsonValue::String(text) => write_text(text),
        JsonValue::Array(items) => {
            let parts: Vec<String> = items.iter().map(write_json).collect();
            format!("[{}]", parts.join(","))
        }
        JsonValue::Object(members) => {
            let parts: Vec<String> =
                members.iter().map(|(k, v)| format!("{}:{}", write_text(k), write_json(v))).collect();
            format!("{{{}}}", parts.join(","))
        }
    }
}

fn read(query: &str) -> JsonValue {
    parser(query).json().unwrap().unwrap()
}

#[test]
fn scalars() {
    assert!(matches!(read("null"), JsonValue::Null));
    assert!(matches!(read("true"), JsonValue::True));
    assert!(matches!(read("false x"), JsonValue::False));
    assert!(matches!(read("\"a\""), JsonValue::String(text) if text == "a"));
    assert!(matches!(read("-1.5"), JsonValue::Number(text) if text == "-1.5"));
    assert!(parser("x").json().unwrap().is_none());
    assert!(parser("").json().unwrap().is_none());
    assert!(matches!(read("5"), JsonValue::Number(text) if text == "5"));
    assert!(matches!(read("1e5"), JsonValue::Number(text) if text == "1e5"));
}

#[test]
fn values_are_read_back() {
    let texts = [
        "[]",
        "{}",
        "[null,true,false,0,-12.5e+3,\"\"]",
        "{\"a\":{\"b c\":[[],[{}]]},\"a\":\"\\\"\"}",
    ];
    for text in texts {
        let mut p = parser(text);
        assert_eq!(write_json(&p.json().unwrap().unwrap()), text);
        assert_eq!(p.offset(), text.len());
    }
}

#[test]
fn escapes_by_a_letter_are_read_back() {
    let text = "{\"a\\n\":[\"\\b\\r\\f\\t\\v\\/\\\\\\\"\"],b_1:\"\n/\"}";
    let mut p = parser(text);
    let value = p.json().unwrap().unwrap();
    assert_eq!(p.offset(), text.len());
    let members = match value {
        JsonValue::Object(members) => members,
        _ => panic!("not an object"),
    };
    assert_eq!(members[0].0, "a\n");
    assert!(matches!(&members[0].1, JsonValue::Array(items)
        if matches!(&items[0], JsonValue::String(s) if s == "\u{8}\r\u{C}\t\u{B}/\\\"")));
    assert_eq!(members[1].0, "b_1");
    assert!(matches!(&members[1].1, JsonValue::String(s) if s == "\n/"));
}

#[test]
fn white_space_between_the_parts() {
    let value = read(" [ 1 , { a : null , \"b\" : [ ] } ] ".trim_start());
    assert_eq!(write_json(&value), "[1,{\"a\":null,\"b\":[]}]");
}

#[test]
fn json_that_breaks_off() {
    assert_eq!(message(parser("[1,]").json()), "Invalid json found");
    assert_eq!(message(parser("[x]").json()), "Invalid json found");
    assert_eq!(message(parser("{1:2}").json()), "Invalid json found");
    assert_eq!(message(parser("{a:}").json()), "Invalid json found");
    assert_eq!(message(parser("{a:1,}").json()), "Invalid json found");
    assert_eq!(message(parser("{a 1}").json()), "Expected ':' at character 3, found 1.");
    assert_eq!(message(parser("{a:1 b:2}").json()), "Expected '}' at character 5, found b.");
    assert_eq!(message(parser("[1 2]").json()), "Expected ']' at character 3, found 2.");
    assert_eq!(message(parser("1").json_object()), "Expected '{' at character 0, found 1.");
    assert_eq!(message(parser("1").json_array()), "Expected '[' at character 0, found 1.");
}

#[test]
fn defaults() {
    let mut p = parser("default = 12 x");
    assert!(matches!(p.consume_default().unwrap(), Some(JsonValue::Number(t)) if t == "12"));
    assert_eq!(p.offset(), 13);
    assert!(p.consume_default().unwrap().is_none());
    assert_eq!(p.offset(), 13);
    assert_eq!(message(parser("default=x").consume_default()), "Expected json value for default");
    assert_eq!(
        message(parser("default 1").consume_default()),
        "Expected '=' at character 8, found 1."
    );
}
