use noise_query::error::Error;
use noise_query::json_value::JsonValue;
use noise_query::key_builder::{KeyBuilder, Segment};
use noise_query::parser::Parser;
use noise_query::query::Returnable;

fn parser(query: &str) -> Parser {
    Parser::new(query.to_string())
}

fn message<T>(r: Result<T, Error>) -> String {
    match r {
        Err(Error::Parse(text)) => text,
        _ => panic!("not a parse error"),
    }
}

fn path(kb: &KeyBuilder) -> String {
    let mut r = String::new();
    for segment in &kb.segments {
        match segment {
            Segment::ObjectKey(key) => r.push_str(&format!("/{}", key)),
            Segment::Array => r.push_str("[]"),
            Segment::ArrayIndex(index) => r.push_str(&format!("[{}]", index)),
        }
    }
    r
}

fn show(form: &Returnable) -> String {
    match form {
        Returnable::Value(value) => {
            assert!(value.sort.is_none());
            let source = match &value.ag {
                None => format!("<{}>", path(&value.kb)),
                Some((fun, JsonValue::Null)) => format!("{:?}<{}>", fun, path(&value.kb)),
                Some((fun, json)) => format!("{:?}<{} {:?}>", fun, path(&value.kb), json),
            };
            match &value.default {
                JsonValue::Null => source,
                json => format!("{} or {:?}", source, json),
            }
        }
        Returnable::Object(object) => {
            let parts: Vec<String> =
                object.fields.iter().map(|(k, v)| format!("{}: {}", k, show(v))).collect();
            format!("{{{}}}", parts.join(", "))
        }
        Returnable::Array(array) => {
            let parts: Vec<String> = array.slots.iter().map(show).collect();
            format!("[{}]", parts.join(", "))
        }
        Returnable::Literal(literal) => format!("{:?}", literal.json),
    }
}

fn read(query: &str) -> String {
    show(&parser(query).return_clause().unwrap())
}

fn fails(query: &str) -> String {
    message(parser(query).return_clause())
}

#[test]
fn without_a_clause_the_identifier_is_returned() {
    let mut p = parser("limit 1");
    assert_eq!(show(&p.return_clause().unwrap()), "</_id>");
    assert_eq!(p.offset(), 0);
}

#[test]
fn values_of_the_document() {
    assert_eq!(read("return .a.b[1]"), "</a/b[1]>");
    assert_eq!(read("return . limit 1"), "</limit>");
    assert_eq!(read("return ."), "<>");
    assert_eq!(read("return .a default={x: 12}"), "</a> or Object([(\"x\", Number(\"12\"))])");
    assert_eq!(read("return .a default=null"), "</a>");
}

#[test]
fn fixed_values() {
    assert_eq!(read("return \"a\""), "String(\"a\")");
    assert_eq!(read("return -1.5"), "Number(\"-1.5\")");
    assert_eq!(read("return true"), "True");
    assert_eq!(read("return false"), "False");
    assert_eq!(read("return null"), "Null");
}

#[test]
fn objects_and_arrays() {
    assert_eq!(
        read("return {a: .x, \"b c\": [.y, 12, {}], d: {e: null}}"),
        "{a: </x>, b c: [</y>, Number(\"12\"), {}], d: {e: Null}}"
    );
    assert_eq!(read("return []"), "[]");
    assert_eq!(read("return {}"), "{}");
}

#[test]
fn a_comma_may_stand_before_the_end() {
    assert_eq!(read("return [.a, ]"), "[</a>]");
    assert_eq!(read("return {a: .b, }"), "{a: </b>}");
}

#[test]
fn functions_over_groups() {
    assert_eq!(read("return sum(.a)"), "Sum</a>");
    assert_eq!(read("return max(.a)"), "Max</a>");
    assert_eq!(read("return min(.a)"), "Min</a>");
    assert_eq!(read("return list(.a)"), "List</a>");
    assert_eq!(read("return avg(.a)"), "Avg</a>");
    assert_eq!(read("return group(.a)"), "GroupAsc</a>");
    assert_eq!(read("return group(.a order=asc)"), "GroupAsc</a>");
    assert_eq!(read("return group(.a order = desc )"), "GroupDesc</a>");
    assert_eq!(read("return count()"), "Count<>");
    assert_eq!(read("return concat(.a)"), "Concat</a String(\",\")>");
    assert_eq!(read("return concat(.a sep=\"; \")"), "Concat</a String(\"; \")>");
    assert_eq!(read("return sum ( . ) default=12"), "Sum<> or Number(\"12\")");
}

#[test]
fn an_order_makes_every_function_a_grouping() {
    assert_eq!(read("return sum(.a order=desc)"), "GroupDesc</a>");
    assert_eq!(read("return avg(.a order=asc)"), "GroupAsc</a>");
}

#[test]
fn forms_are_read_back() {
    let text = "return {\"a\":[sum(.[\"x\"].y) default=12,.[\"z\"][3] default=\"q\"],\"b\":\
                concat(.[\"x\"] sep=\"\\\"\"),\"c\":group(.[\"x\"] order=desc),\"d\":count(),\"e\":-0.5}";
    let mut p = parser(text);
    assert_eq!(
        show(&p.return_clause().unwrap()),
        "{a: [Sum</x/y> or Number(\"12\"), </z[3]> or String(\"q\")], \
         b: Concat</x String(\"\\\"\")>, c: GroupDesc</x>, d: Count<>, e: Number(\"-0.5\")}"
    );
    assert_eq!(p.offset(), text.len());
}

#[test]
fn a_word_without_a_parenthesis_is_not_passed() {
    for word in ["group", "sum", "max", "min", "list", "concat", "avg", "count"] {
        let query = format!("{} x", word);
        let mut p = parser(&query);
        assert!(p.consume_aggregate().unwrap().is_none());
        assert_eq!(p.offset(), 0);
    }
}

#[test]
fn forms_that_break_off() {
    assert_eq!(fails("return"), "Expected key, object or array to return.");
    assert_eq!(fails("return x"), "Expected key, object or array to return.");
    assert_eq!(fails("return sum"), "Expected key, object or array to return.");
    assert_eq!(fails("return {a: x}"), "Expected key to return.");
    assert_eq!(fails("return {a .b}"), "Expected ':' at character 10, found ..");
    assert_eq!(fails("return {a: .b"), "Expected '}' at character 13, found .");
    assert_eq!(fails("return {1}"), "Expected '}' at character 8, found 1.");
    assert_eq!(fails("return [x]"), "Expected ']' at character 8, found x.");
    assert_eq!(fails("return sum()"), "Expected keypath or bind variable");
    assert_eq!(fails("return concat(x)"), "Expected keypath or bind variable");
    assert_eq!(fails("return group(.a order=x)"), "Expected asc or desc");
    assert_eq!(fails("return group(.a order asc)"), "Expected '=' at character 22, found a.");
    assert_eq!(fails("return concat(.a sep \",\")"), "Expected '=' at character 21, found \".");
    assert_eq!(fails("return concat(.a sep=1)"), "Expected string literal.");
    assert_eq!(fails("return concat(.a order=asc)"), "Expected ')' at character 17, found o.");
    assert_eq!(fails("return count(.a)"), "Expected ')' at character 13, found ..");
    assert_eq!(fails("return sum(.a"), "Expected ')' at character 13, found .");
    assert_eq!(fails("return .a default=x"), "Expected json value for default");
    assert_eq!(message(parser("a").ret_object()), "Expected '{' at character 0, found a.");
    assert_eq!(message(parser("a").ret_array()), "Expected '[' at character 0, found a.");
}

#[test]
fn a_whole_query_is_read_clause_by_clause() {
    let mut p = parser(" find {a: ~=\"x\"} sort .a desc return {b: .b} limit 3");
    assert!(p.build_filter().is_ok());
    assert_eq!(p.sort_clause().unwrap().len(), 1);
    assert_eq!(show(&p.return_clause().unwrap()), "{b: </b>}");
    assert_eq!(p.limit_clause().unwrap(), 3);
    assert_eq!(p.offset(), 52);
}
