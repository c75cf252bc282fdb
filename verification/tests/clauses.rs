use noise_query::error::Error;
use noise_query::json_value::JsonValue;
use noise_query::key_builder::{KeyBuilder, Segment};
use noise_query::parser::Parser;
use noise_query::query::{sort_map, Sort, SortInfo};

fn parser(query: &str) -> Parser {
    Parser::new(query.to_string())
}

fn message<T>(r: Result<T, Error>) -> String {
    match r {
        Err(Error::Parse(text)) => text,
        _ => panic!("not a parse error"),
    }
}

fn path(kb: &KeyBuilder) -> String {
    let mut r = String::new();
    for segment in &kb.segments {
        match segment {
            Segment::ObjectKey(key) => r.push_str(&format!("/{}", key)),
            Segment::Array => r.push_str("[]"),
            Segment::ArrayIndex(index) => r.push_str(&format!("[{}]", index)),
        }
    }
    r
}

fn keypath(query: &str) -> Option<String> {
    parser(query).consume_keypath().unwrap().map(|kb| path(&kb))
}

fn keys(query: &str) -> Vec<String> {
    let infos = parser(query).sort_clause().unwrap();
    infos
        .iter()
        .map(|info| format!("{} {:?} {:?}", path(&info.kb), info.sort, info.default))
        .collect()
}

#[test]
fn paths_are_built_step_by_step() {
    let mut kb = KeyBuilder::new();
    kb.push_object_key("a");
    kb.push_array();
    kb.push_array_index(7);
    assert_eq!(path(&kb), "/a[][7]");
    let copy = kb.clone();
    let mut kb = KeyBuilder::new();
    kb.push_array();
    kb.push_object_key("b");
    kb.pop_object_key();
    assert_eq!(path(&kb), "[]");
    kb.pop_array();
    assert_eq!(path(&kb), "");
    assert_eq!(path(&copy), "/a[][7]");
}

#[test]
fn key_paths() {
    assert_eq!(keypath(".a"), Some("/a".to_string()));
    assert_eq!(keypath(".a.b[3].c[0][12] x"), Some("/a/b[3]/c[0][12]".to_string()));
    assert_eq!(keypath(".[\"a b\"].c"), Some("/a b/c".to_string()));
    assert_eq!(keypath(". a . b [ 1 ]"), Some("/a/b[1]".to_string()));
    assert_eq!(keypath("a"), None);
    let mut p = parser(".a .b  ,");
    assert_eq!(path(&p.consume_keypath().unwrap().unwrap()), "/a/b");
    assert_eq!(p.offset(), 7);
}

#[test]
fn a_dot_alone_leads_to_the_whole_document() {
    let mut p = parser(".  }");
    assert_eq!(path(&p.consume_keypath().unwrap().unwrap()), "");
    assert_eq!(p.offset(), 3);
}

#[test]
fn key_paths_that_break_off() {
    assert_eq!(message(parser(".a[x]").consume_keypath()), "Expected array index integer.");
    assert_eq!(message(parser(".a.1").consume_keypath()), "Expected object key.");
    assert_eq!(message(parser(".[a]").consume_keypath()), "Expected string literal.");
    assert_eq!(
        message(parser(".[\"a\"x").consume_keypath()),
        "Expected ']' at character 5, found x."
    );
    assert_eq!(
        message(parser(".a[1}").consume_keypath()),
        "Expected ']' at character 4, found }."
    );
    assert_eq!(
        message(parser(".a[99999999999999999999]").consume_keypath()),
        "number too large to fit in target type"
    );
}

#[test]
fn an_order() {
    assert_eq!(keys("sort .a"), vec!["/a Asc Null"]);
    assert_eq!(
        keys("sort .a desc, .b.c asc default=[1] , .[\"d\"] default=\"x\" desc limit 1"),
        vec![
            "/a Desc Null",
            "/b/c Asc Array([Number(\"1\")])",
            "/d Desc String(\"x\")",
        ]
    );
    assert_eq!(keys("limit 1"), Vec::<String>::new());
}

#[test]
fn an_order_is_read_back() {
    let text = "sort .[\"a\"].b[2] default={\"x\":-1.5} desc,.,.[\"\\\"\"] desc";
    assert_eq!(
        keys(text),
        vec![
            "/a/b[2] Desc Object([(\"x\", Number(\"-1.5\"))])",
            " Asc Null",
            "/\" Desc Null",
        ]
    );
    let mut p = parser(text);
    assert_eq!(p.sort_clause().unwrap().len(), 3);
    assert_eq!(p.offset(), text.len());
}

#[test]
fn a_direction_on_either_side_of_the_default() {
    assert_eq!(keys("sort .a desc default=12"), keys("sort .a default=12 desc"));
    assert_eq!(keys("sort .a asc default=5"), keys("sort .a default=5 asc"));
    assert_eq!(keys("sort .[\"a\"].b desc default=[{}]"), keys("sort .a.b default=[{}] desc"));
    assert_eq!(keys("sort .a asc default=12 desc"), keys("sort .a default=12 desc"));
    assert_eq!(keys("sort .a desc default=12 asc"), keys("sort .a default=12"));
}

#[test]
fn orders_that_break_off() {
    let missing = "Expected field path in sort expression.";
    assert_eq!(message(parser("sort").sort_clause()), missing);
    assert_eq!(message(parser("sort x").sort_clause()), missing);
    assert_eq!(message(parser("sort .a, x").sort_clause()), missing);
    assert_eq!(
        message(parser("sort .a default=x").sort_clause()),
        "Expected Json after default."
    );
    assert_eq!(
        message(parser("sort .a default 1").sort_clause()),
        "Expected '=' at character 16, found 1."
    );
}

fn info(name: &str, sort: Sort) -> SortInfo {
    let mut kb = KeyBuilder::new();
    kb.push_object_key(name);
    SortInfo { kb, sort, default: JsonValue::Null }
}

#[test]
fn the_last_of_several_keys_counts() {
    let infos = vec![info("a", Sort::Asc), info("b", Sort::Asc), info("a", Sort::Desc)];
    let names = vec!["Va".to_string(), "Vb".to_string(), "Va".to_string()];
    let mut entries: Vec<String> = sort_map(infos, names)
        .iter()
        .map(|(name, info)| format!("{} {} {:?}", name, path(&info.kb), info.sort))
        .collect();
    entries.sort();
    assert_eq!(entries, vec!["Va /a Desc", "Vb /b Asc"]);
    assert!(sort_map(Vec::new(), Vec::new()).is_empty());
}

#[test]
fn a_limit() {
    let mut p = parser("limit 12 x");
    assert_eq!(p.limit_clause().unwrap(), 12);
    assert_eq!(p.offset(), 9);
    assert_eq!(p.limit_clause().unwrap(), usize::MAX);
    assert_eq!(p.offset(), 9);
}

#[test]
fn limits_that_are_none() {
    assert_eq!(
        message(parser("limit 0").limit_clause()),
        "limit must be an integer greater than 0"
    );
    assert_eq!(
        message(parser("limit -1").limit_clause()),
        "limit expects an integer greater than 0"
    );
    assert_eq!(
        message(parser("limit").limit_clause()),
        "limit expects an integer greater than 0"
    );
    assert_eq!(
        message(parser("limit 9223372036854775808").limit_clause()),
        "number too large to fit in target type"
    );
}
