use mdq::json::{get_value, object_insert, str_less, Json};

fn text_of(v: &Json) -> String {
    mdq::json::stringify(v)
}

fn s(t: &str) -> Json {
    Json::Str(t.to_string())
}

fn n(t: &str) -> Json {
    Json::Number(t.to_string())
}

#[test]
fn stringify_scalars() {
    assert_eq!(text_of(&Json::Null), "");
    assert_eq!(text_of(&Json::Bool(true)), "true");
    assert_eq!(text_of(&Json::Bool(false)), "false");
    assert_eq!(text_of(&n("42")), "42");
    assert_eq!(text_of(&n("-1.5")), "-1.5");
    assert_eq!(text_of(&s("plain \"text\"")), "plain \"text\"");
}

#[test]
fn stringify_compound_as_json() {
    let v = Json::Array(vec![s("a"), n("1"), Json::Null, Json::Bool(true)]);
    assert_eq!(text_of(&v), r#"["a",1,null,true]"#);
    let o = Json::Object(vec![
        ("k".to_string(), Json::Array(vec![])),
        ("x".to_string(), Json::Object(vec![])),
    ]);
    assert_eq!(text_of(&o), r#"{"k":[],"x":{}}"#);
}

#[test]
fn json_text_escapes() {
    let v = Json::Array(vec![s("q\"b\\s\n\r\t\u{8}\u{c}\u{1}\u{1f}é")]);
    assert_eq!(text_of(&v), "[\"q\\\"b\\\\s\\n\\r\\t\\b\\f\\u0001\\u001fé\"]");
    let key = Json::Object(vec![("a\"b".to_string(), Json::Null)]);
    assert_eq!(text_of(&key), r#"{"a\"b":null}"#);
}

#[test]
fn value_lookup() {
    let doc = Json::Object(vec![("tags".to_string(), Json::Array(vec![s("x")]))]);
    assert_eq!(get_value(&doc, "tags"), Some(Json::Array(vec![s("x")])));
    assert_eq!(get_value(&doc, "tag"), None);
    assert_eq!(get_value(&s("tags"), "tags"), None);
}

#[test]
fn ordering_of_keys() {
    assert!(str_less("a", "b"));
    assert!(str_less("a", "ab"));
    assert!(!str_less("ab", "a"));
    assert!(!str_less("a", "a"));
    assert!(str_less("Z", "a"));
    assert!(!str_less("", ""));
    assert!(str_less("", "a"));
}

#[test]
fn insert_keeps_keys_ordered() {
    let mut e = vec![("a".to_string(), n("1")), ("c".to_string(), n("3"))];
    object_insert(&mut e, "b".to_string(), n("2"));
    assert_eq!(e, vec![("a".to_string(), n("1")), ("b".to_string(), n("2")), ("c".to_string(), n("3"))]);
    object_insert(&mut e, "c".to_string(), s("new"));
    assert_eq!(e, vec![("a".to_string(), n("1")), ("b".to_string(), n("2")), ("c".to_string(), s("new"))]);
    object_insert(&mut e, "d".to_string(), Json::Null);
    assert_eq!(e.last().unwrap(), &("d".to_string(), Json::Null));
    let mut f: Vec<(String, Json)> = vec![];
    object_insert(&mut f, "tags".to_string(), Json::Array(vec![]));
    assert_eq!(f, vec![("tags".to_string(), Json::Array(vec![]))]);
}
