use mdq::get_inline_tags;
use mdq::json::Json;
use mdq::tags::{frontmatter_tag_list, with_inline_tags};

fn s(t: &str) -> Json {
    Json::Str(t.to_string())
}

#[test]
fn inline_tags_of_document() {
    let md = "This document is about #Rust and #Markdown.";
    assert_eq!(get_inline_tags(md), vec!["Rust", "Markdown"]);
}

#[test]
fn inline_tags_edge_cases() {
    assert_eq!(get_inline_tags(""), Vec::<String>::new());
    assert_eq!(get_inline_tags("no tags # here"), Vec::<String>::new());
    assert_eq!(get_inline_tags("#a #a #b_c-d #été"), vec!["a", "a", "b_c", "été"]);
    assert_eq!(get_inline_tags("##x"), vec!["x"]);
}

#[test]
fn frontmatter_tags_are_strings_of_the_list() {
    let fm = Json::Object(vec![(
        "tags".to_string(),
        Json::Array(vec![s("one"), Json::Number("2".to_string()), s("three")]),
    )]);
    assert_eq!(frontmatter_tag_list(&fm), vec!["one", "three"]);
    assert_eq!(frontmatter_tag_list(&Json::Object(vec![("tags".to_string(), s("x"))])), Vec::<String>::new());
    assert_eq!(frontmatter_tag_list(&Json::Null), Vec::<String>::new());
}

#[test]
fn merged_tags_without_repeats() {
    let fm = Json::Object(vec![
        ("tags".to_string(), Json::Array(vec![s("rust"), s("notes")])),
        ("title".to_string(), s("T")),
    ]);
    let r = with_inline_tags(fm, "text #notes #new #rust #new");
    assert_eq!(
        r,
        Json::Object(vec![
            ("tags".to_string(), Json::Array(vec![s("rust"), s("notes"), s("new")])),
            ("title".to_string(), s("T")),
        ])
    );
}

#[test]
fn merged_tags_added_in_key_order() {
    let fm = Json::Object(vec![("a".to_string(), s("1")), ("z".to_string(), s("2"))]);
    let r = with_inline_tags(fm, "#x");
    assert_eq!(
        r,
        Json::Object(vec![
            ("a".to_string(), s("1")),
            ("tags".to_string(), Json::Array(vec![s("x")])),
            ("z".to_string(), s("2")),
        ])
    );
    let empty = with_inline_tags(Json::Object(vec![]), "nothing");
    assert_eq!(empty, Json::Object(vec![("tags".to_string(), Json::Array(vec![]))]));
}

#[test]
fn tags_from_captures() {
    let found = vec![Some("a".to_string()), None, Some("b".to_string())];
    assert_eq!(mdq::tags::tags_of_captures(&found), vec!["a", "b"]);
    assert_eq!(mdq::tags::tags_of_captures(&vec![]), Vec::<String>::new());
}
