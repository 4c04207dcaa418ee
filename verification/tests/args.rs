use mdq::args::{build_args, columns_and_headers, parse_count, split_column, ArgsError, RawArgs};
use mdq::json::Json;

fn raw(limit: &str, offset: &str, columns: &[&str], filters: &[&str]) -> RawArgs {
    RawArgs {
        root_dir: ".".to_string(),
        output_json: false,
        no_header: true,
        limit: limit.to_string(),
        offset: offset.to_string(),
        use_inline_tags: true,
        extract_tasks: false,
        sort_by: Some("date".to_string()),
        group_by: None,
        reversed: true,
        columns: columns.iter().map(|c| c.to_string()).collect(),
        filters: filters.iter().map(|f| f.to_string()).collect(),
    }
}

fn filter(key: &str, value: &str) -> Json {
    Json::Object(vec![(key.to_string(), Json::Str(value.to_string()))])
}

#[test]
fn counts() {
    assert_eq!(parse_count("0"), Some(0));
    assert_eq!(parse_count("42"), Some(42));
    assert_eq!(parse_count("+7"), Some(7));
    assert_eq!(parse_count("007"), Some(7));
    assert_eq!(parse_count(""), None);
    assert_eq!(parse_count("+"), None);
    assert_eq!(parse_count("-1"), None);
    assert_eq!(parse_count("1a"), None);
    assert_eq!(parse_count(" 1"), None);
    assert_eq!(parse_count("99999999999999999999999999"), None);
    assert_eq!(parse_count(&usize::MAX.to_string()), Some(usize::MAX));
}

#[test]
fn column_specs() {
    assert_eq!(split_column("file.title:Title"), ("file.title".to_string(), "Title".to_string()));
    assert_eq!(split_column("version"), ("version".to_string(), "version".to_string()));
    assert_eq!(split_column("a:b:c"), ("a".to_string(), "b:c".to_string()));
    assert_eq!(split_column(":x"), ("".to_string(), "x".to_string()));
    let (c, h) = columns_and_headers(&vec!["a:A".to_string(), "b".to_string()]);
    assert_eq!(c, vec!["a", "b"]);
    assert_eq!(h, vec!["A", "b"]);
}

#[test]
fn settings_from_options() {
    let a = build_args(raw("5", "2", &["file.title:Title", "version"], &[r#"{"version": "1.0"}"#]))
        .unwrap_or_else(|_| panic!("options refused"));
    assert_eq!(a.limit, 5);
    assert_eq!(a.offset, 2);
    assert_eq!(a.columns, vec!["file.title", "version"]);
    assert_eq!(a.headers, vec!["Title", "version"]);
    assert_eq!(a.filters, filter("version", "1.0"));
    assert_eq!(a.root_dir, ".");
    assert!(a.no_header && a.use_inline_tags && a.reversed && !a.output_json && !a.extract_tasks);
    assert_eq!(a.sort_by, Some("date".to_string()));
    assert_eq!(a.group_by, None);
}

#[test]
fn several_filters_are_joined() {
    let a = build_args(raw(
        "0",
        "0",
        &[],
        &[r#"{"priority": "high"}"#, r#"{"assigned": "me"}"#],
    ))
    .unwrap_or_else(|_| panic!("options refused"));
    assert_eq!(
        a.filters,
        Json::Object(vec![(
            "$and".to_string(),
            Json::Array(vec![filter("priority", "high"), filter("assigned", "me")])
        )])
    );
    let none = build_args(raw("0", "0", &[], &[])).unwrap_or_else(|_| panic!("options refused"));
    assert_eq!(none.filters, Json::Object(vec![("$and".to_string(), Json::Array(vec![]))]));
}

#[test]
fn refused_options() {
    assert!(matches!(build_args(raw("x", "y", &[], &["{"])), Err(ArgsError::Limit)));
    assert!(matches!(build_args(raw("1", "-2", &[], &["{"])), Err(ArgsError::Offset)));
    assert!(matches!(
        build_args(raw("1", "2", &[], &["null", "{bad", "also bad"])),
        Err(ArgsError::Filter(1))
    ));
}

#[test]
fn default_options() {
    let a = build_args(raw("0", "0", &["file.title:Title"], &[])).unwrap_or_else(|_| panic!("options refused"));
    assert_eq!((a.limit, a.offset), (0, 0));
    assert_eq!(a.columns, vec!["file.title"]);
    assert_eq!(a.headers, vec!["Title"]);
}

#[test]
fn filter_values_are_json() {
    let a = build_args(raw("0", "0", &[], &["[1, 2.5, \"x\"]"])).unwrap_or_else(|_| panic!("options refused"));
    assert_eq!(
        a.filters,
        Json::Array(vec![
            Json::Number("1".to_string()),
            Json::Number("2.5".to_string()),
            Json::Str("x".to_string()),
        ])
    );
}
