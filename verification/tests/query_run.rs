use mdq::dataview::query::{
    DataviewQuery, DataviewQueryResult, LimitClause, ParseError, QueryKind, SelectionColumns,
};
use mdq::json::Json;

fn rows(names: &[&str]) -> Vec<Vec<Json>> {
    names.iter().map(|n| vec![Json::Str(n.to_string())]).collect()
}

fn list_of(r: DataviewQueryResult) -> Vec<String> {
    match r {
        DataviewQueryResult::List(l) => l,
        _ => panic!("not a list"),
    }
}

#[test]
fn plan_has_file_column_only() {
    let (_, q) = DataviewQuery::parse("TABLE a AS \"A\", b SORT date DESC LIMIT 3").unwrap();
    let plan = q.plan();
    assert_eq!(plan.columns, vec!["file.name"]);
    assert_eq!(plan.headers, vec!["File"]);
    assert_eq!(plan.limit, 3);
    assert_eq!(plan.sort, Some("date".to_string()));
    assert!(plan.descending);
    assert_eq!(q.selection.parse_expr(), None);
}

#[test]
fn run_list() {
    let (_, q) = DataviewQuery::parse("LIST").unwrap();
    assert_eq!(list_of(q.run_on(&rows(&["a", "b", "c"]))), vec!["a", "b", "c"]);
}

#[test]
fn run_limited_descending() {
    let (_, q) = DataviewQuery::parse("LIST SORT x DESC LIMIT 2").unwrap();
    assert_eq!(q.limit, Some(LimitClause { limit: 2 }));
    assert_eq!(list_of(q.run_on(&rows(&["a", "b", "c"]))), vec!["c", "b"]);
}

#[test]
fn run_table_and_markdown() {
    let (_, q) = DataviewQuery::parse("TABLE").unwrap();
    let r = q.run_on(&rows(&["a|b", "c"]));
    assert_eq!(r.to_markdown(), "| File |\n| --- |\n| a\\|b |\n| c |\n");
}

#[test]
fn run_task() {
    let (_, q) = DataviewQuery::parse("TASK").unwrap();
    assert_eq!(q.kind, QueryKind::Task);
    assert!(matches!(q.run_on(&rows(&["a"])), DataviewQueryResult::Task));
}

#[test]
fn markdown_of_list_and_table() {
    let l = DataviewQueryResult::List(vec!["one".to_string(), "two".to_string()]);
    assert_eq!(l.to_markdown(), "- one\n- two\n");
    let t = DataviewQueryResult::Table(
        vec![vec!["1".to_string(), "x|y".to_string()]],
        vec!["A".to_string(), "B|C".to_string()],
    );
    assert_eq!(t.to_markdown(), "| A | B\\|C |\n| --- | --- |\n| 1 | x\\|y |\n");
    assert_eq!(DataviewQueryResult::List(vec![]).to_markdown(), "");
}

#[test]
fn first_column_added_once() {
    let cols = SelectionColumns::default().ensure_first_col();
    assert_eq!(cols.columns(), vec!["file.name"]);
    assert_eq!(cols.headers(), vec!["File"]);
    let again = cols.ensure_first_col();
    assert_eq!(again.columns(), vec!["file.name"]);
}

#[test]
fn selection_columns_never_complete() {
    assert!(matches!(SelectionColumns::parse("a, b"), Err(ParseError::Incomplete)));
    assert!(matches!(SelectionColumns::parse(""), Err(ParseError::Incomplete)));
}

#[test]
fn limit_too_large_is_refused() {
    let (rest, q) = DataviewQuery::parse("LIST LIMIT 99999999999999999999").unwrap();
    assert_eq!(q.limit, None);
    assert_eq!(rest, "LIMIT 99999999999999999999");
}

#[test]
fn kelvin_sign_keyword() {
    assert!(mdq::dataview::query::kelvin_task_ahead("  tas\u{212A} where x"));
    assert!(mdq::dataview::query::kelvin_task_ahead("TAS\u{212A}"));
    assert!(!mdq::dataview::query::kelvin_task_ahead("task"));
    assert!(!mdq::dataview::query::kelvin_task_ahead("tas"));
}

#[test]
fn unknown_query_kind() {
    assert!(matches!(DataviewQuery::parse("SHOW x"), Err(ParseError::Error)));
    assert!(matches!(DataviewQuery::parse(""), Err(ParseError::Error)));
}
