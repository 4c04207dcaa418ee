use mdq::report::{grouped_report, table_report};

fn v(items: &[&str]) -> Vec<String> {
    items.iter().map(|x| x.to_string()).collect()
}

#[test]
fn table_report_text() {
    let r = table_report(&v(&["file.title", "version"]), &v(&["Title", "version"]), &vec![v(&["A", "1.0"])]);
    assert_eq!(
        mdq::json::stringify(&r),
        r#"{"columns":["file.title","version"],"headers":["Title","version"],"results":[["A","1.0"]]}"#
    );
    let same = table_report(&v(&["a"]), &v(&["a"]), &vec![]);
    assert_eq!(mdq::json::stringify(&same), r#"{"columns":["a"],"results":[]}"#);
}

#[test]
fn grouped_report_text() {
    let groups = vec![("x".to_string(), vec![v(&["1"])]), ("b".to_string(), vec![v(&["2"]), v(&["3"])])];
    let r = grouped_report(&v(&["n"]), &v(&["n"]), "status", &groups);
    assert_eq!(
        mdq::json::stringify(&r),
        r#"{"columns":["n"],"groupby":"status","results":{"b":[["2"],["3"]],"x":[["1"]]}}"#
    );
}
