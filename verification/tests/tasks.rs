use mdq::json::Json;
use mdq::tasks::{decimal_string, extract_tasks, line_task, with_tasks};

fn task(done: bool, text: &str) -> (bool, String) {
    (done, text.to_string())
}

#[test]
fn task_lines() {
    assert_eq!(line_task("- [ ] write tests"), Some(task(false, "write tests")));
    assert_eq!(line_task("  * [x] done item  "), Some(task(true, "done item")));
    assert_eq!(line_task("+ [X] upper"), Some(task(true, "upper")));
    assert_eq!(line_task("12. [ ] numbered"), Some(task(false, "numbered")));
    assert_eq!(line_task("1) [x]"), Some(task(true, "")));
    assert_eq!(line_task("- [] not a box"), None);
    assert_eq!(line_task("-[ ] no space"), None);
    assert_eq!(line_task("- [ ]x glued"), None);
    assert_eq!(line_task("[ ] no marker"), None);
    assert_eq!(line_task("1234567890. [ ] too many digits"), None);
    assert_eq!(line_task("plain text"), None);
}

#[test]
fn tasks_of_document() {
    let md = "# Plan\n- [ ] one\n- [x] two\n\n```\n- [ ] in code\n```\n* [ ] three\n";
    assert_eq!(extract_tasks(md), vec![task(false, "one"), task(true, "two"), task(false, "three")]);
    assert_eq!(extract_tasks(""), Vec::<(bool, String)>::new());
}

#[test]
fn counts_as_text() {
    assert_eq!(decimal_string(0), "0");
    assert_eq!(decimal_string(7), "7");
    assert_eq!(decimal_string(10), "10");
    assert_eq!(decimal_string(12345), "12345");
}

#[test]
fn task_fields() {
    let fm = Json::Object(vec![("title".to_string(), Json::Str("T".to_string()))]);
    let r = with_tasks(fm, "- [ ] a\n- [x] b\n- [x] c\n");
    let item = |done: bool, text: &str| {
        Json::Object(vec![
            ("done".to_string(), Json::Bool(done)),
            ("text".to_string(), Json::Str(text.to_string())),
        ])
    };
    assert_eq!(
        r,
        Json::Object(vec![
            ("tasks".to_string(), Json::Array(vec![item(false, "a"), item(true, "b"), item(true, "c")])),
            ("tasks_done".to_string(), Json::Number("2".to_string())),
            ("tasks_open".to_string(), Json::Number("1".to_string())),
            ("title".to_string(), Json::Str("T".to_string())),
        ])
    );
}
