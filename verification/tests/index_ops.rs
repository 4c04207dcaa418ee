use mdq::index::{dedup_strings, has_md_extension};
use mdq::json::Json;
use mdq::{Document, Index};

fn doc(path: &str) -> Document {
    Document { path: path.to_string(), frontmatter: Json::Object(vec![]) }
}

fn index(paths: &[&str]) -> Index {
    Index { documents: paths.iter().map(|p| doc(p)).collect() }
}

fn paths(i: &Index) -> Vec<String> {
    i.documents.iter().map(|d| d.path.clone()).collect()
}

#[test]
fn apply_pages() {
    let i = index(&["a", "b", "c", "d", "e"]);
    assert_eq!(paths(&i.apply(0, 0, false)), vec!["a", "b", "c", "d", "e"]);
    assert_eq!(paths(&i.apply(2, 0, false)), vec!["a", "b"]);
    assert_eq!(paths(&i.apply(2, 1, false)), vec!["b", "c"]);
    assert_eq!(paths(&i.apply(0, 3, false)), vec!["d", "e"]);
    assert_eq!(paths(&i.apply(10, 3, false)), vec!["d", "e"]);
    assert_eq!(paths(&i.apply(1, 5, false)), Vec::<String>::new());
    assert_eq!(paths(&i.apply(0, 9, true)), Vec::<String>::new());
}

#[test]
fn apply_reversed() {
    let i = index(&["a", "b", "c", "d", "e"]);
    assert_eq!(paths(&i.apply(0, 0, true)), vec!["e", "d", "c", "b", "a"]);
    assert_eq!(paths(&i.apply(2, 1, true)), vec!["d", "c"]);
}

#[test]
fn filter_keeps_verdicts() {
    let i = index(&["a", "b", "c"]);
    assert_eq!(paths(&i.filter_documents(&vec![true, false, true])), vec!["a", "c"]);
    assert_eq!(paths(&i.filter_documents(&vec![false, false, false])), Vec::<String>::new());
}

#[test]
fn group_by_key_text() {
    let i = index(&["a", "b", "c", "d"]);
    let keys = vec![
        Json::Str("x".to_string()),
        Json::Number("1".to_string()),
        Json::Str("x".to_string()),
        Json::Null,
    ];
    let groups = i.group_by(&keys);
    let summary: Vec<(String, Vec<String>)> = groups.iter().map(|(k, g)| (k.clone(), paths(g))).collect();
    assert_eq!(
        summary,
        vec![
            ("x".to_string(), vec!["a".to_string(), "c".to_string()]),
            ("1".to_string(), vec!["b".to_string()]),
            ("".to_string(), vec!["d".to_string()]),
        ]
    );
}

#[test]
fn group_by_merges_equal_texts() {
    // A string "1" and the number 1 read the same, so they share a group.
    let i = index(&["a", "b"]);
    let groups = i.group_by(&vec![Json::Str("1".to_string()), Json::Number("1".to_string())]);
    assert_eq!(groups.len(), 1);
    assert_eq!(groups[0].0, "1");
    assert_eq!(paths(&groups[0].1), vec!["a", "b"]);
}

#[test]
fn table_of_cells() {
    let i = index(&["a", "b"]);
    let cells = vec![
        vec![Json::Str("A".to_string()), Json::Bool(true)],
        vec![Json::Null, Json::Array(vec![Json::Number("2".to_string())])],
    ];
    assert_eq!(
        i.create_table_data(&cells),
        vec![vec!["A".to_string(), "true".to_string()], vec!["".to_string(), "[2]".to_string()]]
    );
}

#[test]
fn dedup_keeps_first() {
    let v: Vec<String> = ["b", "a", "b", "c", "a"].iter().map(|x| x.to_string()).collect();
    assert_eq!(dedup_strings(&v), vec!["b", "a", "c"]);
    assert_eq!(dedup_strings(&vec![]), Vec::<String>::new());
}

#[test]
fn markdown_extension() {
    assert!(has_md_extension("note.md"));
    assert!(has_md_extension("a.b.md"));
    assert!(has_md_extension("..md"));
    assert!(!has_md_extension(".md"));
    assert!(!has_md_extension("note.MD"));
    assert!(!has_md_extension("note.mdx"));
    assert!(!has_md_extension("md"));
    assert!(!has_md_extension("note."));
    assert!(!has_md_extension(".."));
    assert!(!has_md_extension(""));
}
