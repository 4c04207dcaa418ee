use mdq::dataview::transform::{is_dataview_block, split_frontmatter, with_frontmatter};

#[test]
fn query_blocks() {
    assert!(is_dataview_block("dataview"));
    assert!(is_dataview_block("  dataview  "));
    assert!(is_dataview_block("dataviewjs"));
    assert!(!is_dataview_block("rust"));
    assert!(!is_dataview_block("Dataview"));
    assert!(!is_dataview_block("data"));
    assert!(!is_dataview_block(""));
}

#[test]
fn frontmatter_split_and_back() {
    let md = "---\ntitle: A\ntags: [x]\n---\n# Body\ntext\n";
    let (fm, body) = split_frontmatter(md).unwrap();
    assert_eq!(fm, "title: A\ntags: [x]");
    assert_eq!(body, "# Body\ntext\n");
    assert_eq!(with_frontmatter(Some(fm), body), md);
}

#[test]
fn frontmatter_edge_cases() {
    assert_eq!(split_frontmatter("# no frontmatter\n"), None);
    assert_eq!(split_frontmatter("---\nunclosed: yes\n"), None);
    assert_eq!(split_frontmatter("---\n---\nbody"), Some(("".to_string(), "body".to_string())));
    assert_eq!(split_frontmatter("---\na: 1\n---"), Some(("a: 1".to_string(), "".to_string())));
    assert_eq!(split_frontmatter("---\na: ---\n----\n---\nb"), Some(("a: ---\n----".to_string(), "b".to_string())));
    assert_eq!(with_frontmatter(None, "body".to_string()), "body");
}

#[test]
fn queries_of_document() {
    let md = "---\ntitle: A\n---\n# T\n\n```dataview\nLIST\n```\n\n```rust\nfn x() {}\n```\n\n~~~ dataview\nTABLE\n~~~\n";
    assert_eq!(mdq::dataview::transform::dataview_queries(md), vec!["LIST\n", "TABLE\n"]);
    assert_eq!(mdq::dataview::transform::dataview_queries("no blocks\n"), Vec::<String>::new());
}

#[test]
fn query_blocks_replaced_by_results() {
    let md = "---\ntitle: A\n---\n# T\n\n```dataview\nLIST\n```\n\n```rust\nfn x() {}\n```\n";
    let out = mdq::dataview::transform::render_dataview(md, &vec!["- first\n- second\n".to_string()]);
    assert!(out.starts_with("---\ntitle: A\n---\n"));
    assert!(out.contains("- first\n- second"));
    assert!(!out.contains("LIST"));
    assert!(out.contains("fn x() {}"));
    let kept = mdq::dataview::transform::render_dataview(md, &vec![]);
    assert!(kept.contains("LIST"));
}
