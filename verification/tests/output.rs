use mdq::output::csv_output;

fn v(items: &[&str]) -> Vec<String> {
    items.iter().map(|x| x.to_string()).collect()
}

#[test]
fn csv_with_headers() {
    let rows = vec![v(&["a", "1"]), v(&["b,c", "say \"hi\""])];
    assert_eq!(csv_output(&rows, Some(&v(&["Title", "n"]))), "Title,n\na,1\n\"b,c\",\"say \"\"hi\"\"\"\n");
}

#[test]
fn csv_without_headers() {
    assert_eq!(csv_output(&vec![v(&["x"]), v(&["y"])], None), "x\ny\n");
    assert_eq!(csv_output(&vec![], None), "");
    assert_eq!(csv_output(&vec![], Some(&v(&["H"]))), "H\n");
}

#[test]
fn terminal_table() {
    assert_eq!(mdq::output::result_table(&vec![], &v(&["H"])), None);
    let t = mdq::output::result_table(&vec![v(&["a", "bb"])], &v(&["X", "Y"])).unwrap();
    assert!(t.contains("X"));
    assert!(t.contains("bb"));
    assert!(t.contains('│'));
    assert_eq!(t.lines().count(), 5);
}
