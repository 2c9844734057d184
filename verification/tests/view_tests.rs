use debby::control::from_map;
use debby::view::{all, cuttable, table_rows, truncate, view};

fn pair(k: &str, v: &str) -> (String, String) {
    (k.to_string(), v.to_string())
}

#[test]
fn a_short_text_is_left_as_it_is() {
    assert_eq!(truncate("hello", 50), "hello");
    assert_eq!(truncate("hello", 5), "hello");
    assert_eq!(truncate("", 0), "");
}

#[test]
fn a_long_text_is_cut_and_marked() {
    assert_eq!(truncate("hello world", 5), "hello...");
    assert_eq!(truncate("hello", 4), "hell...");
    assert_eq!(truncate("hello", 0), "...");
    let long = "x".repeat(51);
    assert_eq!(truncate(&long, 50), format!("{}...", "x".repeat(50)));
}

#[test]
fn lengths_are_counted_in_bytes() {
    assert_eq!(truncate("\u{e9}\u{e9}\u{e9}", 6), "\u{e9}\u{e9}\u{e9}");
    assert_eq!(truncate("\u{e9}\u{e9}\u{e9}", 4), "\u{e9}\u{e9}...");
    assert!(cuttable("\u{e9}\u{e9}\u{e9}", 4));
    assert!(!cuttable("\u{e9}\u{e9}\u{e9}", 3));
    assert!(cuttable("\u{e9}\u{e9}\u{e9}", 6));
    assert!(cuttable("\u{e9}\u{e9}\u{e9}", 7));
    assert!(cuttable("abc", 1));
}

#[test]
fn the_table_of_a_record_leaves_out_fields_without_a_value() {
    let c = from_map(vec![
        pair("Package", "foo"),
        pair("Version", "1.0"),
        pair("Architecture", "amd64"),
        pair("Maintainer", "m"),
        pair("Description", &"d".repeat(60)),
        pair("Section", "utils"),
    ])
    .unwrap();
    let rows = view(&c).unwrap();
    assert_eq!(
        rows,
        vec![
            pair("package", "foo"),
            pair("version", "1.0"),
            pair("architecture", "amd64"),
            pair("maintainer", "m"),
            pair("description", &format!("{}...", "d".repeat(50))),
            pair("section", "utils"),
        ]
    );
    assert!(rows.iter().all(|r| r.0 != "homepage"));
}

#[test]
fn there_is_no_table_where_a_cut_falls_inside_a_character() {
    let value = format!("{}\u{e9}", "x".repeat(49));
    let c = from_map(vec![
        pair("Package", "foo"),
        pair("Version", "1.0"),
        pair("Architecture", "amd64"),
        pair("Maintainer", &value),
        pair("Description", "d"),
    ])
    .unwrap();
    assert_eq!(view(&c), None);
    assert_eq!(all(&vec![pair("maintainer", &value)]), None);
}

#[test]
fn the_table_of_a_row_has_its_columns_in_order() {
    let row = vec![pair("package", "foo"), pair("installed", &"/p,".repeat(30))];
    assert_eq!(
        all(&row),
        Some(vec![pair("package", "foo"), pair("installed", &format!("{}/p...", "/p,".repeat(16)))])
    );
    assert_eq!(table_rows(&row, 3), Some(vec![pair("package", "foo"), pair("installed", "/p,...")]));
    assert_eq!(table_rows(&Vec::new(), 3), Some(Vec::new()));
}
