use debby::control::{
    from_map, parse_control, CatalogError, Control, ControlWithData, MalformedControl,
};
use debby::emit::{emit, emit_pairs};

fn minimal() -> String {
    "Package: hello\nVersion: 2.10-3\nArchitecture: amd64\nMaintainer: A Person <a@example.org>\nDescription: short\n".to_string()
}

fn pair(k: &str, v: &str) -> (String, String) {
    (k.to_string(), v.to_string())
}

fn required_pairs() -> Vec<(String, String)> {
    vec![
        pair("package", "hello"),
        pair("version", "1.0"),
        pair("architecture", "all"),
        pair("maintainer", "me"),
        pair("description", "text"),
    ]
}

#[test]
fn parses_a_minimal_paragraph() {
    let c = parse_control(minimal()).unwrap();
    assert_eq!(c.package, "hello");
    assert_eq!(c.version, "2.10-3");
    assert_eq!(c.architecture, "amd64");
    assert_eq!(c.maintainer, "A Person <a@example.org>");
    assert_eq!(c.description, "short");
    assert_eq!(c.depends, None);
    assert_eq!(c.homepage, None);
    assert_eq!(c.origin, None);
}

#[test]
fn continuation_lines_join_with_line_feeds() {
    let text = "Package: p\nVersion: 1\nArchitecture: all\nMaintainer: m\nDescription: short\n A long paragraph\n .\n second line";
    let c = parse_control(text.to_string()).unwrap();
    assert_eq!(c.description, "short\nA long paragraph\n.\nsecond line");
}

#[test]
fn a_tab_opens_a_continuation_line_too() {
    let text = "Package: p\nVersion: 1\nArchitecture: all\nMaintainer: m\nDescription: one\n\ttwo  \n";
    let c = parse_control(text.to_string()).unwrap();
    assert_eq!(c.description, "one\ntwo");
}

#[test]
fn keys_are_taken_without_regard_to_case_and_hyphens() {
    let text = format!(
        "{}Pre-Depends: libc6\nINSTALLED-SIZE: 42\nhomePage: https://example.org\n",
        minimal()
    );
    let c = parse_control(text).unwrap();
    assert_eq!(c.pre_depends, Some("libc6".to_string()));
    assert_eq!(c.installed_size, Some("42".to_string()));
    assert_eq!(c.homepage, Some("https://example.org".to_string()));
}

#[test]
fn unknown_keys_are_passed_over() {
    let text = format!("{}X-Custom: value\nTag: a, b\n", minimal());
    let c = parse_control(text).unwrap();
    assert_eq!(c, parse_control(minimal()).unwrap());
}

#[test]
fn only_the_first_paragraph_counts() {
    let text = format!("{}\nPackage: other\nDepends: nothing\n", minimal());
    let c = parse_control(text).unwrap();
    assert_eq!(c.package, "hello");
    assert_eq!(c.depends, None);
}

#[test]
fn empty_lines_before_the_paragraph_are_passed_over() {
    let text = format!("\n\n{}", minimal());
    let c = parse_control(text).unwrap();
    assert_eq!(c.package, "hello");
}

#[test]
fn a_later_value_replaces_an_earlier_one() {
    let text = format!("{}package: second\n extra\n", minimal());
    let c = parse_control(text).unwrap();
    assert_eq!(c.package, "second\nextra");
}

#[test]
fn carriage_returns_before_line_feeds_are_dropped() {
    let text = "Package: p\r\nVersion: 1\r\nArchitecture: all\r\nMaintainer: m\r\nDescription: d\r\n more\r\n";
    let c = parse_control(text.to_string()).unwrap();
    assert_eq!(c.package, "p");
    assert_eq!(c.description, "d\nmore");
}

#[test]
fn values_keep_what_follows_their_first_colon() {
    let text = format!("{}Homepage: https://example.org:8080/x\n", minimal());
    let c = parse_control(text).unwrap();
    assert_eq!(c.homepage, Some("https://example.org:8080/x".to_string()));
}

#[test]
fn a_line_without_a_colon_is_dropped_and_what_follows_continues_the_last_value() {
    let text = "Package: p\nnonsense\n tail\nVersion: 1\nArchitecture: all\nMaintainer: m\nDescription: d\n";
    let c = parse_control(text.to_string()).unwrap();
    assert_eq!(c.package, "p\ntail");
}

#[test]
fn a_continuation_before_any_key_is_dropped() {
    let text = format!(" stray\n{}", minimal());
    let c = parse_control(text).unwrap();
    assert_eq!(c.package, "hello");
}

#[test]
fn each_missing_required_field_is_named() {
    let lines = [
        "Package: p\n",
        "Version: 1\n",
        "Architecture: all\n",
        "Maintainer: m\n",
        "Description: d\n",
    ];
    for missing in 0..5 {
        let mut text = String::new();
        for (i, line) in lines.iter().enumerate() {
            if i != missing {
                text.push_str(line);
            }
        }
        assert_eq!(parse_control(text).unwrap_err(), MalformedControl { missing });
    }
}

#[test]
fn the_first_missing_field_is_the_one_named() {
    assert_eq!(parse_control(String::new()).unwrap_err(), MalformedControl { missing: 0 });
    assert_eq!(
        parse_control("Package: p\nMaintainer: m\n".to_string()).unwrap_err(),
        MalformedControl { missing: 1 }
    );
}

#[test]
fn from_map_assigns_by_canonical_name() {
    let mut pairs = required_pairs();
    pairs.push(pair("Pre-Depends", "a"));
    pairs.push(pair("BUGS", "b"));
    pairs.push(pair("nothing", "c"));
    let c = from_map(pairs).unwrap();
    assert_eq!(c.package, "hello");
    assert_eq!(c.pre_depends, Some("a".to_string()));
    assert_eq!(c.bugs, Some("b".to_string()));
    assert_eq!(c.license, None);
}

#[test]
fn from_map_lets_the_last_pair_win() {
    let mut pairs = required_pairs();
    pairs.push(pair("Version", "2.0"));
    let c = from_map(pairs).unwrap();
    assert_eq!(c.version, "2.0");
}

#[test]
fn from_map_refuses_a_record_without_a_required_field() {
    let mut pairs = required_pairs();
    pairs.remove(3);
    assert_eq!(from_map(pairs).unwrap_err(), MalformedControl { missing: 3 });
    assert_eq!(from_map(Vec::new()).unwrap_err(), MalformedControl { missing: 0 });
}

#[test]
fn records_are_equal_when_every_field_is() {
    let a = from_map(required_pairs()).unwrap();
    let b = from_map(required_pairs()).unwrap();
    assert!(a == b);
    let mut c = b.clone();
    c.maintainer = "someone else".to_string();
    assert!(a != c);
    let mut d = b.clone();
    d.origin = Some(String::new());
    assert!(a != d);
}

#[test]
fn a_record_is_written_field_by_field() {
    let mut c = from_map(required_pairs()).unwrap();
    c.description = "short\nlong line\n.\nlast".to_string();
    c.pre_depends = Some("libc6".to_string());
    assert_eq!(
        emit(&c),
        "package: hello\nversion: 1.0\narchitecture: all\nmaintainer: me\ndescription: short\n long line\n .\n last\npre_depends: libc6\n"
    );
}

#[test]
fn pairs_are_written_in_their_order() {
    let text = emit_pairs(&vec![pair("b", "2"), pair("a", "1\n\n3")]);
    assert_eq!(text, "b: 2\na: 1\n \n 3\n");
    assert_eq!(emit_pairs(&Vec::new()), "");
}

#[test]
fn writing_and_reading_gives_the_record_back() {
    let mut c = from_map(required_pairs()).unwrap();
    c.description = "short\nA long paragraph\n.\nsecond line".to_string();
    c.depends = Some("libc6 (>= 2.34), libfoo: any".to_string());
    c.homepage = Some(String::new());
    c.origin = Some("Débian".to_string());
    let back = parse_control(emit(&c)).unwrap();
    assert_eq!(back, c);
}

#[test]
fn reading_writing_and_reading_again_changes_nothing() {
    let text = "  \nVERSION:1\nPackage:   spaced   \nArchitecture: all\nMaintainer: m\nUnknown: x\nDescription: d\n\t  indented  \n\nPackage: ignored\n";
    let first = parse_control(text.to_string()).unwrap();
    let second = parse_control(emit(&first)).unwrap();
    assert_eq!(first, second);
    assert_eq!(first.package, "spaced");
    assert_eq!(first.description, "d\nindented");
}

#[test]
fn the_field_table_has_its_names_in_order() {
    let names = Control::fields();
    assert_eq!(names.len(), 21);
    assert_eq!(names[0], "package");
    assert_eq!(names[4], "description");
    assert_eq!(names[6], "pre_depends");
    assert_eq!(names[10], "installed_size");
    assert_eq!(names[20], "origin");
}

#[test]
fn values_and_pairs_follow_the_field_table() {
    let mut c = from_map(required_pairs()).unwrap();
    c.section = Some("utils".to_string());
    let values = c.values();
    assert_eq!(values.len(), 21);
    assert_eq!(values[0], Some("hello".to_string()));
    assert_eq!(values[5], None);
    assert_eq!(values[8], Some("utils".to_string()));
    assert_eq!(c.value(1), Some("1.0".to_string()));
    let pairs = c.pairs();
    assert_eq!(pairs.len(), 6);
    assert_eq!(pairs[5], pair("section", "utils"));
}

#[test]
fn a_row_gives_a_record_of_the_catalog() {
    let mut row = required_pairs();
    row.push(pair("homepage", "h"));
    row.push(pair("installed", "/usr/bin/hello,/usr/share/doc/hello/copyright"));
    let record = ControlWithData::from_db(Some(row)).unwrap();
    assert_eq!(record.ctrl.package, "hello");
    assert_eq!(record.ctrl.homepage, Some("h".to_string()));
    assert_eq!(record.installed, "/usr/bin/hello,/usr/share/doc/hello/copyright");
}

#[test]
fn no_row_means_not_installed() {
    assert_eq!(ControlWithData::from_db(None).unwrap_err(), CatalogError::NotInstalled);
}

#[test]
fn a_row_without_installed_paths_is_refused() {
    assert_eq!(
        ControlWithData::from_db(Some(required_pairs())).unwrap_err(),
        CatalogError::NoInstalled
    );
}

#[test]
fn a_row_without_a_required_column_is_refused() {
    let mut row = required_pairs();
    row.remove(1);
    row.push(pair("installed", ""));
    assert_eq!(
        ControlWithData::from_db(Some(row)).unwrap_err(),
        CatalogError::Malformed(MalformedControl { missing: 1 })
    );
}

#[test]
fn keys_are_made_lower_case_beyond_ascii_too() {
    let mut pairs = required_pairs();
    pairs.push(pair("BREA\u{212A}S", "older"));
    let c = from_map(pairs).unwrap();
    assert_eq!(c.breaks, Some("older".to_string()));
    let text = format!("{}Pac\u{212A}age: kelvin\n", minimal());
    assert_eq!(parse_control(text).unwrap().package, "kelvin");
}
