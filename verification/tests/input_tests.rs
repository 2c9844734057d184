use debby::input::{parse_id, UninstallInput};

#[test]
fn digits_are_an_id() {
    assert_eq!(parse_id("7"), Some(7));
    assert_eq!(parse_id("0"), Some(0));
    assert_eq!(parse_id("007"), Some(7));
    assert_eq!(parse_id("+12"), Some(12));
    assert_eq!(parse_id("1234567890"), Some(1234567890));
    assert_eq!(parse_id(&usize::MAX.to_string()), Some(usize::MAX));
}

#[test]
fn anything_else_is_no_id() {
    assert_eq!(parse_id(""), None);
    assert_eq!(parse_id("+"), None);
    assert_eq!(parse_id("-1"), None);
    assert_eq!(parse_id("++1"), None);
    assert_eq!(parse_id("1+"), None);
    assert_eq!(parse_id("12a"), None);
    assert_eq!(parse_id(" 12"), None);
    assert_eq!(parse_id("1.0"), None);
    assert_eq!(parse_id("\u{661}"), None);
    assert_eq!(parse_id("18446744073709551616"), None);
    assert_eq!(parse_id("99999999999999999999999999"), None);
}

#[test]
fn parse_id_agrees_with_the_standard_library() {
    for s in ["7", "+7", "", "+", "-0", "0x10", "18446744073709551615", "18446744073709551616", "000000000000000000000000001"] {
        assert_eq!(parse_id(s), s.parse::<usize>().ok());
    }
}

#[test]
fn the_argument_names_an_id_a_file_or_a_package() {
    assert!(matches!(UninstallInput::parse("7"), UninstallInput::Id(7)));
    assert!(matches!(UninstallInput::parse("foo.deb"), UninstallInput::Path(p) if p == "foo.deb"));
    assert!(matches!(UninstallInput::parse("./x/7.deb"), UninstallInput::Path(p) if p == "./x/7.deb"));
    assert!(matches!(UninstallInput::parse("foo"), UninstallInput::PackageName(n) if n == "foo"));
    assert!(matches!(UninstallInput::parse("foo.DEB"), UninstallInput::PackageName(n) if n == "foo.DEB"));
    assert!(matches!(UninstallInput::parse(""), UninstallInput::PackageName(n) if n.is_empty()));
    assert!(matches!(UninstallInput::parse(".deb"), UninstallInput::Path(p) if p == ".deb"));
    assert!(matches!("12".parse::<UninstallInput>(), Ok(UninstallInput::Id(12))));
    assert!(matches!("libc6".parse::<UninstallInput>(), Ok(UninstallInput::PackageName(n)) if n == "libc6"));
}
