use debby::catalog::{
    all_statement, create_statement, decimal_of, delete_statement, find_statement, format_field,
    insert_statement, insert_values, quote, select_statement, Lookup,
    SqlFormat,
};
use debby::control::{from_map, Control, ControlWithData};

const COLUMNS: &str = "package, version, architecture, maintainer, description, depends, pre_depends, provides, section, priority, installed_size, recommends, suggests, enhances, breaks, conflicts, replaces, bugs, license, homepage, origin";

fn pair(k: &str, v: &str) -> (String, String) {
    (k.to_string(), v.to_string())
}

fn record() -> Control {
    from_map(vec![
        pair("Package", "foo"),
        pair("Version", "1.0"),
        pair("Architecture", "amd64"),
        pair("Maintainer", "O'Neil"),
        pair("Description", "it's a 'thing'"),
        pair("Homepage", "h"),
    ])
    .unwrap()
}

#[test]
fn a_literal_doubles_its_quotes() {
    assert_eq!(quote("plain"), "'plain'");
    assert_eq!(quote(""), "''");
    assert_eq!(quote("it's"), "'it''s'");
    assert_eq!(quote("''"), "''''''");
    assert_eq!(quote("a\nb"), "'a\nb'");
}

#[test]
fn fields_are_written_as_literals_or_null() {
    assert_eq!(format_field(&"x'y".to_string()), "'x''y'");
    assert_eq!(format_field(&Some("v".to_string())), "'v'");
    assert_eq!(format_field(&None::<String>), "NULL");
    assert_eq!(Some("NULL".to_string()).format_sql(), "'NULL'");
}

#[test]
fn the_columns_are_the_field_table() {
    assert_eq!(Control::sql_fields(), COLUMNS);
}

#[test]
fn a_record_gives_its_columns_and_values() {
    let (columns, values) = record().populate_sql();
    assert_eq!(columns, COLUMNS);
    assert_eq!(
        values,
        "'foo', '1.0', 'amd64', 'O''Neil', 'it''s a ''thing''', NULL, NULL, NULL, NULL, NULL, NULL, NULL, NULL, NULL, NULL, NULL, NULL, NULL, NULL, 'h', NULL"
    );
}

#[test]
fn a_field_is_found_by_its_name() {
    let c = record();
    assert_eq!(c.field("package"), Some("'foo'".to_string()));
    assert_eq!(c.field("maintainer"), Some("'O''Neil'".to_string()));
    assert_eq!(c.field("homepage"), Some("'h'".to_string()));
    assert_eq!(c.field("origin"), Some("NULL".to_string()));
    assert_eq!(c.field("Package"), None);
    assert_eq!(c.field("installed"), None);
    assert_eq!(c.field(""), None);
}

#[test]
fn the_statements_name_the_columns() {
    assert_eq!(
        create_statement(),
        format!("CREATE TABLE IF NOT EXISTS debs (id INTEGER PRIMARY KEY, {}, installed TEXT)", COLUMNS)
    );
    assert_eq!(
        select_statement(),
        format!("SELECT id, {}, installed FROM debs WHERE package = ? AND version = ?", COLUMNS)
    );
    let marks = vec!["?"; 22].join(", ");
    assert_eq!(
        insert_statement(),
        format!("INSERT INTO debs ({}, installed) VALUES ({})", COLUMNS, marks)
    );
}

#[test]
fn the_bound_values_follow_the_columns() {
    let values = insert_values(&record(), "/usr/bin/foo,/etc/foo");
    assert_eq!(values.len(), 22);
    assert_eq!(values[0], Some("foo".to_string()));
    assert_eq!(values[3], Some("O'Neil".to_string()));
    assert_eq!(values[5], None);
    assert_eq!(values[19], Some("h".to_string()));
    assert_eq!(values[21], Some("/usr/bin/foo,/etc/foo".to_string()));
}

#[test]
fn what_is_stored_is_what_is_read() {
    let c = record();
    let names = Control::fields();
    let values = insert_values(&c, "/usr/bin/foo");
    let mut row = Vec::new();
    for (i, value) in values.into_iter().enumerate() {
        let name = if i < names.len() { names[i].clone() } else { "installed".to_string() };
        if let Some(v) = value {
            row.push((name, v));
        }
    }
    let back = ControlWithData::from_db(Some(row)).unwrap();
    assert_eq!(back.ctrl, c);
    assert_eq!(back.installed, "/usr/bin/foo");
}

#[test]
fn integers_are_written_in_decimal() {
    assert_eq!(format_field(&0i64), "0");
    assert_eq!(format_field(&7i64), "7");
    assert_eq!(format_field(&-7i64), "-7");
    assert_eq!(format_field(&1234567890123i64), "1234567890123");
    assert_eq!(format_field(&i64::MAX), "9223372036854775807");
    assert_eq!(format_field(&i64::MIN), "-9223372036854775808");
    assert_eq!(format_field(&i32::MIN), "-2147483648");
    assert_eq!(format_field(&42i32), "42");
    assert_eq!(decimal_of(-100), "-100");
    assert_eq!(decimal_of(1000), "1000");
}

#[test]
fn string_slices_are_written_as_literals() {
    assert_eq!(format_field(&"it's"), "'it''s'");
    assert_eq!("".format_sql(), "''");
}

#[test]
fn rows_are_found_and_deleted_by_a_lookup() {
    assert_eq!(find_statement(Lookup::Name), "SELECT * FROM debs WHERE package = ?");
    assert_eq!(find_statement(Lookup::Id), "SELECT * FROM debs WHERE id = ?");
    assert_eq!(
        find_statement(Lookup::NameVersion),
        "SELECT * FROM debs WHERE package = ? AND version = ?"
    );
    assert_eq!(delete_statement(Lookup::Name), "DELETE FROM debs WHERE package = ?");
    assert_eq!(delete_statement(Lookup::Id), "DELETE FROM debs WHERE id = ?");
    assert_eq!(
        delete_statement(Lookup::NameVersion),
        "DELETE FROM debs WHERE package = ? AND version = ?"
    );
    assert_eq!(all_statement(), "SELECT * FROM debs");
}
