//! The catalog of installed packages as text: the columns of its table, the
//! statements that reach it, and values written as SQL literals.

use vstd::prelude::*;
use vstd::string::StringExecFns;
use crate::control;
use crate::control::Control;
use crate::control::FIELD_COUNT;
use crate::emit;
use crate::text;

verus! {

/// One character of a value inside a literal: a single quote is doubled.
pub open spec fn escaped(c: char) -> Seq<char> {
    if c == '\'' {
        seq!['\'', '\'']
    } else {
        seq![c]
    }
}

/// A value with each single quote doubled.
pub open spec fn doubled(s: Seq<char>) -> Seq<char>
    decreases s.len(),
{
    if s.len() == 0 {
        seq![]
    } else {
        escaped(s[0]) + doubled(s.drop_first())
    }
}

/// A value as an SQL literal: between single quotes, its own single quotes
/// doubled.
pub open spec fn quoted(s: Seq<char>) -> Seq<char> {
    seq!['\''] + doubled(s) + seq!['\'']
}

/// The value that the inside of a literal stands for: a doubled quote is
/// one quote, and a quote alone is a mistake.
pub open spec fn undoubled(s: Seq<char>) -> Option<Seq<char>>
    decreases s.len(),
{
    if s.len() == 0 {
        Some(seq![])
    } else if s[0] != '\'' {
        match undoubled(s.drop_first()) {
            Some(rest) => Some(seq![s[0]] + rest),
            None => None,
        }
    } else if s.len() >= 2 && s[1] == '\'' {
        match undoubled(s.skip(2)) {
            Some(rest) => Some(seq!['\''] + rest),
            None => None,
        }
    } else {
        None
    }
}

/// The value that a literal stands for.
pub open spec fn unquoted(s: Seq<char>) -> Option<Seq<char>> {
    if s.len() >= 2 && s[0] == '\'' && s.last() == '\'' {
        undoubled(s.subrange(1, s.len() - 1))
    } else {
        None
    }
}

/// Doubling one more character.
pub proof fn lemma_doubled_push(s: Seq<char>, c: char)
    ensures
        doubled(s.push(c)) == doubled(s) + escaped(c),
    decreases s.len(),
{
    if s.len() == 0 {
        assert(s.push(c).drop_first() =~= s);
        assert(doubled(s.push(c)) =~= doubled(s) + escaped(c));
    } else {
        lemma_doubled_push(s.drop_first(), c);
        assert(s.push(c).drop_first() =~= s.drop_first().push(c));
        assert(doubled(s.push(c)) =~= doubled(s) + escaped(c));
    }
}

/// A literal stands for the value it was written from, whatever the value.
pub proof fn lemma_unquoted_quoted(s: Seq<char>)
    ensures
        unquoted(quoted(s)) == Some(s),
{
    lemma_undoubled_doubled(s);
    let q = quoted(s);
    assert(q.subrange(1, q.len() - 1) =~= doubled(s));
}

/// Doubling quotes loses nothing.
pub proof fn lemma_undoubled_doubled(s: Seq<char>)
    ensures
        undoubled(doubled(s)) == Some(s),
    decreases s.len(),
{
    if s.len() > 0 {
        let d = doubled(s);
        let rest = doubled(s.drop_first());
        lemma_undoubled_doubled(s.drop_first());
        if s[0] == '\'' {
            assert(d.skip(2) =~= rest);
            assert(d[0] == '\'' && d[1] == '\'');
            assert(seq!['\''] + s.drop_first() =~= s);
        } else {
            assert(d.drop_first() =~= rest);
            assert(d[0] == s[0]);
            assert(seq![s[0]] + s.drop_first() =~= s);
        }
    }
}

/// Writes a value as an SQL literal.
pub fn quote(value: &str) -> (r: String)
    ensures
        r@ == quoted(value@),
{
    let v = text::chars_of(value);
    let mut r = String::new();
    text::push_char(&mut r, '\'');
    let mut i: usize = 0;
    assert(v@.take(0) =~= Seq::<char>::empty());
    while i < v.len()
        invariant
            i <= v.len(),
            r@ == seq!['\''] + doubled(v@.take(i as int)),
        decreases v.len() - i,
    {
        proof {
            lemma_doubled_push(v@.take(i as int), v@[i as int]);
            assert(v@.take(i as int).push(v@[i as int]) =~= v@.take(i + 1));
        }
        if v[i] == '\'' {
            text::push_char(&mut r, '\'');
            text::push_char(&mut r, '\'');
        } else {
            text::push_char(&mut r, v[i]);
        }
        assert(r@ =~= seq!['\''] + doubled(v@.take(i + 1)));
        i = i + 1;
    }
    assert(v@.take(v.len() as int) =~= v@);
    text::push_char(&mut r, '\'');
    r
}

/// A value that can stand in a statement.
pub trait SqlFormat {
    /// The value as it stands in a statement.
    spec fn sql(&self) -> Seq<char>;

    /// Writes the value as it stands in a statement.
    fn format_sql(&self) -> (r: String)
        ensures
            r@ == self.sql(),
    ;
}

impl SqlFormat for String {
    open spec fn sql(&self) -> Seq<char> {
        quoted(self@)
    }

    fn format_sql(&self) -> (r: String) {
        quote(self.as_str())
    }
}

impl SqlFormat for Option<String> {
    open spec fn sql(&self) -> Seq<char> {
        match self {
            Some(s) => quoted(s@),
            None => "NULL"@,
        }
    }

    fn format_sql(&self) -> (r: String) {
        match self {
            Some(s) => quote(s.as_str()),
            None => "NULL".to_owned(),
        }
    }
}

impl SqlFormat for &str {
    open spec fn sql(&self) -> Seq<char> {
        quoted(self@)
    }

    fn format_sql(&self) -> (r: String) {
        quote(*self)
    }
}

/// The character of a decimal digit.
pub open spec fn digit_char(d: int) -> char {
    ((48 + d) as u8) as char
}

/// A number in decimal digits, without leading zeros.
pub open spec fn digits_of(n: nat) -> Seq<char>
    decreases n,
{
    if n < 10 {
        seq![digit_char(n as int)]
    } else {
        digits_of(n / 10).push(digit_char((n % 10) as int))
    }
}

/// An integer in decimal digits, behind a minus sign where it is negative.
pub open spec fn decimal(i: int) -> Seq<char> {
    if i < 0 {
        seq!['-'] + digits_of((-i) as nat)
    } else {
        digits_of(i as nat)
    }
}

/// Appends a number in decimal digits.
fn push_digits(s: &mut String, n: u64)
    ensures
        final(s)@ == old(s)@ + digits_of(n as nat),
    decreases n,
{
    if n >= 10 {
        push_digits(s, n / 10);
    }
    let digit = ((48 + n % 10) as u8) as char;
    text::push_char(s, digit);
    assert(s@ =~= old(s)@ + digits_of(n as nat));
}

/// Writes an integer in decimal digits.
pub fn decimal_of(value: i64) -> (r: String)
    ensures
        r@ == decimal(value as int),
{
    let mut r = String::new();
    if value < 0 {
        text::push_char(&mut r, '-');
        let magnitude: u64 = ((-(value + 1)) as u64) + 1;
        push_digits(&mut r, magnitude);
    } else {
        push_digits(&mut r, value as u64);
        assert(r@ =~= digits_of(value as nat));
    }
    r
}

impl SqlFormat for i64 {
    open spec fn sql(&self) -> Seq<char> {
        decimal(*self as int)
    }

    fn format_sql(&self) -> (r: String) {
        decimal_of(*self)
    }
}

impl SqlFormat for i32 {
    open spec fn sql(&self) -> Seq<char> {
        decimal(*self as int)
    }

    fn format_sql(&self) -> (r: String) {
        decimal_of(*self as i64)
    }
}

/// Writes a field as it stands in a statement.
pub fn format_field<T: SqlFormat>(field: &T) -> (r: String)
    ensures
        r@ == field.sql(),
{
    field.format_sql()
}

/// The names of the field table.
pub open spec fn field_names() -> Seq<Seq<char>> {
    Seq::new(FIELD_COUNT as nat, |i: int| control::field_name(i))
}

/// The values of a record as they stand in a statement.
pub open spec fn sql_values(values: Seq<Option<Seq<char>>>) -> Seq<Seq<char>> {
    values.map_values(
        |v: Option<Seq<char>>|
            match v {
                Some(s) => quoted(s),
                None => "NULL"@,
            },
    )
}

impl Control {
    /// The columns of the table that hold a record, joined by `, `.
    pub fn sql_fields() -> (r: String)
        ensures
            r@ == text::joined(field_names(), ", "@),
    {
        let names = Control::fields();
        assert(text::texts_of(names@) =~= field_names());
        text::join(&names, ", ")
    }

    /// The columns of a record and its values as they stand in a statement,
    /// each list joined by `, `.
    pub fn populate_sql(&self) -> (r: (String, String))
        ensures
            r.0@ == text::joined(field_names(), ", "@),
            r.1@ == text::joined(sql_values(self@), ", "@),
    {
        let slots = self.values();
        let mut vals: Vec<String> = Vec::new();
        let mut i: usize = 0;
        while i < slots.len()
            invariant
                i <= slots.len(),
                vals.len() == i,
                control::slots_view(slots@) == self@,
                forall|j: int| 0 <= j < i ==> (#[trigger] vals@[j])@ == sql_values(self@)[j],
            decreases slots.len() - i,
        {
            assert(self@[i as int] == control::text_of(slots@[i as int]));
            vals.push(format_field(&slots[i]));
            i = i + 1;
        }
        assert(text::texts_of(vals@) =~= sql_values(self@));
        (Control::sql_fields(), text::join(&vals, ", "))
    }

    /// The value of the field of the given name as it stands in a
    /// statement, where the table has a field of that name.
    pub fn field(&self, field_name: &str) -> (r: Option<String>)
        ensures
            match r {
                Some(v) => exists|i: int|
                    0 <= i < FIELD_COUNT && control::field_name(i) == field_name@ && v@
                        == sql_values(self@)[i],
                None => forall|i: int| 0 <= i < FIELD_COUNT ==> control::field_name(i) != field_name@,
            },
    {
        let wanted = text::chars_of(field_name);
        let mut i: usize = 0;
        while i < FIELD_COUNT
            invariant
                i <= FIELD_COUNT,
                wanted@ == field_name@,
                forall|j: int| 0 <= j < i ==> control::field_name(j) != field_name@,
            decreases FIELD_COUNT - i,
        {
            let name = text::chars_of(control::name_of_field(i));
            if text::same_chars(&name, &wanted) {
                let value = self.value(i);
                assert(self@[i as int] == control::text_of(value));
                return Some(format_field(&value));
            }
            i = i + 1;
        }
        None
    }
}

/// The statement that makes the table of the catalog unless it is there:
/// an id, one column for each field of the table, and the installed paths.
pub fn create_statement() -> (r: String)
    ensures
        r@ == "CREATE TABLE IF NOT EXISTS debs (id INTEGER PRIMARY KEY, "@ + text::joined(
            field_names(),
            ", "@,
        ) + ", installed TEXT)"@,
{
    String::from_str("CREATE TABLE IF NOT EXISTS debs (id INTEGER PRIMARY KEY, ").concat(
        Control::sql_fields().as_str(),
    ).concat(", installed TEXT)")
}

/// The statement that finds the rows of a package by its name and its
/// version, which are bound to its two parameters; the id of a row is its
/// first column.
pub fn select_statement() -> (r: String)
    ensures
        r@ == "SELECT id, "@ + text::joined(field_names(), ", "@)
            + ", installed FROM debs WHERE package = ? AND version = ?"@,
{
    String::from_str("SELECT id, ").concat(Control::sql_fields().as_str()).concat(
        ", installed FROM debs WHERE package = ? AND version = ?",
    )
}

/// How rows of the catalog are found and deleted.
#[derive(Clone, Copy, Debug, PartialEq, Eq, Structural)]
pub enum Lookup {
    /// By the name and the version of the package, bound to two parameters.
    NameVersion,
    /// By the name of the package, bound to one parameter.
    Name,
    /// By the id of the row, bound to one parameter.
    Id,
}

/// The condition of a lookup.
pub open spec fn condition_of(lookup: Lookup) -> Seq<char> {
    match lookup {
        Lookup::NameVersion => "package = ? AND version = ?"@,
        Lookup::Name => "package = ?"@,
        Lookup::Id => "id = ?"@,
    }
}

/// Writes the condition of a lookup.
pub fn condition(lookup: Lookup) -> (r: &'static str)
    ensures
        r@ == condition_of(lookup),
{
    match lookup {
        Lookup::NameVersion => "package = ? AND version = ?",
        Lookup::Name => "package = ?",
        Lookup::Id => "id = ?",
    }
}

/// The statement that finds whole rows by a lookup.
pub fn find_statement(lookup: Lookup) -> (r: String)
    ensures
        r@ == "SELECT * FROM debs WHERE "@ + condition_of(lookup),
{
    String::from_str("SELECT * FROM debs WHERE ").concat(condition(lookup))
}

/// The statement that deletes rows by a lookup.
pub fn delete_statement(lookup: Lookup) -> (r: String)
    ensures
        r@ == "DELETE FROM debs WHERE "@ + condition_of(lookup),
{
    String::from_str("DELETE FROM debs WHERE ").concat(condition(lookup))
}

/// The statement that yields every row.
pub fn all_statement() -> (r: String)
    ensures
        r@ == "SELECT * FROM debs"@,
{
    String::from_str("SELECT * FROM debs")
}

/// The parameters of a statement with `n` of them: question marks joined
/// by `, `.
pub open spec fn question_marks(n: nat) -> Seq<char> {
    text::joined(Seq::new(n, |i: int| seq!['?']), ", "@)
}

/// The statement that adds a record; the values of the record, in the
/// order of the field table, and the installed paths are bound to its
/// parameters.
pub fn insert_statement() -> (r: String)
    ensures
        r@ == "INSERT INTO debs ("@ + text::joined(field_names(), ", "@)
            + ", installed) VALUES ("@ + question_marks((FIELD_COUNT + 1) as nat) + ")"@,
{
    let mut marks: Vec<String> = Vec::new();
    let mut i: usize = 0;
    while i < FIELD_COUNT + 1
        invariant
            i <= FIELD_COUNT + 1,
            marks.len() == i,
            forall|j: int| 0 <= j < i ==> (#[trigger] marks@[j])@ == seq!['?'],
        decreases FIELD_COUNT + 1 - i,
    {
        let mark = "?".to_owned();
        proof {
            reveal_strlit("?");
        }
        assert(mark@ =~= seq!['?']);
        marks.push(mark);
        i = i + 1;
    }
    assert(text::texts_of(marks@) =~= Seq::new((FIELD_COUNT + 1) as nat, |i: int| seq!['?']));
    String::from_str("INSERT INTO debs (").concat(Control::sql_fields().as_str()).concat(
        ", installed) VALUES (",
    ).concat(text::join(&marks, ", ").as_str()).concat(")")
}

/// The values bound to the parameters of the statement that adds a record:
/// those of the record in the order of the field table, none for a field
/// without a value, and the installed paths last.
pub fn insert_values(ctrl: &Control, installed: &str) -> (r: Vec<Option<String>>)
    ensures
        control::slots_view(r@) == ctrl@.push(Some(installed@)),
{
    let mut r = ctrl.values();
    let ghost before = control::slots_view(r@);
    r.push(Some(installed.to_owned()));
    assert(control::slots_view(r@) =~= before.push(Some(installed@)));
    r
}

/// The columns of a row that holds a record: the fields that have a value,
/// each under its name, and the installed paths.
pub open spec fn stored_row(values: Seq<Option<Seq<char>>>, installed: Seq<char>) -> Seq<
    (Seq<char>, Seq<char>),
> {
    control::own_pairs(values).push(("installed"@, installed))
}

/// What is stored is what is read: the row that holds a record gives that
/// record and those installed paths back.
pub proof fn lemma_stored_is_read(values: Seq<Option<Seq<char>>>, installed: Seq<char>)
    requires
        values.len() == FIELD_COUNT,
    ensures
        control::record_of(stored_row(values, installed)) == values,
        control::last_value(stored_row(values, installed), "installed"@) == Some(installed),
{
    let row = stored_row(values, installed);
    emit::lemma_record_of_own_pairs(values);
    assert(row.drop_last() =~= control::own_pairs(values));
    assert(row.last() == ("installed"@, installed));
    assert(emit::small_from("installed"@, 0) && "installed"@.len() == 9) by {
        reveal_strlit("installed");
        reveal_with_fuel(emit::small_from, 11);
    }
    emit::lemma_small("installed"@, 0);
    emit::lemma_plain_name("installed"@);
    assert forall|i: int| 0 <= i < FIELD_COUNT implies control::field_name(i) != "installed"@ by {
        reveal_strlit("installed");
    reveal_strlit("package");
    reveal_strlit("version");
    reveal_strlit("architecture");
    reveal_strlit("maintainer");
    reveal_strlit("description");
    reveal_strlit("depends");
    reveal_strlit("pre_depends");
    reveal_strlit("provides");
    reveal_strlit("section");
    reveal_strlit("priority");
    reveal_strlit("installed_size");
    reveal_strlit("recommends");
    reveal_strlit("suggests");
    reveal_strlit("enhances");
    reveal_strlit("breaks");
    reveal_strlit("conflicts");
    reveal_strlit("replaces");
    reveal_strlit("bugs");
    reveal_strlit("license");
    reveal_strlit("homepage");
    reveal_strlit("origin");
        let a = control::field_name(i);
        if a == "installed"@ {
            assert(a.len() == 9);
            assert(a[0] == 'i');
        }
    }
    assert(control::record_of(row) =~= values);
}

} // verus!
