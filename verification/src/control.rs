//! The control paragraph of a package: its field table, the typed record,
//! the parser and the writer.

use vstd::prelude::*;
use vstd::std_specs::cmp::PartialEqSpecImpl;
use crate::text;

verus! {

/// How many fields a control record has.
pub const FIELD_COUNT: usize = 21;

/// How many of them, the first ones of the table, a paragraph must give.
pub const REQUIRED_COUNT: usize = 5;

/// The field table: the name of each field, by its place in the record.
/// Names are in canonical form, lower case with `_` for `-`.
pub open spec fn field_name(i: int) -> Seq<char> {
    if i == 0 {
        "package"@
    } else if i == 1 {
        "version"@
    } else if i == 2 {
        "architecture"@
    } else if i == 3 {
        "maintainer"@
    } else if i == 4 {
        "description"@
    } else if i == 5 {
        "depends"@
    } else if i == 6 {
        "pre_depends"@
    } else if i == 7 {
        "provides"@
    } else if i == 8 {
        "section"@
    } else if i == 9 {
        "priority"@
    } else if i == 10 {
        "installed_size"@
    } else if i == 11 {
        "recommends"@
    } else if i == 12 {
        "suggests"@
    } else if i == 13 {
        "enhances"@
    } else if i == 14 {
        "breaks"@
    } else if i == 15 {
        "conflicts"@
    } else if i == 16 {
        "replaces"@
    } else if i == 17 {
        "bugs"@
    } else if i == 18 {
        "license"@
    } else if i == 19 {
        "homepage"@
    } else {
        "origin"@
    }
}

/// The name of field `i` of the table.
pub fn name_of_field(i: usize) -> (name: &'static str)
    requires
        i < FIELD_COUNT,
    ensures
        name@ == field_name(i as int),
{
    if i == 0 {
        "package"
    } else if i == 1 {
        "version"
    } else if i == 2 {
        "architecture"
    } else if i == 3 {
        "maintainer"
    } else if i == 4 {
        "description"
    } else if i == 5 {
        "depends"
    } else if i == 6 {
        "pre_depends"
    } else if i == 7 {
        "provides"
    } else if i == 8 {
        "section"
    } else if i == 9 {
        "priority"
    } else if i == 10 {
        "installed_size"
    } else if i == 11 {
        "recommends"
    } else if i == 12 {
        "suggests"
    } else if i == 13 {
        "enhances"
    } else if i == 14 {
        "breaks"
    } else if i == 15 {
        "conflicts"
    } else if i == 16 {
        "replaces"
    } else if i == 17 {
        "bugs"
    } else if i == 18 {
        "license"
    } else if i == 19 {
        "homepage"
    } else {
        "origin"
    }
}

/// The lower case of a text, as `str::to_lowercase` gives it.
pub uninterp spec fn lowercase_of(s: Seq<char>) -> Seq<char>;

/// A character that is its own lower case beyond doubt: an ASCII small
/// letter, a digit, `_` or `-`.
pub open spec fn is_unchanging(c: char) -> bool {
    'a' <= c <= 'z' || '0' <= c <= '9' || c == '_' || c == '-'
}

/// A text of such characters only.
pub open spec fn all_unchanging(s: Seq<char>) -> bool {
    forall|i: int| 0 <= i < s.len() ==> is_unchanging(#[trigger] s[i])
}

/// Makes a text lower case.
///
/// Trusted: `str::to_lowercase` of the standard library, whose result is a
/// function of the text alone; a text of ASCII small letters, digits, `_`
/// and `-` comes back unchanged.
#[verifier::external_body]
pub(crate) fn lowercase(s: &str) -> (r: String)
    ensures
        r@ == lowercase_of(s@),
        all_unchanging(s@) ==> r@ == s@,
{
    s.to_lowercase()
}

/// The lower case of a key: the key itself where it holds nothing that
/// could change, and else what `str::to_lowercase` gives.
pub open spec fn lowered(key: Seq<char>) -> Seq<char> {
    if all_unchanging(key) {
        key
    } else {
        lowercase_of(key)
    }
}

/// One character of a field name with `_` for `-`.
pub open spec fn canon_char(c: char) -> char {
    if c == '-' {
        '_'
    } else {
        c
    }
}

/// The canonical form of a field name: in lower case, with `_` for `-`.
pub open spec fn canon(key: Seq<char>) -> Seq<char> {
    lowered(key).map_values(|c: char| canon_char(c))
}

/// Computes the canonical form of a field name.
pub fn canonical(key: &str) -> (r: Vec<char>)
    ensures
        r@ == canon(key@),
{
    let low = lowercase(key);
    let v = text::chars_of(low.as_str());
    assert(v@ == lowered(key@));
    let mut r: Vec<char> = Vec::new();
    let mut i: usize = 0;
    while i < v.len()
        invariant
            i <= v.len(),
            r.len() == i,
            forall|j: int| 0 <= j < i ==> #[trigger] r@[j] == canon_char(v@[j]),
        decreases v.len() - i,
    {
        r.push(if v[i] == '-' {
            '_'
        } else {
            v[i]
        });
        i = i + 1;
    }
    assert(r@ =~= canon(key@));
    r
}

/// One control record: the fields that a package's control paragraph gives.
/// The first five are required, the others optional.
#[derive(Clone, Debug)]
pub struct Control {
    pub package: String,
    pub version: String,
    pub architecture: String,
    pub maintainer: String,
    pub description: String,
    pub depends: Option<String>,
    pub pre_depends: Option<String>,
    pub provides: Option<String>,
    pub section: Option<String>,
    pub priority: Option<String>,
    pub installed_size: Option<String>,
    pub recommends: Option<String>,
    pub suggests: Option<String>,
    pub enhances: Option<String>,
    pub breaks: Option<String>,
    pub conflicts: Option<String>,
    pub replaces: Option<String>,
    pub bugs: Option<String>,
    pub license: Option<String>,
    pub homepage: Option<String>,
    pub origin: Option<String>,
}

/// The text of an optional value.
pub open spec fn text_of(value: Option<String>) -> Option<Seq<char>> {
    match value {
        Some(s) => Some(s@),
        None => None,
    }
}

impl Control {
    /// The value of field `i` of the table, where the record has one.
    pub open spec fn value_at(&self, i: int) -> Option<Seq<char>> {
        if i == 0 {
            Some(self.package@)
        } else if i == 1 {
            Some(self.version@)
        } else if i == 2 {
            Some(self.architecture@)
        } else if i == 3 {
            Some(self.maintainer@)
        } else if i == 4 {
            Some(self.description@)
        } else if i == 5 {
            text_of(self.depends)
        } else if i == 6 {
            text_of(self.pre_depends)
        } else if i == 7 {
            text_of(self.provides)
        } else if i == 8 {
            text_of(self.section)
        } else if i == 9 {
            text_of(self.priority)
        } else if i == 10 {
            text_of(self.installed_size)
        } else if i == 11 {
            text_of(self.recommends)
        } else if i == 12 {
            text_of(self.suggests)
        } else if i == 13 {
            text_of(self.enhances)
        } else if i == 14 {
            text_of(self.breaks)
        } else if i == 15 {
            text_of(self.conflicts)
        } else if i == 16 {
            text_of(self.replaces)
        } else if i == 17 {
            text_of(self.bugs)
        } else if i == 18 {
            text_of(self.license)
        } else if i == 19 {
            text_of(self.homepage)
        } else {
            text_of(self.origin)
        }
    }
}

impl View for Control {
    type V = Seq<Option<Seq<char>>>;

    /// A record is the sequence of its values in the order of the field table.
    open spec fn view(&self) -> Seq<Option<Seq<char>>> {
        Seq::new(FIELD_COUNT as nat, |i: int| self.value_at(i))
    }
}

/// The record in which no field has a value.
pub open spec fn no_values() -> Seq<Option<Seq<char>>> {
    Seq::new(FIELD_COUNT as nat, |i: int| None)
}

/// `values` after the pair `key`, `value` has been assigned: the field of
/// that name, if the table has one, takes the value.
pub open spec fn assign(values: Seq<Option<Seq<char>>>, key: Seq<char>, value: Seq<char>) -> Seq<
    Option<Seq<char>>,
> {
    Seq::new(
        FIELD_COUNT as nat,
        |i: int|
            if field_name(i) == key {
                Some(value)
            } else {
                values[i]
            },
    )
}

/// The values that a list of pairs gives: each pair is assigned under the
/// canonical form of its key, in order, so that a later pair replaces an
/// earlier one and a key that the table does not hold changes nothing.
pub open spec fn record_of(pairs: Seq<(Seq<char>, Seq<char>)>) -> Seq<Option<Seq<char>>>
    decreases pairs.len(),
{
    if pairs.len() == 0 {
        no_values()
    } else {
        assign(record_of(pairs.drop_last()), canon(pairs.last().0), pairs.last().1)
    }
}

/// The first required field that has no value.
pub open spec fn first_missing(values: Seq<Option<Seq<char>>>) -> Option<int> {
    if values[0] is None {
        Some(0)
    } else if values[1] is None {
        Some(1)
    } else if values[2] is None {
        Some(2)
    } else if values[3] is None {
        Some(3)
    } else if values[4] is None {
        Some(4)
    } else {
        None
    }
}

/// Why a control paragraph was refused: a required field has no value.
#[derive(Clone, Copy, Debug, PartialEq, Eq)]
pub struct MalformedControl {
    /// The place in the field table of the first required field without a
    /// value.
    pub missing: usize,
}

/// What a list of pairs looks like to the contracts.
pub open spec fn pairs_view(pairs: Seq<(String, String)>) -> Seq<(Seq<char>, Seq<char>)> {
    pairs.map_values(|p: (String, String)| (p.0@, p.1@))
}

/// The texts of a list of optional values.
pub open spec fn slots_view(slots: Seq<Option<String>>) -> Seq<Option<Seq<char>>> {
    slots.map_values(|v: Option<String>| text_of(v))
}

/// Assigns `value` to the slot of the field named `key`, if the table has
/// such a field.
fn assign_slot(slots: &mut Vec<Option<String>>, key: &Vec<char>, value: &String)
    requires
        old(slots).len() == FIELD_COUNT,
    ensures
        final(slots).len() == FIELD_COUNT,
        slots_view(final(slots)@) == assign(slots_view(old(slots)@), key@, value@),
{
    let mut i: usize = 0;
    while i < FIELD_COUNT
        invariant
            i <= FIELD_COUNT,
            slots.len() == FIELD_COUNT,
            old(slots).len() == FIELD_COUNT,
            forall|j: int|
                0 <= j < i ==> text_of(#[trigger] slots@[j]) == assign(
                    slots_view(old(slots)@),
                    key@,
                    value@,
                )[j],
            forall|j: int| i <= j < FIELD_COUNT ==> #[trigger] slots@[j] == old(slots)@[j],
        decreases FIELD_COUNT - i,
    {
        let name = text::chars_of(name_of_field(i));
        if text::same_chars(&name, key) {
            slots.set(i, Some(value.clone()));
        }
        i = i + 1;
    }
    assert(slots_view(slots@) =~= assign(slots_view(old(slots)@), key@, value@));
}

/// Takes the last slot out of a list.
fn take_last(slots: &mut Vec<Option<String>>) -> (r: Option<String>)
    requires
        old(slots).len() > 0,
    ensures
        r == old(slots)@.last(),
        final(slots)@ == old(slots)@.drop_last(),
{
    match slots.pop() {
        Some(v) => v,
        None => None,
    }
}

/// Builds a record from pairs of a field name and a value. Names are taken
/// in their canonical form, so that case does not matter, in or out of
/// ASCII, and `-` stands for `_`; a later pair replaces an earlier one of
/// the same field; a name that the field table does not hold is passed
/// over. The record is refused when a required field is left without a
/// value, and the refusal names the first such field.
pub fn from_map(map: Vec<(String, String)>) -> (r: Result<Control, MalformedControl>)
    ensures
        match r {
            Ok(c) => first_missing(record_of(pairs_view(map@))) is None && c@ == record_of(
                pairs_view(map@),
            ),
            Err(e) => first_missing(record_of(pairs_view(map@))) == Some(e.missing as int),
        },
{
    from_pairs(&map)
}

/// Builds a record from pairs as `from_map` does, leaving the pairs to the
/// caller.
pub fn from_pairs(map: &Vec<(String, String)>) -> (r: Result<Control, MalformedControl>)
    ensures
        match r {
            Ok(c) => first_missing(record_of(pairs_view(map@))) is None && c@ == record_of(
                pairs_view(map@),
            ),
            Err(e) => first_missing(record_of(pairs_view(map@))) == Some(e.missing as int),
        },
{
    let mut slots: Vec<Option<String>> = Vec::new();
    while slots.len() < FIELD_COUNT
        invariant
            slots.len() <= FIELD_COUNT,
            forall|j: int| 0 <= j < slots.len() ==> #[trigger] slots@[j] is None,
        decreases FIELD_COUNT - slots.len(),
    {
        slots.push(None);
    }
    assert(slots_view(slots@) =~= no_values());
    let mut i: usize = 0;
    while i < map.len()
        invariant
            i <= map.len(),
            slots.len() == FIELD_COUNT,
            slots_view(slots@) == record_of(pairs_view(map@).take(i as int)),
        decreases map.len() - i,
    {
        let key = canonical(map[i].0.as_str());
        assert(pairs_view(map@).take(i + 1).drop_last() == pairs_view(map@).take(i as int));
        assign_slot(&mut slots, &key, &map[i].1);
        i = i + 1;
    }
    assert(pairs_view(map@).take(map.len() as int) == pairs_view(map@));
    let ghost values = record_of(pairs_view(map@));
    let mut k: usize = 0;
    while k < REQUIRED_COUNT
        invariant
            k <= REQUIRED_COUNT,
            slots.len() == FIELD_COUNT,
            slots_view(slots@) == values,
            values == record_of(pairs_view(map@)),
            forall|j: int| 0 <= j < k ==> #[trigger] values[j] is Some,
        decreases REQUIRED_COUNT - k,
    {
        assert(values[k as int] == text_of(slots@[k as int]));
        if slots[k].is_none() {
            assert(values[k as int] is None);
            assert(first_missing(values) == Some(k as int));
            return Err(MalformedControl { missing: k });
        }
        k = k + 1;
    }
    assert(forall|j: int| 0 <= j < FIELD_COUNT ==> #[trigger] values[j] == text_of(slots@[j]));
    let v_origin = take_last(&mut slots);
    let v_homepage = take_last(&mut slots);
    let v_license = take_last(&mut slots);
    let v_bugs = take_last(&mut slots);
    let v_replaces = take_last(&mut slots);
    let v_conflicts = take_last(&mut slots);
    let v_breaks = take_last(&mut slots);
    let v_enhances = take_last(&mut slots);
    let v_suggests = take_last(&mut slots);
    let v_recommends = take_last(&mut slots);
    let v_installed_size = take_last(&mut slots);
    let v_priority = take_last(&mut slots);
    let v_section = take_last(&mut slots);
    let v_provides = take_last(&mut slots);
    let v_pre_depends = take_last(&mut slots);
    let v_depends = take_last(&mut slots);
    let v_description = take_last(&mut slots).unwrap();
    let v_maintainer = take_last(&mut slots).unwrap();
    let v_architecture = take_last(&mut slots).unwrap();
    let v_version = take_last(&mut slots).unwrap();
    let v_package = take_last(&mut slots).unwrap();
    let c = Control {
        package: v_package,
        version: v_version,
        architecture: v_architecture,
        maintainer: v_maintainer,
        description: v_description,
        depends: v_depends,
        pre_depends: v_pre_depends,
        provides: v_provides,
        section: v_section,
        priority: v_priority,
        installed_size: v_installed_size,
        recommends: v_recommends,
        suggests: v_suggests,
        enhances: v_enhances,
        breaks: v_breaks,
        conflicts: v_conflicts,
        replaces: v_replaces,
        bugs: v_bugs,
        license: v_license,
        homepage: v_homepage,
        origin: v_origin,
    };
    assert(c@ =~= values);
    Ok(c)
}

/// A line that begins with a space or a tab continues the value before it.
pub open spec fn is_continuation(line: Seq<char>) -> bool {
    line.len() > 0 && (line[0] == ' ' || line[0] == '\t')
}

/// The pairs after one more line of a paragraph. A continuation line adds a
/// line feed and its own trimmed text to the value of the last pair, and is
/// dropped where there is no pair yet. Any other line with a colon opens a
/// pair: the key is what stands before the first colon, the value what
/// follows it, both trimmed. A line without a colon is dropped.
pub open spec fn take_line(pairs: Seq<(Seq<char>, Seq<char>)>, line: Seq<char>) -> Seq<
    (Seq<char>, Seq<char>),
> {
    let k = text::first_index(line, ':');
    if is_continuation(line) {
        if pairs.len() > 0 {
            pairs.drop_last().push(
                (pairs.last().0, pairs.last().1 + seq!['\n'] + text::trim(line)),
            )
        } else {
            pairs
        }
    } else if 0 <= k < line.len() {
        pairs.push((text::trim(line.take(k)), text::trim(line.skip(k + 1))))
    } else {
        pairs
    }
}

/// The pairs that the lines of a paragraph give, taken one after another.
pub open spec fn pairs_of(lines: Seq<Seq<char>>) -> Seq<(Seq<char>, Seq<char>)>
    decreases lines.len(),
{
    if lines.len() == 0 {
        seq![]
    } else {
        take_line(pairs_of(lines.drop_last()), lines.last())
    }
}

/// How many lines at the start of `lines` are all empty (`blank`) or all
/// not empty (`!blank`).
pub open spec fn run_length(lines: Seq<Seq<char>>, blank: bool) -> int
    decreases lines.len(),
{
    if lines.len() > 0 && ((lines[0].len() == 0) == blank) {
        1 + run_length(lines.drop_first(), blank)
    } else {
        0
    }
}

/// The first paragraph of a text: its first run of lines that are not empty.
pub open spec fn first_paragraph(lines: Seq<Seq<char>>) -> Seq<Seq<char>> {
    let rest = lines.skip(run_length(lines, true));
    rest.take(run_length(rest, false))
}

/// The values that the control text `control` gives.
pub open spec fn parsed(control: Seq<char>) -> Seq<Option<Seq<char>>> {
    record_of(pairs_of(first_paragraph(text::lines_of(control))))
}

/// The length of the run of `blank` lines that begins at line `from`.
fn run_from(v: &Vec<char>, bounds: &Vec<(usize, usize)>, from: usize, blank: bool) -> (n: usize)
    requires
        from <= bounds.len(),
        text::bounds_within(bounds@, v.len() as nat),
    ensures
        from + n <= bounds.len(),
        n == run_length(text::cut(v@, bounds@).skip(from as int), blank),
{
    let mut i: usize = from;
    let ghost lines = text::cut(v@, bounds@);
    while i < bounds.len() && ((bounds[i].0 == bounds[i].1) == blank)
        invariant
            from <= i <= bounds.len(),
            lines == text::cut(v@, bounds@),
            text::bounds_within(bounds@, v.len() as nat),
            run_length(lines.skip(from as int), blank) == (i - from) + run_length(
                lines.skip(i as int),
                blank,
            ),
        decreases bounds.len() - i,
    {
        assert(lines.skip(i as int).drop_first() == lines.skip(i + 1));
        assert(lines.skip(i as int)[0] == lines[i as int]);
        i = i + 1;
    }
    proof {
        if i < bounds.len() {
            assert(lines.skip(i as int)[0] == lines[i as int]);
        }
    }
    i - from
}

/// Reads a control text. Only its first paragraph counts: the first run of
/// lines that are not empty. Each `Key: value` line gives a pair, each line
/// that begins with a space or a tab continues the value before it, and the
/// pairs give the record as in `from_map`. The text is refused when a
/// required field is left without a value.
pub fn parse_control(control: String) -> (r: Result<Control, MalformedControl>)
    ensures
        match r {
            Ok(c) => first_missing(parsed(control@)) is None && c@ == parsed(control@),
            Err(e) => first_missing(parsed(control@)) == Some(e.missing as int),
        },
{
    let v = text::chars_of(control.as_str());
    let bounds = text::line_bounds(&v);
    let ghost lines = text::lines_of(v@);
    assert(lines.skip(0) == lines);
    let skipped = run_from(&v, &bounds, 0, true);
    let count = run_from(&v, &bounds, skipped, false);
    let ghost paragraph = first_paragraph(lines);
    let mut pairs: Vec<(String, String)> = Vec::new();
    let mut i: usize = 0;
    assert(paragraph.take(0) == Seq::<Seq<char>>::empty());
    while i < count
        invariant
            i <= count,
            skipped + count <= bounds.len(),
            text::bounds_within(bounds@, v.len() as nat),
            lines == text::cut(v@, bounds@),
            paragraph == lines.skip(skipped as int).take(count as int),
            pairs_view(pairs@) == pairs_of(paragraph.take(i as int)),
        decreases count - i,
    {
        let from = bounds[skipped + i].0;
        let to = bounds[skipped + i].1;
        let ghost line = v@.subrange(from as int, to as int);
        let ghost before = pairs_view(pairs@);
        assert(paragraph.take(i + 1).drop_last() == paragraph.take(i as int));
        assert(paragraph.take(i + 1).last() == line);
        if from < to && (v[from] == ' ' || v[from] == '\t') {
            match pairs.pop() {
                Some(last) => {
                    let (key, mut value) = last;
                    let ghost old_value = value@;
                    let (a, b) = text::trim_bounds(&v, from, to);
                    text::push_char(&mut value, '\n');
                    text::append_chars(&mut value, &v, a, b);
                    assert(value@ == old_value + seq!['\n'] + text::trim(line));
                    assert(before.last() == (key@, old_value));
                    assert(pairs_view(pairs@) == before.drop_last());
                    pairs.push((key, value));
                    assert(pairs_view(pairs@) == before.drop_last().push((key@, value@)));
                    assert(pairs_view(pairs@) == take_line(before, line));
                },
                None => {
                    assert(pairs_view(pairs@) == take_line(before, line));
                },
            }
        } else {
            let k = text::find_char(&v, from, to, ':');
            if k < to {
                let (a, b) = text::trim_bounds(&v, from, k);
                let (c, d) = text::trim_bounds(&v, k + 1, to);
                let key = text::string_of(&v, a, b);
                let value = text::string_of(&v, c, d);
                assert(line.take(k - from) == v@.subrange(from as int, k as int));
                assert(line.skip(k - from + 1) == v@.subrange(k + 1, to as int));
                pairs.push((key, value));
                assert(pairs_view(pairs@) == take_line(before, line));
            }
        }
        i = i + 1;
    }
    assert(paragraph.take(count as int) == paragraph);
    from_map(pairs)
}

/// Tells whether two optional values are the same.
pub fn same_option(a: &Option<String>, b: &Option<String>) -> (r: bool)
    ensures
        r == (text_of(*a) == text_of(*b)),
{
    match (a, b) {
        (Some(x), Some(y)) => same_string(x, y),
        (None, None) => true,
        _ => false,
    }
}

/// Tells whether two strings are the same.
pub fn same_string(a: &String, b: &String) -> (r: bool)
    ensures
        r == (a@ == b@),
{
    text::same_chars(&text::chars_of(a.as_str()), &text::chars_of(b.as_str()))
}

impl PartialEq for Control {
    /// Two records are equal when every field of one has the value that it
    /// has in the other.
    fn eq(&self, other: &Self) -> (r: bool) {
        let r = same_string(&self.package, &other.package) && same_string(&self.version, &other.version) && same_string(&self.architecture, &other.architecture) && same_string(&self.maintainer, &other.maintainer) && same_string(&self.description, &other.description) && same_option(&self.depends, &other.depends) && same_option(&self.pre_depends, &other.pre_depends) && same_option(&self.provides, &other.provides) && same_option(&self.section, &other.section) && same_option(&self.priority, &other.priority) && same_option(&self.installed_size, &other.installed_size) && same_option(&self.recommends, &other.recommends) && same_option(&self.suggests, &other.suggests) && same_option(&self.enhances, &other.enhances) && same_option(&self.breaks, &other.breaks) && same_option(&self.conflicts, &other.conflicts) && same_option(&self.replaces, &other.replaces) && same_option(&self.bugs, &other.bugs) && same_option(&self.license, &other.license) && same_option(&self.homepage, &other.homepage) && same_option(&self.origin, &other.origin);
        proof {
            if r {
                assert(self@ =~= other@);
            } else if self@ == other@ {
                assert(self@[0] == self.value_at(0) && other@[0] == other.value_at(0));
                assert(self@[1] == self.value_at(1) && other@[1] == other.value_at(1));
                assert(self@[2] == self.value_at(2) && other@[2] == other.value_at(2));
                assert(self@[3] == self.value_at(3) && other@[3] == other.value_at(3));
                assert(self@[4] == self.value_at(4) && other@[4] == other.value_at(4));
                assert(self@[5] == self.value_at(5) && other@[5] == other.value_at(5));
                assert(self@[6] == self.value_at(6) && other@[6] == other.value_at(6));
                assert(self@[7] == self.value_at(7) && other@[7] == other.value_at(7));
                assert(self@[8] == self.value_at(8) && other@[8] == other.value_at(8));
                assert(self@[9] == self.value_at(9) && other@[9] == other.value_at(9));
                assert(self@[10] == self.value_at(10) && other@[10] == other.value_at(10));
                assert(self@[11] == self.value_at(11) && other@[11] == other.value_at(11));
                assert(self@[12] == self.value_at(12) && other@[12] == other.value_at(12));
                assert(self@[13] == self.value_at(13) && other@[13] == other.value_at(13));
                assert(self@[14] == self.value_at(14) && other@[14] == other.value_at(14));
                assert(self@[15] == self.value_at(15) && other@[15] == other.value_at(15));
                assert(self@[16] == self.value_at(16) && other@[16] == other.value_at(16));
                assert(self@[17] == self.value_at(17) && other@[17] == other.value_at(17));
                assert(self@[18] == self.value_at(18) && other@[18] == other.value_at(18));
                assert(self@[19] == self.value_at(19) && other@[19] == other.value_at(19));
                assert(self@[20] == self.value_at(20) && other@[20] == other.value_at(20));
            }
        }
        r
    }
}

impl PartialEqSpecImpl for Control {
    open spec fn obeys_eq_spec() -> bool {
        true
    }

    open spec fn eq_spec(&self, other: &Self) -> bool {
        self@ == other@
    }
}

impl Eq for Control {

}

/// A record of the catalog: the control record of an installed package and
/// the paths that its installation made, joined by commas.
#[derive(Clone, Debug)]
pub struct ControlWithData {
    pub ctrl: Control,
    pub installed: String,
}

/// Why a row of the catalog gives no record.
#[derive(Clone, Copy, Debug, PartialEq, Eq)]
pub enum CatalogError {
    /// The query matched no row.
    NotInstalled,
    /// The row has no `installed` column.
    NoInstalled,
    /// The columns of the row give no control record.
    Malformed(MalformedControl),
}

/// The value of the last pair of `pairs` whose key is `key`.
pub open spec fn last_value(pairs: Seq<(Seq<char>, Seq<char>)>, key: Seq<char>) -> Option<
    Seq<char>,
>
    decreases pairs.len(),
{
    if pairs.len() == 0 {
        None
    } else if pairs.last().0 == key {
        Some(pairs.last().1)
    } else {
        last_value(pairs.drop_last(), key)
    }
}

/// What a row of the catalog stores: the control record that its columns
/// give and the value of its column `installed`, where it has that column
/// and no required field is missing.
pub open spec fn stored_record(columns: Seq<(Seq<char>, Seq<char>)>) -> Option<
    (Seq<Option<Seq<char>>>, Seq<char>),
> {
    match last_value(columns, "installed"@) {
        Some(paths) => if first_missing(record_of(columns)) is None {
            Some((record_of(columns), paths))
        } else {
            None
        },
        None => None,
    }
}

/// Why a row stores nothing.
pub open spec fn row_error(columns: Seq<(Seq<char>, Seq<char>)>) -> CatalogError {
    if last_value(columns, "installed"@) is None {
        CatalogError::NoInstalled
    } else {
        CatalogError::Malformed(
            MalformedControl { missing: first_missing(record_of(columns)).unwrap() as usize },
        )
    }
}

impl ControlWithData {
    /// Reads a record from what a query of the catalog gave: no row, or the
    /// columns of the first row that hold text, each with its name. The
    /// paths are the value of the column `installed`; the other columns give
    /// the control record as in `from_map`.
    pub fn from_db(row: Option<Vec<(String, String)>>) -> (r: Result<Self, CatalogError>)
        ensures
            match row {
                None => r == Err::<Self, CatalogError>(CatalogError::NotInstalled),
                Some(columns) => match r {
                    Ok(record) => stored_record(pairs_view(columns@)) == Some(
                        (record.ctrl@, record.installed@),
                    ),
                    Err(e) => stored_record(pairs_view(columns@)) is None && e == row_error(
                        pairs_view(columns@),
                    ),
                },
            },
    {
        match row {
            Some(columns) => Self::from_row(&columns),
            None => Err(CatalogError::NotInstalled),
        }
    }

    /// Reads a record from the columns of one row that hold text, each with
    /// its name.
    pub fn from_row(columns: &Vec<(String, String)>) -> (r: Result<Self, CatalogError>)
        ensures
            match r {
                Ok(record) => stored_record(pairs_view(columns@)) == Some(
                    (record.ctrl@, record.installed@),
                ),
                Err(e) => stored_record(pairs_view(columns@)) is None && e == row_error(
                    pairs_view(columns@),
                ),
            },
    {
        let ghost pairs = pairs_view(columns@);
        let wanted = text::chars_of("installed");
        let mut i: usize = columns.len();
        let mut installed: Option<String> = None;
        assert(pairs.take(i as int) == pairs);
        while i > 0
            invariant_except_break
                installed is None,
                last_value(pairs, "installed"@) == last_value(pairs.take(i as int), "installed"@),
            invariant
                i <= columns.len(),
                pairs == pairs_view(columns@),
                wanted@ == "installed"@,
            ensures
                text_of(installed) == last_value(pairs, "installed"@),
            decreases i,
        {
            assert(pairs.take(i as int).drop_last() == pairs.take(i - 1));
            assert(pairs.take(i as int).last() == pairs[i - 1]);
            let name = text::chars_of(columns[i - 1].0.as_str());
            if text::same_chars(&name, &wanted) {
                installed = Some(columns[i - 1].1.clone());
                break ;
            }
            i = i - 1;
        }
        let installed = match installed {
            Some(paths) => paths,
            None => {
                return Err(CatalogError::NoInstalled);
            },
        };
        match from_pairs(columns) {
            Ok(ctrl) => Ok(ControlWithData { ctrl, installed }),
            Err(e) => Err(CatalogError::Malformed(e)),
        }
    }
}

/// A copy of an optional value.
pub fn copy_of(value: &Option<String>) -> (r: Option<String>)
    ensures
        text_of(r) == text_of(*value),
{
    match value {
        Some(s) => Some(s.clone()),
        None => None,
    }
}

/// The pairs of a name of the field table and a value that the first `n`
/// fields of a record give: one for each field that has a value, in the
/// order of the table.
pub open spec fn pairs_upto(values: Seq<Option<Seq<char>>>, n: int) -> Seq<(Seq<char>, Seq<char>)>
    decreases n,
{
    if n <= 0 {
        seq![]
    } else {
        match values[n - 1] {
            Some(v) => pairs_upto(values, n - 1).push((field_name(n - 1), v)),
            None => pairs_upto(values, n - 1),
        }
    }
}

/// The pairs that a record gives.
pub open spec fn own_pairs(values: Seq<Option<Seq<char>>>) -> Seq<(Seq<char>, Seq<char>)> {
    pairs_upto(values, FIELD_COUNT as int)
}

impl Control {
    /// A copy of the value of field `i` of the table.
    pub fn value(&self, i: usize) -> (r: Option<String>)
        requires
            i < FIELD_COUNT,
        ensures
            text_of(r) == self.value_at(i as int),
    {
        if i == 0 {
            Some(self.package.clone())
        } else if i == 1 {
            Some(self.version.clone())
        } else if i == 2 {
            Some(self.architecture.clone())
        } else if i == 3 {
            Some(self.maintainer.clone())
        } else if i == 4 {
            Some(self.description.clone())
        } else if i == 5 {
            copy_of(&self.depends)
        } else if i == 6 {
            copy_of(&self.pre_depends)
        } else if i == 7 {
            copy_of(&self.provides)
        } else if i == 8 {
            copy_of(&self.section)
        } else if i == 9 {
            copy_of(&self.priority)
        } else if i == 10 {
            copy_of(&self.installed_size)
        } else if i == 11 {
            copy_of(&self.recommends)
        } else if i == 12 {
            copy_of(&self.suggests)
        } else if i == 13 {
            copy_of(&self.enhances)
        } else if i == 14 {
            copy_of(&self.breaks)
        } else if i == 15 {
            copy_of(&self.conflicts)
        } else if i == 16 {
            copy_of(&self.replaces)
        } else if i == 17 {
            copy_of(&self.bugs)
        } else if i == 18 {
            copy_of(&self.license)
        } else if i == 19 {
            copy_of(&self.homepage)
        } else {
            copy_of(&self.origin)
        }
    }

    /// The values of the record in the order of the field table.
    pub fn values(&self) -> (slots: Vec<Option<String>>)
        ensures
            slots.len() == FIELD_COUNT,
            slots_view(slots@) == self@,
    {
        let mut slots: Vec<Option<String>> = Vec::new();
        let mut i: usize = 0;
        while i < FIELD_COUNT
            invariant
                i <= FIELD_COUNT,
                slots.len() == i,
                forall|j: int| 0 <= j < i ==> text_of(#[trigger] slots@[j]) == self.value_at(j),
            decreases FIELD_COUNT - i,
        {
            slots.push(self.value(i));
            i = i + 1;
        }
        assert(slots_view(slots@) =~= self@);
        slots
    }

    /// The names of the fields in the order of the field table.
    pub fn fields() -> (names: Vec<String>)
        ensures
            names.len() == FIELD_COUNT,
            forall|i: int| 0 <= i < FIELD_COUNT ==> (#[trigger] names@[i])@ == field_name(i),
    {
        let mut names: Vec<String> = Vec::new();
        let mut i: usize = 0;
        while i < FIELD_COUNT
            invariant
                i <= FIELD_COUNT,
                names.len() == i,
                forall|j: int| 0 <= j < i ==> (#[trigger] names@[j])@ == field_name(j),
            decreases FIELD_COUNT - i,
        {
            names.push(name_of_field(i).to_owned());
            i = i + 1;
        }
        names
    }

    /// The fields that have a value, each with its name, in the order of
    /// the field table.
    pub fn pairs(&self) -> (pairs: Vec<(String, String)>)
        ensures
            pairs_view(pairs@) == own_pairs(self@),
    {
        let mut slots = self.values();
        let ghost values = self@;
        let mut pairs: Vec<(String, String)> = Vec::new();
        let mut i: usize = 0;
        while i < FIELD_COUNT
            invariant
                i <= FIELD_COUNT,
                slots.len() == FIELD_COUNT,
                values.len() == FIELD_COUNT,
                slots_view(slots@) == values,
                pairs_view(pairs@) == pairs_upto(values, i as int),
            decreases FIELD_COUNT - i,
        {
            assert(values[i as int] == text_of(slots@[i as int]));
            match copy_of(&slots[i]) {
                Some(v) => {
                    let ghost before = pairs_view(pairs@);
                    pairs.push((name_of_field(i).to_owned(), v));
                    assert(pairs_view(pairs@) == before.push((field_name(i as int), v@)));
                },
                None => {},
            }
            i = i + 1;
        }
        pairs
    }
}

} // verus!
