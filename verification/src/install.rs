//! The rules of installing and removing a package: which input is taken,
//! where each file of the payload goes, what happens to a symbolic link,
//! which paths are recorded, and which are removed again.

use vstd::prelude::*;
use crate::control::Control;
use crate::control::ControlWithData;
use crate::control::CatalogError;
use crate::control::MalformedControl;
use crate::catalog;
use crate::extract;
use crate::text;

verus! {

/// What a path of the file system is.
#[derive(Clone, Copy, Debug, PartialEq, Eq, Structural)]
pub enum FileKind {
    Directory,
    Symlink,
    File,
    Other,
}

/// Why an input is not taken.
#[derive(Clone, Copy, Debug, PartialEq, Eq, Structural)]
pub enum BadInput {
    /// Nothing exists at the path.
    Missing,
    /// The extension of the path is not `deb`.
    NotDeb,
}

/// The place of the last `c` in `s`, or -1.
pub open spec fn last_index(s: Seq<char>, c: char) -> int
    decreases s.len(),
{
    if s.len() == 0 {
        -1
    } else if s.last() == c {
        s.len() - 1
    } else {
        last_index(s.drop_last(), c)
    }
}

/// The extension of a path: what follows the last dot of its base name,
/// where that dot is not the first character. The base name `..` has none.
pub open spec fn extension_of(path: Seq<char>) -> Option<Seq<char>> {
    match extract::base_name(path) {
        Some(base) => if base != seq!['.', '.'] && last_index(base, '.') > 0 {
            Some(base.skip(last_index(base, '.') + 1))
        } else {
            None
        },
        None => None,
    }
}

/// A package file is one whose extension is `deb`.
pub open spec fn is_deb(path: Seq<char>) -> bool {
    extension_of(path) == Some("deb"@)
}

/// Decides whether a path has the extension `deb`.
pub fn has_deb_extension(path: &str) -> (r: bool)
    ensures
        r == is_deb(path@),
{
    let v = text::chars_of(path);
    match extract::base_bounds(&v) {
        Some(b) => {
            let ghost base = v@.subrange(b.0 as int, b.1 as int);
            let mut k: usize = b.1;
            assert(base.take((k - b.0) as int) == base);
            while k > b.0 && v[k - 1] != '.'
                invariant
                    b.0 <= k <= b.1 <= v.len(),
                    base == v@.subrange(b.0 as int, b.1 as int),
                    last_index(base, '.') == last_index(base.take(k - b.0), '.'),
                decreases k,
            {
                assert(base.take(k - b.0).drop_last() == base.take(k - b.0 - 1));
                k = k - 1;
            }
            // `k` is just behind the last dot, or at the start where there is none.
            if b.1 - b.0 == 2 && v[b.0] == '.' && v[b.0 + 1] == '.' {
                assert(base =~= seq!['.', '.']);
                return false;
            }
            assert(base != seq!['.', '.']) by {
                if base == seq!['.', '.'] {
                    assert(base[0] == '.' && base[1] == '.');
                }
            }
            if k - b.0 <= 1 {
                return false;
            }
            assert(last_index(base, '.') == k - b.0 - 1);
            assert(base.skip(k - b.0) == v@.subrange(k as int, b.1 as int));
            text::is_text(&v, k, b.1, "deb")
        },
        None => false,
    }
}

/// What `check_input` answers: the path must exist and have the extension
/// `deb`.
pub open spec fn checked(path: Seq<char>, present: bool) -> Result<(), BadInput> {
    if !present {
        Err(BadInput::Missing)
    } else if !is_deb(path) {
        Err(BadInput::NotDeb)
    } else {
        Ok(())
    }
}

/// Takes or refuses the input of a command. `present` tells whether
/// anything exists at the path.
pub fn check_input(path: &str, present: bool) -> (r: Result<(), BadInput>)
    ensures
        r == checked(path@, present),
{
    if !present {
        Err(BadInput::Missing)
    } else if !has_deb_extension(path) {
        Err(BadInput::NotDeb)
    } else {
        Ok(())
    }
}

/// Where a path of the unpacked payload goes: the path as it stands below
/// `root`, from the root of the file system. The root itself, with or
/// without slashes at its end, and a path that does not lie below it, go
/// nowhere.
pub open spec fn destination_of(root: Seq<char>, path: Seq<char>) -> Option<Seq<char>> {
    let base = text::drop_trailing(root, '/');
    let rest = path.skip(base.len() as int);
    if path.len() > base.len() && path.take(base.len() as int) == base && path[base.len() as int]
        == '/' && text::drop_trailing(rest, '/').len() > 0 {
        Some(rest)
    } else {
        None
    }
}

/// What is done to place one path of the payload.
#[derive(Clone, Copy, Debug, PartialEq, Eq, Structural)]
pub enum PlaceAction {
    /// Make the directory and those above it.
    MakeDirectory,
    /// Make a symbolic link with the target of the source.
    Link,
    /// Copy the bytes of the source.
    CopyFile,
}

/// The action that a kind of source calls for.
pub open spec fn action_for(kind: FileKind) -> PlaceAction {
    match kind {
        FileKind::Directory => PlaceAction::MakeDirectory,
        FileKind::Symlink => PlaceAction::Link,
        FileKind::File => PlaceAction::CopyFile,
        FileKind::Other => PlaceAction::CopyFile,
    }
}

/// The placing of one path of the payload.
pub struct Placement {
    pub dest: String,
    pub action: PlaceAction,
}

/// Decides where a path of the unpacked payload goes and what is done
/// there. Every destination is absolute.
pub fn place(root: &str, path: &str, kind: FileKind) -> (r: Option<Placement>)
    ensures
        match r {
            Some(p) => destination_of(root@, path@) == Some(p.dest@) && p.action == action_for(
                kind,
            ) && p.dest@.len() > 0 && p.dest@[0] == '/',
            None => destination_of(root@, path@) is None,
        },
{
    let r = text::chars_of(root);
    let v = text::chars_of(path);
    assert(r@.subrange(0, r.len() as int) == r@);
    let n = text::trailing_bound(&r, 0, r.len(), '/');
    let ghost base = r@.subrange(0, n as int);
    if v.len() <= n {
        return None;
    }
    let mut i: usize = 0;
    while i < n
        invariant
            i <= n <= r.len(),
            n < v.len(),
            base == r@.subrange(0, n as int),
            base == text::drop_trailing(root@, '/'),
            v@ == path@,
            forall|j: int| 0 <= j < i ==> v@[j] == r@[j],
        decreases n - i,
    {
        if v[i] != r[i] {
            assert(v@.take(n as int)[i as int] != base[i as int]);
            return None;
        }
        i = i + 1;
    }
    assert(v@.take(n as int) =~= base);
    if v[n] != '/' {
        return None;
    }
    assert(v@.skip(n as int) == v@.subrange(n as int, v.len() as int));
    if text::trailing_bound(&v, n, v.len(), '/') == n {
        assert(v@.subrange(n as int, n as int).len() == 0);
        return None;
    }
    let dest = text::string_of(&v, n, v.len());
    let action = match kind {
        FileKind::Directory => PlaceAction::MakeDirectory,
        FileKind::Symlink => PlaceAction::Link,
        FileKind::File => PlaceAction::CopyFile,
        FileKind::Other => PlaceAction::CopyFile,
    };
    Some(Placement { dest, action })
}

/// One path found below the unpacked payload, and whether it was placed.
pub struct Walked {
    pub path: String,
    pub kind: FileKind,
    pub placed: bool,
}

/// The destinations that installing records: those of the paths that were
/// placed, in the order in which they were found. A path that goes nowhere,
/// and one that was skipped or failed, is not recorded.
pub open spec fn recorded(root: Seq<char>, walked: Seq<Walked>) -> Seq<Seq<char>>
    decreases walked.len(),
{
    if walked.len() == 0 {
        seq![]
    } else {
        let before = recorded(root, walked.drop_last());
        match destination_of(root, walked.last().path@) {
            Some(dest) => if walked.last().placed {
                before.push(dest)
            } else {
                before
            },
            None => before,
        }
    }
}

/// Lists the destinations that installing records, from the paths found
/// below the payload directory `root` and what became of each.
pub fn copy(root: &str, walked: &Vec<Walked>) -> (r: Vec<String>)
    ensures
        text::texts_of(r@) == recorded(root@, walked@),
        forall|i: int| 0 <= i < r.len() ==> (#[trigger] r@[i])@.len() > 0 && r@[i]@[0] == '/',
{
    let mut r: Vec<String> = Vec::new();
    let mut i: usize = 0;
    assert(walked@.take(0) =~= Seq::<Walked>::empty());
    while i < walked.len()
        invariant
            i <= walked.len(),
            text::texts_of(r@) == recorded(root@, walked@.take(i as int)),
            forall|j: int| 0 <= j < r.len() ==> (#[trigger] r@[j])@.len() > 0 && r@[j]@[0] == '/',
        decreases walked.len() - i,
    {
        assert(walked@.take(i + 1).drop_last() =~= walked@.take(i as int));
        assert(walked@.take(i + 1).last() == walked@[i as int]);
        match place(root, walked[i].path.as_str(), walked[i].kind) {
            Some(placement) => {
                if walked[i].placed {
                    let ghost before = text::texts_of(r@);
                    r.push(placement.dest);
                    assert(text::texts_of(r@) =~= before.push(placement.dest@));
                }
            },
            None => {},
        }
        i = i + 1;
    }
    assert(walked@.take(walked.len() as int) =~= walked@);
    r
}

/// What is done with a symbolic link of the payload.
#[derive(Clone, Copy, Debug, PartialEq, Eq, Structural)]
pub enum LinkAction {
    /// Leave the destination as it is and warn.
    Skip,
    /// Remove the file at the destination, then make the link.
    Replace,
    /// Make the link.
    Create,
}

/// The rule for a symbolic link: a directory at the destination stays and
/// the link is skipped; anything else there is replaced.
pub open spec fn link_rule(present: bool, is_dir: bool) -> LinkAction {
    if present && is_dir {
        LinkAction::Skip
    } else if present {
        LinkAction::Replace
    } else {
        LinkAction::Create
    }
}

/// Decides what is done with a symbolic link, given whether anything
/// exists at its destination and whether that is a directory.
pub fn link_action(present: bool, is_dir: bool) -> (r: LinkAction)
    ensures
        r == link_rule(present, is_dir),
{
    if present && is_dir {
        LinkAction::Skip
    } else if present {
        LinkAction::Replace
    } else {
        LinkAction::Create
    }
}

/// A symbolic link never removes a directory: whenever the destination is
/// a directory the link is skipped, and nothing is removed unless something
/// other than a directory is there.
pub proof fn lemma_link_spares_directories(present: bool, is_dir: bool)
    ensures
        present && is_dir ==> link_rule(present, is_dir) == LinkAction::Skip,
        link_rule(present, is_dir) == LinkAction::Replace ==> present && !is_dir,
{
}

/// The list of installed paths as the catalog holds it: the destinations
/// that were placed, in order, joined by commas.
pub fn installed_list(placed: &Vec<String>) -> (r: String)
    ensures
        r@ == text::joined(text::texts_of(placed@), seq![',']),
{
    proof {
        reveal_strlit(",");
        assert(","@ =~= seq![',']);
    }
    text::join(placed, ",")
}

/// The pieces of a list, trimmed, without those that are empty then.
pub open spec fn trimmed_pieces(pieces: Seq<Seq<char>>) -> Seq<Seq<char>>
    decreases pieces.len(),
{
    if pieces.len() == 0 {
        seq![]
    } else if text::trim(pieces.last()).len() == 0 {
        trimmed_pieces(pieces.drop_last())
    } else {
        trimmed_pieces(pieces.drop_last()).push(text::trim(pieces.last()))
    }
}

/// The paths that removing a package looks at: the pieces of its list of
/// installed paths between commas, trimmed, without the empty ones.
pub open spec fn removal_of(installed: Seq<char>) -> Seq<Seq<char>> {
    trimmed_pieces(text::split_on(installed, ','))
}

/// Lists the paths that removing an installed package looks at.
pub fn uninstall_ctrl(record: &ControlWithData) -> (paths: Vec<String>)
    ensures
        text::texts_of(paths@) == removal_of(record.installed@),
{
    let v = text::chars_of(record.installed.as_str());
    let pieces = text::split_bounds(&v, 0, v.len(), ',');
    assert(v@.subrange(0, v.len() as int) == v@);
    let ghost all = text::cut(v@, pieces@);
    let mut paths: Vec<String> = Vec::new();
    let mut i: usize = 0;
    assert(all.take(0) == Seq::<Seq<char>>::empty());
    while i < pieces.len()
        invariant
            i <= pieces.len(),
            all == text::cut(v@, pieces@),
            text::bounds_within(pieces@, v.len() as nat),
            text::texts_of(paths@) == trimmed_pieces(all.take(i as int)),
        decreases pieces.len() - i,
    {
        assert(all.take(i + 1).drop_last() == all.take(i as int));
        assert(all.take(i + 1).last() == v@.subrange(pieces[i as int].0 as int, pieces[i as int].1 as int));
        let (a, b) = text::trim_bounds(&v, pieces[i].0, pieces[i].1);
        if a < b {
            let ghost before = text::texts_of(paths@);
            paths.push(text::string_of(&v, a, b));
            assert(text::texts_of(paths@) == before.push(v@.subrange(a as int, b as int)));
        }
        i = i + 1;
    }
    assert(all.take(pieces.len() as int) == all);
    paths
}

/// A path is removed when it is a regular file or a symbolic link; a
/// directory, anything else, and a path at which nothing is, are left.
pub open spec fn is_removable(kind: Option<FileKind>) -> bool {
    kind == Some(FileKind::File) || kind == Some(FileKind::Symlink)
}

/// Decides whether a listed path is removed, given what is found there.
pub fn removable(kind: Option<FileKind>) -> (r: bool)
    ensures
        r == is_removable(kind),
{
    match kind {
        Some(FileKind::File) => true,
        Some(FileKind::Symlink) => true,
        _ => false,
    }
}

/// Removal looks at the paths that installation recorded and at no other:
/// where each recorded path is trimmed, not empty and without a comma, the
/// paths read back from the joined list are the recorded ones.
pub proof fn lemma_removal_reads_back(placed: Seq<Seq<char>>)
    requires
        forall|i: int|
            0 <= i < placed.len() ==> (#[trigger] placed[i]).len() > 0 && text::is_trimmed(
                placed[i],
            ) && !placed[i].contains(','),
    ensures
        removal_of(text::joined(placed, seq![','])) == placed,
{
    if placed.len() == 0 {
        let empty = Seq::<char>::empty();
        assert(text::joined(placed, seq![',']) == empty);
        assert(text::split_on(empty, ',') =~= seq![empty]);
        let one = seq![empty];
        assert(one.last() == empty);
        assert(one.drop_last() =~= Seq::<Seq<char>>::empty());
        assert(text::trim_start(empty) == empty);
        assert(text::trim(empty) == empty);
        assert(trimmed_pieces(one.drop_last()) =~= Seq::<Seq<char>>::empty());
        assert(trimmed_pieces(one) =~= placed);
    } else {
        text::lemma_split_joined(placed, ',');
        lemma_trimmed_pieces_keep(placed);
    }
}

/// Pieces that are trimmed and not empty are all kept as they are.
proof fn lemma_trimmed_pieces_keep(pieces: Seq<Seq<char>>)
    requires
        forall|i: int|
            0 <= i < pieces.len() ==> (#[trigger] pieces[i]).len() > 0 && text::is_trimmed(
                pieces[i],
            ),
    ensures
        trimmed_pieces(pieces) == pieces,
    decreases pieces.len(),
{
    if pieces.len() > 0 {
        lemma_trimmed_pieces_keep(pieces.drop_last());
        text::lemma_trim(pieces.last());
        assert(trimmed_pieces(pieces) =~= pieces);
    }
}

/// One row that the catalog holds for a name and a version: its id and its
/// columns that hold text, each with its name.
pub struct Candidate {
    pub id: i64,
    pub columns: Vec<(String, String)>,
}

/// What removing a package by its file does.
pub enum Removal {
    /// The row to delete, by its id, and the paths to look at before.
    Remove { id: i64, paths: Vec<String> },
    /// Nothing: the package is not installed as given.
    Nothing,
}

/// The row stores the package at hand: it gives a record, and every field
/// of that record has the value that it has in the package's own.
pub open spec fn is_same_package(parsed: Seq<Option<Seq<char>>>, row: Candidate) -> bool {
    match crate::control::stored_record(crate::control::pairs_view(row.columns@)) {
        Some(stored) => stored.0 == parsed,
        None => false,
    }
}

/// The place, from `i` on, of the first row that stores the package at
/// hand, or the number of rows.
pub open spec fn first_same(parsed: Seq<Option<Seq<char>>>, rows: Seq<Candidate>, i: int) -> int
    decreases rows.len() - i,
{
    if 0 <= i < rows.len() && !is_same_package(parsed, rows[i]) {
        first_same(parsed, rows, i + 1)
    } else {
        i
    }
}

/// The paths that a row lists.
pub open spec fn paths_of_row(row: Candidate) -> Seq<Seq<char>> {
    match crate::control::stored_record(crate::control::pairs_view(row.columns@)) {
        Some(stored) => removal_of(stored.1),
        None => seq![],
    }
}

/// Finds the first row that stores the package at hand.
fn find_same(parsed: &Control, rows: &Vec<Candidate>) -> (r: Option<(usize, ControlWithData)>)
    ensures
        match r {
            Some(found) => found.0 == first_same(parsed@, rows@, 0) && found.0 < rows.len()
                && crate::control::stored_record(
                crate::control::pairs_view(rows@[found.0 as int].columns@),
            ) == Some((found.1.ctrl@, found.1.installed@)),
            None => first_same(parsed@, rows@, 0) >= rows.len(),
        },
{
    let mut i: usize = 0;
    while i < rows.len()
        invariant
            i <= rows.len(),
            first_same(parsed@, rows@, 0) == first_same(parsed@, rows@, i as int),
        decreases rows.len() - i,
    {
        match ControlWithData::from_row(&rows[i].columns) {
            Ok(record) => {
                if record.ctrl == *parsed {
                    return Some((i, record));
                }
            },
            Err(_) => {},
        }
        i = i + 1;
    }
    None
}

/// Tells whether a package is installed, from its control record and the
/// rows that the catalog holds for its name and version: it is where one of
/// them stores a record equal to the package's in every field.
pub fn is_installed(parsed: &Control, rows: &Vec<Candidate>) -> (r: bool)
    ensures
        r == (first_same(parsed@, rows@, 0) < rows.len()),
        r == exists|k: int| 0 <= k < rows.len() && is_same_package(parsed@, #[trigger] rows@[k]),
{
    proof {
        lemma_first_same(parsed@, rows@, 0);
    }
    find_same(parsed, rows).is_some()
}

/// Decides what removing a package by its file does, from its control
/// record and the rows that the catalog holds for its name and version.
/// The first row whose record equals the package's in every field is the
/// one removed: its paths are looked at and the row of its id deleted. A
/// row that differs in any field, or gives no record, is left as it is, as
/// is everything where no row is equal.
pub fn uninstall(parsed: &Control, rows: &Vec<Candidate>) -> (r: Removal)
    ensures
        match r {
            Removal::Remove { id, paths } => {
                let k = first_same(parsed@, rows@, 0);
                &&& 0 <= k < rows.len()
                &&& is_same_package(parsed@, rows@[k])
                &&& id == rows@[k].id
                &&& text::texts_of(paths@) == paths_of_row(rows@[k])
            },
            Removal::Nothing => forall|k: int|
                0 <= k < rows.len() ==> !is_same_package(parsed@, #[trigger] rows@[k]),
        },
{
    proof {
        lemma_first_same(parsed@, rows@, 0);
    }
    match find_same(parsed, rows) {
        Some(found) => Removal::Remove { id: rows[found.0].id, paths: uninstall_ctrl(&found.1) },
        None => Removal::Nothing,
    }
}

/// Where the first equal row lies: at a row that stores the package, behind
/// rows that do not.
pub proof fn lemma_first_same(parsed: Seq<Option<Seq<char>>>, rows: Seq<Candidate>, i: int)
    requires
        0 <= i <= rows.len(),
    ensures
        i <= first_same(parsed, rows, i) <= rows.len(),
        first_same(parsed, rows, i) < rows.len() ==> is_same_package(
            parsed,
            rows[first_same(parsed, rows, i)],
        ),
        forall|k: int| i <= k < first_same(parsed, rows, i) ==> !is_same_package(parsed, #[trigger] rows[k]),
    decreases rows.len() - i,
{
    if i < rows.len() && !is_same_package(parsed, rows[i]) {
        lemma_first_same(parsed, rows, i + 1);
    }
}

/// Removal by file touches the equal row and no other: where the rows hold
/// one that equals the package in every field and others that differ, the
/// id returned is that of an equal row, never that of a differing one.
pub proof fn lemma_only_the_equal_row(
    parsed: Seq<Option<Seq<char>>>,
    rows: Seq<Candidate>,
    other: int,
)
    requires
        0 <= other < rows.len(),
        !is_same_package(parsed, rows[other]),
    ensures
        first_same(parsed, rows, 0) != other,
{
    lemma_first_same(parsed, rows, 0);
}

/// Decides which paths removing a package by its name looks at, from what
/// the catalog gave for the name: those of the row, or none where there is
/// no row. The rows of that name are deleted afterwards either way. A row
/// that cannot be read is an error.
pub fn uninstall_by_pkg_name(found: &Result<ControlWithData, CatalogError>) -> (r: Result<
    Vec<String>,
    CatalogError,
>)
    ensures
        match r {
            Ok(paths) => match *found {
                Ok(record) => text::texts_of(paths@) == removal_of(record.installed@),
                Err(e) => e == CatalogError::NotInstalled && paths@.len() == 0,
            },
            Err(e) => *found == Err::<ControlWithData, CatalogError>(e) && e
                != CatalogError::NotInstalled,
        },
{
    match found {
        Ok(record) => Ok(uninstall_ctrl(record)),
        Err(CatalogError::NotInstalled) => Ok(Vec::new()),
        Err(e) => Err(*e),
    }
}

/// Decides which paths removing a package by its id looks at, from what the
/// catalog gave for the id; the row of that id is deleted afterwards. The
/// rule is that of removal by name.
pub fn uninstall_by_id(found: &Result<ControlWithData, CatalogError>) -> (r: Result<
    Vec<String>,
    CatalogError,
>)
    ensures
        match r {
            Ok(paths) => match *found {
                Ok(record) => text::texts_of(paths@) == removal_of(record.installed@),
                Err(e) => e == CatalogError::NotInstalled && paths@.len() == 0,
            },
            Err(e) => *found == Err::<ControlWithData, CatalogError>(e) && e
                != CatalogError::NotInstalled,
        },
{
    uninstall_by_pkg_name(found)
}

/// Makes the row that installing a package writes to the catalog, once its
/// payload is placed: the values of its control record, read from the
/// control text, in the order of the field table, and last the placed paths
/// joined by commas. A control text without a required field gives no row.
pub fn install(control: String, placed: &Vec<String>) -> (r: Result<
    Vec<Option<String>>,
    MalformedControl,
>)
    ensures
        match r {
            Ok(row) => crate::control::first_missing(crate::control::parsed(control@)) is None
                && crate::control::slots_view(row@) == crate::control::parsed(control@).push(
                Some(text::joined(text::texts_of(placed@), seq![','])),
            ),
            Err(e) => crate::control::first_missing(crate::control::parsed(control@)) == Some(
                e.missing as int,
            ),
        },
{
    match crate::control::parse_control(control) {
        Ok(ctrl) => {
            let installed = installed_list(placed);
            Ok(catalog::insert_values(&ctrl, installed.as_str()))
        },
        Err(e) => Err(e),
    }
}

} // verus!
