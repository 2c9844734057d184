//! What a package holds: its members, its control text, the number of its
//! entries, the order in which they are unpacked, and the tree of its paths.

use vstd::prelude::*;
use crate::archive;
use crate::archive::Member;
use crate::codec;
use crate::plan;
use crate::text;
use crate::tree;
use crate::tree::Node;
use crate::tree::Shape;

verus! {

/// Why a package cannot be read.
#[derive(Clone, Copy, Debug, PartialEq, Eq, Structural)]
pub enum Malformed {
    /// The outer archive fails at some step.
    Outer,
    /// An inner archive fails at some step.
    Inner,
}

/// The name of a member: its identifier read as text, trimmed, without the
/// slashes at its end.
pub open spec fn name_of(identifier: Seq<u8>) -> Seq<char> {
    text::drop_trailing(text::trim(archive::lossy_utf8(identifier)), '/')
}

/// Computes the name of a member from its identifier.
pub fn member_name(identifier: &[u8]) -> (name: String)
    ensures
        name@ == name_of(identifier@),
{
    let raw = archive::lossy_text(identifier);
    let v = text::chars_of(raw.as_str());
    assert(v@.subrange(0, v.len() as int) == v@);
    let (a, b) = text::trim_bounds(&v, 0, v.len());
    let end = text::trailing_bound(&v, a, b, '/');
    text::string_of(&v, a, end)
}

/// What the steps of reading an outer archive look like to the contracts.
pub open spec fn steps_view(steps: Seq<Option<Member>>) -> Seq<Option<(Seq<u8>, Seq<u8>)>> {
    steps.map_values(|step: Option<Member>| archive::member_view(step))
}

/// What reading the outer archive of a package yields, step by step. Bytes
/// that are no archive in the common format fail at the first step.
pub open spec fn outer_listing(deb: Seq<u8>) -> Seq<Option<(Seq<u8>, Seq<u8>)>> {
    if archive::is_common(deb) {
        archive::ar_listing(deb)
    } else {
        seq![None]
    }
}

/// Reads an outer archive to its end and lists what each step gave. Bytes
/// that are no archive in the common format are not read at all, and are
/// listed as one failed step.
pub fn outer_steps(deb: &[u8]) -> (steps: Vec<Option<Member>>)
    ensures
        steps_view(steps@) == outer_listing(deb@),
{
    let mut steps: Vec<Option<Member>> = Vec::new();
    if !archive::is_common_archive(deb) {
        steps.push(None);
        assert(steps_view(steps@) =~= seq![None]);
        return steps;
    }
    let mut reader = archive::open_outer(deb);
    assert(steps_view(steps@) + archive::ar_pending(reader) =~= archive::ar_listing(deb@));
    loop
        invariant_except_break
            steps_view(steps@) + archive::ar_pending(reader) == archive::ar_listing(deb@),
        invariant
            archive::is_common(deb@),
            archive::is_common(archive::ar_source(reader)),
        ensures
            steps_view(steps@) == outer_listing(deb@),
        decreases archive::ar_pending(reader).len(),
    {
        let ghost before = steps_view(steps@);
        let ghost pending = archive::ar_pending(reader);
        match archive::next_member(&mut reader) {
            Some(step) => {
                steps.push(step);
                assert(steps_view(steps@) == before.push(pending[0]));
                assert(before.push(pending[0]) + pending.drop_first() == before + pending);
            },
            None => {
                assert(before + pending == before);
                break ;
            },
        }
    }
    steps
}

/// Every step of reading an outer archive gave a member.
pub open spec fn readable(steps: Seq<Option<(Seq<u8>, Seq<u8>)>>) -> bool {
    forall|i: int| 0 <= i < steps.len() ==> (#[trigger] steps[i]) is Some
}

/// The inner archive of a member, decompressed, where its name calls for a
/// format and the decoder succeeds.
pub open spec fn inner_of(member: (Seq<u8>, Seq<u8>)) -> Option<Seq<u8>> {
    codec::decoded(name_of(member.0), member.1)
}

/// How many steps walking the inner archive of a member takes; none where
/// it has no inner archive.
pub open spec fn entries_in(member: (Seq<u8>, Seq<u8>)) -> nat {
    match inner_of(member) {
        Some(inner) => archive::tar_listing(inner).len(),
        None => 0,
    }
}

/// The steps of all inner archives of a package, added up.
pub open spec fn total_entries(steps: Seq<Option<(Seq<u8>, Seq<u8>)>>) -> nat
    decreases steps.len(),
{
    if steps.len() == 0 {
        0
    } else {
        total_entries(steps.drop_last()) + match steps.last() {
            Some(member) => entries_in(member),
            None => 0,
        }
    }
}

/// A count as a `usize` can hold it.
pub open spec fn capped(n: nat) -> usize {
    if n <= usize::MAX {
        n as usize
    } else {
        usize::MAX
    }
}

/// Counts the entries of a package: the steps that walking each inner
/// archive takes, over all members whose name calls for a format and whose
/// stream decodes. The count stays at `usize::MAX` where it would pass it.
/// A package whose outer archive fails at some step is refused.
pub fn count(deb: &[u8]) -> (r: Result<usize, Malformed>)
    ensures
        match r {
            Ok(n) => readable(outer_listing(deb@)) && n == capped(
                total_entries(outer_listing(deb@)),
            ),
            Err(e) => !readable(outer_listing(deb@)) && e == Malformed::Outer,
        },
{
    let steps = outer_steps(deb);
    let ghost listing = outer_listing(deb@);
    let mut total: usize = 0;
    let mut i: usize = 0;
    assert(listing.take(0) == Seq::<Option<(Seq<u8>, Seq<u8>)>>::empty());
    while i < steps.len()
        invariant
            i <= steps.len(),
            listing == steps_view(steps@),
            listing == outer_listing(deb@),
            readable(listing.take(i as int)),
            total == capped(total_entries(listing.take(i as int))),
        decreases steps.len() - i,
    {
        assert(listing.take(i + 1).drop_last() == listing.take(i as int));
        assert(listing.take(i + 1).last() == listing[i as int]);
        match &steps[i] {
            Some(member) => {
                let name = member_name(member.identifier.as_slice());
                let n = match codec::decode(name.as_str(), member.data.as_slice()) {
                    Some(inner) => archive::list_inner(inner.as_slice()).len(),
                    None => 0,
                };
                assert(n == entries_in(member@));
                total = if n > usize::MAX - total {
                    usize::MAX
                } else {
                    total + n
                };
                assert forall|j: int| 0 <= j < i + 1 implies (#[trigger] listing.take(
                    i + 1,
                )[j]) is Some by {
                    if j < i {
                        assert(listing.take(i as int)[j] is Some);
                    }
                }
            },
            None => {
                assert(listing[i as int] is None);
                return Err(Malformed::Outer);
            },
        }
        i = i + 1;
    }
    assert(listing.take(steps.len() as int) == listing);
    Ok(total)
}

/// The last piece of a path that names something: pieces lie between
/// slashes, and empty pieces and `.` are passed over.
pub open spec fn last_piece(pieces: Seq<Seq<char>>) -> Option<Seq<char>>
    decreases pieces.len(),
{
    if pieces.len() == 0 {
        None
    } else if pieces.last().len() == 0 || pieces.last() == seq!['.'] {
        last_piece(pieces.drop_last())
    } else {
        Some(pieces.last())
    }
}

/// The base name of a path.
pub open spec fn base_name(path: Seq<char>) -> Option<Seq<char>> {
    last_piece(text::split_on(path, '/'))
}

/// The bounds of the base name of the path `v`, where it has one.
pub fn base_bounds(v: &Vec<char>) -> (r: Option<(usize, usize)>)
    ensures
        match r {
            Some(b) => b.0 <= b.1 <= v.len() && base_name(v@) == Some(
                v@.subrange(b.0 as int, b.1 as int),
            ),
            None => base_name(v@) is None,
        },
{
    let pieces = text::split_bounds(v, 0, v.len(), '/');
    assert(v@.subrange(0, v.len() as int) == v@);
    let ghost all = text::cut(v@, pieces@);
    let mut i: usize = pieces.len();
    assert(all.take(i as int) == all);
    while i > 0
        invariant
            i <= pieces.len(),
            all == text::cut(v@, pieces@),
            all == text::split_on(v@, '/'),
            text::bounds_within(pieces@, v.len() as nat),
            last_piece(all) == last_piece(all.take(i as int)),
        decreases i,
    {
        let (a, b) = pieces[i - 1];
        assert(all.take(i as int).last() == v@.subrange(a as int, b as int));
        assert(all.take(i as int).drop_last() == all.take(i - 1));
        if a == b || (b - a == 1 && v[a] == '.') {
            assert(b - a == 1 && v[a as int] == '.' ==> v@.subrange(a as int, b as int) == seq![
                '.',
            ]);
            i = i - 1;
        } else {
            assert(v@.subrange(a as int, b as int) != seq!['.']) by {
                if v@.subrange(a as int, b as int) == seq!['.'] {
                    assert(v@.subrange(a as int, b as int)[0] == '.');
                }
            }
            return Some((a, b));
        }
    }
    None
}

/// A member that holds the control file goes by one of four names.
pub open spec fn is_control_member(name: Seq<char>) -> bool {
    ||| name == "control.tar.gz"@
    ||| name == "control.tar.xz"@
    ||| name == "control.tar.bz2"@
    ||| name == "control.tar.zst"@
}

/// A step at which the search for the control file in an inner archive
/// ends: the walk fails there, or the entry's base name is `control`.
pub open spec fn ends_search(step: Option<(Seq<u8>, u8)>) -> bool {
    match step {
        Some(entry) => base_name(archive::lossy_utf8(entry.0)) == Some("control"@),
        None => true,
    }
}

/// The first step from `i` on at which the search ends, or the number of
/// steps.
pub open spec fn search_end(listing: Seq<Option<(Seq<u8>, u8)>>, i: int) -> int
    decreases listing.len() - i,
{
    if i < 0 || i >= listing.len() || ends_search(listing[i]) {
        i
    } else {
        search_end(listing, i + 1)
    }
}

/// What the search for the control file gives in one inner archive.
pub enum Search {
    /// The text of the control file.
    Found(Seq<char>),
    /// The walk failed, or the file could not be read as text.
    Failed,
    /// The archive holds no entry named `control`.
    Absent,
}

/// Searches the inner archive `inner`.
pub open spec fn search(inner: Seq<u8>) -> Search {
    let listing = archive::tar_listing(inner);
    let k = search_end(listing, 0);
    if k >= listing.len() {
        Search::Absent
    } else if listing[k] is None {
        Search::Failed
    } else {
        match archive::tar_body(inner, k as nat) {
            Some(body) => if vstd::utf8::valid_utf8(body) {
                Search::Found(vstd::utf8::decode_utf8(body))
            } else {
                Search::Failed
            },
            None => Search::Failed,
        }
    }
}

/// The control text of a package, searched from step `i` of its outer
/// archive on. The members named `control.tar.gz`, `control.tar.xz`,
/// `control.tar.bz2` and `control.tar.zst` are searched in order; one whose
/// stream does not decode, or that holds no entry named `control`, is passed
/// over. A failure ends the search without a text.
pub open spec fn control_text(steps: Seq<Option<(Seq<u8>, Seq<u8>)>>, i: int) -> Option<Seq<char>>
    decreases steps.len() - i,
{
    if i < 0 || i >= steps.len() {
        None
    } else {
        match steps[i] {
            None => None,
            Some(member) => if is_control_member(name_of(member.0)) {
                match inner_of(member) {
                    Some(inner) => match search(inner) {
                        Search::Found(t) => Some(t),
                        Search::Failed => None,
                        Search::Absent => control_text(steps, i + 1),
                    },
                    None => control_text(steps, i + 1),
                }
            } else {
                control_text(steps, i + 1)
            },
        }
    }
}

/// Searches one inner archive for the control file.
fn search_inner(inner: &[u8]) -> (r: Result<Option<String>, Malformed>)
    ensures
        match r {
            Ok(Some(t)) => search(inner@) == Search::Found(t@),
            Ok(None) => search(inner@) is Absent,
            Err(_) => search(inner@) is Failed,
        },
{
    let listing = archive::list_inner(inner);
    let ghost steps = archive::tar_listing(inner@);
    let mut k: usize = 0;
    while k < listing.len()
        invariant
            k <= listing.len(),
            steps == listing@.map_values(|step: Option<archive::TarEntry>| archive::entry_view(step)),
            steps == archive::tar_listing(inner@),
            search_end(steps, 0) == search_end(steps, k as int),
        decreases listing.len() - k,
    {
        match &listing[k] {
            None => {
                assert(steps[k as int] is None);
                return Err(Malformed::Inner);
            },
            Some(entry) => {
                assert(steps[k as int] == Some(entry@));
                let path = archive::lossy_text(entry.path.as_slice());
                let v = text::chars_of(path.as_str());
                let found = match base_bounds(&v) {
                    Some(b) => text::is_text(&v, b.0, b.1, "control"),
                    None => false,
                };
                if found {
                    assert(ends_search(steps[k as int]));
                    return match archive::read_body(inner, k) {
                        Some(body) => match archive::strict_text(body) {
                            Some(t) => Ok(Some(t)),
                            None => Err(Malformed::Inner),
                        },
                        None => Err(Malformed::Inner),
                    };
                }
                assert(!ends_search(steps[k as int]));
            },
        }
        k = k + 1;
    }
    Ok(None)
}

/// Decides whether a member's name is one of the four that hold the control
/// file.
fn control_member(name: &str) -> (r: bool)
    ensures
        r == is_control_member(name@),
{
    let v = text::chars_of(name);
    let n = v.len();
    assert(v@.subrange(0, n as int) == name@);
    text::is_text(&v, 0, n, "control.tar.gz") || text::is_text(&v, 0, n, "control.tar.xz")
        || text::is_text(&v, 0, n, "control.tar.bz2") || text::is_text(
        &v,
        0,
        n,
        "control.tar.zst",
    )
}

/// Finds the control text of a package: the body, as text, of the first
/// entry whose base name is `control` in the first control member that holds
/// one. There is no text where no member holds such an entry, or where the
/// outer archive, the inner archive or the body fails before one is found.
pub fn extract_control(deb: &[u8]) -> (r: Option<String>)
    ensures
        crate::control::text_of(r) == control_text(outer_listing(deb@), 0),
{
    let steps = outer_steps(deb);
    let ghost listing = outer_listing(deb@);
    let mut i: usize = 0;
    while i < steps.len()
        invariant
            i <= steps.len(),
            listing == steps_view(steps@),
            listing == outer_listing(deb@),
            control_text(listing, 0) == control_text(listing, i as int),
        decreases steps.len() - i,
    {
        match &steps[i] {
            None => {
                assert(listing[i as int] is None);
                return None;
            },
            Some(member) => {
                assert(listing[i as int] == Some(member@));
                let name = member_name(member.identifier.as_slice());
                if control_member(name.as_str()) {
                    match codec::decode(name.as_str(), member.data.as_slice()) {
                        Some(inner) => match search_inner(inner.as_slice()) {
                            Ok(Some(t)) => {
                                return Some(t);
                            },
                            Ok(None) => {},
                            Err(_) => {
                                return None;
                            },
                        },
                        None => {},
                    }
                }
            },
        }
        i = i + 1;
    }
    None
}

/// The directory that a member is unpacked into: its base name up to the
/// first dot.
pub open spec fn stem_of(name: Seq<char>) -> Seq<char> {
    match base_name(name) {
        Some(base) => base.take(text::first_index(base, '.')),
        None => Seq::empty(),
    }
}

/// Computes the directory that a member is unpacked into.
pub fn stem(name: &str) -> (r: String)
    ensures
        r@ == stem_of(name@),
{
    let v = text::chars_of(name);
    match base_bounds(&v) {
        Some(b) => {
            let k = text::find_char(&v, b.0, b.1, '.');
            assert(v@.subrange(b.0 as int, b.1 as int).take(k - b.0) == v@.subrange(
                b.0 as int,
                k as int,
            ));
            text::string_of(&v, b.0, k)
        },
        None => String::new(),
    }
}

/// The unpacking of one member: the directory under the destination that
/// takes its entries, its inner archive, and the steps of walking it in the
/// order in which they are unpacked, first `files`, then `directories`.
pub struct Unpacking {
    pub directory: String,
    pub archive: Vec<u8>,
    pub files: Vec<usize>,
    pub directories: Vec<usize>,
}

/// The members of a package that are unpacked, in order: those whose name
/// calls for a format and whose stream decodes.
pub open spec fn unpacked_members(steps: Seq<Option<(Seq<u8>, Seq<u8>)>>) -> Seq<
    (Seq<u8>, Seq<u8>),
>
    decreases steps.len(),
{
    if steps.len() == 0 {
        seq![]
    } else {
        let before = unpacked_members(steps.drop_last());
        match steps.last() {
            Some(member) => if inner_of(member) is Some {
                before.push(member)
            } else {
                before
            },
            None => before,
        }
    }
}

/// `u` is the unpacking of `member`.
pub open spec fn is_unpacking(member: (Seq<u8>, Seq<u8>), u: Unpacking) -> bool {
    let listing = archive::tar_listing(u.archive@);
    &&& inner_of(member) == Some(u.archive@)
    &&& u.directory@ == stem_of(name_of(member.0))
    &&& plan::walkable(listing)
    &&& plan::is_plain_order(listing, listing.len() as int, u.files@)
    &&& plan::is_directory_order(listing, listing.len() as int, u.directories@)
}

/// `unpackings` holds the unpacking of each member that is unpacked, in
/// order.
pub open spec fn is_plan(members: Seq<(Seq<u8>, Seq<u8>)>, unpackings: Seq<Unpacking>) -> bool {
    &&& unpackings.len() == members.len()
    &&& forall|k: int| 0 <= k < members.len() ==> is_unpacking(#[trigger] members[k], unpackings[k])
}

/// The inner archive of every member can be walked to its end.
pub open spec fn all_walkable(members: Seq<(Seq<u8>, Seq<u8>)>) -> bool {
    forall|k: int|
        0 <= k < members.len() ==> match inner_of(#[trigger] members[k]) {
            Some(inner) => plan::walkable(archive::tar_listing(inner)),
            None => true,
        }
}

/// Plans the unpacking of a package. Each member whose name calls for a
/// format and whose stream decodes is unpacked, in the order of the outer
/// archive, into the directory named by its stem; within a member what is no
/// directory comes first, as the archive lists it, and the directories come
/// last, from the greatest path down. A package is refused where its outer
/// archive fails at some step, and else where an inner archive does.
pub fn extract_to(deb: &[u8]) -> (r: Result<Vec<Unpacking>, Malformed>)
    ensures
        match r {
            Ok(unpackings) => readable(outer_listing(deb@)) && all_walkable(
                unpacked_members(outer_listing(deb@)),
            ) && is_plan(unpacked_members(outer_listing(deb@)), unpackings@),
            Err(e) => if readable(outer_listing(deb@)) {
                e == Malformed::Inner && !all_walkable(unpacked_members(outer_listing(deb@)))
            } else {
                e == Malformed::Outer
            },
        },
{
    let steps = outer_steps(deb);
    let ghost listing = outer_listing(deb@);
    let mut j: usize = 0;
    while j < steps.len()
        invariant
            j <= steps.len(),
            listing == steps_view(steps@),
            listing == outer_listing(deb@),
            forall|k: int| 0 <= k < j ==> (#[trigger] listing[k]) is Some,
        decreases steps.len() - j,
    {
        if steps[j].is_none() {
            assert(listing[j as int] is None);
            return Err(Malformed::Outer);
        }
        j = j + 1;
    }
    let mut unpackings: Vec<Unpacking> = Vec::new();
    let mut i: usize = 0;
    assert(listing.take(0) == Seq::<Option<(Seq<u8>, Seq<u8>)>>::empty());
    while i < steps.len()
        invariant
            i <= steps.len(),
            listing == steps_view(steps@),
            listing == outer_listing(deb@),
            readable(listing),
            all_walkable(unpacked_members(listing.take(i as int))),
            is_plan(unpacked_members(listing.take(i as int)), unpackings@),
        decreases steps.len() - i,
    {
        let ghost members = unpacked_members(listing.take(i as int));
        assert(listing.take(i + 1).drop_last() == listing.take(i as int));
        assert(listing.take(i + 1).last() == listing[i as int]);
        match &steps[i] {
            Some(member) => {
                assert(listing[i as int] == Some(member@));
                let name = member_name(member.identifier.as_slice());
                match codec::decode(name.as_str(), member.data.as_slice()) {
                    Some(inner) => {
                        let entries = archive::list_inner(inner.as_slice());
                        assert(unpacked_members(listing.take(i + 1)) == members.push(member@));
                        match plan::unpack_order(&entries) {
                            Some(orders) => {
                                let u = Unpacking {
                                    directory: stem(name.as_str()),
                                    archive: inner,
                                    files: orders.0,
                                    directories: orders.1,
                                };
                                assert(is_unpacking(member@, u));
                                unpackings.push(u);
                            },
                            None => {
                                proof {
                                    lemma_unpacked_prefix(listing, i + 1);
                                    let all = unpacked_members(listing);
                                    let k = members.len() as int;
                                    assert(all[k] == member@);
                                }
                                return Err(Malformed::Inner);
                            },
                        }
                    },
                    None => {
                        assert(unpacked_members(listing.take(i + 1)) == members);
                    },
                }
            },
            None => {
                assert(listing[i as int] is Some);
            },
        }
        i = i + 1;
    }
    assert(listing.take(steps.len() as int) == listing);
    Ok(unpackings)
}

/// The members unpacked from the first `n` steps open the list of those
/// unpacked from all steps.
pub proof fn lemma_unpacked_prefix(steps: Seq<Option<(Seq<u8>, Seq<u8>)>>, n: int)
    requires
        0 <= n <= steps.len(),
    ensures
        unpacked_members(steps.take(n)).len() <= unpacked_members(steps).len(),
        forall|k: int|
            0 <= k < unpacked_members(steps.take(n)).len() ==> unpacked_members(steps.take(n))[k]
                == #[trigger] unpacked_members(steps)[k],
    decreases steps.len(),
{
    if n == steps.len() {
        assert(steps.take(n) == steps);
    } else {
        lemma_unpacked_prefix(steps.drop_last(), n);
        assert(steps.drop_last().take(n) == steps.take(n));
    }
}

/// The paths of the entries of a listing, as text, in order; a step at
/// which the walk failed gives none.
pub open spec fn paths_of(listing: Seq<Option<(Seq<u8>, u8)>>) -> Seq<Seq<char>>
    decreases listing.len(),
{
    if listing.len() == 0 {
        seq![]
    } else {
        match listing.last() {
            Some(entry) => paths_of(listing.drop_last()).push(archive::lossy_utf8(entry.0)),
            None => paths_of(listing.drop_last()),
        }
    }
}

/// The node that stands for a member: named by the member, with the tree of
/// its paths below it where it has an inner archive.
pub open spec fn member_node(member: (Seq<u8>, Seq<u8>)) -> Shape {
    match inner_of(member) {
        Some(inner) => Shape {
            name: name_of(member.0),
            is_file: false,
            children: tree::tree_of(paths_of(archive::tar_listing(inner))),
        },
        None => tree::leaf(name_of(member.0)),
    }
}

/// The tree of a package: below the root `package` one node for each
/// member, in the order of the outer archive.
pub open spec fn files_tree(steps: Seq<Option<(Seq<u8>, Seq<u8>)>>) -> Shape {
    Shape {
        name: "package"@,
        is_file: false,
        children: Seq::new(
            steps.len(),
            |i: int|
                match steps[i] {
                    Some(member) => member_node(member),
                    None => tree::leaf(Seq::empty()),
                },
        ),
    }
}

/// Lists the paths of an inner archive as text.
fn entry_paths(inner: &[u8]) -> (paths: Vec<String>)
    ensures
        text::texts_of(paths@) == paths_of(archive::tar_listing(inner@)),
{
    let listing = archive::list_inner(inner);
    let ghost steps = archive::tar_listing(inner@);
    let mut paths: Vec<String> = Vec::new();
    let mut i: usize = 0;
    assert(steps.take(0) == Seq::<Option<(Seq<u8>, u8)>>::empty());
    while i < listing.len()
        invariant
            i <= listing.len(),
            steps == plan::listing_view(listing@),
            text::texts_of(paths@) == paths_of(steps.take(i as int)),
        decreases listing.len() - i,
    {
        assert(steps.take(i + 1).drop_last() == steps.take(i as int));
        assert(steps.take(i + 1).last() == steps[i as int]);
        match &listing[i] {
            Some(entry) => {
                let ghost before = text::texts_of(paths@);
                let path = archive::lossy_text(entry.path.as_slice());
                paths.push(path);
                assert(text::texts_of(paths@) == before.push(archive::lossy_utf8(entry.path@)));
            },
            None => {},
        }
        i = i + 1;
    }
    assert(steps.take(listing.len() as int) == steps);
    paths
}

/// Builds the tree of a package. Below the root, named `package`, stands
/// one node for each member, in the order of the outer archive. A member
/// whose name calls for a format and whose stream decodes has the tree of
/// its paths below it, the names at each level in the order of strings; any
/// other member is a leaf. A package whose outer archive fails at some step
/// is refused.
pub fn extract_files_tree(deb: &[u8]) -> (r: Result<Node, Malformed>)
    ensures
        match r {
            Ok(root) => readable(outer_listing(deb@)) && root@ == files_tree(
                outer_listing(deb@),
            ) && forall|k: int|
                0 <= k < root@.children.len() ==> tree::ordered(
                    (#[trigger] root@.children[k]).children,
                ),
            Err(e) => !readable(outer_listing(deb@)) && e == Malformed::Outer,
        },
{
    let steps = outer_steps(deb);
    let ghost listing = outer_listing(deb@);
    let mut nodes: Vec<Node> = Vec::new();
    let mut i: usize = 0;
    while i < steps.len()
        invariant
            i <= steps.len(),
            listing == steps_view(steps@),
            listing == outer_listing(deb@),
            nodes.len() == i,
            forall|k: int| 0 <= k < i ==> (#[trigger] listing[k]) is Some,
            forall|k: int|
                0 <= k < i ==> (#[trigger] nodes@[k])@ == files_tree(listing).children[k],
            forall|k: int| 0 <= k < i ==> tree::ordered((#[trigger] nodes@[k])@.children),
        decreases steps.len() - i,
    {
        match &steps[i] {
            Some(member) => {
                assert(listing[i as int] == Some(member@));
                let name = member_name(member.identifier.as_slice());
                let node = match codec::decode(name.as_str(), member.data.as_slice()) {
                    Some(inner) => {
                        let paths = entry_paths(inner.as_slice());
                        let below = tree::build_tree_from_paths(&paths);
                        proof {
                            tree::lemma_tree_ordered(text::texts_of(paths@));
                        }
                        Node { name, is_file: false, children: below }
                    },
                    None => Node { name, is_file: false, children: Vec::new() },
                };
                proof {
                    tree::lemma_children(node);
                    if inner_of(member@) is None {
                        assert(node@.children =~= Seq::<Shape>::empty());
                    }
                    assert(node@ == member_node(member@));
                }
                nodes.push(node);
            },
            None => {
                assert(listing[i as int] is None);
                return Err(Malformed::Outer);
            },
        }
        i = i + 1;
    }
    let root = Node { name: "package".to_string(), is_file: false, children: nodes };
    proof {
        tree::lemma_children(root);
        assert(root@.children =~= files_tree(listing).children);
    }
    Ok(root)
}

} // verus!
