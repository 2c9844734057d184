//! The order in which the entries of an inner archive are unpacked: what is
//! no directory first, as the archive lists it, then the directories from
//! the greatest path down, so that a directory is finished after all that
//! lies in it.

use vstd::prelude::*;
use crate::archive::TarEntry;
use crate::archive::entry_view;

verus! {

/// The type flag of a directory.
pub const DIRECTORY_FLAG: u8 = 53;

/// The type flag of a regular file.
pub const FILE_FLAG: u8 = 48;

/// The type flag of a symbolic link.
pub const SYMLINK_FLAG: u8 = 50;

/// What an entry of an inner archive is.
#[derive(Clone, Copy, Debug, PartialEq, Eq, Structural)]
pub enum EntryKind {
    Directory,
    File,
    Symlink,
    Other,
}

/// The kind that a type flag stands for.
pub open spec fn kind_of(flag: u8) -> EntryKind {
    if flag == DIRECTORY_FLAG {
        EntryKind::Directory
    } else if flag == FILE_FLAG {
        EntryKind::File
    } else if flag == SYMLINK_FLAG {
        EntryKind::Symlink
    } else {
        EntryKind::Other
    }
}

impl TarEntry {
    /// The kind of the entry.
    pub fn kind(&self) -> (r: EntryKind)
        ensures
            r == kind_of(self.flag),
    {
        if self.flag == DIRECTORY_FLAG {
            EntryKind::Directory
        } else if self.flag == FILE_FLAG {
            EntryKind::File
        } else if self.flag == SYMLINK_FLAG {
            EntryKind::Symlink
        } else {
            EntryKind::Other
        }
    }
}

/// `a` comes before `b` in the order of byte strings: at the first place
/// where they differ `a` has the smaller byte, or `a` ends there and `b`
/// goes on.
pub open spec fn bytes_lt(a: Seq<u8>, b: Seq<u8>) -> bool
    decreases a.len(),
{
    if b.len() == 0 {
        false
    } else if a.len() == 0 {
        true
    } else if a[0] != b[0] {
        a[0] < b[0]
    } else {
        bytes_lt(a.drop_first(), b.drop_first())
    }
}

/// Of two different byte strings one comes before the other.
pub proof fn lemma_lt_total(a: Seq<u8>, b: Seq<u8>)
    ensures
        a == b || bytes_lt(a, b) || bytes_lt(b, a),
    decreases a.len(),
{
    if a.len() > 0 && b.len() > 0 && a[0] == b[0] {
        lemma_lt_total(a.drop_first(), b.drop_first());
        if a.drop_first() == b.drop_first() {
            assert(a =~= seq![a[0]] + a.drop_first());
            assert(b =~= seq![b[0]] + b.drop_first());
        }
    } else if a.len() == 0 && b.len() == 0 {
        assert(a =~= b);
    }
}

/// The order of byte strings is transitive.
pub proof fn lemma_lt_transitive(a: Seq<u8>, b: Seq<u8>, c: Seq<u8>)
    requires
        bytes_lt(a, b),
        bytes_lt(b, c),
    ensures
        bytes_lt(a, c),
    decreases a.len(),
{
    if a.len() > 0 && b.len() > 0 && c.len() > 0 && a[0] == b[0] && b[0] == c[0] {
        lemma_lt_transitive(a.drop_first(), b.drop_first(), c.drop_first());
    }
}

/// Decides `bytes_lt`.
pub fn bytes_less(a: &[u8], b: &[u8]) -> (r: bool)
    ensures
        r == bytes_lt(a@, b@),
{
    let mut i: usize = 0;
    assert(a@.skip(0) == a@ && b@.skip(0) == b@);
    while i < a.len() && i < b.len()
        invariant
            i <= a.len(),
            i <= b.len(),
            bytes_lt(a@, b@) == bytes_lt(a@.skip(i as int), b@.skip(i as int)),
        decreases a.len() - i,
    {
        assert(a@.skip(i as int)[0] == a@[i as int]);
        assert(b@.skip(i as int)[0] == b@[i as int]);
        if a[i] != b[i] {
            return a[i] < b[i];
        }
        assert(a@.skip(i as int).drop_first() == a@.skip(i + 1));
        assert(b@.skip(i as int).drop_first() == b@.skip(i + 1));
        i = i + 1;
    }
    i < b.len()
}

/// Every step of walking an inner archive gave an entry.
pub open spec fn walkable(listing: Seq<Option<(Seq<u8>, u8)>>) -> bool {
    forall|i: int| 0 <= i < listing.len() ==> (#[trigger] listing[i]) is Some
}

/// Step `i` of a listing is a directory.
pub open spec fn is_directory(listing: Seq<Option<(Seq<u8>, u8)>>, i: int) -> bool {
    0 <= i < listing.len() && match listing[i] {
        Some(entry) => entry.1 == DIRECTORY_FLAG,
        None => false,
    }
}

/// Step `i` of a listing is an entry that is no directory.
pub open spec fn is_plain(listing: Seq<Option<(Seq<u8>, u8)>>, i: int) -> bool {
    0 <= i < listing.len() && match listing[i] {
        Some(entry) => entry.1 != DIRECTORY_FLAG,
        None => false,
    }
}

/// The path of step `i` of a listing.
pub open spec fn path_at(listing: Seq<Option<(Seq<u8>, u8)>>, i: int) -> Seq<u8> {
    match listing[i] {
        Some(entry) => entry.0,
        None => Seq::empty(),
    }
}

/// Directory `i` is finished before directory `j`: its path is the greater
/// one, or the paths are the same and `i` comes first in the archive.
pub open spec fn finished_before(listing: Seq<Option<(Seq<u8>, u8)>>, i: int, j: int) -> bool {
    bytes_lt(path_at(listing, j), path_at(listing, i)) || (path_at(listing, i) == path_at(
        listing,
        j,
    ) && i < j)
}

/// `order` lists the entries of `listing` below step `upto` that are no
/// directories, each once, as the archive lists them.
pub open spec fn is_plain_order(
    listing: Seq<Option<(Seq<u8>, u8)>>,
    upto: int,
    order: Seq<usize>,
) -> bool {
    &&& forall|k: int| 0 <= k < order.len() ==> order[k] < upto && is_plain(listing, #[trigger] order[k] as int)
    &&& forall|i: int| 0 <= i < upto && is_plain(listing, i) ==> exists|k: int| 0 <= k < order.len() && #[trigger] order[k] == i
    &&& forall|k: int, l: int| 0 <= k < l < order.len() ==> #[trigger] order[k] < #[trigger] order[l]
}

/// `order` lists the directories of `listing` below step `upto`, each once,
/// in the order in which they are finished.
pub open spec fn is_directory_order(
    listing: Seq<Option<(Seq<u8>, u8)>>,
    upto: int,
    order: Seq<usize>,
) -> bool {
    &&& forall|k: int| 0 <= k < order.len() ==> order[k] < upto && is_directory(listing, #[trigger] order[k] as int)
    &&& forall|i: int| 0 <= i < upto && is_directory(listing, i) ==> exists|k: int| 0 <= k < order.len() && #[trigger] order[k] == i
    &&& forall|k: int, l: int| 0 <= k < l < order.len() ==> finished_before(listing, #[trigger] order[k] as int, #[trigger] order[l] as int)
}

/// What a listing looks like to the contracts.
pub open spec fn listing_view(listing: Seq<Option<TarEntry>>) -> Seq<Option<(Seq<u8>, u8)>> {
    listing.map_values(|step: Option<TarEntry>| entry_view(step))
}

/// A directory that is put where the directories of smaller path begin keeps
/// the order of finishing.
proof fn lemma_insert_directory(
    listing: Seq<Option<(Seq<u8>, u8)>>,
    i: int,
    order: Seq<usize>,
    p: int,
)
    requires
        is_directory_order(listing, i, order),
        is_directory(listing, i),
        i <= usize::MAX,
        0 <= p <= order.len(),
        forall|k: int| 0 <= k < p ==> !bytes_lt(path_at(listing, #[trigger] order[k] as int), path_at(listing, i)),
        p < order.len() ==> bytes_lt(path_at(listing, order[p] as int), path_at(listing, i)),
    ensures
        is_directory_order(listing, i + 1, order.insert(p, i as usize)),
{
    let new = order.insert(p, i as usize);
    let pi = path_at(listing, i);
    assert forall|l: int| p <= l < order.len() implies bytes_lt(
        path_at(listing, #[trigger] order[l] as int),
        pi,
    ) by {
        if l > p {
            assert(finished_before(listing, order[p] as int, order[l] as int));
            if bytes_lt(path_at(listing, order[l] as int), path_at(listing, order[p] as int)) {
                lemma_lt_transitive(
                    path_at(listing, order[l] as int),
                    path_at(listing, order[p] as int),
                    pi,
                );
            }
        }
    }
    assert forall|k: int| 0 <= k < new.len() implies new[k] < i + 1 && is_directory(
        listing,
        #[trigger] new[k] as int,
    ) by {
        if k < p {
            assert(new[k] == order[k]);
        } else if k > p {
            assert(new[k] == order[k - 1]);
        }
    }
    assert forall|j: int| 0 <= j < i + 1 && is_directory(listing, j) implies exists|k: int|
        0 <= k < new.len() && #[trigger] new[k] == j by {
        if j == i {
            assert(new[p] == j);
        } else {
            let k = choose|k: int| 0 <= k < order.len() && #[trigger] order[k] == j;
            if k < p {
                assert(new[k] == j);
            } else {
                assert(new[k + 1] == j);
            }
        }
    }
    assert forall|k: int, l: int| 0 <= k < l < new.len() implies finished_before(
        listing,
        #[trigger] new[k] as int,
        #[trigger] new[l] as int,
    ) by {
        let a = if k < p {
            k
        } else {
            k - 1
        };
        let b = if l < p {
            l
        } else {
            l - 1
        };
        if k == p {
            assert(new[l] == order[l - 1]);
            assert(bytes_lt(path_at(listing, order[l - 1] as int), pi));
        } else if l == p {
            assert(new[k] == order[k]);
            lemma_lt_total(path_at(listing, order[k] as int), pi);
            assert(order[k] < i);
        } else {
            assert(new[k] == order[a]);
            assert(new[l] == order[b]);
            assert(finished_before(listing, order[a] as int, order[b] as int));
        }
    }
}

/// The path of an entry of a listing.
fn entry_path(listing: &Vec<Option<TarEntry>>, i: usize) -> (path: &[u8])
    requires
        i < listing.len(),
        listing[i as int] is Some,
    ensures
        path@ == path_at(listing_view(listing@), i as int),
{
    match &listing[i] {
        Some(entry) => entry.path.as_slice(),
        None => vstd::pervasive::unreached(),
    }
}

/// Orders the entries of an inner archive for unpacking: first those that
/// are no directories, as the archive lists them, then the directories,
/// from the greatest path down and, among equal paths, as the archive lists
/// them. There is no order where the walk failed at some step.
pub fn unpack_order(listing: &Vec<Option<TarEntry>>) -> (r: Option<(Vec<usize>, Vec<usize>)>)
    ensures
        match r {
            Some(orders) => walkable(listing_view(listing@)) && is_plain_order(
                listing_view(listing@),
                listing.len() as int,
                orders.0@,
            ) && is_directory_order(listing_view(listing@), listing.len() as int, orders.1@),
            None => !walkable(listing_view(listing@)),
        },
{
    let ghost steps = listing_view(listing@);
    let mut plain: Vec<usize> = Vec::new();
    let mut dirs: Vec<usize> = Vec::new();
    let mut i: usize = 0;
    while i < listing.len()
        invariant
            i <= listing.len(),
            steps == listing_view(listing@),
            forall|j: int| 0 <= j < i ==> (#[trigger] steps[j]) is Some,
            is_plain_order(steps, i as int, plain@),
            is_directory_order(steps, i as int, dirs@),
        decreases listing.len() - i,
    {
        match &listing[i] {
            None => {
                assert(steps[i as int] is None);
                return None;
            },
            Some(entry) => {
                assert(steps[i as int] == Some(entry@));
                if entry.flag == DIRECTORY_FLAG {
                    let path = entry.path.as_slice();
                    let mut p: usize = 0;
                    while p < dirs.len() && !bytes_less(entry_path(listing, dirs[p]), path)
                        invariant
                            p <= dirs.len(),
                            i < listing.len(),
                            steps == listing_view(listing@),
                            path@ == path_at(steps, i as int),
                            is_directory_order(steps, i as int, dirs@),
                            forall|k: int|
                                0 <= k < p ==> !bytes_lt(
                                    path_at(steps, #[trigger] dirs@[k] as int),
                                    path_at(steps, i as int),
                                ),
                        decreases dirs.len() - p,
                    {
                        p = p + 1;
                    }
                    proof {
                        lemma_insert_directory(steps, i as int, dirs@, p as int);
                        let ghost old_plain = plain@;
                        assert(is_plain_order(steps, i + 1, plain@)) by {
                            assert forall|j: int| 0 <= j < i + 1 && is_plain(steps, j) implies exists|
                                k: int,
                            | 0 <= k < plain@.len() && #[trigger] plain@[k] == j by {
                                assert(j < i);
                            }
                        }
                    }
                    dirs.insert(p, i);
                } else {
                    let ghost old_plain = plain@;
                    plain.push(i);
                    proof {
                        assert forall|j: int| 0 <= j < i + 1 && is_plain(steps, j) implies exists|
                            k: int,
                        | 0 <= k < plain@.len() && #[trigger] plain@[k] == j by {
                            if j == i {
                                assert(plain@[old_plain.len() as int] == j);
                            } else {
                                let k = choose|k: int|
                                    0 <= k < old_plain.len() && #[trigger] old_plain[k] == j;
                                assert(plain@[k] == j);
                            }
                        }
                        assert forall|k: int, l: int| 0 <= k < l < plain@.len() implies #[trigger] plain@[k]
                            < #[trigger] plain@[l] by {
                            if l == old_plain.len() {
                                assert(old_plain[k] < i);
                            } else {
                                assert(old_plain[k] < old_plain[l]);
                            }
                        }
                        assert forall|k: int| 0 <= k < plain@.len() implies plain@[k] < i + 1
                            && is_plain(steps, #[trigger] plain@[k] as int) by {
                            if k < old_plain.len() {
                                assert(plain@[k] == old_plain[k]);
                            }
                        }
                        assert(is_directory_order(steps, i + 1, dirs@)) by {
                            assert forall|j: int|
                                0 <= j < i + 1 && is_directory(steps, j) implies exists|k: int|
                                0 <= k < dirs@.len() && #[trigger] dirs@[k] == j by {
                                assert(j < i);
                            }
                        }
                    }
                }
            },
        }
        i = i + 1;
    }
    assert(walkable(steps));
    Some((plain, dirs))
}

} // verus!
