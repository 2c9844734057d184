//! The two containers of a package: the outer `ar` archive and the inner
//! `tar` streams, read through the `ar` and `tar` crates.

use vstd::prelude::*;

verus! {

/// A reader over the members of one outer archive.
#[verifier::external_body]
pub struct OuterReader<'a> {
    inner: ar::Archive<&'a [u8]>,
}

/// One member of an outer archive: its identifier as the header gives it,
/// and its bytes.
pub struct Member {
    pub identifier: Vec<u8>,
    pub data: Vec<u8>,
}

impl View for Member {
    type V = (Seq<u8>, Seq<u8>);

    open spec fn view(&self) -> (Seq<u8>, Seq<u8>) {
        (self.identifier@, self.data@)
    }
}

/// The length of the line that opens an archive.
pub const MAGIC_LEN: usize = 8;

/// The length of the header of a member.
pub const HEADER_LEN: usize = 60;

/// The line that opens an archive, `!<arch>` and a line feed.
pub open spec fn magic() -> Seq<u8> {
    seq![33u8, 60u8, 97u8, 114u8, 99u8, 104u8, 62u8, 10u8]
}

/// The place of the first byte of `field`, from `i` on, that is no decimal
/// digit, or the length of the field.
pub open spec fn digits_end(field: Seq<u8>, i: int) -> int
    decreases field.len() - i,
{
    if 0 <= i < field.len() && 48 <= field[i] <= 57 {
        digits_end(field, i + 1)
    } else {
        i
    }
}

/// The number that the first `n` bytes of `field`, decimal digits, stand
/// for.
pub open spec fn number_value(field: Seq<u8>, n: int) -> nat
    decreases n,
{
    if n <= 0 {
        0
    } else {
        (number_value(field, n - 1) * 10 + (field[n - 1] - 48)) as nat
    }
}

/// The size that a size field gives where it is written plainly: decimal
/// digits, at least one, and then spaces only.
pub open spec fn plain_size(field: Seq<u8>) -> Option<nat> {
    let n = digits_end(field, 0);
    if n > 0 && (forall|j: int| n <= j < field.len() ==> #[trigger] field[j] == 32) {
        Some(number_value(field, n))
    } else {
        None
    }
}

/// The identifier of a header calls for a table of names or of symbols: it
/// begins with `/` or with `#1/`.
pub open spec fn names_a_table(header: Seq<u8>) -> bool {
    header[0] == 47 || (header[0] == 35 && header[1] == 49 && header[2] == 47)
}

/// From the header at `pos` on, the archive is in the common format: no
/// identifier calls for a table, every size is written plainly, and the
/// next header follows the bytes of the member and, after an odd number of
/// them, one byte of padding. What is left of a header cut short counts for
/// nothing.
pub open spec fn common_from(bytes: Seq<u8>, pos: int) -> bool
    decreases bytes.len() - pos,
{
    let header = bytes.subrange(pos, pos + HEADER_LEN);
    let size = plain_size(header.subrange(48, 58));
    if pos < 0 || pos + HEADER_LEN > bytes.len() {
        true
    } else if names_a_table(header) || size is None {
        false
    } else {
        let next = next_header(pos, size.unwrap());
        if next <= bytes.len() {
            common_from(bytes, next)
        } else {
            true
        }
    }
}

/// Where the header after the one at `pos` stands, whose member has `size`
/// bytes.
pub open spec fn next_header(pos: int, size: nat) -> int {
    pos + HEADER_LEN + size + size % 2
}

/// The bytes are an archive in the common format, the one that a package
/// has.
pub open spec fn is_common(bytes: Seq<u8>) -> bool {
    bytes.len() >= MAGIC_LEN && bytes.take(MAGIC_LEN as int) == magic() && common_from(
        bytes,
        MAGIC_LEN as int,
    )
}

/// Reads a size field written plainly.
fn read_size(bytes: &[u8], at: usize) -> (r: Option<u64>)
    requires
        at + 10 <= bytes.len(),
    ensures
        match r {
            Some(size) => plain_size(bytes@.subrange(at as int, at + 10)) == Some(size as nat)
                && size < 10_000_000_000,
            None => plain_size(bytes@.subrange(at as int, at + 10)) is None,
        },
{
    let ghost field = bytes@.subrange(at as int, at + 10);
    let mut value: u64 = 0;
    let mut n: usize = 0;
    while n < 10 && 48 <= bytes[at + n] && bytes[at + n] <= 57
        invariant
            n <= 10,
            at + 10 <= bytes.len(),
            field == bytes@.subrange(at as int, at + 10),
            digits_end(field, 0) == digits_end(field, n as int),
            value == number_value(field, n as int),
            value < pow10(n as nat),
        decreases 10 - n,
    {
        assert(field[n as int] == bytes@[at + n]);
        assert(pow10((n + 1) as nat) == pow10(n as nat) * 10);
        assert(pow10(n as nat) <= 1_000_000_000) by {
            lemma_pow10(n as nat);
        }
        value = value * 10 + (bytes[at + n] - 48) as u64;
        n = n + 1;
    }
    proof {
        if n < 10 {
            assert(field[n as int] == bytes@[at + n]);
        }
        lemma_pow10(n as nat);
    }
    if n == 0 {
        return None;
    }
    let mut k: usize = n;
    while k < 10
        invariant
            0 < n <= k <= 10,
            at + 10 <= bytes.len(),
            field == bytes@.subrange(at as int, at + 10),
            digits_end(field, 0) == n,
            value == number_value(field, n as int),
            forall|j: int| n <= j < k ==> #[trigger] field[j] == 32,
        decreases 10 - k,
    {
        assert(field[k as int] == bytes@[at + k]);
        if bytes[at + k] != 32 {
            return None;
        }
        k = k + 1;
    }
    Some(value)
}

/// Ten to the power of `n`.
pub open spec fn pow10(n: nat) -> nat
    decreases n,
{
    if n == 0 {
        1
    } else {
        pow10((n - 1) as nat) * 10
    }
}

/// The powers of ten up to the tenth.
proof fn lemma_pow10(n: nat)
    requires
        n <= 10,
    ensures
        1 <= pow10(n) <= 10_000_000_000,
        n < 10 ==> pow10(n) <= 1_000_000_000,
{
    reveal_with_fuel(pow10, 11);
}

/// Decides whether bytes are an archive in the common format.
pub fn is_common_archive(bytes: &[u8]) -> (r: bool)
    ensures
        r == is_common(bytes@),
{
    let len = bytes.len();
    if len < MAGIC_LEN {
        return false;
    }
    if !(bytes[0] == 33 && bytes[1] == 60 && bytes[2] == 97 && bytes[3] == 114 && bytes[4] == 99
        && bytes[5] == 104 && bytes[6] == 62 && bytes[7] == 10) {
        assert(bytes@.take(MAGIC_LEN as int) != magic()) by {
            if bytes@.take(MAGIC_LEN as int) == magic() {
                let m = bytes@.take(MAGIC_LEN as int);
                assert(m[0] == 33 && m[1] == 60 && m[2] == 97 && m[3] == 114 && m[4] == 99 && m[5]
                    == 104 && m[6] == 62 && m[7] == 10);
            }
        }
        return false;
    }
    assert(bytes@.take(MAGIC_LEN as int) =~= magic());
    let mut pos: usize = MAGIC_LEN;
    while len - pos >= HEADER_LEN
        invariant
            MAGIC_LEN <= pos <= len == bytes.len(),
            bytes@.take(MAGIC_LEN as int) == magic(),
            common_from(bytes@, MAGIC_LEN as int) == common_from(bytes@, pos as int),
        decreases len - pos,
    {
        let ghost header = bytes@.subrange(pos as int, pos + HEADER_LEN);
        assert(header[0] == bytes@[pos as int] && header[1] == bytes@[pos + 1] && header[2]
            == bytes@[pos + 2]);
        if bytes[pos] == 47 || (bytes[pos] == 35 && bytes[pos + 1] == 49 && bytes[pos + 2] == 47) {
            return false;
        }
        assert(header.subrange(48, 58) =~= bytes@.subrange(pos + 48, pos + 58));
        let size = match read_size(bytes, pos + 48) {
            Some(size) => size,
            None => {
                return false;
            },
        };
        let step: u64 = size + size % 2;
        let left = len - pos - HEADER_LEN;
        assert(next_header(pos as int, size as nat) == pos + HEADER_LEN + step);
        if step > left as u64 {
            assert(common_from(bytes@, pos as int));
            return true;
        }
        assert(common_from(bytes@, pos as int) == common_from(
            bytes@,
            next_header(pos as int, size as nat),
        ));
        pos = pos + HEADER_LEN + step as usize;
    }
    assert(common_from(bytes@, pos as int));
    true
}

/// What reading the archive `input` yields, step by step: each member, or
/// `None` where the reader fails.
pub uninterp spec fn ar_listing(input: Seq<u8>) -> Seq<Option<(Seq<u8>, Seq<u8>)>>;

/// What a reader has yet to yield.
pub uninterp spec fn ar_pending(reader: OuterReader) -> Seq<Option<(Seq<u8>, Seq<u8>)>>;

/// The bytes that a reader was opened over.
pub uninterp spec fn ar_source(reader: OuterReader) -> Seq<u8>;

/// Opens a reader over the bytes of an archive.
///
/// Trusted: `ar::Archive::new`, which reads nothing yet; what the reader will
/// yield is a function of the bytes alone.
#[verifier::external_body]
pub(crate) fn open_outer<'a>(input: &'a [u8]) -> (reader: OuterReader<'a>)
    ensures
        ar_pending(reader) == ar_listing(input@),
        ar_source(reader) == input@,
{
    OuterReader { inner: ar::Archive::new(input) }
}

/// Yields the next member of an archive, with its bytes read in full. The
/// reader must stand over an archive in the common format: on an
/// identifier that calls for a table of names the `ar` crate may index past
/// the table it has.
///
/// Trusted: `ar::Archive::next_entry`, `ar::Entry::header`,
/// `ar::Header::identifier` and the entry's `read_to_end`. The reader hands
/// out what it has pending, one step at a call and in order, and nothing
/// once that is used up; a step at which it fails comes out as `None`
/// inside `Some`.
#[verifier::external_body]
pub(crate) fn next_member(reader: &mut OuterReader) -> (r: Option<Option<Member>>)
    requires
        is_common(ar_source(*old(reader))),
    ensures
        ar_source(*final(reader)) == ar_source(*old(reader)),
        match r {
            Some(step) => ar_pending(*old(reader)).len() > 0 && member_view(step) == ar_pending(
                *old(reader),
            )[0] && ar_pending(*final(reader)) == ar_pending(*old(reader)).drop_first(),
            None => ar_pending(*old(reader)).len() == 0 && ar_pending(*final(reader)).len() == 0,
        },
{
    let mut entry = match reader.inner.next_entry()? {
        Ok(entry) => entry,
        Err(_) => return Some(None),
    };
    let identifier = entry.header().identifier().to_vec();
    let mut data = Vec::new();
    match std::io::Read::read_to_end(&mut entry, &mut data) {
        Ok(_) => Some(Some(Member { identifier, data })),
        Err(_) => Some(None),
    }
}

/// What one step of a reader looks like to the contracts.
pub open spec fn member_view(step: Option<Member>) -> Option<(Seq<u8>, Seq<u8>)> {
    match step {
        Some(m) => Some(m@),
        None => None,
    }
}

/// The bytes of an optional buffer.
pub open spec fn bytes_view(bytes: Option<Vec<u8>>) -> Option<Seq<u8>> {
    match bytes {
        Some(b) => Some(b@),
        None => None,
    }
}

/// One entry of an inner archive: its path as the archive holds it, and the
/// type flag of its header.
pub struct TarEntry {
    pub path: Vec<u8>,
    pub flag: u8,
}

impl View for TarEntry {
    type V = (Seq<u8>, u8);

    open spec fn view(&self) -> (Seq<u8>, u8) {
        (self.path@, self.flag)
    }
}

/// What one step of walking an inner archive looks like to the contracts.
pub open spec fn entry_view(step: Option<TarEntry>) -> Option<(Seq<u8>, u8)> {
    match step {
        Some(e) => Some(e@),
        None => None,
    }
}

/// What walking the inner archive `input` yields, step by step: the path
/// and type flag of each entry, or `None` where the walk fails.
pub uninterp spec fn tar_listing(input: Seq<u8>) -> Seq<Option<(Seq<u8>, u8)>>;

/// Walks an inner archive and lists its entries.
///
/// Trusted: `tar::Archive::new`, `tar::Archive::entries` and the iterator it
/// returns, with `tar::Entry::path_bytes` and the type flag of
/// `tar::Entry::header` for each entry. The list is a function of the bytes
/// alone. A walk that cannot begin is listed as one failed step.
#[verifier::external_body]
pub(crate) fn list_inner(input: &[u8]) -> (r: Vec<Option<TarEntry>>)
    ensures
        r@.map_values(|step: Option<TarEntry>| entry_view(step)) == tar_listing(input@),
{
    let mut archive = tar::Archive::new(input);
    match archive.entries() {
        Ok(entries) => entries.map(
            |step|
                step.ok().map(
                    |e|
                        TarEntry {
                            path: e.path_bytes().into_owned(),
                            flag: e.header().entry_type().as_byte(),
                        },
                ),
        ).collect(),
        Err(_) => vec![None],
    }
}

/// The bytes of the entry that step `index` of walking `input` yields, where
/// there is such an entry and it can be read.
pub uninterp spec fn tar_body(input: Seq<u8>, index: nat) -> Option<Seq<u8>>;

/// Reads the body of one entry of an inner archive.
///
/// Trusted: `tar::Archive::entries`, the iterator's `nth` and the entry's
/// `read_to_end`. The result is a function of the bytes and the index.
#[verifier::external_body]
pub(crate) fn read_body(input: &[u8], index: usize) -> (r: Option<Vec<u8>>)
    ensures
        bytes_view(r) == tar_body(input@, index as nat),
{
    let mut archive = tar::Archive::new(input);
    let mut entry = archive.entries().ok()?.nth(index)?.ok()?;
    let mut body = Vec::new();
    std::io::Read::read_to_end(&mut entry, &mut body).ok()?;
    Some(body)
}

/// The text that `bytes` stand for when each ill-formed part is replaced by
/// the replacement character.
pub uninterp spec fn lossy_utf8(bytes: Seq<u8>) -> Seq<char>;

/// Reads bytes as text, replacing what is not UTF-8.
///
/// Trusted: `String::from_utf8_lossy` of the standard library, whose result
/// is a function of the bytes alone.
#[verifier::external_body]
pub(crate) fn lossy_text(bytes: &[u8]) -> (r: String)
    ensures
        r@ == lossy_utf8(bytes@),
{
    String::from_utf8_lossy(bytes).into_owned()
}

/// Reads bytes as text, or refuses them.
///
/// Trusted: `String::from_utf8` of the standard library, which succeeds
/// exactly on well-formed UTF-8 and then gives the text that the bytes
/// encode.
#[verifier::external_body]
pub(crate) fn strict_text(bytes: Vec<u8>) -> (r: Option<String>)
    ensures
        match r {
            Some(s) => vstd::utf8::valid_utf8(bytes@) && s@ == vstd::utf8::decode_utf8(bytes@),
            None => !vstd::utf8::valid_utf8(bytes@),
        },
{
    String::from_utf8(bytes).ok()
}

} // verus!
