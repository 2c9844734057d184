//! The four compression formats of inner archives, each read through its
//! crate, and the choice among them by a member's name.

use vstd::prelude::*;
use crate::archive::bytes_view;
use crate::text;

verus! {

/// What decompressing the gzip stream `input` gives, where it succeeds.
pub uninterp spec fn gzip_decoded(input: Seq<u8>) -> Option<Seq<u8>>;

/// What decompressing the xz stream `input` gives, where it succeeds.
pub uninterp spec fn xz_decoded(input: Seq<u8>) -> Option<Seq<u8>>;

/// What decompressing the bzip2 stream `input` gives, where it succeeds.
pub uninterp spec fn bzip2_decoded(input: Seq<u8>) -> Option<Seq<u8>>;

/// What decompressing the zstd stream `input` gives, where it succeeds.
pub uninterp spec fn zstd_decoded(input: Seq<u8>) -> Option<Seq<u8>>;

/// Decompresses a gzip stream.
///
/// Trusted: `flate2::read::GzDecoder::new`, read to its end. The outcome is
/// a function of the input alone.
#[verifier::external_body]
pub(crate) fn gunzip(input: &[u8]) -> (r: Option<Vec<u8>>)
    ensures
        bytes_view(r) == gzip_decoded(input@),
{
    let mut out = Vec::new();
    match std::io::Read::read_to_end(&mut flate2::read::GzDecoder::new(input), &mut out) {
        Ok(_) => Some(out),
        Err(_) => None,
    }
}

/// Decompresses an xz stream.
///
/// Trusted: `xz2::read::XzDecoder::new`, read to its end. The outcome is a
/// function of the input alone.
#[verifier::external_body]
pub(crate) fn unxz(input: &[u8]) -> (r: Option<Vec<u8>>)
    ensures
        bytes_view(r) == xz_decoded(input@),
{
    let mut out = Vec::new();
    match std::io::Read::read_to_end(&mut xz2::read::XzDecoder::new(input), &mut out) {
        Ok(_) => Some(out),
        Err(_) => None,
    }
}

/// Decompresses a bzip2 stream.
///
/// Trusted: `bzip2::read::BzDecoder::new`, read to its end. The outcome is a
/// function of the input alone.
#[verifier::external_body]
pub(crate) fn bunzip2(input: &[u8]) -> (r: Option<Vec<u8>>)
    ensures
        bytes_view(r) == bzip2_decoded(input@),
{
    let mut out = Vec::new();
    match std::io::Read::read_to_end(&mut bzip2::read::BzDecoder::new(input), &mut out) {
        Ok(_) => Some(out),
        Err(_) => None,
    }
}

/// Decompresses a zstd stream.
///
/// Trusted: `zstd::stream::read::Decoder::new`, read to its end; a decoder
/// that cannot be set up counts as a failure. The outcome is a function of
/// the input alone.
#[verifier::external_body]
pub(crate) fn unzstd(input: &[u8]) -> (r: Option<Vec<u8>>)
    ensures
        bytes_view(r) == zstd_decoded(input@),
{
    let mut out = Vec::new();
    let mut decoder = zstd::stream::read::Decoder::new(input).ok()?;
    match std::io::Read::read_to_end(&mut decoder, &mut out) {
        Ok(_) => Some(out),
        Err(_) => None,
    }
}

/// A compression format of an inner archive.
#[derive(Clone, Copy, Debug, PartialEq, Eq, Structural)]
pub enum Codec {
    Gzip,
    Xz,
    Bzip2,
    Zstd,
}

/// The format that a member's name calls for: the name ends in `.tar.gz`,
/// `.tar.xz`, `.tar.bz2` or `.tar.zst`, letter for letter, or there is none.
pub open spec fn codec_of(name: Seq<char>) -> Option<Codec> {
    if text::ends_with(name, ".tar.gz"@) {
        Some(Codec::Gzip)
    } else if text::ends_with(name, ".tar.xz"@) {
        Some(Codec::Xz)
    } else if text::ends_with(name, ".tar.bz2"@) {
        Some(Codec::Bzip2)
    } else if text::ends_with(name, ".tar.zst"@) {
        Some(Codec::Zstd)
    } else {
        None
    }
}

/// What decompressing `data` in the given format gives, where it succeeds.
pub open spec fn decoded_as(codec: Codec, data: Seq<u8>) -> Option<Seq<u8>> {
    match codec {
        Codec::Gzip => gzip_decoded(data),
        Codec::Xz => xz_decoded(data),
        Codec::Bzip2 => bzip2_decoded(data),
        Codec::Zstd => zstd_decoded(data),
    }
}

/// The decompressed stream of the member `name` with the bytes `data`:
/// absent where the name calls for no format or the decoder fails.
pub open spec fn decoded(name: Seq<char>, data: Seq<u8>) -> Option<Seq<u8>> {
    match codec_of(name) {
        Some(codec) => decoded_as(codec, data),
        None => None,
    }
}

/// Chooses the format by the name of a member.
pub fn codec_for(name: &str) -> (r: Option<Codec>)
    ensures
        r == codec_of(name@),
{
    let v = text::chars_of(name);
    let n = v.len();
    assert(v@.subrange(0, n as int) == name@);
    if text::has_suffix(&v, 0, n, ".tar.gz") {
        Some(Codec::Gzip)
    } else if text::has_suffix(&v, 0, n, ".tar.xz") {
        Some(Codec::Xz)
    } else if text::has_suffix(&v, 0, n, ".tar.bz2") {
        Some(Codec::Bzip2)
    } else if text::has_suffix(&v, 0, n, ".tar.zst") {
        Some(Codec::Zstd)
    } else {
        None
    }
}

/// Decompresses `data` in the given format.
pub fn decode_as(codec: Codec, data: &[u8]) -> (r: Option<Vec<u8>>)
    ensures
        bytes_view(r) == decoded_as(codec, data@),
{
    match codec {
        Codec::Gzip => gunzip(data),
        Codec::Xz => unxz(data),
        Codec::Bzip2 => bunzip2(data),
        Codec::Zstd => unzstd(data),
    }
}

/// Yields the decompressed stream of a member, chosen by its name. A name
/// that ends in none of the four suffixes gives no stream, and no decoder is
/// then run on the data.
pub fn decode(name: &str, data: &[u8]) -> (r: Option<Vec<u8>>)
    ensures
        bytes_view(r) == decoded(name@, data@),
        codec_of(name@) is None ==> r is None,
{
    match codec_for(name) {
        Some(codec) => decode_as(codec, data),
        None => None,
    }
}

/// The choice of a format leaves nothing out: a name that ends in one of
/// the four suffixes has the format of that suffix, and any other name has
/// none.
pub proof fn lemma_codec_of(name: Seq<char>)
    ensures
        text::ends_with(name, ".tar.gz"@) ==> codec_of(name) == Some(Codec::Gzip),
        text::ends_with(name, ".tar.xz"@) ==> codec_of(name) == Some(Codec::Xz),
        text::ends_with(name, ".tar.bz2"@) ==> codec_of(name) == Some(Codec::Bzip2),
        text::ends_with(name, ".tar.zst"@) ==> codec_of(name) == Some(Codec::Zstd),
        !text::ends_with(name, ".tar.gz"@) && !text::ends_with(name, ".tar.xz"@)
            && !text::ends_with(name, ".tar.bz2"@) && !text::ends_with(name, ".tar.zst"@)
            ==> codec_of(name) is None,
{
    reveal_strlit(".tar.gz");
    reveal_strlit(".tar.xz");
    reveal_strlit(".tar.bz2");
    reveal_strlit(".tar.zst");
    let n = name.len() as int;
    if text::ends_with(name, ".tar.gz"@) {
        assert(name.subrange(n - 7, n)[6] == 'z');
        assert(name[n - 1] == 'z');
    }
    if text::ends_with(name, ".tar.xz"@) {
        assert(name.subrange(n - 7, n)[6] == 'z' && name.subrange(n - 7, n)[5] == 'x');
        assert(name[n - 2] == 'x');
        if text::ends_with(name, ".tar.gz"@) {
            assert(name.subrange(n - 7, n)[5] == 'g');
        }
    }
    if text::ends_with(name, ".tar.bz2"@) {
        assert(name.subrange(n - 8, n)[7] == '2');
        assert(name[n - 1] == '2');
    }
    if text::ends_with(name, ".tar.zst"@) {
        assert(name.subrange(n - 8, n)[7] == 't');
        assert(name[n - 1] == 't');
    }
}

} // verus!
