//! The gzip codec under the frames, from the flate2 crate.
use vstd::prelude::*;
use std::io::Read;
use std::io::Write;

verus! {

/// The gzip stream that flate2 writes for `data` at its best compression
/// level, or `None` where it reports a failure.
pub uninterp spec fn gzip_best(data: Seq<u8>) -> Option<Seq<u8>>;

/// What flate2 decodes from `data` read as a sequence of gzip members, or
/// `None` where `data` is no such sequence.
pub uninterp spec fn gunzip_members(data: Seq<u8>) -> Option<Seq<u8>>;

/// Relies on `flate2::write::GzEncoder` with `Compression::best()`, writing
/// into a `Vec`: the stream depends on `data` alone, since the header that
/// flate2 writes carries no time stamp and a fixed system byte.
#[verifier::external_body]
pub(crate) fn compress(data: &[u8]) -> (r: Option<Vec<u8>>)
    ensures
        match r {
            Some(v) => gzip_best(data@) == Some(v@),
            None => gzip_best(data@) is None,
        },
{
    let mut encoder = flate2::write::GzEncoder::new(Vec::new(), flate2::Compression::best());
    encoder.write_all(data).ok()?;
    encoder.finish().ok()
}

/// Relies on `flate2::read::MultiGzDecoder` and `Read::read_to_end`: the
/// decoded bytes of every member in `data`, or an error where it is not gzip.
#[verifier::external_body]
pub(crate) fn decompress(data: &[u8]) -> (r: Option<Vec<u8>>)
    ensures
        match r {
            Some(v) => gunzip_members(data@) == Some(v@),
            None => gunzip_members(data@) is None,
        },
{
    let mut out = Vec::new();
    match flate2::read::MultiGzDecoder::new(data).read_to_end(&mut out) {
        Ok(_) => Some(out),
        Err(_) => None,
    }
}

} // verus!
