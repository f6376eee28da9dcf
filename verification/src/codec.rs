//! Calls into the compression libraries: flate2 (gzip and raw deflate),
//! bzip2 and zstd. Each function here is trusted: Verus takes its contract
//! as given. What a codec produces is named, not described, by the
//! uninterpreted functions below.

use vstd::prelude::*;

verus! {

/// What `flate2::read::GzDecoder` reads from these bytes, or `None` when
/// it reports an error.
pub uninterp spec fn gzip_decoded(data: Seq<u8>) -> Option<Seq<u8>>;

/// What `flate2::write::GzEncoder` at the default level writes for these
/// bytes, or `None` when it reports an error.
pub uninterp spec fn gzip_encoded(data: Seq<u8>) -> Option<Seq<u8>>;

/// What `bzip2::read::BzDecoder` reads from these bytes, or `None`.
pub uninterp spec fn bzip2_decoded(data: Seq<u8>) -> Option<Seq<u8>>;

/// What `bzip2::write::BzEncoder` at the default level writes, or `None`.
pub uninterp spec fn bzip2_encoded(data: Seq<u8>) -> Option<Seq<u8>>;

/// What `zstd::stream::decode_all` returns for these bytes, or `None`.
pub uninterp spec fn zstd_decoded(data: Seq<u8>) -> Option<Seq<u8>>;

/// What `zstd::stream::encode_all` at level 0 returns, or `None`.
pub uninterp spec fn zstd_encoded(data: Seq<u8>) -> Option<Seq<u8>>;

/// How many bytes are left after the raw deflate stream at the start of
/// these bytes, or `None` when the stream is corrupt or incomplete.
pub uninterp spec fn deflate_stream_rest(data: Seq<u8>) -> Option<usize>;

/// How many bytes are left after the bzip2 stream at the start of these
/// bytes, or `None` when the stream is corrupt or incomplete.
pub uninterp spec fn bzip2_stream_rest(data: Seq<u8>) -> Option<usize>;

/// What `zstd_safe::find_frame_compressed_size` returns for these bytes,
/// or `None` for an error code.
pub uninterp spec fn zstd_frame_size(data: Seq<u8>) -> Option<usize>;

/// Decompresses with `flate2::read::GzDecoder` (the first gzip member).
/// Claimed: the result is `gzip_decoded` of the input.
#[verifier::external_body]
pub(crate) fn gzip_decode(data: &[u8]) -> (r: Option<Vec<u8>>)
    ensures
        match r {
            Some(v) => gzip_decoded(data@) == Some(v@),
            None => gzip_decoded(data@) is None,
        },
{
    let mut out = Vec::new();
    match std::io::Read::read_to_end(&mut flate2::read::GzDecoder::new(data), &mut out) {
        Ok(_) => Some(out),
        Err(_) => None,
    }
}

/// Compresses with `flate2::write::GzEncoder` at the default level.
/// Claimed: the result is `gzip_encoded` of the input, and a gzip decoder
/// reads the input back from it.
#[verifier::external_body]
pub(crate) fn gzip_encode(data: &[u8]) -> (r: Option<Vec<u8>>)
    ensures
        match r {
            Some(v) => gzip_encoded(data@) == Some(v@) && gzip_decoded(v@) == Some(data@),
            None => gzip_encoded(data@) is None,
        },
{
    let mut enc = flate2::write::GzEncoder::new(Vec::new(), flate2::Compression::default());
    match std::io::Write::write_all(&mut enc, data) {
        Ok(()) => enc.finish().ok(),
        Err(_) => None,
    }
}

/// Decompresses with `bzip2::read::BzDecoder` (the first bzip2 stream).
/// Claimed: the result is `bzip2_decoded` of the input.
#[verifier::external_body]
pub(crate) fn bzip2_decode(data: &[u8]) -> (r: Option<Vec<u8>>)
    ensures
        match r {
            Some(v) => bzip2_decoded(data@) == Some(v@),
            None => bzip2_decoded(data@) is None,
        },
{
    let mut out = Vec::new();
    match std::io::Read::read_to_end(&mut bzip2::read::BzDecoder::new(data), &mut out) {
        Ok(_) => Some(out),
        Err(_) => None,
    }
}

/// Compresses with `bzip2::write::BzEncoder` at the default level.
/// Claimed: the result is `bzip2_encoded` of the input, and a bzip2
/// decoder reads the input back from it.
#[verifier::external_body]
pub(crate) fn bzip2_encode(data: &[u8]) -> (r: Option<Vec<u8>>)
    ensures
        match r {
            Some(v) => bzip2_encoded(data@) == Some(v@) && bzip2_decoded(v@) == Some(data@),
            None => bzip2_encoded(data@) is None,
        },
{
    let mut enc = bzip2::write::BzEncoder::new(Vec::new(), bzip2::Compression::default());
    match std::io::Write::write_all(&mut enc, data) {
        Ok(()) => enc.finish().ok(),
        Err(_) => None,
    }
}

/// Decompresses with `zstd::stream::decode_all`.
/// Claimed: the result is `zstd_decoded` of the input.
#[verifier::external_body]
pub(crate) fn zstd_decode(data: &[u8]) -> (r: Option<Vec<u8>>)
    ensures
        match r {
            Some(v) => zstd_decoded(data@) == Some(v@),
            None => zstd_decoded(data@) is None,
        },
{
    zstd::stream::decode_all(data).ok()
}

/// Compresses with `zstd::stream::encode_all` at level 0 (zstd's default).
/// Claimed: the result is `zstd_encoded` of the input, and `decode_all`
/// reads the input back from it.
#[verifier::external_body]
pub(crate) fn zstd_encode(data: &[u8]) -> (r: Option<Vec<u8>>)
    ensures
        match r {
            Some(v) => zstd_encoded(data@) == Some(v@) && zstd_decoded(v@) == Some(data@),
            None => zstd_encoded(data@) is None,
        },
{
    zstd::stream::encode_all(data, 0).ok()
}

/// Runs the raw deflate stream at the start of `data` through
/// `flate2::bufread::DeflateDecoder`, which takes from a `&[u8]` only the
/// bytes that the stream occupies, and returns how many bytes it left.
/// Claimed: the result is `deflate_stream_rest` of the input, and no more
/// than the input's length.
#[verifier::external_body]
pub(crate) fn deflate_stream_tail(data: &[u8]) -> (r: Option<usize>)
    ensures
        r == deflate_stream_rest(data@),
        r matches Some(n) ==> n <= data@.len(),
{
    let mut dec = flate2::bufread::DeflateDecoder::new(data);
    match std::io::copy(&mut dec, &mut std::io::sink()) {
        Ok(_) => Some(dec.into_inner().len()),
        Err(_) => None,
    }
}

/// Runs the bzip2 stream at the start of `data` through
/// `bzip2::bufread::BzDecoder`, which takes from a `&[u8]` only the bytes
/// that the stream occupies, and returns how many bytes it left.
/// Claimed: the result is `bzip2_stream_rest` of the input, and no more
/// than the input's length.
#[verifier::external_body]
pub(crate) fn bzip2_stream_tail(data: &[u8]) -> (r: Option<usize>)
    ensures
        r == bzip2_stream_rest(data@),
        r matches Some(n) ==> n <= data@.len(),
{
    let mut dec = bzip2::bufread::BzDecoder::new(data);
    match std::io::copy(&mut dec, &mut std::io::sink()) {
        Ok(_) => Some(dec.into_inner().len()),
        Err(_) => None,
    }
}

/// Calls `zstd::zstd_safe::find_frame_compressed_size` on bytes that start
/// with the zstd frame magic. Claimed: the result is `zstd_frame_size` of
/// the input; a size it reports is positive (a frame header is at least
/// one byte) and no more than the input's length (the library reports an
/// error for a frame that runs past the end).
#[verifier::external_body]
pub(crate) fn zstd_frame_len(data: &[u8]) -> (r: Option<usize>)
    requires
        data@.len() >= 4,
        data@[0] == 0x28 && data@[1] == 0xb5 && data@[2] == 0x2f && data@[3] == 0xfd,
    ensures
        r == zstd_frame_size(data@),
        r matches Some(n) ==> 0 < n <= data@.len(),
{
    zstd::zstd_safe::find_frame_compressed_size(data).ok()
}

} // verus!
