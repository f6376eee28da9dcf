//! Whole-buffer compression and decompression in each supported format.

use vstd::prelude::*;
use vstd::slice::slice_to_vec;

use crate::codec::bzip2_decode;
use crate::codec::bzip2_decoded;
use crate::codec::bzip2_encode;
use crate::codec::bzip2_encoded;
use crate::codec::gzip_decode;
use crate::codec::gzip_decoded;
use crate::codec::gzip_encode;
use crate::codec::gzip_encoded;
use crate::codec::zstd_decode;
use crate::codec::zstd_decoded;
use crate::codec::zstd_encode;
use crate::codec::zstd_encoded;
use crate::segment::Compression;

verus! {

/// A codec reported an error.
#[derive(Debug, Clone, Copy, PartialEq, Eq)]
pub enum CodecError {
    Decompress(Compression),
    Compress(Compression),
}

/// The bytes that decompressing `data` in format `c` gives, or `None`.
pub open spec fn decompressed(data: Seq<u8>, c: Compression) -> Option<Seq<u8>> {
    match c {
        Compression::Uncompressed => Some(data),
        Compression::Gzip => gzip_decoded(data),
        Compression::Bzip2 => bzip2_decoded(data),
        Compression::Zstd => zstd_decoded(data),
    }
}

/// The bytes that compressing `data` in format `c` gives, or `None`.
pub open spec fn compressed(data: Seq<u8>, c: Compression) -> Option<Seq<u8>> {
    match c {
        Compression::Uncompressed => Some(data),
        Compression::Gzip => gzip_encoded(data),
        Compression::Bzip2 => bzip2_encoded(data),
        Compression::Zstd => zstd_encoded(data),
    }
}

/// Decompresses `data` according to the given compression type;
/// `Uncompressed` copies it.
pub fn decompress(data: &[u8], compression: Compression) -> (r: Result<Vec<u8>, CodecError>)
    ensures
        match r {
            Ok(v) => decompressed(data@, compression) == Some(v@),
            Err(e) => decompressed(data@, compression) is None && e == CodecError::Decompress(
                compression,
            ),
        },
{
    let out = match compression {
        Compression::Uncompressed => Some(slice_to_vec(data)),
        Compression::Gzip => gzip_decode(data),
        Compression::Bzip2 => bzip2_decode(data),
        Compression::Zstd => zstd_decode(data),
    };
    match out {
        Some(v) => Ok(v),
        None => Err(CodecError::Decompress(compression)),
    }
}

/// Compresses `data` with the given compression type; `Uncompressed`
/// copies it.
/// Decompressing the result in the same format gives `data` back.
pub fn compress(data: &[u8], compression: Compression) -> (r: Result<Vec<u8>, CodecError>)
    ensures
        match r {
            Ok(v) => compressed(data@, compression) == Some(v@) && decompressed(v@, compression)
                == Some(data@),
            Err(e) => compressed(data@, compression) is None && e == CodecError::Compress(
                compression,
            ),
        },
{
    let out = match compression {
        Compression::Uncompressed => Some(slice_to_vec(data)),
        Compression::Gzip => gzip_encode(data),
        Compression::Bzip2 => bzip2_encode(data),
        Compression::Zstd => zstd_encode(data),
    };
    match out {
        Some(v) => Ok(v),
        None => Err(CodecError::Compress(compression)),
    }
}

} // verus!
