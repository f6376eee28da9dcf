//! What the `info` listing reports about each segment.

use vstd::prelude::*;

use crate::compression::decompress;
use crate::compression::decompressed;
use crate::compression::CodecError;
use crate::cpio::file_type_bits;
use crate::cpio::parse_from;
use crate::cpio::parse_walk;
use crate::cpio::CpioArchive;
use crate::cpio::CpioEntry;
use crate::cpio::CpioError;
use crate::cpio::ParseOutcome;
use crate::cpio::ParseWalk;
use crate::segment::Compression;
use crate::segment::RawSegment;

verus! {

/// One row of the listing.
#[derive(Debug, Clone, PartialEq, Eq)]
pub struct SegmentSummary {
    pub offset: usize,
    pub compressed_size: usize,
    pub compression: Compression,
    pub decompressed_size: usize,
    pub entry_count: usize,
    /// The first entry's name, or empty for an archive without entries.
    pub first_entry: String,
}

/// Why a segment could not be listed.
#[derive(Debug, Clone, Copy, PartialEq, Eq)]
pub enum InfoError {
    Codec(CodecError),
    Cpio(CpioError),
    /// A CPIO header at this offset of the decompressed data has a name
    /// size of zero.
    EmptyName { offset: usize },
}

/// Decompresses and parses a segment for the listing. Returns the row and
/// the parsed archive, whose entries the verbose listing shows.
pub fn summarize_segment(seg: &RawSegment) -> (r: Result<(SegmentSummary, CpioArchive), InfoError>)
    ensures
        match decompressed(seg.data@, seg.compression) {
            None => r == Err::<(SegmentSummary, CpioArchive), InfoError>(
                InfoError::Codec(CodecError::Decompress(seg.compression)),
            ),
            Some(d) => match parse_from(d, 0) {
                ParseWalk::Done { entries, .. } => r matches Ok((s, a)) && a@ == entries
                    && s.offset == seg.offset && s.compressed_size == seg.data@.len()
                    && s.compression == seg.compression && s.decompressed_size == d.len()
                    && s.entry_count == entries.len() && s.first_entry@ == (if entries.len() > 0 {
                    entries[0].name
                } else {
                    Seq::<char>::empty()
                }),
                ParseWalk::Fail { error } => r == Err::<(SegmentSummary, CpioArchive), InfoError>(
                    InfoError::Cpio(error),
                ),
                ParseWalk::EmptyName { offset } => r == Err::<(SegmentSummary, CpioArchive), InfoError>(
                    InfoError::EmptyName { offset: offset as usize },
                ),
            },
        },
{
    let data = match decompress(seg.data.as_slice(), seg.compression) {
        Ok(d) => d,
        Err(e) => {
            return Err(InfoError::Codec(e));
        },
    };
    match parse_walk(data.as_slice()) {
        ParseOutcome::Failed(e) => Err(InfoError::Cpio(e)),
        ParseOutcome::EmptyName(o) => Err(InfoError::EmptyName { offset: o }),
        ParseOutcome::Parsed(archive, _) => {
            let first_entry = if archive.entries.len() > 0 {
                assert(archive@[0] == archive.entries@[0]@);
                archive.entries[0].name.clone()
            } else {
                String::new()
            };
            let summary = SegmentSummary {
                offset: seg.offset,
                compressed_size: seg.data.len(),
                compression: seg.compression,
                decompressed_size: data.len(),
                entry_count: archive.entries.len(),
                first_entry,
            };
            Ok((summary, archive))
        },
    }
}

/// The word the verbose listing shows for an entry's type.
pub open spec fn kind_label(mode: u32) -> Seq<char> {
    if file_type_bits(mode) == 0o040000 {
        seq!['d', 'i', 'r']
    } else if file_type_bits(mode) == 0o120000 {
        seq!['l', 'i', 'n', 'k']
    } else {
        seq!['f', 'i', 'l', 'e']
    }
}

/// `dir`, `link`, or `file` for anything else.
pub fn entry_kind(entry: &CpioEntry) -> (s: &'static str)
    ensures
        s@ == kind_label(entry.mode),
{
    if entry.is_dir() {
        proof {
            reveal_strlit("dir");
        }
        "dir"
    } else if entry.is_symlink() {
        proof {
            reveal_strlit("link");
        }
        "link"
    } else {
        proof {
            reveal_strlit("file");
        }
        "file"
    }
}

/// The plural ending of "archive" for a count: none for one, `s` otherwise.
pub fn plural_suffix(n: usize) -> (s: &'static str)
    ensures
        n == 1 ==> s@ == Seq::<char>::empty(),
        n != 1 ==> s@ == seq!['s'],
{
    if n == 1 {
        proof {
            reveal_strlit("");
        }
        ""
    } else {
        proof {
            reveal_strlit("s");
        }
        "s"
    }
}

} // verus!
