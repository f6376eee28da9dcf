//! Splitting an initramfs image into its segments, and telling their
//! compression formats apart.

use vstd::prelude::*;
use vstd::slice::slice_to_vec;
use vstd::utf8::encode_utf8;
use vstd::utf8::is_ascii_chars;
use vstd::utf8::is_ascii_chars_encode_utf8;

use crate::codec::bzip2_stream_rest;
use crate::codec::bzip2_stream_tail;
use crate::codec::deflate_stream_rest;
use crate::codec::deflate_stream_tail;
use crate::codec::zstd_frame_len;
use crate::codec::zstd_frame_size;
use crate::cpio::newc_magic;
use crate::cpio::scan_from;
use crate::cpio::scan_walk;
use crate::cpio::ScanOutcome;
use crate::cpio::ScanWalk;

verus! {

/// Compression format of a segment.
#[derive(Debug, Clone, Copy, PartialEq, Eq)]
pub enum Compression {
    Uncompressed,
    Gzip,
    Bzip2,
    Zstd,
}

/// The format that the magic bytes at the start of `data` announce.
pub open spec fn detected_compression(data: Seq<u8>) -> Option<Compression> {
    if data.len() >= 6 && data.subrange(0, 6) == newc_magic() {
        Some(Compression::Uncompressed)
    } else if data.len() >= 2 && data[0] == 0x1f && data[1] == 0x8b {
        Some(Compression::Gzip)
    } else if data.len() >= 3 && data[0] == 66 && data[1] == 90 && data[2] == 104 {
        Some(Compression::Bzip2)
    } else if data.len() >= 4 && data[0] == 0x28 && data[1] == 0xb5 && data[2] == 0x2f && data[3]
        == 0xfd {
        Some(Compression::Zstd)
    } else {
        None
    }
}

/// Detects the compression format from magic bytes: `070701` (an
/// uncompressed CPIO archive), `1f 8b` (gzip), `BZh` (bzip2) or
/// `28 b5 2f fd` (zstd), tested in that order.
pub fn detect_compression(data: &[u8]) -> (r: Option<Compression>)
    ensures
        r == detected_compression(data@),
{
    if data.len() >= 6 && data[0] == 48 && data[1] == 55 && data[2] == 48 && data[3] == 55
        && data[4] == 48 && data[5] == 49 {
        assert(data@.subrange(0, 6) =~= newc_magic());
        Some(Compression::Uncompressed)
    } else {
        assert(!(data@.len() >= 6 && data@.subrange(0, 6) == newc_magic())) by {
            if data@.len() >= 6 && data@.subrange(0, 6) == newc_magic() {
                let s = data@.subrange(0, 6);
                assert(s[0] == 48 && s[1] == 55 && s[2] == 48 && s[3] == 55 && s[4] == 48 && s[5]
                    == 49);
            }
        }
        if data.len() >= 2 && data[0] == 0x1f && data[1] == 0x8b {
            Some(Compression::Gzip)
        } else if data.len() >= 3 && data[0] == 66 && data[1] == 90 && data[2] == 104 {
            Some(Compression::Bzip2)
        } else if data.len() >= 4 && data[0] == 0x28 && data[1] == 0xb5 && data[2] == 0x2f
            && data[3] == 0xfd {
            Some(Compression::Zstd)
        } else {
            None
        }
    }
}

/// Why the size of a compressed stream could not be found.
#[derive(Debug, Clone, Copy, PartialEq, Eq)]
pub enum SizeError {
    /// Fewer than the ten bytes of a gzip header.
    GzipTooShort,
    /// No gzip magic.
    NotGzip,
    /// The FEXTRA length field is cut off.
    GzipTruncatedExtra,
    /// The optional gzip header fields run past the end of the data.
    GzipHeaderOverrun,
    /// The deflate stream is corrupt or incomplete.
    Deflate,
    /// The bzip2 stream is corrupt or incomplete.
    Bzip2,
    /// A zstd frame is corrupt or incomplete.
    ZstdFrame,
}

/// Where the bytes after the NUL-terminated field at `p` start: one past
/// the first NUL at or after `p`, or one past the end of the data.
pub open spec fn after_nul(data: Seq<u8>, p: nat) -> nat
    decreases data.len() - p,
{
    if p < data.len() && data[p as int] != 0 {
        after_nul(data, p + 1)
    } else {
        p + 1
    }
}

/// Where the deflate stream starts after a gzip header whose fixed ten
/// bytes are present: after FEXTRA (length-prefixed), FNAME and FCOMMENT
/// (NUL-terminated) and FHCRC (two bytes), each present when its flag bit
/// is set.
pub open spec fn gzip_header_end(data: Seq<u8>) -> nat {
    let flg = data[3];
    let p1: nat = if flg & 4 != 0 {
        (12 + data[10] + data[11] * 256) as nat
    } else {
        10
    };
    let p2 = if flg & 8 != 0 {
        after_nul(data, p1)
    } else {
        p1
    };
    let p3 = if flg & 16 != 0 {
        after_nul(data, p2)
    } else {
        p2
    };
    if flg & 2 != 0 {
        p3 + 2
    } else {
        p3
    }
}

/// The size of the gzip member at the start of `data`: header, deflate
/// stream, and the eight-byte CRC32 and ISIZE footer.
pub open spec fn gzip_size(data: Seq<u8>) -> Result<nat, SizeError> {
    if data.len() < 10 {
        Err(SizeError::GzipTooShort)
    } else if !(data[0] == 0x1f && data[1] == 0x8b) {
        Err(SizeError::NotGzip)
    } else if data[3] & 4 != 0 && 12 > data.len() {
        Err(SizeError::GzipTruncatedExtra)
    } else if gzip_header_end(data) > data.len() {
        Err(SizeError::GzipHeaderOverrun)
    } else {
        let h = gzip_header_end(data);
        match deflate_stream_rest(data.subrange(h as int, data.len() as int)) {
            None => Err(SizeError::Deflate),
            Some(rest) => Ok((h + (data.len() - h - rest) + 8) as nat),
        }
    }
}

/// The size of the bzip2 stream at the start of `data`.
pub open spec fn bzip2_size(data: Seq<u8>) -> Result<nat, SizeError> {
    match bzip2_stream_rest(data) {
        None => Err(SizeError::Bzip2),
        Some(rest) => Ok((data.len() - rest) as nat),
    }
}

pub open spec fn zstd_magic_at(data: Seq<u8>, p: nat) -> bool {
    p + 4 <= data.len() && data[p as int] == 0x28 && data[p + 1 as int] == 0xb5 && data[p + 2 as int] == 0x2f
        && data[p + 3 as int] == 0xfd
}

/// Where the run of zstd frames starting at `p` ends: frames follow one
/// another as long as the zstd magic does.
pub open spec fn zstd_frames_end(data: Seq<u8>, p: nat) -> Result<nat, SizeError>
    decreases data.len() - p,
{
    if p >= data.len() || !zstd_magic_at(data, p) {
        Ok(p)
    } else {
        match zstd_frame_size(data.subrange(p as int, data.len() as int)) {
            None => Err(SizeError::ZstdFrame),
            Some(n) => if 0 < n && p + n <= data.len() {
                zstd_frames_end(data, (p + n) as nat)
            } else {
                Err(SizeError::ZstdFrame)
            },
        }
    }
}

/// How many bytes of `data` the stream at its start occupies.
pub open spec fn compressed_size_of(data: Seq<u8>, comp: Compression) -> Result<nat, SizeError> {
    match comp {
        Compression::Uncompressed => Ok(data.len()),
        Compression::Gzip => gzip_size(data),
        Compression::Bzip2 => bzip2_size(data),
        Compression::Zstd => zstd_frames_end(data, 0),
    }
}

proof fn lemma_after_nul_past(data: Seq<u8>, p: nat)
    ensures
        after_nul(data, p) > p,
    decreases data.len() - p,
{
    if p < data.len() && data[p as int] != 0 {
        lemma_after_nul_past(data, p + 1);
    }
}

/// The first NUL at or after `p`, if there is one.
fn find_nul(data: &[u8], p: usize) -> (r: Option<usize>)
    requires
        p <= data@.len(),
    ensures
        r matches Some(q) ==> q < data@.len() && after_nul(data@, p as nat) == q + 1,
        r is None ==> after_nul(data@, p as nat) == data@.len() + 1,
{
    let mut q = p;
    while q < data.len() && data[q] != 0
        invariant
            p <= q <= data@.len(),
            after_nul(data@, q as nat) == after_nul(data@, p as nat),
        decreases data@.len() - q,
    {
        q = q + 1;
    }
    if q < data.len() {
        Some(q)
    } else {
        None
    }
}

/// The size of a gzip member, as [`gzip_size`] states it: the header is
/// parsed here, the deflate stream's extent is found by the decoder, and
/// the eight footer bytes are added. `Ok(None)`: a size past the end of
/// the data, too large for a `usize`.
fn gzip_compressed_size(data: &[u8]) -> (r: Result<Option<usize>, SizeError>)
    ensures
        match r {
            Ok(Some(n)) => gzip_size(data@) == Ok::<nat, SizeError>(n as nat),
            Ok(None) => gzip_size(data@) matches Ok(n) && n > data@.len(),
            Err(e) => gzip_size(data@) == Err::<nat, SizeError>(e),
        },
{
    let len = data.len();
    if len < 10 {
        return Err(SizeError::GzipTooShort);
    }
    if !(data[0] == 0x1f && data[1] == 0x8b) {
        return Err(SizeError::NotGzip);
    }
    let flg = data[3];
    let ghost d = data@;
    let ghost p1: nat = if flg & 4 != 0 {
        (12 + d[10] + d[11] * 256) as nat
    } else {
        10
    };
    let ghost p2: nat = if flg & 8 != 0 {
        after_nul(d, p1)
    } else {
        p1
    };
    let ghost p3: nat = if flg & 16 != 0 {
        after_nul(d, p2)
    } else {
        p2
    };
    proof {
        lemma_after_nul_past(d, p1);
        lemma_after_nul_past(d, p2);
        assert(gzip_header_end(d) >= p3 && p3 >= p2 && p2 >= p1);
    }
    let mut pos: usize = 10;
    if flg & 4 != 0 {
        if len < 12 {
            return Err(SizeError::GzipTruncatedExtra);
        }
        let xlen = data[10] as usize + (data[11] as usize) * 256;
        if xlen > len - 12 {
            return Err(SizeError::GzipHeaderOverrun);
        }
        pos = 12 + xlen;
    }
    assert(pos == p1);
    if flg & 8 != 0 {
        match find_nul(data, pos) {
            Some(q) => {
                pos = q + 1;
            },
            None => {
                return Err(SizeError::GzipHeaderOverrun);
            },
        }
    }
    assert(pos == p2);
    if flg & 16 != 0 {
        match find_nul(data, pos) {
            Some(q) => {
                pos = q + 1;
            },
            None => {
                return Err(SizeError::GzipHeaderOverrun);
            },
        }
    }
    assert(pos == p3);
    if flg & 2 != 0 {
        if len - pos < 2 {
            return Err(SizeError::GzipHeaderOverrun);
        }
        pos = pos + 2;
    }
    assert(pos == gzip_header_end(d));
    match deflate_stream_tail(&data[pos..len]) {
        None => Err(SizeError::Deflate),
        Some(rest) => {
            let body = len - rest;
            if body > usize::MAX - 8 {
                Ok(None)
            } else {
                Ok(Some(body + 8))
            }
        },
    }
}

/// The exact size of the bzip2 stream at the start of `data`.
fn bzip2_compressed_size(data: &[u8]) -> (r: Result<usize, SizeError>)
    ensures
        match r {
            Ok(n) => bzip2_size(data@) == Ok::<nat, SizeError>(n as nat),
            Err(e) => bzip2_size(data@) == Err::<nat, SizeError>(e),
        },
{
    match bzip2_stream_tail(data) {
        None => Err(SizeError::Bzip2),
        Some(rest) => Ok(data.len() - rest),
    }
}

/// The size of the run of zstd frames at the start of `data`, frame by
/// frame.
fn zstd_compressed_size(data: &[u8]) -> (r: Result<usize, SizeError>)
    ensures
        match r {
            Ok(n) => zstd_frames_end(data@, 0) == Ok::<nat, SizeError>(n as nat),
            Err(e) => zstd_frames_end(data@, 0) == Err::<nat, SizeError>(e),
        },
{
    let mut pos: usize = 0;
    loop
        invariant
            pos <= data@.len(),
            zstd_frames_end(data@, 0) == zstd_frames_end(data@, pos as nat),
        decreases data@.len() - pos,
    {
        if pos >= data.len() {
            return Ok(pos);
        }
        if data.len() - pos < 4 || !(data[pos] == 0x28 && data[pos + 1] == 0xb5 && data[pos + 2]
            == 0x2f && data[pos + 3] == 0xfd) {
            return Ok(pos);
        }
        let rest = &data[pos..data.len()];
        match zstd_frame_len(rest) {
            None => {
                return Err(SizeError::ZstdFrame);
            },
            Some(n) => {
                pos = pos + n;
            },
        }
    }
}

/// How many bytes the compressed stream at the start of `data` occupies.
/// `Ok(None)`: a size past the end of the data, too large for a `usize`.
fn compressed_size(data: &[u8], comp: Compression) -> (r: Result<Option<usize>, SizeError>)
    ensures
        match r {
            Ok(Some(n)) => compressed_size_of(data@, comp) == Ok::<nat, SizeError>(n as nat),
            Ok(None) => compressed_size_of(data@, comp) matches Ok(n) && n > data@.len(),
            Err(e) => compressed_size_of(data@, comp) == Err::<nat, SizeError>(e),
        },
{
    match comp {
        Compression::Uncompressed => Ok(Some(data.len())),
        Compression::Gzip => gzip_compressed_size(data),
        Compression::Bzip2 => match bzip2_compressed_size(data) {
            Ok(n) => Ok(Some(n)),
            Err(e) => Err(e),
        },
        Compression::Zstd => match zstd_compressed_size(data) {
            Ok(n) => Ok(Some(n)),
            Err(e) => Err(e),
        },
    }
}

/// A raw segment from a concatenated initramfs file.
#[derive(Debug)]
pub struct RawSegment {
    /// Byte offset in the image.
    pub offset: usize,
    /// Raw bytes (still compressed if the segment was compressed).
    pub data: Vec<u8>,
    /// Detected compression type.
    pub compression: Compression,
}

pub struct SegmentView {
    pub offset: nat,
    pub data: Seq<u8>,
    pub compression: Compression,
}

impl View for RawSegment {
    type V = SegmentView;

    open spec fn view(&self) -> SegmentView {
        SegmentView { offset: self.offset as nat, data: self.data@, compression: self.compression }
    }
}

/// Why an image could not be split. Offsets are those of the segment.
#[derive(Debug, Clone, Copy, PartialEq, Eq)]
pub enum SegmentError {
    /// No known magic at this offset.
    UnknownFormat { offset: usize },
    /// The extent of the compressed stream at this offset is not known.
    Size { offset: usize, error: SizeError },
    /// The CPIO header at this offset has a name size of zero.
    EmptyName { offset: usize },
    /// The segment at this offset claims to run past the end of the image.
    SegmentOverrun { offset: usize },
    /// The stream at this offset occupies fewer bytes than its own magic
    /// number.
    ShortSegment { offset: usize },
}

/// The first offset at or after `pos` that does not hold a zero byte.
pub open spec fn skip_zeros(data: Seq<u8>, pos: nat) -> nat
    decreases data.len() - pos,
{
    if pos < data.len() && data[pos as int] == 0 {
        skip_zeros(data, pos + 1)
    } else {
        pos
    }
}

pub proof fn lemma_skip_zeros(data: Seq<u8>, pos: nat)
    ensures
        skip_zeros(data, pos) >= pos,
        pos <= data.len() ==> skip_zeros(data, pos) <= data.len(),
    decreases data.len() - pos,
{
    if pos < data.len() && data[pos as int] == 0 {
        lemma_skip_zeros(data, pos + 1);
    }
}

/// How many bytes the magic number of a format takes.
pub open spec fn magic_len(c: Compression) -> nat {
    match c {
        Compression::Uncompressed => 6,
        Compression::Gzip => 2,
        Compression::Bzip2 => 3,
        Compression::Zstd => 4,
    }
}

/// How many bytes the segment of format `c` at the start of `rest` takes
/// (`rest` starting at offset `p` of the image). An uncompressed archive
/// ends where the scanner finds its end, or, when the scanner fails, at the
/// end of the image; a compressed one after the bytes its stream occupies.
pub open spec fn segment_size(rest: Seq<u8>, c: Compression, p: nat) -> Result<nat, SegmentError> {
    match c {
        Compression::Uncompressed => match scan_from(rest, 0) {
            ScanWalk::End { end } => Ok(end),
            ScanWalk::Fail { .. } => Ok(rest.len()),
            ScanWalk::EmptyName { offset } => Err(
                SegmentError::EmptyName { offset: (p + offset) as usize },
            ),
        },
        _ => match compressed_size_of(rest, c) {
            Err(e) => Err(SegmentError::Size { offset: p as usize, error: e }),
            Ok(n) => Ok(n),
        },
    }
}

/// The format of the segment that starts at `p`, and where it ends. A
/// segment shorter than its magic number, or one that reaches past the end
/// of the image, is an error.
#[verifier::opaque]
pub open spec fn segment_end(data: Seq<u8>, p: nat) -> Result<(Compression, nat), SegmentError> {
    let rest = data.subrange(p as int, data.len() as int);
    match detected_compression(rest) {
        None => Err(SegmentError::UnknownFormat { offset: p as usize }),
        Some(c) => match segment_size(rest, c, p) {
            Err(e) => Err(e),
            Ok(n) => if n < magic_len(c) {
                Err(SegmentError::ShortSegment { offset: p as usize })
            } else if p + n > data.len() {
                Err(SegmentError::SegmentOverrun { offset: p as usize })
            } else {
                Ok((c, p + n))
            },
        },
    }
}

/// The segments from `pos` on: zero bytes between segments are skipped.
#[verifier::opaque]
pub open spec fn split_from(data: Seq<u8>, pos: nat) -> Result<Seq<SegmentView>, SegmentError>
    decreases data.len() - pos,
{
    let p = skip_zeros(data, pos);
    if p >= data.len() {
        Ok(seq![])
    } else {
        match segment_end(data, p) {
            Err(e) => Err(e),
            Ok((c, end)) => {
                proof {
                    lemma_skip_zeros(data, pos);
                    lemma_segment_end_bounds(data, p);
                }
                match split_from(data, end) {
                    Ok(rest) => Ok(
                        seq![
                            SegmentView {
                                offset: p,
                                data: data.subrange(p as int, end as int),
                                compression: c,
                            },
                        ] + rest,
                    ),
                    Err(e) => Err(e),
                }
            },
        }
    }
}

/// A segment ends after it starts and within the image.
pub proof fn lemma_segment_end_bounds(data: Seq<u8>, p: nat)
    requires
        p < data.len(),
    ensures
        segment_end(data, p) matches Ok((_, end)) ==> p < end <= data.len(),
        segment_end(data, p) matches Ok((c, end)) ==> detected_compression(
            data.subrange(p as int, end as int),
        ) == Some(c),
{
    reveal(segment_end);
    if let Ok((c, end)) = segment_end(data, p) {
        let rest = data.subrange(p as int, data.len() as int);
        assert(data.subrange(p as int, end as int) =~= rest.subrange(0, end - p));
        lemma_detected_prefix(rest, c, (end - p) as nat);
    }
}

/// A prefix of at least the magic number's length is detected as the same
/// format as the whole.
pub proof fn lemma_detected_prefix(s: Seq<u8>, c: Compression, k: nat)
    requires
        detected_compression(s) == Some(c),
        magic_len(c) <= k <= s.len(),
    ensures
        detected_compression(s.subrange(0, k as int)) == Some(c),
{
    let t = s.subrange(0, k as int);
    assert forall|i: int| 0 <= i < k implies t[i] == s[i] by {}
    if t.len() >= 6 {
        assert(t.subrange(0, 6) =~= s.subrange(0, 6));
    }
}

/// The segment at `o`, when it is an uncompressed archive that the scanner
/// finds to end `len` bytes on, within the image.
pub proof fn lemma_segment_end_archive(x: Seq<u8>, o: nat, len: nat)
    requires
        o < x.len(),
        6 <= len,
        o + len <= x.len(),
        detected_compression(x.subrange(o as int, x.len() as int)) == Some(Compression::Uncompressed),
        scan_from(x.subrange(o as int, x.len() as int), 0) == (ScanWalk::End { end: len }),
    ensures
        segment_end(x, o) == Ok::<(Compression, nat), SegmentError>(
            (Compression::Uncompressed, o + len),
        ),
{
    reveal(segment_end);
}

/// One step of splitting: the segment found after the zeros at `start`,
/// then the segments after it.
pub proof fn lemma_split_step(x: Seq<u8>, start: nat, o: nat, c: Compression, end: nat)
    requires
        skip_zeros(x, start) == o,
        o < x.len(),
        segment_end(x, o) == Ok::<(Compression, nat), SegmentError>((c, end)),
    ensures
        split_from(x, start) == prepend_segments(
            seq![SegmentView { offset: o, data: x.subrange(o as int, end as int), compression: c }],
            split_from(x, end),
        ),
{
    reveal(split_from);
    lemma_skip_zeros(x, start);
    lemma_segment_end_bounds(x, o);
}

/// Splitting from a position after which only zeros remain gives nothing.
pub proof fn lemma_split_at_end(x: Seq<u8>, start: nat)
    requires
        skip_zeros(x, start) >= x.len(),
    ensures
        split_from(x, start) == Ok::<Seq<SegmentView>, SegmentError>(seq![]),
{
    reveal(split_from);
}

/// Every segment that splitting finds is detected, from its own bytes, as
/// the format it is reported in.
pub proof fn lemma_split_detected(x: Seq<u8>, start: nat)
    ensures
        split_from(x, start) matches Ok(v) ==> forall|i: int|
            0 <= i < v.len() ==> detected_compression(#[trigger] v[i].data) == Some(
                v[i].compression,
            ),
    decreases x.len() - start,
{
    reveal(split_from);
    let o = skip_zeros(x, start);
    lemma_skip_zeros(x, start);
    if o < x.len() {
        if let Ok((c, end)) = segment_end(x, o) {
            lemma_segment_end_bounds(x, o);
            lemma_split_detected(x, end);
            if let Ok(v) = split_from(x, start) {
                let rest = split_from(x, end)->Ok_0;
                assert(v == seq![
                    SegmentView { offset: o, data: x.subrange(o as int, end as int), compression: c },
                ] + rest);
                assert forall|i: int| 0 <= i < v.len() implies detected_compression(
                    #[trigger] v[i].data,
                ) == Some(v[i].compression) by {
                    if i > 0 {
                        assert(v[i] == rest[i - 1]);
                    }
                }
            }
        }
    }
}

pub open spec fn prepend_segments(
    ss: Seq<SegmentView>,
    r: Result<Seq<SegmentView>, SegmentError>,
) -> Result<Seq<SegmentView>, SegmentError> {
    match r {
        Ok(xs) => Ok(ss + xs),
        Err(e) => Err(e),
    }
}

fn skip_zero_bytes(data: &[u8], pos: usize) -> (r: usize)
    requires
        pos <= data@.len(),
    ensures
        r == skip_zeros(data@, pos as nat),
        pos <= r <= data@.len(),
{
    let mut q = pos;
    while q < data.len() && data[q] == 0
        invariant
            pos <= q <= data@.len(),
            skip_zeros(data@, q as nat) == skip_zeros(data@, pos as nat),
        decreases data@.len() - q,
    {
        q = q + 1;
    }
    q
}

fn segment_end_exec(data: &[u8], p: usize) -> (r: Result<(Compression, usize), SegmentError>)
    requires
        p < data@.len(),
    ensures
        match r {
            Ok((c, end)) => segment_end(data@, p as nat) == Ok::<(Compression, nat), SegmentError>(
                (c, end as nat),
            ),
            Err(e) => segment_end(data@, p as nat) == Err::<(Compression, nat), SegmentError>(e),
        },
        r matches Ok((_, end)) ==> p < end <= data@.len(),
{
    proof {
        lemma_segment_end_bounds(data@, p as nat);
    }
    reveal(segment_end);
    let rest = &data[p..data.len()];
    let c = match detect_compression(rest) {
        None => {
            return Err(SegmentError::UnknownFormat { offset: p });
        },
        Some(c) => c,
    };
    let min: usize = match c {
        Compression::Uncompressed => 6,
        Compression::Gzip => 2,
        Compression::Bzip2 => 3,
        Compression::Zstd => 4,
    };
    let size: Option<usize> = match c {
        Compression::Uncompressed => match scan_walk(rest) {
            ScanOutcome::End(end) => Some(end),
            ScanOutcome::Failed(_) => Some(rest.len()),
            ScanOutcome::EmptyName(o) => {
                return Err(SegmentError::EmptyName { offset: p + o });
            },
        },
        _ => match compressed_size(rest, c) {
            Err(e) => {
                return Err(SegmentError::Size { offset: p, error: e });
            },
            Ok(n) => n,
        },
    };
    match size {
        None => {
            proof {
                assert(detected_compression(rest@) == Some(c));
                assert(rest@.len() >= magic_len(c));
            }
            Err(SegmentError::SegmentOverrun { offset: p })
        },
        Some(n) => {
            if n < min {
                Err(SegmentError::ShortSegment { offset: p })
            } else if n > data.len() - p {
                Err(SegmentError::SegmentOverrun { offset: p })
            } else {
                Ok((c, p + n))
            }
        },
    }
}

/// Splits an initramfs file into its constituent raw segments, in order.
/// Zero bytes between segments are skipped. An uncompressed archive whose
/// end the scanner cannot find runs to the end of the image. A segment
/// that would reach past the end of the image (an archive whose trailer
/// claims data past the end, a gzip header or member cut short), one
/// shorter than its own magic number, and a CPIO header with a zero name
/// size are errors. Each segment's bytes are detected as its format.
pub fn split_segments(data: &[u8]) -> (r: Result<Vec<RawSegment>, SegmentError>)
    ensures
        match r {
            Ok(segs) => split_from(data@, 0) == Ok::<Seq<SegmentView>, SegmentError>(
                segs@.map_values(|s: RawSegment| s@),
            ),
            Err(e) => split_from(data@, 0) == Err::<Seq<SegmentView>, SegmentError>(e),
        },
        r matches Ok(segs) ==> forall|i: int|
            0 <= i < segs@.len() ==> detected_compression(#[trigger] segs@[i].data@) == Some(
                segs@[i].compression,
            ),
{
    let mut segments: Vec<RawSegment> = Vec::new();
    let mut pos: usize = 0;
    assert(segments@.map_values(|s: RawSegment| s@) =~= Seq::<SegmentView>::empty());
    assert(split_from(data@, 0) == prepend_segments(
        segments@.map_values(|s: RawSegment| s@),
        split_from(data@, 0),
    )) by {
        if let Ok(xs) = split_from(data@, 0) {
            assert(Seq::<SegmentView>::empty() + xs =~= xs);
        }
    }
    loop
        invariant
            pos <= data@.len(),
            split_from(data@, 0) == prepend_segments(
                segments@.map_values(|s: RawSegment| s@),
                split_from(data@, pos as nat),
            ),
        decreases data@.len() - pos,
    {
        let ghost before = segments@.map_values(|s: RawSegment| s@);
        let p = skip_zero_bytes(data, pos);
        if p >= data.len() {
            proof {
                lemma_split_at_end(data@, pos as nat);
            }
            assert(before + seq![] =~= before);
            proof {
                lemma_split_detected(data@, 0);
                assert(split_from(data@, 0) == Ok::<Seq<SegmentView>, SegmentError>(before));
                assert forall|i: int| 0 <= i < segments@.len() implies detected_compression(
                    #[trigger] segments@[i].data@,
                ) == Some(segments@[i].compression) by {
                    assert(before[i] == segments@[i]@);
                    assert(detected_compression(before[i].data) == Some(before[i].compression));
                }
            }
            return Ok(segments);
        }
        match segment_end_exec(data, p) {
            Err(e) => {
                proof {
                    reveal(split_from);
                }
                return Err(e);
            },
            Ok((c, end)) => {
                let seg = RawSegment {
                    offset: p,
                    data: slice_to_vec(&data[p..end]),
                    compression: c,
                };
                let ghost sv = seg@;
                proof {
                    lemma_split_step(data@, pos as nat, p as nat, c, end as nat);
                }
                let ghost rest = split_from(data@, end as nat);
                segments.push(seg);
                assert(segments@.map_values(|s: RawSegment| s@) =~= before.push(sv));
                proof {
                    if let Ok(xs) = rest {
                        assert(before + (seq![sv] + xs) =~= before.push(sv) + xs);
                    }
                }
                pos = end;
            },
        }
    }
}

/// The name under which the tool shows each format.
pub open spec fn compression_name(c: Compression) -> Seq<char> {
    match c {
        Compression::Uncompressed => seq!['n', 'o', 'n', 'e'],
        Compression::Gzip => seq!['g', 'z', 'i', 'p'],
        Compression::Bzip2 => seq!['b', 'z', 'i', 'p', '2'],
        Compression::Zstd => seq!['z', 's', 't', 'd'],
    }
}

pub open spec fn ascii_lower(b: u8) -> u8 {
    if 65 <= b <= 90 {
        (b + 32) as u8
    } else {
        b
    }
}

pub open spec fn lower_bytes(s: Seq<u8>) -> Seq<u8> {
    s.map_values(|b: u8| ascii_lower(b))
}

/// The format a name selects, compared without regard to ASCII case:
/// `none`; `gzip` or `gz`; `bzip2` or `bz2`; `zstd` or `zst`.
pub open spec fn named_compression(name: Seq<u8>) -> Option<Compression> {
    let l = lower_bytes(name);
    if l == seq![110u8, 111, 110, 101] {
        Some(Compression::Uncompressed)
    } else if l == seq![103u8, 122, 105, 112] || l == seq![103u8, 122] {
        Some(Compression::Gzip)
    } else if l == seq![98u8, 122, 105, 112, 50] || l == seq![98u8, 122, 50] {
        Some(Compression::Bzip2)
    } else if l == seq![122u8, 115, 116, 100] || l == seq![122u8, 115, 116] {
        Some(Compression::Zstd)
    } else {
        None
    }
}

/// A compression name that is none of the known ones.
#[derive(Debug, Clone, PartialEq, Eq)]
pub struct UnknownCompression {
    pub name: String,
}

fn eq_bytes(a: &[u8], b: &[u8]) -> (r: bool)
    ensures
        r == (a@ == b@),
{
    if a.len() != b.len() {
        return false;
    }
    let mut i: usize = 0;
    while i < a.len()
        invariant
            a@.len() == b@.len(),
            i <= a@.len(),
            a@.subrange(0, i as int) == b@.subrange(0, i as int),
        decreases a@.len() - i,
    {
        if a[i] != b[i] {
            assert(a@[i as int] != b@[i as int]);
            return false;
        }
        i = i + 1;
        assert(a@.subrange(0, i as int) =~= b@.subrange(0, i as int)) by {
            assert forall|j: int| 0 <= j < i implies a@.subrange(0, i as int)[j] == b@.subrange(
                0,
                i as int,
            )[j] by {
                if j < i - 1 {
                    assert(a@.subrange(0, i - 1)[j] == b@.subrange(0, i - 1)[j]);
                }
            }
        }
    }
    assert(a@ =~= a@.subrange(0, a@.len() as int));
    assert(b@ =~= b@.subrange(0, b@.len() as int));
    true
}

impl Compression {
    /// The name the tool shows for this format: `none`, `gzip`, `bzip2`
    /// or `zstd`.
    pub fn name(&self) -> (s: &'static str)
        ensures
            s@ == compression_name(*self),
    {
        match self {
            Compression::Uncompressed => {
                proof {
                    reveal_strlit("none");
                }
                "none"
            },
            Compression::Gzip => {
                proof {
                    reveal_strlit("gzip");
                }
                "gzip"
            },
            Compression::Bzip2 => {
                proof {
                    reveal_strlit("bzip2");
                }
                "bzip2"
            },
            Compression::Zstd => {
                proof {
                    reveal_strlit("zstd");
                }
                "zstd"
            },
        }
    }

    /// Selects a format by name, without regard to ASCII case: `none`;
    /// `gzip` or `gz`; `bzip2` or `bz2`; `zstd` or `zst`.
    pub fn from_name(s: &str) -> (r: Result<Compression, UnknownCompression>)
        ensures
            match r {
                Ok(c) => named_compression(encode_utf8(s@)) == Some(c),
                Err(e) => named_compression(encode_utf8(s@)) is None && e.name@ == s@,
            },
    {
        let bytes = s.as_bytes();
        let mut lower: Vec<u8> = Vec::new();
        let mut i: usize = 0;
        while i < bytes.len()
            invariant
                i <= bytes@.len(),
                lower@ == lower_bytes(bytes@.subrange(0, i as int)),
            decreases bytes@.len() - i,
        {
            let b = bytes[i];
            let lb = if 65 <= b && b <= 90 {
                b + 32
            } else {
                b
            };
            lower.push(lb);
            i = i + 1;
            assert(lower@ =~= lower_bytes(bytes@.subrange(0, i as int)));
        }
        assert(bytes@.subrange(0, bytes@.len() as int) =~= bytes@);
        let l = lower.as_slice();
        let none_w: [u8; 4] = [110, 111, 110, 101];
        let gzip_w: [u8; 4] = [103, 122, 105, 112];
        let gz_w: [u8; 2] = [103, 122];
        let bzip2_w: [u8; 5] = [98, 122, 105, 112, 50];
        let bz2_w: [u8; 3] = [98, 122, 50];
        let zstd_w: [u8; 4] = [122, 115, 116, 100];
        let zst_w: [u8; 3] = [122, 115, 116];
        assert(none_w@ =~= seq![110u8, 111, 110, 101]);
        assert(gzip_w@ =~= seq![103u8, 122, 105, 112]);
        assert(gz_w@ =~= seq![103u8, 122]);
        assert(bzip2_w@ =~= seq![98u8, 122, 105, 112, 50]);
        assert(bz2_w@ =~= seq![98u8, 122, 50]);
        assert(zstd_w@ =~= seq![122u8, 115, 116, 100]);
        assert(zst_w@ =~= seq![122u8, 115, 116]);
        if eq_bytes(l, none_w.as_slice()) {
            Ok(Compression::Uncompressed)
        } else if eq_bytes(l, gzip_w.as_slice()) || eq_bytes(l, gz_w.as_slice()) {
            Ok(Compression::Gzip)
        } else if eq_bytes(l, bzip2_w.as_slice()) || eq_bytes(l, bz2_w.as_slice()) {
            Ok(Compression::Bzip2)
        } else if eq_bytes(l, zstd_w.as_slice()) || eq_bytes(l, zst_w.as_slice()) {
            Ok(Compression::Zstd)
        } else {
            Err(UnknownCompression { name: s.to_owned() })
        }
    }
}

impl core::str::FromStr for Compression {
    type Err = UnknownCompression;

    fn from_str(s: &str) -> (r: Result<Compression, UnknownCompression>)
        ensures
            match r {
                Ok(c) => named_compression(encode_utf8(s@)) == Some(c),
                Err(e) => named_compression(encode_utf8(s@)) is None && e.name@ == s@,
            },
    {
        Compression::from_name(s)
    }
}

/// Every format's own name selects it again.
pub proof fn lemma_name_selects_format(c: Compression)
    ensures
        named_compression(encode_utf8(compression_name(c))) == Some(c),
{
    let n = compression_name(c);
    assert(is_ascii_chars(n));
    is_ascii_chars_encode_utf8(n);
    let b = encode_utf8(n);
    match c {
        Compression::Uncompressed => {
            assert(lower_bytes(b) =~= seq![110u8, 111, 110, 101]);
        },
        Compression::Gzip => {
            assert(lower_bytes(b) =~= seq![103u8, 122, 105, 112]);
        },
        Compression::Bzip2 => {
            assert(lower_bytes(b) =~= seq![98u8, 122, 105, 112, 50]);
        },
        Compression::Zstd => {
            assert(lower_bytes(b) =~= seq![122u8, 115, 116, 100]);
        },
    }
}

/// The bytes from `start` up to the byte at `nul` form a NUL-terminated
/// field: `nul` holds the first zero byte at or after `start`.
pub open spec fn nul_terminated_field(data: Seq<u8>, start: nat, nul: nat) -> bool {
    &&& start <= nul < data.len()
    &&& data[nul as int] == 0
    &&& forall|i: int| start <= i < nul ==> data[i] != 0
}

proof fn lemma_after_nul_field(data: Seq<u8>, start: nat, nul: nat)
    requires
        nul_terminated_field(data, start, nul),
    ensures
        after_nul(data, start) == nul + 1,
    decreases nul - start,
{
    if start < nul {
        assert(data[start as int] != 0);
        lemma_after_nul_field(data, start + 1, nul);
    }
}

/// The size of a gzip member laid out as RFC 1952 describes it: ten fixed
/// bytes; with FEXTRA (flag bit 2) a two-byte little-endian length and that
/// many bytes; with FNAME (bit 3) a file name ending at its NUL byte
/// `name_nul`; with FCOMMENT (bit 4) a comment ending at its NUL byte
/// `comment_nul`; with FHCRC (bit 1) two bytes. The deflate stream starts
/// right after this header, and the member is the header, the bytes the
/// deflate decoder takes, and the eight-byte CRC32 and ISIZE footer. A
/// member that fills the data is split as one gzip segment at offset 0.
pub proof fn lemma_gzip_member_size(data: Seq<u8>, name_nul: nat, comment_nul: nat)
    requires
        data.len() >= 10,
        data[0] == 0x1f && data[1] == 0x8b,
        data[3] & 4 != 0 ==> data.len() >= 12,
    ensures
        ({
            let flg = data[3];
            let extra_end: nat = if flg & 4 != 0 {
                (12 + data[10] + 256 * data[11]) as nat
            } else {
                10
            };
            let name_end: nat = if flg & 8 != 0 {
                name_nul + 1
            } else {
                extra_end
            };
            let comment_end: nat = if flg & 16 != 0 {
                comment_nul + 1
            } else {
                name_end
            };
            let h: nat = if flg & 2 != 0 {
                comment_end + 2
            } else {
                comment_end
            };
            (flg & 8 != 0 ==> nul_terminated_field(data, extra_end, name_nul)) && (flg & 16 != 0
                ==> nul_terminated_field(data, name_end, comment_nul)) && h <= data.len() ==> {
                &&& gzip_size(data) == match deflate_stream_rest(
                    data.subrange(h as int, data.len() as int),
                ) {
                    None => Err(SizeError::Deflate),
                    Some(rest) => Ok((h + (data.len() - h - rest) + 8) as nat),
                }
                &&& gzip_size(data) == Ok::<nat, SizeError>(data.len()) ==> split_from(data, 0)
                    == Ok::<Seq<SegmentView>, SegmentError>(
                    seq![SegmentView { offset: 0, data: data, compression: Compression::Gzip }],
                )
            }
        }),
{
    let flg = data[3];
    let extra_end: nat = if flg & 4 != 0 {
        (12 + data[10] + 256 * data[11]) as nat
    } else {
        10
    };
    let name_end: nat = if flg & 8 != 0 {
        name_nul + 1
    } else {
        extra_end
    };
    let comment_end: nat = if flg & 16 != 0 {
        comment_nul + 1
    } else {
        name_end
    };
    let h: nat = if flg & 2 != 0 {
        comment_end + 2
    } else {
        comment_end
    };
    if (flg & 8 != 0 ==> nul_terminated_field(data, extra_end, name_nul)) && (flg & 16 != 0
        ==> nul_terminated_field(data, name_end, comment_nul)) && h <= data.len() {
        if flg & 8 != 0 {
            lemma_after_nul_field(data, extra_end, name_nul);
        }
        if flg & 16 != 0 {
            lemma_after_nul_field(data, name_end, comment_nul);
        }
        assert(data[10] + data[11] * 256 == 256 * data[11] + data[10]);
        assert(gzip_header_end(data) == h);
        if gzip_size(data) == Ok::<nat, SizeError>(data.len()) {
            assert(data.subrange(0, data.len() as int) =~= data);
            assert(detected_compression(data) == Some(Compression::Gzip));
            reveal(segment_end);
            assert(segment_end(data, 0) == Ok::<(Compression, nat), SegmentError>(
                (Compression::Gzip, data.len()),
            ));
            assert(skip_zeros(data, 0) == 0);
            lemma_split_step(data, 0, 0, Compression::Gzip, data.len());
            lemma_split_at_end(data, data.len());
            assert(seq![SegmentView { offset: 0, data: data, compression: Compression::Gzip }]
                + seq![] =~= seq![SegmentView { offset: 0, data: data, compression: Compression::Gzip }]);
        }
    }
}

/// Each magic number selects its format, whatever follows it; data that
/// starts with none of them has no format.
pub proof fn lemma_detect_by_magic(s: Seq<u8>)
    ensures
        detected_compression(seq![48u8, 55, 48, 55, 48, 49] + s) == Some(
            Compression::Uncompressed,
        ),
        detected_compression(seq![0x1fu8, 0x8b] + s) == Some(Compression::Gzip),
        detected_compression(seq![66u8, 90, 104] + s) == Some(Compression::Bzip2),
        detected_compression(seq![0x28u8, 0xb5, 0x2f, 0xfd] + s) == Some(Compression::Zstd),
        detected_compression(s) is Some ==> s.len() >= 2 && (s[0] == 48 || s[0] == 0x1f
            || s[0] == 66 || s[0] == 0x28),
{
    let a = seq![48u8, 55, 48, 55, 48, 49] + s;
    assert(a.subrange(0, 6) =~= newc_magic());
    let b = seq![0x1fu8, 0x8b] + s;
    assert(b[0] == 0x1f && b[1] == 0x8b);
    let c = seq![66u8, 90, 104] + s;
    assert(c[0] == 66 && c[1] == 90 && c[2] == 104);
    let d = seq![0x28u8, 0xb5, 0x2f, 0xfd] + s;
    assert(d[0] == 0x28 && d[1] == 0xb5 && d[2] == 0x2f && d[3] == 0xfd);
    if s.len() >= 6 && s.subrange(0, 6) == newc_magic() {
        assert(s[0] == s.subrange(0, 6)[0]);
    }
}

/// A run of zstd frames: frame `i` starts at `offs[i]` with the zstd magic
/// and takes the bytes up to `offs[i + 1]`, as the frame decoder reports;
/// the first starts at 0; after the last comes the end of the data or a
/// byte that does not start the magic. Its size is where the last frame
/// ends.
pub proof fn lemma_zstd_run_size(data: Seq<u8>, offs: Seq<nat>)
    requires
        offs.len() >= 1,
        offs[0] == 0,
        forall|i: int|
            #![trigger offs[i]]
            0 <= i < offs.len() - 1 ==> {
                &&& offs[i] < offs[i + 1] <= data.len()
                &&& offs[i] + 4 <= data.len()
                &&& data[offs[i] as int] == 0x28 && data[offs[i] + 1 as int] == 0xb5 && data[offs[i] + 2 as int]
                    == 0x2f && data[offs[i] + 3 as int] == 0xfd
                &&& zstd_frame_size(data.subrange(offs[i] as int, data.len() as int)) matches Some(n)
                    && n == offs[i + 1] - offs[i]
            },
        offs.last() <= data.len(),
        offs.last() < data.len() ==> !(offs.last() + 4 <= data.len() && data[offs.last() as int]
            == 0x28 && data[offs.last() + 1 as int] == 0xb5 && data[offs.last() + 2 as int] == 0x2f
            && data[offs.last() + 3 as int] == 0xfd),
    ensures
        compressed_size_of(data, Compression::Zstd) == Ok::<nat, SizeError>(offs.last()),
{
    lemma_zstd_run_from(data, offs, 0);
}

proof fn lemma_zstd_run_from(data: Seq<u8>, offs: Seq<nat>, k: int)
    requires
        0 <= k < offs.len(),
        forall|i: int|
            #![trigger offs[i]]
            0 <= i < offs.len() - 1 ==> {
                &&& offs[i] < offs[i + 1] <= data.len()
                &&& offs[i] + 4 <= data.len()
                &&& data[offs[i] as int] == 0x28 && data[offs[i] + 1 as int] == 0xb5 && data[offs[i] + 2 as int]
                    == 0x2f && data[offs[i] + 3 as int] == 0xfd
                &&& zstd_frame_size(data.subrange(offs[i] as int, data.len() as int)) matches Some(n)
                    && n == offs[i + 1] - offs[i]
            },
        offs.last() <= data.len(),
        offs.last() < data.len() ==> !(offs.last() + 4 <= data.len() && data[offs.last() as int]
            == 0x28 && data[offs.last() + 1 as int] == 0xb5 && data[offs.last() + 2 as int] == 0x2f
            && data[offs.last() + 3 as int] == 0xfd),
    ensures
        zstd_frames_end(data, offs[k]) == Ok::<nat, SizeError>(offs.last()),
    decreases offs.len() - k,
{
    if k < offs.len() - 1 {
        assert(offs[k] < offs[k + 1] <= data.len());
        lemma_zstd_run_from(data, offs, k + 1);
        assert(zstd_magic_at(data, offs[k]));
    } else {
        assert(offs[k] == offs.last());
    }
}

} // verus!
