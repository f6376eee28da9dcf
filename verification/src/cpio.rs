//! CPIO "newc" archives: the entry type, the parser, the end-of-archive
//! scanner and the writer, with their byte-level model.

use vstd::prelude::*;
use vstd::slice::slice_to_vec;
use vstd::utf8::decode_utf8;
use vstd::utf8::decode_utf8_encode_utf8;
use vstd::utf8::encode_utf8;
use vstd::utf8::encode_utf8_decode_utf8;
use vstd::utf8::encode_utf8_valid_utf8;
use vstd::utf8::is_ascii_chars;
use vstd::utf8::is_ascii_chars_encode_utf8;
use vstd::utf8::valid_utf8;

use crate::hex::format_hex08;
use crate::hex::lemma_hex_field_roundtrip;
use crate::hex::parse_hex_field;
use crate::hex::push_hex08;
use crate::hex::spec_parse_hex_field;

verus! {

/// Length of the fixed part of a newc header.
pub const HEADER_LEN: usize = 110;

/// A single entry in a CPIO newc archive.
#[derive(Debug, Clone)]
pub struct CpioEntry {
    pub ino: u32,
    pub mode: u32,
    pub uid: u32,
    pub gid: u32,
    pub nlink: u32,
    pub mtime: u32,
    pub devmajor: u32,
    pub devminor: u32,
    pub rdevmajor: u32,
    pub rdevminor: u32,
    pub name: String,
    pub data: Vec<u8>,
}

/// The mathematical value of a [`CpioEntry`].
pub struct EntryView {
    pub ino: u32,
    pub mode: u32,
    pub uid: u32,
    pub gid: u32,
    pub nlink: u32,
    pub mtime: u32,
    pub devmajor: u32,
    pub devminor: u32,
    pub rdevmajor: u32,
    pub rdevminor: u32,
    pub name: Seq<char>,
    pub data: Seq<u8>,
}

impl View for CpioEntry {
    type V = EntryView;

    open spec fn view(&self) -> EntryView {
        EntryView {
            ino: self.ino,
            mode: self.mode,
            uid: self.uid,
            gid: self.gid,
            nlink: self.nlink,
            mtime: self.mtime,
            devmajor: self.devmajor,
            devminor: self.devminor,
            rdevmajor: self.rdevmajor,
            rdevminor: self.rdevminor,
            name: self.name@,
            data: self.data@,
        }
    }
}

/// The file-type bits of a mode.
pub open spec fn file_type_bits(mode: u32) -> u32 {
    mode & 0o170000
}

/// The `ls`-style letter of a file type.
pub open spec fn file_type_letter(mode: u32) -> char {
    if file_type_bits(mode) == 0o040000 {
        'd'
    } else if file_type_bits(mode) == 0o100000 {
        '-'
    } else if file_type_bits(mode) == 0o120000 {
        'l'
    } else if file_type_bits(mode) == 0o060000 {
        'b'
    } else if file_type_bits(mode) == 0o020000 {
        'c'
    } else if file_type_bits(mode) == 0o010000 {
        'p'
    } else if file_type_bits(mode) == 0o140000 {
        's'
    } else {
        '?'
    }
}

impl CpioEntry {
    pub fn is_dir(&self) -> (r: bool)
        ensures
            r == (file_type_bits(self.mode) == 0o040000),
    {
        (self.mode & 0o170000) == 0o040000
    }

    pub fn is_file(&self) -> (r: bool)
        ensures
            r == (file_type_bits(self.mode) == 0o100000),
    {
        (self.mode & 0o170000) == 0o100000
    }

    pub fn is_symlink(&self) -> (r: bool)
        ensures
            r == (file_type_bits(self.mode) == 0o120000),
    {
        (self.mode & 0o170000) == 0o120000
    }

    pub fn is_block_device(&self) -> (r: bool)
        ensures
            r == (file_type_bits(self.mode) == 0o060000),
    {
        (self.mode & 0o170000) == 0o060000
    }

    pub fn is_char_device(&self) -> (r: bool)
        ensures
            r == (file_type_bits(self.mode) == 0o020000),
    {
        (self.mode & 0o170000) == 0o020000
    }

    pub fn is_fifo(&self) -> (r: bool)
        ensures
            r == (file_type_bits(self.mode) == 0o010000),
    {
        (self.mode & 0o170000) == 0o010000
    }

    pub fn is_socket(&self) -> (r: bool)
        ensures
            r == (file_type_bits(self.mode) == 0o140000),
    {
        (self.mode & 0o170000) == 0o140000
    }

    /// Permission bits, including set-uid, set-gid and sticky.
    pub fn permissions(&self) -> (r: u32)
        ensures
            r == self.mode & 0o7777,
    {
        self.mode & 0o7777
    }

    pub fn file_type_char(&self) -> (c: char)
        ensures
            c == file_type_letter(self.mode),
    {
        let t = self.mode & 0o170000;
        if t == 0o040000 {
            'd'
        } else if t == 0o100000 {
            '-'
        } else if t == 0o120000 {
            'l'
        } else if t == 0o060000 {
            'b'
        } else if t == 0o020000 {
            'c'
        } else if t == 0o010000 {
            'p'
        } else if t == 0o140000 {
            's'
        } else {
            '?'
        }
    }
}

/// A parsed CPIO archive (TRAILER entry excluded).
#[derive(Debug)]
pub struct CpioArchive {
    pub entries: Vec<CpioEntry>,
}

impl View for CpioArchive {
    type V = Seq<EntryView>;

    open spec fn view(&self) -> Seq<EntryView> {
        self.entries@.map_values(|e: CpioEntry| e@)
    }
}

/// Why an archive could not be read. Offsets are those of the header
/// that was being read.
#[derive(Debug, Clone, Copy, PartialEq, Eq)]
pub enum CpioError {
    /// No complete 110-byte header at this offset.
    Truncated { offset: usize },
    /// The header does not start with `070701`.
    BadMagic { offset: usize },
    /// A header field is not a hexadecimal number.
    InvalidHex { offset: usize },
    /// The entry name runs past the end of the data.
    NameOutOfBounds { offset: usize },
    /// The entry name is not UTF-8.
    InvalidName { offset: usize },
    /// The entry's file data, or the padding after it, runs past the end
    /// of the data.
    DataOutOfBounds { offset: usize },
}

/// The magic number `070701`.
pub open spec fn newc_magic() -> Seq<u8> {
    seq![48u8, 55, 48, 55, 48, 49]
}

/// `TRAILER!!!`, the name of the entry that ends an archive, as bytes.
pub open spec fn trailer_name_bytes() -> Seq<u8> {
    seq![84u8, 82, 65, 73, 76, 69, 82, 33, 33, 33]
}

/// `TRAILER!!!` as characters.
pub open spec fn trailer_name() -> Seq<char> {
    seq!['T', 'R', 'A', 'I', 'L', 'E', 'R', '!', '!', '!']
}

/// Zero bytes that bring `n` up to a multiple of four.
pub open spec fn pad4(n: nat) -> nat {
    ((4 - n % 4) % 4) as nat
}

/// `n` rounded up to the next multiple of four.
pub open spec fn align4(n: nat) -> nat {
    n + pad4(n)
}

/// Header field `k` (0 = ino, ..., 6 = filesize, ..., 11 = namesize,
/// 12 = check) of the header at `pos`, read as hex.
pub open spec fn header_field(data: Seq<u8>, pos: nat, k: nat) -> Option<u32> {
    spec_parse_hex_field(data.subrange(pos + 6 + 8 * k as int, pos + 14 + 8 * k as int))
}

pub open spec fn header_fields_valid(data: Seq<u8>, pos: nat) -> bool {
    forall|k: nat| k < 13 ==> (#[trigger] header_field(data, pos, k)) is Some
}

pub open spec fn field(data: Seq<u8>, pos: nat, k: nat) -> u32 {
    header_field(data, pos, k).unwrap()
}

/// One step of the parser at `pos`.
pub enum ParseStep {
    Fail { error: CpioError },
    /// The header has a name size of zero.
    EmptyName,
    Trailer { next: nat },
    Entry { entry: EntryView, next: nat },
}

/// What the parser makes of the entry at `pos`.
#[verifier::opaque]
pub open spec fn parse_step(data: Seq<u8>, pos: nat) -> ParseStep {
    if pos + 110 > data.len() {
        ParseStep::Fail { error: CpioError::Truncated { offset: pos as usize } }
    } else if data.subrange(pos as int, pos + 6 as int) != newc_magic() {
        ParseStep::Fail { error: CpioError::BadMagic { offset: pos as usize } }
    } else if !header_fields_valid(data, pos) {
        ParseStep::Fail { error: CpioError::InvalidHex { offset: pos as usize } }
    } else {
        let namesize = field(data, pos, 11) as nat;
        let filesize = field(data, pos, 6) as nat;
        let name_end = pos + 110 + namesize;
        if name_end > data.len() {
            ParseStep::Fail { error: CpioError::NameOutOfBounds { offset: pos as usize } }
        } else if namesize == 0 {
            ParseStep::EmptyName
        } else {
            let name = data.subrange(pos + 110 as int, name_end - 1 as int);
            if !valid_utf8(name) {
                ParseStep::Fail { error: CpioError::InvalidName { offset: pos as usize } }
            } else {
                let data_start = align4(name_end);
                let data_end = data_start + filesize;
                if align4(data_end) > data.len() {
                    ParseStep::Fail { error: CpioError::DataOutOfBounds { offset: pos as usize } }
                } else if name == trailer_name_bytes() {
                    ParseStep::Trailer { next: align4(data_end) }
                } else {
                    ParseStep::Entry {
                        entry: EntryView {
                            ino: field(data, pos, 0),
                            mode: field(data, pos, 1),
                            uid: field(data, pos, 2),
                            gid: field(data, pos, 3),
                            nlink: field(data, pos, 4),
                            mtime: field(data, pos, 5),
                            devmajor: field(data, pos, 7),
                            devminor: field(data, pos, 8),
                            rdevmajor: field(data, pos, 9),
                            rdevminor: field(data, pos, 10),
                            name: decode_utf8(name),
                            data: data.subrange(data_start as int, data_end as int),
                        },
                        next: align4(data_end),
                    }
                }
            }
        }
    }
}

/// The outcome of parsing from `pos` to the trailer.
pub enum ParseWalk {
    Done { entries: Seq<EntryView>, end: nat },
    Fail { error: CpioError },
    /// A header at `offset` has a name size of zero.
    EmptyName { offset: nat },
}

pub open spec fn prepend_entries(es: Seq<EntryView>, w: ParseWalk) -> ParseWalk {
    match w {
        ParseWalk::Done { entries, end } => ParseWalk::Done { entries: es + entries, end },
        _ => w,
    }
}

/// The entries from `pos` up to the trailer, and the offset after it.
pub open spec fn parse_from(data: Seq<u8>, pos: nat) -> ParseWalk
    decreases data.len() + 4 - pos,
{
    match parse_step(data, pos) {
        ParseStep::Fail { error } => ParseWalk::Fail { error },
        ParseStep::EmptyName => ParseWalk::EmptyName { offset: pos },
        ParseStep::Trailer { next } => ParseWalk::Done { entries: seq![], end: next },
        ParseStep::Entry { entry, next } => {
            proof {
                lemma_parse_step_advances(data, pos);
            }
            prepend_entries(seq![entry], parse_from(data, next))
        },
    }
}

/// A parser step that reads an entry moves forward, and not beyond the end
/// of the data.
pub proof fn lemma_parse_step_advances(data: Seq<u8>, pos: nat)
    ensures
        parse_step(data, pos) matches ParseStep::Entry { next, .. } ==> pos < next <= data.len(),
        parse_step(data, pos) matches ParseStep::Trailer { next } ==> pos < next <= data.len(),
{
    reveal(parse_step);
}

/// Calls `std::str::from_utf8`. Its documentation says that it succeeds
/// exactly on well-formed UTF-8 and returns a string of exactly those bytes.
#[verifier::external_body]
pub(crate) fn str_from_utf8(bytes: &[u8]) -> (r: Option<&str>)
    ensures
        r is Some <==> valid_utf8(bytes@),
        r matches Some(s) ==> encode_utf8(s@) == bytes@,
{
    std::str::from_utf8(bytes).ok()
}

fn has_magic(data: &[u8], pos: usize) -> (r: bool)
    requires
        pos + 6 <= data@.len(),
    ensures
        r == (data@.subrange(pos as int, pos + 6) == newc_magic()),
{
    let r = data[pos] == 48 && data[pos + 1] == 55 && data[pos + 2] == 48 && data[pos + 3] == 55
        && data[pos + 4] == 48 && data[pos + 5] == 49;
    if r {
        assert(data@.subrange(pos as int, pos + 6) =~= newc_magic());
    } else {
        assert(data@.subrange(pos as int, pos + 6) != newc_magic()) by {
            let s = data@.subrange(pos as int, pos + 6);
            if s == newc_magic() {
                assert(s[0] == 48 && s[1] == 55 && s[2] == 48 && s[3] == 55 && s[4] == 48
                    && s[5] == 49);
            }
        }
    }
    r
}

fn is_trailer_name(name: &[u8]) -> (r: bool)
    ensures
        r == (name@ == trailer_name_bytes()),
{
    let r = name.len() == 10 && name[0] == 84 && name[1] == 82 && name[2] == 65 && name[3] == 73
        && name[4] == 76 && name[5] == 69 && name[6] == 82 && name[7] == 33 && name[8] == 33
        && name[9] == 33;
    if r {
        assert(name@ =~= trailer_name_bytes());
    } else {
        assert(name@ != trailer_name_bytes()) by {
            if name@ == trailer_name_bytes() {
                let t = trailer_name_bytes();
                assert(t.len() == 10 && t[0] == 84 && t[1] == 82 && t[2] == 65 && t[3] == 73
                    && t[4] == 76 && t[5] == 69 && t[6] == 82 && t[7] == 33 && t[8] == 33
                    && t[9] == 33);
            }
        }
    }
    r
}

/// Reads the thirteen header fields at `pos`.
fn read_header_fields(data: &[u8], pos: usize) -> (r: Option<Vec<u32>>)
    requires
        pos + 110 <= data@.len(),
    ensures
        r is Some <==> header_fields_valid(data@, pos as nat),
        r matches Some(v) ==> v@.len() == 13 && forall|k: nat|
            k < 13 ==> #[trigger] header_field(data@, pos as nat, k) == Some(v@[k as int]),
{
    let len = data.len();
    let mut vals: Vec<u32> = Vec::new();
    let mut k: usize = 0;
    while k < 13
        invariant
            k <= 13,
            len == data@.len(),
            pos + 110 <= data@.len(),
            vals@.len() == k,
            forall|j: nat| j < k ==> #[trigger] header_field(data@, pos as nat, j) == Some(
                vals@[j as int],
            ),
        decreases 13 - k,
    {
        let start = pos + 6 + 8 * k;
        let field_bytes = &data[start..start + 8];
        match parse_hex_field(field_bytes) {
            None => {
                assert(header_field(data@, pos as nat, k as nat) is None);
                return None;
            },
            Some(v) => {
                vals.push(v);
            },
        }
        k = k + 1;
    }
    Some(vals)
}

/// One parser step, as an executable value.
enum StepResult {
    Fail(CpioError),
    EmptyName,
    Trailer(usize),
    Entry(CpioEntry, usize),
}

spec fn step_agrees(r: StepResult, s: ParseStep) -> bool {
    match r {
        StepResult::Fail(e) => s == ParseStep::Fail { error: e },
        StepResult::EmptyName => s is EmptyName,
        StepResult::Trailer(n) => s == ParseStep::Trailer { next: n as nat },
        StepResult::Entry(e, n) => s == ParseStep::Entry { entry: e@, next: n as nat },
    }
}

fn parse_step_exec(data: &[u8], pos: usize) -> (r: StepResult)
    ensures
        step_agrees(r, parse_step(data@, pos as nat)),
{
    reveal(parse_step);
    if pos > data.len() || data.len() - pos < 110 {
        return StepResult::Fail(CpioError::Truncated { offset: pos });
    }
    if !has_magic(data, pos) {
        return StepResult::Fail(CpioError::BadMagic { offset: pos });
    }
    let vals = match read_header_fields(data, pos) {
        None => {
            return StepResult::Fail(CpioError::InvalidHex { offset: pos });
        },
        Some(v) => v,
    };
    assert(header_field(data@, pos as nat, 11) == Some(vals@[11]));
    assert(header_field(data@, pos as nat, 6) == Some(vals@[6]));
    let namesize = vals[11] as usize;
    let filesize = vals[6] as usize;
    let name_start = pos + 110;
    if namesize > data.len() - name_start {
        return StepResult::Fail(CpioError::NameOutOfBounds { offset: pos });
    }
    let name_end = name_start + namesize;
    if namesize == 0 {
        return StepResult::EmptyName;
    }
    let name_bytes = &data[name_start..name_end - 1];
    let name_str = match str_from_utf8(name_bytes) {
        None => {
            return StepResult::Fail(CpioError::InvalidName { offset: pos });
        },
        Some(s) => s,
    };
    let data_start = match align4_checked(name_end) {
        None => {
            return StepResult::Fail(CpioError::DataOutOfBounds { offset: pos });
        },
        Some(v) => v,
    };
    if data_start > data.len() || filesize > data.len() - data_start {
        return StepResult::Fail(CpioError::DataOutOfBounds { offset: pos });
    }
    let data_end = data_start + filesize;
    let next = match align4_checked(data_end) {
        None => {
            return StepResult::Fail(CpioError::DataOutOfBounds { offset: pos });
        },
        Some(v) => v,
    };
    if next > data.len() {
        return StepResult::Fail(CpioError::DataOutOfBounds { offset: pos });
    }
    if is_trailer_name(name_bytes) {
        return StepResult::Trailer(next);
    }
    proof {
        encode_utf8_decode_utf8(name_str@);
        assert(header_field(data@, pos as nat, 0) == Some(vals@[0]));
        assert(header_field(data@, pos as nat, 1) == Some(vals@[1]));
        assert(header_field(data@, pos as nat, 2) == Some(vals@[2]));
        assert(header_field(data@, pos as nat, 3) == Some(vals@[3]));
        assert(header_field(data@, pos as nat, 4) == Some(vals@[4]));
        assert(header_field(data@, pos as nat, 5) == Some(vals@[5]));
        assert(header_field(data@, pos as nat, 7) == Some(vals@[7]));
        assert(header_field(data@, pos as nat, 8) == Some(vals@[8]));
        assert(header_field(data@, pos as nat, 9) == Some(vals@[9]));
        assert(header_field(data@, pos as nat, 10) == Some(vals@[10]));
    }
    let entry = CpioEntry {
        ino: vals[0],
        mode: vals[1],
        uid: vals[2],
        gid: vals[3],
        nlink: vals[4],
        mtime: vals[5],
        devmajor: vals[7],
        devminor: vals[8],
        rdevmajor: vals[9],
        rdevminor: vals[10],
        name: name_str.to_owned(),
        data: slice_to_vec(&data[data_start..data_end]),
    };
    StepResult::Entry(entry, next)
}

/// Outcome of reading a whole archive, as an executable value.
pub enum ParseOutcome {
    Parsed(CpioArchive, usize),
    Failed(CpioError),
    /// A header at this offset has a name size of zero.
    EmptyName(usize),
}

pub open spec fn parse_outcome_agrees(r: ParseOutcome, w: ParseWalk) -> bool {
    match r {
        ParseOutcome::Parsed(a, n) => w == ParseWalk::Done { entries: a@, end: n as nat },
        ParseOutcome::Failed(e) => w == ParseWalk::Fail { error: e },
        ParseOutcome::EmptyName(p) => w == ParseWalk::EmptyName { offset: p as nat },
    }
}

/// Reads entries from the start of `data` up to the trailer. Unlike
/// [`parse_archive`] it also reports a header whose name size is zero.
pub fn parse_walk(data: &[u8]) -> (r: ParseOutcome)
    ensures
        parse_outcome_agrees(r, parse_from(data@, 0)),
{
    let mut entries: Vec<CpioEntry> = Vec::new();
    let mut pos: usize = 0;
    loop
        invariant
            pos <= data@.len(),
            parse_from(data@, 0) == prepend_entries(
                entries@.map_values(|e: CpioEntry| e@),
                parse_from(data@, pos as nat),
            ),
        decreases data@.len() + 4 - pos,
    {
        let ghost before = entries@.map_values(|e: CpioEntry| e@);
        proof {
            lemma_parse_step_advances(data@, pos as nat);
        }
        let step = parse_step_exec(data, pos);
        match step {
            StepResult::Fail(e) => {
                return ParseOutcome::Failed(e);
            },
            StepResult::EmptyName => {
                return ParseOutcome::EmptyName(pos);
            },
            StepResult::Trailer(next) => {
                let archive = CpioArchive { entries };
                assert(before + seq![] =~= before);
                return ParseOutcome::Parsed(archive, next);
            },
            StepResult::Entry(e, next) => {
                let ghost ev = e@;
                let ghost rest = parse_from(data@, next as nat);
                entries.push(e);
                assert(entries@.map_values(|e: CpioEntry| e@) =~= before.push(ev));
                proof {
                    if let ParseWalk::Done { entries: xs, end } = rest {
                        assert(before + (seq![ev] + xs) =~= before.push(ev) + xs);
                    }
                }
                pos = next;
            },
        }
    }
}

/// Parses a complete CPIO archive from decompressed bytes: the entries up
/// to the trailer, and the number of bytes consumed (the trailer and its
/// padding included).
pub fn parse_archive(data: &[u8]) -> (res: Result<(CpioArchive, usize), CpioError>)
    requires
        !(parse_from(data@, 0) is EmptyName),
    ensures
        match parse_from(data@, 0) {
            ParseWalk::Done { entries, end } => res matches Ok((a, n)) && a@ == entries && n
                == end,
            ParseWalk::Fail { error } => res matches Err(e) && e == error,
            ParseWalk::EmptyName { .. } => false,
        },
{
    match parse_walk(data) {
        ParseOutcome::Parsed(a, n) => Ok((a, n)),
        ParseOutcome::Failed(e) => Err(e),
        ParseOutcome::EmptyName(_) => {
            assert(false);
            Err(CpioError::Truncated { offset: 0 })
        },
    }
}

/// One step of the end-of-archive scanner, which reads only the two size
/// fields of each header.
pub enum ScanStep {
    Fail { error: CpioError },
    EmptyName,
    Trailer { next: nat },
    Next { next: nat },
}

pub open spec fn scan_step(data: Seq<u8>, pos: nat) -> ScanStep {
    if pos + 110 > data.len() {
        ScanStep::Fail { error: CpioError::Truncated { offset: pos as usize } }
    } else if data.subrange(pos as int, pos + 6 as int) != newc_magic() {
        ScanStep::Fail { error: CpioError::BadMagic { offset: pos as usize } }
    } else if header_field(data, pos, 6) is None || header_field(data, pos, 11) is None {
        ScanStep::Fail { error: CpioError::InvalidHex { offset: pos as usize } }
    } else {
        let namesize = field(data, pos, 11) as nat;
        let filesize = field(data, pos, 6) as nat;
        let name_end = pos + 110 + namesize;
        if name_end > data.len() {
            ScanStep::Fail { error: CpioError::NameOutOfBounds { offset: pos as usize } }
        } else if namesize == 0 {
            ScanStep::EmptyName
        } else {
            let name = data.subrange(pos + 110 as int, name_end - 1 as int);
            let next = align4(align4(name_end) + filesize);
            if !valid_utf8(name) {
                ScanStep::Fail { error: CpioError::InvalidName { offset: pos as usize } }
            } else if next > data.len() {
                ScanStep::Fail { error: CpioError::DataOutOfBounds { offset: pos as usize } }
            } else if name == trailer_name_bytes() {
                ScanStep::Trailer { next }
            } else {
                ScanStep::Next { next }
            }
        }
    }
}

/// The outcome of scanning from `pos` to the trailer.
pub enum ScanWalk {
    End { end: nat },
    Fail { error: CpioError },
    EmptyName { offset: nat },
}

pub open spec fn scan_from(data: Seq<u8>, pos: nat) -> ScanWalk
    decreases (if pos <= data.len() {
        data.len() + 1 - pos
    } else {
        0
    }),
{
    match scan_step(data, pos) {
        ScanStep::Fail { error } => ScanWalk::Fail { error },
        ScanStep::EmptyName => ScanWalk::EmptyName { offset: pos },
        ScanStep::Trailer { next } => ScanWalk::End { end: next },
        ScanStep::Next { next } => scan_from(data, next),
    }
}

enum ScanStepResult {
    Fail(CpioError),
    EmptyName,
    Trailer(usize),
    Next(usize),
}

spec fn scan_step_agrees(r: ScanStepResult, s: ScanStep) -> bool {
    match r {
        ScanStepResult::Fail(e) => s == ScanStep::Fail { error: e },
        ScanStepResult::EmptyName => s is EmptyName,
        ScanStepResult::Trailer(n) => s == ScanStep::Trailer { next: n as nat },
        ScanStepResult::Next(n) => s == ScanStep::Next { next: n as nat },
    }
}

/// `n` rounded up to a multiple of four, when that fits in a `usize`.
fn align4_checked(n: usize) -> (r: Option<usize>)
    ensures
        r matches Some(v) ==> v == align4(n as nat),
        r is None ==> align4(n as nat) > usize::MAX,
{
    let pad = (4 - n % 4) % 4;
    if pad > usize::MAX - n {
        None
    } else {
        Some(n + pad)
    }
}

fn scan_step_exec(data: &[u8], pos: usize) -> (r: ScanStepResult)
    ensures
        scan_step_agrees(r, scan_step(data@, pos as nat)),
        r matches ScanStepResult::Next(n) ==> pos < n,
{
    if pos > data.len() || data.len() - pos < 110 {
        return ScanStepResult::Fail(CpioError::Truncated { offset: pos });
    }
    if !has_magic(data, pos) {
        return ScanStepResult::Fail(CpioError::BadMagic { offset: pos });
    }
    let filesize = match parse_hex_field(&data[pos + 54..pos + 62]) {
        None => {
            return ScanStepResult::Fail(CpioError::InvalidHex { offset: pos });
        },
        Some(v) => v as usize,
    };
    let namesize = match parse_hex_field(&data[pos + 94..pos + 102]) {
        None => {
            return ScanStepResult::Fail(CpioError::InvalidHex { offset: pos });
        },
        Some(v) => v as usize,
    };
    let name_start = pos + 110;
    if namesize > data.len() - name_start {
        return ScanStepResult::Fail(CpioError::NameOutOfBounds { offset: pos });
    }
    let name_end = name_start + namesize;
    if namesize == 0 {
        return ScanStepResult::EmptyName;
    }
    let name_bytes = &data[name_start..name_end - 1];
    if str_from_utf8(name_bytes).is_none() {
        return ScanStepResult::Fail(CpioError::InvalidName { offset: pos });
    }
    let next = match align4_checked(name_end) {
        None => None,
        Some(data_start) => if filesize > usize::MAX - data_start {
            None
        } else {
            align4_checked(data_start + filesize)
        },
    };
    match next {
        None => ScanStepResult::Fail(CpioError::DataOutOfBounds { offset: pos }),
        Some(next) => if next > data.len() {
            ScanStepResult::Fail(CpioError::DataOutOfBounds { offset: pos })
        } else if is_trailer_name(name_bytes) {
            ScanStepResult::Trailer(next)
        } else {
            ScanStepResult::Next(next)
        },
    }
}

pub enum ScanOutcome {
    End(usize),
    Failed(CpioError),
    EmptyName(usize),
}

pub open spec fn scan_outcome_agrees(r: ScanOutcome, w: ScanWalk) -> bool {
    match r {
        ScanOutcome::End(n) => w == ScanWalk::End { end: n as nat },
        ScanOutcome::Failed(e) => w == ScanWalk::Fail { error: e },
        ScanOutcome::EmptyName(p) => w == ScanWalk::EmptyName { offset: p as nat },
    }
}

/// Finds where the archive at the start of `data` ends. Unlike
/// [`scan_archive_end`] it also reports a header whose name size is zero.
pub fn scan_walk(data: &[u8]) -> (r: ScanOutcome)
    ensures
        scan_outcome_agrees(r, scan_from(data@, 0)),
        r matches ScanOutcome::EmptyName(o) ==> o + 110 <= data@.len(),
{
    let mut pos: usize = 0;
    loop
        invariant
            scan_from(data@, 0) == scan_from(data@, pos as nat),
        decreases usize::MAX - pos,
    {
        match scan_step_exec(data, pos) {
            ScanStepResult::Fail(e) => {
                return ScanOutcome::Failed(e);
            },
            ScanStepResult::EmptyName => {
                return ScanOutcome::EmptyName(pos);
            },
            ScanStepResult::Trailer(next) => {
                return ScanOutcome::End(next);
            },
            ScanStepResult::Next(next) => {
                pos = next;
            },
        }
    }
}

/// Finds the end of the CPIO archive at the start of `data` without
/// copying entry data: the bytes up to and including the trailer's padding.
/// Only the size fields of each header are read.
pub fn scan_archive_end(data: &[u8]) -> (res: Result<usize, CpioError>)
    requires
        !(scan_from(data@, 0) is EmptyName),
    ensures
        match scan_from(data@, 0) {
            ScanWalk::End { end } => res == Ok::<usize, CpioError>(end as usize),
            ScanWalk::Fail { error } => res == Err::<usize, CpioError>(error),
            ScanWalk::EmptyName { .. } => false,
        },
{
    match scan_walk(data) {
        ScanOutcome::End(n) => Ok(n),
        ScanOutcome::Failed(e) => Err(e),
        ScanOutcome::EmptyName(_) => {
            assert(false);
            Err(CpioError::Truncated { offset: 0 })
        },
    }
}

/// Header fields written one after the other, each as `{:08X}`.
pub open spec fn fields_concat(vals: Seq<nat>) -> Seq<u8>
    decreases vals.len(),
{
    if vals.len() == 0 {
        seq![]
    } else {
        fields_concat(vals.drop_last()) + format_hex08(vals.last())
    }
}

/// The thirteen header values of an entry, in header order; the check
/// field is written as zero.
pub open spec fn header_values(e: EntryView, filesize: nat, namesize: nat) -> Seq<nat> {
    seq![
        e.ino as nat,
        e.mode as nat,
        e.uid as nat,
        e.gid as nat,
        e.nlink as nat,
        e.mtime as nat,
        filesize,
        e.devmajor as nat,
        e.devminor as nat,
        e.rdevmajor as nat,
        e.rdevminor as nat,
        namesize,
        0,
    ]
}

pub open spec fn zeros(n: nat) -> Seq<u8> {
    Seq::new(n, |i: int| 0u8)
}

/// An entry's bytes with the given name bytes: header, name, NUL, padding
/// of header and name to a multiple of four, file data, padding of the
/// data to a multiple of four.
pub open spec fn encode_record(e: EntryView, name: Seq<u8>) -> Seq<u8> {
    let namesize = name.len() + 1;
    newc_magic() + fields_concat(header_values(e, e.data.len(), namesize)) + name + seq![0u8]
        + zeros(pad4(110 + namesize)) + e.data + zeros(pad4(e.data.len()))
}

/// An entry as the writer lays it out, its name in UTF-8.
pub open spec fn encode_entry(e: EntryView) -> Seq<u8> {
    encode_record(e, encode_utf8(e.name))
}

/// The entry that ends every archive.
pub open spec fn trailer_entry() -> EntryView {
    EntryView {
        ino: 0,
        mode: 0,
        uid: 0,
        gid: 0,
        nlink: 1,
        mtime: 0,
        devmajor: 0,
        devminor: 0,
        rdevmajor: 0,
        rdevminor: 0,
        name: trailer_name(),
        data: seq![],
    }
}

pub open spec fn encode_entries(es: Seq<EntryView>) -> Seq<u8>
    decreases es.len(),
{
    if es.len() == 0 {
        seq![]
    } else {
        encode_entries(es.drop_last()) + encode_entry(es.last())
    }
}

/// An archive as the writer lays it out: its entries, then the trailer.
pub open spec fn encode_archive(es: Seq<EntryView>) -> Seq<u8> {
    encode_entries(es) + encode_entry(trailer_entry())
}

/// The writer can state the name size of each entry in a `usize`.
pub open spec fn names_fit(es: Seq<EntryView>) -> bool {
    forall|i: int| 0 <= i < es.len() ==> encode_utf8(#[trigger] es[i].name).len() < usize::MAX
}

pub(crate) fn append_bytes(buf: &mut Vec<u8>, bytes: &[u8])
    ensures
        final(buf)@ == old(buf)@ + bytes@,
{
    let ghost start = buf@;
    let mut i: usize = 0;
    while i < bytes.len()
        invariant
            i <= bytes@.len(),
            buf@ == start + bytes@.subrange(0, i as int),
        decreases bytes@.len() - i,
    {
        buf.push(bytes[i]);
        i = i + 1;
        assert(buf@ =~= start + bytes@.subrange(0, i as int));
    }
    assert(bytes@.subrange(0, bytes@.len() as int) =~= bytes@);
}

pub(crate) fn push_zeros(buf: &mut Vec<u8>, n: usize)
    ensures
        final(buf)@ == old(buf)@ + zeros(n as nat),
{
    let ghost start = buf@;
    let mut i: usize = 0;
    while i < n
        invariant
            i <= n,
            buf@ == start + zeros(i as nat),
        decreases n - i,
    {
        buf.push(0);
        i = i + 1;
        assert(buf@ =~= start + zeros(i as nat));
    }
}

/// Writes the header, name and data of `e`, with `name` as its name bytes.
fn write_record(buf: &mut Vec<u8>, e: &CpioEntry, name: &[u8])
    requires
        name@.len() < usize::MAX,
    ensures
        final(buf)@ == old(buf)@ + encode_record(e@, name@),
{
    let ghost start = buf@;
    let namesize = name.len() + 1;
    let filesize = e.data.len();
    buf.push(48);
    buf.push(55);
    buf.push(48);
    buf.push(55);
    buf.push(48);
    buf.push(49);
    assert(buf@ =~= start + newc_magic());
    let ghost hv = header_values(e@, filesize as nat, namesize as nat);
    let mut vals: Vec<u64> = Vec::new();
    vals.push(e.ino as u64);
    vals.push(e.mode as u64);
    vals.push(e.uid as u64);
    vals.push(e.gid as u64);
    vals.push(e.nlink as u64);
    vals.push(e.mtime as u64);
    vals.push(filesize as u64);
    vals.push(e.devmajor as u64);
    vals.push(e.devminor as u64);
    vals.push(e.rdevmajor as u64);
    vals.push(e.rdevminor as u64);
    vals.push(namesize as u64);
    vals.push(0);
    assert forall|j: int| 0 <= j < 13 implies (#[trigger] vals@[j]) as nat == hv[j] by {}
    let mut k: usize = 0;
    while k < 13
        invariant
            k <= 13,
            vals@.len() == 13,
            hv.len() == 13,
            forall|j: int| 0 <= j < 13 ==> (#[trigger] vals@[j]) as nat == hv[j],
            buf@ == start + newc_magic() + fields_concat(hv.take(k as int)),
        decreases 13 - k,
    {
        let ghost before = buf@;
        push_hex08(buf, vals[k]);
        assert(hv.take(k + 1).drop_last() =~= hv.take(k as int));
        assert(hv.take(k + 1).last() == hv[k as int]);
        k = k + 1;
        assert(buf@ =~= start + newc_magic() + fields_concat(hv.take(k as int)));
    }
    assert(hv.take(13) =~= hv);
    append_bytes(buf, name);
    buf.push(0);
    let name_pad = (4 - (namesize % 4 + 110) % 4) % 4;
    assert(name_pad as nat == pad4(110 + namesize as nat)) by (nonlinear_arith)
        requires
            name_pad == (4 - (namesize % 4 + 110) % 4) % 4,
    ;
    push_zeros(buf, name_pad);
    append_bytes(buf, e.data.as_slice());
    push_zeros(buf, (4 - filesize % 4) % 4);
    assert(buf@ =~= start + encode_record(e@, name@));
}

/// Writes one entry, its name in UTF-8.
fn write_entry(buf: &mut Vec<u8>, entry: &CpioEntry)
    requires
        encode_utf8(entry.name@).len() < usize::MAX,
    ensures
        final(buf)@ == old(buf)@ + encode_entry(entry@),
{
    let name = entry.name.as_str().as_bytes();
    write_record(buf, entry, name);
}

/// Serializes an archive in CPIO newc format: its entries in order, then
/// the trailer.
pub fn write_archive(archive: &CpioArchive) -> (buf: Vec<u8>)
    requires
        names_fit(archive@),
    ensures
        buf@ == encode_archive(archive@),
{
    let mut buf: Vec<u8> = Vec::new();
    let n = archive.entries.len();
    let mut i: usize = 0;
    while i < n
        invariant
            i <= n,
            n == archive.entries@.len(),
            names_fit(archive@),
            buf@ == encode_entries(archive@.take(i as int)),
        decreases n - i,
    {
        assert(archive@[i as int] == archive.entries@[i as int]@);
        assert(encode_utf8(archive@[i as int].name).len() < usize::MAX);
        write_entry(&mut buf, &archive.entries[i]);
        assert(archive@.take(i + 1).drop_last() =~= archive@.take(i as int));
        i = i + 1;
    }
    assert(archive@.take(n as int) =~= archive@);
    let mut trailer_name_vec: Vec<u8> = Vec::new();
    trailer_name_vec.push(84);
    trailer_name_vec.push(82);
    trailer_name_vec.push(65);
    trailer_name_vec.push(73);
    trailer_name_vec.push(76);
    trailer_name_vec.push(69);
    trailer_name_vec.push(82);
    trailer_name_vec.push(33);
    trailer_name_vec.push(33);
    trailer_name_vec.push(33);
    let trailer = CpioEntry {
        ino: 0,
        mode: 0,
        uid: 0,
        gid: 0,
        nlink: 1,
        mtime: 0,
        devmajor: 0,
        devminor: 0,
        rdevmajor: 0,
        rdevminor: 0,
        name: String::new(),
        data: Vec::new(),
    };
    proof {
        lemma_trailer_name_bytes();
        assert(trailer_name_vec@ =~= trailer_name_bytes());
        assert(trailer@.data =~= trailer_entry().data);
    }
    write_record(&mut buf, &trailer, trailer_name_vec.as_slice());
    buf
}

/// `TRAILER!!!` in UTF-8 is its ASCII bytes.
pub proof fn lemma_trailer_name_bytes()
    ensures
        encode_utf8(trailer_name()) == trailer_name_bytes(),
{
    let t = trailer_name();
    assert(is_ascii_chars(t));
    is_ascii_chars_encode_utf8(t);
    assert(encode_utf8(t) =~= trailer_name_bytes());
}

/// An entry the writer can lay out so that the parser reads it back: its
/// name and data sizes fit the eight-digit header fields.
pub open spec fn entry_fits_header(e: EntryView) -> bool {
    &&& encode_utf8(e.name).len() + 1 <= u32::MAX
    &&& e.data.len() <= u32::MAX
}

proof fn lemma_fields_concat(vals: Seq<nat>)
    requires
        forall|j: int| 0 <= j < vals.len() ==> vals[j] <= u32::MAX,
    ensures
        fields_concat(vals).len() == 8 * vals.len(),
        forall|k: int|
            0 <= k < vals.len() ==> #[trigger] fields_concat(vals).subrange(8 * k, 8 * k + 8)
                == format_hex08(vals[k]),
    decreases vals.len(),
{
    if vals.len() > 0 {
        let t = vals.drop_last();
        lemma_fields_concat(t);
        lemma_hex_field_roundtrip(vals.last());
        let a = fields_concat(t);
        let b = format_hex08(vals.last());
        assert(fields_concat(vals) == a + b);
        assert forall|k: int| 0 <= k < vals.len() implies #[trigger] fields_concat(vals).subrange(
            8 * k,
            8 * k + 8,
        ) == format_hex08(vals[k]) by {
            if k < t.len() {
                assert((a + b).subrange(8 * k, 8 * k + 8) =~= a.subrange(8 * k, 8 * k + 8));
                assert(t[k] == vals[k]);
            } else {
                assert((a + b).subrange(8 * k, 8 * k + 8) =~= b);
            }
        }
    }
}

/// A window into `s` at `p` that equals `e` has, at every sub-window, the
/// matching part of `e`.
proof fn lemma_window(s: Seq<u8>, p: int, e: Seq<u8>, a: int, b: int)
    requires
        0 <= p,
        p + e.len() <= s.len(),
        s.subrange(p, p + e.len()) == e,
        0 <= a <= b <= e.len(),
    ensures
        s.subrange(p + a, p + b) == e.subrange(a, b),
{
    assert forall|i: int| 0 <= i < b - a implies s.subrange(p + a, p + b)[i] == e.subrange(
        a,
        b,
    )[i] by {
        assert(s.subrange(p, p + e.len())[a + i] == e[a + i]);
    }
    assert(s.subrange(p + a, p + b) =~= e.subrange(a, b));
}

proof fn lemma_pad4_shift(p: nat, x: nat)
    requires
        p % 4 == 0,
    ensures
        pad4(p + x) == pad4(x),
        (x + pad4(x)) % 4 == 0,
{
    assert((p + x) % 4 == x % 4) by (nonlinear_arith)
        requires
            p % 4 == 0,
    ;
}

/// The layout of an encoded entry.
proof fn lemma_encode_entry_layout(e: EntryView)
    requires
        entry_fits_header(e),
    ensures
        ({
            let name = encode_utf8(e.name);
            let ns = name.len() + 1;
            let enc = encode_entry(e);
            let f = e.data.len();
            &&& enc.len() == 110 + ns + pad4(110 + ns) + f + pad4(f)
            &&& enc.len() % 4 == 0
            &&& enc.subrange(0, 6) == newc_magic()
            &&& forall|k: int|
                0 <= k < 13 ==> #[trigger] enc.subrange(6 + 8 * k, 14 + 8 * k) == format_hex08(
                    header_values(e, f, ns)[k],
                )
            &&& enc.subrange(110, 110 + name.len() as int) == name
            &&& enc.subrange(110 + ns + pad4(110 + ns) as int, 110 + ns + pad4(110 + ns) + f as int) == e.data
        }),
{
    let name = encode_utf8(e.name);
    let ns = name.len() + 1;
    let f = e.data.len();
    let hv = header_values(e, f, ns);
    lemma_fields_concat(hv);
    let fc = fields_concat(hv);
    let z1 = zeros(pad4(110 + ns));
    let z2 = zeros(pad4(f));
    let enc = encode_entry(e);
    let m = newc_magic();
    assert(enc == m + fc + name + seq![0u8] + z1 + e.data + z2);
    lemma_pad4_shift(0, 110 + ns);
    lemma_pad4_shift(0, f);
    assert(enc.len() % 4 == 0) by (nonlinear_arith)
        requires
            enc.len() == (110 + ns + pad4(110 + ns)) + (f + pad4(f)),
            (110 + ns + pad4(110 + ns)) % 4 == 0,
            (f + pad4(f)) % 4 == 0,
    ;
    assert(enc.subrange(0, 6) =~= m);
    assert forall|k: int| 0 <= k < 13 implies #[trigger] enc.subrange(6 + 8 * k, 14 + 8 * k)
        == format_hex08(hv[k]) by {
        assert(enc.subrange(6 + 8 * k, 14 + 8 * k) =~= fc.subrange(8 * k, 8 * k + 8));
    }
    assert(enc.subrange(110, 110 + name.len() as int) =~= name);
    assert(enc.subrange(110 + ns + pad4(110 + ns) as int, 110 + ns + pad4(110 + ns) + f as int) =~= e.data);
}

/// The parser reads back, at a four-aligned offset, an entry that the
/// writer laid out there.
#[verifier::rlimit(50)]
proof fn lemma_parse_step_encoded(data: Seq<u8>, p: nat, e: EntryView)
    requires
        p % 4 == 0,
        entry_fits_header(e),
        p + encode_entry(e).len() <= data.len(),
        data.subrange(p as int, p + encode_entry(e).len() as int) == encode_entry(e),
    ensures
        e.name == trailer_name() ==> parse_step(data, p) == (ParseStep::Trailer {
            next: p + encode_entry(e).len(),
        }),
        e.name != trailer_name() ==> parse_step(data, p) == (ParseStep::Entry {
            entry: e,
            next: p + encode_entry(e).len(),
        }),
{
    reveal(parse_step);
    let name = encode_utf8(e.name);
    let ns = name.len() + 1;
    let f = e.data.len();
    let enc = encode_entry(e);
    let hv = header_values(e, f, ns);
    lemma_encode_entry_layout(e);
    lemma_window(data, p as int, enc, 0, 6);
    assert forall|k: nat| k < 13 implies #[trigger] header_field(data, p, k) == Some(
        hv[k as int] as u32,
    ) by {
        lemma_window(data, p as int, enc, 6 + 8 * k as int, 14 + 8 * k as int);
        assert(enc.subrange(6 + 8 * k as int, 14 + 8 * k as int) == format_hex08(hv[k as int]));
        lemma_hex_field_roundtrip(hv[k as int]);
    }
    assert(header_field(data, p, 11) == Some(hv[11] as u32));
    assert(header_field(data, p, 6) == Some(hv[6] as u32));
    assert(header_fields_valid(data, p));
    lemma_window(data, p as int, enc, 110, 110 + name.len() as int);
    let ds = 110 + ns + pad4(110 + ns);
    lemma_window(data, p as int, enc, ds as int, ds + f as int);
    lemma_pad4_shift(p, 110 + ns);
    lemma_pad4_shift(p, (ds + f) as nat);
    lemma_pad4_shift(0, 110 + ns);
    assert(pad4(p + ds + f) == pad4(f)) by {
        lemma_pad4_shift((p + ds) as nat, f);
        assert((p + ds) % 4 == 0) by (nonlinear_arith)
            requires
                p % 4 == 0,
                ds % 4 == 0,
        ;
    }
    encode_utf8_valid_utf8(e.name);
    encode_utf8_decode_utf8(e.name);
    lemma_trailer_name_bytes();
    if name == trailer_name_bytes() {
        encode_utf8_decode_utf8(trailer_name());
    }
    assert(field(data, p, 0) == e.ino);
    assert(field(data, p, 1) == e.mode);
    assert(field(data, p, 2) == e.uid);
    assert(field(data, p, 3) == e.gid);
    assert(field(data, p, 4) == e.nlink);
    assert(field(data, p, 5) == e.mtime);
    assert(field(data, p, 7) == e.devmajor);
    assert(field(data, p, 8) == e.devminor);
    assert(field(data, p, 9) == e.rdevmajor);
    assert(field(data, p, 10) == e.rdevminor);
}

proof fn lemma_encode_entries_first(es: Seq<EntryView>)
    requires
        es.len() > 0,
    ensures
        encode_entries(es) == encode_entry(es[0]) + encode_entries(es.drop_first()),
    decreases es.len(),
{
    if es.len() == 1 {
        assert(es.drop_last() =~= Seq::<EntryView>::empty());
        assert(es.drop_first() =~= Seq::<EntryView>::empty());
        assert(encode_entries(es) =~= encode_entry(es[0]) + encode_entries(es.drop_first()));
    } else {
        lemma_encode_entries_first(es.drop_last());
        assert(es.drop_last().drop_first() =~= es.drop_first().drop_last());
        assert(es.drop_first().last() == es.last());
        assert(es.drop_last()[0] == es[0]);
        assert(encode_entries(es) =~= encode_entry(es[0]) + encode_entries(es.drop_first()));
    }
}

proof fn lemma_parse_encoded_from(data: Seq<u8>, p: nat, es: Seq<EntryView>)
    requires
        p % 4 == 0,
        forall|i: int| 0 <= i < es.len() ==> entry_fits_header(#[trigger] es[i]),
        forall|i: int| 0 <= i < es.len() ==> (#[trigger] es[i]).name != trailer_name(),
        p + encode_archive(es).len() <= data.len(),
        data.subrange(p as int, p + encode_archive(es).len() as int) == encode_archive(es),
    ensures
        parse_from(data, p) == (ParseWalk::Done { entries: es, end: p + encode_archive(es).len() }),
    decreases es.len(),
{
    let t = encode_entry(trailer_entry());
    lemma_trailer_name_bytes();
    assert(entry_fits_header(trailer_entry()));
    if es.len() == 0 {
        assert(encode_archive(es) =~= t);
        lemma_parse_step_encoded(data, p, trailer_entry());
        assert(parse_step(data, p) == ParseStep::Trailer { next: p + t.len() });
        assert(es =~= Seq::<EntryView>::empty());
    } else {
        let e0 = es[0];
        let rest = es.drop_first();
        lemma_encode_entries_first(es);
        let e0b = encode_entry(e0);
        assert(entry_fits_header(e0));
        lemma_encode_entry_layout(e0);
        let whole = encode_archive(es);
        assert(whole =~= e0b + encode_archive(rest));
        lemma_window(data, p as int, whole, 0, e0b.len() as int);
        assert(whole.subrange(0, e0b.len() as int) =~= e0b);
        lemma_parse_step_encoded(data, p, e0);
        let q = p + e0b.len();
        lemma_window(data, p as int, whole, e0b.len() as int, whole.len() as int);
        assert(whole.subrange(e0b.len() as int, whole.len() as int) =~= encode_archive(rest));
        assert(q % 4 == 0) by (nonlinear_arith)
            requires
                p % 4 == 0,
                e0b.len() % 4 == 0,
                q == p + e0b.len(),
        ;
        assert forall|i: int| 0 <= i < rest.len() implies entry_fits_header(#[trigger] rest[i])
            && rest[i].name != trailer_name() by {
            assert(rest[i] == es[i + 1]);
        }
        lemma_parse_encoded_from(data, q, rest);
        assert(parse_step(data, p) == ParseStep::Entry { entry: e0, next: q });
        assert(seq![e0] + rest =~= es);
        assert(q + encode_archive(rest).len() == p + whole.len());
    }
}

/// Entries that the writer and the parser agree on: none is named
/// `TRAILER!!!` and their name and data sizes fit the header fields.
pub open spec fn entries_round_trip(es: Seq<EntryView>) -> bool {
    &&& forall|i: int| 0 <= i < es.len() ==> entry_fits_header(#[trigger] es[i])
    &&& forall|i: int| 0 <= i < es.len() ==> (#[trigger] es[i]).name != trailer_name()
}

/// Writing an archive and parsing the bytes back gives the same entries,
/// and the parser consumes every byte written; for archives with no entry
/// named `TRAILER!!!` and whose name and data sizes fit the header fields.
pub proof fn lemma_write_parse_roundtrip(es: Seq<EntryView>)
    requires
        entries_round_trip(es),
    ensures
        parse_from(encode_archive(es), 0) == (ParseWalk::Done {
            entries: es,
            end: encode_archive(es).len(),
        }),
{
    let w = encode_archive(es);
    assert(w.subrange(0, w.len() as int) =~= w);
    lemma_parse_encoded_from(w, 0, es);
}

/// Where the parser reads an entry or the trailer, the scanner steps to the
/// same offset.
proof fn lemma_scan_step_follows_parse_step(data: Seq<u8>, pos: nat)
    ensures
        parse_step(data, pos) matches ParseStep::Entry { next, .. } ==> scan_step(data, pos)
            == (ScanStep::Next { next }),
        parse_step(data, pos) matches ParseStep::Trailer { next } ==> scan_step(data, pos)
            == (ScanStep::Trailer { next }),
{
    reveal(parse_step);
    if parse_step(data, pos) is Entry || parse_step(data, pos) is Trailer {
        assert(header_field(data, pos, 6) is Some);
        assert(header_field(data, pos, 11) is Some);
    }
}

/// Where the parser reads a whole archive, the scanner finds the same end,
/// and that end lies within the data.
pub proof fn lemma_scan_agrees_with_parse(data: Seq<u8>, pos: nat)
    ensures
        parse_from(data, pos) matches ParseWalk::Done { end, .. } ==> pos < end <= data.len(),
        parse_from(data, pos) matches ParseWalk::Done { end, .. } ==> scan_from(data, pos)
            == (ScanWalk::End { end }),
    decreases data.len() + 4 - pos,
{
    lemma_parse_step_advances(data, pos);
    lemma_scan_step_follows_parse_step(data, pos);
    if let ParseStep::Entry { next, .. } = parse_step(data, pos) {
        lemma_scan_agrees_with_parse(data, next);
    }
}

/// An archive written at the start of `data` begins with the newc magic,
/// and the scanner finds its end exactly where the writing ended, whatever
/// follows it.
#[verifier::rlimit(40)]
pub proof fn lemma_scan_written_prefix(data: Seq<u8>, es: Seq<EntryView>)
    requires
        entries_round_trip(es),
        encode_archive(es).len() <= data.len(),
        data.subrange(0, encode_archive(es).len() as int) == encode_archive(es),
    ensures
        encode_archive(es).len() >= 6,
        data.subrange(0, 6) == newc_magic(),
        scan_from(data, 0) == (ScanWalk::End { end: encode_archive(es).len() }),
{
    let w = encode_archive(es);
    lemma_parse_encoded_from(data, 0, es);
    lemma_scan_agrees_with_parse(data, 0);
    lemma_trailer_name_bytes();
    let first = if es.len() == 0 {
        trailer_entry()
    } else {
        es[0]
    };
    assert(entry_fits_header(first));
    lemma_encode_entry_layout(first);
    let fb = encode_entry(first);
    if es.len() == 0 {
        assert(w =~= fb);
    } else {
        lemma_encode_entries_first(es);
        assert(w =~= fb + (encode_entries(es.drop_first()) + encode_entry(trailer_entry())));
    }
    assert(w.subrange(0, 6) =~= fb.subrange(0, 6));
    lemma_window(data, 0, w, 0, 6);
}

/// Two byte sequences that agree below `m` have the same window there.
proof fn lemma_agree_below(a: Seq<u8>, b: Seq<u8>, m: nat, x: int, y: int)
    requires
        m <= a.len(),
        m <= b.len(),
        a.subrange(0, m as int) == b.subrange(0, m as int),
        0 <= x <= y <= m,
    ensures
        a.subrange(x, y) == b.subrange(x, y),
{
    assert forall|i: int| 0 <= i < y - x implies a.subrange(x, y)[i] == b.subrange(x, y)[i] by {
        assert(a.subrange(x, y)[i] == a[x + i]);
        assert(b.subrange(x, y)[i] == b[x + i]);
        assert(a.subrange(0, m as int)[x + i] == a[x + i]);
        assert(b.subrange(0, m as int)[x + i] == b[x + i]);
    }
    assert(a.subrange(x, y) =~= b.subrange(x, y));
}

/// A parser step that reads an entry or the trailer ending by `m` reads the
/// same from any bytes that agree below `m`.
#[verifier::rlimit(40)]
proof fn lemma_parse_step_agree(a: Seq<u8>, b: Seq<u8>, m: nat, pos: nat)
    requires
        m <= a.len(),
        m <= b.len(),
        a.subrange(0, m as int) == b.subrange(0, m as int),
        parse_step(a, pos) matches ParseStep::Entry { next, .. } ==> next <= m,
        parse_step(a, pos) matches ParseStep::Trailer { next } ==> next <= m,
        parse_step(a, pos) is Entry || parse_step(a, pos) is Trailer,
    ensures
        parse_step(b, pos) == parse_step(a, pos),
{
    reveal(parse_step);
    assert(header_fields_valid(a, pos));
    let namesize = field(a, pos, 11) as nat;
    let filesize = field(a, pos, 6) as nat;
    let name_end = pos + 110 + namesize;
    let data_start = align4(name_end);
    let data_end = data_start + filesize;
    assert(pos + 110 <= name_end <= data_start <= data_end <= align4(data_end) <= m);
    lemma_agree_below(a, b, m, pos as int, pos + 6 as int);
    assert forall|k: nat| k < 13 implies #[trigger] header_field(a, pos, k) == header_field(
        b,
        pos,
        k,
    ) by {
        lemma_agree_below(a, b, m, pos + 6 + 8 * k as int, pos + 14 + 8 * k as int);
    }
    assert forall|k: nat| k < 13 implies (#[trigger] header_field(b, pos, k)) is Some by {
        assert(header_field(a, pos, k) is Some);
        assert(header_field(a, pos, k) == header_field(b, pos, k));
    }
    assert(header_fields_valid(b, pos));
    assert(header_field(a, pos, 11) == header_field(b, pos, 11));
    assert(header_field(a, pos, 6) == header_field(b, pos, 6));
    lemma_agree_below(a, b, m, pos + 110 as int, name_end - 1 as int);
    lemma_agree_below(a, b, m, data_start as int, data_end as int);
    assert(forall|k: nat| k < 13 ==> #[trigger] header_field(a, pos, k) == header_field(b, pos, k));
    assert(field(a, pos, 0) == field(b, pos, 0));
    assert(field(a, pos, 1) == field(b, pos, 1));
    assert(field(a, pos, 2) == field(b, pos, 2));
    assert(field(a, pos, 3) == field(b, pos, 3));
    assert(field(a, pos, 4) == field(b, pos, 4));
    assert(field(a, pos, 5) == field(b, pos, 5));
    assert(field(a, pos, 7) == field(b, pos, 7));
    assert(field(a, pos, 8) == field(b, pos, 8));
    assert(field(a, pos, 9) == field(b, pos, 9));
    assert(field(a, pos, 10) == field(b, pos, 10));
}

proof fn lemma_parse_from_agree(a: Seq<u8>, b: Seq<u8>, m: nat, pos: nat)
    requires
        m <= a.len(),
        m <= b.len(),
        a.subrange(0, m as int) == b.subrange(0, m as int),
        parse_from(a, pos) matches ParseWalk::Done { end, .. } && end <= m,
    ensures
        parse_from(b, pos) == parse_from(a, pos),
    decreases a.len() + 4 - pos,
{
    lemma_parse_step_advances(a, pos);
    lemma_scan_agrees_with_parse(a, pos);
    match parse_step(a, pos) {
        ParseStep::Entry { entry, next } => {
            lemma_scan_agrees_with_parse(a, next);
            lemma_parse_step_agree(a, b, m, pos);
            lemma_parse_from_agree(a, b, m, next);
        },
        ParseStep::Trailer { next } => {
            lemma_parse_step_agree(a, b, m, pos);
        },
        _ => {},
    }
}

/// Parsing stops at the trailer: the bytes after the end that the parser
/// reports, whatever they are, change nothing.
pub proof fn lemma_parse_ignores_trailing_bytes(data: Seq<u8>, rest: Seq<u8>)
    requires
        parse_from(data, 0) is Done,
    ensures
        parse_from(data, 0) matches ParseWalk::Done { end, .. } && end <= data.len() && parse_from(
            data.subrange(0, end as int) + rest,
            0,
        ) == parse_from(data, 0),
{
    lemma_scan_agrees_with_parse(data, 0);
    if let ParseWalk::Done { end, .. } = parse_from(data, 0) {
        let b = data.subrange(0, end as int) + rest;
        assert(b.subrange(0, end as int) =~= data.subrange(0, end as int));
        lemma_parse_from_agree(data, b, end, 0);
    }
}

/// Encoding two lists of entries one after the other gives the encodings
/// of each, one after the other.
pub proof fn lemma_encode_entries_concat(a: Seq<EntryView>, b: Seq<EntryView>)
    ensures
        encode_entries(a + b) == encode_entries(a) + encode_entries(b),
    decreases b.len(),
{
    if b.len() == 0 {
        assert(a + b =~= a);
        assert(encode_entries(a) + encode_entries(b) =~= encode_entries(a));
    } else {
        lemma_encode_entries_concat(a, b.drop_last());
        assert((a + b).drop_last() =~= a + b.drop_last());
        assert((a + b).last() == b.last());
        assert(encode_entries(a + b) =~= encode_entries(a) + encode_entries(b));
    }
}

/// The trailer entry takes 124 bytes.
pub proof fn lemma_trailer_len()
    ensures
        encode_entry(trailer_entry()).len() == 124,
{
    lemma_trailer_name_bytes();
    let t = trailer_entry();
    assert(encode_utf8(t.name).len() == 10);
    assert(t.data.len() == 0);
    assert(entry_fits_header(t));
    assert(encode_entry(t).len() == 124) by {
        lemma_encode_entry_layout(t);
        assert(pad4(121) == 3);
        assert(pad4(0) == 0);
    }
}

/// Writing the entries of two archives as one archive gives the first
/// archive without its 124-byte trailer, then the second archive: entries
/// are written independently, in order, and the trailer once, last.
pub proof fn lemma_write_archive_concat(a: Seq<EntryView>, b: Seq<EntryView>)
    ensures
        encode_archive(a).len() >= 124,
        encode_archive(a + b) == encode_archive(a).subrange(0, encode_archive(a).len() - 124)
            + encode_archive(b),
{
    lemma_trailer_len();
    lemma_encode_entries_concat(a, b);
    let t = encode_entry(trailer_entry());
    let ea = encode_entries(a);
    assert((ea + t).subrange(0, ea.len() as int) =~= ea);
    assert(encode_archive(a + b) =~= ea + (encode_entries(b) + t));
}

/// The eight-character header field that starts at byte `start`, read as
/// hexadecimal.
pub open spec fn hex_at(data: Seq<u8>, start: int) -> Option<u32> {
    spec_parse_hex_field(data.subrange(start, start + 8))
}

/// `e` is what the newc header at `p` says, each field read from its fixed
/// offset in the header: magic at 0, then ino 6, mode 14, uid 22, gid 30,
/// nlink 38, mtime 46, filesize 54, devmajor 62, devminor 70, rdevmajor
/// 78, rdevminor 86, namesize 94, check 102; the name from 110 (its size
/// counting a terminating byte), and `filesize` bytes of data from the next
/// multiple of four.
#[verifier::opaque]
pub open spec fn entry_read_at(data: Seq<u8>, p: int, e: EntryView) -> bool {
    let filesize = hex_at(data, p + 54).unwrap() as int;
    let namesize = hex_at(data, p + 94).unwrap() as int;
    let data_start = align4((p + 110 + namesize) as nat) as int;
    &&& 0 <= p
    &&& p + 110 <= data.len()
    &&& data.subrange(p, p + 6) == seq![48u8, 55, 48, 55, 48, 49]
    &&& hex_at(data, p + 6) == Some(e.ino)
    &&& hex_at(data, p + 14) == Some(e.mode)
    &&& hex_at(data, p + 22) == Some(e.uid)
    &&& hex_at(data, p + 30) == Some(e.gid)
    &&& hex_at(data, p + 38) == Some(e.nlink)
    &&& hex_at(data, p + 46) == Some(e.mtime)
    &&& hex_at(data, p + 54) is Some
    &&& hex_at(data, p + 62) == Some(e.devmajor)
    &&& hex_at(data, p + 70) == Some(e.devminor)
    &&& hex_at(data, p + 78) == Some(e.rdevmajor)
    &&& hex_at(data, p + 86) == Some(e.rdevminor)
    &&& hex_at(data, p + 94) is Some
    &&& hex_at(data, p + 102) is Some
    &&& 1 <= namesize
    &&& encode_utf8(e.name) == data.subrange(p + 110, p + 109 + namesize)
    &&& encode_utf8(e.name) != seq![84u8, 82, 65, 73, 76, 69, 82, 33, 33, 33]
    &&& data_start % 4 == 0
    &&& p + 110 + namesize <= data_start < p + 114 + namesize
    &&& e.data == data.subrange(data_start, data_start + filesize)
}

/// The header at `p` is the trailer, named `TRAILER!!!`, and the archive
/// ends at `end`: after its name and data, padded to a multiple of four.
pub open spec fn trailer_read_at(data: Seq<u8>, p: int, end: int) -> bool {
    let filesize = hex_at(data, p + 54).unwrap() as int;
    let namesize = hex_at(data, p + 94).unwrap() as int;
    let data_start = align4((p + 110 + namesize) as nat) as int;
    &&& 0 <= p
    &&& p + 110 <= data.len()
    &&& data.subrange(p, p + 6) == seq![48u8, 55, 48, 55, 48, 49]
    &&& hex_at(data, p + 54) is Some
    &&& hex_at(data, p + 94) == Some(11u32)
    &&& data.subrange(p + 110, p + 120) == seq![84u8, 82, 65, 73, 76, 69, 82, 33, 33, 33]
    &&& data_start % 4 == 0
    &&& p + 110 + namesize <= data_start < p + 114 + namesize
    &&& end % 4 == 0
    &&& data_start + filesize <= end < data_start + filesize + 4
    &&& end <= data.len()
}

/// A parser step stops at a header exactly when it is the trailer, and the
/// end it reports is the trailer's padded end, within the data.
pub proof fn lemma_parse_step_trailer(data: Seq<u8>, pos: nat)
    ensures
        parse_step(data, pos) matches ParseStep::Trailer { next } ==> trailer_read_at(
            data,
            pos as int,
            next as int,
        ),
{
    reveal(parse_step);
    lemma_parse_step_advances(data, pos);
    if let ParseStep::Trailer { next } = parse_step(data, pos) {
        let p = pos as int;
        assert(header_fields_valid(data, pos));
        assert(header_field(data, pos, 6) == hex_at(data, p + 54));
        assert(header_field(data, pos, 11) == hex_at(data, p + 94));
        assert(header_field(data, pos, 6) is Some);
        assert(header_field(data, pos, 11) is Some);
        assert(data.subrange(p, p + 6) =~= seq![48u8, 55, 48, 55, 48, 49]);
        assert(data.subrange(p + 110, p + 120) =~= seq![84u8, 82, 65, 73, 76, 69, 82, 33, 33,
            33]);
    }
}

/// Every entry that a parser step reads is what its header says, each field
/// from its fixed offset.
pub proof fn lemma_parse_step_reads_header(data: Seq<u8>, pos: nat)
    ensures
        parse_step(data, pos) matches ParseStep::Entry { entry, .. } ==> entry_read_at(
            data,
            pos as int,
            entry,
        ),
{
    reveal(parse_step);
    reveal(entry_read_at);
    if let ParseStep::Entry { entry, .. } = parse_step(data, pos) {
        let p = pos as int;
        assert(data.subrange(p, p + 6) =~= seq![48u8, 55, 48, 55, 48, 49]);
        assert(header_fields_valid(data, pos));
        assert(header_field(data, pos, 0) == hex_at(data, p + 6));
        assert(header_field(data, pos, 1) == hex_at(data, p + 14));
        assert(header_field(data, pos, 2) == hex_at(data, p + 22));
        assert(header_field(data, pos, 3) == hex_at(data, p + 30));
        assert(header_field(data, pos, 4) == hex_at(data, p + 38));
        assert(header_field(data, pos, 5) == hex_at(data, p + 46));
        assert(header_field(data, pos, 6) == hex_at(data, p + 54));
        assert(header_field(data, pos, 7) == hex_at(data, p + 62));
        assert(header_field(data, pos, 8) == hex_at(data, p + 70));
        assert(header_field(data, pos, 9) == hex_at(data, p + 78));
        assert(header_field(data, pos, 10) == hex_at(data, p + 86));
        assert(header_field(data, pos, 11) == hex_at(data, p + 94));
        assert(header_field(data, pos, 12) == hex_at(data, p + 102));
        assert(header_field(data, pos, 0) is Some);
        assert(header_field(data, pos, 1) is Some);
        assert(header_field(data, pos, 2) is Some);
        assert(header_field(data, pos, 3) is Some);
        assert(header_field(data, pos, 4) is Some);
        assert(header_field(data, pos, 5) is Some);
        assert(header_field(data, pos, 6) is Some);
        assert(header_field(data, pos, 7) is Some);
        assert(header_field(data, pos, 8) is Some);
        assert(header_field(data, pos, 9) is Some);
        assert(header_field(data, pos, 10) is Some);
        assert(header_field(data, pos, 11) is Some);
        assert(header_field(data, pos, 12) is Some);
        let namesize = field(data, pos, 11) as int;
        let name = data.subrange(p + 110, p + 109 + namesize);
        decode_utf8_encode_utf8(name);
        assert(trailer_name_bytes() =~= seq![84u8, 82, 65, 73, 76, 69, 82, 33, 33, 33]);
    }
}

/// Some header at or after `pos` says `e`.
pub open spec fn read_from_header(data: Seq<u8>, pos: nat, e: EntryView) -> bool {
    exists|p: int| pos <= p && #[trigger] entry_read_at(data, p, e)
}

/// Every entry that the parser returns is what some header in the data
/// says, each field read from its fixed offset.
pub proof fn lemma_parsed_entries_read_headers(data: Seq<u8>, pos: nat)
    ensures
        parse_from(data, pos) matches ParseWalk::Done { entries, .. } ==> forall|i: int|
            0 <= i < entries.len() ==> #[trigger] read_from_header(data, pos, entries[i]),
    decreases data.len() + 4 - pos,
{
    if let ParseWalk::Done { entries, .. } = parse_from(data, pos) {
        lemma_parse_step_advances(data, pos);
        lemma_parse_step_reads_header(data, pos);
        if let ParseStep::Entry { entry, next } = parse_step(data, pos) {
            lemma_parsed_entries_read_headers(data, next);
            assert(parse_from(data, pos) == prepend_entries(seq![entry], parse_from(data, next)));
            assert(parse_from(data, next) is Done);
            let rest = parse_from(data, next)->Done_entries;
            assert(entries == seq![entry] + rest);
            assert forall|i: int| 0 <= i < entries.len() implies #[trigger] read_from_header(
                data,
                pos,
                entries[i],
            ) by {
                if i == 0 {
                    assert(entry_read_at(data, pos as int, entries[0]));
                } else {
                    assert(entries[i] == rest[i - 1]);
                    assert(read_from_header(data, next, rest[i - 1]));
                    let q = choose|q: int| next <= q && #[trigger] entry_read_at(data, q, rest[i - 1]);
                    assert(entry_read_at(data, q, entries[i]));
                }
            }
        } else {
            assert(entries.len() == 0);
        }
    }
}

/// The record of `e` as the writer lays it out, byte by byte: the magic
/// `070701`; each field as eight upper-case hex digits at its fixed offset
/// (ino 6, mode 14, uid 22, gid 30, nlink 38, mtime 46, file size 54,
/// devmajor 62, devminor 70, rdevmajor 78, rdevminor 86, name size 94,
/// check 102 written as zero); the name's UTF-8 bytes at 110 and a NUL;
/// zeros to a multiple of four; the data; zeros to a multiple of four.
pub open spec fn record_holds(r: Seq<u8>, e: EntryView) -> bool {
    let name = encode_utf8(e.name);
    let nl = name.len() as int;
    let ns = nl + 1;
    let ds = align4((110 + ns) as nat) as int;
    let f = e.data.len() as int;
    &&& r.len() == align4((ds + f) as nat)
    &&& ds % 4 == 0
    &&& 110 + ns <= ds < 114 + ns
    &&& r.len() % 4 == 0
    &&& ds + f <= r.len() < ds + f + 4
    &&& r.subrange(0, 6) == seq![48u8, 55, 48, 55, 48, 49]
    &&& r.subrange(6, 14) == format_hex08(e.ino as nat)
    &&& r.subrange(14, 22) == format_hex08(e.mode as nat)
    &&& r.subrange(22, 30) == format_hex08(e.uid as nat)
    &&& r.subrange(30, 38) == format_hex08(e.gid as nat)
    &&& r.subrange(38, 46) == format_hex08(e.nlink as nat)
    &&& r.subrange(46, 54) == format_hex08(e.mtime as nat)
    &&& r.subrange(54, 62) == format_hex08(f as nat)
    &&& r.subrange(62, 70) == format_hex08(e.devmajor as nat)
    &&& r.subrange(70, 78) == format_hex08(e.devminor as nat)
    &&& r.subrange(78, 86) == format_hex08(e.rdevmajor as nat)
    &&& r.subrange(86, 94) == format_hex08(e.rdevminor as nat)
    &&& r.subrange(94, 102) == format_hex08(ns as nat)
    &&& r.subrange(102, 110) == format_hex08(0)
    &&& r.subrange(110, 110 + nl) == name
    &&& r[110 + nl] == 0
    &&& forall|j: int| 111 + nl <= j < ds ==> #[trigger] r[j] == 0
    &&& r.subrange(ds, ds + f) == e.data
    &&& forall|j: int| ds + f <= j < r.len() ==> #[trigger] r[j] == 0
}

proof fn lemma_encoded_field(e: EntryView, k: int)
    requires
        entry_fits_header(e),
        0 <= k < 13,
    ensures
        encode_entry(e).subrange(6 + 8 * k, 14 + 8 * k) == format_hex08(
            header_values(e, e.data.len(), encode_utf8(e.name).len() + 1)[k],
        ),
{
    lemma_encode_entry_layout(e);
}

/// The writer lays out every entry whose name and data sizes fit the
/// header fields as [`record_holds`] describes.
#[verifier::rlimit(40)]
pub proof fn lemma_entry_record(e: EntryView)
    requires
        entry_fits_header(e),
    ensures
        record_holds(encode_entry(e), e),
{
    let name = encode_utf8(e.name);
    let ns = name.len() + 1;
    let f = e.data.len();
    let hv = header_values(e, f, ns);
    let enc = encode_entry(e);
    lemma_encode_entry_layout(e);
    lemma_pad4_shift(0, 110 + ns);
    lemma_pad4_shift(0, f);
    lemma_encoded_field(e, 0);
    lemma_encoded_field(e, 1);
    lemma_encoded_field(e, 2);
    lemma_encoded_field(e, 3);
    lemma_encoded_field(e, 4);
    lemma_encoded_field(e, 5);
    lemma_encoded_field(e, 6);
    lemma_encoded_field(e, 7);
    lemma_encoded_field(e, 8);
    lemma_encoded_field(e, 9);
    lemma_encoded_field(e, 10);
    lemma_encoded_field(e, 11);
    lemma_encoded_field(e, 12);
    let fc = fields_concat(hv);
    lemma_fields_concat(hv);
    let z1 = zeros(pad4(110 + ns));
    let z2 = zeros(pad4(f));
    assert(enc == newc_magic() + fc + name + seq![0u8] + z1 + e.data + z2);
    let ds = 110 + ns + pad4(110 + ns);
    assert(newc_magic() =~= seq![48u8, 55, 48, 55, 48, 49]);
    assert(enc[110 + name.len() as int] == 0);
    assert forall|j: int| 111 + name.len() <= j < ds implies #[trigger] enc[j] == 0 by {
        assert(enc[j] == z1[j - 111 - name.len()]);
    }
    assert forall|j: int| ds + f <= j < enc.len() implies #[trigger] enc[j] == 0 by {
        assert(enc[j] == z2[j - ds - f]);
    }
}

/// In a written archive, the record of each entry (whose name and data
/// sizes fit the header fields) starts where the records of the entries
/// before it end, and holds what [`record_holds`] describes.
pub proof fn lemma_written_archive_records(es: Seq<EntryView>, i: int)
    requires
        0 <= i < es.len(),
        entry_fits_header(es[i]),
    ensures
        ({
            let w = encode_archive(es);
            let o = encode_entries(es.take(i)).len() as int;
            &&& o + encode_entry(es[i]).len() <= w.len()
            &&& record_holds(w.subrange(o, o + encode_entry(es[i]).len()), es[i])
        }),
{
    let a = es.take(i);
    let b = es.skip(i);
    assert(a + b =~= es);
    lemma_encode_entries_concat(a, b);
    lemma_encode_entries_first(b);
    assert(b[0] == es[i]);
    let w = encode_archive(es);
    let ea = encode_entries(a);
    let ee = encode_entry(es[i]);
    assert(w =~= ea + (ee + (encode_entries(b.drop_first()) + encode_entry(trailer_entry()))));
    assert(w.subrange(ea.len() as int, ea.len() + ee.len() as int) =~= ee);
    lemma_entry_record(es[i]);
}

/// Every written archive ends with the 124-byte record of the trailer: an
/// entry named `TRAILER!!!` with link count 1, no data, and every other
/// field zero.
pub proof fn lemma_written_archive_trailer(es: Seq<EntryView>)
    ensures
        encode_archive(es).len() >= 124,
        record_holds(
            encode_archive(es).subrange(
                encode_archive(es).len() - 124,
                encode_archive(es).len() as int,
            ),
            EntryView {
                ino: 0,
                mode: 0,
                uid: 0,
                gid: 0,
                nlink: 1,
                mtime: 0,
                devmajor: 0,
                devminor: 0,
                rdevmajor: 0,
                rdevminor: 0,
                name: seq!['T', 'R', 'A', 'I', 'L', 'E', 'R', '!', '!', '!'],
                data: seq![],
            },
        ),
{
    lemma_trailer_len();
    lemma_trailer_name_bytes();
    assert(entry_fits_header(trailer_entry()));
    lemma_entry_record(trailer_entry());
    let w = encode_archive(es);
    let ea = encode_entries(es);
    assert(w.subrange(ea.len() as int, w.len() as int) =~= encode_entry(trailer_entry()));
}

} // verus!
