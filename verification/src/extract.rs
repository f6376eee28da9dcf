//! What extracting an archive does with each entry, given the
//! privileges of the process. The file-system work is left to the caller.

use vstd::prelude::*;
use vstd::utf8::encode_utf8_decode_utf8;
use vstd::utf8::valid_utf8;
use vstd::utf8::decode_utf8;

use crate::cpio::file_type_bits;
use crate::cpio::file_type_letter;
use crate::cpio::str_from_utf8;
use crate::cpio::CpioArchive;
use crate::cpio::CpioEntry;

verus! {

/// Whether a process with this effective uid and effective capability
/// set may change file ownership: uid 0 or `CAP_CHOWN` (bit 0).
pub open spec fn spec_can_chown(status: Option<(u32, u64)>) -> bool {
    match status {
        Some((euid, caps)) => euid == 0 || caps & 1 != 0,
        None => false,
    }
}

/// Whether a process with this effective uid and effective capability
/// set may create device nodes: uid 0 or `CAP_MKNOD` (bit 27).
pub open spec fn spec_can_mknod(status: Option<(u32, u64)>) -> bool {
    match status {
        Some((euid, caps)) => euid == 0 || caps & 0x800_0000 != 0,
        None => false,
    }
}

/// Can the process change file ownership? `status` is the effective uid
/// and effective capabilities, when they are known.
pub fn can_chown(status: Option<(u32, u64)>) -> (r: bool)
    ensures
        r == spec_can_chown(status),
{
    match status {
        Some((euid, caps)) => euid == 0 || (caps & 1) != 0,
        None => false,
    }
}

/// Can the process create device nodes? `status` is the effective uid
/// and effective capabilities, when they are known.
pub fn can_mknod(status: Option<(u32, u64)>) -> (r: bool)
    ensures
        r == spec_can_mknod(status),
{
    match status {
        Some((euid, caps)) => euid == 0 || (caps & 0x800_0000) != 0,
        None => false,
    }
}

pub open spec fn is_device_mode(mode: u32) -> bool {
    file_type_bits(mode) == 0o060000 || file_type_bits(mode) == 0o020000
}

/// Does the archive hold a block or character device?
pub fn has_device_entries(archive: &CpioArchive) -> (r: bool)
    ensures
        r == exists|i: int| 0 <= i < archive@.len() && is_device_mode(#[trigger] archive@[i].mode),
{
    let n = archive.entries.len();
    let mut i: usize = 0;
    while i < n
        invariant
            i <= n,
            n == archive@.len(),
            forall|j: int| 0 <= j < i ==> !is_device_mode(#[trigger] archive@[j].mode),
        decreases n - i,
    {
        let e = &archive.entries[i];
        assert(archive@[i as int] == e@);
        if e.is_block_device() || e.is_char_device() {
            assert(is_device_mode(archive@[i as int].mode));
            return true;
        }
        i = i + 1;
    }
    false
}

/// The capabilities that extraction will lack.
#[derive(Debug, Clone, Copy, PartialEq, Eq)]
pub struct MissingCapabilities {
    /// Ownership will not be preserved.
    pub chown: bool,
    /// Device nodes in the archive will be skipped.
    pub mknod: bool,
}

/// Which capabilities to warn about: `chown` whenever ownership cannot be
/// changed, `mknod` only when device nodes cannot be created and the
/// archive holds some.
pub fn missing_capabilities(chown_ok: bool, mknod_ok: bool, has_devices: bool) -> (r:
    MissingCapabilities)
    ensures
        r.chown == !chown_ok,
        r.mknod == (!mknod_ok && has_devices),
{
    MissingCapabilities { chown: !chown_ok, mknod: !mknod_ok && has_devices }
}

/// `libc::makedev` on Linux: the major number's low 12 bits at bit 8 and
/// its high 20 bits at bit 44, the minor number's low 8 bits at bit 0 and
/// its high 24 bits at bit 20.
pub open spec fn linux_makedev(major: u32, minor: u32) -> u64 {
    (((major as u64) & 0xfff) << 8u64) | (((major as u64) & 0xfffff000) << 32u64) | ((minor as u64)
        & 0xff) | (((minor as u64) & 0xffffff00) << 12u64)
}

/// The Linux device number of a major and minor number, laid out as
/// `libc::makedev` lays it out on Linux.
fn device_number(major: u32, minor: u32) -> (r: u64)
    ensures
        r == linux_makedev(major, minor),
{
    (((major as u64) & 0xfff) << 8u64) | (((major as u64) & 0xfffff000) << 32u64) | ((minor as u64)
        & 0xff) | (((minor as u64) & 0xffffff00) << 12u64)
}

/// What to do with one entry.
#[derive(Debug, Clone, PartialEq, Eq)]
pub enum ExtractAction {
    /// Create the directory, set its permissions and, when `chown`, its
    /// ownership.
    Dir { permissions: u32, chown: bool },
    /// Create a symbolic link to `target` (replacing what is there) and,
    /// when `chown`, set its ownership.
    Symlink { target: String, chown: bool },
    /// Write the file's data, set its permissions and, when `chown`, its
    /// ownership.
    File { permissions: u32, chown: bool },
    /// Create a device node with this full mode and device number and,
    /// when `chown`, set its ownership.
    Device { mode: u32, dev: u64, chown: bool },
    /// Skip a device node that the process may not create.
    SkipDevice { type_char: char },
    /// Skip an entry of a type that is not extracted (FIFO, socket, ...).
    SkipUnsupported { type_char: char },
    /// Skip an entry whose name would lead out of the destination
    /// directory: an absolute name, or one with a `..` component.
    SkipOutsideDestination,
}

/// A `..` component of the path `s` starts at `i`.
pub open spec fn dotdot_at(s: Seq<char>, i: int) -> bool {
    &&& 0 <= i
    &&& i + 2 <= s.len()
    &&& s[i] == '.'
    &&& s[i + 1] == '.'
    &&& (i == 0 || s[i - 1] == '/')
    &&& (i + 2 == s.len() || s[i + 2] == '/')
}

/// A name that, joined to the destination directory, names a path inside
/// it: not absolute, and with no `..` component.
pub open spec fn name_stays_inside(s: Seq<char>) -> bool {
    &&& !(s.len() > 0 && s[0] == '/')
    &&& forall|i: int| !#[trigger] dotdot_at(s, i)
}

/// Does the entry name stay inside the destination directory? See
/// [`name_stays_inside`].
pub fn name_stays_inside_exec(name: &str) -> (r: bool)
    ensures
        r == name_stays_inside(name@),
{
    let n = name.unicode_len();
    let mut t: Vec<char> = Vec::new();
    let mut k: usize = 0;
    while k < n
        invariant
            k <= n,
            n == name@.len(),
            t@ == name@.subrange(0, k as int),
        decreases n - k,
    {
        t.push(name.get_char(k));
        k = k + 1;
        assert(t@ =~= name@.subrange(0, k as int));
    }
    assert(t@ =~= name@);
    if n > 0 && t[0] == '/' {
        return false;
    }
    let mut i: usize = 0;
    while i < n
        invariant
            i <= n,
            n == t@.len(),
            t@ == name@,
            forall|j: int| 0 <= j < i ==> !#[trigger] dotdot_at(t@, j),
        decreases n - i,
    {
        if n - i >= 2 && t[i] == '.' && t[i + 1] == '.' && (i == 0 || t[i - 1] == '/') && (i + 2
            == n || t[i + 2] == '/') {
            assert(dotdot_at(t@, i as int));
            return false;
        }
        i = i + 1;
    }
    assert forall|j: int| !#[trigger] dotdot_at(t@, j) by {
        if 0 <= j < n {
        }
    }
    true
}

/// A symbolic link's target is not UTF-8.
#[derive(Debug, Clone, Copy, PartialEq, Eq)]
pub struct SymlinkTargetNotUtf8;

/// Decides what extracting `entry` does. An entry whose name would lead out
/// of the destination directory is skipped. Otherwise directories, symbolic
/// links and regular files are created; device nodes are created when
/// `mknod_ok` and skipped otherwise; other types are skipped. Ownership is
/// set when `chown_ok`.
pub fn extract_action(entry: &CpioEntry, chown_ok: bool, mknod_ok: bool) -> (r: Result<
    ExtractAction,
    SymlinkTargetNotUtf8,
>)
    ensures
        ({
            let t = file_type_bits(entry.mode);
            if !name_stays_inside(entry.name@) {
                r == Ok::<ExtractAction, SymlinkTargetNotUtf8>(
                    ExtractAction::SkipOutsideDestination,
                )
            } else if t == 0o040000 {
                r == Ok::<ExtractAction, SymlinkTargetNotUtf8>(
                    ExtractAction::Dir { permissions: entry.mode & 0o7777, chown: chown_ok },
                )
            } else if t == 0o120000 {
                if valid_utf8(entry.data@) {
                    r matches Ok(ExtractAction::Symlink { target, chown }) && target@
                        == decode_utf8(entry.data@) && chown == chown_ok
                } else {
                    r == Err::<ExtractAction, SymlinkTargetNotUtf8>(SymlinkTargetNotUtf8)
                }
            } else if t == 0o100000 {
                r == Ok::<ExtractAction, SymlinkTargetNotUtf8>(
                    ExtractAction::File { permissions: entry.mode & 0o7777, chown: chown_ok },
                )
            } else if is_device_mode(entry.mode) {
                if mknod_ok {
                    r == Ok::<ExtractAction, SymlinkTargetNotUtf8>(
                        ExtractAction::Device {
                            mode: entry.mode,
                            dev: linux_makedev(entry.rdevmajor, entry.rdevminor),
                            chown: chown_ok,
                        },
                    )
                } else {
                    r == Ok::<ExtractAction, SymlinkTargetNotUtf8>(
                        ExtractAction::SkipDevice { type_char: file_type_letter(entry.mode) },
                    )
                }
            } else {
                r == Ok::<ExtractAction, SymlinkTargetNotUtf8>(
                    ExtractAction::SkipUnsupported { type_char: file_type_letter(entry.mode) },
                )
            }
        }),
{
    if !name_stays_inside_exec(entry.name.as_str()) {
        Ok(ExtractAction::SkipOutsideDestination)
    } else if entry.is_dir() {
        Ok(ExtractAction::Dir { permissions: entry.permissions(), chown: chown_ok })
    } else if entry.is_symlink() {
        match str_from_utf8(entry.data.as_slice()) {
            None => Err(SymlinkTargetNotUtf8),
            Some(s) => {
                proof {
                    encode_utf8_decode_utf8(s@);
                }
                Ok(ExtractAction::Symlink { target: s.to_owned(), chown: chown_ok })
            },
        }
    } else if entry.is_file() {
        Ok(ExtractAction::File { permissions: entry.permissions(), chown: chown_ok })
    } else if entry.is_block_device() || entry.is_char_device() {
        if mknod_ok {
            Ok(
                ExtractAction::Device {
                    mode: entry.mode,
                    dev: device_number(entry.rdevmajor, entry.rdevminor),
                    chown: chown_ok,
                },
            )
        } else {
            Ok(ExtractAction::SkipDevice { type_char: entry.file_type_char() })
        }
    } else {
        Ok(ExtractAction::SkipUnsupported { type_char: entry.file_type_char() })
    }
}

/// Unicode `White_Space`, which `char::is_whitespace` tests.
pub open spec fn is_white_space(c: char) -> bool {
    let u = c as u32;
    (0x9 <= u <= 0xd) || u == 0x20 || u == 0x85 || u == 0xa0 || u == 0x1680 || (0x2000 <= u
        <= 0x200a) || u == 0x2028 || u == 0x2029 || u == 0x202f || u == 0x205f || u == 0x3000
}

fn white_space(c: char) -> (r: bool)
    ensures
        r == is_white_space(c),
{
    let u = c as u32;
    (0x9 <= u && u <= 0xd) || u == 0x20 || u == 0x85 || u == 0xa0 || u == 0x1680 || (0x2000 <= u
        && u <= 0x200a) || u == 0x2028 || u == 0x2029 || u == 0x202f || u == 0x205f || u == 0x3000
}

/// The end of the line that starts at `i`: the next `\n`, or the end.
pub open spec fn line_end(t: Seq<char>, i: nat) -> nat
    decreases t.len() - i,
{
    if i >= t.len() || t[i as int] == '\n' {
        i
    } else {
        line_end(t, i + 1)
    }
}

/// The first offset in `[i, e)` that is not white space, or `e`.
pub open spec fn skip_ws(t: Seq<char>, i: nat, e: nat) -> nat
    decreases e - i,
{
    if i >= e || !is_white_space(t[i as int]) {
        i
    } else {
        skip_ws(t, i + 1, e)
    }
}

/// The first offset in `[i, e)` that is white space, or `e`.
pub open spec fn skip_word(t: Seq<char>, i: nat, e: nat) -> nat
    decreases e - i,
{
    if i >= e || is_white_space(t[i as int]) {
        i
    } else {
        skip_word(t, i + 1, e)
    }
}

/// One past the last offset in `[s, e)` that is not white space, or `s`.
pub open spec fn trim_end(t: Seq<char>, s: nat, e: nat) -> nat
    decreases e - s,
{
    if e <= s || !is_white_space(t[e - 1]) {
        e
    } else {
        trim_end(t, s, (e - 1) as nat)
    }
}

pub open spec fn dec_digit(c: char) -> Option<nat> {
    let u = c as u32;
    if 48 <= u <= 57 {
        Some((u - 48) as nat)
    } else {
        None
    }
}

pub open spec fn hex_digit_char(c: char) -> Option<nat> {
    let u = c as u32;
    if 48 <= u <= 57 {
        Some((u - 48) as nat)
    } else if 65 <= u <= 70 {
        Some((u - 55) as nat)
    } else if 97 <= u <= 102 {
        Some((u - 87) as nat)
    } else {
        None
    }
}

/// The value of digits in base `radix` (10 or 16); `None` if any is no
/// digit of that base.
pub open spec fn digits_value(s: Seq<char>, radix: nat) -> Option<nat>
    decreases s.len(),
{
    if s.len() == 0 {
        Some(0)
    } else {
        let d = if radix == 10 {
            dec_digit(s.last())
        } else {
            hex_digit_char(s.last())
        };
        match (digits_value(s.drop_last(), radix), d) {
            (Some(v), Some(x)) => Some(v * radix + x),
            _ => None,
        }
    }
}

/// What `from_str_radix` returns for an unsigned type whose largest value
/// is `max`: an optional `+`, then one or more digits, whose value fits.
pub open spec fn parse_unsigned(s: Seq<char>, radix: nat, max: nat) -> Option<nat> {
    let digits = if s.len() > 0 && s[0] == '+' {
        s.skip(1)
    } else {
        s
    };
    if digits.len() == 0 {
        None
    } else {
        match digits_value(digits, radix) {
            Some(v) => if v <= max {
                Some(v)
            } else {
                None
            },
            None => None,
        }
    }
}

/// The effective uid in the rest of a `Uid:` line: its second
/// white-space-separated word, read as a decimal `u32`.
pub open spec fn uid_field(t: Seq<char>, i: nat, e: nat) -> Option<u32> {
    let s0 = skip_ws(t, i, e);
    let e0 = skip_word(t, s0, e);
    let s1 = skip_ws(t, e0, e);
    let e1 = skip_word(t, s1, e);
    if s1 >= e {
        None
    } else {
        match parse_unsigned(t.subrange(s1 as int, e1 as int), 10, u32::MAX as nat) {
            Some(v) => Some(v as u32),
            None => None,
        }
    }
}

/// The capability mask in the rest of a `CapEff:` line: the rest without
/// surrounding white space, read as a hexadecimal `u64`.
pub open spec fn cap_field(t: Seq<char>, i: nat, e: nat) -> Option<u64> {
    let s = skip_ws(t, i, e);
    let f = trim_end(t, s, e);
    match parse_unsigned(t.subrange(s as int, f as int), 16, u64::MAX as nat) {
        Some(v) => Some(v as u64),
        None => None,
    }
}

pub open spec fn uid_prefix() -> Seq<char> {
    seq!['U', 'i', 'd', ':']
}

pub open spec fn cap_eff_prefix() -> Seq<char> {
    seq!['C', 'a', 'p', 'E', 'f', 'f', ':']
}

pub open spec fn line_has_prefix(t: Seq<char>, i: nat, e: nat, p: Seq<char>) -> bool {
    i + p.len() <= e && t.subrange(i as int, i + p.len() as int) == p
}

/// From the lines starting at `i`: the value of the last `Uid:` line and
/// of the last `CapEff:` line, each `None` when there is no such line and
/// `Some(None)` when the last one does not parse.
pub open spec fn status_fields(t: Seq<char>, i: nat) -> (Option<Option<u32>>, Option<Option<u64>>)
    decreases t.len() + 1 - i,
{
    if i >= t.len() {
        (None, None)
    } else {
        let e = line_end(t, i);
        proof {
            lemma_line_end(t, i);
        }
        let rest = status_fields(t, e + 1);
        let uid = if rest.0 is Some {
            rest.0
        } else if line_has_prefix(t, i, e, uid_prefix()) {
            Some(uid_field(t, i + 4, e))
        } else {
            None
        };
        let cap = if rest.1 is Some {
            rest.1
        } else if line_has_prefix(t, i, e, cap_eff_prefix()) {
            Some(cap_field(t, i + 7, e))
        } else {
            None
        };
        (uid, cap)
    }
}

/// The effective uid and capability mask in the text of
/// `/proc/self/status`: `None` unless the last `Uid:` line has a second
/// number; the mask of the last `CapEff:` line, or 0.
pub open spec fn spec_parse_proc_status(t: Seq<char>) -> Option<(u32, u64)> {
    let (uid, cap) = status_fields(t, 0);
    match uid {
        Some(Some(u)) => Some(
            (
                u,
                match cap {
                    Some(Some(c)) => c,
                    _ => 0,
                },
            ),
        ),
        _ => None,
    }
}

pub proof fn lemma_line_end(t: Seq<char>, i: nat)
    ensures
        i <= t.len() ==> i <= line_end(t, i) <= t.len(),
        line_end(t, i) < t.len() ==> t[line_end(t, i) as int] == '\n',
    decreases t.len() - i,
{
    if !(i >= t.len() || t[i as int] == '\n') {
        lemma_line_end(t, i + 1);
    }
}

fn line_end_exec(t: &Vec<char>, i: usize) -> (r: usize)
    requires
        i <= t@.len(),
    ensures
        r == line_end(t@, i as nat),
        i <= r <= t@.len(),
{
    let mut j = i;
    while j < t.len() && t[j] != '\n'
        invariant
            i <= j <= t@.len(),
            line_end(t@, j as nat) == line_end(t@, i as nat),
        decreases t@.len() - j,
    {
        j = j + 1;
    }
    j
}

fn skip_ws_exec(t: &Vec<char>, i: usize, e: usize) -> (r: usize)
    requires
        i <= e <= t@.len(),
    ensures
        r == skip_ws(t@, i as nat, e as nat),
        i <= r <= e,
{
    let mut j = i;
    while j < e && white_space(t[j])
        invariant
            i <= j <= e,
            e <= t@.len(),
            skip_ws(t@, j as nat, e as nat) == skip_ws(t@, i as nat, e as nat),
        decreases e - j,
    {
        j = j + 1;
    }
    j
}

fn skip_word_exec(t: &Vec<char>, i: usize, e: usize) -> (r: usize)
    requires
        i <= e <= t@.len(),
    ensures
        r == skip_word(t@, i as nat, e as nat),
        i <= r <= e,
{
    let mut j = i;
    while j < e && !white_space(t[j])
        invariant
            i <= j <= e,
            e <= t@.len(),
            skip_word(t@, j as nat, e as nat) == skip_word(t@, i as nat, e as nat),
        decreases e - j,
    {
        j = j + 1;
    }
    j
}

fn trim_end_exec(t: &Vec<char>, s: usize, e: usize) -> (r: usize)
    requires
        s <= e <= t@.len(),
    ensures
        r == trim_end(t@, s as nat, e as nat),
        s <= r <= e,
{
    let mut j = e;
    while j > s && white_space(t[j - 1])
        invariant
            s <= j <= e,
            e <= t@.len(),
            trim_end(t@, s as nat, j as nat) == trim_end(t@, s as nat, e as nat),
        decreases j - s,
    {
        j = j - 1;
    }
    j
}

proof fn lemma_digits_value_prefix(s: Seq<char>, radix: nat, k: int)
    requires
        0 <= k <= s.len(),
        radix >= 1,
        digits_value(s, radix) is Some,
    ensures
        digits_value(s.subrange(0, k), radix) is Some,
        digits_value(s.subrange(0, k), radix).unwrap() <= digits_value(s, radix).unwrap(),
    decreases s.len(),
{
    if k == s.len() {
        assert(s.subrange(0, k) =~= s);
    } else {
        let t = s.drop_last();
        lemma_digits_value_prefix(t, radix, k);
        assert(t.subrange(0, k) =~= s.subrange(0, k));
        let v = digits_value(t, radix).unwrap();
        assert(v <= v * radix) by (nonlinear_arith)
            requires
                radix >= 1,
        ;
    }
}

/// Reads the chars `[s, e)` as `from_str_radix` reads an unsigned number
/// whose largest value is `max`.
fn parse_unsigned_exec(t: &Vec<char>, s: usize, e: usize, radix: u64, max: u64) -> (r: Option<u64>)
    requires
        s <= e <= t@.len(),
        radix == 10 || radix == 16,
    ensures
        match r {
            Some(v) => parse_unsigned(t@.subrange(s as int, e as int), radix as nat, max as nat)
                == Some(v as nat),
            None => parse_unsigned(t@.subrange(s as int, e as int), radix as nat, max as nat)
                is None,
        },
{
    let ghost whole = t@.subrange(s as int, e as int);
    let start = if s < e && t[s] == '+' {
        s + 1
    } else {
        s
    };
    let ghost digits = t@.subrange(start as int, e as int);
    assert(digits == (if whole.len() > 0 && whole[0] == '+' {
        whole.skip(1)
    } else {
        whole
    }));
    if start == e {
        return None;
    }
    let mut v: u128 = 0;
    let mut j = start;
    while j < e
        invariant
            start <= j <= e,
            e <= t@.len(),
            radix == 10 || radix == 16,
            digits == t@.subrange(start as int, e as int),
            whole == t@.subrange(s as int, e as int),
            digits == (if whole.len() > 0 && whole[0] == '+' {
                whole.skip(1)
            } else {
                whole
            }),
            digits.len() > 0,
            digits_value(t@.subrange(start as int, j as int), radix as nat) == Some(v as nat),
            v <= max,
        decreases e - j,
    {
        let c = t[j];
        let u = c as u32;
        let d: Option<u32> = if radix == 10 {
            if 48 <= u && u <= 57 {
                Some(u - 48)
            } else {
                None
            }
        } else if 48 <= u && u <= 57 {
            Some(u - 48)
        } else if 65 <= u && u <= 70 {
            Some(u - 55)
        } else if 97 <= u && u <= 102 {
            Some(u - 87)
        } else {
            None
        };
        let ghost pre = t@.subrange(start as int, j as int);
        let ghost next = t@.subrange(start as int, j + 1);
        assert(next.drop_last() =~= pre);
        assert(next.last() == c);
        let ghost ds = if radix == 10 {
            dec_digit(c)
        } else {
            hex_digit_char(c)
        };
        assert(d is None ==> ds is None);
        assert(d matches Some(x) ==> ds == Some(x as nat));
        match d {
            None => {
                assert(digits_value(next, radix as nat) is None);
                proof {
                    if digits_value(digits, radix as nat) is Some {
                        lemma_digits_value_prefix(digits, radix as nat, j + 1 - start);
                        assert(digits.subrange(0, j + 1 - start) =~= next);
                    }
                }
                return None;
            },
            Some(x) => {
                assert(v * (radix as u128) + (x as u128) <= 0xffff_ffff_ffff_ffff * 16 + 15)
                    by (nonlinear_arith)
                    requires
                        v <= 0xffff_ffff_ffff_ffffu64,
                        radix <= 16,
                        x < 16,
                ;
                let nv = v * (radix as u128) + (x as u128);
                assert(digits_value(next, radix as nat) == Some(nv as nat));
                if nv > max as u128 {
                    proof {
                        if digits_value(digits, radix as nat) is Some {
                            lemma_digits_value_prefix(digits, radix as nat, j + 1 - start);
                            assert(digits.subrange(0, j + 1 - start) =~= next);
                        }
                    }
                    return None;
                }
                v = nv;
            },
        }
        j = j + 1;
    }
    assert(t@.subrange(start as int, e as int) =~= digits);
    Some(v as u64)
}

fn uid_field_exec(t: &Vec<char>, i: usize, e: usize) -> (r: Option<u32>)
    requires
        i <= e <= t@.len(),
    ensures
        r == uid_field(t@, i as nat, e as nat),
{
    let s0 = skip_ws_exec(t, i, e);
    let e0 = skip_word_exec(t, s0, e);
    let s1 = skip_ws_exec(t, e0, e);
    let e1 = skip_word_exec(t, s1, e);
    if s1 >= e {
        return None;
    }
    match parse_unsigned_exec(t, s1, e1, 10, u32::MAX as u64) {
        Some(v) => Some(v as u32),
        None => None,
    }
}

fn cap_field_exec(t: &Vec<char>, i: usize, e: usize) -> (r: Option<u64>)
    requires
        i <= e <= t@.len(),
    ensures
        r == cap_field(t@, i as nat, e as nat),
{
    let s = skip_ws_exec(t, i, e);
    let f = trim_end_exec(t, s, e);
    parse_unsigned_exec(t, s, f, 16, u64::MAX)
}

fn has_prefix_exec(t: &Vec<char>, i: usize, e: usize, p: &[char]) -> (r: bool)
    requires
        i <= e <= t@.len(),
    ensures
        r == line_has_prefix(t@, i as nat, e as nat, p@),
{
    if e - i < p.len() {
        return false;
    }
    let mut k: usize = 0;
    while k < p.len()
        invariant
            k <= p@.len(),
            i + p@.len() <= e <= t@.len(),
            forall|m: int| 0 <= m < k ==> t@[i + m] == p@[m],
        decreases p@.len() - k,
    {
        if t[i + k] != p[k] {
            assert(t@.subrange(i as int, i + p@.len())[k as int] != p@[k as int]);
            return false;
        }
        k = k + 1;
    }
    assert(t@.subrange(i as int, i + p@.len()) =~= p@);
    true
}

/// Reads the effective uid and capability mask from the text of
/// `/proc/self/status`; see [`spec_parse_proc_status`].
pub fn parse_proc_status(status: &str) -> (r: Option<(u32, u64)>)
    ensures
        r == spec_parse_proc_status(status@),
{
    let n = status.unicode_len();
    let mut t: Vec<char> = Vec::new();
    let mut k: usize = 0;
    while k < n
        invariant
            k <= n,
            n == status@.len(),
            t@ == status@.subrange(0, k as int),
        decreases n - k,
    {
        t.push(status.get_char(k));
        k = k + 1;
        assert(t@ =~= status@.subrange(0, k as int));
    }
    assert(t@ =~= status@);
    let uid_p: [char; 4] = ['U', 'i', 'd', ':'];
    let cap_p: [char; 7] = ['C', 'a', 'p', 'E', 'f', 'f', ':'];
    assert(uid_p@ =~= uid_prefix());
    assert(cap_p@ =~= cap_eff_prefix());
    let mut uid: Option<Option<u32>> = None;
    let mut cap: Option<Option<u64>> = None;
    let mut i: usize = 0;
    while i < t.len()
        invariant
            i <= t@.len() + 1,
            t@ == status@,
            uid_p@ == uid_prefix(),
            cap_p@ == cap_eff_prefix(),
            ({
                let rest = status_fields(t@, i as nat);
                let all = status_fields(t@, 0);
                &&& all.0 == (if rest.0 is Some {
                    rest.0
                } else {
                    uid
                })
                &&& all.1 == (if rest.1 is Some {
                    rest.1
                } else {
                    cap
                })
            }),
        decreases t@.len() + 1 - i,
    {
        let e = line_end_exec(&t, i);
        proof {
            lemma_line_end(t@, i as nat);
            assert(status_fields(t@, t@.len() + 1).0 is None);
            assert(status_fields(t@, t@.len() + 1).1 is None);
            assert(status_fields(t@, t@.len()).0 is None);
            assert(status_fields(t@, t@.len()).1 is None);
        }
        let ghost line_fields = status_fields(t@, i as nat);
        let ghost after = status_fields(t@, (e + 1) as nat);
        if has_prefix_exec(&t, i, e, uid_p.as_slice()) {
            uid = Some(uid_field_exec(&t, i + 4, e));
        }
        if has_prefix_exec(&t, i, e, cap_p.as_slice()) {
            cap = Some(cap_field_exec(&t, i + 7, e));
        }
        if e < t.len() {
            i = e + 1;
        } else {
            i = e;
        }
    }
    match uid {
        Some(Some(u)) => Some(
            (
                u,
                match cap {
                    Some(Some(c)) => c,
                    _ => 0,
                },
            ),
        ),
        _ => None,
    }
}

} // verus!
