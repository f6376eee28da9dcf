//! Putting an image back together from its segments, with one segment
//! replaced or a new one inserted.

use vstd::prelude::*;

use vstd::slice::slice_to_vec;
use vstd::utf8::encode_utf8;
use vstd::utf8::encode_utf8_decode_utf8;
use vstd::utf8::encode_utf8_valid_utf8;
use vstd::utf8::is_ascii_chars;
use vstd::utf8::is_ascii_chars_encode_utf8;

use crate::cpio::append_bytes;
use crate::cpio::str_from_utf8;
use crate::cpio::CpioArchive;
use crate::cpio::CpioEntry;
use crate::cpio::EntryView;
use crate::cpio::encode_archive;
use crate::cpio::entries_round_trip;
use crate::cpio::file_type_bits;
use crate::cpio::lemma_scan_written_prefix;
use crate::segment::detected_compression;
use crate::segment::segment_end;
use crate::segment::skip_zeros;
use crate::segment::split_from;
use crate::segment::lemma_segment_end_archive;
use crate::segment::lemma_split_at_end;
use crate::segment::lemma_split_step;
use crate::segment::Compression;
use crate::cpio::push_zeros;
use crate::cpio::zeros;
use crate::segment::RawSegment;
use crate::segment::SegmentError;
use crate::segment::SegmentView;

verus! {

/// Zero bytes that bring `n` up to a multiple of 512.
pub open spec fn pad512(n: nat) -> nat {
    ((512 - n % 512) % 512) as nat
}

/// `s` followed by zeros up to a multiple of 512 bytes.
pub open spec fn padded512(s: Seq<u8>) -> Seq<u8> {
    s + zeros(pad512(s.len()))
}

/// The pieces laid end to end, each but the last followed by zeros up to
/// the next multiple of 512 bytes from the start of the file.
pub open spec fn join_padded(ps: Seq<Seq<u8>>) -> Seq<u8>
    decreases ps.len(),
{
    if ps.len() == 0 {
        seq![]
    } else if ps.len() == 1 {
        ps[0]
    } else {
        padded512(join_padded(ps.drop_last())) + ps.last()
    }
}

pub open spec fn segments_view(segs: Seq<RawSegment>) -> Seq<SegmentView> {
    segs.map_values(|s: RawSegment| s@)
}

/// The segments' bytes, with the one at `index` (if there is one) replaced.
pub open spec fn replaced_pieces(segs: Seq<SegmentView>, index: nat, new: Seq<u8>) -> Seq<
    Seq<u8>,
> {
    Seq::new(segs.len(), |i: int| if i == index { new } else { segs[i].data })
}

/// The segments' bytes, with `new` inserted before the one at `index`.
pub open spec fn inserted_pieces(segs: Seq<SegmentView>, index: nat, new: Seq<u8>) -> Seq<
    Seq<u8>,
> {
    Seq::new(
        segs.len() + 1,
        |i: int|
            if i < index {
                segs[i].data
            } else if i == index {
                new
            } else {
                segs[i - 1].data
            },
    )
}

/// What the output holds after `i` of `n` pieces: their join, padded when
/// more pieces follow.
spec fn joined_so_far(ps: Seq<Seq<u8>>, i: nat) -> Seq<u8> {
    if i == 0 {
        seq![]
    } else if i < ps.len() {
        padded512(join_padded(ps.take(i as int)))
    } else {
        join_padded(ps.take(i as int))
    }
}

/// Appends piece `i` and, unless it is the last one, the padding after it.
fn append_piece(
    out: &mut Vec<u8>,
    piece: &[u8],
    Ghost(ps): Ghost<Seq<Seq<u8>>>,
    i: usize,
    n: usize,
)
    requires
        n == ps.len(),
        i < ps.len(),
        piece@ == ps[i as int],
        old(out)@ == joined_so_far(ps, i as nat),
    ensures
        final(out)@ == joined_so_far(ps, (i + 1) as nat),
{
    append_bytes(out, piece);
    assert(ps.take(i + 1).drop_last() =~= ps.take(i as int));
    if i == 0 {
        assert(out@ =~= join_padded(ps.take(1)));
    } else {
        assert(out@ == join_padded(ps.take(i + 1)));
    }
    if i + 1 < n {
        let r = out.len() % 512;
        if r != 0 {
            push_zeros(out, 512 - r);
        } else {
            assert(out@ =~= padded512(out@));
        }
    }
}

/// Reassembles an initramfs file with the segment at `index` replaced by
/// `new_segment_data`; with `index` past the last segment, nothing is
/// replaced. Segments are padded with zeros to 512-byte boundaries.
pub fn reassemble(segments: &[RawSegment], index: usize, new_segment_data: Vec<u8>) -> (out: Vec<
    u8,
>)
    ensures
        out@ == join_padded(
            replaced_pieces(segments_view(segments@), index as nat, new_segment_data@),
        ),
{
    let ghost ps = replaced_pieces(segments_view(segments@), index as nat, new_segment_data@);
    let mut out: Vec<u8> = Vec::new();
    let n = segments.len();
    let mut i: usize = 0;
    while i < n
        invariant
            i <= n,
            n == segments@.len(),
            ps == replaced_pieces(segments_view(segments@), index as nat, new_segment_data@),
            out@ == joined_so_far(ps, i as nat),
        decreases n - i,
    {
        if i == index {
            append_piece(&mut out, new_segment_data.as_slice(), Ghost(ps), i, n);
        } else {
            append_piece(&mut out, segments[i].data.as_slice(), Ghost(ps), i, n);
        }
        i = i + 1;
    }
    assert(ps.take(n as int) =~= ps);
    out
}

/// Inserts a new segment before the one at `index` (at the end when
/// `index` is the number of segments) and lays the image out as
/// [`reassemble`] does.
pub fn insert_segment(segments: &[RawSegment], index: usize, new_segment_data: Vec<u8>) -> (out:
    Vec<u8>)
    requires
        index <= segments@.len(),
        segments@.len() < usize::MAX,
    ensures
        out@ == join_padded(
            inserted_pieces(segments_view(segments@), index as nat, new_segment_data@),
        ),
{
    let ghost ps = inserted_pieces(segments_view(segments@), index as nat, new_segment_data@);
    let mut out: Vec<u8> = Vec::new();
    let n = segments.len();
    let total = n + 1;
    let mut i: usize = 0;
    while i <= n
        invariant
            i <= n + 1,
            n == segments@.len(),
            total == n + 1,
            n < usize::MAX,
            index <= n,
            ps == inserted_pieces(segments_view(segments@), index as nat, new_segment_data@),
            out@ == joined_so_far(ps, i as nat),
        decreases n + 1 - i,
    {
        if i < index {
            append_piece(&mut out, segments[i].data.as_slice(), Ghost(ps), i, total);
        } else if i == index {
            append_piece(&mut out, new_segment_data.as_slice(), Ghost(ps), i, total);
        } else {
            append_piece(&mut out, segments[i - 1].data.as_slice(), Ghost(ps), i, total);
        }
        i = i + 1;
    }
    assert(ps.take((n + 1) as int) =~= ps);
    out
}

/// The type of a directory-tree item, as the walk saw it (symbolic links
/// are not followed).
#[derive(Debug, Clone, Copy, PartialEq, Eq)]
pub enum ItemKind {
    Dir,
    Symlink,
    File,
    /// Anything else (device, FIFO, socket): not archived.
    Other,
}

/// One item of a directory tree, in the order of the walk.
#[derive(Debug, Clone)]
pub struct DirItem {
    /// Path relative to the tree's root; empty for the root itself.
    pub rel_path: String,
    pub kind: ItemKind,
    /// The item's `st_mode`.
    pub mode: u32,
    pub uid: u32,
    pub gid: u32,
    pub nlink: u64,
    pub mtime: i64,
    /// A symbolic link's target, or a regular file's contents.
    pub data: Vec<u8>,
}

pub struct DirItemView {
    pub rel_path: Seq<char>,
    pub kind: ItemKind,
    pub mode: u32,
    pub uid: u32,
    pub gid: u32,
    pub nlink: u64,
    pub mtime: i64,
    pub data: Seq<u8>,
}

impl View for DirItem {
    type V = DirItemView;

    open spec fn view(&self) -> DirItemView {
        DirItemView {
            rel_path: self.rel_path@,
            kind: self.kind,
            mode: self.mode,
            uid: self.uid,
            gid: self.gid,
            nlink: self.nlink,
            mtime: self.mtime,
            data: self.data@,
        }
    }
}

/// `root` joined with the relative path `rel`, as `Path::join` does: no
/// separator after an empty root or one that ends in `/`.
pub open spec fn join_path(root: Seq<char>, rel: Seq<char>) -> Seq<char> {
    if root.len() == 0 {
        rel
    } else if root.last() == '/' {
        root + rel
    } else {
        root + seq!['/'] + rel
    }
}

/// The archive name of an item: the tree's root is named `root`, or `.`
/// without one; every other item is its relative path under `root`.
pub open spec fn item_name(root: Option<Seq<char>>, rel: Seq<char>) -> Seq<char> {
    if rel.len() == 0 {
        match root {
            Some(r) => r,
            None => seq!['.'],
        }
    } else {
        match root {
            Some(r) => join_path(r, rel),
            None => rel,
        }
    }
}

pub open spec fn kind_type_bits(k: ItemKind) -> u32 {
    match k {
        ItemKind::Dir => 0o040000,
        ItemKind::Symlink => 0o120000,
        ItemKind::File => 0o100000,
        ItemKind::Other => 0,
    }
}

/// The entry for an archived item: its type and permission bits, owner,
/// link count and modification time cut to 32 bits, and, for links and
/// files, its data.
pub open spec fn item_entry(item: DirItemView, root: Option<Seq<char>>, ino: u32) -> EntryView {
    EntryView {
        ino,
        mode: kind_type_bits(item.kind) | (item.mode & 0o7777),
        uid: item.uid,
        gid: item.gid,
        nlink: item.nlink as u32,
        mtime: item.mtime as u32,
        devmajor: 0,
        devminor: 0,
        rdevmajor: 0,
        rdevminor: 0,
        name: item_name(root, item.rel_path),
        data: if item.kind == ItemKind::Dir {
            Seq::empty()
        } else {
            item.data
        },
    }
}

/// The entries for the items in order, skipping those of other types;
/// inode numbers count the entries from zero.
pub open spec fn built_entries(items: Seq<DirItemView>, root: Option<Seq<char>>) -> Seq<EntryView>
    decreases items.len(),
{
    if items.len() == 0 {
        seq![]
    } else {
        let prev = built_entries(items.drop_last(), root);
        if items.last().kind == ItemKind::Other {
            prev
        } else {
            prev.push(item_entry(items.last(), root, prev.len() as u32))
        }
    }
}

proof fn lemma_built_entries_len(items: Seq<DirItemView>, root: Option<Seq<char>>)
    ensures
        built_entries(items, root).len() <= items.len(),
    decreases items.len(),
{
    if items.len() > 0 {
        lemma_built_entries_len(items.drop_last(), root);
    }
}

/// UTF-8 encoding distributes over concatenation.
pub proof fn lemma_encode_utf8_concat(a: Seq<char>, b: Seq<char>)
    ensures
        encode_utf8(a + b) == encode_utf8(a) + encode_utf8(b),
    decreases a.len(),
{
    if a.len() == 0 {
        assert(a + b =~= b);
        assert(encode_utf8(a) + encode_utf8(b) =~= encode_utf8(b));
    } else {
        lemma_encode_utf8_concat(a.drop_first(), b);
        assert((a + b).drop_first() =~= a.drop_first() + b);
        assert((a + b)[0] == a[0]);
        assert(encode_utf8(a + b) =~= encode_utf8(a) + encode_utf8(b));
    }
}

pub open spec fn str_opt_view(s: Option<&str>) -> Option<Seq<char>> {
    match s {
        Some(r) => Some(r@),
        None => None,
    }
}

/// `a`, `/`, `b` as one string.
fn join_with_slash(a: &str, b: &str) -> (s: String)
    ensures
        s@ == a@ + seq!['/'] + b@,
{
    let mut bytes: Vec<u8> = Vec::new();
    append_bytes(&mut bytes, a.as_bytes());
    bytes.push(47);
    append_bytes(&mut bytes, b.as_bytes());
    let ghost target = a@ + seq!['/'] + b@;
    proof {
        let slash = seq!['/'];
        assert(is_ascii_chars(slash));
        is_ascii_chars_encode_utf8(slash);
        assert(encode_utf8(slash) =~= seq![47u8]);
        lemma_encode_utf8_concat(a@, slash);
        lemma_encode_utf8_concat(a@ + slash, b@);
        assert(bytes@ =~= encode_utf8(target));
        encode_utf8_valid_utf8(target);
    }
    match str_from_utf8(bytes.as_slice()) {
        Some(s) => {
            proof {
                encode_utf8_decode_utf8(s@);
                encode_utf8_decode_utf8(target);
            }
            s.to_owned()
        },
        None => {
            assert(false);
            String::new()
        },
    }
}

/// The archive name of an item; see [`item_name`].
pub fn entry_name(root: Option<&str>, rel: &str) -> (s: String)
    ensures
        s@ == item_name(str_opt_view(root), rel@),
{
    if rel.is_empty() {
        match root {
            Some(r) => r.to_owned(),
            None => {
                proof {
                    reveal_strlit(".");
                }
                ".".to_owned()
            },
        }
    } else {
        match root {
            None => rel.to_owned(),
            Some(r) => {
                if r.is_empty() {
                    rel.to_owned()
                } else {
                    let last = r.get_char(r.unicode_len() - 1);
                    if last == '/' {
                        proof {
                            assert(r@ =~= r@.drop_last() + seq!['/']);
                        }
                        let trimmed = r.substring_char(0, r.unicode_len() - 1);
                        let j = join_with_slash(trimmed, rel);
                        assert(j@ =~= r@ + rel@);
                        j
                    } else {
                        join_with_slash(r, rel)
                    }
                }
            },
        }
    }
}

/// Builds an archive from the items of a directory tree, in walk order:
/// directories, symbolic links and regular files become entries (type bits
/// from the item's kind, permission bits from its mode), other items are
/// left out, and inode numbers count the entries from zero. Names follow
/// [`item_name`].
pub fn build_archive(items: &[DirItem], root: Option<&str>) -> (a: CpioArchive)
    requires
        items@.len() <= u32::MAX,
    ensures
        a@ == built_entries(items@.map_values(|i: DirItem| i@), str_opt_view(root)),
{
    let ghost iv = items@.map_values(|i: DirItem| i@);
    let ghost rv = str_opt_view(root);
    let mut entries: Vec<CpioEntry> = Vec::new();
    let mut ino: u32 = 0;
    let n = items.len();
    let mut i: usize = 0;
    while i < n
        invariant
            i <= n,
            n == items@.len(),
            n <= u32::MAX,
            iv == items@.map_values(|i: DirItem| i@),
            rv == str_opt_view(root),
            entries@.map_values(|e: CpioEntry| e@) == built_entries(iv.take(i as int), rv),
            ino as nat == entries@.len(),
            entries@.len() <= i,
        decreases n - i,
    {
        let item = &items[i];
        assert(iv.take(i + 1).drop_last() =~= iv.take(i as int));
        assert(iv.take(i + 1).last() == item@);
        let ghost before = entries@.map_values(|e: CpioEntry| e@);
        let (type_bits, archived, is_dir): (u32, bool, bool) = match item.kind {
            ItemKind::Dir => (0o040000, true, true),
            ItemKind::Symlink => (0o120000, true, false),
            ItemKind::File => (0o100000, true, false),
            ItemKind::Other => (0, false, false),
        };
        if archived {
            let data = if is_dir {
                Vec::new()
            } else {
                slice_to_vec(item.data.as_slice())
            };
            let entry = CpioEntry {
                ino,
                mode: type_bits | (item.mode & 0o7777),
                uid: item.uid,
                gid: item.gid,
                nlink: item.nlink as u32,
                mtime: item.mtime as u32,
                devmajor: 0,
                devminor: 0,
                rdevmajor: 0,
                rdevminor: 0,
                name: entry_name(root, item.rel_path.as_str()),
                data,
            };
            assert(entry@ == item_entry(item@, rv, ino));
            entries.push(entry);
            assert(entries@.map_values(|e: CpioEntry| e@) =~= before.push(
                item_entry(item@, rv, ino),
            ));
            ino = ino + 1;
        }
        i = i + 1;
    }
    assert(iv.take(n as int) =~= iv);
    CpioArchive { entries }
}

/// Where piece `k` starts in [`join_padded`]`(ps)`.
pub open spec fn piece_offset(ps: Seq<Seq<u8>>, k: nat) -> nat {
    if k == 0 {
        0
    } else {
        padded512(join_padded(ps.take(k as int))).len()
    }
}

pub open spec fn prefix_of(a: Seq<u8>, b: Seq<u8>) -> bool {
    a.len() <= b.len() && b.subrange(0, a.len() as int) == a
}

proof fn lemma_join_step(ps: Seq<Seq<u8>>, m: nat)
    requires
        1 <= m < ps.len(),
    ensures
        join_padded(ps.take(m + 1 as int)) == padded512(join_padded(ps.take(m as int))) + ps[m as int],
{
    assert(ps.take(m + 1 as int).drop_last() =~= ps.take(m as int));
    assert(ps.take(m + 1 as int).last() == ps[m as int]);
}

proof fn lemma_prefix_trans(a: Seq<u8>, b: Seq<u8>, c: Seq<u8>)
    requires
        prefix_of(a, b),
        prefix_of(b, c),
    ensures
        prefix_of(a, c),
{
    assert(c.subrange(0, a.len() as int) =~= b.subrange(0, a.len() as int));
}

/// Every shorter join, padded, is a prefix of a longer one.
proof fn lemma_join_prefix(ps: Seq<Seq<u8>>, m: nat, l: nat)
    requires
        1 <= m < l <= ps.len(),
    ensures
        prefix_of(padded512(join_padded(ps.take(m as int))), join_padded(ps.take(l as int))),
    decreases l - m,
{
    lemma_join_step(ps, m);
    let pm = padded512(join_padded(ps.take(m as int)));
    let next = join_padded(ps.take(m + 1 as int));
    assert(next.subrange(0, pm.len() as int) =~= pm);
    if m + 1 < l {
        lemma_join_prefix(ps, m + 1, l);
        let pn = padded512(next);
        assert(pn.subrange(0, next.len() as int) =~= next);
        assert(prefix_of(next, pn));
        lemma_prefix_trans(pm, next, pn);
        lemma_prefix_trans(pm, pn, join_padded(ps.take(l as int)));
    }
}

/// The layout of [`join_padded`]: piece `k` at its offset, zeros up to the
/// next piece, and the last piece at the very end.
proof fn lemma_join_layout(ps: Seq<Seq<u8>>, k: nat)
    requires
        k < ps.len(),
    ensures
        ({
            let x = join_padded(ps);
            let o = piece_offset(ps, k);
            let q = o + ps[k as int].len();
            &&& q <= x.len()
            &&& x.subrange(o as int, q as int) == ps[k as int]
            &&& o % 512 == 0
            &&& k + 1 < ps.len() ==> q <= piece_offset(ps, k + 1) && forall|j: int|
                q <= j < piece_offset(ps, k + 1) ==> #[trigger] x[j] == 0
            &&& k + 1 < ps.len() ==> piece_offset(ps, k + 1) == q + pad512(q)
            &&& k + 1 == ps.len() ==> q == x.len()
        }),
{
    let n = ps.len();
    let x = join_padded(ps);
    assert(ps.take(n as int) =~= ps);
    let o = piece_offset(ps, k);
    let p = ps[k as int];
    let jk1 = join_padded(ps.take(k + 1 as int));
    // piece k ends the join of the first k + 1 pieces
    if k == 0 {
        assert(ps.take(1).len() == 1);
        assert(jk1 == ps[0]);
        assert(jk1.subrange(0, p.len() as int) =~= p);
    } else {
        lemma_join_step(ps, k);
        let pk = padded512(join_padded(ps.take(k as int)));
        assert(jk1.subrange(o as int, o + p.len() as int) =~= p);
        let l = join_padded(ps.take(k as int)).len();
        assert(pk.len() % 512 == 0) by (nonlinear_arith)
            requires
                pk.len() == l + (512 - l % 512) % 512,
        ;
    }
    assert(jk1.len() == o + p.len() as int);
    if k + 1 < n {
        lemma_join_prefix(ps, k + 1, n);
        let pk1 = padded512(jk1);
        assert(prefix_of(pk1, x));
        assert(x.subrange(o as int, o + p.len() as int) =~= pk1.subrange(0, pk1.len() as int).subrange(
            o as int,
            o + p.len() as int,
        ));
        assert(pk1.subrange(o as int, o + p.len() as int) =~= jk1.subrange(o as int, o + p.len() as int));
        assert forall|j: int| o + p.len() <= j < piece_offset(ps, k + 1) implies #[trigger] x[j]
            == 0 by {
            assert(x[j] == pk1.subrange(0, pk1.len() as int)[j]);
        }
    } else {
        assert(ps.take(k + 1 as int) =~= ps);
    }
}

proof fn lemma_skip_zero_run(x: Seq<u8>, j: nat, o: nat)
    requires
        j <= o < x.len(),
        forall|i: int| j <= i < o ==> #[trigger] x[i] == 0,
        x[o as int] != 0,
    ensures
        skip_zeros(x, j) == o,
    decreases o - j,
{
    if j < o {
        lemma_skip_zero_run(x, j + 1, o);
    }
}

/// The segments that splitting the join of written archives gives, from
/// piece `k` on.
pub open spec fn joined_segments(ps: Seq<Seq<u8>>, k: nat) -> Seq<SegmentView> {
    Seq::new(
        (ps.len() - k) as nat,
        |i: int|
            SegmentView {
                offset: piece_offset(ps, (k + i) as nat),
                data: ps[k + i],
                compression: Compression::Uncompressed,
            },
    )
}

/// The piece at `k` of a join of written archives is found where the
/// layout put it: after the zeros that follow the previous piece, as an
/// uncompressed archive that ends with the piece.
proof fn lemma_joined_piece(ps: Seq<Seq<u8>>, k: nat, es: Seq<EntryView>)
    requires
        k < ps.len(),
        ps[k as int] == encode_archive(es),
        entries_round_trip(es),
    ensures
        ({
            let x = join_padded(ps);
            let o = piece_offset(ps, k);
            let start = if k == 0 {
                0
            } else {
                piece_offset(ps, (k - 1) as nat) + ps[k - 1 as int].len()
            };
            &&& skip_zeros(x, start) == o
            &&& o < x.len()
            &&& segment_end(x, o) == Ok::<(Compression, nat), SegmentError>(
                (Compression::Uncompressed, o + ps[k as int].len()),
            )
            &&& x.subrange(o as int, o + ps[k as int].len() as int) == ps[k as int]
        }),
{
    let x = join_padded(ps);
    let start = if k == 0 {
        0
    } else {
        piece_offset(ps, (k - 1) as nat) + ps[k - 1 as int].len()
    };
    if k > 0 {
        lemma_join_layout(ps, (k - 1) as nat);
    }
    lemma_join_layout(ps, k);
    let o = piece_offset(ps, k);
    let p = ps[k as int];
    let rest = x.subrange(o as int, x.len() as int);
    assert(rest.subrange(0, p.len() as int) =~= p);
    lemma_scan_written_prefix(rest, es);
    assert(x[o as int] == rest[0]);
    assert(rest[0] == rest.subrange(0, 6)[0]);
    assert(x[o as int] != 0);
    if k == 0 {
        lemma_skip_zero_run(x, 0, o);
    } else {
        lemma_skip_zero_run(x, start, o);
    }
    assert(detected_compression(rest) == Some(Compression::Uncompressed));
    lemma_segment_end_archive(x, o, p.len());
}

proof fn lemma_split_joined_from(archives: Seq<Seq<EntryView>>, k: nat)
    requires
        k <= archives.len(),
        forall|i: int| 0 <= i < archives.len() ==> entries_round_trip(#[trigger] archives[i]),
    ensures
        ({
            let ps = archives.map_values(|es: Seq<EntryView>| encode_archive(es));
            let x = join_padded(ps);
            let start = if k == 0 {
                0
            } else {
                piece_offset(ps, (k - 1) as nat) + ps[k - 1 as int].len()
            };
            split_from(x, start) == Ok::<Seq<SegmentView>, SegmentError>(
                joined_segments(ps, k),
            )
        }),
    decreases archives.len() - k,
{
    let ps = archives.map_values(|es: Seq<EntryView>| encode_archive(es));
    let x = join_padded(ps);
    let n = ps.len();
    let start = if k == 0 {
        0
    } else {
        piece_offset(ps, (k - 1) as nat) + ps[k - 1 as int].len()
    };
    if k == n {
        if n == 0 {
            assert(x.len() == 0);
        } else {
            lemma_join_layout(ps, (k - 1) as nat);
        }
        lemma_split_at_end(x, start);
        assert(joined_segments(ps, k) =~= Seq::<SegmentView>::empty());
    } else {
        let o = piece_offset(ps, k);
        let p = ps[k as int];
        assert(entries_round_trip(archives[k as int]));
        lemma_joined_piece(ps, k, archives[k as int]);
        lemma_split_step(x, start, o, Compression::Uncompressed, o + p.len());
        lemma_split_joined_from(archives, k + 1);
        assert(joined_segments(ps, k) =~= seq![
            SegmentView {
                offset: o,
                data: p,
                compression: Compression::Uncompressed,
            },
        ] + joined_segments(ps, k + 1));
    }
}

/// An image laid out by [`reassemble`] or [`insert_segment`] from archives
/// that the library wrote splits back into exactly those archives, each at
/// the offset where the layout put it (archives with no entry named
/// `TRAILER!!!` and with name and data sizes that fit the header fields).
pub proof fn lemma_split_joined_archives(archives: Seq<Seq<EntryView>>)
    requires
        forall|i: int| 0 <= i < archives.len() ==> entries_round_trip(#[trigger] archives[i]),
    ensures
        ({
            let ps = archives.map_values(|es: Seq<EntryView>| encode_archive(es));
            split_from(join_padded(ps), 0) == Ok::<
                Seq<SegmentView>,
                SegmentError,
            >(joined_segments(ps, 0))
        }),
{
    lemma_split_joined_from(archives, 0);
}

/// How a laid-out image holds its pieces, piece `k` being `piece` and the
/// first piece starting at 0: `piece` at offset `o`, a multiple of 512; then
/// zeros up to the next multiple of 512, where the next piece starts; the
/// last piece ends the image.
pub open spec fn piece_placed(
    x: Seq<u8>,
    ps: Seq<Seq<u8>>,
    k: nat,
    piece: Seq<u8>,
) -> bool {
    let o = piece_offset(ps, k);
    let q = o + piece.len();
    let next = piece_offset(ps, k + 1);
    &&& k == 0 ==> o == 0
    &&& o % 512 == 0
    &&& q <= x.len()
    &&& x.subrange(o as int, q as int) == piece
    &&& k + 1 < ps.len() ==> next % 512 == 0 && q <= next < q + 512 && forall|j: int|
        q <= j < next ==> #[trigger] x[j] == 0
    &&& k + 1 == ps.len() ==> x.len() == q
}

proof fn lemma_piece_placed(ps: Seq<Seq<u8>>, k: nat)
    requires
        k < ps.len(),
    ensures
        piece_placed(join_padded(ps), ps, k, ps[k as int]),
{
    lemma_join_layout(ps, k);
    if k + 1 < ps.len() {
        lemma_join_layout(ps, k + 1);
    }
}

/// Replacing segment `index` lays out, for every segment `k`, the new data
/// where `k == index` and the segment's own bytes everywhere else, each at
/// its offset with the zero padding between pieces.
pub proof fn lemma_reassemble_places_segments(
    segs: Seq<SegmentView>,
    index: nat,
    new: Seq<u8>,
    k: nat,
)
    requires
        k < segs.len(),
    ensures
        piece_placed(
            join_padded(replaced_pieces(segs, index, new)),
            replaced_pieces(segs, index, new),
            k,
            if k == index {
                new
            } else {
                segs[k as int].data
            },
        ),
{
    lemma_piece_placed(replaced_pieces(segs, index, new), k);
}

/// Inserting before segment `index` lays out the segments before it
/// unchanged, then the new data, then the segments from `index` on, each at
/// its offset with the zero padding between pieces.
pub proof fn lemma_insert_places_segments(
    segs: Seq<SegmentView>,
    index: nat,
    new: Seq<u8>,
    k: nat,
)
    requires
        index <= segs.len(),
        k <= segs.len(),
    ensures
        piece_placed(
            join_padded(inserted_pieces(segs, index, new)),
            inserted_pieces(segs, index, new),
            k,
            if k < index {
                segs[k as int].data
            } else if k == index {
                new
            } else {
                segs[k - 1].data
            },
        ),
{
    lemma_piece_placed(inserted_pieces(segs, index, new), k);
}

/// How many of the first `j` items are archived (not of kind `Other`).
pub open spec fn archived_before(items: Seq<DirItemView>, j: int) -> nat
    decreases j,
{
    if j <= 0 {
        0
    } else {
        archived_before(items, j - 1) + if items[j - 1].kind != ItemKind::Other {
            1nat
        } else {
            0nat
        }
    }
}

proof fn lemma_type_bits(m: u32)
    ensures
        file_type_bits(0o040000u32 | (m & 0o7777u32)) == 0o040000u32,
        file_type_bits(0o120000u32 | (m & 0o7777u32)) == 0o120000u32,
        file_type_bits(0o100000u32 | (m & 0o7777u32)) == 0o100000u32,
        (0o040000u32 | (m & 0o7777u32)) & 0o7777u32 == m & 0o7777u32,
        (0o120000u32 | (m & 0o7777u32)) & 0o7777u32 == m & 0o7777u32,
        (0o100000u32 | (m & 0o7777u32)) & 0o7777u32 == m & 0o7777u32,
{
    assert((0o040000u32 | (m & 0o7777u32)) & 0o170000u32 == 0o040000u32) by (bit_vector);
    assert((0o120000u32 | (m & 0o7777u32)) & 0o170000u32 == 0o120000u32) by (bit_vector);
    assert((0o100000u32 | (m & 0o7777u32)) & 0o170000u32 == 0o100000u32) by (bit_vector);
    assert((0o040000u32 | (m & 0o7777u32)) & 0o7777u32 == m & 0o7777u32) by (bit_vector);
    assert((0o120000u32 | (m & 0o7777u32)) & 0o7777u32 == m & 0o7777u32) by (bit_vector);
    assert((0o100000u32 | (m & 0o7777u32)) & 0o7777u32 == m & 0o7777u32) by (bit_vector);
}

/// Item `j` became entry number [`archived_before`]`(j)`: a directory
/// with the file type of a directory, a symbolic link with that of a link,
/// a regular file with that of a file; it keeps the item's permission bits,
/// owner, and (links and files) data, and is numbered by its position.
pub open spec fn entry_from_item(items: Seq<DirItemView>, root: Option<Seq<char>>, j: int) -> bool {
    let k = archived_before(items, j);
    let e = built_entries(items, root)[k as int];
    &&& k < built_entries(items, root).len()
    &&& items[j].kind == ItemKind::Dir ==> file_type_bits(e.mode) == 0o040000 && e.data.len() == 0
    &&& items[j].kind == ItemKind::Symlink ==> file_type_bits(e.mode) == 0o120000 && e.data
        == items[j].data
    &&& items[j].kind == ItemKind::File ==> file_type_bits(e.mode) == 0o100000 && e.data
        == items[j].data
    &&& e.mode & 0o7777 == items[j].mode & 0o7777
    &&& e.uid == items[j].uid
    &&& e.gid == items[j].gid
    &&& e.ino == k as u32
    &&& e.name == item_name(root, items[j].rel_path)
}

/// Each archived item `j` becomes entry number [`archived_before`]`(j)`,
/// in walk order: a directory has the file type of a directory, a symbolic
/// link that of a link, a regular file that of a file; each keeps the
/// item's permission bits, owner, and (links and files) data, and is
/// numbered by its position. Other items give no entry.
pub proof fn lemma_built_entries_from_items(items: Seq<DirItemView>, root: Option<Seq<char>>)
    ensures
        built_entries(items, root).len() == archived_before(items, items.len() as int),
        forall|j: int|
            0 <= j < items.len() && items[j].kind != ItemKind::Other ==> #[trigger] entry_from_item(
                items,
                root,
                j,
            ),
    decreases items.len(),
{
    if items.len() > 0 {
        let init = items.drop_last();
        lemma_built_entries_from_items(init, root);
        let n = items.len() as int;
        assert forall|j: int| 0 <= j <= init.len() implies archived_before(items, j)
            == archived_before(init, j) by {
            lemma_archived_before_prefix(items, init, j);
        }
        let prev = built_entries(init, root);
        assert forall|j: int|
            0 <= j < items.len() && items[j].kind != ItemKind::Other implies #[trigger] entry_from_item(
                items,
                root,
                j,
            ) by {
            let k = archived_before(items, j);
            if j < n - 1 {
                assert(items[j] == init[j]);
                assert(entry_from_item(init, root, j));
                assert(k < prev.len());
                assert(built_entries(items, root)[k as int] == prev[k as int]);
            } else {
                assert(archived_before(items, j) == archived_before(init, j));
                assert(k == prev.len());
                let e = item_entry(items[j], root, prev.len() as u32);
                assert(items.last() == items[j]);
                assert(built_entries(items, root) == prev.push(e));
                assert(built_entries(items, root)[k as int] == e);
                lemma_type_bits(items[j].mode);
            }
        }
    }
}

proof fn lemma_archived_before_prefix(items: Seq<DirItemView>, init: Seq<DirItemView>, j: int)
    requires
        items.len() > 0,
        init == items.drop_last(),
        0 <= j <= init.len(),
    ensures
        archived_before(items, j) == archived_before(init, j),
    decreases j,
{
    if j > 0 {
        lemma_archived_before_prefix(items, init, j - 1);
        assert(items[j - 1] == init[j - 1]);
    }
}

} // verus!
