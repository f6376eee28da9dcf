use rdpal::compression;
use rdpal::cpio;
use rdpal::cpio::CpioArchive;
use rdpal::segment;
use rdpal::update;
use rdpal::update::{build_archive, entry_name, DirItem, ItemKind};

fn item(rel: &str, kind: ItemKind, mode: u32, data: &[u8]) -> DirItem {
    DirItem {
        rel_path: rel.to_string(),
        kind,
        mode,
        uid: 1000,
        gid: 1000,
        nlink: 1,
        mtime: 1_700_000_000,
        data: data.to_vec(),
    }
}

/// The items a walk of the test tree yields, sorted by file name: the
/// root, `hello.txt`, `subdir`, `subdir/nested.txt`.
fn test_tree() -> Vec<DirItem> {
    vec![
        item("", ItemKind::Dir, 0o040755, b""),
        item("hello.txt", ItemKind::File, 0o100644, b"hello world"),
        item("subdir", ItemKind::Dir, 0o040755, b""),
        item("subdir/nested.txt", ItemKind::File, 0o100644, b"nested content"),
    ]
}

fn single_file_tree(name: &str, data: &[u8]) -> Vec<DirItem> {
    vec![item("", ItemKind::Dir, 0o040755, b""), item(name, ItemKind::File, 0o100644, data)]
}

fn entry_names(data: &[u8]) -> Vec<String> {
    let (archive, _) = cpio::parse_archive(data).unwrap();
    archive.entries.iter().map(|e| e.name.clone()).collect()
}

fn names(archive: &CpioArchive) -> Vec<&str> {
    archive.entries.iter().map(|e| e.name.as_str()).collect()
}

#[test]
fn create_without_root_uses_dot() {
    let archive = build_archive(&test_tree(), None);
    let names = names(&archive);

    assert_eq!(names[0], ".");
    assert!(names.contains(&"hello.txt"));
    assert!(names.contains(&"subdir"));
    assert!(names.contains(&"subdir/nested.txt"));
}

#[test]
fn create_with_root_prefixes_all_entries() {
    let archive = build_archive(&test_tree(), Some("myroot"));
    let names = names(&archive);

    assert_eq!(names[0], "myroot");
    assert!(names.contains(&"myroot/hello.txt"));
    assert!(names.contains(&"myroot/subdir"));
    assert!(names.contains(&"myroot/subdir/nested.txt"));
}

#[test]
fn create_with_nested_root() {
    let archive = build_archive(&test_tree(), Some("kernel/x86/microcode"));
    let names = names(&archive);

    assert_eq!(names[0], "kernel/x86/microcode");
    assert!(names.contains(&"kernel/x86/microcode/hello.txt"));
    assert!(names.contains(&"kernel/x86/microcode/subdir"));
    assert!(names.contains(&"kernel/x86/microcode/subdir/nested.txt"));
}

#[test]
fn roundtrip_create_and_parse_with_root() {
    let archive = build_archive(&test_tree(), Some("prefix"));
    let cpio_bytes = cpio::write_archive(&archive);

    let names = entry_names(&cpio_bytes);
    assert_eq!(names[0], "prefix");
    assert!(names.contains(&"prefix/hello.txt".to_string()));
    assert!(names.contains(&"prefix/subdir/nested.txt".to_string()));
}

#[test]
fn update_segment_with_root() {
    let archive1 = build_archive(&test_tree(), None);
    let initial_bytes = cpio::write_archive(&archive1);

    let segments = segment::split_segments(&initial_bytes).unwrap();
    assert_eq!(segments.len(), 1);

    let archive2 = build_archive(&single_file_tree("replacement.txt", b"replaced"), Some("updated"));
    let new_cpio = cpio::write_archive(&archive2);
    let new_data = update::reassemble(&segments, 0, new_cpio);

    let new_segments = segment::split_segments(&new_data).unwrap();
    assert_eq!(new_segments.len(), 1);

    let names = entry_names(&new_segments[0].data);
    assert_eq!(names[0], "updated");
    assert!(names.contains(&"updated/replacement.txt".to_string()));
}

#[test]
fn add_segment_with_root() {
    let archive1 = build_archive(&test_tree(), None);
    let initial_bytes = cpio::write_archive(&archive1);

    let segments = segment::split_segments(&initial_bytes).unwrap();
    assert_eq!(segments.len(), 1);

    let archive2 = build_archive(&single_file_tree("added.txt", b"new section"), Some("extra"));
    let new_cpio = cpio::write_archive(&archive2);
    let new_data = update::insert_segment(&segments, 1, new_cpio);

    let new_segments = segment::split_segments(&new_data).unwrap();
    assert_eq!(new_segments.len(), 2);

    let names0 = entry_names(&new_segments[0].data);
    assert_eq!(names0[0], ".");

    let names1 = entry_names(&new_segments[1].data);
    assert_eq!(names1[0], "extra");
    assert!(names1.contains(&"extra/added.txt".to_string()));
}

#[test]
fn add_segment_at_index_zero_with_root() {
    let archive1 = build_archive(&test_tree(), None);
    let initial_bytes = cpio::write_archive(&archive1);
    let segments = segment::split_segments(&initial_bytes).unwrap();

    let archive2 = build_archive(&single_file_tree("first.txt", b"inserted first"), Some("prepended"));
    let new_cpio = cpio::write_archive(&archive2);
    let new_data = update::insert_segment(&segments, 0, new_cpio);

    let new_segments = segment::split_segments(&new_data).unwrap();
    assert_eq!(new_segments.len(), 2);

    let names0 = entry_names(&new_segments[0].data);
    assert_eq!(names0[0], "prepended");
    assert!(names0.contains(&"prepended/first.txt".to_string()));

    let names1 = entry_names(&new_segments[1].data);
    assert_eq!(names1[0], ".");
}

#[test]
fn compressed_roundtrip_with_root() {
    let archive = build_archive(&test_tree(), Some("zroot"));
    let cpio_bytes = cpio::write_archive(&archive);
    let compressed = compression::compress(&cpio_bytes, segment::Compression::Zstd).unwrap();

    let decompressed = compression::decompress(&compressed, segment::Compression::Zstd).unwrap();
    let names = entry_names(&decompressed);
    assert_eq!(names[0], "zroot");
    assert!(names.contains(&"zroot/hello.txt".to_string()));
}

#[test]
fn cpio_roundtrip_preserves_arbitrary_uid_gid() {
    let mut tree = test_tree();
    tree.push(item("link.txt", ItemKind::Symlink, 0o120777, b"hello.txt"));
    let mut archive = build_archive(&tree, None);
    for entry in &mut archive.entries {
        entry.uid = 1234;
        entry.gid = 5678;
    }
    let cpio_bytes = cpio::write_archive(&archive);
    let (parsed, _) = cpio::parse_archive(&cpio_bytes).unwrap();

    for entry in &parsed.entries {
        assert_eq!(entry.uid, 1234, "uid mismatch on {}", entry.name);
        assert_eq!(entry.gid, 5678, "gid mismatch on {}", entry.name);
    }
}

#[test]
fn build_archive_fields() {
    let mut tree = test_tree();
    tree.push(DirItem {
        rel_path: "pipe".to_string(),
        kind: ItemKind::Other,
        mode: 0o010644,
        uid: 0,
        gid: 0,
        nlink: 1,
        mtime: 0,
        data: vec![],
    });
    tree.push(DirItem {
        rel_path: "link".to_string(),
        kind: ItemKind::Symlink,
        mode: 0o120777,
        uid: 5,
        gid: 6,
        nlink: 0x1_0000_0002,
        mtime: -1,
        data: b"hello.txt".to_vec(),
    });
    let archive = build_archive(&tree, None);
    assert_eq!(archive.entries.len(), 5);
    let inos: Vec<u32> = archive.entries.iter().map(|e| e.ino).collect();
    assert_eq!(inos, vec![0, 1, 2, 3, 4]);
    let link = &archive.entries[4];
    assert_eq!(link.name, "link");
    assert_eq!(link.mode, 0o120777);
    assert!(link.is_symlink());
    assert_eq!(link.data, b"hello.txt");
    assert_eq!(link.nlink, 2);
    assert_eq!(link.mtime, 0xffff_ffff);
    assert_eq!((link.uid, link.gid), (5, 6));
    assert!(archive.entries[0].data.is_empty());
    assert_eq!(archive.entries[1].data, b"hello world");
    assert_eq!(archive.entries[1].mode, 0o100644);
}

#[test]
fn entry_names_join_like_paths() {
    assert_eq!(entry_name(None, ""), ".");
    assert_eq!(entry_name(Some("r"), ""), "r");
    assert_eq!(entry_name(None, "a/b"), "a/b");
    assert_eq!(entry_name(Some("r"), "a/b"), "r/a/b");
    assert_eq!(entry_name(Some("r/"), "a"), "r/a");
    assert_eq!(entry_name(Some(""), "a"), "a");
    assert_eq!(entry_name(Some("é/"), "ü"), "é/ü");
}

fn seg(offset: usize, data: &[u8]) -> segment::RawSegment {
    segment::RawSegment { offset, data: data.to_vec(), compression: segment::Compression::Uncompressed }
}

#[test]
fn reassemble_pads_to_512_and_replaces() {
    let segs = vec![seg(0, b"aaa"), seg(512, &[7u8; 600]), seg(1536, b"ccc")];
    let out = update::reassemble(&segs, 1, b"BB".to_vec());
    let mut expected = b"aaa".to_vec();
    expected.resize(512, 0);
    expected.extend_from_slice(b"BB");
    expected.resize(1024, 0);
    expected.extend_from_slice(b"ccc");
    assert_eq!(out, expected);
    // past the end: nothing replaced
    let out = update::reassemble(&segs, 7, b"BB".to_vec());
    let mut expected = b"aaa".to_vec();
    expected.resize(512, 0);
    expected.extend_from_slice(&[7u8; 600]);
    expected.resize(1536, 0);
    expected.extend_from_slice(b"ccc");
    assert_eq!(out, expected);
    // an exact multiple of 512 gets no padding
    let segs = vec![seg(0, &[1u8; 512]), seg(512, b"z")];
    let out = update::reassemble(&segs, 9, vec![]);
    assert_eq!(out.len(), 513);
    assert!(update::reassemble(&[], 0, b"x".to_vec()).is_empty());
}

#[test]
fn insert_segment_positions() {
    let segs = vec![seg(0, b"aa"), seg(512, b"bb")];
    let out = update::insert_segment(&segs, 1, b"NN".to_vec());
    assert_eq!(&out[..2], b"aa");
    assert_eq!(&out[512..514], b"NN");
    assert_eq!(&out[1024..], b"bb");
    assert_eq!(out.len(), 1026);
    let out = update::insert_segment(&segs, 2, b"NN".to_vec());
    assert_eq!(&out[1024..], b"NN");
    let out = update::insert_segment(&[], 0, b"only".to_vec());
    assert_eq!(out, b"only");
}
