use rdpal::cpio::{CpioArchive, CpioEntry};
use rdpal::compression::compress;
use rdpal::extract::{
    parse_proc_status,
    can_chown, can_mknod, extract_action, has_device_entries, missing_capabilities,
    name_stays_inside_exec, ExtractAction, SymlinkTargetNotUtf8,
};
use rdpal::info::{entry_kind, plural_suffix, summarize_segment, InfoError};
use rdpal::cpio::{write_archive, CpioError};
use rdpal::segment::{Compression, RawSegment};

fn entry(mode: u32, name: &str, data: &[u8]) -> CpioEntry {
    CpioEntry {
        ino: 0,
        mode,
        uid: 0,
        gid: 0,
        nlink: 1,
        mtime: 0,
        devmajor: 0,
        devminor: 0,
        rdevmajor: 8,
        rdevminor: 1,
        name: name.to_string(),
        data: data.to_vec(),
    }
}

#[test]
fn privileges_from_status() {
    assert!(can_chown(Some((0, 0))));
    assert!(can_chown(Some((1000, 1))));
    assert!(!can_chown(Some((1000, 0x800_0000))));
    assert!(!can_chown(None));
    assert!(can_mknod(Some((0, 0))));
    assert!(can_mknod(Some((1000, 0x800_0000))));
    assert!(!can_mknod(Some((1000, 1))));
    assert!(!can_mknod(None));
}

#[test]
fn capability_warnings() {
    let m = missing_capabilities(false, false, false);
    assert!(m.chown && !m.mknod);
    let m = missing_capabilities(true, false, true);
    assert!(!m.chown && m.mknod);
    let m = missing_capabilities(true, true, true);
    assert!(!m.chown && !m.mknod);
}

#[test]
fn device_detection() {
    let a = CpioArchive { entries: vec![entry(0o040755, ".", b""), entry(0o100644, "f", b"")] };
    assert!(!has_device_entries(&a));
    let b = CpioArchive { entries: vec![entry(0o100644, "f", b""), entry(0o020660, "c", b"")] };
    assert!(has_device_entries(&b));
}

#[test]
fn actions_per_entry_type() {
    assert_eq!(
        extract_action(&entry(0o040755, "d", b""), true, false),
        Ok(ExtractAction::Dir { permissions: 0o755, chown: true })
    );
    assert_eq!(
        extract_action(&entry(0o104755, "f", b"x"), false, false),
        Ok(ExtractAction::File { permissions: 0o4755, chown: false })
    );
    assert_eq!(
        extract_action(&entry(0o120777, "l", b"target"), true, true),
        Ok(ExtractAction::Symlink { target: "target".to_string(), chown: true })
    );
    assert_eq!(extract_action(&entry(0o120777, "l", &[0xff]), true, true), Err(SymlinkTargetNotUtf8));
    assert_eq!(
        extract_action(&entry(0o060660, "sda1", b""), false, true),
        Ok(ExtractAction::Device { mode: 0o060660, dev: (8 << 8) | 1, chown: false })
    );
    assert_eq!(
        extract_action(&entry(0o060660, "sda1", b""), false, false),
        Ok(ExtractAction::SkipDevice { type_char: 'b' })
    );
    assert_eq!(
        extract_action(&entry(0o010644, "fifo", b""), true, true),
        Ok(ExtractAction::SkipUnsupported { type_char: 'p' })
    );
}

#[test]
fn device_numbers_follow_linux_layout() {
    let mut e = entry(0o020660, "x", b"");
    e.rdevmajor = 0x12345;
    e.rdevminor = 0x6789a;
    match extract_action(&e, false, true).unwrap() {
        ExtractAction::Device { dev, .. } => {
            let expected: u64 = ((0x345u64) << 8) | ((0x12000u64) << 32) | 0x9a | ((0x67800u64) << 12);
            assert_eq!(dev, expected);
        }
        other => panic!("unexpected {:?}", other),
    }
}

#[test]
fn summary_of_segments() {
    let archive = CpioArchive { entries: vec![entry(0o040755, ".", b""), entry(0o100644, "a", b"abc")] };
    let bytes = write_archive(&archive);
    let seg = RawSegment { offset: 512, data: bytes.clone(), compression: Compression::Uncompressed };
    let (s, parsed) = summarize_segment(&seg).unwrap();
    assert_eq!(s.offset, 512);
    assert_eq!(s.compressed_size, bytes.len());
    assert_eq!(s.decompressed_size, bytes.len());
    assert_eq!(s.entry_count, 2);
    assert_eq!(s.first_entry, ".");
    assert_eq!(parsed.entries.len(), 2);

    let packed = compress(&bytes, Compression::Gzip).unwrap();
    let seg = RawSegment { offset: 0, data: packed.clone(), compression: Compression::Gzip };
    let (s, _) = summarize_segment(&seg).unwrap();
    assert_eq!(s.compressed_size, packed.len());
    assert_eq!(s.decompressed_size, bytes.len());
    assert_eq!(s.compression, Compression::Gzip);

    let empty = write_archive(&CpioArchive { entries: vec![] });
    let seg = RawSegment { offset: 0, data: empty, compression: Compression::Uncompressed };
    let (s, _) = summarize_segment(&seg).unwrap();
    assert_eq!(s.entry_count, 0);
    assert_eq!(s.first_entry, "");

    let seg = RawSegment { offset: 0, data: b"070701xx".to_vec(), compression: Compression::Uncompressed };
    assert_eq!(summarize_segment(&seg).unwrap_err(), InfoError::Cpio(CpioError::Truncated { offset: 0 }));
}

#[test]
fn listing_words() {
    assert_eq!(entry_kind(&entry(0o040755, "d", b"")), "dir");
    assert_eq!(entry_kind(&entry(0o120777, "l", b"")), "link");
    assert_eq!(entry_kind(&entry(0o100644, "f", b"")), "file");
    assert_eq!(entry_kind(&entry(0o020644, "c", b"")), "file");
    assert_eq!(plural_suffix(1), "");
    assert_eq!(plural_suffix(0), "s");
    assert_eq!(plural_suffix(4), "s");
}

#[test]
fn proc_status_fields() {
    let text = "Name:\tcat\nUid:\t1000\t1001\t1000\t1000\nGid:\t100\t100\t100\t100\nCapInh:\t0000000000000000\nCapEff:\t0000000008000001\n";
    assert_eq!(parse_proc_status(text), Some((1001, 0x8000001)));
    // no CapEff line: capabilities are zero
    assert_eq!(parse_proc_status("Uid: 0 0 0 0\n"), Some((0, 0)));
    // no Uid line, or no second number on it
    assert_eq!(parse_proc_status("CapEff: ff\n"), None);
    assert_eq!(parse_proc_status("Uid: 7\n"), None);
    // the last line of a kind wins; a CapEff value that does not parse counts as zero
    assert_eq!(parse_proc_status("Uid: 1 2\nUid: 3 4\nCapEff: 1\nCapEff: zz\n"), Some((4, 0)));
    // a number too large for u32 does not parse; a leading '+' does
    assert_eq!(parse_proc_status("Uid: 1 4294967296\n"), None);
    assert_eq!(parse_proc_status("Uid: 1 +4294967295\r\n"), Some((4294967295, 0)));
    // prefixes must start the line; unicode white space separates words
    assert_eq!(parse_proc_status(" Uid: 1 2\n"), None);
    assert_eq!(parse_proc_status("Uid:\u{3000}5\u{a0}6"), Some((6, 0)));
    assert_eq!(parse_proc_status(""), None);
}

#[test]
fn names_outside_the_destination_are_skipped() {
    for name in ["/etc/x", "../x", "a/../../x", "a/..", "..", "/"] {
        assert!(!name_stays_inside_exec(name), "{}", name);
        assert_eq!(
            extract_action(&entry(0o100644, name, b"x"), true, true),
            Ok(ExtractAction::SkipOutsideDestination)
        );
    }
    for name in [".", "./a", "a/b", "a..b", "..a/b", "a/b..", "", "a/.../b"] {
        assert!(name_stays_inside_exec(name), "{}", name);
    }
    assert_eq!(
        extract_action(&entry(0o100644, "a/..b", b"x"), true, true),
        Ok(ExtractAction::File { permissions: 0o644, chown: true })
    );
}
