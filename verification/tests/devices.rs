use rdpal::cpio;
use rdpal::cpio::{CpioArchive, CpioEntry};

fn make_device_entry(name: &str, block: bool, major: u32, minor: u32) -> CpioEntry {
    let mode = if block { 0o060000 } else { 0o020000 } | 0o660;
    CpioEntry {
        ino: 0,
        mode,
        uid: 0,
        gid: 0,
        nlink: 1,
        mtime: 0,
        devmajor: 0,
        devminor: 0,
        rdevmajor: major,
        rdevminor: minor,
        name: name.to_string(),
        data: Vec::new(),
    }
}

#[test]
fn cpio_roundtrip_block_device() {
    let archive = CpioArchive { entries: vec![make_device_entry("sda", true, 8, 0)] };
    let bytes = cpio::write_archive(&archive);
    let (parsed, _) = cpio::parse_archive(&bytes).unwrap();

    assert_eq!(parsed.entries.len(), 1);
    let entry = &parsed.entries[0];
    assert!(entry.is_block_device());
    assert!(!entry.is_char_device());
    assert_eq!(entry.name, "sda");
    assert_eq!(entry.rdevmajor, 8);
    assert_eq!(entry.rdevminor, 0);
    assert_eq!(entry.permissions(), 0o660);
    assert_eq!(entry.file_type_char(), 'b');
}

#[test]
fn cpio_roundtrip_char_device() {
    let archive = CpioArchive { entries: vec![make_device_entry("null", false, 1, 3)] };
    let bytes = cpio::write_archive(&archive);
    let (parsed, _) = cpio::parse_archive(&bytes).unwrap();

    assert_eq!(parsed.entries.len(), 1);
    let entry = &parsed.entries[0];
    assert!(entry.is_char_device());
    assert!(!entry.is_block_device());
    assert_eq!(entry.name, "null");
    assert_eq!(entry.rdevmajor, 1);
    assert_eq!(entry.rdevminor, 3);
    assert_eq!(entry.permissions(), 0o660);
    assert_eq!(entry.file_type_char(), 'c');
}

#[test]
fn cpio_roundtrip_mixed_with_devices() {
    let archive = CpioArchive {
        entries: vec![
            CpioEntry {
                ino: 0,
                mode: 0o040755,
                uid: 0,
                gid: 0,
                nlink: 2,
                mtime: 0,
                devmajor: 0,
                devminor: 0,
                rdevmajor: 0,
                rdevminor: 0,
                name: "dev".to_string(),
                data: Vec::new(),
            },
            make_device_entry("dev/null", false, 1, 3),
            make_device_entry("dev/zero", false, 1, 5),
            make_device_entry("dev/sda", true, 8, 0),
            CpioEntry {
                ino: 4,
                mode: 0o100644,
                uid: 0,
                gid: 0,
                nlink: 1,
                mtime: 0,
                devmajor: 0,
                devminor: 0,
                rdevmajor: 0,
                rdevminor: 0,
                name: "dev/readme.txt".to_string(),
                data: b"hello".to_vec(),
            },
        ],
    };

    let bytes = cpio::write_archive(&archive);
    let (parsed, _) = cpio::parse_archive(&bytes).unwrap();

    assert_eq!(parsed.entries.len(), 5);
    assert!(parsed.entries[0].is_dir());
    assert!(parsed.entries[1].is_char_device());
    assert!(parsed.entries[2].is_char_device());
    assert!(parsed.entries[3].is_block_device());
    assert!(parsed.entries[4].is_file());
}

#[test]
fn device_entry_rdev_preserved_through_cpio() {
    let entries: Vec<CpioEntry> = vec![
        make_device_entry("null", false, 1, 3),
        make_device_entry("zero", false, 1, 5),
        make_device_entry("tty0", false, 4, 0),
        make_device_entry("sda", true, 8, 0),
        make_device_entry("sda1", true, 8, 1),
        make_device_entry("loop0", true, 7, 0),
    ];

    let archive = CpioArchive { entries: entries.clone() };
    let bytes = cpio::write_archive(&archive);
    let (parsed, _) = cpio::parse_archive(&bytes).unwrap();

    for (orig, parsed) in entries.iter().zip(parsed.entries.iter()) {
        assert_eq!(orig.name, parsed.name);
        assert_eq!(orig.rdevmajor, parsed.rdevmajor, "rdevmajor mismatch: {}", orig.name);
        assert_eq!(orig.rdevminor, parsed.rdevminor, "rdevminor mismatch: {}", orig.name);
        assert_eq!(orig.mode, parsed.mode, "mode mismatch: {}", orig.name);
    }
}
