use rdpal::cpio::{parse_archive, scan_archive_end, write_archive, CpioArchive, CpioEntry, CpioError};

fn entry(ino: u32, mode: u32, nlink: u32, mtime: u32, name: &str, data: &[u8]) -> CpioEntry {
    CpioEntry {
        ino,
        mode,
        uid: 0,
        gid: 0,
        nlink,
        mtime,
        devmajor: 0,
        devminor: 0,
        rdevmajor: 0,
        rdevminor: 0,
        name: name.to_string(),
        data: data.to_vec(),
    }
}

#[test]
fn round_trip() {
    let archive = CpioArchive {
        entries: vec![
            entry(0, 0o040755, 2, 1000, ".", b""),
            entry(1, 0o100644, 1, 1000, "hello.txt", b"Hello, world!\n"),
        ],
    };

    let bytes = write_archive(&archive);
    let (parsed, consumed) = parse_archive(&bytes).unwrap();
    assert_eq!(consumed, bytes.len());
    assert_eq!(parsed.entries.len(), 2);
    assert_eq!(parsed.entries[0].name, ".");
    assert!(parsed.entries[0].is_dir());
    assert_eq!(parsed.entries[1].name, "hello.txt");
    assert_eq!(parsed.entries[1].data, b"Hello, world!\n");
}

#[test]
fn scan_end_matches_parse() {
    let archive = CpioArchive { entries: vec![entry(0, 0o100644, 1, 0, "test", b"data")] };

    let bytes = write_archive(&archive);
    let scan_end = scan_archive_end(&bytes).unwrap();
    let (_, parse_end) = parse_archive(&bytes).unwrap();
    assert_eq!(scan_end, parse_end);
}

#[test]
fn written_header_layout() {
    let archive = CpioArchive { entries: vec![entry(0x1a, 0o100644, 1, 0xdeadbeef, "ab", b"xyz")] };
    let bytes = write_archive(&archive);
    let header = std::str::from_utf8(&bytes[..110]).unwrap();
    assert_eq!(
        header,
        "070701\
         0000001A000081A4000000000000000000000001DEADBEEF\
         00000003000000000000000000000000000000000000000300000000"
    );
    // name "ab", NUL, then padding of 110 + 3 = 113 up to 116
    assert_eq!(&bytes[110..116], b"ab\0\0\0\0");
    // data "xyz" padded to four bytes
    assert_eq!(&bytes[116..120], b"xyz\0");
    // the trailer follows
    assert_eq!(&bytes[120..126], b"070701");
    assert_eq!(&bytes[230..241], b"TRAILER!!!\0");
    assert_eq!(bytes.len(), 244);
    assert_eq!(bytes.len() % 4, 0);
}

#[test]
fn empty_archive_is_only_trailer() {
    let bytes = write_archive(&CpioArchive { entries: vec![] });
    assert_eq!(bytes.len(), 124);
    let (parsed, consumed) = parse_archive(&bytes).unwrap();
    assert!(parsed.entries.is_empty());
    assert_eq!(consumed, 124);
    assert_eq!(scan_archive_end(&bytes).unwrap(), 124);
}

#[test]
fn parse_stops_at_trailer_and_ignores_rest() {
    let mut bytes = write_archive(&CpioArchive { entries: vec![entry(0, 0o100644, 1, 0, "f", b"1")] });
    let end = bytes.len();
    bytes.extend_from_slice(b"garbage after the archive");
    let (parsed, consumed) = parse_archive(&bytes).unwrap();
    assert_eq!(parsed.entries.len(), 1);
    assert_eq!(consumed, end);
}

#[test]
fn parse_error_truncated() {
    assert_eq!(parse_archive(b"070701").unwrap_err(), CpioError::Truncated { offset: 0 });
    let bytes = write_archive(&CpioArchive { entries: vec![entry(0, 0o100644, 1, 0, "f", b"")] });
    // cut inside the trailer's header
    let cut = &bytes[..bytes.len() - 20];
    assert_eq!(parse_archive(cut).unwrap_err(), CpioError::Truncated { offset: 112 });
    assert_eq!(scan_archive_end(cut).unwrap_err(), CpioError::Truncated { offset: 112 });
}

#[test]
fn parse_error_bad_magic() {
    let mut bytes = write_archive(&CpioArchive { entries: vec![] });
    bytes[5] = b'2';
    assert_eq!(parse_archive(&bytes).unwrap_err(), CpioError::BadMagic { offset: 0 });
    assert_eq!(scan_archive_end(&bytes).unwrap_err(), CpioError::BadMagic { offset: 0 });
}

#[test]
fn parse_error_invalid_hex() {
    let mut bytes = write_archive(&CpioArchive { entries: vec![] });
    bytes[6] = b'G'; // ino field
    assert_eq!(parse_archive(&bytes).unwrap_err(), CpioError::InvalidHex { offset: 0 });
    // the scanner reads only the size fields
    assert_eq!(scan_archive_end(&bytes).unwrap(), 124);
}

#[test]
fn hex_field_accepts_plus_sign_and_lower_case() {
    let mut bytes = write_archive(&CpioArchive { entries: vec![] });
    // nlink field "00000001" written as "+0000001"; mode as lower-case hex
    bytes[38] = b'+';
    bytes[14..22].copy_from_slice(b"000081a4");
    let (parsed, _) = parse_archive(&bytes).unwrap();
    assert!(parsed.entries.is_empty());
}

#[test]
fn parse_error_name_out_of_bounds() {
    let mut bytes = write_archive(&CpioArchive { entries: vec![] });
    bytes[94..102].copy_from_slice(b"000000FF");
    assert_eq!(parse_archive(&bytes).unwrap_err(), CpioError::NameOutOfBounds { offset: 0 });
}

#[test]
fn parse_error_invalid_name() {
    let mut bytes = write_archive(&CpioArchive { entries: vec![entry(0, 0o100644, 1, 0, "ab", b"")] });
    bytes[110] = 0xff;
    assert_eq!(parse_archive(&bytes).unwrap_err(), CpioError::InvalidName { offset: 0 });
}

#[test]
fn parse_error_data_out_of_bounds() {
    let mut bytes = write_archive(&CpioArchive { entries: vec![entry(0, 0o100644, 1, 0, "f", b"")] });
    bytes[54..62].copy_from_slice(b"00001000");
    assert_eq!(parse_archive(&bytes).unwrap_err(), CpioError::DataOutOfBounds { offset: 0 });
}

#[test]
fn unicode_names_round_trip() {
    let archive = CpioArchive { entries: vec![entry(0, 0o100644, 1, 0, "répertoire/日本", b"x")] };
    let bytes = write_archive(&archive);
    let (parsed, _) = parse_archive(&bytes).unwrap();
    assert_eq!(parsed.entries[0].name, "répertoire/日本");
}

#[test]
fn file_type_predicates_and_letters() {
    let cases: [(u32, char); 8] = [
        (0o040755, 'd'),
        (0o100644, '-'),
        (0o120777, 'l'),
        (0o060660, 'b'),
        (0o020660, 'c'),
        (0o010644, 'p'),
        (0o140755, 's'),
        (0o000644, '?'),
    ];
    for (mode, letter) in cases {
        let e = entry(0, mode, 1, 0, "x", b"");
        assert_eq!(e.file_type_char(), letter);
        assert_eq!(e.is_dir(), letter == 'd');
        assert_eq!(e.is_file(), letter == '-');
        assert_eq!(e.is_symlink(), letter == 'l');
        assert_eq!(e.is_block_device(), letter == 'b');
        assert_eq!(e.is_char_device(), letter == 'c');
        assert_eq!(e.is_fifo(), letter == 'p');
        assert_eq!(e.is_socket(), letter == 's');
    }
    assert_eq!(entry(0, 0o107755, 1, 0, "x", b"").permissions(), 0o7755);
}

#[test]
fn bytes_after_trailer_are_ignored() {
    let archive = CpioArchive { entries: vec![entry(0, 0o100644, 1, 0, "test", b"data")] };
    let bytes = write_archive(&archive);
    let mut extended = bytes.clone();
    extended.extend_from_slice(b"070701 and whatever follows");
    let (parsed, end) = parse_archive(&extended).unwrap();
    assert_eq!(end, bytes.len());
    assert_eq!(end, 244);
    assert_eq!(parsed.entries.len(), 1);
    assert_eq!(parsed.entries[0].data, b"data");
    assert_eq!(scan_archive_end(&extended), Ok(244));
}

#[test]
fn writing_two_entry_lists_concatenates() {
    let a = CpioArchive { entries: vec![entry(0, 0o100644, 1, 0, "a", b"one")] };
    let b = CpioArchive { entries: vec![entry(1, 0o100600, 1, 5, "b/c", b"twotwo")] };
    let both = CpioArchive { entries: vec![a.entries[0].clone(), b.entries[0].clone()] };
    let wa = write_archive(&a);
    let wb = write_archive(&b);
    let mut expected = wa[..wa.len() - 124].to_vec();
    expected.extend_from_slice(&wb);
    assert_eq!(write_archive(&both), expected);
    assert_eq!(write_archive(&CpioArchive { entries: vec![] }).len(), 124);
}

#[test]
fn scan_reports_data_past_the_end() {
    let archive = CpioArchive { entries: vec![entry(0, 0o100644, 1, 0, "big", b"")] };
    let mut bytes = write_archive(&archive);
    // Claim a file size of 0x1000 bytes for the first entry, far past the end.
    bytes[54..62].copy_from_slice(b"00001000");
    assert_eq!(scan_archive_end(&bytes), Err(CpioError::DataOutOfBounds { offset: 0 }));
    assert_eq!(parse_archive(&bytes).unwrap_err(), CpioError::DataOutOfBounds { offset: 0 });
}

#[test]
fn trailer_padding_cut_off_is_an_error() {
    let empty = write_archive(&CpioArchive { entries: vec![] });
    assert_eq!(empty.len(), 124);
    let cut = &empty[..121];
    assert_eq!(scan_archive_end(cut), Err(CpioError::DataOutOfBounds { offset: 0 }));
    assert_eq!(parse_archive(cut).unwrap_err(), CpioError::DataOutOfBounds { offset: 0 });
}

#[test]
fn trailer_with_data_cut_inside_padding_is_an_error() {
    let t = entry(0, 0o100644, 1, 0, "TRAILER!!!", b"x");
    let bytes = write_archive(&CpioArchive { entries: vec![t] });
    // The written "TRAILER!!!" entry with one data byte ends at 128.
    let cut = &bytes[..125];
    assert_eq!(parse_archive(cut).unwrap_err(), CpioError::DataOutOfBounds { offset: 0 });
    assert_eq!(scan_archive_end(cut), Err(CpioError::DataOutOfBounds { offset: 0 }));
    let (parsed, end) = parse_archive(&bytes[..128]).unwrap();
    assert_eq!(end, 128);
    assert!(parsed.entries.is_empty());
}
