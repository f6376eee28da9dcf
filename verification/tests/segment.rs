use rdpal::compression::{compress, decompress};
use rdpal::cpio::{write_archive, CpioArchive, CpioEntry};
use rdpal::segment::{detect_compression, split_segments, Compression, SegmentError, SizeError};

#[test]
fn detect_cpio() {
    assert_eq!(detect_compression(b"070701"), Some(Compression::Uncompressed));
}

#[test]
fn detect_gzip() {
    assert_eq!(detect_compression(&[0x1f, 0x8b, 0x08]), Some(Compression::Gzip));
}

#[test]
fn detect_bzip2() {
    assert_eq!(detect_compression(b"BZh9"), Some(Compression::Bzip2));
}

#[test]
fn detect_zstd() {
    assert_eq!(detect_compression(&[0x28, 0xb5, 0x2f, 0xfd]), Some(Compression::Zstd));
}

#[test]
fn detect_unknown_and_short() {
    assert_eq!(detect_compression(b""), None);
    assert_eq!(detect_compression(b"07070"), None);
    assert_eq!(detect_compression(&[0x1f]), None);
    assert_eq!(detect_compression(b"BZ"), None);
    assert_eq!(detect_compression(&[0x28, 0xb5, 0x2f]), None);
    assert_eq!(detect_compression(b"hello"), None);
}

#[test]
fn parse_compression_str() {
    assert_eq!("gzip".parse::<Compression>().unwrap(), Compression::Gzip);
    assert_eq!("bz2".parse::<Compression>().unwrap(), Compression::Bzip2);
    assert_eq!("zstd".parse::<Compression>().unwrap(), Compression::Zstd);
    assert_eq!("none".parse::<Compression>().unwrap(), Compression::Uncompressed);
}

#[test]
fn compression_names_and_aliases() {
    for c in [Compression::Uncompressed, Compression::Gzip, Compression::Bzip2, Compression::Zstd] {
        assert_eq!(Compression::from_name(c.name()).unwrap(), c);
    }
    assert_eq!(Compression::Uncompressed.name(), "none");
    assert_eq!(Compression::Bzip2.name(), "bzip2");
    assert_eq!(Compression::from_name("GZ").unwrap(), Compression::Gzip);
    assert_eq!(Compression::from_name("ZsT").unwrap(), Compression::Zstd);
    assert_eq!(Compression::from_name("BZIP2").unwrap(), Compression::Bzip2);
    let err = Compression::from_name("lzma").unwrap_err();
    assert_eq!(err.name, "lzma");
    assert!(Compression::from_name("gzip ").is_err());
}

fn archive(name: &str, data: &[u8]) -> Vec<u8> {
    write_archive(&CpioArchive {
        entries: vec![CpioEntry {
            ino: 0,
            mode: 0o100644,
            uid: 0,
            gid: 0,
            nlink: 1,
            mtime: 0,
            devmajor: 0,
            devminor: 0,
            rdevmajor: 0,
            rdevminor: 0,
            name: name.to_string(),
            data: data.to_vec(),
        }],
    })
}

#[test]
fn split_uncompressed_segments_with_padding() {
    let a = archive("a", b"first");
    let b = archive("b", b"second");
    let mut image = a.clone();
    image.resize(512, 0);
    image.extend_from_slice(&b);
    image.extend_from_slice(&[0; 100]);
    let segs = split_segments(&image).unwrap();
    assert_eq!(segs.len(), 2);
    assert_eq!(segs[0].offset, 0);
    assert_eq!(segs[0].data, a);
    assert_eq!(segs[0].compression, Compression::Uncompressed);
    assert_eq!(segs[1].offset, 512);
    assert_eq!(segs[1].data, b);
}

#[test]
fn split_empty_and_zero_only() {
    assert!(split_segments(b"").unwrap().is_empty());
    assert!(split_segments(&[0u8; 64]).unwrap().is_empty());
}

#[test]
fn split_compressed_segments_find_exact_ends() {
    let a = archive("a", b"first archive");
    let b = archive("b", b"second archive");
    for c in [Compression::Gzip, Compression::Bzip2, Compression::Zstd] {
        let packed = compress(&a, c).unwrap();
        let mut image = packed.clone();
        image.extend_from_slice(&[0; 3]);
        image.extend_from_slice(&b);
        let segs = split_segments(&image).unwrap();
        assert_eq!(segs.len(), 2, "{:?}", c);
        assert_eq!(segs[0].compression, c);
        assert_eq!(segs[0].data, packed, "{:?}", c);
        assert_eq!(decompress(&segs[0].data, c).unwrap(), a);
        assert_eq!(segs[1].offset, packed.len() + 3);
        assert_eq!(segs[1].data, b);
    }
}

#[test]
fn split_unknown_format() {
    let mut image = archive("a", b"x");
    let end = image.len();
    image.extend_from_slice(b"\0\0\0\0junk");
    assert_eq!(split_segments(&image).unwrap_err(), SegmentError::UnknownFormat { offset: end + 4 });
}

#[test]
fn split_keeps_unreadable_archive_to_the_end() {
    // a CPIO magic followed by a header that the scanner cannot read
    let mut image = b"070701".to_vec();
    image.extend_from_slice(&[b'Z'; 150]);
    let segs = split_segments(&image).unwrap();
    assert_eq!(segs.len(), 1);
    assert_eq!(segs[0].data.len(), image.len());
}

#[test]
fn split_gzip_errors() {
    assert_eq!(
        split_segments(&[0x1f, 0x8b, 8, 0]).unwrap_err(),
        SegmentError::Size { offset: 0, error: SizeError::GzipTooShort }
    );
    // FNAME flag with a name that never ends
    let mut header = vec![0x1f, 0x8b, 8, 8, 0, 0, 0, 0, 0, 3];
    header.extend_from_slice(b"name");
    assert_eq!(
        split_segments(&header).unwrap_err(),
        SegmentError::Size { offset: 0, error: SizeError::GzipHeaderOverrun }
    );
    // a header followed by bytes that are no deflate stream
    let mut bad = vec![0x1f, 0x8b, 8, 0, 0, 0, 0, 0, 0, 3];
    bad.extend_from_slice(&[0xff; 4]);
    assert_eq!(
        split_segments(&bad).unwrap_err(),
        SegmentError::Size { offset: 0, error: SizeError::Deflate }
    );
}

#[test]
fn split_gzip_member_without_footer_overruns() {
    let packed = compress(&archive("a", b"x"), Compression::Gzip).unwrap();
    let cut = &packed[..packed.len() - 8];
    assert_eq!(split_segments(cut).unwrap_err(), SegmentError::SegmentOverrun { offset: 0 });
}

#[test]
fn split_archive_with_empty_name_is_an_error() {
    let mut image = archive("a", b"");
    image[94..102].copy_from_slice(b"00000000");
    assert_eq!(split_segments(&image).unwrap_err(), SegmentError::EmptyName { offset: 0 });
}

#[test]
fn split_keeps_archive_with_cut_trailer_padding() {
    let empty = write_archive(&CpioArchive { entries: vec![] });
    let cut = empty[..121].to_vec();
    let segs = split_segments(&cut).unwrap();
    assert_eq!(segs.len(), 1);
    assert_eq!(segs[0].offset, 0);
    assert_eq!(segs[0].data, cut);
    assert_eq!(segs[0].compression, Compression::Uncompressed);
}
