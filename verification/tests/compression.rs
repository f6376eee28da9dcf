use rdpal::compression::{compress, decompress, CodecError};
use rdpal::segment::Compression;

#[test]
fn compress_then_decompress_gives_data_back() {
    let data: Vec<u8> = (0..5000u32).map(|i| (i % 251) as u8).collect();
    for c in [Compression::Uncompressed, Compression::Gzip, Compression::Bzip2, Compression::Zstd] {
        let packed = compress(&data, c).unwrap();
        if c != Compression::Uncompressed {
            assert_ne!(packed, data, "{:?}", c);
        } else {
            assert_eq!(packed, data);
        }
        assert_eq!(decompress(&packed, c).unwrap(), data, "{:?}", c);
    }
}

#[test]
fn compressed_formats_carry_their_magic() {
    let data = b"hello hello hello".to_vec();
    assert_eq!(&compress(&data, Compression::Gzip).unwrap()[..2], &[0x1f, 0x8b]);
    assert_eq!(&compress(&data, Compression::Bzip2).unwrap()[..3], b"BZh");
    assert_eq!(&compress(&data, Compression::Zstd).unwrap()[..4], &[0x28, 0xb5, 0x2f, 0xfd]);
}

#[test]
fn decompress_garbage_fails() {
    for c in [Compression::Gzip, Compression::Bzip2, Compression::Zstd] {
        assert_eq!(decompress(b"not compressed", c).unwrap_err(), CodecError::Decompress(c));
    }
}
