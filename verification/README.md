# rdpal

A library and command-line tool for Linux initramfs images: one or more
CPIO "newc" archives laid end to end, each optionally compressed with gzip,
bzip2 or zstd. The library is written in Verus; every function in `src/`
carries a contract that Verus proves.

## Layout

- `src/hex.rs` — the eight-digit hexadecimal header fields, read and written.
- `src/cpio.rs` — entries, the parser, the end-of-archive scanner and the
  writer, with a byte-level model of the format. Writing then parsing gives
  the entries back (`lemma_write_parse_roundtrip`), and the scanner ends
  where the parser ends (`lemma_scan_agrees_with_parse`).
- `src/segment.rs` — format detection by magic bytes, the extent of each
  compressed stream, and splitting an image into its segments.
- `src/compression.rs`, `src/codec.rs` — whole-buffer compression and
  decompression; `codec.rs` holds the trusted calls into flate2, bzip2 and
  zstd.
- `src/update.rs` — laying an image out again with one segment replaced or
  inserted (512-byte aligned), and building an archive from the items of a
  directory tree. An image laid out from written archives splits back into
  them (`lemma_split_joined_archives`).
- `src/extract.rs` — what extraction does with each entry given the
  process's privileges (entries whose names are absolute or contain a
  `..` component are skipped, so nothing lands outside the destination by
  its name), and reading those privileges from `/proc/self/status` text.
- `src/info.rs` — the rows of the `info` listing.
- `app/main.rs` — the command line: file reading and writing, the directory
  walk, node creation, printing.

## Usage

```
rdpal <file> info [--verbose]
rdpal <file> extract --index <N> --dest <directory>
rdpal <file> update --index <N> --source <directory> --compression <type> [--output <file>]
```
