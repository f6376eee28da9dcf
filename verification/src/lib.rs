//! Inspection and manipulation of Linux initramfs images: concatenated
//! CPIO "newc" archives, each optionally compressed.

pub mod codec;
pub mod compression;
pub mod cpio;
pub mod extract;
pub mod hex;
pub mod info;
pub mod segment;
pub mod update;
