//! DEFLATE compression and decompression, with a minimal ZIP container.
//!
//! Compression: the matcher of [`lz77`] finds back-references in a window of
//! 32 KiB, and the writer of [`bitwriter`] puts literals and matches into one
//! block with the fixed Huffman codes of [`codes`]. Decompression: the reader
//! of [`bitreader`] decodes blocks with fixed and with dynamic Huffman codes,
//! the latter through the canonical tables of [`huffman`]. What a stream of
//! bits means is laid down in [`stream`], how bits lie in bytes in [`bits`].
//! [`codec`] offers both directions as functions from bytes to bytes,
//! [`roundtrip`] shows that the second undoes the first, and [`zip`] wraps a
//! compressed file into an archive with a single entry.

pub mod bits;
pub mod codes;
pub mod bitwriter;
pub mod lz77;
pub mod huffman;
pub mod stream;
pub mod bitreader;
pub mod roundtrip;
pub mod codec;
pub mod zip;
