//! A GZIP compressor built around a verified DEFLATE encoder (RFC 1951).
//!
//! The input goes through an LZ77 stage (`lz77`, on the ring buffers of
//! `circular_buf`), whose symbols (`symbol`) are Huffman coded block by
//! block (`huffman`, `block`, `dynamic`) into a bit stream (`bits`) by the
//! driver (`deflate`); `gzip` wraps the result. `inflate` specifies what a
//! decoder makes of a stream, and proves that it gives back the input.

pub mod bits;
pub mod circular_buf;
pub mod symbol;
pub mod lz77;
pub mod huffman;
pub mod block;
pub mod dynamic;
pub mod deflate;
pub mod inflate;
pub mod gzip;
pub mod error;
