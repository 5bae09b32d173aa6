//! Reader for a sequential-block resource archive.
//!
//! An archive is a chain of self-describing blocks, each listing a set of
//! files and the offset of the next block.  The crate decodes the fixed
//! little-endian headers, runs each file's payload through the decode
//! pipeline (decryption, then decompression), and assembles the results into
//! a path-indexed file tree.  All decoding works on an in-memory byte slice;
//! opening and reading the underlying file is the caller's business.

pub mod codec;
pub mod decode;
pub mod filesystem;
pub mod loader;
