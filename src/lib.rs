//! Chunk-level deduplicating, compressing archiver.
//!
//! Files are cut into fixed-size chunks, each chunk is identified by a
//! 16-byte content digest, and every distinct chunk is compressed and stored
//! once. The archive is a header, a chunk table and a file table; reading it
//! back rebuilds each file from its ordered digest list.
pub mod errors;
pub mod header;
pub mod chunk;
pub mod format;
pub mod writer;
pub mod reader;
pub mod roundtrip;
pub mod cli;
