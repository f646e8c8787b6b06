//! A log-structured key-value store: an append-only record log addressed by
//! byte offsets, an in-memory index from keys to offsets, and a write-ahead log
//! that stages transactions and is replayed on recovery.
//!
//! The library works on the byte images of the two logs; the program around it
//! mirrors those images to files.
pub mod codec;
pub mod index;
pub mod error;
pub mod segment;
pub mod storage;
pub mod laws;
