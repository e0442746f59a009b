//! A single-file, crash-safe virtual file system.
//!
//! All state — the directory namespace, per-inode metadata, and file
//! contents — lives in one backing byte store: a fixed 24-byte header
//! followed by an append-only log of framed, CRC-protected records.
//! Mounting replays the log (optionally from the latest checkpoint) to
//! rebuild the in-memory inode table and child index; file reads overlay
//! extents recorded by earlier writes, newest first.

pub mod file_ops;
pub mod listing;
pub mod no_sql;
pub mod storage;
pub mod structs;
pub mod vfs;

pub use structs::{DirEntry, Metadata, NodeKind, Timestamp, VfsError};
pub use vfs::{ReadDir, Vfs};
