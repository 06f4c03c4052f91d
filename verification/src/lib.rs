//! A lightweight embedded key-value store.
//!
//! A database is one image: two alternating Superblock pages, an immutable hash table (the
//! Base) and an append-only log of what was written since (the Overlay). The crate holds the
//! format, the recovery of an image, transactions, snapshots and compaction. It reads and
//! writes no files: [`database::Database`] is opened from the bytes of an image, and says
//! what to write.

pub mod bytes;
pub mod checksum;
pub mod database;
pub mod error;
pub mod ffi;
pub mod format;
pub mod hash;
pub mod key_map;
pub mod options;
pub mod promises;
pub mod room;
pub mod text;

pub use database::compaction::{BuiltBase, CompactPlan, Relocation};
pub use database::commit::FileCommit;
pub use database::entries::Entries;
pub use database::transaction::{ReadTransaction, ReservedValue, Snapshot, WriteTransaction};
pub use database::{Database, DatabaseStats};
pub use error::{Corruption, CorruptionKind, Error, ErrorKind, Result};
pub use options::{DatabaseOptions, VerificationMode};
pub use room::Room;
