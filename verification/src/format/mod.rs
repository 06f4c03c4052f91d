//! The on-disk format: Superblock pages, immutable Base segments and the Overlay
//! log.

pub mod buffer;
pub mod index;
pub mod log;
pub mod lookup;
pub mod power;
pub mod records;
pub mod segment;
pub mod superblock;
pub mod validate;
pub mod writer;

pub use crate::bytes::{u32_at, u64_at};
