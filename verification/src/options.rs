//! Configuration of a database.

use crate::room::Room;
use vstd::prelude::*;

verus! {

/// Integrity work performed while opening a database.
#[derive(Clone, Copy, Debug, PartialEq, Eq, Structural)]
pub enum VerificationMode {
    /// Verify content checksums and the complete hash index before returning.
    Full,
    /// Open from trusted metadata, then check record bounds and immutable data blocks on first access.
    OnRead,
}

impl Default for VerificationMode {
    fn default() -> (mode: Self)
        ensures
            mode == VerificationMode::OnRead,
    {
        VerificationMode::OnRead
    }
}

/// Provides configuration options for the database.
#[derive(Clone, Copy, Debug, PartialEq, Eq, Structural)]
pub struct DatabaseOptions {
    /// Controls startup integrity verification.
    pub verification: VerificationMode,
    /// Maximum serialized size of the database.
    pub max_database_bytes: u64,
    /// Soft limit charged for keys and inline-sized values in the active overlay KeyDir.
    pub overlay_memory_limit: usize,
    /// Who answers when memory is reserved.
    pub room: Room,
}

impl DatabaseOptions {
    /// Selects the startup integrity verification.
    pub fn with_verification(self, verification: VerificationMode) -> (options: Self)
        ensures
            options == (DatabaseOptions { verification, ..self }),
    {
        DatabaseOptions { verification, ..self }
    }

    /// Limits the serialized size of the database.
    pub fn with_max_database_bytes(self, max_database_bytes: u64) -> (options: Self)
        ensures
            options == (DatabaseOptions { max_database_bytes, ..self }),
    {
        DatabaseOptions { max_database_bytes, ..self }
    }

    /// Selects who answers when memory is reserved.
    pub fn with_room(self, room: Room) -> (options: Self)
        ensures
            options == (DatabaseOptions { room, ..self }),
    {
        DatabaseOptions { room, ..self }
    }

    /// Sets the overlay memory above which a write transaction asks for maintenance.
    pub fn with_overlay_memory_limit(self, overlay_memory_limit: usize) -> (options: Self)
        ensures
            options == (DatabaseOptions { overlay_memory_limit, ..self }),
    {
        DatabaseOptions { overlay_memory_limit, ..self }
    }
}

impl Default for DatabaseOptions {
    fn default() -> (options: Self)
        ensures
            options == (DatabaseOptions {
                verification: VerificationMode::OnRead,
                max_database_bytes: 0x100_0000_0000,
                overlay_memory_limit: 0x400_0000,
                room: Room::Ask,
            }),
    {
        DatabaseOptions {
            verification: VerificationMode::OnRead,
            max_database_bytes: 0x100_0000_0000,
            overlay_memory_limit: 0x400_0000,
            room: Room::Ask,
        }
    }
}

} // verus!
