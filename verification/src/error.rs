//! Errors of the store.
//!
//! An [`Error`] is specified through its view, [`ErrorView`], which holds the
//! same fields with every message as a sequence of characters. Contracts
//! throughout the crate name the exact error through the spec functions at the
//! top of this module.

use crate::text;
use crate::text::append_decimal;
use vstd::prelude::*;
use vstd::string::StringExecFns;

verus! {

/// The category of an underlying input/output failure.
#[derive(Clone, Copy, Debug, PartialEq, Eq, Structural)]
pub enum ErrorKind {
    NotFound,
    PermissionDenied,
    ConnectionRefused,
    ConnectionReset,
    AddrInUse,
    AlreadyExists,
    WouldBlock,
    NotADirectory,
    IsADirectory,
    DirectoryNotEmpty,
    ReadOnlyFilesystem,
    InvalidInput,
    InvalidData,
    TimedOut,
    WriteZero,
    StorageFull,
    QuotaExceeded,
    FileTooLarge,
    ResourceBusy,
    Deadlock,
    Interrupted,
    Unsupported,
    UnexpectedEof,
    OutOfMemory,
    BrokenPipe,
    Other,
}

/// An input/output failure: its category and its message.
#[derive(Debug)]
pub struct IoError {
    kind: ErrorKind,
    message: String,
}

/// The view of an [`IoError`].
pub struct IoErrorView {
    pub kind: ErrorKind,
    pub message: Seq<char>,
}

impl View for IoError {
    type V = IoErrorView;

    closed spec fn view(&self) -> IoErrorView {
        IoErrorView { kind: self.kind, message: self.message@ }
    }
}

impl IoError {
    /// A failure of category `kind`.
    pub fn new(kind: ErrorKind, message: &str) -> (error: Self)
        ensures
            error@ == (IoErrorView { kind, message: message@ }),
    {
        IoError { kind, message: String::from_str(message) }
    }

    /// The category of the failure.
    pub fn kind(&self) -> (kind: ErrorKind)
        ensures
            kind == self@.kind,
    {
        self.kind
    }

    /// The message of the failure.
    pub fn message(&self) -> (message: &str)
        ensures
            message@ == self@.message,
    {
        self.message.as_str()
    }
}

/// The class of integrity failure that was detected.
#[derive(Clone, Copy, Debug, PartialEq, Eq, Structural)]
#[non_exhaustive]
pub enum CorruptionKind {
    Structure,
    MetadataChecksum,
    BlockChecksum,
    LogChecksum,
}

/// Location and category of a database integrity failure.
#[derive(Debug)]
pub struct Corruption {
    kind: CorruptionKind,
    segment_offset: Option<u64>,
    block_index: Option<u64>,
    message: String,
}

/// The view of a [`Corruption`].
pub struct CorruptionView {
    pub kind: CorruptionKind,
    pub segment_offset: Option<u64>,
    pub block_index: Option<u64>,
    pub message: Seq<char>,
}

impl View for Corruption {
    type V = CorruptionView;

    closed spec fn view(&self) -> CorruptionView {
        CorruptionView {
            kind: self.kind,
            segment_offset: self.segment_offset,
            block_index: self.block_index,
            message: self.message@,
        }
    }
}

impl Corruption {
    /// The class of the failure.
    pub fn kind(&self) -> (kind: CorruptionKind)
        ensures
            kind == self@.kind,
    {
        self.kind
    }

    /// The offset of the damaged segment or log record, where it is known.
    pub fn segment_offset(&self) -> (offset: Option<u64>)
        ensures
            offset == self@.segment_offset,
    {
        self.segment_offset
    }

    /// The damaged checksum block, where it is known.
    pub fn block_index(&self) -> (index: Option<u64>)
        ensures
            index == self@.block_index,
    {
        self.block_index
    }

    /// What was found damaged.
    pub fn message(&self) -> (message: &str)
        ensures
            message@ == self@.message,
    {
        self.message.as_str()
    }
}

/// Errors returned by the store.
#[derive(Debug)]
pub enum Error {
    /// The database file is malformed or failed an integrity check.
    Corrupted(Corruption),
    /// Another process or handle already owns the database writer lock.
    DatabaseAlreadyOpen(IoError),
    /// The file format or requested operation is unsupported.
    Unsupported(IoError),
    /// A key, value, batch, or option is invalid.
    InvalidArgument(IoError),
    /// The configured maximum database size would be exceeded.
    DatabaseFull(IoError),
    /// The active Overlay exceeded its configured memory limit. Compact
    /// the database before starting another write transaction.
    MaintenanceRequired { limit: usize, actual: usize },
    /// A previous write-path I/O failure left this handle unsafe for more writes.
    Poisoned,
    /// An underlying filesystem operation failed.
    Io(IoError),
}

/// Result type of the store.
pub type Result<T> = std::result::Result<T, Error>;

/// The view of an [`Error`].
pub enum ErrorView {
    Corrupted(CorruptionView),
    DatabaseAlreadyOpen(IoErrorView),
    Unsupported(IoErrorView),
    InvalidArgument(IoErrorView),
    DatabaseFull(IoErrorView),
    MaintenanceRequired { limit: usize, actual: usize },
    Poisoned,
    Io(IoErrorView),
}

impl View for Error {
    type V = ErrorView;

    open spec fn view(&self) -> ErrorView {
        match *self {
            Error::Corrupted(corruption) => ErrorView::Corrupted(corruption@),
            Error::DatabaseAlreadyOpen(error) => ErrorView::DatabaseAlreadyOpen(error@),
            Error::Unsupported(error) => ErrorView::Unsupported(error@),
            Error::InvalidArgument(error) => ErrorView::InvalidArgument(error@),
            Error::DatabaseFull(error) => ErrorView::DatabaseFull(error@),
            Error::MaintenanceRequired { limit, actual } => ErrorView::MaintenanceRequired {
                limit,
                actual,
            },
            Error::Poisoned => ErrorView::Poisoned,
            Error::Io(error) => ErrorView::Io(error@),
        }
    }
}

/// A result with its error replaced by the error's view.
pub open spec fn outcome<T>(result: Result<T>) -> std::result::Result<T, ErrorView> {
    match result {
        Ok(value) => Ok(value),
        Err(error) => Err(error@),
    }
}

/// The error that an input/output failure turns into.
pub open spec fn io_error(kind: ErrorKind, message: Seq<char>) -> ErrorView {
    let error = IoErrorView { kind, message };
    match kind {
        ErrorKind::InvalidData => ErrorView::Corrupted(
            CorruptionView {
                kind: CorruptionKind::Structure,
                segment_offset: None,
                block_index: None,
                message,
            },
        ),
        ErrorKind::WouldBlock => ErrorView::DatabaseAlreadyOpen(error),
        ErrorKind::Unsupported => ErrorView::Unsupported(error),
        ErrorKind::InvalidInput => ErrorView::InvalidArgument(error),
        _ => ErrorView::Io(error),
    }
}

/// Input that the format or the options do not admit.
pub open spec fn invalid_input(message: Seq<char>) -> ErrorView {
    io_error(ErrorKind::InvalidInput, message)
}

/// Stored bytes that do not follow the format.
pub open spec fn invalid_data(message: Seq<char>) -> ErrorView {
    io_error(ErrorKind::InvalidData, message)
}

/// An allocation that could not be made.
pub open spec fn out_of_memory(message: Seq<char>) -> ErrorView {
    io_error(ErrorKind::OutOfMemory, message)
}

/// A failure without a more specific category.
pub open spec fn other_error(message: Seq<char>) -> ErrorView {
    io_error(ErrorKind::Other, message)
}

/// A structurally invalid Base.
pub open spec fn invalid_base(message: Seq<char>) -> ErrorView {
    invalid_data("invalid base: "@ + message)
}

/// A write that would exceed the configured database size.
pub open spec fn database_full(limit: u64, required: u64) -> ErrorView {
    ErrorView::DatabaseFull(
        IoErrorView {
            kind: ErrorKind::Other,
            message: "database size limit of "@ + text::decimal(limit as nat)
                + " bytes would be exceeded (requires "@ + text::decimal(required as nat) + " bytes)"@,
        },
    )
}

/// A checksum block whose contents do not match its stored checksum.
pub open spec fn corrupted_block(segment_offset: u64, block_index: u64) -> ErrorView {
    ErrorView::Corrupted(
        CorruptionView {
            kind: CorruptionKind::BlockChecksum,
            segment_offset: Some(segment_offset),
            block_index: Some(block_index),
            message: "block checksum mismatch at segment offset "@ + text::decimal(segment_offset as nat)
                + " block "@ + text::decimal(block_index as nat),
        },
    )
}

/// Checksum metadata that does not match its own checksum.
pub open spec fn corrupted_metadata(message: Seq<char>) -> ErrorView {
    ErrorView::Corrupted(
        CorruptionView {
            kind: CorruptionKind::MetadataChecksum,
            segment_offset: None,
            block_index: None,
            message,
        },
    )
}

/// A complete Overlay record at `offset` that failed a checksum; the message is
/// `prefix` followed by the offset.
pub open spec fn corrupted_log(offset: u64, prefix: Seq<char>) -> ErrorView {
    ErrorView::Corrupted(
        CorruptionView {
            kind: CorruptionKind::LogChecksum,
            segment_offset: Some(offset),
            block_index: None,
            message: prefix + text::decimal(offset as nat),
        },
    )
}

/// The category reported for an error.
pub open spec fn error_kind(error: ErrorView) -> ErrorKind {
    match error {
        ErrorView::Corrupted(_) => ErrorKind::InvalidData,
        ErrorView::DatabaseAlreadyOpen(error) => error.kind,
        ErrorView::Unsupported(error) => error.kind,
        ErrorView::InvalidArgument(error) => error.kind,
        ErrorView::DatabaseFull(error) => error.kind,
        ErrorView::MaintenanceRequired { .. } => ErrorKind::Other,
        ErrorView::Poisoned => ErrorKind::Other,
        ErrorView::Io(error) => error.kind,
    }
}

/// The text shown for an error.
pub open spec fn error_message(error: ErrorView) -> Seq<char> {
    match error {
        ErrorView::Corrupted(corruption) => corruption.message,
        ErrorView::DatabaseAlreadyOpen(error) => error.message,
        ErrorView::Unsupported(error) => error.message,
        ErrorView::InvalidArgument(error) => error.message,
        ErrorView::DatabaseFull(error) => error.message,
        ErrorView::MaintenanceRequired { limit, actual } => "overlay memory usage of "@ + text::decimal(
            actual as nat,
        ) + " bytes exceeds the "@ + text::decimal(limit as nat)
            + " byte limit; compact or vacuum before writing"@,
        ErrorView::Poisoned => "database is poisoned by a previous I/O failure; reopen it before writing"@,
        ErrorView::Io(error) => error.message,
    }
}

impl Error {
    /// Returns the underlying I/O error kind when one is available.
    pub fn kind(&self) -> (kind: ErrorKind)
        ensures
            kind == error_kind(self@),
    {
        match self {
            Error::Corrupted(_) => ErrorKind::InvalidData,
            Error::DatabaseAlreadyOpen(error) => error.kind,
            Error::Unsupported(error) => error.kind,
            Error::InvalidArgument(error) => error.kind,
            Error::DatabaseFull(error) => error.kind,
            Error::MaintenanceRequired { .. } => ErrorKind::Other,
            Error::Poisoned => ErrorKind::Other,
            Error::Io(error) => error.kind,
        }
    }

    /// Returns the text shown for this error.
    pub fn message(&self) -> (message: String)
        ensures
            message@ == error_message(self@),
    {
        match self {
            Error::Corrupted(corruption) => String::from_str(corruption.message()),
            Error::DatabaseAlreadyOpen(error) => String::from_str(error.message()),
            Error::Unsupported(error) => String::from_str(error.message()),
            Error::InvalidArgument(error) => String::from_str(error.message()),
            Error::DatabaseFull(error) => String::from_str(error.message()),
            Error::MaintenanceRequired { limit, actual } => {
                let mut message = String::from_str("overlay memory usage of ");
                append_decimal(&mut message, *actual as u64);
                message.append(" bytes exceeds the ");
                append_decimal(&mut message, *limit as u64);
                message.append(" byte limit; compact or vacuum before writing");
                message
            },
            Error::Poisoned => String::from_str(
                "database is poisoned by a previous I/O failure; reopen it before writing",
            ),
            Error::Io(error) => String::from_str(error.message()),
        }
    }

    /// Classifies an input/output failure.
    pub fn from_io(kind: ErrorKind, message: &str) -> (error: Self)
        ensures
            error@ == io_error(kind, message@),
    {
        let error = IoError::new(kind, message);
        match kind {
            ErrorKind::InvalidData => Error::Corrupted(
                Corruption {
                    kind: CorruptionKind::Structure,
                    segment_offset: None,
                    block_index: None,
                    message: error.message,
                },
            ),
            ErrorKind::WouldBlock => Error::DatabaseAlreadyOpen(error),
            ErrorKind::Unsupported => Error::Unsupported(error),
            ErrorKind::InvalidInput => Error::InvalidArgument(error),
            _ => Error::Io(error),
        }
    }

    /// A failure without a more specific category.
    pub fn other(message: &str) -> (error: Self)
        ensures
            error@ == other_error(message@),
    {
        Error::from_io(ErrorKind::Other, message)
    }

    /// A write of `required` bytes in all that would exceed the limit.
    pub fn database_full(limit: u64, required: u64) -> (error: Self)
        ensures
            error@ == database_full(limit, required),
    {
        let mut message = String::from_str("database size limit of ");
        append_decimal(&mut message, limit);
        message.append(" bytes would be exceeded (requires ");
        append_decimal(&mut message, required);
        message.append(" bytes)");
        Error::DatabaseFull(IoError { kind: ErrorKind::Other, message })
    }

    /// A checksum block that does not match its stored checksum.
    pub fn corrupted_block(segment_offset: u64, block_index: u64) -> (error: Self)
        ensures
            error@ == corrupted_block(segment_offset, block_index),
    {
        let mut message = String::from_str("block checksum mismatch at segment offset ");
        append_decimal(&mut message, segment_offset);
        message.append(" block ");
        append_decimal(&mut message, block_index);
        Error::Corrupted(
            Corruption {
                kind: CorruptionKind::BlockChecksum,
                segment_offset: Some(segment_offset),
                block_index: Some(block_index),
                message,
            },
        )
    }

    /// Checksum metadata that does not match its own checksum.
    pub fn corrupted_metadata(message: &str) -> (error: Self)
        ensures
            error@ == corrupted_metadata(message@),
    {
        Error::Corrupted(
            Corruption {
                kind: CorruptionKind::MetadataChecksum,
                segment_offset: None,
                block_index: None,
                message: String::from_str(message),
            },
        )
    }

    /// A complete log record at `offset` that failed a checksum. The message is
    /// `prefix` followed by the offset.
    pub fn corrupted_log(offset: u64, prefix: &str) -> (error: Self)
        ensures
            error@ == corrupted_log(offset, prefix@),
    {
        let mut message = String::from_str(prefix);
        append_decimal(&mut message, offset);
        Error::Corrupted(
            Corruption {
                kind: CorruptionKind::LogChecksum,
                segment_offset: Some(offset),
                block_index: None,
                message,
            },
        )
    }

    /// A structurally invalid Base.
    pub fn invalid_base(message: &str) -> (error: Self)
        ensures
            error@ == invalid_base(message@),
    {
        let mut full = String::from_str("invalid base: ");
        full.append(message);
        Error::from_io(ErrorKind::InvalidData, full.as_str())
    }
}

} // verus!
