//! The C interface, without the pointers: status codes, options, statistics, write batches,
//! and what is handed out for a value.

use crate::bytes;
use crate::bytes::{copy_bytes, copy_into};
use crate::database::commit;
use crate::database::live;
use crate::database::replay;
use crate::database::transaction;
use crate::database::transaction::WriteTransaction;
use crate::database::{Database, DatabaseStats, HandleState};
use crate::error;
use crate::error::{Error, ErrorView};
use crate::format::segment;
use crate::key_map::KeyMap;
use crate::options::{DatabaseOptions, VerificationMode};
use crate::room::Room;
use crate::text;
use crate::text::append_decimal;
use vstd::prelude::*;
use vstd::string::StringExecFns;

verus! {

#[allow(non_camel_case_types)]
pub type lkv_status = i32;

pub const LKV_OK: i32 = 0;

pub const LKV_NOT_FOUND: i32 = 1;

pub const LKV_BUFFER_TOO_SMALL: i32 = 2;

pub const LKV_INVALID_ARGUMENT: i32 = 3;

pub const LKV_IO_ERROR: i32 = 4;

pub const LKV_CORRUPTED: i32 = 5;

pub const LKV_UNSUPPORTED: i32 = 6;

pub const LKV_BUSY: i32 = 7;

pub const LKV_DATABASE_FULL: i32 = 8;

pub const LKV_MAINTENANCE_REQUIRED: i32 = 9;

pub const LKV_POISONED: i32 = 10;

pub const LKV_PANIC: i32 = 255;

pub const LKV_VERIFICATION_ON_READ: u32 = 0;

pub const LKV_VERIFICATION_FULL: u32 = 1;

/// The version of the interface.
pub const LKV_VERSION: u32 = 1;

/// Options as they cross the interface.
#[allow(non_camel_case_types)]
#[derive(Clone, Copy, Debug, PartialEq, Eq, Structural)]
pub struct lkv_options {
    pub verification: u32,
    pub overlay_memory_limit: usize,
    pub max_database_bytes: u64,
}

/// Statistics as they cross the interface.
#[allow(non_camel_case_types)]
#[derive(Clone, Copy, Debug, PartialEq, Eq, Structural)]
pub struct lkv_database_stats {
    pub storage_bytes: u64,
    pub base_bytes: u64,
    pub base_entries: usize,
    pub overlay_entries: usize,
    pub overlay_log_bytes: u64,
    pub overlay_memory_bytes: usize,
    pub stale_bytes: u64,
    pub generation: u64,
}

/// A failure as it crosses the interface: a status code, and a message unless the status says
/// it all.
#[derive(Debug)]
pub struct FfiError {
    pub status: i32,
    pub message: Option<String>,
}

/// The view of an [`FfiError`].
pub struct FfiErrorView {
    pub status: i32,
    pub message: Option<Seq<char>>,
}

impl View for FfiError {
    type V = FfiErrorView;

    open spec fn view(&self) -> FfiErrorView {
        FfiErrorView {
            status: self.status,
            message: match self.message {
                Some(message) => Some(message@),
                None => None,
            },
        }
    }
}

/// Result type of the interface.
pub type FfiResult<T> = Result<T, FfiError>;

/// A result with its error replaced by the error's view.
pub open spec fn outcome<T>(result: FfiResult<T>) -> Result<T, FfiErrorView> {
    match result {
        Ok(value) => Ok(value),
        Err(error) => Err(error@),
    }
}

/// A failure with a message.
pub open spec fn failure(status: i32, message: Seq<char>) -> FfiErrorView {
    FfiErrorView { status, message: Some(message) }
}

/// A failure that its status code describes.
pub open spec fn control(status: i32) -> FfiErrorView {
    FfiErrorView { status, message: None }
}

/// The status code of an error.
pub open spec fn error_status(error: ErrorView) -> i32 {
    match error {
        ErrorView::Corrupted(_) => LKV_CORRUPTED,
        ErrorView::DatabaseAlreadyOpen(_) => LKV_BUSY,
        ErrorView::Unsupported(_) => LKV_UNSUPPORTED,
        ErrorView::InvalidArgument(_) => LKV_INVALID_ARGUMENT,
        ErrorView::DatabaseFull(_) => LKV_DATABASE_FULL,
        ErrorView::MaintenanceRequired { .. } => LKV_MAINTENANCE_REQUIRED,
        ErrorView::Poisoned => LKV_POISONED,
        ErrorView::Io(_) => LKV_IO_ERROR,
    }
}

/// How an error of the store crosses the interface.
pub open spec fn from_store(error: ErrorView) -> FfiErrorView {
    failure(error_status(error), error::error_message(error))
}

impl FfiError {
    /// A failure with a message.
    pub fn new(status: i32, message: &str) -> (error: Self)
        ensures
            error@ == failure(status, message@),
    {
        FfiError { status, message: Some(String::from_str(message)) }
    }

    /// A failure that its status code describes.
    pub fn control(status: i32) -> (error: Self)
        ensures
            error@ == control(status),
    {
        FfiError { status, message: None }
    }

    /// An error of the store.
    pub fn from_error(error: &Error) -> (converted: Self)
        ensures
            converted@ == from_store(error@),
    {
        let status: i32 = match error {
            Error::Corrupted(_) => LKV_CORRUPTED,
            Error::DatabaseAlreadyOpen(_) => LKV_BUSY,
            Error::Unsupported(_) => LKV_UNSUPPORTED,
            Error::InvalidArgument(_) => LKV_INVALID_ARGUMENT,
            Error::DatabaseFull(_) => LKV_DATABASE_FULL,
            Error::MaintenanceRequired { .. } => LKV_MAINTENANCE_REQUIRED,
            Error::Poisoned => LKV_POISONED,
            Error::Io(_) => LKV_IO_ERROR,
        };
        FfiError { status, message: Some(error.message()) }
    }

    /// A pointer that is missing.
    pub fn null_argument(name: &str) -> (error: Self)
        ensures
            error@ == failure(LKV_INVALID_ARGUMENT, name@ + " must not be NULL"@),
    {
        let mut message = String::from_str(name);
        message.append(" must not be NULL");
        FfiError { status: LKV_INVALID_ARGUMENT, message: Some(message) }
    }

    /// A pointer to bytes that is missing.
    pub fn null_bytes(name: &str) -> (error: Self)
        ensures
            error@ == failure(
                LKV_INVALID_ARGUMENT,
                name@ + " must not be NULL when its length is non-zero"@,
            ),
    {
        let mut message = String::from_str(name);
        message.append(" must not be NULL when its length is non-zero");
        FfiError { status: LKV_INVALID_ARGUMENT, message: Some(message) }
    }
}

/// Bytes in which each zero is replaced by a backslash and the digit zero.
pub open spec fn escaped(text: Seq<u8>) -> Seq<u8>
    decreases text.len(),
{
    if text.len() == 0 {
        Seq::empty()
    } else if text.last() == 0 {
        escaped(text.drop_last()) + seq![0x5cu8, 0x30u8]
    } else {
        escaped(text.drop_last()).push(text.last())
    }
}

/// A message as a C string: without zeros inside, and with one at the end.
pub fn c_message(message: &[u8]) -> (text: Vec<u8>)
    ensures
        text@ == escaped(message@).push(0),
{
    let mut text: Vec<u8> = Vec::new();
    let mut i: usize = 0;
    assert(message@.len() == message.len());
    assert(message@.take(0) =~= Seq::empty());
    while i < message.len()
        invariant
            i <= message@.len(),
            message@.len() == message.len(),
            text@ == escaped(message@.take(i as int)),
        decreases message@.len() - i,
    {
        let byte: u8 = message[i];
        assert(message@.take(i + 1).drop_last() =~= message@.take(i as int));
        if byte == 0 {
            text.push(0x5c);
            text.push(0x30);
            assert(text@ =~= escaped(message@.take(i as int)) + seq![0x5cu8, 0x30u8]);
        } else {
            text.push(byte);
        }
        i += 1;
    }
    assert(message@.take(i as int) =~= message@);
    text.push(0);
    text
}

/// No byte of an escaped message ends a C string early.
pub proof fn law_escaped_message_has_no_zero(message: Seq<u8>)
    ensures
        forall|i: int| 0 <= i < escaped(message).len() ==> #[trigger] escaped(message)[i] != 0,
    decreases message.len(),
{
    if message.len() > 0 {
        let shorter = escaped(message.drop_last());
        law_escaped_message_has_no_zero(message.drop_last());
        let all = escaped(message);
        assert forall|i: int| 0 <= i < all.len() implies #[trigger] all[i] != 0 by {
            if i < shorter.len() {
                assert(all[i] == shorter[i]);
            }
        }
    }
}

/// The options with which a database is opened by default.
pub fn options_init() -> (options: lkv_options)
    ensures
        options == (lkv_options {
            verification: LKV_VERIFICATION_ON_READ,
            overlay_memory_limit: 0x400_0000,
            max_database_bytes: 0x100_0000_0000,
        }),
        decoded_options(Some(options)) == decoded_options(None),
{
    let defaults = DatabaseOptions::default();
    lkv_options {
        verification: LKV_VERIFICATION_ON_READ,
        overlay_memory_limit: defaults.overlay_memory_limit,
        max_database_bytes: defaults.max_database_bytes,
    }
}

/// The options that cross the interface. Without options there are the defaults.
pub open spec fn decoded_options(options: Option<lkv_options>) -> Result<
    DatabaseOptions,
    FfiErrorView,
> {
    match options {
        None => Ok(
            DatabaseOptions {
                verification: VerificationMode::OnRead,
                max_database_bytes: 0x100_0000_0000,
                overlay_memory_limit: 0x400_0000,
                room: Room::Ask,
            },
        ),
        Some(options) => {
            let decoded = DatabaseOptions {
                verification: if options.verification == LKV_VERIFICATION_FULL {
                    VerificationMode::Full
                } else {
                    VerificationMode::OnRead
                },
                max_database_bytes: options.max_database_bytes,
                overlay_memory_limit: options.overlay_memory_limit,
                room: Room::Ask,
            };
            if options.verification == LKV_VERIFICATION_ON_READ || options.verification
                == LKV_VERIFICATION_FULL {
                Ok(decoded)
            } else {
                Err(
                    failure(
                        LKV_INVALID_ARGUMENT,
                        "unknown verification mode "@ + text::decimal(options.verification as nat),
                    ),
                )
            }
        },
    }
}

/// Decodes options that crossed the interface.
pub fn decode_options(options: Option<lkv_options>) -> (result: FfiResult<DatabaseOptions>)
    ensures
        outcome(result) == decoded_options(options),
{
    let options = match options {
        Some(options) => options,
        None => {
            return Ok(DatabaseOptions::default());
        },
    };
    let verification = if options.verification == LKV_VERIFICATION_ON_READ {
        VerificationMode::OnRead
    } else if options.verification == LKV_VERIFICATION_FULL {
        VerificationMode::Full
    } else {
        let mut message = String::from_str("unknown verification mode ");
        append_decimal(&mut message, options.verification as u64);
        return Err(FfiError { status: LKV_INVALID_ARGUMENT, message: Some(message) });
    };
    let decoded = DatabaseOptions::default().with_verification(
        verification,
    ).with_overlay_memory_limit(options.overlay_memory_limit).with_max_database_bytes(
        options.max_database_bytes,
    );
    Ok(decoded)
}

/// Statistics that are to cross the interface.
pub fn encode_stats(stats: DatabaseStats) -> (encoded: lkv_database_stats)
    ensures
        encoded == (lkv_database_stats {
            storage_bytes: stats.storage_bytes,
            base_bytes: stats.base_bytes,
            base_entries: stats.base_entries,
            overlay_entries: stats.overlay_entries,
            overlay_log_bytes: stats.overlay_log_bytes,
            overlay_memory_bytes: stats.overlay_memory_bytes,
            stale_bytes: stats.stale_bytes,
            generation: stats.generation,
        }),
{
    lkv_database_stats {
        storage_bytes: stats.storage_bytes,
        base_bytes: stats.base_bytes,
        base_entries: stats.base_entries,
        overlay_entries: stats.overlay_entries,
        overlay_log_bytes: stats.overlay_log_bytes,
        overlay_memory_bytes: stats.overlay_memory_bytes,
        stale_bytes: stats.stale_bytes,
        generation: stats.generation,
    }
}

/// Hands out a value in place. There is nothing to point at in an empty value.
pub fn borrow_value<'a>(value: Option<&'a [u8]>, len: &mut usize) -> (result: FfiResult<
    Option<&'a [u8]>,
>)
    ensures
        match value {
            None => *final(len) == 0 && outcome(result) == Err::<
                Option<&'a [u8]>,
                FfiErrorView,
            >(control(LKV_NOT_FOUND)),
            Some(value) => *final(len) == value@.len() && result == Ok::<
                Option<&'a [u8]>,
                FfiError,
            >(if value@.len() == 0 {
                None
            } else {
                Some(value)
            }),
        },
{
    *len = 0;
    let value = match value {
        Some(value) => value,
        None => {
            return Err(FfiError::control(LKV_NOT_FOUND));
        },
    };
    *len = value.len();
    assert(value@.len() == value.len());
    if value.len() == 0 {
        Ok(None)
    } else {
        Ok(Some(value))
    }
}

/// What copying a value to a place with room for `capacity` bytes gives.
pub open spec fn copied_value(value: Option<Seq<u8>>, is_null: bool, capacity: int) -> Result<
    (),
    FfiErrorView,
> {
    if is_null && capacity != 0 {
        Err(
            failure(
                LKV_INVALID_ARGUMENT,
                "value must not be NULL when value_capacity is non-zero"@,
            ),
        )
    } else {
        match value {
            None => Err(control(LKV_NOT_FOUND)),
            Some(value) => if capacity < value.len() {
                Err(control(LKV_BUFFER_TOO_SMALL))
            } else {
                Ok(())
            },
        }
    }
}

/// Copies a value to the start of `output`, which is as long as `capacity` says unless there
/// is no output. The length of the value is reported whether or not there is room for it;
/// without room nothing is copied.
pub fn copy_value(
    value: Option<&[u8]>,
    is_null: bool,
    output: &mut [u8],
    capacity: usize,
    len: &mut usize,
) -> (result: FfiResult<()>)
    requires
        !is_null ==> old(output)@.len() == capacity,
    ensures
        outcome(result) == copied_value(
            (match value {
                Some(value) => Some(value@),
                None => None,
            }),
            is_null,
            capacity as int,
        ),
        *final(len) == (match value {
            Some(value) => if is_null && capacity != 0 {
                0
            } else {
                value@.len()
            },
            None => 0,
        }),
        final(output)@ == (if result is Ok {
            bytes::overwritten(old(output)@, 0, (value->Some_0)@)
        } else {
            old(output)@
        }),
{
    *len = 0;
    if is_null && capacity != 0 {
        return Err(
            FfiError::new(
                LKV_INVALID_ARGUMENT,
                "value must not be NULL when value_capacity is non-zero",
            ),
        );
    }
    let value = match value {
        Some(value) => value,
        None => {
            return Err(FfiError::control(LKV_NOT_FOUND));
        },
    };
    assert(value@.len() == value.len());
    *len = value.len();
    if capacity < value.len() {
        return Err(FfiError::control(LKV_BUFFER_TOO_SMALL));
    }
    if value.len() == 0 {
        assert(bytes::overwritten(old(output)@, 0, value@) =~= old(output)@);
        return Ok(());
    }
    copy_into(output, 0, value);
    Ok(())
}

/// Mutations that are collected before they are committed together. The last one for a key
/// counts.
#[allow(non_camel_case_types)]
pub struct lkv_write_batch {
    entries: KeyMap<Option<Vec<u8>>>,
}

/// What an entry of a batch says.
pub open spec fn entry_view(entry: Option<Vec<u8>>) -> Option<Seq<u8>> {
    match entry {
        Some(value) => Some(value@),
        None => None,
    }
}

impl View for lkv_write_batch {
    type V = Map<Seq<u8>, Option<Seq<u8>>>;

    closed spec fn view(&self) -> Map<Seq<u8>, Option<Seq<u8>>> {
        Map::new(
            |key: Seq<u8>| self.entries@.contains_key(key),
            |key: Seq<u8>| entry_view(self.entries@[key]),
        )
    }
}

/// Whether what is said of a key can be staged.
pub open spec fn stage_outcome(key: Seq<u8>, value: Option<Seq<u8>>) -> Result<(), ErrorView> {
    match value {
        Some(value) => transaction::put_outcome(key.len() as int, value.len() as int),
        None => if segment::lengths_fit(key.len() as int, 0) {
            Ok(())
        } else {
            Err(segment::length_limit_error())
        },
    }
}

/// Whether staging what is said of a key reserves memory.
pub open spec fn stage_reserves(write: WriteTransaction<'_>, value: Option<Seq<u8>>) -> bool {
    match value {
        Some(value) => write.put_reserves(value.len() as int),
        None => false,
    }
}

/// The size of the value that is copied for what is said of a key.
pub open spec fn stage_size(value: Option<Seq<u8>>) -> int {
    match value {
        Some(value) => value.len() as int,
        None => 0,
    }
}

impl lkv_write_batch {
    pub closed spec fn wf(self) -> bool {
        self.entries.wf()
    }

    /// An empty batch.
    pub fn new() -> (batch: Self)
        ensures
            batch.wf(),
            batch@ == Map::<Seq<u8>, Option<Seq<u8>>>::empty(),
    {
        let batch = lkv_write_batch { entries: KeyMap::new() };
        assert(batch@ =~= Map::<Seq<u8>, Option<Seq<u8>>>::empty());
        batch
    }

    /// Forgets everything.
    pub fn clear(&mut self)
        ensures
            final(self).wf(),
            final(self)@ == Map::<Seq<u8>, Option<Seq<u8>>>::empty(),
    {
        self.entries = KeyMap::new();
        assert(self@ =~= Map::<Seq<u8>, Option<Seq<u8>>>::empty());
    }

    /// The number of keys.
    pub fn len(&self) -> (len: usize)
        requires
            self.wf(),
        ensures
            len == self@.dom().len(),
    {
        proof {
            self.entries.lemma_wf();
            assert(self@.dom() =~= self.entries@.dom());
        }
        self.entries.len()
    }

    /// Collects a value for a key.
    pub fn put(&mut self, key: &[u8], value: &[u8])
        requires
            old(self).wf(),
        ensures
            final(self).wf(),
            final(self)@ == old(self)@.insert(key@, Some(value@)),
    {
        self.entries.insert(copy_bytes(key), Some(copy_bytes(value)));
        assert(self@ =~= old(self)@.insert(key@, Some(value@)));
    }

    /// Collects the removal of a key.
    pub fn delete(&mut self, key: &[u8])
        requires
            old(self).wf(),
        ensures
            final(self).wf(),
            final(self)@ == old(self)@.insert(key@, None),
    {
        self.entries.insert(copy_bytes(key), None);
        assert(self@ =~= old(self)@.insert(key@, None));
    }

    /// Stages everything that was collected in a transaction. The first mutation that cannot
    /// be staged stops this.
    pub fn stage(&self, write: &mut WriteTransaction<'_>) -> (result: error::Result<()>)
        requires
            self.wf(),
            old(write).wf(),
        ensures
            final(write).wf(),
            final(write).target() == old(write).target(),
            match result {
                Ok(()) => {
                    &&& final(write).says() == old(write).says().union_prefer_right(self@)
                    &&& forall|key: Seq<u8>| #[trigger]
                        self@.contains_key(key) ==> stage_outcome(key, self@[key]) is Ok
                            && old(write).room().grants(
                            stage_reserves(*old(write), self@[key]),
                            stage_size(self@[key]),
                        )
                },
                Err(error) => {
                    ||| error@ == transaction::copy_error() && exists|key: Seq<u8>| #[trigger]
                        self@.contains_key(key) && old(write).room().may_refuse(
                            stage_reserves(*old(write), self@[key]),
                            stage_size(self@[key]),
                        )
                    ||| exists|key: Seq<u8>| #[trigger]
                        self@.contains_key(key) && stage_outcome(key, self@[key]) == Err::<
                            (),
                            ErrorView,
                        >(error@)
                },
            },
    {
        let mut i: usize = 0;
        let ghost keys = self.entries.keys();
        let ghost before = write.says();
        proof {
            self.entries.lemma_wf();
        }
        while i < self.entries.len()
            invariant
                i <= keys.len(),
                keys == self.entries.keys(),
                keys.no_duplicates(),
                keys.len() == self.entries.values().len(),
                self.wf(),
                self.entries.wf(),
                forall|j: int|
                    0 <= j < keys.len() ==> #[trigger] self.entries@.contains_pair(
                        keys[j],
                        self.entries.values()[j],
                    ),
                write.wf(),
                write.target() == old(write).target(),
                forall|key: Seq<u8>|
                    #![trigger write.says().contains_key(key)]
                    #![trigger write.says()[key]]
                    {
                        let done = keys.take(i as int).contains(key);
                        &&& write.says().contains_key(key) == (before.contains_key(key) || done)
                        &&& done ==> write.says()[key] == self@[key]
                        &&& !done ==> write.says()[key] == before[key]
                    },
                forall|j: int|
                    0 <= j < i ==> stage_outcome(#[trigger] keys[j], self@[keys[j]]) is Ok
                        && old(write).room().grants(
                        stage_reserves(*old(write), self@[keys[j]]),
                        stage_size(self@[keys[j]]),
                    ),
            decreases keys.len() - i,
        {
            let ghost now = write.says();
            let (key, entry) = self.entries.entry_at(i);
            proof {
                assert(self.entries@.contains_pair(keys[i as int], self.entries.values()[i as int]));
                assert(self@.contains_key(key@));
                assert(self@[key@] == entry_view(*entry));
            }
            let staged = match entry {
                Some(value) => write.put(key, value.as_slice()),
                None => write.delete(key),
            };
            match staged {
                Ok(()) => {},
                Err(error) => {
                    return Err(error);
                },
            }
            proof {
                assert(write.says() == now.insert(key@, self@[key@]));
                let less = keys.take(i as int);
                let more = keys.take(i + 1);
                assert(more =~= less.push(key@));
                assert forall|k: Seq<u8>| #[trigger] more.contains(k) == (less.contains(k) || k
                    == key@) by {
                    if less.contains(k) {
                        let j = less.index_of(k);
                        assert(more[j] == k);
                    }
                    assert(more[i as int] == key@);
                }
            }
            i += 1;
        }
        proof {
            assert(keys.take(i as int) =~= keys);
            let wanted = before.union_prefer_right(self@);
            assert forall|key: Seq<u8>| keys.contains(key) == #[trigger] self@.contains_key(key) by {
                if self@.contains_key(key) {
                    let j = self.entries.lemma_entry(key);
                    assert(keys[j] == key);
                }
                if keys.contains(key) {
                    let j = keys.index_of(key);
                    assert(self.entries@.contains_pair(keys[j], self.entries.values()[j]));
                }
            }
            assert(write.says() =~= wanted);
            assert forall|key: Seq<u8>| #[trigger] self@.contains_key(key) implies stage_outcome(
                key,
                self@[key],
            ) is Ok && old(write).room().grants(
                stage_reserves(*old(write), self@[key]),
                stage_size(self@[key]),
            ) by {
                let j = self.entries.lemma_entry(key);
                assert(keys[j] == key);
            }
        }
        Ok(())
    }
}

/// Whether operations are those of a batch, in some order.
pub open spec fn lists_batch(
    operations: Seq<(Seq<u8>, Option<Seq<u8>>)>,
    batch: Map<Seq<u8>, Option<Seq<u8>>>,
) -> bool {
    &&& operations.len() == batch.dom().len()
    &&& replay::apply_all(Map::empty(), operations) == batch
}

/// Whether `result` is what committing a batch to a database in memory gives.
pub open spec fn commits_batch(
    database: Database,
    batch: Map<Seq<u8>, Option<Seq<u8>>>,
    result: Result<(), FfiErrorView>,
) -> bool {
    let limit = database.settings().overlay_memory_limit;
    let actual = database.overlay_part().memory;
    if database.health() != HandleState::Healthy {
        result == Err::<(), FfiErrorView>(from_store(ErrorView::Poisoned))
    } else if actual > limit {
        result == Err::<(), FfiErrorView>(
            from_store(ErrorView::MaintenanceRequired { limit, actual }),
        )
    } else {
        ||| exists|key: Seq<u8>, error: ErrorView|
            batch.contains_key(key) && #[trigger] stage_outcome(key, batch[key]) == Err::<
                (),
                ErrorView,
            >(error) && result == Err::<(), FfiErrorView>(#[trigger] from_store(error))
        ||| batch == Map::<Seq<u8>, Option<Seq<u8>>>::empty() && result == Ok::<
            (),
            FfiErrorView,
        >(())
        ||| exists|operations: Seq<(Seq<u8>, Option<Seq<u8>>)>| #[trigger]
            lists_batch(operations, batch) && result == (match database.commit_check(operations) {
                Ok(_) => Ok::<(), FfiErrorView>(()),
                Err(error) => Err(from_store(error)),
            })
    }
}

/// Commits a batch to a database in memory, and forgets it once that succeeded.
pub fn commit_write_batch(database: &mut Database, batch: &mut lkv_write_batch) -> (result:
    FfiResult<()>)
    requires
        old(database).wf(),
        old(database).storage_part() is Memory,
        old(batch).wf(),
    ensures
        final(database).wf(),
        final(database).storage_part() is Memory,
        final(batch).wf(),
        commits_batch(*old(database), old(batch)@, outcome(result)),
        match result {
            Ok(()) => {
                &&& final(database).contents() == live::merged(
                    old(database).contents(),
                    old(batch)@,
                )
                &&& old(database).sound() ==> final(database).sound()
                &&& final(batch)@ == Map::<Seq<u8>, Option<Seq<u8>>>::empty()
                &&& forall|key: Seq<u8>| #[trigger]
                    old(batch)@.contains_key(key) ==> stage_outcome(key, old(batch)@[key]) is Ok
            },
            Err(_) => *final(database) == *old(database) && final(batch)@ == old(batch)@,
        },
{
    let mut write = match database.begin_write() {
        Ok(write) => write,
        Err(error) => {
            return Err(FfiError::from_error(&error));
        },
    };
    match batch.stage(&mut write) {
        Ok(()) => {},
        Err(error) => {
            write.abort();
            return Err(FfiError::from_error(&error));
        },
    }
    proof {
        assert(write.says() =~= batch@);
        write.lemma_mutations();
        let mutations = write.mutations();
        commit::lemma_apply_distinct(Map::empty(), mutations.keys(), mutations.values());
        assert(commit::said_after(Map::empty(), write.says()) =~= batch@);
        assert(lists_batch(commit::operations_of(mutations), batch@));
        if mutations.keys().len() == 0 {
            assert(batch@ =~= Map::<Seq<u8>, Option<Seq<u8>>>::empty());
        }
    }
    match write.commit() {
        Ok(()) => {},
        Err(error) => {
            return Err(FfiError::from_error(&error));
        },
    }
    batch.clear();
    Ok(())
}

} // verus!
