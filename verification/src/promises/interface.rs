//! What the C interface and the texts in it promise.

use crate::database::{Database, HandleState};
use crate::error::{CorruptionKind, Error, ErrorKind, ErrorView, Result};
use crate::ffi;
use crate::ffi::{
    borrow_value, c_message, commit_write_batch, copy_value, decode_options, lkv_options,
    lkv_write_batch, FfiError, FfiResult,
};
use crate::options::{DatabaseOptions, VerificationMode};
use crate::promises;
use crate::promises::writing;
use crate::room::Room;
use crate::text;
use crate::text::append_decimal;
use crate::WriteTransaction;
use vstd::prelude::*;

verus! {

/// Each kind of error has a status code of its own, and crosses the interface with its message.
pub proof fn law_status_codes(error: &Error, converted: FfiError)
    requires
        call_ensures(FfiError::from_error, (error,), converted),
    ensures
        converted.status == (match *error {
            Error::InvalidArgument(_) => 3i32,
            Error::Io(_) => 4i32,
            Error::Corrupted(_) => 5i32,
            Error::Unsupported(_) => 6i32,
            Error::DatabaseAlreadyOpen(_) => 7i32,
            Error::DatabaseFull(_) => 8i32,
            Error::MaintenanceRequired { .. } => 9i32,
            Error::Poisoned => 10i32,
        }),
        converted.message matches Some(message) && message@ == crate::error::error_message(error@),
{
}

/// The kind of an input or output error decides what error it turns into; its message stays.
pub proof fn law_error_kinds(kind: ErrorKind, message: &str, error: Error)
    requires
        call_ensures(Error::from_io, (kind, message), error),
    ensures
        kind == ErrorKind::InvalidData <==> error is Corrupted,
        kind == ErrorKind::WouldBlock <==> error is DatabaseAlreadyOpen,
        kind == ErrorKind::Unsupported <==> error is Unsupported,
        kind == ErrorKind::InvalidInput <==> error is InvalidArgument,
        !(error is DatabaseFull) && !(error is MaintenanceRequired) && !(error is Poisoned),
        crate::error::error_kind(error@) == kind,
        crate::error::error_message(error@) == message@,
{
}

/// A message crosses the interface with each zero replaced by a backslash and the digit zero,
/// every other byte as it is, and a zero at the end, which is the only one.
pub proof fn law_c_message(message: &[u8], text: Vec<u8>)
    requires
        call_ensures(c_message, (message,), text),
    ensures
        text@.len() > 0,
        text@.last() == 0,
        forall|i: int| 0 <= i < text@.len() - 1 ==> #[trigger] text@[i] != 0,
        (forall|i: int| 0 <= i < message@.len() ==> #[trigger] message@[i] != 0)
            ==> text@.drop_last() == message@,
{
    ffi::law_escaped_message_has_no_zero(message@);
    assert(text@.drop_last() =~= ffi::escaped(message@));
    if forall|i: int| 0 <= i < message@.len() ==> #[trigger] message@[i] != 0 {
        lemma_nothing_to_escape(message@);
    }
}

proof fn lemma_nothing_to_escape(message: Seq<u8>)
    requires
        forall|i: int| 0 <= i < message.len() ==> #[trigger] message[i] != 0,
    ensures
        ffi::escaped(message) == message,
    decreases message.len(),
{
    if message.len() > 0 {
        assert forall|i: int| 0 <= i < message.drop_last().len() implies #[trigger] message.drop_last()[i]
            != 0 by {
            assert(message[i] != 0);
        }
        lemma_nothing_to_escape(message.drop_last());
        assert(message.drop_last().push(message.last()) =~= message);
    }
}

/// Of two parts of a message each is escaped for itself.
pub proof fn law_escaped_parts(message: Seq<u8>, byte: u8)
    ensures
        ffi::escaped(Seq::empty()) == Seq::<u8>::empty(),
        ffi::escaped(message.push(byte)) == ffi::escaped(message) + (if byte == 0 {
            seq![0x5cu8, 0x30u8]
        } else {
            seq![byte]
        }),
{
    assert(message.push(byte).drop_last() =~= message);
    if byte != 0 {
        assert(ffi::escaped(message).push(byte) =~= ffi::escaped(message) + seq![byte]);
    }
}

/// Options are taken over as they are; of the verification modes there are two. Without options
/// there are the defaults.
pub proof fn law_decode_options(
    options: Option<lkv_options>,
    result: FfiResult<DatabaseOptions>,
)
    requires
        call_ensures(decode_options, (options,), result),
    ensures
        result is Ok <==> (options matches Some(options) ==> options.verification <= 1),
        result matches Ok(decoded) ==> decoded.room == Room::Ask && (match options {
            Some(options) => {
                &&& decoded.verification == (if options.verification == 0 {
                    VerificationMode::OnRead
                } else {
                    VerificationMode::Full
                })
                &&& decoded.max_database_bytes == options.max_database_bytes
                &&& decoded.overlay_memory_limit == options.overlay_memory_limit
            },
            None => {
                &&& decoded.verification == VerificationMode::OnRead
                &&& decoded.max_database_bytes == 1_099_511_627_776
                &&& decoded.overlay_memory_limit == 67_108_864
            },
        }),
        result matches Err(error) ==> error.status == 3,
{
}

/// A value is handed out in place, with its length; where there is none, it is not found.
pub proof fn law_borrow_value(value: Option<&[u8]>, result: FfiResult<Option<&[u8]>>)
    ensures
        forall|len: &mut usize|
            #![trigger call_ensures(borrow_value, (value, len), result)]
            call_ensures(borrow_value, (value, len), result) ==> match value {
                Some(value) => {
                    &&& *final(len) == value@.len()
                    &&& result matches Ok(borrowed)
                    &&& value@.len() > 0 ==> borrowed == Some(value)
                    &&& value@.len() == 0 ==> borrowed is None
                },
                None => *final(len) == 0 && (result matches Err(error) && error.status == 1),
            },
{
}

/// A value is copied exactly where there is room for all of it. Its length is reported either
/// way.
pub proof fn law_copy_value(value: &[u8], capacity: usize, result: FfiResult<()>)
    ensures
        forall|output: &mut [u8], len: &mut usize|
            #![trigger call_ensures(copy_value, (Some(value), false, output, capacity, len), result)]
            call_ensures(copy_value, (Some(value), false, output, capacity, len), result)
                && output@.len() == capacity ==> {
                &&& result is Ok <==> value@.len() <= capacity
                &&& *final(len) == value@.len()
                &&& final(output)@.len() == capacity
                &&& forall|i: int|
                    0 <= i < capacity ==> #[trigger] final(output)@[i] == (if value@.len()
                        <= capacity && i < value@.len() {
                        value@[i]
                    } else {
                        output@[i]
                    })
                &&& result matches Err(error) ==> error.status == 2
            },
{
}

/// A value that was not found is not copied.
pub proof fn law_copy_nothing(capacity: usize, result: FfiResult<()>)
    ensures
        forall|output: &mut [u8], len: &mut usize|
            #![trigger call_ensures(copy_value, (None, false, output, capacity, len), result)]
            call_ensures(copy_value, (None, false, output, capacity, len), result) ==> {
                &&& result matches Err(error)
                &&& error.status == 1
                &&& *final(len) == 0
                &&& final(output)@ == output@
            },
{
}

/// Whether a transaction takes what is said of a key: the key has at most 1 MiB, and a value is
/// below 4 GiB and fits into a record with the key.
pub open spec fn fits(key: Seq<u8>, value: Option<Seq<u8>>) -> bool {
    &&& key.len() <= 1_048_576
    &&& value matches Some(value) ==> value.len() <= 4_294_967_295 && 13 + key.len() + value.len()
        <= 4_294_967_295
}

/// A batch is staged, where memory is there for its values, exactly where the transaction takes
/// all that it says. The transaction then says all that, and else what it said.
pub proof fn law_stage(batch: &lkv_write_batch, result: Result<()>)
    ensures
        forall|write: &mut WriteTransaction<'_>|
            #![trigger call_ensures(lkv_write_batch::stage, (batch, write), result)]
            call_ensures(lkv_write_batch::stage, (batch, write), result) && (forall|key: Seq<u8>|
                #[trigger] batch@.contains_key(key) ==> promises::memory_is_there(
                    write.room(),
                    ffi::stage_size(batch@[key]),
                )) ==> {
                &&& result is Ok <==> forall|key: Seq<u8>| #[trigger]
                    batch@.contains_key(key) ==> fits(key, batch@[key])
                &&& result is Ok ==> forall|key: Seq<u8>| #[trigger]
                    final(write).says().contains_key(key) == (batch@.contains_key(key)
                        || write.says().contains_key(key)) && (final(write).says().contains_key(key)
                        ==> final(write).says()[key] == (if batch@.contains_key(key) {
                        batch@[key]
                    } else {
                        write.says()[key]
                    }))
            },
{
}

/// A batch is committed to a database in memory, which can be written and whose Overlay is
/// within its limit, exactly where a transaction takes all that it says and the database takes
/// the operations. All that it says is then done, and the batch is empty; else nothing changes.
pub proof fn law_commit_write_batch(result: FfiResult<()>)
    ensures
        forall|database: &mut Database, batch: &mut lkv_write_batch|
            #![trigger call_ensures(commit_write_batch, (database, batch), result)]
            call_ensures(commit_write_batch, (database, batch), result) ==> {
                &&& result is Ok ==> {
                    &&& database.health() == HandleState::Healthy
                    &&& database.overlay_part().memory
                        <= database.settings().overlay_memory_limit
                    &&& forall|key: Seq<u8>| #[trigger]
                        batch@.contains_key(key) ==> fits(key, batch@[key])
                    &&& writing::with_mutations(
                        database.contents(),
                        batch@,
                        final(database).contents(),
                    )
                    &&& final(batch)@.dom().len() == 0
                }
                &&& result is Err ==> *final(database) == *database && final(batch)@ == batch@
                &&& database.health() == HandleState::Healthy && database.overlay_part().memory
                    <= database.settings().overlay_memory_limit && (forall|key: Seq<u8>| #[trigger]
                    batch@.contains_key(key) ==> fits(key, batch@[key])) && batch@.dom().len() > 0
                    ==> exists|operations: Seq<(Seq<u8>, Option<Seq<u8>>)>| #[trigger]
                    ffi::lists_batch(operations, batch@) && (result is Ok <==> writing::takes(
                        *database,
                        operations,
                    ))
            },
{
    assert forall|operations: Seq<(Seq<u8>, Option<Seq<u8>>)>| #[trigger]
        writing::bytes_of(operations) == crate::format::log::operations_size(operations) by {
        writing::lemma_bytes_of(operations);
    }
}

/// The number that a text of decimal digits stands for.
pub open spec fn number_of(digits: Seq<char>) -> int
    decreases digits.len(),
{
    if digits.len() == 0 {
        0
    } else {
        10 * number_of(digits.drop_last()) + (digits.last() as int - '0' as int)
    }
}

/// A number is appended to a text in decimal digits that stand for it, without a zero in front
/// of others.
pub proof fn law_decimal(n: u64)
    ensures
        forall|out: &mut String|
            #![trigger call_ensures(append_decimal, (out, n), ())]
            call_ensures(append_decimal, (out, n), ()) ==> {
                let digits = final(out)@.skip(out@.len() as int);
                &&& final(out)@.take(out@.len() as int) == out@
                &&& number_of(digits) == n
                &&& digits.len() > 0
                &&& digits.len() > 1 ==> digits[0] != '0'
                &&& forall|i: int|
                    0 <= i < digits.len() ==> '0' as int <= (#[trigger] digits[i]) as int
                        && digits[i] as int <= '9' as int
            },
{
    lemma_decimal(n as nat);
    assert forall|before: Seq<char>| #![trigger before + text::decimal(n as nat)] ({
        let after = before + text::decimal(n as nat);
        after.take(before.len() as int) == before && after.skip(before.len() as int)
            == text::decimal(n as nat)
    }) by {
        let after = before + text::decimal(n as nat);
        assert(after.take(before.len() as int) =~= before);
        assert(after.skip(before.len() as int) =~= text::decimal(n as nat));
    }
}

proof fn lemma_decimal(n: nat)
    ensures
        number_of(text::decimal(n)) == n,
        text::decimal(n).len() > 0,
        n > 0 ==> text::decimal(n)[0] != '0',
        n == 0 ==> text::decimal(n).len() == 1,
        forall|i: int|
            0 <= i < text::decimal(n).len() ==> '0' as int <= (#[trigger] text::decimal(n)[i]) as int
                && text::decimal(n)[i] as int <= '9' as int,
    decreases n,
{
    reveal_with_fuel(number_of, 2);
    let digits = text::decimal(n);
    if n < 10 {
        assert(digits.drop_last() =~= Seq::empty());
    } else {
        lemma_decimal(n / 10);
        assert(digits.drop_last() =~= text::decimal(n / 10));
    }
}

/// The errors that carry numbers say them: a limit and what would be required, the segment and
/// the block that are damaged, and the position in a log.
pub proof fn law_numbers_in_errors(
    limit: u64,
    required: u64,
    full: Error,
    segment_offset: u64,
    block_index: u64,
    damaged: Error,
    offset: u64,
    prefix: &str,
    torn: Error,
)
    requires
        call_ensures(Error::database_full, (limit, required), full),
        call_ensures(Error::corrupted_block, (segment_offset, block_index), damaged),
        call_ensures(Error::corrupted_log, (offset, prefix), torn),
    ensures
        full is DatabaseFull,
        crate::error::error_message(full@) == "database size limit of "@ + text::decimal(
            limit as nat,
        ) + " bytes would be exceeded (requires "@ + text::decimal(required as nat) + " bytes)"@,
        damaged@ matches ErrorView::Corrupted(corruption) && corruption.kind
            == CorruptionKind::BlockChecksum && corruption.segment_offset == Some(segment_offset)
            && corruption.block_index == Some(block_index),
        torn@ matches ErrorView::Corrupted(corruption) && corruption.kind
            == CorruptionKind::LogChecksum && corruption.segment_offset == Some(offset)
            && corruption.message == prefix@ + text::decimal(offset as nat),
{
}

} // verus!
