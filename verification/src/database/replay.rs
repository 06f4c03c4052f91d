//! What a log says: the committed batches, applied in order.

use crate::bytes;
use crate::checksum;
use crate::database::recovery;
use crate::database::recovery::RecoveredOverlayEntry;
use crate::error;
use crate::error::{ErrorKind, ErrorView};
use crate::format::log;
use crate::format::log::{Marker, LOG_HEADER_SIZE, MAX_BATCH_OPERATIONS, MAX_LOG_PAYLOAD_SIZE};
use crate::format::segment;
use vstd::prelude::*;

verus! {

/// What operations make of what is said of the keys.
pub open spec fn apply_all(
    known: Map<Seq<u8>, Option<Seq<u8>>>,
    operations: Seq<(Seq<u8>, Option<Seq<u8>>)>,
) -> Map<Seq<u8>, Option<Seq<u8>>>
    decreases operations.len(),
{
    if operations.len() == 0 {
        known
    } else {
        apply_all(known, operations.drop_last()).insert(
            operations.last().0,
            operations.last().1,
        )
    }
}

/// What batches, committed in order, say of the keys.
pub open spec fn replay(batches: Seq<Seq<(Seq<u8>, Option<Seq<u8>>)>>) -> Map<
    Seq<u8>,
    Option<Seq<u8>>,
>
    decreases batches.len(),
{
    if batches.len() == 0 {
        Map::empty()
    } else {
        apply_all(replay(batches.drop_last()), batches.last())
    }
}

/// The log of batches that were committed in order.
pub open spec fn log_bytes(batches: Seq<Seq<(Seq<u8>, Option<Seq<u8>>)>>) -> Seq<u8>
    decreases batches.len(),
{
    if batches.len() == 0 {
        Seq::empty()
    } else {
        log_bytes(batches.drop_last()) + log::batch_record(batches.last())
    }
}

/// Whether the log has room for a batch: its operations are within the limits of the
/// format, and so is their number and their size.
pub open spec fn batch_fits(operations: Seq<(Seq<u8>, Option<Seq<u8>>)>) -> bool {
    &&& operations.len() <= MAX_BATCH_OPERATIONS
    &&& 4 + log::operations_size(operations) <= MAX_LOG_PAYLOAD_SIZE
    &&& forall|i: int|
        0 <= i < operations.len() ==> segment::lengths_fit(
            (#[trigger] operations[i]).0.len() as int,
            log::operation_value(operations[i].1).len() as int,
        )
}

/// Whether the log has room for every batch.
pub open spec fn batches_fit(batches: Seq<Seq<(Seq<u8>, Option<Seq<u8>>)>>) -> bool {
    forall|i: int| 0 <= i < batches.len() ==> batch_fits(#[trigger] batches[i])
}

/// What operations that were recovered say of the keys.
pub open spec fn recovered_view(
    file: Seq<u8>,
    known: Map<Seq<u8>, RecoveredOverlayEntry>,
) -> Map<Seq<u8>, Option<Seq<u8>>> {
    Map::new(
        |key: Seq<u8>| known.contains_key(key),
        |key: Seq<u8>| recovery::operation_effect(file, known[key].operation_offset as int),
    )
}

/// An operation that was written at `at` is read back from there.
pub proof fn lemma_read_operation(
    payload: Seq<u8>,
    at: int,
    operation: (Seq<u8>, Option<Seq<u8>>),
)
    requires
        0 <= at,
        at + log::operation_size(operation) <= payload.len(),
        payload.subrange(at, at + log::operation_size(operation)) == log::operation_bytes(
            operation,
        ),
        segment::lengths_fit(
            operation.0.len() as int,
            log::operation_value(operation.1).len() as int,
        ),
    ensures
        recovery::operation_outcome(payload, at) is Ok,
        recovery::operation_key(payload, at) == operation.0,
        recovery::operation_effect(payload, at) == operation.1,
        recovery::operation_end(payload, at) == at + log::operation_size(operation),
{
    broadcast use bytes::lemma_u32_bytes_len;

    let key = operation.0;
    let value = log::operation_value(operation.1);
    let whole = log::operation_bytes(operation);
    let part = payload.subrange(at, at + log::operation_size(operation));
    assert(payload[at] == part[0]);
    assert(whole[0] == log::marker_byte(log::operation_marker(operation.1)));
    assert(payload.subrange(at + 1, at + 5) =~= part.subrange(1, 5));
    assert(whole.subrange(1, 5) =~= bytes::u32_bytes(key.len() as u32));
    assert(payload.subrange(at + 5, at + 9) =~= part.subrange(5, 9));
    assert(whole.subrange(5, 9) =~= bytes::u32_bytes(value.len() as u32));
    bytes::lemma_le_u32_of_bytes(payload, at + 1, key.len() as u32);
    bytes::lemma_le_u32_of_bytes(payload, at + 5, value.len() as u32);
    assert(recovery::operation_key(payload, at) =~= part.subrange(9, 9 + key.len() as int));
    assert(whole.subrange(9, 9 + key.len() as int) =~= key);
    let end = 9 + key.len() + value.len();
    assert(payload.subrange(at + 9 + key.len(), at + end) =~= part.subrange(
        9 + key.len() as int,
        end as int,
    ));
    assert(whole.subrange(9 + key.len() as int, end as int) =~= value);
}

/// An operation in a part of a file says the same as in the file.
pub proof fn lemma_effect_in_file(file: Seq<u8>, from: int, to: int, at: int)
    requires
        0 <= from <= to <= file.len(),
        0 <= at,
        at + 9 <= to - from,
        recovery::operation_end(file.subrange(from, to), at) <= to - from,
    ensures
        recovery::operation_effect(file.subrange(from, to), at) == recovery::operation_effect(
            file,
            from + at,
        ),
        recovery::operation_end(file.subrange(from, to), at) + from == recovery::operation_end(
            file,
            from + at,
        ),
        recovery::operation_key_len(file.subrange(from, to), at) == recovery::operation_key_len(
            file,
            from + at,
        ),
        recovery::operation_key(file.subrange(from, to), at) == recovery::operation_key(
            file,
            from + at,
        ),
{
    let part = file.subrange(from, to);
    assert(part.subrange(at + 1, at + 5) =~= file.subrange(from + at + 1, from + at + 5));
    assert(part.subrange(at + 5, at + 9) =~= file.subrange(from + at + 5, from + at + 9));
    bytes::lemma_le_u32_same(part, at + 1, file, from + at + 1);
    bytes::lemma_le_u32_same(part, at + 5, file, from + at + 5);
    let start = at + 9 + recovery::operation_key_len(part, at);
    let end = recovery::operation_end(part, at);
    assert(part.subrange(start, end) =~= file.subrange(from + start, from + end));
    assert(part.subrange(at + 9, start) =~= file.subrange(from + at + 9, from + start));
}

/// The first `i` operations of a batch take this much of its payload.
pub open spec fn operations_at(operations: Seq<(Seq<u8>, Option<Seq<u8>>)>, i: int) -> int {
    4 + log::operations_size(operations.take(i))
}

/// The bytes of operation `i` in a payload.
pub proof fn lemma_operation_at(operations: Seq<(Seq<u8>, Option<Seq<u8>>)>, i: int)
    requires
        0 <= i < operations.len(),
    ensures
        ({
            let payload = log::batch_payload(operations);
            let at = operations_at(operations, i);
            &&& 4 <= at
            &&& operations_at(operations, i + 1) == at + log::operation_size(operations[i])
            &&& at + log::operation_size(operations[i]) <= payload.len()
            &&& payload.len() == 4 + log::operations_size(operations)
            &&& payload.subrange(at, at + log::operation_size(operations[i]))
                == log::operation_bytes(operations[i])
        }),
{
    broadcast use bytes::lemma_u32_bytes_len;

    lemma_operations_at(operations, i);
    log::lemma_operations_size(operations);
    let payload = log::batch_payload(operations);
    let at = operations_at(operations, i);
    let body = log::operations_bytes(operations);
    let size = log::operation_size(operations[i]);
    assert(payload.subrange(at, at + size) =~= body.subrange(at - 4, at - 4 + size));
    assert(operations.take(i + 1).drop_last() =~= operations.take(i));
}

proof fn lemma_operations_at(operations: Seq<(Seq<u8>, Option<Seq<u8>>)>, i: int)
    requires
        0 <= i < operations.len(),
    ensures
        ({
            let body = log::operations_bytes(operations);
            let at = log::operations_size(operations.take(i));
            let size = log::operation_size(operations[i]);
            &&& 0 <= at
            &&& at + size <= body.len()
            &&& body.subrange(at, at + size) == log::operation_bytes(operations[i])
        }),
    decreases operations.len(),
{
    broadcast use bytes::lemma_u32_bytes_len;

    let shorter = operations.drop_last();
    log::lemma_operations_size(operations);
    log::lemma_operations_size(shorter);
    log::lemma_operations_size(operations.take(i));
    let body = log::operations_bytes(operations);
    let at = log::operations_size(operations.take(i));
    let size = log::operation_size(operations[i]);
    if i < shorter.len() {
        assert(operations.take(i) =~= shorter.take(i));
        lemma_operations_at(shorter, i);
        assert(body.subrange(at, at + size) =~= log::operations_bytes(shorter).subrange(
            at,
            at + size,
        ));
    } else {
        assert(operations.take(i) =~= shorter);
        assert(body.subrange(at, at + size) =~= log::operation_bytes(operations[i]));
    }
}

/// Applying the operations of a batch from operation `i` on gives what they say.
proof fn lemma_apply_operations(
    file: Seq<u8>,
    from: int,
    operations: Seq<(Seq<u8>, Option<Seq<u8>>)>,
    i: int,
    known: Map<Seq<u8>, RecoveredOverlayEntry>,
    before: Map<Seq<u8>, Option<Seq<u8>>>,
) -> (after: Map<Seq<u8>, RecoveredOverlayEntry>)
    requires
        batch_fits(operations),
        0 <= from,
        from + log::batch_payload(operations).len() <= file.len(),
        file.len() <= u64::MAX,
        file.subrange(from, from + log::batch_payload(operations).len()) == log::batch_payload(
            operations,
        ),
        0 <= i <= operations.len(),
        recovered_view(file, known) == apply_all(before, operations.take(i)),
    ensures
        recovery::apply_operations(
            log::batch_payload(operations),
            from,
            operations_at(operations, i),
            (operations.len() - i) as nat,
            known,
        ) == Ok::<Map<Seq<u8>, RecoveredOverlayEntry>, ErrorView>(after),
        recovered_view(file, after) == apply_all(before, operations),
    decreases operations.len() - i,
{
    broadcast use bytes::lemma_u32_bytes_len;

    let payload = log::batch_payload(operations);
    log::lemma_operations_size(operations);
    if i < operations.len() {
        let at = operations_at(operations, i);
        lemma_operation_at(operations, i);
        lemma_read_operation(payload, at, operations[i]);
        lemma_effect_in_file(file, from, from + payload.len(), at);
        let entry = RecoveredOverlayEntry { operation_offset: (from + at) as u64 };
        let next = known.insert(operations[i].0, entry);
        assert(operations.take(i + 1).drop_last() =~= operations.take(i));
        assert(recovered_view(file, next) =~= recovered_view(file, known).insert(
            operations[i].0,
            operations[i].1,
        ));
        lemma_apply_operations(file, from, operations, i + 1, next, before)
    } else {
        assert(operations.take(i) =~= operations);
        known
    }
}

/// The header of a record that was written at `at` is read back from there.
proof fn lemma_read_header(file: Seq<u8>, at: int, marker: Marker, value_len: u32, stored: u32)
    requires
        0 <= at,
        at + LOG_HEADER_SIZE <= file.len(),
        file.subrange(at, at + LOG_HEADER_SIZE) == log::header_bytes(marker, 0, value_len, stored),
    ensures
        file[at] == log::marker_byte(marker),
        bytes::le_u32(file, at + 1) == 0,
        bytes::le_u32(file, at + 5) == value_len,
        bytes::le_u32(file, at + 9) == stored,
        checksum::crc32c_value(file.subrange(at, at + 13)) == bytes::le_u32(file, at + 13),
        recovery::log_record_end(file, at) == at + LOG_HEADER_SIZE + value_len,
{
    broadcast use bytes::lemma_u32_bytes_len;

    let header = log::header_bytes(marker, 0, value_len, stored);
    let part = file.subrange(at, at + LOG_HEADER_SIZE);
    let body = log::prefix_bytes(marker, 0, value_len) + bytes::u32_bytes(stored);
    assert(file[at] == part[0]);
    assert(file.subrange(at + 1, at + 5) =~= part.subrange(1, 5));
    assert(header.subrange(1, 5) =~= bytes::u32_bytes(0));
    assert(file.subrange(at + 5, at + 9) =~= part.subrange(5, 9));
    assert(header.subrange(5, 9) =~= bytes::u32_bytes(value_len));
    assert(file.subrange(at + 9, at + 13) =~= part.subrange(9, 13));
    assert(header.subrange(9, 13) =~= bytes::u32_bytes(stored));
    assert(file.subrange(at + 13, at + 17) =~= part.subrange(13, 17));
    assert(header.subrange(13, 17) =~= bytes::u32_bytes(checksum::crc32c_value(body)));
    assert(file.subrange(at, at + 13) =~= part.subrange(0, 13));
    assert(header.subrange(0, 13) =~= body);
    bytes::lemma_le_u32_of_bytes(file, at + 1, 0);
    bytes::lemma_le_u32_of_bytes(file, at + 5, value_len);
    bytes::lemma_le_u32_of_bytes(file, at + 9, stored);
    bytes::lemma_le_u32_of_bytes(file, at + 13, checksum::crc32c_value(body));
}

/// The size of the record of a batch.
pub proof fn lemma_batch_record_len(operations: Seq<(Seq<u8>, Option<Seq<u8>>)>)
    ensures
        log::batch_record(operations).len() == LOG_HEADER_SIZE + 4 + log::operations_size(
            operations,
        ),
{
    broadcast use bytes::lemma_u32_bytes_len;

    log::lemma_operations_size(operations);
}

/// A record of a batch that lies in the range is applied, and the scan goes on behind it.
pub proof fn lemma_scan_batch(
    file: Seq<u8>,
    at: int,
    end: int,
    operations: Seq<(Seq<u8>, Option<Seq<u8>>)>,
    known: Map<Seq<u8>, RecoveredOverlayEntry>,
) -> (after: Map<Seq<u8>, RecoveredOverlayEntry>)
    requires
        batch_fits(operations),
        0 <= at,
        at + log::batch_record(operations).len() <= end <= file.len(),
        file.len() <= u64::MAX,
        file.subrange(at, at + log::batch_record(operations).len()) == log::batch_record(
            operations,
        ),
    ensures
        recovery::scan_from(file, at, end, known) == recovery::scan_from(
            file,
            at + log::batch_record(operations).len(),
            end,
            after,
        ),
        recovered_view(file, after) == apply_all(recovered_view(file, known), operations),
        recovery::scan_tells(file, at, end, known) ==> recovery::scan_tells(
            file,
            at + log::batch_record(operations).len(),
            end,
            after,
        ),
{
    broadcast use bytes::lemma_u32_bytes_len;

    let payload = log::batch_payload(operations);
    let record = log::batch_record(operations);
    let len = payload.len() as u32;
    let stored = log::record_checksum_value(Marker::Batch, 0, len, payload);
    let header = log::header_bytes(Marker::Batch, 0, len, stored);
    log::lemma_operations_size(operations);
    log::lemma_header_len(Marker::Batch, 0, len, stored);
    let part = file.subrange(at, at + record.len());
    assert(file.subrange(at, at + LOG_HEADER_SIZE) =~= part.subrange(0, LOG_HEADER_SIZE as int));
    assert(record.subrange(0, LOG_HEADER_SIZE as int) =~= header);
    lemma_read_header(file, at, Marker::Batch, len, stored);
    let from = at + LOG_HEADER_SIZE;
    assert(file.subrange(from, at + record.len()) =~= part.subrange(
        LOG_HEADER_SIZE as int,
        record.len() as int,
    ));
    assert(record.subrange(LOG_HEADER_SIZE as int, record.len() as int) =~= payload);
    assert(payload.subrange(0, 4) =~= bytes::u32_bytes(operations.len() as u32));
    bytes::lemma_le_u32_of_bytes(payload, 0, operations.len() as u32);
    let before = recovered_view(file, known);
    assert(operations.take(0) =~= Seq::empty());
    lemma_apply_operations(file, from, operations, 0, known, before)
}

/// Whether the log ends at `at`: at the end of the range, at an incomplete header, at an
/// incomplete record, or at the record that ends a log.
pub open spec fn log_ends(file: Seq<u8>, at: int, end: int) -> bool {
    ||| at >= end
    ||| at + LOG_HEADER_SIZE > file.len()
    ||| {
        &&& checksum::crc32c_value(file.subrange(at, at + 13)) == bytes::le_u32(file, at + 13)
        &&& recovery::log_record_end(file, at) > end
    }
    ||| {
        &&& at + LOG_HEADER_SIZE <= end
        &&& file.subrange(at, at + LOG_HEADER_SIZE) == log::compact_marker_bytes()
    }
}

/// The scan stops where the log ends.
proof fn lemma_scan_ends(
    file: Seq<u8>,
    at: int,
    end: int,
    known: Map<Seq<u8>, RecoveredOverlayEntry>,
)
    requires
        0 <= at,
        end <= file.len(),
        log_ends(file, at, end),
    ensures
        recovery::scan_from(file, at, end, known) == Ok::<
            (Map<Seq<u8>, RecoveredOverlayEntry>, int),
            ErrorView,
        >((known, at)),
{
    if at < end && at + LOG_HEADER_SIZE <= end && file.subrange(at, at + LOG_HEADER_SIZE)
        == log::compact_marker_bytes() {
        let stored = log::record_checksum_value(Marker::Compact, 0, 0, Seq::empty());
        let header = log::header_bytes(Marker::Compact, 0, 0, stored);
        assert(log::compact_marker_bytes() =~= header);
        lemma_read_header(file, at, Marker::Compact, 0, stored);
    }
}

/// A log that starts with committed batches is scanned past them.
proof fn lemma_scan_batches(
    file: Seq<u8>,
    start: int,
    end: int,
    batches: Seq<Seq<(Seq<u8>, Option<Seq<u8>>)>>,
) -> (after: Map<Seq<u8>, RecoveredOverlayEntry>)
    requires
        batches_fit(batches),
        0 <= start,
        start + log_bytes(batches).len() <= end <= file.len(),
        file.len() <= u64::MAX,
        file.subrange(start, start + log_bytes(batches).len()) == log_bytes(batches),
    ensures
        recovery::scan_from(file, start, end, Map::empty()) == recovery::scan_from(
            file,
            start + log_bytes(batches).len(),
            end,
            after,
        ),
        recovered_view(file, after) == replay(batches),
        recovery::scan_tells(file, start, end, Map::empty()) ==> recovery::scan_tells(
            file,
            start + log_bytes(batches).len(),
            end,
            after,
        ),
    decreases batches.len(),
{
    if batches.len() == 0 {
        assert(recovered_view(file, Map::empty()) =~= Map::empty());
        Map::empty()
    } else {
        let shorter = batches.drop_last();
        let whole = log_bytes(batches);
        let prefix = log_bytes(shorter);
        let record = log::batch_record(batches.last());
        let part = file.subrange(start, start + whole.len());
        assert(file.subrange(start, start + prefix.len()) =~= part.subrange(
            0,
            prefix.len() as int,
        ));
        assert(whole.subrange(0, prefix.len() as int) =~= prefix);
        let middle = lemma_scan_batches(file, start, end, shorter);
        let at = start + prefix.len();
        assert(file.subrange(at, at + record.len()) =~= part.subrange(
            prefix.len() as int,
            whole.len() as int,
        ));
        assert(whole.subrange(prefix.len() as int, whole.len() as int) =~= record);
        assert(batch_fits(batches.last()));
        lemma_scan_batch(file, at, end, batches.last(), middle)
    }
}

/// Recovering a log of committed batches gives what the batches say, applied in order, and
/// the position behind the last of them.
pub proof fn law_log_replays_committed_batches(
    file: Seq<u8>,
    start: int,
    end: int,
    batches: Seq<Seq<(Seq<u8>, Option<Seq<u8>>)>>,
)
    requires
        batches_fit(batches),
        0 <= start,
        start + log_bytes(batches).len() <= end <= file.len(),
        file.len() <= u64::MAX,
        file.subrange(start, start + log_bytes(batches).len()) == log_bytes(batches),
        log_ends(file, start + log_bytes(batches).len(), end),
    ensures
        recovery::scan_outcome(file, start, end) matches Ok((known, valid_len))
            && recovered_view(file, known) == replay(batches) && valid_len == start + log_bytes(
            batches,
        ).len(),
{
    let after = lemma_scan_batches(file, start, end, batches);
    lemma_scan_ends(file, start + log_bytes(batches).len(), end, after);
}

/// A log whose last record is cut ends before that record.
pub proof fn lemma_torn_record_ends_the_log(
    file: Seq<u8>,
    start: int,
    batches: Seq<Seq<(Seq<u8>, Option<Seq<u8>>)>>,
    torn: Seq<(Seq<u8>, Option<Seq<u8>>)>,
    kept: int,
)
    requires
        batches_fit(batches),
        batch_fits(torn),
        0 <= start <= file.len(),
        file.len() <= u64::MAX,
        0 <= kept < log::batch_record(torn).len(),
        file.subrange(start, file.len() as int) == log_bytes(batches) + log::batch_record(
            torn,
        ).take(kept),
    ensures
        start + log_bytes(batches).len() <= file.len(),
        file.subrange(start, start + log_bytes(batches).len()) == log_bytes(batches),
        log_ends(file, start + log_bytes(batches).len(), file.len() as int),
{
    let end = file.len() as int;
    let log = log_bytes(batches);
    let record = log::batch_record(torn);
    let part = file.subrange(start, end);
    let at = start + log.len();
    assert((log + record.take(kept)).len() == log.len() + kept);
    assert(part.len() == end - start);
    assert(file.subrange(start, at) =~= part.subrange(0, log.len() as int));
    assert((log + record.take(kept)).subrange(0, log.len() as int) =~= log);
    assert(end == at + kept);
    if kept >= LOG_HEADER_SIZE {
        let payload = log::batch_payload(torn);
        let len = payload.len() as u32;
        let stored = log::record_checksum_value(Marker::Batch, 0, len, payload);
        let header = log::header_bytes(Marker::Batch, 0, len, stored);
        log::lemma_header_len(Marker::Batch, 0, len, stored);
        lemma_batch_record_len(torn);
        log::lemma_operations_size(torn);
        assert(payload.len() == 4 + log::operations_size(torn)) by {
            broadcast use bytes::lemma_u32_bytes_len;

        }
        assert(file.subrange(at, at + LOG_HEADER_SIZE) =~= part.subrange(
            log.len() as int,
            log.len() + LOG_HEADER_SIZE,
        ));
        assert((log + record.take(kept)).subrange(log.len() as int, log.len() + LOG_HEADER_SIZE)
            =~= header);
        lemma_read_header(file, at, Marker::Batch, len, stored);
    }
}

/// Cutting the last record of a log anywhere before its end leaves the state of the commit
/// before it.
pub proof fn law_torn_commit_is_discarded(
    file: Seq<u8>,
    start: int,
    batches: Seq<Seq<(Seq<u8>, Option<Seq<u8>>)>>,
    torn: Seq<(Seq<u8>, Option<Seq<u8>>)>,
    kept: int,
)
    requires
        batches_fit(batches),
        batch_fits(torn),
        0 <= start <= file.len(),
        file.len() <= u64::MAX,
        0 <= kept < log::batch_record(torn).len(),
        file.subrange(start, file.len() as int) == log_bytes(batches) + log::batch_record(
            torn,
        ).take(kept),
    ensures
        recovery::scan_outcome(file, start, file.len() as int) matches Ok((known, valid_len))
            && recovered_view(file, known) == replay(batches) && valid_len == start + log_bytes(
            batches,
        ).len(),
{
    lemma_torn_record_ends_the_log(file, start, batches, torn, kept);
    law_log_replays_committed_batches(file, start, file.len() as int, batches);
}

/// A complete header that fails its checksum is reported, whatever was committed before it.
pub proof fn law_damaged_header_is_reported(
    file: Seq<u8>,
    start: int,
    end: int,
    batches: Seq<Seq<(Seq<u8>, Option<Seq<u8>>)>>,
)
    requires
        batches_fit(batches),
        0 <= start,
        file.len() <= u64::MAX,
        start + log_bytes(batches).len() < end <= file.len(),
        start + log_bytes(batches).len() + LOG_HEADER_SIZE <= file.len(),
        file.subrange(start, start + log_bytes(batches).len()) == log_bytes(batches),
        ({
            let at = start + log_bytes(batches).len();
            checksum::crc32c_value(file.subrange(at, at + 13)) != bytes::le_u32(file, at + 13)
        }),
    ensures
        recovery::scan_outcome(file, start, end) matches Err(error) && error::error_kind(error)
            == ErrorKind::InvalidData,
{
    let after = lemma_scan_batches(file, start, end, batches);
}

/// A complete record of a batch that fails its checksum is reported, whatever was committed
/// before it.
pub proof fn law_damaged_record_is_reported(
    file: Seq<u8>,
    start: int,
    end: int,
    batches: Seq<Seq<(Seq<u8>, Option<Seq<u8>>)>>,
)
    requires
        batches_fit(batches),
        0 <= start,
        start + log_bytes(batches).len() < end <= file.len(),
        file.len() <= u64::MAX,
        file.subrange(start, start + log_bytes(batches).len()) == log_bytes(batches),
        ({
            let at = start + log_bytes(batches).len();
            let len = bytes::le_u32(file, at + 5);
            let record_end = recovery::log_record_end(file, at);
            &&& file[at] == log::marker_byte(Marker::Batch)
            &&& record_end <= end
            &&& log::record_checksum_value(
                Marker::Batch,
                bytes::le_u32(file, at + 1),
                len,
                file.subrange(at + LOG_HEADER_SIZE, record_end),
            ) != bytes::le_u32(file, at + 9)
        }),
    ensures
        recovery::scan_outcome(file, start, end) matches Err(error) && error::error_kind(error)
            == ErrorKind::InvalidData,
{
    let after = lemma_scan_batches(file, start, end, batches);
}

/// The batch whose record covers the byte at `i` of a log.
proof fn lemma_record_with_byte(batches: Seq<Seq<(Seq<u8>, Option<Seq<u8>>)>>, i: int) -> (k: int)
    requires
        0 <= i < log_bytes(batches).len(),
    ensures
        0 <= k < batches.len(),
        log_bytes(batches.take(k)).len() <= i,
        i < log_bytes(batches.take(k)).len() + log::batch_record(batches[k]).len(),
        log_bytes(batches.take(k)).len() + log::batch_record(batches[k]).len() <= log_bytes(
            batches,
        ).len(),
        log_bytes(batches).subrange(0, log_bytes(batches.take(k)).len() as int) == log_bytes(
            batches.take(k),
        ),
        log_bytes(batches).subrange(
            log_bytes(batches.take(k)).len() as int,
            (log_bytes(batches.take(k)).len() + log::batch_record(batches[k]).len()) as int,
        ) == log::batch_record(batches[k]),
    decreases batches.len(),
{
    let shorter = batches.drop_last();
    let whole = log_bytes(batches);
    let prefix = log_bytes(shorter);
    let n = batches.len() - 1;
    assert(batches.take(n) =~= shorter);
    if i < prefix.len() {
        let k = lemma_record_with_byte(shorter, i);
        assert(shorter.take(k) =~= batches.take(k));
        let from = log_bytes(batches.take(k)).len() as int;
        let to = from + log::batch_record(batches[k]).len();
        assert(whole.subrange(0, from) =~= prefix.subrange(0, from));
        assert(whole.subrange(from, to) =~= prefix.subrange(from, to));
        k
    } else {
        assert(whole.subrange(0, prefix.len() as int) =~= prefix);
        assert(whole.subrange(prefix.len() as int, whole.len() as int) =~= log::batch_record(
            batches.last(),
        ));
        n
    }
}

/// A log of committed batches in which a single byte was changed is not recovered: the change
/// is reported, and never taken for the end of the log. This holds as far as the checksums
/// that are computed show such a change.
pub proof fn law_one_damaged_byte_is_reported(
    file: Seq<u8>,
    intact: Seq<u8>,
    start: int,
    end: int,
    batches: Seq<Seq<(Seq<u8>, Option<Seq<u8>>)>>,
    i: int,
)
    requires
        recovery::is_log(intact, start, end, batches),
        checksum::apart_at(intact, file, i),
        start <= i < end,
        end == file.len(),
        file.len() <= u64::MAX,
        recovery::scan_tells(file, start, end, Map::empty()),
    ensures
        recovery::scan_outcome(file, start, end) matches Err(error) && error::error_kind(error)
            == ErrorKind::InvalidData,
{
    let whole = log_bytes(batches);
    let k = lemma_record_with_byte(batches, i - start);
    let before = batches.take(k);
    let prefix = log_bytes(before);
    let operations = batches[k];
    let record = log::batch_record(operations);
    let at = start + prefix.len();
    assert(file.subrange(start, at) =~= prefix) by {
        assert(whole.subrange(0, prefix.len() as int) =~= intact.subrange(start, at));
    }
    assert(intact.subrange(at, at + record.len()) =~= record) by {
        assert(whole.subrange(prefix.len() as int, (prefix.len() + record.len()) as int)
            =~= intact.subrange(at, at + record.len()));
    }
    assert(batches_fit(before)) by {
        assert forall|j: int| 0 <= j < before.len() implies batch_fits(#[trigger] before[j]) by {
            assert(batch_fits(batches[j]));
        }
    }
    assert(batch_fits(operations));
    let known = lemma_scan_batches(file, start, end, before);
    lemma_damaged_record(file, intact, at, end, operations, known, i);
}

/// Recovering a record in which a single byte was changed fails.
proof fn lemma_damaged_record(
    file: Seq<u8>,
    intact: Seq<u8>,
    at: int,
    end: int,
    operations: Seq<(Seq<u8>, Option<Seq<u8>>)>,
    known: Map<Seq<u8>, RecoveredOverlayEntry>,
    i: int,
)
    requires
        0 <= at <= i < at + log::batch_record(operations).len() <= end,
        end == file.len(),
        file.len() <= u64::MAX,
        batch_fits(operations),
        intact.subrange(at, at + log::batch_record(operations).len()) == log::batch_record(
            operations,
        ),
        checksum::apart_at(intact, file, i),
        recovery::scan_tells(file, at, end, known),
    ensures
        recovery::scan_from(file, at, end, known) matches Err(error) && error::error_kind(error)
            == ErrorKind::InvalidData,
{
    broadcast use bytes::lemma_u32_bytes_len;

    let payload = log::batch_payload(operations);
    let record = log::batch_record(operations);
    let len = payload.len() as u32;
    let stored = log::record_checksum_value(Marker::Batch, 0, len, payload);
    let header = log::header_bytes(Marker::Batch, 0, len, stored);
    log::lemma_operations_size(operations);
    log::lemma_header_len(Marker::Batch, 0, len, stored);
    assert(intact.subrange(at, at + LOG_HEADER_SIZE) =~= record.subrange(
        0,
        LOG_HEADER_SIZE as int,
    ));
    assert(record.subrange(0, LOG_HEADER_SIZE as int) =~= header);
    lemma_read_header(intact, at, Marker::Batch, len, stored);
    let good = intact.subrange(at, at + 13);
    let bad = file.subrange(at, at + 13);
    if i < at + 13 {
        assert(checksum::apart_at(good, bad, i - at));
        assert(file.subrange(at + 13, at + 17) =~= intact.subrange(at + 13, at + 17));
        bytes::lemma_le_u32_same(file, at + 13, intact, at + 13);
        assert(checksum::crc32c_value(bad) != checksum::crc32c_value(good));
    } else if i < at + LOG_HEADER_SIZE {
        assert(bad =~= good);
        bytes::lemma_le_u32_differs(intact, file, at + 13, i);
    } else {
        assert(bad =~= good);
        assert(file.subrange(at + 1, at + 5) =~= intact.subrange(at + 1, at + 5));
        assert(file.subrange(at + 5, at + 9) =~= intact.subrange(at + 5, at + 9));
        assert(file.subrange(at + 9, at + 13) =~= intact.subrange(at + 9, at + 13));
        assert(file.subrange(at + 13, at + 17) =~= intact.subrange(at + 13, at + 17));
        bytes::lemma_le_u32_same(file, at + 1, intact, at + 1);
        bytes::lemma_le_u32_same(file, at + 5, intact, at + 5);
        bytes::lemma_le_u32_same(file, at + 9, intact, at + 9);
        bytes::lemma_le_u32_same(file, at + 13, intact, at + 13);
        assert(file[at] == intact[at]);
        let from = at + LOG_HEADER_SIZE;
        let to = at + record.len();
        assert(recovery::log_record_end(file, at) == to);
        let damaged = file.subrange(from, to);
        assert(record.subrange(LOG_HEADER_SIZE as int, record.len() as int) =~= payload);
        assert(intact.subrange(from, to) =~= payload) by {
            assert(intact.subrange(from, to) =~= intact.subrange(at, to).subrange(
                LOG_HEADER_SIZE as int,
                record.len() as int,
            ));
        }
        let front = log::prefix_bytes(Marker::Batch, 0, len);
        assert(checksum::apart_at(front + payload, front + damaged, 9 + (i - from))) by {
            assert forall|j: int| 0 <= j < payload.len() implies payload[j] == intact[from + j] by {
                assert(intact.subrange(from, to)[j] == intact[from + j]);
            }
        }
        assert(log::record_checksum_value(Marker::Batch, 0, len, damaged) != stored);
    }
}

/// Appending the record of a batch to a log commits that batch.
pub proof fn law_appended_record_commits(
    batches: Seq<Seq<(Seq<u8>, Option<Seq<u8>>)>>,
    operations: Seq<(Seq<u8>, Option<Seq<u8>>)>,
)
    ensures
        log_bytes(batches.push(operations)) == log_bytes(batches) + log::batch_record(operations),
        replay(batches.push(operations)) == apply_all(replay(batches), operations),
{
    assert(batches.push(operations).drop_last() =~= batches);
}

/// Whether every operation that was recovered lies between two positions of a file, is
/// one on its key, and is within the limits of the format.
pub open spec fn located(
    file: Seq<u8>,
    start: int,
    end: int,
    known: Map<Seq<u8>, RecoveredOverlayEntry>,
) -> bool {
    forall|key: Seq<u8>| #[trigger]
        known.contains_key(key) ==> {
            let at = known[key].operation_offset as int;
            &&& start <= at
            &&& at + 9 <= end
            &&& recovery::operation_end(file, at) <= end
            &&& recovery::operation_key_len(file, at) == key.len()
            &&& segment::lengths_fit(key.len() as int, recovery::operation_value_len(file, at))
        }
}

/// Operations that are applied lie in the payload that holds them.
proof fn lemma_apply_located(
    file: Seq<u8>,
    start: int,
    from: int,
    to: int,
    at: int,
    n: nat,
    known: Map<Seq<u8>, RecoveredOverlayEntry>,
)
    requires
        0 <= start <= from <= to <= file.len(),
        file.len() <= u64::MAX,
        0 <= at <= to - from,
        located(file, start, to, known),
        recovery::apply_operations(file.subrange(from, to), from, at, n, known) is Ok,
    ensures
        located(
            file,
            start,
            to,
            recovery::apply_operations(file.subrange(from, to), from, at, n, known)->Ok_0,
        ),
    decreases n,
{
    let payload = file.subrange(from, to);
    if n > 0 {
        let end = recovery::operation_end(payload, at);
        let key = recovery::operation_key(payload, at);
        let entry = RecoveredOverlayEntry { operation_offset: (from + at) as u64 };
        let next = known.insert(key, entry);
        lemma_effect_in_file(file, from, to, at);
        assert(payload.subrange(at + 1, at + 5) =~= file.subrange(from + at + 1, from + at + 5));
        assert(payload.subrange(at + 5, at + 9) =~= file.subrange(from + at + 5, from + at + 9));
        bytes::lemma_le_u32_same(payload, at + 1, file, from + at + 1);
        bytes::lemma_le_u32_same(payload, at + 5, file, from + at + 5);
        assert(located(file, start, to, next));
        lemma_apply_located(file, start, from, to, end, (n - 1) as nat, next);
    }
}

/// What a scan recovers lies between the start of the log and its end.
pub proof fn lemma_scan_located(
    file: Seq<u8>,
    start: int,
    offset: int,
    end: int,
    known: Map<Seq<u8>, RecoveredOverlayEntry>,
)
    requires
        0 <= start <= offset <= end <= file.len(),
        file.len() <= u64::MAX,
        located(file, start, offset, known),
        recovery::scan_from(file, offset, end, known) is Ok,
    ensures
        ({
            let (after, valid_len) = recovery::scan_from(file, offset, end, known)->Ok_0;
            &&& offset <= valid_len <= end
            &&& located(file, start, valid_len, after)
        }),
    decreases end - offset,
{
    let record_end = recovery::log_record_end(file, offset);
    if offset < end && offset + LOG_HEADER_SIZE <= file.len() && record_end <= end {
        let payload = file.subrange(offset + LOG_HEADER_SIZE, record_end);
        let applied = recovery::apply_outcome(payload, offset + LOG_HEADER_SIZE, known);
        assert(located(file, start, record_end, known)) by {
            assert forall|key: Seq<u8>| #[trigger] known.contains_key(key) implies {
                let at = known[key].operation_offset as int;
                &&& start <= at
                &&& at + 9 <= record_end
                &&& recovery::operation_end(file, at) <= record_end
                &&& recovery::operation_key_len(file, at) == key.len()
                &&& segment::lengths_fit(key.len() as int, recovery::operation_value_len(file, at))
            } by {}
        }
        if applied is Ok && payload.len() >= 4 {
            lemma_apply_located(
                file,
                start,
                offset + LOG_HEADER_SIZE,
                record_end,
                4,
                bytes::le_u32(payload, 0) as nat,
                known,
            );
            if recovery::scan_from(file, offset, end, known) == recovery::scan_from(
                file,
                record_end,
                end,
                applied->Ok_0,
            ) {
                lemma_scan_located(file, start, record_end, end, applied->Ok_0);
            }
        }
    }
}

} // verus!
