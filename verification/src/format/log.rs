//! Records of the Overlay log.
//!
//! A record is a header and a payload. The header carries the checksum of the whole
//! record and a checksum of its own, so that a torn header can be told from a damaged
//! one. A committed transaction is one batch record.

use crate::bytes;
use crate::bytes::{push_bytes, push_u32, push_u8};
use crate::checksum;
use crate::checksum::{crc32c, crc32c_append, crc32c_combine};
use crate::database::state;
use crate::database::state::OverlayEntry;
use crate::error;
use crate::error::{Error, ErrorKind, ErrorView, Result};
use crate::key_map::KeyMap;
use vstd::prelude::*;

verus! {

pub const MAX_LOG_PAYLOAD_SIZE: usize = 4294967295;

pub const MAX_BATCH_OPERATIONS: usize = 1000000;

pub const LOG_HEADER_SIZE: usize = 17;

pub const LOG_HEADER_CHECKSUM_OFFSET: usize = 13;

/// What a record or an operation of a batch is.
#[derive(Clone, Copy, Debug, PartialEq, Eq, Structural)]
pub enum Marker {
    Put,
    Delete,
    Compact,
    Batch,
}

/// The byte that stands for a marker.
pub open spec fn marker_byte(marker: Marker) -> u8 {
    match marker {
        Marker::Put => 1,
        Marker::Delete => 2,
        Marker::Compact => 3,
        Marker::Batch => 4,
    }
}

impl Marker {
    /// The marker that a byte stands for.
    pub fn from_byte(byte: u8) -> (marker: Option<Self>)
        ensures
            match marker {
                Some(marker) => byte == marker_byte(marker),
                None => byte == 0 || byte > 4,
            },
    {
        match byte {
            1 => Some(Marker::Put),
            2 => Some(Marker::Delete),
            3 => Some(Marker::Compact),
            4 => Some(Marker::Batch),
            _ => None,
        }
    }

    /// The byte that stands for this marker.
    pub fn to_byte(self) -> (byte: u8)
        ensures
            byte == marker_byte(self),
    {
        match self {
            Marker::Put => 1,
            Marker::Delete => 2,
            Marker::Compact => 3,
            Marker::Batch => 4,
        }
    }
}

/// The marker and the two lengths that open a record, and an operation of a batch.
pub open spec fn prefix_bytes(marker: Marker, key_len: u32, value_len: u32) -> Seq<u8> {
    seq![marker_byte(marker)] + bytes::u32_bytes(key_len) + bytes::u32_bytes(value_len)
}

/// A record header.
pub open spec fn header_bytes(
    marker: Marker,
    key_len: u32,
    value_len: u32,
    record_checksum: u32,
) -> Seq<u8> {
    let body = prefix_bytes(marker, key_len, value_len) + bytes::u32_bytes(record_checksum);
    body + bytes::u32_bytes(checksum::crc32c_value(body))
}

/// The checksum of a record.
pub open spec fn record_checksum_value(
    marker: Marker,
    key_len: u32,
    value_len: u32,
    payload: Seq<u8>,
) -> u32 {
    checksum::crc32c_value(prefix_bytes(marker, key_len, value_len) + payload)
}

/// A record.
pub open spec fn record_bytes(marker: Marker, payload: Seq<u8>) -> Seq<u8> {
    let len = payload.len() as u32;
    header_bytes(marker, 0, len, record_checksum_value(marker, 0, len, payload)) + payload
}

/// The record that ends a log whose entries have moved to a newer Base.
pub open spec fn compact_marker_bytes() -> Seq<u8> {
    record_bytes(Marker::Compact, Seq::empty())
}

/// The value that an operation carries; a deletion carries none.
pub open spec fn operation_value(value: Option<Seq<u8>>) -> Seq<u8> {
    match value {
        Some(value) => value,
        None => Seq::empty(),
    }
}

/// The marker of an operation.
pub open spec fn operation_marker(value: Option<Seq<u8>>) -> Marker {
    match value {
        Some(_) => Marker::Put,
        None => Marker::Delete,
    }
}

/// An operation of a batch.
pub open spec fn operation_bytes(operation: (Seq<u8>, Option<Seq<u8>>)) -> Seq<u8> {
    let value = operation_value(operation.1);
    prefix_bytes(
        operation_marker(operation.1),
        operation.0.len() as u32,
        value.len() as u32,
    ) + operation.0 + value
}

/// The size of an operation.
pub open spec fn operation_size(operation: (Seq<u8>, Option<Seq<u8>>)) -> int {
    9int + operation.0.len() + operation_value(operation.1).len()
}

/// Operations one after the other.
pub open spec fn operations_bytes(operations: Seq<(Seq<u8>, Option<Seq<u8>>)>) -> Seq<u8>
    decreases operations.len(),
{
    if operations.len() == 0 {
        Seq::empty()
    } else {
        operations_bytes(operations.drop_last()) + operation_bytes(operations.last())
    }
}

/// The size of operations one after the other.
pub open spec fn operations_size(operations: Seq<(Seq<u8>, Option<Seq<u8>>)>) -> int
    decreases operations.len(),
{
    if operations.len() == 0 {
        0
    } else {
        operations_size(operations.drop_last()) + operation_size(operations.last())
    }
}

/// The payload of a batch record.
pub open spec fn batch_payload(operations: Seq<(Seq<u8>, Option<Seq<u8>>)>) -> Seq<u8> {
    bytes::u32_bytes(operations.len() as u32) + operations_bytes(operations)
}

/// The record of a batch.
pub open spec fn batch_record(operations: Seq<(Seq<u8>, Option<Seq<u8>>)>) -> Seq<u8> {
    record_bytes(Marker::Batch, batch_payload(operations))
}

/// The operations that staged mutations stand for.
pub open spec fn staged_operations(keys: Seq<Seq<u8>>, values: Seq<OverlayEntry>) -> Seq<
    (Seq<u8>, Option<Seq<u8>>),
> {
    Seq::new(keys.len(), |i: int| (keys[i], values[i]@))
}

/// The sizes of what is written add up.
pub proof fn lemma_operations_size(operations: Seq<(Seq<u8>, Option<Seq<u8>>)>)
    ensures
        operations_bytes(operations).len() == operations_size(operations),
        operations_size(operations) >= 9 * operations.len(),
    decreases operations.len(),
{
    broadcast use bytes::lemma_u32_bytes_len;

    if operations.len() > 0 {
        lemma_operations_size(operations.drop_last());
    }
}

/// A header has its fixed size.
pub proof fn lemma_header_len(marker: Marker, key_len: u32, value_len: u32, record_checksum: u32)
    ensures
        header_bytes(marker, key_len, value_len, record_checksum).len() == LOG_HEADER_SIZE,
        prefix_bytes(marker, key_len, value_len).len() == 9,
{
    broadcast use bytes::lemma_u32_bytes_len;

}

/// The size of the payload of a batch, where the log has room for it.
pub open spec fn payload_len_outcome(operations: Seq<(Seq<u8>, Option<Seq<u8>>)>) -> std::result::Result<
    int,
    ErrorView,
> {
    let len = 4 + operations_size(operations);
    if operations.len() > MAX_BATCH_OPERATIONS {
        Err(error::invalid_input("transaction exceeds the 1000000 operation limit"@))
    } else if len > usize::MAX {
        Err(error::invalid_input("batch is too large"@))
    } else if len > MAX_LOG_PAYLOAD_SIZE {
        Err(error::invalid_input("transaction payload exceeds the log record limit"@))
    } else {
        Ok(len)
    }
}

/// Adds an operation to a running size.
fn add_operation(size: usize, key_len: usize, value_len: usize) -> (sum: Option<usize>)
    ensures
        match sum {
            Some(sum) => sum == size + 9 + key_len + value_len,
            None => size + 9 + key_len + value_len > usize::MAX,
        },
{
    match size.checked_add(9) {
        Some(size) => match size.checked_add(key_len) {
            Some(size) => size.checked_add(value_len),
            None => None,
        },
        None => None,
    }
}

proof fn lemma_operations_prefix(operations: Seq<(Seq<u8>, Option<Seq<u8>>)>, i: int)
    requires
        0 <= i <= operations.len(),
    ensures
        operations_size(operations.take(i)) <= operations_size(operations),
    decreases operations.len(),
{
    if i == operations.len() {
        assert(operations.take(i) =~= operations);
    } else {
        assert(operations.take(i) =~= operations.drop_last().take(i));
        lemma_operations_prefix(operations.drop_last(), i);
    }
}

/// The size of the payload of a batch.
pub fn batch_payload_len(staged: &KeyMap<OverlayEntry>) -> (result: Result<u32>)
    requires
        staged.wf(),
        state::entries_wf(staged.values()),
    ensures
        match result {
            Ok(len) => payload_len_outcome(staged_operations(staged.keys(), staged.values()))
                == Ok::<int, ErrorView>(len as int),
            Err(error) => payload_len_outcome(staged_operations(staged.keys(), staged.values()))
                == Err::<int, ErrorView>(error@),
        },
{
    let ghost operations = staged_operations(staged.keys(), staged.values());
    proof {
        staged.lemma_wf();
        assert(operations.take(0) =~= Seq::empty());
    }
    if staged.len() > MAX_BATCH_OPERATIONS {
        return Err(
            Error::from_io(
                ErrorKind::InvalidInput,
                "transaction exceeds the 1000000 operation limit",
            ),
        );
    }
    let mut len: usize = 4;
    let mut i: usize = 0;
    while i < staged.len()
        invariant
            i <= operations.len(),
            staged.wf(),
            state::entries_wf(staged.values()),
            staged.keys().len() == staged.values().len(),
            operations == staged_operations(staged.keys(), staged.values()),
            operations.len() <= MAX_BATCH_OPERATIONS,
            len == 4 + operations_size(operations.take(i as int)),
        decreases operations.len() - i,
    {
        let (key, entry) = staged.entry_at(i);
        let value_len: usize = match entry {
            OverlayEntry::Put(value) => value.len(),
            OverlayEntry::Delete => 0,
        };
        proof {
            assert(operations.take(i + 1).drop_last() =~= operations.take(i as int));
            lemma_operations_prefix(operations, i + 1);
        }
        let sum: usize = match add_operation(len, key.len(), value_len) {
            Some(sum) => sum,
            None => {
                return Err(Error::from_io(ErrorKind::InvalidInput, "batch is too large"));
            },
        };
        len = sum;
        i += 1;
    }
    proof {
        assert(operations.take(i as int) =~= operations);
    }
    if len > MAX_LOG_PAYLOAD_SIZE {
        return Err(
            Error::from_io(
                ErrorKind::InvalidInput,
                "transaction payload exceeds the log record limit",
            ),
        );
    }
    Ok(len as u32)
}

/// The checksum with which a record starts, before its payload.
pub(crate) fn record_checksum_start(marker: Marker, key_len: u32, value_len: u32) -> (checksum: u32)
    ensures
        checksum == checksum::crc32c_value(prefix_bytes(marker, key_len, value_len)),
{
    let mut prefix: Vec<u8> = Vec::new();
    push_u8(&mut prefix, marker.to_byte());
    push_u32(&mut prefix, key_len);
    push_u32(&mut prefix, value_len);
    assert(prefix@ =~= prefix_bytes(marker, key_len, value_len));
    crc32c_append(0, prefix.as_slice())
}

/// The checksum of a record.
pub fn record_checksum(marker: Marker, key_len: u32, value_len: u32, payload: &[u8]) -> (checksum:
    u32)
    ensures
        checksum == record_checksum_value(marker, key_len, value_len, payload@),
{
    let start: u32 = record_checksum_start(marker, key_len, value_len);
    crc32c_append(start, payload)
}

/// Appends a record header.
pub fn write_record_header(
    writer: &mut Vec<u8>,
    marker: Marker,
    key_len: u32,
    value_len: u32,
    record_checksum: u32,
)
    ensures
        final(writer)@ == old(writer)@ + header_bytes(
            marker,
            key_len,
            value_len,
            record_checksum,
        ),
{
    let mut header: Vec<u8> = Vec::new();
    push_u8(&mut header, marker.to_byte());
    push_u32(&mut header, key_len);
    push_u32(&mut header, value_len);
    push_u32(&mut header, record_checksum);
    assert(header@ =~= prefix_bytes(marker, key_len, value_len) + bytes::u32_bytes(
        record_checksum,
    ));
    let header_checksum: u32 = crc32c(header.as_slice());
    push_u32(&mut header, header_checksum);
    push_bytes(writer, header.as_slice());
}

/// Appends the record that ends a log.
pub fn write_compact_marker(writer: &mut Vec<u8>)
    ensures
        final(writer)@ == old(writer)@ + compact_marker_bytes(),
{
    let checksum: u32 = record_checksum_start(Marker::Compact, 0, 0);
    proof {
        let prefix = prefix_bytes(Marker::Compact, 0, 0);
        assert(prefix + Seq::<u8>::empty() =~= prefix);
    }
    write_record_header(writer, Marker::Compact, 0, 0, checksum);
    proof {
        let header = header_bytes(Marker::Compact, 0, 0, checksum);
        assert(header + Seq::<u8>::empty() =~= header);
    }
}

/// Whether the cached checksum of every staged value is the checksum of that value.
pub open spec fn checksums_agree(
    staged: Map<Seq<u8>, OverlayEntry>,
    value_checksums: Map<Seq<u8>, u32>,
) -> bool {
    forall|key: Seq<u8>| #[trigger]
        value_checksums.contains_key(key) && staged.contains_key(key) ==> (match staged[key]@ {
            Some(value) => value_checksums[key] == checksum::crc32c_value(value),
            None => true,
        })
}

/// What continuing a checksum over operations gives, when the checksums of some values are
/// cached.
pub open spec fn cached_checksum(
    start: u32,
    operations: Seq<(Seq<u8>, Option<Seq<u8>>)>,
    cached: Map<Seq<u8>, u32>,
) -> u32
    decreases operations.len(),
{
    if operations.len() == 0 {
        start
    } else {
        let (key, value) = operations.last();
        let before = cached_checksum(start, operations.drop_last(), cached);
        let with_key = checksum::crc32c_append_value(
            before,
            prefix_bytes(
                operation_marker(value),
                key.len() as u32,
                operation_value(value).len() as u32,
            ) + key,
        );
        match value {
            None => with_key,
            Some(value) => if cached.contains_key(key) {
                checksum::crc32c_combine_value(with_key, cached[key], value.len() as usize)
            } else {
                checksum::crc32c_append_value(with_key, value)
            },
        }
    }
}

/// The checksum of the record of a batch when the checksums of some values are cached.
pub open spec fn cached_record_checksum(
    operations: Seq<(Seq<u8>, Option<Seq<u8>>)>,
    cached: Map<Seq<u8>, u32>,
) -> u32 {
    let len = batch_payload(operations).len() as u32;
    let start = checksum::crc32c_value(prefix_bytes(Marker::Batch, 0, len));
    cached_checksum(
        checksum::crc32c_append_value(start, bytes::u32_bytes(operations.len() as u32)),
        operations,
        cached,
    )
}

/// The record of a batch with the checksum that cached checksums of values lead to.
pub open spec fn cached_batch_record(
    operations: Seq<(Seq<u8>, Option<Seq<u8>>)>,
    cached: Map<Seq<u8>, u32>,
) -> Seq<u8> {
    let payload = batch_payload(operations);
    header_bytes(
        Marker::Batch,
        0,
        payload.len() as u32,
        cached_record_checksum(operations, cached),
    ) + payload
}

/// The checksums that are cached.
pub open spec fn cache_view(value_checksums: Option<&KeyMap<u32>>) -> Map<Seq<u8>, u32> {
    match value_checksums {
        Some(values) => values@,
        None => Map::empty(),
    }
}

/// The checksum of the record of a batch, from the checksums of values that are
/// cached.
fn batch_record_checksum(
    staged: &KeyMap<OverlayEntry>,
    value_checksums: Option<&KeyMap<u32>>,
    payload_len: u32,
) -> (checksum: u32)
    requires
        staged.wf(),
        state::entries_wf(staged.values()),
        staged.keys().len() <= MAX_BATCH_OPERATIONS,
        value_checksums matches Some(values) ==> values.wf(),
        payload_len == batch_payload(staged_operations(staged.keys(), staged.values())).len(),
    ensures
        checksum == cached_record_checksum(
            staged_operations(staged.keys(), staged.values()),
            cache_view(value_checksums),
        ),
        (value_checksums matches Some(values) ==> checksums_agree(staged@, values@)) ==> checksum
            == record_checksum_value(
            Marker::Batch,
            0,
            payload_len,
            batch_payload(staged_operations(staged.keys(), staged.values())),
        ),
{
    let ghost operations = staged_operations(staged.keys(), staged.values());
    let ghost agree = value_checksums matches Some(values) ==> checksums_agree(staged@, values@);
    proof {
        staged.lemma_wf();
        assert(operations.take(0) =~= Seq::empty());
    }
    let mut checksum: u32 = record_checksum_start(Marker::Batch, 0, payload_len);
    let mut part: Vec<u8> = Vec::new();
    push_u32(&mut part, staged.len() as u32);
    assert(part@ =~= bytes::u32_bytes(operations.len() as u32));
    checksum = crc32c_append(checksum, part.as_slice());
    let ghost start = checksum;
    let ghost cached = cache_view(value_checksums);
    let ghost mut covered = prefix_bytes(Marker::Batch, 0, payload_len) + part@;
    proof {
        assert(covered =~= prefix_bytes(Marker::Batch, 0, payload_len) + (bytes::u32_bytes(
            operations.len() as u32,
        ) + operations_bytes(operations.take(0))));
    }
    let mut i: usize = 0;
    while i < staged.len()
        invariant
            i <= operations.len(),
            staged.wf(),
            state::entries_wf(staged.values()),
            staged.keys().len() == staged.values().len(),
            value_checksums matches Some(values) ==> values.wf(),
            operations == staged_operations(staged.keys(), staged.values()),
            agree == (value_checksums matches Some(values) ==> checksums_agree(
                staged@,
                values@,
            )),
            covered == prefix_bytes(Marker::Batch, 0, payload_len) + (bytes::u32_bytes(
                operations.len() as u32,
            ) + operations_bytes(operations.take(i as int))),
            agree ==> checksum == checksum::crc32c_value(covered),
            cached == cache_view(value_checksums),
            checksum == cached_checksum(start, operations.take(i as int), cached),
        decreases operations.len() - i,
    {
        let (key, entry) = staged.entry_at(i);
        let (marker, value_len): (Marker, usize) = match entry {
            OverlayEntry::Put(value) => (Marker::Put, value.len()),
            OverlayEntry::Delete => (Marker::Delete, 0),
        };
        let mut head: Vec<u8> = Vec::new();
        push_u8(&mut head, marker.to_byte());
        push_u32(&mut head, key.len() as u32);
        push_u32(&mut head, value_len as u32);
        push_bytes(&mut head, key);
        checksum = crc32c_append(checksum, head.as_slice());
        let ghost with_key = covered + head@;
        let ghost operation = operations[i as int];
        if let OverlayEntry::Put(value) = entry {
            let cached: Option<u32> = match value_checksums {
                Some(values) => match values.get(key) {
                    Some(value_checksum) => Some(*value_checksum),
                    None => None,
                },
                None => None,
            };
            checksum = match cached {
                Some(value_checksum) => {
                    let combined: u32 = crc32c_combine(checksum, value_checksum, value.len());
                    assert(agree ==> combined == checksum::crc32c_value(with_key + value@));
                    combined
                },
                None => crc32c_append(checksum, value.as_slice()),
            };
        }
        proof {
            let longer = operations.take(i + 1);
            assert(longer.drop_last() =~= operations.take(i as int));
            assert(longer.last() == operation);
            assert(head@ =~= prefix_bytes(
                operation_marker(operation.1),
                operation.0.len() as u32,
                operation_value(operation.1).len() as u32,
            ) + operation.0);
            let after = prefix_bytes(Marker::Batch, 0, payload_len) + (bytes::u32_bytes(
                operations.len() as u32,
            ) + operations_bytes(longer));
            assert(after =~= with_key + operation_value(operation.1));
            assert(with_key + Seq::<u8>::empty() =~= with_key);
            covered = after;
        }
        i += 1;
    }
    proof {
        assert(operations.take(i as int) =~= operations);
    }
    checksum
}

/// Appends the record of a batch.
pub fn write_batch_record(writer: &mut Vec<u8>, staged: &KeyMap<OverlayEntry>) -> (result: Result<
    (),
>)
    requires
        staged.wf(),
        state::entries_wf(staged.values()),
    ensures
        match payload_len_outcome(staged_operations(staged.keys(), staged.values())) {
            Ok(_) => result is Ok && final(writer)@ == old(writer)@ + batch_record(
                staged_operations(staged.keys(), staged.values()),
            ),
            Err(expected) => final(writer)@ == old(writer)@ && error::outcome(result) == Err::<
                (),
                ErrorView,
            >(expected),
        },
{
    write_batch_record_inner(writer, staged, None)
}

/// Appends the record of a batch, from the checksums of values that are cached. Where
/// these agree with the values, the record is the same as without them.
pub fn write_batch_record_with_checksums(
    writer: &mut Vec<u8>,
    staged: &KeyMap<OverlayEntry>,
    value_checksums: &KeyMap<u32>,
) -> (result: Result<()>)
    requires
        staged.wf(),
        state::entries_wf(staged.values()),
        value_checksums.wf(),
    ensures
        match payload_len_outcome(staged_operations(staged.keys(), staged.values())) {
            Ok(_) => {
                &&& result is Ok
                &&& final(writer)@ == old(writer)@ + cached_batch_record(
                    staged_operations(staged.keys(), staged.values()),
                    value_checksums@,
                )
                &&& checksums_agree(staged@, value_checksums@) ==> final(writer)@ == old(writer)@
                    + batch_record(staged_operations(staged.keys(), staged.values()))
            },
            Err(expected) => final(writer)@ == old(writer)@ && error::outcome(result) == Err::<
                (),
                ErrorView,
            >(expected),
        },
{
    proof {
        value_checksums.lemma_wf();
        if value_checksums@.dom().len() == 0 {
            assert(value_checksums@ =~= Map::empty());
        }
    }
    if value_checksums.is_empty() {
        write_batch_record_inner(writer, staged, None)
    } else {
        write_batch_record_inner(writer, staged, Some(value_checksums))
    }
}

fn write_batch_record_inner(
    writer: &mut Vec<u8>,
    staged: &KeyMap<OverlayEntry>,
    value_checksums: Option<&KeyMap<u32>>,
) -> (result: Result<()>)
    requires
        staged.wf(),
        state::entries_wf(staged.values()),
        value_checksums matches Some(values) ==> values.wf(),
    ensures
        match payload_len_outcome(staged_operations(staged.keys(), staged.values())) {
            Ok(_) => {
                &&& result is Ok
                &&& final(writer)@ == old(writer)@ + cached_batch_record(
                    staged_operations(staged.keys(), staged.values()),
                    cache_view(value_checksums),
                )
                &&& (value_checksums matches Some(values) ==> checksums_agree(staged@, values@))
                    ==> final(writer)@ == old(writer)@ + batch_record(
                    staged_operations(staged.keys(), staged.values()),
                )
            },
            Err(expected) => final(writer)@ == old(writer)@ && error::outcome(result) == Err::<
                (),
                ErrorView,
            >(expected),
        },
{
    let ghost operations = staged_operations(staged.keys(), staged.values());
    let payload_len: u32 = match batch_payload_len(staged) {
        Ok(len) => len,
        Err(error) => {
            return Err(error);
        },
    };
    proof {
        broadcast use bytes::lemma_u32_bytes_len;

        staged.lemma_wf();
        lemma_operations_size(operations);
        assert(batch_payload(operations).len() == payload_len);
        assert(operations.take(0) =~= Seq::empty());
    }
    let count: u32 = staged.len() as u32;
    let checksum: u32 = batch_record_checksum(staged, value_checksums, payload_len);
    let ghost before = writer@;
    write_record_header(writer, Marker::Batch, 0, payload_len, checksum);
    let ghost headed = writer@;
    push_u32(writer, count);
    assert(writer@ =~= headed + (bytes::u32_bytes(operations.len() as u32) + operations_bytes(
        operations.take(0),
    )));
    let mut i: usize = 0;
    while i < staged.len()
        invariant
            i <= operations.len(),
            staged.wf(),
            state::entries_wf(staged.values()),
            staged.keys().len() == staged.values().len(),
            operations == staged_operations(staged.keys(), staged.values()),
            writer@ == headed + (bytes::u32_bytes(operations.len() as u32) + operations_bytes(
                operations.take(i as int),
            )),
        decreases operations.len() - i,
    {
        let (key, entry) = staged.entry_at(i);
        let ghost operation = operations[i as int];
        let ghost written = writer@;
        match entry {
            OverlayEntry::Put(value) => {
                push_u8(writer, Marker::Put.to_byte());
                push_u32(writer, key.len() as u32);
                push_u32(writer, value.len() as u32);
                push_bytes(writer, key);
                push_bytes(writer, value.as_slice());
            },
            OverlayEntry::Delete => {
                push_u8(writer, Marker::Delete.to_byte());
                push_u32(writer, key.len() as u32);
                push_u32(writer, 0);
                push_bytes(writer, key);
            },
        }
        proof {
            let longer = operations.take(i + 1);
            assert(longer.drop_last() =~= operations.take(i as int));
            assert(longer.last() == operation);
            assert(writer@ =~= written + operation_bytes(operation));
            assert(writer@ =~= headed + (bytes::u32_bytes(operations.len() as u32)
                + operations_bytes(longer)));
        }
        i += 1;
    }
    proof {
        assert(operations.take(i as int) =~= operations);
        assert(writer@ =~= before + cached_batch_record(operations, cache_view(value_checksums)));
        if value_checksums matches Some(values) ==> checksums_agree(staged@, values@) {
            assert(writer@ =~= before + batch_record(operations));
        }
    }
    Ok(())
}

} // verus!
