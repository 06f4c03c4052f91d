//! Recovering the Overlay from its log.

use crate::bytes;
use crate::bytes::{copy_bytes, u32_at};
use crate::checksum;
use crate::checksum::{crc32c, crc32c_append};
use crate::database::overlay_map::OverlayMap;
use crate::database::replay;
use crate::database::state;
use crate::database::state::{BaseBytes, OverlayEntry, ValueBytes};
use crate::error;
use crate::error::{Error, ErrorKind, ErrorView, Result};
use crate::format::log;
use crate::format::log::{record_checksum, record_checksum_start, Marker, LOG_HEADER_CHECKSUM_OFFSET, LOG_HEADER_SIZE, MAX_BATCH_OPERATIONS};
use crate::format::segment::{MAX_KEY_SIZE, MAX_VALUE_SIZE};
use crate::key_map;
use crate::key_map::KeyMap;
use crate::room;
use crate::room::Room;
use crate::text;
use crate::text::append_decimal;
use vstd::prelude::*;
use vstd::string::StringExecFns;

verus! {

/// Where the latest operation on a key is in the file.
#[derive(Clone, Copy)]
pub struct RecoveredOverlayEntry {
    pub operation_offset: u64,
}

/// The length of the key of the operation at `at`.
pub open spec fn operation_key_len(payload: Seq<u8>, at: int) -> int {
    bytes::le_u32(payload, at + 1) as int
}

/// The length of the value of the operation at `at`.
pub open spec fn operation_value_len(payload: Seq<u8>, at: int) -> int {
    bytes::le_u32(payload, at + 5) as int
}

/// Where the operation at `at` ends.
pub open spec fn operation_end(payload: Seq<u8>, at: int) -> int {
    at + 9 + operation_key_len(payload, at) + operation_value_len(payload, at)
}

/// The key of the operation at `at`.
pub open spec fn operation_key(payload: Seq<u8>, at: int) -> Seq<u8> {
    payload.subrange(at + 9, at + 9 + operation_key_len(payload, at))
}

/// What the operation at `at` says of its key.
pub open spec fn operation_effect(payload: Seq<u8>, at: int) -> Option<Seq<u8>> {
    if payload[at] == log::marker_byte(Marker::Put) {
        Some(
            payload.subrange(
                at + 9 + operation_key_len(payload, at),
                operation_end(payload, at),
            ),
        )
    } else {
        None
    }
}

/// Whether a whole operation starts at `at`, and if not, what is wrong.
pub open spec fn operation_outcome(payload: Seq<u8>, at: int) -> std::result::Result<
    (),
    ErrorView,
> {
    let put = payload[at] == log::marker_byte(Marker::Put);
    let delete = payload[at] == log::marker_byte(Marker::Delete);
    let key_len = operation_key_len(payload, at);
    let value_len = operation_value_len(payload, at);
    if at + 9 > payload.len() {
        Err(error::invalid_data("truncated batch operation"@))
    } else if !(put || delete) || (delete && value_len != 0) || key_len > MAX_KEY_SIZE || value_len
        > MAX_VALUE_SIZE {
        Err(error::invalid_data("invalid batch operation"@))
    } else if operation_end(payload, at) > payload.len() {
        Err(error::invalid_data("truncated batch value"@))
    } else {
        Ok(())
    }
}

/// What the next `n` operations from `at` on make of what is known of the keys.
pub open spec fn apply_operations(
    payload: Seq<u8>,
    payload_offset: int,
    at: int,
    n: nat,
    known: Map<Seq<u8>, RecoveredOverlayEntry>,
) -> std::result::Result<Map<Seq<u8>, RecoveredOverlayEntry>, ErrorView>
    decreases n,
{
    if n == 0 {
        if at == payload.len() {
            Ok(known)
        } else {
            Err(error::invalid_data("trailing bytes in batch"@))
        }
    } else {
        match operation_outcome(payload, at) {
            Err(error) => Err(error),
            Ok(_) => apply_operations(
                payload,
                payload_offset,
                operation_end(payload, at),
                (n - 1) as nat,
                known.insert(
                    operation_key(payload, at),
                    RecoveredOverlayEntry { operation_offset: (payload_offset + at) as u64 },
                ),
            ),
        }
    }
}

/// What a batch makes of what is known of the keys.
pub open spec fn apply_outcome(
    payload: Seq<u8>,
    payload_offset: int,
    known: Map<Seq<u8>, RecoveredOverlayEntry>,
) -> std::result::Result<Map<Seq<u8>, RecoveredOverlayEntry>, ErrorView> {
    let count = bytes::le_u32(payload, 0);
    if payload.len() < 4 {
        Err(error::invalid_data("truncated batch count"@))
    } else if count > MAX_BATCH_OPERATIONS {
        Err(error::invalid_data("batch operation count exceeds the runtime limit"@))
    } else {
        apply_operations(payload, payload_offset, 4, count as nat, known)
    }
}

/// Whether applying the next `n` operations from `at` on reserves memory: there is one
/// with a key that is not empty or not known.
pub open spec fn operations_reserve(
    payload: Seq<u8>,
    payload_offset: int,
    at: int,
    n: nat,
    known: Map<Seq<u8>, RecoveredOverlayEntry>,
) -> bool
    decreases n,
{
    &&& n > 0
    &&& operation_outcome(payload, at) is Ok
    &&& {
        ||| operation_key_len(payload, at) > 0
        ||| !known.contains_key(operation_key(payload, at))
        ||| operations_reserve(
            payload,
            payload_offset,
            operation_end(payload, at),
            (n - 1) as nat,
            known.insert(
                operation_key(payload, at),
                RecoveredOverlayEntry { operation_offset: (payload_offset + at) as u64 },
            ),
        )
    }
}

/// Whether applying a batch reserves memory. Where nothing is known yet, room for all
/// operations is reserved first.
pub open spec fn batch_reserves(
    payload: Seq<u8>,
    payload_offset: int,
    known: Map<Seq<u8>, RecoveredOverlayEntry>,
) -> bool {
    let count = bytes::le_u32(payload, 0);
    &&& payload.len() >= 4
    &&& 0 < count <= MAX_BATCH_OPERATIONS
    &&& known == Map::<Seq<u8>, RecoveredOverlayEntry>::empty() || operations_reserve(
        payload,
        payload_offset,
        4,
        count as nat,
        known,
    )
}

/// The error for something wrong at `offset`; the message is `prefix` followed by the
/// offset.
pub open spec fn offset_error(prefix: Seq<char>, offset: int) -> ErrorView {
    error::invalid_data(prefix + text::decimal(offset as nat))
}

/// Where the record at `offset` ends.
pub open spec fn log_record_end(file: Seq<u8>, offset: int) -> int {
    offset + LOG_HEADER_SIZE + bytes::le_u32(file, offset + 1) + bytes::le_u32(file, offset + 5)
}

/// What recovering the log from `offset` on makes of what is known of the keys, and
/// where the log ends: at an incomplete record or at one that ends the log.
pub open spec fn scan_from(
    file: Seq<u8>,
    offset: int,
    end: int,
    known: Map<Seq<u8>, RecoveredOverlayEntry>,
) -> std::result::Result<(Map<Seq<u8>, RecoveredOverlayEntry>, int), ErrorView>
    decreases end - offset,
{
    let marker = file[offset];
    let key_len = bytes::le_u32(file, offset + 1);
    let value_len = bytes::le_u32(file, offset + 5);
    let stored = bytes::le_u32(file, offset + 9);
    let payload = file.subrange(offset + LOG_HEADER_SIZE, log_record_end(file, offset));
    if offset >= end || offset + LOG_HEADER_SIZE > file.len() {
        Ok((known, offset))
    } else if checksum::crc32c_value(file.subrange(offset, offset + LOG_HEADER_CHECKSUM_OFFSET))
        != bytes::le_u32(file, offset + LOG_HEADER_CHECKSUM_OFFSET) {
        Err(
            error::corrupted_log(
                offset as u64,
                "overlay header checksum mismatch at offset "@,
            ),
        )
    } else if log_record_end(file, offset) > end {
        Ok((known, offset))
    } else if marker == 0 || marker > 4 {
        Err(offset_error("invalid overlay operation at offset "@, offset))
    } else if marker == log::marker_byte(Marker::Compact) && key_len == 0 && value_len == 0 {
        if stored == log::record_checksum_value(Marker::Compact, 0, 0, Seq::empty()) {
            Ok((known, offset))
        } else {
            Err(
                error::corrupted_log(
                    offset as u64,
                    "invalid compact marker checksum at offset "@,
                ),
            )
        }
    } else if marker != log::marker_byte(Marker::Batch) || key_len != 0 {
        Err(offset_error("unexpected overlay marker at offset "@, offset))
    } else if log_record_end(file, offset) > file.len() {
        Err(error::io_error(ErrorKind::UnexpectedEof, "truncated batch data"@))
    } else if log::record_checksum_value(Marker::Batch, 0, value_len, payload) != stored {
        Err(error::corrupted_log(offset as u64, "overlay checksum mismatch at offset "@))
    } else {
        match apply_outcome(payload, offset + LOG_HEADER_SIZE, known) {
            Err(error) => Err(error),
            Ok(known) => scan_from(file, log_record_end(file, offset), end, known),
        }
    }
}

/// What recovering the log in a range of a file gives.
pub open spec fn scan_outcome(file: Seq<u8>, start: int, end: int) -> std::result::Result<
    (Map<Seq<u8>, RecoveredOverlayEntry>, int),
    ErrorView,
> {
    if start > end {
        Err(error::invalid_base("overlay range precedes active Base"@))
    } else {
        scan_from(file, start, end, Map::empty())
    }
}

/// Whether a whole batch that matches its checksums starts at `offset` of a log.
pub open spec fn holds_batch(file: Seq<u8>, offset: int, end: int) -> bool {
    let value_len = bytes::le_u32(file, offset + 5);
    let record_end = log_record_end(file, offset);
    &&& offset < end
    &&& offset + LOG_HEADER_SIZE <= file.len()
    &&& checksum::crc32c_value(file.subrange(offset, offset + LOG_HEADER_CHECKSUM_OFFSET))
        == bytes::le_u32(file, offset + LOG_HEADER_CHECKSUM_OFFSET)
    &&& record_end <= end
    &&& record_end <= file.len()
    &&& file[offset] == log::marker_byte(Marker::Batch)
    &&& bytes::le_u32(file, offset + 1) == 0
    &&& log::record_checksum_value(
        Marker::Batch,
        0,
        value_len,
        file.subrange(offset + LOG_HEADER_SIZE, record_end),
    ) == bytes::le_u32(file, offset + 9)
}

/// Whether a whole batch starts at `offset` of a log, as its header has it.
pub open spec fn has_batch_header(file: Seq<u8>, offset: int, end: int) -> bool {
    &&& offset < end
    &&& offset + LOG_HEADER_SIZE <= file.len()
    &&& checksum::crc32c_value(file.subrange(offset, offset + LOG_HEADER_CHECKSUM_OFFSET))
        == bytes::le_u32(file, offset + LOG_HEADER_CHECKSUM_OFFSET)
    &&& log_record_end(file, offset) <= end
    &&& log_record_end(file, offset) <= file.len()
    &&& file[offset] == log::marker_byte(Marker::Batch)
    &&& bytes::le_u32(file, offset + 1) == 0
}

/// Whether the checksums that recovering the log from `offset` on computes show every change
/// of a single byte.
pub open spec fn scan_tells(
    file: Seq<u8>,
    offset: int,
    end: int,
    known: Map<Seq<u8>, RecoveredOverlayEntry>,
) -> bool
    decreases end - offset,
{
    let record_end = log_record_end(file, offset);
    let payload = file.subrange(offset + LOG_HEADER_SIZE, record_end);
    &&& offset < end && offset + LOG_HEADER_SIZE <= file.len() ==> checksum::tells_apart(
        checksum::crc32c_value(file.subrange(offset, offset + LOG_HEADER_CHECKSUM_OFFSET)),
    )
    &&& has_batch_header(file, offset, end) ==> checksum::tells_apart(
        log::record_checksum_value(
            Marker::Batch,
            0,
            bytes::le_u32(file, offset + 5),
            payload,
        ),
    )
    &&& holds_batch(file, offset, end) ==> (apply_outcome(
        payload,
        offset + LOG_HEADER_SIZE,
        known,
    ) matches Ok(known) ==> scan_tells(file, record_end, end, known))
}

/// Whether a log is one of committed batches.
pub open spec fn is_log(
    file: Seq<u8>,
    start: int,
    end: int,
    batches: Seq<Seq<(Seq<u8>, Option<Seq<u8>>)>>,
) -> bool {
    &&& 0 <= start <= end <= file.len()
    &&& replay::batches_fit(batches)
    &&& file.subrange(start, end) == replay::log_bytes(batches)
}

/// Whether `result` reports damage to the log that a file ends with, wherever a single byte
/// of a log of committed batches was changed. Damage is not taken for the end of the log.
pub open spec fn reports_damage(
    file: Seq<u8>,
    start: int,
    end: int,
    result: Result<OverlayScan>,
) -> bool {
    forall|intact: Seq<u8>, batches: Seq<Seq<(Seq<u8>, Option<Seq<u8>>)>>, i: int|
        #![trigger checksum::apart_at(intact, file, i), is_log(intact, start, end, batches)]
        checksum::apart_at(intact, file, i) && start <= i < end && end == file.len() && is_log(
            intact,
            start,
            end,
            batches,
        ) ==> (result matches Err(error) && error::error_kind(error@) == ErrorKind::InvalidData)
}

/// Whether recovering the log from `offset` on reserves memory: it gets to a batch that
/// does.
pub open spec fn scan_reserves(
    file: Seq<u8>,
    offset: int,
    end: int,
    known: Map<Seq<u8>, RecoveredOverlayEntry>,
) -> bool
    decreases end - offset,
{
    let record_end = log_record_end(file, offset);
    let payload = file.subrange(offset + LOG_HEADER_SIZE, record_end);
    &&& holds_batch(file, offset, end)
    &&& {
        ||| batch_reserves(payload, offset + LOG_HEADER_SIZE, known)
        ||| apply_outcome(payload, offset + LOG_HEADER_SIZE, known) matches Ok(known)
            && scan_reserves(file, record_end, end, known)
    }
}

/// Whether recovering the log in a range of a file reserves memory.
pub open spec fn recovery_reserves(file: Seq<u8>, start: int, end: int) -> bool {
    start <= end && scan_reserves(file, start, end, Map::empty())
}

/// The errors that report an allocation that could not be made.
pub open spec fn is_allocation_error(error: ErrorView) -> bool {
    ||| error == error::invalid_base("Overlay index allocation failed"@)
    ||| error == error::invalid_base("batch key allocation failed"@)
}

/// The most that recovering a log reserves at once: for the operations of a batch, or for
/// the bytes of a key.
pub open spec fn replay_limit() -> int {
    vstd::math::max(MAX_BATCH_OPERATIONS as int, MAX_KEY_SIZE as int)
}

/// The latest operation on every key of a log, and where the log ends.
pub struct OverlayScan {
    index: KeyMap<RecoveredOverlayEntry>,
    valid_len: u64,
}

impl View for OverlayScan {
    type V = Map<Seq<u8>, RecoveredOverlayEntry>;

    closed spec fn view(&self) -> Map<Seq<u8>, RecoveredOverlayEntry> {
        self.index@
    }
}

/// Whether a whole operation that was recovered lies in a mapping, and if not, what is
/// wrong.
pub open spec fn locate_outcome(
    entry: RecoveredOverlayEntry,
    mapping: Seq<u8>,
    mapping_offset: u64,
) -> std::result::Result<int, ErrorView> {
    let at = entry.operation_offset - mapping_offset;
    if at < 0 || at > usize::MAX {
        Err(error::invalid_base("Overlay operation offset overflow"@))
    } else if at + 9 > mapping.len() || operation_end(mapping, at) > mapping.len() {
        Err(error::invalid_base("Overlay operation lies outside its mapping"@))
    } else {
        Ok(at)
    }
}

/// The first operation, from position `i` on, that does not lie in a mapping.
pub open spec fn locate_all(
    entries: Seq<RecoveredOverlayEntry>,
    mapping: Seq<u8>,
    mapping_offset: u64,
    i: int,
) -> std::result::Result<(), ErrorView>
    decreases entries.len() - i,
{
    if i >= entries.len() {
        Ok(())
    } else {
        match locate_outcome(entries[i], mapping, mapping_offset) {
            Err(error) => Err(error),
            Ok(_) => locate_all(entries, mapping, mapping_offset, i + 1),
        }
    }
}

/// The bytes of a mapping, if there is one.
pub open spec fn mapping_view(mapping: Option<BaseBytes>) -> Seq<u8> {
    match mapping {
        Some(mapping) => mapping@,
        None => Seq::empty(),
    }
}

impl OverlayScan {
    pub closed spec fn wf(self) -> bool {
        self.index.wf()
    }

    /// Where the log ends.
    pub closed spec fn end(self) -> int {
        self.valid_len as int
    }

    /// The keys, in the order in which they were first met.
    pub closed spec fn keys(self) -> Seq<Seq<u8>> {
        self.index.keys()
    }

    /// The latest operation on each key, in the order of the keys.
    pub closed spec fn operations(self) -> Seq<RecoveredOverlayEntry> {
        self.index.values()
    }

    /// Where the log ends.
    pub fn valid_len(&self) -> (valid_len: u64)
        ensures
            valid_len == self.end(),
    {
        self.valid_len
    }

    /// The keys are listed once, beside their operations.
    pub proof fn lemma_wf(self)
        requires
            self.wf(),
        ensures
            self.keys().no_duplicates(),
            self.keys().len() == self.operations().len(),
            self@ == key_map::pairs_map(self.keys(), self.operations()),
    {
        self.index.lemma_wf();
    }

    /// Whether `result` is what making the Overlay that the log describes can give, with
    /// memory reserved in `room`.
    pub open spec fn indexes(
        self,
        room: Room,
        mapping: Seq<u8>,
        mapping_offset: u64,
        result: Result<OverlayMap<OverlayEntry>>,
    ) -> bool {
        let reserves = self.keys().len() > 0;
        let located = locate_all(self.operations(), mapping, mapping_offset, 0);
        match result {
            Ok(map) => {
                &&& room.grants(reserves, 1)
                &&& map.wf()
                &&& state::entries_wf(map.values())
                &&& located is Ok
                &&& map.keys() == self.keys()
                &&& map.values().len() == self.operations().len()
                &&& forall|i: int|
                    0 <= i < map.values().len() ==> (#[trigger] map.values()[i])@
                        == operation_effect(
                        mapping,
                        self.operations()[i].operation_offset - mapping_offset,
                    )
                &&& forall|i: int|
                    0 <= i < map.values().len() ==> (#[trigger] map.values()[i]).charge()
                        == state::stable_charge(map.values()[i]@)
            },
            Err(error) => {
                ||| room.grants(reserves, 1) && located == Err::<(), ErrorView>(error@)
                ||| room.may_refuse(reserves, self.keys().len() as int) && error@ == error::invalid_base(
                    "Overlay index allocation failed"@,
                )
            },
        }
    }

    /// The Overlay that the log describes. `mapping` holds the bytes of the log, which
    /// start at `mapping_offset` in the file; values stay in it.
    pub fn into_index(self, mapping: Option<BaseBytes>, mapping_offset: u64) -> (result: Result<
        OverlayMap<OverlayEntry>,
    >)
        requires
            self.wf(),
            mapping matches Some(mapping) ==> mapping.wf(),
        ensures
            self.indexes(Room::Ask, mapping_view(mapping), mapping_offset, result),
    {
        self.into_index_in(Room::Ask, mapping, mapping_offset)
    }

    /// The Overlay that the log describes, with memory reserved in `room`.
    pub fn into_index_in(self, room: Room, mapping: Option<BaseBytes>, mapping_offset: u64) -> (result:
        Result<OverlayMap<OverlayEntry>>)
        requires
            self.wf(),
            mapping matches Some(mapping) ==> mapping.wf(),
        ensures
            self.indexes(room, mapping_view(mapping), mapping_offset, result),
    {
        let bytes = match mapping {
            Some(mapping) => mapping,
            None => BaseBytes::whole(std::sync::Arc::new(Vec::new())),
        };
        proof {
            self.index.lemma_wf();
            assert(bytes@ =~= mapping_view(mapping));
        }
        let mut index: OverlayMap<OverlayEntry> = OverlayMap::new();
        if !room.reserve_overlay(&mut index, self.index.len()) {
            assert(room == Room::Ask ==> room::memory_refused(self.keys().len() as int));
            return Err(Error::invalid_base("Overlay index allocation failed"));
        }
        assert(room == Room::Ask && self.keys().len() > 0 ==> room::memory_granted(
            self.keys().len() as int,
        ));
        let mut i: usize = 0;
        while i < self.index.len()
            invariant
                i <= self.index.keys().len(),
                room.grants(self.index.keys().len() > 0, 1),
                self.index.wf(),
                self.index.keys().no_duplicates(),
                self.index.keys().len() == self.index.values().len(),
                bytes.wf(),
                bytes@ == mapping_view(mapping),
                index.wf(),
                index.keys() == self.index.keys().take(i as int),
                index.values().len() == i,
                state::entries_wf(index.values()),
                forall|j: int|
                    0 <= j < i ==> (#[trigger] index.values()[j])@ == operation_effect(
                        bytes@,
                        self.index.values()[j].operation_offset - mapping_offset,
                    ),
                forall|j: int|
                    0 <= j < i ==> (#[trigger] index.values()[j]).charge()
                        == state::stable_charge(index.values()[j]@),
                locate_all(self.index.values(), bytes@, mapping_offset, 0) == locate_all(
                    self.index.values(),
                    bytes@,
                    mapping_offset,
                    i as int,
                ),
            decreases self.index.keys().len() - i,
        {
            let (key, recovered) = self.index.entry_at(i);
            let entry = match recovered_entry(recovered, &bytes, mapping_offset) {
                Ok(entry) => entry,
                Err(error) => {
                    return Err(error);
                },
            };
            let ghost before = index;
            proof {
                before.lemma_wf();
                if before.keys().contains(key@) {
                    let j = before.keys().index_of(key@);
                    assert(before.keys()[j] == key@);
                    assert(self.index.keys()[j] == self.index.keys()[i as int]);
                }
            }
            index.insert(copy_bytes(key), entry);
            proof {
                assert(index.keys() =~= self.index.keys().take(i + 1));
                assert(index.values() == before.values().push(entry));
                assert forall|j: int| 0 <= j < i + 1 implies (#[trigger] index.values()[j]).wf()
                    && index.values()[j]@ == operation_effect(
                    bytes@,
                    self.index.values()[j].operation_offset - mapping_offset,
                ) && index.values()[j].charge() == state::stable_charge(index.values()[j]@) by {
                    if j < i {
                        assert(index.values()[j] == before.values()[j]);
                    }
                }
            }
            i += 1;
        }
        proof {
            assert(index.keys() =~= self.index.keys());
        }
        Ok(index)
    }
}

/// The Overlay entry for an operation that was recovered.
fn recovered_entry(recovered: &RecoveredOverlayEntry, mapping: &BaseBytes, mapping_offset: u64) -> (result:
    Result<OverlayEntry>)
    requires
        mapping.wf(),
    ensures
        match result {
            Ok(entry) => {
                &&& entry.wf()
                &&& locate_outcome(*recovered, mapping@, mapping_offset) is Ok
                &&& entry@ == operation_effect(
                    mapping@,
                    recovered.operation_offset - mapping_offset,
                )
                &&& entry.charge() == state::stable_charge(entry@)
            },
            Err(error) => locate_outcome(*recovered, mapping@, mapping_offset) == Err::<
                int,
                ErrorView,
            >(error@),
        },
{
    let bytes = mapping.as_slice();
    assert(bytes@.len() == bytes.len());
    if recovered.operation_offset < mapping_offset || recovered.operation_offset - mapping_offset
        > usize::MAX as u64 {
        return Err(Error::invalid_base("Overlay operation offset overflow"));
    }
    let at: usize = (recovered.operation_offset - mapping_offset) as usize;
    if at > bytes.len() || bytes.len() - at < 9 {
        return Err(Error::invalid_base("Overlay operation lies outside its mapping"));
    }
    let key_len: usize = u32_at(bytes, at + 1) as usize;
    let value_len: usize = u32_at(bytes, at + 5) as usize;
    let remaining: usize = bytes.len() - at - 9;
    if key_len > remaining || value_len > remaining - key_len {
        return Err(Error::invalid_base("Overlay operation lies outside its mapping"));
    }
    if bytes[at] == 1 {
        let start: usize = at + 9 + key_len;
        Ok(
            OverlayEntry::Put(
                ValueBytes::Mapped { bytes: mapping.clone(), range: start..start + value_len },
            ),
        )
    } else {
        Ok(OverlayEntry::Delete)
    }
}

/// A batch whose operations are being read.
struct BatchReader<'a> {
    payload: &'a [u8],
    position: usize,
}

struct BatchOperation {
    key_len: usize,
    value_len: usize,
}

impl<'a> BatchReader<'a> {
    spec fn wf(self) -> bool {
        self.position <= self.payload@.len()
    }

    fn new(payload: &'a [u8]) -> (reader: Self)
        ensures
            reader.wf(),
            reader.payload == payload,
            reader.position == 0,
    {
        BatchReader { payload, position: 0 }
    }

    fn read_count(&mut self) -> (result: Result<usize>)
        requires
            old(self).wf(),
            old(self).position == 0,
        ensures
            final(self).wf(),
            final(self).payload == old(self).payload,
            match result {
                Ok(count) => old(self).payload@.len() >= 4 && count == bytes::le_u32(
                    old(self).payload@,
                    0,
                ) && count <= MAX_BATCH_OPERATIONS && final(self).position == 4,
                Err(error) => error@ == (if old(self).payload@.len() < 4 {
                    error::invalid_data("truncated batch count"@)
                } else {
                    error::invalid_data("batch operation count exceeds the runtime limit"@)
                }) && (old(self).payload@.len() >= 4 ==> bytes::le_u32(old(self).payload@, 0)
                    > MAX_BATCH_OPERATIONS),
            },
    {
        if self.payload.len() < 4 {
            return Err(Error::from_io(ErrorKind::InvalidData, "truncated batch count"));
        }
        let count: usize = u32_at(self.payload, 0) as usize;
        self.position = 4;
        if count > MAX_BATCH_OPERATIONS {
            return Err(
                Error::from_io(
                    ErrorKind::InvalidData,
                    "batch operation count exceeds the runtime limit",
                ),
            );
        }
        Ok(count)
    }

    fn read_operation(&mut self) -> (result: Result<BatchOperation>)
        requires
            old(self).wf(),
        ensures
            final(self).wf(),
            final(self).payload == old(self).payload,
            match result {
                Ok(operation) => {
                    let at = old(self).position as int;
                    &&& operation_outcome(old(self).payload@, at) is Ok
                    &&& operation.key_len == operation_key_len(old(self).payload@, at)
                    &&& operation.value_len == operation_value_len(old(self).payload@, at)
                    &&& final(self).position == at + 9
                },
                Err(error) => operation_outcome(
                    old(self).payload@,
                    old(self).position as int,
                ) == Err::<(), ErrorView>(error@),
            },
    {
        let payload = self.payload;
        let at: usize = self.position;
        assert(payload@.len() == payload.len());
        if payload.len() - at < 9 {
            return Err(Error::from_io(ErrorKind::InvalidData, "truncated batch operation"));
        }
        let marker = Marker::from_byte(payload[at]);
        let key_len: usize = u32_at(payload, at + 1) as usize;
        let value_len: usize = u32_at(payload, at + 5) as usize;
        let (put, delete): (bool, bool) = match marker {
            Some(Marker::Put) => (true, false),
            Some(Marker::Delete) => (false, true),
            _ => (false, false),
        };
        if !(put || delete) || (delete && value_len != 0) || key_len > MAX_KEY_SIZE || value_len
            > MAX_VALUE_SIZE {
            return Err(Error::from_io(ErrorKind::InvalidData, "invalid batch operation"));
        }
        let remaining: usize = payload.len() - at - 9;
        if key_len > remaining || value_len > remaining - key_len {
            return Err(Error::from_io(ErrorKind::InvalidData, "truncated batch value"));
        }
        self.position = at + 9;
        Ok(BatchOperation { key_len, value_len })
    }

    fn consumed(&self) -> (consumed: usize)
        ensures
            consumed == self.position,
    {
        self.position
    }

    fn read_exact(&mut self, len: usize) -> (bytes: &'a [u8])
        requires
            old(self).wf(),
            old(self).position + len <= old(self).payload@.len(),
        ensures
            final(self).wf(),
            final(self).payload == old(self).payload,
            final(self).position == old(self).position + len,
            bytes@ == old(self).payload@.subrange(
                old(self).position as int,
                old(self).position + len,
            ),
    {
        let payload = self.payload;
        assert(payload@.len() == payload.len());
        let start: usize = self.position;
        self.position = start + len;
        &payload[start..start + len]
    }

    fn skip(&mut self, len: usize)
        requires
            old(self).wf(),
            old(self).position + len <= old(self).payload@.len(),
        ensures
            final(self).wf(),
            final(self).payload == old(self).payload,
            final(self).position == old(self).position + len,
    {
        assert(self.payload@.len() == self.payload.len());
        self.position = self.position + len;
    }

    fn require_end(&self) -> (result: Result<()>)
        requires
            self.wf(),
        ensures
            error::outcome(result) == (if self.position == self.payload@.len() {
                Ok::<(), ErrorView>(())
            } else {
                Err(error::invalid_data("trailing bytes in batch"@))
            }),
    {
        if self.position == self.payload.len() {
            Ok(())
        } else {
            Err(Error::from_io(ErrorKind::InvalidData, "trailing bytes in batch"))
        }
    }
}

/// Applies a batch to what is known of the keys.
fn apply_batch_payload(
    room: Room,
    payload: &[u8],
    payload_offset: u64,
    index: &mut KeyMap<RecoveredOverlayEntry>,
) -> (result: Result<()>)
    requires
        old(index).wf(),
        payload_offset + payload@.len() <= u64::MAX,
    ensures
        final(index).wf(),
        match result {
            Ok(()) => {
                &&& room.grants(batch_reserves(payload@, payload_offset as int, old(index)@), 1)
                &&& apply_outcome(payload@, payload_offset as int, old(index)@) == Ok::<
                    Map<Seq<u8>, RecoveredOverlayEntry>,
                    ErrorView,
                >(final(index)@)
            },
            Err(error) => {
                let reserves = batch_reserves(payload@, payload_offset as int, old(index)@);
                ||| room.grants(reserves, 1) && apply_outcome(
                    payload@,
                    payload_offset as int,
                    old(index)@,
                ) == Err::<Map<Seq<u8>, RecoveredOverlayEntry>, ErrorView>(error@)
                ||| room.may_refuse(reserves, replay_limit()) && is_allocation_error(error@)
            },
        },
{
    let ghost before = index@;
    let mut reader = BatchReader::new(payload);
    let count: usize = match reader.read_count() {
        Ok(count) => count,
        Err(error) => {
            return Err(error);
        },
    };
    if index.is_empty() {
        if !room.reserve_keys(index, count) {
            return Err(Error::invalid_base("Overlay index allocation failed"));
        }
    }
    let mut i: usize = 0;
    while i < count
        invariant
            i <= count,
            index.wf(),
            before == old(index)@,
            reader.wf(),
            reader.payload == payload,
            payload_offset + payload@.len() <= u64::MAX,
            payload@.len() >= 4,
            count == bytes::le_u32(payload@, 0),
            count <= MAX_BATCH_OPERATIONS,
            operations_reserve(
                payload@,
                payload_offset as int,
                reader.position as int,
                (count - i) as nat,
                index@,
            ) ==> batch_reserves(payload@, payload_offset as int, before),
            !room.grants(true, 1) && batch_reserves(payload@, payload_offset as int, before)
                ==> operations_reserve(
                payload@,
                payload_offset as int,
                reader.position as int,
                (count - i) as nat,
                index@,
            ),
            apply_outcome(payload@, payload_offset as int, before) == apply_operations(
                payload@,
                payload_offset as int,
                reader.position as int,
                (count - i) as nat,
                index@,
            ),
        decreases count - i,
    {
        let ghost at = reader.position as int;
        let operation_offset: u64 = payload_offset + reader.consumed() as u64;
        let operation = match reader.read_operation() {
            Ok(operation) => operation,
            Err(error) => {
                return Err(error);
            },
        };
        let mut key: Vec<u8> = Vec::new();
        if !room.reserve_bytes(&mut key, operation.key_len) {
            return Err(Error::invalid_base("batch key allocation failed"));
        }
        let key_bytes = reader.read_exact(operation.key_len);
        bytes::push_bytes(&mut key, key_bytes);
        reader.skip(operation.value_len);
        assert(key@ =~= operation_key(payload@, at));
        let entry = RecoveredOverlayEntry { operation_offset };
        if !index.contains_key(key.as_slice()) {
            if !room.reserve_keys(index, 1) {
                return Err(Error::invalid_base("batch key allocation failed"));
            }
        }
        index.insert(key, entry);
        i += 1;
    }
    reader.require_end()
}

/// The message for something at `offset`.
fn offset_message(prefix: &str, offset: u64) -> (message: String)
    ensures
        message@ == prefix@ + text::decimal(offset as nat),
{
    let mut message = String::from_str(prefix);
    append_decimal(&mut message, offset);
    message
}

/// What one record makes of the scan.
enum Step {
    /// The log ends here.
    Stop,
    /// The log goes on at this position.
    Next(u64),
}

/// Recovers the record at `offset`.
fn scan_record(
    room: Room,
    file: &[u8],
    offset: u64,
    end: u64,
    index: &mut KeyMap<RecoveredOverlayEntry>,
) -> (result: Result<Step>)
    requires
        old(index).wf(),
        offset < end,
    ensures
        final(index).wf(),
        match result {
            Ok(Step::Stop) => scan_tells(file@, offset as int, end as int, old(index)@)
                && !scan_reserves(file@, offset as int, end as int, old(index)@) && scan_from(file@, offset as int, end as int, old(index)@) == Ok::<
                (Map<Seq<u8>, RecoveredOverlayEntry>, int),
                ErrorView,
            >((final(index)@, offset as int)) && final(index)@ == old(index)@,
            Ok(Step::Next(next)) => {
                let reserves = scan_reserves(file@, offset as int, end as int, old(index)@);
                let later = scan_reserves(file@, next as int, end as int, final(index)@);
                &&& offset < next <= end
                &&& scan_tells(file@, next as int, end as int, final(index)@) ==> scan_tells(
                    file@,
                    offset as int,
                    end as int,
                    old(index)@,
                )
                &&& later ==> reserves
                &&& !room.grants(true, 1) && reserves ==> later
                &&& scan_from(file@, offset as int, end as int, old(index)@) == scan_from(
                    file@,
                    next as int,
                    end as int,
                    final(index)@,
                )
            },
            Err(error) => {
                let reserves = scan_reserves(file@, offset as int, end as int, old(index)@);
                ||| room.grants(reserves, 1) && scan_from(
                    file@,
                    offset as int,
                    end as int,
                    old(index)@,
                ) == Err::<(Map<Seq<u8>, RecoveredOverlayEntry>, int), ErrorView>(error@)
                    && scan_tells(file@, offset as int, end as int, old(index)@)
                ||| room.may_refuse(reserves, replay_limit()) && is_allocation_error(error@)
            },
        },
{
    assert(file@.len() == file.len());
    if offset > file.len() as u64 {
        return Ok(Step::Stop);
    }
    let at: usize = offset as usize;
    if file.len() - at < LOG_HEADER_SIZE {
        return Ok(Step::Stop);
    }
    let expected_header_checksum: u32 = u32_at(file, at + LOG_HEADER_CHECKSUM_OFFSET);
    if crc32c(&file[at..at + LOG_HEADER_CHECKSUM_OFFSET]) != expected_header_checksum {
        return Err(
            Error::corrupted_log(offset, "overlay header checksum mismatch at offset "),
        );
    }
    let marker_byte: u8 = file[at];
    let key_len: u32 = u32_at(file, at + 1);
    let value_len: u32 = u32_at(file, at + 5);
    let expected_record_checksum: u32 = u32_at(file, at + 9);
    let record_len: u64 = LOG_HEADER_SIZE as u64 + key_len as u64 + value_len as u64;
    if end - offset < record_len {
        return Ok(Step::Stop);
    }
    let marker = match Marker::from_byte(marker_byte) {
        Some(marker) => marker,
        None => {
            let message = offset_message("invalid overlay operation at offset ", offset);
            return Err(Error::from_io(ErrorKind::InvalidData, message.as_str()));
        },
    };
    if marker == Marker::Compact && key_len == 0 && value_len == 0 {
        let empty: Vec<u8> = Vec::new();
        assert(empty@ =~= Seq::empty());
        if expected_record_checksum == record_checksum(marker, 0, 0, empty.as_slice()) {
            return Ok(Step::Stop);
        }
        return Err(
            Error::corrupted_log(offset, "invalid compact marker checksum at offset "),
        );
    }
    if marker != Marker::Batch || key_len != 0 {
        let message = offset_message("unexpected overlay marker at offset ", offset);
        return Err(Error::from_io(ErrorKind::InvalidData, message.as_str()));
    }
    if record_len > file.len() as u64 - offset {
        return Err(Error::from_io(ErrorKind::UnexpectedEof, "truncated batch data"));
    }
    let record_end: usize = at + record_len as usize;
    let payload = &file[at + LOG_HEADER_SIZE..record_end];
    let start: u32 = record_checksum_start(marker, key_len, value_len);
    let checksum: u32 = crc32c_append(start, payload);
    if checksum != expected_record_checksum {
        return Err(Error::corrupted_log(offset, "overlay checksum mismatch at offset "));
    }
    match apply_batch_payload(room, payload, offset + LOG_HEADER_SIZE as u64, index) {
        Ok(()) => Ok(Step::Next(offset + record_len)),
        Err(error) => Err(error),
    }
}

/// Whether `result` is what recovering the log in a range of a file can give, with memory
/// reserved in `room`.
pub open spec fn recovers(
    room: Room,
    file: Seq<u8>,
    start: int,
    end: int,
    result: Result<OverlayScan>,
) -> bool {
    let reserves = recovery_reserves(file, start, end);
    let exact = scan_outcome(file, start, end);
    match result {
        Ok(scan) => {
            &&& room.grants(reserves, 1)
            &&& scan.wf()
            &&& exact == Ok::<(Map<Seq<u8>, RecoveredOverlayEntry>, int), ErrorView>(
                (scan@, scan.end()),
            )
        },
        Err(error) => {
            ||| room.grants(reserves, 1) && exact == Err::<
                (Map<Seq<u8>, RecoveredOverlayEntry>, int),
                ErrorView,
            >(error@)
            ||| room.may_refuse(reserves, replay_limit()) && is_allocation_error(error@)
        },
    }
}

/// Recovering a log in which a single byte was changed fails.
proof fn lemma_damage_is_reported(file: Seq<u8>, start: int, end: int)
    requires
        scan_tells(file, start, end, Map::empty()),
        file.len() <= u64::MAX,
    ensures
        forall|intact: Seq<u8>, batches: Seq<Seq<(Seq<u8>, Option<Seq<u8>>)>>, i: int|
            #![trigger checksum::apart_at(intact, file, i), is_log(intact, start, end, batches)]
            checksum::apart_at(intact, file, i) && start <= i < end && end == file.len() && is_log(
                intact,
                start,
                end,
                batches,
            ) ==> (scan_outcome(file, start, end) matches Err(error) && error::error_kind(error)
                == ErrorKind::InvalidData),
{
    assert forall|intact: Seq<u8>, batches: Seq<Seq<(Seq<u8>, Option<Seq<u8>>)>>, i: int|
        #![trigger checksum::apart_at(intact, file, i), is_log(intact, start, end, batches)]
        checksum::apart_at(intact, file, i) && start <= i < end && end == file.len() && is_log(
            intact,
            start,
            end,
            batches,
        ) implies (scan_outcome(file, start, end) matches Err(error) && error::error_kind(error)
        == ErrorKind::InvalidData) by {
        replay::law_one_damaged_byte_is_reported(file, intact, start, end, batches, i);
    }
}

/// Recovers the log in the range from `start` to `end` of a file.
pub fn scan_overlay(file: &[u8], start: u64, end: u64) -> (result: Result<OverlayScan>)
    ensures
        recovers(Room::Ask, file@, start as int, end as int, result),
        start > end ==> (result matches Err(error) && error@ == error::invalid_base(
            "overlay range precedes active Base"@,
        )),
        start == end ==> result is Ok,
        reports_damage(file@, start as int, end as int, result),
{
    scan_overlay_in(Room::Ask, file, start, end)
}

/// Recovers the log in the range from `start` to `end` of a file, with memory reserved in
/// `room`.
pub fn scan_overlay_in(room: Room, file: &[u8], start: u64, end: u64) -> (result: Result<
    OverlayScan,
>)
    ensures
        recovers(room, file@, start as int, end as int, result),
        reports_damage(file@, start as int, end as int, result),
{
    if start > end {
        return Err(Error::invalid_base("overlay range precedes active Base"));
    }
    let mut offset: u64 = start;
    let mut index: KeyMap<RecoveredOverlayEntry> = KeyMap::new();
    let mut going: bool = offset < end;
    assert(file@.len() == file.len());
    while going
        invariant
            file@.len() == file.len(),
            index.wf(),
            start <= offset <= end,
            going ==> offset < end,
            going ==> scan_outcome(file@, start as int, end as int) == scan_from(
                file@,
                offset as int,
                end as int,
                index@,
            ),
            going && scan_reserves(file@, offset as int, end as int, index@) ==> recovery_reserves(
                file@,
                start as int,
                end as int,
            ),
            going && !room.grants(recovery_reserves(file@, start as int, end as int), 1)
                ==> scan_reserves(file@, offset as int, end as int, index@),
            !going ==> scan_outcome(file@, start as int, end as int) == Ok::<
                (Map<Seq<u8>, RecoveredOverlayEntry>, int),
                ErrorView,
            >((index@, offset as int)),
            !going ==> room.grants(recovery_reserves(file@, start as int, end as int), 1),
            going && scan_tells(file@, offset as int, end as int, index@) ==> scan_tells(
                file@,
                start as int,
                end as int,
                Map::empty(),
            ),
            !going ==> scan_tells(file@, start as int, end as int, Map::empty()),
        decreases end - offset, (if going { 1int } else { 0int }),
    {
        match scan_record(room, file, offset, end, &mut index) {
            Ok(Step::Stop) => {
                going = false;
            },
            Ok(Step::Next(next)) => {
                offset = next;
                going = offset < end;
            },
            Err(error) => {
                proof {
                    if scan_tells(file@, start as int, end as int, Map::empty()) {
                        lemma_damage_is_reported(file@, start as int, end as int);
                    }
                }
                return Err(error);
            },
        }
    }
    proof {
        lemma_damage_is_reported(file@, start as int, end as int);
    }
    Ok(OverlayScan { index, valid_len: offset })
}

} // verus!
