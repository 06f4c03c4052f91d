//! Building Base segments.

use crate::bytes;
use crate::bytes::{push_bytes, push_u32, push_u64, push_u8};
use crate::checksum;
use crate::checksum::crc32c;
use crate::error;
use crate::error::{Error, ErrorKind, ErrorView, Result};
use crate::format::index;
use crate::format::records;
use crate::format::segment;
use crate::format::segment::{base_slot_count, check_lengths, BASE_HEADER, CHECKSUM_BLOCK_SIZE, CHECKSUM_FOOTER_SIZE, SLOT_SIZE};
use crate::hash::xxh3_64;
use crate::room::Room;
use vstd::prelude::*;

verus! {

/// The checksums of the first `n` blocks.
pub open spec fn checksum_table(data: Seq<u8>, n: nat) -> Seq<u8>
    decreases n,
{
    if n == 0 {
        Seq::empty()
    } else {
        checksum_table(data, (n - 1) as nat) + bytes::u32_bytes(
            checksum::crc32c_value(segment::block(data, n - 1)),
        )
    }
}

/// The footer behind a checksum table.
pub open spec fn segment_footer(data_size: u64, table: Seq<u8>) -> Seq<u8> {
    segment::checksum_section_id() + bytes::u32_bytes(CHECKSUM_FOOTER_SIZE as u32)
        + bytes::u64_bytes(data_size) + bytes::u32_bytes(CHECKSUM_BLOCK_SIZE as u32)
        + bytes::u32_bytes(checksum::crc32c_value(table))
}

/// What follows the data in a segment.
pub open spec fn segment_metadata(data: Seq<u8>) -> Seq<u8> {
    let table = checksum_table(data, segment::block_count(data.len() as int) as nat);
    table + segment_footer(data.len() as u64, table)
}

/// The segment with the given data.
pub open spec fn segment_bytes(data: Seq<u8>) -> Seq<u8> {
    data + segment_metadata(data)
}

/// The segment that holds the Base over `entries` at `start`.
pub open spec fn base_segment(start: int, entries: Seq<(Seq<u8>, Seq<u8>)>) -> Seq<u8> {
    segment_bytes(index::base_data(start, entries))
}

proof fn lemma_checksum_table(data: Seq<u8>, n: nat)
    ensures
        checksum_table(data, n).len() == 4 * n,
        forall|i: int|
            0 <= i < n ==> bytes::le_u32(checksum_table(data, n), 4 * i)
                == checksum::crc32c_value(#[trigger] segment::block(data, i)),
    decreases n,
{
    broadcast use bytes::lemma_u32_bytes_len;

    if n > 0 {
        let shorter = checksum_table(data, (n - 1) as nat);
        let table = checksum_table(data, n);
        lemma_checksum_table(data, (n - 1) as nat);
        assert forall|i: int| 0 <= i < n implies bytes::le_u32(table, 4 * i)
            == checksum::crc32c_value(#[trigger] segment::block(data, i)) by {
            if i < n - 1 {
                assert(table.subrange(4 * i, 4 * i + 4) =~= shorter.subrange(4 * i, 4 * i + 4));
                bytes::lemma_le_u32_same(table, 4 * i, shorter, 4 * i);
            } else {
                assert(table.subrange(4 * i, 4 * i + 4) =~= bytes::u32_bytes(
                    checksum::crc32c_value(segment::block(data, i)),
                ));
                bytes::lemma_le_u32_of_bytes(
                    table,
                    4 * i,
                    checksum::crc32c_value(segment::block(data, i)),
                );
            }
        }
    }
}

proof fn lemma_footer(data_size: u64, table: Seq<u8>)
    ensures
        ({
            let footer = segment_footer(data_size, table);
            &&& footer.len() == CHECKSUM_FOOTER_SIZE
            &&& footer.subrange(0, 4) == segment::checksum_section_id()
            &&& bytes::le_u32(footer, 4) == CHECKSUM_FOOTER_SIZE
            &&& bytes::le_u64(footer, 8) == data_size
            &&& bytes::le_u32(footer, 16) == CHECKSUM_BLOCK_SIZE
            &&& bytes::le_u32(footer, 20) == checksum::crc32c_value(table)
        }),
{
    broadcast use {bytes::lemma_u32_bytes_len, bytes::lemma_u64_bytes_len};

    let footer = segment_footer(data_size, table);
    assert(footer.subrange(0, 4) =~= segment::checksum_section_id());
    assert(footer.subrange(4, 8) =~= bytes::u32_bytes(CHECKSUM_FOOTER_SIZE as u32));
    assert(footer.subrange(8, 16) =~= bytes::u64_bytes(data_size));
    assert(footer.subrange(16, 20) =~= bytes::u32_bytes(CHECKSUM_BLOCK_SIZE as u32));
    assert(footer.subrange(20, 24) =~= bytes::u32_bytes(checksum::crc32c_value(table)));
    bytes::lemma_le_u32_of_bytes(footer, 4, CHECKSUM_FOOTER_SIZE as u32);
    bytes::lemma_le_u64_of_bytes(footer, 8, data_size);
    bytes::lemma_le_u32_of_bytes(footer, 16, CHECKSUM_BLOCK_SIZE as u32);
    bytes::lemma_le_u32_of_bytes(footer, 20, checksum::crc32c_value(table));
}

/// The layout of a segment gives back its data, and every block of it is intact.
pub proof fn lemma_segment_layout(data: Seq<u8>)
    requires
        data.len() <= usize::MAX,
    ensures
        segment_bytes(data).len() == segment::segment_size(data.len() as int),
        segment::layout_outcome(segment_bytes(data)) == Ok::<int, ErrorView>(data.len() as int),
        segment::segment_data(segment_bytes(data)) == data,
        segment::segment_checksums(segment_bytes(data)).len() == 4 * segment::block_count(
            data.len() as int,
        ),
        segment::blocks_ok(data, segment::segment_checksums(segment_bytes(data))),
        segment::metadata_checksum(segment_bytes(data)) == checksum::crc32c_value(
            segment_metadata(data),
        ),
{
    let size = data.len() as int;
    let count = segment::block_count(size);
    let table = checksum_table(data, count as nat);
    let footer = segment_footer(data.len() as u64, table);
    let whole = segment_bytes(data);
    lemma_checksum_table(data, count as nat);
    lemma_footer(data.len() as u64, table);
    let at = whole.len() - CHECKSUM_FOOTER_SIZE;
    assert(at == size + 4 * count);
    assert(whole.subrange(at, whole.len() as int) =~= footer);
    assert(whole.subrange(at, at + 4) =~= footer.subrange(0, 4));
    assert(whole.subrange(at + 4, at + 8) =~= footer.subrange(4, 8));
    assert(whole.subrange(at + 8, at + 16) =~= footer.subrange(8, 16));
    assert(whole.subrange(at + 16, at + 20) =~= footer.subrange(16, 20));
    assert(whole.subrange(at + 20, at + 24) =~= footer.subrange(20, 24));
    bytes::lemma_le_u32_same(whole, at + 4, footer, 4);
    bytes::lemma_le_u64_same(whole, at + 8, footer, 8);
    bytes::lemma_le_u32_same(whole, at + 16, footer, 16);
    bytes::lemma_le_u32_same(whole, at + 20, footer, 20);
    assert(whole.subrange(size, size + 4 * count) =~= table);
    assert(whole.subrange(0, size) =~= data);
    assert(whole.subrange(size, whole.len() as int) =~= segment_metadata(data));
    assert forall|i: int| 0 <= i < count implies #[trigger] segment::block_ok(data, table, i) by {
        assert(bytes::le_u32(table, 4 * i) == checksum::crc32c_value(segment::block(data, i)));
    }
}

/// The segment of a Base has its size, wherever it starts.
pub proof fn lemma_base_segment_len(start: int, entries: Seq<(Seq<u8>, Seq<u8>)>)
    ensures
        base_segment(start, entries).len() == segment::segment_size(
            index::base_data_size(entries),
        ),
{
    let data = index::base_data(start, entries);
    index::lemma_base_data_len(start, entries);
    let count = segment::block_count(data.len() as int);
    let table = checksum_table(data, count as nat);
    lemma_checksum_table(data, count as nat);
    lemma_footer(data.len() as u64, table);
}

/// Whether the entries from `i` on can be written at `offset`, and if not, why.
pub open spec fn write_scan(
    entries: Seq<(Seq<u8>, Seq<u8>)>,
    offset: int,
    i: int,
) -> std::result::Result<(), ErrorView>
    decreases entries.len() - i,
{
    if i >= entries.len() {
        Ok(())
    } else if !segment::lengths_fit(entries[i].0.len() as int, entries[i].1.len() as int) {
        Err(segment::length_limit_error())
    } else if offset + records::record_size(entries[i]) > u64::MAX {
        Err(error::invalid_input("base is too large"@))
    } else {
        write_scan(entries, offset + records::record_size(entries[i]), i + 1)
    }
}

/// Entries within the limits of the format can be written where their sizes do not
/// overflow.
pub proof fn lemma_write_scan(entries: Seq<(Seq<u8>, Seq<u8>)>, start: int, i: int)
    requires
        0 <= i <= entries.len(),
        records::entries_fit(entries),
        start + records::records_size(entries) <= u64::MAX,
    ensures
        write_scan(entries, start + records::record_start(entries, i), i) is Ok,
    decreases entries.len() - i,
{
    if i < entries.len() {
        records::lemma_record_start_step(entries, i);
        records::lemma_record_start_order(entries, i + 1, entries.len() as int);
        lemma_write_scan(entries, start, i + 1);
    }
}

/// How many records are written before it shows that the entries from `i` on cannot be. A
/// record that ends behind the last position is written first.
pub open spec fn records_written(entries: Seq<(Seq<u8>, Seq<u8>)>, offset: int, i: int) -> int
    decreases entries.len() - i,
{
    if i >= entries.len() {
        entries.len() as int
    } else if !segment::lengths_fit(entries[i].0.len() as int, entries[i].1.len() as int) {
        i
    } else if offset + records::record_size(entries[i]) > u64::MAX {
        i + 1
    } else {
        records_written(entries, offset + records::record_size(entries[i]), i + 1)
    }
}

/// The number of slots of a Base over `len` entries at `start`, where its records have
/// positions.
pub open spec fn slots_outcome(start: int, len: int) -> std::result::Result<int, ErrorView> {
    match segment::slot_count_outcome(len) {
        Err(error) => Err(error),
        Ok(slots) => if SLOT_SIZE * slots > usize::MAX {
            Err(error::invalid_input("base index is too large"@))
        } else if start + index::records_offset(slots) > u64::MAX {
            Err(error::invalid_input("base offset overflow"@))
        } else {
            Ok(slots)
        },
    }
}

/// Whether the index of a Base over `len` entries at `start` has a slot for every record that
/// is written.
pub open spec fn index_has_room(
    start: int,
    len: int,
    entries: Seq<(Seq<u8>, Seq<u8>)>,
) -> bool {
    slots_outcome(start, len) matches Ok(slots) ==> records_written(
        entries,
        start + index::records_offset(slots),
        0,
    ) <= slots
}

/// No more records are written than there are entries.
proof fn lemma_records_written(entries: Seq<(Seq<u8>, Seq<u8>)>, offset: int, i: int)
    requires
        0 <= i <= entries.len(),
    ensures
        i <= records_written(entries, offset, i) <= entries.len(),
    decreases entries.len() - i,
{
    if i < entries.len() {
        lemma_records_written(entries, offset + records::record_size(entries[i]), i + 1);
    }
}

/// An index has room for no more entries than were announced.
pub proof fn lemma_index_has_room(start: int, len: int, entries: Seq<(Seq<u8>, Seq<u8>)>)
    requires
        0 <= len,
        entries.len() <= index::slot_count(len as nat),
    ensures
        index_has_room(start, len, entries),
{
    if let Ok(slots) = slots_outcome(start, len) {
        lemma_records_written(entries, start + index::records_offset(slots), 0);
    }
}

/// What building the Base over `entries` at `start` gives when `len` entries were
/// announced.
pub open spec fn build_outcome(
    start: int,
    len: int,
    entries: Seq<(Seq<u8>, Seq<u8>)>,
) -> std::result::Result<Seq<u8>, ErrorView> {
    match slots_outcome(start, len) {
        Err(error) => Err(error),
        Ok(slots) => match write_scan(entries, start + index::records_offset(slots), 0) {
            Err(error) => Err(error),
            Ok(_) => if entries.len() != len {
                Err(error::invalid_input("entry count changed while writing base"@))
            } else {
                Ok(base_segment(start, entries))
            },
        },
    }
}

/// The error when the checksum table cannot be allocated.
pub open spec fn checksum_allocation_error() -> ErrorView {
    error::invalid_input("checksum table is too large"@)
}

/// What a Base that was written looks like.
pub struct WrittenBase {
    pub size: u64,
    pub slots: u64,
    pub len: usize,
    pub metadata_checksum: u32,
}

impl WrittenBase {
    /// Whether this is what a segment over `len` entries looks like.
    pub open spec fn describes(self, segment: Seq<u8>, len: usize) -> bool {
        &&& self.size == segment.len()
        &&& self.slots == index::slot_count(len as nat)
        &&& self.len == len
        &&& self.metadata_checksum == segment::metadata_checksum(segment)
    }
}

/// Fills the first empty slot for a hash.
fn insert_slot(table: &mut Vec<(u32, u64)>, hash: u64, offset: u64)
    requires
        exists|s: int| 0 <= s < old(table)@.len() && (#[trigger] old(table)@[s]).1 == 0,
    ensures
        final(table)@ == index::fill_slot(old(table)@, hash, offset),
{
    let slots: usize = table.len();
    let mut slot: usize = (hash % slots as u64) as usize;
    let ghost mut d: int = 0;
    let ghost before = table@;
    let ghost empty = choose|s: int| 0 <= s < before.len() && (#[trigger] before[s]).1 == 0;
    let ghost far = index::lemma_probe_reaches(hash, empty, slots as int);
    proof {
        index::lemma_next_probe(hash, 0, slots as int);
    }
    while table[slot].1 != 0
        invariant
            table@ == before,
            slots == before.len(),
            slot < slots,
            0 <= d <= far < slots,
            slot == index::probe(hash, d, slots as int),
            before[index::probe(hash, far, slots as int)].1 == 0,
            index::empty_distance(before, hash, 0) == index::empty_distance(before, hash, d),
        decreases slots - d,
    {
        proof {
            index::lemma_next_probe(hash, d, slots as int);
            d = d + 1;
        }
        slot = if slot + 1 == slots {
            0
        } else {
            slot + 1
        };
    }
    let fingerprint: u32 = (hash / 0x1_0000_0000) as u32;
    table.set(slot, (fingerprint, offset));
}

/// Appends the slots.
fn push_table(out: &mut Vec<u8>, table: &Vec<(u32, u64)>)
    ensures
        final(out)@ == old(out)@ + index::table_bytes(table@),
{
    let ghost before = out@;
    let mut i: usize = 0;
    proof {
        assert(table@.take(0) =~= Seq::empty());
        assert(before + Seq::<u8>::empty() =~= before);
    }
    while i < table.len()
        invariant
            i <= table@.len(),
            out@ == before + index::table_bytes(table@.take(i as int)),
        decreases table@.len() - i,
    {
        let (fingerprint, offset) = table[i];
        push_u32(out, fingerprint);
        push_u64(out, offset);
        proof {
            assert(table@.take(i + 1).drop_last() =~= table@.take(i as int));
            assert(out@ =~= before + index::table_bytes(table@.take(i + 1)));
        }
        i += 1;
    }
    proof {
        assert(table@.take(i as int) =~= table@);
    }
}

/// The checksum of one block.
fn block_checksum(data: &[u8], index: usize) -> (value: u32)
    requires
        index < segment::block_count(data@.len() as int),
    ensures
        value == checksum::crc32c_value(segment::block(data@, index as int)),
{
    assert(data@.len() == data.len());
    let start: usize = index * CHECKSUM_BLOCK_SIZE;
    let end: usize = if data.len() - start >= CHECKSUM_BLOCK_SIZE {
        start + CHECKSUM_BLOCK_SIZE
    } else {
        data.len()
    };
    crc32c(&data[start..end])
}

/// The checksum table and the footer for some data.
pub(crate) fn checksum_metadata(room: Room, data: &[u8]) -> (result: Result<Vec<u8>>)
    ensures
        match result {
            Ok(metadata) => metadata@ == segment_metadata(data@) && room.grants(
                true,
                metadata@.len() as int,
            ),
            Err(error) => error@ == checksum_allocation_error() && room.may_refuse(
                true,
                segment_metadata(data@).len() as int,
            ),
        },
{
    assert(data@.len() == data.len());
    let count: usize = segment::count_blocks(data.len());
    assert(4 * count + 24 <= usize::MAX) by {
        assert(count * 65536 <= data@.len() + 65535);
    }
    proof {
        lemma_checksum_table(data@, count as nat);
        let table = checksum_table(data@, count as nat);
        broadcast use {bytes::lemma_u32_bytes_len, bytes::lemma_u64_bytes_len};
        assert(segment_footer(data@.len() as u64, table).len() == 24);
    }
    let mut metadata: Vec<u8> = Vec::new();
    if !room.reserve_bytes(&mut metadata, 4 * count + CHECKSUM_FOOTER_SIZE) {
        return Err(Error::from_io(ErrorKind::InvalidInput, "checksum table is too large"));
    }
    let mut i: usize = 0;
    while i < count
        invariant
            i <= count,
            room.grants(true, 4 * count + CHECKSUM_FOOTER_SIZE),
            count == segment::block_count(data@.len() as int),
            metadata@ == checksum_table(data@, i as nat),
        decreases count - i,
    {
        let value: u32 = block_checksum(data, i);
        push_u32(&mut metadata, value);
        i += 1;
    }
    let table_checksum: u32 = crc32c(metadata.as_slice());
    let ghost table = metadata@;
    push_u8(&mut metadata, 0x43);
    push_u8(&mut metadata, 0x52);
    push_u8(&mut metadata, 0x43);
    push_u8(&mut metadata, 0x33);
    push_u32(&mut metadata, CHECKSUM_FOOTER_SIZE as u32);
    push_u64(&mut metadata, data.len() as u64);
    push_u32(&mut metadata, CHECKSUM_BLOCK_SIZE as u32);
    push_u32(&mut metadata, table_checksum);
    assert(metadata@ =~= table + segment_footer(data@.len() as u64, table));
    Ok(metadata)
}

/// Appends the block checksums to the data of a segment. The result is the checksum of
/// what was appended.
fn append_block_checksums(room: Room, data: &mut Vec<u8>) -> (result: Result<u32>)
    ensures
        match result {
            Ok(checksum) => final(data)@ == segment_bytes(old(data)@) && checksum
                == checksum::crc32c_value(segment_metadata(old(data)@)) && room.grants(true, 1),
            Err(error) => error@ == checksum_allocation_error() && room.may_refuse(
                true,
                segment_metadata(old(data)@).len() as int,
            ),
        },
{
    let metadata = match checksum_metadata(room, data.as_slice()) {
        Ok(metadata) => metadata,
        Err(error) => {
            return Err(error);
        },
    };
    let checksum: u32 = crc32c(metadata.as_slice());
    push_bytes(data, metadata.as_slice());
    Ok(checksum)
}

/// Whether `result` is what building a Base can give, with memory reserved in `room`. A
/// Base that can be built has a checksum table, for which memory is reserved.
pub open spec fn builds(
    room: Room,
    start: int,
    len: int,
    entries: Seq<(Seq<u8>, Seq<u8>)>,
    result: std::result::Result<Seq<u8>, ErrorView>,
) -> bool {
    let exact = build_outcome(start, len, entries);
    room.gives(
        exact is Ok,
        size_of(exact),
        exact,
        result == Err::<Seq<u8>, ErrorView>(checksum_allocation_error()),
        result,
    )
}

/// The size of what is to be built: nothing, where it cannot be.
pub open spec fn size_of(built: std::result::Result<Seq<u8>, ErrorView>) -> int {
    match built {
        Ok(segment) => segment.len() as int,
        Err(_) => 0,
    }
}

/// The segment that was built, if one was.
pub open spec fn built_segment(result: Result<(Vec<u8>, WrittenBase)>) -> std::result::Result<
    Seq<u8>,
    ErrorView,
> {
    match result {
        Ok((segment, _)) => Ok(segment@),
        Err(error) => Err(error@),
    }
}

/// Builds the segment that holds the Base over `entries` at `start`.
pub fn build_base(start: u64, len: usize, entries: &[(&[u8], &[u8])]) -> (result: Result<
    (Vec<u8>, WrittenBase),
>)
    requires
        index_has_room(start as int, len as int, segment::pairs_view(entries@)),
    ensures
        builds(
            Room::Ask,
            start as int,
            len as int,
            segment::pairs_view(entries@),
            built_segment(result),
        ),
        result matches Ok((segment, written)) ==> written.describes(segment@, len),
{
    build_base_in(Room::Ask, start, len, entries)
}

/// The number of slots of a Base over `len` entries at `start`.
pub(crate) fn slots_at(start: u64, len: usize) -> (result: Result<usize>)
    ensures
        match result {
            Ok(slots) => slots_outcome(start as int, len as int) == Ok::<int, ErrorView>(
                slots as int,
            ),
            Err(error) => slots_outcome(start as int, len as int) == Err::<int, ErrorView>(error@),
        },
{
    let slots: usize = match base_slot_count(len) {
        Ok(slots) => slots,
        Err(error) => {
            return Err(error);
        },
    };
    let index_bytes: usize = match slots.checked_mul(SLOT_SIZE) {
        Some(size) => size,
        None => {
            return Err(Error::from_io(ErrorKind::InvalidInput, "base index is too large"));
        },
    };
    match start.checked_add(BASE_HEADER as u64) {
        Some(offset) => match offset.checked_add(index_bytes as u64) {
            Some(_) => Ok(slots),
            None => Err(Error::from_io(ErrorKind::InvalidInput, "base offset overflow")),
        },
        None => Err(Error::from_io(ErrorKind::InvalidInput, "base offset overflow")),
    }
}

/// The records of a Base and the slots that refer to them, as far as they can be written.
pub(crate) struct BuiltRecords {
    pub body: Vec<u8>,
    pub table: Vec<(u32, u64)>,
    pub outcome: Result<()>,
}

/// Writes the records of the Base over `entries`, the first of them at `records_start`.
pub(crate) fn build_records(slots: usize, records_start: u64, entries: &[(&[u8], &[u8])]) -> (built:
    BuiltRecords)
    requires
        records_written(segment::pairs_view(entries@), records_start as int, 0) <= slots,
        records_start > 0,
    ensures
        ({
            let all = segment::pairs_view(entries@);
            let count = records_written(all, records_start as int, 0);
            &&& built.body@ == records::records_bytes(all.take(count))
            &&& 0 <= count <= all.len()
            &&& error::outcome(built.outcome) == write_scan(all, records_start as int, 0)
            &&& built.outcome is Ok ==> count == all.len() && built.table@ == index::build_table(
                all,
                slots as nat,
                records_start as int,
            ) && records_start + records::records_size(all) <= u64::MAX
        }),
{
    let ghost all = segment::pairs_view(entries@);
    let mut table: Vec<(u32, u64)> = Vec::new();
    while table.len() < slots
        invariant
            table@.len() <= slots,
            table@ == index::empty_table(table@.len()),
        decreases slots - table@.len(),
    {
        table.push((0, 0));
        assert(table@ =~= index::empty_table(table@.len()));
    }
    let mut body: Vec<u8> = Vec::new();
    let mut offset: u64 = records_start;
    let mut i: usize = 0;
    proof {
        assert(all.take(0) =~= Seq::empty());
    }
    while i < entries.len()
        invariant
            i <= entries@.len(),
            all == segment::pairs_view(entries@),
            records_written(all, records_start as int, 0) <= slots,
            records_start > 0,
            offset == records_start + records::record_start(all, i as int),
            records::entries_fit(all.take(i as int)),
            body@ == records::records_bytes(all.take(i as int)),
            table@ == index::build_table(all.take(i as int), slots as nat, records_start as int),
            write_scan(all, records_start as int, 0) == write_scan(all, offset as int, i as int),
            records_written(all, records_start as int, 0) == records_written(
                all,
                offset as int,
                i as int,
            ),
        decreases entries@.len() - i,
    {
        let (key, value) = entries[i];
        let ghost prefix = all.take(i as int);
        let ghost longer = all.take(i + 1);
        proof {
            assert(all[i as int] == (key@, value@));
            assert(longer.drop_last() =~= prefix);
            assert(longer.last() == all[i as int]);
            records::lemma_record_start_step(all, i as int);
            lemma_records_written(all, offset as int, i as int);
            lemma_records_written(
                all,
                offset + records::record_size(all[i as int]),
                i + 1,
            );
        }
        match check_lengths(key, value) {
            Ok(()) => {},
            Err(error) => {
                return BuiltRecords { body, table, outcome: Err(error) };
            },
        }
        push_u32(&mut body, key.len() as u32);
        push_u32(&mut body, value.len() as u32);
        push_bytes(&mut body, key);
        push_bytes(&mut body, value);
        let hash: u64 = xxh3_64(key);
        proof {
            records::lemma_record_start_order(all, 0, i as int);
            index::lemma_build_table(prefix, slots as nat, records_start as int);
            let empty = index::lemma_has_empty(table@, prefix, records_start as int);
            assert(table@[empty].1 == 0);
            assert(body@ =~= records::records_bytes(longer));
        }
        insert_slot(&mut table, hash, offset);
        let key_len: u64 = key.len() as u64;
        let value_len: u64 = value.len() as u64;
        let next: u64 = match offset.checked_add(8 + key_len + value_len) {
            Some(next) => next,
            None => {
                let error = Error::from_io(ErrorKind::InvalidInput, "base is too large");
                return BuiltRecords { body, table, outcome: Err(error) };
            },
        };
        proof {
            assert(longer.drop_last().len() == i);
            assert(table@ == index::build_table(longer, slots as nat, records_start as int));
            assert forall|j: int| 0 <= j < longer.len() implies segment::lengths_fit(
                (#[trigger] longer[j]).0.len() as int,
                longer[j].1.len() as int,
            ) by {
                if j < i {
                    assert(prefix[j] == longer[j]);
                }
            }
        }
        offset = next;
        i += 1;
    }
    proof {
        assert(all.take(i as int) =~= all);
    }
    BuiltRecords { body, table, outcome: Ok(()) }
}

/// The header and the slots of a Base.
pub(crate) fn base_head(slots: usize, len: usize, table: &Vec<(u32, u64)>) -> (head: Vec<u8>)
    ensures
        head@ == index::header_bytes(slots as u64, len as u64) + index::table_bytes(table@),
{
    let mut head: Vec<u8> = Vec::new();
    push_u8(&mut head, 0x48);
    push_u8(&mut head, 0x41);
    push_u8(&mut head, 0x53);
    push_u8(&mut head, 0x48);
    push_u32(&mut head, BASE_HEADER as u32);
    push_u64(&mut head, slots as u64);
    push_u64(&mut head, len as u64);
    assert(head@ =~= index::header_bytes(slots as u64, len as u64));
    push_table(&mut head, table);
    head
}

/// Builds the segment that holds the Base over `entries` at `start`, with memory reserved in
/// `room`.
pub fn build_base_in(room: Room, start: u64, len: usize, entries: &[(&[u8], &[u8])]) -> (result:
    Result<(Vec<u8>, WrittenBase)>)
    requires
        index_has_room(start as int, len as int, segment::pairs_view(entries@)),
    ensures
        builds(
            room,
            start as int,
            len as int,
            segment::pairs_view(entries@),
            built_segment(result),
        ),
        result matches Ok((segment, written)) ==> written.describes(segment@, len),
{
    let ghost all = segment::pairs_view(entries@);
    let slots: usize = match slots_at(start, len) {
        Ok(slots) => slots,
        Err(error) => {
            return Err(error);
        },
    };
    let records_start: u64 = start + BASE_HEADER as u64 + (slots * SLOT_SIZE) as u64;
    let records = build_records(slots, records_start, entries);
    match records.outcome {
        Ok(()) => {},
        Err(error) => {
            return Err(error);
        },
    }
    proof {
        assert(all.take(all.len() as int) =~= all);
    }
    if entries.len() != len {
        return Err(
            Error::from_io(ErrorKind::InvalidInput, "entry count changed while writing base"),
        );
    }
    let mut segment = base_head(slots, len, &records.table);
    push_bytes(&mut segment, records.body.as_slice());
    let ghost data = segment@;
    proof {
        assert(data == index::base_data(start as int, all));
        assert(data.len() == segment.len());
        lemma_segment_layout(data);
    }
    match append_block_checksums(room, &mut segment) {
        Ok(metadata_checksum) => {
            let size: u64 = segment.len() as u64;
            Ok((segment, WrittenBase { size, slots: slots as u64, len, metadata_checksum }))
        },
        Err(error) => Err(error),
    }
}

} // verus!
