//! What the file format promises.

use crate::bytes;
use crate::bytes::{push_u32, push_u64, u32_at, u64_at};
use crate::checksum;
use crate::database::compaction::compact_marker;
use crate::database::maintenance;
use crate::database::recovery::{scan_overlay_in, OverlayScan};
use crate::database::replay;
use crate::database::state;
use crate::error::Result;
use crate::format::index;
use crate::format::log;
use crate::format::lookup;
use crate::format::power;
use crate::format::power::{checked_next_power_of_two, is_power_of_two};
use crate::format::records;
use crate::format::segment;
use crate::format::segment::{
    check_lengths, checked_block, count_blocks, map_len, measure_base_iter, read_base_header,
    record_at, records_start, segment_layout, SegmentLayout,
};
use crate::format::superblock;
use crate::format::superblock::{
    encode_page, page_offset_of, read_latest_from, redundant_page_offset_of, Superblock,
};
use crate::format::validate;
use crate::format::validate::validate_base_in;
use crate::format::writer;
use crate::format::writer::{build_base_in, WrittenBase};
use crate::promises;
use crate::promises::compacting;
use crate::promises::writing;
use crate::room::Room;
use vstd::arithmetic::power2::pow2;
use vstd::prelude::*;

verus! {

/// The number that four bytes stand for, the lowest first.
pub open spec fn number_of_four(bytes: Seq<u8>, at: int) -> int {
    bytes[at] + 256 * bytes[at + 1] + 65_536 * bytes[at + 2] + 16_777_216 * bytes[at + 3]
}

/// The number that eight bytes stand for, the lowest first.
pub open spec fn number_of_eight(bytes: Seq<u8>, at: int) -> int {
    number_of_four(bytes, at) + 4_294_967_296 * number_of_four(bytes, at + 4)
}

proof fn lemma_numbers(bytes: Seq<u8>, at: int)
    ensures
        bytes::le_u32(bytes, at) == number_of_four(bytes, at),
        bytes::le_u64(bytes, at) == number_of_eight(bytes, at),
{
    reveal(bytes::le_u32);
    reveal(bytes::le_u64);
}

/// Integers are read with their lowest byte first.
pub proof fn law_integers_are_read(data: &[u8], at: usize, small: u32, large: u64)
    ensures
        call_ensures(u32_at, (data, at), small) ==> small == number_of_four(data@, at as int),
        call_ensures(u64_at, (data, at), large) ==> large == number_of_eight(data@, at as int),
{
    lemma_numbers(data@, at as int);
}

/// Integers are written with their lowest byte first, behind what was there.
pub proof fn law_integers_are_written(small: u32, large: u64)
    ensures
        forall|buffer: &mut Vec<u8>|
            #![trigger call_ensures(push_u32, (buffer, small), ())]
            call_ensures(push_u32, (buffer, small), ()) ==> {
                &&& final(buffer)@.len() == buffer@.len() + 4
                &&& final(buffer)@.take(buffer@.len() as int) == buffer@
                &&& number_of_four(final(buffer)@, buffer@.len() as int) == small
            },
        forall|buffer: &mut Vec<u8>|
            #![trigger call_ensures(push_u64, (buffer, large), ())]
            call_ensures(push_u64, (buffer, large), ()) ==> {
                &&& final(buffer)@.len() == buffer@.len() + 8
                &&& final(buffer)@.take(buffer@.len() as int) == buffer@
                &&& number_of_eight(final(buffer)@, buffer@.len() as int) == large
            },
{
    broadcast use {bytes::lemma_u32_bytes_len, bytes::lemma_u64_bytes_len};

    assert forall|before: Seq<u8>| #![trigger before + bytes::u32_bytes(small)] ({
        let after = before + bytes::u32_bytes(small);
        after.take(before.len() as int) == before && number_of_four(after, before.len() as int)
            == small
    }) by {
        let after = before + bytes::u32_bytes(small);
        let at = before.len() as int;
        assert(after.take(at) =~= before);
        assert(after.subrange(at, at + 4) =~= bytes::u32_bytes(small));
        bytes::lemma_le_u32_of_bytes(after, at, small);
        lemma_numbers(after, at);
    }
    assert forall|before: Seq<u8>| #![trigger before + bytes::u64_bytes(large)] ({
        let after = before + bytes::u64_bytes(large);
        after.take(before.len() as int) == before && number_of_eight(after, before.len() as int)
            == large
    }) by {
        let after = before + bytes::u64_bytes(large);
        let at = before.len() as int;
        assert(after.take(at) =~= before);
        assert(after.subrange(at, at + 8) =~= bytes::u64_bytes(large));
        bytes::lemma_le_u64_of_bytes(after, at, large);
        lemma_numbers(after, at);
    }
}

/// A key has at most 1 MiB, and a value less than 4 GiB.
pub proof fn law_length_limits(key: &[u8], value: &[u8], result: Result<()>)
    requires
        call_ensures(check_lengths, (key, value), result),
    ensures
        result is Ok <==> key@.len() <= 1_048_576 && value@.len() <= 4_294_967_295,
        result matches Err(error) ==> error is InvalidArgument,
{
}

/// Data is divided into blocks of 64 KiB, the last of which may be shorter, but not empty.
pub proof fn law_block_count(size: usize, count: usize)
    requires
        call_ensures(count_blocks, (size,), count),
    ensures
        size <= count * 65_536,
        size == 0 ==> count == 0,
        size > 0 ==> (count - 1) * 65_536 < size,
{
}

/// A block matches exactly where the table holds the checksum of all of its bytes.
pub proof fn law_checked_block(data: &[u8], checksums: &[u8], index: usize, ok: bool)
    requires
        call_ensures(checked_block, (data, checksums, index), ok),
        index < segment::block_count(data@.len() as int),
    ensures
        ({
            let start = 65_536 * index;
            let end = if start + 65_536 <= data@.len() {
                start + 65_536
            } else {
                data@.len() as int
            };
            ok == (checksum::crc32c_value(data@.subrange(start, end)) == number_of_four(
                checksums@,
                4 * index,
            ))
        }),
{
    lemma_numbers(checksums@, 4 * index);
}

/// A range of a segment passes exactly where it lies within the data, and every block that it
/// touches has its checksum.
pub proof fn law_range_check(
    data: Seq<u8>,
    checksums: Seq<u8>,
    segment_offset: u64,
    start: int,
    end: int,
)
    requires
        0 <= start,
    ensures
        lookup::range_outcome(data, checksums, segment_offset, start, end) is Ok <==> {
            &&& start <= end <= data.len()
            &&& forall|index: int|
                start < (index + 1) * 65_536 && index * 65_536 < end && start < end
                    ==> #[trigger] segment::block_ok(data, checksums, index)
        },
{
    if start < end {
        segment::lemma_blocks_outcome(
            data,
            checksums,
            segment_offset,
            start / 65_536,
            (end - 1) / 65_536 + 1,
        );
        assert forall|index: int|
            #![trigger segment::block_ok(data, checksums, index)]
            start / 65_536 <= index < (end - 1) / 65_536 + 1 <==> start < (index + 1) * 65_536
                && index * 65_536 < end by {}
    }
}

/// A part of a file can be mapped exactly where it is not empty and lies within the file.
pub proof fn law_map_len(file_len: u64, offset: u64, size: u64, result: Result<usize>)
    requires
        call_ensures(map_len, (file_len, offset, size), result),
    ensures
        result is Ok <==> 0 < size <= usize::MAX && offset + size <= file_len,
        result matches Ok(len) ==> len == size,
{
}

/// A record is two lengths of four bytes each, the key and the value. It is read exactly where
/// all of it lies within the data.
pub proof fn law_record_at(
    mapping: &[u8],
    offset: usize,
    data_size: usize,
    result: Result<(&[u8], &[u8], usize)>,
)
    requires
        call_ensures(record_at, (mapping, offset, data_size), result),
        data_size <= mapping@.len(),
    ensures
        ({
            let key_len = number_of_four(mapping@, offset as int);
            let value_len = number_of_four(mapping@, offset + 4);
            &&& result is Ok <==> offset + 8 <= data_size && offset + 8 + key_len + value_len
                <= data_size
            &&& result matches Ok((key, value, end)) ==> {
                &&& key@ == mapping@.subrange(offset + 8, offset + 8 + key_len)
                &&& value@ == mapping@.subrange(
                    offset + 8 + key_len,
                    offset + 8 + key_len + value_len,
                )
                &&& end == offset + 8 + key_len + value_len
            }
        }),
{
    lemma_numbers(mapping@, offset as int);
    lemma_numbers(mapping@, offset + 4);
    assert(mapping@.len() <= usize::MAX) by {
        assert(data_size <= mapping@.len());
        assert(vstd::slice::spec_slice_len(mapping) == mapping@.len());
    }
}

/// A segment is its data, a checksum for each block, and a footer of 24 bytes that says so: its
/// name, its size, the size of the data and of a block, and the checksum of the table. Its
/// layout is read exactly where all of this agrees.
pub proof fn law_segment_layout(segment: &[u8], result: Result<SegmentLayout<'_>>)
    requires
        call_ensures(segment_layout, (segment,), result),
    ensures
        ({
            let footer = segment@.len() - 24;
            let size = number_of_eight(segment@, footer + 8);
            let table = 4 * ((size + 65_535) / 65_536);
            &&& result is Ok <==> {
                &&& footer >= 0
                &&& segment@[footer] == 0x43
                &&& segment@[footer + 1] == 0x52
                &&& segment@[footer + 2] == 0x43
                &&& segment@[footer + 3] == 0x33
                &&& number_of_four(segment@, footer + 4) == 24
                &&& number_of_four(segment@, footer + 16) == 65_536
                &&& size + table == footer
                &&& checksum::crc32c_value(segment@.subrange(size, footer)) == number_of_four(
                    segment@,
                    footer + 20,
                )
            }
            &&& result matches Ok(layout) ==> layout.data_view() == segment@.subrange(0, size)
                && layout.checksums_view() == segment@.subrange(size, footer)
        }),
{
    let footer = segment@.len() - 24;
    lemma_numbers(segment@, footer + 4);
    lemma_numbers(segment@, footer + 8);
    lemma_numbers(segment@, footer + 16);
    lemma_numbers(segment@, footer + 20);
    assert(vstd::slice::spec_slice_len(segment) == segment@.len());
    if footer >= 0 {
        let id = segment@.subrange(footer, footer + 4);
        assert(id[0] == segment@[footer] && id[1] == segment@[footer + 1] && id[2]
            == segment@[footer + 2] && id[3] == segment@[footer + 3]);
        if id[0] == 0x43 && id[1] == 0x52 && id[2] == 0x43 && id[3] == 0x33 {
            assert(id =~= segment::checksum_section_id());
        }
    }
}

/// The records of a Base start behind a header of 24 bytes and 12 bytes for each slot, where
/// the data has these.
pub proof fn law_records_start(slots: u64, data_size: usize, result: Result<usize>)
    requires
        call_ensures(records_start, (slots, data_size), result),
    ensures
        result is Ok <==> 24 + 12 * slots <= data_size,
        result matches Ok(start) ==> start == 24 + 12 * slots,
{
}

/// The header of a Base is its name, its size, the number of slots, which is none or a power of
/// two, and the number of records. It is read exactly where the slots fit into the data.
pub proof fn law_base_header(data: &[u8], result: Result<(u64, usize)>)
    requires
        call_ensures(read_base_header, (data,), result),
    ensures
        ({
            let slots = number_of_eight(data@, 8);
            let len = number_of_eight(data@, 16);
            &&& result is Ok <==> {
                &&& data@.len() >= 24
                &&& data@[0] == 0x48
                &&& data@[1] == 0x41
                &&& data@[2] == 0x53
                &&& data@[3] == 0x48
                &&& number_of_four(data@, 4) == 24
                &&& len <= usize::MAX
                &&& slots == 0 || exists|e: nat| slots == #[trigger] pow2(e)
                &&& 24 + 12 * slots <= data@.len()
            }
            &&& result matches Ok((read, count)) ==> read == slots && count == len
        }),
{
    lemma_numbers(data@, 4);
    lemma_numbers(data@, 8);
    lemma_numbers(data@, 16);
    assert(vstd::slice::spec_slice_len(data) == data@.len());
    if data@.len() >= 24 {
        let id = data@.subrange(0, 4);
        assert(id[0] == data@[0] && id[1] == data@[1] && id[2] == data@[2] && id[3] == data@[3]);
        if id[0] == 0x48 && id[1] == 0x41 && id[2] == 0x53 && id[3] == 0x48 {
            assert(id =~= segment::hash_section_id());
        }
    }
}

/// The index over some records has the least power of two of slots of which they take at most
/// four fifths.
pub proof fn law_slot_count(len: nat)
    ensures
        len == 0 ==> index::slot_count(len) == 0,
        5 * len <= 4 * index::slot_count(len),
        len > 0 ==> 2 * index::slot_count(len) < 5 * len,
        len > 0 ==> exists|e: nat| index::slot_count(len) == #[trigger] pow2(e),
{
    if len > 0 {
        power::lemma_next_power(bytes::ceil_div(5 * len as int, 4) as nat);
        let slots = index::slot_count(len) as int;
        let e = choose|e: nat| slots == #[trigger] pow2(e);
        vstd::arithmetic::power2::lemma2_to64();
        if e > 0 {
            vstd::arithmetic::power2::lemma_pow2_unfold(e);
        }
    }
}

/// A number is a power of two exactly where doubling one gives it.
pub proof fn law_powers_of_two(n: u64, yes: bool, m: usize, next: Option<usize>)
    requires
        call_ensures(is_power_of_two, (n,), yes),
        call_ensures(checked_next_power_of_two, (m,), next),
    ensures
        yes <==> exists|e: nat| n == #[trigger] pow2(e),
        next matches Some(next) ==> m <= next && (m > 0 ==> next < 2 * m) && exists|e: nat|
            next == #[trigger] pow2(e),
        next is None ==> 2 * m > usize::MAX,
{
    power::lemma_next_power(m as nat);
}

/// A page holds a Superblock behind its name, the version and its size, as numbers of eight
/// bytes and a checksum of four, with the checksum of all that.
pub proof fn law_encoded_page(superblock: Superblock, page: Vec<u8>)
    requires
        call_ensures(encode_page, (superblock,), page),
    ensures
        page@.len() == 4096,
        page@[0] == 0x4c && page@[1] == 0x4b && page@[2] == 0x56,
        forall|i: int| 3 <= i < 8 ==> page@[i] == 0,
        number_of_four(page@, 8) == 1,
        number_of_four(page@, 12) == 72,
        number_of_eight(page@, 16) == superblock@.generation,
        number_of_eight(page@, 24) == superblock@.base_offset,
        number_of_eight(page@, 32) == superblock@.base_size,
        number_of_eight(page@, 40) == superblock@.base_slots,
        number_of_eight(page@, 48) == superblock@.base_len,
        number_of_eight(page@, 56) == superblock@.log_start,
        number_of_four(page@, 64) == superblock@.base_checksum,
        number_of_four(page@, 68) == checksum::crc32c_value(page@.subrange(0, 68)),
        forall|i: int| 72 <= i < 4096 ==> page@[i] == 0,
{
    broadcast use {bytes::lemma_u32_bytes_len, bytes::lemma_u64_bytes_len};

    superblock::law_page_roundtrip(superblock@);
    let body = superblock::header_body(superblock@);
    assert(body.len() == 68);
    assert(page@.subrange(0, 68) =~= body);
    let name = page@.subrange(0, 8);
    assert(name =~= superblock::magic());
    assert forall|i: int| 0 <= i < 8 implies page@[i] == superblock::magic()[i] by {
        assert(name[i] == page@[i]);
    }
    lemma_numbers(page@, 8);
    lemma_numbers(page@, 12);
    lemma_numbers(page@, 16);
    lemma_numbers(page@, 24);
    lemma_numbers(page@, 32);
    lemma_numbers(page@, 40);
    lemma_numbers(page@, 48);
    lemma_numbers(page@, 56);
    lemma_numbers(page@, 64);
    lemma_numbers(page@, 68);
}

/// Odd generations are published on the second page, even ones on the first; a second copy goes
/// to the other page.
pub proof fn law_page_offsets(generation: u64, offset: u64, other: u64)
    requires
        call_ensures(page_offset_of, (generation,), offset),
        call_ensures(redundant_page_offset_of, (generation,), other),
    ensures
        offset == 4096 * (generation % 2),
        other == 4096 - offset,
{
}

/// Whether a Superblock describes parts that a file has: a Base behind the two pages, with room
/// for its header, and a log behind the Base.
pub open spec fn describes_a_file(superblock: superblock::SuperblockView, file_len: u64) -> bool {
    &&& 8192 <= superblock.base_offset
    &&& 24 <= superblock.base_size
    &&& superblock.base_offset + superblock.base_size <= superblock.log_start
    &&& superblock.log_start <= file_len
}

/// The Superblock that is read from a file describes parts that the file has, and is on one of
/// its pages. Where both pages hold one that does, it is that of the higher generation.
pub proof fn law_latest_superblock(
    file: &[u8],
    file_len: u64,
    result: Result<Superblock>,
    first: superblock::SuperblockView,
    second: superblock::SuperblockView,
)
    requires
        call_ensures(read_latest_from, (file, file_len), result),
        file@.len() >= 8192,
        file@.subrange(0, 4096) == superblock::page_bytes(first),
        file@.subrange(4096, 8192) == superblock::page_bytes(second),
    ensures
        result is Ok <==> describes_a_file(first, file_len) || describes_a_file(second, file_len),
        result matches Ok(latest) ==> describes_a_file(latest@, file_len) && (latest@ == first
            || latest@ == second),
        describes_a_file(first, file_len) && describes_a_file(second, file_len) ==> (
        result matches Ok(latest) && latest@.generation >= first.generation && latest@.generation
            >= second.generation),
{
    superblock::law_page_roundtrip(first);
    superblock::law_page_roundtrip(second);
}

/// Entries with distinct keys within the limits of the format are built into a Base wherever
/// memory is there and positions are numbers of eight bytes. The Base is as long as was
/// measured, and in it every key is found as the entries say, whether or not blocks are checked.
pub proof fn law_build_base(
    room: Room,
    start: u64,
    len: usize,
    entries: &[(&[u8], &[u8])],
    result: Result<(Vec<u8>, WrittenBase)>,
    key: Seq<u8>,
    verify: bool,
)
    requires
        call_ensures(build_base_in, (room, start, len, entries), result),
        len == entries@.len(),
        records::entries_fit(segment::pairs_view(entries@)),
        records::entry_keys(segment::pairs_view(entries@)).no_duplicates(),
        segment::measure_outcome(segment::pairs_view(entries@)) matches Ok((_, size)) && start
            + size <= u64::MAX && promises::memory_is_there(room, size),
    ensures
        result matches Ok((segment, written)) && {
            let all = segment::pairs_view(entries@);
            &&& state::holds_entries(segment@, start, all)
            &&& segment@.len() == (segment::measure_outcome(all)->Ok_0).1
            &&& written.size == segment@.len()
            &&& written.len == len
            &&& written.slots == index::slot_count(len as nat)
            &&& written.metadata_checksum == segment::metadata_checksum(segment@)
            &&& lookup::lookup_outcome(
                segment::segment_data(segment@),
                segment::segment_checksums(segment@),
                verify,
                start,
                written.slots as int,
                key,
            ) == Ok::<Option<Seq<u8>>, crate::error::ErrorView>(lookup::entries_map(all).get(key))
        },
{
    let all = segment::pairs_view(entries@);
    compacting::law_measured_size(all);
    maintenance::law_measured_entries_can_be_built(start as int, all);
    maintenance::lemma_built_base(start, len as int, all);
    let segment = writer::base_segment(start as int, all);
    state::lemma_holds_entries(segment, start, all);
    lookup::law_lookup_finds_what_was_written(
        start,
        all,
        segment::segment_checksums(segment),
        verify,
        key,
    );
}

/// Entries are measured by their number and the size of their Base, where that is a machine
/// word.
pub proof fn law_measure_base(entries: &[(&[u8], &[u8])], result: Result<(usize, u64)>)
    requires
        call_ensures(measure_base_iter, (entries,), result),
    ensures
        ({
            let all = segment::pairs_view(entries@);
            let data = 24 + 12 * index::slot_count(all.len()) + records::records_size(all);
            let size = data + 4 * ((data + 65_535) / 65_536) + 24;
            &&& result is Ok <==> size <= usize::MAX
            &&& result matches Ok((count, measured)) ==> count == entries@.len() && measured
                == size
        }),
{
    compacting::law_measured_size(segment::pairs_view(entries@));
}

/// Every record takes eight bytes for its two lengths, and the bytes of its key and its value.
pub proof fn law_records_size(entries: Seq<(Seq<u8>, Seq<u8>)>, key: Seq<u8>, value: Seq<u8>)
    ensures
        records::records_size(Seq::empty()) == 0,
        records::records_size(entries.push((key, value))) == records::records_size(entries) + 8
            + key.len() + value.len(),
{
    assert(entries.push((key, value)).drop_last() =~= entries);
}

/// Validation passes, where memory is there for the records, exactly for the data of a Base.
pub proof fn law_validate_base(
    room: Room,
    data: &[u8],
    start: u64,
    slots: u64,
    len: usize,
    result: Result<()>,
)
    requires
        call_ensures(validate_base_in, (room, data, start, slots, len), result),
        start + data@.len() <= u64::MAX,
        promises::memory_is_there(room, len as int),
    ensures
        result is Ok <==> validate::is_base(data@, start as int, slots, len as nat),
{
    assert(vstd::slice::spec_slice_len(data) == data@.len());
    validate::law_validation_is_exact(data@, start as int, slots, len as nat);
}

/// Recovering a log gives back the batches that were committed to it, one after the other,
/// wherever memory is there for a batch.
pub proof fn law_scan_overlay(
    room: Room,
    file: &[u8],
    start: u64,
    batches: Seq<Seq<(Seq<u8>, Option<Seq<u8>>)>>,
    result: Result<OverlayScan>,
)
    requires
        call_ensures(scan_overlay_in, (room, file, start, file@.len() as u64), result),
        file@.len() <= u64::MAX,
        replay::batches_fit(batches),
        start + replay::log_bytes(batches).len() <= file@.len(),
        file@.subrange(start as int, start + replay::log_bytes(batches).len())
            == replay::log_bytes(batches),
        replay::log_ends(
            file@,
            start + replay::log_bytes(batches).len(),
            file@.len() as int,
        ),
        promises::memory_is_there(room, 1_048_576),
    ensures
        result matches Ok(scan) && replay::recovered_view(file@, scan@) == replay::replay(batches)
            && scan.end() == start + replay::log_bytes(batches).len(),
{
    replay::law_log_replays_committed_batches(
        file@,
        start as int,
        file@.len() as int,
        batches,
    );
}

/// A batch that can be committed has at most a million operations, of keys of at most 1 MiB and
/// values below 4 GiB, and takes less than 4 GiB in all.
pub proof fn law_batch_limits(operations: Seq<(Seq<u8>, Option<Seq<u8>>)>)
    ensures
        replay::batch_fits(operations) <==> {
            &&& operations.len() <= 1_000_000
            &&& 4 + writing::bytes_of(operations) <= 4_294_967_295
            &&& forall|i: int|
                0 <= i < operations.len() ==> (#[trigger] operations[i]).0.len() <= 1_048_576
                    && (operations[i].1 matches Some(value) ==> value.len() <= 4_294_967_295)
        },
{
    writing::lemma_bytes_of(operations);
    if replay::batch_fits(operations) {
        assert forall|i: int| 0 <= i < operations.len() implies (
        #[trigger] operations[i]).0.len() <= 1_048_576 && (operations[i].1 matches Some(value)
            ==> value.len() <= 4_294_967_295) by {
            assert(segment::lengths_fit(
                operations[i].0.len() as int,
                log::operation_value(operations[i].1).len() as int,
            ));
        }
    }
}

/// Whether an operation stands at `at`: a one for a put or a two for a deletion, the length of
/// the key, that of the value, which is none for a deletion, the key and the value.
pub open spec fn stands_at(
    bytes: Seq<u8>,
    at: int,
    operation: (Seq<u8>, Option<Seq<u8>>),
) -> bool {
    let (key, value) = operation;
    let value_len = match value {
        Some(value) => value.len() as int,
        None => 0,
    };
    &&& bytes[at] == (if value is Some {
        1u8
    } else {
        2u8
    })
    &&& number_of_four(bytes, at + 1) == key.len()
    &&& number_of_four(bytes, at + 5) == value_len
    &&& bytes.subrange(at + 9, at + 9 + key.len()) == key
    &&& value matches Some(value) ==> bytes.subrange(
        at + 9 + key.len(),
        at + 9 + key.len() + value_len,
    ) == value
}

/// The operations of a batch stand one after the other.
pub proof fn law_operations_stand(
    operations: Seq<(Seq<u8>, Option<Seq<u8>>)>,
    operation: (Seq<u8>, Option<Seq<u8>>),
)
    requires
        operation.0.len() <= 1_048_576,
        operation.1 matches Some(value) ==> value.len() <= 4_294_967_295,
    ensures
        log::operations_bytes(Seq::empty()).len() == 0,
        log::operations_bytes(operations).len() == writing::bytes_of(operations),
        ({
            let before = log::operations_bytes(operations);
            let after = log::operations_bytes(operations.push(operation));
            after.take(before.len() as int) == before && stands_at(
                after,
                before.len() as int,
                operation,
            )
        }),
{
    broadcast use bytes::lemma_u32_bytes_len;

    let longer = operations.push(operation);
    assert(longer.drop_last() =~= operations);
    writing::lemma_bytes_of(operations);
    writing::lemma_bytes_of(longer);
    log::lemma_operations_size(operations);
    log::lemma_operations_size(longer);
    let before = log::operations_bytes(operations);
    let after = log::operations_bytes(longer);
    let at = before.len() as int;
    let (key, value) = operation;
    let bytes_of_value = log::operation_value(value);
    assert(after =~= before + log::operation_bytes(operation));
    assert(after.take(at) =~= before);
    assert(after.subrange(at + 1, at + 5) =~= bytes::u32_bytes(key.len() as u32));
    assert(after.subrange(at + 5, at + 9) =~= bytes::u32_bytes(bytes_of_value.len() as u32));
    bytes::lemma_le_u32_of_bytes(after, at + 1, key.len() as u32);
    bytes::lemma_le_u32_of_bytes(after, at + 5, bytes_of_value.len() as u32);
    lemma_numbers(after, at + 1);
    lemma_numbers(after, at + 5);
    assert(after.subrange(at + 9, at + 9 + key.len()) =~= key);
    assert(after.subrange(at + 9 + key.len(), at + 9 + key.len() + bytes_of_value.len())
        =~= bytes_of_value);
}

/// The record of a batch is a four, no length, the length of what follows the header, the
/// checksum of these nine bytes and what follows, the checksum of these thirteen bytes; then
/// the number of operations, and the operations.
pub proof fn law_batch_record(operations: Seq<(Seq<u8>, Option<Seq<u8>>)>)
    requires
        replay::batch_fits(operations),
    ensures
        ({
            let record = log::batch_record(operations);
            let payload = record.skip(17);
            &&& record.len() == 21 + writing::bytes_of(operations)
            &&& record[0] == 4
            &&& number_of_four(record, 1) == 0
            &&& number_of_four(record, 5) == payload.len()
            &&& number_of_four(record, 9) == checksum::crc32c_value(record.take(9) + payload)
            &&& number_of_four(record, 13) == checksum::crc32c_value(record.take(13))
            &&& number_of_four(record, 17) == operations.len()
            &&& record.skip(21) == log::operations_bytes(operations)
        }),
{
    broadcast use bytes::lemma_u32_bytes_len;

    law_batch_limits(operations);
    writing::lemma_bytes_of(operations);
    log::lemma_operations_size(operations);
    let payload = log::batch_payload(operations);
    let len = payload.len() as u32;
    let sum = log::record_checksum_value(log::Marker::Batch, 0, len, payload);
    log::lemma_header_len(log::Marker::Batch, 0, len, sum);
    let prefix = log::prefix_bytes(log::Marker::Batch, 0, len);
    let body = prefix + bytes::u32_bytes(sum);
    let record = log::batch_record(operations);
    assert(record.skip(17) =~= payload);
    assert(record.take(9) =~= prefix);
    assert(record.take(13) =~= body);
    assert(record.subrange(1, 5) =~= bytes::u32_bytes(0));
    assert(record.subrange(5, 9) =~= bytes::u32_bytes(len));
    assert(record.subrange(9, 13) =~= bytes::u32_bytes(sum));
    assert(record.subrange(13, 17) =~= bytes::u32_bytes(checksum::crc32c_value(body)));
    assert(record.subrange(17, 21) =~= bytes::u32_bytes(operations.len() as u32));
    bytes::lemma_le_u32_of_bytes(record, 1, 0);
    bytes::lemma_le_u32_of_bytes(record, 5, len);
    bytes::lemma_le_u32_of_bytes(record, 9, sum);
    bytes::lemma_le_u32_of_bytes(record, 13, checksum::crc32c_value(body));
    bytes::lemma_le_u32_of_bytes(record, 17, operations.len() as u32);
    lemma_numbers(record, 1);
    lemma_numbers(record, 5);
    lemma_numbers(record, 9);
    lemma_numbers(record, 13);
    lemma_numbers(record, 17);
    assert(record.skip(21) =~= log::operations_bytes(operations));
}

/// The record that ends a log is a three with no lengths, and the two checksums.
pub proof fn law_compact_marker(marker: Vec<u8>)
    requires
        call_ensures(compact_marker, (), marker),
    ensures
        marker@.len() == 17,
        marker@[0] == 3,
        number_of_four(marker@, 1) == 0,
        number_of_four(marker@, 5) == 0,
        number_of_four(marker@, 9) == checksum::crc32c_value(marker@.take(9)),
        number_of_four(marker@, 13) == checksum::crc32c_value(marker@.take(13)),
{
    broadcast use bytes::lemma_u32_bytes_len;

    let none = Seq::<u8>::empty();
    let sum = log::record_checksum_value(log::Marker::Compact, 0, 0, none);
    log::lemma_header_len(log::Marker::Compact, 0, 0, sum);
    let prefix = log::prefix_bytes(log::Marker::Compact, 0, 0);
    let body = prefix + bytes::u32_bytes(sum);
    assert(marker@.take(9) =~= prefix);
    assert(prefix + none =~= prefix);
    assert(marker@.take(13) =~= body);
    assert(marker@.subrange(1, 5) =~= bytes::u32_bytes(0));
    assert(marker@.subrange(5, 9) =~= bytes::u32_bytes(0));
    assert(marker@.subrange(9, 13) =~= bytes::u32_bytes(sum));
    assert(marker@.subrange(13, 17) =~= bytes::u32_bytes(checksum::crc32c_value(body)));
    bytes::lemma_le_u32_of_bytes(marker@, 1, 0);
    bytes::lemma_le_u32_of_bytes(marker@, 5, 0);
    bytes::lemma_le_u32_of_bytes(marker@, 9, sum);
    bytes::lemma_le_u32_of_bytes(marker@, 13, checksum::crc32c_value(body));
    lemma_numbers(marker@, 1);
    lemma_numbers(marker@, 5);
    lemma_numbers(marker@, 9);
    lemma_numbers(marker@, 13);
}

/// A record of a Base is the length of the key, that of the value, the key and the value.
pub proof fn law_record_layout(
    entries: Seq<(Seq<u8>, Seq<u8>)>,
    key: Seq<u8>,
    value: Seq<u8>,
)
    requires
        key.len() <= 1_048_576,
        value.len() <= 4_294_967_295,
    ensures
        records::records_bytes(Seq::empty()).len() == 0,
        records::records_bytes(entries).len() == records::records_size(entries),
        ({
            let before = records::records_bytes(entries);
            let after = records::records_bytes(entries.push((key, value)));
            let at = before.len() as int;
            &&& after.take(at) == before
            &&& number_of_four(after, at) == key.len()
            &&& number_of_four(after, at + 4) == value.len()
            &&& after.subrange(at + 8, at + 8 + key.len()) == key
            &&& after.subrange(at + 8 + key.len(), at + 8 + key.len() + value.len()) == value
            &&& after.len() == at + 8 + key.len() + value.len()
        }),
{
    broadcast use bytes::lemma_u32_bytes_len;

    let longer = entries.push((key, value));
    assert(longer.drop_last() =~= entries);
    records::lemma_records_size(entries);
    records::lemma_records_size(longer);
    let before = records::records_bytes(entries);
    let after = records::records_bytes(longer);
    let at = before.len() as int;
    assert(after =~= before + records::record_bytes(key, value));
    assert(after.take(at) =~= before);
    assert(after.subrange(at, at + 4) =~= bytes::u32_bytes(key.len() as u32));
    assert(after.subrange(at + 4, at + 8) =~= bytes::u32_bytes(value.len() as u32));
    bytes::lemma_le_u32_of_bytes(after, at, key.len() as u32);
    bytes::lemma_le_u32_of_bytes(after, at + 4, value.len() as u32);
    lemma_numbers(after, at);
    lemma_numbers(after, at + 4);
    assert(after.subrange(at + 8, at + 8 + key.len()) =~= key);
    assert(after.subrange(at + 8 + key.len(), at + 8 + key.len() + value.len()) =~= value);
}

/// Entries within the limits of the format have keys of at most 1 MiB and values below 4 GiB.
pub proof fn law_entry_limits(entries: Seq<(Seq<u8>, Seq<u8>)>)
    ensures
        records::entries_fit(entries) <==> forall|i: int|
            0 <= i < entries.len() ==> (#[trigger] entries[i]).0.len() <= 1_048_576
                && entries[i].1.len() <= 4_294_967_295,
{
}

/// Of a key, a log says what the last operation on it says: the last batch is replayed after
/// those before it, and its operations in order.
pub proof fn law_replay(
    batches: Seq<Seq<(Seq<u8>, Option<Seq<u8>>)>>,
    batch: Seq<(Seq<u8>, Option<Seq<u8>>)>,
    operation: (Seq<u8>, Option<Seq<u8>>),
)
    ensures
        replay::replay(Seq::empty()) == Map::<Seq<u8>, Option<Seq<u8>>>::empty(),
        replay::replay(batches.push(Seq::empty())) == replay::replay(batches),
        replay::replay(batches.push(batch.push(operation))) == replay::replay(
            batches.push(batch),
        ).insert(operation.0, operation.1),
{
    assert(batches.push(Seq::empty()).drop_last() =~= batches);
    assert(batches.push(batch).drop_last() =~= batches);
    assert(batches.push(batch.push(operation)).drop_last() =~= batches);
    assert(batch.push(operation).drop_last() =~= batch);
}

} // verus!
