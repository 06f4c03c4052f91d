//! Finding a key in a Base.

use crate::bytes;
use crate::error;
use crate::error::ErrorView;
use crate::format::index;
use crate::format::records;
use crate::format::segment;
use crate::format::segment::{BASE_HEADER, CHECKSUM_BLOCK_SIZE, SLOT_SIZE};
use crate::hash;
use crate::key_map;
use vstd::prelude::*;

verus! {

/// What checking the blocks that hold a range of the data gives.
pub open spec fn range_outcome(
    data: Seq<u8>,
    checksums: Seq<u8>,
    segment_offset: u64,
    start: int,
    end: int,
) -> std::result::Result<(), ErrorView> {
    if start > end {
        Err(error::invalid_base("read range lies outside segment"@))
    } else if end > data.len() {
        Err(error::invalid_base("read range lies outside segment data"@))
    } else if start == end {
        Ok(())
    } else {
        segment::blocks_outcome(
            data,
            checksums,
            segment_offset,
            start / CHECKSUM_BLOCK_SIZE as int,
            (end - 1) / CHECKSUM_BLOCK_SIZE as int + 1,
        )
    }
}

/// What probing for a key from distance `d` on gives. With `verify`, the blocks that
/// are read are checked first.
pub open spec fn lookup_from(
    data: Seq<u8>,
    checksums: Seq<u8>,
    verify: bool,
    segment_offset: u64,
    slots: int,
    key: Seq<u8>,
    hash: u64,
    d: int,
) -> std::result::Result<Option<Seq<u8>>, ErrorView>
    decreases slots - d,
{
    let slot_at = BASE_HEADER + SLOT_SIZE * index::probe(hash, d, slots);
    let slot_check = range_outcome(data, checksums, segment_offset, slot_at, slot_at + SLOT_SIZE);
    let fingerprint = bytes::le_u32(data, slot_at);
    let absolute = bytes::le_u64(data, slot_at + 4);
    let at = absolute - segment_offset;
    let end = segment::record_end(data, at);
    let record_check = range_outcome(data, checksums, segment_offset, at, end);
    if d >= slots {
        Ok(None)
    } else if verify && slot_check is Err {
        Err(slot_check->Err_0)
    } else if absolute == 0 {
        Ok(None)
    } else if fingerprint != hash::fingerprint(hash) {
        lookup_from(data, checksums, verify, segment_offset, slots, key, hash, d + 1)
    } else if at < 0 || at + 8 > data.len() {
        Ok(None)
    } else if end > usize::MAX {
        Ok(None)
    } else if verify && record_check is Err {
        Err(record_check->Err_0)
    } else if end <= data.len() && segment::record_key(data, at) == key {
        Ok(Some(segment::record_value(data, at)))
    } else {
        lookup_from(data, checksums, verify, segment_offset, slots, key, hash, d + 1)
    }
}

/// What looking up a key in a Base gives.
pub open spec fn lookup_outcome(
    data: Seq<u8>,
    checksums: Seq<u8>,
    verify: bool,
    segment_offset: u64,
    slots: int,
    key: Seq<u8>,
) -> std::result::Result<Option<Seq<u8>>, ErrorView> {
    lookup_from(
        data,
        checksums,
        verify,
        segment_offset,
        slots,
        key,
        hash::xxh3_64_value(key),
        0,
    )
}

/// What is found where the blocks that are read pass their checks is what is found without
/// the checks.
pub proof fn lemma_checks_change_no_value(
    data: Seq<u8>,
    checksums: Seq<u8>,
    segment_offset: u64,
    slots: int,
    key: Seq<u8>,
    hash: u64,
    d: int,
)
    ensures
        lookup_from(data, checksums, true, segment_offset, slots, key, hash, d) matches Ok(found)
            ==> lookup_from(data, checksums, false, segment_offset, slots, key, hash, d) == Ok::<
            Option<Seq<u8>>,
            ErrorView,
        >(found),
    decreases slots - d,
{
    if d < slots {
        lemma_checks_change_no_value(data, checksums, segment_offset, slots, key, hash, d + 1);
    }
}

/// The map that entries with distinct keys describe.
pub open spec fn entries_map(entries: Seq<(Seq<u8>, Seq<u8>)>) -> Map<Seq<u8>, Seq<u8>> {
    key_map::pairs_map(records::entry_keys(entries), records::entry_values(entries))
}

/// A range within intact data passes.
pub proof fn lemma_range_ok(
    data: Seq<u8>,
    checksums: Seq<u8>,
    segment_offset: u64,
    start: int,
    end: int,
)
    requires
        segment::blocks_ok(data, checksums),
        0 <= start <= end <= data.len(),
    ensures
        range_outcome(data, checksums, segment_offset, start, end) is Ok,
{
    if start < end {
        segment::lemma_blocks_outcome(
            data,
            checksums,
            segment_offset,
            start / CHECKSUM_BLOCK_SIZE as int,
            (end - 1) / CHECKSUM_BLOCK_SIZE as int + 1,
        );
    }
}

/// A slot of a Base that was built is empty, or leads to one of its records.
proof fn lemma_slot_record(start: u64, entries: Seq<(Seq<u8>, Seq<u8>)>, s: int) -> (j: int)
    requires
        start + index::base_data_size(entries) <= u64::MAX,
        records::entries_fit(entries),
        0 <= s < index::slot_count(entries.len()),
    ensures
        ({
            let data = index::base_data(start as int, entries);
            let at = BASE_HEADER + SLOT_SIZE * s;
            let slots = index::slot_count(entries.len());
            let table = index::build_table(
                entries,
                slots,
                start + index::records_offset(slots as int),
            );
            let absolute = bytes::le_u64(data, at + 4);
            &&& at + SLOT_SIZE <= data.len()
            &&& bytes::le_u32(data, at) == table[s].0
            &&& absolute == table[s].1
            &&& absolute != 0 ==> {
                &&& 0 <= j < entries.len()
                &&& table[s] == index::slot_of(
                    entries,
                    start + index::records_offset(slots as int),
                    j,
                )
                &&& absolute >= start
                &&& segment::record_fits(data, absolute - start)
                &&& segment::record_key(data, absolute - start) == entries[j].0
                &&& segment::record_value(data, absolute - start) == entries[j].1
            }
        }),
{
    let data = index::base_data(start as int, entries);
    let slots = index::slot_count(entries.len());
    let at = start + index::records_offset(slots as int);
    let table = index::build_table(entries, slots, at);
    index::lemma_base_data(start as int, entries);
    records::lemma_records_size(entries);
    index::lemma_base_slot(start as int, entries, s);
    if table[s].1 != 0 {
        assert(index::is_slot(table, entries, at, s));
        let j = choose|j: int|
            0 <= j < entries.len() && table[s] == #[trigger] index::slot_of(entries, at, j);
        index::lemma_slot_nonzero(entries, at, j);
        index::lemma_base_record(start as int, entries, j);
        j
    } else {
        0
    }
}

/// Probing for the key of record `i` goes on until the slot of that record.
proof fn lemma_lookup_present(
    start: u64,
    entries: Seq<(Seq<u8>, Seq<u8>)>,
    checksums: Seq<u8>,
    verify: bool,
    i: int,
    d: int,
    target: int,
)
    requires
        start + index::base_data_size(entries) <= u64::MAX,
        index::base_data_size(entries) <= usize::MAX,
        records::entries_fit(entries),
        records::entry_keys(entries).no_duplicates(),
        verify ==> segment::blocks_ok(index::base_data(start as int, entries), checksums),
        0 <= i < entries.len(),
        0 <= d <= target,
        index::placed(
            index::build_table(
                entries,
                index::slot_count(entries.len()),
                start + index::records_offset(index::slot_count(entries.len()) as int),
            ),
            hash::xxh3_64_value(entries[i].0),
            target,
            index::slot_of(
                entries,
                start + index::records_offset(index::slot_count(entries.len()) as int),
                i,
            ),
        ),
    ensures
        lookup_from(
            index::base_data(start as int, entries),
            checksums,
            verify,
            start,
            index::slot_count(entries.len()) as int,
            entries[i].0,
            hash::xxh3_64_value(entries[i].0),
            d,
        ) == Ok::<Option<Seq<u8>>, ErrorView>(Some(entries[i].1)),
    decreases target - d,
{
    let data = index::base_data(start as int, entries);
    let slots = index::slot_count(entries.len());
    let at = start + index::records_offset(slots as int);
    let table = index::build_table(entries, slots, at);
    let key = entries[i].0;
    let hash = hash::xxh3_64_value(key);
    index::lemma_base_data(start as int, entries);
    records::lemma_records_size(entries);
    index::lemma_next_probe(hash, d, slots as int);
    index::lemma_next_probe(hash, target, slots as int);
    let s = index::probe(hash, d, slots as int);
    let j = lemma_slot_record(start, entries, s);
    index::lemma_slot_nonzero(entries, at, i);
    let slot_at = BASE_HEADER + SLOT_SIZE * s;
    if verify {
        lemma_range_ok(data, checksums, start, slot_at, slot_at + SLOT_SIZE);
    }
    assert(table[s].1 != 0);
    let offset = table[s].1 - start;
    if verify {
        lemma_range_ok(data, checksums, start, offset, segment::record_end(data, offset));
    }
    if d < target {
        assert(entries[j].0 != key) by {
            if entries[j].0 == key {
                assert(records::entry_keys(entries)[i] == records::entry_keys(entries)[j]);
                assert(i == j);
                let t = index::probe(hash, target, slots as int);
                assert(table[t] == table[s]);
                if s == t {
                    index::lemma_probe_injective(hash, d, target, slots as int);
                } else if s < t {
                    assert(table[s].1 != table[t].1);
                } else {
                    assert(table[t].1 != table[s].1);
                }
            }
        }
        lemma_lookup_present(start, entries, checksums, verify, i, d + 1, target);
    } else {
        assert(table[s] == index::slot_of(entries, at, i));
        index::lemma_base_record(start as int, entries, i);
    }
}

/// Probing for a key without a record ends without one.
proof fn lemma_lookup_absent(
    start: u64,
    entries: Seq<(Seq<u8>, Seq<u8>)>,
    checksums: Seq<u8>,
    verify: bool,
    key: Seq<u8>,
    d: int,
)
    requires
        start + index::base_data_size(entries) <= u64::MAX,
        index::base_data_size(entries) <= usize::MAX,
        records::entries_fit(entries),
        verify ==> segment::blocks_ok(index::base_data(start as int, entries), checksums),
        !records::entry_keys(entries).contains(key),
        d >= 0,
    ensures
        lookup_from(
            index::base_data(start as int, entries),
            checksums,
            verify,
            start,
            index::slot_count(entries.len()) as int,
            key,
            hash::xxh3_64_value(key),
            d,
        ) == Ok::<Option<Seq<u8>>, ErrorView>(None),
    decreases index::slot_count(entries.len()) - d,
{
    let data = index::base_data(start as int, entries);
    let slots = index::slot_count(entries.len());
    let at = start + index::records_offset(slots as int);
    let hash = hash::xxh3_64_value(key);
    index::lemma_base_data(start as int, entries);
    records::lemma_records_size(entries);
    if d < slots {
        let table = index::build_table(entries, slots, at);
        index::lemma_next_probe(hash, d, slots as int);
        let s = index::probe(hash, d, slots as int);
        let j = lemma_slot_record(start, entries, s);
        let slot_at = BASE_HEADER + SLOT_SIZE * s;
        if verify {
            lemma_range_ok(data, checksums, start, slot_at, slot_at + SLOT_SIZE);
        }
        if table[s].1 != 0 {
            let offset = table[s].1 - start;
            if verify {
                lemma_range_ok(data, checksums, start, offset, segment::record_end(data, offset));
            }
            assert(records::entry_keys(entries)[j] == entries[j].0);
            lemma_lookup_absent(start, entries, checksums, verify, key, d + 1);
        }
    }
}

/// Looking up any key in a Base that was built from entries with distinct keys gives
/// exactly what the entries say of it, checked or not.
pub proof fn law_lookup_finds_what_was_written(
    start: u64,
    entries: Seq<(Seq<u8>, Seq<u8>)>,
    checksums: Seq<u8>,
    verify: bool,
    key: Seq<u8>,
)
    requires
        start + index::base_data_size(entries) <= u64::MAX,
        index::base_data_size(entries) <= usize::MAX,
        records::entries_fit(entries),
        records::entry_keys(entries).no_duplicates(),
        verify ==> segment::blocks_ok(index::base_data(start as int, entries), checksums),
    ensures
        lookup_outcome(
            index::base_data(start as int, entries),
            checksums,
            verify,
            start,
            index::slot_count(entries.len()) as int,
            key,
        ) == Ok::<Option<Seq<u8>>, ErrorView>(entries_map(entries).get(key)),
{
    let slots = index::slot_count(entries.len());
    let at = start + index::records_offset(slots as int);
    let keys = records::entry_keys(entries);
    if keys.contains(key) {
        let i = keys.index_of(key);
        assert(keys[i] == key);
        let table = index::build_table(entries, slots, at);
        index::lemma_base_data(start as int, entries);
        assert(index::reachable(table, entries, at, i));
        let target = choose|target: int| #[trigger]
            index::placed(table, hash::xxh3_64_value(key), target, index::slot_of(entries, at, i));
        lemma_lookup_present(start, entries, checksums, verify, i, 0, target);
        key_map::lemma_pairs_map_at(keys, records::entry_values(entries), i);
    } else {
        lemma_lookup_absent(start, entries, checksums, verify, key, 0);
    }
}

} // verus!
