//! Complete structural validation of a Base.

use crate::bytes;
use crate::bytes::{copy_bytes, u32_at, u64_at};
use crate::error;
use crate::error::{Error, ErrorView, Result};
use crate::format::index;
use crate::format::records;
use crate::format::segment;
use crate::format::segment::{records_start, BASE_HEADER, SLOT_SIZE};
use crate::hash;
use crate::hash::xxh3_64;
use crate::key_map::KeyMap;
use crate::room;
use crate::room::{ask, Room};
use std::collections::{HashMap, HashSet};
use vstd::prelude::*;

verus! {

/// Calls `HashMap::try_reserve`. Whether the memory could be had is for the allocator
/// to say; what the map holds does not change.
#[verifier::external_body]
fn reserve_map(map: &mut HashMap<u64, u32>, additional: usize) -> (reserved: bool)
    ensures
        final(map)@ == old(map)@,
{
    map.try_reserve(additional).is_ok()
}

/// Calls `HashSet::try_reserve`. Whether the memory could be had is for the allocator
/// to say; what the set holds does not change.
#[verifier::external_body]
fn reserve_set(set: &mut HashSet<u64>, additional: usize) -> (reserved: bool)
    ensures
        final(set)@ == old(set)@,
{
    set.try_reserve(additional).is_ok()
}

/// Whether `HashMap::try_reserve` or `HashSet::try_reserve` answered that room for
/// `additional` more records cannot be had.
pub closed spec fn records_refused(additional: int) -> bool {
    ||| exists|lent: &mut HashMap<u64, u32>, asked: usize|
        asked == additional && #[trigger] call_ensures(reserve_map, (lent, asked), false)
    ||| exists|lent: &mut HashSet<u64>, asked: usize|
        asked == additional && #[trigger] call_ensures(reserve_set, (lent, asked), false)
}

/// Room for records is refused by nothing but an answer of `HashMap::try_reserve` or of
/// `HashSet::try_reserve`.
proof fn law_refused_records(additional: int)
    requires
        records_refused(additional),
        forall|lent: &mut HashMap<u64, u32>, asked: usize|
            asked == additional ==> !#[trigger] call_ensures(reserve_map, (lent, asked), false),
    ensures
        exists|lent: &mut HashSet<u64>, asked: usize|
            asked == additional && #[trigger] call_ensures(reserve_set, (lent, asked), false),
{
}

/// Whether `HashMap::try_reserve` or `HashSet::try_reserve` answered that room for
/// `additional` more records is had.
pub closed spec fn records_granted(additional: int) -> bool {
    ||| exists|lent: &mut HashMap<u64, u32>, asked: usize|
        asked == additional && #[trigger] call_ensures(reserve_map, (lent, asked), true)
    ||| exists|lent: &mut HashSet<u64>, asked: usize|
        asked == additional && #[trigger] call_ensures(reserve_set, (lent, asked), true)
}

/// Walks over `n` records that start at `at`, given the keys met before: where the
/// records end, or the first thing that is wrong.
pub open spec fn scan_records(
    data: Seq<u8>,
    at: int,
    n: nat,
    keys: Set<Seq<u8>>,
) -> std::result::Result<int, ErrorView>
    decreases n,
{
    if n == 0 {
        Ok(at)
    } else if at + 8 > usize::MAX {
        Err(error::invalid_base("record overflow"@))
    } else if at + 8 > data.len() {
        Err(error::invalid_base("truncated record header"@))
    } else if segment::value_start(data, at) > usize::MAX {
        Err(error::invalid_base("key length overflow"@))
    } else if segment::record_end(data, at) > usize::MAX {
        Err(error::invalid_base("value length overflow"@))
    } else if segment::record_end(data, at) > data.len() {
        Err(error::invalid_base("record extends beyond base"@))
    } else if keys.contains(segment::record_key(data, at)) {
        Err(error::invalid_base("duplicate key"@))
    } else {
        scan_records(
            data,
            segment::record_end(data, at),
            (n - 1) as nat,
            keys.insert(segment::record_key(data, at)),
        )
    }
}

/// The fingerprint of each of `n` records that start at `at`, by position in the file,
/// added to what is known.
pub open spec fn index_records(
    data: Seq<u8>,
    start: int,
    at: int,
    n: nat,
    known: Map<u64, u32>,
) -> Map<u64, u32>
    decreases n,
{
    if n == 0 {
        known
    } else {
        index_records(
            data,
            start,
            segment::record_end(data, at),
            (n - 1) as nat,
            known.insert(
                (start + at) as u64,
                hash::fingerprint(hash::xxh3_64_value(segment::record_key(data, at))),
            ),
        )
    }
}

/// Walks over the slots from `s` on, given the records that slots before it referred
/// to: all the records that slots refer to, or the first thing that is wrong.
pub open spec fn scan_slots(
    data: Seq<u8>,
    known: Map<u64, u32>,
    s: int,
    slots: int,
    referenced: Set<u64>,
) -> std::result::Result<Set<u64>, ErrorView>
    decreases slots - s,
{
    let fingerprint = bytes::le_u32(data, BASE_HEADER + SLOT_SIZE * s);
    let offset = bytes::le_u64(data, BASE_HEADER + SLOT_SIZE * s + 4);
    if s >= slots {
        Ok(referenced)
    } else if offset == 0 {
        if fingerprint != 0 {
            Err(error::invalid_base("empty slot has a fingerprint"@))
        } else {
            scan_slots(data, known, s + 1, slots, referenced)
        }
    } else if known.get(offset) != Some(fingerprint) {
        Err(error::invalid_base("slot points outside base or has the wrong fingerprint"@))
    } else if referenced.contains(offset) {
        Err(error::invalid_base("record is referenced by multiple slots"@))
    } else {
        scan_slots(data, known, s + 1, slots, referenced.insert(offset))
    }
}

/// What validating a Base gives: every record is whole and has a key of its own, the
/// records fill the data, and each has exactly one slot.
pub open spec fn validate_outcome(
    data: Seq<u8>,
    start: int,
    slots: u64,
    len: int,
) -> std::result::Result<(), ErrorView> {
    match segment::records_start_outcome(slots, data.len() as int) {
        Err(error) => Err(error),
        Ok(at) => if len > (data.len() - at) / 8 {
            Err(error::invalid_base("entry count exceeds segment capacity"@))
        } else {
            match scan_records(data, at, len as nat, Set::empty()) {
                Err(error) => Err(error),
                Ok(end) => if end != data.len() {
                    Err(error::invalid_base("unreferenced bytes at end of base"@))
                } else {
                    match scan_slots(
                        data,
                        index_records(data, start, at, len as nat, Map::empty()),
                        0,
                        slots as int,
                        Set::empty(),
                    ) {
                        Err(error) => Err(error),
                        Ok(referenced) => if referenced.len() != len {
                            Err(error::invalid_base("record is missing from hash index"@))
                        } else {
                            Ok(())
                        },
                    }
                },
            }
        },
    }
}

/// The errors that report an allocation that could not be made.
pub open spec fn is_allocation_error(error: ErrorView) -> bool {
    ||| error == error::invalid_base("record verification allocation failed"@)
    ||| error == error::invalid_base("key verification allocation failed"@)
    ||| error == error::invalid_base("index verification allocation failed"@)
}

/// Whether validation gets to where it reserves memory: there are records, and the data has
/// room for so many.
pub open spec fn validation_reserves(data_len: int, slots: u64, len: int) -> bool {
    &&& len > 0
    &&& segment::records_start_outcome(slots, data_len) matches Ok(at)
    &&& len <= (data_len - at) / 8
}

/// Whether `result` is what validating a Base can give, with memory reserved in `room`.
pub open spec fn validates(
    room: Room,
    data: Seq<u8>,
    start: int,
    slots: u64,
    len: int,
    result: std::result::Result<(), ErrorView>,
) -> bool {
    room.gives(
        validation_reserves(data.len() as int, slots, len),
        len,
        validate_outcome(data, start, slots, len),
        result matches Err(error) && is_allocation_error(error),
        result,
    )
}

/// Validates the structure of a Base whose segment starts at `absolute_start`. Only
/// where memory runs out can the result be another than the bytes decide.
pub fn validate_base(bytes: &[u8], absolute_start: u64, slots: u64, len: usize) -> (result: Result<
    (),
>)
    requires
        absolute_start + bytes@.len() <= u64::MAX,
    ensures
        validates(
            Room::Ask,
            bytes@,
            absolute_start as int,
            slots,
            len as int,
            error::outcome(result),
        ),
{
    validate_base_in(Room::Ask, bytes, absolute_start, slots, len)
}

/// Validates the structure of a Base whose segment starts at `absolute_start`, with memory
/// reserved in `room`.
pub fn validate_base_in(
    room: Room,
    bytes: &[u8],
    absolute_start: u64,
    slots: u64,
    len: usize,
) -> (result: Result<()>)
    requires
        absolute_start + bytes@.len() <= u64::MAX,
    ensures
        validates(
            room,
            bytes@,
            absolute_start as int,
            slots,
            len as int,
            error::outcome(result),
        ),
{
    broadcast use vstd::std_specs::hash::group_hash_axioms;

    assert(bytes@.len() == bytes.len());
    let records_start: usize = match records_start(slots, bytes.len()) {
        Ok(records_start) => records_start,
        Err(error) => {
            return Err(error);
        },
    };
    if len > (bytes.len() - records_start) / 8 {
        return Err(Error::invalid_base("entry count exceeds segment capacity"));
    }
    let mut offset: usize = records_start;
    let mut known: HashMap<u64, u32> = HashMap::new();
    let mut keys: KeyMap<()> = KeyMap::new();
    let reserved: bool = match room.answer(len) {
        Some(reserved) => reserved,
        None => ask(reserve_map, &mut known, len),
    };
    if !reserved {
        assert(room.answers(len as int, false));
        return Err(Error::invalid_base("record verification allocation failed"));
    }
    assert(room.answers(len as int, true)) by {
        assert(room == Room::Ask && len > 0 ==> room::memory_granted(len as int));
    }
    if !room.reserve_keys(&mut keys, len) {
        return Err(Error::invalid_base("key verification allocation failed"));
    }
    let mut i: usize = 0;
    proof {
        assert(keys@.dom() =~= Set::empty());
        assert(known@ =~= Map::empty());
    }
    while i < len
        invariant
            i <= len,
            bytes@.len() == bytes.len(),
            absolute_start + bytes@.len() <= u64::MAX,
            room.grants(len > 0, len as int),
            offset <= bytes@.len(),
            keys.wf(),
            segment::records_start_outcome(slots, bytes@.len() as int) == Ok::<int, ErrorView>(
                records_start as int,
            ),
            len <= (bytes@.len() - records_start) / 8,
            scan_records(bytes@, records_start as int, len as nat, Set::empty()) == scan_records(
                bytes@,
                offset as int,
                (len - i) as nat,
                keys@.dom(),
            ),
            index_records(
                bytes@,
                absolute_start as int,
                records_start as int,
                len as nat,
                Map::empty(),
            ) == index_records(
                bytes@,
                absolute_start as int,
                offset as int,
                (len - i) as nat,
                known@,
            ),
        decreases len - i,
    {
        broadcast use vstd::std_specs::hash::group_hash_axioms;

        let header_end: usize = match offset.checked_add(8) {
            Some(end) => end,
            None => {
                return Err(Error::invalid_base("record overflow"));
            },
        };
        if header_end > bytes.len() {
            return Err(Error::invalid_base("truncated record header"));
        }
        let key_len: usize = u32_at(bytes, offset) as usize;
        let value_len: usize = u32_at(bytes, offset + 4) as usize;
        let value_start: usize = match header_end.checked_add(key_len) {
            Some(value_start) => value_start,
            None => {
                return Err(Error::invalid_base("key length overflow"));
            },
        };
        let end: usize = match value_start.checked_add(value_len) {
            Some(end) => end,
            None => {
                return Err(Error::invalid_base("value length overflow"));
            },
        };
        if end > bytes.len() {
            return Err(Error::invalid_base("record extends beyond base"));
        }
        let key = &bytes[header_end..value_start];
        let ghost keys_before = keys@;
        match keys.insert(copy_bytes(key), ()) {
            Some(_) => {
                return Err(Error::invalid_base("duplicate key"));
            },
            None => {},
        }
        assert(keys@.dom() =~= keys_before.dom().insert(key@));
        let hash: u64 = xxh3_64(key);
        known.insert(absolute_start + offset as u64, (hash / 0x1_0000_0000) as u32);
        offset = end;
        i += 1;
    }
    if offset != bytes.len() {
        return Err(Error::invalid_base("unreferenced bytes at end of base"));
    }
    let mut referenced: HashSet<u64> = HashSet::new();
    let reserved: bool = match room.answer(len) {
        Some(reserved) => reserved,
        None => ask(reserve_set, &mut referenced, len),
    };
    if !reserved {
        assert(room.answers(len as int, false));
        return Err(Error::invalid_base("index verification allocation failed"));
    }
    let slots_len: usize = slots as usize;
    let mut slot: usize = 0;
    proof {
        assert(referenced@ =~= Set::empty());
    }
    while slot < slots_len
        invariant
            slot <= slots_len,
            slots_len == slots,
            room.grants(len > 0, len as int),
            bytes@.len() == bytes.len(),
            BASE_HEADER + SLOT_SIZE * slots_len <= bytes@.len(),
            segment::records_start_outcome(slots, bytes@.len() as int) == Ok::<int, ErrorView>(
                records_start as int,
            ),
            len <= (bytes@.len() - records_start) / 8,
            scan_records(bytes@, records_start as int, len as nat, Set::empty()) == Ok::<
                int,
                ErrorView,
            >(bytes@.len() as int),
            known@ == index_records(
                bytes@,
                absolute_start as int,
                records_start as int,
                len as nat,
                Map::empty(),
            ),
            scan_slots(bytes@, known@, 0, slots as int, Set::empty()) == scan_slots(
                bytes@,
                known@,
                slot as int,
                slots as int,
                referenced@,
            ),
        decreases slots_len - slot,
    {
        broadcast use vstd::std_specs::hash::group_hash_axioms;

        let slot_offset: usize = BASE_HEADER + slot * SLOT_SIZE;
        let stored_fingerprint: u32 = u32_at(bytes, slot_offset);
        let record_offset: u64 = u64_at(bytes, slot_offset + 4);
        if record_offset == 0 {
            if stored_fingerprint != 0 {
                return Err(Error::invalid_base("empty slot has a fingerprint"));
            }
        } else {
            let matches_record: bool = match known.get(&record_offset) {
                Some(fingerprint) => *fingerprint == stored_fingerprint,
                None => false,
            };
            if !matches_record {
                return Err(
                    Error::invalid_base("slot points outside base or has the wrong fingerprint"),
                );
            }
            if !referenced.insert(record_offset) {
                return Err(Error::invalid_base("record is referenced by multiple slots"));
            }
        }
        slot += 1;
    }
    if referenced.len() != len {
        return Err(Error::invalid_base("record is missing from hash index"));
    }
    Ok(())
}

/// Records that pass the walk are read back, up to where the walk ends, and their keys
/// are distinct.
pub proof fn lemma_scanned_records(data: Seq<u8>, at: int, n: nat, keys: Set<Seq<u8>>)
    requires
        0 <= at,
        scan_records(data, at, n, keys) is Ok,
    ensures
        records::parse_records(data, at, n) matches Some((entries, end)) && {
            &&& entries.len() == n
            &&& scan_records(data, at, n, keys) == Ok::<int, ErrorView>(end)
            &&& records::entry_keys(entries).no_duplicates()
            &&& forall|i: int| 0 <= i < n ==> !keys.contains((#[trigger] entries[i]).0)
        },
    decreases n,
{
    if n > 0 {
        let key = segment::record_key(data, at);
        lemma_scanned_records(
            data,
            segment::record_end(data, at),
            (n - 1) as nat,
            keys.insert(key),
        );
        let (rest, end) = records::parse_records(
            data,
            segment::record_end(data, at),
            (n - 1) as nat,
        )->Some_0;
        let (entries, _) = records::parse_records(data, at, n)->Some_0;
        assert forall|i: int| 0 <= i < n implies !keys.contains((#[trigger] entries[i]).0) by {
            if i > 0 {
                assert(entries[i] == rest[i - 1]);
            }
        }
        let names = records::entry_keys(entries);
        assert forall|i: int, j: int|
            0 <= i < names.len() && 0 <= j < names.len() && i != j implies names[i] != names[j] by {
            if i > 0 {
                assert(entries[i] == rest[i - 1]);
            }
            if j > 0 {
                assert(entries[j] == rest[j - 1]);
            }
            if i > 0 && j > 0 {
                assert(records::entry_keys(rest)[i - 1] != records::entry_keys(rest)[j - 1]);
            }
        }
    }
}

/// The records of a Base that was validated can be read without further checks: they
/// fill the data, and no key occurs twice.
pub proof fn law_validated_base_is_readable(data: Seq<u8>, start: int, slots: u64, len: nat)
    requires
        validate_outcome(data, start, slots, len as int) is Ok,
    ensures
        records::parse_records(data, index::records_offset(slots as int), len) matches Some(
            (entries, end),
        ) && end == data.len() && entries.len() == len && records::entry_keys(
            entries,
        ).no_duplicates(),
{
    lemma_scanned_records(data, index::records_offset(slots as int), len, Set::empty());
}

/// The keys of the first `i` entries.
spec fn first_keys(entries: Seq<(Seq<u8>, Seq<u8>)>, i: int) -> Set<Seq<u8>> {
    records::entry_keys(entries.take(i)).to_set()
}

proof fn lemma_scan_written(start: int, entries: Seq<(Seq<u8>, Seq<u8>)>, i: int)
    requires
        start >= 0,
        start + index::base_data_size(entries) <= u64::MAX,
        index::base_data_size(entries) <= usize::MAX,
        records::entries_fit(entries),
        records::entry_keys(entries).no_duplicates(),
        0 <= i <= entries.len(),
    ensures
        ({
            let data = index::base_data(start, entries);
            let at = index::records_offset(index::slot_count(entries.len()) as int);
            scan_records(
                data,
                at + records::record_start(entries, i),
                (entries.len() - i) as nat,
                first_keys(entries, i),
            ) == Ok::<int, ErrorView>(data.len() as int)
        }),
    decreases entries.len() - i,
{
    let data = index::base_data(start, entries);
    let at = index::records_offset(index::slot_count(entries.len()) as int);
    index::lemma_base_data(start, entries);
    records::lemma_records_size(entries);
    if i < entries.len() {
        lemma_scan_written(start, entries, i + 1);
        index::lemma_base_record(start, entries, i);
        records::lemma_read_record_at(data, at, entries, i);
        let names = records::entry_keys(entries);
        let before = records::entry_keys(entries.take(i));
        let after = records::entry_keys(entries.take(i + 1));
        assert(after =~= before.push(entries[i].0));
        assert(!before.contains(entries[i].0)) by {
            if before.contains(entries[i].0) {
                let j = choose|j: int| 0 <= j < before.len() && before[j] == entries[i].0;
                assert(names[j] == names[i]);
            }
        }
        assert(first_keys(entries, i + 1) =~= first_keys(entries, i).insert(entries[i].0)) by {
            assert forall|k: Seq<u8>|
                after.contains(k) implies before.contains(k) || k == entries[i].0 by {
                let j = choose|j: int| 0 <= j < after.len() && after[j] == k;
                if j < i {
                    assert(before[j] == k);
                }
            }
            assert forall|k: Seq<u8>| before.contains(k) implies after.contains(k) by {
                let j = choose|j: int| 0 <= j < before.len() && before[j] == k;
                assert(after[j] == k);
            }
            assert(after[i] == entries[i].0);
        }
    } else {
        assert(entries.take(i) =~= entries);
    }
}

/// The slots of the first `i` records, by position.
spec fn first_slots(entries: Seq<(Seq<u8>, Seq<u8>)>, at: int, i: int) -> Map<u64, u32> {
    Map::new(
        |offset: u64|
            exists|j: int| 0 <= j < i && (#[trigger] index::slot_of(entries, at, j)).1 == offset,
        |offset: u64| index::slot_of(entries, at, slot_owner(entries, at, i, offset)).0,
    )
}

/// One of the first `i` records, with the given position.
spec fn slot_owner(entries: Seq<(Seq<u8>, Seq<u8>)>, at: int, i: int, offset: u64) -> int {
    choose|j: int| 0 <= j < i && (#[trigger] index::slot_of(entries, at, j)).1 == offset
}

proof fn lemma_slot_unique(entries: Seq<(Seq<u8>, Seq<u8>)>, at: int, i: int, j: int)
    requires
        0 <= i < entries.len(),
        0 <= j < entries.len(),
        at > 0,
        at + records::records_size(entries) <= u64::MAX,
        index::slot_of(entries, at, i).1 == index::slot_of(entries, at, j).1,
    ensures
        i == j,
{
    index::lemma_slot_nonzero(entries, at, i);
    index::lemma_slot_nonzero(entries, at, j);
    if i < j {
        records::lemma_record_start_order(entries, i, j);
    } else if j < i {
        records::lemma_record_start_order(entries, j, i);
    }
}

proof fn lemma_first_slots(entries: Seq<(Seq<u8>, Seq<u8>)>, at: int, i: int, j: int)
    requires
        0 <= j < i <= entries.len(),
        at > 0,
        at + records::records_size(entries) <= u64::MAX,
    ensures
        first_slots(entries, at, i).contains_pair(
            index::slot_of(entries, at, j).1,
            index::slot_of(entries, at, j).0,
        ),
{
    let offset = index::slot_of(entries, at, j).1;
    let k = slot_owner(entries, at, i, offset);
    assert(0 <= k < i && index::slot_of(entries, at, k).1 == offset);
    lemma_slot_unique(entries, at, j, k);
}

/// Whether the records of `entries` stand one after the other from `at` on.
spec fn records_stand(data: Seq<u8>, at: int, entries: Seq<(Seq<u8>, Seq<u8>)>) -> bool {
    forall|i: int|
        #![trigger entries[i]]
        0 <= i < entries.len() ==> {
            let record = at + records::record_start(entries, i);
            &&& segment::record_key(data, record) == entries[i].0
            &&& segment::record_end(data, record) == at + records::record_start(entries, i + 1)
        }
}

#[verifier::spinoff_prover]
proof fn lemma_index_parsed(
    data: Seq<u8>,
    start: int,
    at: int,
    entries: Seq<(Seq<u8>, Seq<u8>)>,
    i: int,
)
    requires
        start + at > 0,
        start + at + records::records_size(entries) <= u64::MAX,
        records_stand(data, at, entries),
        0 <= i <= entries.len(),
    ensures
        index_records(
            data,
            start,
            at + records::record_start(entries, i),
            (entries.len() - i) as nat,
            first_slots(entries, start + at, i),
        ) == first_slots(entries, start + at, entries.len() as int),
    decreases entries.len() - i,
{
    if i < entries.len() {
        lemma_index_parsed(data, start, at, entries, i + 1);
        assert(segment::record_key(data, at + records::record_start(entries, i)) == entries[i].0);
        let slot = index::slot_of(entries, start + at, i);
        index::lemma_slot_nonzero(entries, start + at, i);
        let before = first_slots(entries, start + at, i);
        let after = first_slots(entries, start + at, i + 1);
        assert forall|offset: u64|
            #![trigger after.dom().contains(offset)]
            #![trigger before.insert(slot.1, slot.0).dom().contains(offset)]
            #![trigger after[offset]]
            after.dom().contains(offset) == before.insert(slot.1, slot.0).dom().contains(offset) && (
            after.dom().contains(offset) ==> after[offset] == before.insert(
                slot.1,
                slot.0,
            )[offset]) by {
            if after.dom().contains(offset) {
                let j = choose|j: int|
                    0 <= j < i + 1 && (#[trigger] index::slot_of(entries, start + at, j)).1
                        == offset;
                lemma_first_slots(entries, start + at, i + 1, j);
                if j < i {
                    lemma_first_slots(entries, start + at, i, j);
                    if offset == slot.1 {
                        lemma_slot_unique(entries, start + at, i, j);
                    }
                }
            }
            if before.dom().contains(offset) {
                let j = choose|j: int|
                    0 <= j < i && (#[trigger] index::slot_of(entries, start + at, j)).1 == offset;
                lemma_first_slots(entries, start + at, i + 1, j);
            }
            if offset == slot.1 {
                lemma_first_slots(entries, start + at, i + 1, i);
            }
        }
        assert(after =~= before.insert(slot.1, slot.0));
    }
}

/// The positions that the first `s` slots refer to.
spec fn first_offsets(table: Seq<(u32, u64)>, s: int) -> Set<u64> {
    Set::new(
        |offset: u64|
            offset != 0 && exists|t: int| 0 <= t < s && (#[trigger] table[t]).1 == offset,
    )
}

proof fn lemma_scan_slots_written(start: int, entries: Seq<(Seq<u8>, Seq<u8>)>, s: int)
    requires
        start >= 0,
        start + index::base_data_size(entries) <= u64::MAX,
        records::entries_fit(entries),
        0 <= s <= index::slot_count(entries.len()),
    ensures
        ({
            let data = index::base_data(start, entries);
            let slots = index::slot_count(entries.len());
            let at = start + index::records_offset(slots as int);
            let table = index::build_table(entries, slots, at);
            scan_slots(
                data,
                first_slots(entries, at, entries.len() as int),
                s,
                slots as int,
                first_offsets(table, s),
            ) == Ok::<Set<u64>, ErrorView>(first_offsets(table, slots as int))
        }),
    decreases index::slot_count(entries.len()) - s,
{
    let data = index::base_data(start, entries);
    let slots = index::slot_count(entries.len());
    let at = start + index::records_offset(slots as int);
    let table = index::build_table(entries, slots, at);
    index::lemma_base_data(start, entries);
    records::lemma_records_size(entries);
    if s < slots {
        lemma_scan_slots_written(start, entries, s + 1);
        index::lemma_base_slot(start, entries, s);
        if table[s].1 == 0 {
            assert(table[s] == (0u32, 0u64));
            assert(first_offsets(table, s + 1) =~= first_offsets(table, s)) by {
                assert forall|offset: u64| first_offsets(table, s + 1).contains(
                    offset,
                ) implies first_offsets(table, s).contains(offset) by {
                    let t = choose|t: int| 0 <= t < s + 1 && (#[trigger] table[t]).1 == offset;
                    assert(t < s);
                }
            }
        } else {
            assert(index::is_slot(table, entries, at, s));
            let i = choose|i: int|
                0 <= i < entries.len() && table[s] == #[trigger] index::slot_of(entries, at, i);
            lemma_first_slots(entries, at, entries.len() as int, i);
            assert(!first_offsets(table, s).contains(table[s].1)) by {
                if first_offsets(table, s).contains(table[s].1) {
                    let t = choose|t: int| 0 <= t < s && (#[trigger] table[t]).1 == table[s].1;
                    assert(table[t].1 != table[s].1);
                }
            }
            assert(first_offsets(table, s + 1) =~= first_offsets(table, s).insert(table[s].1)) by {
                assert forall|offset: u64| first_offsets(table, s + 1).contains(offset) implies (
                first_offsets(table, s).contains(offset) || offset == table[s].1) by {
                    let t = choose|t: int| 0 <= t < s + 1 && (#[trigger] table[t]).1 == offset;
                    if t < s {
                        assert(table[t].1 == offset);
                    }
                }
            }
        }
    }
}

/// As many positions are referred to as there are records.
proof fn lemma_offsets_len(table: Seq<(u32, u64)>, entries: Seq<(Seq<u8>, Seq<u8>)>, at: int)
    requires
        index::table_ok(table, entries, at),
        at > 0,
        at + records::records_size(entries) <= u64::MAX,
    ensures
        first_offsets(table, table.len() as int).len() == entries.len(),
{
    let offsets = Seq::new(entries.len(), |i: int| index::slot_of(entries, at, i).1);
    assert(offsets.no_duplicates()) by {
        assert forall|i: int, j: int|
            0 <= i < offsets.len() && 0 <= j < offsets.len() && i != j implies offsets[i]
            != offsets[j] by {
            if offsets[i] == offsets[j] {
                lemma_slot_unique(entries, at, i, j);
            }
        }
    }
    offsets.unique_seq_to_set();
    let seen = first_offsets(table, table.len() as int);
    assert forall|offset: u64| seen.contains(offset) == offsets.to_set().contains(offset) by {
        if seen.contains(offset) {
            let t = choose|t: int| 0 <= t < table.len() && (#[trigger] table[t]).1 == offset;
            assert(index::is_slot(table, entries, at, t));
            let i = choose|i: int|
                0 <= i < entries.len() && table[t] == #[trigger] index::slot_of(entries, at, i);
            assert(offsets[i] == offset);
        }
        if offsets.contains(offset) {
            let i = choose|i: int| 0 <= i < offsets.len() && offsets[i] == offset;
            assert(index::reachable(table, entries, at, i));
            let d = choose|d: int| #[trigger]
                index::placed(
                    table,
                    hash::xxh3_64_value(entries[i].0),
                    d,
                    index::slot_of(entries, at, i),
                );
            index::lemma_next_probe(
                hash::xxh3_64_value(entries[i].0),
                d,
                table.len() as int,
            );
            index::lemma_slot_nonzero(entries, at, i);
            let t = index::probe(hash::xxh3_64_value(entries[i].0), d, table.len() as int);
            assert(table[t].1 == offset);
        }
    }
    assert(seen =~= offsets.to_set());
}

/// The header of a Base that was built gives back the number of slots and of records.
pub proof fn law_written_header(start: int, entries: Seq<(Seq<u8>, Seq<u8>)>)
    requires
        start >= 0,
        start + index::base_data_size(entries) <= u64::MAX,
        index::base_data_size(entries) <= usize::MAX,
    ensures
        segment::header_outcome(index::base_data(start, entries)) == Ok::<(u64, int), ErrorView>(
            (index::slot_count(entries.len()) as u64, entries.len() as int),
        ),
{
    broadcast use {bytes::lemma_u32_bytes_len, bytes::lemma_u64_bytes_len};

    let slots = index::slot_count(entries.len());
    let data = index::base_data(start, entries);
    index::lemma_base_data(start, entries);
    records::lemma_records_size(entries);
    index::lemma_slot_count(entries.len());
    let header = index::header_bytes(slots as u64, entries.len() as u64);
    assert(data.subrange(0, 4) =~= header.subrange(0, 4)) by {
        assert(data.subrange(0, BASE_HEADER as int).subrange(0, 4) =~= data.subrange(0, 4));
    }
    assert(header.subrange(0, 4) =~= segment::hash_section_id());
    assert(data.subrange(4, 8) =~= data.subrange(0, BASE_HEADER as int).subrange(4, 8));
    assert(data.subrange(8, 16) =~= data.subrange(0, BASE_HEADER as int).subrange(8, 16));
    assert(data.subrange(16, 24) =~= data.subrange(0, BASE_HEADER as int).subrange(16, 24));
    assert(header.subrange(4, 8) =~= bytes::u32_bytes(BASE_HEADER as u32));
    assert(header.subrange(8, 16) =~= bytes::u64_bytes(slots as u64));
    assert(header.subrange(16, 24) =~= bytes::u64_bytes(entries.len() as u64));
    bytes::lemma_le_u32_of_bytes(data, 4, BASE_HEADER as u32);
    bytes::lemma_le_u64_of_bytes(data, 8, slots as u64);
    bytes::lemma_le_u64_of_bytes(data, 16, entries.len() as u64);
}

/// A Base that was built from entries with distinct keys passes complete validation.
pub proof fn law_written_base_is_valid(start: int, entries: Seq<(Seq<u8>, Seq<u8>)>)
    requires
        start >= 0,
        start + index::base_data_size(entries) <= u64::MAX,
        index::base_data_size(entries) <= usize::MAX,
        records::entries_fit(entries),
        records::entry_keys(entries).no_duplicates(),
    ensures
        validate_outcome(
            index::base_data(start, entries),
            start,
            index::slot_count(entries.len()) as u64,
            entries.len() as int,
        ) == Ok::<(), ErrorView>(()),
{
    let data = index::base_data(start, entries);
    let slots = index::slot_count(entries.len());
    let at = index::records_offset(slots as int);
    let table = index::build_table(entries, slots, start + at);
    index::lemma_base_data(start, entries);
    records::lemma_records_size(entries);
    assert(entries.take(0) =~= Seq::empty());
    assert(first_keys(entries, 0) =~= Set::empty());
    lemma_scan_written(start, entries, 0);
    assert(first_slots(entries, start + at, 0) =~= Map::empty());
    assert forall|i: int|
        #![trigger entries[i]]
        0 <= i < entries.len() implies segment::record_key(
        data,
        at + records::record_start(entries, i),
    ) == entries[i].0 && segment::record_end(data, at + records::record_start(entries, i)) == at
        + records::record_start(entries, i + 1) by {
        records::lemma_read_record_at(data, at, entries, i);
    }
    lemma_index_parsed(data, start, at, entries, 0);
    assert(first_offsets(table, 0) =~= Set::empty());
    lemma_scan_slots_written(start, entries, 0);
    lemma_offsets_len(table, entries, start + at);
}

/// The slot at position `s` of the index of a Base.
pub open spec fn slot_at(data: Seq<u8>, s: int) -> (u32, u64) {
    (
        bytes::le_u32(data, BASE_HEADER + SLOT_SIZE * s),
        bytes::le_u64(data, BASE_HEADER + SLOT_SIZE * s + 4),
    )
}

/// Whether a slot refers to a record.
pub open spec fn refers_to_record(
    data: Seq<u8>,
    entries: Seq<(Seq<u8>, Seq<u8>)>,
    at: int,
    s: int,
) -> bool {
    exists|i: int|
        0 <= i < entries.len() && slot_at(data, s) == #[trigger] index::slot_of(entries, at, i)
}

/// Whether one of `slots` slots refers to the record of entry `i`.
pub open spec fn has_slot(
    data: Seq<u8>,
    slots: int,
    entries: Seq<(Seq<u8>, Seq<u8>)>,
    at: int,
    i: int,
) -> bool {
    exists|s: int|
        0 <= s < slots && #[trigger] slot_at(data, s) == index::slot_of(entries, at, i)
}

/// Whether data is that of a Base at `start`: `len` records with keys of their own stand
/// behind the index and fill the data; a slot is empty or refers to a record; every record
/// has a slot, and no two slots refer to one.
pub open spec fn is_base(data: Seq<u8>, start: int, slots: u64, len: nat) -> bool {
    let at = index::records_offset(slots as int);
    &&& at <= data.len()
    &&& records::parse_records(data, at, len) matches Some((entries, end))
    &&& end == data.len()
    &&& records::entry_keys(entries).no_duplicates()
    &&& forall|s: int|
        0 <= s < slots ==> #[trigger] slot_at(data, s) == (0u32, 0u64) || refers_to_record(
            data,
            entries,
            start + at,
            s,
        )
    &&& forall|i: int|
        0 <= i < len ==> #[trigger] has_slot(data, slots as int, entries, start + at, i)
    &&& forall|s: int, t: int|
        0 <= s < t < slots && (#[trigger] slot_at(data, s)).1 != 0 ==> slot_at(data, s).1 != (
        #[trigger] slot_at(data, t)).1
}

/// The size of records is that of the first and that of the others.
proof fn lemma_size_from_front(entry: (Seq<u8>, Seq<u8>), rest: Seq<(Seq<u8>, Seq<u8>)>)
    ensures
        records::records_size(seq![entry] + rest) == records::record_size(entry)
            + records::records_size(rest),
    decreases rest.len(),
{
    let all = seq![entry] + rest;
    if rest.len() > 0 {
        assert(all.drop_last() =~= seq![entry] + rest.drop_last());
        assert(all.last() == rest.last());
        lemma_size_from_front(entry, rest.drop_last());
    } else {
        assert(all.drop_last() =~= Seq::empty());
        assert(all.last() == entry);
        assert(records::records_size(all.drop_last()) == 0);
    }
}

/// Where a record starts, counted from the record before the others.
proof fn lemma_start_from_front(
    entry: (Seq<u8>, Seq<u8>),
    rest: Seq<(Seq<u8>, Seq<u8>)>,
    i: int,
)
    requires
        0 <= i <= rest.len(),
    ensures
        records::record_start(seq![entry] + rest, 0) == 0,
        records::record_start(seq![entry] + rest, i + 1) == records::record_size(entry)
            + records::record_start(rest, i),
{
    let all = seq![entry] + rest;
    assert(all.take(0) =~= Seq::empty());
    assert(all.take(i + 1) =~= seq![entry] + rest.take(i));
    lemma_size_from_front(entry, rest.take(i));
}

/// Records that are read one after the other stand one after the other.
#[verifier::spinoff_prover]
proof fn lemma_parsed_stand(data: Seq<u8>, at: int, n: nat)
    requires
        0 <= at,
        records::parse_records(data, at, n) is Some,
    ensures
        ({
            let (entries, end) = records::parse_records(data, at, n)->Some_0;
            &&& entries.len() == n
            &&& end == at + records::records_size(entries)
            &&& records_stand(data, at, entries)
        }),
    decreases n,
{
    if n > 0 {
        let next = segment::record_end(data, at);
        lemma_parsed_stand(data, next, (n - 1) as nat);
        let (rest, end) = records::parse_records(data, next, (n - 1) as nat)->Some_0;
        let entry = (segment::record_key(data, at), segment::record_value(data, at));
        let entries = seq![entry] + rest;
        lemma_size_from_front(entry, rest);
        assert(records::record_size(entry) == next - at);
        assert(records_stand(data, at, entries)) by {
            assert forall|i: int|
                #![trigger entries[i]]
                0 <= i < entries.len() implies ({
                let record = at + records::record_start(entries, i);
                &&& segment::record_key(data, record) == entries[i].0
                &&& segment::record_end(data, record) == at + records::record_start(entries, i + 1)
            }) by {
                lemma_start_from_front(entry, rest, i);
                if i == 0 {
                    assert(rest.take(0) =~= Seq::empty());
                } else {
                    lemma_start_from_front(entry, rest, i - 1);
                    assert(rest[i - 1] == entries[i]);
                }
            }
        }
    } else {
        assert(records::parse_records(data, at, n)->Some_0.0 =~= Seq::empty());
    }
}

/// Records that are read one after the other and have keys of their own pass the walk.
proof fn lemma_parsed_scan(data: Seq<u8>, at: int, n: nat, keys: Set<Seq<u8>>)
    requires
        0 <= at,
        data.len() <= usize::MAX,
        records::parse_records(data, at, n) matches Some((entries, end)) && {
            &&& records::entry_keys(entries).no_duplicates()
            &&& entries.len() == n
            &&& forall|i: int| 0 <= i < n ==> !keys.contains((#[trigger] entries[i]).0)
        },
    ensures
        scan_records(data, at, n, keys) == Ok::<int, ErrorView>(
            (records::parse_records(data, at, n)->Some_0).1,
        ),
    decreases n,
{
    if n > 0 {
        let next = segment::record_end(data, at);
        let (entries, _) = records::parse_records(data, at, n)->Some_0;
        let (rest, end) = records::parse_records(data, next, (n - 1) as nat)->Some_0;
        let key = segment::record_key(data, at);
        let names = records::entry_keys(entries);
        assert(entries[0].0 == key);
        assert(entries.len() == 1 + rest.len());
        assert forall|i: int| 0 <= i < n - 1 implies !keys.insert(key).contains(
            (#[trigger] rest[i]).0,
        ) by {
            assert(entries[i + 1] == rest[i]);
            assert(names[0] != names[i + 1]);
        }
        let others = records::entry_keys(rest);
        assert forall|i: int, j: int|
            0 <= i < others.len() && 0 <= j < others.len() && i != j implies others[i]
            != others[j] by {
            assert(entries[i + 1] == rest[i]);
            assert(entries[j + 1] == rest[j]);
            assert(names[i + 1] != names[j + 1]);
        }
        lemma_parsed_scan(data, next, (n - 1) as nat, keys.insert(key));
    }
}

/// Whether a slot is empty, or refers to a record that is known.
spec fn slot_known(data: Seq<u8>, known: Map<u64, u32>, s: int) -> bool {
    let (fingerprint, offset) = slot_at(data, s);
    if offset == 0 {
        fingerprint == 0
    } else {
        known.get(offset) == Some(fingerprint)
    }
}

/// The positions that slots from `s` on refer to.
spec fn offsets_from(data: Seq<u8>, s: int, slots: int) -> Set<u64> {
    Set::new(
        |offset: u64|
            offset != 0 && exists|t: int| s <= t < slots && (#[trigger] slot_at(data, t)).1
                == offset,
    )
}

/// Whether slots from `s` on are empty or refer to records that are known, each to one of
/// its own.
spec fn slots_known(
    data: Seq<u8>,
    known: Map<u64, u32>,
    s: int,
    slots: int,
    referenced: Set<u64>,
) -> bool {
    &&& forall|t: int| s <= t < slots ==> #[trigger] slot_known(data, known, t)
    &&& forall|t: int|
        s <= t < slots && (#[trigger] slot_at(data, t)).1 != 0 ==> !referenced.contains(
            slot_at(data, t).1,
        )
    &&& forall|t: int, u: int|
        s <= t < u < slots && (#[trigger] slot_at(data, t)).1 != 0 ==> slot_at(data, t).1 != (
        #[trigger] slot_at(data, u)).1
}

/// The walk over the slots passes exactly where they are known, and gives the positions.
proof fn lemma_scan_slots(
    data: Seq<u8>,
    known: Map<u64, u32>,
    s: int,
    slots: int,
    referenced: Set<u64>,
)
    requires
        s <= slots,
    ensures
        scan_slots(data, known, s, slots, referenced) is Ok <==> slots_known(
            data,
            known,
            s,
            slots,
            referenced,
        ),
        scan_slots(data, known, s, slots, referenced) matches Ok(all) ==> all
            == referenced.union(offsets_from(data, s, slots)),
    decreases slots - s,
{
    if s < slots {
        let (fingerprint, offset) = slot_at(data, s);
        let next = if offset == 0 {
            referenced
        } else {
            referenced.insert(offset)
        };
        lemma_scan_slots(data, known, s + 1, slots, next);
        let here = slots_known(data, known, s, slots, referenced);
        let there = slots_known(data, known, s + 1, slots, next);
        if here {
            assert(slot_known(data, known, s));
            assert forall|t: int|
                s + 1 <= t < slots && (#[trigger] slot_at(data, t)).1 != 0 implies !next.contains(
                slot_at(data, t).1,
            ) by {
                if offset != 0 {
                    assert(slot_at(data, s).1 != slot_at(data, t).1);
                }
            }
            assert(there);
        }
        if there && slot_known(data, known, s) && (offset == 0 || !referenced.contains(offset)) {
            assert forall|t: int, u: int|
                s <= t < u < slots && (#[trigger] slot_at(data, t)).1 != 0 implies slot_at(
                data,
                t,
            ).1 != (#[trigger] slot_at(data, u)).1 by {
                if t == s && slot_at(data, u).1 == offset {
                    assert(!next.contains(slot_at(data, u).1));
                }
            }
            assert forall|t: int|
                s <= t < slots && (#[trigger] slot_at(data, t)).1 != 0 implies !referenced.contains(
                slot_at(data, t).1,
            ) by {
                if t > s {
                    assert(!next.contains(slot_at(data, t).1));
                }
            }
            assert(here);
        }
        assert(next.union(offsets_from(data, s + 1, slots)) =~= referenced.union(
            offsets_from(data, s, slots),
        )) by {
            assert forall|o: u64|
                offsets_from(data, s, slots).contains(o) implies offsets_from(
                data,
                s + 1,
                slots,
            ).contains(o) || (o == offset && offset != 0) by {
                let t = choose|t: int| s <= t < slots && (#[trigger] slot_at(data, t)).1 == o;
                if t > s {
                    assert(slot_at(data, t).1 == o);
                }
            }
            assert(offset != 0 ==> offsets_from(data, s, slots).contains(offset)) by {
                assert(slot_at(data, s).1 == offset);
            }
        }
    } else {
        assert(referenced.union(offsets_from(data, s, slots)) =~= referenced);
    }
}

/// The positions of the records, of which there are as many as records.
proof fn lemma_known_positions(entries: Seq<(Seq<u8>, Seq<u8>)>, at: int)
    requires
        at > 0,
        at + records::records_size(entries) <= u64::MAX,
    ensures
        first_slots(entries, at, entries.len() as int).dom().finite(),
        first_slots(entries, at, entries.len() as int).dom().len() == entries.len(),
{
    let known = first_slots(entries, at, entries.len() as int);
    let offsets = Seq::new(entries.len(), |i: int| index::slot_of(entries, at, i).1);
    assert forall|i: int, j: int|
        0 <= i < offsets.len() && 0 <= j < offsets.len() && i != j implies offsets[i]
        != offsets[j] by {
        if offsets[i] == offsets[j] {
            lemma_slot_unique(entries, at, i, j);
        }
    }
    offsets.unique_seq_to_set();
    assert forall|offset: u64| known.dom().contains(offset)
        == #[trigger] offsets.to_set().contains(offset) by {
        if known.dom().contains(offset) {
            let i = choose|i: int|
                0 <= i < entries.len() && (#[trigger] index::slot_of(entries, at, i)).1 == offset;
            assert(offsets[i] == offset);
        }
        if offsets.contains(offset) {
            let i = choose|i: int| 0 <= i < offsets.len() && offsets[i] == offset;
            assert(index::slot_of(entries, at, i).1 == offset);
        }
    }
    assert(known.dom() =~= offsets.to_set());
}

/// A slot is known exactly where it is empty or refers to a record.
proof fn lemma_slot_known(data: Seq<u8>, entries: Seq<(Seq<u8>, Seq<u8>)>, at: int, s: int)
    requires
        at > 0,
        at + records::records_size(entries) <= u64::MAX,
    ensures
        slot_known(data, first_slots(entries, at, entries.len() as int), s) <==> (slot_at(data, s)
            == (0u32, 0u64) || refers_to_record(data, entries, at, s)),
{
    let known = first_slots(entries, at, entries.len() as int);
    let (fingerprint, offset) = slot_at(data, s);
    if refers_to_record(data, entries, at, s) {
        let i = choose|i: int|
            0 <= i < entries.len() && slot_at(data, s) == #[trigger] index::slot_of(
                entries,
                at,
                i,
            );
        lemma_first_slots(entries, at, entries.len() as int, i);
        index::lemma_slot_nonzero(entries, at, i);
    }
    if offset != 0 && known.get(offset) == Some(fingerprint) {
        let i = choose|i: int|
            0 <= i < entries.len() && (#[trigger] index::slot_of(entries, at, i)).1 == offset;
        lemma_first_slots(entries, at, entries.len() as int, i);
        assert(slot_at(data, s) == index::slot_of(entries, at, i));
    }
}

/// Validation passes exactly for the data of a Base.
pub proof fn law_validation_is_exact(data: Seq<u8>, start: int, slots: u64, len: nat)
    requires
        0 <= start,
        start + data.len() <= u64::MAX,
        data.len() <= usize::MAX,
    ensures
        validate_outcome(data, start, slots, len as int) is Ok <==> is_base(data, start, slots, len),
{
    let at = index::records_offset(slots as int);
    let parsed = records::parse_records(data, at, len);
    if at <= data.len() {
        if scan_records(data, at, len, Set::empty()) is Ok {
            lemma_scanned_records(data, at, len, Set::empty());
        }
        if parsed is Some {
            lemma_parsed_stand(data, at, len);
            let (entries, end) = parsed->Some_0;
            records::lemma_records_size(entries);
            if records::entry_keys(entries).no_duplicates() && end == data.len() {
                lemma_parsed_scan(data, at, len, Set::empty());
                lemma_exact_index(data, start, slots, entries);
            }
        }
    }
}

/// The index of records that were read passes exactly where it has one slot for each.
proof fn lemma_exact_index(
    data: Seq<u8>,
    start: int,
    slots: u64,
    entries: Seq<(Seq<u8>, Seq<u8>)>,
)
    requires
        0 <= start,
        start + data.len() <= u64::MAX,
        index::records_offset(slots as int) + records::records_size(entries) == data.len(),
        records_stand(data, index::records_offset(slots as int), entries),
    ensures
        ({
            let at = index::records_offset(slots as int);
            let known = index_records(data, start, at, entries.len(), Map::empty());
            let scanned = scan_slots(data, known, 0, slots as int, Set::empty());
            (scanned matches Ok(all) && all.len() == entries.len()) <==> {
                &&& forall|s: int|
                    0 <= s < slots ==> #[trigger] slot_at(data, s) == (0u32, 0u64)
                        || refers_to_record(data, entries, start + at, s)
                &&& forall|i: int|
                    0 <= i < entries.len() ==> #[trigger] has_slot(
                        data,
                        slots as int,
                        entries,
                        start + at,
                        i,
                    )
                &&& forall|s: int, t: int|
                    0 <= s < t < slots && (#[trigger] slot_at(data, s)).1 != 0 ==> slot_at(
                        data,
                        s,
                    ).1 != (#[trigger] slot_at(data, t)).1
            }
        }),
{
    let at = index::records_offset(slots as int);
    let place = start + at;
    let n = entries.len() as int;
    let known = first_slots(entries, place, n);
    assert(entries.take(0) =~= Seq::empty());
    assert(first_slots(entries, place, 0) =~= Map::empty());
    lemma_index_parsed(data, start, at, entries, 0);
    assert(index_records(data, start, at, entries.len(), Map::empty()) == known);
    lemma_scan_slots(data, known, 0, slots as int, Set::empty());
    lemma_known_positions(entries, place);
    let seen = offsets_from(data, 0, slots as int);
    assert(Set::<u64>::empty().union(seen) =~= seen);
    let clean = forall|s: int| 0 <= s < slots ==> #[trigger] slot_known(data, known, s);
    let good = forall|s: int|
        0 <= s < slots ==> #[trigger] slot_at(data, s) == (0u32, 0u64) || refers_to_record(
            data,
            entries,
            place,
            s,
        );
    assert(clean == good) by {
        assert forall|s: int| 0 <= s < slots implies (slot_known(data, known, s) == (slot_at(
            data,
            s,
        ) == (0u32, 0u64) || refers_to_record(data, entries, place, s))) by {
            lemma_slot_known(data, entries, place, s);
        }
        if clean {
            assert forall|s: int| 0 <= s < slots implies #[trigger] slot_at(data, s) == (0u32, 0u64)
                || refers_to_record(data, entries, place, s) by {
                assert(slot_known(data, known, s));
            }
        }
        if good {
            assert forall|s: int| 0 <= s < slots implies #[trigger] slot_known(data, known, s) by {
                let slot = slot_at(data, s);
            }
        }
    }
    if clean {
        assert(seen.subset_of(known.dom())) by {
            assert forall|o: u64| seen.contains(o) implies known.dom().contains(o) by {
                let t = choose|t: int| 0 <= t < slots && (#[trigger] slot_at(data, t)).1 == o;
                assert(slot_known(data, known, t));
            }
        }
        vstd::set_lib::lemma_len_subset(seen, known.dom());
        if seen.len() == entries.len() {
            vstd::set_lib::lemma_subset_equality(seen, known.dom());
            assert forall|i: int| 0 <= i < n implies #[trigger] has_slot(
                data,
                slots as int,
                entries,
                place,
                i,
            ) by {
                lemma_first_slots(entries, place, n, i);
                let slot = index::slot_of(entries, place, i);
                assert(seen.contains(slot.1));
                let t = choose|t: int| 0 <= t < slots && (#[trigger] slot_at(data, t)).1 == slot.1;
                assert(slot_known(data, known, t));
                assert(slot_at(data, t) == slot);
            }
        }
        let all_have = forall|i: int|
            0 <= i < n ==> #[trigger] has_slot(data, slots as int, entries, place, i);
        if all_have {
            assert(known.dom().subset_of(seen)) by {
                assert forall|o: u64| known.dom().contains(o) implies seen.contains(o) by {
                    let i = choose|i: int|
                        0 <= i < n && (#[trigger] index::slot_of(entries, place, i)).1 == o;
                    index::lemma_slot_nonzero(entries, place, i);
                    assert(has_slot(data, slots as int, entries, place, i));
                    let s = choose|s: int|
                        0 <= s < slots && #[trigger] slot_at(data, s) == index::slot_of(
                            entries,
                            place,
                            i,
                        );
                    assert(slot_at(data, s).1 == o);
                }
            }
            assert(seen =~= known.dom());
        }
    }
}

} // verus!
