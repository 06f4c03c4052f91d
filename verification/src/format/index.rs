//! The hash index of a Base: an open-addressing table of slots, filled in the
//! order of the records.

use crate::bytes;
use crate::format::power;
use crate::format::records;
use crate::format::segment;
use crate::hash;
use vstd::arithmetic::div_mod::*;
use vstd::prelude::*;

verus! {

/// The number of slots that an index over `len` records has: a power of two that
/// keeps the load at or below four fifths.
pub open spec fn slot_count(len: nat) -> nat {
    if len == 0 {
        0
    } else {
        power::next_power(bytes::ceil_div(5 * len as int, 4) as nat)
    }
}

/// The slot at distance `d` from the home slot of a hash.
pub open spec fn probe(hash: u64, d: int, slots: int) -> int {
    (hash + d) % slots
}

/// The distance from the home slot, at least `d`, of the first empty slot.
pub open spec fn empty_distance(table: Seq<(u32, u64)>, hash: u64, d: int) -> int
    decreases table.len() - d,
{
    if d >= table.len() {
        d
    } else if table[probe(hash, d, table.len() as int)].1 == 0 {
        d
    } else {
        empty_distance(table, hash, d + 1)
    }
}

/// The table with one more slot filled.
pub open spec fn fill_slot(table: Seq<(u32, u64)>, hash: u64, offset: u64) -> Seq<(u32, u64)> {
    table.update(
        probe(hash, empty_distance(table, hash, 0), table.len() as int),
        (hash::fingerprint(hash), offset),
    )
}

/// A table without records.
pub open spec fn empty_table(slots: nat) -> Seq<(u32, u64)> {
    Seq::new(slots, |i: int| (0u32, 0u64))
}

/// The table over records of which the first is at `records_at`.
pub open spec fn build_table(
    entries: Seq<(Seq<u8>, Seq<u8>)>,
    slots: nat,
    records_at: int,
) -> Seq<(u32, u64)>
    decreases entries.len(),
{
    if entries.len() == 0 {
        empty_table(slots)
    } else {
        fill_slot(
            build_table(entries.drop_last(), slots, records_at),
            hash::xxh3_64_value(entries.last().0),
            (records_at + records::records_size(entries.drop_last())) as u64,
        )
    }
}

/// What the slot of record `i` holds.
pub open spec fn slot_of(
    entries: Seq<(Seq<u8>, Seq<u8>)>,
    records_at: int,
    i: int,
) -> (u32, u64) {
    (
        hash::fingerprint(hash::xxh3_64_value(entries[i].0)),
        (records_at + records::record_start(entries, i)) as u64,
    )
}

/// Whether no slot before distance `d` is empty.
pub open spec fn filled_path(table: Seq<(u32, u64)>, hash: u64, d: int) -> bool {
    forall|k: int| 0 <= k < d ==> table[#[trigger] probe(hash, k, table.len() as int)].1 != 0
}

/// Whether `slot` is found at distance `d`, with no empty slot before it.
pub open spec fn placed(table: Seq<(u32, u64)>, hash: u64, d: int, slot: (u32, u64)) -> bool {
    &&& 0 <= d < table.len()
    &&& table[probe(hash, d, table.len() as int)] == slot
    &&& filled_path(table, hash, d)
}

/// Whether the slot of record `i` can be reached from its home slot.
pub open spec fn reachable(
    table: Seq<(u32, u64)>,
    entries: Seq<(Seq<u8>, Seq<u8>)>,
    records_at: int,
    i: int,
) -> bool {
    exists|d: int| #[trigger]
        placed(table, hash::xxh3_64_value(entries[i].0), d, slot_of(entries, records_at, i))
}

/// Whether slot `s` is that of some record.
pub open spec fn is_slot(
    table: Seq<(u32, u64)>,
    entries: Seq<(Seq<u8>, Seq<u8>)>,
    records_at: int,
    s: int,
) -> bool {
    exists|i: int| 0 <= i < entries.len() && table[s] == #[trigger] slot_of(entries, records_at, i)
}

/// Every record has one slot that can be reached, and every other slot is empty.
pub open spec fn table_ok(
    table: Seq<(u32, u64)>,
    entries: Seq<(Seq<u8>, Seq<u8>)>,
    records_at: int,
) -> bool {
    &&& forall|i: int|
        0 <= i < entries.len() ==> #[trigger] reachable(table, entries, records_at, i)
    &&& forall|s: int|
        0 <= s < table.len() && table[s].1 != 0 ==> #[trigger] is_slot(
            table,
            entries,
            records_at,
            s,
        )
    &&& forall|s: int|
        0 <= s < table.len() && (#[trigger] table[s]).1 == 0 ==> table[s] == (0u32, 0u64)
    &&& forall|s: int, t: int|
        0 <= s < t < table.len() && (#[trigger] table[s]).1 != 0 ==> table[s].1 != (
        #[trigger] table[t]).1
}

/// Moving one slot further wraps at the end of the table.
pub proof fn lemma_next_probe(hash: u64, d: int, slots: int)
    requires
        slots > 0,
        d >= 0,
    ensures
        0 <= probe(hash, d, slots) < slots,
        probe(hash, d + 1, slots) == (if probe(hash, d, slots) + 1 == slots {
            0
        } else {
            probe(hash, d, slots) + 1
        }),
{
    let x = hash + d;
    lemma_fundamental_div_mod(x, slots);
    lemma_mod_bound(x, slots);
    let q = x / slots;
    let r = x % slots;
    if r + 1 == slots {
        assert(x + 1 == slots * (q + 1)) by (nonlinear_arith)
            requires
                x == slots * q + r,
                r + 1 == slots,
        ;
        assert((q + 1) * slots == slots * (q + 1)) by (nonlinear_arith);
        lemma_fundamental_div_mod_converse(x + 1, slots, q + 1, 0);
    } else {
        assert(q * slots == slots * q) by (nonlinear_arith);
        lemma_fundamental_div_mod_converse(x + 1, slots, q, r + 1);
    }
}

/// Every slot is at some distance from the home slot.
pub proof fn lemma_probe_reaches(hash: u64, s: int, slots: int) -> (d: int)
    requires
        0 <= s < slots,
    ensures
        0 <= d < slots,
        probe(hash, d, slots) == s,
{
    let h = hash as int;
    lemma_fundamental_div_mod(h, slots);
    lemma_mod_bound(h, slots);
    let q = h / slots;
    let home = h % slots;
    assert(q * slots == slots * q) by (nonlinear_arith);
    if s >= home {
        lemma_fundamental_div_mod_converse(h + (s - home), slots, q, s);
        s - home
    } else {
        assert((q + 1) * slots == slots * q + slots) by (nonlinear_arith);
        lemma_fundamental_div_mod_converse(h + (s + slots - home), slots, q + 1, s);
        s + slots - home
    }
}

/// Two distances below the table size lead to two slots.
pub proof fn lemma_probe_injective(hash: u64, d: int, e: int, slots: int)
    requires
        0 <= d < slots,
        0 <= e < slots,
        probe(hash, d, slots) == probe(hash, e, slots),
    ensures
        d == e,
{
    let x = hash + d;
    let y = hash + e;
    lemma_fundamental_div_mod(x, slots);
    lemma_fundamental_div_mod(y, slots);
    let p = x / slots;
    let q = y / slots;
    assert(x - y == slots * (p - q)) by (nonlinear_arith)
        requires
            x == slots * p + x % slots,
            y == slots * q + y % slots,
            x % slots == y % slots,
    ;
    assert(p == q) by (nonlinear_arith)
        requires
            x - y == slots * (p - q),
            -slots < x - y < slots,
            slots > 0,
    ;
    assert(slots * (p - q) == 0) by (nonlinear_arith)
        requires
            p == q,
    ;
}

/// The search for an empty slot stops at the first one, if there is one.
pub proof fn lemma_empty_distance(table: Seq<(u32, u64)>, hash: u64, d: int, e: int)
    requires
        0 <= d <= e < table.len(),
        filled_path(table, hash, d),
        table[probe(hash, e, table.len() as int)].1 == 0,
    ensures
        d <= empty_distance(table, hash, d) <= e,
        table[probe(hash, empty_distance(table, hash, d), table.len() as int)].1 == 0,
        filled_path(table, hash, empty_distance(table, hash, d)),
    decreases table.len() - d,
{
    if table[probe(hash, d, table.len() as int)].1 != 0 {
        assert(filled_path(table, hash, d + 1));
        lemma_empty_distance(table, hash, d + 1, e);
    }
}

/// A table with fewer records than slots has an empty slot.
pub proof fn lemma_has_empty(
    table: Seq<(u32, u64)>,
    entries: Seq<(Seq<u8>, Seq<u8>)>,
    records_at: int,
) -> (s: int)
    requires
        table_ok(table, entries, records_at),
        entries.len() < table.len(),
    ensures
        0 <= s < table.len(),
        table[s].1 == 0,
{
    if forall|s: int| 0 <= s < table.len() ==> (#[trigger] table[s]).1 != 0 {
        let owner = |s: int|
            choose|i: int|
                0 <= i < entries.len() && table[s] == #[trigger] slot_of(entries, records_at, i);
        let owners = Seq::new(table.len(), owner);
        assert forall|s: int| 0 <= s < table.len() implies 0 <= #[trigger] owners[s] < entries.len()
            && table[s] == slot_of(entries, records_at, owners[s]) by {
            assert(table[s].1 != 0);
            assert(is_slot(table, entries, records_at, s));
        }
        assert(owners.no_duplicates()) by {
            assert forall|s: int, t: int|
                0 <= s < owners.len() && 0 <= t < owners.len() && s != t implies owners[s]
                != owners[t] by {
                assert(table[s].1 != 0 && table[t].1 != 0);
            }
        }
        owners.unique_seq_to_set();
        vstd::set_lib::lemma_int_range(0, entries.len() as int);
        assert(owners.to_set().subset_of(vstd::set_lib::set_int_range(0, entries.len() as int)));
        vstd::set_lib::lemma_len_subset(
            owners.to_set(),
            vstd::set_lib::set_int_range(0, entries.len() as int),
        );
        assert(false);
        0
    } else {
        choose|s: int| 0 <= s < table.len() && (#[trigger] table[s]).1 == 0
    }
}

/// Filling the first empty slot keeps what the table holds and adds one record.
proof fn lemma_fill_slot(
    table: Seq<(u32, u64)>,
    entries: Seq<(Seq<u8>, Seq<u8>)>,
    records_at: int,
)
    requires
        entries.len() > 0,
        table_ok(table, entries.drop_last(), records_at),
        entries.len() <= table.len(),
        records_at > 0,
        records_at + records::records_size(entries) <= u64::MAX,
    ensures
        table_ok(
            fill_slot(
                table,
                hash::xxh3_64_value(entries.last().0),
                (records_at + records::records_size(entries.drop_last())) as u64,
            ),
            entries,
            records_at,
        ),
{
    let shorter = entries.drop_last();
    let slots = table.len() as int;
    let last = entries.len() - 1;
    let hash = hash::xxh3_64_value(entries.last().0);
    let offset = (records_at + records::records_size(shorter)) as u64;
    let empty = lemma_has_empty(table, shorter, records_at);
    let far = lemma_probe_reaches(hash, empty, slots);
    lemma_empty_distance(table, hash, 0, far);
    let d = empty_distance(table, hash, 0);
    let place = probe(hash, d, slots);
    lemma_next_probe(hash, d, slots);
    let filled = fill_slot(table, hash, offset);
    assert forall|i: int| 0 <= i < shorter.len() implies #[trigger] slot_of(
        entries,
        records_at,
        i,
    ) == slot_of(shorter, records_at, i) by {
        assert(entries.take(i) =~= shorter.take(i));
    }
    records::lemma_records_size(shorter);
    assert(entries.take(last) =~= shorter);
    assert(slot_of(entries, records_at, last) == (hash::fingerprint(hash), offset));
    assert(offset > 0);
    assert forall|s: int| 0 <= s < slots && table[s].1 != 0 implies filled[s] == table[s] by {}
    assert forall|i: int| 0 <= i < entries.len() implies #[trigger] reachable(
        filled,
        entries,
        records_at,
        i,
    ) by {
        let h = hash::xxh3_64_value(entries[i].0);
        if i < last {
            assert(reachable(table, shorter, records_at, i));
            let e = choose|e: int| #[trigger]
                placed(table, h, e, slot_of(shorter, records_at, i));
            lemma_slot_nonzero(shorter, records_at, i);
            lemma_next_probe(h, e, slots);
            assert forall|k: int| 0 <= k < e implies filled[#[trigger] probe(
                h,
                k,
                filled.len() as int,
            )].1 != 0 by {
                lemma_next_probe(h, k, slots);
                assert(table[probe(h, k, slots)].1 != 0);
            }
            assert(slot_of(entries, records_at, i) == slot_of(shorter, records_at, i));
            assert(placed(filled, h, e, slot_of(entries, records_at, i)));
        } else {
            assert forall|k: int| 0 <= k < d implies filled[#[trigger] probe(
                h,
                k,
                filled.len() as int,
            )].1 != 0 by {
                lemma_next_probe(h, k, slots);
                assert(table[probe(h, k, slots)].1 != 0);
            }
            assert(placed(filled, h, d, slot_of(entries, records_at, i)));
        }
    }
    assert forall|s: int| 0 <= s < filled.len() && filled[s].1 != 0 implies #[trigger] is_slot(
        filled,
        entries,
        records_at,
        s,
    ) by {
        if s == place {
            assert(filled[s] == slot_of(entries, records_at, last));
        } else {
            assert(is_slot(table, shorter, records_at, s));
            let i = choose|i: int|
                0 <= i < shorter.len() && table[s] == #[trigger] slot_of(shorter, records_at, i);
            assert(filled[s] == slot_of(entries, records_at, i));
        }
    }
    assert forall|s: int| 0 <= s < table.len() && (#[trigger] table[s]).1 != 0 implies table[s].1
        < offset by {
        assert(is_slot(table, shorter, records_at, s));
        let i = choose|i: int|
            0 <= i < shorter.len() && table[s] == #[trigger] slot_of(shorter, records_at, i);
        records::lemma_record_start_order(shorter, i, shorter.len() as int);
        assert(shorter.take(shorter.len() as int) =~= shorter);
        records::lemma_record_start_order(entries, last, entries.len() as int);
    }
}

/// The slot of a record is not empty.
pub proof fn lemma_slot_nonzero(entries: Seq<(Seq<u8>, Seq<u8>)>, records_at: int, i: int)
    requires
        0 <= i < entries.len(),
        records_at > 0,
        records_at + records::records_size(entries) <= u64::MAX,
    ensures
        slot_of(entries, records_at, i).1 == records_at + records::record_start(entries, i),
        slot_of(entries, records_at, i).1 != 0,
{
    records::lemma_record_start_order(entries, i, entries.len() as int);
}

/// Building the table over the records gives every record its slot.
pub proof fn lemma_build_table(
    entries: Seq<(Seq<u8>, Seq<u8>)>,
    slots: nat,
    records_at: int,
)
    requires
        entries.len() <= slots,
        records_at > 0,
        records_at + records::records_size(entries) <= u64::MAX,
    ensures
        build_table(entries, slots, records_at).len() == slots,
        table_ok(build_table(entries, slots, records_at), entries, records_at),
    decreases entries.len(),
{
    if entries.len() > 0 {
        records::lemma_records_size(entries);
        records::lemma_records_size(entries.drop_last());
        lemma_build_table(entries.drop_last(), slots, records_at);
        lemma_fill_slot(
            build_table(entries.drop_last(), slots, records_at),
            entries,
            records_at,
        );
    }
}

/// There are more slots than records, and at most five times as many.
pub proof fn lemma_slot_count(len: nat)
    ensures
        len > 0 ==> slot_count(len) > len,
        slot_count(len) <= 5 * len,
        len > 0 ==> power::is_power(slot_count(len) as int),
{
    if len > 0 {
        power::lemma_next_power(bytes::ceil_div(5 * len as int, 4) as nat);
    }
}

/// At most four of five slots are taken.
pub proof fn law_load_factor(len: nat)
    ensures
        5 * len <= 4 * slot_count(len),
{
    if len > 0 {
        power::lemma_next_power(bytes::ceil_div(5 * len as int, 4) as nat);
    }
}

/// A slot: the fingerprint and the position of a record.
pub open spec fn slot_bytes(slot: (u32, u64)) -> Seq<u8> {
    bytes::u32_bytes(slot.0) + bytes::u64_bytes(slot.1)
}

/// Slots one after the other.
pub open spec fn table_bytes(table: Seq<(u32, u64)>) -> Seq<u8>
    decreases table.len(),
{
    if table.len() == 0 {
        Seq::empty()
    } else {
        table_bytes(table.drop_last()) + slot_bytes(table.last())
    }
}

/// A table has twelve bytes for each slot.
pub proof fn lemma_table_bytes(table: Seq<(u32, u64)>)
    ensures
        table_bytes(table).len() == 12 * table.len(),
    decreases table.len(),
{
    broadcast use {bytes::lemma_u32_bytes_len, bytes::lemma_u64_bytes_len};

    if table.len() > 0 {
        lemma_table_bytes(table.drop_last());
    }
}

/// The bytes of slot `s`.
pub proof fn lemma_slot_at(table: Seq<(u32, u64)>, s: int)
    requires
        0 <= s < table.len(),
    ensures
        table_bytes(table).len() == 12 * table.len(),
        table_bytes(table).subrange(12 * s, 12 * s + 12) == slot_bytes(table[s]),
    decreases table.len(),
{
    broadcast use {bytes::lemma_u32_bytes_len, bytes::lemma_u64_bytes_len};

    lemma_table_bytes(table);
    lemma_table_bytes(table.drop_last());
    if s < table.len() - 1 {
        lemma_slot_at(table.drop_last(), s);
        assert(table_bytes(table).subrange(12 * s, 12 * s + 12) =~= table_bytes(
            table.drop_last(),
        ).subrange(12 * s, 12 * s + 12));
    } else {
        assert(table_bytes(table).subrange(12 * s, 12 * s + 12) =~= slot_bytes(table[s]));
    }
}

/// A slot that was written at `at` is read back from there.
pub proof fn lemma_read_slot(data: Seq<u8>, at: int, slot: (u32, u64))
    requires
        0 <= at,
        at + 12 <= data.len(),
        data.subrange(at, at + 12) == slot_bytes(slot),
    ensures
        bytes::le_u32(data, at) == slot.0,
        bytes::le_u64(data, at + 4) == slot.1,
{
    broadcast use {bytes::lemma_u32_bytes_len, bytes::lemma_u64_bytes_len};

    let written = slot_bytes(slot);
    assert(data.subrange(at, at + 4) =~= data.subrange(at, at + 12).subrange(0, 4));
    assert(data.subrange(at + 4, at + 12) =~= data.subrange(at, at + 12).subrange(4, 12));
    assert(written.subrange(0, 4) =~= bytes::u32_bytes(slot.0));
    assert(written.subrange(4, 12) =~= bytes::u64_bytes(slot.1));
    bytes::lemma_le_u32_of_bytes(data, at, slot.0);
    bytes::lemma_le_u64_of_bytes(data, at + 4, slot.1);
}

/// The header of a Base.
pub open spec fn header_bytes(slots: u64, len: u64) -> Seq<u8> {
    segment::hash_section_id() + bytes::u32_bytes(segment::BASE_HEADER as u32) + bytes::u64_bytes(
        slots,
    ) + bytes::u64_bytes(len)
}

/// Where the records of a Base start.
pub open spec fn records_offset(slots: int) -> int {
    segment::BASE_HEADER + segment::SLOT_SIZE * slots
}

/// The data of the Base over `entries` in a segment that starts at `start`.
pub open spec fn base_data(start: int, entries: Seq<(Seq<u8>, Seq<u8>)>) -> Seq<u8> {
    let slots = slot_count(entries.len());
    header_bytes(slots as u64, entries.len() as u64) + table_bytes(
        build_table(entries, slots, start + records_offset(slots as int)),
    ) + records::records_bytes(entries)
}

/// The size of the data of the Base over `entries`.
pub open spec fn base_data_size(entries: Seq<(Seq<u8>, Seq<u8>)>) -> int {
    records_offset(slot_count(entries.len()) as int) + records::records_size(entries)
}

/// A header has its fixed size.
pub proof fn lemma_header_bytes(slots: u64, len: u64)
    ensures
        header_bytes(slots, len).len() == segment::BASE_HEADER,
{
    broadcast use {bytes::lemma_u32_bytes_len, bytes::lemma_u64_bytes_len};

}

/// Where the parts of the data of a Base lie.
pub proof fn lemma_base_data(start: int, entries: Seq<(Seq<u8>, Seq<u8>)>)
    requires
        start >= 0,
        start + base_data_size(entries) <= u64::MAX,
    ensures
        base_data(start, entries).len() == base_data_size(entries),
        ({
            let slots = slot_count(entries.len());
            let at = records_offset(slots as int);
            let data = base_data(start, entries);
            let table = build_table(entries, slots, start + at);
            &&& slots <= u64::MAX
            &&& entries.len() <= u64::MAX
            &&& table.len() == slots
            &&& table_ok(table, entries, start + at)
            &&& data.subrange(0, segment::BASE_HEADER as int) == header_bytes(
                slots as u64,
                entries.len() as u64,
            )
            &&& data.subrange(segment::BASE_HEADER as int, at) == table_bytes(table)
            &&& data.subrange(at, data.len() as int) == records::records_bytes(entries)
        }),
{
    let slots = slot_count(entries.len());
    let at = records_offset(slots as int);
    let table = build_table(entries, slots, start + at);
    records::lemma_records_size(entries);
    lemma_slot_count(entries.len());
    lemma_build_table(entries, slots, start + at);
    lemma_table_bytes(table);
    lemma_header_bytes(slots as u64, entries.len() as u64);
    let data = base_data(start, entries);
    assert(data.subrange(0, segment::BASE_HEADER as int) =~= header_bytes(
        slots as u64,
        entries.len() as u64,
    ));
    assert(data.subrange(segment::BASE_HEADER as int, at) =~= table_bytes(table));
    assert(data.subrange(at, data.len() as int) =~= records::records_bytes(entries));
}

/// Slot `s` of the data of a Base.
pub proof fn lemma_base_slot(start: int, entries: Seq<(Seq<u8>, Seq<u8>)>, s: int)
    requires
        start >= 0,
        start + base_data_size(entries) <= u64::MAX,
        0 <= s < slot_count(entries.len()),
    ensures
        ({
            let slots = slot_count(entries.len());
            let table = build_table(entries, slots, start + records_offset(slots as int));
            let at = segment::BASE_HEADER + segment::SLOT_SIZE * s;
            &&& at + segment::SLOT_SIZE <= records_offset(slots as int)
            &&& bytes::le_u32(base_data(start, entries), at) == table[s].0
            &&& bytes::le_u64(base_data(start, entries), at + 4) == table[s].1
        }),
{
    let slots = slot_count(entries.len());
    let data = base_data(start, entries);
    let table = build_table(entries, slots, start + records_offset(slots as int));
    let at = segment::BASE_HEADER + segment::SLOT_SIZE * s;
    records::lemma_records_size(entries);
    lemma_base_data(start, entries);
    lemma_slot_at(table, s);
    assert(data.subrange(at, at + 12) =~= table_bytes(table).subrange(12 * s, 12 * s + 12)) by {
        let whole = data.subrange(segment::BASE_HEADER as int, records_offset(slots as int));
        assert forall|j: int| 0 <= j < 12 implies #[trigger] data.subrange(at, at + 12)[j]
            == table_bytes(table).subrange(12 * s, 12 * s + 12)[j] by {
            assert(whole[12 * s + j] == data[at + j]);
        }
    }
    lemma_read_slot(data, at, table[s]);
}

/// Record `i` of the data of a Base.
pub proof fn lemma_base_record(start: int, entries: Seq<(Seq<u8>, Seq<u8>)>, i: int)
    requires
        start >= 0,
        start + base_data_size(entries) <= u64::MAX,
        records::entries_fit(entries),
        0 <= i < entries.len(),
    ensures
        ({
            let data = base_data(start, entries);
            let at = records_offset(slot_count(entries.len()) as int);
            &&& segment::record_fits(data, at + records::record_start(entries, i))
            &&& segment::record_key(data, at + records::record_start(entries, i)) == entries[i].0
            &&& segment::record_value(data, at + records::record_start(entries, i)) == entries[i].1
        }),
{
    let data = base_data(start, entries);
    let at = records_offset(slot_count(entries.len()) as int);
    records::lemma_records_size(entries);
    lemma_base_data(start, entries);
    records::lemma_read_record_at(data, at, entries, i);
}

/// The records of a Base are read back in order, up to the end of the data.
pub proof fn lemma_base_records(start: int, entries: Seq<(Seq<u8>, Seq<u8>)>)
    requires
        start >= 0,
        start + base_data_size(entries) <= u64::MAX,
        records::entries_fit(entries),
    ensures
        ({
            let data = base_data(start, entries);
            records::parse_records(
                data,
                records_offset(slot_count(entries.len()) as int),
                entries.len(),
            ) == Some((entries, data.len() as int))
        }),
{
    let data = base_data(start, entries);
    let at = records_offset(slot_count(entries.len()) as int);
    records::lemma_records_size(entries);
    lemma_base_data(start, entries);
    records::lemma_parse_written(data, at, entries, 0);
    assert(entries.take(0) =~= Seq::empty());
    assert(entries.skip(0) =~= entries);
}

/// The data of a Base has its size, wherever the segment starts.
pub proof fn lemma_base_data_len(start: int, entries: Seq<(Seq<u8>, Seq<u8>)>)
    ensures
        base_data(start, entries).len() == base_data_size(entries),
{
    let slots = slot_count(entries.len());
    let table = build_table(entries, slots, start + records_offset(slots as int));
    records::lemma_records_size(entries);
    lemma_slot_count(entries.len());
    lemma_header_bytes(slots as u64, entries.len() as u64);
    lemma_table_bytes(table);
    lemma_table_len(entries, slots, start + records_offset(slots as int));
}

proof fn lemma_table_len(entries: Seq<(Seq<u8>, Seq<u8>)>, slots: nat, at: int)
    requires
        entries.len() > 0 ==> slots > 0,
    ensures
        build_table(entries, slots, at).len() == slots,
    decreases entries.len(),
{
    if entries.len() > 0 {
        lemma_table_len(entries.drop_last(), slots, at);
        let table = build_table(entries.drop_last(), slots, at);
        let hash = hash::xxh3_64_value(entries.last().0);
        lemma_mod_bound(
            hash + empty_distance(table, hash, 0),
            slots as int,
        );
    }
}

} // verus!
