//! The records of a Base: how they are laid out and read back.

use crate::bytes;
use crate::format::segment;
use vstd::prelude::*;

verus! {

/// A record: the two lengths, the key and the value.
pub open spec fn record_bytes(key: Seq<u8>, value: Seq<u8>) -> Seq<u8> {
    bytes::u32_bytes(key.len() as u32) + bytes::u32_bytes(value.len() as u32) + key + value
}

/// The size of a record.
pub open spec fn record_size(entry: (Seq<u8>, Seq<u8>)) -> int {
    8int + entry.0.len() + entry.1.len()
}

/// Records one after the other.
pub open spec fn records_bytes(entries: Seq<(Seq<u8>, Seq<u8>)>) -> Seq<u8>
    decreases entries.len(),
{
    if entries.len() == 0 {
        Seq::empty()
    } else {
        records_bytes(entries.drop_last()) + record_bytes(entries.last().0, entries.last().1)
    }
}

/// The size of records one after the other.
pub open spec fn records_size(entries: Seq<(Seq<u8>, Seq<u8>)>) -> int
    decreases entries.len(),
{
    if entries.len() == 0 {
        0
    } else {
        records_size(entries.drop_last()) + record_size(entries.last())
    }
}

/// The distance of record `i` from the first.
pub open spec fn record_start(entries: Seq<(Seq<u8>, Seq<u8>)>, i: int) -> int {
    records_size(entries.take(i))
}

/// Whether every key and value is within the limits of the format.
pub open spec fn entries_fit(entries: Seq<(Seq<u8>, Seq<u8>)>) -> bool {
    forall|i: int|
        0 <= i < entries.len() ==> segment::lengths_fit(
            (#[trigger] entries[i]).0.len() as int,
            entries[i].1.len() as int,
        )
}

/// The keys of the entries.
pub open spec fn entry_keys(entries: Seq<(Seq<u8>, Seq<u8>)>) -> Seq<Seq<u8>> {
    Seq::new(entries.len(), |i: int| entries[i].0)
}

/// The values of the entries.
pub open spec fn entry_values(entries: Seq<(Seq<u8>, Seq<u8>)>) -> Seq<Seq<u8>> {
    Seq::new(entries.len(), |i: int| entries[i].1)
}

/// Reads `n` records that start at `at`, and says where they end.
pub open spec fn parse_records(data: Seq<u8>, at: int, n: nat) -> Option<
    (Seq<(Seq<u8>, Seq<u8>)>, int),
>
    decreases n,
{
    if n == 0 {
        Some((Seq::empty(), at))
    } else if !segment::record_fits(data, at) {
        None
    } else {
        match parse_records(data, segment::record_end(data, at), (n - 1) as nat) {
            Some((rest, end)) => Some(
                (seq![(segment::record_key(data, at), segment::record_value(data, at))] + rest, end),
            ),
            None => None,
        }
    }
}

/// Sizes add up along the entries.
pub proof fn lemma_records_size(entries: Seq<(Seq<u8>, Seq<u8>)>)
    ensures
        records_bytes(entries).len() == records_size(entries),
        records_size(entries) >= 8 * entries.len(),
    decreases entries.len(),
{
    broadcast use bytes::lemma_u32_bytes_len;

    if entries.len() > 0 {
        lemma_records_size(entries.drop_last());
    }
}

/// Each record starts where the one before it ends.
pub proof fn lemma_record_start_step(entries: Seq<(Seq<u8>, Seq<u8>)>, i: int)
    requires
        0 <= i < entries.len(),
    ensures
        record_start(entries, i + 1) == record_start(entries, i) + record_size(entries[i]),
        record_start(entries, entries.len() as int) == records_size(entries),
        record_start(entries, 0) == 0,
{
    assert(entries.take(i + 1).drop_last() =~= entries.take(i));
    assert(entries.take(entries.len() as int) =~= entries);
    assert(entries.take(0) =~= Seq::empty());
}

/// Later records start later.
pub proof fn lemma_record_start_order(entries: Seq<(Seq<u8>, Seq<u8>)>, i: int, j: int)
    requires
        0 <= i <= j <= entries.len(),
    ensures
        record_start(entries, i) + 8 * (j - i) <= record_start(entries, j),
        0 <= record_start(entries, i),
        record_start(entries, j) <= records_size(entries),
    decreases j - i,
{
    if i < j {
        lemma_record_start_step(entries, j - 1);
        lemma_record_start_order(entries, i, j - 1);
    } else {
        lemma_records_size(entries.take(i));
    }
    lemma_record_start_bound(entries, j);
}

proof fn lemma_record_start_bound(entries: Seq<(Seq<u8>, Seq<u8>)>, j: int)
    requires
        0 <= j <= entries.len(),
    ensures
        record_start(entries, j) <= records_size(entries),
    decreases entries.len() - j,
{
    if j < entries.len() {
        lemma_record_start_step(entries, j);
        lemma_record_start_bound(entries, j + 1);
    } else {
        assert(entries.take(j) =~= entries);
    }
}

/// The bytes of record `i`.
pub proof fn lemma_records_at(entries: Seq<(Seq<u8>, Seq<u8>)>, i: int)
    requires
        0 <= i < entries.len(),
    ensures
        0 <= record_start(entries, i),
        record_start(entries, i) + record_size(entries[i]) <= records_bytes(entries).len(),
        records_bytes(entries).subrange(
            record_start(entries, i),
            record_start(entries, i) + record_size(entries[i]),
        ) == record_bytes(entries[i].0, entries[i].1),
    decreases entries.len(),
{
    broadcast use bytes::lemma_u32_bytes_len;

    lemma_records_size(entries);
    lemma_record_start_order(entries, i, i + 1);
    lemma_record_start_step(entries, i);
    let shorter = entries.drop_last();
    lemma_records_size(shorter);
    if i < shorter.len() {
        assert(entries.take(i) =~= shorter.take(i));
        lemma_records_at(shorter, i);
        assert(records_bytes(entries).subrange(
            record_start(entries, i),
            record_start(entries, i) + record_size(entries[i]),
        ) =~= records_bytes(shorter).subrange(
            record_start(shorter, i),
            record_start(shorter, i) + record_size(shorter[i]),
        ));
    } else {
        assert(entries.take(i) =~= shorter);
        assert(records_bytes(entries).subrange(
            record_start(entries, i),
            record_start(entries, i) + record_size(entries[i]),
        ) =~= record_bytes(entries[i].0, entries[i].1));
    }
}

/// A record that was written at `at` is read back from there.
pub proof fn lemma_read_record(data: Seq<u8>, at: int, key: Seq<u8>, value: Seq<u8>)
    requires
        0 <= at,
        at + 8 + key.len() + value.len() <= data.len(),
        data.subrange(at, at + 8 + key.len() + value.len()) == record_bytes(key, value),
        segment::lengths_fit(key.len() as int, value.len() as int),
    ensures
        segment::record_fits(data, at),
        segment::record_key(data, at) == key,
        segment::record_value(data, at) == value,
        segment::record_end(data, at) == at + 8 + key.len() + value.len(),
{
    broadcast use bytes::lemma_u32_bytes_len;

    let record = record_bytes(key, value);
    let end = at + 8 + key.len() + value.len();
    assert forall|j: int| 0 <= j < record.len() implies data[at + j] == record[j] by {
        assert(data.subrange(at, end)[j] == record[j]);
    }
    assert(data.subrange(at, at + 4) =~= bytes::u32_bytes(key.len() as u32)) by {
        assert(record.subrange(0, 4) =~= bytes::u32_bytes(key.len() as u32));
        assert forall|j: int| 0 <= j < 4 implies data.subrange(at, at + 4)[j] == record.subrange(
            0,
            4,
        )[j] by {
            assert(data[at + j] == record[j]);
        }
    }
    assert(data.subrange(at + 4, at + 8) =~= bytes::u32_bytes(value.len() as u32)) by {
        assert(record.subrange(4, 8) =~= bytes::u32_bytes(value.len() as u32));
        assert forall|j: int| 0 <= j < 4 implies data.subrange(at + 4, at + 8)[j]
            == record.subrange(4, 8)[j] by {
            assert(data[at + (4 + j)] == record[4 + j]);
        }
    }
    bytes::lemma_le_u32_of_bytes(data, at, key.len() as u32);
    bytes::lemma_le_u32_of_bytes(data, at + 4, value.len() as u32);
    assert(segment::record_key(data, at) =~= key) by {
        assert forall|j: int| 0 <= j < key.len() implies segment::record_key(data, at)[j]
            == key[j] by {
            assert(data[at + (8 + j)] == record[8 + j]);
        }
    }
    assert(segment::record_value(data, at) =~= value) by {
        assert forall|j: int| 0 <= j < value.len() implies segment::record_value(data, at)[j]
            == value[j] by {
            assert(data[at + (8 + key.len() + j)] == record[8 + key.len() + j]);
        }
    }
}

/// Record `i` of records that were written at `at` is read back.
pub proof fn lemma_read_record_at(
    data: Seq<u8>,
    at: int,
    entries: Seq<(Seq<u8>, Seq<u8>)>,
    i: int,
)
    requires
        0 <= at,
        at + records_size(entries) <= data.len(),
        data.subrange(at, at + records_size(entries)) == records_bytes(entries),
        entries_fit(entries),
        0 <= i < entries.len(),
    ensures
        segment::record_fits(data, at + record_start(entries, i)),
        segment::record_key(data, at + record_start(entries, i)) == entries[i].0,
        segment::record_value(data, at + record_start(entries, i)) == entries[i].1,
        segment::record_end(data, at + record_start(entries, i)) == at + record_start(
            entries,
            i + 1,
        ),
{
    lemma_records_size(entries);
    lemma_records_at(entries, i);
    lemma_record_start_step(entries, i);
    let from = record_start(entries, i);
    let to = from + record_size(entries[i]);
    assert(data.subrange(at + from, at + to) =~= records_bytes(entries).subrange(from, to)) by {
        assert forall|j: int| 0 <= j < to - from implies data.subrange(at + from, at + to)[j]
            == records_bytes(entries).subrange(from, to)[j] by {
            assert(data.subrange(at, at + records_size(entries))[from + j] == data[at + from + j]);
        }
    }
    lemma_read_record(data, at + from, entries[i].0, entries[i].1);
}

/// Records that were written one after the other are read back in order.
pub proof fn lemma_parse_written(
    data: Seq<u8>,
    at: int,
    entries: Seq<(Seq<u8>, Seq<u8>)>,
    from: int,
)
    requires
        0 <= at,
        at + records_size(entries) <= data.len(),
        data.subrange(at, at + records_size(entries)) == records_bytes(entries),
        entries_fit(entries),
        0 <= from <= entries.len(),
    ensures
        parse_records(data, at + record_start(entries, from), (entries.len() - from) as nat) == Some(
            (entries.skip(from), at + records_size(entries)),
        ),
    decreases entries.len() - from,
{
    if from < entries.len() {
        lemma_read_record_at(data, at, entries, from);
        lemma_parse_written(data, at, entries, from + 1);
        assert(entries.skip(from) =~= seq![entries[from]] + entries.skip(from + 1));
    } else {
        assert(entries.take(from) =~= entries);
        assert(entries.skip(from) =~= Seq::empty());
    }
}

} // verus!
