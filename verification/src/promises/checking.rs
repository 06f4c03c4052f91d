//! What reads of a damaged Base promise.

use crate::database::entries;
use crate::database::entries::Located;
use crate::database::state::OverlayEntry;
use crate::database::{Database, HandleState};
use crate::error::Result;
use crate::format::index;
use crate::format::lookup;
use crate::format::segment;
use crate::options::VerificationMode;
use crate::promises::layout;
use crate::Entries;
use vstd::prelude::*;

verus! {

/// Whether every block of 64 KiB that a range of the data touches has its checksum.
pub open spec fn is_intact(data: Seq<u8>, checksums: Seq<u8>, start: int, end: int) -> bool {
    forall|index: int|
        start < (index + 1) * 65_536 && index * 65_536 < end && start < end
            ==> #[trigger] segment::block_ok(data, checksums, index)
}

/// Whether the record at `at` is that of a key and a value, and lies within the data.
pub open spec fn is_record(data: Seq<u8>, at: int, key: Seq<u8>, value: Seq<u8>) -> bool {
    &&& 0 <= at
    &&& at + 8 <= data.len()
    &&& segment::record_end(data, at) <= data.len()
    &&& segment::record_key(data, at) == key
    &&& segment::record_value(data, at) == value
}

/// Whether data has a record of a key and a value in blocks that have their checksums.
pub open spec fn has_intact_record(
    data: Seq<u8>,
    checksums: Seq<u8>,
    key: Seq<u8>,
    value: Seq<u8>,
) -> bool {
    exists|at: int| #[trigger]
        is_record(data, at, key, value) && is_intact(
            data,
            checksums,
            at,
            segment::record_end(data, at),
        )
}

proof fn lemma_lookup(
    data: Seq<u8>,
    checksums: Seq<u8>,
    verify: bool,
    segment_offset: u64,
    slots: int,
    key: Seq<u8>,
    hash: u64,
    d: int,
)
    requires
        verify || segment::blocks_ok(data, checksums),
    ensures
        lookup::lookup_from(data, checksums, verify, segment_offset, slots, key, hash, d) matches Ok(
            Some(value),
        ) ==> has_intact_record(data, checksums, key, value),
    decreases slots - d,
{
    if d < slots {
        let slot_at = 24 + 12 * index::probe(hash, d, slots);
        let at = crate::bytes::le_u64(data, slot_at + 4) - segment_offset;
        let end = segment::record_end(data, at);
        lemma_lookup(data, checksums, verify, segment_offset, slots, key, hash, d + 1);
        if at >= 0 && at + 8 <= data.len() && end <= data.len() {
            layout::law_range_check(data, checksums, segment_offset, at, end);
            if segment::blocks_ok(data, checksums) {
                assert(is_intact(data, checksums, at, end));
            }
            if segment::record_key(data, at) == key {
                assert(is_record(data, at, key, segment::record_value(data, at)));
            }
        }
    }
}

/// Without checks a lookup does not fail.
proof fn lemma_unchecked_lookup(
    data: Seq<u8>,
    checksums: Seq<u8>,
    segment_offset: u64,
    slots: int,
    key: Seq<u8>,
    hash: u64,
    d: int,
)
    ensures
        lookup::lookup_from(data, checksums, false, segment_offset, slots, key, hash, d) is Ok,
    decreases slots - d,
{
    if d < slots {
        lemma_unchecked_lookup(data, checksums, segment_offset, slots, key, hash, d + 1);
    }
}

/// Of a key of which the Overlay says something, a read gives what it says, whatever became of
/// the Base. A value of another key comes, in the mode that checks what is read, out of a record
/// of that key in blocks that have their checksums. In the other mode no read fails.
pub proof fn law_checked_read(db: &Database, key: &[u8], result: Result<Option<&[u8]>>)
    requires
        call_ensures(Database::get, (db, key), result),
        db.health() != HandleState::Unavailable,
    ensures
        db.overlay_part()@.contains_key(key@) ==> match result {
            Ok(Some(value)) => db.overlay_part()@[key@] == Some(value@),
            Ok(None) => db.overlay_part()@[key@] is None,
            Err(_) => false,
        },
        !db.overlay_part()@.contains_key(key@) && db.settings().verification
            == VerificationMode::OnRead ==> (result matches Ok(Some(value)) ==> has_intact_record(
            db.base_part().data(),
            db.base_part().table(),
            key@,
            value@,
        )),
        db.settings().verification == VerificationMode::Full ==> result is Ok,
{
    let base = db.base_part();
    let hash = crate::hash::xxh3_64_value(key@);
    lemma_unchecked_lookup(
        base.data(),
        base.table(),
        base.offset,
        base.slots as int,
        key@,
        hash,
        0,
    );
    lemma_lookup(base.data(), base.table(), true, base.offset, base.slots as int, key@, hash, 0);
    if segment::blocks_ok(base.data(), base.table()) {
        lemma_lookup(
            base.data(),
            base.table(),
            false,
            base.offset,
            base.slots as int,
            key@,
            hash,
            0,
        );
    }
}

/// Whether a record of a key and a value stands in a segment with its key and its value in
/// blocks that have their checksums.
pub open spec fn has_intact_pair(
    segment: Seq<u8>,
    data: Seq<u8>,
    checksums: Seq<u8>,
    key: Seq<u8>,
    value: Seq<u8>,
) -> bool {
    exists|at: int| #[trigger]
        is_record(segment, at, key, value) && segment::record_end(segment, at) <= data.len()
            && is_intact(data, checksums, at + 8, segment::record_end(segment, at))
}

/// Whether an item of an iteration is a record of the Base of which the Overlay says nothing.
spec fn is_located(
    mapping: Seq<u8>,
    data_size: int,
    overlay: Map<Seq<u8>, OverlayEntry>,
    item: Located,
) -> bool {
    exists|at: int| #[trigger]
        is_record(mapping, at, item.key, item.value) && segment::record_end(mapping, at)
            <= data_size && item.range == Some((at + 8, segment::record_end(mapping, at)))
            && !overlay.contains_key(item.key)
}

proof fn lemma_base_items(
    mapping: Seq<u8>,
    data_size: int,
    overlay: Map<Seq<u8>, OverlayEntry>,
    offset: int,
    n: nat,
)
    requires
        0 <= offset,
    ensures
        forall|i: int|
            0 <= i < entries::base_items(mapping, data_size, overlay, offset, n).len()
                ==> is_located(
                mapping,
                data_size,
                overlay,
                #[trigger] entries::base_items(mapping, data_size, overlay, offset, n)[i],
            ),
    decreases n,
{
    if n > 0 {
        if let Ok((key, value, end)) = segment::record_outcome(mapping, offset, data_size) {
            let rest = entries::base_items(mapping, data_size, overlay, end, (n - 1) as nat);
            let items = entries::base_items(mapping, data_size, overlay, offset, n);
            lemma_base_items(mapping, data_size, overlay, end, (n - 1) as nat);
            assert(is_record(mapping, offset, key, value));
            assert forall|i: int| 0 <= i < items.len() implies is_located(
                mapping,
                data_size,
                overlay,
                #[trigger] items[i],
            ) by {
                if overlay.contains_key(key) {
                    assert(items[i] == rest[i]);
                } else if i > 0 {
                    assert(items[i] == rest[i - 1]);
                } else {
                    assert(items[i] == (Located { key, value, range: Some((offset + 8, end)) }));
                    assert(is_record(mapping, offset, items[i].key, items[i].value));
                }
            }
        }
    }
}

/// Whether an item of an iteration is what the Overlay puts.
spec fn is_put(keys: Seq<Seq<u8>>, values: Seq<OverlayEntry>, item: Located) -> bool {
    item.range is None && exists|j: int|
        0 <= j < keys.len() && #[trigger] keys[j] == item.key && values[j]@ == Some(item.value)
}

proof fn lemma_overlay_items(keys: Seq<Seq<u8>>, values: Seq<OverlayEntry>, at: int)
    requires
        0 <= at,
    ensures
        forall|i: int|
            0 <= i < entries::overlay_items(keys, values, at).len() ==> is_put(
                keys,
                values,
                #[trigger] entries::overlay_items(keys, values, at)[i],
            ),
    decreases keys.len() - at,
{
    if at < keys.len() {
        let rest = entries::overlay_items(keys, values, at + 1);
        let items = entries::overlay_items(keys, values, at);
        lemma_overlay_items(keys, values, at + 1);
        assert forall|i: int| 0 <= i < items.len() implies is_put(
            keys,
            values,
            #[trigger] items[i],
        ) by {
            if values[at]@ is Some {
                if i > 0 {
                    assert(items[i] == rest[i - 1]);
                } else {
                    assert(keys[at] == items[i].key);
                }
            } else {
                assert(items[i] == rest[i]);
            }
        }
    }
}

/// An entry that an iteration gives, in the mode that checks what is read, is what the Overlay
/// says of its key, or comes out of a record of the Base whose key and value stand in blocks
/// that have their checksums, where the Overlay says nothing of the key.
pub proof fn law_checked_iteration(db: &Database, result: Result<Entries<'_>>, i: int)
    requires
        call_ensures(Database::iter, (db,), result),
        db.wf(),
        db.health() != HandleState::Unavailable,
        db.settings().verification == VerificationMode::OnRead,
    ensures
        result matches Ok(entries) && (0 <= i < entries.results().len() ==> (
        entries.results()[i] matches Ok((key, value)) ==> if db.overlay_part()@.contains_key(key) {
            db.overlay_part()@[key] == Some(value)
        } else {
            has_intact_pair(
                db.base_part().mapping@,
                db.base_part().data(),
                db.base_part().table(),
                key,
                value,
            )
        })),
{
    let base = db.base_part();
    let overlay = *db.overlay_part().index;
    overlay.lemma_wf();
    let size = base.data().len() as int;
    let start = index::records_offset(base.slots as int);
    let located = entries::base_items(base.mapping@, size, overlay@, start, base.len as nat);
    let put = entries::overlay_items(overlay.keys(), overlay.values(), 0);
    lemma_base_items(base.mapping@, size, overlay@, start, base.len as nat);
    lemma_overlay_items(overlay.keys(), overlay.values(), 0);
    let items = crate::database::raw_items_of(base, overlay);
    let results = db.iteration();
    if 0 <= i < results.len() && results[i] is Ok {
        assert(i < items.len());
        let item = items[i];
        if i < located.len() {
            assert(item == located[i]);
            let at = choose|at: int| #[trigger]
                is_record(base.mapping@, at, item.key, item.value) && segment::record_end(
                    base.mapping@,
                    at,
                ) <= size && item.range == Some((at + 8, segment::record_end(base.mapping@, at)))
                    && !overlay@.contains_key(item.key);
            layout::law_range_check(
                base.data(),
                base.table(),
                base.offset,
                at + 8,
                segment::record_end(base.mapping@, at),
            );
            assert(is_record(base.mapping@, at, item.key, item.value));
        } else {
            assert(item == put[i - located.len()]);
            let j = choose|j: int|
                0 <= j < overlay.keys().len() && #[trigger] overlay.keys()[j] == item.key
                    && overlay.values()[j]@ == Some(item.value);
            assert(overlay@.contains_pair(overlay.keys()[j], overlay.values()[j]));
        }
    }
}

} // verus!
