//! Committing staged mutations.
//!
//! A database in memory publishes a commit at once. For a file the record of the commit is
//! appended, read back where large values stay in it, and synced, all by whoever opened
//! the file; the functions here say what to write and what each outcome leads to.

use super::{Database, HandleState};
use crate::bytes;
use crate::bytes::{copy_bytes, u32_at};
use crate::database::live;
use crate::database::recovery;
use crate::database::replay;
use crate::database::state;
use crate::database::state::{BaseBytes, OverlayEntry, ValueBytes, MAPPED_VALUE_THRESHOLD};
use crate::error;
use crate::error::{Error, ErrorView, Result};
use crate::format::log;
use crate::format::log::{batch_payload_len, write_batch_record_with_checksums, LOG_HEADER_SIZE};
use crate::format::lookup;
use crate::format::segment;
use crate::key_map;
use crate::key_map::KeyMap;
use std::sync::Arc;
use vstd::prelude::*;

verus! {

/// What staged mutations say of the keys.
pub open spec fn staged_view(staged: KeyMap<OverlayEntry>) -> Map<Seq<u8>, Option<Seq<u8>>> {
    state::overlay_view(staged@)
}

/// The operations that staged mutations stand for.
pub open spec fn operations_of(staged: KeyMap<OverlayEntry>) -> Seq<(Seq<u8>, Option<Seq<u8>>)> {
    log::staged_operations(staged.keys(), staged.values())
}

/// What a commit says in place of what was said before.
pub open spec fn said_after(
    said: Map<Seq<u8>, Option<Seq<u8>>>,
    staged: Map<Seq<u8>, Option<Seq<u8>>>,
) -> Map<Seq<u8>, Option<Seq<u8>>> {
    said.union_prefer_right(staged)
}

/// Committing on top of an Overlay is committing on top of what the database holds.
pub proof fn law_commit_updates_the_contents(
    base: Map<Seq<u8>, Seq<u8>>,
    said: Map<Seq<u8>, Option<Seq<u8>>>,
    staged: Map<Seq<u8>, Option<Seq<u8>>>,
)
    ensures
        live::merged(base, said_after(said, staged)) == live::merged(
            live::merged(base, said),
            staged,
        ),
{
    assert(live::merged(base, said_after(said, staged)) =~= live::merged(
        live::merged(base, said),
        staged,
    ));
}

/// Applying operations with distinct keys, in any order, is saying them all at once.
pub proof fn lemma_apply_distinct(
    said: Map<Seq<u8>, Option<Seq<u8>>>,
    keys: Seq<Seq<u8>>,
    values: Seq<OverlayEntry>,
)
    requires
        keys.no_duplicates(),
        keys.len() == values.len(),
    ensures
        replay::apply_all(said, log::staged_operations(keys, values)) == said_after(
            said,
            state::overlay_view(key_map::pairs_map(keys, values)),
        ),
    decreases keys.len(),
{
    let operations = log::staged_operations(keys, values);
    let staged = state::overlay_view(key_map::pairs_map(keys, values));
    if keys.len() == 0 {
        assert(said_after(said, staged) =~= said);
    } else {
        let shorter = keys.drop_last();
        let fewer = values.drop_last();
        assert(shorter.no_duplicates());
        lemma_apply_distinct(said, shorter, fewer);
        assert(operations.drop_last() =~= log::staged_operations(shorter, fewer));
        assert(!shorter.contains(keys.last())) by {
            if shorter.contains(keys.last()) {
                let i = choose|i: int| 0 <= i < shorter.len() && shorter[i] == keys.last();
                assert(keys[i] == keys[keys.len() - 1]);
            }
        }
        key_map::lemma_pairs_map_push(shorter, fewer, keys.last(), values.last());
        assert(shorter.push(keys.last()) =~= keys);
        assert(fewer.push(values.last()) =~= values);
        let before = state::overlay_view(key_map::pairs_map(shorter, fewer));
        assert(staged =~= before.insert(keys.last(), values.last()@));
        assert(said_after(said, staged) =~= said_after(said, before).insert(
            keys.last(),
            values.last()@,
        ));
    }
}

/// The entry that is published for a staged one, once its record is in the file: a large
/// value stays there.
pub open spec fn published_value(
    entry: Option<Seq<u8>>,
    written: Seq<u8>,
) -> Option<Seq<u8>> {
    match entry {
        Some(value) => if value.len() >= MAPPED_VALUE_THRESHOLD {
            Some(written)
        } else {
            Some(value)
        },
        None => None,
    }
}

/// Matches the next `n` operations of a record that was written, from `at` on, with what
/// was staged and is left to match.
pub open spec fn match_written(
    record: Seq<u8>,
    at: int,
    n: nat,
    left: Map<Seq<u8>, Option<Seq<u8>>>,
    done: Map<Seq<u8>, Option<Seq<u8>>>,
) -> std::result::Result<Map<Seq<u8>, Option<Seq<u8>>>, ErrorView>
    decreases n,
{
    let key_end = at + 9 + recovery::operation_key_len(record, at);
    let value_end = recovery::operation_end(record, at);
    let key = recovery::operation_key(record, at);
    if n == 0 {
        if at == record.len() && left == Map::<Seq<u8>, Option<Seq<u8>>>::empty() {
            Ok(done)
        } else {
            Err(error::other_error("written batch layout does not match staged entries"@))
        }
    } else if at + 9 > record.len() {
        Err(error::other_error("written batch has a truncated operation"@))
    } else if key_end > record.len() {
        Err(error::other_error("written batch has a truncated key"@))
    } else if value_end > record.len() {
        Err(error::other_error("written batch has a truncated value"@))
    } else if !left.contains_key(key) {
        Err(error::other_error("written batch key is missing from staged entries"@))
    } else {
        match_written(
            record,
            value_end,
            (n - 1) as nat,
            left.remove(key),
            done.insert(
                key,
                published_value(left[key], record.subrange(key_end, value_end)),
            ),
        )
    }
}

/// What is published for staged mutations, from the record that was read back where there
/// is one.
pub open spec fn published_outcome(
    staged: Map<Seq<u8>, Option<Seq<u8>>>,
    record: Option<Seq<u8>>,
) -> std::result::Result<Map<Seq<u8>, Option<Seq<u8>>>, ErrorView> {
    match record {
        None => Ok(staged),
        Some(record) => if record.len() < LOG_HEADER_SIZE + 4 {
            Err(error::other_error("written batch is missing its operation count"@))
        } else {
            match_written(
                record,
                LOG_HEADER_SIZE + 4,
                bytes::le_u32(record, LOG_HEADER_SIZE as int) as nat,
                staged,
                Map::empty(),
            )
        },
    }
}

/// The bytes of a record that was read back, if one was.
pub open spec fn record_view(record: Option<BaseBytes>) -> Option<Seq<u8>> {
    match record {
        Some(record) => Some(record@),
        None => None,
    }
}

/// Whether the value of an entry is large.
pub open spec fn is_large(entry: Option<Seq<u8>>) -> bool {
    entry matches Some(value) && value.len() >= MAPPED_VALUE_THRESHOLD
}

/// An entry without a large value is charged by what it says.
proof fn lemma_small_charged(entry: OverlayEntry)
    requires
        !is_large(entry@),
    ensures
        entry.charge() == state::stable_charge(entry@),
{
}

/// Whether large values are held as ranges of a record.
pub open spec fn held_in(values: Seq<OverlayEntry>, record: Seq<u8>) -> bool {
    forall|i: int|
        0 <= i < values.len() && is_large((#[trigger] values[i])@) ==> is_range_of(
            values[i],
            record,
        )
}

/// Whether the value of an entry is a range of a record.
pub open spec fn is_range_of(entry: OverlayEntry, record: Seq<u8>) -> bool {
    entry matches OverlayEntry::Put(ValueBytes::Mapped { bytes, .. }) && bytes@ == record
}

/// The entries to publish for staged ones. `mapping` holds the record that was written, in
/// which large values stay.
pub fn committed_entries(staged: KeyMap<OverlayEntry>, mapping: Option<BaseBytes>) -> (result: Result<
    KeyMap<OverlayEntry>,
>)
    requires
        staged.wf(),
        state::entries_wf(staged.values()),
        mapping matches Some(mapping) ==> mapping.wf(),
    ensures
        match result {
            Ok(committed) => {
                &&& committed.wf()
                &&& state::entries_wf(committed.values())
                &&& published_outcome(staged_view(staged), record_view(mapping)) == Ok::<
                    Map<Seq<u8>, Option<Seq<u8>>>,
                    ErrorView,
                >(staged_view(committed))
                &&& mapping matches Some(mapping) ==> state::stably_charged(committed.values())
                    && held_in(committed.values(), mapping@)
                &&& mapping is None ==> committed == staged
            },
            Err(error) => published_outcome(staged_view(staged), record_view(mapping)) == Err::<
                Map<Seq<u8>, Option<Seq<u8>>>,
                ErrorView,
            >(error@),
        },
{
    let source = match mapping {
        Some(source) => source,
        None => {
            return Ok(staged);
        },
    };
    let mut rest = staged;
    let ghost all = staged_view(staged);
    let record = source.as_slice();
    assert(record@.len() == record.len());
    if record.len() < LOG_HEADER_SIZE + 4 {
        return Err(Error::other("written batch is missing its operation count"));
    }
    let count: u32 = u32_at(record, LOG_HEADER_SIZE);
    let mut cursor: usize = LOG_HEADER_SIZE + 4;
    let mut committed: KeyMap<OverlayEntry> = KeyMap::new();
    let mut i: u32 = 0;
    proof {
        assert(staged_view(committed) =~= Map::<Seq<u8>, Option<Seq<u8>>>::empty());
        committed.lemma_wf();
    }
    while i < count
        invariant
            i <= count,
            all == staged_view(staged),
            record_view(mapping) == Some(record@),
            source.wf(),
            source@ == record@,
            record@.len() == record.len(),
            cursor <= record@.len(),
            rest.wf(),
            state::entries_wf(rest.values()),
            committed.wf(),
            state::entries_wf(committed.values()),
            state::stably_charged(committed.values()),
            held_in(committed.values(), record@),
            record@.len() >= LOG_HEADER_SIZE + 4,
            count == bytes::le_u32(record@, LOG_HEADER_SIZE as int),
            published_outcome(all, Some(record@)) == match_written(
                record@,
                cursor as int,
                (count - i) as nat,
                staged_view(rest),
                staged_view(committed),
            ),
        decreases count - i,
    {
        let ghost left = rest;
        let ghost done = committed;
        if record.len() - cursor < 9 {
            return Err(Error::other("written batch has a truncated operation"));
        }
        let header_end: usize = cursor + 9;
        let key_len: usize = u32_at(record, cursor + 1) as usize;
        let value_len: usize = u32_at(record, cursor + 5) as usize;
        if key_len > record.len() - header_end {
            return Err(Error::other("written batch has a truncated key"));
        }
        let key_end: usize = header_end + key_len;
        if value_len > record.len() - key_end {
            return Err(Error::other("written batch has a truncated value"));
        }
        let value_end: usize = key_end + value_len;
        let key = copy_bytes(&record[header_end..key_end]);
        let ghost key_view = key@;
        proof {
            assert(key_view =~= recovery::operation_key(record@, cursor as int));
            left.lemma_wf();
        }
        let staged_entry = match rest.remove(key.as_slice()) {
            Some(entry) => entry,
            None => {
                return Err(
                    Error::other("written batch key is missing from staged entries"),
                );
            },
        };
        let ghost staged_value = staged_entry;
        proof {
            let j = left.lemma_entry(key_view);
            assert(left.values()[j].wf());
        }
        let entry = publish_entry(staged_entry, &source, key_end, value_end);
        let ghost entry_value = entry;
        committed.insert(key, entry);
        proof {
            lemma_left_wf(left, rest, key_view);
            lemma_done_wf(done, committed, key_view, entry_value, record@);
            assert(staged_view(rest) =~= staged_view(left).remove(key_view));
            assert(staged_view(committed) =~= staged_view(done).insert(
                key_view,
                entry_value@,
            ));
        }
        cursor = value_end;
        i += 1;
    }
    let unmatched: bool = !rest.is_empty();
    proof {
        if staged_view(rest) == Map::<Seq<u8>, Option<Seq<u8>>>::empty() {
            assert(rest@ =~= Map::<Seq<u8>, OverlayEntry>::empty()) by {
                assert(rest@.dom() =~= staged_view(rest).dom());
            }
        } else if !unmatched {
            assert(staged_view(rest) =~= Map::<Seq<u8>, Option<Seq<u8>>>::empty());
        }
    }
    if cursor != record.len() || unmatched {
        return Err(Error::other("written batch layout does not match staged entries"));
    }
    Ok(committed)
}

/// The entry to publish for a staged one, whose value was written to a range of `mapping`.
fn publish_entry(entry: OverlayEntry, mapping: &BaseBytes, start: usize, end: usize) -> (published:
    OverlayEntry)
    requires
        entry.wf(),
        mapping.wf(),
        start <= end <= mapping@.len(),
    ensures
        published.wf(),
        published@ == published_value(entry@, mapping@.subrange(start as int, end as int)),
        published.charge() == state::stable_charge(published@),
        is_large(entry@) ==> is_range_of(published, mapping@),
        !is_large(entry@) ==> published == entry,
        is_large(published@) ==> is_range_of(published, mapping@),
{
    let large: bool = match &entry {
        OverlayEntry::Put(value) => value.len() >= MAPPED_VALUE_THRESHOLD,
        OverlayEntry::Delete => false,
    };
    if large {
        OverlayEntry::Put(ValueBytes::Mapped { bytes: mapping.clone(), range: start..end })
    } else {
        proof {
            lemma_small_charged(entry);
        }
        entry
    }
}

/// What is left of well-formed entries is well formed.
proof fn lemma_left_wf(left: KeyMap<OverlayEntry>, after: KeyMap<OverlayEntry>, key: Seq<u8>)
    requires
        left.wf(),
        after.wf(),
        state::entries_wf(left.values()),
        after@ == left@.remove(key),
    ensures
        state::entries_wf(after.values()),
{
    left.lemma_wf();
    after.lemma_wf();
    assert forall|i: int| 0 <= i < after.values().len() implies (#[trigger] after.values()[i]).wf() by {
        assert(after@.contains_pair(after.keys()[i], after.values()[i]));
        let k = after.keys()[i];
        assert(left@.contains_key(k));
        let j = left.keys().index_of(k);
        assert(left.keys()[j] == k);
        assert(left@.contains_pair(left.keys()[j], left.values()[j]));
        assert(left.values()[j].wf());
    }
}

/// Well-formed entries with one more stay well formed.
proof fn lemma_done_wf(
    done: KeyMap<OverlayEntry>,
    after: KeyMap<OverlayEntry>,
    key: Seq<u8>,
    entry: OverlayEntry,
    record: Seq<u8>,
)
    requires
        done.wf(),
        after.wf(),
        state::entries_wf(done.values()),
        state::stably_charged(done.values()),
        held_in(done.values(), record),
        is_large(entry@) ==> is_range_of(entry, record),
        entry.wf(),
        entry.charge() == state::stable_charge(entry@),
        after@ == done@.insert(key, entry),
    ensures
        state::entries_wf(after.values()),
        state::stably_charged(after.values()),
        held_in(after.values(), record),
{
    done.lemma_wf();
    after.lemma_wf();
    assert forall|i: int| 0 <= i < after.values().len() implies (#[trigger] after.values()[i]).wf()
        && after.values()[i].charge() == state::stable_charge(after.values()[i]@) && (is_large(
        after.values()[i]@,
    ) ==> is_range_of(after.values()[i], record)) by {
        assert(after@.contains_pair(after.keys()[i], after.values()[i]));
        let k = after.keys()[i];
        if k != key {
            assert(done@.contains_key(k));
            let j = done.keys().index_of(k);
            assert(done.keys()[j] == k);
            assert(done@.contains_pair(done.keys()[j], done.values()[j]));
            assert(done.values()[j].wf());
        }
    }
}

/// What is said of the keys from position `i` on.
spec fn said_from(keys: Seq<Seq<u8>>, said: Map<Seq<u8>, Option<Seq<u8>>>, i: int) -> Map<
    Seq<u8>,
    Option<Seq<u8>>,
> {
    Map::new(
        |key: Seq<u8>| said.contains_key(key) && keys.index_of(key) >= i,
        |key: Seq<u8>| said[key],
    )
}

/// What is said of the keys before position `i`.
spec fn said_before(keys: Seq<Seq<u8>>, said: Map<Seq<u8>, Option<Seq<u8>>>, i: int) -> Map<
    Seq<u8>,
    Option<Seq<u8>>,
> {
    Map::new(
        |key: Seq<u8>| said.contains_key(key) && keys.index_of(key) < i,
        |key: Seq<u8>| said[key],
    )
}

proof fn lemma_match_written(
    keys: Seq<Seq<u8>>,
    values: Seq<OverlayEntry>,
    i: int,
)
    requires
        keys.no_duplicates(),
        keys.len() == values.len(),
        replay::batch_fits(log::staged_operations(keys, values)),
        0 <= i <= keys.len(),
    ensures
        ({
            let operations = log::staged_operations(keys, values);
            let said = state::overlay_view(key_map::pairs_map(keys, values));
            match_written(
                log::batch_record(operations),
                LOG_HEADER_SIZE + replay::operations_at(operations, i),
                (keys.len() - i) as nat,
                said_from(keys, said, i),
                said_before(keys, said, i),
            ) == Ok::<Map<Seq<u8>, Option<Seq<u8>>>, ErrorView>(said)
        }),
    decreases keys.len() - i,
{
    let operations = log::staged_operations(keys, values);
    let map = key_map::pairs_map(keys, values);
    let said = state::overlay_view(map);
    let record = log::batch_record(operations);
    let payload = log::batch_payload(operations);
    let at = replay::operations_at(operations, i);
    replay::lemma_batch_record_len(operations);
    log::lemma_operations_size(operations);
    log::lemma_header_len(
        log::Marker::Batch,
        0,
        payload.len() as u32,
        log::record_checksum_value(log::Marker::Batch, 0, payload.len() as u32, payload),
    );
    assert(record.subrange(LOG_HEADER_SIZE as int, record.len() as int) =~= payload);
    if i < keys.len() {
        let operation = operations[i];
        key_map::lemma_pairs_map_at(keys, values, i);
        replay::lemma_operation_at(operations, i);
        replay::lemma_read_operation(payload, at, operation);
        replay::lemma_effect_in_file(record, LOG_HEADER_SIZE as int, record.len() as int, at);
        let from = LOG_HEADER_SIZE + at;
        let key_end = from + 9 + recovery::operation_key_len(record, from);
        let value_end = recovery::operation_end(record, from);
        let index = keys.index_of(keys[i]);
        assert(keys.contains(keys[i]));
        assert(keys[index] == keys[i]);
        assert(index == i);
        let written = record.subrange(key_end, value_end);
        assert(published_value(said[keys[i]], written) == said[keys[i]]) by {
            if let Some(value) = operation.1 {
                assert(recovery::operation_effect(record, from) == Some(written));
            }
        }
        assert forall|k: Seq<u8>| keys.contains(k) && keys.index_of(k) == i implies k
            == keys[i] by {
            assert(keys[keys.index_of(k)] == k);
        }
        assert(said_from(keys, said, i).remove(keys[i]) =~= said_from(keys, said, i + 1));
        assert(said_before(keys, said, i).insert(keys[i], said[keys[i]]) =~= said_before(
            keys,
            said,
            i + 1,
        ));
        lemma_match_written(keys, values, i + 1);
    } else {
        assert(operations.take(i) =~= operations);
        assert forall|k: Seq<u8>| keys.contains(k) implies keys.index_of(k) < i by {
            assert(keys[keys.index_of(k)] == k);
        }
        assert(said_from(keys, said, i) =~= Map::<Seq<u8>, Option<Seq<u8>>>::empty());
        assert(said_before(keys, said, i) =~= said);
    }
}

/// Reading back the record that was written for a commit publishes exactly what was staged.
pub proof fn law_written_record_publishes_what_was_staged(staged: KeyMap<OverlayEntry>)
    requires
        staged.wf(),
        replay::batch_fits(operations_of(staged)),
    ensures
        published_outcome(
            staged_view(staged),
            Some(log::batch_record(operations_of(staged))),
        ) == Ok::<Map<Seq<u8>, Option<Seq<u8>>>, ErrorView>(staged_view(staged)),
{
    broadcast use bytes::lemma_u32_bytes_len;

    staged.lemma_wf();
    let keys = staged.keys();
    let values = staged.values();
    let operations = operations_of(staged);
    let said = staged_view(staged);
    let record = log::batch_record(operations);
    let payload = log::batch_payload(operations);
    lemma_match_written(keys, values, 0);
    assert(operations.take(0) =~= Seq::empty());
    assert forall|k: Seq<u8>| keys.contains(k) implies 0 <= keys.index_of(k) by {
        assert(keys[keys.index_of(k)] == k);
    }
    assert(said_from(keys, said, 0) =~= said);
    assert(said_before(keys, said, 0) =~= Map::<Seq<u8>, Option<Seq<u8>>>::empty());
    replay::lemma_batch_record_len(operations);
    log::lemma_operations_size(operations);
    log::lemma_header_len(
        log::Marker::Batch,
        0,
        payload.len() as u32,
        log::record_checksum_value(log::Marker::Batch, 0, payload.len() as u32, payload),
    );
    assert(record.subrange(17, 21) =~= bytes::u32_bytes(operations.len() as u32));
    bytes::lemma_le_u32_of_bytes(record, 17, operations.len() as u32);
}

/// Whether staged mutations are well formed and within the limits of the format.
pub open spec fn staged_ok(staged: KeyMap<OverlayEntry>) -> bool {
    &&& staged.wf()
    &&& state::entries_wf(staged.values())
    &&& live::overlay_fits(staged_view(staged))
}

/// What is staged within the limits of the format fits into a batch, where its size does.
pub proof fn lemma_staged_batch_fits(staged: KeyMap<OverlayEntry>)
    requires
        staged_ok(staged),
        log::payload_len_outcome(operations_of(staged)) is Ok,
    ensures
        replay::batch_fits(operations_of(staged)),
{
    let operations = operations_of(staged);
    let said = staged_view(staged);
    staged.lemma_wf();
    assert forall|i: int| 0 <= i < operations.len() implies segment::lengths_fit(
        (#[trigger] operations[i]).0.len() as int,
        log::operation_value(operations[i].1).len() as int,
    ) by {
        key_map::lemma_pairs_map_at(staged.keys(), staged.values(), i);
        assert(said.contains_key(staged.keys()[i]));
        assert(said[staged.keys()[i]] == staged.values()[i]@);
    }
}

/// A commit on its way into a file.
pub struct FileCommit {
    staged: KeyMap<OverlayEntry>,
    record: Vec<u8>,
    offset: u64,
}

impl FileCommit {
    pub closed spec fn wf(self) -> bool {
        &&& self.staged.wf()
        &&& state::entries_wf(self.staged.values())
    }

    /// The entries to publish.
    pub closed spec fn entries(self) -> KeyMap<OverlayEntry> {
        self.staged
    }

    /// Whether the record is the one for what the commit says.
    pub open spec fn is_recorded(self) -> bool {
        &&& replay::batch_fits(operations_of(self.entries()))
        &&& self.record_bytes() == log::batch_record(operations_of(self.entries()))
        &&& self.says() == staged_view(self.entries())
    }

    /// What the commit says of the keys.
    pub closed spec fn says(self) -> Map<Seq<u8>, Option<Seq<u8>>> {
        staged_view(self.staged)
    }

    /// The record to append.
    pub closed spec fn record_bytes(self) -> Seq<u8> {
        self.record@
    }

    /// The length of the file before the commit, to which a commit that fails cuts it.
    pub closed spec fn start(self) -> u64 {
        self.offset
    }

    /// The record to append.
    pub fn record(&self) -> (record: &[u8])
        ensures
            record@ == self.record_bytes(),
    {
        self.record.as_slice()
    }

    /// Where the record is appended. A commit that fails cuts the file to this length.
    pub fn offset(&self) -> (offset: u64)
        ensures
            offset == self.start(),
    {
        self.offset
    }

    /// Whether a value is large enough to stay in the file, so that the record has to be read
    /// back.
    pub fn needs_mapping(&self) -> (yes: bool)
        requires
            self.wf(),
        ensures
            yes == (exists|key: Seq<u8>| #[trigger]
                self.says().contains_key(key) && is_large(self.says()[key])),
            !yes ==> state::stably_charged(self.entries().values()),
    {
        let mut i: usize = 0;
        proof {
            self.staged.lemma_wf();
        }
        while i < self.staged.len()
            invariant
                i <= self.staged.keys().len(),
                self.staged.keys().len() == self.staged.values().len(),
                self.wf(),
                forall|j: int| 0 <= j < i ==> !is_large((#[trigger] self.staged.values()[j])@),
            decreases self.staged.keys().len() - i,
        {
            let (key, entry) = self.staged.entry_at(i);
            if let OverlayEntry::Put(value) = entry {
                if value.len() >= MAPPED_VALUE_THRESHOLD {
                    assert(self.says().contains_key(key@) && is_large(self.says()[key@]));
                    return true;
                }
            }
            i += 1;
        }
        proof {
            assert forall|key: Seq<u8>| #[trigger] self.says().contains_key(key) implies !is_large(
                self.says()[key],
            ) by {
                let j = self.staged.lemma_entry(key);
                assert(!is_large(self.staged.values()[j]@));
            }
            assert forall|j: int| 0 <= j < self.staged.values().len() implies (
            #[trigger] self.staged.values()[j]).charge() == state::stable_charge(
                self.staged.values()[j]@,
            ) by {
                lemma_small_charged(self.staged.values()[j]);
            }
        }
        false
    }
}

/// Two ways to say the same over what was said before.
proof fn lemma_said_insert(
    said: Map<Seq<u8>, Option<Seq<u8>>>,
    more: Map<Seq<u8>, Option<Seq<u8>>>,
    key: Seq<u8>,
    value: Option<Seq<u8>>,
)
    ensures
        said_after(said, more).insert(key, value) == said_after(said, more.insert(key, value)),
{
    assert(said_after(said, more).insert(key, value) =~= said_after(
        said,
        more.insert(key, value),
    ));
}

impl Database {
    /// The size of the record of a commit that can be made, or why it cannot.
    pub open spec fn commit_check(
        self,
        operations: Seq<(Seq<u8>, Option<Seq<u8>>)>,
    ) -> std::result::Result<int, ErrorView> {
        if self.health() != HandleState::Healthy {
            Err(ErrorView::Poisoned)
        } else {
            match log::payload_len_outcome(operations) {
                Err(error) => Err(error),
                Ok(len) => match self.capacity_outcome(LOG_HEADER_SIZE + len) {
                    Err(error) => Err(error),
                    Ok(_) => Ok(LOG_HEADER_SIZE + len),
                },
            }
        }
    }

    /// Whether the database differs from another at most in what the Overlay says, which is
    /// what was said before and then what was staged.
    pub open spec fn publishes(
        self,
        before: Database,
        staged: Map<Seq<u8>, Option<Seq<u8>>>,
    ) -> bool {
        &&& self.wf()
        &&& self.base_part() == before.base_part()
        &&& self.settings() == before.settings()
        &&& self.health() == before.health()
        &&& self.overlay_part()@ == said_after(before.overlay_part()@, staged)
        &&& self.contents() == live::merged(before.contents(), staged)
        &&& before.sound() && live::overlay_fits(staged) ==> self.sound()
    }

    /// Whether the memory charged to the Overlay is still that of its entries, where it was
    /// before and a machine word has room for it; and whether it still depends on what the
    /// entries say alone, where that holds of the entries from before and of those that were
    /// published.
    pub open spec fn keeps_charges(self, before: Database, entries: KeyMap<OverlayEntry>) -> bool {
        &&& before.overlay_part().charged() && before.overlay_part().charge() + state::total_charge(
            entries.keys(),
            entries.values(),
        ) <= usize::MAX ==> self.overlay_part().charged()
        &&& before.overlay_part().stable() && state::stably_charged(entries.values())
            ==> self.overlay_part().stable()
    }

    /// Publishes entries.
    fn publish(&mut self, entries: KeyMap<OverlayEntry>)
        requires
            old(self).wf(),
            entries.wf(),
            state::entries_wf(entries.values()),
            old(self).storage_part() is Memory ==> live::overlay_fits(staged_view(entries)),
        ensures
            final(self).publishes(*old(self), staged_view(entries)),
            final(self).keeps_charges(*old(self), entries),
            final(self).storage == old(self).storage,
    {
        let ghost keys = entries.keys();
        let ghost values = entries.values();
        let ghost before = *self;
        let ghost all = staged_view(entries);
        proof {
            entries.lemma_wf();
        }
        let mut rest = entries.into_entries();
        let ghost count = rest@.len();
        proof {
            assert(key_map::keys_of(rest@) == keys);
            assert(keys.len() == rest@.len());
            assert(keys.skip(count as int) =~= Seq::empty());
            assert(values.skip(count as int) =~= Seq::empty());
            let none = state::overlay_view(
                key_map::pairs_map(keys.skip(count as int), values.skip(count as int)),
            );
            assert(said_after(before.overlay@, none) =~= before.overlay@);
            assert(keys.take(count as int) =~= keys);
            assert(values.take(count as int) =~= values);
        }
        let ghost before_charge = before.overlay.charge();
        let ghost staged_charge = state::total_charge(keys, values);
        let ghost fits = before.overlay.charged() && before_charge + staged_charge <= usize::MAX;
        let ghost stable = before.overlay.stable() && state::stably_charged(values);
        loop
            invariant
                self.overlay.charge() + state::total_charge(
                    keys.take(rest@.len() as int),
                    values.take(rest@.len() as int),
                ) <= before_charge + staged_charge,
                fits ==> before_charge + staged_charge <= usize::MAX && self.overlay.charged(),
                stable ==> state::stably_charged(values) && self.overlay.stable(),
                self.overlay.wf(),
                self.storage == before.storage,
                self.base == before.base,
                self.options == before.options,
                self.state == before.state,
                keys.no_duplicates(),
                keys.len() == values.len(),
                keys.len() == count,
                state::entries_wf(values),
                rest@.len() <= count,
                key_map::keys_of(rest@) == keys.take(rest@.len() as int),
                key_map::values_of(rest@) == values.take(rest@.len() as int),
                self.overlay@ == said_after(
                    before.overlay@,
                    state::overlay_view(
                        key_map::pairs_map(
                            keys.skip(rest@.len() as int),
                            values.skip(rest@.len() as int),
                        ),
                    ),
                ),
            ensures
                rest@.len() == 0,
            decreases rest@.len(),
        {
            let ghost n = rest@.len() as int;
            match rest.pop() {
                None => {
                    break;
                },
                Some((key, entry)) => {
                    let ghost i = n - 1;
                    proof {
                        assert(key_map::keys_of(rest@.push((key, entry)))[i] == key@);
                        assert(keys.take(n)[i] == keys[i]);
                        assert(values.take(n)[i] == values[i]);
                        assert(key@ == keys[i]);
                        assert(entry == values[i]);
                        assert(key_map::keys_of(rest@) =~= keys.take(i));
                        assert(key_map::values_of(rest@) =~= values.take(i));
                        assert(keys.take(n).drop_last() =~= keys.take(i));
                        assert(values.take(n).drop_last() =~= values.take(i));
                        state::lemma_charge_nonnegative(keys.take(i), values.take(i));
                        lemma_said_one_more(keys, values, i);
                        lemma_said_insert(
                            before.overlay@,
                            state::overlay_view(
                                key_map::pairs_map(keys.skip(n), values.skip(n)),
                            ),
                            keys[i],
                            values[i]@,
                        );
                    }
                    self.overlay.set(key, entry);
                },
            }
        }
        proof {
            assert(keys.skip(0) =~= keys);
            assert(values.skip(0) =~= values);
            law_commit_updates_the_contents(
                lookup::entries_map(before.base.entries()),
                before.overlay@,
                all,
            );
        }
    }

    /// Commits to an image in memory.
    pub(crate) fn commit_staged_memory(&mut self, staged: KeyMap<OverlayEntry>) -> (result: Result<()>)
        requires
            old(self).wf(),
            old(self).storage_part() is Memory,
            staged_ok(staged),
        ensures
            old(self).commits_in_memory(staged, error::outcome(result), *final(self)),
    {
        match self.ensure_writable() {
            Ok(()) => {},
            Err(error) => {
                return Err(error);
            },
        }
        if staged.is_empty() {
            return Ok(());
        }
        let payload_len: u32 = match batch_payload_len(&staged) {
            Ok(len) => len,
            Err(error) => {
                return Err(error);
            },
        };
        let record_len: u64 = LOG_HEADER_SIZE as u64 + payload_len as u64;
        match self.ensure_capacity(record_len) {
            Ok(()) => {},
            Err(error) => {
                return Err(error);
            },
        }
        match self.storage.extend_memory_log(record_len) {
            Ok(()) => {},
            Err(error) => {
                return Err(error);
            },
        }
        self.publish(staged);
        Ok(())
    }

    /// Whether `result` is what committing in memory gives, and `after` what it makes of the
    /// database.
    pub open spec fn commits_in_memory(
        self,
        staged: KeyMap<OverlayEntry>,
        result: std::result::Result<(), ErrorView>,
        after: Database,
    ) -> bool {
        if self.health() == HandleState::Healthy && staged.keys().len() == 0 {
            result == Ok::<(), ErrorView>(()) && after == self
        } else {
            match self.commit_check(operations_of(staged)) {
                Err(error) => result == Err::<(), ErrorView>(error) && after == self,
                Ok(len) => {
                    &&& result == Ok::<(), ErrorView>(())
                    &&& after.publishes(self, staged_view(staged))
                    &&& after.keeps_charges(self, staged)
                    &&& after.storage_part() is Memory
                    &&& after.storage_part().size() == self.storage_part().size() + len
                },
            }
        }
    }

    /// Gives up on a file that a commit was being written to: no more writes, and the file is
    /// to be cut to where the commit started.
    pub(crate) fn poison(&mut self, offset: u64)
        requires
            old(self).wf(),
            old(self).storage_part() is File,
        ensures
            final(self).gave_up(*old(self), offset),
    {
        self.state = HandleState::WritePoisoned;
        match self.storage.set_len(offset) {
            Ok(()) => {},
            Err(_) => {},
        }
    }

    /// Whether the database differs from another only in that no more can be written, and in
    /// the length of the file.
    pub open spec fn gave_up(self, before: Database, offset: u64) -> bool {
        &&& self.wf()
        &&& self.base_part() == before.base_part()
        &&& self.overlay_part() == before.overlay_part()
        &&& self.settings() == before.settings()
        &&& self.health() == HandleState::WritePoisoned
        &&& self.storage_part() is File
        &&& self.storage_part().size() == offset
    }

    /// Starts to commit to a file. Nothing staged leaves nothing to do.
    pub fn start_commit(&self, staged: KeyMap<OverlayEntry>, value_checksums: &KeyMap<u32>) -> (result:
        Result<Option<FileCommit>>)
        requires
            self.wf(),
            self.storage_part() is File,
            staged_ok(staged),
            value_checksums.wf(),
            log::checksums_agree(staged@, value_checksums@),
        ensures
            match result {
                Ok(None) => self.health() == HandleState::Healthy && staged.keys().len() == 0,
                Ok(Some(commit)) => {
                    &&& staged.keys().len() > 0
                    &&& self.commit_check(operations_of(staged)) == Ok::<int, ErrorView>(
                        commit.record_bytes().len() as int,
                    )
                    &&& commit.wf()
                    &&& commit.entries() == staged
                    &&& commit.is_recorded()
                    &&& commit.says() == staged_view(staged)
                    &&& commit.record_bytes() == log::batch_record(operations_of(staged))
                    &&& commit.start() == self.storage_part().size()
                },
                Err(error) => !(self.health() == HandleState::Healthy && staged.keys().len() == 0)
                    && self.commit_check(operations_of(staged)) == Err::<int, ErrorView>(error@),
            },
    {
        match self.ensure_writable() {
            Ok(()) => {},
            Err(error) => {
                return Err(error);
            },
        }
        if staged.is_empty() {
            return Ok(None);
        }
        let payload_len: u32 = match batch_payload_len(&staged) {
            Ok(len) => len,
            Err(error) => {
                return Err(error);
            },
        };
        let record_len: u64 = LOG_HEADER_SIZE as u64 + payload_len as u64;
        match self.ensure_capacity(record_len) {
            Ok(()) => {},
            Err(error) => {
                return Err(error);
            },
        }
        let offset: u64 = self.storage.len();
        let mut record: Vec<u8> = Vec::new();
        match write_batch_record_with_checksums(&mut record, &staged, value_checksums) {
            Ok(()) => {},
            Err(error) => {
                return Err(error);
            },
        }
        proof {
            let bytes = log::batch_record(operations_of(staged));
            assert(record@ =~= bytes);
            replay::lemma_batch_record_len(operations_of(staged));
            lemma_staged_batch_fits(staged);
        }
        Ok(Some(FileCommit { staged, record, offset }))
    }

    /// Goes on after the record of a commit was appended, or could not be.
    pub fn commit_appended(&mut self, commit: FileCommit, appended: Result<()>) -> (result: Result<
        FileCommit,
    >)
        requires
            old(self).wf(),
            old(self).storage_part() is File,
            commit.wf(),
            commit.start() + commit.record_bytes().len() <= u64::MAX,
        ensures
            match (appended, result) {
                (Ok(_), Ok(next)) => {
                    &&& next == commit
                    &&& final(self).wf()
                    &&& final(self).base_part() == old(self).base_part()
                    &&& final(self).overlay_part() == old(self).overlay_part()
                    &&& final(self).settings() == old(self).settings()
                    &&& final(self).health() == old(self).health()
                    &&& final(self).storage_part() is File
                    &&& final(self).storage_part().size() == commit.start()
                        + commit.record_bytes().len()
                },
                (Err(failure), Err(error)) => error == failure && final(self).gave_up(
                    *old(self),
                    commit.start(),
                ),
                _ => false,
            },
    {
        match appended {
            Ok(()) => {
                match self.storage.set_len(commit.offset + commit.record.len() as u64) {
                    Ok(()) => {},
                    Err(_) => {},
                }
                Ok(commit)
            },
            Err(error) => {
                self.poison(commit.offset);
                Err(error)
            },
        }
    }

    /// Goes on after the record of a commit was read back, or could not be. Large values then
    /// stay in what was read.
    pub fn commit_mapped(&mut self, commit: FileCommit, mapped: Result<Vec<u8>>) -> (result: Result<
        FileCommit,
    >)
        requires
            old(self).wf(),
            old(self).storage_part() is File,
            commit.wf(),
        ensures
            match mapped {
                Err(failure) => error::outcome(result) == Err::<FileCommit, ErrorView>(failure@)
                    && final(self).gave_up(*old(self), commit.start()),
                Ok(bytes) => match published_outcome(commit.says(), Some(bytes@)) {
                    Err(failure) => error::outcome(result) == Err::<FileCommit, ErrorView>(
                        failure,
                    ) && final(self).gave_up(*old(self), commit.start()),
                    Ok(published) => {
                        &&& *final(self) == *old(self)
                        &&& result matches Ok(next)
                        &&& next.says() == published
                        &&& next.start() == commit.start()
                        &&& next.record_bytes() == commit.record_bytes()
                        &&& state::stably_charged(next.entries().values())
                        &&& held_in(next.entries().values(), bytes@)
                        &&& next.wf()
                    },
                },
            },
            mapped matches Ok(bytes) && commit.is_recorded() && bytes@ == commit.record_bytes() ==> (
            result matches Ok(next) && next.wf() && next.says() == commit.says()),
    {
        let bytes = match mapped {
            Ok(bytes) => bytes,
            Err(error) => {
                self.poison(commit.offset);
                return Err(error);
            },
        };
        proof {
            if commit.is_recorded() && bytes@ == commit.record_bytes() {
                law_written_record_publishes_what_was_staged(commit.staged);
            }
        }
        let offset: u64 = commit.offset;
        let record = commit.record;
        match committed_entries(commit.staged, Some(BaseBytes::Mapped(Arc::new(bytes)))) {
            Ok(staged) => Ok(FileCommit { staged, record, offset }),
            Err(error) => {
                self.poison(offset);
                Err(error)
            },
        }
    }

    /// Ends a commit after the file was synced, or could not be.
    pub fn commit_synced(&mut self, commit: FileCommit, synced: Result<()>) -> (result: Result<()>)
        requires
            old(self).wf(),
            old(self).storage_part() is File,
            commit.wf(),
        ensures
            match (synced, result) {
                (Ok(_), Ok(_)) => final(self).publishes(*old(self), commit.says())
                    && final(self).keeps_charges(*old(self), commit.entries())
                    && final(self).storage_part() == old(self).storage_part(),
                (Err(failure), Err(error)) => error == failure && final(self).gave_up(
                    *old(self),
                    commit.start(),
                ),
                _ => false,
            },
    {
        match synced {
            Ok(()) => {
                self.publish(commit.staged);
                Ok(())
            },
            Err(error) => {
                self.poison(commit.offset);
                Err(error)
            },
        }
    }
}

/// Whether `result` is what committing `staged` can end with, in memory or in a file, and
/// `after` what it makes of a database. A file that the commit could not be written to takes
/// no more writes.
pub open spec fn commit_ends(
    before: Database,
    staged: KeyMap<OverlayEntry>,
    result: std::result::Result<(), ErrorView>,
    after: Database,
) -> bool {
    if before.storage_part() is Memory {
        before.commits_in_memory(staged, result, after)
    } else {
        match result {
            Ok(_) => if staged.keys().len() == 0 {
                after == before
            } else {
                after.publishes(before, staged_view(staged))
            },
            Err(_) => after == before || exists|offset: u64| #[trigger]
                after.gave_up(before, offset),
        }
    }
}

/// A commit is atomic, in memory and in a file. Where it succeeded, every key that was staged
/// reads as it was staged, and every other key as before; where it failed, every key reads as
/// before; and a commit of nothing changes nothing.
pub proof fn law_commit_is_atomic(
    before: Database,
    staged: KeyMap<OverlayEntry>,
    result: std::result::Result<(), ErrorView>,
    after: Database,
    key: Seq<u8>,
    found: std::result::Result<Option<Seq<u8>>, ErrorView>,
)
    requires
        before.wf(),
        before.health() != HandleState::Unavailable,
        staged.wf(),
        commit_ends(before, staged, result, after),
    ensures
        result is Ok && staged_view(staged).contains_key(key) ==> (after.can_get(key, found)
            <==> found == Ok::<Option<Seq<u8>>, ErrorView>(staged_view(staged)[key])),
        result is Ok && !staged_view(staged).contains_key(key) ==> (after.can_get(key, found)
            <==> before.can_get(key, found)),
        result is Err ==> (after.can_get(key, found) <==> before.can_get(key, found)),
        result is Ok && staged.keys().len() == 0 ==> after.statistics() == before.statistics(),
{
    staged.lemma_wf();
    assert(staged_view(staged).dom() =~= staged@.dom());
    if before.base_part().sound() {
        super::lemma_sound_read(before.base_part(), before.overlay_part()@, key, true);
        super::lemma_sound_read(before.base_part(), before.overlay_part()@, key, false);
        super::lemma_sound_read(after.base_part(), after.overlay_part()@, key, true);
        super::lemma_sound_read(after.base_part(), after.overlay_part()@, key, false);
    }
}

/// Saying one more of distinct keys.
proof fn lemma_said_one_more(keys: Seq<Seq<u8>>, values: Seq<OverlayEntry>, i: int)
    requires
        keys.no_duplicates(),
        keys.len() == values.len(),
        0 <= i < keys.len(),
    ensures
        state::overlay_view(key_map::pairs_map(keys.skip(i), values.skip(i))) == state::overlay_view(
            key_map::pairs_map(keys.skip(i + 1), values.skip(i + 1)),
        ).insert(keys[i], values[i]@),
{
    let k = keys.skip(i);
    let v = values.skip(i);
    let k1 = keys.skip(i + 1);
    let v1 = values.skip(i + 1);
    let left = state::overlay_view(key_map::pairs_map(k, v));
    let right = state::overlay_view(key_map::pairs_map(k1, v1)).insert(keys[i], values[i]@);
    assert(k.no_duplicates());
    assert(k1.no_duplicates());
    assert forall|key: Seq<u8>|
        #![trigger left.dom().contains(key)]
        #![trigger right.dom().contains(key)]
        #![trigger left[key]]
        left.dom().contains(key) == right.dom().contains(key) && (left.dom().contains(key)
            ==> left[key] == right[key]) by {
        if k.contains(key) {
            let j = k.index_of(key);
            assert(k[j] == key);
            key_map::lemma_pairs_map_at(k, v, j);
            if j > 0 {
                assert(k1[j - 1] == key);
                key_map::lemma_pairs_map_at(k1, v1, j - 1);
                assert(keys[i] != keys[i + j]);
            }
        }
        if k1.contains(key) {
            let j = k1.index_of(key);
            assert(k1[j] == key);
            assert(k[j + 1] == key);
        }
        assert(k[0] == keys[i]);
    }
    assert(left =~= right);
}

} // verus!
