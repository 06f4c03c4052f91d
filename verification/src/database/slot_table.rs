//! A table of positions, found by hash, in a `hashbrown::HashTable`.

use crate::bytes::same_bytes;
use crate::hash;
use crate::hash::xxh3_64;
use hashbrown::HashTable;
use vstd::prelude::*;

verus! {

/// A hash table whose items are positions in a list of entries. Each position is
/// stored under the hash of the key at that position.
#[verifier::external_body]
pub struct SlotTable {
    table: HashTable<usize>,
}

/// The positions in the table, each with the hash under which it was inserted.
pub uninterp spec fn slot_table_contents(table: SlotTable) -> Map<usize, u64>;

/// Whether the entry at `position` has the given key.
pub open spec fn has_key<V>(entries: Seq<(Vec<u8>, V)>, position: usize, key: Seq<u8>) -> bool {
    position < entries.len() && entries[position as int].0@ == key
}

/// Whether every position in the table is stored under the hash of its key.
pub open spec fn hashes_agree<V>(table: SlotTable, entries: Seq<(Vec<u8>, V)>) -> bool {
    forall|position: usize| #[trigger]
        slot_table_contents(table).contains_key(position) ==> position < entries.len()
            && slot_table_contents(table)[position] == hash::xxh3_64_value(
            entries[position as int].0@,
        )
}

/// Whether the entry at `position` has the given key.
fn entry_has_key<V>(entries: &Vec<(Vec<u8>, V)>, position: usize, key: &[u8]) -> (yes: bool)
    ensures
        yes == has_key(entries@, position, key@),
{
    position < entries.len() && same_bytes(entries[position].0.as_slice(), key)
}

/// The hash of the key at `position`.
fn entry_hash<V>(entries: &Vec<(Vec<u8>, V)>, position: usize) -> (hash: u64)
    requires
        position < entries@.len(),
    ensures
        hash == hash::xxh3_64_value(entries@[position as int].0@),
{
    xxh3_64(entries[position].0.as_slice())
}

/// Whether two positions are the same.
fn is_position(item: usize, position: usize) -> (same: bool)
    ensures
        same == (item == position),
{
    item == position
}

impl SlotTable {
    /// Calls `HashTable::new`, which makes an empty table.
    #[verifier::external_body]
    pub(crate) fn new() -> (table: Self)
        ensures
            slot_table_contents(table).dom() == Set::<usize>::empty(),
    {
        SlotTable { table: HashTable::new() }
    }

    /// Calls `HashTable::find` with the equality of keys. What it returns is a position
    /// in the table whose entry has the key. It returns none only if no position
    /// stored under this hash has the key; positions stored under other hashes may or
    /// may not be looked at.
    #[verifier::external_body]
    pub(crate) fn find<V>(&self, hash: u64, entries: &Vec<(Vec<u8>, V)>, key: &[u8]) -> (found: Option<
        usize,
    >)
        ensures
            match found {
                Some(position) => slot_table_contents(*self).contains_key(position) && has_key(
                    entries@,
                    position,
                    key@,
                ),
                None => forall|position: usize| #[trigger]
                    slot_table_contents(*self).contains_pair(position, hash) ==> !has_key(
                        entries@,
                        position,
                        key@,
                    ),
            },
    {
        self.table.find(hash, |position| entry_has_key(entries, *position, key)).copied()
    }

    /// Calls `HashTable::insert_unique`, which adds the position under the hash. Positions
    /// that move while the table grows are hashed again, which gives the hash under
    /// which they are stored.
    #[verifier::external_body]
    pub(crate) fn insert<V>(&mut self, hash: u64, position: usize, entries: &Vec<(Vec<u8>, V)>)
        requires
            hashes_agree(*old(self), entries@),
            !slot_table_contents(*old(self)).contains_key(position),
            position < entries@.len(),
            hash == hash::xxh3_64_value(entries@[position as int].0@),
        ensures
            slot_table_contents(*final(self)) == slot_table_contents(*old(self)).insert(
                position,
                hash,
            ),
    {
        self.table.insert_unique(hash, position, |position| entry_hash(entries, *position));
    }

    /// Calls `HashTable::find_entry` for the position under its hash, and removes what was
    /// found.
    #[verifier::external_body]
    pub(crate) fn remove(&mut self, hash: u64, position: usize)
        requires
            slot_table_contents(*old(self)).contains_pair(position, hash),
        ensures
            slot_table_contents(*final(self)) == slot_table_contents(*old(self)).remove(position),
    {
        if let Ok(entry) = self.table.find_entry(hash, |item| is_position(*item, position)) {
            entry.remove();
        }
    }

    /// Calls `HashTable::try_reserve`. Room for nothing more is always had, and room for more
    /// positions than a machine word can count never; otherwise whether the memory could
    /// be had is for the allocator to say. What the table holds does not change. Positions
    /// that move are hashed again, as they are for an insertion.
    #[verifier::external_body]
    pub(crate) fn try_reserve<V>(&mut self, additional: usize, entries: &Vec<(Vec<u8>, V)>) -> (reserved:
        bool)
        requires
            hashes_agree(*old(self), entries@),
        ensures
            slot_table_contents(*final(self)) == slot_table_contents(*old(self)),
            additional == 0 ==> reserved,
            reserved ==> slot_table_contents(*old(self)).dom().len() + additional <= usize::MAX,
    {
        self.table.try_reserve(additional, |position| entry_hash(entries, *position)).is_ok()
    }

    /// Calls `HashTable::clone`, which copies every position under its hash.
    #[verifier::external_body]
    pub(crate) fn duplicate(&self) -> (copy: Self)
        ensures
            slot_table_contents(copy) == slot_table_contents(*self),
    {
        SlotTable { table: self.table.clone() }
    }
}

} // verus!
