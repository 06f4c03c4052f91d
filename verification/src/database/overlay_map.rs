//! A map keyed by byte strings, hashed as Base keys are.

use crate::bytes::copy_bytes;
use crate::database::slot_table;
use crate::database::slot_table::SlotTable;
use crate::hash;
use crate::hash::xxh3_64;
use crate::key_map;
use vstd::prelude::*;

verus! {

/// A map whose keys are found by the hash that a Base uses.
pub struct OverlayMap<V> {
    table: SlotTable,
    entries: Vec<(Vec<u8>, V)>,
}

/// Calls `reserve` on `table`. What comes back is what that call returned.
fn ask_slots<V, F: FnOnce(&mut SlotTable, usize, &Vec<(Vec<u8>, V)>) -> bool>(
    reserve: F,
    table: &mut SlotTable,
    additional: usize,
    entries: &Vec<(Vec<u8>, V)>,
) -> (answer: bool)
    requires
        forall|lent: &mut SlotTable|
            *lent == *old(table) ==> #[trigger] reserve.requires((lent, additional, entries)),
    ensures
        exists|lent: &mut SlotTable|
            #![trigger reserve.ensures((lent, additional, entries), answer)]
            reserve.ensures((lent, additional, entries), answer) && *lent == *old(table)
                && *final(lent) == *final(table),
{
    reserve(table, additional, entries)
}

impl<V> View for OverlayMap<V> {
    type V = Map<Seq<u8>, V>;

    open spec fn view(&self) -> Map<Seq<u8>, V> {
        key_map::pairs_map(self.keys(), self.values())
    }
}

impl<V> OverlayMap<V> {
    /// The keys, in the order of the entries.
    pub closed spec fn keys(self) -> Seq<Seq<u8>> {
        key_map::keys_of(self.entries@)
    }

    /// The values, in the order of the entries.
    pub closed spec fn values(self) -> Seq<V> {
        key_map::values_of(self.entries@)
    }

    /// The table holds the position of every entry, under the hash of its key, and
    /// nothing else; and no key occurs twice.
    pub closed spec fn wf(self) -> bool {
        let contents = slot_table::slot_table_contents(self.table);
        &&& slot_table::hashes_agree(self.table, self.entries@)
        &&& forall|i: int|
            0 <= i < self.entries@.len() ==> #[trigger] contents.contains_pair(
                i as usize,
                hash::xxh3_64_value(self.entries@[i].0@),
            )
        &&& key_map::keys_of(self.entries@).no_duplicates()
    }

    /// Keys are listed once, beside their values.
    pub proof fn lemma_wf(self)
        requires
            self.wf(),
        ensures
            self.keys().no_duplicates(),
            self.keys().len() == self.values().len(),
            self.keys().len() <= usize::MAX,
            self@.dom().finite(),
            self@.dom().len() == self.keys().len(),
            forall|i: int|
                0 <= i < self.keys().len() ==> #[trigger] self@.contains_pair(
                    self.keys()[i],
                    self.values()[i],
                ),
    {
        assert(self.entries@.len() == self.entries.len());
        key_map::lemma_pairs_map_len(self.keys(), self.values());
        assert forall|i: int| 0 <= i < self.keys().len() implies #[trigger] self@.contains_pair(
            self.keys()[i],
            self.values()[i],
        ) by {
            key_map::lemma_pairs_map_at(self.keys(), self.values(), i);
        }
    }

    /// The table holds as many positions as there are entries.
    proof fn lemma_indexed_len(self)
        requires
            self.wf(),
            self.entries@.len() <= usize::MAX,
        ensures
            slot_table::slot_table_contents(self.table).dom().len() == self.keys().len(),
    {
        let contents = slot_table::slot_table_contents(self.table);
        let positions = Seq::new(self.entries@.len(), |i: int| i as usize);
        assert forall|position: usize| contents.dom().contains(position)
            == #[trigger] positions.to_set().contains(position) by {
            if contents.contains_key(position) {
                assert(positions[position as int] == position);
            }
            if positions.contains(position) {
                let i = positions.index_of(position);
                assert(contents.contains_pair(
                    i as usize,
                    hash::xxh3_64_value(self.entries@[i].0@),
                ));
            }
        }
        assert(contents.dom() =~= positions.to_set());
        assert(positions.no_duplicates());
        positions.unique_seq_to_set();
    }

    /// An empty map.
    pub fn new() -> (map: Self)
        ensures
            map.wf(),
            map.keys() == Seq::<Seq<u8>>::empty(),
            map.values() == Seq::<V>::empty(),
            map@ == Map::<Seq<u8>, V>::empty(),
    {
        let map = OverlayMap { table: SlotTable::new(), entries: Vec::new() };
        proof {
            assert(map.keys() =~= Seq::<Seq<u8>>::empty());
            assert(map.values() =~= Seq::<V>::empty());
            assert(map@ =~= Map::<Seq<u8>, V>::empty());
        }
        map
    }

    /// The value of `key`.
    pub fn get(&self, key: &[u8]) -> (value: Option<&V>)
        requires
            self.wf(),
        ensures
            match value {
                Some(value) => self@.contains_pair(key@, *value),
                None => !self@.contains_key(key@),
            },
    {
        self.get_hashed(key, xxh3_64(key))
    }

    /// The value of `key`, where the caller has its hash. With another hash than that of
    /// the key, a key that is present may be missed.
    pub fn get_hashed(&self, key: &[u8], hash: u64) -> (value: Option<&V>)
        requires
            self.wf(),
        ensures
            match value {
                Some(value) => self@.contains_pair(key@, *value),
                None => hash == hash::xxh3_64_value(key@) ==> !self@.contains_key(key@),
            },
    {
        proof {
            self.lemma_wf();
        }
        match self.table.find(hash, &self.entries, key) {
            Some(position) => {
                assert(self@.contains_pair(
                    self.keys()[position as int],
                    self.values()[position as int],
                ));
                Some(&self.entries[position].1)
            },
            None => {
                proof {
                    if hash == hash::xxh3_64_value(key@) && self@.contains_key(key@) {
                        let i = self.keys().index_of(key@);
                        assert(self.keys()[i] == key@);
                        assert(self.entries@.len() == self.entries.len());
                        assert(slot_table::slot_table_contents(self.table).contains_pair(
                            i as usize,
                            hash::xxh3_64_value(self.entries@[i].0@),
                        ));
                        assert(slot_table::has_key(self.entries@, i as usize, key@));
                    }
                }
                None
            },
        }
    }

    /// The position of `key` among the entries.
    fn position_of(&self, key: &[u8], hash: u64) -> (position: Option<usize>)
        requires
            self.wf(),
            hash == hash::xxh3_64_value(key@),
        ensures
            match position {
                Some(position) => self.keys().contains(key@) && position == self.keys().index_of(
                    key@,
                ),
                None => !self.keys().contains(key@),
            },
    {
        let found = self.table.find(hash, &self.entries, key);
        proof {
            self.lemma_wf();
            match found {
                Some(position) => {
                    assert(self.keys()[position as int] == key@);
                    let i = self.keys().index_of(key@);
                    assert(self.keys()[i] == key@);
                },
                None => {
                    if self.keys().contains(key@) {
                        let i = self.keys().index_of(key@);
                        assert(self.keys()[i] == key@);
                        assert(self.entries@.len() == self.entries.len());
                        assert(slot_table::slot_table_contents(self.table).contains_pair(
                            i as usize,
                            hash::xxh3_64_value(self.entries@[i].0@),
                        ));
                        assert(slot_table::has_key(self.entries@, i as usize, key@));
                    }
                },
            }
        }
        found
    }

    /// Sets the value of `key` and returns the value that it had. A key that was
    /// present keeps its place; a new one comes last.
    pub fn insert(&mut self, key: Vec<u8>, value: V) -> (previous: Option<V>)
        requires
            old(self).wf(),
        ensures
            final(self).wf(),
            final(self)@ == old(self)@.insert(key@, value),
            previous == old(self)@.get(key@),
            old(self).keys().contains(key@) ==> {
                let at = old(self).keys().index_of(key@);
                &&& final(self).keys() == old(self).keys()
                &&& final(self).values() == old(self).values().update(at, value)
            },
            !old(self).keys().contains(key@) ==> {
                &&& final(self).keys() == old(self).keys().push(key@)
                &&& final(self).values() == old(self).values().push(value)
            },
    {
        proof {
            self.lemma_wf();
        }
        let ghost key_view = key@;
        let ghost before = *self;
        let hash: u64 = xxh3_64(key.as_slice());
        match self.position_of(key.as_slice(), hash) {
            Some(position) => {
                let mut previous = value;
                std::mem::swap(&mut self.entries[position].1, &mut previous);
                proof {
                    let at = before.keys().index_of(key_view);
                    assert(before.keys()[at] == key_view);
                    assert(self.keys() =~= before.keys());
                    assert(self.values() =~= before.values().update(at, value));
                    assert forall|i: int| 0 <= i < self.entries@.len() implies (
                    #[trigger] self.entries@[i]).0 == before.entries@[i].0 by {}
                    assert(self.wf());
                    key_map::lemma_pairs_map_update(before.keys(), before.values(), at, value);
                    assert(before@.contains_pair(before.keys()[at], before.values()[at]));
                }
                Some(previous)
            },
            None => {
                let position: usize = self.entries.len();
                self.entries.push((key, value));
                proof {
                    let contents = slot_table::slot_table_contents(self.table);
                    assert forall|p: usize| #[trigger] contents.contains_key(p) implies p
                        < self.entries@.len() && contents[p] == hash::xxh3_64_value(
                        self.entries@[p as int].0@,
                    ) by {
                        assert(self.entries@[p as int] == before.entries@[p as int]);
                    }
                }
                self.table.insert(hash, position, &self.entries);
                proof {
                    assert(self.keys() =~= before.keys().push(key_view));
                    assert(self.values() =~= before.values().push(value));
                    key_map::lemma_pairs_map_push(
                        before.keys(),
                        before.values(),
                        key_view,
                        value,
                    );
                    let contents = slot_table::slot_table_contents(self.table);
                    assert forall|i: int|
                        0 <= i < self.entries@.len() implies #[trigger] contents.contains_pair(
                        i as usize,
                        hash::xxh3_64_value(self.entries@[i].0@),
                    ) by {
                        if i < position {
                            assert(slot_table::slot_table_contents(before.table).contains_pair(
                                i as usize,
                                hash::xxh3_64_value(before.entries@[i].0@),
                            ));
                        }
                    }
                    assert(self.wf());
                }
                None
            },
        }
    }

    /// Forgets `key` and returns the value that it had. The last entry takes the
    /// place of the one that leaves.
    pub fn remove(&mut self, key: &[u8]) -> (removed: Option<V>)
        requires
            old(self).wf(),
        ensures
            final(self).wf(),
            final(self)@ == old(self)@.remove(key@),
            removed == old(self)@.get(key@),
            old(self).keys().contains(key@) ==> {
                let at = old(self).keys().index_of(key@);
                &&& final(self).keys() == old(self).keys().update(
                    at,
                    old(self).keys().last(),
                ).drop_last()
                &&& final(self).values() == old(self).values().update(
                    at,
                    old(self).values().last(),
                ).drop_last()
            },
            !old(self).keys().contains(key@) ==> final(self).keys() == old(self).keys()
                && final(self).values() == old(self).values(),
    {
        proof {
            self.lemma_wf();
        }
        let ghost before = *self;
        let hash: u64 = xxh3_64(key);
        match self.position_of(key, hash) {
            None => {
                assert(self@.remove(key@) =~= self@);
                None
            },
            Some(position) => {
                let last: usize = self.entries.len() - 1;
                proof {
                    let contents = slot_table::slot_table_contents(self.table);
                    let at = position as int;
                    let end = last as int;
                    assert(before.keys()[at] == key@);
                    assert(contents.contains_pair(
                        at as usize,
                        hash::xxh3_64_value(self.entries@[at].0@),
                    ));
                    assert(contents.contains_pair(
                        end as usize,
                        hash::xxh3_64_value(self.entries@[end].0@),
                    ));
                }
                self.table.remove(hash, position);
                if position != last {
                    let last_hash: u64 = xxh3_64(self.entries[last].0.as_slice());
                    self.table.remove(last_hash, last);
                    let (_, value) = self.entries.swap_remove(position);
                    proof {
                        before.lemma_left(self.table, self.entries@, position as int);
                    }
                    self.table.insert(last_hash, position, &self.entries);
                    proof {
                        before.lemma_swap_remove(*self, position as int);
                        assert(before@.contains_pair(
                            before.keys()[position as int],
                            before.values()[position as int],
                        ));
                    }
                    Some(value)
                } else {
                    let (_, value) = self.entries.swap_remove(position);
                    proof {
                        before.lemma_swap_remove(*self, position as int);
                        assert(before@.contains_pair(
                            before.keys()[position as int],
                            before.values()[position as int],
                        ));
                    }
                    Some(value)
                }
            },
        }
    }

    /// The positions that are left when an entry has gone and the last one has moved
    /// still agree with the entries.
    proof fn lemma_left(self, table: SlotTable, entries: Seq<(Vec<u8>, V)>, at: int)
        requires
            self.wf(),
            0 <= at < self.entries@.len(),
            entries == self.entries@.update(at, self.entries@.last()).drop_last(),
            slot_table::slot_table_contents(table) == slot_table::slot_table_contents(
                self.table,
            ).remove(at as usize).remove((self.entries@.len() - 1) as usize),
        ensures
            slot_table::hashes_agree(table, entries),
            !slot_table::slot_table_contents(table).contains_key(at as usize),
    {
        assert(self.entries@.len() == self.entries.len());
        let contents = slot_table::slot_table_contents(table);
        assert forall|p: usize| #[trigger] contents.contains_key(p) implies p < entries.len()
            && contents[p] == hash::xxh3_64_value(entries[p as int].0@) by {
            assert(slot_table::slot_table_contents(self.table).contains_key(p));
            assert(entries[p as int] == self.entries@[p as int]);
        }
    }

    /// What the map becomes when the last entry takes the place of another.
    proof fn lemma_swap_remove(self, after: Self, at: int)
        requires
            self.wf(),
            0 <= at < self.entries@.len(),
            after.entries@ == self.entries@.update(at, self.entries@.last()).drop_last(),
            slot_table::slot_table_contents(after.table) == (if at == self.entries@.len() - 1 {
                slot_table::slot_table_contents(self.table).remove(at as usize)
            } else {
                slot_table::slot_table_contents(self.table).remove(at as usize).remove(
                    (self.entries@.len() - 1) as usize,
                ).insert(at as usize, hash::xxh3_64_value(self.entries@.last().0@))
            }),
        ensures
            after.wf(),
            after@ == self@.remove(self.keys()[at]),
            after.keys() == self.keys().update(at, self.keys().last()).drop_last(),
            after.values() == self.values().update(at, self.values().last()).drop_last(),
    {
        self.lemma_wf();
        assert(self.entries@.len() == self.entries.len());
        let key = self.keys()[at];
        let last = self.entries@.len() - 1;
        assert(after.keys() =~= self.keys().update(at, self.keys().last()).drop_last());
        assert(after.values() =~= self.values().update(at, self.values().last()).drop_last());
        assert(after.keys().no_duplicates()) by {
            assert forall|i: int, j: int|
                0 <= i < after.keys().len() && 0 <= j < after.keys().len() && i
                    != j implies after.keys()[i] != after.keys()[j] by {
                let p = if i == at { last } else { i };
                let q = if j == at { last } else { j };
                assert(self.keys()[p] != self.keys()[q]);
            }
        }
        let contents = slot_table::slot_table_contents(after.table);
        assert forall|i: int|
            0 <= i < after.entries@.len() implies #[trigger] contents.contains_pair(
            i as usize,
            hash::xxh3_64_value(after.entries@[i].0@),
        ) by {
            assert(slot_table::slot_table_contents(self.table).contains_pair(
                i as usize,
                hash::xxh3_64_value(self.entries@[i].0@),
            ));
        }
        assert forall|p: usize| #[trigger] contents.contains_key(p) implies p < after.entries@.len()
            && contents[p] == hash::xxh3_64_value(after.entries@[p as int].0@) by {
            if p != at {
                assert(slot_table::slot_table_contents(self.table).contains_key(p));
            }
        }
        assert(after.wf());
        after.lemma_wf();
        assert forall|k: Seq<u8>|
            #![trigger after@.dom().contains(k)]
            #![trigger self@.remove(key).dom().contains(k)]
            #![trigger after@[k]]
            after@.contains_key(k) == self@.remove(key).contains_key(k) && (after@.contains_key(k)
                ==> after@[k] == self@[k]) by {
            if after@.contains_key(k) {
                let i = after.keys().index_of(k);
                assert(after.keys()[i] == k);
                let j = if i == at { last } else { i };
                assert(self.keys()[j] == k);
                assert(self@.contains_pair(self.keys()[j], self.values()[j]));
                assert(after@.contains_pair(after.keys()[i], after.values()[i]));
            }
            if self@.contains_key(k) && k != key {
                let j = self.keys().index_of(k);
                assert(self.keys()[j] == k);
                let i = if j == last { at } else { j };
                assert(after.keys()[i] == k);
                assert(after@.contains_pair(after.keys()[i], after.values()[i]));
            }
        }
        assert(after@ =~= self@.remove(key));
    }

    /// Asks the allocator for room for more keys. Room for no more is always had, and room
    /// for more keys than a machine word can count never; otherwise the allocator decides.
    pub fn try_reserve(&mut self, additional: usize) -> (reserved: bool)
        requires
            old(self).wf(),
        ensures
            final(self).wf(),
            final(self).keys() == old(self).keys(),
            final(self).values() == old(self).values(),
            final(self)@ == old(self)@,
            additional == 0 ==> reserved,
            reserved ==> old(self).keys().len() + additional <= usize::MAX,
            !reserved ==> Self::slots_refused(additional as int),
            reserved ==> Self::slots_granted(additional as int),
    {
        proof {
            assert(self.entries@.len() == self.entries.len());
            self.lemma_indexed_len();
        }
        ask_slots(SlotTable::try_reserve::<V>, &mut self.table, additional, &self.entries)
    }

    /// Room for positions is refused by nothing but an answer of `HashTable::try_reserve`.
    proof fn law_refused_slots(additional: int)
        requires
            Self::slots_refused(additional),
        ensures
            exists|lent: &mut SlotTable, asked: usize, entries: &Vec<(Vec<u8>, V)>|
                asked == additional && #[trigger] call_ensures(
                    SlotTable::try_reserve::<V>,
                    (lent, asked, entries),
                    false,
                ),
    {
    }

    /// Whether `HashTable::try_reserve` answered that room for `additional` more positions
    /// is had.
    pub closed spec fn slots_granted(additional: int) -> bool {
        exists|lent: &mut SlotTable, asked: usize, entries: &Vec<(Vec<u8>, V)>|
            asked == additional && #[trigger] call_ensures(
                SlotTable::try_reserve::<V>,
                (lent, asked, entries),
                true,
            )
    }

    /// Whether `HashTable::try_reserve` answered that room for `additional` more positions
    /// cannot be had.
    pub closed spec fn slots_refused(additional: int) -> bool {
        exists|lent: &mut SlotTable, asked: usize, entries: &Vec<(Vec<u8>, V)>|
            asked == additional && #[trigger] call_ensures(
                SlotTable::try_reserve::<V>,
                (lent, asked, entries),
                false,
            )
    }

    /// Whether `key` is present.
    pub fn contains_key(&self, key: &[u8]) -> (present: bool)
        requires
            self.wf(),
        ensures
            present == self@.contains_key(key@),
    {
        self.get(key).is_some()
    }

    /// The key and the value of the entry at `position`.
    pub fn entry_at(&self, position: usize) -> (entry: (&[u8], &V))
        requires
            self.wf(),
            position < self.keys().len(),
        ensures
            entry.0@ == self.keys()[position as int],
            *entry.1 == self.values()[position as int],
            self@.contains_pair(entry.0@, *entry.1),
    {
        proof {
            self.lemma_wf();
            assert(self@.contains_pair(
                self.keys()[position as int],
                self.values()[position as int],
            ));
        }
        let entry = &self.entries[position];
        (entry.0.as_slice(), &entry.1)
    }

    /// The number of keys.
    pub fn len(&self) -> (len: usize)
        requires
            self.wf(),
        ensures
            len == self.keys().len(),
            len == self@.dom().len(),
    {
        proof {
            self.lemma_wf();
        }
        self.entries.len()
    }

    /// Whether there is no key.
    pub fn is_empty(&self) -> (empty: bool)
        requires
            self.wf(),
        ensures
            empty == (self.keys().len() == 0),
            empty == (self@ == Map::<Seq<u8>, V>::empty()),
    {
        proof {
            self.lemma_wf();
            if self.keys().len() == 0 {
                assert(self@ =~= Map::<Seq<u8>, V>::empty());
            }
        }
        self.entries.len() == 0
    }
}

impl<V> Default for OverlayMap<V> {
    fn default() -> (map: Self)
        ensures
            map.wf(),
            map.keys() == Seq::<Seq<u8>>::empty(),
            map@ == Map::<Seq<u8>, V>::empty(),
    {
        OverlayMap::new()
    }
}

impl<V: Clone> Clone for OverlayMap<V> {
    fn clone(&self) -> (copy: Self)
        ensures
            self.wf() ==> copy.wf(),
            copy.keys() == self.keys(),
            copy.values().len() == self.values().len(),
            forall|i: int|
                0 <= i < self.values().len() ==> cloned(
                    self.values()[i],
                    #[trigger] copy.values()[i],
                ),
    {
        let mut entries: Vec<(Vec<u8>, V)> = Vec::new();
        let mut i: usize = 0;
        while i < self.entries.len()
            invariant
                i <= self.entries@.len(),
                entries@.len() == i,
                forall|j: int| 0 <= j < i ==> (#[trigger] entries@[j]).0@ == self.entries@[j].0@,
                forall|j: int|
                    0 <= j < i ==> cloned(self.entries@[j].1, (#[trigger] entries@[j]).1),
            decreases self.entries@.len() - i,
        {
            let entry = &self.entries[i];
            let key = copy_bytes(entry.0.as_slice());
            let value = entry.1.clone();
            entries.push((key, value));
            i += 1;
        }
        let copy = OverlayMap { table: self.table.duplicate(), entries };
        proof {
            assert(copy.keys() =~= self.keys());
            if self.wf() {
                let contents = slot_table::slot_table_contents(copy.table);
                assert forall|j: int|
                    0 <= j < copy.entries@.len() implies #[trigger] contents.contains_pair(
                    j as usize,
                    hash::xxh3_64_value(copy.entries@[j].0@),
                ) by {
                    assert(contents.contains_pair(
                        j as usize,
                        hash::xxh3_64_value(self.entries@[j].0@),
                    ));
                    assert(copy.entries@[j].0@ == self.entries@[j].0@);
                }
                assert forall|p: usize| #[trigger] contents.contains_key(p) implies p
                    < copy.entries@.len() && contents[p] == hash::xxh3_64_value(
                    copy.entries@[p as int].0@,
                ) by {
                    assert(slot_table::slot_table_contents(self.table).contains_key(p));
                    assert(copy.entries@[p as int].0@ == self.entries@[p as int].0@);
                }
            }
        }
        copy
    }
}

} // verus!
