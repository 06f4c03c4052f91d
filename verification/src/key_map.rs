//! Maps keyed by byte strings.
//!
//! A [`KeyMap`] keeps its entries in one vector, in the order in which the keys
//! were first inserted, and finds them through an `FxHashMap` from key to
//! position.

use crate::bytes::copy_bytes;
use crate::room::ask;
use rustc_hash::FxHashMap;
use vstd::prelude::*;

verus! {

/// The hasher behind `rustc_hash::FxHashMap`, carried without looking inside.
#[verifier::external_type_specification]
#[verifier::external_body]
pub struct ExFxBuildHasher(rustc_hash::FxBuildHasher);

/// What an index holds: the position recorded for each key.
pub uninterp spec fn fx_contents(index: FxHashMap<Vec<u8>, usize>) -> Map<Seq<u8>, usize>;

/// Calls `FxHashMap::default`, which makes an empty map.
#[verifier::external_body]
fn fx_new() -> (index: FxHashMap<Vec<u8>, usize>)
    ensures
        fx_contents(index).dom() == Set::<Seq<u8>>::empty(),
{
    FxHashMap::default()
}

/// Calls `get` on the map: the position recorded for a key, if there is one.
#[verifier::external_body]
fn fx_get(index: &FxHashMap<Vec<u8>, usize>, key: &[u8]) -> (position: Option<usize>)
    ensures
        position == fx_contents(*index).get(key@),
{
    index.get(key).copied()
}

/// Calls `insert` on the map, which records the position for the key and leaves
/// every other key as it was.
#[verifier::external_body]
fn fx_insert(index: &mut FxHashMap<Vec<u8>, usize>, key: Vec<u8>, position: usize)
    ensures
        fx_contents(*final(index)) == fx_contents(*old(index)).insert(key@, position),
{
    index.insert(key, position);
}

/// Calls `remove` on the map, which forgets the key and leaves every other key as
/// it was.
#[verifier::external_body]
fn fx_remove(index: &mut FxHashMap<Vec<u8>, usize>, key: &[u8])
    ensures
        fx_contents(*final(index)) == fx_contents(*old(index)).remove(key@),
{
    index.remove(key);
}

/// Calls `try_reserve` on the map. Room for nothing more is always had, and room for
/// more keys than a machine word can count never; otherwise whether the memory could
/// be had is for the allocator to say. What the map holds does not change.
#[verifier::external_body]
fn fx_try_reserve(index: &mut FxHashMap<Vec<u8>, usize>, additional: usize) -> (reserved: bool)
    ensures
        fx_contents(*final(index)) == fx_contents(*old(index)),
        additional == 0 ==> reserved,
        reserved ==> fx_contents(*old(index)).dom().len() + additional <= usize::MAX,
{
    index.try_reserve(additional).is_ok()
}

/// Whether `try_reserve` answered that room for `additional` more keys cannot be had.
pub closed spec fn keys_refused(additional: int) -> bool {
    exists|lent: &mut FxHashMap<Vec<u8>, usize>, asked: usize|
        asked == additional && #[trigger] call_ensures(fx_try_reserve, (lent, asked), false)
}

/// Room for keys is refused by nothing but an answer of `try_reserve`.
proof fn law_refused_keys(additional: int)
    requires
        keys_refused(additional),
    ensures
        exists|lent: &mut FxHashMap<Vec<u8>, usize>, asked: usize|
            asked == additional && #[trigger] call_ensures(fx_try_reserve, (lent, asked), false),
{
}

/// Whether `try_reserve` answered that room for `additional` more keys is had.
pub closed spec fn keys_granted(additional: int) -> bool {
    exists|lent: &mut FxHashMap<Vec<u8>, usize>, asked: usize|
        asked == additional && #[trigger] call_ensures(fx_try_reserve, (lent, asked), true)
}

/// The key of every entry, in order.
pub open spec fn keys_of<V>(entries: Seq<(Vec<u8>, V)>) -> Seq<Seq<u8>> {
    Seq::new(entries.len(), |i: int| entries[i].0@)
}

/// The value of every entry, in order.
pub open spec fn values_of<V>(entries: Seq<(Vec<u8>, V)>) -> Seq<V> {
    Seq::new(entries.len(), |i: int| entries[i].1)
}

/// The map from keys to values that two parallel sequences describe.
pub open spec fn pairs_map<V>(keys: Seq<Seq<u8>>, values: Seq<V>) -> Map<Seq<u8>, V> {
    Map::new(|key: Seq<u8>| keys.contains(key), |key: Seq<u8>| values[keys.index_of(key)])
}

/// A key that is listed once leads to the value beside it.
pub proof fn lemma_pairs_map_at<V>(keys: Seq<Seq<u8>>, values: Seq<V>, i: int)
    requires
        keys.no_duplicates(),
        keys.len() == values.len(),
        0 <= i < keys.len(),
    ensures
        pairs_map(keys, values).contains_key(keys[i]),
        pairs_map(keys, values)[keys[i]] == values[i],
{
    assert(keys.contains(keys[i]));
    let j = keys.index_of(keys[i]);
    assert(0 <= j < keys.len() && keys[j] == keys[i]);
}

/// A map described by distinct keys has as many entries as there are keys.
pub proof fn lemma_pairs_map_len<V>(keys: Seq<Seq<u8>>, values: Seq<V>)
    requires
        keys.no_duplicates(),
    ensures
        pairs_map(keys, values).dom().finite(),
        pairs_map(keys, values).dom().len() == keys.len(),
{
    keys.unique_seq_to_set();
    assert(pairs_map(keys, values).dom() =~= keys.to_set());
}

/// A map keyed by byte strings that remembers insertion order.
pub struct KeyMap<V> {
    index: FxHashMap<Vec<u8>, usize>,
    entries: Vec<(Vec<u8>, V)>,
}

impl<V> View for KeyMap<V> {
    type V = Map<Seq<u8>, V>;

    open spec fn view(&self) -> Map<Seq<u8>, V> {
        pairs_map(self.keys(), self.values())
    }
}

impl<V> KeyMap<V> {
    /// The keys, in the order of the entries.
    pub closed spec fn keys(self) -> Seq<Seq<u8>> {
        keys_of(self.entries@)
    }

    /// The values, in the order of the entries.
    pub closed spec fn values(self) -> Seq<V> {
        values_of(self.entries@)
    }

    /// The index leads each key to its entry, and to nothing else.
    pub closed spec fn wf(self) -> bool {
        let contents = fx_contents(self.index);
        &&& forall|i: int|
            0 <= i < self.entries@.len() ==> #[trigger] contents.contains_pair(
                self.entries@[i].0@,
                i as usize,
            )
        &&& forall|key: Seq<u8>| #[trigger]
            contents.contains_key(key) ==> contents[key] < self.entries@.len()
                && self.entries@[contents[key] as int].0@ == key
    }

    /// Keys are listed once, beside their values.
    pub proof fn lemma_wf(self)
        requires
            self.wf(),
        ensures
            self.keys().no_duplicates(),
            self.keys().len() == self.values().len(),
            self@.dom().finite(),
            self@.dom().len() == self.keys().len(),
            forall|i: int|
                0 <= i < self.keys().len() ==> #[trigger] self@.contains_pair(
                    self.keys()[i],
                    self.values()[i],
                ),
    {
        let contents = fx_contents(self.index);
        assert(self.entries@.len() == self.entries.len());
        assert(self.keys().no_duplicates()) by {
            assert forall|i: int, j: int|
                0 <= i < self.keys().len() && 0 <= j < self.keys().len() && i
                    != j implies self.keys()[i] != self.keys()[j] by {
                assert(contents.contains_pair(self.entries@[i].0@, i as usize));
                assert(contents.contains_pair(self.entries@[j].0@, j as usize));
            }
        }
        lemma_pairs_map_len(self.keys(), self.values());
        assert forall|i: int| 0 <= i < self.keys().len() implies #[trigger] self@.contains_pair(
            self.keys()[i],
            self.values()[i],
        ) by {
            lemma_pairs_map_at(self.keys(), self.values(), i);
        }
    }

    /// The value of a key stands beside it.
    pub proof fn lemma_entry(self, key: Seq<u8>) -> (i: int)
        requires
            self.wf(),
            self@.contains_key(key),
        ensures
            0 <= i < self.keys().len(),
            self.keys().len() == self.values().len(),
            self.keys()[i] == key,
            self.values()[i] == self@[key],
    {
        self.lemma_wf();
        let i = self.keys().index_of(key);
        assert(self.keys()[i] == key);
        assert(self@.contains_pair(self.keys()[i], self.values()[i]));
        i
    }

    /// The index agrees with the position of a key among the entries.
    proof fn lemma_index(self, key: Seq<u8>)
        requires
            self.wf(),
        ensures
            fx_contents(self.index).contains_key(key) <==> self.keys().contains(key),
            self.keys().contains(key) ==> fx_contents(self.index)[key] == self.keys().index_of(key),
    {
        self.lemma_wf();
        let contents = fx_contents(self.index);
        if contents.contains_key(key) {
            assert(self.keys()[contents[key] as int] == key);
        }
        if self.keys().contains(key) {
            let i = self.keys().index_of(key);
            assert(contents.contains_pair(self.entries@[i].0@, i as usize));
        }
    }

    /// The index holds as many keys as there are entries.
    proof fn lemma_indexed_len(self)
        requires
            self.wf(),
        ensures
            fx_contents(self.index).dom().len() == self.keys().len(),
    {
        self.lemma_wf();
        assert forall|key: Seq<u8>| fx_contents(self.index).dom().contains(key)
            == #[trigger] self.keys().to_set().contains(key) by {
            self.lemma_index(key);
        }
        assert(fx_contents(self.index).dom() =~= self.keys().to_set());
        self.keys().unique_seq_to_set();
    }

    /// An empty map.
    pub fn new() -> (map: Self)
        ensures
            map.wf(),
            map.keys() == Seq::<Seq<u8>>::empty(),
            map@ == Map::<Seq<u8>, V>::empty(),
    {
        let map = KeyMap { index: fx_new(), entries: Vec::new() };
        assert(map.keys() =~= Seq::<Seq<u8>>::empty());
        assert(map@ =~= Map::<Seq<u8>, V>::empty());
        map
    }

    /// The number of keys.
    pub fn len(&self) -> (len: usize)
        requires
            self.wf(),
        ensures
            len == self.keys().len(),
            len == self@.dom().len(),
    {
        proof {
            self.lemma_wf();
        }
        self.entries.len()
    }

    /// Whether there is no key.
    pub fn is_empty(&self) -> (empty: bool)
        requires
            self.wf(),
        ensures
            empty == (self.keys().len() == 0),
            empty == (self@ == Map::<Seq<u8>, V>::empty()),
    {
        proof {
            self.lemma_wf();
            if self.keys().len() == 0 {
                assert(self@ =~= Map::<Seq<u8>, V>::empty());
            }
        }
        self.entries.len() == 0
    }

    /// The key and the value of the entry at `position`.
    pub fn entry_at(&self, position: usize) -> (entry: (&[u8], &V))
        requires
            self.wf(),
            position < self.keys().len(),
        ensures
            entry.0@ == self.keys()[position as int],
            *entry.1 == self.values()[position as int],
            self@.contains_pair(entry.0@, *entry.1),
    {
        proof {
            self.lemma_wf();
            assert(self@.contains_pair(
                self.keys()[position as int],
                self.values()[position as int],
            ));
        }
        let entry = &self.entries[position];
        (entry.0.as_slice(), &entry.1)
    }

    /// The value of `key`.
    pub fn get(&self, key: &[u8]) -> (value: Option<&V>)
        requires
            self.wf(),
        ensures
            match value {
                Some(value) => self@.contains_pair(key@, *value),
                None => !self@.contains_key(key@),
            },
    {
        proof {
            self.lemma_wf();
            self.lemma_index(key@);
        }
        match fx_get(&self.index, key) {
            Some(position) => {
                assert(self@.contains_pair(
                    self.keys()[position as int],
                    self.values()[position as int],
                ));
                Some(&self.entries[position].1)
            },
            None => None,
        }
    }

    /// Whether `key` is present.
    pub fn contains_key(&self, key: &[u8]) -> (present: bool)
        requires
            self.wf(),
        ensures
            present == self@.contains_key(key@),
    {
        self.get(key).is_some()
    }

    /// Asks the allocator for room for more keys. Room for no more is always had, and room
    /// for more keys than a machine word can count never; otherwise the allocator decides.
    pub fn try_reserve(&mut self, additional: usize) -> (reserved: bool)
        requires
            old(self).wf(),
        ensures
            final(self).wf(),
            final(self).keys() == old(self).keys(),
            final(self).values() == old(self).values(),
            final(self)@ == old(self)@,
            additional == 0 ==> reserved,
            reserved ==> old(self).keys().len() + additional <= usize::MAX,
            !reserved ==> keys_refused(additional as int),
            reserved ==> keys_granted(additional as int),
    {
        proof {
            self.lemma_indexed_len();
        }
        ask(fx_try_reserve, &mut self.index, additional)
    }

    /// Sets the value of `key` and returns the value that it had. A key that was
    /// present keeps its place; a new one comes last.
    pub fn insert(&mut self, key: Vec<u8>, value: V) -> (previous: Option<V>)
        requires
            old(self).wf(),
        ensures
            final(self).wf(),
            final(self)@ == old(self)@.insert(key@, value),
            previous == old(self)@.get(key@),
            old(self).keys().contains(key@) ==> {
                let at = old(self).keys().index_of(key@);
                &&& final(self).keys() == old(self).keys()
                &&& final(self).values() == old(self).values().update(at, value)
            },
            !old(self).keys().contains(key@) ==> {
                &&& final(self).keys() == old(self).keys().push(key@)
                &&& final(self).values() == old(self).values().push(value)
            },
    {
        proof {
            self.lemma_wf();
            self.lemma_index(key@);
        }
        let ghost key_view = key@;
        let ghost before = *self;
        match fx_get(&self.index, key.as_slice()) {
            Some(position) => {
                let mut previous = value;
                std::mem::swap(&mut self.entries[position].1, &mut previous);
                proof {
                    let at = before.keys().index_of(key_view);
                    assert(at == position);
                    assert(self.keys() =~= before.keys());
                    assert(self.values() =~= before.values().update(at, value));
                    assert(self.wf());
                    self.lemma_wf();
                    assert(self@ =~= before@.insert(key_view, value)) by {
                        lemma_pairs_map_update(before.keys(), before.values(), at, value);
                    }
                    assert(before@.contains_pair(before.keys()[at], before.values()[at]));
                }
                Some(previous)
            },
            None => {
                let position: usize = self.entries.len();
                fx_insert(&mut self.index, copy_bytes(key.as_slice()), position);
                self.entries.push((key, value));
                proof {
                    assert(self.keys() =~= before.keys().push(key_view));
                    assert(self.values() =~= before.values().push(value));
                    let contents = fx_contents(self.index);
                    assert forall|i: int|
                        0 <= i < self.entries@.len() implies #[trigger] contents.contains_pair(
                        self.entries@[i].0@,
                        i as usize,
                    ) by {
                        if i < position {
                            assert(fx_contents(before.index).contains_pair(
                                before.entries@[i].0@,
                                i as usize,
                            ));
                            assert(before.keys()[i] != key_view);
                        }
                    }
                    assert(self.wf());
                    self.lemma_wf();
                    lemma_pairs_map_push(before.keys(), before.values(), key_view, value);
                }
                None
            },
        }
    }

    /// Forgets `key` and returns the value that it had. The last entry takes the
    /// place of the one that leaves.
    pub fn remove(&mut self, key: &[u8]) -> (removed: Option<V>)
        requires
            old(self).wf(),
        ensures
            final(self).wf(),
            final(self)@ == old(self)@.remove(key@),
            removed == old(self)@.get(key@),
            !old(self).keys().contains(key@) ==> final(self).keys() == old(self).keys()
                && final(self).values() == old(self).values(),
    {
        proof {
            self.lemma_wf();
            self.lemma_index(key@);
        }
        let ghost before = *self;
        match fx_get(&self.index, key) {
            None => {
                assert(self@.remove(key@) =~= self@);
                None
            },
            Some(position) => {
                let last: usize = self.entries.len() - 1;
                fx_remove(&mut self.index, key);
                if position != last {
                    let moved = copy_bytes(self.entries[last].0.as_slice());
                    fx_insert(&mut self.index, moved, position);
                }
                let (_, value) = self.entries.swap_remove(position);
                proof {
                    let at = position as int;
                    let contents = fx_contents(self.index);
                    assert(before.keys()[at] == key@);
                    assert(before.keys()[last as int] == before.entries@[last as int].0@);
                    assert forall|i: int|
                        0 <= i < self.entries@.len() implies #[trigger] contents.contains_pair(
                        self.entries@[i].0@,
                        i as usize,
                    ) by {
                        assert(before.keys()[i] == before.entries@[i].0@);
                        assert(fx_contents(before.index).contains_pair(
                            before.entries@[i].0@,
                            i as usize,
                        ));
                    }
                    assert forall|k: Seq<u8>| #[trigger]
                        contents.contains_key(k) implies contents[k] < self.entries@.len()
                        && self.entries@[contents[k] as int].0@ == k by {
                        if position != last && k == before.keys()[last as int] {
                        } else {
                            assert(fx_contents(before.index).contains_key(k));
                            let j = fx_contents(before.index)[k] as int;
                            assert(before.keys()[j] == k);
                        }
                    }
                    assert(self.wf());
                    self.lemma_wf();
                    before.lemma_swap_remove(*self, at);
                    assert(before@.contains_pair(before.keys()[at], before.values()[at]));
                }
                Some(value)
            },
        }
    }

    /// The entries, in order.
    pub fn into_entries(self) -> (entries: Vec<(Vec<u8>, V)>)
        ensures
            keys_of(entries@) == self.keys(),
            values_of(entries@) == self.values(),
    {
        self.entries
    }

    /// What the map becomes when the last entry takes the place of another.
    proof fn lemma_swap_remove(self, after: Self, at: int)
        requires
            self.wf(),
            after.wf(),
            0 <= at < self.entries@.len(),
            after.entries@ == self.entries@.update(at, self.entries@.last()).drop_last(),
        ensures
            after@ == self@.remove(self.keys()[at]),
    {
        self.lemma_wf();
        after.lemma_wf();
        let key = self.keys()[at];
        let last = self.entries@.len() - 1;
        assert forall|k: Seq<u8>|
            #![trigger after@.dom().contains(k)]
            #![trigger self@.remove(key).dom().contains(k)]
            #![trigger after@[k]]
            after@.contains_key(k) == self@.remove(key).contains_key(k) && (after@.contains_key(k) ==> after@[k] == self@[k]) by {
            if after@.contains_key(k) {
                let i = after.keys().index_of(k);
                assert(after.keys()[i] == k);
                let j = if i == at { last } else { i };
                assert(self.keys()[j] == k);
                assert(self@.contains_pair(self.keys()[j], self.values()[j]));
                assert(after@.contains_pair(after.keys()[i], after.values()[i]));
            }
            if self@.contains_key(k) && k != key {
                let j = self.keys().index_of(k);
                assert(self.keys()[j] == k);
                let i = if j == last { at } else { j };
                assert(after.keys()[i] == k);
                assert(after@.contains_pair(after.keys()[i], after.values()[i]));
            }
        }
        assert(after@ =~= self@.remove(key));
    }
}

impl<V> Default for KeyMap<V> {
    fn default() -> (map: Self)
        ensures
            map.wf(),
            map.keys() == Seq::<Seq<u8>>::empty(),
            map@ == Map::<Seq<u8>, V>::empty(),
    {
        KeyMap::new()
    }
}

/// Changing the value beside a key changes the map at that key only.
pub proof fn lemma_pairs_map_update<V>(keys: Seq<Seq<u8>>, values: Seq<V>, at: int, value: V)
    requires
        keys.no_duplicates(),
        keys.len() == values.len(),
        0 <= at < keys.len(),
    ensures
        pairs_map(keys, values.update(at, value)) == pairs_map(keys, values).insert(keys[at], value),
{
    assert(keys.contains(keys[at]));
    assert forall|k: Seq<u8>| keys.contains(k) implies pairs_map(keys, values.update(at, value))[k]
        == pairs_map(keys, values).insert(keys[at], value)[k] by {
        let i = keys.index_of(k);
        assert(keys[i] == k);
    }
    assert(pairs_map(keys, values.update(at, value)) =~= pairs_map(keys, values).insert(
        keys[at],
        value,
    ));
}

/// Listing a new key adds it to the map.
pub proof fn lemma_pairs_map_push<V>(keys: Seq<Seq<u8>>, values: Seq<V>, key: Seq<u8>, value: V)
    requires
        keys.no_duplicates(),
        keys.len() == values.len(),
        !keys.contains(key),
    ensures
        keys.push(key).no_duplicates(),
        pairs_map(keys.push(key), values.push(value)) == pairs_map(keys, values).insert(key, value),
{
    let longer = keys.push(key);
    assert forall|i: int, j: int|
        0 <= i < longer.len() && 0 <= j < longer.len() && i != j implies longer[i] != longer[j] by {
        if i == keys.len() {
            assert(keys.contains(keys[j]));
        } else if j == keys.len() {
            assert(keys.contains(keys[i]));
        }
    }
    let left = pairs_map(longer, values.push(value));
    let right = pairs_map(keys, values).insert(key, value);
    assert forall|k: Seq<u8>|
        #![trigger left.dom().contains(k)]
        #![trigger right.dom().contains(k)]
        #![trigger left[k]]
        left.contains_key(k) == right.contains_key(k) && (left.contains_key(k)
        ==> left[k] == right[k]) by {
        if longer.contains(k) {
            let i = longer.index_of(k);
            assert(longer[i] == k);
            if i < keys.len() {
                assert(keys[i] == k);
                lemma_pairs_map_at(keys, values, i);
            }
            lemma_pairs_map_at(longer, values.push(value), i);
        }
        if keys.contains(k) {
            let i = keys.index_of(k);
            assert(longer[i] == k);
        }
        assert(longer[keys.len() as int] == key);
    }
    assert(left =~= right);
}

} // verus!
