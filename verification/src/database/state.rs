//! The parts of a database: the active Base and the Overlay over it.

use crate::bytes::copy_bytes;
use crate::checksum;
use crate::database::blocks;
use crate::database::blocks::SegmentVerifier;
use crate::database::overlay_map::OverlayMap;
use crate::error;
use crate::error::{Error, ErrorKind, ErrorView, Result};
use crate::format::index;
use crate::format::lookup;
use crate::format::records;
use crate::format::segment;
use crate::format::segment::{
    read_base_header, segment_layout, segment_metadata_checksum, verify_segment_blocks,
};
use crate::format::superblock::{Superblock, SuperblockView};
use crate::format::validate;
use crate::format::validate::validate_base_in;
use crate::format::writer;
use crate::key_map;
use crate::options::VerificationMode;
use crate::room::Room;
use std::ops::Range;
use std::sync::Arc;
use vstd::prelude::*;

verus! {

pub const MAPPED_VALUE_THRESHOLD: usize = 1048576;

/// Immutable bytes backing an installed Base generation.
pub enum BaseBytes {
    /// A range of a file.
    Mapped(Arc<Vec<u8>>),
    /// A range of bytes in memory.
    Memory { bytes: Arc<Vec<u8>>, range: Range<usize> },
}

impl View for BaseBytes {
    type V = Seq<u8>;

    open spec fn view(&self) -> Seq<u8> {
        match self {
            BaseBytes::Mapped(bytes) => bytes@,
            BaseBytes::Memory { bytes, range } => bytes@.subrange(
                range.start as int,
                range.end as int,
            ),
        }
    }
}

impl BaseBytes {
    /// The range lies within the bytes.
    pub open spec fn wf(self) -> bool {
        match self {
            BaseBytes::Mapped(_) => true,
            BaseBytes::Memory { bytes, range } => range.start <= range.end <= bytes@.len(),
        }
    }

    /// All of the given bytes.
    pub fn whole(bytes: Arc<Vec<u8>>) -> (base: Self)
        ensures
            base.wf(),
            base@ == bytes@,
    {
        let end: usize = bytes.len();
        assert(bytes@.subrange(0, end as int) =~= bytes@);
        BaseBytes::Memory { bytes, range: 0..end }
    }

    /// The bytes.
    pub fn as_slice(&self) -> (slice: &[u8])
        requires
            self.wf(),
        ensures
            slice@ == self@,
    {
        match self {
            BaseBytes::Mapped(bytes) => bytes.as_slice(),
            BaseBytes::Memory { bytes, range } => &bytes.as_slice()[range.start..range.end],
        }
    }
}

impl Clone for BaseBytes {
    fn clone(&self) -> (copy: Self)
        ensures
            copy@ == self@,
            self.wf() ==> copy.wf(),
    {
        match self {
            BaseBytes::Mapped(bytes) => BaseBytes::Mapped(Arc::clone(bytes)),
            BaseBytes::Memory { bytes, range } => BaseBytes::Memory {
                bytes: Arc::clone(bytes),
                range: range.start..range.end,
            },
        }
    }
}

/// The bytes of a value.
pub enum ValueBytes {
    /// Bytes of its own.
    Owned(Vec<u8>),
    /// A range of immutable bytes.
    Mapped { bytes: BaseBytes, range: Range<usize> },
}

impl View for ValueBytes {
    type V = Seq<u8>;

    open spec fn view(&self) -> Seq<u8> {
        match self {
            ValueBytes::Owned(value) => value@,
            ValueBytes::Mapped { bytes, range } => bytes@.subrange(
                range.start as int,
                range.end as int,
            ),
        }
    }
}

impl ValueBytes {
    /// The range lies within the bytes.
    pub open spec fn wf(self) -> bool {
        match self {
            ValueBytes::Owned(_) => true,
            ValueBytes::Mapped { bytes, range } => bytes.wf() && range.start <= range.end
                <= bytes@.len(),
        }
    }

    /// What the value adds to the memory charged to the Overlay: a large value that
    /// is backed by immutable bytes adds nothing.
    pub open spec fn charge(self) -> int {
        match self {
            ValueBytes::Owned(_) => self@.len() as int,
            ValueBytes::Mapped { .. } => if self@.len() < MAPPED_VALUE_THRESHOLD {
                self@.len() as int
            } else {
                0
            },
        }
    }

    /// The bytes of the value.
    pub fn as_slice(&self) -> (slice: &[u8])
        requires
            self.wf(),
        ensures
            slice@ == self@,
    {
        match self {
            ValueBytes::Owned(value) => value.as_slice(),
            ValueBytes::Mapped { bytes, range } => &bytes.as_slice()[range.start..range.end],
        }
    }

    /// The length of the value.
    pub fn len(&self) -> (len: usize)
        requires
            self.wf(),
        ensures
            len == self@.len(),
    {
        match self {
            ValueBytes::Owned(value) => value.len(),
            ValueBytes::Mapped { range, .. } => range.end - range.start,
        }
    }

    fn overlay_memory_charge(&self) -> (charge: usize)
        requires
            self.wf(),
        ensures
            charge == self.charge(),
    {
        match self {
            ValueBytes::Owned(value) => value.len(),
            ValueBytes::Mapped { range, .. } => {
                let len: usize = range.end - range.start;
                if len < MAPPED_VALUE_THRESHOLD {
                    len
                } else {
                    0
                }
            },
        }
    }
}

impl Clone for ValueBytes {
    fn clone(&self) -> (copy: Self)
        ensures
            copy@ == self@,
            copy.charge() == self.charge(),
            self.wf() ==> copy.wf(),
    {
        match self {
            ValueBytes::Owned(value) => ValueBytes::Owned(copy_bytes(value.as_slice())),
            ValueBytes::Mapped { bytes, range } => ValueBytes::Mapped {
                bytes: bytes.clone(),
                range: range.start..range.end,
            },
        }
    }
}

/// What the Overlay says of a key.
pub enum OverlayEntry {
    /// The key has this value.
    Put(ValueBytes),
    /// The key has no value.
    Delete,
}

impl View for OverlayEntry {
    type V = Option<Seq<u8>>;

    open spec fn view(&self) -> Option<Seq<u8>> {
        match self {
            OverlayEntry::Put(value) => Some(value@),
            OverlayEntry::Delete => None,
        }
    }
}

impl OverlayEntry {
    pub open spec fn wf(self) -> bool {
        match self {
            OverlayEntry::Put(value) => value.wf(),
            OverlayEntry::Delete => true,
        }
    }

    /// What the entry adds to the memory charged to the Overlay, besides its key.
    pub open spec fn charge(self) -> int {
        match self {
            OverlayEntry::Put(value) => value.charge(),
            OverlayEntry::Delete => 0,
        }
    }
}

/// The charge of an entry whose large values are backed by immutable bytes: it depends on
/// what the entry says alone.
pub open spec fn stable_charge(entry: Option<Seq<u8>>) -> int {
    match entry {
        Some(value) => if value.len() < MAPPED_VALUE_THRESHOLD {
            value.len() as int
        } else {
            0
        },
        None => 0,
    }
}

/// Whether the charge of every entry depends on what it says alone.
pub open spec fn stably_charged(values: Seq<OverlayEntry>) -> bool {
    forall|i: int|
        0 <= i < values.len() ==> (#[trigger] values[i]).charge() == stable_charge(values[i]@)
}

impl Clone for OverlayEntry {
    fn clone(&self) -> (copy: Self)
        ensures
            copy@ == self@,
            copy.charge() == self.charge(),
            self.wf() ==> copy.wf(),
    {
        match self {
            OverlayEntry::Put(value) => OverlayEntry::Put(value.clone()),
            OverlayEntry::Delete => OverlayEntry::Delete,
        }
    }
}

/// A number capped at the largest machine word.
pub open spec fn capped(n: int) -> int {
    if n <= usize::MAX {
        n
    } else {
        usize::MAX as int
    }
}

/// The memory charged for an entry and its key.
pub open spec fn entry_charge(key: Seq<u8>, entry: OverlayEntry) -> int {
    capped(key.len() + entry.charge())
}

fn overlay_entry_memory(key: &[u8], entry: &OverlayEntry) -> (charge: usize)
    requires
        entry.wf(),
    ensures
        charge == entry_charge(key@, *entry),
{
    assert(key@.len() == key.len());
    let value: usize = match entry {
        OverlayEntry::Put(value) => value.overlay_memory_charge(),
        OverlayEntry::Delete => 0,
    };
    key.len().saturating_add(value)
}

/// The memory charged for entries together.
pub open spec fn total_charge(keys: Seq<Seq<u8>>, values: Seq<OverlayEntry>) -> int
    decreases keys.len(),
{
    if keys.len() == 0 {
        0
    } else {
        total_charge(keys.drop_last(), values.drop_last()) + entry_charge(keys.last(), values.last())
    }
}

/// What the entries of an Overlay say of the keys.
pub open spec fn overlay_view(entries: Map<Seq<u8>, OverlayEntry>) -> Map<
    Seq<u8>,
    Option<Seq<u8>>,
> {
    Map::new(|key: Seq<u8>| entries.contains_key(key), |key: Seq<u8>| entries[key]@)
}

/// Whether every entry is well formed.
pub open spec fn entries_wf(values: Seq<OverlayEntry>) -> bool {
    forall|i: int| 0 <= i < values.len() ==> (#[trigger] values[i]).wf()
}

/// A charge is not negative.
pub proof fn lemma_charge_nonnegative(keys: Seq<Seq<u8>>, values: Seq<OverlayEntry>)
    requires
        keys.len() == values.len(),
    ensures
        total_charge(keys, values) >= 0,
    decreases keys.len(),
{
    if keys.len() > 0 {
        lemma_charge_nonnegative(keys.drop_last(), values.drop_last());
    }
}

/// Replacing one entry replaces its charge.
proof fn lemma_charge_update(
    keys: Seq<Seq<u8>>,
    values: Seq<OverlayEntry>,
    at: int,
    key: Seq<u8>,
    value: OverlayEntry,
)
    requires
        keys.len() == values.len(),
        0 <= at < keys.len(),
    ensures
        total_charge(keys.update(at, key), values.update(at, value)) == total_charge(keys, values)
            - entry_charge(keys[at], values[at]) + entry_charge(key, value),
    decreases keys.len(),
{
    let k = keys.update(at, key);
    let v = values.update(at, value);
    if at == keys.len() - 1 {
        assert(k.drop_last() =~= keys.drop_last());
        assert(v.drop_last() =~= values.drop_last());
    } else {
        assert(k.drop_last() =~= keys.drop_last().update(at, key));
        assert(v.drop_last() =~= values.drop_last().update(at, value));
        lemma_charge_update(keys.drop_last(), values.drop_last(), at, key, value);
    }
}

/// Entries with the same views have the same charge.
proof fn lemma_charge_same(keys: Seq<Seq<u8>>, values: Seq<OverlayEntry>, other: Seq<OverlayEntry>)
    requires
        keys.len() == values.len(),
        keys.len() == other.len(),
        forall|i: int|
            0 <= i < values.len() ==> (#[trigger] values[i]).charge() == other[i].charge(),
    ensures
        total_charge(keys, values) == total_charge(keys, other),
    decreases keys.len(),
{
    if keys.len() > 0 {
        assert(values.last().charge() == other.last().charge());
        assert forall|i: int| 0 <= i < values.drop_last().len() implies (
        #[trigger] values.drop_last()[i]).charge() == other.drop_last()[i].charge() by {
            assert(values[i].charge() == other[i].charge());
        }
        lemma_charge_same(keys.drop_last(), values.drop_last(), other.drop_last());
    }
}

/// The memory charged for what is said of the keys, where charges are stable.
pub open spec fn said_charge(said: Map<Seq<u8>, Option<Seq<u8>>>) -> int
    decreases said.dom().len(),
    when said.dom().finite()
{
    if said.dom().len() == 0 {
        0
    } else {
        let key = said.dom().choose();
        said_charge(said.remove(key)) + capped(key.len() + stable_charge(said[key]))
    }
}

/// The charge for what is said is that for one key and that for the others.
proof fn lemma_said_charge(said: Map<Seq<u8>, Option<Seq<u8>>>, key: Seq<u8>)
    requires
        said.dom().finite(),
        said.contains_key(key),
    ensures
        said_charge(said) == said_charge(said.remove(key)) + capped(
            key.len() + stable_charge(said[key]),
        ),
    decreases said.dom().len(),
{
    let first = said.dom().choose();
    assert(said.dom().contains(first));
    assert(said.remove(key).dom() =~= said.dom().remove(key));
    assert(said.remove(first).dom() =~= said.dom().remove(first));
    if first != key {
        lemma_said_charge(said.remove(first), key);
        lemma_said_charge(said.remove(key), first);
        assert(said.remove(first).remove(key) =~= said.remove(key).remove(first));
    }
}

/// Stable charges depend on what is said of the keys alone, not on the order in which it was
/// said or on where values are held.
pub proof fn law_stable_charge_depends_on_what_is_said(
    keys: Seq<Seq<u8>>,
    values: Seq<OverlayEntry>,
)
    requires
        keys.no_duplicates(),
        keys.len() == values.len(),
        stably_charged(values),
    ensures
        total_charge(keys, values) == said_charge(
            overlay_view(key_map::pairs_map(keys, values)),
        ),
    decreases keys.len(),
{
    let said = overlay_view(key_map::pairs_map(keys, values));
    key_map::lemma_pairs_map_len(keys, values);
    assert(said.dom() =~= key_map::pairs_map(keys, values).dom());
    if keys.len() > 0 {
        let shorter = keys.drop_last();
        let fewer = values.drop_last();
        let last = keys.last();
        assert(shorter.no_duplicates());
        assert(stably_charged(fewer)) by {
            assert forall|i: int| 0 <= i < fewer.len() implies (#[trigger] fewer[i]).charge()
                == stable_charge(fewer[i]@) by {
                assert(values[i].charge() == stable_charge(values[i]@));
            }
        }
        law_stable_charge_depends_on_what_is_said(shorter, fewer);
        assert(!shorter.contains(last)) by {
            if shorter.contains(last) {
                let i = choose|i: int| 0 <= i < shorter.len() && shorter[i] == last;
                assert(keys[i] == keys[keys.len() - 1]);
            }
        }
        key_map::lemma_pairs_map_push(shorter, fewer, last, values.last());
        assert(shorter.push(last) =~= keys);
        assert(fewer.push(values.last()) =~= values);
        let before = overlay_view(key_map::pairs_map(shorter, fewer));
        assert(said =~= before.insert(last, values.last()@));
        assert(!before.contains_key(last));
        assert(said.remove(last) =~= before);
        lemma_said_charge(said, last);
        assert(values[keys.len() - 1].charge() == stable_charge(values.last()@));
    }
}

/// Calls `Arc::make_mut`: the value itself where it is not shared, and otherwise a clone
/// that takes its place.
#[verifier::external_body]
fn make_mut(index: &mut Arc<OverlayMap<OverlayEntry>>) -> (map: &mut OverlayMap<OverlayEntry>)
    ensures
        *map == **old(index) || cloned(**old(index), *map),
        **final(index) == *final(map),
{
    Arc::make_mut(index)
}

/// The mutable part of a database: what was written since the Base was built.
pub struct OverlayState {
    pub index: Arc<OverlayMap<OverlayEntry>>,
    pub memory: usize,
}

impl View for OverlayState {
    type V = Map<Seq<u8>, Option<Seq<u8>>>;

    open spec fn view(&self) -> Map<Seq<u8>, Option<Seq<u8>>> {
        overlay_view((*self.index)@)
    }
}

impl OverlayState {
    /// The entries are well formed, and nothing is charged for none.
    pub open spec fn wf(self) -> bool {
        &&& self.index.wf()
        &&& entries_wf(self.index.values())
        &&& self.index.keys().len() == 0 ==> self.memory == 0
    }

    /// The charges of all entries together.
    pub open spec fn charge(self) -> int {
        total_charge(self.index.keys(), self.index.values())
    }

    /// The memory charged is that of all entries together.
    pub open spec fn charged(self) -> bool {
        self.memory == self.charge()
    }

    /// The charge of what is said of a key.
    pub open spec fn charge_of(self, key: Seq<u8>) -> int {
        if self.index@.contains_key(key) {
            entry_charge(key, self.index@[key])
        } else {
            0
        }
    }

    /// The charge of every entry depends on what it says alone.
    pub open spec fn stable(self) -> bool {
        stably_charged(self.index.values())
    }

    /// An Overlay with the given entries. The memory charged is that of all entries
    /// together, where a machine word holds it.
    pub fn new(index: OverlayMap<OverlayEntry>) -> (state: Self)
        requires
            index.wf(),
            entries_wf(index.values()),
        ensures
            state.wf(),
            *state.index == index,
            state@ == overlay_view(index@),
            state.memory == capped(total_charge(index.keys(), index.values())),
    {
        let mut memory: usize = 0;
        let mut i: usize = 0;
        let len: usize = index.len();
        proof {
            index.lemma_wf();
            assert(index.keys().take(0) =~= Seq::empty());
        }
        while i < len
            invariant
                i <= len,
                len == index.keys().len(),
                len == index.values().len(),
                index.wf(),
                entries_wf(index.values()),
                memory == capped(
                    total_charge(index.keys().take(i as int), index.values().take(i as int)),
                ),
            decreases len - i,
        {
            let (key, entry) = index.entry_at(i);
            let charge: usize = overlay_entry_memory(key, entry);
            proof {
                assert(index.keys().take(i + 1).drop_last() =~= index.keys().take(i as int));
                assert(index.values().take(i + 1).drop_last() =~= index.values().take(i as int));
                lemma_charge_nonnegative(
                    index.keys().take(i as int),
                    index.values().take(i as int),
                );
            }
            memory = memory.saturating_add(charge);
            i += 1;
        }
        proof {
            assert(index.keys().take(i as int) =~= index.keys());
            assert(index.values().take(i as int) =~= index.values());
        }
        OverlayState { index: Arc::new(index), memory }
    }

    /// Records what is said of a key from now on, in place of what was said before.
    pub fn set(&mut self, key: Vec<u8>, entry: OverlayEntry)
        requires
            old(self).wf(),
            entry.wf(),
        ensures
            final(self).wf(),
            final(self)@ == old(self)@.insert(key@, entry@),
            final(self).memory == capped(
                (if old(self).memory < old(self).charge_of(key@) {
                    0
                } else {
                    old(self).memory - old(self).charge_of(key@)
                }) + entry_charge(key@, entry),
            ),
            old(self).charged() && final(self).charge() <= usize::MAX ==> final(self).charged(),
            final(self).charge() <= old(self).charge() + entry_charge(key@, entry),
            old(self).stable() && entry.charge() == stable_charge(entry@) ==> final(self).stable(),
    {
        let ghost before = *self;
        let ghost key_view = key@;
        let ghost entry_value = entry;
        let charge: usize = overlay_entry_memory(key.as_slice(), &entry);
        let mut memory: usize = self.memory;
        let index = make_mut(&mut self.index);
        let ghost copied = *index;
        proof {
            before.lemma_copied(copied);
            copied.lemma_wf();
        }
        let removed = index.remove(key.as_slice());
        let ghost middle = *index;
        if let Some(previous) = removed {
            proof {
                let at = copied.keys().index_of(key_view);
                assert(copied.keys()[at] == key_view);
                assert(copied@.contains_pair(copied.keys()[at], copied.values()[at]));
                assert(previous == copied.values()[at]);
            }
            let previous_charge: usize = overlay_entry_memory(key.as_slice(), &previous);
            memory = memory.saturating_sub(previous_charge);
        }
        memory = memory.saturating_add(charge);
        index.insert(key, entry);
        let ghost after = *index;
        self.memory = memory;
        proof {
            middle.lemma_wf();
            assert(!middle.keys().contains(key_view)) by {
                if middle.keys().contains(key_view) {
                    assert(middle@.contains_key(key_view));
                }
            }
            assert(after.keys() == middle.keys().push(key_view));
            assert(after.values() == middle.values().push(entry_value));
            assert(after.keys().drop_last() =~= middle.keys());
            assert(after.values().drop_last() =~= middle.values());
            if copied.keys().contains(key_view) {
                let at = copied.keys().index_of(key_view);
                assert(copied.keys()[at] == key_view);
                let keys = copied.keys().update(at, copied.keys().last());
                let values = copied.values().update(at, copied.values().last());
                lemma_charge_update(
                    copied.keys(),
                    copied.values(),
                    at,
                    copied.keys().last(),
                    copied.values().last(),
                );
                assert(keys.last() == copied.keys().last());
                assert(values.last() == copied.values().last());
                assert(total_charge(keys.drop_last(), values.drop_last()) == total_charge(
                    copied.keys(),
                    copied.values(),
                ) - entry_charge(key_view, copied.values()[at]));
            }
            lemma_charge_nonnegative(middle.keys(), middle.values());
            assert forall|i: int| 0 <= i < after.values().len() implies (
            #[trigger] after.values()[i]).wf() && (stably_charged(before.index.values())
                && entry_value.charge() == stable_charge(entry_value@) ==> after.values()[i].charge()
                == stable_charge(after.values()[i]@)) by {
                if i < middle.values().len() {
                    if copied.keys().contains(key_view) {
                        let at = copied.keys().index_of(key_view);
                        let j = if i == at {
                            copied.values().len() - 1
                        } else {
                            i
                        };
                        assert(middle.values()[i] == copied.values()[j]);
                    } else {
                        assert(middle.values()[i] == copied.values()[i]);
                    }
                }
            }
            assert(overlay_view(after@) =~= overlay_view(copied@).insert(
                key_view,
                entry_value@,
            ));
        }
    }

    /// A copy of the entries says the same and is charged the same.
    proof fn lemma_copied(self, copy: OverlayMap<OverlayEntry>)
        requires
            self.wf(),
            copy == *self.index || cloned(*self.index, copy),
        ensures
            copy.wf(),
            entries_wf(copy.values()),
            copy.keys() == self.index.keys(),
            overlay_view(copy@) == self@,
            forall|key: Seq<u8>| #[trigger]
                copy@.contains_key(key) ==> copy@[key].charge() == self.index@[key].charge(),
            total_charge(copy.keys(), copy.values()) == total_charge(
                self.index.keys(),
                self.index.values(),
            ),
            stably_charged(self.index.values()) ==> stably_charged(copy.values()),
    {
        let old_map = *self.index;
        if copy != old_map {
            old_map.lemma_wf();
            copy.lemma_wf();
            assert forall|i: int| 0 <= i < copy.values().len() implies (
            #[trigger] copy.values()[i])@ == old_map.values()[i]@ && copy.values()[i].charge()
                == old_map.values()[i].charge() && copy.values()[i].wf() by {
                assert(old_map.values()[i].wf());
                assert(cloned(old_map.values()[i], copy.values()[i]));
            }
            lemma_charge_same(copy.keys(), copy.values(), old_map.values());
            assert forall|k: Seq<u8>| #[trigger] copy@.contains_key(k) implies copy@[k]@
                == old_map@[k]@ && copy@[k].charge() == old_map@[k].charge() by {
                let i = copy.keys().index_of(k);
                assert(copy.keys()[i] == k);
                assert(copy@.contains_pair(copy.keys()[i], copy.values()[i]));
                assert(old_map@.contains_pair(old_map.keys()[i], old_map.values()[i]));
            }
            assert(overlay_view(copy@) =~= overlay_view(old_map@));
        }
    }

    /// Forgets everything.
    pub fn clear(&mut self)
        ensures
            final(self).wf(),
            final(self)@ == Map::<Seq<u8>, Option<Seq<u8>>>::empty(),
            final(self).index.keys() == Seq::<Seq<u8>>::empty(),
            final(self).memory == 0,
            final(self).charged(),
    {
        self.index = Arc::new(OverlayMap::new());
        self.memory = 0;
        assert(self@ =~= Map::<Seq<u8>, Option<Seq<u8>>>::empty());
    }
}

/// The entries that the data of a Base holds.
pub open spec fn data_entries(data: Seq<u8>) -> Seq<(Seq<u8>, Seq<u8>)> {
    match segment::header_outcome(data) {
        Ok((slots, len)) => match records::parse_records(
            data,
            index::records_offset(slots as int),
            len as nat,
        ) {
            Some((entries, _)) => entries,
            None => Seq::empty(),
        },
        Err(_) => Seq::empty(),
    }
}

/// Whether the checksums that opening a Base computes show every change of a single byte.
pub open spec fn open_tells(
    segment: Seq<u8>,
    superblock: SuperblockView,
    verification: VerificationMode,
) -> bool {
    let data = segment::segment_data(segment);
    segment::layout_outcome(segment) is Ok ==> {
        &&& checksum::tells_apart(segment::metadata_checksum(segment))
        &&& segment::metadata_checksum(segment) == superblock.base_checksum && verification
            == VerificationMode::Full && segment::blocks_outcome(
            data,
            segment::segment_checksums(segment),
            superblock.base_offset,
            0,
            segment::block_count(data.len() as int),
        ) is Ok ==> segment::blocks_tell(data)
    }
}

/// A segment of which a single byte was changed is not opened where all of it is checked, and
/// the change is reported; where blocks are not checked, this holds of the checksum table and
/// the footer. It holds as far as the checksums that are computed show such a change.
pub proof fn law_damaged_segment_is_reported(
    segment: Seq<u8>,
    intact: Seq<u8>,
    superblock: SuperblockView,
    verification: VerificationMode,
    i: int,
)
    requires
        checksum::apart_at(intact, segment, i),
        open_outcome(intact, superblock, verification) is Ok,
        verification == VerificationMode::Full || i >= segment::segment_data(intact).len(),
        open_tells(segment, superblock, verification),
    ensures
        open_outcome(segment, superblock, verification) matches Err(error) && error::error_kind(
            error,
        ) == ErrorKind::InvalidData,
{
    if segment::layout_outcome(segment) is Ok {
        segment::lemma_layout_is_unique(segment, intact);
        let size = segment::layout_outcome(intact)->Ok_0;
        let len = segment.len() as int;
        let count = segment::block_count(size);
        let data = segment::segment_data(segment);
        let sound = segment::segment_data(intact);
        let table = segment::segment_checksums(segment);
        if i >= size {
            assert(checksum::apart_at(
                intact.subrange(size, len),
                segment.subrange(size, len),
                i - size,
            ));
        } else {
            assert(intact.subrange(size, len) =~= segment.subrange(size, len));
            assert(table =~= segment::segment_checksums(intact));
            assert(checksum::apart_at(sound, data, i));
            segment::lemma_blocks_outcome(sound, table, superblock.base_offset, 0, count);
            segment::lemma_damaged_block(data, sound, table, superblock.base_offset, i);
            segment::lemma_blocks_error(data, table, superblock.base_offset, 0, count);
        }
    }
}

/// Whether a segment at `offset` is the Base that is built from `entries`, which have
/// distinct keys.
pub open spec fn holds_entries(
    segment: Seq<u8>,
    offset: u64,
    entries: Seq<(Seq<u8>, Seq<u8>)>,
) -> bool {
    &&& segment == writer::base_segment(offset as int, entries)
    &&& records::entries_fit(entries)
    &&& records::entry_keys(entries).no_duplicates()
    &&& index::base_data_size(entries) <= usize::MAX
    &&& offset + segment.len() <= u64::MAX
}

/// A segment that was built from entries passes every check and gives them back.
pub proof fn lemma_holds_entries(
    segment: Seq<u8>,
    offset: u64,
    entries: Seq<(Seq<u8>, Seq<u8>)>,
)
    requires
        holds_entries(segment, offset, entries),
    ensures
        offset + index::base_data_size(entries) <= u64::MAX,
        segment::layout_outcome(segment) is Ok,
        segment::segment_data(segment) == index::base_data(offset as int, entries),
        segment::segment_data(segment).len() == index::base_data_size(entries),
        segment.len() == segment::segment_size(index::base_data_size(entries)),
        segment::blocks_ok(
            segment::segment_data(segment),
            segment::segment_checksums(segment),
        ),
        segment::header_outcome(segment::segment_data(segment)) == Ok::<(u64, int), ErrorView>(
            (index::slot_count(entries.len()) as u64, entries.len() as int),
        ),
        index::slot_count(entries.len()) <= u64::MAX,
        blocks::structure_ok(segment::segment_data(segment), offset),
        data_entries(segment::segment_data(segment)) == entries,
{
    let data = index::base_data(offset as int, entries);
    let n = index::base_data_size(entries);
    records::lemma_records_size(entries);
    index::lemma_slot_count(entries.len());
    assert(data.len() <= segment.len());
    index::lemma_base_data_len(offset as int, entries);
    assert(data.len() == n);
    index::lemma_base_data(offset as int, entries);
    writer::lemma_segment_layout(data);
    validate::law_written_header(offset as int, entries);
    validate::law_written_base_is_valid(offset as int, entries);
    index::lemma_base_records(offset as int, entries);
}

/// What opening a Base gives: the number of slots and of records.
pub open spec fn open_outcome(
    segment: Seq<u8>,
    superblock: SuperblockView,
    verification: VerificationMode,
) -> std::result::Result<(u64, int), ErrorView> {
    let data = segment::segment_data(segment);
    let checksums = segment::segment_checksums(segment);
    let full = verification == VerificationMode::Full;
    let block_check = segment::blocks_outcome(
        data,
        checksums,
        superblock.base_offset,
        0,
        segment::block_count(data.len() as int),
    );
    match segment::layout_outcome(segment) {
        Err(error) => Err(error),
        Ok(_) => if segment::metadata_checksum(segment) != superblock.base_checksum {
            Err(error::invalid_data("base checksum metadata mismatch"@))
        } else if full && block_check is Err {
            Err(block_check->Err_0)
        } else {
            match segment::header_outcome(data) {
                Err(error) => Err(error),
                Ok((slots, len)) => if slots != superblock.base_slots || len
                    != superblock.base_len {
                    Err(error::invalid_data("superblock and base header disagree"@))
                } else if full {
                    match validate::validate_outcome(
                        data,
                        superblock.base_offset as int,
                        slots,
                        len,
                    ) {
                        Err(error) => Err(error),
                        Ok(_) => Ok((slots, len)),
                    }
                } else {
                    Ok((slots, len))
                },
            }
        },
    }
}

/// Whether opening a Base reserves memory: everything before complete validation passed, and
/// validation does.
pub open spec fn open_reserves(
    segment: Seq<u8>,
    superblock: SuperblockView,
    verification: VerificationMode,
) -> bool {
    let data = segment::segment_data(segment);
    &&& verification == VerificationMode::Full
    &&& open_outcome(segment, superblock, VerificationMode::OnRead) is Ok
    &&& segment::blocks_outcome(
        data,
        segment::segment_checksums(segment),
        superblock.base_offset,
        0,
        segment::block_count(data.len() as int),
    ) is Ok
    &&& validate::validation_reserves(
        data.len() as int,
        superblock.base_slots,
        superblock.base_len as int,
    )
}

/// What installing a Base that was just built gives.
pub open spec fn install_outcome(
    segment: Seq<u8>,
    superblock: SuperblockView,
) -> std::result::Result<(u64, int), ErrorView> {
    match segment::layout_outcome(segment) {
        Err(error) => Err(error),
        Ok(_) => match segment::header_outcome(segment::segment_data(segment)) {
            Err(error) => Err(error),
            Ok((slots, len)) => if slots != superblock.base_slots || len != superblock.base_len {
                Err(error::invalid_data("installed superblock and base header disagree"@))
            } else {
                Ok((slots, len))
            },
        },
    }
}

/// The Base that lookups go to where the Overlay says nothing.
pub struct ActiveBase {
    pub mapping: BaseBytes,
    pub verifier: Arc<SegmentVerifier>,
    pub offset: u64,
    pub checksum: u32,
    pub slots: u64,
    pub len: usize,
    pub generation: u64,
    pub log_start: u64,
}

/// Calls `said` on a verifier. What comes back is what that call returned.
fn ask_verifier<F: FnOnce(&SegmentVerifier) -> bool>(said: F, verifier: &SegmentVerifier) -> (answer:
    bool)
    requires
        said.requires((verifier,)),
    ensures
        said.ensures((verifier,), answer),
{
    said(verifier)
}

impl ActiveBase {
    /// The data of the Base.
    pub open spec fn data(self) -> Seq<u8> {
        segment::segment_data(self.mapping@)
    }

    /// The checksum table of the Base.
    pub open spec fn table(self) -> Seq<u8> {
        segment::segment_checksums(self.mapping@)
    }

    /// The segment has a layout and a header, the verifier is about it, and its bytes
    /// have file positions.
    pub open spec fn wf(self) -> bool {
        &&& self.mapping.wf()
        &&& segment::layout_outcome(self.mapping@) is Ok
        &&& segment::header_outcome(self.data()) == Ok::<(u64, int), ErrorView>(
            (self.slots, self.len as int),
        )
        &&& self.verifier.wf()
        &&& self.verifier.data() == self.data()
        &&& self.verifier.table() == self.table()
        &&& self.verifier.segment_offset() == self.offset
        &&& self.offset + self.mapping@.len() <= u64::MAX
    }

    /// The entries of the Base, in the order of its records.
    pub open spec fn entries(self) -> Seq<(Seq<u8>, Seq<u8>)> {
        data_entries(self.data())
    }

    /// The Base is one that was built from entries with distinct keys, and its checksum is
    /// known.
    pub open spec fn sound(self) -> bool {
        &&& holds_entries(self.mapping@, self.offset, self.entries())
        &&& self.checksum == segment::metadata_checksum(self.mapping@)
    }

    /// The log starts where the Base ends.
    pub open spec fn is_followed_by_its_log(self) -> bool {
        self.log_start == self.offset + self.mapping@.len()
    }

    /// The records of the Base can all be read, and their keys are distinct.
    pub open spec fn readable(self) -> bool {
        &&& self.entries().len() == self.len
        &&& records::parse_records(
            self.data(),
            index::records_offset(self.slots as int),
            self.len as nat,
        ) == Some((self.entries(), self.data().len() as int))
        &&& records::entry_keys(self.entries()).no_duplicates()
    }

    /// A Base that passes complete verification is readable.
    pub proof fn law_verified_base_is_readable(self)
        requires
            self.wf(),
            self.verify_outcome() is Ok,
        ensures
            self.readable(),
    {
        validate::law_validated_base_is_readable(
            self.data(),
            self.offset as int,
            self.slots,
            self.len as nat,
        );
    }

    /// A Base that was built from entries passes complete verification.
    pub proof fn law_sound_base_verifies(self)
        requires
            self.wf(),
            self.sound(),
        ensures
            self.verify_outcome() is Ok,
            self.readable(),
    {
        let entries = self.entries();
        lemma_holds_entries(self.mapping@, self.offset, entries);
        lookup::lemma_range_ok(
            self.data(),
            self.table(),
            self.offset,
            0,
            self.data().len() as int,
        );
        index::lemma_base_records(self.offset as int, entries);
    }

    /// What the Base takes over from a Superblock.
    pub open spec fn follows(self, superblock: SuperblockView) -> bool {
        &&& self.offset == superblock.base_offset
        &&& self.checksum == superblock.base_checksum
        &&& self.generation == superblock.generation
        &&& self.log_start == superblock.log_start
    }

    /// Whether `result` is what opening a Base can give, with memory reserved in `room`.
    pub open spec fn opens(
        room: Room,
        mapping: BaseBytes,
        superblock: SuperblockView,
        verification: VerificationMode,
        result: Result<Self>,
    ) -> bool {
        let reserves = open_reserves(mapping@, superblock, verification);
        let exact = open_outcome(mapping@, superblock, verification);
        match result {
            Ok(base) => {
                &&& room.grants(reserves, 1)
                &&& exact == Ok::<(u64, int), ErrorView>((base.slots, base.len as int))
                &&& base.wf()
                &&& base.mapping == mapping
                &&& base.follows(superblock)
                &&& base.verifier.passed() == (verification == VerificationMode::Full)
            },
            Err(error) => {
                ||| room.grants(reserves, 1) && exact == Err::<(u64, int), ErrorView>(error@)
                ||| room.may_refuse(reserves, mapping@.len() as int)
                    && validate::is_allocation_error(error@)
            },
        }
    }

    /// Whether `result` reports damage to a segment, wherever a single byte of one that can be
    /// opened was changed. Without a check of the blocks, damage to the checksum table and the
    /// footer is reported.
    pub open spec fn reports_damage(
        segment: Seq<u8>,
        superblock: SuperblockView,
        verification: VerificationMode,
        result: Result<Self>,
    ) -> bool {
        forall|intact: Seq<u8>, i: int|
            #![trigger checksum::apart_at(intact, segment, i)]
            checksum::apart_at(intact, segment, i) && open_outcome(
                intact,
                superblock,
                verification,
            ) is Ok && (verification == VerificationMode::Full || i >= segment::segment_data(
                intact,
            ).len()) ==> (result matches Err(error) && error::error_kind(error@)
                == ErrorKind::InvalidData)
    }

    /// Opens the Base in `mapping`, which is what the Superblock refers to.
    pub fn open(mapping: BaseBytes, superblock: Superblock, verification: VerificationMode) -> (result:
        Result<Self>)
        requires
            mapping.wf(),
            superblock@.base_offset + mapping@.len() <= u64::MAX,
        ensures
            Self::opens(Room::Ask, mapping, superblock@, verification, result),
            Self::reports_damage(mapping@, superblock@, verification, result),
    {
        ActiveBase::open_in(Room::Ask, mapping, superblock, verification)
    }

    /// Opens the Base in `mapping`, with memory reserved in `room`.
    pub fn open_in(
        room: Room,
        mapping: BaseBytes,
        superblock: Superblock,
        verification: VerificationMode,
    ) -> (result: Result<Self>)
        requires
            mapping.wf(),
            superblock@.base_offset + mapping@.len() <= u64::MAX,
        ensures
            Self::opens(room, mapping, superblock@, verification, result),
            Self::reports_damage(mapping@, superblock@, verification, result),
    {
        let ghost segment = mapping@;
        let result = ActiveBase::open_checked(room, mapping, superblock, verification);
        proof {
            assert forall|intact: Seq<u8>, i: int|
                #![trigger checksum::apart_at(intact, segment, i)]
                checksum::apart_at(intact, segment, i) && open_outcome(
                    intact,
                    superblock@,
                    verification,
                ) is Ok && (verification == VerificationMode::Full || i >= segment::segment_data(
                    intact,
                ).len()) implies (result matches Err(error) && error::error_kind(error@)
                == ErrorKind::InvalidData) by {
                law_damaged_segment_is_reported(segment, intact, superblock@, verification, i);
            }
        }
        result
    }

    fn open_checked(
        room: Room,
        mapping: BaseBytes,
        superblock: Superblock,
        verification: VerificationMode,
    ) -> (result: Result<Self>)
        requires
            mapping.wf(),
            superblock@.base_offset + mapping@.len() <= u64::MAX,
        ensures
            Self::opens(room, mapping, superblock@, verification, result),
            open_tells(mapping@, superblock@, verification),
    {
        let bytes = mapping.as_slice();
        let layout = match segment_layout(bytes) {
            Ok(layout) => layout,
            Err(error) => {
                return Err(error);
            },
        };
        let metadata_checksum: u32 = match segment_metadata_checksum(bytes) {
            Ok(checksum) => checksum,
            Err(error) => {
                return Err(error);
            },
        };
        if metadata_checksum != superblock.base_checksum() {
            return Err(Error::from_io(ErrorKind::InvalidData, "base checksum metadata mismatch"));
        }
        let full: bool = verification == VerificationMode::Full;
        if full {
            match verify_segment_blocks(&layout, superblock.base_offset()) {
                Ok(()) => {},
                Err(error) => {
                    return Err(error);
                },
            }
            proof {
                segment::lemma_blocks_outcome(
                    layout.data_view(),
                    layout.checksums_view(),
                    superblock@.base_offset,
                    0,
                    segment::block_count(layout.data_view().len() as int),
                );
            }
        }
        let (slots, len) = match read_base_header(layout.data()) {
            Ok(header) => header,
            Err(error) => {
                return Err(error);
            },
        };
        if slots != superblock.base_slots() || len as u64 != superblock.base_len() {
            return Err(
                Error::from_io(ErrorKind::InvalidData, "superblock and base header disagree"),
            );
        }
        if full {
            match validate_base_in(room, layout.data(), superblock.base_offset(), slots, len) {
                Ok(()) => {},
                Err(error) => {
                    return Err(error);
                },
            }
        }
        let verifier = Arc::new(SegmentVerifier::new(superblock.base_offset(), &layout, full));
        Ok(ActiveBase::new(mapping, verifier, superblock, slots, len))
    }

    /// Installs a Base that was just built: its blocks and its structure are known to be
    /// intact.
    pub fn install(mapping: BaseBytes, superblock: Superblock) -> (result: Result<Self>)
        requires
            mapping.wf(),
            superblock@.base_offset + mapping@.len() <= u64::MAX,
            segment::layout_outcome(mapping@) is Ok && segment::header_outcome(
                segment::segment_data(mapping@),
            ) is Ok ==> segment::blocks_ok(
                segment::segment_data(mapping@),
                segment::segment_checksums(mapping@),
            ) && blocks::structure_ok(
                segment::segment_data(mapping@),
                superblock@.base_offset,
            ),
        ensures
            match result {
                Ok(base) => {
                    &&& install_outcome(mapping@, superblock@) == Ok::<(u64, int), ErrorView>(
                        (base.slots, base.len as int),
                    )
                    &&& base.wf()
                    &&& base.mapping@ == mapping@
                    &&& base.follows(superblock@)
                    &&& base.verifier.passed()
                },
                Err(error) => install_outcome(mapping@, superblock@) == Err::<
                    (u64, int),
                    ErrorView,
                >(error@),
            },
    {
        let layout = match segment_layout(mapping.as_slice()) {
            Ok(layout) => layout,
            Err(error) => {
                return Err(error);
            },
        };
        let (slots, len) = match read_base_header(layout.data()) {
            Ok(header) => header,
            Err(error) => {
                return Err(error);
            },
        };
        if slots != superblock.base_slots() || len as u64 != superblock.base_len() {
            return Err(
                Error::from_io(
                    ErrorKind::InvalidData,
                    "installed superblock and base header disagree",
                ),
            );
        }
        let verifier = Arc::new(SegmentVerifier::new(superblock.base_offset(), &layout, true));
        Ok(ActiveBase::new(mapping, verifier, superblock, slots, len))
    }

    fn new(
        mapping: BaseBytes,
        verifier: Arc<SegmentVerifier>,
        superblock: Superblock,
        slots: u64,
        len: usize,
    ) -> (base: Self)
        ensures
            base.mapping == mapping,
            base.verifier == verifier,
            base.slots == slots,
            base.len == len,
            base.follows(superblock@),
    {
        ActiveBase {
            mapping,
            verifier,
            offset: superblock.base_offset(),
            checksum: superblock.base_checksum(),
            slots,
            len,
            generation: superblock.generation(),
            log_start: superblock.log_start(),
        }
    }

    /// What complete verification of the Base gives.
    pub open spec fn verify_outcome(self) -> std::result::Result<(), ErrorView> {
        let range_check = lookup::range_outcome(
            self.data(),
            self.table(),
            self.offset,
            0,
            self.data().len() as int,
        );
        if segment::metadata_checksum(self.mapping@) != self.checksum {
            Err(error::invalid_data("base content checksum mismatch"@))
        } else if range_check is Err {
            range_check
        } else {
            validate::validate_outcome(
                self.data(),
                self.offset as int,
                self.slots,
                self.len as int,
            )
        }
    }

    /// Whether complete verification may reserve memory: the checksums match, and
    /// validation does.
    pub open spec fn verify_reserves(self) -> bool {
        &&& !self.verifier.passed()
        &&& segment::metadata_checksum(self.mapping@) == self.checksum
        &&& lookup::range_outcome(
            self.data(),
            self.table(),
            self.offset,
            0,
            self.data().len() as int,
        ) is Ok
        &&& validate::validation_reserves(
            self.data().len() as int,
            self.slots,
            self.len as int,
        )
    }

    /// Whether the verifier of the Base said that the structure has been validated.
    pub closed spec fn was_validated(self) -> bool {
        call_ensures(SegmentVerifier::is_semantically_verified, (&*self.verifier,), true)
    }

    /// Whether `result` is what complete verification can give, with memory reserved in
    /// `room`. What was validated before is not validated again.
    pub open spec fn verifies(self, room: Room, result: std::result::Result<(), ErrorView>) -> bool {
        ||| result == self.verify_outcome() && (room.grants(self.verify_reserves(), 1)
            || self.was_validated())
        ||| room.may_refuse(self.verify_reserves(), self.len as int) && (result matches Err(error)
            && validate::is_allocation_error(error))
    }

    /// Verifies every block and the structure of the Base. Only where memory runs out can
    /// the result be another than the bytes decide.
    pub fn verify(&self) -> (result: Result<()>)
        requires
            self.wf(),
        ensures
            self.verifies(Room::Ask, error::outcome(result)),
    {
        self.verify_in(Room::Ask)
    }

    /// Verifies every block and the structure of the Base, with memory reserved in `room`.
    pub fn verify_in(&self, room: Room) -> (result: Result<()>)
        requires
            self.wf(),
        ensures
            self.verifies(room, error::outcome(result)),
    {
        let bytes = self.mapping.as_slice();
        let layout = match segment_layout(bytes) {
            Ok(layout) => layout,
            Err(error) => {
                return Err(error);
            },
        };
        let metadata_checksum: u32 = match segment_metadata_checksum(bytes) {
            Ok(checksum) => checksum,
            Err(error) => {
                return Err(error);
            },
        };
        if metadata_checksum != self.checksum {
            return Err(Error::from_io(ErrorKind::InvalidData, "base content checksum mismatch"));
        }
        proof {
            if segment::blocks_ok(self.data(), self.table()) {
                lookup::lemma_range_ok(
                    self.data(),
                    self.table(),
                    self.offset,
                    0,
                    self.data().len() as int,
                );
            }
        }
        match self.verifier.verify_range(bytes, 0, layout.data().len()) {
            Ok(()) => {},
            Err(error) => {
                return Err(error);
            },
        }
        if !ask_verifier(SegmentVerifier::is_semantically_verified, &self.verifier) {
            match validate_base_in(room, layout.data(), self.offset, self.slots, self.len) {
                Ok(()) => {},
                Err(error) => {
                    return Err(error);
                },
            }
            self.verifier.mark_semantically_verified();
        }
        Ok(())
    }
}

} // verus!
