//! Reading a Base through the Overlay over it.

use crate::bytes;
use crate::bytes::{same_bytes, u32_at, u64_at};
use crate::database::blocks::SegmentVerifier;
use crate::database::overlay_map::OverlayMap;
use crate::database::state;
use crate::database::state::OverlayEntry;
use crate::error;
use crate::error::{ErrorView, Result};
use crate::format::index;
use crate::format::lookup;
use crate::format::power;
use crate::format::segment;
use crate::format::segment::{BASE_HEADER, SLOT_SIZE};
use crate::hash;
use crate::hash::xxh3_64;
use crate::options::VerificationMode;
use vstd::prelude::*;

verus! {

/// A Base, and what has been verified of it.
#[derive(Clone, Copy)]
pub struct BaseView<'a> {
    pub mapping: &'a [u8],
    pub verifier: &'a SegmentVerifier,
    pub offset: u64,
    pub slots: u64,
}

impl<'a> BaseView<'a> {
    /// The data of the Base.
    pub open spec fn data(self) -> Seq<u8> {
        self.verifier.data()
    }

    /// The checksum table of the Base.
    pub open spec fn table(self) -> Seq<u8> {
        self.verifier.table()
    }

    /// The verifier is about the mapping, and the index lies within the data.
    pub open spec fn wf(self) -> bool {
        &&& self.verifier.wf()
        &&& self.verifier.describes(self.mapping@)
        &&& self.verifier.segment_offset() == self.offset
        &&& self.slots == 0 || power::is_power(self.slots as int)
        &&& index::records_offset(self.slots as int) <= self.data().len()
    }

    /// Whether the Base is the one that is built from `entries`, which have distinct keys.
    pub open spec fn built_from(self, entries: Seq<(Seq<u8>, Seq<u8>)>) -> bool {
        &&& state::holds_entries(self.mapping@, self.offset, entries)
        &&& self.data() == segment::segment_data(self.mapping@)
        &&& self.table() == segment::segment_checksums(self.mapping@)
        &&& self.slots == index::slot_count(entries.len())
    }

    /// What looking up a key gives, with the blocks that are read checked or not.
    pub open spec fn lookup(self, key: Seq<u8>, verify: bool) -> std::result::Result<
        Option<Seq<u8>>,
        ErrorView,
    > {
        lookup::lookup_outcome(
            self.data(),
            self.table(),
            verify,
            self.offset,
            self.slots as int,
            key,
        )
    }

    /// What looking up a key under some hash gives.
    pub open spec fn lookup_hashed(self, key: Seq<u8>, hash: u64, verify: bool) -> std::result::Result<
        Option<Seq<u8>>,
        ErrorView,
    > {
        lookup::lookup_from(
            self.data(),
            self.table(),
            verify,
            self.offset,
            self.slots as int,
            key,
            hash,
            0,
        )
    }
}

/// A Base and the Overlay over it.
#[derive(Clone, Copy)]
pub struct ReadView<'a> {
    pub base: BaseView<'a>,
    pub overlay: &'a OverlayMap<OverlayEntry>,
    pub verification: VerificationMode,
}

/// What a lookup returned, by the bytes that it found.
pub open spec fn found(result: Result<Option<&[u8]>>) -> std::result::Result<
    Option<Seq<u8>>,
    ErrorView,
> {
    match result {
        Ok(Some(value)) => Ok(Some(value@)),
        Ok(None) => Ok(None),
        Err(error) => Err(error@),
    }
}

impl<'a> ReadView<'a> {
    pub open spec fn wf(self) -> bool {
        &&& self.base.wf()
        &&& self.overlay.wf()
        &&& state::entries_wf(self.overlay.values())
    }

    /// What reading a key gives: what the Overlay says, and otherwise what the Base
    /// holds.
    pub open spec fn lookup(self, key: Seq<u8>, verify: bool) -> std::result::Result<
        Option<Seq<u8>>,
        ErrorView,
    > {
        if self.overlay@.contains_key(key) {
            Ok(self.overlay@[key]@)
        } else {
            self.base.lookup(key, verify)
        }
    }

    /// Whether `result` is what reading a key can give. Blocks are checked in the mode
    /// that asks for it, unless all of them are known to be intact.
    pub open spec fn can_give(
        self,
        key: Seq<u8>,
        result: std::result::Result<Option<Seq<u8>>, ErrorView>,
    ) -> bool {
        ||| result == self.lookup(key, self.verification == VerificationMode::OnRead)
        ||| segment::blocks_ok(self.base.data(), self.base.table()) && result == self.lookup(
            key,
            false,
        )
    }

    /// The value of `key`.
    pub fn get(self, key: &[u8]) -> (result: Result<Option<&'a [u8]>>)
        requires
            self.wf(),
        ensures
            self.can_give(key@, found(result)),
    {
        let key_hash: u64 = xxh3_64(key);
        if let Some(entry) = self.overlay.get_hashed(key, key_hash) {
            proof {
                self.lemma_entry_wf(key@);
            }
            return match entry {
                OverlayEntry::Delete => Ok(None),
                OverlayEntry::Put(value) => Ok(Some(value.as_slice())),
            };
        }
        lookup_segment(self.base, self.verification, key, key_hash)
    }

    proof fn lemma_entry_wf(self, key: Seq<u8>)
        requires
            self.wf(),
            self.overlay@.contains_key(key),
        ensures
            self.overlay@[key].wf(),
    {
        self.overlay.lemma_wf();
        let i = self.overlay.keys().index_of(key);
        assert(self.overlay.keys()[i] == key);
        assert(self.overlay@.contains_pair(self.overlay.keys()[i], self.overlay.values()[i]));
    }

    /// Whether `result` is what checking a range of the Base can give, where there is one.
    /// Blocks are checked in the mode that asks for it, unless all of them are known to be
    /// intact.
    pub open spec fn can_check(
        self,
        range: Option<(usize, usize)>,
        result: std::result::Result<(), ErrorView>,
    ) -> bool {
        match range {
            Some((start, end)) => if self.verification == VerificationMode::OnRead {
                ||| result == lookup::range_outcome(
                    self.base.data(),
                    self.base.table(),
                    self.base.offset,
                    start as int,
                    end as int,
                )
                ||| segment::blocks_ok(self.base.data(), self.base.table()) && result is Ok
            } else {
                result is Ok
            },
            None => result is Ok,
        }
    }

    /// Checks the blocks that hold a range of the Base, in the mode that asks for it and
    /// where there is a range.
    pub fn verify_located(self, range: Option<(usize, usize)>) -> (result: Result<()>)
        requires
            self.wf(),
        ensures
            self.can_check(range, error::outcome(result)),
            self.base.verifier.passed() ==> result is Ok,
    {
        if self.verification != VerificationMode::OnRead {
            return Ok(());
        }
        match range {
            Some((start, end)) => self.base.verifier.verify_range(self.base.mapping, start, end),
            None => Ok(()),
        }
    }

    /// Checks the blocks that hold a key and a value, in the mode that asks for it and
    /// where the two lie in the Base. Where they lie, only their addresses tell.
    pub fn verify_pair(self, key: &[u8], value: &[u8]) -> (result: Result<()>)
        requires
            self.wf(),
        ensures
            self.verification != VerificationMode::OnRead ==> result is Ok,
            self.base.verifier.passed() ==> result is Ok,
            exists|range: Option<(usize, usize)>| #[trigger]
                can_locate(
                    self.base.mapping@.len() as int,
                    key@.len() as int,
                    value@.len() as int,
                    range,
                ) && is_located(self.base.mapping, key, value, range) && self.can_check(
                    range,
                    error::outcome(result),
                ),
    {
        let range = pair_range(self.base.mapping, key, value);
        self.verify_located(range)
    }
}

/// Looks a key up in a Base, under some hash. In a Base that was built from entries with
/// distinct keys, what is found under the hash of the key is what the entries say of it, in
/// every mode.
pub fn lookup_segment<'a>(
    base: BaseView<'a>,
    verification: VerificationMode,
    key: &[u8],
    key_hash: u64,
) -> (result: Result<Option<&'a [u8]>>)
    requires
        base.wf(),
    ensures
        found(result) == base.lookup_hashed(
            key@,
            key_hash,
            verification == VerificationMode::OnRead,
        ) || (segment::blocks_ok(base.data(), base.table()) && found(result) == base.lookup_hashed(
            key@,
            key_hash,
            false,
        )),
        forall|entries: Seq<(Seq<u8>, Seq<u8>)>| #[trigger]
            base.built_from(entries) && key_hash == hash::xxh3_64_value(key@) ==> found(result)
                == Ok::<Option<Seq<u8>>, ErrorView>(lookup::entries_map(entries).get(key@)),
{
    proof {
        assert forall|entries: Seq<(Seq<u8>, Seq<u8>)>, verify: bool|
            #![trigger base.built_from(entries), base.lookup_hashed(key@, key_hash, verify)]
            base.built_from(entries) && key_hash == hash::xxh3_64_value(
                key@,
            ) implies base.lookup_hashed(key@, key_hash, verify) == Ok::<
            Option<Seq<u8>>,
            ErrorView,
        >(lookup::entries_map(entries).get(key@)) by {
            state::lemma_holds_entries(base.mapping@, base.offset, entries);
            lookup::law_lookup_finds_what_was_written(
                base.offset,
                entries,
                base.table(),
                verify,
                key@,
            );
        }
    }
    probe_segment(base, verification, key, key_hash)
}

/// Probes the slots of a Base for a key.
fn probe_segment<'a>(
    base: BaseView<'a>,
    verification: VerificationMode,
    key: &[u8],
    key_hash: u64,
) -> (result: Result<Option<&'a [u8]>>)
    requires
        base.wf(),
    ensures
        found(result) == base.lookup_hashed(
            key@,
            key_hash,
            verification == VerificationMode::OnRead,
        ) || (segment::blocks_ok(base.data(), base.table()) && found(result) == base.lookup_hashed(
            key@,
            key_hash,
            false,
        )),
{
    let mapping = base.mapping;
    let verifier = base.verifier;
    if base.slots == 0 {
        return Ok(None);
    }
    let data_size: usize = verifier.data_size();
    assert(mapping@.len() == mapping.len());
    let slots: usize = base.slots as usize;
    let mut verify_on_read: bool = verification == VerificationMode::OnRead
        && !verifier.is_fully_verified();
    let ghost data = base.data();
    let ghost asked = verification == VerificationMode::OnRead;
    let mut slot: usize = (key_hash % base.slots) as usize;
    let mut distance: usize = 0;
    proof {
        index::lemma_next_probe(key_hash, 0, slots as int);
    }
    while distance < slots
        invariant
            distance <= slots,
            slots == base.slots,
            slots > 0,
            base.wf(),
            mapping == base.mapping,
            verifier == base.verifier,
            mapping@.len() == mapping.len(),
            data == base.data(),
            data_size == data.len(),
            slot < slots,
            slot == index::probe(key_hash, distance as int, slots as int),
            asked == (verification == VerificationMode::OnRead),
            verify_on_read ==> asked,
            verify_on_read == asked || segment::blocks_ok(base.data(), base.table()),
            base.lookup_hashed(key@, key_hash, verify_on_read) == lookup::lookup_from(
                data,
                base.table(),
                verify_on_read,
                base.offset,
                slots as int,
                key@,
                key_hash,
                distance as int,
            ),
            segment::blocks_ok(base.data(), base.table()) ==> base.lookup_hashed(key@, key_hash, false)
                == lookup::lookup_from(
                data,
                base.table(),
                false,
                base.offset,
                slots as int,
                key@,
                key_hash,
                distance as int,
            ),
        decreases slots - distance,
    {
        let slot_offset: usize = BASE_HEADER + slot * SLOT_SIZE;
        proof {
            if segment::blocks_ok(base.data(), base.table()) {
                lookup::lemma_range_ok(
                    data,
                    base.table(),
                    base.offset,
                    slot_offset as int,
                    slot_offset + SLOT_SIZE,
                );
            }
        }
        if verify_on_read {
            match verifier.verify_range(mapping, slot_offset, slot_offset + SLOT_SIZE) {
                Ok(()) => {},
                Err(error) => {
                    return Err(error);
                },
            }
        }
        let stored_fingerprint: u32 = u32_at(mapping, slot_offset);
        let absolute_offset: u64 = u64_at(mapping, slot_offset + 4);
        proof {
            lemma_same_u32(data, mapping@, slot_offset as int);
            lemma_same_u64(data, mapping@, slot_offset + 4);
        }
        if absolute_offset == 0 {
            return Ok(None);
        }
        if stored_fingerprint == (key_hash / 0x1_0000_0000) as u32 {
            if absolute_offset < base.offset {
                return Ok(None);
            }
            let relative: u64 = absolute_offset - base.offset;
            if relative > data_size as u64 || data_size - (relative as usize) < 8 {
                return Ok(None);
            }
            let offset: usize = relative as usize;
            let key_len: usize = u32_at(mapping, offset) as usize;
            let value_len: usize = u32_at(mapping, offset + 4) as usize;
            proof {
                lemma_same_u32(data, mapping@, offset as int);
                lemma_same_u32(data, mapping@, offset + 4);
            }
            let key_start: usize = offset + 8;
            let value_start: usize = match key_start.checked_add(key_len) {
                Some(value_start) => value_start,
                None => {
                    return Ok(None);
                },
            };
            let value_end: usize = match value_start.checked_add(value_len) {
                Some(value_end) => value_end,
                None => {
                    return Ok(None);
                },
            };
            if verify_on_read {
                proof {
                    if segment::blocks_ok(base.data(), base.table()) && value_end <= data_size {
                        lookup::lemma_range_ok(
                            data,
                            base.table(),
                            base.offset,
                            offset as int,
                            value_end as int,
                        );
                    }
                }
                match verifier.verify_range(mapping, offset, value_end) {
                    Ok(()) => {},
                    Err(error) => {
                        return Err(error);
                    },
                }
                // A range beyond the data passes only once every block has been verified.
                if value_end > data_size {
                    verify_on_read = false;
                }
            }
            if value_end <= data_size {
                assert(mapping@.subrange(key_start as int, value_start as int)
                    =~= segment::record_key(data, offset as int));
                assert(mapping@.subrange(value_start as int, value_end as int)
                    =~= segment::record_value(data, offset as int));
                if same_bytes(&mapping[key_start..value_start], key) {
                    return Ok(Some(&mapping[value_start..value_end]));
                }
            }
        }
        proof {
            index::lemma_next_probe(key_hash, distance as int, slots as int);
        }
        slot = if slot + 1 == slots {
            0
        } else {
            slot + 1
        };
        distance += 1;
    }
    Ok(None)
}

/// Data that a mapping starts with is read from the mapping.
proof fn lemma_same_u32(data: Seq<u8>, mapping: Seq<u8>, at: int)
    requires
        data.len() <= mapping.len(),
        mapping.subrange(0, data.len() as int) == data,
        0 <= at,
        at + 4 <= data.len(),
    ensures
        bytes::le_u32(mapping, at) == bytes::le_u32(data, at),
{
    assert(mapping.subrange(at, at + 4) =~= data.subrange(at, at + 4)) by {
        assert(data =~= mapping.subrange(0, data.len() as int));
    }
    bytes::lemma_le_u32_same(mapping, at, data, at);
}

/// Data that a mapping starts with is read from the mapping.
proof fn lemma_same_u64(data: Seq<u8>, mapping: Seq<u8>, at: int)
    requires
        data.len() <= mapping.len(),
        mapping.subrange(0, data.len() as int) == data,
        0 <= at,
        at + 8 <= data.len(),
    ensures
        bytes::le_u64(mapping, at) == bytes::le_u64(data, at),
{
    assert(mapping.subrange(at, at + 8) =~= data.subrange(at, at + 8)) by {
        assert(data =~= mapping.subrange(0, data.len() as int));
    }
    bytes::lemma_le_u64_same(mapping, at, data, at);
}

/// Calls `as_ptr` on the slice: the address of its first byte. Which address that is, only
/// the run can tell; the bytes do not reach beyond the address space.
#[verifier::external_body]
fn address_of(bytes: &[u8]) -> (address: usize)
    ensures
        address + bytes@.len() <= usize::MAX,
{
    bytes.as_ptr() as usize
}

/// Calls `address` on a slice. What comes back is what that call returned.
fn ask_address<F: FnOnce(&[u8]) -> usize>(address: F, bytes: &[u8]) -> (answer: usize)
    requires
        address.requires((bytes,)),
    ensures
        address.ensures((bytes,), answer),
{
    address(bytes)
}

/// Whether `range` is where a key and a value lie in a mapping, by the addresses that
/// `address_of` returned for the three.
pub closed spec fn is_located(
    mapping: &[u8],
    key: &[u8],
    value: &[u8],
    range: Option<(usize, usize)>,
) -> bool {
    exists|mapping_start: usize, key_start: usize, value_start: usize|
        {
            &&& #[trigger] call_ensures(address_of, (mapping,), mapping_start)
            &&& #[trigger] call_ensures(address_of, (key,), key_start)
            &&& #[trigger] call_ensures(address_of, (value,), value_start)
            &&& range == located(
                mapping_start as int,
                mapping@.len() as int,
                key_start as int,
                value_start as int,
                value@.len() as int,
            )
        }
}

/// A key and a value are located in a mapping, for the addresses that `address_of` returned,
/// exactly where the key starts within the mapping, and the value ends behind that and within
/// the mapping; and then from where the key starts to where the value ends.
proof fn law_located_by_addresses(
    mapping: &[u8],
    key: &[u8],
    value: &[u8],
    range: Option<(usize, usize)>,
)
    requires
        is_located(mapping, key, value, range),
    ensures
        exists|mapping_start: usize, key_start: usize, value_start: usize|
            {
                &&& #[trigger] call_ensures(address_of, (mapping,), mapping_start)
                &&& #[trigger] call_ensures(address_of, (key,), key_start)
                &&& #[trigger] call_ensures(address_of, (value,), value_start)
                &&& range is Some <==> mapping_start <= key_start && key_start <= value_start
                    + value@.len() && value_start + value@.len() <= mapping_start + mapping@.len()
                &&& range matches Some((start, end)) ==> mapping_start + start == key_start
                    && mapping_start + end == value_start + value@.len()
            },
{
}

/// The range from the start of a key to the end of a value, where both lie within
/// `mapping_len` bytes at `mapping_start`, the key first.
pub open spec fn located(
    mapping_start: int,
    mapping_len: int,
    key_start: int,
    value_start: int,
    value_len: int,
) -> Option<(usize, usize)> {
    if mapping_start <= key_start <= value_start + value_len <= mapping_start + mapping_len {
        Some(
            (
                (key_start - mapping_start) as usize,
                (value_start + value_len - mapping_start) as usize,
            ),
        )
    } else {
        None
    }
}

/// Whether slices of these lengths can have addresses for which `range` is the range from
/// the key to the value.
pub open spec fn can_locate(
    mapping_len: int,
    key_len: int,
    value_len: int,
    range: Option<(usize, usize)>,
) -> bool {
    exists|mapping_start: usize, key_start: usize, value_start: usize|
        {
            &&& mapping_start + mapping_len <= usize::MAX
            &&& key_start + key_len <= usize::MAX
            &&& value_start + value_len <= usize::MAX
            &&& range == #[trigger] located(
                mapping_start as int,
                mapping_len,
                key_start as int,
                value_start as int,
                value_len,
            )
        }
}

/// The range from the start of a key to the end of a value, where both lie within
/// `mapping_len` bytes at `mapping_start`, the key first.
pub fn pair_range_at(
    mapping_start: usize,
    mapping_len: usize,
    key_start: usize,
    value_start: usize,
    value_len: usize,
) -> (range: Option<(usize, usize)>)
    requires
        mapping_start + mapping_len <= usize::MAX,
        value_start + value_len <= usize::MAX,
    ensures
        range == located(
            mapping_start as int,
            mapping_len as int,
            key_start as int,
            value_start as int,
            value_len as int,
        ),
{
    let mapping_end: usize = mapping_start + mapping_len;
    let value_end: usize = value_start + value_len;
    if key_start >= mapping_start && value_end >= key_start && value_end <= mapping_end {
        Some((key_start - mapping_start, value_end - mapping_start))
    } else {
        None
    }
}

/// The range of `mapping` from the start of a key to the end of a value, where both
/// belong to it. Whether they do, their addresses decide.
pub fn pair_range(mapping: &[u8], key: &[u8], value: &[u8]) -> (range: Option<(usize, usize)>)
    ensures
        range matches Some((start, end)) ==> start <= end <= mapping@.len(),
        can_locate(mapping@.len() as int, key@.len() as int, value@.len() as int, range),
        is_located(mapping, key, value, range),
{
    assert(mapping@.len() == mapping.len());
    assert(value@.len() == value.len());
    let mapping_start: usize = ask_address(address_of, mapping);
    let key_start: usize = ask_address(address_of, key);
    let value_start: usize = ask_address(address_of, value);
    pair_range_at(mapping_start, mapping.len(), key_start, value_start, value.len())
}

} // verus!
