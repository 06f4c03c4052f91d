//! Transactions and snapshots.

use super::{view_of, Database, HandleState};
use crate::database;
use crate::bytes;
use crate::bytes::{copy_bytes, copy_into, push_bytes};
use crate::checksum;
use crate::checksum::crc32c_append;
use crate::database::blocks::SegmentVerifier;
use crate::database::commit;
use crate::database::entries;
use crate::database::entries::Entries;
use crate::database::live;
use crate::database::overlay_map::OverlayMap;
use crate::database::state;
use crate::database::state::{ActiveBase, BaseBytes, OverlayEntry, ValueBytes, MAPPED_VALUE_THRESHOLD};
use crate::database::view;
use crate::database::view::ReadView;
use crate::error;
use crate::error::{Error, ErrorKind, ErrorView, Result};
use crate::format::log;
use crate::format::log::MAX_LOG_PAYLOAD_SIZE;
use crate::format::lookup;
use crate::format::records;
use crate::format::segment;
use crate::format::segment::{check_lengths, MAX_VALUE_SIZE};
use crate::key_map;
use crate::key_map::KeyMap;
use crate::options::VerificationMode;
use crate::room::Room;
use crate::text;
use crate::text::append_decimal;
use std::sync::Arc;
use vstd::prelude::*;
use vstd::string::StringExecFns;

verus! {

/// Read-only transaction of the database.
pub struct ReadTransaction<'db> {
    db: &'db Database,
}

impl<'db> ReadTransaction<'db> {
    /// The database that is read.
    pub closed spec fn source(self) -> Database {
        *self.db
    }

    pub open spec fn wf(self) -> bool {
        self.source().wf() && self.source().health() != HandleState::Unavailable
    }

    /// Returns the value for the given key.
    pub fn get(&self, key: &[u8]) -> (result: Result<Option<&'db [u8]>>)
        requires
            self.wf(),
        ensures
            self.source().can_get(key@, view::found(result)),
    {
        self.db.get(key)
    }

    /// Returns whether the given key is present in the database.
    pub fn contains_key(&self, key: &[u8]) -> (result: Result<bool>)
        requires
            self.wf(),
        ensures
            exists|found: std::result::Result<Option<Seq<u8>>, ErrorView>| #[trigger]
                self.source().can_get(key@, found) && error::outcome(result) == database::presence(found),
            self.source().sound() ==> error::outcome(result) == Ok::<bool, ErrorView>(
                self.source().contents().contains_key(key@),
            ),
    {
        self.db.contains_key(key)
    }

    /// Iterates over all entries in the database.
    pub fn iter(&self) -> (result: Result<Entries<'db>>)
        requires
            self.wf(),
        ensures
            result matches Ok(entries) && entries.wf() && entries.results()
                == self.source().iteration() && (self.source().sound() ==> entries.results()
                == entries::good_items(self.source().live())),
    {
        self.db.iter()
    }

    /// Returns the number of entries in the database.
    pub fn len(&self) -> (result: Result<usize>)
        requires
            self.wf(),
        ensures
            match result {
                Ok(len) => self.source().len_outcome() == Ok::<int, ErrorView>(len as int),
                Err(error) => self.source().len_outcome() == Err::<int, ErrorView>(error@),
            },
            self.source().sound() ==> (result matches Ok(len) && len == state::capped(
                self.source().contents().dom().len() as int,
            )),
    {
        self.db.len()
    }

    /// Returns whether the database is empty.
    pub fn is_empty(&self) -> (result: Result<bool>)
        requires
            self.wf(),
        ensures
            match result {
                Ok(empty) => self.source().len_outcome() matches Ok(len) && empty == (len == 0),
                Err(error) => self.source().len_outcome() == Err::<int, ErrorView>(error@),
            },
            self.source().sound() ==> (result matches Ok(empty) && empty == (
            self.source().contents() == Map::<Seq<u8>, Seq<u8>>::empty())),
    {
        self.db.is_empty()
    }
}

/// The size check of a single put.
pub open spec fn single_put_outcome(key_len: int, value_len: int) -> std::result::Result<
    (),
    ErrorView,
> {
    let serialized = 13 + key_len + value_len;
    if serialized > usize::MAX {
        Err(error::invalid_input("value is too large"@))
    } else if serialized <= MAX_LOG_PAYLOAD_SIZE {
        Ok(())
    } else {
        Err(error::invalid_input("value cannot fit in a transaction record"@))
    }
}

fn check_single_put_size(key_len: usize, value_len: usize) -> (result: Result<()>)
    ensures
        error::outcome(result) == single_put_outcome(key_len as int, value_len as int),
{
    let fixed: usize = 13;
    let serialized: usize = match fixed.checked_add(key_len) {
        Some(len) => match len.checked_add(value_len) {
            Some(len) => len,
            None => {
                return Err(Error::from_io(ErrorKind::InvalidInput, "value is too large"));
            },
        },
        None => {
            return Err(Error::from_io(ErrorKind::InvalidInput, "value is too large"));
        },
    };
    if serialized <= MAX_LOG_PAYLOAD_SIZE {
        Ok(())
    } else {
        Err(
            Error::from_io(
                ErrorKind::InvalidInput,
                "value cannot fit in a transaction record",
            ),
        )
    }
}

/// The checks of a put.
pub open spec fn put_outcome(key_len: int, value_len: int) -> std::result::Result<(), ErrorView> {
    if !segment::lengths_fit(key_len, value_len) {
        Err(segment::length_limit_error())
    } else {
        single_put_outcome(key_len, value_len)
    }
}

/// The checks of a put whose value is reserved.
pub open spec fn reserve_outcome(key_len: int, value_len: int) -> std::result::Result<
    (),
    ErrorView,
> {
    if value_len > MAX_VALUE_SIZE {
        Err(error::invalid_input("value exceeds the format limit"@))
    } else if !segment::lengths_fit(key_len, 0) {
        Err(segment::length_limit_error())
    } else {
        single_put_outcome(key_len, value_len)
    }
}

fn check_lengths_len(key: &[u8], value_len: usize) -> (result: Result<()>)
    ensures
        error::outcome(result) == reserve_outcome(key@.len() as int, value_len as int),
{
    if value_len > MAX_VALUE_SIZE {
        return Err(Error::from_io(ErrorKind::InvalidInput, "value exceeds the format limit"));
    }
    let empty: Vec<u8> = Vec::new();
    match check_lengths(key, empty.as_slice()) {
        Ok(()) => {},
        Err(error) => {
            return Err(error);
        },
    }
    check_single_put_size(key.len(), value_len)
}

pub const VALUE_COPY_CHUNK_SIZE: usize = 262144;

/// The error for a value that could not be copied.
pub open spec fn copy_error() -> ErrorView {
    error::out_of_memory("could not copy value bytes"@)
}

/// The error for a value that could not be reserved.
pub open spec fn reserve_error() -> ErrorView {
    error::out_of_memory("could not reserve value bytes"@)
}

/// Copies a value chunk by chunk, and computes its checksum on the way.
fn copy_value(room: Room, value: &[u8]) -> (result: Result<(ValueBytes, u32)>)
    requires
        value@.len() > 0,
    ensures
        match result {
            Ok((copy, checksum)) => {
                &&& room.grants(value@.len() > 0, value@.len() as int)
                &&& room != Room::Refused
                &&& copy.wf()
                &&& copy@ == value@
                &&& checksum == checksum::crc32c_value(value@)
            },
            Err(error) => room.may_refuse(true, value@.len() as int) && error@ == copy_error(),
        },
{
    let mut bytes: Vec<u8> = Vec::new();
    if !room.reserve_bytes(&mut bytes, value.len()) {
        return Err(Error::from_io(ErrorKind::OutOfMemory, "could not copy value bytes"));
    }
    let mut checksum: u32 = 0;
    let mut at: usize = 0;
    assert(value@.len() == value.len());
    while at < value.len()
        invariant
            at <= value@.len(),
            room != Room::Refused,
            room.grants(value@.len() > 0, value@.len() as int),
            value@.len() == value.len(),
            bytes@ == value@.subrange(0, at as int),
            at == 0 ==> checksum == 0,
            at > 0 ==> checksum == checksum::crc32c_value(value@.subrange(0, at as int)),
        decreases value@.len() - at,
    {
        let end: usize = if value.len() - at > VALUE_COPY_CHUNK_SIZE {
            at + VALUE_COPY_CHUNK_SIZE
        } else {
            value.len()
        };
        let chunk = &value[at..end];
        proof {
            assert(value@.subrange(0, at as int) + chunk@ =~= value@.subrange(0, end as int));
            if at == 0 {
                assert(chunk@ =~= value@.subrange(0, end as int));
            }
        }
        push_bytes(&mut bytes, chunk);
        checksum = crc32c_append(checksum, chunk);
        at = end;
    }
    assert(value@.subrange(0, at as int) =~= value@);
    Ok((ValueBytes::Owned(bytes), checksum))
}

/// A sequential writer for an exactly-sized value reservation.
pub struct ReservedValue<'a> {
    bytes: &'a mut [u8],
    position: usize,
    checksum: Option<u32>,
}

impl<'a> ReservedValue<'a> {
    /// The reserved bytes.
    pub closed spec fn buffer(self) -> &'a mut [u8] {
        self.bytes
    }

    /// How many bytes were written.
    pub closed spec fn at(self) -> int {
        self.position as int
    }

    /// What was written lies within the reservation, and a checksum that is kept covers
    /// it.
    pub closed spec fn wf(self) -> bool {
        &&& self.position <= self.bytes@.len()
        &&& self.checksum matches Some(checksum) ==> if self.position == 0 {
            checksum == 0
        } else {
            checksum == checksum::crc32c_value(self.bytes@.subrange(0, self.position as int))
        }
    }

    /// The bytes that were written.
    pub open spec fn filled(self) -> Seq<u8> {
        self.buffer()@.subrange(0, self.at())
    }

    /// What was written lies within the reservation.
    pub proof fn law_written_within_the_reservation(self)
        requires
            self.wf(),
        ensures
            0 <= self.at() <= self.buffer()@.len(),
    {
    }

    /// Whether `self` is what writing `input` makes of a reservation: the next bytes are those
    /// of `input` where there is room for all of them, and nothing is written otherwise.
    pub open spec fn follows(self, before: Self, input: Seq<u8>) -> bool {
        &&& self.continues(before)
        &&& self.wf()
        &&& if before.at() + input.len() <= before.buffer()@.len() {
            &&& self.at() == before.at() + input.len()
            &&& self.buffer()@ == bytes::overwritten(before.buffer()@, before.at(), input)
            &&& self.filled() == before.filled() + input
        } else {
            &&& self.at() == before.at()
            &&& self.buffer()@ == before.buffer()@
        }
    }

    /// After any sequence of writes to a reservation, what was written is what those writes
    /// for which there was room gave, one after the other.
    pub proof fn law_accepted_writes_are_what_was_written(states: Seq<Self>, inputs: Seq<Seq<u8>>)
        requires
            states.len() == inputs.len() + 1,
            states[0].wf(),
            forall|i: int|
                0 <= i < inputs.len() ==> (#[trigger] states[i + 1]).follows(states[i], inputs[i]),
        ensures
            states.last().wf(),
            states.last().buffer()@.len() == states[0].buffer()@.len(),
            states.last().filled() == states[0].filled() + accepted_writes(
                states[0].buffer()@.len() - states[0].at(),
                inputs,
            ),
            states.last().at() == states[0].at() + accepted_writes(
                states[0].buffer()@.len() - states[0].at(),
                inputs,
            ).len(),
        decreases inputs.len(),
    {
        if inputs.len() == 0 {
            assert(states.last().filled() =~= states[0].filled() + Seq::<u8>::empty());
        } else {
            let n = inputs.len() - 1;
            let fewer = states.drop_last();
            assert forall|i: int| 0 <= i < inputs.drop_last().len() implies (#[trigger] fewer[i
                + 1]).follows(fewer[i], inputs.drop_last()[i]) by {
                assert(states[i + 1].follows(states[i], inputs[i]));
            }
            Self::law_accepted_writes_are_what_was_written(fewer, inputs.drop_last());
            assert(states[n + 1].follows(states[n], inputs[n]));
            let room = states[0].buffer()@.len() - states[0].at();
            let before = accepted_writes(room, inputs.drop_last());
            assert(states[0].filled() + before + inputs[n] =~= states[0].filled() + (before
                + inputs[n]));
        }
    }

    /// Whether what was written before is still there, with perhaps more behind it.
    pub closed spec fn continues(self, before: Self) -> bool {
        &&& self.wf()
        &&& self.bytes@.len() == before.bytes@.len()
        &&& before.position <= self.position
        &&& self.bytes@.subrange(0, before.position as int) == before.bytes@.subrange(
            0,
            before.position as int,
        )
        &&& (self.checksum is Some) == (before.checksum is Some)
    }

    /// A reservation that nothing was written to goes on from itself.
    pub proof fn law_writing_nothing_is_writing_on(self)
        requires
            self.wf(),
        ensures
            self.continues(self),
    {
    }

    /// Writing on twice is writing on once.
    pub proof fn law_writing_on_twice_is_writing_on(self, middle: Self, before: Self)
        requires
            self.continues(middle),
            middle.continues(before),
        ensures
            self.continues(before),
    {
        let n = before.position as int;
        assert(self.bytes@.subrange(0, n) =~= self.bytes@.subrange(
            0,
            middle.position as int,
        ).subrange(0, n));
        assert(middle.bytes@.subrange(0, n) =~= middle.bytes@.subrange(
            0,
            middle.position as int,
        ).subrange(0, n));
    }

    fn new(bytes: &'a mut [u8], checksum: bool) -> (reserved: Self)
        ensures
            reserved.wf(),
            reserved.at() == 0,
            reserved.buffer()@ == old(bytes)@,
            final(bytes)@ == final(reserved.buffer())@,
            (reserved.checksum is Some) == checksum,
    {
        let checksum = if checksum {
            Some(0)
        } else {
            None
        };
        ReservedValue { bytes, position: 0, checksum }
    }

    /// Returns the number of bytes reserved for this value.
    pub fn len(&self) -> (len: usize)
        ensures
            len == self.buffer()@.len(),
    {
        self.bytes.len()
    }

    /// Returns `true` if no bytes have been written to this value.
    pub fn is_empty(&self) -> (empty: bool)
        ensures
            empty == (self.at() == 0),
    {
        self.position == 0
    }

    /// Returns the number of bytes written to this value.
    pub fn written(&self) -> (written: usize)
        ensures
            written == self.at(),
    {
        self.position
    }

    fn checksum(&self) -> (checksum: Option<u32>)
        ensures
            checksum == self.checksum,
    {
        self.checksum
    }

    fn require_complete(&self) -> (result: Result<()>)
        ensures
            error::outcome(result) == (if self.at() == self.buffer()@.len() {
                Ok::<(), ErrorView>(())
            } else {
                Err(incomplete_error(self.at(), self.buffer()@.len() as int))
            }),
    {
        if self.position == self.bytes.len() {
            Ok(())
        } else {
            let mut message = String::from_str("reserved value is incomplete: wrote ");
            append_decimal(&mut message, self.position as u64);
            message.append(" of ");
            append_decimal(&mut message, self.bytes.len() as u64);
            message.append(" bytes");
            Err(Error::from_io(ErrorKind::InvalidInput, message.as_str()))
        }
    }

    /// Writes the next bytes of the value.
    pub fn write(&mut self, input: &[u8]) -> (result: Result<usize>)
        requires
            old(self).wf(),
        ensures
            final(self).wf(),
            final(self).follows(*old(self), input@),
            final(final(self).buffer())@ == final(old(self).buffer())@,
            match result {
                Ok(written) => {
                    &&& written == input@.len()
                    &&& old(self).at() + input@.len() <= old(self).buffer()@.len()
                },
                Err(error) => {
                    &&& old(self).at() + input@.len() > old(self).buffer()@.len()
                    &&& error@ == error::invalid_input("reserved value length exceeded"@)
                },
            },
    {
        let ghost before = self.bytes@;
        let ghost start = self.position as int;
        assert(before.len() == self.bytes.len());
        if input.len() == 0 {
            assert(bytes::overwritten(before, start, input@) =~= before);
            assert(self.filled() + input@ =~= self.filled());
            return Ok(0);
        }
        let remaining: usize = self.bytes.len().saturating_sub(self.position);
        if input.len() > remaining {
            return Err(Error::from_io(ErrorKind::InvalidInput, "reserved value length exceeded"));
        }
        copy_into(&mut *self.bytes, self.position, input);
        proof {
            let end = start + input@.len();
            assert(self.bytes@.subrange(0, start) =~= before.subrange(0, start));
            assert(before.subrange(0, start) + input@ =~= self.bytes@.subrange(0, end));
            if start == 0 {
                assert(input@ =~= self.bytes@.subrange(0, end));
            }
        }
        if let Some(checksum) = self.checksum {
            self.checksum = Some(crc32c_append(checksum, input));
        }
        self.position = self.position + input.len();
        Ok(input.len())
    }
}

/// What is accepted of writes to a reservation with room for `room` more bytes, one after the
/// other: a write that there is no room for is refused as a whole.
pub open spec fn accepted_writes(room: int, inputs: Seq<Seq<u8>>) -> Seq<u8>
    decreases inputs.len(),
{
    if inputs.len() == 0 {
        Seq::empty()
    } else {
        let before = accepted_writes(room, inputs.drop_last());
        if before.len() + inputs.last().len() <= room {
            before + inputs.last()
        } else {
            before
        }
    }
}

/// A reservation before anything is written to it.
pub open spec fn bytes_of_zeros(len: nat) -> Seq<u8> {
    Seq::new(len, |i: int| 0u8)
}

/// The error for a reservation of which not all was written.
pub open spec fn incomplete_error(written: int, len: int) -> ErrorView {
    error::invalid_input(
        "reserved value is incomplete: wrote "@ + text::decimal(written as nat) + " of "@
            + text::decimal(len as nat) + " bytes"@,
    )
}

/// Write transaction for the database.
pub struct WriteTransaction<'db> {
    db: &'db mut Database,
    staged: KeyMap<OverlayEntry>,
    value_checksums: KeyMap<u32>,
}

impl<'db> WriteTransaction<'db> {
    /// The database that is written.
    pub closed spec fn target(self) -> &'db mut Database {
        self.db
    }

    /// What the transaction says of the keys.
    pub closed spec fn says(self) -> Map<Seq<u8>, Option<Seq<u8>>> {
        commit::staged_view(self.staged)
    }

    /// The staged mutations.
    pub closed spec fn mutations(self) -> KeyMap<OverlayEntry> {
        self.staged
    }

    /// The staged mutations are within the limits of the format, and checksums that are kept
    /// are those of their values.
    pub closed spec fn wf(self) -> bool {
        &&& self.db.wf()
        &&& commit::staged_ok(self.staged)
        &&& self.value_checksums.wf()
        &&& log::checksums_agree(self.staged@, self.value_checksums@)
    }

    /// What the mutations say, and that they are well formed.
    pub proof fn lemma_mutations(self)
        requires
            self.wf(),
        ensures
            commit::staged_ok(self.mutations()),
            self.mutations().keys().no_duplicates(),
            self.mutations().keys().len() == self.mutations().values().len(),
            self.mutations().keys().len() == self.says().dom().len(),
            self.says() == state::overlay_view(
                key_map::pairs_map(self.mutations().keys(), self.mutations().values()),
            ),
    {
        self.staged.lemma_wf();
        assert(self.says().dom() =~= self.staged@.dom());
    }

    /// Whether staging a value reserves memory: a large value that goes to a file is copied
    /// with care.
    pub open spec fn put_reserves(self, value_len: int) -> bool {
        value_len >= MAPPED_VALUE_THRESHOLD && self.target().storage_part() is File
    }

    /// Who answers when memory is reserved.
    pub open spec fn room(self) -> Room {
        self.target().settings().room
    }

    /// What the transaction reads: its own mutations, then the database.
    pub open spec fn can_get(
        self,
        key: Seq<u8>,
        result: std::result::Result<Option<Seq<u8>>, ErrorView>,
    ) -> bool {
        if self.says().contains_key(key) {
            result == Ok::<Option<Seq<u8>>, ErrorView>(self.says()[key])
        } else {
            self.target().can_get(key, result)
        }
    }

    /// Stages what is said of a key from now on.
    fn stage(&mut self, key: &[u8], entry: OverlayEntry, checksum: Option<u32>)
        requires
            old(self).wf(),
            entry.wf(),
            segment::lengths_fit(
                key@.len() as int,
                log::operation_value(entry@).len() as int,
            ),
            checksum matches Some(checksum) ==> (entry@ matches Some(value) && checksum
                == checksum::crc32c_value(value)),
        ensures
            final(self).wf(),
            final(self).target() == old(self).target(),
            final(self).says() == old(self).says().insert(key@, entry@),
    {
        let ghost before = *self;
        match checksum {
            Some(checksum) => {
                self.value_checksums.insert(copy_bytes(key), checksum);
            },
            None => {
                self.value_checksums.remove(key);
            },
        }
        let ghost entry_value = entry;
        self.staged.insert(copy_bytes(key), entry);
        proof {
            before.staged.lemma_wf();
            self.staged.lemma_wf();
            assert(self.says() =~= before.says().insert(key@, entry_value@));
            assert forall|i: int| 0 <= i < self.staged.values().len() implies (
            #[trigger] self.staged.values()[i]).wf() by {
                if before.staged.keys().contains(key@) {
                    let at = before.staged.keys().index_of(key@);
                    if i != at {
                        assert(self.staged.values()[i] == before.staged.values()[i]);
                    }
                } else if i < before.staged.values().len() {
                    assert(self.staged.values()[i] == before.staged.values()[i]);
                }
            }
        }
    }

    /// Puts a key-value pair into the transaction's staging area. Only where memory runs out
    /// can a pair within the limits of the format be refused.
    pub fn put(&mut self, key: &[u8], value: &[u8]) -> (result: Result<()>)
        requires
            old(self).wf(),
        ensures
            final(self).wf(),
            final(self).target() == old(self).target(),
            match put_outcome(key@.len() as int, value@.len() as int) {
                Err(expected) => error::outcome(result) == Err::<(), ErrorView>(expected)
                    && final(self).says() == old(self).says(),
                Ok(_) => match result {
                    Ok(()) => {
                        &&& old(self).room().grants(
                            old(self).put_reserves(value@.len() as int),
                            value@.len() as int,
                        )
                        &&& final(self).says() == old(self).says().insert(key@, Some(value@))
                    },
                    Err(error) => {
                        &&& old(self).room().may_refuse(
                            old(self).put_reserves(value@.len() as int),
                            value@.len() as int,
                        )
                        &&& error@ == copy_error()
                        &&& final(self).says() == old(self).says()
                    },
                },
            },
    {
        match check_lengths(key, value) {
            Ok(()) => {},
            Err(error) => {
                return Err(error);
            },
        }
        match check_single_put_size(key.len(), value.len()) {
            Ok(()) => {},
            Err(error) => {
                return Err(error);
            },
        }
        if value.len() >= MAPPED_VALUE_THRESHOLD && !self.db.storage_is_memory() {
            match copy_value(self.db.options.room, value) {
                Ok((copy, checksum)) => {
                    self.stage(key, OverlayEntry::Put(copy), Some(checksum));
                },
                Err(error) => {
                    return Err(error);
                },
            }
        } else {
            let copy = ValueBytes::Owned(copy_bytes(value));
            self.stage(key, OverlayEntry::Put(copy), None);
        }
        Ok(())
    }

    /// Reserves exactly `value_len` bytes and lets `write` fill them without an intermediate
    /// caller-owned buffer. What `write` leaves in a complete reservation is the value. For a
    /// reservation beyond the limits of the format, `write` is not called.
    pub fn put_reserved<F: FnOnce(&mut ReservedValue<'_>) -> Result<()>>(
        &mut self,
        key: &[u8],
        value_len: usize,
        write: F,
    ) -> (result: Result<()>)
        requires
            old(self).wf(),
            reserve_outcome(key@.len() as int, value_len as int) is Ok ==> forall|
                reserved: &mut ReservedValue<'_>,
            |
                reserved.wf() && reserved.at() == 0 && reserved.buffer()@.len() == value_len
                    ==> #[trigger] write.requires((reserved,)),
            forall|reserved: &mut ReservedValue<'_>, result: Result<()>| #[trigger]
                write.ensures((reserved,), result) ==> final(reserved).continues(*reserved)
                    && final(final(reserved).buffer())@ == final(reserved.buffer())@,
        ensures
            final(self).wf(),
            final(self).target() == old(self).target(),
            match result {
                Ok(()) => {
                    &&& reserve_outcome(key@.len() as int, value_len as int) is Ok
                    &&& old(self).room().grants(value_len > 0, value_len as int)
                    &&& exists|reserved: &mut ReservedValue<'_>|
                        #![trigger write.ensures((reserved,), Ok(()))]
                        {
                            &&& write.ensures((reserved,), Ok(()))
                            &&& reserved.wf()
                            &&& reserved.at() == 0
                            &&& reserved.buffer()@ == bytes_of_zeros(value_len as nat)
                            &&& final(reserved).at() == value_len
                            &&& final(self).says() == old(self).says().insert(
                                key@,
                                Some(final(reserved).buffer()@),
                            )
                        }
                },
                Err(error) => {
                    &&& final(self).says() == old(self).says()
                    &&& match reserve_outcome(key@.len() as int, value_len as int) {
                        Err(expected) => error@ == expected,
                        Ok(_) => {
                            ||| old(self).room().may_refuse(value_len > 0, value_len as int) && error@
                                == reserve_error()
                            ||| old(self).room().grants(value_len > 0, value_len as int) && exists|reserved: &mut ReservedValue<'_>|
                                #![trigger write.ensures((reserved,), Err(error))]
                                {
                                    &&& write.ensures((reserved,), Err(error))
                                    &&& reserved.wf()
                                    &&& reserved.at() == 0
                                    &&& reserved.buffer()@ == bytes_of_zeros(value_len as nat)
                                }
                            ||| old(self).room().grants(value_len > 0, value_len as int) && exists|reserved: &mut ReservedValue<'_>|
                                #![trigger write.ensures((reserved,), Ok(()))]
                                {
                                    &&& write.ensures((reserved,), Ok(()))
                                    &&& reserved.wf()
                                    &&& reserved.at() == 0
                                    &&& reserved.buffer()@ == bytes_of_zeros(value_len as nat)
                                    &&& final(reserved).at() < value_len
                                    &&& error@ == incomplete_error(
                                        final(reserved).at(),
                                        value_len as int,
                                    )
                                }
                        },
                    }
                },
            },
    {
        match check_lengths_len(key, value_len) {
            Ok(()) => {},
            Err(error) => {
                return Err(error);
            },
        }
        let mut value: Vec<u8> = Vec::new();
        if !self.db.options.room.reserve_bytes(&mut value, value_len) {
            return Err(Error::from_io(ErrorKind::OutOfMemory, "could not reserve value bytes"));
        }
        value.resize(value_len, 0);
        assert(value@ =~= bytes_of_zeros(value_len as nat));
        let keep_checksum: bool = value_len >= MAPPED_VALUE_THRESHOLD
            && !self.db.storage_is_memory();
        let mut reserved = ReservedValue::new(value.as_mut_slice(), keep_checksum);
        let outcome = write(&mut reserved);
        let ghost after = reserved;
        assert(exists|lent: &mut ReservedValue<'_>|
            #![trigger write.ensures((lent,), outcome)]
            write.ensures((lent,), outcome) && lent.wf() && lent.at() == 0 && lent.buffer()@
                == bytes_of_zeros(value_len as nat) && final(lent).at() == after.at()
                && final(lent).buffer()@ == after.buffer()@);
        let ghost given = outcome;
        match outcome {
            Ok(unit) => {
                assert(given == Ok::<(), Error>(unit));
                assert(unit == ());
            },
            Err(error) => {
                return Err(error);
            },
        }
        assert(given == Ok::<(), Error>(()));
        match reserved.require_complete() {
            Ok(()) => {},
            Err(error) => {
                return Err(error);
            },
        }
        let checksum = reserved.checksum();
        let ghost filled = reserved.buffer()@;
        proof {
            assert(filled.subrange(0, value_len as int) =~= filled);
        }
        self.stage(key, OverlayEntry::Put(ValueBytes::Owned(value)), checksum);
        Ok(())
    }

    /// Deletes a key in the transaction's staging area.
    pub fn delete(&mut self, key: &[u8]) -> (result: Result<()>)
        requires
            old(self).wf(),
        ensures
            final(self).wf(),
            final(self).target() == old(self).target(),
            if segment::lengths_fit(key@.len() as int, 0) {
                result is Ok && final(self).says() == old(self).says().insert(key@, None)
            } else {
                error::outcome(result) == Err::<(), ErrorView>(segment::length_limit_error())
                    && final(self).says() == old(self).says()
            },
    {
        let empty: Vec<u8> = Vec::new();
        match check_lengths(key, empty.as_slice()) {
            Ok(()) => {},
            Err(error) => {
                return Err(error);
            },
        }
        self.stage(key, OverlayEntry::Delete, None);
        Ok(())
    }

    /// Reads this transaction's latest mutation first, then the committed database.
    pub fn get(&self, key: &[u8]) -> (result: Result<Option<&[u8]>>)
        requires
            self.wf(),
        ensures
            self.can_get(key@, view::found(result)),
    {
        if let Some(entry) = self.staged.get(key) {
            proof {
                let i = self.staged.lemma_entry(key@);
                assert(self.staged.values()[i].wf());
            }
            return match entry {
                OverlayEntry::Put(value) => Ok(Some(value.as_slice())),
                OverlayEntry::Delete => Ok(None),
            };
        }
        self.db.get(key)
    }

    /// Returns whether the transaction reads a value for the key.
    pub fn contains_key(&self, key: &[u8]) -> (result: Result<bool>)
        requires
            self.wf(),
        ensures
            exists|found: std::result::Result<Option<Seq<u8>>, ErrorView>| #[trigger]
                self.can_get(key@, found) && error::outcome(result) == database::presence(found),
    {
        let found = self.get(key);
        assert(self.can_get(key@, view::found(found)));
        match found {
            Ok(value) => Ok(value.is_some()),
            Err(error) => Err(error),
        }
    }

    /// Commits every staged mutation as one atomic change of a database in memory, which is
    /// published at once. A commit to a file goes through `into_parts`.
    pub fn commit(self) -> (result: Result<()>)
        requires
            self.wf(),
            self.target().storage_part() is Memory,
        ensures
            self.target().commits_in_memory(
                self.mutations(),
                error::outcome(result),
                *final(self.target()),
            ),
            result is Ok ==> final(self.target()).contents() == live::merged(
                self.target().contents(),
                self.says(),
            ),
            result is Err ==> *final(self.target()) == *self.target(),
            final(self.target()).wf(),
            final(self.target()).storage_part() is Memory,
            self.target().sound() ==> final(self.target()).sound(),
    {
        proof {
            if self.staged.keys().len() == 0 {
                self.staged.lemma_wf();
                assert(self.says().dom() =~= self.staged@.dom());
                assert(live::merged(self.db.contents(), self.says()) =~= self.db.contents());
            }
        }
        let WriteTransaction { db, staged, value_checksums: _ } = self;
        db.commit_staged_memory(staged)
    }

    /// The database and what is to be committed to it, for a commit to a file.
    pub fn into_parts(self) -> (parts: (&'db mut Database, KeyMap<OverlayEntry>, KeyMap<u32>))
        requires
            self.wf(),
        ensures
            *parts.0 == *self.target(),
            *final(parts.0) == *final(self.target()),
            parts.1 == self.mutations(),
            parts.0.wf(),
            commit::staged_ok(parts.1),
            commit::staged_view(parts.1) == self.says(),
            parts.2.wf(),
            log::checksums_agree(parts.1@, parts.2@),
    {
        let WriteTransaction { db, staged, value_checksums } = self;
        (db, staged, value_checksums)
    }

    /// Explicitly discards all staged mutations. Dropping has the same effect.
    pub fn abort(self)
        ensures
            *final(self.target()) == *self.target(),
    {
    }

    /// The number of staged mutations.
    pub fn len(&self) -> (len: usize)
        requires
            self.wf(),
        ensures
            len == self.says().dom().len(),
    {
        proof {
            assert(self.says().dom() =~= self.staged@.dom());
        }
        self.staged.len()
    }

    /// Whether nothing is staged.
    pub fn is_empty(&self) -> (empty: bool)
        requires
            self.wf(),
        ensures
            empty == (self.says() == Map::<Seq<u8>, Option<Seq<u8>>>::empty()),
    {
        proof {
            if self.staged@ == Map::<Seq<u8>, OverlayEntry>::empty() {
                assert(self.says() =~= Map::<Seq<u8>, Option<Seq<u8>>>::empty());
            } else if self.says() == Map::<Seq<u8>, Option<Seq<u8>>>::empty() {
                assert(self.staged@.dom() =~= self.says().dom());
                assert(self.staged@ =~= Map::<Seq<u8>, OverlayEntry>::empty());
            }
        }
        self.staged.is_empty()
    }
}

impl Database {
    /// Begins a read transaction.
    pub fn begin_read(&self) -> (result: Result<ReadTransaction<'_>>)
        requires
            self.wf(),
        ensures
            match result {
                Ok(read) => read.wf() && read.source() == *self,
                Err(error) => self.health() == HandleState::Unavailable && error@
                    == ErrorView::Poisoned,
            },
    {
        match self.ensure_available() {
            Ok(()) => Ok(ReadTransaction { db: self }),
            Err(error) => Err(error),
        }
    }

    /// Begins a write transaction.
    pub fn begin_write(&mut self) -> (result: Result<WriteTransaction<'_>>)
        requires
            old(self).wf(),
        ensures
            match result {
                Ok(write) => {
                    &&& old(self).health() == HandleState::Healthy
                    &&& old(self).overlay_part().memory <= old(
                        self,
                    ).settings().overlay_memory_limit
                    &&& write.wf()
                    &&& *write.target() == *old(self)
                    &&& *final(self) == *final(write.target())
                    &&& write.says() == Map::<Seq<u8>, Option<Seq<u8>>>::empty()
                },
                Err(error) => {
                    &&& *final(self) == *old(self)
                    &&& if old(self).health() != HandleState::Healthy {
                        error@ == ErrorView::Poisoned
                    } else {
                        let limit = old(self).settings().overlay_memory_limit;
                        let actual = old(self).overlay_part().memory;
                        &&& actual > limit
                        &&& error@ == ErrorView::MaintenanceRequired { limit, actual }
                    }
                },
            },
    {
        match self.ensure_writable() {
            Ok(()) => {},
            Err(error) => {
                return Err(error);
            },
        }
        if self.overlay.memory > self.options.overlay_memory_limit {
            return Err(
                Error::MaintenanceRequired {
                    limit: self.options.overlay_memory_limit,
                    actual: self.overlay.memory,
                },
            );
        }
        let write = WriteTransaction {
            db: self,
            staged: KeyMap::new(),
            value_checksums: KeyMap::new(),
        };
        proof {
            write.staged.lemma_wf();
            assert(write.says() =~= Map::<Seq<u8>, Option<Seq<u8>>>::empty());
        }
        Ok(write)
    }
}

/// The number of entries that an iteration gives, counted from result `i` on; the first
/// failure decides.
pub open spec fn counted(
    results: Seq<std::result::Result<(Seq<u8>, Seq<u8>), ErrorView>>,
    i: int,
) -> std::result::Result<int, ErrorView>
    decreases results.len() - i,
{
    if i >= results.len() {
        Ok(i)
    } else {
        match results[i] {
            Err(error) => Err(error),
            Ok(_) => if i >= usize::MAX {
                Err(error::other_error("snapshot entry count overflow"@))
            } else {
                counted(results, i + 1)
            },
        }
    }
}

/// Results without a failure are counted.
proof fn lemma_counted_good(items: Seq<(Seq<u8>, Seq<u8>)>, i: int)
    requires
        0 <= i <= items.len() <= usize::MAX,
    ensures
        counted(entries::good_items(items), i) == Ok::<int, ErrorView>(items.len() as int),
    decreases items.len() - i,
{
    if i < items.len() {
        lemma_counted_good(items, i + 1);
    }
}

/// Read-only snapshot of the database.
pub struct Snapshot {
    base: BaseBytes,
    verification: VerificationMode,
    base_verifier: Arc<SegmentVerifier>,
    overlay_index: Arc<OverlayMap<OverlayEntry>>,
    base_offset: u64,
    base_slots: u64,
    base_len: usize,
    database_snapshot: Arc<()>,
}

/// Clones a value. What comes back is what `clone` returned.
fn share<T: Clone>(value: &T) -> (shared: T)
    ensures
        vstd::pervasive::strictly_cloned(*value, shared),
{
    value.clone()
}

impl Snapshot {
    /// Whether the snapshot holds a handle on the guard of a database, which `Arc::clone`
    /// returned for it.
    pub closed spec fn is_guarded_by(self, db: Database) -> bool {
        vstd::pervasive::strictly_cloned(db.snapshot_guard, self.database_snapshot)
    }

    /// A snapshot is guarded by nothing but what `Arc::clone` returned for the guard of the
    /// database.
    proof fn law_guard_is_shared(self, db: Database)
        requires
            self.is_guarded_by(db),
        ensures
            vstd::pervasive::strictly_cloned(db.snapshot_guard, self.database_snapshot),
    {
    }

    /// The Base of the snapshot.
    pub closed spec fn base_part(self) -> ActiveBase {
        ActiveBase {
            mapping: self.base,
            verifier: self.base_verifier,
            offset: self.base_offset,
            checksum: segment::metadata_checksum(self.base@),
            slots: self.base_slots,
            len: self.base_len,
            generation: 0,
            log_start: 0,
        }
    }

    /// The Overlay of the snapshot.
    pub closed spec fn overlay_part(self) -> OverlayMap<OverlayEntry> {
        *self.overlay_index
    }

    /// How the snapshot is read.
    pub closed spec fn mode(self) -> VerificationMode {
        self.verification
    }

    pub open spec fn wf(self) -> bool {
        &&& self.base_part().wf()
        &&& self.overlay_part().wf()
        &&& state::entries_wf(self.overlay_part().values())
    }

    /// The Base was built from entries with distinct keys.
    pub open spec fn sound(self) -> bool {
        self.base_part().sound()
    }

    /// What the snapshot holds.
    pub open spec fn contents(self) -> Map<Seq<u8>, Seq<u8>> {
        database::held(self.base_part(), state::overlay_view(self.overlay_part()@))
    }

    /// The entries of the snapshot, in the order of iteration.
    pub open spec fn live(self) -> Seq<(Seq<u8>, Seq<u8>)> {
        live::live_entries(
            self.base_part().entries(),
            self.overlay_part().keys(),
            self.overlay_part().values(),
        )
    }

    /// What iterating over the snapshot gives.
    pub open spec fn iteration(self) -> Seq<std::result::Result<(Seq<u8>, Seq<u8>), ErrorView>> {
        super::iteration_of(self.base_part(), self.overlay_part(), self.mode())
    }

    /// The live entries of a sound snapshot have distinct keys and describe exactly what it
    /// holds.
    pub proof fn law_live_entries(self)
        requires
            self.wf(),
            self.sound(),
        ensures
            records::entry_keys(self.live()).no_duplicates(),
            lookup::entries_map(self.live()) == self.contents(),
            self.contents().dom().finite(),
            self.contents().dom().len() == self.live().len(),
    {
        let overlay = self.overlay_part();
        overlay.lemma_wf();
        live::law_live_entries_are_the_contents(
            self.base_part().entries(),
            overlay.keys(),
            overlay.values(),
        );
        key_map::lemma_pairs_map_len(
            records::entry_keys(self.live()),
            records::entry_values(self.live()),
        );
    }

    fn read_view(&self) -> (view: ReadView<'_>)
        requires
            self.wf(),
        ensures
            view.wf(),
            view.base.mapping@ == self.base_part().mapping@,
            view.base.data() == self.base_part().data(),
            view.base.table() == self.base_part().table(),
            view.base.offset == self.base_part().offset,
            view.base.slots == self.base_part().slots,
            *view.overlay == self.overlay_part(),
            view.verification == self.mode(),
            view.base.mapping@.len() <= usize::MAX,
            segment::header_outcome(view.base.data()) == Ok::<(u64, int), ErrorView>(
                (view.base.slots, self.base_len as int),
            ),
    {
        let view = view_of(
            &self.base,
            &self.base_verifier,
            self.base_offset,
            self.base_slots,
            &self.overlay_index,
            self.verification,
        );
        assert(view.base.mapping@.len() == view.base.mapping.len());
        view
    }

    /// The Overlay of the snapshot, which is shared with the database until the next write.
    pub fn overlay_index(&self) -> (index: &Arc<OverlayMap<OverlayEntry>>)
        ensures
            **index == self.overlay_part(),
    {
        &self.overlay_index
    }

    /// Whether the parts of the snapshot are those of a database.
    pub open spec fn sees(self, db: Database) -> bool {
        let base = self.base_part();
        &&& base.mapping@ == db.base_part().mapping@
        &&& base.data() == db.base_part().data()
        &&& base.table() == db.base_part().table()
        &&& base.offset == db.base_part().offset
        &&& base.slots == db.base_part().slots
        &&& base.len == db.base_part().len
        &&& self.overlay_part() == *db.overlay_part().index
        &&& self.mode() == db.settings().verification
    }

    /// A snapshot gives for every key what the database could give when it was taken, whatever
    /// became of the database since.
    pub proof fn law_snapshot_reads_as_the_database(
        self,
        db: Database,
        key: Seq<u8>,
        result: std::result::Result<Option<Seq<u8>>, ErrorView>,
    )
        requires
            db.wf(),
            db.health() != HandleState::Unavailable,
            self.wf(),
            self.sees(db),
        ensures
            self.can_get(key, result) <==> db.can_get(key, result),
    {
        if self.sound() {
            let said = state::overlay_view(self.overlay_part()@);
            super::lemma_sound_read(self.base_part(), said, key, true);
            super::lemma_sound_read(self.base_part(), said, key, false);
        }
    }

    /// Two reads of one key that both succeed give the same.
    pub proof fn law_reads_agree(
        self,
        key: Seq<u8>,
        first: Option<Seq<u8>>,
        second: Option<Seq<u8>>,
    )
        requires
            self.can_get(key, Ok(first)),
            self.can_get(key, Ok(second)),
        ensures
            first == second,
    {
        database::lemma_reads_agree(
            self.base_part(),
            state::overlay_view(self.overlay_part()@),
            self.mode(),
            key,
            first,
            second,
        );
    }

    /// Whether `result` is what reading a key of this snapshot can give.
    pub open spec fn can_get(
        self,
        key: Seq<u8>,
        result: std::result::Result<Option<Seq<u8>>, ErrorView>,
    ) -> bool {
        &&& database::can_read(
            self.base_part(),
            state::overlay_view(self.overlay_part()@),
            self.mode(),
            key,
            result,
        )
        &&& self.sound() ==> result == Ok::<Option<Seq<u8>>, ErrorView>(
            self.contents().get(key),
        )
    }

    /// Returns the value for the given key.
    pub fn get(&self, key: &[u8]) -> (result: Result<Option<&[u8]>>)
        requires
            self.wf(),
        ensures
            self.can_get(key@, view::found(result)),
    {
        let view = self.read_view();
        proof {
            let said = state::overlay_view(self.overlay_part()@);
            assert forall|verify: bool| #[trigger] view.lookup(key@, verify)
                == super::lookup_through(self.base_part(), said, key@, verify) by {}
            if self.sound() {
                super::lemma_sound_read(self.base_part(), said, key@, true);
                super::lemma_sound_read(self.base_part(), said, key@, false);
            }
        }
        view.get(key)
    }

    /// Returns whether the given key exists.
    pub fn contains_key(&self, key: &[u8]) -> (result: Result<bool>)
        requires
            self.wf(),
        ensures
            exists|found: std::result::Result<Option<Seq<u8>>, ErrorView>| #[trigger]
                self.can_get(key@, found) && error::outcome(result) == database::presence(found),
            self.sound() ==> error::outcome(result) == Ok::<bool, ErrorView>(
                self.contents().contains_key(key@),
            ),
    {
        let found = self.get(key);
        assert(self.can_get(key@, view::found(found)));
        match found {
            Ok(value) => Ok(value.is_some()),
            Err(error) => Err(error),
        }
    }

    /// Iterates over the entries.
    pub fn iter(&self) -> (result: Result<Entries<'_>>)
        requires
            self.wf(),
        ensures
            result matches Ok(entries) && entries.wf() && entries.results() == self.iteration() && (
            self.sound() ==> entries.results() == entries::good_items(self.live())),
    {
        let view = self.read_view();
        proof {
            if self.sound() {
                super::lemma_sound_records(self.base_part());
                entries::lemma_iterates_live_entries(view, self.base_part().entries());
            }
        }
        Ok(Entries::new(view, self.base_len))
    }

    /// Returns the number of entries.
    pub fn len(&self) -> (result: Result<usize>)
        requires
            self.wf(),
        ensures
            match result {
                Ok(len) => counted(self.iteration(), 0) == Ok::<int, ErrorView>(len as int),
                Err(error) => counted(self.iteration(), 0) == Err::<int, ErrorView>(error@),
            },
            self.sound() && self.contents().dom().len() <= usize::MAX ==> (result matches Ok(len)
                && len == self.contents().dom().len()),
    {
        let mut entries = match self.iter() {
            Ok(entries) => entries,
            Err(error) => {
                return Err(error);
            },
        };
        proof {
            if self.sound() {
                self.law_live_entries();
                if self.live().len() <= usize::MAX {
                    lemma_counted_good(self.live(), 0);
                }
            }
        }
        let ghost all = self.iteration();
        let mut len: usize = 0;
        proof {
            assert(all.skip(0) =~= all);
        }
        loop
            invariant
                entries.wf(),
                all == self.iteration(),
                len <= all.len(),
                entries.results() == all.skip(len as int),
                counted(all, 0) == counted(all, len as int),
                self.sound() && self.contents().dom().len() <= usize::MAX ==> counted(all, 0)
                    == Ok::<int, ErrorView>(self.contents().dom().len() as int),
            decreases all.len() - len,
        {
            match entries.next() {
                Some(Ok(_)) => {
                    assert(all.skip(len as int)[0] == all[len as int]);
                    if len == usize::MAX {
                        return Err(Error::other("snapshot entry count overflow"));
                    }
                    assert(all.skip(len as int).drop_first() =~= all.skip(len + 1));
                    len += 1;
                },
                Some(Err(error)) => {
                    assert(all.skip(len as int)[0] == all[len as int]);
                    return Err(error);
                },
                None => {
                    return Ok(len);
                },
            }
        }
    }

    /// Returns whether the snapshot is empty.
    pub fn is_empty(&self) -> (result: Result<bool>)
        requires
            self.wf(),
        ensures
            error::outcome(result) == (if self.iteration().len() == 0 {
                Ok::<bool, ErrorView>(true)
            } else {
                match self.iteration()[0] {
                    Ok(_) => Ok(false),
                    Err(error) => Err(error),
                }
            }),
            self.sound() ==> error::outcome(result) == Ok::<bool, ErrorView>(
                self.contents() == Map::<Seq<u8>, Seq<u8>>::empty(),
            ),
    {
        proof {
            if self.sound() {
                self.law_live_entries();
                if self.live().len() == 0 {
                    assert(self.contents() =~= Map::<Seq<u8>, Seq<u8>>::empty());
                }
            }
        }
        let mut entries = match self.iter() {
            Ok(entries) => entries,
            Err(error) => {
                return Err(error);
            },
        };
        match entries.next() {
            Some(Ok(_)) => Ok(false),
            Some(Err(error)) => Err(error),
            None => Ok(true),
        }
    }
}

impl Database {
    /// Creates a snapshot of the current database state.
    ///
    /// The snapshot is a point-in-time view of the database that may outlive the writer
    /// handle and be read concurrently with later writes.
    pub fn snapshot(&self) -> (result: Result<Snapshot>)
        requires
            self.wf(),
        ensures
            match result {
                Ok(snapshot) => {
                    &&& self.health() != HandleState::Unavailable
                    &&& snapshot.wf()
                    &&& snapshot.contents() == self.contents()
                    &&& snapshot.live() == self.live()
                    &&& snapshot.iteration() == self.iteration()
                    &&& snapshot.sees(*self)
                    &&& self.sound() ==> snapshot.sound()
                    &&& snapshot.mode() == self.settings().verification
                    &&& snapshot.is_guarded_by(*self)
                },
                Err(error) => self.health() == HandleState::Unavailable && error@
                    == ErrorView::Poisoned,
            },
    {
        match self.ensure_available() {
            Ok(()) => {},
            Err(error) => {
                return Err(error);
            },
        }
        let snapshot = Snapshot {
            base: self.base.mapping.clone(),
            verification: self.options.verification,
            base_verifier: Arc::clone(&self.base.verifier),
            overlay_index: Arc::clone(&self.overlay.index),
            base_offset: self.base.offset,
            base_slots: self.base.slots,
            base_len: self.base.len,
            database_snapshot: share(&self.snapshot_guard),
        };
        Ok(snapshot)
    }
}

} // verus!
