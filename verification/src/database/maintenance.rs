//! Compaction: all live entries move to one Base, and the image shrinks to it.

use super::{Database, HandleState};
use crate::database::compaction;
use crate::database::entries;
use crate::database::entries::RawEntries;
use crate::database::live;
use crate::database::state;
use crate::database::state::{ActiveBase, BaseBytes};
use crate::database::storage;
use crate::database::storage::Storage;
use crate::error;
use crate::error::{Error, ErrorKind, ErrorView, Result};
use crate::format::buffer;
use crate::format::buffer::{write_base_at, OffsetBuffer};
use crate::format::index;
use crate::format::lookup;
use crate::format::records;
use crate::format::segment;
use crate::format::segment::{
    measure_base_iter, read_base_header, segment_layout, segment_metadata_checksum,
};
use crate::format::superblock;
use crate::format::superblock::{Superblock, DATA_START, SUPERBLOCK_SIZE};
use crate::format::validate;
use crate::format::writer;
use crate::key_map;
use crate::room::Room;
use std::sync::Arc;
use vstd::prelude::*;

verus! {

/// The number of handles on the guard of a database: its own, and one for each snapshot.
/// This is `Arc::strong_count`. Other threads may drop snapshots at any time, so nothing is
/// stated of the number.
#[verifier::external_body]
pub(crate) fn guard_count(guard: &Arc<()>) -> (count: usize)
{
    Arc::strong_count(guard)
}

/// Calls `count` on `guard`. What comes back is what that call returned.
fn ask_guard<F: FnOnce(&Arc<()>) -> usize>(count: F, guard: &Arc<()>) -> (answer: usize)
    requires
        count.requires((guard,)),
    ensures
        count.ensures((guard,), answer),
{
    count(guard)
}

/// The error when snapshots keep an image from being rebuilt.
pub open spec fn snapshots_error() -> ErrorView {
    error::io_error(ErrorKind::WouldBlock, "compact requires all snapshots to be dropped"@)
}

/// The error when the size of the rebuilt image overflows.
pub open spec fn size_overflow_error() -> ErrorView {
    error::invalid_input("compact size overflow"@)
}

/// The errors that report an allocation that could not be made while a Base is built.
pub open spec fn is_build_failure(error: ErrorView) -> bool {
    ||| error == buffer::reserve_error()
    ||| error == writer::checksum_allocation_error()
}

/// Collects entries until the first that cannot be read.
pub(crate) fn collect_entries<'a>(entries: RawEntries<'a>) -> (pairs: Vec<(&'a [u8], &'a [u8])>)
    requires
        entries.wf(),
        entries.pending() is None,
    ensures
        segment::pairs_view(pairs@) == entries::plain(entries.remaining()),
{
    let mut entries = entries;
    let ghost all = entries.remaining();
    let mut pairs: Vec<(&'a [u8], &'a [u8])> = Vec::new();
    let mut going: bool = true;
    while going
        invariant
            entries.wf(),
            pairs@.len() + entries.remaining().len() == all.len(),
            entries.remaining() == all.skip(pairs@.len() as int),
            segment::pairs_view(pairs@) == entries::plain(all).take(pairs@.len() as int),
            going ==> entries.pending() is None,
            !going ==> entries.remaining().len() == 0,
        decreases entries.remaining().len(), (if going { 1int } else { 0int }),
    {
        let ghost before = pairs@;
        let ghost n = pairs@.len() as int;
        match entries.next() {
            Some(pair) => {
                pairs.push(pair);
                proof {
                    assert(all.skip(n)[0] == all[n]);
                    assert(entries.remaining() =~= all.skip(n + 1));
                    assert(segment::pairs_view(pairs@) =~= segment::pairs_view(before).push(
                        (pair.0@, pair.1@),
                    ));
                    assert(entries::plain(all).take(n + 1) =~= entries::plain(all).take(n).push(
                        entries::plain(all)[n],
                    ));
                }
            },
            None => {
                going = false;
            },
        }
    }
    assert(entries::plain(all).take(pairs@.len() as int) =~= entries::plain(all));
    pairs
}

/// Builds the Base over `entries` that is to stand at `offset`.
pub(crate) fn build_memory_base(
    room: Room,
    offset: u64,
    expected_size: u64,
    len: usize,
    entries: &[(&[u8], &[u8])],
) -> (result: Result<Arc<Vec<u8>>>)
    requires
        entries@.len() <= index::slot_count(len as nat),
        expected_size == segment::segment_size(
            index::base_data_size(segment::pairs_view(entries@)),
        ),
        expected_size <= usize::MAX,
        buffer::place_fits(
            offset as int,
            offset as int,
            len as int,
            segment::pairs_view(entries@),
        ),
    ensures
        match result {
            Ok(bytes) => {
                &&& room.grants(true, 1)
                &&& writer::build_outcome(
                    offset as int,
                    len as int,
                    segment::pairs_view(entries@),
                ) == Ok::<Seq<u8>, ErrorView>(bytes@)
                &&& bytes@.len() == expected_size
            },
            Err(error) => {
                ||| room.grants(true, 1) && writer::build_outcome(
                    offset as int,
                    len as int,
                    segment::pairs_view(entries@),
                ) == Err::<Seq<u8>, ErrorView>(error@)
                ||| room.may_refuse(true, expected_size as int) && is_build_failure(error@)
            },
        },
{
    proof {
        records::lemma_records_size(segment::pairs_view(entries@));
        assert(expected_size > 0);
        writer::lemma_index_has_room(offset as int, len as int, segment::pairs_view(entries@));
        writer::lemma_base_segment_len(offset as int, segment::pairs_view(entries@));
    }
    let mut file = match OffsetBuffer::new_in(room, offset, expected_size) {
        Ok(file) => file,
        Err(error) => {
            return Err(error);
        },
    };
    let size: u64 = match write_base_at(&mut file, offset, len, entries) {
        Ok(size) => size,
        Err(error) => {
            return Err(error);
        },
    };
    let bytes = file.into_inner();
    proof {
        let all = segment::pairs_view(entries@);
        assert(bytes@ =~= writer::base_segment(offset as int, all));
    }
    if bytes.len() as u64 != size {
        return Err(Error::other("in-memory Base size does not match its buffer"));
    }
    Ok(Arc::new(bytes))
}

/// Entries that were measured can be built at `start`, where their lengths are within the
/// limits of the format and the segment has file positions.
pub proof fn law_measured_entries_can_be_built(start: int, entries: Seq<(Seq<u8>, Seq<u8>)>)
    requires
        0 <= start,
        segment::measure_outcome(entries) is Ok,
        records::entries_fit(entries),
        start + (segment::measure_outcome(entries)->Ok_0).1 <= u64::MAX,
    ensures
        writer::build_outcome(start, entries.len() as int, entries) == Ok::<Seq<u8>, ErrorView>(
            writer::base_segment(start, entries),
        ),
{
    index::lemma_slot_count(entries.len());
    records::lemma_records_size(entries);
    let slots = index::slot_count(entries.len()) as int;
    let at = start + index::records_offset(slots);
    assert(entries.take(0) =~= Seq::empty());
    writer::lemma_write_scan(entries, at, 0);
}

/// What was built over entries with distinct keys is the Base over them.
pub proof fn lemma_built_base(start: u64, len: int, entries: Seq<(Seq<u8>, Seq<u8>)>)
    requires
        writer::build_outcome(start as int, len, entries) is Ok,
        segment::measure_outcome(entries) == Ok::<(int, int), ErrorView>(
            (len, segment::segment_size(index::base_data_size(entries))),
        ),
        records::entry_keys(entries).no_duplicates(),
        start + segment::segment_size(index::base_data_size(entries)) <= u64::MAX,
    ensures
        state::holds_entries(writer::base_segment(start as int, entries), start, entries),
        writer::build_outcome(start as int, len, entries) == Ok::<Seq<u8>, ErrorView>(
            writer::base_segment(start as int, entries),
        ),
{
    writer::lemma_base_segment_len(start as int, entries);
    let slots = segment::slot_count_outcome(len)->Ok_0;
    lemma_scanned_fits(entries, start + index::records_offset(slots), 0);
    assert(records::entries_fit(entries));
    let size = index::base_data_size(entries);
    assert(segment::block_count(size) >= 0);
}

/// Entries that can be written are within the limits of the format.
proof fn lemma_scanned_fits(entries: Seq<(Seq<u8>, Seq<u8>)>, offset: int, i: int)
    requires
        0 <= i <= entries.len(),
        writer::write_scan(entries, offset, i) is Ok,
    ensures
        forall|j: int|
            i <= j < entries.len() ==> segment::lengths_fit(
                (#[trigger] entries[j]).0.len() as int,
                entries[j].1.len() as int,
            ),
    decreases entries.len() - i,
{
    if i < entries.len() {
        lemma_scanned_fits(entries, offset + records::record_size(entries[i]), i + 1);
    }
}

impl Database {
    /// Whether `guard_count` said of the guard of this database that `guards` handles on it
    /// are alive.
    pub closed spec fn counts_guards(self, guards: int) -> bool {
        exists|counted: usize|
            counted == guards && #[trigger] call_ensures(
                guard_count,
                (&self.snapshot_guard,),
                counted,
            )
    }

    /// What counts as the number of handles is what `guard_count` returned for the guard of
    /// this database, and nothing else.
    proof fn law_guards_are_counted(self, guards: int)
        requires
            self.counts_guards(guards),
        ensures
            0 <= guards <= usize::MAX,
            call_ensures(guard_count, (&self.snapshot_guard,), guards as usize),
    {
    }

    /// Counts the handles on the guard of this database.
    pub(crate) fn count_guards(&self) -> (guards: usize)
        ensures
            self.counts_guards(guards as int),
    {
        ask_guard(guard_count, &self.snapshot_guard)
    }

    /// Whether the image already consists of one Base in its place.
    pub open spec fn is_compact(self) -> bool {
        &&& self.base_part().offset == DATA_START
        &&& self.overlay_part().index.keys().len() == 0
        &&& self.storage_part().size() == self.base_part().log_start
    }

    /// What has to be rebuilt: the number of live entries and the size of their Base, or
    /// nothing. `guards` counts the database and its snapshots.
    pub open spec fn compact_check(self, guards: int) -> std::result::Result<
        Option<(int, int)>,
        ErrorView,
    > {
        if self.health() != HandleState::Healthy {
            Err(ErrorView::Poisoned)
        } else if guards != 1 {
            Err(snapshots_error())
        } else {
            match self.base_part().verify_outcome() {
                Err(error) => Err(error),
                Ok(_) => if self.is_compact() {
                    Ok(None)
                } else {
                    match segment::measure_outcome(self.live()) {
                        Err(error) => Err(error),
                        Ok(measured) => Ok(Some(measured)),
                    }
                },
            }
        }
    }

    /// Whether checking for anything to rebuild may reserve memory.
    pub open spec fn compact_reserves(self, guards: int) -> bool {
        &&& self.health() == HandleState::Healthy
        &&& guards == 1
        &&& self.base_part().verify_reserves()
    }

    /// Whether `error` reports that memory for that check was refused.
    pub open spec fn check_refused(self, guards: int, error: ErrorView) -> bool {
        &&& self.settings().room.may_refuse(
            self.compact_reserves(guards),
            self.base_part().len as int,
        )
        &&& validate::is_allocation_error(error)
    }

    /// Checks whether there is anything to rebuild. Only where memory runs out can the
    /// result be another than the state decides.
    pub(crate) fn start_rebuild(&self, guards: usize) -> (result: Result<Option<(usize, u64)>>)
        requires
            self.wf(),
        ensures
            match result {
                Ok(None) => self.compact_check(guards as int) == Ok::<
                    Option<(int, int)>,
                    ErrorView,
                >(None),
                Ok(Some((len, size))) => {
                    &&& self.compact_check(guards as int) == Ok::<Option<(int, int)>, ErrorView>(
                        Some((len as int, size as int)),
                    )
                    &&& self.base_part().readable()
                    &&& len == self.live().len()
                    &&& size == segment::segment_size(index::base_data_size(self.live()))
                    &&& size <= usize::MAX
                },
                Err(error) => self.compact_check(guards as int) == Err::<
                    Option<(int, int)>,
                    ErrorView,
                >(error@) || self.check_refused(guards as int, error@),
            },
    {
        match self.ensure_writable() {
            Ok(()) => {},
            Err(error) => {
                return Err(error);
            },
        }
        if guards != 1 {
            return Err(
                Error::from_io(
                    ErrorKind::WouldBlock,
                    "compact requires all snapshots to be dropped",
                ),
            );
        }
        match self.verify() {
            Ok(()) => {},
            Err(error) => {
                return Err(error);
            },
        }
        proof {
            self.base.law_verified_base_is_readable();
            let overlay = *self.overlay.index;
            overlay.lemma_wf();
        }
        if self.base.offset == DATA_START && self.overlay.index.is_empty() && self.storage.len()
            == self.base.log_start {
            return Ok(None);
        }
        let pairs = collect_entries(self.iter_raw());
        match measure_base_iter(pairs.as_slice()) {
            Ok((len, size)) => Ok(Some((len, size))),
            Err(error) => Err(error),
        }
    }

    /// Whether this is what rebuilding `before` makes of it: one Base in its place that holds
    /// the live entries, and nothing in the Overlay.
    pub open spec fn rebuilt(self, before: Database) -> bool {
        &&& self.wf()
        &&& self.sound()
        &&& self.contents() == before.contents()
        &&& self.base_part().entries() == before.live()
        &&& self.base_part().mapping@ == writer::base_segment(DATA_START as int, before.live())
        &&& self.base_part().offset == DATA_START
        &&& self.base_part().log_start == self.storage_part().size()
        &&& self.storage_part().size() == DATA_START + self.base_part().mapping@.len()
        &&& self.is_compact()
        &&& self.overlay_part()@ == Map::<Seq<u8>, Option<Seq<u8>>>::empty()
        &&& self.overlay_part().memory == 0
        &&& self.settings() == before.settings()
        &&& self.health() == HandleState::Healthy
    }

    /// Whether the image in memory is that of the Base: on its page the Superblock that names
    /// the Base, and the Base behind the pages, up to the end.
    pub open spec fn is_published(self) -> bool {
        let base = self.base_part();
        let page = superblock::page_offset(base.generation);
        &&& self.storage_part() matches Storage::Memory(memory)
        &&& memory.image().len() == DATA_START + base.mapping@.len()
        &&& memory.image().subrange(page, page + SUPERBLOCK_SIZE) == superblock::page_bytes(
            compaction::superblock_for(base.generation, DATA_START, base.entries()),
        )
        &&& memory.image().subrange(DATA_START as int, memory.image().len() as int)
            == base.mapping@
    }

    /// Whether the database differs from another only in that no more can be written, and in
    /// its image.
    pub open spec fn stopped(self, before: Database) -> bool {
        &&& self.wf()
        &&& self.health() == HandleState::WritePoisoned
        &&& self.base_part() == before.base_part()
        &&& self.overlay_part() == before.overlay_part()
        &&& self.settings() == before.settings()
    }

    /// Whether `result` is what rebuilding in memory gives, and `after` what it makes of the
    /// database. Where memory for the check or for the new Base is refused, nothing changes;
    /// where it is refused for the pages, no more can be written.
    pub open spec fn compacts_in_memory(
        self,
        guards: int,
        result: std::result::Result<(), ErrorView>,
        after: Database,
    ) -> bool {
        let room = self.settings().room;
        ||| after == self && (result matches Err(error) && self.check_refused(guards, error))
        ||| match self.compact_check(guards) {
            Err(error) => result == Err::<(), ErrorView>(error) && after == self,
            Ok(None) => result == Ok::<(), ErrorView>(()) && after == self,
            Ok(Some((len, size))) => if DATA_START + size > u64::MAX {
                result == Err::<(), ErrorView>(size_overflow_error()) && after == self
            } else if DATA_START + size > self.settings().max_database_bytes {
                result == Err::<(), ErrorView>(
                    error::database_full(
                        self.settings().max_database_bytes,
                        (DATA_START + size) as u64,
                    ),
                ) && after == self
            } else {
                ||| room.may_refuse(true, size) && after == self && (result matches Err(error)
                    && is_build_failure(error))
                ||| match writer::build_outcome(DATA_START as int, len, self.live()) {
                    Err(error) => {
                        &&& room.grants(true, 1)
                        &&& result == Err::<(), ErrorView>(error)
                        &&& after == self
                    },
                    Ok(_) => {
                        ||| {
                            &&& room.grants(true, 1)
                            &&& result == Ok::<(), ErrorView>(())
                            &&& after.rebuilt(self)
                            &&& after.storage_part() is Memory
                            &&& after.is_published()
                            &&& after.base_part().generation == self.base_part().generation + 1
                        }
                        ||| {
                            &&& room == Room::Ask
                            &&& room.may_refuse(true, DATA_START as int)
                            &&& result == Err::<(), ErrorView>(storage::growth_error())
                            &&& after.stopped(self)
                        }
                    },
                }
            },
        }
    }

    /// Rebuilds all live entries and shrinks an image in memory in place.
    ///
    /// All snapshots must be dropped before this operation.
    pub fn compact(&mut self) -> (result: Result<()>)
        requires
            old(self).wf(),
            old(self).storage_part() is Memory,
            old(self).compact_check(1) matches Ok(Some(_)) ==> old(self).base_part().generation
                < u64::MAX,
        ensures
            exists|guards: int| #[trigger]
                old(self).compacts_in_memory(guards, error::outcome(result), *final(self)) && old(
                    self,
                ).counts_guards(guards),
            final(self).wf(),
            final(self).contents() == old(self).contents(),
    {
        let guards: usize = self.count_guards();
        let result = self.compact_guarded(guards);
        assert(old(self).compacts_in_memory(guards as int, error::outcome(result), *self));
        result
    }

    /// Rebuilds all live entries and shrinks an image in memory in place, where `guards`
    /// counts the database and its snapshots.
    pub fn compact_guarded(&mut self, guards: usize) -> (result: Result<()>)
        requires
            old(self).wf(),
            old(self).storage_part() is Memory,
            old(self).compact_check(1) matches Ok(Some(_)) ==> old(self).base_part().generation
                < u64::MAX,
        ensures
            old(self).compacts_in_memory(guards as int, error::outcome(result), *final(self)),
            final(self).wf(),
            final(self).contents() == old(self).contents(),
    {
        match self.start_rebuild(guards) {
            Ok(Some((len, size))) => self.compact_memory(len, size, Ghost(guards as int)),
            Ok(None) => Ok(()),
            Err(error) => Err(error),
        }
    }

    fn compact_memory(&mut self, live_len: usize, expected_base_size: u64, guards: Ghost<int>) -> (result:
        Result<()>)
        requires
            old(self).wf(),
            old(self).storage_part() is Memory,
            old(self).base_part().generation < u64::MAX,
            old(self).base_part().readable(),
            old(self).compact_check(guards@) == Ok::<Option<(int, int)>, ErrorView>(
                Some((live_len as int, expected_base_size as int)),
            ),
            live_len == old(self).live().len(),
            expected_base_size == segment::segment_size(index::base_data_size(old(self).live())),
            expected_base_size <= usize::MAX,
        ensures
            old(self).compacts_in_memory(guards@, error::outcome(result), *final(self)),
            final(self).wf(),
            final(self).contents() == old(self).contents(),
    {
        let required: u64 = match DATA_START.checked_add(expected_base_size) {
            Some(required) => required,
            None => {
                return Err(Error::from_io(ErrorKind::InvalidInput, "compact size overflow"));
            },
        };
        if required > self.options.max_database_bytes {
            return Err(Error::database_full(self.options.max_database_bytes, required));
        }
        proof {
            self.law_readable_live_entries();
            index::lemma_slot_count(self.live().len());
        }
        let pairs = collect_entries(self.iter_raw());
        let bytes = match build_memory_base(
            self.options.room,
            DATA_START,
            expected_base_size,
            live_len,
            pairs.as_slice(),
        ) {
            Ok(bytes) => bytes,
            Err(error) => {
                return Err(error);
            },
        };
        if bytes.len() as u64 != expected_base_size {
            return Err(Error::other("base size changed while compacting"));
        }
        proof {
            lemma_built_base(DATA_START, live_len as int, self.live());
        }
        self.install_memory_base(DATA_START, bytes, live_len)
    }

    /// Takes over a Base that was published. Where it could not be installed, the image and
    /// the database no longer agree, and no more can be written.
    pub fn finish_superblock_install(&mut self, installed: Result<ActiveBase>) -> (result: Result<()>)
        requires
            old(self).wf(),
            installed matches Ok(base) ==> base.wf(),
            old(self).storage_part() is Memory ==> (installed matches Ok(base) ==> base.sound()
                && base.is_followed_by_its_log()),
        ensures
            final(self).wf(),
            final(self).storage_part() == old(self).storage_part(),
            match (installed, result) {
                (Ok(base), Ok(_)) => {
                    &&& final(self).base_part() == base
                    &&& final(self).overlay_part() == old(self).overlay_part()
                    &&& final(self).settings() == old(self).settings()
                    &&& final(self).health() == old(self).health()
                },
                (Err(failure), Err(error)) => error == failure && final(self).stopped(*old(self)),
                _ => false,
            },
    {
        match installed {
            Ok(base) => {
                self.base = base;
                Ok(())
            },
            Err(error) => {
                self.state = HandleState::WritePoisoned;
                Err(error)
            },
        }
    }

    /// Makes a Base over the live entries the Base of an image in memory.
    fn install_memory_base(&mut self, base_offset: u64, bytes: Arc<Vec<u8>>, live_len: usize) -> (result:
        Result<()>)
        requires
            old(self).wf(),
            old(self).storage_part() is Memory,
            old(self).base_part().generation < u64::MAX,
            old(self).base_part().readable(),
            old(self).health() == HandleState::Healthy,
            base_offset == DATA_START,
            state::holds_entries(bytes@, base_offset, old(self).live()),
            live_len == old(self).live().len(),
        ensures
            match result {
                Ok(()) => {
                    &&& final(self).rebuilt(*old(self))
                    &&& final(self).storage_part() is Memory
                    &&& final(self).is_published()
                    &&& final(self).base_part().generation == old(self).base_part().generation + 1
                },
                Err(error) => {
                    &&& old(self).settings().room.may_refuse(true, DATA_START as int)
                    &&& error@ == storage::growth_error()
                    &&& final(self).stopped(*old(self))
                    &&& final(self).contents() == old(self).contents()
                },
            },
    {
        proof {
            self.law_readable_live_entries();
            state::lemma_holds_entries(bytes@, base_offset, self.live());
        }
        let mapping = BaseBytes::whole(Arc::clone(&bytes));
        let layout = match segment_layout(mapping.as_slice()) {
            Ok(layout) => layout,
            Err(error) => {
                return Err(error);
            },
        };
        let (base_slots, base_len) = match read_base_header(layout.data()) {
            Ok(header) => header,
            Err(error) => {
                return Err(error);
            },
        };
        if base_len != live_len {
            return Err(Error::other("in-memory Base entry count changed"));
        }
        let base_checksum: u32 = match segment_metadata_checksum(mapping.as_slice()) {
            Ok(checksum) => checksum,
            Err(error) => {
                return Err(error);
            },
        };
        let log_start: u64 = match base_offset.checked_add(bytes.len() as u64) {
            Some(log_start) => log_start,
            None => {
                return Err(Error::from_io(ErrorKind::InvalidInput, "Base range overflow"));
            },
        };
        let superblock = Superblock::new(
            self.base.generation + 1,
            base_offset,
            bytes.len() as u64,
            base_slots,
            base_len as u64,
            log_start,
            base_checksum,
        );
        let installed = match ActiveBase::install(mapping, superblock) {
            Ok(installed) => installed,
            Err(error) => {
                return Err(error);
            },
        };
        let written = match &mut self.storage {
            Storage::Memory(memory) => superblock::write(memory, superblock),
            Storage::File(_) => Ok(()),
        };
        match written {
            Ok(()) => {},
            Err(error) => {
                self.state = HandleState::WritePoisoned;
                return Err(error);
            },
        }
        match self.storage.replace_memory_base(base_offset, bytes) {
            Ok(()) => {},
            Err(error) => {
                self.state = HandleState::WritePoisoned;
                return Err(error);
            },
        }
        match self.finish_superblock_install(Ok(installed)) {
            Ok(()) => {},
            Err(error) => {
                return Err(error);
            },
        }
        self.overlay.clear();
        proof {
            let live = old(self).live();
            assert(self.base.entries() == live);
            assert(live::merged(lookup::entries_map(live), self.overlay@) =~= lookup::entries_map(
                live,
            ));
            assert(superblock@ == compaction::superblock_for(
                superblock@.generation,
                DATA_START,
                live,
            ));
            superblock::law_page_roundtrip(superblock@);
            if let Storage::Memory(memory) = &self.storage {
                let page = superblock::page_offset(superblock@.generation);
                let image = memory.image();
                assert(image.subrange(page, page + SUPERBLOCK_SIZE) =~= superblock::page_bytes(
                    superblock@,
                ));
                assert(image.subrange(DATA_START as int, image.len() as int)
                    =~= self.base.mapping@);
            }
        }
        Ok(())
    }
}

/// A database that was rebuilt has nothing to rebuild.
pub proof fn law_rebuilt_database_is_compact(before: Database, after: Database)
    requires
        after.rebuilt(before),
    ensures
        after.compact_check(1) == Ok::<Option<(int, int)>, ErrorView>(None),
{
    after.base_part().law_sound_base_verifies();
}

/// After a compaction that succeeded, also where there was nothing to rebuild, the database
/// holds what it held before, and is compact and verified.
pub proof fn law_compaction_keeps_the_contents(before: Database, guards: int, after: Database)
    requires
        before.wf(),
        before.compacts_in_memory(guards, Ok(()), after),
    ensures
        after.wf(),
        after.contents() == before.contents(),
        after.is_compact(),
        after.health() == HandleState::Healthy,
        after.base_part().verify_outcome() is Ok,
{
    if after != before {
        after.base_part().law_sound_base_verifies();
    }
}

/// After a compaction in memory that succeeded, also where there was nothing to rebuild, every
/// entry is in the Base, which was measured for the live entries, and the image is the pages
/// and the Base; every key reads as before.
pub proof fn law_compaction_in_memory(
    before: Database,
    guards: int,
    after: Database,
    key: Seq<u8>,
    found: std::result::Result<Option<Seq<u8>>, ErrorView>,
)
    requires
        before.wf(),
        before.storage_part() is Memory,
        before.compacts_in_memory(guards, Ok(()), after),
    ensures
        after.can_get(key, found) <==> before.can_get(key, found),
        after.contents().dom().len() == before.contents().dom().len(),
        after.statistics().base_entries == before.contents().dom().len(),
        after.statistics().overlay_entries == 0,
        after.statistics().overlay_log_bytes == 0,
        after.statistics().overlay_memory_bytes == 0,
        after.statistics().stale_bytes == 0,
        after.statistics().storage_bytes == DATA_START + after.statistics().base_bytes,
        after.statistics().base_bytes == segment::segment_size(
            index::base_data_size(before.live()),
        ),
{
    law_compaction_keeps_the_contents(before, guards, after);
    law_compact_statistics(after);
    if after != before {
        state::lemma_holds_entries(
            after.base_part().mapping@,
            after.base_part().offset,
            after.base_part().entries(),
        );
    }
    super::lemma_sound_read(before.base_part(), before.overlay_part()@, key, true);
    super::lemma_sound_read(before.base_part(), before.overlay_part()@, key, false);
    super::lemma_sound_read(after.base_part(), after.overlay_part()@, key, true);
    super::lemma_sound_read(after.base_part(), after.overlay_part()@, key, false);
}

/// The statistics of a database that is compact and verified: all entries are in the Base,
/// nothing is in the Overlay, in its log or before the Base. Where the log starts behind the
/// Base at once, the image is the pages and the Base; and a Base that was built from entries
/// has the size that was measured for them. In memory both always hold.
pub proof fn law_compact_statistics(db: Database)
    requires
        db.wf(),
        db.is_compact(),
        db.base_part().verify_outcome() is Ok,
    ensures
        db.statistics().base_entries == db.contents().dom().len(),
        db.statistics().overlay_entries == 0,
        db.statistics().overlay_log_bytes == 0,
        db.statistics().overlay_memory_bytes == 0,
        db.statistics().stale_bytes == 0,
        db.storage_part() is Memory || db.base_part().is_followed_by_its_log()
            ==> db.statistics().storage_bytes == DATA_START + db.statistics().base_bytes,
        db.storage_part() is Memory || db.sound() ==> db.statistics().base_bytes == segment::segment_size(
            index::base_data_size(db.live()),
        ),
{
    let base = db.base_part();
    base.law_verified_base_is_readable();
    let overlay = *db.overlay_part().index;
    overlay.lemma_wf();
    assert(db.overlay_part()@.dom() =~= overlay@.dom());
    db.law_readable_live_entries();
    live::lemma_nothing_over(base.entries(), overlay.keys(), overlay.values(), 0);
    assert(overlay@.dom() =~= Set::empty());
    key_map::lemma_pairs_map_len(
        records::entry_keys(db.live()),
        records::entry_values(db.live()),
    );
    if db.sound() {
        state::lemma_holds_entries(base.mapping@, base.offset, base.entries());
    }
}

} // verus!
