//! Compaction of a file. The file is written by whoever opened it; the functions here say
//! what to write, and take in whether that succeeded.
//!
//! A Base over all live entries is first written behind everything else and published, then
//! written to its final place and published there, and then the file is cut. At every point
//! one of the two Superblock pages describes a Base that is complete.

use super::{Database, HandleState};
use crate::database::live;
use crate::database::maintenance;
use crate::database::maintenance::{build_memory_base, collect_entries};
use crate::database::open;
use crate::database::state;
use crate::database::state::{ActiveBase, BaseBytes};
use crate::error;
use crate::error::{Error, ErrorKind, ErrorView, Result};
use crate::format::index;
use crate::format::log;
use crate::format::log::{write_compact_marker, LOG_HEADER_SIZE};
use crate::format::lookup;
use crate::format::records;
use crate::format::segment;
use crate::format::segment::{segment_metadata_checksum, EMPTY_SEGMENT_SIZE};
use crate::format::superblock;
use crate::format::superblock::{encode_page, page_offset_of, Superblock, SuperblockView, DATA_START};
use crate::format::writer;
use crate::room::Room;
use std::sync::Arc;
use vstd::prelude::*;

verus! {

/// Where the parts of a file go that is being rebuilt.
#[derive(Clone, Copy, Debug, PartialEq, Eq, Structural)]
pub struct CompactPlan {
    /// The end of the file before. A record that ends the log goes there.
    pub rollback_offset: u64,
    /// The end of the Base in its final place, and of the file at the end.
    pub destination_end: u64,
    /// Where the Base is staged: behind the file as it was, and behind its final place.
    pub source_offset: u64,
    /// The end of the staged Base.
    pub source_end: u64,
    /// The number of live entries.
    pub live_len: usize,
    /// The size of their Base.
    pub base_size: u64,
}

/// A Base that was built, and the Superblock that publishes it.
pub struct BuiltBase {
    segment: Arc<Vec<u8>>,
    superblock: Superblock,
}

/// The Superblock of a Base over `entries` at `offset`, with no log behind it.
pub open spec fn superblock_for(
    generation: u64,
    offset: u64,
    entries: Seq<(Seq<u8>, Seq<u8>)>,
) -> SuperblockView {
    let segment = writer::base_segment(offset as int, entries);
    SuperblockView {
        generation,
        base_offset: offset,
        base_size: segment.len() as u64,
        base_slots: index::slot_count(entries.len()) as u64,
        base_len: entries.len() as u64,
        log_start: (offset + segment.len()) as u64,
        base_checksum: segment::metadata_checksum(segment),
    }
}

impl BuiltBase {
    /// The bytes of the Base.
    pub closed spec fn bytes(self) -> Seq<u8> {
        self.segment@
    }

    /// The Superblock.
    pub closed spec fn published(self) -> SuperblockView {
        self.superblock@
    }

    /// The entries of the Base.
    pub open spec fn entries(self) -> Seq<(Seq<u8>, Seq<u8>)> {
        state::data_entries(segment::segment_data(self.bytes()))
    }

    /// The Base was built from entries with distinct keys, and the Superblock describes it.
    pub open spec fn wf(self) -> bool {
        let offset = self.published().base_offset;
        &&& state::holds_entries(self.bytes(), offset, self.entries())
        &&& self.published() == superblock_for(
            self.published().generation,
            offset,
            self.entries(),
        )
    }

    /// The bytes of the Base.
    pub fn segment(&self) -> (segment: &[u8])
        ensures
            segment@ == self.bytes(),
    {
        self.segment.as_slice()
    }

    /// Where the Base goes.
    pub fn offset(&self) -> (offset: u64)
        ensures
            offset == self.published().base_offset,
    {
        self.superblock.base_offset()
    }

    /// The page that publishes the Base.
    pub fn page(&self) -> (page: Vec<u8>)
        ensures
            page@ == superblock::page_bytes(self.published()),
    {
        encode_page(self.superblock)
    }

    /// Where the page goes.
    pub fn page_offset(&self) -> (offset: u64)
        ensures
            offset == superblock::page_offset(self.published().generation),
    {
        page_offset_of(self.superblock.generation())
    }

    /// Where a second copy of the page goes.
    pub fn redundant_page_offset(&self) -> (offset: u64)
        ensures
            offset == superblock::other_page_offset(self.published().generation),
    {
        superblock::redundant_page_offset_of(self.superblock.generation())
    }

    /// Builds the Base over `entries` that is to stand at `offset`.
    fn build(
        room: Room,
        generation: u64,
        offset: u64,
        expected_size: u64,
        len: usize,
        entries: &[(&[u8], &[u8])],
    ) -> (result: Result<Self>)
        requires
            segment::measure_outcome(segment::pairs_view(entries@)) == Ok::<(int, int), ErrorView>(
                (len as int, expected_size as int),
            ),
            records::entry_keys(segment::pairs_view(entries@)).no_duplicates(),
            offset + expected_size <= u64::MAX,
        ensures
            match result {
                Ok(built) => {
                    &&& room.grants(true, 1)
                    &&& built.wf()
                    &&& built.entries() == segment::pairs_view(entries@)
                    &&& built.bytes() == writer::base_segment(
                        offset as int,
                        segment::pairs_view(entries@),
                    )
                    &&& built.bytes().len() == expected_size
                    &&& built.published() == superblock_for(
                        generation,
                        offset,
                        segment::pairs_view(entries@),
                    )
                },
                Err(error) => {
                    ||| room.grants(true, 1) && writer::build_outcome(
                        offset as int,
                        len as int,
                        segment::pairs_view(entries@),
                    ) == Err::<Seq<u8>, ErrorView>(error@)
                    ||| room.may_refuse(true, expected_size as int)
                        && maintenance::is_build_failure(error@)
                },
            },
    {
        let ghost all = segment::pairs_view(entries@);
        proof {
            index::lemma_slot_count(all.len());
        }
        let segment = match build_memory_base(room, offset, expected_size, len, entries) {
            Ok(segment) => segment,
            Err(error) => {
                return Err(error);
            },
        };
        proof {
            maintenance::lemma_built_base(offset, len as int, all);
            state::lemma_holds_entries(segment@, offset, all);
        }
        let checksum: u32 = match segment_metadata_checksum(segment.as_slice()) {
            Ok(checksum) => checksum,
            Err(error) => {
                return Err(error);
            },
        };
        let slots: u64 = match segment::base_slot_count(len) {
            Ok(slots) => slots as u64,
            Err(error) => {
                return Err(error);
            },
        };
        let size: u64 = segment.len() as u64;
        let superblock = Superblock::new(
            generation,
            offset,
            size,
            slots,
            len as u64,
            offset + size,
            checksum,
        );
        Ok(BuiltBase { segment, superblock })
    }

    /// Installs the Base.
    fn install(&self) -> (result: Result<ActiveBase>)
        requires
            self.wf(),
        ensures
            result matches Ok(base) && base.wf() && base.sound() && base.mapping@ == self.bytes()
                && base.entries() == self.entries() && base.follows(self.published()),
    {
        proof {
            state::lemma_holds_entries(
                self.bytes(),
                self.published().base_offset,
                self.entries(),
            );
        }
        ActiveBase::install(BaseBytes::Mapped(Arc::clone(&self.segment)), self.superblock)
    }
}

/// The record that ends the log where a Base is staged behind it.
pub fn compact_marker() -> (marker: Vec<u8>)
    ensures
        marker@ == log::compact_marker_bytes(),
{
    let mut marker: Vec<u8> = Vec::new();
    write_compact_marker(&mut marker);
    assert(marker@ =~= log::compact_marker_bytes());
    marker
}

/// A Base without entries that stands for nothing in the file.
fn detached_base(room: Room, generation: u64) -> (result: Result<ActiveBase>)
    ensures
        match result {
            Ok(base) => {
                &&& room.grants(true, 1)
                &&& base.wf()
                &&& base.sound()
                &&& base.entries() == Seq::<(Seq<u8>, Seq<u8>)>::empty()
                &&& base.offset == DATA_START
                &&& base.generation == generation
                &&& base.log_start == DATA_START + EMPTY_SEGMENT_SIZE
            },
            Err(error) => room.may_refuse(true, EMPTY_SEGMENT_SIZE as int)
                && maintenance::is_build_failure(error@),
        },
{
    let none: Vec<(&[u8], &[u8])> = Vec::new();
    proof {
        open::lemma_empty_segment();
        assert(segment::pairs_view(none@) =~= Seq::empty());
        assert(segment::measure_outcome(segment::pairs_view(none@)) == Ok::<(int, int), ErrorView>(
            (0, EMPTY_SEGMENT_SIZE as int),
        ));
        maintenance::law_measured_entries_can_be_built(
            DATA_START as int,
            segment::pairs_view(none@),
        );
    }
    match BuiltBase::build(room, generation, DATA_START, EMPTY_SEGMENT_SIZE, 0, none.as_slice()) {
        Ok(built) => built.install(),
        Err(error) => Err(error),
    }
}

/// A Base that is being moved to its final place, and what stands in for it while the file
/// is cut.
pub struct Relocation {
    built: BuiltBase,
    detached: ActiveBase,
}

impl Relocation {
    /// The Base in its final place.
    pub closed spec fn target(self) -> BuiltBase {
        self.built
    }

    pub closed spec fn wf(self) -> bool {
        &&& self.built.wf()
        &&& self.detached.wf()
        &&& self.detached.sound()
        &&& self.detached.entries() == Seq::<(Seq<u8>, Seq<u8>)>::empty()
    }

    /// The Base in its final place.
    pub fn built(&self) -> (built: &BuiltBase)
        ensures
            *built == self.target(),
            self.wf() ==> built.wf(),
    {
        &self.built
    }
}

impl Database {
    /// Where the parts of the file go, when `len` live entries make a Base of `size` bytes.
    pub open spec fn plan_outcome(self, len: int, size: int) -> std::result::Result<
        CompactPlan,
        ErrorView,
    > {
        let rollback = self.storage_part().size();
        let destination_end = DATA_START + size;
        let marker_end = rollback + LOG_HEADER_SIZE;
        let gap_end = destination_end + LOG_HEADER_SIZE;
        let source = if marker_end > gap_end {
            marker_end
        } else {
            gap_end
        };
        if destination_end > u64::MAX {
            Err(maintenance::size_overflow_error())
        } else if marker_end > u64::MAX {
            Err(error::invalid_input("compact marker overflow"@))
        } else if gap_end > u64::MAX {
            Err(error::invalid_input("compact gap overflow"@))
        } else if source + size > u64::MAX {
            Err(maintenance::size_overflow_error())
        } else {
            match self.capacity_outcome(source + size - rollback) {
                Err(error) => Err(error),
                Ok(_) => Ok(
                    CompactPlan {
                        rollback_offset: rollback as u64,
                        destination_end: destination_end as u64,
                        source_offset: source as u64,
                        source_end: (source + size) as u64,
                        live_len: len as usize,
                        base_size: size as u64,
                    },
                ),
            }
        }
    }

    /// Whether a plan is one for this database.
    pub open spec fn follows_plan(self, plan: CompactPlan) -> bool {
        &&& self.base_part().readable()
        &&& self.health() == HandleState::Healthy
        &&& segment::measure_outcome(self.live()) == Ok::<(int, int), ErrorView>(
            (plan.live_len as int, plan.base_size as int),
        )
        &&& self.plan_outcome(plan.live_len as int, plan.base_size as int) == Ok::<
            CompactPlan,
            ErrorView,
        >(plan)
    }

    /// Whether `result` is what starting to rebuild a file gives.
    pub open spec fn starts_compaction(
        self,
        guards: int,
        result: std::result::Result<Option<CompactPlan>, ErrorView>,
    ) -> bool {
        ||| result matches Err(error) && self.check_refused(guards, error)
        ||| match self.compact_check(guards) {
            Err(error) => result == Err::<Option<CompactPlan>, ErrorView>(error),
            Ok(None) => result == Ok::<Option<CompactPlan>, ErrorView>(None),
            Ok(Some((len, size))) => match self.plan_outcome(len, size) {
                Err(error) => result == Err::<Option<CompactPlan>, ErrorView>(error),
                Ok(plan) => result == Ok::<Option<CompactPlan>, ErrorView>(Some(plan)),
            },
        }
    }

    /// Starts to rebuild a file. With nothing to rebuild there is no plan.
    ///
    /// All snapshots must be dropped before this operation.
    pub fn start_compact(&self) -> (result: Result<Option<CompactPlan>>)
        requires
            self.wf(),
        ensures
            exists|guards: int| #[trigger]
                self.starts_compaction(guards, error::outcome(result)) && self.counts_guards(guards),
            result matches Ok(Some(plan)) ==> self.follows_plan(plan),
    {
        let guards: usize = self.count_guards();
        let result = self.start_compact_guarded(guards);
        assert(self.starts_compaction(guards as int, error::outcome(result)));
        result
    }

    /// Starts to rebuild a file, where `guards` counts the database and its snapshots.
    pub fn start_compact_guarded(&self, guards: usize) -> (result: Result<Option<CompactPlan>>)
        requires
            self.wf(),
        ensures
            self.starts_compaction(guards as int, error::outcome(result)),
            result matches Ok(Some(plan)) ==> self.follows_plan(plan),
    {
        let (live_len, base_size) = match self.start_rebuild(guards) {
            Ok(Some(measured)) => measured,
            Ok(None) => {
                return Ok(None);
            },
            Err(error) => {
                return Err(error);
            },
        };
        let rollback_offset: u64 = self.storage.len();
        let destination_end: u64 = match DATA_START.checked_add(base_size) {
            Some(end) => end,
            None => {
                return Err(Error::from_io(ErrorKind::InvalidInput, "compact size overflow"));
            },
        };
        let marker_end: u64 = match rollback_offset.checked_add(LOG_HEADER_SIZE as u64) {
            Some(end) => end,
            None => {
                return Err(Error::from_io(ErrorKind::InvalidInput, "compact marker overflow"));
            },
        };
        let gap_end: u64 = match destination_end.checked_add(LOG_HEADER_SIZE as u64) {
            Some(end) => end,
            None => {
                return Err(Error::from_io(ErrorKind::InvalidInput, "compact gap overflow"));
            },
        };
        let source_offset: u64 = if marker_end > gap_end {
            marker_end
        } else {
            gap_end
        };
        let source_end: u64 = match source_offset.checked_add(base_size) {
            Some(end) => end,
            None => {
                return Err(Error::from_io(ErrorKind::InvalidInput, "compact size overflow"));
            },
        };
        match self.ensure_capacity(source_end - rollback_offset) {
            Ok(()) => {},
            Err(error) => {
                return Err(error);
            },
        }
        Ok(
            Some(
                CompactPlan {
                    rollback_offset,
                    destination_end,
                    source_offset,
                    source_end,
                    live_len,
                    base_size,
                },
            ),
        )
    }

    /// Goes on after the record that ends the log was written at the end of the file, or
    /// could not be. The Base that comes back is to be written to its offset and synced.
    pub fn compact_marked(&mut self, plan: CompactPlan, marked: Result<()>) -> (result: Result<
        BuiltBase,
    >)
        requires
            old(self).wf(),
            old(self).storage_part() is File,
            old(self).follows_plan(plan),
            old(self).base_part().generation < u64::MAX,
        ensures
            match (marked, result) {
                (Ok(_), Ok(staged)) => {
                    &&& old(self).settings().room.grants(true, 1)
                    &&& *final(self) == *old(self)
                    &&& staged.wf()
                    &&& staged.entries() == old(self).live()
                    &&& staged.bytes() == writer::base_segment(
                        plan.source_offset as int,
                        old(self).live(),
                    )
                    &&& staged.bytes().len() == plan.base_size
                    &&& staged.published() == superblock_for(
                        (old(self).base_part().generation + 1) as u64,
                        plan.source_offset,
                        old(self).live(),
                    )
                },
                (Ok(_), Err(error)) => {
                    &&& final(self).gave_up(*old(self), plan.rollback_offset)
                    &&& old(self).sound() ==> old(self).settings().room.may_refuse(
                        true,
                        plan.base_size as int,
                    )
                    &&& {
                        ||| old(self).settings().room.grants(true, 1) && writer::build_outcome(
                            plan.source_offset as int,
                            plan.live_len as int,
                            old(self).live(),
                        ) == Err::<Seq<u8>, ErrorView>(error@)
                        ||| old(self).settings().room.may_refuse(true, plan.base_size as int)
                            && maintenance::is_build_failure(error@)
                    }
                },
                (Err(failure), Err(error)) => error == failure && final(self).gave_up(
                    *old(self),
                    plan.rollback_offset,
                ),
                _ => false,
            },
    {
        match marked {
            Ok(()) => {},
            Err(error) => {
                self.poison(plan.rollback_offset);
                return Err(error);
            },
        }
        proof {
            self.law_readable_live_entries();
            if self.sound() {
                self.law_live_entries();
                maintenance::law_measured_entries_can_be_built(
                    plan.source_offset as int,
                    self.live(),
                );
            }
        }
        let pairs = collect_entries(self.iter_raw());
        let built = BuiltBase::build(
            self.options.room,
            self.base.generation + 1,
            plan.source_offset,
            plan.base_size,
            plan.live_len,
            pairs.as_slice(),
        );
        match built {
            Ok(staged) => {
                if staged.segment.len() as u64 != plan.base_size {
                    self.poison(plan.rollback_offset);
                    return Err(Error::other("base size changed while compacting"));
                }
                Ok(staged)
            },
            Err(error) => {
                self.poison(plan.rollback_offset);
                Err(error)
            },
        }
    }

    /// Goes on after the staged Base was written and synced, or could not be. Its page is
    /// then to be written and synced.
    pub fn compact_staged(&mut self, plan: CompactPlan, staged: BuiltBase, synced: Result<()>) -> (result:
        Result<BuiltBase>)
        requires
            old(self).wf(),
            old(self).storage_part() is File,
        ensures
            match (synced, result) {
                (Ok(_), Ok(next)) => {
                    &&& next == staged
                    &&& final(self).wf()
                    &&& final(self).base_part() == old(self).base_part()
                    &&& final(self).overlay_part() == old(self).overlay_part()
                    &&& final(self).settings() == old(self).settings()
                    &&& final(self).health() == old(self).health()
                    &&& final(self).storage_part() is File
                    &&& final(self).storage_part().size() == plan.source_end
                },
                (Err(failure), Err(error)) => error == failure && final(self).gave_up(
                    *old(self),
                    plan.rollback_offset,
                ),
                _ => false,
            },
    {
        match synced {
            Ok(()) => {
                match self.storage.set_len(plan.source_end) {
                    Ok(()) => {},
                    Err(_) => {},
                }
                Ok(staged)
            },
            Err(error) => {
                self.poison(plan.rollback_offset);
                Err(error)
            },
        }
    }

    /// Whether this is `before` with a Base of its own that holds the live entries, and
    /// nothing in the Overlay.
    pub open spec fn moved_to(self, before: Database, staged: BuiltBase) -> bool {
        &&& self.wf()
        &&& self.sound()
        &&& self.contents() == before.contents()
        &&& self.live() == before.live()
        &&& self.base_part().mapping@ == staged.bytes()
        &&& self.base_part().entries() == before.live()
        &&& self.base_part().follows(staged.published())
        &&& self.overlay_part()@ == Map::<Seq<u8>, Option<Seq<u8>>>::empty()
        &&& self.overlay_part().memory == 0
        &&& self.settings() == before.settings()
        &&& self.health() == before.health()
        &&& self.storage_part() == before.storage_part()
    }

    /// Goes on after the staged Base was published, or could not be. The Base that comes back
    /// is to be written to its offset, the record that ends a log behind it, and both synced;
    /// then its page and a second copy of the page are to be written, with a sync after each.
    pub fn compact_published(
        &mut self,
        plan: CompactPlan,
        staged: BuiltBase,
        published: Result<()>,
    ) -> (result: Result<Relocation>)
        requires
            old(self).wf(),
            old(self).storage_part() is File,
            old(self).base_part().readable(),
            staged.wf(),
            staged.entries() == old(self).live(),
            staged.published().generation < u64::MAX,
            segment::measure_outcome(old(self).live()) == Ok::<(int, int), ErrorView>(
                (plan.live_len as int, plan.base_size as int),
            ),
            DATA_START + plan.base_size == plan.destination_end,
        ensures
            match (published, result) {
                (Err(failure), Err(error)) => {
                    &&& error == failure
                    &&& final(self).stopped(*old(self))
                    &&& final(self).storage_part() == old(self).storage_part()
                },
                (Ok(_), Ok(relocation)) => {
                    &&& old(self).settings().room.grants(true, 1)
                    &&& final(self).moved_to(*old(self), staged)
                    &&& relocation.wf()
                    &&& relocation.target().entries() == old(self).live()
                    &&& relocation.target().bytes() == writer::base_segment(
                        DATA_START as int,
                        old(self).live(),
                    )
                    &&& relocation.target().bytes().len() == plan.base_size
                    &&& relocation.target().published() == superblock_for(
                        (staged.published().generation + 1) as u64,
                        DATA_START,
                        old(self).live(),
                    )
                },
                (Ok(_), Err(error)) => {
                    &&& old(self).settings().room.may_refuse(true, plan.base_size as int)
                    &&& final(self).moved_to(*old(self), staged)
                    &&& maintenance::is_build_failure(error@)
                },
                _ => false,
            },
    {
        match published {
            Ok(()) => {},
            Err(error) => {
                self.state = HandleState::WritePoisoned;
                return Err(error);
            },
        }
        proof {
            self.law_readable_live_entries();
        }
        let ghost live = self.live();
        match self.finish_superblock_install(staged.install()) {
            Ok(()) => {},
            Err(error) => {
                return Err(error);
            },
        }
        self.overlay.clear();
        proof {
            assert(live::merged(lookup::entries_map(live), self.overlay@) =~= lookup::entries_map(
                live,
            ));
            self.base.law_sound_base_verifies();
            lemma_live_of_base(*self);
            assert(self.moved_to(*old(self), staged));
        }
        proof {
            records::lemma_records_size(old(self).live());
            index::lemma_slot_count(old(self).live().len());
            assert(EMPTY_SEGMENT_SIZE <= plan.base_size);
        }
        let generation: u64 = staged.superblock.generation() + 1;
        let detached = match detached_base(self.options.room, generation) {
            Ok(detached) => detached,
            Err(error) => {
                return Err(error);
            },
        };
        let pairs = collect_entries(self.iter_raw());
        proof {
            maintenance::law_measured_entries_can_be_built(DATA_START as int, live);
        }
        let built = match BuiltBase::build(
            self.options.room,
            generation,
            DATA_START,
            plan.base_size,
            plan.live_len,
            pairs.as_slice(),
        ) {
            Ok(built) => built,
            Err(error) => {
                return Err(error);
            },
        };
        if built.segment.len() as u64 != plan.base_size {
            return Err(Error::other("base size changed while relocating compaction output"));
        }
        Ok(Relocation { built, detached })
    }

    /// Goes on after the moved Base was published, or could not be. Until the file was cut
    /// the database cannot be used.
    pub fn compact_relocated(&mut self, relocation: Relocation, published: Result<()>) -> (result:
        Result<BuiltBase>)
        requires
            old(self).wf(),
            old(self).storage_part() is File,
            relocation.wf(),
        ensures
            match (published, result) {
                (Ok(_), Ok(built)) => {
                    &&& built == relocation.target()
                    &&& built.wf()
                    &&& final(self).wf()
                    &&& final(self).health() == HandleState::Unavailable
                    &&& final(self).base_part().entries() == Seq::<(Seq<u8>, Seq<u8>)>::empty()
                    &&& final(self).overlay_part() == old(self).overlay_part()
                    &&& final(self).settings() == old(self).settings()
                    &&& final(self).storage_part() == old(self).storage_part()
                },
                (Err(failure), Err(error)) => {
                    &&& error == failure
                    &&& final(self).stopped(*old(self))
                    &&& final(self).storage_part() == old(self).storage_part()
                },
                _ => false,
            },
    {
        match published {
            Ok(()) => {
                self.state = HandleState::Unavailable;
                self.base = relocation.detached;
                Ok(relocation.built)
            },
            Err(error) => {
                self.state = HandleState::WritePoisoned;
                Err(error)
            },
        }
    }

    /// Ends the rebuilding of a file after it was cut to its new end and synced, or could not
    /// be. In that case the database stays unusable.
    pub fn compact_shrunk(&mut self, plan: CompactPlan, built: BuiltBase, shrunk: Result<()>) -> (result:
        Result<()>)
        requires
            old(self).wf(),
            old(self).storage_part() is File,
            old(self).overlay_part()@ == Map::<Seq<u8>, Option<Seq<u8>>>::empty(),
            built.wf(),
            built.published().base_offset == DATA_START,
            built.bytes().len() == plan.base_size,
            DATA_START + plan.base_size == plan.destination_end,
        ensures
            match (shrunk, result) {
                (Ok(_), Ok(_)) => {
                    &&& final(self).wf()
                    &&& final(self).sound()
                    &&& final(self).health() == HandleState::Healthy
                    &&& final(self).contents() == lookup::entries_map(built.entries())
                    &&& final(self).live() == built.entries()
                    &&& final(self).base_part().mapping@ == built.bytes()
                    &&& final(self).base_part().follows(built.published())
                    &&& final(self).is_compact()
                    &&& final(self).base_part().is_followed_by_its_log()
                    &&& final(self).base_part().verify_outcome() is Ok
                    &&& final(self).overlay_part() == old(self).overlay_part()
                    &&& final(self).settings() == old(self).settings()
                    &&& final(self).storage_part() is File
                    &&& final(self).storage_part().size() == plan.destination_end
                },
                (Err(failure), Err(error)) => error == failure && *final(self) == *old(self),
                _ => false,
            },
    {
        match shrunk {
            Ok(()) => {},
            Err(error) => {
                return Err(error);
            },
        }
        match self.storage.set_len(plan.destination_end) {
            Ok(()) => {},
            Err(_) => {},
        }
        match self.finish_superblock_install(built.install()) {
            Ok(()) => {},
            Err(error) => {
                self.state = HandleState::Unavailable;
                return Err(error);
            },
        }
        self.state = HandleState::Healthy;
        proof {
            let entries = built.entries();
            assert(live::merged(lookup::entries_map(entries), self.overlay@)
                =~= lookup::entries_map(entries));
            let overlay = *self.overlay.index;
            overlay.lemma_wf();
            assert(overlay@.dom() =~= self.overlay@.dom());
            assert(overlay.keys().len() == 0);
            lemma_live_of_base(*self);
            self.base.law_sound_base_verifies();
        }
        Ok(())
    }
}

/// Without anything in the Overlay the live entries are those of the Base.
proof fn lemma_live_of_base(db: Database)
    requires
        db.wf(),
        db.overlay_part().index.keys().len() == 0,
    ensures
        db.live() == db.base_part().entries(),
{
    let overlay = *db.overlay_part().index;
    overlay.lemma_wf();
    let entries = db.base_part().entries();
    assert(overlay@.dom() =~= Set::empty());
    live::lemma_nothing_over(entries, overlay.keys(), overlay.values(), 0);
}

} // verus!
