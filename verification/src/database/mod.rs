//! The database: its state, its transactions and its maintenance.

pub mod blocks;
pub mod commit;
pub mod compaction;
pub mod durability;
pub mod entries;
pub mod live;
pub mod maintenance;
pub mod open;
pub mod overlay_map;
pub mod recovery;
pub mod replay;
pub mod slot_table;
pub mod state;
pub mod storage;
pub mod transaction;
pub mod view;

pub use self::entries::{Entries, RawEntries};
pub use self::overlay_map::OverlayMap;
pub use self::state::{ActiveBase, BaseBytes, OverlayEntry, OverlayState, ValueBytes};
pub use self::storage::{FileStorage, MemoryStorage, SeekFrom, Storage};
pub use crate::key_map::KeyMap;

use self::view::{BaseView, ReadView};
use crate::error;
use crate::error::{Error, ErrorKind, ErrorView, Result};
use crate::format::index;
use crate::format::lookup;
use crate::format::records;
use crate::format::segment;
use crate::format::superblock::DATA_START;
use crate::hash;
use crate::key_map;
use crate::options::{DatabaseOptions, VerificationMode};
use std::sync::Arc;
use vstd::prelude::*;

verus! {

/// The smallest image of a database.
pub const MIN_DATABASE_BYTES: u64 = 8244;

/// The check of options.
pub open spec fn options_outcome(options: DatabaseOptions) -> std::result::Result<(), ErrorView> {
    if options.max_database_bytes < MIN_DATABASE_BYTES {
        Err(error::invalid_input("max_database_bytes must be at least 8244 bytes"@))
    } else {
        Ok(())
    }
}

/// Checks options.
pub fn validate_options(options: &DatabaseOptions) -> (result: Result<()>)
    ensures
        error::outcome(result) == options_outcome(*options),
{
    if options.max_database_bytes < MIN_DATABASE_BYTES {
        Err(
            Error::from_io(
                ErrorKind::InvalidInput,
                "max_database_bytes must be at least 8244 bytes",
            ),
        )
    } else {
        Ok(())
    }
}

/// Constant-time structural and maintenance metrics for a database.
#[derive(Clone, Copy, Debug, PartialEq, Eq, Structural)]
#[non_exhaustive]
pub struct DatabaseStats {
    /// Total bytes in the file or logical volatile serialized image.
    pub storage_bytes: u64,
    /// Bytes occupied by the active immutable Base segment.
    pub base_bytes: u64,
    /// Entries physically present in the active Base, including entries
    /// shadowed by the Overlay.
    pub base_entries: usize,
    /// Latest Overlay keys, including tombstones.
    pub overlay_entries: usize,
    /// Bytes occupied by active Overlay records in the logical serialized image.
    pub overlay_log_bytes: u64,
    /// Soft memory charge for active Overlay keys and inline-sized values.
    /// Recovered inline values remain charged even when they are backed by the file, so
    /// the maintenance threshold is stable across reopen.
    pub overlay_memory_bytes: usize,
    /// Bytes belonging to obsolete generations before the active Base.
    pub stale_bytes: u64,
    /// Active Superblock generation.
    pub generation: u64,
}

/// What a database can still be used for.
#[derive(Clone, Copy, Debug, PartialEq, Eq, Structural)]
pub enum HandleState {
    /// Reads and writes.
    Healthy,
    /// Reads only: a write failed, and what reached the storage is not known.
    WritePoisoned,
    /// Nothing.
    Unavailable,
}

/// An open database.
pub struct Database {
    storage: Storage,
    base: ActiveBase,
    overlay: OverlayState,
    options: DatabaseOptions,
    snapshot_guard: Arc<()>,
    state: HandleState,
}

/// What reading a key through an Overlay gives, with the blocks of the Base that are read
/// checked or not.
pub open spec fn lookup_through(
    base: ActiveBase,
    overlay: Map<Seq<u8>, Option<Seq<u8>>>,
    key: Seq<u8>,
    verify: bool,
) -> std::result::Result<Option<Seq<u8>>, ErrorView> {
    if overlay.contains_key(key) {
        Ok(overlay[key])
    } else {
        lookup::lookup_outcome(
            base.data(),
            base.table(),
            verify,
            base.offset,
            base.slots as int,
            key,
        )
    }
}

/// Whether `result` is what reading a key can give. Blocks are checked in the mode that
/// asks for it, unless all of them are known to be intact.
pub open spec fn can_read(
    base: ActiveBase,
    overlay: Map<Seq<u8>, Option<Seq<u8>>>,
    verification: VerificationMode,
    key: Seq<u8>,
    result: std::result::Result<Option<Seq<u8>>, ErrorView>,
) -> bool {
    ||| result == lookup_through(base, overlay, key, verification == VerificationMode::OnRead)
    ||| segment::blocks_ok(base.data(), base.table()) && result == lookup_through(
        base,
        overlay,
        key,
        false,
    )
}

/// Two reads of one key that both succeed give the same, whether or not blocks were checked.
pub proof fn lemma_reads_agree(
    base: ActiveBase,
    overlay: Map<Seq<u8>, Option<Seq<u8>>>,
    verification: VerificationMode,
    key: Seq<u8>,
    first: Option<Seq<u8>>,
    second: Option<Seq<u8>>,
)
    requires
        can_read(base, overlay, verification, key, Ok(first)),
        can_read(base, overlay, verification, key, Ok(second)),
    ensures
        first == second,
{
    if !overlay.contains_key(key) {
        lookup::lemma_checks_change_no_value(
            base.data(),
            base.table(),
            base.offset,
            base.slots as int,
            key,
            hash::xxh3_64_value(key),
            0,
        );
    }
}

/// What a Base and an Overlay over it hold.
pub open spec fn held(base: ActiveBase, overlay: Map<Seq<u8>, Option<Seq<u8>>>) -> Map<
    Seq<u8>,
    Seq<u8>,
> {
    live::merged(lookup::entries_map(base.entries()), overlay)
}

/// The live entries of a Base and an Overlay that are read before the first that cannot be.
pub open spec fn raw_items_of(base: ActiveBase, overlay: OverlayMap<OverlayEntry>) -> Seq<
    entries::Located,
> {
    let size = base.data().len() as int;
    let at = index::records_offset(base.slots as int);
    entries::base_items(base.mapping@, size, overlay@, at, base.len as nat) + (
    if entries::base_end(base.mapping@, size, at, base.len as nat) == Ok::<int, ErrorView>(size) {
        entries::overlay_items(overlay.keys(), overlay.values(), 0)
    } else {
        Seq::empty()
    })
}

/// Why the records of a Base cannot all be read.
pub open spec fn raw_failure_of(base: ActiveBase) -> Option<ErrorView> {
    let size = base.data().len() as int;
    let at = index::records_offset(base.slots as int);
    match entries::base_end(base.mapping@, size, at, base.len as nat) {
        Err(error) => Some(error),
        Ok(end) => if end == size {
            None
        } else {
            Some(entries::record_count_error())
        },
    }
}

/// What iterating over a Base and an Overlay gives.
pub open spec fn iteration_of(
    base: ActiveBase,
    overlay: OverlayMap<OverlayEntry>,
    verification: VerificationMode,
) -> Seq<std::result::Result<(Seq<u8>, Seq<u8>), ErrorView>> {
    entries::checked(
        base.data(),
        base.table(),
        base.offset,
        verification,
        raw_items_of(base, overlay),
        raw_failure_of(base),
    )
}

/// Reading a key from a Base that was built from entries gives what is held.
pub proof fn lemma_sound_read(
    base: ActiveBase,
    overlay: Map<Seq<u8>, Option<Seq<u8>>>,
    key: Seq<u8>,
    verify: bool,
)
    requires
        base.wf(),
        base.sound(),
    ensures
        lookup_through(base, overlay, key, verify) == Ok::<Option<Seq<u8>>, ErrorView>(
            held(base, overlay).get(key),
        ),
{
    let entries = base.entries();
    state::lemma_holds_entries(base.mapping@, base.offset, entries);
    lookup::law_lookup_finds_what_was_written(base.offset, entries, base.table(), verify, key);
    let map = lookup::entries_map(entries);
    if overlay.contains_key(key) {
        assert(held(base, overlay).get(key) == overlay[key]);
    } else {
        assert(held(base, overlay).get(key) == map.get(key));
    }
}

/// The records of a Base that was built from entries are readable, and its blocks intact.
pub proof fn lemma_sound_records(base: ActiveBase)
    requires
        base.wf(),
        base.sound(),
    ensures
        records::parse_records(
            base.data(),
            index::records_offset(base.slots as int),
            base.entries().len(),
        ) == Some((base.entries(), base.data().len() as int)),
        base.len == base.entries().len(),
        segment::blocks_ok(base.data(), base.table()),
{
    let entries = base.entries();
    state::lemma_holds_entries(base.mapping@, base.offset, entries);
    index::lemma_base_records(base.offset as int, entries);
}

/// A view of a Base and an Overlay.
pub(crate) fn view_of<'a>(
    mapping: &'a BaseBytes,
    verifier: &'a blocks::SegmentVerifier,
    offset: u64,
    slots: u64,
    overlay: &'a OverlayMap<OverlayEntry>,
    verification: VerificationMode,
) -> (view: ReadView<'a>)
    requires
        mapping.wf(),
    ensures
        view.base.mapping@ == mapping@,
        view.base.verifier == verifier,
        view.base.offset == offset,
        view.base.slots == slots,
        view.overlay == overlay,
        view.verification == verification,
{
    ReadView {
        base: BaseView { mapping: mapping.as_slice(), verifier, offset, slots },
        overlay,
        verification,
    }
}

impl Database {
    /// The active Base.
    pub closed spec fn base_part(self) -> ActiveBase {
        self.base
    }

    /// What was written since the Base was built.
    pub closed spec fn overlay_part(self) -> OverlayState {
        self.overlay
    }

    /// The serialized image.
    pub closed spec fn storage_part(self) -> Storage {
        self.storage
    }

    /// The options with which the database was opened.
    pub closed spec fn settings(self) -> DatabaseOptions {
        self.options
    }

    /// What the database can still be used for.
    pub closed spec fn health(self) -> HandleState {
        self.state
    }

    /// The parts are well formed. Memory for an image in memory is reserved as the options
    /// say, and its Base is one that was built, with the log right behind it.
    pub open spec fn wf(self) -> bool {
        &&& self.storage_part().wf()
        &&& self.storage_part() matches Storage::Memory(memory) ==> memory.room()
            == self.settings().room && self.sound() && self.base_part().is_followed_by_its_log()
        &&& self.base_part().wf()
        &&& self.overlay_part().wf()
    }

    /// The Base was built from entries with distinct keys, and everything in the Overlay is
    /// within the limits of the format.
    pub open spec fn sound(self) -> bool {
        &&& self.base_part().sound()
        &&& live::overlay_fits(self.overlay_part()@)
    }

    /// What the database holds.
    pub open spec fn contents(self) -> Map<Seq<u8>, Seq<u8>> {
        held(self.base_part(), self.overlay_part()@)
    }

    /// The entries of the database, in the order of iteration.
    pub open spec fn live(self) -> Seq<(Seq<u8>, Seq<u8>)> {
        live::live_entries(
            self.base_part().entries(),
            self.overlay_part().index.keys(),
            self.overlay_part().index.values(),
        )
    }

    /// The live entries of a sound database have distinct keys, are within the limits of the
    /// format, and describe exactly what it holds.
    pub proof fn law_live_entries(self)
        requires
            self.wf(),
            self.sound(),
        ensures
            records::entry_keys(self.live()).no_duplicates(),
            records::entries_fit(self.live()),
            lookup::entries_map(self.live()) == self.contents(),
            self.contents().dom().finite(),
            self.contents().dom().len() == self.live().len(),
    {
        let entries = self.base_part().entries();
        let overlay = *self.overlay_part().index;
        overlay.lemma_wf();
        live::law_live_entries_are_the_contents(entries, overlay.keys(), overlay.values());
        live::lemma_live_fits(entries, overlay.keys(), overlay.values());
        key_map::lemma_pairs_map_len(
            records::entry_keys(self.live()),
            records::entry_values(self.live()),
        );
    }

    /// The live entries of a database whose Base is readable have distinct keys, and
    /// describe exactly what it holds.
    pub proof fn law_readable_live_entries(self)
        requires
            self.wf(),
            self.base_part().readable(),
        ensures
            records::entry_keys(self.live()).no_duplicates(),
            lookup::entries_map(self.live()) == self.contents(),
    {
        let overlay = *self.overlay_part().index;
        overlay.lemma_wf();
        live::law_live_entries_are_the_contents(
            self.base_part().entries(),
            overlay.keys(),
            overlay.values(),
        );
    }

    fn read_view(&self) -> (view: ReadView<'_>)
        requires
            self.wf(),
        ensures
            view.wf(),
            view.base.mapping@ == self.base.mapping@,
            view.base.data() == self.base.data(),
            view.base.table() == self.base.table(),
            *view.base.verifier == *self.base.verifier,
            view.base.offset == self.base.offset,
            view.base.slots == self.base.slots,
            *view.overlay == *self.overlay.index,
            view.verification == self.options.verification,
            view.base.mapping@.len() <= usize::MAX,
            segment::header_outcome(view.base.data()) == Ok::<(u64, int), ErrorView>(
                (view.base.slots, self.base.len as int),
            ),
    {
        let view = view_of(
            &self.base.mapping,
            &self.base.verifier,
            self.base.offset,
            self.base.slots,
            &self.overlay.index,
            self.options.verification,
        );
        assert(view.base.mapping@.len() == view.base.mapping.len());
        view
    }

    fn ensure_writable(&self) -> (result: Result<()>)
        ensures
            error::outcome(result) == (if self.health() == HandleState::Healthy {
                Ok::<(), ErrorView>(())
            } else {
                Err(ErrorView::Poisoned)
            }),
    {
        if self.state != HandleState::Healthy {
            Err(Error::Poisoned)
        } else {
            Ok(())
        }
    }

    fn ensure_available(&self) -> (result: Result<()>)
        ensures
            error::outcome(result) == (if self.health() == HandleState::Unavailable {
                Err::<(), ErrorView>(ErrorView::Poisoned)
            } else {
                Ok(())
            }),
    {
        if self.state == HandleState::Unavailable {
            Err(Error::Poisoned)
        } else {
            Ok(())
        }
    }

    /// Whether the image may grow by so many bytes.
    pub open spec fn capacity_outcome(self, additional: int) -> std::result::Result<
        (),
        ErrorView,
    > {
        let required = self.storage_part().size() + additional;
        if required > u64::MAX {
            Err(error::database_full(self.settings().max_database_bytes, u64::MAX))
        } else if required > self.settings().max_database_bytes {
            Err(error::database_full(self.settings().max_database_bytes, required as u64))
        } else {
            Ok(())
        }
    }

    fn ensure_capacity(&self, additional: u64) -> (result: Result<()>)
        ensures
            error::outcome(result) == self.capacity_outcome(additional as int),
    {
        let current: u64 = self.storage.len();
        let required: u64 = match current.checked_add(additional) {
            Some(required) => required,
            None => {
                return Err(Error::database_full(self.options.max_database_bytes, u64::MAX));
            },
        };
        if required > self.options.max_database_bytes {
            Err(Error::database_full(self.options.max_database_bytes, required))
        } else {
            Ok(())
        }
    }

    /// Performs the complete integrity verification used by a Full open. Only where memory
    /// runs out can the result be another than the bytes decide.
    pub fn verify(&self) -> (result: Result<()>)
        requires
            self.wf(),
        ensures
            self.health() == HandleState::Unavailable ==> error::outcome(result) == Err::<
                (),
                ErrorView,
            >(ErrorView::Poisoned),
            self.health() != HandleState::Unavailable ==> self.base_part().verifies(
                self.settings().room,
                error::outcome(result),
            ),
    {
        match self.ensure_available() {
            Ok(()) => {},
            Err(error) => {
                return Err(error);
            },
        }
        self.base.verify_in(self.options.room)
    }

    /// Whether `result` is what reading a key of this database can give.
    pub open spec fn can_get(
        self,
        key: Seq<u8>,
        result: std::result::Result<Option<Seq<u8>>, ErrorView>,
    ) -> bool {
        &&& self.health() == HandleState::Unavailable ==> result == Err::<
            Option<Seq<u8>>,
            ErrorView,
        >(ErrorView::Poisoned)
        &&& self.health() != HandleState::Unavailable ==> can_read(
            self.base_part(),
            self.overlay_part()@,
            self.settings().verification,
            key,
            result,
        )
        &&& self.health() != HandleState::Unavailable && self.sound() ==> result == Ok::<
            Option<Seq<u8>>,
            ErrorView,
        >(self.contents().get(key))
    }

    /// Returns the value for the given key.
    pub fn get(&self, key: &[u8]) -> (result: Result<Option<&[u8]>>)
        requires
            self.wf(),
        ensures
            self.can_get(key@, view::found(result)),
    {
        match self.ensure_available() {
            Ok(()) => {},
            Err(error) => {
                return Err(error);
            },
        }
        let view = self.read_view();
        proof {
            self.lemma_view_reads(view, key@);
        }
        view.get(key)
    }

    /// What a view of the database can give is what the database can give.
    proof fn lemma_view_reads(self, view: ReadView<'_>, key: Seq<u8>)
        requires
            self.wf(),
            self.state != HandleState::Unavailable,
            view.base.data() == self.base.data(),
            view.base.table() == self.base.table(),
            view.base.offset == self.base.offset,
            view.base.slots == self.base.slots,
            *view.overlay == *self.overlay.index,
            view.verification == self.options.verification,
        ensures
            forall|result: std::result::Result<Option<Seq<u8>>, ErrorView>| #[trigger]
                view.can_give(key, result) ==> self.can_get(key, result),
    {
        assert forall|verify: bool| #[trigger] view.lookup(key, verify) == lookup_through(
            self.base,
            self.overlay@,
            key,
            verify,
        ) by {}
        if self.sound() {
            lemma_sound_read(self.base, self.overlay@, key, true);
            lemma_sound_read(self.base, self.overlay@, key, false);
        }
    }

    /// Returns whether the given key is present in the database.
    pub fn contains_key(&self, key: &[u8]) -> (result: Result<bool>)
        requires
            self.wf(),
        ensures
            exists|found: std::result::Result<Option<Seq<u8>>, ErrorView>| #[trigger]
                self.can_get(key@, found) && error::outcome(result) == presence(found),
            self.health() != HandleState::Unavailable && self.sound() ==> error::outcome(result)
                == Ok::<bool, ErrorView>(self.contents().contains_key(key@)),
    {
        let found = self.get(key);
        assert(self.can_get(key@, view::found(found)));
        match found {
            Ok(value) => Ok(value.is_some()),
            Err(error) => Err(error),
        }
    }

    /// What iterating over the database gives.
    pub open spec fn iteration(self) -> Seq<std::result::Result<(Seq<u8>, Seq<u8>), ErrorView>> {
        iteration_of(
            self.base_part(),
            *self.overlay_part().index,
            self.settings().verification,
        )
    }

    /// Iterates over all live entries without copying keys or values.
    pub fn iter(&self) -> (result: Result<Entries<'_>>)
        requires
            self.wf(),
        ensures
            match result {
                Ok(entries) => {
                    &&& self.health() != HandleState::Unavailable
                    &&& entries.wf()
                    &&& entries.results() == self.iteration()
                    &&& self.sound() ==> entries.results() == entries::good_items(self.live())
                    &&& self.base_part().readable() && segment::blocks_ok(
                        self.base_part().data(),
                        self.base_part().table(),
                    ) ==> entries.results() == entries::good_items(self.live())
                },
                Err(error) => self.health() == HandleState::Unavailable && error@
                    == ErrorView::Poisoned,
            },
    {
        match self.ensure_available() {
            Ok(()) => {},
            Err(error) => {
                return Err(error);
            },
        }
        let view = self.read_view();
        proof {
            if self.sound() {
                lemma_sound_records(self.base);
                entries::lemma_iterates_live_entries(view, self.base.entries());
            }
            if self.base.readable() {
                entries::lemma_iterates_live_entries(view, self.base.entries());
            }
        }
        Ok(Entries::new(view, self.base.len))
    }

    /// Iterates over all live entries without checking the blocks that hold them.
    pub fn iter_raw(&self) -> (entries: RawEntries<'_>)
        requires
            self.wf(),
        ensures
            entries.wf(),
            entries.pending() is None,
            entries.remaining() == self.raw_items(),
            entries.failure() == self.raw_failure(),
            entries.trusted() ==> blocks::structure_ok(
                self.base_part().data(),
                self.base_part().offset,
            ),
            self.base_part().verifier.passed() ==> entries.trusted(),
            self.base_part().readable() ==> entries.failure() is None && entries::plain(
                entries.remaining(),
            ) == self.live(),
    {
        let view = self.read_view();
        proof {
            if self.base.readable() {
                entries::lemma_iterates_live_entries(view, self.base.entries());
            }
        }
        RawEntries::new(view, self.base.len)
    }

    /// The live entries that are read before the first that cannot be.
    pub open spec fn raw_items(self) -> Seq<entries::Located> {
        raw_items_of(self.base_part(), *self.overlay_part().index)
    }

    /// Why the live entries cannot all be read.
    pub open spec fn raw_failure(self) -> Option<ErrorView> {
        raw_failure_of(self.base_part())
    }

    /// The number of live entries, where all can be read.
    pub open spec fn len_outcome(self) -> std::result::Result<int, ErrorView> {
        if self.health() == HandleState::Unavailable {
            Err(ErrorView::Poisoned)
        } else {
            match self.raw_failure() {
                Some(error) => Err(error),
                None => Ok(state::capped(self.raw_items().len() as int)),
            }
        }
    }

    /// Returns the number of live entries in the database. A number beyond the largest
    /// machine word, which no memory can hold, counts as that word.
    pub fn len(&self) -> (result: Result<usize>)
        requires
            self.wf(),
        ensures
            match result {
                Ok(len) => self.len_outcome() == Ok::<int, ErrorView>(len as int),
                Err(error) => self.len_outcome() == Err::<int, ErrorView>(error@),
            },
            self.health() != HandleState::Unavailable && self.sound() ==> (result matches Ok(len)
                && len == state::capped(self.contents().dom().len() as int)),
            self.health() != HandleState::Unavailable && self.base_part().readable() ==> (
            result matches Ok(len) && len == state::capped(self.live().len() as int)),
    {
        match self.ensure_available() {
            Ok(()) => {},
            Err(error) => {
                return Err(error);
            },
        }
        proof {
            if self.sound() {
                self.law_live_entries();
            }
            assert(entries::plain(self.raw_items()).len() == self.raw_items().len());
        }
        self.raw_len()
    }

    fn raw_len(&self) -> (result: Result<usize>)
        requires
            self.wf(),
        ensures
            match self.raw_failure() {
                Some(error) => error::outcome(result) == Err::<usize, ErrorView>(error),
                None => result matches Ok(len) && len == state::capped(
                    self.raw_items().len() as int,
                ),
            },
            self.sound() || self.base_part().readable() ==> self.raw_failure() is None
                && entries::plain(self.raw_items()) == self.live(),
    {
        proof {
            if self.sound() {
                self.base.law_sound_base_verifies();
            }
        }
        let mut entries = self.iter_raw();
        let mut len: usize = 0;
        let mut going: bool = true;
        while going
            invariant
                entries.wf(),
                entries.failure() == self.raw_failure(),
                len == state::capped(self.raw_items().len() - entries.remaining().len()),
                entries.remaining().len() <= self.raw_items().len(),
                going ==> entries.pending() is None,
                !going ==> entries.remaining().len() == 0 && entries.pending()
                    == self.raw_failure(),
            decreases entries.remaining().len(), (if going { 1int } else { 0int }),
        {
            match entries.next() {
                Some(_) => {
                    len = len.saturating_add(1);
                },
                None => {
                    going = false;
                },
            }
        }
        match entries.take_error() {
            Some(error) => Err(error),
            None => Ok(len),
        }
    }

    /// Returns `true` if the database is empty, `false` otherwise.
    pub fn is_empty(&self) -> (result: Result<bool>)
        requires
            self.wf(),
        ensures
            match result {
                Ok(empty) => self.len_outcome() matches Ok(len) && empty == (len == 0),
                Err(error) => self.len_outcome() == Err::<int, ErrorView>(error@),
            },
            self.health() != HandleState::Unavailable && self.sound() ==> (result matches Ok(empty)
                && empty == (self.contents() == Map::<Seq<u8>, Seq<u8>>::empty())),
    {
        let len = self.len();
        proof {
            if self.sound() {
                self.law_live_entries();
                if self.contents().dom().len() == 0 {
                    assert(self.contents() =~= Map::<Seq<u8>, Seq<u8>>::empty());
                }
            }
        }
        match len {
            Ok(len) => Ok(len == 0),
            Err(error) => Err(error),
        }
    }

    /// The statistics of the database.
    pub open spec fn statistics(self) -> DatabaseStats {
        let base = self.base_part();
        let size = self.storage_part().size();
        DatabaseStats {
            storage_bytes: size as u64,
            base_bytes: base.mapping@.len() as u64,
            base_entries: base.len,
            overlay_entries: self.overlay_part()@.dom().len() as usize,
            overlay_log_bytes: (if size > base.log_start {
                size - base.log_start
            } else {
                0
            }) as u64,
            overlay_memory_bytes: self.overlay_part().memory,
            stale_bytes: (if base.offset > DATA_START {
                base.offset - DATA_START
            } else {
                0
            }) as u64,
            generation: base.generation,
        }
    }

    /// Returns the database statistics.
    pub fn stats(&self) -> (result: Result<DatabaseStats>)
        requires
            self.wf(),
        ensures
            match result {
                Ok(stats) => self.health() != HandleState::Unavailable && stats
                    == self.statistics(),
                Err(error) => self.health() == HandleState::Unavailable && error@
                    == ErrorView::Poisoned,
            },
    {
        match self.ensure_available() {
            Ok(()) => {},
            Err(error) => {
                return Err(error);
            },
        }
        let storage_bytes: u64 = self.storage.len();
        proof {
            let overlay = *self.overlay.index;
            overlay.lemma_wf();
            assert(self.overlay@.dom() =~= overlay@.dom());
        }
        let mapping = self.base.mapping.as_slice();
        assert(mapping@.len() == mapping.len());
        Ok(
            DatabaseStats {
                storage_bytes,
                base_bytes: mapping.len() as u64,
                base_entries: self.base.len,
                overlay_entries: self.overlay.index.len(),
                overlay_log_bytes: storage_bytes.saturating_sub(self.base.log_start),
                overlay_memory_bytes: self.overlay.memory,
                stale_bytes: self.base.offset.saturating_sub(DATA_START),
                generation: self.base.generation,
            },
        )
    }

    /// Checks that the database can be flushed. Nothing has to be done for one in memory;
    /// a file is flushed by whoever opened it.
    pub fn sync(&self) -> (result: Result<()>)
        ensures
            error::outcome(result) == (if self.health() == HandleState::Unavailable {
                Err::<(), ErrorView>(ErrorView::Poisoned)
            } else {
                Ok(())
            }),
    {
        self.ensure_available()
    }

    /// The soft memory charge for active Overlay keys and inline-sized values.
    pub fn overlay_memory_usage(&self) -> (bytes: usize)
        ensures
            bytes == self.overlay_part().memory,
    {
        self.overlay.memory
    }

    /// Records the length of the file, where it turned out to be another than what was asked
    /// for.
    pub fn set_file_len(&mut self, len: u64)
        requires
            old(self).wf(),
            old(self).storage_part() is File,
        ensures
            final(self).wf(),
            final(self).storage_part() == Storage::File(FileStorage { len }),
            final(self).base_part() == old(self).base_part(),
            final(self).overlay_part() == old(self).overlay_part(),
            final(self).settings() == old(self).settings(),
            final(self).health() == old(self).health(),
    {
        self.storage = Storage::File(FileStorage { len });
    }

    /// The active Base.
    pub fn base(&self) -> (base: &ActiveBase)
        ensures
            *base == self.base_part(),
    {
        &self.base
    }

    /// What was written since the Base was built.
    pub fn overlay(&self) -> (overlay: &OverlayState)
        ensures
            *overlay == self.overlay_part(),
    {
        &self.overlay
    }

    /// The serialized image.
    pub fn storage(&self) -> (storage: &Storage)
        ensures
            *storage == self.storage_part(),
    {
        &self.storage
    }

    /// Whether the image is in memory.
    pub fn storage_is_memory(&self) -> (yes: bool)
        ensures
            yes == (self.storage_part() is Memory),
    {
        self.storage.is_memory()
    }
}

/// Whether a lookup found a value.
pub open spec fn presence(
    found: std::result::Result<Option<Seq<u8>>, ErrorView>,
) -> std::result::Result<bool, ErrorView> {
    match found {
        Ok(value) => Ok(value is Some),
        Err(error) => Err(error),
    }
}

} // verus!
