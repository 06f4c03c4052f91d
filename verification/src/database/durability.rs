//! What a file gives back after a commit, after a crash, and after compaction.

use super::Database;
use crate::bytes;
use crate::database::commit;
use crate::database::compaction;
use crate::database::compaction::CompactPlan;
use crate::database::live;
use crate::database::open;
use crate::database::open::ImageState;
use crate::database::recovery::RecoveredOverlayEntry;
use crate::database::replay;
use crate::database::state;
use crate::database::state::{ActiveBase, OverlayEntry};
use crate::error::ErrorView;
use crate::format::buffer;
use crate::format::index;
use crate::format::log;
use crate::format::log::LOG_HEADER_SIZE;
use crate::format::lookup;
use crate::format::records;
use crate::format::segment;
use crate::format::superblock;
use crate::format::superblock::{
    SuperblockView, DATA_START, FORMAT_VERSION, HEADER_SIZE, SUPERBLOCK_SIZE,
};
use crate::format::writer;
use crate::key_map::KeyMap;
use crate::options::VerificationMode;
use vstd::prelude::*;

verus! {

/// Whether the page at `offset` cannot be preferred to a generation: it holds nothing, or an
/// older generation of the current version.
#[verifier::opaque]
pub open spec fn page_is_older(file: Seq<u8>, offset: int, generation: u64) -> bool {
    match superblock::page_at(file, offset) {
        None => true,
        Some(page) => match superblock::envelope(page) {
            None => true,
            Some((version, _)) => version == FORMAT_VERSION && superblock::decode_page(
                page,
            ).generation < generation,
        },
    }
}

/// Whether the page at `offset` is intact and holds a Superblock.
#[verifier::opaque]
pub open spec fn page_holds(file: Seq<u8>, offset: int, superblock: SuperblockView) -> bool {
    &&& superblock::page_at(file, offset) matches Some(page)
    &&& superblock::envelope(page) == Some((FORMAT_VERSION, HEADER_SIZE as int))
    &&& superblock::decode_page(page) == superblock
}

/// Whether a Superblock is the one in use: it is on its page, and the other page holds it
/// too or cannot be preferred to it.
pub open spec fn in_use(file: Seq<u8>, superblock: SuperblockView) -> bool {
    let other = superblock::other_page_offset(superblock.generation);
    &&& page_holds(file, superblock::page_offset(superblock.generation), superblock)
    &&& page_holds(file, other, superblock) || page_is_older(file, other, superblock.generation)
}

/// A page that was written holds its Superblock.
proof fn lemma_written_page(file: Seq<u8>, offset: int, superblock: SuperblockView)
    requires
        0 <= offset,
        offset + SUPERBLOCK_SIZE <= file.len(),
        file.subrange(offset, offset + SUPERBLOCK_SIZE) == superblock::page_bytes(superblock),
    ensures
        page_holds(file, offset, superblock),
{
    reveal(page_holds);
    superblock::law_page_roundtrip(superblock);
}

/// A page that is the same in two files holds the same in both.
proof fn lemma_same_page(
    file: Seq<u8>,
    other: Seq<u8>,
    offset: int,
    superblock: SuperblockView,
    generation: u64,
)
    requires
        0 <= offset,
        offset + SUPERBLOCK_SIZE <= file.len(),
        offset + SUPERBLOCK_SIZE <= other.len(),
        file.subrange(offset, offset + SUPERBLOCK_SIZE) == other.subrange(
            offset,
            offset + SUPERBLOCK_SIZE,
        ),
    ensures
        page_holds(file, offset, superblock) == page_holds(other, offset, superblock),
        page_is_older(file, offset, generation) == page_is_older(other, offset, generation),
{
    reveal(page_holds);
    reveal(page_is_older);
}

/// A Superblock is older than a later generation.
proof fn lemma_older_page(
    file: Seq<u8>,
    offset: int,
    superblock: SuperblockView,
    generation: u64,
)
    requires
        page_holds(file, offset, superblock),
        superblock.generation < generation,
    ensures
        page_is_older(file, offset, generation),
{
    reveal(page_holds);
    reveal(page_is_older);
}

/// Whether the Base of a Superblock is in its place in the file and holds the entries.
pub open spec fn base_in_place(
    file: Seq<u8>,
    superblock: SuperblockView,
    entries: Seq<(Seq<u8>, Seq<u8>)>,
) -> bool {
    let segment = open::base_of(file, superblock);
    &&& superblock.base_offset >= DATA_START
    &&& superblock.base_offset + superblock.base_size <= superblock.log_start
    &&& superblock.log_start <= file.len()
    &&& state::holds_entries(segment, superblock.base_offset, entries)
    &&& superblock.base_checksum == segment::metadata_checksum(segment)
    &&& superblock.base_slots == index::slot_count(entries.len())
    &&& superblock.base_len == entries.len()
}

/// The end of the log of a Superblock.
pub open spec fn log_end(
    superblock: SuperblockView,
    batches: Seq<Seq<(Seq<u8>, Option<Seq<u8>>)>>,
) -> int {
    superblock.log_start + replay::log_bytes(batches).len()
}

/// Whether the log of a Superblock consists of the records of batches, whatever may follow
/// its end.
pub open spec fn log_in_place(
    file: Seq<u8>,
    superblock: SuperblockView,
    batches: Seq<Seq<(Seq<u8>, Option<Seq<u8>>)>>,
) -> bool {
    let end = log_end(superblock, batches);
    &&& replay::batches_fit(batches)
    &&& end <= file.len()
    &&& file.subrange(superblock.log_start as int, end) == replay::log_bytes(batches)
    &&& replay::log_ends(file, end, file.len() as int)
}

/// Whether a file holds a Base over entries and batches that were committed to it. Bytes
/// that belong to neither do not matter.
pub open spec fn recoverable(
    file: Seq<u8>,
    superblock: SuperblockView,
    entries: Seq<(Seq<u8>, Seq<u8>)>,
    batches: Seq<Seq<(Seq<u8>, Option<Seq<u8>>)>>,
) -> bool {
    &&& file.len() <= u64::MAX
    &&& in_use(file, superblock)
    &&& base_in_place(file, superblock, entries)
    &&& log_in_place(file, superblock, batches)
}

/// Whether a file is recoverable and ends with its log.
pub open spec fn file_holds(
    file: Seq<u8>,
    superblock: SuperblockView,
    entries: Seq<(Seq<u8>, Seq<u8>)>,
    batches: Seq<Seq<(Seq<u8>, Option<Seq<u8>>)>>,
) -> bool {
    &&& recoverable(file, superblock, entries, batches)
    &&& file.len() == log_end(superblock, batches)
}

/// What a Base over entries and batches that were committed to it hold together.
pub open spec fn file_contents(
    entries: Seq<(Seq<u8>, Seq<u8>)>,
    batches: Seq<Seq<(Seq<u8>, Option<Seq<u8>>)>>,
) -> Map<Seq<u8>, Seq<u8>> {
    live::merged(lookup::entries_map(entries), replay::replay(batches))
}

/// Whether a file opens in some mode to some contents.
pub open spec fn opens_to(
    file: Seq<u8>,
    verification: VerificationMode,
    contents: Map<Seq<u8>, Seq<u8>>,
) -> bool {
    open::load_outcome(file, verification) matches Ok(loaded) && open::image_contents(file, loaded)
        == contents
}

/// A recoverable file opens in every mode to what the Base and the batches hold together,
/// and the log ends behind the last batch.
pub proof fn law_recoverable_file_opens(
    file: Seq<u8>,
    superblock: SuperblockView,
    entries: Seq<(Seq<u8>, Seq<u8>)>,
    batches: Seq<Seq<(Seq<u8>, Option<Seq<u8>>)>>,
    verification: VerificationMode,
)
    requires
        recoverable(file, superblock, entries, batches),
    ensures
        opens_to(file, verification, file_contents(entries, batches)),
        open::load_outcome(file, verification) matches Ok(loaded) && loaded.superblock == superblock
            && loaded.valid_len == log_end(superblock, batches) && replay::recovered_view(
            file,
            loaded.known,
        ) == replay::replay(batches),
{
    let len = file.len() as u64;
    let segment = open::base_of(file, superblock);
    state::lemma_holds_entries(segment, superblock.base_offset, entries);
    reveal(page_holds);
    reveal(page_is_older);
    let own = superblock::page_offset(superblock.generation);
    let other = superblock::other_page_offset(superblock.generation);
    assert(own == 0 || own == SUPERBLOCK_SIZE);
    assert(superblock::ranges_ok(superblock, len));
    assert(superblock::latest_outcome(file, len) == Ok::<SuperblockView, ErrorView>(superblock));
    open::lemma_open_holds_entries(segment, superblock, entries, verification);
    replay::law_log_replays_committed_batches(
        file,
        superblock.log_start as int,
        file.len() as int,
        batches,
    );
}

/// The pages of a new database.
proof fn lemma_new_pages()
    ensures
        in_use(open::empty_image(), open::empty_superblock()),
{
    let file = open::empty_image();
    let superblock = open::empty_superblock();
    open::law_new_image_opens_empty(VerificationMode::Full);
    assert(file.subrange(4096, 8192) =~= superblock::page_bytes(superblock));
    lemma_written_page(file, 4096, superblock);
    reveal(page_is_older);
    assert(file.subrange(0, 4096)[0] == 0);
    assert(file.subrange(0, 4096).subrange(0, 8)[0] == 0);
    assert(superblock::envelope(file.subrange(0, 4096)) is None);
}

/// The file of a new database holds nothing.
pub proof fn law_new_file_holds_nothing()
    ensures
        file_holds(open::empty_image(), open::empty_superblock(), Seq::empty(), Seq::empty()),
        file_contents(Seq::empty(), Seq::empty()) == Map::<Seq<u8>, Seq<u8>>::empty(),
{
    let file = open::empty_image();
    let superblock = open::empty_superblock();
    let none = Seq::<Seq<(Seq<u8>, Option<Seq<u8>>)>>::empty();
    let no_entries = Seq::<(Seq<u8>, Seq<u8>)>::empty();
    open::law_new_image_opens_empty(VerificationMode::Full);
    open::lemma_empty_segment();
    state::lemma_holds_entries(open::empty_segment(), DATA_START, no_entries);
    lemma_new_pages();
    assert(replay::log_bytes(none) =~= Seq::<u8>::empty());
    assert(file.subrange(8244, 8244) =~= Seq::<u8>::empty());
    assert(replay::replay(none) =~= Map::empty());
    assert(file_contents(no_entries, none) =~= Map::<Seq<u8>, Seq<u8>>::empty());
}

/// A file stays recoverable when nothing changes but bytes that do not matter, as long as
/// the log still ends.
pub proof fn law_other_bytes_do_not_matter(
    file: Seq<u8>,
    changed: Seq<u8>,
    superblock: SuperblockView,
    entries: Seq<(Seq<u8>, Seq<u8>)>,
    batches: Seq<Seq<(Seq<u8>, Option<Seq<u8>>)>>,
)
    requires
        recoverable(file, superblock, entries, batches),
        log_end(superblock, batches) <= changed.len() <= u64::MAX,
        in_use(changed, superblock),
        open::base_of(changed, superblock) == open::base_of(file, superblock),
        changed.subrange(superblock.log_start as int, log_end(superblock, batches))
            == file.subrange(superblock.log_start as int, log_end(superblock, batches)),
        replay::log_ends(changed, log_end(superblock, batches), changed.len() as int),
    ensures
        recoverable(changed, superblock, entries, batches),
{
}

/// A page of the other generation that is torn does not matter.
pub proof fn law_torn_page_does_not_matter(
    file: Seq<u8>,
    superblock: SuperblockView,
    entries: Seq<(Seq<u8>, Seq<u8>)>,
    batches: Seq<Seq<(Seq<u8>, Option<Seq<u8>>)>>,
    page: Seq<u8>,
)
    requires
        recoverable(file, superblock, entries, batches),
        page.len() == SUPERBLOCK_SIZE,
        superblock::envelope(page) is None,
    ensures
        recoverable(
            buffer::written_at(file, superblock::other_page_offset(superblock.generation), page),
            superblock,
            entries,
            batches,
        ),
{
    let other = superblock::other_page_offset(superblock.generation);
    let own = superblock::page_offset(superblock.generation);
    let changed = buffer::written_at(file, other, page);
    assert(own == 0 || own == SUPERBLOCK_SIZE);
    assert(changed.len() == file.len());
    assert(changed.subrange(own, own + SUPERBLOCK_SIZE) =~= file.subrange(
        own,
        own + SUPERBLOCK_SIZE,
    ));
    assert(changed.subrange(other, other + SUPERBLOCK_SIZE) =~= page);
    lemma_same_page(file, changed, own, superblock, superblock.generation);
    reveal(page_is_older);
    lemma_behind_pages(file, changed, superblock, batches);
}

/// What lies behind the pages is the same in two files of one length.
proof fn lemma_behind_pages(
    file: Seq<u8>,
    changed: Seq<u8>,
    superblock: SuperblockView,
    batches: Seq<Seq<(Seq<u8>, Option<Seq<u8>>)>>,
)
    requires
        changed.len() == file.len(),
        forall|i: int| DATA_START <= i < file.len() ==> changed[i] == #[trigger] file[i],
        DATA_START <= superblock.base_offset,
        superblock.base_offset + superblock.base_size <= superblock.log_start,
        log_end(superblock, batches) <= file.len(),
        replay::log_ends(file, log_end(superblock, batches), file.len() as int),
    ensures
        open::base_of(changed, superblock) == open::base_of(file, superblock),
        changed.subrange(superblock.log_start as int, log_end(superblock, batches))
            == file.subrange(superblock.log_start as int, log_end(superblock, batches)),
        replay::log_ends(changed, log_end(superblock, batches), changed.len() as int),
{
    let end = log_end(superblock, batches);
    assert(open::base_of(changed, superblock) =~= open::base_of(file, superblock));
    assert(changed.subrange(superblock.log_start as int, end) =~= file.subrange(
        superblock.log_start as int,
        end,
    ));
    lemma_log_ends_alike(file, changed, end);
}

/// Two files of one length that agree from some point on end a log alike there.
proof fn lemma_log_ends_alike(file: Seq<u8>, changed: Seq<u8>, at: int)
    requires
        changed.len() == file.len(),
        0 <= at <= file.len(),
        forall|i: int| at <= i < file.len() ==> changed[i] == #[trigger] file[i],
        replay::log_ends(file, at, file.len() as int),
    ensures
        replay::log_ends(changed, at, changed.len() as int),
{
    if at + LOG_HEADER_SIZE <= file.len() {
        assert(changed.subrange(at, at + 13) =~= file.subrange(at, at + 13));
        assert(changed.subrange(at, at + LOG_HEADER_SIZE) =~= file.subrange(
            at,
            at + LOG_HEADER_SIZE,
        ));
        assert(changed.subrange(at + 13, at + 17) =~= file.subrange(at + 13, at + 17));
        bytes::lemma_le_u32_same(changed, at + 13, file, at + 13);
        assert(changed.subrange(at + 1, at + 5) =~= file.subrange(at + 1, at + 5));
        assert(changed.subrange(at + 5, at + 9) =~= file.subrange(at + 5, at + 9));
        bytes::lemma_le_u32_same(changed, at + 1, file, at + 1);
        bytes::lemma_le_u32_same(changed, at + 5, file, at + 5);
    }
}

/// Appending the record of a batch to a file commits that batch.
pub proof fn law_appended_batch_is_committed(
    file: Seq<u8>,
    superblock: SuperblockView,
    entries: Seq<(Seq<u8>, Seq<u8>)>,
    batches: Seq<Seq<(Seq<u8>, Option<Seq<u8>>)>>,
    operations: Seq<(Seq<u8>, Option<Seq<u8>>)>,
)
    requires
        file_holds(file, superblock, entries, batches),
        replay::batch_fits(operations),
        file.len() + log::batch_record(operations).len() <= u64::MAX,
    ensures
        file_holds(
            file + log::batch_record(operations),
            superblock,
            entries,
            batches.push(operations),
        ),
{
    let record = log::batch_record(operations);
    let after = file + record;
    let more = batches.push(operations);
    replay::law_appended_record_commits(batches, operations);
    lemma_longer_file(file, after, superblock, batches);
    let start = superblock.log_start as int;
    assert(after.subrange(start, after.len() as int) =~= file.subrange(start, file.len() as int)
        + record);
    assert forall|i: int| 0 <= i < more.len() implies replay::batch_fits(#[trigger] more[i]) by {
        if i < batches.len() {
            assert(more[i] == batches[i]);
        }
    }
}

/// A file that starts like another has the same pages, Base and log.
proof fn lemma_longer_file(
    file: Seq<u8>,
    longer: Seq<u8>,
    superblock: SuperblockView,
    batches: Seq<Seq<(Seq<u8>, Option<Seq<u8>>)>>,
)
    requires
        in_use(file, superblock),
        file.len() <= longer.len(),
        DATA_START <= superblock.base_offset,
        superblock.base_offset + superblock.base_size <= superblock.log_start,
        log_end(superblock, batches) <= file.len(),
        forall|i: int| 0 <= i < file.len() ==> longer[i] == #[trigger] file[i],
    ensures
        in_use(longer, superblock),
        open::base_of(longer, superblock) == open::base_of(file, superblock),
        longer.subrange(superblock.log_start as int, log_end(superblock, batches))
            == file.subrange(superblock.log_start as int, log_end(superblock, batches)),
{
    let own = superblock::page_offset(superblock.generation);
    let other = superblock::other_page_offset(superblock.generation);
    assert(own == 0 || own == SUPERBLOCK_SIZE);
    assert(longer.subrange(own, own + SUPERBLOCK_SIZE) =~= file.subrange(
        own,
        own + SUPERBLOCK_SIZE,
    ));
    assert(longer.subrange(other, other + SUPERBLOCK_SIZE) =~= file.subrange(
        other,
        other + SUPERBLOCK_SIZE,
    ));
    lemma_same_page(file, longer, own, superblock, superblock.generation);
    lemma_same_page(file, longer, other, superblock, superblock.generation);
    assert(open::base_of(longer, superblock) =~= open::base_of(file, superblock));
    let end = log_end(superblock, batches);
    assert(longer.subrange(superblock.log_start as int, end) =~= file.subrange(
        superblock.log_start as int,
        end,
    ));
}

/// A record of which only a part reached the file is as if it had not been written.
pub proof fn law_torn_batch_is_not_committed(
    file: Seq<u8>,
    superblock: SuperblockView,
    entries: Seq<(Seq<u8>, Seq<u8>)>,
    batches: Seq<Seq<(Seq<u8>, Option<Seq<u8>>)>>,
    operations: Seq<(Seq<u8>, Option<Seq<u8>>)>,
    kept: int,
)
    requires
        file_holds(file, superblock, entries, batches),
        replay::batch_fits(operations),
        0 <= kept < log::batch_record(operations).len(),
        file.len() + kept <= u64::MAX,
    ensures
        recoverable(
            file + log::batch_record(operations).take(kept),
            superblock,
            entries,
            batches,
        ),
{
    let part = log::batch_record(operations).take(kept);
    let after = file + part;
    lemma_longer_file(file, after, superblock, batches);
    let start = superblock.log_start as int;
    assert(after.subrange(start, after.len() as int) =~= file.subrange(start, file.len() as int)
        + part);
    replay::lemma_torn_record_ends_the_log(after, start, batches, operations, kept);
}

/// The Superblock that describes a Base.
pub open spec fn base_superblock(base: ActiveBase) -> SuperblockView {
    SuperblockView {
        generation: base.generation,
        base_offset: base.offset,
        base_size: base.mapping@.len() as u64,
        base_slots: base.slots,
        base_len: base.len as u64,
        log_start: base.log_start,
        base_checksum: base.checksum,
    }
}

impl Database {
    /// Whether a file holds the state of the database: its Base, and the batches that were
    /// committed to it, which together say what the Overlay says.
    pub open spec fn stored_in(
        self,
        file: Seq<u8>,
        batches: Seq<Seq<(Seq<u8>, Option<Seq<u8>>)>>,
    ) -> bool {
        &&& self.wf()
        &&& self.sound()
        &&& self.overlay_part()@ == replay::replay(batches)
        &&& self.storage_part().size() == file.len()
        &&& file_holds(
            file,
            base_superblock(self.base_part()),
            self.base_part().entries(),
            batches,
        )
    }
}

/// A file that holds the state of a database opens, in every mode, to what the database
/// holds.
pub proof fn law_stored_database_reopens(
    db: Database,
    file: Seq<u8>,
    batches: Seq<Seq<(Seq<u8>, Option<Seq<u8>>)>>,
    verification: VerificationMode,
)
    requires
        db.stored_in(file, batches),
    ensures
        opens_to(file, verification, db.contents()),
{
    law_recoverable_file_opens(
        file,
        base_superblock(db.base_part()),
        db.base_part().entries(),
        batches,
        verification,
    );
}

/// A database that was opened from a file that holds a Base and batches is stored in it.
pub proof fn law_opened_database_is_stored(
    db: Database,
    file: Seq<u8>,
    loaded: ImageState,
    superblock: SuperblockView,
    entries: Seq<(Seq<u8>, Seq<u8>)>,
    batches: Seq<Seq<(Seq<u8>, Option<Seq<u8>>)>>,
    verification: VerificationMode,
)
    requires
        file_holds(file, superblock, entries, batches),
        open::load_outcome(file, verification) == Ok::<ImageState, ErrorView>(loaded),
        db.wf(),
        db.base_part().mapping@ == open::base_of(file, loaded.superblock),
        db.base_part().follows(loaded.superblock),
        open::recovered_overlay(db.overlay_part(), file, loaded.known),
        db.storage_part().size() == loaded.valid_len,
    ensures
        db.stored_in(file, batches),
        db.contents() == file_contents(entries, batches),
{
    law_recoverable_file_opens(file, superblock, entries, batches, verification);
    state::lemma_holds_entries(
        open::base_of(file, superblock),
        superblock.base_offset,
        entries,
    );
    assert(db.base_part().entries() == entries);
    assert(base_superblock(db.base_part()) == superblock);
}

/// Once the record of a commit is appended to the file that a database is stored in, the
/// database that published the commit is stored in the longer file.
pub proof fn law_commit_is_durable(
    before: Database,
    after: Database,
    staged: KeyMap<OverlayEntry>,
    file: Seq<u8>,
    batches: Seq<Seq<(Seq<u8>, Option<Seq<u8>>)>>,
)
    requires
        before.stored_in(file, batches),
        commit::staged_ok(staged),
        before.commit_check(commit::operations_of(staged)) is Ok,
        after.publishes(before, commit::staged_view(staged)),
        after.storage_part().size() == file.len() + log::batch_record(
            commit::operations_of(staged),
        ).len(),
    ensures
        after.stored_in(
            file + log::batch_record(commit::operations_of(staged)),
            batches.push(commit::operations_of(staged)),
        ),
        after.contents() == live::merged(before.contents(), commit::staged_view(staged)),
{
    let operations = commit::operations_of(staged);
    commit::lemma_staged_batch_fits(staged);
    replay::lemma_batch_record_len(operations);
    law_appended_batch_is_committed(
        file,
        base_superblock(before.base_part()),
        before.base_part().entries(),
        batches,
        operations,
    );
    replay::law_appended_record_commits(batches, operations);
    staged.lemma_wf();
    commit::lemma_apply_distinct(replay::replay(batches), staged.keys(), staged.values());
}

/// While the record of a commit is only in part in the file, the file opens to what was held
/// before the commit.
pub proof fn law_torn_commit_is_undone(
    before: Database,
    staged: KeyMap<OverlayEntry>,
    file: Seq<u8>,
    batches: Seq<Seq<(Seq<u8>, Option<Seq<u8>>)>>,
    kept: int,
    verification: VerificationMode,
)
    requires
        before.stored_in(file, batches),
        commit::staged_ok(staged),
        before.commit_check(commit::operations_of(staged)) is Ok,
        0 <= kept < log::batch_record(commit::operations_of(staged)).len(),
    ensures
        opens_to(
            file + log::batch_record(commit::operations_of(staged)).take(kept),
            verification,
            before.contents(),
        ),
{
    let operations = commit::operations_of(staged);
    let superblock = base_superblock(before.base_part());
    let entries = before.base_part().entries();
    commit::lemma_staged_batch_fits(staged);
    replay::lemma_batch_record_len(operations);
    law_torn_batch_is_not_committed(file, superblock, entries, batches, operations, kept);
    law_recoverable_file_opens(
        file + log::batch_record(operations).take(kept),
        superblock,
        entries,
        batches,
        verification,
    );
}

/// The memory charged to the Overlay of a database, where it depends on what the entries say
/// alone, is charged again when the database is reopened.
pub proof fn law_memory_charge_survives_reopening(
    db: Database,
    reopened: Database,
    file: Seq<u8>,
    known: Map<Seq<u8>, RecoveredOverlayEntry>,
)
    requires
        db.wf(),
        db.overlay_part().charged(),
        db.overlay_part().stable(),
        open::recovered_overlay(reopened.overlay_part(), file, known),
        replay::recovered_view(file, known) == db.overlay_part()@,
    ensures
        reopened.overlay_part().memory == db.overlay_part().memory,
{
    let first = *db.overlay_part().index;
    let second = *reopened.overlay_part().index;
    first.lemma_wf();
    second.lemma_wf();
    state::law_stable_charge_depends_on_what_is_said(first.keys(), first.values());
    state::law_stable_charge_depends_on_what_is_said(second.keys(), second.values());
}

/// The file after each write and cut of compaction, in order: as it was, with the record
/// that ends the log, with the staged Base, with its page, with the Base in its final place,
/// with the record that ends a log behind it, with its page, with the second copy of the
/// page, and cut.
pub open spec fn compaction_file(
    file: Seq<u8>,
    plan: CompactPlan,
    generation: u64,
    live: Seq<(Seq<u8>, Seq<u8>)>,
    step: int,
) -> Seq<u8>
    decreases step,
{
    let staged = compaction::superblock_for((generation + 1) as u64, plan.source_offset, live);
    let moved = compaction::superblock_for((generation + 2) as u64, DATA_START, live);
    if step <= 0 {
        file
    } else {
        let before = compaction_file(file, plan, generation, live, step - 1);
        if step == 1 {
            buffer::written_at(before, plan.rollback_offset as int, log::compact_marker_bytes())
        } else if step == 2 {
            buffer::written_at(
                before,
                plan.source_offset as int,
                writer::base_segment(plan.source_offset as int, live),
            )
        } else if step == 3 {
            buffer::written_at(
                before,
                superblock::page_offset(staged.generation),
                superblock::page_bytes(staged),
            )
        } else if step == 4 {
            buffer::written_at(
                before,
                DATA_START as int,
                writer::base_segment(DATA_START as int, live),
            )
        } else if step == 5 {
            buffer::written_at(before, plan.destination_end as int, log::compact_marker_bytes())
        } else if step == 6 {
            buffer::written_at(
                before,
                superblock::page_offset(moved.generation),
                superblock::page_bytes(moved),
            )
        } else if step == 7 {
            buffer::written_at(
                before,
                superblock::other_page_offset(moved.generation),
                superblock::page_bytes(moved),
            )
        } else {
            before.take(plan.destination_end as int)
        }
    }
}

/// Whether a plan fits a file whose live entries are rebuilt.
pub open spec fn plan_fits(
    file: Seq<u8>,
    plan: CompactPlan,
    live: Seq<(Seq<u8>, Seq<u8>)>,
) -> bool {
    &&& records::entry_keys(live).no_duplicates()
    &&& records::entries_fit(live)
    &&& index::base_data_size(live) <= usize::MAX
    &&& plan.base_size == segment::segment_size(index::base_data_size(live))
    &&& plan.rollback_offset == file.len()
    &&& plan.destination_end == DATA_START + plan.base_size
    &&& plan.source_offset >= plan.rollback_offset + LOG_HEADER_SIZE
    &&& plan.source_offset >= plan.destination_end + LOG_HEADER_SIZE
    &&& plan.source_end == plan.source_offset + plan.base_size
}

/// A Base that stands in its place, with nothing behind it or the record that ends a log, is
/// recoverable under a Superblock in use that describes it.
proof fn lemma_base_alone(
    file: Seq<u8>,
    generation: u64,
    offset: u64,
    live: Seq<(Seq<u8>, Seq<u8>)>,
)
    requires
        file.len() <= u64::MAX,
        offset >= DATA_START,
        records::entry_keys(live).no_duplicates(),
        records::entries_fit(live),
        index::base_data_size(live) <= usize::MAX,
        offset + segment::segment_size(index::base_data_size(live)) <= file.len(),
        file.subrange(
            offset as int,
            offset + segment::segment_size(index::base_data_size(live)),
        ) == writer::base_segment(offset as int, live),
        in_use(file, compaction::superblock_for(generation, offset, live)),
        replay::log_ends(
            file,
            offset + segment::segment_size(index::base_data_size(live)),
            file.len() as int,
        ),
    ensures
        recoverable(
            file,
            compaction::superblock_for(generation, offset, live),
            live,
            Seq::empty(),
        ),
{
    let superblock = compaction::superblock_for(generation, offset, live);
    let segment = writer::base_segment(offset as int, live);
    let none = Seq::<Seq<(Seq<u8>, Option<Seq<u8>>)>>::empty();
    writer::lemma_base_segment_len(offset as int, live);
    assert(state::holds_entries(segment, offset, live));
    state::lemma_holds_entries(segment, offset, live);
    assert(replay::log_bytes(none) =~= Seq::<u8>::empty());
    assert(file.subrange(superblock.log_start as int, superblock.log_start as int)
        =~= Seq::<u8>::empty());
}

/// The file before the staged Base is published still gives what it gave.
proof fn lemma_before_staging(
    file: Seq<u8>,
    superblock: SuperblockView,
    entries: Seq<(Seq<u8>, Seq<u8>)>,
    batches: Seq<Seq<(Seq<u8>, Option<Seq<u8>>)>>,
    plan: CompactPlan,
    live: Seq<(Seq<u8>, Seq<u8>)>,
    step: int,
)
    requires
        file_holds(file, superblock, entries, batches),
        plan_fits(file, plan, live),
        0 <= step <= 2,
    ensures
        recoverable(
            compaction_file(file, plan, superblock.generation, live, step),
            superblock,
            entries,
            batches,
        ),
        step >= 1 ==> {
            let now = compaction_file(file, plan, superblock.generation, live, step);
            let r = file.len() as int;
            &&& now.len() == (if step == 1 {
                r + LOG_HEADER_SIZE
            } else {
                plan.source_end as int
            })
            &&& forall|i: int| 0 <= i < r ==> now[i] == #[trigger] file[i]
            &&& step == 2 ==> now.subrange(plan.source_offset as int, plan.source_end as int)
                == writer::base_segment(plan.source_offset as int, live)
        },
{
    let generation = superblock.generation;
    let r = file.len() as int;
    let marker = log::compact_marker_bytes();
    reveal_with_fuel(compaction_file, 4);
    lemma_marker_len();
    writer::lemma_base_segment_len(plan.source_offset as int, live);
    if step >= 1 {
        let now = compaction_file(file, plan, generation, live, step);
        let marked = buffer::written_at(file, r, marker);
        assert(now.subrange(r, r + LOG_HEADER_SIZE) =~= marker);
        lemma_longer_file(file, now, superblock, batches);
        if step == 2 {
            assert(now.subrange(plan.source_offset as int, plan.source_end as int)
                =~= writer::base_segment(plan.source_offset as int, live));
        }
        law_other_bytes_do_not_matter(file, now, superblock, entries, batches);
    }
}

/// The record that ends a log is a header.
proof fn lemma_marker_len()
    ensures
        log::compact_marker_bytes().len() == LOG_HEADER_SIZE,
{
    let stored = log::record_checksum_value(log::Marker::Compact, 0, 0, Seq::empty());
    log::lemma_header_len(log::Marker::Compact, 0, 0, stored);
    assert(log::compact_marker_bytes() =~= log::header_bytes(
        log::Marker::Compact,
        0,
        0,
        stored,
    ));
}

/// A write leaves every range outside of it alone and puts its bytes into its own.
proof fn lemma_written_ranges(before: Seq<u8>, at: int, part: Seq<u8>, from: int, to: int)
    requires
        0 <= at,
        at + part.len() <= before.len(),
        0 <= from <= to <= before.len(),
        to <= at || at + part.len() <= from,
    ensures
        buffer::written_at(before, at, part).len() == before.len(),
        buffer::written_at(before, at, part).subrange(from, to) == before.subrange(from, to),
        buffer::written_at(before, at, part).subrange(at, at + part.len()) == part,
{
    let after = buffer::written_at(before, at, part);
    assert(after.subrange(from, to) =~= before.subrange(from, to));
    assert(after.subrange(at, at + part.len()) =~= part);
}

/// The file while the staged Base is the one in use gives the live entries.
proof fn lemma_while_staged(
    file: Seq<u8>,
    superblock: SuperblockView,
    entries: Seq<(Seq<u8>, Seq<u8>)>,
    batches: Seq<Seq<(Seq<u8>, Option<Seq<u8>>)>>,
    plan: CompactPlan,
    live: Seq<(Seq<u8>, Seq<u8>)>,
    step: int,
)
    requires
        file_holds(file, superblock, entries, batches),
        plan_fits(file, plan, live),
        superblock.generation + 2 <= u64::MAX,
        3 <= step <= 5,
    ensures
        ({
            let now = compaction_file(file, plan, superblock.generation, live, step);
            let staged = compaction::superblock_for(
                (superblock.generation + 1) as u64,
                plan.source_offset,
                live,
            );
            &&& recoverable(now, staged, live, Seq::empty())
            &&& now.len() == plan.source_end
            &&& superblock::page_at(now, superblock::page_offset(staged.generation)) == Some(
                superblock::page_bytes(staged),
            )
            &&& step >= 4 ==> now.subrange(DATA_START as int, plan.destination_end as int)
                == writer::base_segment(DATA_START as int, live)
            &&& step >= 5 ==> now.subrange(
                plan.destination_end as int,
                plan.destination_end + LOG_HEADER_SIZE,
            ) == log::compact_marker_bytes()
        }),
{
    let generation = superblock.generation;
    let staged = compaction::superblock_for(
        (generation + 1) as u64,
        plan.source_offset,
        live,
    );
    let page = superblock::page_bytes(staged);
    let own = superblock::page_offset(staged.generation);
    let other = superblock::other_page_offset(staged.generation);
    assert(other == superblock::page_offset(generation));
    assert(own == 0 || own == SUPERBLOCK_SIZE);
    assert(page.len() == SUPERBLOCK_SIZE) by {
        superblock::law_page_roundtrip(staged);
    }
    lemma_marker_len();
    writer::lemma_base_segment_len(plan.source_offset as int, live);
    writer::lemma_base_segment_len(DATA_START as int, live);
    lemma_before_staging(file, superblock, entries, batches, plan, live, 2);
    let two = compaction_file(file, plan, generation, live, 2);
    let three = compaction_file(file, plan, generation, live, 3);
    let four = compaction_file(file, plan, generation, live, 4);
    let five = compaction_file(file, plan, generation, live, 5);
    let now = compaction_file(file, plan, generation, live, step);
    let base = writer::base_segment(DATA_START as int, live);
    let marker = log::compact_marker_bytes();
    let start = DATA_START as int;
    let end = plan.destination_end as int;
    let from = plan.source_offset as int;
    let to = plan.source_end as int;
    assert(three == buffer::written_at(two, own, page));
    assert(four == buffer::written_at(three, start, base));
    assert(five == buffer::written_at(four, end, marker));
    lemma_written_ranges(two, own, page, other, other + SUPERBLOCK_SIZE);
    lemma_written_ranges(two, own, page, from, to);
    if step >= 4 {
        lemma_written_ranges(three, start, base, own, own + SUPERBLOCK_SIZE);
        lemma_written_ranges(three, start, base, other, other + SUPERBLOCK_SIZE);
        lemma_written_ranges(three, start, base, from, to);
    }
    if step >= 5 {
        lemma_written_ranges(four, end, marker, own, own + SUPERBLOCK_SIZE);
        lemma_written_ranges(four, end, marker, other, other + SUPERBLOCK_SIZE);
        lemma_written_ranges(four, end, marker, from, to);
        lemma_written_ranges(four, end, marker, start, end);
    }
    assert(in_use(two, superblock));
    lemma_same_page(two, now, other, superblock, staged.generation);
    lemma_older_page(now, other, superblock, staged.generation);
    lemma_written_page(now, own, staged);
    assert(in_use(now, staged));
    lemma_base_alone(now, staged.generation, plan.source_offset, live);
}

/// The file once the moved Base is the one in use gives the live entries.
proof fn lemma_after_moving(
    file: Seq<u8>,
    superblock: SuperblockView,
    entries: Seq<(Seq<u8>, Seq<u8>)>,
    batches: Seq<Seq<(Seq<u8>, Option<Seq<u8>>)>>,
    plan: CompactPlan,
    live: Seq<(Seq<u8>, Seq<u8>)>,
    step: int,
)
    requires
        file_holds(file, superblock, entries, batches),
        plan_fits(file, plan, live),
        superblock.generation + 2 <= u64::MAX,
        6 <= step <= 8,
    ensures
        ({
            let now = compaction_file(file, plan, superblock.generation, live, step);
            let moved = compaction::superblock_for(
                (superblock.generation + 2) as u64,
                DATA_START,
                live,
            );
            &&& recoverable(now, moved, live, Seq::empty())
            &&& step == 8 ==> file_holds(now, moved, live, Seq::empty())
        }),
{
    let generation = superblock.generation;
    let staged = compaction::superblock_for(
        (generation + 1) as u64,
        plan.source_offset,
        live,
    );
    let moved = compaction::superblock_for((generation + 2) as u64, DATA_START, live);
    let page = superblock::page_bytes(moved);
    let own = superblock::page_offset(moved.generation);
    let other = superblock::other_page_offset(moved.generation);
    assert(other == superblock::page_offset(staged.generation));
    assert(own == 0 || own == SUPERBLOCK_SIZE);
    assert(page.len() == SUPERBLOCK_SIZE) by {
        superblock::law_page_roundtrip(moved);
    }
    lemma_marker_len();
    writer::lemma_base_segment_len(DATA_START as int, live);
    lemma_while_staged(file, superblock, entries, batches, plan, live, 5);
    let five = compaction_file(file, plan, generation, live, 5);
    let six = compaction_file(file, plan, generation, live, 6);
    let seven = compaction_file(file, plan, generation, live, 7);
    let eight = compaction_file(file, plan, generation, live, 8);
    let now = compaction_file(file, plan, generation, live, step);
    let end = plan.destination_end as int;
    let start = DATA_START as int;
    let marker_end = end + LOG_HEADER_SIZE;
    assert(six == buffer::written_at(five, own, page));
    assert(seven == buffer::written_at(six, other, page));
    assert(eight == seven.take(end));
    lemma_written_ranges(five, own, page, other, other + SUPERBLOCK_SIZE);
    lemma_written_ranges(five, own, page, start, end);
    lemma_written_ranges(five, own, page, end, marker_end);
    if step >= 7 {
        lemma_written_ranges(six, other, page, own, own + SUPERBLOCK_SIZE);
        lemma_written_ranges(six, other, page, start, end);
        lemma_written_ranges(six, other, page, end, marker_end);
    }
    if step == 8 {
        assert(eight.subrange(own, own + SUPERBLOCK_SIZE) =~= seven.subrange(
            own,
            own + SUPERBLOCK_SIZE,
        ));
        assert(eight.subrange(other, other + SUPERBLOCK_SIZE) =~= seven.subrange(
            other,
            other + SUPERBLOCK_SIZE,
        ));
        assert(eight.subrange(start, end) =~= seven.subrange(start, end));
    }
    lemma_written_page(now, own, moved);
    if step == 6 {
        assert(in_use(five, staged));
        lemma_same_page(five, now, other, staged, moved.generation);
        lemma_older_page(now, other, staged, moved.generation);
    } else {
        lemma_written_page(now, other, moved);
    }
    assert(in_use(now, moved));
    lemma_base_alone(now, moved.generation, DATA_START, live);
    assert(replay::log_bytes(Seq::<Seq<(Seq<u8>, Option<Seq<u8>>)>>::empty()) =~= Seq::<
        u8,
    >::empty());
}

/// Whatever step of compaction a crash follows, the file opens to what the database held
/// before.
pub proof fn law_compaction_survives_a_crash(
    file: Seq<u8>,
    superblock: SuperblockView,
    entries: Seq<(Seq<u8>, Seq<u8>)>,
    batches: Seq<Seq<(Seq<u8>, Option<Seq<u8>>)>>,
    plan: CompactPlan,
    live: Seq<(Seq<u8>, Seq<u8>)>,
    step: int,
    verification: VerificationMode,
)
    requires
        file_holds(file, superblock, entries, batches),
        plan_fits(file, plan, live),
        superblock.generation + 2 <= u64::MAX,
        lookup::entries_map(live) == file_contents(entries, batches),
        0 <= step <= 8,
    ensures
        opens_to(
            compaction_file(file, plan, superblock.generation, live, step),
            verification,
            file_contents(entries, batches),
        ),
{
    let now = compaction_file(file, plan, superblock.generation, live, step);
    let none = Seq::<Seq<(Seq<u8>, Option<Seq<u8>>)>>::empty();
    assert(replay::replay(none) =~= Map::empty());
    assert(file_contents(live, none) =~= lookup::entries_map(live));
    if step <= 2 {
        lemma_before_staging(file, superblock, entries, batches, plan, live, step);
        law_recoverable_file_opens(now, superblock, entries, batches, verification);
    } else if step <= 5 {
        lemma_while_staged(file, superblock, entries, batches, plan, live, step);
        let staged = compaction::superblock_for(
            (superblock.generation + 1) as u64,
            plan.source_offset,
            live,
        );
        law_recoverable_file_opens(now, staged, live, none, verification);
    } else {
        lemma_after_moving(file, superblock, entries, batches, plan, live, step);
        let moved = compaction::superblock_for(
            (superblock.generation + 2) as u64,
            DATA_START,
            live,
        );
        law_recoverable_file_opens(now, moved, live, none, verification);
    }
}

/// Whether a file is one that a step from `before` to `after` leaves behind when it is cut
/// short. Of a write some bytes are there: each is the new one, or the old one or a zero where
/// there was none, and the file may be shorter than it would become. A file that is being cut
/// may be longer.
pub open spec fn cut_short(before: Seq<u8>, after: Seq<u8>, now: Seq<u8>) -> bool {
    if before.len() <= after.len() {
        &&& before.len() <= now.len() <= after.len()
        &&& forall|i: int|
            0 <= i < now.len() ==> #[trigger] now[i] == after[i] || now[i] == (if i < before.len() {
                before[i]
            } else {
                0
            })
    } else {
        &&& after.len() <= now.len() <= before.len()
        &&& now == before.take(now.len() as int)
    }
}

/// Whether what is cut short in a step of compaction can be seen for what it is. The record
/// that ends the log is not all there, or is whole. A page that is being written is torn, and
/// shows that by its checksum; or it is as before; or it is intact.
pub open spec fn shows_damage(
    generation: u64,
    plan: CompactPlan,
    live: Seq<(Seq<u8>, Seq<u8>)>,
    step: int,
    after: Seq<u8>,
    now: Seq<u8>,
) -> bool {
    let staged = compaction::superblock_for((generation + 1) as u64, plan.source_offset, live);
    let moved = compaction::superblock_for((generation + 2) as u64, DATA_START, live);
    let own = superblock::page_offset(staged.generation);
    let other = superblock::other_page_offset(staged.generation);
    &&& step == 1 ==> now.len() < after.len() || now == after
    &&& step == 3 ==> page_holds(now, own, staged) || page_is_older(now, own, generation)
    &&& step == 6 ==> page_holds(now, other, moved) || page_is_older(
        now,
        other,
        staged.generation,
    )
    &&& step == 7 ==> page_holds(now, own, moved) || page_is_older(now, own, moved.generation)
}

/// What lies outside of a write is the same while the write goes on.
proof fn lemma_cut_short_write(
    before: Seq<u8>,
    at: int,
    part: Seq<u8>,
    now: Seq<u8>,
    from: int,
    to: int,
)
    requires
        0 <= at,
        at + part.len() <= before.len(),
        0 <= from <= to <= before.len(),
        to <= at || at + part.len() <= from,
        cut_short(before, buffer::written_at(before, at, part), now),
    ensures
        now.len() == before.len(),
        now.subrange(from, to) == before.subrange(from, to),
{
    assert(now.subrange(from, to) =~= before.subrange(from, to)) by {
        assert forall|i: int| from <= i < to implies now[i] == before[i] by {
            assert(buffer::written_at(before, at, part)[i] == before[i]);
        }
    }
}

/// The file while the record that ends the log or the staged Base is written still gives what
/// it gave.
proof fn lemma_cut_short_before_staging(
    file: Seq<u8>,
    superblock: SuperblockView,
    entries: Seq<(Seq<u8>, Seq<u8>)>,
    batches: Seq<Seq<(Seq<u8>, Option<Seq<u8>>)>>,
    plan: CompactPlan,
    live: Seq<(Seq<u8>, Seq<u8>)>,
    step: int,
    now: Seq<u8>,
)
    requires
        file_holds(file, superblock, entries, batches),
        plan_fits(file, plan, live),
        1 <= step <= 2,
        cut_short(
            compaction_file(file, plan, superblock.generation, live, step - 1),
            compaction_file(file, plan, superblock.generation, live, step),
            now,
        ),
        shows_damage(
            superblock.generation,
            plan,
            live,
            step,
            compaction_file(file, plan, superblock.generation, live, step),
            now,
        ),
    ensures
        recoverable(now, superblock, entries, batches),
{
    let generation = superblock.generation;
    let r = file.len() as int;
    let marker = log::compact_marker_bytes();
    reveal_with_fuel(compaction_file, 4);
    lemma_marker_len();
    writer::lemma_base_segment_len(plan.source_offset as int, live);
    let one = compaction_file(file, plan, generation, live, 1);
    let before = compaction_file(file, plan, generation, live, step - 1);
    let after = compaction_file(file, plan, generation, live, step);
    assert(one == buffer::written_at(file, r, marker));
    assert forall|i: int| 0 <= i < r implies now[i] == #[trigger] file[i] by {
        assert(before[i] == file[i]);
        assert(after[i] == file[i]);
    }
    lemma_longer_file(file, now, superblock, batches);
    if step == 2 || now == after {
        assert(now.subrange(r, r + LOG_HEADER_SIZE) =~= marker) by {
            assert forall|i: int| r <= i < r + LOG_HEADER_SIZE implies now[i] == marker[i - r] by {
                assert(one[i] == marker[i - r]);
                assert(after[i] == marker[i - r]);
            }
        }
    }
    law_other_bytes_do_not_matter(file, now, superblock, entries, batches);
}

/// The file while the page of the staged Base is written gives what it gave, or the live
/// entries.
proof fn lemma_cut_short_staging(
    file: Seq<u8>,
    superblock: SuperblockView,
    entries: Seq<(Seq<u8>, Seq<u8>)>,
    batches: Seq<Seq<(Seq<u8>, Option<Seq<u8>>)>>,
    plan: CompactPlan,
    live: Seq<(Seq<u8>, Seq<u8>)>,
    now: Seq<u8>,
)
    requires
        file_holds(file, superblock, entries, batches),
        plan_fits(file, plan, live),
        superblock.generation + 2 <= u64::MAX,
        cut_short(
            compaction_file(file, plan, superblock.generation, live, 2),
            compaction_file(file, plan, superblock.generation, live, 3),
            now,
        ),
        shows_damage(
            superblock.generation,
            plan,
            live,
            3,
            compaction_file(file, plan, superblock.generation, live, 3),
            now,
        ),
    ensures
        recoverable(now, superblock, entries, batches) || recoverable(
            now,
            compaction::superblock_for(
                (superblock.generation + 1) as u64,
                plan.source_offset,
                live,
            ),
            live,
            Seq::empty(),
        ),
{
    let generation = superblock.generation;
    let staged = compaction::superblock_for((generation + 1) as u64, plan.source_offset, live);
    let page = superblock::page_bytes(staged);
    let own = superblock::page_offset(staged.generation);
    let other = superblock::other_page_offset(staged.generation);
    assert(other == superblock::page_offset(generation));
    assert(own == superblock::other_page_offset(generation));
    assert(own == 0 || own == SUPERBLOCK_SIZE);
    assert(page.len() == SUPERBLOCK_SIZE) by {
        superblock::law_page_roundtrip(staged);
    }
    lemma_before_staging(file, superblock, entries, batches, plan, live, 2);
    writer::lemma_base_segment_len(plan.source_offset as int, live);
    let two = compaction_file(file, plan, generation, live, 2);
    let from = plan.source_offset as int;
    let to = plan.source_end as int;
    assert(compaction_file(file, plan, generation, live, 3) == buffer::written_at(two, own, page));
    lemma_cut_short_write(two, own, page, now, other, other + SUPERBLOCK_SIZE);
    lemma_cut_short_write(two, own, page, now, from, to);
    assert(in_use(two, superblock));
    lemma_same_page(two, now, other, superblock, staged.generation);
    if page_holds(now, own, staged) {
        lemma_older_page(now, other, superblock, staged.generation);
        assert(in_use(now, staged));
        lemma_base_alone(now, staged.generation, plan.source_offset, live);
    } else {
        assert(in_use(now, superblock));
        assert forall|i: int| DATA_START <= i < two.len() implies now[i] == #[trigger] two[i] by {
            assert(buffer::written_at(two, own, page)[i] == two[i]);
        }
        lemma_behind_pages(two, now, superblock, batches);
        law_other_bytes_do_not_matter(two, now, superblock, entries, batches);
    }
}

/// The file while the moved Base or the record that ends its log is written gives the live
/// entries.
proof fn lemma_cut_short_moving(
    file: Seq<u8>,
    superblock: SuperblockView,
    entries: Seq<(Seq<u8>, Seq<u8>)>,
    batches: Seq<Seq<(Seq<u8>, Option<Seq<u8>>)>>,
    plan: CompactPlan,
    live: Seq<(Seq<u8>, Seq<u8>)>,
    step: int,
    now: Seq<u8>,
)
    requires
        file_holds(file, superblock, entries, batches),
        plan_fits(file, plan, live),
        superblock.generation + 2 <= u64::MAX,
        4 <= step <= 5,
        cut_short(
            compaction_file(file, plan, superblock.generation, live, step - 1),
            compaction_file(file, plan, superblock.generation, live, step),
            now,
        ),
    ensures
        recoverable(
            now,
            compaction::superblock_for(
                (superblock.generation + 1) as u64,
                plan.source_offset,
                live,
            ),
            live,
            Seq::empty(),
        ),
{
    let generation = superblock.generation;
    let staged = compaction::superblock_for((generation + 1) as u64, plan.source_offset, live);
    let own = superblock::page_offset(staged.generation);
    let other = superblock::other_page_offset(staged.generation);
    assert(own == 0 || own == SUPERBLOCK_SIZE);
    lemma_marker_len();
    lemma_while_staged(file, superblock, entries, batches, plan, live, step - 1);
    writer::lemma_base_segment_len(plan.source_offset as int, live);
    writer::lemma_base_segment_len(DATA_START as int, live);
    let before = compaction_file(file, plan, generation, live, step - 1);
    let from = plan.source_offset as int;
    let to = plan.source_end as int;
    let at = if step == 4 {
        DATA_START as int
    } else {
        plan.destination_end as int
    };
    let part = if step == 4 {
        writer::base_segment(DATA_START as int, live)
    } else {
        log::compact_marker_bytes()
    };
    assert(compaction_file(file, plan, generation, live, step) == buffer::written_at(
        before,
        at,
        part,
    ));
    lemma_cut_short_write(before, at, part, now, own, own + SUPERBLOCK_SIZE);
    lemma_cut_short_write(before, at, part, now, other, other + SUPERBLOCK_SIZE);
    lemma_cut_short_write(before, at, part, now, from, to);
    assert(in_use(before, staged));
    lemma_same_page(before, now, own, staged, staged.generation);
    lemma_same_page(before, now, other, staged, staged.generation);
    assert(in_use(now, staged));
    assert(before.subrange(from, to) == writer::base_segment(from, live)) by {
        assert(base_in_place(before, staged, live));
    }
    lemma_base_alone(now, staged.generation, plan.source_offset, live);
}

/// The file while the page of the moved Base is written gives the live entries.
#[verifier::spinoff_prover]
proof fn lemma_cut_short_publishing(
    file: Seq<u8>,
    superblock: SuperblockView,
    entries: Seq<(Seq<u8>, Seq<u8>)>,
    batches: Seq<Seq<(Seq<u8>, Option<Seq<u8>>)>>,
    plan: CompactPlan,
    live: Seq<(Seq<u8>, Seq<u8>)>,
    now: Seq<u8>,
)
    requires
        file_holds(file, superblock, entries, batches),
        plan_fits(file, plan, live),
        superblock.generation + 2 <= u64::MAX,
        cut_short(
            compaction_file(file, plan, superblock.generation, live, 5),
            compaction_file(file, plan, superblock.generation, live, 6),
            now,
        ),
        shows_damage(
            superblock.generation,
            plan,
            live,
            6,
            compaction_file(file, plan, superblock.generation, live, 6),
            now,
        ),
    ensures
        recoverable(
            now,
            compaction::superblock_for((superblock.generation + 2) as u64, DATA_START, live),
            live,
            Seq::empty(),
        ) || recoverable(
            now,
            compaction::superblock_for(
                (superblock.generation + 1) as u64,
                plan.source_offset,
                live,
            ),
            live,
            Seq::empty(),
        ),
{
    let generation = superblock.generation;
    let staged = compaction::superblock_for((generation + 1) as u64, plan.source_offset, live);
    let moved = compaction::superblock_for((generation + 2) as u64, DATA_START, live);
    let page = superblock::page_bytes(moved);
    let own = superblock::page_offset(moved.generation);
    let other = superblock::other_page_offset(moved.generation);
    assert(other == superblock::page_offset(staged.generation));
    assert(own == superblock::other_page_offset(staged.generation));
    assert(own == 0 || own == SUPERBLOCK_SIZE);
    assert(page.len() == SUPERBLOCK_SIZE) by {
        superblock::law_page_roundtrip(moved);
    }
    lemma_marker_len();
    writer::lemma_base_segment_len(DATA_START as int, live);
    writer::lemma_base_segment_len(plan.source_offset as int, live);
    lemma_while_staged(file, superblock, entries, batches, plan, live, 5);
    let five = compaction_file(file, plan, generation, live, 5);
    let end = plan.destination_end as int;
    let start = DATA_START as int;
    let marker_end = end + LOG_HEADER_SIZE;
    let from = plan.source_offset as int;
    let to = plan.source_end as int;
    assert(compaction_file(file, plan, generation, live, 6) == buffer::written_at(five, own, page));
    lemma_cut_short_write(five, own, page, now, other, other + SUPERBLOCK_SIZE);
    lemma_cut_short_write(five, own, page, now, start, end);
    lemma_cut_short_write(five, own, page, now, end, marker_end);
    lemma_cut_short_write(five, own, page, now, from, to);
    assert(in_use(five, staged));
    lemma_same_page(five, now, other, staged, moved.generation);
    if page_holds(now, own, moved) {
        lemma_older_page(now, other, staged, moved.generation);
        assert(in_use(now, moved));
        lemma_base_alone(now, moved.generation, DATA_START, live);
    } else {
        assert(in_use(now, staged));
        assert(five.subrange(from, to) == writer::base_segment(from, live)) by {
            assert(base_in_place(five, staged, live));
        }
        lemma_base_alone(now, staged.generation, plan.source_offset, live);
    }
}

/// The file while the second copy of the page of the moved Base is written, or while the file
/// is cut, gives the live entries.
#[verifier::spinoff_prover]
proof fn lemma_cut_short_at_the_end(
    file: Seq<u8>,
    superblock: SuperblockView,
    entries: Seq<(Seq<u8>, Seq<u8>)>,
    batches: Seq<Seq<(Seq<u8>, Option<Seq<u8>>)>>,
    plan: CompactPlan,
    live: Seq<(Seq<u8>, Seq<u8>)>,
    step: int,
    now: Seq<u8>,
)
    requires
        file_holds(file, superblock, entries, batches),
        plan_fits(file, plan, live),
        superblock.generation + 2 <= u64::MAX,
        7 <= step <= 8,
        cut_short(
            compaction_file(file, plan, superblock.generation, live, step - 1),
            compaction_file(file, plan, superblock.generation, live, step),
            now,
        ),
        shows_damage(
            superblock.generation,
            plan,
            live,
            step,
            compaction_file(file, plan, superblock.generation, live, step),
            now,
        ),
    ensures
        recoverable(
            now,
            compaction::superblock_for((superblock.generation + 2) as u64, DATA_START, live),
            live,
            Seq::empty(),
        ),
{
    let generation = superblock.generation;
    let moved = compaction::superblock_for((generation + 2) as u64, DATA_START, live);
    let page = superblock::page_bytes(moved);
    let own = superblock::page_offset(moved.generation);
    let other = superblock::other_page_offset(moved.generation);
    assert(own == 0 || own == SUPERBLOCK_SIZE);
    assert(other == superblock::page_offset((generation + 1) as u64));
    assert(page.len() == SUPERBLOCK_SIZE) by {
        superblock::law_page_roundtrip(moved);
    }
    lemma_marker_len();
    writer::lemma_base_segment_len(DATA_START as int, live);
    lemma_while_staged(file, superblock, entries, batches, plan, live, 5);
    let five = compaction_file(file, plan, generation, live, 5);
    let six = compaction_file(file, plan, generation, live, 6);
    let seven = compaction_file(file, plan, generation, live, 7);
    let end = plan.destination_end as int;
    let start = DATA_START as int;
    let marker_end = end + LOG_HEADER_SIZE;
    assert(six == buffer::written_at(five, own, page));
    assert(seven == buffer::written_at(six, other, page));
    lemma_written_ranges(five, own, page, start, end);
    lemma_written_ranges(five, own, page, end, marker_end);
    if step == 7 {
        lemma_cut_short_write(six, other, page, now, own, own + SUPERBLOCK_SIZE);
        lemma_cut_short_write(six, other, page, now, start, end);
        lemma_cut_short_write(six, other, page, now, end, marker_end);
        assert(six.subrange(own, own + SUPERBLOCK_SIZE) =~= page);
    } else {
        assert(compaction_file(file, plan, generation, live, 8) == seven.take(end));
        lemma_written_ranges(six, other, page, own, own + SUPERBLOCK_SIZE);
        lemma_written_ranges(six, other, page, start, end);
        lemma_written_ranges(six, other, page, end, marker_end);
        let len = now.len() as int;
        assert(now =~= seven.take(len));
        assert(seven.take(len).subrange(own, own + SUPERBLOCK_SIZE) =~= page);
        assert(seven.take(len).subrange(other, other + SUPERBLOCK_SIZE) =~= page);
        assert(seven.take(len).subrange(start, end) =~= seven.subrange(start, end));
        if marker_end <= len {
            assert(seven.take(len).subrange(end, marker_end) =~= seven.subrange(
                end,
                marker_end,
            ));
        }
        lemma_written_page(now, other, moved);
    }
    lemma_written_page(now, own, moved);
    assert(in_use(now, moved));
    lemma_base_alone(now, moved.generation, DATA_START, live);
}

/// Wherever a crash cuts a step of compaction short, the file opens to what the database held
/// before, as long as a torn page shows that it is torn.
pub proof fn law_compaction_survives_a_crash_within_a_step(
    file: Seq<u8>,
    superblock: SuperblockView,
    entries: Seq<(Seq<u8>, Seq<u8>)>,
    batches: Seq<Seq<(Seq<u8>, Option<Seq<u8>>)>>,
    plan: CompactPlan,
    live: Seq<(Seq<u8>, Seq<u8>)>,
    step: int,
    now: Seq<u8>,
    verification: VerificationMode,
)
    requires
        file_holds(file, superblock, entries, batches),
        plan_fits(file, plan, live),
        superblock.generation + 2 <= u64::MAX,
        lookup::entries_map(live) == file_contents(entries, batches),
        1 <= step <= 8,
        cut_short(
            compaction_file(file, plan, superblock.generation, live, step - 1),
            compaction_file(file, plan, superblock.generation, live, step),
            now,
        ),
        shows_damage(
            superblock.generation,
            plan,
            live,
            step,
            compaction_file(file, plan, superblock.generation, live, step),
            now,
        ),
    ensures
        opens_to(now, verification, file_contents(entries, batches)),
{
    let none = Seq::<Seq<(Seq<u8>, Option<Seq<u8>>)>>::empty();
    let staged = compaction::superblock_for(
        (superblock.generation + 1) as u64,
        plan.source_offset,
        live,
    );
    let moved = compaction::superblock_for(
        (superblock.generation + 2) as u64,
        DATA_START,
        live,
    );
    assert(replay::replay(none) =~= Map::empty());
    assert(file_contents(live, none) =~= lookup::entries_map(live));
    if step <= 2 {
        lemma_cut_short_before_staging(
            file,
            superblock,
            entries,
            batches,
            plan,
            live,
            step,
            now,
        );
    } else if step == 3 {
        lemma_cut_short_staging(file, superblock, entries, batches, plan, live, now);
    } else if step <= 5 {
        lemma_cut_short_moving(file, superblock, entries, batches, plan, live, step, now);
    } else if step == 6 {
        lemma_cut_short_publishing(file, superblock, entries, batches, plan, live, now);
    } else {
        lemma_cut_short_at_the_end(file, superblock, entries, batches, plan, live, step, now);
    }
    if recoverable(now, superblock, entries, batches) {
        law_recoverable_file_opens(now, superblock, entries, batches, verification);
    } else if recoverable(now, staged, live, none) {
        law_recoverable_file_opens(now, staged, live, none, verification);
    } else {
        law_recoverable_file_opens(now, moved, live, none, verification);
    }
}

/// After the last step of compaction the file consists of the Base over the live entries,
/// with nothing in its log.
pub proof fn law_compacted_file_holds_the_live_entries(
    file: Seq<u8>,
    superblock: SuperblockView,
    entries: Seq<(Seq<u8>, Seq<u8>)>,
    batches: Seq<Seq<(Seq<u8>, Option<Seq<u8>>)>>,
    plan: CompactPlan,
    live: Seq<(Seq<u8>, Seq<u8>)>,
)
    requires
        file_holds(file, superblock, entries, batches),
        plan_fits(file, plan, live),
        superblock.generation + 2 <= u64::MAX,
    ensures
        file_holds(
            compaction_file(file, plan, superblock.generation, live, 8),
            compaction::superblock_for((superblock.generation + 2) as u64, DATA_START, live),
            live,
            Seq::empty(),
        ),
        compaction_file(file, plan, superblock.generation, live, 8).len() == plan.destination_end,
{
    lemma_after_moving(file, superblock, entries, batches, plan, live, 8);
    writer::lemma_base_segment_len(DATA_START as int, live);
    assert(replay::log_bytes(Seq::<Seq<(Seq<u8>, Option<Seq<u8>>)>>::empty()) =~= Seq::<
        u8,
    >::empty());
}

/// A plan that a database stored in a file makes fits that file, and its live entries are
/// what the file holds.
pub proof fn law_plan_fits_the_file(
    db: Database,
    file: Seq<u8>,
    batches: Seq<Seq<(Seq<u8>, Option<Seq<u8>>)>>,
    plan: CompactPlan,
)
    requires
        db.stored_in(file, batches),
        db.follows_plan(plan),
    ensures
        plan_fits(file, plan, db.live()),
        lookup::entries_map(db.live()) == file_contents(db.base_part().entries(), batches),
{
    db.law_live_entries();
    let live = db.live();
    assert(segment::block_count(index::base_data_size(live)) >= 0);
}

/// A database whose compaction ended is stored in the file that the steps of compaction
/// made, with nothing in its log.
pub proof fn law_compacted_database_is_stored(
    before: Database,
    after: Database,
    file: Seq<u8>,
    batches: Seq<Seq<(Seq<u8>, Option<Seq<u8>>)>>,
    plan: CompactPlan,
)
    requires
        before.stored_in(file, batches),
        before.follows_plan(plan),
        before.base_part().generation + 2 <= u64::MAX,
        after.wf(),
        after.sound(),
        after.overlay_part()@ == Map::<Seq<u8>, Option<Seq<u8>>>::empty(),
        after.base_part().mapping@ == writer::base_segment(DATA_START as int, before.live()),
        after.base_part().follows(
            compaction::superblock_for(
                (before.base_part().generation + 2) as u64,
                DATA_START,
                before.live(),
            ),
        ),
        after.storage_part().size() == plan.destination_end,
    ensures
        after.stored_in(
            compaction_file(file, plan, before.base_part().generation, before.live(), 8),
            Seq::empty(),
        ),
        after.contents() == before.contents(),
{
    let live = before.live();
    law_plan_fits_the_file(before, file, batches, plan);
    law_compacted_file_holds_the_live_entries(
        file,
        base_superblock(before.base_part()),
        before.base_part().entries(),
        batches,
        plan,
        live,
    );
    before.law_live_entries();
    writer::lemma_base_segment_len(DATA_START as int, live);
    assert(state::holds_entries(after.base_part().mapping@, DATA_START, live));
    state::lemma_holds_entries(after.base_part().mapping@, DATA_START, live);
    let none = Seq::<Seq<(Seq<u8>, Option<Seq<u8>>)>>::empty();
    assert(replay::replay(none) =~= Map::empty());
    assert(base_superblock(after.base_part()) == compaction::superblock_for(
        (before.base_part().generation + 2) as u64,
        DATA_START,
        live,
    ));
    assert(live::merged(lookup::entries_map(live), after.overlay_part()@)
        =~= lookup::entries_map(live));
}

} // verus!
