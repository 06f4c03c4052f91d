//! What compaction promises.

use crate::database::compaction;
use crate::database::maintenance;
use crate::database::storage::Storage;
use crate::database::{Database, HandleState};
use crate::error;
use crate::error::{ErrorKind, ErrorView, Result};
use crate::format::index;
use crate::format::lookup;
use crate::format::records;
use crate::format::segment;
use crate::format::superblock;
use crate::promises;
use crate::{BuiltBase, CompactPlan, Relocation};
use vstd::prelude::*;

verus! {

/// The size of the Base over the live entries of a database: a header of 24 bytes, 12 for each
/// slot, the records, 4 for the checksum of each 64 KiB, and a footer of 24 bytes.
pub open spec fn compact_size(db: Database) -> int {
    let data = 24 + 12 * index::slot_count(db.live().len()) + records::records_size(db.live());
    data + 4 * ((data + 65535) / 65536) + 24
}

/// Whether a database has nothing to rebuild: its Base stands behind the two pages, nothing is
/// in the Overlay, and the image ends with the Base.
pub open spec fn nothing_to_rebuild(db: Database) -> bool {
    &&& db.base_part().offset == 8192
    &&& db.overlay_part()@.dom().len() == 0
    &&& db.storage_part().size() == db.base_part().log_start
}

proof fn lemma_nothing_to_rebuild(db: Database)
    requires
        db.wf(),
    ensures
        nothing_to_rebuild(db) <==> db.is_compact(),
{
    let overlay = *db.overlay_part().index;
    overlay.lemma_wf();
    assert(db.overlay_part()@.dom() =~= overlay@.dom());
}

/// Entries are measured exactly where the size of their Base is a machine word.
pub proof fn law_measured_size(entries: Seq<(Seq<u8>, Seq<u8>)>)
    ensures
        match segment::measure_outcome(entries) {
            Ok((len, size)) => {
                let data = 24 + 12 * index::slot_count(entries.len()) + records::records_size(
                    entries,
                );
                &&& len == entries.len()
                &&& size == data + 4 * ((data + 65535) / 65536) + 24
                &&& size <= usize::MAX
            },
            Err(_) => {
                let data = 24 + 12 * index::slot_count(entries.len()) + records::records_size(
                    entries,
                );
                data + 4 * ((data + 65535) / 65536) + 24 > usize::MAX
            },
        },
{
    records::lemma_records_size(entries);
    index::law_load_factor(entries.len());
}

/// Whether `error` says that snapshots are in the way.
pub open spec fn is_blocked(error: ErrorView) -> bool {
    error matches ErrorView::DatabaseAlreadyOpen(error) && error.kind == ErrorKind::WouldBlock
}

/// A database in memory that can be written is rebuilt exactly where the one handle on its
/// guard is its own, and there is nothing to rebuild, or the pages and the new Base are within
/// the limit. It then holds what it held, and has nothing to rebuild. Where more handles were
/// counted, the call would block; a call that fails changes nothing.
pub proof fn law_compaction(
    before: Database,
    guards: int,
    result: std::result::Result<(), ErrorView>,
    after: Database,
)
    requires
        before.wf(),
        before.storage_part() is Memory,
        before.compacts_in_memory(guards, result, after),
        before.health() == HandleState::Healthy,
        promises::memory_is_there(before.settings().room, before.base_part().len as int),
        promises::memory_is_there(before.settings().room, 8192 + compact_size(before)),
    ensures
        result is Ok <==> guards == 1 && (nothing_to_rebuild(before) || {
            &&& compact_size(before) <= usize::MAX
            &&& 8192 + compact_size(before) <= before.settings().max_database_bytes
        }),
        guards != 1 ==> (result matches Err(error) && is_blocked(error)),
        result is Ok ==> after.contents() == before.contents() && nothing_to_rebuild(after)
            && after.health() == HandleState::Healthy && after.settings() == before.settings()
            && after.storage_part().size() == 8192 + compact_size(before),
        result is Ok && nothing_to_rebuild(before) ==> after == before,
        result is Err ==> after == before,
{
    lemma_nothing_to_rebuild(before);
    before.base_part().law_sound_base_verifies();
    before.law_live_entries();
    law_measured_size(before.live());
    records::lemma_records_size(before.live());
    if segment::measure_outcome(before.live()) is Ok && 8192 + compact_size(before) <= u64::MAX {
        maintenance::law_measured_entries_can_be_built(8192, before.live());
    }
    if result is Ok {
        maintenance::law_compaction_keeps_the_contents(before, guards, after);
        lemma_nothing_to_rebuild(after);
        maintenance::law_compaction_in_memory(
            before,
            guards,
            after,
            Seq::empty(),
            Ok(None),
        );
    }
}

/// Compaction in memory counts the handles on the guard of the database, and on nothing else.
pub proof fn law_compact(result: Result<()>)
    ensures
        forall|db: &mut Database|
            #![trigger call_ensures(Database::compact, (db,), result)]
            call_ensures(Database::compact, (db,), result) ==> exists|guards: int|
                db.counts_guards(guards) && #[trigger] db.compacts_in_memory(
                    guards,
                    error::outcome(result),
                    *final(db),
                ),
{
}

/// Where the Base over the live entries of a database is staged: behind the record that ends
/// the log, and behind the Base in its place with such a record.
pub open spec fn staging_offset(db: Database) -> int {
    let size = db.storage_part().size();
    let placed = 8192 + compact_size(db);
    17 + (if size > placed {
        size
    } else {
        placed
    })
}

/// Whether `result` is what starting to rebuild a file is to give, with `guards` handles on the
/// guard of the database.
pub open spec fn plans(
    db: Database,
    guards: int,
    result: std::result::Result<Option<CompactPlan>, ErrorView>,
) -> bool {
    let size = compact_size(db);
    let staged = staging_offset(db);
    if guards != 1 {
        result matches Err(error) && is_blocked(error)
    } else if nothing_to_rebuild(db) {
        result == Ok::<Option<CompactPlan>, ErrorView>(None)
    } else if size <= usize::MAX && staged + size <= db.settings().max_database_bytes {
        &&& result matches Ok(Some(plan))
        &&& plan.rollback_offset == db.storage_part().size()
        &&& plan.destination_end == 8192 + size
        &&& plan.source_offset == staged
        &&& plan.source_end == staged + size
        &&& plan.live_len == db.contents().dom().len()
        &&& plan.base_size == size
    } else {
        result is Err
    }
}

/// A file is rebuilt exactly where the one handle on the guard of the database is its own, and
/// the Base fits twice: in its place behind the pages, and staged behind the record that ends
/// the log and behind the Base in its place with such a record.
pub proof fn law_start_compact(db: &Database, result: Result<Option<CompactPlan>>)
    requires
        call_ensures(Database::start_compact, (db,), result),
        db.wf(),
        db.sound(),
        db.health() == HandleState::Healthy,
        promises::memory_is_there(db.settings().room, db.base_part().len as int),
    ensures
        exists|guards: int| #[trigger]
            db.counts_guards(guards) && plans(*db, guards, error::outcome(result)),
{
    lemma_nothing_to_rebuild(*db);
    db.base_part().law_sound_base_verifies();
    db.law_live_entries();
    law_measured_size(db.live());
    records::lemma_records_size(db.live());
    let guards = choose|guards: int| #[trigger]
        db.starts_compaction(guards, error::outcome(result)) && db.counts_guards(guards);
    assert(db.counts_guards(guards));
}

/// Where memory is there, the Base that is to be staged is built from the entries of a sound
/// database exactly where the record that ends the log was written; else no more can be
/// written, and the file is to be cut to where it was.
pub proof fn law_compact_marked(plan: CompactPlan, marked: Result<()>, result: Result<BuiltBase>)
    ensures
        forall|db: &mut Database|
            #![trigger call_ensures(Database::compact_marked, (db, plan, marked), result)]
            call_ensures(Database::compact_marked, (db, plan, marked), result) && db.sound()
                && db.base_part().generation < u64::MAX && promises::memory_is_there(
                db.settings().room,
                plan.base_size as int,
            ) ==> {
                &&& result is Ok <==> marked is Ok
                &&& final(db).contents() == db.contents()
                &&& result matches Ok(staged) ==> staged.entries() == db.live()
                    && staged.bytes().len() == plan.base_size && staged.published().base_offset
                    == plan.source_offset && staged.published().generation
                    == db.base_part().generation + 1 && final(db).health() == db.health()
                &&& result is Err ==> final(db).health() == HandleState::WritePoisoned
                    && final(db).storage_part().size() == plan.rollback_offset
            },
{
}

/// The file is as long as the staged Base reaches exactly where that was synced.
pub proof fn law_compact_staged(
    plan: CompactPlan,
    staged: BuiltBase,
    synced: Result<()>,
    result: Result<BuiltBase>,
)
    ensures
        forall|db: &mut Database|
            #![trigger call_ensures(Database::compact_staged, (db, plan, staged, synced), result)]
            call_ensures(Database::compact_staged, (db, plan, staged, synced), result) ==> {
                &&& result is Ok <==> synced is Ok
                &&& final(db).contents() == db.contents()
                &&& result matches Ok(next) ==> next == staged && final(db).health()
                    == db.health() && final(db).storage_part().size() == plan.source_end
                &&& result is Err ==> final(db).health() == HandleState::WritePoisoned
                    && final(db).storage_part().size() == plan.rollback_offset
            },
{
}

/// Where memory is there, a staged Base that was published is taken over, and the one in its
/// place is built from the same entries.
pub proof fn law_compact_published(
    plan: CompactPlan,
    staged: BuiltBase,
    published: Result<()>,
    result: Result<Relocation>,
)
    ensures
        forall|db: &mut Database|
            #![trigger call_ensures(
                Database::compact_published,
                (db, plan, staged, published),
                result,
            )]
            call_ensures(Database::compact_published, (db, plan, staged, published), result)
                && staged.published().generation < u64::MAX && promises::memory_is_there(
                db.settings().room,
                plan.base_size as int,
            ) ==> {
                &&& result is Ok <==> published is Ok
                &&& final(db).contents() == db.contents()
                &&& result matches Ok(relocation) ==> relocation.target().entries() == db.live()
                    && relocation.target().published().base_offset == 8192
                    && relocation.target().published().generation
                    == staged.published().generation + 1 && final(db).health() == db.health()
                    && final(db).base_part().mapping@ == staged.bytes()
                    && final(db).overlay_part().memory == 0
                &&& result is Err ==> final(db).health() == HandleState::WritePoisoned
            },
{
}

/// A file that was rebuilt holds the entries of its new Base and nothing else, can be written,
/// and ends with the Base.
pub proof fn law_compact_shrunk(
    plan: CompactPlan,
    built: BuiltBase,
    shrunk: Result<()>,
    result: Result<()>,
)
    ensures
        forall|db: &mut Database|
            #![trigger call_ensures(Database::compact_shrunk, (db, plan, built, shrunk), result)]
            call_ensures(Database::compact_shrunk, (db, plan, built, shrunk), result) ==> {
                &&& result is Ok <==> shrunk is Ok
                &&& result is Ok ==> final(db).contents() == lookup::entries_map(built.entries())
                    && final(db).health() == HandleState::Healthy && nothing_to_rebuild(
                    *final(db),
                ) && final(db).storage_part().size() == plan.destination_end
                &&& result is Err ==> *final(db) == *db
            },
{
    assert forall|db: &mut Database|
        #![trigger call_ensures(Database::compact_shrunk, (db, plan, built, shrunk), result)]
        call_ensures(Database::compact_shrunk, (db, plan, built, shrunk), result)
            && shrunk is Ok implies nothing_to_rebuild(*final(db)) by {
        lemma_nothing_to_rebuild(*final(db));
    }
}

/// The image in memory of a database that was rebuilt holds its new Base behind the pages, and
/// on one of these, by its generation, the page that names the Base.
pub proof fn law_compacted_image(before: Database, after: Database)
    requires
        before.compacts_in_memory(1, Ok(()), after),
        after != before,
    ensures
        after.base_part().generation == before.base_part().generation + 1,
        after.storage_part() matches Storage::Memory(memory) && {
            let image = memory.image();
            let page = 4096 * (after.base_part().generation % 2);
            &&& image.len() == 8192 + after.base_part().mapping@.len()
            &&& image.skip(8192) == after.base_part().mapping@
            &&& image.subrange(page as int, page + 4096) == superblock::page_bytes(
                compaction::superblock_for(
                    after.base_part().generation,
                    8192,
                    after.base_part().entries(),
                ),
            )
            &&& after.base_part().entries() == before.live()
        },
{
    if let Storage::Memory(memory) = after.storage_part() {
        let image = memory.image();
        assert(image.skip(8192) =~= image.subrange(8192, image.len() as int));
    }
}

/// While a file is cut the database cannot be used; where the moved Base could not be published,
/// it is as before, but no more can be written.
pub proof fn law_compact_relocated(
    relocation: Relocation,
    published: Result<()>,
    result: Result<BuiltBase>,
)
    ensures
        forall|db: &mut Database|
            #![trigger call_ensures(
                Database::compact_relocated,
                (db, relocation, published),
                result,
            )]
            call_ensures(Database::compact_relocated, (db, relocation, published), result) ==> {
                &&& result is Ok <==> published is Ok
                &&& result matches Ok(built) ==> built == relocation.target() && final(
                    db
                ).health() == HandleState::Unavailable
                &&& result is Err ==> final(db).contents() == db.contents() && final(db).health()
                    == HandleState::WritePoisoned
                &&& final(db).storage_part() == db.storage_part()
            },
{
}

/// A Base that was built goes to its offset, and its page to the one of its generation and, as a
/// second copy, to the other.
pub proof fn law_built_base(
    built: &BuiltBase,
    segment: &[u8],
    offset: u64,
    page: Vec<u8>,
    page_offset: u64,
    second: u64,
)
    requires
        call_ensures(BuiltBase::segment, (built,), segment),
        call_ensures(BuiltBase::offset, (built,), offset),
        call_ensures(BuiltBase::page, (built,), page),
        call_ensures(BuiltBase::page_offset, (built,), page_offset),
        call_ensures(BuiltBase::redundant_page_offset, (built,), second),
    ensures
        segment@ == built.bytes(),
        offset == built.published().base_offset,
        superblock::decode_page(page@) == built.published(),
        page_offset == 4096 * (built.published().generation % 2),
        second == 4096 - page_offset,
{
    superblock::law_page_roundtrip(built.published());
}

} // verus!
