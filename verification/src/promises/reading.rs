//! What reading a database promises.

use crate::database::entries;
use crate::database::state::ActiveBase;
use crate::database::storage::Storage;
use crate::database::{Database, DatabaseStats, HandleState};
use crate::error::{ErrorView, Result};
use crate::format::lookup;
use crate::format::records;
use crate::format::segment;
use crate::format::validate;
use crate::key_map;
use crate::promises;
use crate::room::Room;
use crate::{Entries, ReadTransaction, Snapshot};
use vstd::prelude::*;

verus! {

/// A sound database gives for a key the value that it holds, and nothing where it holds none.
pub proof fn law_get(db: &Database, key: &[u8], result: Result<Option<&[u8]>>)
    requires
        call_ensures(Database::get, (db, key), result),
        db.sound(),
        db.health() != HandleState::Unavailable,
    ensures
        match result {
            Ok(Some(value)) => db.contents().contains_pair(key@, value@),
            Ok(None) => !db.contents().contains_key(key@),
            Err(_) => false,
        },
{
}

/// A key is present exactly where the database holds a value for it.
pub proof fn law_contains_key(db: &Database, key: &[u8], result: Result<bool>)
    requires
        call_ensures(Database::contains_key, (db, key), result),
        db.sound(),
        db.health() != HandleState::Unavailable,
    ensures
        result matches Ok(present) && present == db.contents().contains_key(key@),
{
}

/// The number of entries is that of the keys for which the database holds a value; there are
/// none exactly where it holds nothing.
pub proof fn law_len(db: &Database, len: Result<usize>, empty: Result<bool>)
    requires
        call_ensures(Database::len, (db,), len),
        call_ensures(Database::is_empty, (db,), empty),
        db.sound(),
        db.health() != HandleState::Unavailable,
        db.contents().dom().len() <= usize::MAX,
    ensures
        len matches Ok(len) && len == db.contents().dom().len(),
        empty matches Ok(empty) && empty == (forall|key: Seq<u8>|
            !#[trigger] db.contents().contains_key(key)),
{
    if forall|key: Seq<u8>| !#[trigger] db.contents().contains_key(key) {
        assert(db.contents() =~= Map::empty());
    }
}

/// Whether what an iteration gives is each entry of some contents, once.
pub open spec fn lists(
    results: Seq<std::result::Result<(Seq<u8>, Seq<u8>), ErrorView>>,
    contents: Map<Seq<u8>, Seq<u8>>,
) -> bool {
    &&& contents.dom().finite()
    &&& results.len() == contents.dom().len()
    &&& forall|i: int|
        0 <= i < results.len() ==> (#[trigger] results[i] matches Ok((key, value))
            && contents.contains_pair(key, value))
    &&& forall|key: Seq<u8>| #[trigger]
        contents.contains_key(key) ==> results.contains(
            Ok::<(Seq<u8>, Seq<u8>), ErrorView>((key, contents[key])),
        )
}

proof fn lemma_lists(live: Seq<(Seq<u8>, Seq<u8>)>, contents: Map<Seq<u8>, Seq<u8>>)
    requires
        records::entry_keys(live).no_duplicates(),
        lookup::entries_map(live) == contents,
    ensures
        lists(entries::good_items(live), contents),
{
    let keys = records::entry_keys(live);
    let values = records::entry_values(live);
    let results = entries::good_items(live);
    key_map::lemma_pairs_map_len(keys, values);
    assert forall|i: int| 0 <= i < results.len() implies (#[trigger] results[i] matches Ok((
        key,
        value,
    )) && contents.contains_pair(key, value)) by {
        key_map::lemma_pairs_map_at(keys, values, i);
    }
    assert forall|key: Seq<u8>| #[trigger] contents.contains_key(key) implies results.contains(
        Ok::<(Seq<u8>, Seq<u8>), ErrorView>((key, contents[key])),
    ) by {
        let i = keys.index_of(key);
        key_map::lemma_pairs_map_at(keys, values, i);
        assert(results[i] == Ok::<(Seq<u8>, Seq<u8>), ErrorView>((key, contents[key])));
    }
}

/// Iterating over a sound database gives each entry that it holds, once.
pub proof fn law_iter(db: &Database, result: Result<Entries<'_>>)
    requires
        call_ensures(Database::iter, (db,), result),
        db.wf(),
        db.sound(),
        db.health() != HandleState::Unavailable,
    ensures
        result matches Ok(entries) && lists(entries.results(), db.contents()),
{
    db.law_live_entries();
    lemma_lists(db.live(), db.contents());
}

/// A snapshot of a sound database goes on to give what the database held when it was made:
/// of each key, of the number of entries, and of the iteration over them.
pub proof fn law_snapshot(
    db: &Database,
    snapshot: Result<Snapshot>,
    key: &[u8],
    found: Result<Option<&[u8]>>,
    len: Result<usize>,
    listed: Result<Entries<'_>>,
)
    requires
        call_ensures(Database::snapshot, (db,), snapshot),
        db.wf(),
        db.sound(),
        db.health() != HandleState::Unavailable,
        db.contents().dom().len() <= usize::MAX,
        snapshot matches Ok(snapshot) ==> {
            &&& call_ensures(Snapshot::get, (&snapshot, key), found)
            &&& call_ensures(Snapshot::len, (&snapshot,), len)
            &&& call_ensures(Snapshot::iter, (&snapshot,), listed)
        },
    ensures
        snapshot is Ok,
        match found {
            Ok(Some(value)) => db.contents().contains_pair(key@, value@),
            Ok(None) => !db.contents().contains_key(key@),
            Err(_) => false,
        },
        len matches Ok(len) && len == db.contents().dom().len(),
        listed matches Ok(entries) && lists(entries.results(), db.contents()),
{
    db.law_live_entries();
    lemma_lists(db.live(), db.contents());
}

/// The statistics of a database: the image, the Base and its entries, the keys of which the
/// Overlay says something, the bytes of the log, the memory charged, and the bytes before the
/// Base that are no pages.
pub proof fn law_stats(db: &Database, result: Result<DatabaseStats>)
    requires
        call_ensures(Database::stats, (db,), result),
        db.wf(),
        db.health() != HandleState::Unavailable,
    ensures
        result matches Ok(stats) && {
            &&& stats.storage_bytes == db.storage_part().size()
            &&& stats.base_bytes == db.base_part().mapping@.len()
            &&& stats.base_entries == db.base_part().len
            &&& stats.overlay_entries == db.overlay_part()@.dom().len()
            &&& db.base_part().log_start <= stats.storage_bytes ==> db.base_part().log_start
                + stats.overlay_log_bytes == stats.storage_bytes
            &&& stats.storage_bytes < db.base_part().log_start ==> stats.overlay_log_bytes == 0
            &&& stats.overlay_memory_bytes == db.overlay_part().memory
            &&& 8192 <= db.base_part().offset ==> 8192 + stats.stale_bytes
                == db.base_part().offset
            &&& db.base_part().offset < 8192 ==> stats.stale_bytes == 0
            &&& stats.generation == db.base_part().generation
        },
{
    let overlay = *db.overlay_part().index;
    overlay.lemma_wf();
    assert(db.overlay_part()@.dom() =~= overlay@.dom());
    if let Storage::Memory(memory) = db.storage_part() {
        memory.lemma_regions();
    }
}

/// Complete verification passes, where memory is there for its records, exactly for a Base
/// whose checksum is that of its checksum table and footer, whose blocks have the checksums in
/// the table, and whose data is that of a Base. So a Base that was built from entries passes.
pub proof fn law_verification(base: &ActiveBase, room: Room, result: Result<()>)
    requires
        call_ensures(ActiveBase::verify_in, (base, room), result),
        base.wf(),
        promises::memory_is_there(room, base.len as int),
    ensures
        result is Ok <==> {
            &&& segment::metadata_checksum(base.mapping@) == base.checksum
            &&& segment::blocks_ok(base.data(), base.table())
            &&& validate::is_base(base.data(), base.offset as int, base.slots, base.len as nat)
        },
        base.sound() ==> result is Ok,
        result matches Err(error) ==> base.verify_outcome() == Err::<(), ErrorView>(error@),
{
    if segment::blocks_ok(base.data(), base.table()) {
        lookup::lemma_range_ok(
            base.data(),
            base.table(),
            base.offset,
            0,
            base.data().len() as int,
        );
    }
    if base.data().len() > 0 {
        segment::lemma_blocks_outcome(
            base.data(),
            base.table(),
            base.offset,
            0,
            segment::block_count(base.data().len() as int),
        );
    }
    validate::law_validation_is_exact(
        base.data(),
        base.offset as int,
        base.slots,
        base.len as nat,
    );
    if base.sound() {
        base.law_sound_base_verifies();
    }
}

/// A sound database verifies, where memory is there for the records of its Base.
pub proof fn law_sound_database_verifies(db: &Database, result: Result<()>)
    requires
        call_ensures(Database::verify, (db,), result),
        db.wf(),
        db.sound(),
        db.health() != HandleState::Unavailable,
        promises::memory_is_there(db.settings().room, db.base_part().len as int),
    ensures
        result is Ok,
{
    db.base_part().law_sound_base_verifies();
}

/// A read transaction reads the database that it was begun on.
pub proof fn law_read_transaction(
    read: &ReadTransaction<'_>,
    key: &[u8],
    found: Result<Option<&[u8]>>,
    present: Result<bool>,
    len: Result<usize>,
    empty: Result<bool>,
    listed: Result<Entries<'_>>,
)
    requires
        call_ensures(ReadTransaction::get, (read, key), found),
        call_ensures(ReadTransaction::contains_key, (read, key), present),
        call_ensures(ReadTransaction::len, (read,), len),
        call_ensures(ReadTransaction::is_empty, (read,), empty),
        call_ensures(ReadTransaction::iter, (read,), listed),
        read.wf(),
        read.source().sound(),
        read.source().contents().dom().len() <= usize::MAX,
    ensures
        match found {
            Ok(Some(value)) => read.source().contents().contains_pair(key@, value@),
            Ok(None) => !read.source().contents().contains_key(key@),
            Err(_) => false,
        },
        present matches Ok(present) && present == read.source().contents().contains_key(key@),
        len matches Ok(len) && len == read.source().contents().dom().len(),
        empty matches Ok(empty) && empty == (forall|key: Seq<u8>|
            !#[trigger] read.source().contents().contains_key(key)),
        listed matches Ok(entries) && lists(entries.results(), read.source().contents()),
{
    let db = read.source();
    db.law_live_entries();
    lemma_lists(db.live(), db.contents());
    if forall|key: Seq<u8>| !#[trigger] db.contents().contains_key(key) {
        assert(db.contents() =~= Map::empty());
    }
}

/// A read transaction and a snapshot can be had of every database that is not unavailable.
pub proof fn law_begin_read<'a>(
    db: &'a Database,
    read: Result<ReadTransaction<'a>>,
    snapshot: Result<Snapshot>,
)
    requires
        call_ensures(Database::begin_read, (db,), read),
        call_ensures(Database::snapshot, (db,), snapshot),
    ensures
        read is Ok <==> db.health() != HandleState::Unavailable,
        read matches Ok(read) ==> read.source() == *db,
        snapshot is Ok <==> db.health() != HandleState::Unavailable,
        snapshot matches Ok(snapshot) ==> snapshot.contents() == db.contents(),
{
}

/// Each step of an iteration gives the next of its results, until there are none.
pub proof fn law_next<'a>(item: Option<Result<(&'a [u8], &'a [u8])>>)
    ensures
        forall|entries: &mut Entries<'a>|
            #![trigger call_ensures(Entries::next, (entries,), item)]
            call_ensures(Entries::next, (entries,), item) ==> {
                &&& item is None <==> entries.results().len() == 0
                &&& item matches Some(Ok((key, value))) ==> entries.results()[0] == Ok::<
                    (Seq<u8>, Seq<u8>),
                    ErrorView,
                >((key@, value@))
                &&& item matches Some(Err(error)) ==> entries.results()[0] == Err::<
                    (Seq<u8>, Seq<u8>),
                    ErrorView,
                >(error@)
                &&& item is Some ==> final(entries).results() == entries.results().skip(1)
            },
{
    assert forall|results: Seq<std::result::Result<(Seq<u8>, Seq<u8>), ErrorView>>|
        results.len() > 0 implies #[trigger] results.drop_first() == results.skip(1) by {
        assert(results.drop_first() =~= results.skip(1));
    }
}

/// A database whose Base was verified counts the keys for which it holds a value, and gives
/// each entry once, whoever built the Base.
pub proof fn law_verified_database(
    db: &Database,
    len: Result<usize>,
    listed: Result<Entries<'_>>,
)
    requires
        call_ensures(Database::len, (db,), len),
        call_ensures(Database::iter, (db,), listed),
        db.wf(),
        db.health() != HandleState::Unavailable,
        db.contents().dom().len() <= usize::MAX,
        segment::blocks_ok(db.base_part().data(), db.base_part().table()),
        validate::is_base(
            db.base_part().data(),
            db.base_part().offset as int,
            db.base_part().slots,
            db.base_part().len as nat,
        ),
    ensures
        len matches Ok(len) && len == db.contents().dom().len(),
        listed matches Ok(entries) && lists(entries.results(), db.contents()),
{
    let base = db.base_part();
    validate::law_validation_is_exact(
        base.data(),
        base.offset as int,
        base.slots,
        base.len as nat,
    );
    validate::law_validated_base_is_readable(
        base.data(),
        base.offset as int,
        base.slots,
        base.len as nat,
    );
    db.law_readable_live_entries();
    lemma_lists(db.live(), db.contents());
    key_map::lemma_pairs_map_len(
        records::entry_keys(db.live()),
        records::entry_values(db.live()),
    );
}

} // verus!
