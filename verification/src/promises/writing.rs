//! What transactions promise.

use crate::bytes;
use crate::database::commit;
use crate::database::recovery;
use crate::database::state;
use crate::database::state::{OverlayEntry, OverlayState, ValueBytes};
use crate::database::{Database, HandleState};
use crate::error::{ErrorView, Result};
use crate::format::log;
use crate::key_map;
use crate::key_map::KeyMap;
use crate::promises;
use crate::{FileCommit, ReservedValue, WriteTransaction};
use vstd::prelude::*;

verus! {

/// A pair is put exactly where the key has at most 1 MiB, the value is below 4 GiB, and both
/// fit into the record of a batch; and then, where memory is there, the transaction maps the
/// key to the value and says of the other keys what it said before. A pair that is refused
/// changes nothing.
pub proof fn law_put(key: &[u8], value: &[u8], result: Result<()>)
    ensures
        forall|write: &mut WriteTransaction<'_>|
            #![trigger call_ensures(WriteTransaction::put, (write, key, value), result)]
            call_ensures(WriteTransaction::put, (write, key, value), result)
                && promises::memory_is_there(write.room(), value@.len() as int) ==> {
                &&& result is Ok <==> {
                    &&& key@.len() <= 1_048_576
                    &&& value@.len() <= 4_294_967_295
                    &&& 13 + key@.len() + value@.len() <= 4_294_967_295
                }
                &&& result is Ok ==> final(write).says() == write.says().insert(
                    key@,
                    Some(value@),
                )
                &&& result is Err ==> final(write).says() == write.says()
            },
{
}

/// A value is reserved exactly within the same limits. Within them, and where memory is there,
/// `fill` is called with as many zeros, and decides: where it fails, its error comes back;
/// where it fills the reservation, the transaction maps the key to what it left there; where
/// it leaves a part, nothing changes.
pub proof fn law_put_reserved<F: FnOnce(&mut ReservedValue<'_>) -> Result<()>>(
    key: &[u8],
    value_len: usize,
    fill: F,
    result: Result<()>,
)
    ensures
        forall|write: &mut WriteTransaction<'_>|
            #![trigger call_ensures(
                WriteTransaction::put_reserved::<F>,
                (write, key, value_len, fill),
                result,
            )]
            call_ensures(
                WriteTransaction::put_reserved::<F>,
                (write, key, value_len, fill),
                result,
            ) && promises::memory_is_there(write.room(), value_len as int) ==> {
                let fits = {
                    &&& key@.len() <= 1_048_576
                    &&& value_len <= 4_294_967_295
                    &&& 13 + key@.len() + value_len <= 4_294_967_295
                };
                &&& result is Ok ==> fits
                &&& result is Err ==> final(write).says() == write.says()
                &&& fits ==> exists|reserved: &mut ReservedValue<'_>, filled: Result<()>|
                    #![trigger fill.ensures((reserved,), filled)]
                    {
                        &&& fill.ensures((reserved,), filled)
                        &&& reserved.at() == 0
                        &&& reserved.buffer()@.len() == value_len
                        &&& forall|i: int| 0 <= i < value_len ==> reserved.buffer()@[i] == 0
                        &&& filled is Err ==> result == filled
                        &&& filled is Ok && final(reserved).at() < value_len ==> result is Err
                        &&& filled is Ok && final(reserved).at() >= value_len ==> result is Ok
                            && final(write).says() == write.says().insert(
                            key@,
                            Some(final(reserved).buffer()@),
                        )
                    }
            },
{
}

/// A key is deleted exactly where it has at most 1 MiB; whether it was there does not matter.
pub proof fn law_delete(key: &[u8], result: Result<()>)
    ensures
        forall|write: &mut WriteTransaction<'_>|
            #![trigger call_ensures(WriteTransaction::delete, (write, key), result)]
            call_ensures(WriteTransaction::delete, (write, key), result) ==> {
                &&& result is Ok <==> key@.len() <= 1_048_576
                &&& result is Ok ==> final(write).says() == write.says().insert(key@, None)
                &&& result is Err ==> final(write).says() == write.says()
            },
{
}

/// The bytes that operations take in a batch: for each its kind, two lengths, the key, and the
/// value of a put.
pub open spec fn bytes_of(operations: Seq<(Seq<u8>, Option<Seq<u8>>)>) -> int
    decreases operations.len(),
{
    if operations.len() == 0 {
        0
    } else {
        let (key, value) = operations.last();
        bytes_of(operations.drop_last()) + 9 + key.len() + (match value {
            Some(value) => value.len() as int,
            None => 0,
        })
    }
}

/// These are the bytes that are written.
pub proof fn lemma_bytes_of(operations: Seq<(Seq<u8>, Option<Seq<u8>>)>)
    ensures
        bytes_of(operations) == log::operations_size(operations),
    decreases operations.len(),
{
    if operations.len() > 0 {
        lemma_bytes_of(operations.drop_last());
    }
}

/// Whether a database takes a batch: it can be written, and where there is anything in the
/// batch, that is at most a million operations, below 4 GiB, and the image with the record,
/// whose header has 17 bytes and whose count has 4, stays within the limit.
pub open spec fn takes(db: Database, operations: Seq<(Seq<u8>, Option<Seq<u8>>)>) -> bool {
    &&& db.health() == HandleState::Healthy
    &&& operations.len() > 0 ==> {
        &&& operations.len() <= 1_000_000
        &&& 4 + bytes_of(operations) <= 4_294_967_295
        &&& db.storage_part().size() + 17 + 4 + bytes_of(operations)
            <= db.settings().max_database_bytes
    }
}

/// Whether contents are those from before with every mutation made, and no other.
pub open spec fn with_mutations(
    before: Map<Seq<u8>, Seq<u8>>,
    said: Map<Seq<u8>, Option<Seq<u8>>>,
    after: Map<Seq<u8>, Seq<u8>>,
) -> bool {
    forall|key: Seq<u8>| #[trigger]
        after.contains_key(key) == (if said.contains_key(key) {
            said[key] is Some
        } else {
            before.contains_key(key)
        }) && (after.contains_key(key) ==> after[key] == (if said.contains_key(key) {
            said[key]->Some_0
        } else {
            before[key]
        }))
}

/// The mutations of a transaction are what it says of the keys, each once.
pub proof fn law_mutations(write: WriteTransaction<'_>)
    requires
        write.wf(),
    ensures
        commit::operations_of(write.mutations()).len() == write.says().dom().len(),
        forall|i: int|
            0 <= i < commit::operations_of(write.mutations()).len() ==> write.says().contains_pair(
                (#[trigger] commit::operations_of(write.mutations())[i]).0,
                commit::operations_of(write.mutations())[i].1,
            ),
{
    write.lemma_mutations();
    let keys = write.mutations().keys();
    let values = write.mutations().values();
    assert forall|i: int| 0 <= i < keys.len() implies write.says().contains_pair(
        (#[trigger] commit::operations_of(write.mutations())[i]).0,
        commit::operations_of(write.mutations())[i].1,
    ) by {
        key_map::lemma_pairs_map_at(keys, values, i);
    }
}

/// A transaction on a database in memory commits exactly where the database takes its batch.
/// Then every mutation is made, and no other, and the image has grown by the record; else
/// nothing changes.
pub proof fn law_commit(write: WriteTransaction<'_>, result: Result<()>)
    requires
        call_ensures(WriteTransaction::commit, (write,), result),
        write.wf(),
        write.target().storage_part() is Memory,
    ensures
        result is Ok <==> takes(*write.target(), commit::operations_of(write.mutations())),
        result is Ok ==> with_mutations(
            write.target().contents(),
            write.says(),
            final(write.target()).contents(),
        ),
        result is Ok && write.says().dom().len() > 0
            ==> final(write.target()).storage_part().size()
            == write.target().storage_part().size() + 21 + bytes_of(
            commit::operations_of(write.mutations()),
        ),
        result is Err ==> *final(write.target()) == *write.target(),
        write.target().health() != HandleState::Healthy ==> (result matches Err(error) && error@
            == ErrorView::Poisoned),
{
    lemma_bytes_of(commit::operations_of(write.mutations()));
    law_mutations(write);
}

/// A commit to a file starts exactly where the database takes the batch. With nothing staged
/// there is nothing to append; else a record behind the end of the file.
pub proof fn law_start_commit(
    db: &Database,
    staged: KeyMap<OverlayEntry>,
    value_checksums: &KeyMap<u32>,
    result: Result<Option<FileCommit>>,
)
    requires
        call_ensures(Database::start_commit, (db, staged, value_checksums), result),
        staged.wf(),
    ensures
        result is Ok <==> takes(*db, commit::operations_of(staged)),
        result matches Ok(started) ==> (started is None <==> staged.keys().len() == 0),
        result matches Ok(Some(commit)) ==> commit.start() == db.storage_part().size()
            && commit.record_bytes().len() == 21 + bytes_of(commit::operations_of(staged))
            && commit.says() == commit::staged_view(staged),
        db.health() != HandleState::Healthy ==> (result matches Err(error) && error@
            == ErrorView::Poisoned),
{
    lemma_bytes_of(commit::operations_of(staged));
}

/// A transaction begins exactly on a database that can be written and whose Overlay is charged
/// no more memory than its limit. It says nothing yet.
pub proof fn law_begin_write(result: Result<WriteTransaction<'_>>)
    ensures
        forall|db: &mut Database|
            #![trigger call_ensures(Database::begin_write, (db,), result)]
            call_ensures(Database::begin_write, (db,), result) ==> {
                &&& result is Ok <==> db.health() == HandleState::Healthy
                    && db.overlay_part().memory <= db.settings().overlay_memory_limit
                &&& result matches Ok(write) ==> write.says().dom().len() == 0 && *write.target()
                    == *db && *final(write.target()) == *final(db)
                &&& result matches Err(error) ==> *final(db) == *db && error@ == (if db.health()
                    != HandleState::Healthy {
                    ErrorView::Poisoned
                } else {
                    ErrorView::MaintenanceRequired {
                        limit: db.settings().overlay_memory_limit,
                        actual: db.overlay_part().memory,
                    }
                })
            },
{
}

/// What was put and committed is read; what was deleted is not found; every other key reads as
/// before.
pub proof fn law_committed_mutations_are_read(
    write: WriteTransaction<'_>,
    key: Seq<u8>,
    found: std::result::Result<Option<Seq<u8>>, ErrorView>,
)
    requires
        call_ensures(WriteTransaction::commit, (write,), Ok(())),
        write.wf(),
        write.target().storage_part() is Memory,
        final(write.target()).can_get(key, found),
    ensures
        final(write.target()).health() == HandleState::Healthy,
        write.says().contains_key(key) ==> found == Ok::<Option<Seq<u8>>, ErrorView>(
            write.says()[key],
        ),
        !write.says().contains_key(key) ==> write.target().can_get(key, found),
{
    law_commit(write, Ok(()));
    let after = final(write.target()).contents();
    assert(after.contains_key(key) == after.contains_key(key));
    crate::database::lemma_sound_read(
        write.target().base_part(),
        write.target().overlay_part()@,
        key,
        true,
    );
    crate::database::lemma_sound_read(
        write.target().base_part(),
        write.target().overlay_part()@,
        key,
        false,
    );
}

/// A commit to a file ends well exactly where the file was synced. Then every mutation is made,
/// and no other; else nothing is, and no more can be written.
pub proof fn law_commit_synced(commit: FileCommit, synced: Result<()>, result: Result<()>)
    ensures
        forall|db: &mut Database|
            #![trigger call_ensures(Database::commit_synced, (db, commit, synced), result)]
            call_ensures(Database::commit_synced, (db, commit, synced), result) ==> {
                &&& result is Ok <==> synced is Ok
                &&& result is Ok ==> with_mutations(
                    db.contents(),
                    commit.says(),
                    final(db).contents(),
                ) && final(db).health() == db.health() && final(db).storage_part()
                    == db.storage_part()
                &&& result is Err ==> result == synced && final(db).contents() == db.contents()
                    && final(db).health() == HandleState::WritePoisoned
                    && final(db).storage_part().size() == commit.start()
            },
{
}

/// After the record of a commit was appended, the file is longer by the record; where it could
/// not be, the file is to be cut to where it was, and no more can be written.
pub proof fn law_commit_appended(
    commit: FileCommit,
    appended: Result<()>,
    result: Result<FileCommit>,
)
    ensures
        forall|db: &mut Database|
            #![trigger call_ensures(Database::commit_appended, (db, commit, appended), result)]
            call_ensures(Database::commit_appended, (db, commit, appended), result) ==> {
                &&& result is Ok <==> appended is Ok
                &&& final(db).contents() == db.contents()
                &&& final(db).storage_part().size() == commit.start() + (if appended is Ok {
                    commit.record_bytes().len() as int
                } else {
                    0
                })
                &&& result matches Ok(next) ==> next == commit && final(db).health()
                    == db.health()
                &&& result is Err ==> final(db).health() == HandleState::WritePoisoned
            },
{
}

/// A commit whose record was read back as it was written goes on with what was staged.
pub proof fn law_commit_mapped(
    commit: FileCommit,
    mapped: Result<Vec<u8>>,
    result: Result<FileCommit>,
)
    requires
        commit.is_recorded(),
    ensures
        forall|db: &mut Database|
            #![trigger call_ensures(Database::commit_mapped, (db, commit, mapped), result)]
            call_ensures(Database::commit_mapped, (db, commit, mapped), result) ==> {
                &&& (mapped matches Ok(bytes) && bytes@ == commit.record_bytes()) ==> (
                result matches Ok(next) && next.says() == commit.says() && next.start()
                    == commit.start() && *final(db) == *db)
                &&& mapped is Err ==> result is Err
                &&& result is Err ==> final(db).contents() == db.contents() && final(db).health()
                    == HandleState::WritePoisoned && final(db).storage_part().size()
                    == commit.start()
            },
{
}

/// The memory charged for a key and what the Overlay says of it: the bytes of the key, and
/// those of a value, unless it has a MiB or more and stays in what was read back.
pub open spec fn charged_for(key: Seq<u8>, entry: OverlayEntry) -> int {
    let charge = key.len() + (match entry {
        OverlayEntry::Put(ValueBytes::Owned(value)) => value@.len() as int,
        OverlayEntry::Put(value) => if value@.len() < 1_048_576 {
            value@.len() as int
        } else {
            0
        },
        OverlayEntry::Delete => 0,
    });
    if charge <= usize::MAX {
        charge
    } else {
        usize::MAX as int
    }
}

/// Every entry of an Overlay adds its own charge to what is charged for the others.
pub proof fn law_charges_add_up(
    keys: Seq<Seq<u8>>,
    values: Seq<OverlayEntry>,
    key: Seq<u8>,
    entry: OverlayEntry,
)
    requires
        keys.len() == values.len(),
    ensures
        state::total_charge(Seq::empty(), Seq::empty()) == 0,
        state::total_charge(keys.push(key), values.push(entry)) == state::total_charge(
            keys,
            values,
        ) + charged_for(key, entry),
{
    assert(keys.push(key).drop_last() =~= keys);
    assert(values.push(entry).drop_last() =~= values);
}

/// Saying something of a key takes back what was charged for the key before, and charges for
/// what is said now, within a machine word.
pub proof fn law_set_charges(key: Vec<u8>, entry: OverlayEntry)
    ensures
        forall|overlay: &mut OverlayState|
            #![trigger call_ensures(OverlayState::set, (overlay, key, entry), ())]
            call_ensures(OverlayState::set, (overlay, key, entry), ()) ==> {
                let before = if overlay.index@.contains_key(key@) {
                    charged_for(key@, overlay.index@[key@])
                } else {
                    0
                };
                let rest = if overlay.memory >= before {
                    overlay.memory - before
                } else {
                    0
                };
                &&& final(overlay)@ == overlay@.insert(key@, entry@)
                &&& rest + charged_for(key@, entry) <= usize::MAX ==> final(overlay).memory
                    == rest + charged_for(key@, entry)
                &&& rest + charged_for(key@, entry) > usize::MAX ==> final(overlay).memory
                    == usize::MAX
            },
{
}

/// Whether what is published of a key goes with what was staged: a deletion stays one, a value
/// below 1 MiB stays as it is, and a larger one is taken from the record that was read back.
pub open spec fn goes_with(staged: Option<Seq<u8>>, published: Option<Seq<u8>>) -> bool {
    match staged {
        Some(value) => published is Some && (value.len() < 1_048_576 ==> published == staged),
        None => published is None,
    }
}

proof fn lemma_match_written(
    record: Seq<u8>,
    at: int,
    n: nat,
    left: Map<Seq<u8>, Option<Seq<u8>>>,
    done: Map<Seq<u8>, Option<Seq<u8>>>,
)
    ensures
        commit::match_written(record, at, n, left, done) matches Ok(published) ==> {
            &&& forall|key: Seq<u8>| #[trigger]
                published.contains_key(key) <==> left.contains_key(key) || done.contains_key(key)
            &&& forall|key: Seq<u8>| #[trigger]
                published.contains_key(key) ==> if left.contains_key(key) {
                    goes_with(left[key], published[key])
                } else {
                    published[key] == done[key]
                }
        },
    decreases n,
{
    if n > 0 {
        let key = recovery::operation_key(record, at);
        let value_end = recovery::operation_end(record, at);
        let value = commit::published_value(
            left[key],
            record.subrange(at + 9 + recovery::operation_key_len(record, at), value_end),
        );
        lemma_match_written(
            record,
            value_end,
            (n - 1) as nat,
            left.remove(key),
            done.insert(key, value),
        );
    }
}

/// What is published after a record was read back is of exactly the keys that were staged, and
/// goes with what was staged of each.
pub proof fn law_published(
    commit: FileCommit,
    mapped: Result<Vec<u8>>,
    result: Result<FileCommit>,
)
    ensures
        forall|db: &mut Database|
            #![trigger call_ensures(Database::commit_mapped, (db, commit, mapped), result)]
            call_ensures(Database::commit_mapped, (db, commit, mapped), result) ==> (
            result matches Ok(next) ==> next.says().dom() == commit.says().dom() && forall|
                key: Seq<u8>,
            | #[trigger]
                commit.says().contains_key(key) ==> goes_with(commit.says()[key], next.says()[key])),
{
    if let (Ok(bytes), Ok(next)) = (mapped, result) {
        lemma_match_written(
            bytes@,
            21,
            bytes::le_u32(bytes@, 17) as nat,
            commit.says(),
            Map::empty(),
        );
        if commit::published_outcome(commit.says(), Some(bytes@)) is Ok {
            let published = commit::published_outcome(commit.says(), Some(bytes@))->Ok_0;
            assert(published.dom() =~= commit.says().dom());
        }
    }
}

/// A transaction reads what it says of a key, and of the other keys what the database holds.
pub proof fn law_transaction_reads(
    write: &WriteTransaction<'_>,
    key: &[u8],
    found: Result<Option<&[u8]>>,
    present: Result<bool>,
)
    requires
        call_ensures(WriteTransaction::get, (write, key), found),
        call_ensures(WriteTransaction::contains_key, (write, key), present),
        write.target().sound(),
        write.target().health() != HandleState::Unavailable,
    ensures
        ({
            let held = if write.says().contains_key(key@) {
                write.says()[key@]
            } else {
                write.target().contents().get(key@)
            };
            &&& match found {
                Ok(Some(value)) => held == Some(value@),
                Ok(None) => held is None,
                Err(_) => false,
            }
            &&& present matches Ok(present) && present == held is Some
        }),
{
}

/// The number of mutations is that of the keys of which a transaction says something; there are
/// none exactly where it says nothing.
pub proof fn law_transaction_len(write: &WriteTransaction<'_>, len: usize, empty: bool)
    requires
        call_ensures(WriteTransaction::len, (write,), len),
        call_ensures(WriteTransaction::is_empty, (write,), empty),
    ensures
        len == write.says().dom().len(),
        empty == (forall|key: Seq<u8>| !#[trigger] write.says().contains_key(key)),
{
    if forall|key: Seq<u8>| !#[trigger] write.says().contains_key(key) {
        assert(write.says() =~= Map::empty());
    }
}

/// A value below 1 MiB, or one for a database in memory, is put without asking for memory.
pub proof fn law_small_put(key: &[u8], value: &[u8], result: Result<()>)
    ensures
        forall|write: &mut WriteTransaction<'_>|
            #![trigger call_ensures(WriteTransaction::put, (write, key, value), result)]
            call_ensures(WriteTransaction::put, (write, key, value), result) && (value@.len()
                < 1_048_576 || write.target().storage_part() is Memory) ==> (result is Ok
                <==> key@.len() <= 1_048_576 && value@.len() <= 4_294_967_295 && 13 + key@.len()
                + value@.len() <= 4_294_967_295),
{
}

/// A record is to be read back exactly where a value in it has 1 MiB or more.
pub proof fn law_needs_mapping(commit: &FileCommit, yes: bool)
    requires
        call_ensures(FileCommit::needs_mapping, (commit,), yes),
    ensures
        yes <==> exists|key: Seq<u8>| #[trigger]
            commit.says().contains_key(key) && (commit.says()[key] matches Some(value)
                && value.len() >= 1_048_576),
{
    if exists|key: Seq<u8>| #[trigger]
        commit.says().contains_key(key) && (commit.says()[key] matches Some(value) && value.len()
            >= 1_048_576) {
        let key = choose|key: Seq<u8>| #[trigger]
            commit.says().contains_key(key) && (commit.says()[key] matches Some(value)
                && value.len() >= 1_048_576);
        assert(commit::is_large(commit.says()[key]));
    }
}

/// Bytes are written to a reservation, behind those that were written before, exactly where
/// there is room for all of them; else nothing is written.
pub proof fn law_reserved_write<'a>(input: &[u8], result: Result<usize>)
    ensures
        forall|reserved: &mut ReservedValue<'a>|
            #![trigger call_ensures(ReservedValue::write, (reserved, input), result)]
            call_ensures(ReservedValue::write, (reserved, input), result) && 0 <= reserved.at() ==> {
                let at = reserved.at();
                let fits = at + input@.len() <= reserved.buffer()@.len();
                &&& result is Ok <==> fits
                &&& result matches Ok(written) ==> written == input@.len()
                &&& final(reserved).at() == (if fits {
                    at + input@.len()
                } else {
                    at
                })
                &&& final(reserved).buffer()@.len() == reserved.buffer()@.len()
                &&& forall|i: int|
                    0 <= i < reserved.buffer()@.len() ==> #[trigger] final(reserved).buffer()@[i]
                        == (if fits && at <= i < at + input@.len() {
                        input@[i - at]
                    } else {
                        reserved.buffer()@[i]
                    })
            },
{
}

} // verus!
