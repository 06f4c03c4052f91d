//! What opening a database promises.

use crate::database::durability;
use crate::database::open;
use crate::database::open::ImageState;
use crate::database::state::{ActiveBase, BaseBytes};
use crate::database::{Database, HandleState};
use crate::error;
use crate::error::{Error, ErrorView, Result};
use crate::format::segment;
use crate::format::superblock;
use crate::format::superblock::{Superblock, SuperblockView};
use crate::format::validate;
use crate::options::{DatabaseOptions, VerificationMode};
use crate::promises;
use crate::room::Room;
use vstd::prelude::*;

verus! {

/// A database that was opened holds what loading its image gives, all of it: the entries of
/// the Base that its Superblock names, under what the log says up to its end.
pub proof fn law_opened_image(image: &[u8], options: DatabaseOptions, db: Database)
    requires
        call_ensures(Database::from_image, (image, options), Ok(db)),
    ensures
        8244 <= options.max_database_bytes,
        image@.len() <= options.max_database_bytes,
        db.wf(),
        db.health() == HandleState::Healthy,
        db.settings() == options,
        open::load_outcome(image@, options.verification) matches Ok(loaded) && {
            &&& db.contents() == open::image_contents(image@, loaded)
            &&& db.storage_part() is File
            &&& db.storage_part().size() == loaded.valid_len
            &&& db.base_part().offset == loaded.superblock.base_offset
            &&& db.base_part().generation == loaded.superblock.generation
            &&& db.base_part().log_start == loaded.superblock.log_start
        },
{
}

/// An image is refused, where memory is there, only for its options, its size or what loading
/// it gives, in this order.
pub proof fn law_refused_image(image: &[u8], options: DatabaseOptions, error: Error)
    requires
        call_ensures(Database::from_image, (image, options), Err(error)),
        promises::memory_is_there(options.room, open::load_limit(image@, options.verification)),
    ensures
        options.max_database_bytes < 8244 ==> error is InvalidArgument,
        8244 <= options.max_database_bytes < image@.len() ==> error is DatabaseFull,
        8244 <= options.max_database_bytes && image@.len() <= options.max_database_bytes
            ==> open::load_outcome(image@, options.verification) == Err::<ImageState, ErrorView>(
            error@,
        ),
{
}

/// An image that holds a Base and batches that were committed to it opens to what both hold
/// together, with every option that admits its size, where memory is there.
pub proof fn law_committed_image_opens(
    image: &[u8],
    options: DatabaseOptions,
    result: Result<Database>,
    superblock: SuperblockView,
    entries: Seq<(Seq<u8>, Seq<u8>)>,
    batches: Seq<Seq<(Seq<u8>, Option<Seq<u8>>)>>,
)
    requires
        call_ensures(Database::from_image, (image, options), result),
        durability::recoverable(image@, superblock, entries, batches),
        8244 <= options.max_database_bytes,
        image@.len() <= options.max_database_bytes,
        promises::memory_is_there(options.room, open::load_limit(image@, options.verification)),
    ensures
        result matches Ok(db) && db.wf() && db.health() == HandleState::Healthy && db.settings()
            == options && db.contents() == durability::file_contents(entries, batches)
            && db.storage_part().size() == durability::log_end(superblock, batches),
{
    durability::law_recoverable_file_opens(
        image@,
        superblock,
        entries,
        batches,
        options.verification,
    );
}

/// A new database is made in memory exactly where the limit admits its 8244 bytes, where
/// memory is there. It is empty and can be written.
pub proof fn law_new_database(options: DatabaseOptions, result: Result<Database>)
    requires
        call_ensures(Database::memory_with_options, (options,), result),
        promises::memory_is_there(options.room, 8244),
    ensures
        result is Ok <==> 8244 <= options.max_database_bytes,
        result matches Ok(db) ==> {
            &&& db.wf()
            &&& db.health() == HandleState::Healthy
            &&& db.settings() == options
            &&& db.storage_part() is Memory
            &&& db.storage_part().size() == 8244
            &&& db.overlay_part().memory == 0
            &&& forall|key: Seq<u8>| !#[trigger] db.contents().contains_key(key)
        },
        result matches Err(error) ==> error is InvalidArgument,
{
    lemma_new_image();
}

proof fn lemma_new_image()
    ensures
        open::empty_image().len() == 8244,
{
    open::lemma_empty_segment();
    superblock::law_page_roundtrip(open::empty_superblock());
}

/// A new database with the default options is that of an allocator with room for its 8244
/// bytes, verified on reading, with a limit of a TiB and of 64 MiB for the Overlay.
pub proof fn law_default_database(result: Result<Database>)
    requires
        call_ensures(Database::memory, (), result),
        promises::memory_is_there(Room::Ask, 8244),
    ensures
        result matches Ok(db) && {
            &&& db.wf()
            &&& db.health() == HandleState::Healthy
            &&& db.settings().verification == VerificationMode::OnRead
            &&& db.settings().max_database_bytes == 1_099_511_627_776
            &&& db.settings().overlay_memory_limit == 67_108_864
            &&& db.settings().room == Room::Ask
            &&& db.storage_part() is Memory
            &&& forall|key: Seq<u8>| !#[trigger] db.contents().contains_key(key)
        },
{
    lemma_new_image();
}

/// The image of a new database is made wherever memory is there, and opens to an empty
/// database.
pub proof fn law_initial_image(
    room: Room,
    image: Result<Vec<u8>>,
    options: DatabaseOptions,
    result: Result<Database>,
)
    requires
        call_ensures(open::initial_image_in, (room,), image),
        promises::memory_is_there(room, 8244),
        image matches Ok(image) && exists|bytes: &[u8]|
            bytes@ == image@ && #[trigger] call_ensures(
                Database::from_image,
                (bytes, options),
                result,
            ),
        8244 <= options.max_database_bytes,
        promises::memory_is_there(options.room, 1_048_576),
    ensures
        image matches Ok(image) && image@.len() == 8244,
        result matches Ok(db) && forall|key: Seq<u8>| !#[trigger] db.contents().contains_key(key),
{
    lemma_new_image();
    open::law_new_image_opens_empty(options.verification);
}

/// A Base opens, where memory is there for its records, exactly where its layout can be read, its
/// checksum is that of the Superblock, and its header says what the Superblock says; and where
/// it is verified in full, also its blocks have their checksums, and its data is that of a Base.
pub proof fn law_open_base(
    room: Room,
    mapping: BaseBytes,
    superblock: Superblock,
    verification: VerificationMode,
    result: Result<ActiveBase>,
)
    requires
        call_ensures(ActiveBase::open_in, (room, mapping, superblock, verification), result),
        superblock@.base_offset + mapping@.len() <= u64::MAX,
        mapping@.len() <= usize::MAX,
        promises::memory_is_there(room, mapping@.len() as int),
    ensures
        result is Ok <==> {
            let data = segment::segment_data(mapping@);
            &&& segment::layout_outcome(mapping@) is Ok
            &&& segment::metadata_checksum(mapping@) == superblock@.base_checksum
            &&& segment::header_outcome(data) matches Ok((slots, len))
            &&& slots == superblock@.base_slots
            &&& len == superblock@.base_len
            &&& verification == VerificationMode::Full ==> {
                &&& segment::blocks_ok(data, segment::segment_checksums(mapping@))
                &&& validate::is_base(data, superblock@.base_offset as int, slots, len as nat)
            }
        },
        result matches Ok(base) ==> {
            &&& base.mapping@ == mapping@
            &&& base.offset == superblock@.base_offset
            &&& base.checksum == superblock@.base_checksum
            &&& base.generation == superblock@.generation
            &&& base.log_start == superblock@.log_start
            &&& base.slots == superblock@.base_slots
            &&& base.len == superblock@.base_len
        },
{
    let data = segment::segment_data(mapping@);
    if segment::layout_outcome(mapping@) is Ok {
        segment::lemma_blocks_outcome(
            data,
            segment::segment_checksums(mapping@),
            superblock@.base_offset,
            0,
            segment::block_count(data.len() as int),
        );
        if let Ok((slots, len)) = segment::header_outcome(data) {
            validate::law_validation_is_exact(
                data,
                superblock@.base_offset as int,
                slots,
                len as nat,
            );
        }
    }
}

} // verus!
