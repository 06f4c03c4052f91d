//! Opening a database from its serialized image, and making a new one.

use super::{validate_options, Database, HandleState};
use crate::bytes::{copy_bytes, push_bytes};
use crate::database;
use crate::database::live;
use crate::database::recovery;
use crate::database::recovery::{scan_overlay_in, RecoveredOverlayEntry};
use crate::database::replay;
use crate::database::state;
use crate::database::state::{ActiveBase, BaseBytes, OverlayState};
use crate::database::storage;
use crate::database::storage::{FileStorage, MemoryStorage, SeekFrom, Storage};
use crate::error;
use crate::error::{Error, ErrorView, Result};
use crate::format::index;
use crate::format::lookup;
use crate::format::records;
use crate::format::segment;
use crate::format::superblock;
use crate::format::superblock::{encode_page, read_latest_from, Superblock, SuperblockView, DATA_START, SUPERBLOCK_SIZE};
use crate::format::validate;
use crate::format::writer;
use crate::format::writer::build_base_in;
use crate::key_map;
use crate::options::{DatabaseOptions, VerificationMode};
use crate::room::Room;
use std::sync::Arc;
use vstd::prelude::*;

verus! {

/// What an image says: the Superblock in use, what the log says of the keys, and where the
/// log ends.
pub struct ImageState {
    pub superblock: SuperblockView,
    pub known: Map<Seq<u8>, RecoveredOverlayEntry>,
    pub valid_len: int,
}

/// The part of an image that holds the Base of a Superblock.
pub open spec fn base_of(image: Seq<u8>, superblock: SuperblockView) -> Seq<u8> {
    image.subrange(
        superblock.base_offset as int,
        superblock.base_offset + superblock.base_size,
    )
}

/// What loading an image gives.
pub open spec fn load_outcome(image: Seq<u8>, verification: VerificationMode) -> std::result::Result<
    ImageState,
    ErrorView,
> {
    match superblock::latest_outcome(image, image.len() as u64) {
        Err(error) => Err(error),
        Ok(superblock) => match state::open_outcome(
            base_of(image, superblock),
            superblock,
            verification,
        ) {
            Err(error) => Err(error),
            Ok(_) => match recovery::scan_outcome(
                image,
                superblock.log_start as int,
                image.len() as int,
            ) {
                Err(error) => Err(error),
                Ok((known, valid_len)) => Ok(ImageState { superblock, known, valid_len }),
            },
        },
    }
}

/// Whether loading an image reserves memory: to validate the Base, to recover the log, or
/// for the keys that were recovered.
pub open spec fn load_reserves(image: Seq<u8>, verification: VerificationMode) -> bool {
    &&& superblock::latest_outcome(image, image.len() as u64) matches Ok(superblock)
    &&& {
        let base = base_of(image, superblock);
        let start = superblock.log_start as int;
        let end = image.len() as int;
        ||| state::open_reserves(base, superblock, verification)
        ||| state::open_outcome(base, superblock, verification) is Ok && (
        recovery::recovery_reserves(image, start, end) || (recovery::scan_outcome(
            image,
            start,
            end,
        ) matches Ok((known, _)) && known != Map::<Seq<u8>, RecoveredOverlayEntry>::empty()))
    }
}

/// The most that loading an image reserves at once: for the records of the Base, for a
/// batch, or for the keys that were recovered.
pub open spec fn load_limit(image: Seq<u8>, verification: VerificationMode) -> int {
    let recovered = match load_outcome(image, verification) {
        Ok(loaded) => loaded.known.dom().len() as int,
        Err(_) => 0,
    };
    vstd::math::max(vstd::math::max(image.len() as int, recovery::replay_limit()), recovered)
}

/// Whether opening an image reserves memory.
pub open spec fn image_reserves(image: Seq<u8>, options: DatabaseOptions) -> bool {
    &&& database::options_outcome(options) is Ok
    &&& image.len() <= options.max_database_bytes
    &&& load_reserves(image, options.verification)
}

/// What opening an image gives: the options are checked first, then its size.
pub open spec fn image_outcome(image: Seq<u8>, options: DatabaseOptions) -> std::result::Result<
    ImageState,
    ErrorView,
> {
    match database::options_outcome(options) {
        Err(error) => Err(error),
        Ok(_) => if image.len() > options.max_database_bytes {
            Err(error::database_full(options.max_database_bytes, image.len() as u64))
        } else {
            load_outcome(image, options.verification)
        },
    }
}

/// What the keys of an image hold.
pub open spec fn image_contents(image: Seq<u8>, loaded: ImageState) -> Map<Seq<u8>, Seq<u8>> {
    live::merged(
        lookup::entries_map(
            state::data_entries(segment::segment_data(base_of(image, loaded.superblock))),
        ),
        replay::recovered_view(image, loaded.known),
    )
}

/// The errors that report an allocation that could not be made.
pub open spec fn is_allocation_error(error: ErrorView) -> bool {
    ||| validate::is_allocation_error(error)
    ||| recovery::is_allocation_error(error)
    ||| error == storage::growth_error()
    ||| error == storage::immutable_error()
    ||| error == writer::checksum_allocation_error()
}

/// Whether an Overlay says what was recovered, with the charges that do not depend on how
/// values are held.
pub open spec fn recovered_overlay(
    overlay: OverlayState,
    image: Seq<u8>,
    known: Map<Seq<u8>, RecoveredOverlayEntry>,
) -> bool {
    &&& overlay.wf()
    &&& overlay@ == replay::recovered_view(image, known)
    &&& live::overlay_fits(overlay@)
    &&& state::stably_charged(overlay.index.values())
    &&& overlay.memory == state::capped(
        state::total_charge(overlay.index.keys(), overlay.index.values()),
    )
}

/// Loads an image whose Base is in `mapping`.
fn load_state(
    room: Room,
    image: &[u8],
    superblock: Superblock,
    mapping: BaseBytes,
    verification: VerificationMode,
) -> (result: Result<(ActiveBase, OverlayState, u64)>)
    requires
        superblock::latest_outcome(image@, image@.len() as u64) == Ok::<SuperblockView, ErrorView>(
            superblock@,
        ),
        mapping.wf(),
        mapping@ == base_of(image@, superblock@),
        image@.len() <= u64::MAX,
    ensures
        match result {
            Ok((base, overlay, valid_len)) => {
                &&& room.grants(load_reserves(image@, verification), 1)
                &&& load_outcome(image@, verification) matches Ok(loaded)
                &&& loaded.superblock == superblock@
                &&& loaded.valid_len == valid_len
                &&& loaded.superblock.log_start <= valid_len <= image@.len()
                &&& base.wf()
                &&& base.mapping@ == mapping@
                &&& base.follows(superblock@)
                &&& recovered_overlay(overlay, image@, loaded.known)
            },
            Err(error) => {
                let reserves = load_reserves(image@, verification);
                ||| room.grants(reserves, 1) && load_outcome(image@, verification) == Err::<
                    ImageState,
                    ErrorView,
                >(error@)
                ||| room.may_refuse(reserves, load_limit(image@, verification))
                    && is_allocation_error(error@)
            },
        },
{
    assert(image@.len() == image.len());
    proof {
        lemma_latest_ranges(image@, image@.len() as u64, superblock@);
    }
    let base = match ActiveBase::open_in(room, mapping, superblock, verification) {
        Ok(base) => base,
        Err(error) => {
            return Err(error);
        },
    };
    let log_start: u64 = superblock.log_start();
    let scan = match scan_overlay_in(room, image, log_start, image.len() as u64) {
        Ok(scan) => scan,
        Err(error) => {
            return Err(error);
        },
    };
    let valid_len: u64 = scan.valid_len();
    let ghost known = scan@;
    proof {
        assert(replay::located(
            image@,
            log_start as int,
            log_start as int,
            Map::<Seq<u8>, RecoveredOverlayEntry>::empty(),
        ));
        replay::lemma_scan_located(
            image@,
            log_start as int,
            log_start as int,
            image@.len() as int,
            Map::empty(),
        );
        scan.lemma_wf();
    }
    let log = copy_bytes(&image[log_start as usize..valid_len as usize]);
    let overlay_mapping = if valid_len == log_start {
        None
    } else {
        Some(BaseBytes::Mapped(Arc::new(log)))
    };
    let ghost keys = scan.keys();
    let ghost operations = scan.operations();
    let ghost part = image@.subrange(log_start as int, valid_len as int);
    proof {
        assert(recovery::mapping_view(overlay_mapping) =~= part);
        lemma_all_located(image@, log_start, valid_len as int, keys, operations, 0);
        key_map::lemma_pairs_map_len(keys, operations);
    }
    proof {
        if keys.len() > 0 {
            key_map::lemma_pairs_map_at(keys, operations, 0);
            assert(known.contains_key(keys[0]));
        } else if known != Map::<Seq<u8>, RecoveredOverlayEntry>::empty() {
            assert(known =~= Map::<Seq<u8>, RecoveredOverlayEntry>::empty());
        }
    }
    let index = match scan.into_index_in(room, overlay_mapping, log_start) {
        Ok(index) => index,
        Err(error) => {
            return Err(error);
        },
    };
    proof {
        lemma_recovered(image@, log_start, valid_len as int, keys, operations, index);
    }
    let overlay = OverlayState::new(index);
    Ok((base, overlay, valid_len))
}

/// The Superblock in use describes ranges of the image.
proof fn lemma_latest_ranges(image: Seq<u8>, file_len: u64, superblock: SuperblockView)
    requires
        superblock::latest_outcome(image, file_len) == Ok::<SuperblockView, ErrorView>(superblock),
    ensures
        superblock::ranges_ok(superblock, file_len),
{
}

/// Every operation that was recovered is found in the bytes of the log.
proof fn lemma_all_located(
    image: Seq<u8>,
    start: u64,
    end: int,
    keys: Seq<Seq<u8>>,
    operations: Seq<RecoveredOverlayEntry>,
    i: int,
)
    requires
        keys.no_duplicates(),
        keys.len() == operations.len(),
        0 <= start <= end <= image.len() <= usize::MAX,
        replay::located(image, start as int, end, key_map::pairs_map(keys, operations)),
        0 <= i,
    ensures
        recovery::locate_all(operations, image.subrange(start as int, end), start, i) is Ok,
    decreases operations.len() - i,
{
    if i < operations.len() {
        let part = image.subrange(start as int, end);
        let known = key_map::pairs_map(keys, operations);
        key_map::lemma_pairs_map_at(keys, operations, i);
        assert(known.contains_key(keys[i]));
        let at = operations[i].operation_offset - start;
        lemma_operation_in_part(image, start as int, end, at);
        lemma_all_located(image, start, end, keys, operations, i + 1);
    }
}

/// An operation of a file that lies in a part of it is read from that part.
proof fn lemma_operation_in_part(image: Seq<u8>, from: int, to: int, at: int)
    requires
        0 <= from <= to <= image.len(),
        0 <= at,
        from + at + 9 <= to,
        recovery::operation_end(image, from + at) <= to,
    ensures
        recovery::operation_end(image.subrange(from, to), at) == recovery::operation_end(
            image,
            from + at,
        ) - from,
        recovery::operation_effect(image.subrange(from, to), at) == recovery::operation_effect(
            image,
            from + at,
        ),
{
    let part = image.subrange(from, to);
    assert(part.subrange(at + 1, at + 5) =~= image.subrange(from + at + 1, from + at + 5));
    assert(part.subrange(at + 5, at + 9) =~= image.subrange(from + at + 5, from + at + 9));
    crate::bytes::lemma_le_u32_same(part, at + 1, image, from + at + 1);
    crate::bytes::lemma_le_u32_same(part, at + 5, image, from + at + 5);
    replay::lemma_effect_in_file(image, from, to, at);
}

/// The Overlay that is made from what was recovered says what was recovered.
proof fn lemma_recovered(
    image: Seq<u8>,
    start: u64,
    end: int,
    keys: Seq<Seq<u8>>,
    operations: Seq<RecoveredOverlayEntry>,
    index: database::OverlayMap<database::OverlayEntry>,
)
    requires
        keys.no_duplicates(),
        keys.len() == operations.len(),
        0 <= start <= end <= image.len(),
        replay::located(image, start as int, end, key_map::pairs_map(keys, operations)),
        index.wf(),
        index.keys() == keys,
        index.values().len() == operations.len(),
        forall|i: int|
            0 <= i < index.values().len() ==> (#[trigger] index.values()[i])@
                == recovery::operation_effect(
                image.subrange(start as int, end),
                operations[i].operation_offset - start,
            ),
    ensures
        state::overlay_view(index@) == replay::recovered_view(
            image,
            key_map::pairs_map(keys, operations),
        ),
        live::overlay_fits(state::overlay_view(index@)),
{
    let known = key_map::pairs_map(keys, operations);
    let left = state::overlay_view(index@);
    let right = replay::recovered_view(image, known);
    assert forall|i: int| 0 <= i < keys.len() implies (#[trigger] index.values()[i])@
        == recovery::operation_effect(image, operations[i].operation_offset as int) && (
    index.values()[i]@ matches Some(value) ==> value.len() == recovery::operation_value_len(
        image,
        operations[i].operation_offset as int,
    )) && segment::lengths_fit(
        keys[i].len() as int,
        recovery::operation_value_len(image, operations[i].operation_offset as int),
    ) by {
        key_map::lemma_pairs_map_at(keys, operations, i);
        assert(known.contains_key(keys[i]));
        lemma_operation_in_part(
            image,
            start as int,
            end,
            operations[i].operation_offset - start,
        );
    }
    assert forall|key: Seq<u8>|
        #![trigger left.dom().contains(key)]
        #![trigger right.dom().contains(key)]
        #![trigger left[key]]
        left.dom().contains(key) == right.dom().contains(key) && (left.dom().contains(key)
            ==> left[key] == right[key]) by {
        if keys.contains(key) {
            let i = keys.index_of(key);
            assert(keys[i] == key);
            key_map::lemma_pairs_map_at(keys, operations, i);
            key_map::lemma_pairs_map_at(keys, index.values(), i);
            assert(index.values()[i]@ == recovery::operation_effect(
                image,
                operations[i].operation_offset as int,
            ));
        }
    }
    assert(left =~= right);
    assert forall|key: Seq<u8>| #[trigger] left.contains_key(key) implies (match left[key] {
        Some(value) => segment::lengths_fit(key.len() as int, value.len() as int),
        None => segment::lengths_fit(key.len() as int, 0),
    }) by {
        let i = keys.index_of(key);
        assert(keys[i] == key);
        key_map::lemma_pairs_map_at(keys, index.values(), i);
        assert(index.values()[i]@ == left[key]);
    }
}

impl Database {
    /// Opens the image of a file. Where the log ends before the file does, the file is to be
    /// cut to the length that the database then has.
    pub fn from_image(image: &[u8], options: DatabaseOptions) -> (result: Result<Self>)
        ensures
            match result {
                Ok(db) => {
                    &&& options.room.grants(image_reserves(image@, options), 1)
                    &&& image_outcome(image@, options) matches Ok(loaded)
                    &&& db.wf()
                    &&& db.health() == HandleState::Healthy
                    &&& db.settings() == options
                    &&& db.storage_part() == Storage::File(
                        FileStorage { len: loaded.valid_len as u64 },
                    )
                    &&& loaded.superblock.log_start <= loaded.valid_len <= image@.len()
                    &&& db.base_part().mapping@ == base_of(image@, loaded.superblock)
                    &&& db.base_part().follows(loaded.superblock)
                    &&& recovered_overlay(db.overlay_part(), image@, loaded.known)
                    &&& db.contents() == image_contents(image@, loaded)
                },
                Err(error) => {
                    let reserves = image_reserves(image@, options);
                    ||| options.room.grants(reserves, 1) && image_outcome(image@, options) == Err::<
                        ImageState,
                        ErrorView,
                    >(error@)
                    ||| options.room.may_refuse(reserves, load_limit(image@, options.verification))
                        && is_allocation_error(error@)
                },
            },
    {
        assert(image@.len() == image.len());
        match validate_options(&options) {
            Ok(()) => {},
            Err(error) => {
                return Err(error);
            },
        }
        let len: u64 = image.len() as u64;
        if len > options.max_database_bytes {
            return Err(Error::database_full(options.max_database_bytes, len));
        }
        let superblock = match read_latest_from(image, len) {
            Ok(superblock) => superblock,
            Err(error) => {
                return Err(error);
            },
        };
        proof {
            lemma_latest_ranges(image@, len, superblock@);
        }
        let start: usize = superblock.base_offset() as usize;
        let end: usize = (superblock.base_offset() + superblock.base_size()) as usize;
        let mapping = BaseBytes::Mapped(Arc::new(copy_bytes(&image[start..end])));
        match load_state(options.room, image, superblock, mapping, options.verification) {
            Ok((base, overlay, valid_len)) => Ok(
                Database {
                    storage: Storage::File(FileStorage { len: valid_len }),
                    base,
                    overlay,
                    options,
                    snapshot_guard: Arc::new(()),
                    state: HandleState::Healthy,
                },
            ),
            Err(error) => Err(error),
        }
    }
}

/// The segment of a Base without entries.
pub open spec fn empty_segment() -> Seq<u8> {
    writer::base_segment(DATA_START as int, Seq::empty())
}

/// The Superblock of a new database.
pub open spec fn empty_superblock() -> SuperblockView {
    SuperblockView {
        generation: 1,
        base_offset: DATA_START,
        base_size: segment::EMPTY_SEGMENT_SIZE,
        base_slots: 0,
        base_len: 0,
        log_start: database::MIN_DATABASE_BYTES,
        base_checksum: segment::metadata_checksum(empty_segment()),
    }
}

/// The image of a new database: an unused page, the page of the first generation, and a
/// Base without entries.
pub open spec fn empty_image() -> Seq<u8> {
    superblock::zeros(SUPERBLOCK_SIZE as int) + superblock::page_bytes(empty_superblock())
        + empty_segment()
}

/// A Base without entries is built from no entries.
pub proof fn lemma_empty_segment()
    ensures
        state::holds_entries(empty_segment(), DATA_START, Seq::empty()),
        empty_segment().len() == segment::EMPTY_SEGMENT_SIZE,
        index::base_data_size(Seq::empty()) == segment::BASE_HEADER,
{
    let none = Seq::<(Seq<u8>, Seq<u8>)>::empty();
    assert(index::base_data_size(none) == 24);
    let data = index::base_data(DATA_START as int, none);
    index::lemma_base_data(DATA_START as int, none);
    writer::lemma_segment_layout(data);
    assert(records::entry_keys(none).no_duplicates());
}

/// A page of zeros holds nothing.
pub proof fn lemma_zero_page(file: Seq<u8>, offset: int, file_len: u64)
    requires
        0 <= offset,
        offset + SUPERBLOCK_SIZE <= file.len(),
        file[offset] == 0,
    ensures
        superblock::candidate(file, offset, file_len) is None,
        superblock::foreign_version(file, offset) is None,
{
    let page = file.subrange(offset, offset + SUPERBLOCK_SIZE);
    assert(page.subrange(0, 8)[0] == 0);
    assert(superblock::magic()[0] == 0x4c);
}

/// The image of a new database opens to no entries, in every mode.
pub proof fn law_new_image_opens_empty(verification: VerificationMode)
    ensures
        empty_image().len() == database::MIN_DATABASE_BYTES,
        load_outcome(empty_image(), verification) == Ok::<ImageState, ErrorView>(
            ImageState {
                superblock: empty_superblock(),
                known: Map::empty(),
                valid_len: database::MIN_DATABASE_BYTES as int,
            },
        ),
        base_of(empty_image(), empty_superblock()) == empty_segment(),
        image_contents(
            empty_image(),
            ImageState {
                superblock: empty_superblock(),
                known: Map::empty(),
                valid_len: database::MIN_DATABASE_BYTES as int,
            },
        ) == Map::<Seq<u8>, Seq<u8>>::empty(),
{
    let image = empty_image();
    let none = Seq::<(Seq<u8>, Seq<u8>)>::empty();
    lemma_empty_segment();
    superblock::law_page_roundtrip(empty_superblock());
    let len = image.len() as u64;
    assert(image.len() == 8244);
    lemma_zero_page(image, 0, len);
    assert(image.subrange(4096, 8192) =~= superblock::page_bytes(empty_superblock()));
    superblock::lemma_written_candidate(image, 4096, empty_superblock(), len);
    assert(base_of(image, empty_superblock()) =~= empty_segment());
    state::lemma_holds_entries(empty_segment(), DATA_START, none);
    lemma_open_holds_entries(empty_segment(), empty_superblock(), none, verification);
    let loaded = ImageState {
        superblock: empty_superblock(),
        known: Map::empty(),
        valid_len: database::MIN_DATABASE_BYTES as int,
    };
    assert(lookup::entries_map(none) =~= Map::empty());
    assert(replay::recovered_view(image, Map::empty()) =~= Map::empty());
    assert(image_contents(image, loaded) =~= Map::empty());
}

/// A Base that was built from entries opens in every mode under a Superblock that describes
/// it.
pub proof fn lemma_open_holds_entries(
    segment: Seq<u8>,
    superblock: SuperblockView,
    entries: Seq<(Seq<u8>, Seq<u8>)>,
    verification: VerificationMode,
)
    requires
        state::holds_entries(segment, superblock.base_offset, entries),
        superblock.base_checksum == segment::metadata_checksum(segment),
        superblock.base_slots == index::slot_count(entries.len()),
        superblock.base_len == entries.len(),
    ensures
        state::open_outcome(segment, superblock, verification) == Ok::<(u64, int), ErrorView>(
            (superblock.base_slots, superblock.base_len as int),
        ),
{
    state::lemma_holds_entries(segment, superblock.base_offset, entries);
    let data = segment::segment_data(segment);
    segment::lemma_blocks_outcome(
        data,
        segment::segment_checksums(segment),
        superblock.base_offset,
        0,
        segment::block_count(data.len() as int),
    );
}

/// The Superblock of a new database whose Base has the given checksum.
fn first_superblock(base_checksum: u32) -> (superblock: Superblock)
    requires
        base_checksum == segment::metadata_checksum(empty_segment()),
    ensures
        superblock@ == empty_superblock(),
{
    Superblock::new(
        1,
        DATA_START,
        segment::EMPTY_SEGMENT_SIZE,
        0,
        0,
        database::MIN_DATABASE_BYTES,
        base_checksum,
    )
}

/// Builds the Base of a new database.
fn build_empty_base(room: Room) -> (result: Result<(Vec<u8>, u32)>)
    ensures
        match result {
            Ok((segment, checksum)) => room.grants(true, 1) && segment@ == empty_segment()
                && checksum == segment::metadata_checksum(segment@),
            Err(error) => room.may_refuse(true, empty_segment().len() as int) && error@
                == writer::checksum_allocation_error(),
        },
{
    let none: Vec<(&[u8], &[u8])> = Vec::new();
    proof {
        assert(segment::pairs_view(none@) =~= Seq::empty());
    }
    match build_base_in(room, DATA_START, 0, none.as_slice()) {
        Ok((segment, written)) => Ok((segment, written.metadata_checksum)),
        Err(error) => Err(error),
    }
}

/// Builds the image of a new database.
pub fn initial_image() -> (result: Result<Vec<u8>>)
    ensures
        match result {
            Ok(image) => image@ == empty_image(),
            Err(error) => Room::Ask.may_refuse(true, empty_segment().len() as int) && error@
                == writer::checksum_allocation_error(),
        },
{
    initial_image_in(Room::Ask)
}

/// Builds the image of a new database, with memory reserved in `room`.
pub fn initial_image_in(room: Room) -> (result: Result<Vec<u8>>)
    ensures
        match result {
            Ok(image) => room.grants(true, 1) && image@ == empty_image(),
            Err(error) => room.may_refuse(true, empty_segment().len() as int) && error@
                == writer::checksum_allocation_error(),
        },
{
    let (segment, checksum) = match build_empty_base(room) {
        Ok(built) => built,
        Err(error) => {
            return Err(error);
        },
    };
    let mut image: Vec<u8> = Vec::new();
    image.resize(4096, 0);
    assert(image@ =~= superblock::zeros(4096));
    let page = encode_page(first_superblock(checksum));
    push_bytes(&mut image, page.as_slice());
    push_bytes(&mut image, segment.as_slice());
    Ok(image)
}

/// Writes a new database to an empty image in memory.
fn initialize_storage(room: Room, memory: &mut MemoryStorage) -> (result: Result<()>)
    requires
        old(memory).wf(),
        old(memory).image() == Seq::<u8>::empty(),
        old(memory).base_region() is None,
        old(memory).stored_header() == 0,
        old(memory).room() == room,
    ensures
        final(memory).wf(),
        final(memory).room() == old(memory).room(),
        match result {
            Ok(()) => {
                &&& old(memory).room().grants(true, 1)
                &&& final(memory).image() == empty_image()
                &&& final(memory).base_region() == Some((DATA_START, empty_segment()))
            },
            Err(error) => old(memory).room().may_refuse(true, empty_image().len() as int)
                && is_allocation_error(error@),
        },
{
    proof {
        memory.lemma_regions();
        lemma_empty_segment();
        superblock::law_page_roundtrip(empty_superblock());
    }
    match memory.set_len(DATA_START) {
        Ok(()) => {},
        Err(error) => {
            return Err(error);
        },
    }
    let (segment, checksum) = match build_empty_base(room) {
        Ok(built) => built,
        Err(error) => {
            return Err(error);
        },
    };
    proof {
        memory.lemma_regions();
    }
    match memory.seek(SeekFrom::Start(DATA_START)) {
        Ok(_) => {},
        Err(error) => {
            return Err(error);
        },
    }
    match memory.write(segment.as_slice()) {
        Ok(_) => {},
        Err(error) => {
            return Err(error);
        },
    }
    match memory.load_immutable(DATA_START, segment::EMPTY_SEGMENT_SIZE) {
        Ok(_) => {},
        Err(error) => {
            return Err(error);
        },
    }
    match superblock::write(memory, first_superblock(checksum)) {
        Ok(()) => {},
        Err(error) => {
            return Err(error);
        },
    }
    proof {
        assert(memory.image() =~= empty_image());
    }
    Ok(())
}

impl Database {
    /// Whether this is a new database in memory.
    pub open spec fn is_new(self, options: DatabaseOptions) -> bool {
        &&& self.wf()
        &&& self.sound()
        &&& self.health() == HandleState::Healthy
        &&& self.settings() == options
        &&& self.contents() == Map::<Seq<u8>, Seq<u8>>::empty()
        &&& self.overlay_part()@ == Map::<Seq<u8>, Option<Seq<u8>>>::empty()
        &&& self.overlay_part().memory == 0
        &&& self.base_part().follows(empty_superblock())
        &&& self.base_part().mapping@ == empty_segment()
        &&& self.storage_part() matches Storage::Memory(memory) && memory.image() == empty_image()
    }

    /// Creates a new database in memory.
    pub fn memory() -> (result: Result<Self>)
        ensures
            match result {
                Ok(db) => db.is_new(
                    DatabaseOptions {
                        verification: VerificationMode::OnRead,
                        max_database_bytes: 0x100_0000_0000,
                        overlay_memory_limit: 0x400_0000,
                        room: Room::Ask,
                    },
                ),
                Err(error) => Room::Ask.may_refuse(true, empty_image().len() as int)
                    && is_allocation_error(error@),
            },
    {
        Database::memory_with_options(DatabaseOptions::default())
    }

    /// Creates a new database in memory with custom options.
    pub fn memory_with_options(options: DatabaseOptions) -> (result: Result<Self>)
        ensures
            match result {
                Ok(db) => {
                    &&& database::options_outcome(options) is Ok
                    &&& options.room.grants(true, 1)
                    &&& db.is_new(options)
                },
                Err(error) => match database::options_outcome(options) {
                    Err(expected) => error@ == expected,
                    Ok(_) => options.room.may_refuse(true, empty_image().len() as int)
                        && is_allocation_error(error@),
                },
            },
    {
        match validate_options(&options) {
            Ok(()) => {},
            Err(error) => {
                return Err(error);
            },
        }
        let mut memory = MemoryStorage::new_in(options.room);
        match initialize_storage(options.room, &mut memory) {
            Ok(()) => {},
            Err(error) => {
                return Err(error);
            },
        }
        proof {
            law_new_image_opens_empty(options.verification);
        }
        Database::from_memory(memory, options)
    }

    /// Opens an image in memory that was just initialized.
    fn from_memory(memory: MemoryStorage, options: DatabaseOptions) -> (result: Result<Self>)
        requires
            memory.wf(),
            memory.image() == empty_image(),
            memory.image().len() == database::MIN_DATABASE_BYTES,
            memory.base_region() == Some((DATA_START, empty_segment())),
            memory.room() == options.room,
            options.room != Room::Refused,
            database::options_outcome(options) is Ok,
        ensures
            match result {
                Ok(db) => db.is_new(options),
                Err(error) => options.room.may_refuse(true, empty_image().len() as int)
                    && is_allocation_error(error@),
            },
    {
        let mut memory = memory;
        let len: u64 = memory.len();
        if len > options.max_database_bytes {
            return Err(Error::database_full(options.max_database_bytes, len));
        }
        let image = match memory.read_at(0, len as usize) {
            Ok(image) => image,
            Err(error) => {
                return Err(error);
            },
        };
        proof {
            law_new_image_opens_empty(options.verification);
            lemma_empty_segment();
            assert(image@ =~= empty_image());
        }
        let superblock = match read_latest_from(image.as_slice(), len) {
            Ok(superblock) => superblock,
            Err(error) => {
                return Err(error);
            },
        };
        let mapping = match memory.load_immutable(
            superblock.base_offset(),
            superblock.base_size(),
        ) {
            Ok(mapping) => mapping,
            Err(error) => {
                return Err(error);
            },
        };
        match load_state(
            options.room,
            image.as_slice(),
            superblock,
            mapping,
            options.verification,
        ) {
            Ok((base, overlay, valid_len)) => {
                proof {
                    let none = Seq::<(Seq<u8>, Seq<u8>)>::empty();
                    state::lemma_holds_entries(empty_segment(), DATA_START, none);
                    assert(replay::recovered_view(image@, Map::empty()) =~= Map::empty());
                    let map = *overlay.index;
                    map.lemma_wf();
                    assert(map@.dom() =~= overlay@.dom());
                    assert(map.keys().len() == 0);
                }
                Ok(
                    Database {
                        storage: Storage::Memory(memory),
                        base,
                        overlay,
                        options,
                        snapshot_guard: Arc::new(()),
                        state: HandleState::Healthy,
                    },
                )
            },
            Err(error) => Err(error),
        }
    }
}

} // verus!
