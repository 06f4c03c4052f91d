use lkv::database::open::{initial_image, initial_image_in};
use lkv::database::overlay_map::OverlayMap;
use lkv::database::state::{BaseBytes, OverlayEntry, ValueBytes, MAPPED_VALUE_THRESHOLD};
use lkv::database::view::{lookup_segment, BaseView, ReadView};
use lkv::format::log::{
    record_checksum, write_batch_record, write_record_header, Marker, LOG_HEADER_SIZE,
    MAX_BATCH_OPERATIONS,
};
use lkv::format::segment::{
    map_len, read_base_header, BASE_HEADER, CHECKSUM_BLOCK_SIZE, MAX_KEY_SIZE, SLOT_SIZE,
};
use lkv::format::superblock::{
    read_latest_from, DATA_START, FORMAT_VERSION, HEADER_SIZE, SUPERBLOCK_SIZE,
};
use lkv::format::validate::validate_base;
use lkv::key_map::KeyMap;
use lkv::{
    CorruptionKind, Database, DatabaseOptions, Error, ErrorKind, ReservedValue, Result, Room,
    VerificationMode, WriteTransaction,
};
use std::collections::{BTreeSet, HashMap};
use std::sync::Arc;

/// A file that is only there as its bytes.
#[derive(Clone)]
struct Disk {
    bytes: Vec<u8>,
}

impl Disk {
    fn create() -> Disk {
        Disk {
            bytes: initial_image().expect("the image of a new database"),
        }
    }

    fn len(&self) -> u64 {
        self.bytes.len() as u64
    }

    fn write_at(&mut self, offset: u64, part: &[u8]) {
        let start = offset as usize;
        let end = start + part.len();
        if self.bytes.len() < end {
            self.bytes.resize(end, 0);
        }
        self.bytes[start..end].copy_from_slice(part);
    }

    fn set_len(&mut self, len: u64) {
        self.bytes.resize(len as usize, 0);
    }

    fn flip(&mut self, offset: u64, bits: u8) {
        self.bytes[offset as usize] ^= bits;
    }
}

/// A database and the file that it writes to.
struct Handle {
    db: Database,
    disk: Disk,
}

/// The point of compaction after which a crash is simulated.
#[derive(Clone, Copy, PartialEq)]
enum CrashPoint {
    Never,
    MarkerWrite,
    BaseWrite,
    SuperblockWrite,
    DestinationBaseWrite,
    RelocationMarkerWrite,
    DestinationSuperblockWrite,
    RedundantSuperblockWrite,
    Truncate,
}

fn commit_to(disk: &mut Disk, write: WriteTransaction<'_>) -> Result<()> {
    let (db, staged, value_checksums) = write.into_parts();
    let Some(commit) = db.start_commit(staged, &value_checksums)? else {
        return Ok(());
    };
    assert_eq!(commit.offset(), disk.len());
    let offset = commit.offset() as usize;
    disk.bytes.extend_from_slice(commit.record());
    let mut commit = db.commit_appended(commit, Ok(()))?;
    if commit.needs_mapping() {
        let record = disk.bytes[offset..].to_vec();
        commit = db.commit_mapped(commit, Ok(record))?;
    }
    db.commit_synced(commit, Ok(()))
}

impl Handle {
    fn open(disk: Disk) -> Result<Handle> {
        Handle::open_with_options(disk, DatabaseOptions::default())
    }

    fn open_with_options(disk: Disk, options: DatabaseOptions) -> Result<Handle> {
        let mut disk = disk;
        let db = Database::from_image(&disk.bytes, options)?;
        disk.set_len(db.storage().len());
        Ok(Handle { db, disk })
    }

    fn create() -> Handle {
        Handle::open(Disk::create()).expect("a new database")
    }

    fn put(&mut self, key: impl AsRef<[u8]>, value: impl AsRef<[u8]>) -> Result<()> {
        let mut transaction = self.db.begin_write()?;
        transaction.put(key.as_ref(), value.as_ref())?;
        commit_to(&mut self.disk, transaction)
    }

    fn delete(&mut self, key: impl AsRef<[u8]>) -> Result<()> {
        let mut transaction = self.db.begin_write()?;
        transaction.delete(key.as_ref())?;
        commit_to(&mut self.disk, transaction)
    }

    fn compact(&mut self) -> Result<()> {
        self.compact_until(CrashPoint::Never)
    }

    fn compact_until(&mut self, point: CrashPoint) -> Result<()> {
        let marker = lkv::database::compaction::compact_marker();
        let Some(plan) = self.db.start_compact()? else {
            return Ok(());
        };
        self.disk.write_at(plan.rollback_offset, &marker);
        if point == CrashPoint::MarkerWrite {
            return Ok(());
        }
        let staged = self.db.compact_marked(plan, Ok(()))?;
        self.disk.write_at(staged.offset(), staged.segment());
        if point == CrashPoint::BaseWrite {
            return Ok(());
        }
        let staged = self.db.compact_staged(plan, staged, Ok(()))?;
        self.disk.write_at(staged.page_offset(), &staged.page());
        if point == CrashPoint::SuperblockWrite {
            return Ok(());
        }
        let relocation = self.db.compact_published(plan, staged, Ok(()))?;
        let built = relocation.built();
        self.disk.write_at(built.offset(), built.segment());
        if point == CrashPoint::DestinationBaseWrite {
            return Ok(());
        }
        self.disk.write_at(plan.destination_end, &marker);
        if point == CrashPoint::RelocationMarkerWrite {
            return Ok(());
        }
        self.disk.write_at(built.page_offset(), &built.page());
        if point == CrashPoint::DestinationSuperblockWrite {
            return Ok(());
        }
        self.disk.write_at(built.redundant_page_offset(), &built.page());
        if point == CrashPoint::RedundantSuperblockWrite {
            return Ok(());
        }
        let built = self.db.compact_relocated(relocation, Ok(()))?;
        self.disk.set_len(plan.destination_end);
        if point == CrashPoint::Truncate {
            return Ok(());
        }
        self.db.compact_shrunk(plan, built, Ok(()))
    }

    fn reopen(self) -> Result<Handle> {
        Handle::open(self.disk)
    }
}

trait MemoryTestExt {
    fn put(&mut self, key: impl AsRef<[u8]>, value: impl AsRef<[u8]>) -> Result<()>;
    fn delete(&mut self, key: impl AsRef<[u8]>) -> Result<()>;
}

impl MemoryTestExt for Database {
    fn put(&mut self, key: impl AsRef<[u8]>, value: impl AsRef<[u8]>) -> Result<()> {
        let mut transaction = self.begin_write()?;
        transaction.put(key.as_ref(), value.as_ref())?;
        transaction.commit()
    }

    fn delete(&mut self, key: impl AsRef<[u8]>) -> Result<()> {
        let mut transaction = self.begin_write()?;
        transaction.delete(key.as_ref())?;
        transaction.commit()
    }
}

fn read_all(db: &Database) -> Result<HashMap<Vec<u8>, Vec<u8>>> {
    let mut all = HashMap::new();
    let mut entries = db.iter()?;
    while let Some(entry) = entries.next() {
        let (key, value) = entry?;
        assert!(all.insert(key.to_vec(), value.to_vec()).is_none());
    }
    Ok(all)
}

fn write_all(reserved: &mut ReservedValue<'_>, bytes: &[u8]) -> Result<()> {
    let mut rest = bytes;
    while !rest.is_empty() {
        let written = reserved.write(rest)?;
        rest = &rest[written..];
    }
    Ok(())
}

// Limits.

#[test]
fn database_size_limit_rejects_append_before_mutation() -> Result<()> {
    let handle = Handle::create();
    let file_len = handle.db.storage().len();
    let mut handle = Handle::open_with_options(
        handle.disk,
        DatabaseOptions {
            max_database_bytes: file_len,
            ..DatabaseOptions::default()
        },
    )?;
    let before = handle.db.storage().len();
    let error = handle.put(b"key", b"value").unwrap_err();
    assert!(matches!(error, Error::DatabaseFull(_)));
    assert_eq!(handle.db.storage().len(), before);
    assert_eq!(handle.disk.len(), before);
    Ok(())
}

#[test]
fn memory_database_size_limit_rejects_append_before_mutation() -> Result<()> {
    let probe = Database::memory()?;
    let initial_len = probe.storage().len();
    drop(probe);
    let mut db = Database::memory_with_options(DatabaseOptions {
        max_database_bytes: initial_len,
        ..DatabaseOptions::default()
    })?;
    let error = db.put(b"key", b"value").unwrap_err();
    assert!(matches!(error, Error::DatabaseFull(_)));
    assert_eq!(db.storage().len(), initial_len);
    assert!(db.is_empty()?);
    Ok(())
}

#[test]
fn overlay_limit_stops_writes_without_running_maintenance() -> Result<()> {
    let handle = Handle::create();
    let file_len = handle.db.storage().len();

    let mut handle = Handle::open_with_options(
        handle.disk,
        DatabaseOptions {
            overlay_memory_limit: 0,
            max_database_bytes: file_len + 64,
            ..DatabaseOptions::default()
        },
    )?;
    handle.put(b"key", b"value")?;
    assert_eq!(handle.db.get(b"key")?, Some(b"value".as_slice()));
    let before = handle.db.storage().len();
    let error = match handle.db.begin_write() {
        Ok(_) => panic!("write must require maintenance"),
        Err(error) => error,
    };
    assert!(matches!(error, Error::MaintenanceRequired { .. }));
    assert_eq!(handle.db.storage().len(), before);
    assert_eq!(handle.db.get(b"key")?, Some(b"value".as_slice()));
    assert!(matches!(handle.compact(), Err(Error::DatabaseFull(_))));

    let handle = handle.reopen()?;
    assert_eq!(handle.db.get(b"key")?, Some(b"value".as_slice()));
    Ok(())
}

#[test]
fn malformed_sizes_fail_without_panicking_or_allocating() -> Result<()> {
    let mut header = vec![0; BASE_HEADER];
    header[..4].copy_from_slice(b"HASH");
    header[4..8].copy_from_slice(&(BASE_HEADER as u32).to_le_bytes());
    header[8..16].copy_from_slice(&u64::MAX.to_le_bytes());
    assert_eq!(
        read_base_header(&header).unwrap_err().kind(),
        ErrorKind::InvalidData
    );
    header[8..16].copy_from_slice(&0u64.to_le_bytes());
    header[16..24].copy_from_slice(&u64::MAX.to_le_bytes());
    let (slots, len) = read_base_header(&header)?;
    assert_eq!(
        validate_base(&header, DATA_START, slots, len)
            .unwrap_err()
            .kind(),
        ErrorKind::InvalidData
    );
    Ok(())
}

#[test]
fn maximal_truncated_overlay_record_is_discarded_before_allocation() -> Result<()> {
    let handle = Handle::create();
    let offset = handle.db.storage().len();
    let mut disk = handle.disk;

    let payload_len = u32::MAX;
    write_record_header(&mut disk.bytes, Marker::Batch, 0, payload_len, 0);

    let handle = Handle::open(disk)?;
    assert_eq!(handle.db.storage().len(), offset);
    assert_eq!(handle.disk.len(), offset);
    assert!(handle.db.is_empty()?);
    Ok(())
}

#[test]
fn public_writes_enforce_allocation_limits_before_file_mutation() -> Result<()> {
    let mut handle = Handle::create();
    let before = handle.db.storage().len();
    let oversized_key = vec![0; MAX_KEY_SIZE + 1];
    let mut transaction = handle.db.begin_write()?;
    let error = transaction
        .put(&oversized_key, b"value")
        .expect_err("oversized key must be rejected");
    assert_eq!(error.kind(), ErrorKind::InvalidInput);
    transaction.abort();
    assert_eq!(handle.db.storage().len(), before);
    Ok(())
}

#[test]
fn reserved_value_that_cannot_fit_a_batch_is_rejected_before_allocation() -> Result<()> {
    let mut db = Database::memory()?;
    let mut transaction = db.begin_write()?;
    let error = transaction
        .put_reserved(b"key", u32::MAX as usize, |_| {
            panic!("oversized reservation callback must not run")
        })
        .expect_err("oversized reservation must fail");
    assert_eq!(error.kind(), ErrorKind::InvalidInput);
    assert!(transaction.is_empty());
    Ok(())
}

// Maintenance.

fn assert_memory_base_is_shared(database: &Database) {
    let BaseBytes::Memory { bytes, .. } = &database.base().mapping else {
        panic!("memory database Base must use memory bytes");
    };
    let storage_bytes = database
        .storage()
        .memory_base_mapping()
        .expect("memory storage must retain the active Base");
    assert!(Arc::ptr_eq(bytes, storage_bytes));
}

#[test]
fn memory_storage_shares_base_while_overlay_grows() -> Result<()> {
    let mut db = Database::memory()?;
    assert_memory_base_is_shared(&db);
    let materialized = db.storage().memory_materialized_bytes().unwrap();
    let initial = match &db.base().mapping {
        BaseBytes::Memory { bytes, .. } => Arc::clone(bytes),
        BaseBytes::Mapped(_) => unreachable!(),
    };

    db.put(b"overlay", b"value")?;

    let current = match &db.base().mapping {
        BaseBytes::Memory { bytes, .. } => bytes,
        BaseBytes::Mapped(_) => unreachable!(),
    };
    assert!(Arc::ptr_eq(&initial, current));
    assert_memory_base_is_shared(&db);
    assert_eq!(db.storage().memory_materialized_bytes(), Some(materialized));
    assert!(db.stats()?.storage_bytes as usize > materialized);
    Ok(())
}

#[test]
fn compact_rewrites_and_shrinks_the_single_file() -> Result<()> {
    let mut handle = Handle::create();
    let mut txn = handle.db.begin_write()?;
    for i in 0..1_000u32 {
        txn.put(&i.to_le_bytes(), &[b'x'; 100])?;
    }
    commit_to(&mut handle.disk, txn)?;
    handle.compact()?;
    let first_compacted = handle.disk.len();
    let mut txn = handle.db.begin_write()?;
    for i in 0..1_000u32 {
        txn.put(&i.to_le_bytes(), &[b'y'; 100])?;
    }
    commit_to(&mut handle.disk, txn)?;
    let before = handle.disk.len();
    handle.compact()?;
    let after = handle.disk.len();
    assert!(after < before);
    assert_eq!(after, first_compacted);
    assert_eq!(handle.db.get(&500u32.to_le_bytes())?, Some(&[b'y'; 100][..]));
    let handle = handle.reopen()?;
    assert_eq!(handle.db.len()?, 1_000);
    Ok(())
}

#[test]
fn compact_leaves_redundant_superblocks() -> Result<()> {
    for damaged_offset in [0, SUPERBLOCK_SIZE] {
        let mut handle = Handle::create();
        handle.put(b"key", b"value")?;
        handle.compact()?;

        let mut disk = handle.disk;
        disk.write_at(damaged_offset, &[0; HEADER_SIZE]);

        let handle = Handle::open(disk)?;
        assert_eq!(handle.db.get(b"key")?, Some(b"value".as_slice()));
    }
    Ok(())
}

#[test]
fn compact_requires_snapshots_to_be_dropped() -> Result<()> {
    let mut handle = Handle::create();
    handle.put(b"key", b"value")?;
    let snapshot = handle.db.snapshot()?;

    let error = handle
        .compact()
        .expect_err("a live snapshot must prevent compaction");
    assert_eq!(error.kind(), ErrorKind::WouldBlock);
    assert_eq!(handle.db.get(b"key")?, Some(b"value".as_slice()));

    drop(snapshot);
    handle.compact()?;
    assert_eq!(handle.db.get(b"key")?, Some(b"value".as_slice()));
    assert!(matches!(&handle.db.base().mapping, BaseBytes::Mapped(_)));
    assert!(!handle.db.storage().is_memory());
    Ok(())
}

#[test]
fn compact_rejects_snapshots_before_verifying_the_base() -> Result<()> {
    let mut handle = Handle::create();
    handle.put(b"key", b"value")?;
    handle.compact()?;
    let mut disk = handle.disk;
    disk.flip(DATA_START + 40, 1);
    let mut handle = Handle::open(disk)?;
    assert_eq!(
        handle.db.verify().expect_err("the Base is damaged").kind(),
        ErrorKind::InvalidData
    );
    let snapshot = handle.db.snapshot()?;

    let error = handle
        .compact()
        .expect_err("a live snapshot must be rejected before verification");
    assert_eq!(error.kind(), ErrorKind::WouldBlock);

    drop(snapshot);
    assert_eq!(
        handle.compact().expect_err("the Base is damaged").kind(),
        ErrorKind::InvalidData
    );
    Ok(())
}

#[test]
fn compact_is_a_no_op_for_an_already_compact_database() -> Result<()> {
    let mut handle = Handle::create();
    handle.put(b"key", b"value")?;
    handle.compact()?;
    let generation = handle.db.base().generation;
    let storage_len = handle.db.storage().len();

    handle.compact()?;

    assert_eq!(handle.db.base().generation, generation);
    assert_eq!(handle.db.storage().len(), storage_len);
    assert_eq!(handle.db.get(b"key")?, Some(b"value".as_slice()));
    Ok(())
}

#[test]
fn mappings_exclude_metadata_and_overlay() -> Result<()> {
    let mut handle = Handle::create();
    handle.put(b"stable", b"old")?;
    handle.compact()?;
    let snapshot = handle.db.snapshot()?;
    handle.put(b"overlay-only", b"new")?;
    assert!(handle.db.storage().len() > handle.db.base().mapping.as_slice().len() as u64);
    drop(snapshot);
    handle.compact()?;

    assert_eq!(handle.db.get(b"overlay-only")?, Some(b"new".as_slice()));
    Ok(())
}

#[test]
fn failed_published_base_install_poisons_the_handle() -> Result<()> {
    let mut handle = Handle::create();
    let injected = Error::from_io(ErrorKind::Other, "injected base install failure");

    let error = handle
        .db
        .finish_superblock_install(Err(injected))
        .expect_err("published base install must fail");
    assert_eq!(error.kind(), ErrorKind::Other);
    assert_eq!(handle.db.len()?, 0);
    assert!(matches!(handle.db.begin_write(), Err(Error::Poisoned)));
    Ok(())
}

#[test]
fn stats_describe_active_storage_without_scanning() -> Result<()> {
    let mut db = Database::memory()?;
    assert_memory_base_is_shared(&db);
    let initial = db.stats()?;
    assert_eq!(initial.generation, 1);
    assert_eq!(initial.base_entries, 0);
    assert_eq!(initial.overlay_entries, 0);
    assert_eq!(initial.overlay_log_bytes, 0);
    assert_eq!(initial.stale_bytes, 0);
    assert!(initial.base_bytes > 0);
    assert_eq!(initial.storage_bytes, DATA_START + initial.base_bytes);

    db.put(b"live", b"value")?;
    db.put(b"deleted", b"value")?;
    db.delete(b"deleted")?;
    let overlay = db.stats()?;
    assert_eq!(overlay.base_entries, 0);
    assert_eq!(overlay.overlay_entries, 2);
    assert!(overlay.overlay_log_bytes > 0);
    assert_eq!(overlay.overlay_memory_bytes, db.overlay_memory_usage());

    db.compact()?;
    assert_memory_base_is_shared(&db);
    let compacted = db.stats()?;
    assert_eq!(compacted.generation, 2);
    assert_eq!(compacted.base_entries, 1);
    assert_eq!(compacted.overlay_entries, 0);
    assert_eq!(compacted.overlay_log_bytes, 0);
    assert_eq!(compacted.stale_bytes, 0);
    assert_eq!(compacted.storage_bytes, DATA_START + compacted.base_bytes);
    Ok(())
}

// Recovery.

fn append_raw_batch(disk: &mut Disk, payload: &[u8]) {
    let payload_len = u32::try_from(payload.len()).unwrap();
    let checksum = record_checksum(Marker::Batch, 0, payload_len, payload);
    write_record_header(&mut disk.bytes, Marker::Batch, 0, payload_len, checksum);
    disk.bytes.extend_from_slice(payload);
}

#[test]
fn compact_crash_points_remain_recoverable() -> Result<()> {
    for crash_point in [
        CrashPoint::MarkerWrite,
        CrashPoint::BaseWrite,
        CrashPoint::SuperblockWrite,
        CrashPoint::DestinationBaseWrite,
        CrashPoint::RelocationMarkerWrite,
        CrashPoint::DestinationSuperblockWrite,
        CrashPoint::RedundantSuperblockWrite,
        CrashPoint::Truncate,
    ] {
        let mut handle = Handle::create();
        handle.put(b"a", b"value-a")?;
        handle.put(b"b", b"value-b")?;
        handle.compact_until(crash_point)?;

        let handle = handle.reopen()?;
        assert_eq!(handle.db.get(b"a")?, Some(b"value-a".as_slice()));
        assert_eq!(handle.db.get(b"b")?, Some(b"value-b".as_slice()));
        handle.db.verify()?;
    }
    Ok(())
}

#[test]
fn ignores_partial_log_tail() -> Result<()> {
    let mut handle = Handle::create();
    handle.put(b"safe", b"value")?;
    handle.db.sync()?;
    let mut disk = handle.disk;
    disk.bytes.extend_from_slice(&[1, 2, 0]);
    let handle = Handle::open(disk)?;
    assert_eq!(handle.db.get(b"safe")?, Some(b"value".as_slice()));
    Ok(())
}

#[test]
fn ignores_valid_header_with_partial_payload_tail() -> Result<()> {
    let handle = Handle::create();
    let log_start = handle.db.base().log_start;
    let mut disk = handle.disk;

    let mut payload = Vec::new();
    payload.extend_from_slice(&1u32.to_le_bytes());
    payload.push(Marker::Put.to_byte());
    payload.extend_from_slice(&1u32.to_le_bytes());
    payload.extend_from_slice(&1u32.to_le_bytes());
    payload.extend_from_slice(b"kv");
    let payload_len = u32::try_from(payload.len()).unwrap();
    let checksum = record_checksum(Marker::Batch, 0, payload_len, &payload);

    write_record_header(&mut disk.bytes, Marker::Batch, 0, payload_len, checksum);
    disk.bytes.extend_from_slice(&payload[..payload.len() / 2]);

    let handle = Handle::open(disk)?;
    assert!(handle.db.is_empty()?);
    assert_eq!(handle.disk.len(), log_start);
    Ok(())
}

#[test]
fn every_truncated_batch_byte_boundary_recovers_the_previous_commit() -> Result<()> {
    let mut staged = KeyMap::default();
    staged.insert(
        b"safe".to_vec(),
        OverlayEntry::Put(ValueBytes::Owned(b"replacement".to_vec())),
    );
    staged.insert(
        b"inserted".to_vec(),
        OverlayEntry::Put(ValueBytes::Owned(b"new-value".to_vec())),
    );
    staged.insert(b"missing".to_vec(), OverlayEntry::Delete);
    let mut record = Vec::new();
    write_batch_record(&mut record, &staged)?;

    for cut in 0..record.len() {
        let mut handle = Handle::create();
        handle.put(b"safe", b"previous")?;
        let committed_len = handle.db.storage().len();
        let mut disk = handle.disk;
        disk.bytes.extend_from_slice(&record[..cut]);

        let handle = Handle::open(disk)?;
        let db = &handle.db;
        assert_eq!(
            db.get(b"safe")?,
            Some(b"previous".as_slice()),
            "partial batch became visible at byte {cut}/{}",
            record.len()
        );
        assert_eq!(db.get(b"inserted")?, None, "insert visible at byte {cut}");
        assert_eq!(db.get(b"missing")?, None, "delete visible at byte {cut}");
        assert_eq!(
            db.storage().len(),
            committed_len,
            "partial tail was not truncated at byte {cut}"
        );
    }
    Ok(())
}

struct FuzzBatch {
    start: u64,
    end: u64,
    model: HashMap<Vec<u8>, Vec<u8>>,
}

fn fuzz_random(state: &mut u64) -> u64 {
    *state = state
        .wrapping_mul(6_364_136_223_846_793_005)
        .wrapping_add(1_442_695_040_888_963_407);
    *state
}

fn build_recovery_fuzz_fixture() -> Result<(Disk, u64, Vec<FuzzBatch>)> {
    let mut handle = Handle::create();
    let log_start = handle.db.base().log_start;
    let mut model = HashMap::<Vec<u8>, Vec<u8>>::new();
    let mut batches = Vec::new();
    let mut random = 0xd1b5_4a32_d192_ed03;

    for batch_index in 0..24u64 {
        let start = handle.db.storage().len();
        let mut txn = handle.db.begin_write()?;
        for operation_index in 0..9u64 {
            let value = fuzz_random(&mut random);
            let key = (value % 41).to_le_bytes().to_vec();
            if value & 3 == 0 {
                txn.delete(&key)?;
                model.remove(&key);
            } else {
                let value_len = 1 + ((value >> 8) as usize % 193);
                let mut bytes = vec![0; value_len];
                for (index, byte) in bytes.iter_mut().enumerate() {
                    *byte = value
                        .wrapping_add(batch_index)
                        .wrapping_add(operation_index)
                        .wrapping_add(index as u64) as u8;
                }
                txn.put(&key, &bytes)?;
                model.insert(key, bytes);
            }
        }
        commit_to(&mut handle.disk, txn)?;
        let end = handle.db.storage().len();
        batches.push(FuzzBatch {
            start,
            end,
            model: model.clone(),
        });
    }
    Ok((handle.disk, log_start, batches))
}

#[test]
fn recovery_fuzz_matches_every_surviving_durable_prefix() -> Result<()> {
    let (source, log_start, batches) = build_recovery_fuzz_fixture()?;
    let full_len = batches.last().unwrap().end;
    let mut cuts = BTreeSet::from([log_start, full_len]);
    for batch in &batches {
        for cut in [
            batch.start,
            batch.start + 1,
            (batch.start + LOG_HEADER_SIZE as u64 - 1).min(batch.end - 1),
            (batch.start + batch.end) / 2,
            batch.end - 1,
            batch.end,
        ] {
            cuts.insert(cut);
        }
    }
    let mut random = 0x94d0_49bb_1331_11ebu64;
    for _ in 0..96 {
        cuts.insert(log_start + fuzz_random(&mut random) % (full_len - log_start + 1));
    }

    let empty = HashMap::new();
    for cut in cuts {
        let mut target = source.clone();
        target.set_len(cut);

        let surviving = batches.iter().rev().find(|batch| batch.end <= cut);
        let expected = surviving.map_or(&empty, |batch| &batch.model);
        let expected_len = surviving.map_or(log_start, |batch| batch.end);
        let handle = Handle::open(target)?;
        assert_eq!(&read_all(&handle.db)?, expected);
        assert_eq!(
            handle.disk.len(),
            expected_len,
            "recovery retained an incomplete batch after truncation at {cut}"
        );
    }
    Ok(())
}

#[test]
fn recovery_fuzz_rejects_single_bit_corruption_in_committed_log() -> Result<()> {
    let (source, log_start, batches) = build_recovery_fuzz_fixture()?;
    let full_len = batches.last().unwrap().end;
    let mut offsets = BTreeSet::new();
    for batch in &batches {
        for offset in [
            batch.start,
            batch.start + 5,
            batch.start + 13,
            batch.start + LOG_HEADER_SIZE as u64,
            (batch.start + batch.end) / 2,
            batch.end - 1,
        ] {
            offsets.insert(offset);
        }
    }
    let mut random = 0xa076_1d64_78bd_642fu64;
    for _ in 0..96 {
        offsets.insert(log_start + fuzz_random(&mut random) % (full_len - log_start));
    }

    for offset in offsets {
        let mut target = source.clone();
        target.flip(offset, 1);

        let error = Handle::open(target)
            .err()
            .unwrap_or_else(|| panic!("corruption at file offset {offset} was accepted"));
        assert_eq!(error.kind(), ErrorKind::InvalidData);
    }
    Ok(())
}

#[test]
fn write_transaction_is_recovered_atomically() -> Result<()> {
    let mut handle = Handle::create();
    let mut txn = handle.db.begin_write()?;
    txn.put(b"a", b"one")?;
    txn.put(b"a", b"latest")?;
    txn.put(b"b", b"two")?;
    txn.delete(b"missing")?;
    assert_eq!(txn.len(), 3);
    assert_eq!(txn.get(b"a")?, Some(b"latest".as_slice()));
    commit_to(&mut handle.disk, txn)?;
    let handle = handle.reopen()?;
    assert_eq!(handle.db.get(b"a")?, Some(b"latest".as_slice()));
    assert_eq!(handle.db.get(b"b")?, Some(b"two".as_slice()));
    Ok(())
}

#[test]
fn recovers_large_batch_without_a_payload_sized_staging_buffer() -> Result<()> {
    let value = vec![b'v'; 16 * 1024 * 1024];
    let mut handle = Handle::create();
    let mut txn = handle.db.begin_write()?;
    txn.put(b"large", &value)?;
    txn.put(b"small", b"value")?;
    commit_to(&mut handle.disk, txn)?;

    let handle = handle.reopen()?;
    assert_eq!(handle.db.get(b"large")?, Some(value.as_slice()));
    assert_eq!(handle.db.get(b"small")?, Some(b"value".as_slice()));
    Ok(())
}

#[test]
fn rejects_validly_checksummed_malformed_batch() -> Result<()> {
    let mut disk = Disk::create();

    let mut payload = Vec::new();
    payload.extend_from_slice(&2u32.to_le_bytes());
    payload.push(Marker::Put.to_byte());
    payload.extend_from_slice(&1u32.to_le_bytes());
    payload.extend_from_slice(&3u32.to_le_bytes());
    payload.extend_from_slice(b"aone");
    payload.push(Marker::Delete.to_byte());
    payload.extend_from_slice(&1u32.to_le_bytes());
    payload.extend_from_slice(&1u32.to_le_bytes());
    payload.extend_from_slice(b"bx");
    append_raw_batch(&mut disk, &payload);

    let error = Handle::open(disk)
        .err()
        .expect("malformed batch must fail recovery");
    assert_eq!(error.kind(), ErrorKind::InvalidData);
    Ok(())
}

#[test]
fn rejects_validly_checksummed_oversized_batch_count() -> Result<()> {
    let mut disk = Disk::create();
    let payload = ((MAX_BATCH_OPERATIONS + 1) as u32).to_le_bytes();
    append_raw_batch(&mut disk, &payload);

    let error = Handle::open(disk)
        .err()
        .expect("oversized operation count must fail recovery");
    assert_eq!(error.kind(), ErrorKind::InvalidData);
    Ok(())
}

#[test]
fn rejects_checksum_corruption_without_truncating_it() -> Result<()> {
    let mut handle = Handle::create();
    let log_start = handle.db.base().log_start;
    handle.put(b"key", b"value")?;
    handle.db.sync()?;
    let mut disk = handle.disk;
    disk.flip(log_start + 9, 0xff);
    let error = Handle::open(disk).err().expect("corruption must fail open");
    assert_eq!(error.kind(), ErrorKind::InvalidData);
    Ok(())
}

#[test]
fn rejects_header_length_corruption_without_truncating_committed_data() -> Result<()> {
    let mut handle = Handle::create();
    let log_start = handle.db.base().log_start;
    handle.put(b"key", b"value")?;
    let mut disk = handle.disk;
    disk.flip(log_start + 5, 0x80);

    let error = Handle::open(disk)
        .err()
        .expect("corrupt header length must fail open");
    assert!(matches!(error, Error::Corrupted(_)));
    Ok(())
}

#[test]
fn randomized_state_matches_hashmap_across_recovery() -> Result<()> {
    let mut handle = Handle::create();
    let mut model = HashMap::<Vec<u8>, Vec<u8>>::new();
    let mut random = 0x1234_5678_9abc_def0u64;
    for chunk in 0..50 {
        let mut txn = handle.db.begin_write()?;
        for _ in 0..100 {
            random = random.wrapping_mul(6364136223846793005).wrapping_add(1);
            let key = (random % 200).to_le_bytes().to_vec();
            if random >> 63 == 0 {
                let value = random.rotate_left(17).to_le_bytes().to_vec();
                txn.put(&key, &value)?;
                model.insert(key, value);
            } else {
                txn.delete(&key)?;
                model.remove(&key);
            }
        }
        commit_to(&mut handle.disk, txn)?;
        if chunk % 5 == 0 {
            handle.compact()?;
        }
        if chunk % 3 == 0 {
            handle = handle.reopen()?;
        }
    }
    assert_eq!(read_all(&handle.db)?, model);
    Ok(())
}

#[test]
fn partial_write_poisons_handle_and_reopen_can_continue() -> Result<()> {
    let mut handle = Handle::create();
    handle.put(b"before", b"safe")?;
    let length_before = handle.db.storage().len();
    let mut staged = KeyMap::default();
    staged.insert(
        b"partial".to_vec(),
        OverlayEntry::Put(ValueBytes::Owned(b"must-not-appear".to_vec())),
    );
    let value_checksums = KeyMap::default();
    let commit = handle.db.start_commit(staged, &value_checksums)?.unwrap();
    let record = commit.record()[..7].to_vec();
    handle.disk.bytes.extend_from_slice(&record);
    let failure = Error::from_io(ErrorKind::WriteZero, "failed to write whole buffer");
    let error = handle.db.commit_appended(commit, Err(failure)).err().unwrap();
    assert_eq!(error.kind(), ErrorKind::WriteZero);
    assert_eq!(handle.db.storage().len(), length_before);
    assert!(matches!(handle.put(b"after", b"unsafe"), Err(Error::Poisoned)));
    let mut handle = handle.reopen()?;
    assert_eq!(handle.db.get(b"before")?, Some(b"safe".as_slice()));
    assert_eq!(handle.db.get(b"partial")?, None);
    handle.put(b"after", b"safe-too")?;
    let handle = handle.reopen()?;
    assert_eq!(handle.db.get(b"after")?, Some(b"safe-too".as_slice()));
    Ok(())
}

fn partial_write_staged() -> KeyMap<OverlayEntry> {
    let mut staged = KeyMap::default();
    staged.insert(
        b"before".to_vec(),
        OverlayEntry::Put(ValueBytes::Owned(b"replacement".to_vec())),
    );
    staged.insert(
        b"inserted".to_vec(),
        OverlayEntry::Put(ValueBytes::Owned(b"new-value".to_vec())),
    );
    staged.insert(b"deleted".to_vec(), OverlayEntry::Delete);
    staged
}

#[test]
fn injected_write_failure_at_every_batch_byte_preserves_previous_commit() -> Result<()> {
    let mut serialized = Vec::new();
    write_batch_record(&mut serialized, &partial_write_staged())?;
    let mut handle = Handle::create();
    handle.put(b"before", b"safe")?;
    handle.put(b"deleted", b"still-present")?;
    let mut disk = handle.disk;

    for remaining in 0..serialized.len() {
        let mut handle = Handle::open(disk)?;
        let length_before = handle.db.storage().len();
        let commit = handle
            .db
            .start_commit(partial_write_staged(), &KeyMap::default())?
            .unwrap();
        assert_eq!(commit.record(), serialized.as_slice());
        handle.disk.bytes.extend_from_slice(&serialized[..remaining]);
        let failure = Error::from_io(ErrorKind::WriteZero, "failed to write whole buffer");
        let error = handle
            .db
            .commit_appended(commit, Err(failure))
            .err()
            .expect("injected partial write must fail");
        assert_eq!(error.kind(), ErrorKind::WriteZero);
        assert!(matches!(handle.put(b"unsafe", b"value"), Err(Error::Poisoned)));

        let handle = handle.reopen()?;
        let db = &handle.db;
        assert_eq!(db.get(b"before")?, Some(b"safe".as_slice()));
        assert_eq!(db.get(b"deleted")?, Some(b"still-present".as_slice()));
        assert_eq!(db.get(b"inserted")?, None);
        assert_eq!(
            db.storage().len(),
            length_before,
            "failed write was not removed at byte {remaining}/{}",
            serialized.len()
        );
        disk = handle.disk;
    }
    Ok(())
}

// Transactions.

#[test]
fn write_read_delete_reopen_and_compact() -> Result<()> {
    let mut handle = Handle::create();
    handle.put(b"one", b"1")?;
    handle.put(b"two", b"2")?;
    handle.put(b"one", b"updated")?;
    handle.delete(b"two")?;
    assert_eq!(handle.db.get(b"one")?, Some(b"updated".as_slice()));
    assert_eq!(handle.db.get(b"two")?, None);
    assert_eq!(handle.db.len()?, 1);
    assert_eq!(
        read_all(&handle.db)?,
        HashMap::from([(b"one".to_vec(), b"updated".to_vec())])
    );
    handle.db.sync()?;

    let mut handle = handle.reopen()?;
    assert_eq!(handle.db.get(b"one")?, Some(b"updated".as_slice()));
    handle.compact()?;
    assert_eq!(handle.db.get(b"one")?, Some(b"updated".as_slice()));
    handle.put(b"three", b"3")?;

    let handle = handle.reopen()?;
    assert_eq!(handle.db.get(b"one")?, Some(b"updated".as_slice()));
    assert_eq!(handle.db.get(b"three")?, Some(b"3".as_slice()));
    Ok(())
}

#[test]
fn open_does_not_initialize_an_empty_file() -> Result<()> {
    let error = Handle::open(Disk { bytes: Vec::new() })
        .err()
        .expect("an empty file must not be initialized by open");
    assert_eq!(error.kind(), ErrorKind::InvalidData);
    Ok(())
}

#[test]
fn write_transaction_abort_and_drop_discard_changes() -> Result<()> {
    let mut handle = Handle::create();
    {
        let mut txn = handle.db.begin_write()?;
        txn.put(b"key", b"aborted")?;
        assert_eq!(txn.get(b"key")?, Some(b"aborted".as_slice()));
        txn.abort();
    }
    assert_eq!(handle.db.begin_read()?.get(b"key")?, None);
    {
        let mut txn = handle.db.begin_write()?;
        txn.put(b"key", b"dropped")?;
    }
    assert_eq!(handle.db.begin_read()?.get(b"key")?, None);
    Ok(())
}

#[test]
fn overlay_limit_requires_explicit_compaction() -> Result<()> {
    let mut handle = Handle::open_with_options(
        Disk::create(),
        DatabaseOptions {
            overlay_memory_limit: 32,
            ..DatabaseOptions::default()
        },
    )?;
    handle.put(b"large", [b'x'; 100])?;
    let error = match handle.db.begin_write() {
        Ok(_) => panic!("write must require maintenance"),
        Err(error) => error,
    };
    assert!(matches!(
        error,
        Error::MaintenanceRequired {
            limit: 32,
            actual: 105
        }
    ));
    assert_eq!(handle.db.get(b"large")?, Some(&[b'x'; 100][..]));
    handle.compact()?;
    assert_eq!(handle.db.overlay_memory_usage(), 0);
    handle.db.begin_write()?.abort();
    assert_eq!(handle.db.get(b"large")?, Some(&[b'x'; 100][..]));
    let handle = handle.reopen()?;
    assert_eq!(handle.db.get(b"large")?, Some(&[b'x'; 100][..]));
    Ok(())
}

#[test]
fn reopen_preserves_maintenance_required_state() -> Result<()> {
    let options = DatabaseOptions {
        overlay_memory_limit: 0,
        ..DatabaseOptions::default()
    };
    let mut handle = Handle::open_with_options(Disk::create(), options.clone())?;
    handle.put(b"key", b"value")?;

    let mut handle = Handle::open_with_options(handle.disk, options)?;
    assert_eq!(handle.db.get(b"key")?, Some(b"value".as_slice()));
    assert!(matches!(
        handle.db.begin_write(),
        Err(Error::MaintenanceRequired { .. })
    ));
    handle.compact()?;
    handle.db.begin_write()?.abort();
    Ok(())
}

#[test]
fn owned_snapshot_reads_while_writer_advances() -> Result<()> {
    let mut handle = Handle::create();
    handle.put(b"key", b"old")?;
    let snapshot = handle.db.snapshot()?;
    for value in 0..100u64 {
        handle.put(b"key", value.to_le_bytes())?;
        for _ in 0..100 {
            assert_eq!(snapshot.get(b"key")?, Some(b"old".as_slice()));
        }
    }
    assert_eq!(
        handle.db.get(b"key")?,
        Some(99u64.to_le_bytes().as_slice())
    );
    Ok(())
}

#[test]
fn process_crash_never_exposes_a_partial_transaction() -> Result<()> {
    let mut handle = Handle::create();
    handle.put(b"a", b"old-a")?;
    handle.put(b"b", b"old-b")?;
    let before = handle.disk.clone();
    let mut write = handle.db.begin_write()?;
    write.put(b"a", b"new-a")?;
    write.put(b"b", b"new-b")?;
    commit_to(&mut handle.disk, write)?;
    for len in before.len()..=handle.disk.len() {
        let mut cut = handle.disk.clone();
        cut.set_len(len);
        let db = Handle::open(cut)?.db;
        let (a, b) = (db.get(b"a")?, db.get(b"b")?);
        if len == handle.disk.len() {
            assert_eq!(a, Some(b"new-a".as_slice()));
            assert_eq!(b, Some(b"new-b".as_slice()));
        } else {
            assert_eq!(a, Some(b"old-a".as_slice()));
            assert_eq!(b, Some(b"old-b".as_slice()));
        }
    }
    Ok(())
}

const OVERLAY_MAPPING_THRESHOLD: usize = MAPPED_VALUE_THRESHOLD;

#[derive(Clone, Copy)]
enum OverlayCrashFixture {
    Empty,
    Tail,
    Mapped,
    PromoteTail,
    Remap,
}

impl OverlayCrashFixture {
    fn name(self) -> &'static str {
        match self {
            Self::Empty => "empty",
            Self::Tail => "tail",
            Self::Mapped => "mapped",
            Self::PromoteTail => "promote-tail",
            Self::Remap => "remap",
        }
    }

    fn has_initial_keys(self) -> bool {
        !matches!(self, Self::Empty)
    }

    fn has_mapped_prefix(self) -> bool {
        matches!(self, Self::Mapped | Self::Remap)
    }

    fn promotes(self) -> bool {
        matches!(self, Self::PromoteTail | Self::Remap)
    }
}

fn prepare_overlay_crash_fixture(fixture: OverlayCrashFixture) -> Result<Disk> {
    let mut handle = Handle::create();
    if fixture.has_initial_keys() {
        let mut write = handle.db.begin_write()?;
        write.put(b"a", b"old-a")?;
        write.put(b"b", b"old-b")?;
        commit_to(&mut handle.disk, write)?;
    }
    if fixture.has_mapped_prefix() {
        handle.put(b"seed", vec![0x53; OVERLAY_MAPPING_THRESHOLD])?;
    }
    Ok(handle.disk)
}

/// What is on the disk when a commit is interrupted at a point. Of a record that was written
/// but not synced, any part may be there.
fn crash_commit(
    disk: Disk,
    fixture: OverlayCrashFixture,
    crash_point: &str,
) -> Result<Vec<Disk>> {
    let mut handle = Handle::open(disk)?;
    let mut write = handle.db.begin_write()?;
    write.put(b"a", b"new-a")?;
    write.delete(b"b")?;
    write.put(b"c", b"new-c")?;
    write.delete(b"d")?;
    if fixture.promotes() {
        write.put(b"trigger", &vec![0x6d; OVERLAY_MAPPING_THRESHOLD])?;
    }
    let (db, staged, value_checksums) = write.into_parts();
    let commit = db.start_commit(staged, &value_checksums)?.unwrap();
    let before = handle.disk.clone();
    handle.disk.bytes.extend_from_slice(commit.record());
    if crash_point == "after_batch_write" {
        let written = commit.record().len() as u64;
        let mut disks = Vec::new();
        for part in [0, 1, LOG_HEADER_SIZE as u64, written / 2, written - 1, written] {
            let mut cut = handle.disk.clone();
            cut.set_len(before.len() + part);
            disks.push(cut);
        }
        return Ok(disks);
    }
    let mut commit = db.commit_appended(commit, Ok(()))?;
    if commit.needs_mapping() {
        let record = handle.disk.bytes[before.bytes.len()..].to_vec();
        commit = db.commit_mapped(commit, Ok(record))?;
    }
    if crash_point == "after_batch_sync" {
        return Ok(vec![handle.disk]);
    }
    assert_eq!(crash_point, "after_batch_publish");
    db.commit_synced(commit, Ok(()))?;
    Ok(vec![handle.disk])
}

fn overlay_crash_state(disk: Disk, fixture: OverlayCrashFixture) -> Result<&'static str> {
    let db = Handle::open(disk)?.db;
    let a = db.get(b"a")?;
    let b = db.get(b"b")?;
    let c = db.get(b"c")?;
    let d = db.get(b"d")?;
    let trigger = db.get(b"trigger")?;
    let seed = db.get(b"seed")?;
    let entries = db.stats()?.overlay_entries;

    let old_entries =
        usize::from(fixture.has_initial_keys()) * 2 + usize::from(fixture.has_mapped_prefix());
    let new_entries =
        4 + usize::from(fixture.has_mapped_prefix()) + usize::from(fixture.promotes());
    let is_old = a == fixture.has_initial_keys().then_some(b"old-a".as_slice())
        && b == fixture.has_initial_keys().then_some(b"old-b".as_slice())
        && c.is_none()
        && d.is_none()
        && trigger.is_none()
        && entries == old_entries;
    let is_new = a == Some(b"new-a".as_slice())
        && b.is_none()
        && c == Some(b"new-c".as_slice())
        && d.is_none()
        && trigger
            .is_some_and(|value| fixture.promotes() && value.len() == OVERLAY_MAPPING_THRESHOLD)
            == fixture.promotes()
        && entries == new_entries;
    assert_eq!(
        seed.is_some_and(|value| value.len() == OVERLAY_MAPPING_THRESHOLD),
        fixture.has_mapped_prefix(),
        "{} fixture lost its mapped prefix",
        fixture.name()
    );
    match (is_old, is_new) {
        (true, false) => Ok("old"),
        (false, true) => Ok("new"),
        _ => panic!(
            "{} fixture recovered a partial transaction: a={a:?} b={b:?} c={c:?} d={d:?} trigger_len={:?} entries={entries}",
            fixture.name(),
            trigger.map(<[u8]>::len)
        ),
    }
}

#[test]
fn crash_matrix_preserves_atomicity_across_overlay_storage_transitions() -> Result<()> {
    for fixture in [
        OverlayCrashFixture::Empty,
        OverlayCrashFixture::Tail,
        OverlayCrashFixture::Mapped,
        OverlayCrashFixture::PromoteTail,
        OverlayCrashFixture::Remap,
    ] {
        for crash_point in [
            "after_batch_write",
            "after_batch_sync",
            "after_batch_publish",
        ] {
            let disk = prepare_overlay_crash_fixture(fixture)?;
            let disks = crash_commit(disk, fixture, crash_point)?;
            let last = disks.len() - 1;
            for (i, disk) in disks.into_iter().enumerate() {
                let state = overlay_crash_state(disk, fixture)?;
                if crash_point != "after_batch_write" || i == last {
                    assert_eq!(
                        state,
                        "new",
                        "{} fixture lost a synced transaction after {crash_point}",
                        fixture.name()
                    );
                } else {
                    assert_eq!(state, "old");
                }
            }
        }
    }
    Ok(())
}

#[test]
fn snapshot_shares_overlay_until_the_writer_mutates_it() -> Result<()> {
    let mut handle = Handle::create();
    handle.put(b"key", b"old")?;
    let snapshot = handle.db.snapshot()?;
    assert!(Arc::ptr_eq(snapshot.overlay_index(), &handle.db.overlay().index));

    handle.put(b"key", b"new")?;
    assert!(!Arc::ptr_eq(snapshot.overlay_index(), &handle.db.overlay().index));
    assert_eq!(snapshot.get(b"key")?, Some(b"old".as_slice()));
    assert_eq!(handle.db.get(b"key")?, Some(b"new".as_slice()));
    Ok(())
}

#[test]
fn memory_database_supports_transactions_snapshots_and_maintenance() -> Result<()> {
    let mut db = Database::memory()?;
    db.put(b"key", b"old")?;
    db.put(b"gone", b"value")?;
    let snapshot = db.snapshot()?;

    let mut write = db.begin_write()?;
    write.put(b"key", b"new")?;
    write.delete(b"gone")?;
    write.put(b"other", b"two")?;
    write.commit()?;

    assert_eq!(snapshot.get(b"key")?, Some(b"old".as_slice()));
    assert_eq!(db.get(b"key")?, Some(b"new".as_slice()));
    assert_eq!(db.get(b"gone")?, None);
    db.sync()?;
    let mut entries = HashMap::new();
    let mut items = snapshot.iter()?;
    while let Some(item) = items.next() {
        let (key, value) = item?;
        entries.insert(key.to_vec(), value.to_vec());
    }
    assert_eq!(entries.get(b"key".as_slice()), Some(&b"old".to_vec()));
    assert_eq!(entries.get(b"gone".as_slice()), Some(&b"value".to_vec()));
    assert_eq!(snapshot.len()?, 2);
    assert_eq!(
        db.compact()
            .expect_err("a memory database must enforce the same snapshot rule")
            .kind(),
        ErrorKind::WouldBlock
    );
    drop(snapshot);
    db.compact()?;
    assert_eq!(db.overlay_memory_usage(), 0);
    db.verify()?;
    assert_eq!(db.get(b"other")?, Some(b"two".as_slice()));
    Ok(())
}

#[test]
fn snapshot_iterator_borrows_base_and_overlay_values() -> Result<()> {
    let mut db = Database::memory()?;
    db.put(b"base", b"frozen")?;
    db.compact()?;
    db.put(b"overlay", b"latest")?;
    let snapshot = db.snapshot()?;
    let base_pointer = snapshot.get(b"base")?.unwrap().as_ptr();
    let overlay_pointer = snapshot.get(b"overlay")?.unwrap().as_ptr();

    let mut found_base = false;
    let mut found_overlay = false;
    let mut items = snapshot.iter()?;
    while let Some(item) = items.next() {
        let (key, value) = item?;
        match key {
            b"base" => {
                found_base = true;
                assert_eq!(value.as_ptr(), base_pointer);
            }
            b"overlay" => {
                found_overlay = true;
                assert_eq!(value.as_ptr(), overlay_pointer);
            }
            _ => panic!("unexpected snapshot entry"),
        }
    }
    assert!(found_base && found_overlay);
    Ok(())
}

#[test]
fn large_values_are_transparently_mapped_and_survive_recovery() -> Result<()> {
    let value = vec![0x5a; MAPPED_VALUE_THRESHOLD + 137];
    let mut handle = Handle::create();
    handle.put(b"large", &value)?;

    assert_eq!(handle.db.get(b"large")?, Some(value.as_slice()));
    assert_eq!(handle.db.overlay_memory_usage(), b"large".len());
    let snapshot = handle.db.snapshot()?;

    let mut handle = handle.reopen()?;
    assert_eq!(handle.db.get(b"large")?, Some(value.as_slice()));
    assert_eq!(handle.db.overlay_memory_usage(), b"large".len());

    handle.put(b"large", b"replacement")?;
    assert_eq!(handle.db.get(b"large")?, Some(b"replacement".as_slice()));
    assert_eq!(snapshot.get(b"large")?, Some(value.as_slice()));
    drop(snapshot);
    handle.compact()?;
    assert_eq!(handle.db.get(b"large")?, Some(b"replacement".as_slice()));
    Ok(())
}

#[test]
fn recovered_values_share_one_overlay_mapping() -> Result<()> {
    let small = b"small mapped value";
    let large = vec![0x4d; MAPPED_VALUE_THRESHOLD + 1];
    let mut handle = Handle::create();
    handle.put(b"small", small)?;
    handle.put(b"large", &large)?;

    let handle = handle.reopen()?;
    let db = &handle.db;
    let mapping = |key: &[u8]| match db.overlay().index.get(key).unwrap() {
        OverlayEntry::Put(ValueBytes::Mapped {
            bytes: BaseBytes::Mapped(mapping),
            ..
        }) => mapping,
        _ => panic!("recovered file values must be mapped"),
    };
    assert!(Arc::ptr_eq(mapping(b"small"), mapping(b"large")));
    assert_eq!(db.get(b"small")?, Some(small.as_slice()));
    assert_eq!(db.get(b"large")?, Some(large.as_slice()));
    assert_eq!(
        db.overlay_memory_usage(),
        b"small".len() + small.len() + b"large".len()
    );
    Ok(())
}

#[test]
fn put_reserved_stages_exactly_sized_values() -> Result<()> {
    let value_len = MAPPED_VALUE_THRESHOLD + 31;
    let mut handle = Handle::create();
    let mut transaction = handle.db.begin_write()?;
    transaction.put_reserved(b"large", value_len, |reserved| {
        assert_eq!(reserved.len(), value_len);
        for _ in 0..value_len {
            write_all(reserved, &[0xa5])?;
        }
        Ok(())
    })?;
    assert_eq!(transaction.get(b"large")?.unwrap().len(), value_len);
    commit_to(&mut handle.disk, transaction)?;
    assert!(handle
        .db
        .get(b"large")?
        .is_some_and(|value| value.iter().all(|byte| *byte == 0xa5)));
    assert_eq!(handle.db.overlay_memory_usage(), b"large".len());

    let handle = handle.reopen()?;
    assert!(handle
        .db
        .get(b"large")?
        .is_some_and(|value| value.iter().all(|byte| *byte == 0xa5)));
    assert_eq!(handle.db.overlay_memory_usage(), b"large".len());
    Ok(())
}

#[test]
fn put_reserved_rejects_incomplete_and_excess_writes_without_staging() -> Result<()> {
    let mut db = Database::memory()?;
    let mut transaction = db.begin_write()?;
    let error = transaction
        .put_reserved(b"short", 4, |reserved| {
            write_all(reserved, b"abc")?;
            Ok(())
        })
        .expect_err("short reserved write must fail");
    assert_eq!(error.kind(), ErrorKind::InvalidInput);
    assert!(transaction.is_empty());

    let error = transaction
        .put_reserved(b"long", 3, |reserved| {
            write_all(reserved, b"abcd")?;
            Ok(())
        })
        .expect_err("long reserved write must fail");
    assert_eq!(error.kind(), ErrorKind::InvalidInput);
    assert!(transaction.is_empty());
    transaction.abort();
    assert!(db.is_empty()?);
    Ok(())
}

#[test]
fn cached_large_value_checksums_follow_the_final_staged_mutation() -> Result<()> {
    let large = vec![0x3c; MAPPED_VALUE_THRESHOLD + 1];
    let mut handle = Handle::create();

    let mut transaction = handle.db.begin_write()?;
    transaction.put(b"small-final", &large)?;
    transaction.put(b"small-final", b"small")?;
    transaction.put(b"large-final", b"small")?;
    transaction.put(b"large-final", &large)?;
    transaction.put(b"deleted", &large)?;
    transaction.delete(b"deleted")?;
    commit_to(&mut handle.disk, transaction)?;

    let handle = handle.reopen()?;
    assert_eq!(handle.db.get(b"small-final")?, Some(b"small".as_slice()));
    assert_eq!(handle.db.get(b"large-final")?, Some(large.as_slice()));
    assert_eq!(handle.db.get(b"deleted")?, None);
    Ok(())
}

// Verification.

fn verification_random(state: &mut u64) -> u64 {
    *state = state
        .wrapping_mul(2_862_933_555_777_941_757)
        .wrapping_add(3_037_000_493);
    *state
}

fn compacted_damage_fixture() -> Result<(Disk, u64, u64)> {
    let mut handle = Handle::create();
    let mut txn = handle.db.begin_write()?;
    for index in 0..257u64 {
        let mut value = vec![index as u8; 31 + (index as usize % 211)];
        value.extend_from_slice(&index.rotate_left(17).to_le_bytes());
        txn.put(&index.to_le_bytes(), &value)?;
    }
    commit_to(&mut handle.disk, txn)?;
    handle.compact()?;
    let base_offset = handle.db.base().offset;
    let base_size = handle.db.base().mapping.as_slice().len() as u64;
    assert_eq!(handle.db.storage().len(), base_offset + base_size);
    Ok((handle.disk, base_offset, base_size))
}

fn record_offset(db: &Database) -> u64 {
    db.base().offset + BASE_HEADER as u64 + db.base().slots * SLOT_SIZE as u64
}

#[test]
fn rejects_corrupt_base_lengths() -> Result<()> {
    let mut handle = Handle::create();
    handle.put(b"key", b"value")?;
    handle.compact()?;
    let record_offset = record_offset(&handle.db);
    let mut disk = handle.disk;
    disk.write_at(record_offset + 4, &u32::MAX.to_le_bytes());
    let error = Handle::open_with_options(
        disk,
        DatabaseOptions {
            verification: VerificationMode::Full,
            ..DatabaseOptions::default()
        },
    )
    .err()
    .expect("corrupt base must fail open");
    assert_eq!(error.kind(), ErrorKind::InvalidData);
    Ok(())
}

#[test]
fn on_read_defers_bad_record_bounds_and_iteration_returns_error() -> Result<()> {
    let mut handle = Handle::create();
    handle.put(b"key", b"value")?;
    handle.compact()?;
    let record_offset = record_offset(&handle.db);
    let mut disk = handle.disk;
    disk.write_at(record_offset + 4, &u32::MAX.to_le_bytes());

    let handle = Handle::open(disk)?;
    let mut entries = handle.db.iter()?;
    let error = entries
        .next()
        .expect("corrupt record must produce one iterator error")
        .expect_err("corrupt record must not be returned");
    assert_eq!(error.kind(), ErrorKind::InvalidData);
    assert!(entries.next().is_none());
    Ok(())
}

#[test]
fn semantic_verification_enables_only_the_trusted_iterator_path() -> Result<()> {
    let mut handle = Handle::create();
    handle.put(b"key", b"value")?;
    handle.compact()?;
    assert!(handle.db.iter_raw().base_trusted);
    assert!(handle.db.base().verifier.is_semantically_verified());

    let handle = handle.reopen()?;
    assert!(!handle.db.iter_raw().base_trusted);
    assert!(!handle.db.base().verifier.is_semantically_verified());
    handle.db.verify()?;
    assert!(handle.db.iter_raw().base_trusted);
    assert!(handle.db.base().verifier.is_semantically_verified());
    Ok(())
}

#[test]
fn rejects_base_value_corruption() -> Result<()> {
    let mut handle = Handle::create();
    handle.put(b"key", b"value")?;
    handle.compact()?;
    let value_offset = record_offset(&handle.db) + 8 + b"key".len() as u64;
    let mut disk = handle.disk;
    disk.flip(value_offset, 0xff);
    let handle = Handle::open(disk)?;
    let error = handle
        .db
        .get(b"key")
        .expect_err("corrupt base block must fail on first read");
    assert_eq!(error.kind(), ErrorKind::InvalidData);
    Ok(())
}

#[test]
fn truncated_compacted_images_are_never_accepted() -> Result<()> {
    let (source, base_offset, base_size) = compacted_damage_fixture()?;
    let full_len = base_offset + base_size;
    let mut cuts = BTreeSet::from([
        0,
        1,
        SUPERBLOCK_SIZE - 1,
        SUPERBLOCK_SIZE,
        DATA_START - 1,
        DATA_START,
        base_offset + 1,
        base_offset + base_size / 2,
        full_len - 1,
    ]);
    let mut random = 0xe703_7ed1_a0b4_28dbu64;
    for _ in 0..96 {
        cuts.insert(verification_random(&mut random) % full_len);
    }

    for cut in cuts {
        let mut target = source.clone();
        target.set_len(cut);
        assert!(
            Handle::open(target).is_err(),
            "truncated compacted image was accepted at {cut}/{full_len}"
        );
    }
    Ok(())
}

#[test]
fn compacted_base_fuzz_detects_single_bit_corruption() -> Result<()> {
    let (source, base_offset, base_size) = compacted_damage_fixture()?;
    let mut offsets = BTreeSet::from([
        base_offset,
        base_offset + BASE_HEADER as u64 - 1,
        base_offset + BASE_HEADER as u64,
        base_offset + base_size / 2,
        base_offset + base_size - 1,
    ]);
    let mut random = 0x8ebc_6af0_9c88_c6e3u64;
    for _ in 0..128 {
        offsets.insert(base_offset + verification_random(&mut random) % base_size);
    }

    for offset in offsets {
        let mut target = source.clone();
        target.flip(offset, 1);

        let error = Handle::open_with_options(
            target,
            DatabaseOptions::default().with_verification(VerificationMode::Full),
        )
        .err()
        .unwrap_or_else(|| panic!("Base corruption at offset {offset} was accepted"));
        assert_eq!(error.kind(), ErrorKind::InvalidData);
    }
    Ok(())
}

#[test]
fn on_read_verifies_every_block_spanned_by_a_value() -> Result<()> {
    let mut handle = Handle::create();
    let value = vec![b'v'; CHECKSUM_BLOCK_SIZE * 2];
    handle.put(b"large", &value)?;
    handle.compact()?;
    let corrupt_offset = handle.db.base().offset + CHECKSUM_BLOCK_SIZE as u64 + 123;
    let mut disk = handle.disk;
    disk.flip(corrupt_offset, 0xff);

    let handle = Handle::open(disk)?;
    let error = handle.db.get(b"large").expect_err("second block is corrupt");
    match error {
        Error::Corrupted(corruption) => {
            assert_eq!(corruption.kind(), CorruptionKind::BlockChecksum);
            assert_eq!(corruption.block_index(), Some(1));
        }
        other => panic!("unexpected error: {other:?}"),
    }
    Ok(())
}

#[test]
fn on_read_open_still_rejects_checksum_metadata_corruption() -> Result<()> {
    let mut handle = Handle::create();
    handle.put(b"key", b"value")?;
    handle.compact()?;
    let checksum_table_offset =
        handle.db.base().offset + handle.db.base().verifier.data_size() as u64;
    let mut disk = handle.disk;
    disk.write_at(checksum_table_offset, &0u32.to_le_bytes());
    let error = Handle::open(disk)
        .err()
        .expect("checksum table metadata must be protected");
    assert!(matches!(error, Error::Corrupted(_)));
    Ok(())
}

#[test]
fn map_segment_rejects_ranges_beyond_the_file() -> Result<()> {
    let handle = Handle::create();
    let file_len = handle.disk.len();
    let error = map_len(file_len, file_len, 1).unwrap_err();
    assert_eq!(error.kind(), ErrorKind::InvalidData);
    assert_eq!(map_len(file_len, DATA_START, file_len - DATA_START)?, 52);
    assert_eq!(
        map_len(file_len, 0, 0).unwrap_err().message(),
        "cannot map an empty segment"
    );
    assert_eq!(
        map_len(file_len, u64::MAX, 1).unwrap_err().message(),
        "invalid base: segment range overflows file offsets"
    );
    Ok(())
}

#[test]
fn unknown_format_version_is_reported_as_unsupported() -> Result<()> {
    let mut disk = Disk::create();
    let start = SUPERBLOCK_SIZE as usize;
    let mut newer = disk.bytes[start..2 * start].to_vec();
    newer[8..12].copy_from_slice(&(FORMAT_VERSION + 1).to_le_bytes());
    newer[16..24].copy_from_slice(&2u64.to_le_bytes());
    let checksum_offset = HEADER_SIZE - 4;
    let checksum = crc32c::crc32c(&newer[..checksum_offset]);
    newer[checksum_offset..HEADER_SIZE].copy_from_slice(&checksum.to_le_bytes());
    disk.write_at(0, &newer);
    disk.bytes.extend_from_slice(&[1, 2, 3]);

    let error = Handle::open(disk)
        .err()
        .expect("unknown version must be rejected");
    assert_eq!(error.message(), "unsupported database format version 2");
    assert!(matches!(error, Error::Unsupported(_)));
    Ok(())
}

// The Overlay map.

#[test]
fn overlay_map_uses_the_base_key_hash() {
    let mut map = OverlayMap::default();
    map.insert(Vec::new(), 1);
    map.insert(b"overlay-key".to_vec(), 2);

    for (key, expected) in [(b"".as_slice(), 1), (b"overlay-key".as_slice(), 2)] {
        let hash = xxhash_rust::xxh3::xxh3_64(key);
        assert_eq!(map.get(key), Some(&expected));
        assert_eq!(map.get_hashed(key, hash), Some(&expected));
    }

    let occupied_hash = xxhash_rust::xxh3::xxh3_64(b"overlay-key");
    assert_eq!(map.get_hashed(b"other-key", occupied_hash), None);
}

fn assert_shareable<T: Send + Sync>(_: &T) {}

#[test]
fn snapshots_can_be_shared_between_threads() -> Result<()> {
    let db = Database::memory()?;
    assert_shareable(&db.snapshot()?);
    assert_shareable(&db);
    Ok(())
}

/// What is left of a handle after a step of compaction failed.
#[test]
fn failures_during_compaction_leave_a_consistent_handle() -> Result<()> {
    let failure = || Error::from_io(ErrorKind::StorageFull, "no space left");
    let prepared = || -> Result<Handle> {
        let mut handle = Handle::create();
        handle.put(b"key", b"value")?;
        Ok(handle)
    };

    // The record that ends the log could not be written.
    let mut handle = prepared()?;
    let plan = handle.db.start_compact()?.unwrap();
    let error = handle.db.compact_marked(plan, Err(failure())).err().unwrap();
    assert_eq!(error.kind(), ErrorKind::StorageFull);
    assert_eq!(handle.db.storage().len(), plan.rollback_offset);
    assert_eq!(handle.db.get(b"key")?, Some(b"value".as_slice()));
    assert!(matches!(handle.db.begin_write(), Err(Error::Poisoned)));
    assert!(matches!(handle.db.start_compact(), Err(Error::Poisoned)));

    // The staged Base could not be synced.
    let mut handle = prepared()?;
    let plan = handle.db.start_compact()?.unwrap();
    let staged = handle.db.compact_marked(plan, Ok(()))?;
    assert!(handle.db.compact_staged(plan, staged, Err(failure())).is_err());
    assert_eq!(handle.db.storage().len(), plan.rollback_offset);
    assert!(matches!(handle.db.begin_write(), Err(Error::Poisoned)));

    // The staged Base could not be published.
    let mut handle = prepared()?;
    let plan = handle.db.start_compact()?.unwrap();
    let staged = handle.db.compact_marked(plan, Ok(()))?;
    let staged = handle.db.compact_staged(plan, staged, Ok(()))?;
    assert_eq!(handle.db.storage().len(), plan.source_end);
    assert!(handle.db.compact_published(plan, staged, Err(failure())).is_err());
    assert_eq!(handle.db.get(b"key")?, Some(b"value".as_slice()));
    assert!(matches!(handle.db.begin_write(), Err(Error::Poisoned)));

    // The moved Base could not be published.
    let mut handle = prepared()?;
    let plan = handle.db.start_compact()?.unwrap();
    let staged = handle.db.compact_marked(plan, Ok(()))?;
    let staged = handle.db.compact_staged(plan, staged, Ok(()))?;
    let relocation = handle.db.compact_published(plan, staged, Ok(()))?;
    assert_eq!(handle.db.stats()?.generation, 2);
    assert_eq!(handle.db.stats()?.overlay_entries, 0);
    assert_eq!(
        handle.db.stats()?.stale_bytes,
        plan.source_offset - DATA_START
    );
    assert!(handle.db.compact_relocated(relocation, Err(failure())).is_err());
    assert_eq!(handle.db.get(b"key")?, Some(b"value".as_slice()));
    assert!(matches!(handle.db.begin_write(), Err(Error::Poisoned)));

    // The file could not be cut.
    let mut handle = prepared()?;
    let plan = handle.db.start_compact()?.unwrap();
    let staged = handle.db.compact_marked(plan, Ok(()))?;
    let staged = handle.db.compact_staged(plan, staged, Ok(()))?;
    let relocation = handle.db.compact_published(plan, staged, Ok(()))?;
    let built = handle.db.compact_relocated(relocation, Ok(()))?;
    assert!(matches!(handle.db.get(b"key"), Err(Error::Poisoned)));
    assert!(handle.db.compact_shrunk(plan, built, Err(failure())).is_err());
    assert!(matches!(handle.db.get(b"key"), Err(Error::Poisoned)));
    assert!(matches!(handle.db.verify(), Err(Error::Poisoned)));
    assert!(matches!(handle.db.sync(), Err(Error::Poisoned)));
    assert!(matches!(handle.db.snapshot(), Err(Error::Poisoned)));
    Ok(())
}

#[test]
fn compaction_plans_stay_clear_of_what_is_in_use() -> Result<()> {
    let mut handle = Handle::create();
    handle.put(b"key", b"value")?;
    let plan = handle.db.start_compact()?.unwrap();
    let size = 24 + 24 + 16 + 4 + 24;
    assert_eq!(plan.live_len, 1);
    assert_eq!(plan.base_size, size);
    assert_eq!(plan.rollback_offset, handle.disk.len());
    assert_eq!(plan.destination_end, DATA_START + size);
    assert_eq!(
        plan.source_offset,
        (plan.rollback_offset + 17).max(plan.destination_end + 17)
    );
    assert_eq!(plan.source_end, plan.source_offset + size);
    handle.compact()?;
    assert_eq!(handle.db.base().generation, 3);
    assert_eq!(handle.disk.len(), plan.destination_end);
    assert_eq!(handle.db.stats()?.base_entries, 1);
    Ok(())
}

#[test]
fn torn_superblock_pages_leave_the_other_generation() -> Result<()> {
    let mut handle = Handle::create();
    handle.put(b"key", b"value")?;
    handle.compact_until(CrashPoint::SuperblockWrite)?;
    let mut disk = handle.disk;
    // The staging page is torn in the middle of its header.
    let page = handle.db.base().generation % 2 * SUPERBLOCK_SIZE;
    disk.write_at((SUPERBLOCK_SIZE - page) + 30, &[0xee; 20]);
    let handle = Handle::open(disk)?;
    assert_eq!(handle.db.get(b"key")?, Some(b"value".as_slice()));
    assert_eq!(handle.db.base().generation, 1);
    Ok(())
}

#[test]
fn damaged_images_are_read_or_refused_without_panicking() -> Result<()> {
    let mut handle = Handle::create();
    handle.put(b"alpha", b"one")?;
    handle.put(b"beta", b"two")?;
    handle.compact()?;
    handle.put(b"gamma", b"three")?;
    let seed = handle.disk.bytes;
    let mut random = 0x9e37_79b9_7f4a_7c15u64;
    for verification in [VerificationMode::OnRead, VerificationMode::Full] {
        for _ in 0..200 {
            let mut bytes = seed.clone();
            for _ in 0..1 + fuzz_random(&mut random) % 4 {
                let at = fuzz_random(&mut random) as usize % bytes.len();
                bytes[at] ^= (fuzz_random(&mut random) >> 32) as u8;
            }
            let options = DatabaseOptions::default().with_verification(verification);
            let Ok(db) = Database::from_image(&bytes, options) else {
                continue;
            };
            let _ = db.get(b"alpha");
            let _ = db.contains_key(b"delta");
            let _ = db.len();
            let mut entries = db.iter()?;
            while let Some(entry) = entries.next() {
                if entry.is_err() {
                    break;
                }
            }
            let snapshot = db.snapshot()?;
            let _ = snapshot.is_empty();
            let _ = db.verify();
        }
    }
    Ok(())
}

#[test]
fn options_are_checked_before_anything_else() {
    let options = DatabaseOptions::default().with_max_database_bytes(8_243);
    let error = Database::memory_with_options(options).err().unwrap();
    assert_eq!(
        error.message(),
        "max_database_bytes must be at least 8244 bytes"
    );
    assert!(Database::from_image(&[], options).is_err());
    let options = options.with_max_database_bytes(8_244);
    assert!(Database::memory_with_options(options).is_ok());
}

#[test]
fn read_transactions_see_the_database() -> Result<()> {
    let mut db = Database::memory()?;
    db.put(b"a", b"1")?;
    db.put(b"b", b"2")?;
    db.delete(b"a")?;
    let read = db.begin_read()?;
    assert_eq!(read.len()?, 1);
    assert!(!read.is_empty()?);
    assert!(read.contains_key(b"b")?);
    assert!(!read.contains_key(b"a")?);
    let mut entries = read.iter()?;
    assert_eq!(entries.size_hint(), (0, Some(2)));
    let (key, value) = entries.next().unwrap()?;
    assert_eq!((key, value), (b"b".as_slice(), b"2".as_slice()));
    assert!(entries.next().is_none());
    assert_eq!(entries.size_hint(), (0, Some(0)));
    Ok(())
}

fn view_of(db: &Database, verification: VerificationMode) -> ReadView<'_> {
    let base = db.base();
    ReadView {
        base: BaseView {
            mapping: base.mapping.as_slice(),
            verifier: &base.verifier,
            offset: base.offset,
            slots: base.slots,
        },
        overlay: &db.overlay().index,
        verification,
    }
}

#[test]
fn pairs_are_checked_where_they_lie_in_the_base() -> Result<()> {
    let mut handle = Handle::create();
    handle.put(b"key", b"value")?;
    handle.compact()?;
    let intact = handle.reopen()?;
    let mut disk = intact.disk.clone();
    disk.flip(DATA_START + BASE_HEADER as u64, 1);
    let damaged = Handle::open(disk)?;

    let view = view_of(&intact.db, VerificationMode::OnRead);
    let mapping = view.base.mapping;
    assert!(view.verify_located(Some((0, 1))).is_ok());
    assert!(view.verify_pair(&mapping[0..1], &mapping[1..2]).is_ok());

    let view = view_of(&damaged.db, VerificationMode::OnRead);
    let mapping = view.base.mapping;
    assert!(view.verify_located(None).is_ok());
    assert!(matches!(
        view.verify_located(Some((0, 1))).unwrap_err(),
        Error::Corrupted(corruption) if corruption.kind() == CorruptionKind::BlockChecksum
    ));
    assert!(view.verify_pair(&mapping[0..1], &mapping[1..2]).is_err());
    assert!(view.verify_pair(b"key", b"value").is_ok());
    let view = view_of(&damaged.db, VerificationMode::Full);
    assert!(view.verify_located(Some((0, 1))).is_ok());
    Ok(())
}

#[test]
fn room_is_had_for_nothing_more_and_never_for_too_much() {
    let mut keys: KeyMap<u32> = KeyMap::default();
    assert!(keys.try_reserve(0));
    keys.insert(b"a".to_vec(), 1);
    assert!(keys.try_reserve(0));
    assert!(!keys.try_reserve(usize::MAX));
    assert_eq!(keys.get(b"a"), Some(&1));

    let mut overlay: OverlayMap<u32> = OverlayMap::new();
    assert!(overlay.try_reserve(0));
    overlay.insert(b"a".to_vec(), 1);
    assert!(overlay.try_reserve(0));
    assert!(!overlay.try_reserve(usize::MAX));
    assert_eq!(overlay.get(b"a"), Some(&1));
}

// Reservations.

#[test]
fn reserved_values_are_empty_until_they_are_written() -> Result<()> {
    let mut db = Database::memory()?;
    let mut transaction = db.begin_write()?;
    transaction.put_reserved(b"key", 4, |reserved| {
        assert!(reserved.is_empty());
        assert_eq!(reserved.len(), 4);
        assert_eq!(reserved.written(), 0);
        assert_eq!(reserved.write(b"")?, 0);
        assert!(reserved.is_empty());
        assert_eq!(reserved.write(b"ab")?, 2);
        assert!(!reserved.is_empty());
        assert_eq!(reserved.written(), 2);
        assert_eq!(reserved.write(b"cd")?, 2);
        Ok(())
    })?;
    transaction.put_reserved(b"nothing", 0, |reserved| {
        assert!(reserved.is_empty());
        assert_eq!(reserved.len(), 0);
        Ok(())
    })?;
    transaction.commit()?;
    assert_eq!(db.get(b"key")?, Some(b"abcd".as_slice()));
    assert_eq!(db.get(b"nothing")?, Some(b"".as_slice()));
    Ok(())
}

#[test]
fn databases_open_where_memory_is_granted_and_not_where_it_is_refused() -> Result<()> {
    let granted = DatabaseOptions::default().with_room(Room::Granted);
    let refused = DatabaseOptions::default().with_room(Room::Refused);
    let mut db = Database::memory_with_options(granted)?;
    db.put(b"key", b"value")?;
    db.compact()?;
    assert_eq!(db.stats()?.generation, 2);
    assert_eq!(db.get(b"key")?, Some(b"value".as_slice()));
    assert_eq!(
        Database::memory_with_options(refused).err().unwrap().kind(),
        ErrorKind::OutOfMemory
    );
    assert_eq!(initial_image_in(Room::Granted)?, initial_image()?);
    assert_eq!(
        initial_image_in(Room::Refused).err().unwrap().message(),
        "checksum table is too large"
    );

    let mut handle = Handle::create();
    assert!(Database::from_image(&handle.disk.bytes, granted)?.is_empty()?);
    handle.put(b"key", b"value")?;
    let image = handle.disk.bytes;
    let db = Database::from_image(&image, granted)?;
    assert_eq!(db.get(b"key")?, Some(b"value".as_slice()));
    assert!(Database::from_image(&image, refused).is_err());
    Ok(())
}

#[test]
fn values_are_staged_where_memory_is_granted_and_not_where_it_is_refused() -> Result<()> {
    let image = initial_image()?;
    let refused = DatabaseOptions::default().with_room(Room::Refused);
    let mut db = Database::from_image(&image, refused)?;
    let mut transaction = db.begin_write()?;
    let large = vec![0x5a; MAPPED_VALUE_THRESHOLD];
    let error = transaction.put(b"key", &large).unwrap_err();
    assert_eq!(error.kind(), ErrorKind::OutOfMemory);
    assert_eq!(error.message(), "could not copy value bytes");
    let error = transaction
        .put_reserved(b"key", 4, |_| panic!("there is nothing to write to"))
        .unwrap_err();
    assert_eq!(error.kind(), ErrorKind::OutOfMemory);
    assert_eq!(error.message(), "could not reserve value bytes");
    assert!(transaction.is_empty());
    // A value that is not large is copied without being reserved.
    transaction.put(b"key", &large[1..])?;
    assert_eq!(transaction.len(), 1);
    transaction.abort();

    let mut db = Database::from_image(&image, DatabaseOptions::default().with_room(Room::Granted))?;
    let mut transaction = db.begin_write()?;
    transaction.put(b"key", &large)?;
    transaction.put_reserved(b"other", 4, |reserved| write_all(reserved, b"abcd"))?;
    assert_eq!(transaction.get(b"key")?, Some(large.as_slice()));
    assert_eq!(transaction.get(b"other")?, Some(b"abcd".as_slice()));
    Ok(())
}

#[test]
fn a_file_is_compacted_where_memory_is_granted() -> Result<()> {
    let options = DatabaseOptions::default().with_room(Room::Granted);
    let mut handle = Handle::open_with_options(Disk::create(), options)?;
    handle.put(b"key", b"value")?;
    let before = read_all(&handle.db)?;

    let snapshot = handle.db.snapshot()?;
    assert_eq!(handle.compact().unwrap_err().kind(), ErrorKind::WouldBlock);
    assert_eq!(read_all(&handle.db)?, before);
    drop(snapshot);

    handle.compact()?;
    let size = 24 + 24 + 16 + 4 + 24;
    assert_eq!(handle.disk.len(), DATA_START + size);
    assert_eq!(handle.disk.len(), 8_284);
    let page = SUPERBLOCK_SIZE as usize;
    assert_eq!(
        handle.disk.bytes[..page],
        handle.disk.bytes[page..2 * page]
    );
    assert_eq!(
        read_latest_from(&handle.disk.bytes, handle.disk.len())?.generation(),
        3
    );
    let stats = handle.db.stats()?;
    assert_eq!(stats.generation, 3);
    assert_eq!(stats.base_entries, before.len());
    assert_eq!(stats.base_bytes, size);
    assert_eq!(stats.overlay_entries, 0);
    assert_eq!(stats.overlay_log_bytes, 0);
    assert_eq!(stats.overlay_memory_bytes, 0);
    assert_eq!(stats.stale_bytes, 0);
    assert_eq!(stats.storage_bytes, DATA_START + size);
    assert_eq!(read_all(&handle.db)?, before);
    let handle = handle.reopen()?;
    assert_eq!(read_all(&handle.db)?, before);
    assert_eq!(handle.db.stats()?.generation, 3);
    Ok(())
}

#[test]
fn compaction_stops_where_memory_is_refused() -> Result<()> {
    let mut handle = Handle::create();
    handle.put(b"key", b"value")?;
    handle.compact()?;
    let refused = DatabaseOptions::default().with_room(Room::Refused);
    let mut handle = Handle::open_with_options(handle.disk, refused)?;
    handle.delete(b"key")?;
    let error = handle.compact().unwrap_err();
    assert_eq!(error.kind(), ErrorKind::InvalidData);
    assert_eq!(handle.db.get(b"key")?, None);
    Ok(())
}

#[test]
fn writes_to_a_reservation_are_accepted_as_a_whole_or_not_at_all() -> Result<()> {
    let mut db = Database::memory()?;
    let mut transaction = db.begin_write()?;
    transaction.put_reserved(b"key", 5, |reserved| {
        let mut accepted = Vec::new();
        for input in [b"ab".as_slice(), b"cdef", b"", b"cd", b"ef", b"e"] {
            match reserved.write(input) {
                Ok(written) => {
                    assert_eq!(written, input.len());
                    accepted.extend_from_slice(input);
                }
                Err(error) => {
                    assert_eq!(error.kind(), ErrorKind::InvalidInput);
                    assert!(accepted.len() + input.len() > reserved.len());
                }
            }
            assert_eq!(reserved.written(), accepted.len());
        }
        assert_eq!(accepted, b"abcde");
        Ok(())
    })?;
    assert_eq!(transaction.get(b"key")?, Some(b"abcde".as_slice()));
    // A function that writes nothing is fine for a value without bytes.
    transaction.put_reserved(b"empty", 0, |_| Ok(()))?;
    assert_eq!(
        transaction
            .put_reserved(b"key", 5, |_| Ok(()))
            .unwrap_err()
            .message(),
        "reserved value is incomplete: wrote 0 of 5 bytes"
    );
    assert_eq!(transaction.get(b"key")?, Some(b"abcde".as_slice()));
    Ok(())
}

#[test]
fn segments_are_searched_in_every_mode() -> Result<()> {
    let mut handle = Handle::create();
    for i in 0..40u8 {
        handle.put([i], vec![i; usize::from(i)])?;
    }
    handle.compact()?;
    let handle = handle.reopen()?;
    for mode in [VerificationMode::OnRead, VerificationMode::Full] {
        let view = view_of(&handle.db, mode);
        for i in 0..50u8 {
            let hash = xxhash_rust::xxh3::xxh3_64(&[i]);
            let found = lookup_segment(view.base, mode, &[i], hash)?;
            let value = vec![i; usize::from(i)];
            assert_eq!(found, (i < 40).then_some(value.as_slice()));
        }
    }
    Ok(())
}

#[test]
fn snapshots_of_a_damaged_database_read_as_it_does() -> Result<()> {
    let mut handle = Handle::create();
    handle.put(b"key", b"value")?;
    handle.compact()?;
    handle.put(b"other", b"overlay")?;
    let offset = record_offset(&handle.db) + 8;
    let mut disk = handle.disk;
    disk.flip(offset, 1);
    let mut handle = Handle::open(disk)?;
    let snapshot = handle.db.snapshot()?;
    for key in [b"key".as_slice(), b"other", b"missing"] {
        match (snapshot.get(key), handle.db.get(key)) {
            (Ok(first), Ok(second)) => assert_eq!(first, second),
            (Err(first), Err(second)) => assert_eq!(first.message(), second.message()),
            _ => panic!("the snapshot and the database disagree"),
        }
    }
    handle.put(b"other", b"later")?;
    assert_eq!(snapshot.get(b"other")?, Some(b"overlay".as_slice()));
    assert_eq!(handle.db.get(b"other")?, Some(b"later".as_slice()));
    Ok(())
}

#[test]
fn commits_that_fail_change_nothing_that_is_read() -> Result<()> {
    let failure = || Error::from_io(ErrorKind::StorageFull, "no space left");
    for failing in 0..3 {
        let mut handle = Handle::create();
        handle.put(b"kept", b"old")?;
        let before = read_all(&handle.db)?;
        let mut write = handle.db.begin_write()?;
        write.put(b"kept", &vec![0x6b; MAPPED_VALUE_THRESHOLD])?;
        write.put(b"new", b"value")?;
        let (db, staged, value_checksums) = write.into_parts();
        let commit = db.start_commit(staged, &value_checksums)?.unwrap();
        let record = commit.record().to_vec();
        let ended = if failing == 0 {
            db.commit_appended(commit, Err(failure())).map(|_| ())
        } else {
            let commit = db.commit_appended(commit, Ok(()))?;
            assert!(commit.needs_mapping());
            if failing == 1 {
                db.commit_mapped(commit, Err(failure())).map(|_| ())
            } else {
                let commit = db.commit_mapped(commit, Ok(record))?;
                db.commit_synced(commit, Err(failure()))
            }
        };
        assert_eq!(ended.unwrap_err().kind(), ErrorKind::StorageFull);
        assert_eq!(read_all(&handle.db)?, before);
        assert!(matches!(handle.db.begin_write(), Err(Error::Poisoned)));
    }
    let mut db = Database::memory()?;
    let before = db.stats()?;
    db.begin_write()?.commit()?;
    assert_eq!(db.stats()?, before);
    Ok(())
}

/// What a step of compaction does to a file.
enum FileStep {
    Write(u64, Vec<u8>),
    Cut(u64),
}

#[test]
fn compaction_that_is_cut_short_within_a_step_is_recovered_from() -> Result<()> {
    let mut handle = Handle::create();
    for i in 0..30u8 {
        handle.put([i], vec![i; 40])?;
    }
    handle.compact()?;
    for i in 0..30u8 {
        if i % 3 == 0 {
            handle.delete([i])?;
        } else {
            handle.put([i], vec![i ^ 0x55; 9])?;
        }
    }
    let expected = read_all(&handle.db)?;
    let marker = lkv::database::compaction::compact_marker();
    let plan = handle.db.start_compact()?.unwrap();
    let mut steps = vec![FileStep::Write(plan.rollback_offset, marker.clone())];
    let staged = handle.db.compact_marked(plan, Ok(()))?;
    steps.push(FileStep::Write(staged.offset(), staged.segment().to_vec()));
    let staged = handle.db.compact_staged(plan, staged, Ok(()))?;
    steps.push(FileStep::Write(staged.page_offset(), staged.page()));
    let relocation = handle.db.compact_published(plan, staged, Ok(()))?;
    let built = relocation.built();
    steps.push(FileStep::Write(built.offset(), built.segment().to_vec()));
    steps.push(FileStep::Write(plan.destination_end, marker));
    steps.push(FileStep::Write(built.page_offset(), built.page()));
    steps.push(FileStep::Write(built.redundant_page_offset(), built.page()));
    steps.push(FileStep::Cut(plan.destination_end));

    let mut disk = handle.disk;
    for step in &steps {
        match step {
            FileStep::Write(offset, part) => {
                for kept in [0, 1, 5, 16, 17, 30, 71, 72, 100, part.len()] {
                    let kept = kept.min(part.len());
                    let mut cut = disk.clone();
                    cut.write_at(*offset, &part[..kept]);
                    let db = Handle::open(cut)?.db;
                    db.verify()?;
                    assert_eq!(read_all(&db)?, expected);
                }
                disk.write_at(*offset, part);
            }
            FileStep::Cut(len) => {
                for more in [20, 17, 16, 1, 0] {
                    let mut cut = disk.clone();
                    cut.set_len(len + more);
                    assert_eq!(read_all(&Handle::open(cut)?.db)?, expected);
                }
                disk.set_len(*len);
            }
        }
    }
    assert_eq!(read_all(&Handle::open(disk)?.db)?, expected);
    Ok(())
}
