use lkv::ffi::{
    borrow_value, c_message, commit_write_batch, copy_value, decode_options, encode_stats,
    lkv_options, lkv_write_batch, options_init, FfiError, LKV_BUFFER_TOO_SMALL, LKV_BUSY,
    LKV_CORRUPTED, LKV_DATABASE_FULL, LKV_INVALID_ARGUMENT, LKV_IO_ERROR,
    LKV_MAINTENANCE_REQUIRED, LKV_NOT_FOUND, LKV_POISONED, LKV_UNSUPPORTED,
    LKV_VERIFICATION_FULL, LKV_VERIFICATION_ON_READ,
};
use lkv::{Database, DatabaseOptions, Error, ErrorKind, Room, VerificationMode};

fn put(database: &mut Database, key: &[u8], value: &[u8]) {
    let mut transaction = database.begin_write().unwrap();
    transaction.put(key, value).unwrap();
    transaction.commit().unwrap();
}

#[test]
fn memory_database_uses_the_same_c_api() {
    let mut database = Database::memory_with_options(decode_options(None).unwrap()).unwrap();
    put(&mut database, b"key", b"value");
    database.sync().unwrap();
    database.compact().unwrap();
    let mut len = 0;
    assert_eq!(
        borrow_value(database.get(b"key").unwrap(), &mut len).unwrap(),
        Some(b"value".as_slice())
    );
    assert_eq!(len, 5);
}

#[test]
fn zero_copy_gets_handle_missing_and_empty_values() {
    let mut database = Database::memory().unwrap();
    put(&mut database, b"empty", b"");

    let mut len = usize::MAX;
    assert_eq!(
        borrow_value(database.get(b"empty").unwrap(), &mut len).unwrap(),
        None
    );
    assert_eq!(len, 0);

    let snapshot = database.snapshot().unwrap();
    let mut len = usize::MAX;
    let error = borrow_value(snapshot.get(b"missing").unwrap(), &mut len).unwrap_err();
    assert_eq!(error.status, LKV_NOT_FOUND);
    assert_eq!(error.message, None);
    assert_eq!(len, 0);

    let mut len = usize::MAX;
    assert_eq!(
        borrow_value(snapshot.get(b"empty").unwrap(), &mut len).unwrap(),
        None
    );
    assert_eq!(len, 0);
}

#[test]
fn copying_gets_report_required_size_without_partial_output() {
    let mut database = Database::memory().unwrap();
    put(&mut database, b"key", b"value");
    put(&mut database, b"empty", b"");

    let mut short = [0xa5; 3];
    let mut len = 0;
    let found = database.get(b"key").unwrap();
    let error = copy_value(found, false, &mut short, 3, &mut len).unwrap_err();
    assert_eq!(error.status, LKV_BUFFER_TOO_SMALL);
    assert_eq!(len, 5);
    assert_eq!(short, [0xa5; 3]);

    len = 0;
    let error = copy_value(found, true, &mut [], 0, &mut len).unwrap_err();
    assert_eq!(error.status, LKV_BUFFER_TOO_SMALL);
    assert_eq!(len, 5);

    let mut value = [0; 5];
    copy_value(found, false, &mut value, 5, &mut len).unwrap();
    assert_eq!(len, value.len());
    assert_eq!(&value, b"value");

    len = usize::MAX;
    let missing = database.get(b"missing").unwrap();
    let error = copy_value(missing, true, &mut [], 0, &mut len).unwrap_err();
    assert_eq!(error.status, LKV_NOT_FOUND);
    assert_eq!(len, 0);
    let empty = database.get(b"empty").unwrap();
    copy_value(empty, true, &mut [], 0, &mut len).unwrap();
    assert_eq!(len, 0);

    let error = copy_value(found, true, &mut [], 4, &mut len).unwrap_err();
    assert_eq!(error.status, LKV_INVALID_ARGUMENT);
    assert_eq!(len, 0);

    let snapshot = database.snapshot().unwrap();
    value.fill(0);
    copy_value(snapshot.get(b"key").unwrap(), false, &mut value, 5, &mut len).unwrap();
    assert_eq!(&value, b"value");
}

#[test]
fn write_batches_commit_together() {
    let mut database = Database::memory().unwrap();
    put(&mut database, b"key", b"old");
    put(&mut database, b"gone", b"soon");
    let mut batch = lkv_write_batch::new();
    batch.put(b"key", b"new");
    batch.put(b"two", b"value");
    batch.delete(b"gone");
    assert_eq!(batch.len(), 3);
    commit_write_batch(&mut database, &mut batch).unwrap();
    assert_eq!(batch.len(), 0);
    assert_eq!(database.len().unwrap(), 2);
    assert_eq!(database.get(b"key").unwrap(), Some(b"new".as_slice()));
    let stats = encode_stats(database.stats().unwrap());
    assert_eq!(stats.base_entries, 0);
    assert_eq!(stats.overlay_entries, 3);
    assert!(stats.overlay_log_bytes > 0);

    // The last mutation of a key counts, and a batch that fails is kept.
    batch.delete(b"two");
    batch.put(b"two", b"again");
    batch.clear();
    assert_eq!(batch.len(), 0);
    batch.put(&vec![0; (1 << 20) + 1], b"");
    let error = commit_write_batch(&mut database, &mut batch).unwrap_err();
    assert_eq!(error.status, LKV_INVALID_ARGUMENT);
    assert_eq!(batch.len(), 1);
    assert_eq!(database.get(b"two").unwrap(), Some(b"value".as_slice()));
}

#[test]
fn options_cross_the_interface() {
    let mut options = options_init();
    assert_eq!(options.verification, LKV_VERIFICATION_ON_READ);
    assert_eq!(decode_options(Some(options)).unwrap(), DatabaseOptions::default());
    options.verification = LKV_VERIFICATION_FULL;
    options.max_database_bytes = 9_000;
    options.overlay_memory_limit = 12;
    assert_eq!(
        decode_options(Some(options)).unwrap(),
        DatabaseOptions {
            verification: VerificationMode::Full,
            max_database_bytes: 9_000,
            overlay_memory_limit: 12,
            room: Room::Ask,
        }
    );
    let error = decode_options(Some(lkv_options {
        verification: 99,
        ..options
    }))
    .unwrap_err();
    assert_eq!(error.status, LKV_INVALID_ARGUMENT);
    assert_eq!(error.message.as_deref(), Some("unknown verification mode 99"));
}

#[test]
fn errors_cross_the_interface() {
    for (error, status) in [
        (Error::from_io(ErrorKind::InvalidData, "m"), LKV_CORRUPTED),
        (Error::from_io(ErrorKind::WouldBlock, "m"), LKV_BUSY),
        (Error::from_io(ErrorKind::Unsupported, "m"), LKV_UNSUPPORTED),
        (Error::from_io(ErrorKind::InvalidInput, "m"), LKV_INVALID_ARGUMENT),
        (Error::from_io(ErrorKind::NotFound, "m"), LKV_IO_ERROR),
    ] {
        let converted = FfiError::from_error(&error);
        assert_eq!(converted.status, status);
        assert_eq!(converted.message.as_deref(), Some("m"));
    }
    assert_eq!(
        FfiError::from_error(&Error::database_full(1, 2)).status,
        LKV_DATABASE_FULL
    );
    assert_eq!(
        FfiError::from_error(&Error::MaintenanceRequired { limit: 1, actual: 2 }).status,
        LKV_MAINTENANCE_REQUIRED
    );
    assert_eq!(FfiError::from_error(&Error::Poisoned).status, LKV_POISONED);
    assert_eq!(
        FfiError::null_argument("path").message.as_deref(),
        Some("path must not be NULL")
    );
    assert_eq!(
        FfiError::null_bytes("key").message.as_deref(),
        Some("key must not be NULL when its length is non-zero")
    );
}

#[test]
fn messages_become_c_strings() {
    assert_eq!(c_message(b"plain"), b"plain\0");
    assert_eq!(c_message(b"a\0b"), b"a\\0b\0");
    assert_eq!(c_message(b""), b"\0");
}
