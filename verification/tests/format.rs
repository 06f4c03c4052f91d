use lkv::database::blocks::{Progress, SegmentBlocks};
use lkv::database::overlay_map::OverlayMap;
use lkv::database::recovery::{scan_overlay, scan_overlay_in};
use lkv::database::state::{OverlayEntry, ValueBytes};
use lkv::database::storage::{MemoryStorage, SeekFrom, Storage};
use lkv::error::Corruption;
use lkv::format::buffer::{write_base_at, write_base_with_metadata_at, OffsetBuffer};
use lkv::format::log::{
    batch_payload_len, record_checksum, write_batch_record, write_batch_record_with_checksums,
    write_compact_marker, write_record_header, Marker, LOG_HEADER_SIZE,
};
use lkv::format::power::{checked_next_power_of_two, is_power_of_two};
use lkv::format::segment::{
    check_lengths, count_blocks, measure_base_iter, read_base_header, record_at, records_start,
    segment_layout, segment_metadata_checksum, trusted_record_at, verify_segment_blocks,
    BASE_HEADER, MAX_KEY_SIZE,
};
use lkv::format::superblock::{
    encode_page, page_offset_of, read_latest_from, redundant_page_offset_of, Superblock,
    DATA_START, HEADER_SIZE, SUPERBLOCK_SIZE,
};
use lkv::format::validate::{validate_base, validate_base_in};
use lkv::format::writer::{build_base, build_base_in};
use lkv::format::{u32_at, u64_at};
use lkv::key_map::KeyMap;
use lkv::text::append_decimal;
use lkv::{CorruptionKind, Error, ErrorKind, Room};
use std::sync::Arc;

#[test]
fn record_header_bytes_are_stable() {
    let payload = 0u32.to_le_bytes();
    let record_checksum = record_checksum(Marker::Batch, 0, payload.len() as u32, &payload);
    let mut header = Vec::new();
    write_record_header(
        &mut header,
        Marker::Batch,
        0,
        payload.len() as u32,
        record_checksum,
    );
    assert_eq!(
        header,
        [
            0x04, 0x00, 0x00, 0x00, 0x00, 0x04, 0x00, 0x00, 0x00, 0x1d, 0xc6, 0x0e, 0x5e, 0x7e,
            0x79, 0x3c, 0x73,
        ]
    );
}

#[test]
fn cached_value_checksum_preserves_batch_bytes() {
    let value = b"a value large enough to exercise checksum combination";
    let mut staged = KeyMap::default();
    staged.insert(
        b"key".to_vec(),
        OverlayEntry::Put(ValueBytes::Owned(value.to_vec())),
    );
    let mut checksums = KeyMap::default();
    checksums.insert(b"key".to_vec(), crc32c::crc32c(value));
    let mut cached_bytes = Vec::new();
    let mut uncached_bytes = Vec::new();
    write_batch_record_with_checksums(&mut cached_bytes, &staged, &checksums).unwrap();
    write_batch_record(&mut uncached_bytes, &staged).unwrap();
    assert_eq!(cached_bytes, uncached_bytes);
}

#[test]
fn superblock_header_bytes_are_stable() {
    let page = encode_page(Superblock::new(1, 8192, 64, 8, 2, 8256, 7));
    assert_eq!(
        &page[..HEADER_SIZE],
        &[
            0x4c, 0x4b, 0x56, 0x00, 0x00, 0x00, 0x00, 0x00, 0x01, 0x00, 0x00, 0x00, 0x48, 0x00,
            0x00, 0x00, 0x01, 0x00, 0x00, 0x00, 0x00, 0x00, 0x00, 0x00, 0x00, 0x20, 0x00, 0x00,
            0x00, 0x00, 0x00, 0x00, 0x40, 0x00, 0x00, 0x00, 0x00, 0x00, 0x00, 0x00, 0x08, 0x00,
            0x00, 0x00, 0x00, 0x00, 0x00, 0x00, 0x02, 0x00, 0x00, 0x00, 0x00, 0x00, 0x00, 0x00,
            0x40, 0x20, 0x00, 0x00, 0x00, 0x00, 0x00, 0x00, 0x07, 0x00, 0x00, 0x00, 0x7c, 0x03,
            0xc6, 0x1f,
        ]
    );
    assert!(page[HEADER_SIZE..].iter().all(|byte| *byte == 0));
}

#[test]
fn numbers_are_read_little_endian() {
    let bytes = [0, 1, 2, 3, 4, 5, 6, 7, 8];
    assert_eq!(u32_at(&bytes, 1), 0x0403_0201);
    assert_eq!(u64_at(&bytes, 1), 0x0807_0605_0403_0201);
    let mut text = String::from("n=");
    append_decimal(&mut text, 10_250);
    assert_eq!(text, "n=10250");
}

#[test]
fn checksums_and_hashes_have_their_known_values() {
    let mut covered = vec![4, 0, 0, 0, 0, 9, 0, 0, 0];
    covered.extend_from_slice(b"123456789");
    assert_eq!(
        record_checksum(Marker::Batch, 0, 9, b"123456789"),
        crc32c::crc32c(&covered)
    );
    let entries: [(&[u8], &[u8]); 1] = [(b"key", b"value")];
    let (bytes, written) = build_base(DATA_START, 1, &entries).unwrap();
    assert_eq!(written.slots, 2);
    let hash = xxhash_rust::xxh3::xxh3_64(b"key");
    let slot = 24 + 12 * (hash % 2) as usize;
    assert_eq!(u32_at(&bytes, slot), (hash >> 32) as u32);
    assert_eq!(u64_at(&bytes, slot + 4), DATA_START + 24 + 24);
    let data_len = 24 + 24 + 8 + 3 + 5;
    assert_eq!(u32_at(&bytes, data_len), crc32c::crc32c(&bytes[..data_len]));
}

#[test]
fn powers_of_two() {
    assert!(is_power_of_two(1));
    assert!(is_power_of_two(1 << 40));
    assert!(!is_power_of_two(0));
    assert!(!is_power_of_two(12));
    assert_eq!(checked_next_power_of_two(0), Some(1));
    assert_eq!(checked_next_power_of_two(5), Some(8));
    assert_eq!(checked_next_power_of_two(8), Some(8));
    assert_eq!(checked_next_power_of_two(usize::MAX), None);
}

#[test]
fn markers_have_their_bytes() {
    for (byte, marker) in [
        (1, Marker::Put),
        (2, Marker::Delete),
        (3, Marker::Compact),
        (4, Marker::Batch),
    ] {
        assert_eq!(marker.to_byte(), byte);
        assert_eq!(Marker::from_byte(byte), Some(marker));
    }
    assert_eq!(Marker::from_byte(0), None);
    assert_eq!(Marker::from_byte(5), None);
    let mut marker = Vec::new();
    write_compact_marker(&mut marker);
    assert_eq!(marker.len(), LOG_HEADER_SIZE);
    assert_eq!(marker[0], 3);
}

#[test]
fn superblock_pages_alternate_and_the_highest_generation_wins() {
    assert_eq!(page_offset_of(2), 0);
    assert_eq!(page_offset_of(3), SUPERBLOCK_SIZE);
    assert_eq!(redundant_page_offset_of(2), SUPERBLOCK_SIZE);
    let old = Superblock::new(6, DATA_START, 64, 8, 2, DATA_START + 64, 7);
    let new = Superblock::new(7, DATA_START + 64, 64, 8, 2, DATA_START + 128, 9);
    let mut file = encode_page(old);
    file.extend_from_slice(&encode_page(new));
    file.resize(DATA_START as usize + 128, 0);
    let len = file.len() as u64;
    let latest = read_latest_from(&file, len).unwrap();
    assert_eq!(latest.generation(), 7);
    assert_eq!(latest.base_offset(), DATA_START + 64);
    assert_eq!(latest.base_size(), 64);
    assert_eq!(latest.base_slots(), 8);
    assert_eq!(latest.base_len(), 2);
    assert_eq!(latest.log_start(), DATA_START + 128);
    assert_eq!(latest.base_checksum(), 9);

    let mut torn = file.clone();
    torn[SUPERBLOCK_SIZE as usize + 20] ^= 1;
    assert_eq!(read_latest_from(&torn, len).unwrap().generation(), 6);

    // The newer one describes a range that a shorter file does not have.
    file.truncate(DATA_START as usize + 64);
    assert_eq!(read_latest_from(&file, len - 64).unwrap().generation(), 6);

    torn[20] ^= 1;
    let error = read_latest_from(&torn, len).unwrap_err();
    assert_eq!(error.message(), "no valid superblock");
}

fn three_entries() -> Vec<(Vec<u8>, Vec<u8>)> {
    vec![
        (b"one".to_vec(), b"1".to_vec()),
        (b"two".to_vec(), b"22".to_vec()),
        (b"".to_vec(), b"empty key".to_vec()),
    ]
}

#[test]
fn a_base_is_measured_built_and_validated() {
    let owned = three_entries();
    let entries: Vec<(&[u8], &[u8])> = owned
        .iter()
        .map(|(key, value)| (key.as_slice(), value.as_slice()))
        .collect();
    // 24 bytes of header, 4 slots of 12 bytes, three records, one checksum, 24 bytes of footer.
    let size = 24 + 48 + (8 + 4) + (8 + 5) + (8 + 9) + 4 + 24;
    assert_eq!(measure_base_iter(&entries).unwrap(), (3, size));

    let (bytes, written) = build_base(DATA_START, 3, &entries).unwrap();
    assert_eq!(bytes.len() as u64, size);
    assert_eq!(written.size, size);
    assert_eq!(written.slots, 4);
    assert_eq!(written.len, 3);
    assert_eq!(
        written.metadata_checksum,
        segment_metadata_checksum(&bytes).unwrap()
    );

    let layout = segment_layout(&bytes).unwrap();
    assert_eq!(layout.data().len() as u64, size - 28);
    assert_eq!(layout.checksums().len(), 4);
    verify_segment_blocks(&layout, DATA_START).unwrap();
    let (slots, len) = read_base_header(layout.data()).unwrap();
    assert_eq!((slots, len), (4, 3));
    validate_base(layout.data(), DATA_START, slots, len).unwrap();
    let start = records_start(slots, layout.data().len()).unwrap();
    assert_eq!(start, BASE_HEADER + 48);
    let (key, value, end) = record_at(layout.data(), start, layout.data().len()).unwrap();
    assert_eq!((key, value), (b"one".as_slice(), b"1".as_slice()));
    let (key, value, _) = trusted_record_at(layout.data(), end);
    assert_eq!((key, value), (b"two".as_slice(), b"22".as_slice()));

    let mut file = OffsetBuffer::new(DATA_START, size).unwrap();
    assert_eq!(write_base_at(&mut file, DATA_START, 3, &entries).unwrap(), size);
    assert_eq!(file.into_inner(), bytes);
    let mut file = OffsetBuffer::new(DATA_START - 2, size).unwrap();
    let written = write_base_with_metadata_at(&mut file, DATA_START, 3, &entries).unwrap();
    assert_eq!(written.size, size);
    let shifted = file.into_inner();
    assert_eq!(&shifted[..2], &[0, 0]);
    assert_eq!(&shifted[2..], bytes.as_slice());
}

#[test]
fn damage_to_a_base_is_located() {
    let owned = three_entries();
    let entries: Vec<(&[u8], &[u8])> = owned
        .iter()
        .map(|(key, value)| (key.as_slice(), value.as_slice()))
        .collect();
    let (bytes, _) = build_base(DATA_START, 3, &entries).unwrap();

    let mut damaged = bytes.clone();
    damaged[80] ^= 1;
    let layout = segment_layout(&damaged).unwrap();
    match verify_segment_blocks(&layout, DATA_START).unwrap_err() {
        Error::Corrupted(corruption) => {
            assert_eq!(corruption.kind(), CorruptionKind::BlockChecksum);
            assert_eq!(corruption.segment_offset(), Some(DATA_START));
            assert_eq!(corruption.block_index(), Some(0));
            assert_eq!(
                corruption.message(),
                "block checksum mismatch at segment offset 8192 block 0"
            );
        }
        other => panic!("unexpected error: {other:?}"),
    }

    let mut damaged = bytes.clone();
    let table = bytes.len() - 28;
    damaged[table] ^= 1;
    match segment_layout(&damaged).err().unwrap() {
        Error::Corrupted(corruption) => {
            assert_eq!(corruption.kind(), CorruptionKind::MetadataChecksum);
        }
        other => panic!("unexpected error: {other:?}"),
    }

    let mut short = bytes.clone();
    short.truncate(40);
    assert_eq!(
        segment_layout(&short).err().unwrap().kind(),
        ErrorKind::InvalidData
    );
    // A Base that stands elsewhere has slots that point elsewhere.
    let layout = segment_layout(&bytes).unwrap();
    assert!(validate_base(layout.data(), DATA_START + 8, 4, 3).is_err());
}

#[test]
fn entries_beyond_the_limits_are_refused() {
    let key = vec![0u8; MAX_KEY_SIZE + 1];
    assert_eq!(
        check_lengths(&key, b"").unwrap_err().kind(),
        ErrorKind::InvalidInput
    );
    check_lengths(&key[1..], b"").unwrap();
    let entries: [(&[u8], &[u8]); 1] = [(&key, b"")];
    assert!(build_base(DATA_START, 1, &entries).is_err());
    let entries: [(&[u8], &[u8]); 1] = [(b"key", b"")];
    assert_eq!(
        build_base(DATA_START, 2, &entries).err().unwrap().message(),
        "entry count changed while writing base"
    );
}

#[test]
fn blocks_are_counted() {
    assert_eq!(count_blocks(0), 0);
    assert_eq!(count_blocks(1), 1);
    assert_eq!(count_blocks(65_536), 1);
    assert_eq!(count_blocks(65_537), 2);
}

#[test]
fn batch_payloads_are_measured() {
    let mut staged = KeyMap::default();
    assert_eq!(batch_payload_len(&staged).unwrap(), 4);
    staged.insert(
        b"key".to_vec(),
        OverlayEntry::Put(ValueBytes::Owned(b"value".to_vec())),
    );
    staged.insert(b"gone".to_vec(), OverlayEntry::Delete);
    assert_eq!(batch_payload_len(&staged).unwrap(), 4 + (9 + 8) + (9 + 4));
    let mut record = Vec::new();
    write_batch_record(&mut record, &staged).unwrap();
    assert_eq!(record.len(), LOG_HEADER_SIZE + 34);

    let scan = scan_overlay(&record, 0, record.len() as u64).unwrap();
    assert_eq!(scan.valid_len(), record.len() as u64);
    let mut damaged = record.clone();
    let last = damaged.len() - 1;
    damaged[last] ^= 1;
    match scan_overlay(&damaged, 0, damaged.len() as u64).err().unwrap() {
        Error::Corrupted(corruption) => {
            assert_eq!(corruption.kind(), CorruptionKind::LogChecksum);
            assert_eq!(corruption.segment_offset(), Some(0));
            assert_eq!(corruption.message(), "overlay checksum mismatch at offset 0");
        }
        other => panic!("unexpected error: {other:?}"),
    }
    damaged[1] ^= 1;
    assert_eq!(
        scan_overlay(&damaged, 0, damaged.len() as u64)
            .err()
            .unwrap()
            .message(),
        "overlay header checksum mismatch at offset 0"
    );
    assert_eq!(
        scan_overlay(&record, 2, 1).err().unwrap().message(),
        "invalid base: overlay range precedes active Base"
    );
}

#[test]
fn positions_before_a_buffer_are_refused() {
    let mut file = OffsetBuffer::new(100, 4).unwrap();
    assert_eq!(
        file.seek(SeekFrom::Start(99)).unwrap_err().message(),
        "Base seek precedes its origin"
    );
    assert_eq!(file.seek(SeekFrom::Start(102)).unwrap(), 102);
    file.write(b"ab");
    file.seek(SeekFrom::Start(101)).unwrap();
    file.write(b"xy");
    assert_eq!(file.into_inner(), [0, b'x', b'y', b'b']);
}

#[test]
fn buffers_are_read_and_moved_through() {
    let mut file = OffsetBuffer::new(100, 4).unwrap();
    file.write(b"abcd");
    assert_eq!(file.seek(SeekFrom::End(-2)).unwrap(), 102);
    let mut buffer = [b'.'; 3];
    assert_eq!(file.read(&mut buffer), 2);
    assert_eq!(&buffer, b"cd.");
    assert_eq!(file.read(&mut buffer), 0);
    assert_eq!(file.seek(SeekFrom::Current(-4)).unwrap(), 100);
    assert_eq!(file.read(&mut buffer), 3);
    assert_eq!(&buffer, b"abc");
    assert_eq!(
        file.seek(SeekFrom::Current(-4)).unwrap_err().message(),
        "invalid seek to a negative or overflowing position"
    );
    assert_eq!(file.seek(SeekFrom::Current(0)).unwrap(), 103);

    let mut last = OffsetBuffer::new(u64::MAX, 0).unwrap();
    assert_eq!(
        last.seek(SeekFrom::End(1)).unwrap_err().message(),
        "Base position overflow"
    );
}

#[test]
fn key_maps_keep_one_entry_for_a_key() {
    let mut map = KeyMap::default();
    assert!(map.is_empty());
    assert_eq!(map.insert(b"a".to_vec(), 1), None);
    assert_eq!(map.insert(b"b".to_vec(), 2), None);
    assert_eq!(map.insert(b"a".to_vec(), 3), Some(1));
    assert_eq!(map.len(), 2);
    assert_eq!(map.get(b"a"), Some(&3));
    assert!(map.contains_key(b"b"));
    assert!(map.try_reserve(10));
    assert_eq!(map.remove(b"a"), Some(3));
    assert_eq!(map.remove(b"a"), None);
    assert_eq!(map.get(b"b"), Some(&2));
    assert_eq!(map.entry_at(0), (b"b".as_slice(), &2));
    assert_eq!(map.into_entries(), vec![(b"b".to_vec(), 2)]);
}

#[test]
fn overlay_maps_keep_one_entry_for_a_key() {
    let mut map = OverlayMap::default();
    for i in 0..500u32 {
        map.insert(i.to_le_bytes().to_vec(), i);
    }
    for i in 0..500u32 {
        map.insert(i.to_le_bytes().to_vec(), i + 1);
    }
    assert_eq!(map.len(), 500);
    for i in (0..500u32).step_by(3) {
        assert_eq!(map.remove(&i.to_le_bytes()), Some(i + 1));
    }
    let copy = map.clone();
    for i in 0..500u32 {
        let expected = if i % 3 == 0 { None } else { Some(i + 1) };
        assert_eq!(map.get(&i.to_le_bytes()).copied(), expected);
        assert_eq!(copy.get(&i.to_le_bytes()).copied(), expected);
        assert_eq!(map.contains_key(&i.to_le_bytes()), expected.is_some());
    }
    assert_eq!(map.remove(b"missing"), None);
    assert!(!map.is_empty());
}

#[test]
fn memory_storage_reads_back_what_was_written() {
    let mut storage = MemoryStorage::default();
    storage.set_len(DATA_START).unwrap();
    storage.seek(SeekFrom::Start(DATA_START)).unwrap();
    storage.write(b"base bytes").unwrap();
    assert_eq!(storage.len(), DATA_START + 10);
    assert_eq!(storage.read_at(DATA_START + 5, 5).unwrap(), b"bytes");
    let base = storage.load_immutable(DATA_START, 10).unwrap();
    assert_eq!(base.as_slice(), b"base bytes");
    assert!(storage.set_len(DATA_START + 3).is_err());
    storage.seek(SeekFrom::Start(DATA_START + 2)).unwrap();
    assert!(storage.write(b"over the Base").is_err());
    storage.seek(SeekFrom::End(0)).unwrap();
    storage.write(b"log").unwrap();
    storage.extend_log(4).unwrap();
    assert_eq!(storage.read_at(DATA_START + 10, 7).unwrap(), b"log\0\0\0\0");
    storage
        .replace_base(DATA_START, Arc::new(b"new".to_vec()))
        .unwrap();
    assert_eq!(storage.len(), DATA_START + 3);
    assert_eq!(storage.read_at(DATA_START, 3).unwrap(), b"new");
    assert!(storage.replace_base(1, Arc::new(vec![1])).is_err());
    assert!(Storage::memory().is_memory());
    assert_eq!(Storage::memory().memory_materialized_bytes(), Some(0));
}

#[test]
fn errors_have_their_kinds_and_messages() {
    let corruption = |error: Error| -> Corruption {
        match error {
            Error::Corrupted(corruption) => corruption,
            other => panic!("unexpected error: {other:?}"),
        }
    };
    assert_eq!(
        corruption(Error::from_io(ErrorKind::InvalidData, "bad")).kind(),
        CorruptionKind::Structure
    );
    assert!(matches!(
        Error::from_io(ErrorKind::WouldBlock, "busy"),
        Error::DatabaseAlreadyOpen(_)
    ));
    assert!(matches!(
        Error::from_io(ErrorKind::Unsupported, "new"),
        Error::Unsupported(_)
    ));
    assert!(matches!(
        Error::from_io(ErrorKind::InvalidInput, "long"),
        Error::InvalidArgument(_)
    ));
    let io = Error::from_io(ErrorKind::NotFound, "gone");
    assert!(matches!(io, Error::Io(_)));
    assert_eq!(io.kind(), ErrorKind::NotFound);
    assert_eq!(io.message(), "gone");
    assert_eq!(
        Error::database_full(10, 25).message(),
        "database size limit of 10 bytes would be exceeded (requires 25 bytes)"
    );
    assert_eq!(
        Error::MaintenanceRequired { limit: 3, actual: 4 }.message(),
        "overlay memory usage of 4 bytes exceeds the 3 byte limit; compact or vacuum before writing"
    );
    assert_eq!(Error::Poisoned.kind(), ErrorKind::Other);
    assert_eq!(
        corruption(Error::corrupted_metadata("table")).kind(),
        CorruptionKind::MetadataChecksum
    );
    assert_eq!(
        corruption(Error::corrupted_log(7, "at ")).message(),
        "at 7"
    );
}

#[test]
fn reservations_are_answered() {
    for room in [Room::Ask, Room::Granted, Room::Refused] {
        assert_eq!(room.answer(0), Some(true));
    }
    assert_eq!(Room::default(), Room::Ask);
    assert_eq!(Room::Ask.answer(1), None);
    assert_eq!(Room::Granted.answer(1), Some(true));
    assert_eq!(Room::Refused.answer(1), Some(false));

    let mut bytes = b"ab".to_vec();
    assert!(!Room::Ask.reserve_bytes(&mut bytes, usize::MAX));
    assert!(!Room::Refused.reserve_bytes(&mut bytes, 1));
    assert!(Room::Granted.reserve_bytes(&mut bytes, 1));
    assert!(Room::Refused.reserve_bytes(&mut bytes, 0));
    assert_eq!(bytes, b"ab");
    let mut keys: KeyMap<u32> = KeyMap::default();
    assert!(!Room::Ask.reserve_keys(&mut keys, usize::MAX));
    assert!(Room::Granted.reserve_keys(&mut keys, 8));
    assert!(!Room::Refused.reserve_keys(&mut keys, 8));
    let mut overlay: OverlayMap<u32> = OverlayMap::new();
    assert!(!Room::Ask.reserve_overlay(&mut overlay, usize::MAX));
    assert!(Room::Granted.reserve_overlay(&mut overlay, 8));
    assert!(!Room::Refused.reserve_overlay(&mut overlay, 8));
}

#[test]
fn a_base_is_built_and_validated_where_memory_is_granted() {
    let owned = three_entries();
    let entries: Vec<(&[u8], &[u8])> = owned
        .iter()
        .map(|(key, value)| (key.as_slice(), value.as_slice()))
        .collect();
    let (bytes, _) = build_base_in(Room::Granted, DATA_START, 3, &entries).unwrap();
    assert_eq!(bytes, build_base(DATA_START, 3, &entries).unwrap().0);
    assert!(build_base_in(Room::Refused, DATA_START, 3, &entries).is_err());

    let layout = segment_layout(&bytes).unwrap();
    let data = layout.data();
    validate_base_in(Room::Granted, data, DATA_START, 4, 3).unwrap();
    assert_eq!(
        validate_base_in(Room::Refused, data, DATA_START, 4, 3)
            .unwrap_err()
            .message(),
        "invalid base: record verification allocation failed"
    );
    // Nothing is reserved to find that nothing is there.
    let (empty, _) = build_base_in(Room::Granted, DATA_START, 0, &[]).unwrap();
    let layout = segment_layout(&empty).unwrap();
    let (slots, len) = read_base_header(layout.data()).unwrap();
    validate_base_in(Room::Refused, layout.data(), DATA_START, slots, len).unwrap();
}

#[test]
fn validation_finds_what_is_wrong_with_an_index() {
    let owned = three_entries();
    let entries: Vec<(&[u8], &[u8])> = owned
        .iter()
        .map(|(key, value)| (key.as_slice(), value.as_slice()))
        .collect();
    let (bytes, _) = build_base(DATA_START, 3, &entries).unwrap();
    let data = segment_layout(&bytes).unwrap().data().to_vec();
    let valid = |data: &[u8]| validate_base_in(Room::Granted, data, DATA_START, 4, 3).is_ok();
    assert!(valid(&data));
    let slot = |i: usize| BASE_HEADER + 12 * i..BASE_HEADER + 12 * (i + 1);
    let used: Vec<usize> = (0..4)
        .filter(|i| data[slot(*i)].iter().any(|byte| *byte != 0))
        .collect();
    assert_eq!(used.len(), 3);
    let free = (0..4).find(|i| !used.contains(i)).unwrap();

    // A slot that refers to no record.
    let mut damaged = data.clone();
    damaged[slot(used[0]).start + 4] ^= 1;
    assert!(!valid(&damaged));
    // A slot with another fingerprint.
    let mut damaged = data.clone();
    damaged[slot(used[0]).start] ^= 1;
    assert!(!valid(&damaged));
    // Two slots that refer to one record.
    let mut damaged = data.clone();
    damaged.copy_within(slot(used[0]), slot(free).start);
    assert!(!valid(&damaged));
    // A record without a slot.
    let mut damaged = data.clone();
    damaged[slot(used[0])].fill(0);
    assert!(!valid(&damaged));
    // A slot that is somewhere else.
    let mut moved = data.clone();
    moved.copy_within(slot(used[0]), slot(free).start);
    moved[slot(used[0])].fill(0);
    assert!(valid(&moved));
    // A byte behind the records.
    let mut damaged = data.clone();
    damaged.push(0);
    assert!(!valid(&damaged));
    // One record for two entries.
    assert!(validate_base_in(Room::Granted, &data, DATA_START, 4, 2).is_err());
}

#[test]
fn an_empty_batch_is_recovered_without_memory() {
    let mut record = Vec::new();
    let payload = 0u32.to_le_bytes();
    let checksum = record_checksum(Marker::Batch, 0, 4, &payload);
    write_record_header(&mut record, Marker::Batch, 0, 4, checksum);
    record.extend_from_slice(&payload);
    assert_eq!(
        record,
        [
            4, 0, 0, 0, 0, 4, 0, 0, 0, 0x1d, 0xc6, 0x0e, 0x5e, 0x7e, 0x79, 0x3c, 0x73, 0, 0, 0, 0
        ]
    );
    let mut log = record.clone();
    log.extend_from_slice(&record[..20]);
    for room in [Room::Ask, Room::Granted, Room::Refused] {
        let scan = scan_overlay_in(room, &log, 0, 41).unwrap();
        assert_eq!(scan.valid_len(), 21);
        let index = scan.into_index_in(room, None, 0).unwrap();
        assert!(index.is_empty());
    }
    assert_eq!(scan_overlay(&log, 41, 41).unwrap().valid_len(), 41);
}

#[test]
fn a_log_is_recovered_where_memory_is_granted() {
    let mut staged = KeyMap::default();
    staged.insert(
        b"key".to_vec(),
        OverlayEntry::Put(ValueBytes::Owned(b"value".to_vec())),
    );
    let mut record = Vec::new();
    write_batch_record(&mut record, &staged).unwrap();
    let end = record.len() as u64;
    assert_eq!(
        scan_overlay_in(Room::Granted, &record, 0, end).unwrap().valid_len(),
        end
    );
    assert_eq!(
        scan_overlay_in(Room::Refused, &record, 0, end)
            .err()
            .unwrap()
            .kind(),
        ErrorKind::InvalidData
    );
    // A log that is said to go on behind the file.
    assert_eq!(
        scan_overlay(&record, 0, end + 30).unwrap().valid_len(),
        end
    );
    let cut = &record[..record.len() - 2];
    assert_eq!(
        scan_overlay(cut, 0, end).err().unwrap().kind(),
        ErrorKind::UnexpectedEof
    );
    assert_eq!(scan_overlay(cut, 0, end - 2).unwrap().valid_len(), 0);
}

#[test]
fn a_base_before_its_buffer_is_refused() {
    let entries: [(&[u8], &[u8]); 1] = [(b"key", b"value")];
    let mut file = OffsetBuffer::new(DATA_START, 92).unwrap();
    file.write(b"kept");
    let error = write_base_at(&mut file, DATA_START - 1, 1, &entries).unwrap_err();
    assert_eq!(error.message(), "Base seek precedes its origin");
    // The records come first, and lie within the buffer.
    let mut left = b"kept".to_vec();
    left.resize(24 + 2 * 12 - 1, 0);
    left.extend_from_slice(b"\x03\0\0\0\x05\0\0\0keyvalue");
    assert_eq!(file.into_inner(), left);

    let mut file = OffsetBuffer::new(DATA_START, 92).unwrap();
    file.write(b"kept");
    let error = write_base_at(&mut file, DATA_START - 49, 1, &entries).unwrap_err();
    assert_eq!(error.message(), "Base seek precedes its origin");
    assert_eq!(file.seek(SeekFrom::Current(0)).unwrap(), DATA_START + 4);
    assert_eq!(file.into_inner(), b"kept");
    assert_eq!(
        OffsetBuffer::new_in(Room::Refused, DATA_START, 1)
            .err()
            .unwrap()
            .message(),
        "could not reserve Base bytes"
    );
    assert!(OffsetBuffer::new_in(Room::Refused, DATA_START, 0).is_ok());
    assert!(OffsetBuffer::new_in(Room::Granted, DATA_START, 1).is_ok());
}

#[test]
fn a_log_that_is_not_stored_is_no_part_of_the_base() {
    let mut storage = MemoryStorage::default();
    storage.set_len(DATA_START).unwrap();
    storage.seek(SeekFrom::Start(DATA_START)).unwrap();
    storage.write(b"base").unwrap();
    storage.extend_log(3).unwrap();
    assert_eq!(storage.len(), DATA_START + 7);
    let base = storage.load_immutable(DATA_START, 7).unwrap();
    assert_eq!(base.as_slice(), b"base");
    assert_eq!(storage.len(), DATA_START + 7);
    assert_eq!(storage.read_at(DATA_START, 7).unwrap(), b"base\0\0\0");
}

#[test]
fn storage_grows_where_memory_is_granted() {
    let mut storage = MemoryStorage::new_in(Room::Granted);
    storage.set_len(DATA_START + 4).unwrap();
    assert_eq!(storage.read_at(DATA_START, 4).unwrap(), [0; 4]);
    let mut storage = MemoryStorage::new_in(Room::Refused);
    storage.set_len(0).unwrap();
    assert_eq!(
        storage.set_len(1).unwrap_err().message(),
        "could not grow memory storage"
    );
    assert_eq!(
        storage.write(b"x").unwrap_err().message(),
        "could not grow memory storage"
    );
    assert_eq!(storage.write(b"").unwrap(), 0);
    assert_eq!(storage.len(), 0);
}

#[test]
fn blocks_are_verified_once() {
    let value = vec![7u8; 70_000];
    let entries: [(&[u8], &[u8]); 1] = [(b"key", &value)];
    let (bytes, _) = build_base(DATA_START, 1, &entries).unwrap();
    let layout = segment_layout(&bytes).unwrap();
    let blocks = SegmentBlocks::new(DATA_START, &layout);
    let data_len = layout.data().len();

    let mut progress = Progress::new(2, false);
    assert!(!progress.is_fully_verified());
    assert!(!progress.is_semantically_verified());
    assert!(!progress.is_block_verified(0));
    assert_eq!(
        progress.verify_range(&blocks, &bytes, 2, 1).unwrap_err().message(),
        "invalid base: read range lies outside segment"
    );
    assert_eq!(
        progress
            .verify_range(&blocks, &bytes, 0, data_len + 1)
            .unwrap_err()
            .message(),
        "invalid base: read range lies outside segment data"
    );
    progress.verify_range(&blocks, &bytes, 70_000, 70_000).unwrap();
    assert!(!progress.is_block_verified(1));
    progress.verify_range(&blocks, &bytes, 65_536, data_len).unwrap();
    assert!(!progress.is_block_verified(0));
    assert!(progress.is_block_verified(1));
    assert!(!progress.is_fully_verified());
    progress.verify_range(&blocks, &bytes, 65_535, 65_537).unwrap();
    assert!(progress.is_block_verified(0));
    assert!(progress.is_fully_verified());
    assert!(!progress.is_semantically_verified());
    progress.verify_range(&blocks, &bytes, 2, 1).unwrap();
    progress.mark_structure();
    assert!(progress.is_semantically_verified());

    let mut damaged = bytes.clone();
    damaged[100] ^= 1;
    let layout = segment_layout(&damaged).unwrap();
    let blocks = SegmentBlocks::new(DATA_START, &layout);
    let mut progress = Progress::new(2, false);
    match progress.verify_range(&blocks, &damaged, 0, data_len).unwrap_err() {
        Error::Corrupted(corruption) => {
            assert_eq!(corruption.kind(), CorruptionKind::BlockChecksum);
            assert_eq!(corruption.block_index(), Some(0));
        }
        other => panic!("unexpected error: {other:?}"),
    }
    assert!(!progress.is_block_verified(0));
    assert!(!progress.is_block_verified(1));
    progress.mark_block(0);
    progress.mark_block(1);
    progress.mark_block(1);
    assert!(progress.is_fully_verified());
    assert!(Progress::new(3, true).is_fully_verified());
    assert!(!Progress::new(0, false).is_fully_verified());
}

#[test]
fn records_before_an_error_are_left_behind() {
    let long = vec![0u8; MAX_KEY_SIZE + 1];
    let entries: [(&[u8], &[u8]); 3] = [(b"a", b"1"), (&long, b""), (b"b", b"2")];
    let mut file = OffsetBuffer::new(DATA_START, 0).unwrap();
    let error = write_base_at(&mut file, DATA_START, 3, &entries).unwrap_err();
    assert_eq!(error.kind(), ErrorKind::InvalidInput);
    let records_at = 24 + 4 * 12;
    assert_eq!(
        file.seek(SeekFrom::Current(0)).unwrap(),
        DATA_START + records_at + 10
    );
    let mut left = vec![0u8; records_at as usize];
    left.extend_from_slice(b"\x01\0\0\0\x01\0\0\0a1");
    assert_eq!(file.into_inner(), left);

    // The first entry cannot be written, so nothing is.
    let mut file = OffsetBuffer::new(DATA_START, 0).unwrap();
    assert!(write_base_at(&mut file, DATA_START, 2, &entries[1..]).is_err());
    assert_eq!(
        file.seek(SeekFrom::Current(0)).unwrap(),
        DATA_START + 24 + 4 * 12
    );
    assert_eq!(file.into_inner(), b"");

    // An index without slots is enough where no record is written.
    assert_eq!(
        build_base(DATA_START, 0, &entries[1..2]).err().unwrap().kind(),
        ErrorKind::InvalidInput
    );

    // Another number of entries was announced.
    let entries: [(&[u8], &[u8]); 1] = [(b"a", b"1")];
    let mut file = OffsetBuffer::new(DATA_START, 0).unwrap();
    let error = write_base_at(&mut file, DATA_START, 3, &entries).unwrap_err();
    assert_eq!(error.message(), "entry count changed while writing base");
    assert_eq!(file.into_inner(), left);
}

#[test]
fn data_without_its_checksum_table_is_left_behind() {
    let entries: [(&[u8], &[u8]); 1] = [(b"key", b"value")];
    let (segment, _) = build_base(DATA_START, 1, &entries).unwrap();
    let mut file = OffsetBuffer::new_in(Room::Refused, DATA_START, 0).unwrap();
    let error = write_base_at(&mut file, DATA_START, 1, &entries).unwrap_err();
    assert_eq!(error.message(), "checksum table is too large");
    assert_eq!(
        file.seek(SeekFrom::Current(0)).unwrap(),
        DATA_START + segment.len() as u64 - 28
    );
    assert_eq!(file.into_inner(), segment[..segment.len() - 28]);
}

#[test]
fn a_changed_byte_of_a_log_is_reported() {
    let mut log = Vec::new();
    for i in 0..3u8 {
        let mut staged = KeyMap::default();
        staged.insert(
            vec![i],
            OverlayEntry::Put(ValueBytes::Owned(vec![i; usize::from(i) * 3])),
        );
        staged.insert(b"gone".to_vec(), OverlayEntry::Delete);
        write_batch_record(&mut log, &staged).unwrap();
    }
    let end = log.len() as u64;
    assert_eq!(scan_overlay(&log, 0, end).unwrap().valid_len(), end);
    for at in 0..log.len() {
        for change in [1u8, 0x80, 0xff] {
            let mut damaged = log.clone();
            damaged[at] ^= change;
            assert_eq!(
                scan_overlay(&damaged, 0, end).err().unwrap().kind(),
                ErrorKind::InvalidData,
                "byte {at}"
            );
        }
    }
}
