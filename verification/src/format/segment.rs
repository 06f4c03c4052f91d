//! Base segments: a hash index over immutable records, followed by block
//! checksums.
//!
//! A segment is its data, one CRC32C per 64 KiB block of the data, and a footer
//! that describes and protects the checksum table. The data of a Base is a
//! header, a table of slots and the records.

use crate::bytes;
use crate::bytes::{same_bytes, u32_at, u64_at};
use crate::checksum;
use crate::checksum::crc32c;
use crate::error;
use crate::error::{Error, ErrorKind, ErrorView, Result};
use crate::format::index;
use crate::format::power;
use crate::format::power::{checked_next_power_of_two, is_power_of_two};
use crate::format::records;
use vstd::prelude::*;

verus! {

pub const BASE_HEADER: usize = 24;

pub const SLOT_SIZE: usize = 12;

pub const CHECKSUM_BLOCK_SIZE: usize = 65536;

pub const CHECKSUM_FOOTER_SIZE: usize = 24;

pub const EMPTY_SEGMENT_SIZE: u64 = 52;

pub const MAX_KEY_SIZE: usize = 1048576;

pub const MAX_VALUE_SIZE: usize = 4294967295;

/// The bytes that open a Base header.
pub open spec fn hash_section_id() -> Seq<u8> {
    seq![0x48u8, 0x41u8, 0x53u8, 0x48u8]
}

/// The bytes that open a checksum footer.
pub open spec fn checksum_section_id() -> Seq<u8> {
    seq![0x43u8, 0x52u8, 0x43u8, 0x33u8]
}

/// Whether a key and a value are within the limits of the format.
pub open spec fn lengths_fit(key_len: int, value_len: int) -> bool {
    key_len <= MAX_KEY_SIZE && value_len <= MAX_VALUE_SIZE
}

/// The error for a key or a value beyond the limits of the format.
pub open spec fn length_limit_error() -> ErrorView {
    error::invalid_input(
        "key or value exceeds the format limit (1048576 key bytes, 4294967295 value bytes)"@,
    )
}

/// Checks a key and a value against the limits of the format.
pub fn check_lengths(key: &[u8], value: &[u8]) -> (result: Result<()>)
    ensures
        error::outcome(result) == (if lengths_fit(key@.len() as int, value@.len() as int) {
            Ok::<(), ErrorView>(())
        } else {
            Err(length_limit_error())
        }),
{
    if key.len() > MAX_KEY_SIZE || value.len() > MAX_VALUE_SIZE {
        Err(
            Error::from_io(
                ErrorKind::InvalidInput,
                "key or value exceeds the format limit (1048576 key bytes, 4294967295 value bytes)",
            ),
        )
    } else {
        Ok(())
    }
}

/// The length of the key of the record at `at`.
pub open spec fn key_len_at(data: Seq<u8>, at: int) -> int {
    bytes::le_u32(data, at) as int
}

/// The length of the value of the record at `at`.
pub open spec fn value_len_at(data: Seq<u8>, at: int) -> int {
    bytes::le_u32(data, at + 4) as int
}

/// Where the value of the record at `at` starts.
pub open spec fn value_start(data: Seq<u8>, at: int) -> int {
    at + 8 + key_len_at(data, at)
}

/// Where the record at `at` ends.
pub open spec fn record_end(data: Seq<u8>, at: int) -> int {
    value_start(data, at) + value_len_at(data, at)
}

/// Whether a whole record starts at `at`.
pub open spec fn record_fits(data: Seq<u8>, at: int) -> bool {
    0 <= at && at + 8 <= data.len() && record_end(data, at) <= data.len()
}

/// The key of the record at `at`.
pub open spec fn record_key(data: Seq<u8>, at: int) -> Seq<u8> {
    data.subrange(at + 8, value_start(data, at))
}

/// The value of the record at `at`.
pub open spec fn record_value(data: Seq<u8>, at: int) -> Seq<u8> {
    data.subrange(value_start(data, at), record_end(data, at))
}

/// What reading the record at `offset` of a segment with `data_size` bytes of data
/// gives: its key, its value and where it ends.
pub open spec fn record_outcome(mapping: Seq<u8>, offset: int, data_size: int) -> std::result::Result<
    (Seq<u8>, Seq<u8>, int),
    ErrorView,
> {
    if offset + 8 > data_size {
        Err(error::invalid_base("truncated record header"@))
    } else if offset + 8 > mapping.len() {
        Err(error::invalid_base("record header lies outside mapping"@))
    } else if value_start(mapping, offset) > usize::MAX {
        Err(error::invalid_base("record key length overflow"@))
    } else if record_end(mapping, offset) > data_size {
        Err(error::invalid_base("record extends beyond segment"@))
    } else if value_start(mapping, offset) > mapping.len() {
        Err(error::invalid_base("record key lies outside mapping"@))
    } else if record_end(mapping, offset) > mapping.len() {
        Err(error::invalid_base("record value lies outside mapping"@))
    } else {
        Ok(
            (
                record_key(mapping, offset),
                record_value(mapping, offset),
                record_end(mapping, offset),
            ),
        )
    }
}

/// Reads the record at `offset`, checking every bound.
pub fn record_at(mapping: &[u8], offset: usize, data_size: usize) -> (result: Result<
    (&[u8], &[u8], usize),
>)
    ensures
        match result {
            Ok((key, value, end)) => record_outcome(mapping@, offset as int, data_size as int)
                == Ok::<(Seq<u8>, Seq<u8>, int), ErrorView>((key@, value@, end as int)),
            Err(error) => record_outcome(mapping@, offset as int, data_size as int) == Err::<
                (Seq<u8>, Seq<u8>, int),
                ErrorView,
            >(error@),
        },
{
    assert(mapping@.len() == mapping.len());
    let header_end: usize = match offset.checked_add(8) {
        Some(end) => {
            if end > data_size {
                return Err(Error::invalid_base("truncated record header"));
            }
            end
        },
        None => {
            return Err(Error::invalid_base("truncated record header"));
        },
    };
    if header_end > mapping.len() {
        return Err(Error::invalid_base("record header lies outside mapping"));
    }
    let key_len: usize = u32_at(mapping, offset) as usize;
    let value_len: usize = u32_at(mapping, offset + 4) as usize;
    let value_start: usize = match header_end.checked_add(key_len) {
        Some(value_start) => value_start,
        None => {
            return Err(Error::invalid_base("record key length overflow"));
        },
    };
    let end: usize = match value_start.checked_add(value_len) {
        Some(end) => end,
        None => {
            return Err(Error::invalid_base("record extends beyond segment"));
        },
    };
    if end > data_size {
        return Err(Error::invalid_base("record extends beyond segment"));
    }
    if value_start > mapping.len() {
        return Err(Error::invalid_base("record key lies outside mapping"));
    }
    if end > mapping.len() {
        return Err(Error::invalid_base("record value lies outside mapping"));
    }
    Ok((&mapping[header_end..value_start], &mapping[value_start..end], end))
}

/// Reads the record at `offset` of data whose records are known to fit.
pub fn trusted_record_at(mapping: &[u8], offset: usize) -> (record: (&[u8], &[u8], usize))
    requires
        record_fits(mapping@, offset as int),
    ensures
        record.0@ == record_key(mapping@, offset as int),
        record.1@ == record_value(mapping@, offset as int),
        record.2 == record_end(mapping@, offset as int),
{
    assert(mapping@.len() == mapping.len());
    let key_len: usize = u32_at(mapping, offset) as usize;
    let value_len: usize = u32_at(mapping, offset + 4) as usize;
    let key_start: usize = offset + 8;
    let value_start: usize = key_start + key_len;
    let end: usize = value_start + value_len;
    (&mapping[key_start..value_start], &mapping[value_start..end], end)
}

/// Whether a range of a file of `file_len` bytes can be mapped, and its length.
pub open spec fn map_outcome(file_len: u64, offset: u64, size: u64) -> std::result::Result<
    int,
    ErrorView,
> {
    if size == 0 {
        Err(error::invalid_data("cannot map an empty segment"@))
    } else if offset + size > u64::MAX {
        Err(error::invalid_base("segment range overflows file offsets"@))
    } else if offset + size > file_len {
        Err(error::invalid_base("segment extends beyond the database file"@))
    } else if size > usize::MAX {
        Err(error::invalid_data("segment is too large to map"@))
    } else {
        Ok(size as int)
    }
}

/// Checks the range of a segment before it is mapped. The result is its length.
pub fn map_len(file_len: u64, offset: u64, size: u64) -> (result: Result<usize>)
    ensures
        match result {
            Ok(len) => map_outcome(file_len, offset, size) == Ok::<int, ErrorView>(len as int),
            Err(error) => map_outcome(file_len, offset, size) == Err::<int, ErrorView>(error@),
        },
{
    if size == 0 {
        return Err(Error::from_io(ErrorKind::InvalidData, "cannot map an empty segment"));
    }
    let end: u64 = match offset.checked_add(size) {
        Some(end) => end,
        None => {
            return Err(Error::invalid_base("segment range overflows file offsets"));
        },
    };
    if end > file_len {
        return Err(Error::invalid_base("segment extends beyond the database file"));
    }
    if size > usize::MAX as u64 {
        return Err(Error::from_io(ErrorKind::InvalidData, "segment is too large to map"));
    }
    Ok(size as usize)
}

/// The number of checksum blocks in `size` bytes of data.
pub open spec fn block_count(size: int) -> int {
    bytes::ceil_div(size, CHECKSUM_BLOCK_SIZE as int)
}

/// Where block `index` of `size` bytes of data ends.
pub open spec fn block_end(size: int, index: int) -> int {
    if (index + 1) * CHECKSUM_BLOCK_SIZE <= size {
        (index + 1) * CHECKSUM_BLOCK_SIZE
    } else {
        size
    }
}

/// Block `index` of the data.
pub open spec fn block(data: Seq<u8>, index: int) -> Seq<u8> {
    data.subrange(index * CHECKSUM_BLOCK_SIZE, block_end(data.len() as int, index))
}

/// Whether block `index` has the checksum that the table holds for it.
pub open spec fn block_ok(data: Seq<u8>, checksums: Seq<u8>, index: int) -> bool {
    checksum::crc32c_value(block(data, index)) == bytes::le_u32(checksums, 4 * index)
}

/// Whether every block has its stored checksum.
pub open spec fn blocks_ok(data: Seq<u8>, checksums: Seq<u8>) -> bool {
    forall|index: int|
        0 <= index < block_count(data.len() as int) ==> #[trigger] block_ok(data, checksums, index)
}

/// Whether the checksum of every block of some data shows every change of a single byte.
pub open spec fn blocks_tell(data: Seq<u8>) -> bool {
    forall|index: int|
        0 <= index < block_count(data.len() as int) ==> checksum::tells_apart(
            checksum::crc32c_value(#[trigger] block(data, index)),
        )
}

/// Two segments of one length whose layouts can be read have data of one size.
pub proof fn lemma_layout_is_unique(segment: Seq<u8>, other: Seq<u8>)
    requires
        segment.len() == other.len(),
        layout_outcome(segment) is Ok,
        layout_outcome(other) is Ok,
    ensures
        layout_outcome(segment) == layout_outcome(other),
{
    let a = layout_outcome(segment)->Ok_0;
    let b = layout_outcome(other)->Ok_0;
    if a < b {
        assert(block_count(a) <= block_count(b));
    } else if b < a {
        assert(block_count(b) <= block_count(a));
    }
}

/// A single byte of the data of a segment that was changed is found in its block.
pub proof fn lemma_damaged_block(
    data: Seq<u8>,
    intact: Seq<u8>,
    checksums: Seq<u8>,
    segment_offset: u64,
    i: int,
)
    requires
        checksum::apart_at(intact, data, i),
        blocks_ok(intact, checksums),
    ensures
        blocks_tell(data) ==> blocks_outcome(
            data,
            checksums,
            segment_offset,
            0,
            block_count(data.len() as int),
        ) is Err,
{
    let count = block_count(data.len() as int);
    lemma_blocks_outcome(data, checksums, segment_offset, 0, count);
    let b = i / CHECKSUM_BLOCK_SIZE as int;
    assert(0 <= b < count);
    assert(block_ok(intact, checksums, b));
    assert(checksum::apart_at(
        block(intact, b),
        block(data, b),
        i - b * CHECKSUM_BLOCK_SIZE,
    ));
    if blocks_tell(data) {
        assert(checksum::tells_apart(checksum::crc32c_value(block(data, b))));
        assert(!block_ok(data, checksums, b));
    }
}

/// A block that fails is damage to the data.
pub proof fn lemma_blocks_error(
    data: Seq<u8>,
    checksums: Seq<u8>,
    segment_offset: u64,
    from: int,
    to: int,
)
    ensures
        blocks_outcome(data, checksums, segment_offset, from, to) matches Err(error)
            ==> error::error_kind(error) == ErrorKind::InvalidData,
    decreases to - from,
{
    if from < to {
        lemma_blocks_error(data, checksums, segment_offset, from + 1, to);
    }
}

/// Checks blocks `from` up to `to`: the first that fails decides.
pub open spec fn blocks_outcome(
    data: Seq<u8>,
    checksums: Seq<u8>,
    segment_offset: u64,
    from: int,
    to: int,
) -> std::result::Result<(), ErrorView>
    decreases to - from,
{
    if from >= to {
        Ok(())
    } else if !block_ok(data, checksums, from) {
        Err(error::corrupted_block(segment_offset, from as u64))
    } else {
        blocks_outcome(data, checksums, segment_offset, from + 1, to)
    }
}

/// A range of intact blocks passes, and a range that passes is intact.
pub proof fn lemma_blocks_outcome(
    data: Seq<u8>,
    checksums: Seq<u8>,
    segment_offset: u64,
    from: int,
    to: int,
)
    ensures
        blocks_outcome(data, checksums, segment_offset, from, to) is Ok <==> (forall|index: int|
            from <= index < to ==> #[trigger] block_ok(data, checksums, index)),
    decreases to - from,
{
    if from < to {
        lemma_blocks_outcome(data, checksums, segment_offset, from + 1, to);
        if blocks_outcome(data, checksums, segment_offset, from, to) is Ok {
            assert forall|index: int| from <= index < to implies #[trigger] block_ok(
                data,
                checksums,
                index,
            ) by {
                if index > from {
                    assert(from + 1 <= index);
                }
            }
        } else if block_ok(data, checksums, from) {
            let bad = choose|index: int|
                from + 1 <= index < to && !#[trigger] block_ok(data, checksums, index);
            assert(from <= bad < to);
        }
    }
}

/// What reading the layout of a segment gives: the size of its data.
pub open spec fn layout_outcome(segment: Seq<u8>) -> std::result::Result<int, ErrorView> {
    let footer = segment.len() - CHECKSUM_FOOTER_SIZE;
    let data_size = bytes::le_u64(segment, footer + 8) as int;
    let table_size = 4 * block_count(data_size);
    if segment.len() < CHECKSUM_FOOTER_SIZE {
        Err(error::invalid_base("missing checksum footer"@))
    } else if segment.subrange(footer, footer + 4) != checksum_section_id() {
        Err(error::invalid_base("invalid checksum footer"@))
    } else if bytes::le_u32(segment, footer + 4) != CHECKSUM_FOOTER_SIZE {
        Err(error::invalid_base("invalid checksum footer size"@))
    } else if data_size > usize::MAX {
        Err(error::invalid_base("segment data size overflow"@))
    } else if bytes::le_u32(segment, footer + 16) != CHECKSUM_BLOCK_SIZE {
        Err(error::invalid_base("unsupported checksum block size"@))
    } else if data_size + table_size + CHECKSUM_FOOTER_SIZE != segment.len() {
        Err(error::invalid_base("checksum layout does not match segment size"@))
    } else if checksum::crc32c_value(segment.subrange(data_size, data_size + table_size))
        != bytes::le_u32(segment, footer + 20) {
        Err(error::corrupted_metadata("checksum table CRC32C mismatch"@))
    } else {
        Ok(data_size)
    }
}

/// The data of a segment whose layout can be read.
pub open spec fn segment_data(segment: Seq<u8>) -> Seq<u8> {
    segment.subrange(0, layout_outcome(segment)->Ok_0)
}

/// The checksum table of a segment whose layout can be read.
pub open spec fn segment_checksums(segment: Seq<u8>) -> Seq<u8> {
    let size = layout_outcome(segment)->Ok_0;
    segment.subrange(size, size + 4 * block_count(size))
}

/// The checksum of everything in a segment that follows its data.
pub open spec fn metadata_checksum(segment: Seq<u8>) -> u32 {
    checksum::crc32c_value(
        segment.subrange(layout_outcome(segment)->Ok_0, segment.len() as int),
    )
}

/// The two parts of a segment: its data and its checksum table.
pub struct SegmentLayout<'a> {
    data: &'a [u8],
    checksums: &'a [u8],
}

impl<'a> SegmentLayout<'a> {
    pub closed spec fn data_view(self) -> Seq<u8> {
        self.data@
    }

    pub closed spec fn checksums_view(self) -> Seq<u8> {
        self.checksums@
    }

    /// There is one checksum for each block of the data.
    pub open spec fn wf(self) -> bool {
        self.checksums_view().len() == 4 * block_count(self.data_view().len() as int)
    }

    /// The data of the segment.
    pub fn data(&self) -> (data: &'a [u8])
        ensures
            data@ == self.data_view(),
    {
        self.data
    }

    /// The checksum table of the segment.
    pub fn checksums(&self) -> (checksums: &'a [u8])
        ensures
            checksums@ == self.checksums_view(),
    {
        self.checksums
    }
}

/// Rounds the number of blocks up.
pub fn count_blocks(size: usize) -> (count: usize)
    ensures
        count == block_count(size as int),
        count <= size,
        count * CHECKSUM_BLOCK_SIZE <= size + CHECKSUM_BLOCK_SIZE - 1,
{
    let whole: usize = size / CHECKSUM_BLOCK_SIZE;
    if size % CHECKSUM_BLOCK_SIZE == 0 {
        whole
    } else {
        whole + 1
    }
}

/// Whether the segment ends in something that opens like a footer.
fn has_footer_id(bytes: &[u8], footer: usize) -> (yes: bool)
    requires
        footer + 4 <= bytes@.len(),
    ensures
        yes == (bytes@.subrange(footer as int, footer + 4) == checksum_section_id()),
{
    assert(bytes@.len() == bytes.len());
    let id: [u8; 4] = [0x43u8, 0x52u8, 0x43u8, 0x33u8];
    assert(id@ =~= checksum_section_id());
    same_bytes(&bytes[footer..footer + 4], id.as_slice())
}

/// Reads the layout of a segment.
pub fn segment_layout(bytes: &[u8]) -> (result: Result<SegmentLayout<'_>>)
    ensures
        match result {
            Ok(layout) => layout_outcome(bytes@) == Ok::<int, ErrorView>(
                layout.data_view().len() as int,
            ) && layout.data_view() == segment_data(bytes@) && layout.checksums_view()
                == segment_checksums(bytes@) && layout.wf(),
            Err(error) => layout_outcome(bytes@) == Err::<int, ErrorView>(error@),
        },
{
    assert(bytes@.len() == bytes.len());
    if bytes.len() < CHECKSUM_FOOTER_SIZE {
        return Err(Error::invalid_base("missing checksum footer"));
    }
    let footer: usize = bytes.len() - CHECKSUM_FOOTER_SIZE;
    if !has_footer_id(bytes, footer) {
        return Err(Error::invalid_base("invalid checksum footer"));
    }
    if u32_at(bytes, footer + 4) != CHECKSUM_FOOTER_SIZE as u32 {
        return Err(Error::invalid_base("invalid checksum footer size"));
    }
    let stored_size: u64 = u64_at(bytes, footer + 8);
    if stored_size > usize::MAX as u64 {
        return Err(Error::invalid_base("segment data size overflow"));
    }
    let data_size: usize = stored_size as usize;
    if u32_at(bytes, footer + 16) != CHECKSUM_BLOCK_SIZE as u32 {
        return Err(Error::invalid_base("unsupported checksum block size"));
    }
    let checksum_count: usize = count_blocks(data_size);
    assert(4 * checksum_count <= usize::MAX) by {
        assert(checksum_count * 65536 <= data_size + 65535);
    }
    let checksum_size: usize = 4 * checksum_count;
    let matches_size: bool = match data_size.checked_add(checksum_size) {
        Some(size) => match size.checked_add(CHECKSUM_FOOTER_SIZE) {
            Some(size) => size == bytes.len(),
            None => false,
        },
        None => false,
    };
    if !matches_size {
        return Err(Error::invalid_base("checksum layout does not match segment size"));
    }
    let checksums = &bytes[data_size..data_size + checksum_size];
    if crc32c(checksums) != u32_at(bytes, footer + 20) {
        return Err(Error::corrupted_metadata("checksum table CRC32C mismatch"));
    }
    Ok(SegmentLayout { data: &bytes[0..data_size], checksums })
}

/// Whether a block has the checksum that the table holds for it.
pub fn checked_block(data: &[u8], checksums: &[u8], index: usize) -> (ok: bool)
    requires
        0 <= index < block_count(data@.len() as int),
        checksums@.len() == 4 * block_count(data@.len() as int),
    ensures
        ok == block_ok(data@, checksums@, index as int),
        checksum::tells_apart(checksum::crc32c_value(block(data@, index as int))),
{
    assert(data@.len() == data.len());
    assert(checksums@.len() == checksums.len());
    let start: usize = index * CHECKSUM_BLOCK_SIZE;
    let end: usize = if data.len() - start >= CHECKSUM_BLOCK_SIZE {
        start + CHECKSUM_BLOCK_SIZE
    } else {
        data.len()
    };
    crc32c(&data[start..end]) == u32_at(checksums, index * 4)
}

/// Checks every block of a segment.
pub fn verify_segment_blocks(layout: &SegmentLayout<'_>, segment_offset: u64) -> (result: Result<()>)
    requires
        layout.wf(),
    ensures
        error::outcome(result) == blocks_outcome(
            layout.data_view(),
            layout.checksums_view(),
            segment_offset,
            0,
            block_count(layout.data_view().len() as int),
        ),
        result is Ok ==> blocks_tell(layout.data_view()),
{
    let data = layout.data;
    let checksums = layout.checksums;
    assert(data@.len() == data.len());
    let count: usize = count_blocks(data.len());
    let mut index: usize = 0;
    while index < count
        invariant
            index <= count,
            count == block_count(data@.len() as int),
            data@ == layout.data_view(),
            checksums@ == layout.checksums_view(),
            layout.wf(),
            forall|b: int|
                0 <= b < index ==> checksum::tells_apart(
                    checksum::crc32c_value(#[trigger] block(data@, b)),
                ),
            blocks_outcome(data@, checksums@, segment_offset, 0, count as int) == blocks_outcome(
                data@,
                checksums@,
                segment_offset,
                index as int,
                count as int,
            ),
        decreases count - index,
    {
        if !checked_block(data, checksums, index) {
            return Err(Error::corrupted_block(segment_offset, index as u64));
        }
        index += 1;
    }
    Ok(())
}

/// The checksum that a Superblock records for a segment.
pub fn segment_metadata_checksum(bytes: &[u8]) -> (result: Result<u32>)
    ensures
        error::outcome(result) == (match layout_outcome(bytes@) {
            Ok(_) => Ok::<u32, ErrorView>(metadata_checksum(bytes@)),
            Err(error) => Err(error),
        }),
        result is Ok ==> checksum::tells_apart(metadata_checksum(bytes@)),
{
    let layout = match segment_layout(bytes) {
        Ok(layout) => layout,
        Err(error) => {
            return Err(error);
        },
    };
    Ok(crc32c(&bytes[layout.data.len()..bytes.len()]))
}

/// The number of slots for `len` records, where a machine word holds it.
pub open spec fn slot_count_outcome(len: int) -> std::result::Result<int, ErrorView> {
    if len > 0 && (5 * len > usize::MAX || index::slot_count(len as nat) > usize::MAX) {
        Err(error::invalid_input("too many entries"@))
    } else {
        Ok(index::slot_count(len as nat) as int)
    }
}

/// The number of slots for `len` records.
pub(crate) fn base_slot_count(len: usize) -> (result: Result<usize>)
    ensures
        match result {
            Ok(slots) => slot_count_outcome(len as int) == Ok::<int, ErrorView>(slots as int),
            Err(error) => slot_count_outcome(len as int) == Err::<int, ErrorView>(error@),
        },
{
    if len == 0 {
        return Ok(0);
    }
    let scaled: usize = match len.checked_mul(5) {
        Some(scaled) => scaled,
        None => {
            return Err(Error::from_io(ErrorKind::InvalidInput, "too many entries"));
        },
    };
    let quarter: usize = scaled / 4;
    let least: usize = if scaled % 4 == 0 {
        quarter
    } else {
        quarter + 1
    };
    assert(least == bytes::ceil_div(5 * len as int, 4));
    match checked_next_power_of_two(least) {
        Some(slots) => Ok(slots),
        None => Err(Error::from_io(ErrorKind::InvalidInput, "too many entries")),
    }
}

/// Where records start behind `slots` slots, within `data_size` bytes of data.
pub open spec fn records_start_outcome(slots: u64, data_size: int) -> std::result::Result<
    int,
    ErrorView,
> {
    if slots > usize::MAX {
        Err(error::invalid_base("slot count overflow"@))
    } else if index::records_offset(slots as int) > usize::MAX {
        Err(error::invalid_base("hash index size overflow"@))
    } else if index::records_offset(slots as int) > data_size {
        Err(error::invalid_base("truncated hash index"@))
    } else {
        Ok(index::records_offset(slots as int))
    }
}

/// Where the records of a Base start.
pub fn records_start(slots: u64, data_size: usize) -> (result: Result<usize>)
    ensures
        match result {
            Ok(start) => records_start_outcome(slots, data_size as int) == Ok::<int, ErrorView>(
                start as int,
            ),
            Err(error) => records_start_outcome(slots, data_size as int) == Err::<int, ErrorView>(
                error@,
            ),
        },
{
    if slots > usize::MAX as u64 {
        return Err(Error::invalid_base("slot count overflow"));
    }
    let slots: usize = slots as usize;
    let start: usize = match slots.checked_mul(SLOT_SIZE) {
        Some(size) => match BASE_HEADER.checked_add(size) {
            Some(start) => start,
            None => {
                return Err(Error::invalid_base("hash index size overflow"));
            },
        },
        None => {
            return Err(Error::invalid_base("hash index size overflow"));
        },
    };
    if start > data_size {
        return Err(Error::invalid_base("truncated hash index"));
    }
    Ok(start)
}

/// What reading the header of a Base gives: the number of slots and of records.
pub open spec fn header_outcome(data: Seq<u8>) -> std::result::Result<(u64, int), ErrorView> {
    let slots = bytes::le_u64(data, 8);
    let len = bytes::le_u64(data, 16) as int;
    if data.len() < BASE_HEADER || data.subrange(0, 4) != hash_section_id() {
        Err(error::invalid_data("invalid base file"@))
    } else if bytes::le_u32(data, 4) != BASE_HEADER {
        Err(error::invalid_data("invalid base header size"@))
    } else if len > usize::MAX {
        Err(error::invalid_data("base entry count overflow"@))
    } else if slots != 0 && !power::is_power(slots as int) {
        Err(error::invalid_data("invalid slot count"@))
    } else {
        match records_start_outcome(slots, data.len() as int) {
            Ok(_) => Ok((slots, len)),
            Err(error) => Err(error),
        }
    }
}

/// Reads the header of a Base.
pub fn read_base_header(bytes: &[u8]) -> (result: Result<(u64, usize)>)
    ensures
        match result {
            Ok((slots, len)) => header_outcome(bytes@) == Ok::<(u64, int), ErrorView>(
                (slots, len as int),
            ),
            Err(error) => header_outcome(bytes@) == Err::<(u64, int), ErrorView>(error@),
        },
{
    assert(bytes@.len() == bytes.len());
    let id: [u8; 4] = [0x48u8, 0x41u8, 0x53u8, 0x48u8];
    assert(id@ =~= hash_section_id());
    if bytes.len() < BASE_HEADER || !same_bytes(&bytes[0..4], id.as_slice()) {
        return Err(Error::from_io(ErrorKind::InvalidData, "invalid base file"));
    }
    if u32_at(bytes, 4) != BASE_HEADER as u32 {
        return Err(Error::from_io(ErrorKind::InvalidData, "invalid base header size"));
    }
    let slots: u64 = u64_at(bytes, 8);
    let len: u64 = u64_at(bytes, 16);
    if len > usize::MAX as u64 {
        return Err(Error::from_io(ErrorKind::InvalidData, "base entry count overflow"));
    }
    if slots != 0 && !is_power_of_two(slots) {
        return Err(Error::from_io(ErrorKind::InvalidData, "invalid slot count"));
    }
    match records_start(slots, bytes.len()) {
        Ok(_) => Ok((slots, len as usize)),
        Err(error) => Err(error),
    }
}

/// The entries that a slice of pairs stands for.
pub open spec fn pairs_view(pairs: Seq<(&[u8], &[u8])>) -> Seq<(Seq<u8>, Seq<u8>)> {
    Seq::new(pairs.len(), |i: int| (pairs[i].0@, pairs[i].1@))
}

/// The size of a segment with `data_size` bytes of data.
pub open spec fn segment_size(data_size: int) -> int {
    data_size + 4 * block_count(data_size) + CHECKSUM_FOOTER_SIZE
}

/// What measuring the Base over `entries` gives: their number and the size of the
/// segment.
pub open spec fn measure_outcome(entries: Seq<(Seq<u8>, Seq<u8>)>) -> std::result::Result<
    (int, int),
    ErrorView,
> {
    let len = entries.len() as int;
    if BASE_HEADER + records::records_size(entries) > usize::MAX {
        Err(error::invalid_input("base is too large"@))
    } else {
        match slot_count_outcome(len) {
            Err(error) => Err(error),
            Ok(_) => if segment_size(index::base_data_size(entries)) > usize::MAX {
                Err(error::invalid_input("base is too large"@))
            } else {
                Ok((len, segment_size(index::base_data_size(entries))))
            },
        }
    }
}

/// Measures the Base over `entries`: their number and the size of the segment.
pub fn measure_base_iter(entries: &[(&[u8], &[u8])]) -> (result: Result<(usize, u64)>)
    ensures
        match result {
            Ok((len, size)) => measure_outcome(pairs_view(entries@)) == Ok::<(int, int), ErrorView>(
                (len as int, size as int),
            ),
            Err(error) => measure_outcome(pairs_view(entries@)) == Err::<(int, int), ErrorView>(
                error@,
            ),
        },
{
    let ghost all = pairs_view(entries@);
    let observed: usize = entries.len();
    let mut records_size: usize = BASE_HEADER;
    let mut i: usize = 0;
    proof {
        assert(all.take(0) =~= Seq::empty());
    }
    while i < observed
        invariant
            i <= observed,
            observed == entries@.len(),
            all == pairs_view(entries@),
            records_size == BASE_HEADER + records::record_start(all, i as int),
        decreases observed - i,
    {
        let (key, value) = entries[i];
        proof {
            records::lemma_record_start_step(all, i as int);
            records::lemma_record_start_order(all, i + 1, observed as int);
            assert(all.take(observed as int) =~= all);
        }
        let size: usize = match add_sizes(records_size, key.len(), value.len()) {
            Some(size) => size,
            None => {
                return Err(Error::from_io(ErrorKind::InvalidInput, "base is too large"));
            },
        };
        records_size = size;
        i += 1;
    }
    proof {
        assert(all.take(observed as int) =~= all);
        records::lemma_records_size(all);
    }
    let slots: usize = match base_slot_count(observed) {
        Ok(slots) => slots,
        Err(error) => {
            return Err(error);
        },
    };
    let data_size: usize = match slots.checked_mul(SLOT_SIZE) {
        Some(table) => match records_size.checked_add(table) {
            Some(size) => size,
            None => {
                return Err(Error::from_io(ErrorKind::InvalidInput, "base is too large"));
            },
        },
        None => {
            return Err(Error::from_io(ErrorKind::InvalidInput, "base is too large"));
        },
    };
    let blocks: usize = count_blocks(data_size);
    assert(4 * blocks + 24 <= usize::MAX) by {
        assert(blocks * 65536 <= data_size + 65535);
    }
    match data_size.checked_add(4 * blocks + CHECKSUM_FOOTER_SIZE) {
        Some(total) => Ok((observed, total as u64)),
        None => Err(Error::from_io(ErrorKind::InvalidInput, "base is too large")),
    }
}

/// Adds a record to a running size.
fn add_sizes(size: usize, key_len: usize, value_len: usize) -> (sum: Option<usize>)
    ensures
        match sum {
            Some(sum) => sum == size + 8 + key_len + value_len,
            None => size + 8 + key_len + value_len > usize::MAX,
        },
{
    match size.checked_add(8) {
        Some(size) => match size.checked_add(key_len) {
            Some(size) => size.checked_add(value_len),
            None => None,
        },
        None => None,
    }
}

} // verus!
