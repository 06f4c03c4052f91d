//! A buffer that stands for a range of a file.

use crate::bytes;
use crate::bytes::{copy_into, push_bytes};
use crate::checksum::crc32c;
use crate::database::storage::SeekFrom;
use crate::error;
use crate::error::{Error, ErrorKind, ErrorView, Result};
use crate::format::index;
use crate::format::records;
use crate::format::segment;
use crate::format::segment::{BASE_HEADER, SLOT_SIZE};
use crate::format::writer;
use crate::format::writer::{base_head, build_records, checksum_metadata, slots_at, WrittenBase};
use crate::room::Room;
use vstd::prelude::*;

verus! {

/// Bytes that start at some position of a file.
pub struct OffsetBuffer {
    origin: u64,
    bytes: Vec<u8>,
    position: u64,
    room: Room,
}

/// Bytes after a write at `at`: a gap before it is filled with zeros.
pub open spec fn written_at(bytes: Seq<u8>, at: int, part: Seq<u8>) -> Seq<u8> {
    let end = at + part.len();
    Seq::new(
        if end > bytes.len() {
            end as nat
        } else {
            bytes.len()
        },
        |i: int|
            if at <= i < end {
                part[i - at]
            } else if i < bytes.len() {
                bytes[i]
            } else {
                0u8
            },
    )
}

/// The error for a buffer that could not be reserved.
pub open spec fn reserve_error() -> ErrorView {
    error::out_of_memory("could not reserve Base bytes"@)
}

/// The error for a position before the first byte.
pub open spec fn origin_error() -> ErrorView {
    error::invalid_input("Base seek precedes its origin"@)
}

impl View for OffsetBuffer {
    type V = Seq<u8>;

    closed spec fn view(&self) -> Seq<u8> {
        self.bytes@
    }
}

impl OffsetBuffer {
    /// The position of the first byte.
    pub closed spec fn start(self) -> u64 {
        self.origin
    }

    /// Where the next read or write goes, counted from the first byte.
    pub closed spec fn at(self) -> int {
        self.position as int
    }

    /// Who answers when memory is reserved.
    pub closed spec fn room(self) -> Room {
        self.room
    }

    /// Whether `result` is what making a buffer with room for `expected_size` bytes can
    /// give.
    pub open spec fn makes(
        room: Room,
        origin: u64,
        expected_size: u64,
        result: Result<Self>,
    ) -> bool {
        match result {
            Ok(buffer) => {
                &&& expected_size <= usize::MAX
                &&& room.grants(expected_size > 0, expected_size as int)
                &&& buffer@ == Seq::<u8>::empty()
                &&& buffer.start() == origin
                &&& buffer.at() == 0
                &&& buffer.room() == room
            },
            Err(error) => if expected_size > usize::MAX {
                error@ == error::invalid_input("Base is too large"@)
            } else {
                room.may_refuse(expected_size > 0, expected_size as int) && error@ == reserve_error()
            },
        }
    }

    /// An empty buffer with room for `expected_size` bytes.
    pub fn new(origin: u64, expected_size: u64) -> (result: Result<Self>)
        ensures
            Self::makes(Room::Ask, origin, expected_size, result),
    {
        OffsetBuffer::new_in(Room::Ask, origin, expected_size)
    }

    /// An empty buffer with room for `expected_size` bytes, with memory reserved in `room`.
    pub fn new_in(room: Room, origin: u64, expected_size: u64) -> (result: Result<Self>)
        ensures
            Self::makes(room, origin, expected_size, result),
    {
        if expected_size > usize::MAX as u64 {
            return Err(Error::from_io(ErrorKind::InvalidInput, "Base is too large"));
        }
        let mut bytes: Vec<u8> = Vec::new();
        if !room.reserve_bytes(&mut bytes, expected_size as usize) {
            return Err(Error::from_io(ErrorKind::OutOfMemory, "could not reserve Base bytes"));
        }
        Ok(OffsetBuffer { origin, bytes, position: 0, room })
    }

    /// The bytes.
    pub fn into_inner(self) -> (bytes: Vec<u8>)
        ensures
            bytes@ == self@,
    {
        self.bytes
    }

    /// Where a seek leads, counted from the first byte, if it leads anywhere.
    pub open spec fn seek_target(self, position: SeekFrom) -> int {
        match position {
            SeekFrom::Start(position) => position - self.start(),
            SeekFrom::End(offset) => self@.len() + offset,
            SeekFrom::Current(offset) => self.at() + offset,
        }
    }

    /// The position in the file of a position that is counted from the first byte.
    fn absolute(&self, relative: u64) -> (result: Result<u64>)
        ensures
            error::outcome(result) == (if self.start() + relative > u64::MAX {
                Err::<u64, ErrorView>(error::invalid_input("Base position overflow"@))
            } else {
                Ok((self.start() + relative) as u64)
            }),
    {
        match self.origin.checked_add(relative) {
            Some(position) => Ok(position),
            None => Err(Error::from_io(ErrorKind::InvalidInput, "Base position overflow")),
        }
    }

    /// Moves to a position of the file. A move to where the file has no position is
    /// reported, and takes place.
    pub fn seek(&mut self, position: SeekFrom) -> (result: Result<u64>)
        ensures
            final(self)@ == old(self)@,
            final(self).start() == old(self).start(),
            final(self).room() == old(self).room(),
            final(self).at() == (if 0 <= old(self).seek_target(position) <= u64::MAX {
                old(self).seek_target(position)
            } else {
                old(self).at()
            }),
            error::outcome(result) == (if old(self).seek_target(position) < 0
                && position is Start {
                Err::<u64, ErrorView>(error::invalid_input("Base seek precedes its origin"@))
            } else if !(0 <= old(self).seek_target(position) <= u64::MAX) {
                Err(
                    error::invalid_input(
                        "invalid seek to a negative or overflowing position"@,
                    ),
                )
            } else if old(self).start() + old(self).seek_target(position) > u64::MAX {
                Err(error::invalid_input("Base position overflow"@))
            } else {
                Ok((old(self).start() + old(self).seek_target(position)) as u64)
            }),
    {
        let (base, offset): (u64, i64) = match position {
            SeekFrom::Start(position) => {
                if position < self.origin {
                    return Err(
                        Error::from_io(ErrorKind::InvalidInput, "Base seek precedes its origin"),
                    );
                }
                (position - self.origin, 0)
            },
            SeekFrom::End(offset) => (self.bytes.len() as u64, offset),
            SeekFrom::Current(offset) => (self.position, offset),
        };
        let target: i128 = base as i128 + offset as i128;
        if target < 0 || target > 0xffff_ffff_ffff_ffff {
            return Err(
                Error::from_io(
                    ErrorKind::InvalidInput,
                    "invalid seek to a negative or overflowing position",
                ),
            );
        }
        self.position = target as u64;
        self.absolute(target as u64)
    }

    /// Reads from the current position into the start of the buffer, as far as there are
    /// bytes, and moves behind what was read.
    pub fn read(&mut self, buffer: &mut [u8]) -> (read: usize)
        ensures
            final(self)@ == old(self)@,
            final(self).start() == old(self).start(),
            final(self).room() == old(self).room(),
            final(self).at() == old(self).at() + read,
            read == (if old(self).at() >= old(self)@.len() {
                0
            } else if old(self)@.len() - old(self).at() < old(buffer)@.len() {
                old(self)@.len() - old(self).at()
            } else {
                old(buffer)@.len() as int
            }),
            read == 0 ==> final(buffer)@ == old(buffer)@,
            read > 0 ==> final(buffer)@ == bytes::overwritten(
                old(buffer)@,
                0,
                old(self)@.subrange(old(self).at(), old(self).at() + read),
            ),
    {
        assert(buffer@.len() == buffer.len());
        if self.position >= self.bytes.len() as u64 {
            return 0;
        }
        let start: usize = self.position as usize;
        let left: usize = self.bytes.len() - start;
        let read: usize = if left < buffer.len() {
            left
        } else {
            buffer.len()
        };
        copy_into(buffer, 0, &self.bytes.as_slice()[start..start + read]);
        self.position = (start + read) as u64;
        assert(read == 0 ==> buffer@ =~= old(buffer)@);
        read
    }

    /// Writes at the current position and moves behind what was written.
    pub fn write(&mut self, part: &[u8])
        requires
            old(self).at() + part@.len() <= usize::MAX,
        ensures
            final(self)@ == written_at(old(self)@, old(self).at(), part@),
            final(self).start() == old(self).start(),
            final(self).room() == old(self).room(),
            final(self).at() == old(self).at() + part@.len(),
    {
        let ghost before = self.bytes@;
        assert(part@.len() == part.len());
        let start: usize = self.position as usize;
        let end: usize = start + part.len();
        if end > self.bytes.len() {
            self.bytes.resize(end, 0);
        }
        let mut i: usize = 0;
        while i < part.len()
            invariant
                i <= part@.len(),
                start + part@.len() == end,
                self.bytes@.len() == (if end > before.len() {
                    end as nat
                } else {
                    before.len()
                }),
                self.origin == old(self).origin,
                self.room == old(self).room,
                forall|j: int|
                    0 <= j < self.bytes@.len() ==> #[trigger] self.bytes@[j] == (if start <= j
                        < start + i {
                        part@[j - start]
                    } else if j < before.len() {
                        before[j]
                    } else {
                        0
                    }),
            decreases part@.len() - i,
        {
            self.bytes.set(start + i, part[i]);
            i += 1;
        }
        self.position = end as u64;
        assert(self.bytes@ =~= written_at(before, start as int, part@));
    }
}

/// Bytes after a write at `at`. Writing nothing changes nothing.
pub open spec fn put_at(bytes: Seq<u8>, at: int, part: Seq<u8>) -> Seq<u8> {
    if part.len() == 0 {
        bytes
    } else {
        written_at(bytes, at, part)
    }
}

/// Writing two parts that adjoin is writing them as one, in either order.
proof fn lemma_written_parts(bytes: Seq<u8>, at: int, first: Seq<u8>, second: Seq<u8>)
    requires
        0 <= at,
        first.len() > 0,
    ensures
        written_at(put_at(bytes, at + first.len(), second), at, first) == written_at(
            bytes,
            at,
            first + second,
        ),
        put_at(written_at(bytes, at, first), at + first.len(), second) == written_at(
            bytes,
            at,
            first + second,
        ),
{
    assert(written_at(put_at(bytes, at + first.len(), second), at, first) =~= written_at(
        bytes,
        at,
        first + second,
    ));
    assert(put_at(written_at(bytes, at, first), at + first.len(), second) =~= written_at(
        bytes,
        at,
        first + second,
    ));
}

/// What writing the Base over `entries` at `start` gives. The records are written first,
/// and a position before the first byte of the buffer is met there or after them.
pub open spec fn place_outcome(
    origin: int,
    start: int,
    len: int,
    entries: Seq<(Seq<u8>, Seq<u8>)>,
) -> std::result::Result<Seq<u8>, ErrorView> {
    match writer::slots_outcome(start, len) {
        Err(error) => Err(error),
        Ok(slots) => if start + index::records_offset(slots) < origin {
            Err(origin_error())
        } else {
            match writer::build_outcome(start, len, entries) {
                Err(error) => Err(error),
                Ok(segment) => if start < origin {
                    Err(origin_error())
                } else {
                    Ok(segment)
                },
            }
        },
    }
}

/// What a buffer holds, and where the next write to it goes, once writing the Base over
/// `entries` at `start` has failed. The records before the one that cannot be written are
/// there; where only the checksum table is missing, so are the header and the slots.
pub open spec fn left_behind(
    before: OffsetBuffer,
    start: int,
    len: int,
    entries: Seq<(Seq<u8>, Seq<u8>)>,
) -> (Seq<u8>, int) {
    let origin = before.start() as int;
    match writer::slots_outcome(start, len) {
        Err(_) => (before@, before.at()),
        Ok(slots) => {
            let records_at = start + index::records_offset(slots);
            let count = writer::records_written(entries, records_at, 0);
            let written = records::records_bytes(entries.take(count));
            let data = index::base_data(start, entries);
            if records_at < origin {
                (before@, before.at())
            } else if place_outcome(origin, start, len, entries) is Err {
                (
                    put_at(before@, records_at - origin, written),
                    records_at - origin + written.len(),
                )
            } else {
                (written_at(before@, start - origin, data), start - origin + data.len())
            }
        },
    }
}

/// Whether `result` is what writing the Base over `entries` at `start` can give, and `after`
/// what it makes of a buffer. A Base that can be written has a checksum table, for which
/// memory is reserved.
pub open spec fn places(
    before: OffsetBuffer,
    start: int,
    len: int,
    entries: Seq<(Seq<u8>, Seq<u8>)>,
    result: std::result::Result<int, ErrorView>,
    after: OffsetBuffer,
) -> bool {
    let exact = place_outcome(before.start() as int, start, len, entries);
    &&& after.start() == before.start()
    &&& after.room() == before.room()
    &&& match result {
        Ok(size) => {
            &&& exact matches Ok(segment)
            &&& before.room().grants(true, 1)
            &&& segment == writer::base_segment(start, entries)
            &&& size == segment.len()
            &&& after@ == written_at(before@, start - before.start(), segment)
            &&& after.at() == start - before.start() + segment.len()
        },
        Err(error) => {
            &&& (after@, after.at()) == left_behind(before, start, len, entries)
            &&& match exact {
                Err(expected) => error == expected,
                Ok(segment) => before.room().may_refuse(true, segment.len() as int) && error
                    == writer::checksum_allocation_error(),
            }
        },
    }
}

/// Whether a buffer that starts at `origin` can have all of the Base over `entries` at
/// `start`, where its records have positions at all.
pub open spec fn place_fits(
    origin: int,
    start: int,
    len: int,
    entries: Seq<(Seq<u8>, Seq<u8>)>,
) -> bool {
    writer::slots_outcome(start, len) matches Ok(slots) ==> start - origin + segment::segment_size(
        index::records_offset(slots) + records::records_size(entries),
    ) <= usize::MAX
}

/// Writes the Base over `entries` at `start`, and says what it looks like.
pub fn write_base_with_metadata_at(
    file: &mut OffsetBuffer,
    start: u64,
    len: usize,
    entries: &[(&[u8], &[u8])],
) -> (result: Result<WrittenBase>)
    requires
        writer::index_has_room(start as int, len as int, segment::pairs_view(entries@)),
        place_fits(
            old(file).start() as int,
            start as int,
            len as int,
            segment::pairs_view(entries@),
        ),
    ensures
        places(
            *old(file),
            start as int,
            len as int,
            segment::pairs_view(entries@),
            match result {
                Ok(written) => Ok(written.size as int),
                Err(error) => Err(error@),
            },
            *final(file),
        ),
        result matches Ok(written) ==> written.describes(
            writer::base_segment(start as int, segment::pairs_view(entries@)),
            len,
        ),
{
    let ghost all = segment::pairs_view(entries@);
    let ghost before = *file;
    let slots: usize = match slots_at(start, len) {
        Ok(slots) => slots,
        Err(error) => {
            return Err(error);
        },
    };
    let records_start: u64 = start + BASE_HEADER as u64 + (slots * SLOT_SIZE) as u64;
    match file.seek(SeekFrom::Start(records_start)) {
        Ok(_) => {},
        Err(error) => {
            return Err(error);
        },
    }
    let built = build_records(slots, records_start, entries);
    let ghost count = writer::records_written(all, records_start as int, 0);
    proof {
        lemma_records_len(all, count);
    }
    if built.body.len() > 0 {
        file.write(built.body.as_slice());
    }
    match built.outcome {
        Ok(()) => {},
        Err(error) => {
            return Err(error);
        },
    }
    proof {
        assert(all.take(all.len() as int) =~= all);
    }
    if entries.len() != len {
        return Err(
            Error::from_io(ErrorKind::InvalidInput, "entry count changed while writing base"),
        );
    }
    match file.seek(SeekFrom::Start(start)) {
        Ok(_) => {},
        Err(error) => {
            return Err(error);
        },
    }
    let head = base_head(slots, len, &built.table);
    proof {
        lemma_placed_data(start as int, all, slots as int, head@, built.body@);
    }
    match complete_segment(file, start, head, built.body.as_slice(), Ghost(before@)) {
        Ok((size, metadata_checksum)) => Ok(
            WrittenBase { size, slots: slots as u64, len, metadata_checksum },
        ),
        Err(error) => Err(error),
    }
}

/// The header, the slots and the records of a Base are its data.
proof fn lemma_placed_data(
    start: int,
    entries: Seq<(Seq<u8>, Seq<u8>)>,
    slots: int,
    head: Seq<u8>,
    body: Seq<u8>,
)
    requires
        slots == index::slot_count(entries.len()),
        body == records::records_bytes(entries),
        head == index::header_bytes(slots as u64, entries.len() as u64) + index::table_bytes(
            index::build_table(entries, slots as nat, start + index::records_offset(slots)),
        ),
    ensures
        head + body == index::base_data(start, entries),
        head.len() == index::records_offset(slots),
        body.len() == records::records_size(entries),
        writer::base_segment(start, entries).len() == segment::segment_size(
            (head + body).len() as int,
        ),
{
    index::lemma_base_data_len(start, entries);
    writer::lemma_base_segment_len(start, entries);
    records::lemma_records_size(entries);
}

/// Writes the header and the slots at `start`, before the records that are there, and the
/// checksum table behind them. `before` is what the buffer held before the records. The
/// result is the size of the segment and the checksum of what is behind its data.
fn complete_segment(
    file: &mut OffsetBuffer,
    start: u64,
    head: Vec<u8>,
    body: &[u8],
    before: Ghost<Seq<u8>>,
) -> (result: Result<(u64, u32)>)
    requires
        head@.len() > 0,
        old(file).start() <= start,
        old(file).at() == start - old(file).start(),
        old(file)@ == put_at(before@, start - old(file).start() + head@.len(), body@),
        start + head@.len() + body@.len() <= u64::MAX,
        start - old(file).start() + segment::segment_size((head@ + body@).len() as int)
            <= usize::MAX,
    ensures
        final(file).start() == old(file).start(),
        final(file).room() == old(file).room(),
        ({
            let data = head@ + body@;
            let at = start - old(file).start();
            match result {
                Ok((size, checksum)) => {
                    &&& old(file).room().grants(true, 1)
                    &&& final(file)@ == written_at(before@, at, writer::segment_bytes(data))
                    &&& final(file).at() == at + writer::segment_bytes(data).len()
                    &&& size == writer::segment_bytes(data).len()
                    &&& checksum == segment::metadata_checksum(writer::segment_bytes(data))
                },
                Err(error) => {
                    &&& old(file).room().may_refuse(
                        true,
                        writer::segment_bytes(data).len() as int,
                    )
                    &&& error@ == writer::checksum_allocation_error()
                    &&& final(file)@ == written_at(before@, at, data)
                    &&& final(file).at() == at + data.len()
                },
            }
        }),
{
    let ghost at = start - file.start();
    let ghost all = head@ + body@;
    proof {
        lemma_written_parts(before@, at, head@, body@);
    }
    file.write(head.as_slice());
    let mut data = head;
    push_bytes(&mut data, body);
    assert(data@ == all);
    assert(data@.len() == data.len());
    let data_size: u64 = data.len() as u64;
    match file.seek(SeekFrom::Start(start + data_size)) {
        Ok(_) => {},
        Err(error) => {
            return Err(error);
        },
    }
    let metadata = match checksum_metadata(file.room, data.as_slice()) {
        Ok(metadata) => metadata,
        Err(error) => {
            return Err(error);
        },
    };
    proof {
        writer::lemma_segment_layout(all);
        lemma_written_parts(before@, at, all, metadata@);
    }
    let checksum: u32 = crc32c(metadata.as_slice());
    file.write(metadata.as_slice());
    Ok((data_size + metadata.len() as u64, checksum))
}

/// The first records have the size of their entries, and no more than all of them.
proof fn lemma_records_len(entries: Seq<(Seq<u8>, Seq<u8>)>, count: int)
    requires
        0 <= count <= entries.len(),
    ensures
        records::records_bytes(entries.take(count)).len() == records::record_start(entries, count),
        records::record_start(entries, count) <= records::records_size(entries),
{
    records::lemma_records_size(entries.take(count));
    records::lemma_record_start_order(entries, count, entries.len() as int);
    assert(entries.take(entries.len() as int) =~= entries);
}

/// Writes the Base over `entries` at `start`. The result is the size of the segment.
pub fn write_base_at(
    file: &mut OffsetBuffer,
    start: u64,
    len: usize,
    entries: &[(&[u8], &[u8])],
) -> (result: Result<u64>)
    requires
        writer::index_has_room(start as int, len as int, segment::pairs_view(entries@)),
        place_fits(
            old(file).start() as int,
            start as int,
            len as int,
            segment::pairs_view(entries@),
        ),
    ensures
        places(
            *old(file),
            start as int,
            len as int,
            segment::pairs_view(entries@),
            match result {
                Ok(size) => Ok(size as int),
                Err(error) => Err(error@),
            },
            *final(file),
        ),
{
    match write_base_with_metadata_at(file, start, len, entries) {
        Ok(written) => Ok(written.size),
        Err(error) => Err(error),
    }
}

} // verus!
