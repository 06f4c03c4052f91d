//! What an image in memory and a buffer for a Base promise.

use crate::database::maintenance;
use crate::database::state;
use crate::database::state::BaseBytes;
use crate::database::storage::{MemoryStorage, SeekFrom};
use crate::error::Result;
use crate::format::buffer::{write_base_with_metadata_at, OffsetBuffer};
use crate::format::records;
use crate::format::segment;
use crate::format::writer;
use crate::format::writer::WrittenBase;
use crate::promises;
use crate::promises::compacting;
use crate::room::Room;
use std::sync::Arc;
use vstd::prelude::*;

verus! {

/// An image is made longer or shorter, where memory is there, unless that would cut its Base.
/// What both lengths have stays, and what is new is zero.
pub proof fn law_set_len(len: u64, result: Result<()>)
    ensures
        forall|storage: &mut MemoryStorage|
            #![trigger call_ensures(MemoryStorage::set_len, (storage, len), result)]
            call_ensures(MemoryStorage::set_len, (storage, len), result)
                && promises::memory_is_there(storage.room(), len as int) && len <= usize::MAX
                && 0 <= storage.writable_from() ==> {
                &&& result is Ok <==> storage.base_region() is None || storage.writable_from()
                    <= len
                &&& result is Ok ==> {
                    &&& final(storage).image().len() == len
                    &&& forall|p: int|
                        0 <= p < len ==> #[trigger] final(storage).image()[p] == (if p
                            < storage.image().len() {
                            storage.image()[p]
                        } else {
                            0
                        })
                }
                &&& result is Err ==> final(storage).image() == storage.image()
                &&& final(storage).base_region() == storage.base_region()
                &&& final(storage).at() == storage.at()
            },
{
}

/// Bytes are written, where memory is there, within the two pages or behind the Base. They then
/// stand where they were written, what is before them stays, and so does all behind the pages
/// where they were written within these.
pub proof fn law_write(bytes: &[u8], result: Result<usize>)
    ensures
        forall|storage: &mut MemoryStorage|
            #![trigger call_ensures(MemoryStorage::write, (storage, bytes), result)]
            call_ensures(MemoryStorage::write, (storage, bytes), result) && storage.at()
                + bytes@.len() <= usize::MAX && storage.at() + bytes@.len() <= u64::MAX && 0
                <= storage.at() && 0 <= storage.writable_from() && promises::memory_is_there(
                storage.room(),
                storage.at() + bytes@.len(),
            ) ==> {
                let end = storage.at() + bytes@.len();
                &&& result is Ok <==> bytes@.len() == 0 || end <= 8192 || storage.writable_from()
                    <= storage.at()
                &&& result matches Ok(written) ==> {
                    &&& written == bytes@.len()
                    &&& final(storage).at() == end
                    &&& bytes@.len() > 0 ==> end <= final(storage).image().len()
                    &&& storage.image().len() <= final(storage).image().len()
                    &&& forall|i: int|
                        0 <= i < bytes@.len() ==> final(storage).image()[storage.at() + i]
                            == #[trigger] bytes@[i]
                    &&& forall|p: int|
                        0 <= p < storage.at() && p < storage.image().len() ==> #[trigger] final(
                            storage
                        ).image()[p] == storage.image()[p]
                    &&& end <= 8192 ==> forall|p: int|
                        8192 <= p < storage.image().len() ==> #[trigger] final(storage).image()[p]
                            == storage.image()[p]
                }
                &&& result is Err ==> final(storage).image() == storage.image()
                &&& final(storage).base_region() == storage.base_region()
            },
{
}

/// As many bytes are read as the image has from the position on and the buffer has room for.
pub proof fn law_read(read: usize)
    ensures
        forall|storage: &mut MemoryStorage, buffer: &mut [u8]|
            #![trigger call_ensures(MemoryStorage::read, (storage, buffer), read)]
            call_ensures(MemoryStorage::read, (storage, buffer), read) && 0 <= storage.at() ==> {
                let left = if storage.at() < storage.image().len() {
                    storage.image().len() - storage.at()
                } else {
                    0
                };
                &&& read <= left
                &&& read <= buffer@.len()
                &&& read == left || read == buffer@.len()
                &&& final(buffer)@.len() == buffer@.len()
                &&& forall|i: int|
                    0 <= i < buffer@.len() ==> #[trigger] final(buffer)@[i] == (if i < read {
                        storage.image()[storage.at() + i]
                    } else {
                        buffer@[i]
                    })
                &&& final(storage).at() == storage.at() + read
                &&& final(storage).image() == storage.image()
            },
{
}

/// A part of an image is read wherever memory is there.
pub proof fn law_read_at(offset: u64, len: usize, result: Result<Vec<u8>>)
    ensures
        forall|storage: &mut MemoryStorage|
            #![trigger call_ensures(MemoryStorage::read_at, (storage, offset, len), result)]
            call_ensures(MemoryStorage::read_at, (storage, offset, len), result)
                && promises::memory_is_there(storage.room(), len as int) && offset + len
                <= storage.image().len() ==> {
                &&& result matches Ok(bytes)
                &&& bytes@.len() == len
                &&& forall|i: int|
                    0 <= i < len ==> #[trigger] bytes@[i] == storage.image()[offset + i]
                &&& final(storage).image() == storage.image()
                &&& final(storage).at() == storage.at()
            },
{
}

/// A position of an image is counted from its start, its end or the current position.
pub proof fn law_seek(position: SeekFrom, result: Result<u64>)
    ensures
        forall|storage: &mut MemoryStorage|
            #![trigger call_ensures(MemoryStorage::seek, (storage, position), result)]
            call_ensures(MemoryStorage::seek, (storage, position), result) && 0 <= storage.at()
                <= u64::MAX ==> {
                let target = match position {
                    SeekFrom::Start(position) => position as int,
                    SeekFrom::End(offset) => storage.image().len() + offset,
                    SeekFrom::Current(offset) => storage.at() + offset,
                };
                &&& result is Ok <==> 0 <= target <= u64::MAX
                &&& result matches Ok(at) ==> at == target && final(storage).at() == target
                &&& result is Err ==> final(storage).at() == storage.at()
                &&& final(storage).image() == storage.image()
            },
{
}

/// A Base takes the place of all that is behind the pages, where memory is there for these.
pub proof fn law_replace_base(offset: u64, bytes: Arc<Vec<u8>>, result: Result<()>)
    ensures
        forall|storage: &mut MemoryStorage|
            #![trigger call_ensures(MemoryStorage::replace_base, (storage, offset, bytes), result)]
            call_ensures(MemoryStorage::replace_base, (storage, offset, bytes), result)
                && promises::memory_is_there(storage.room(), 8192) ==> {
                &&& result is Ok <==> 8192 <= offset && bytes@.len() > 0 && offset + bytes@.len()
                    <= u64::MAX
                &&& result is Ok ==> {
                    &&& final(storage).image().len() == offset + bytes@.len()
                    &&& final(storage).base_region() == Some((offset, bytes@))
                    &&& forall|p: int|
                        0 <= p < offset + bytes@.len() ==> #[trigger] final(storage).image()[p]
                            == (if offset <= p {
                            bytes@[p - offset]
                        } else if p < 8192 && p < storage.image().len() {
                            storage.image()[p]
                        } else {
                            0
                        })
                }
                &&& result is Err ==> final(storage).image() == storage.image()
            },
{
}

/// A log that is not stored makes an image longer, without memory.
pub proof fn law_extend_log(additional: u64, result: Result<()>)
    ensures
        forall|storage: &mut MemoryStorage|
            #![trigger call_ensures(MemoryStorage::extend_log, (storage, additional), result)]
            call_ensures(MemoryStorage::extend_log, (storage, additional), result) ==> {
                &&& result is Ok <==> storage.image().len() + additional <= u64::MAX
                &&& result is Ok ==> {
                    &&& final(storage).image().len() == storage.image().len() + additional
                    &&& forall|p: int|
                        0 <= p < storage.image().len() ==> #[trigger] final(storage).image()[p]
                            == storage.image()[p]
                    &&& final(storage).at() == final(storage).image().len()
                }
                &&& result is Err ==> *final(storage) == *storage
            },
{
}

/// Immutable bytes of an image are had, where memory is there for a copy, wherever the image
/// has them; where they do not become its Base, they are those of the image.
pub proof fn law_load_immutable(offset: u64, size: u64, result: Result<BaseBytes>)
    ensures
        forall|storage: &mut MemoryStorage|
            #![trigger call_ensures(MemoryStorage::load_immutable, (storage, offset, size), result)]
            call_ensures(MemoryStorage::load_immutable, (storage, offset, size), result)
                && promises::memory_is_there(storage.room(), size as int) && size
                <= usize::MAX ==> {
                &&& result is Ok <==> size > 0 && offset + size <= storage.image().len()
                &&& result matches Ok(bytes) ==> (storage.base_region() is Some
                    || storage.stored_tail() == size) ==> bytes@.len() == size && forall|i: int|
                    0 <= i < size ==> #[trigger] bytes@[i] == storage.image()[offset + i]
                &&& final(storage).image() == storage.image()
            },
{
}

/// A buffer for a Base is made wherever memory is there for it.
pub proof fn law_new_buffer(
    room: Room,
    origin: u64,
    expected_size: u64,
    result: Result<OffsetBuffer>,
)
    requires
        call_ensures(OffsetBuffer::new_in, (room, origin, expected_size), result),
        promises::memory_is_there(room, expected_size as int),
    ensures
        result is Ok <==> expected_size <= usize::MAX,
        result matches Ok(buffer) ==> buffer@.len() == 0 && buffer.start() == origin && buffer.at()
            == 0,
{
}

/// What is written to a buffer stands where it was written; all else stays, and what is between
/// the end and what was written behind it is zero.
pub proof fn law_buffer_write(part: &[u8])
    ensures
        forall|buffer: &mut OffsetBuffer|
            #![trigger call_ensures(OffsetBuffer::write, (buffer, part), ())]
            call_ensures(OffsetBuffer::write, (buffer, part), ()) && 0 <= buffer.at() ==> {
                let end = buffer.at() + part@.len();
                &&& final(buffer)@.len() == (if end > buffer@.len() {
                    end
                } else {
                    buffer@.len() as int
                })
                &&& forall|p: int|
                    0 <= p < final(buffer)@.len() ==> #[trigger] final(buffer)@[p] == (if buffer.at()
                        <= p < end {
                        part@[p - buffer.at()]
                    } else if p < buffer@.len() {
                        buffer@[p]
                    } else {
                        0
                    })
                &&& final(buffer).at() == end
            },
{
}

/// As many bytes are read from a buffer as it has from the position on and there is room for.
pub proof fn law_buffer_read(read: usize)
    ensures
        forall|buffer: &mut OffsetBuffer, target: &mut [u8]|
            #![trigger call_ensures(OffsetBuffer::read, (buffer, target), read)]
            call_ensures(OffsetBuffer::read, (buffer, target), read) && 0 <= buffer.at() ==> {
                let left = if buffer.at() < buffer@.len() {
                    buffer@.len() - buffer.at()
                } else {
                    0
                };
                &&& read <= left
                &&& read <= target@.len()
                &&& read == left || read == target@.len()
                &&& final(target)@.len() == target@.len()
                &&& forall|i: int|
                    0 <= i < target@.len() ==> #[trigger] final(target)@[i] == (if i < read {
                        buffer@[buffer.at() + i]
                    } else {
                        target@[i]
                    })
                &&& final(buffer).at() == buffer.at() + read
                &&& final(buffer)@ == buffer@
            },
{
}

/// Entries with distinct keys within the limits of the format are written as a Base to a buffer
/// wherever memory is there for it. It stands where it was to be, and the rest of the buffer
/// stays.
pub proof fn law_write_base(
    start: u64,
    len: usize,
    entries: &[(&[u8], &[u8])],
    result: Result<WrittenBase>,
)
    requires
        len == entries@.len(),
        records::entries_fit(segment::pairs_view(entries@)),
        records::entry_keys(segment::pairs_view(entries@)).no_duplicates(),
        segment::measure_outcome(segment::pairs_view(entries@)) matches Ok((_, size)) && start
            + size <= u64::MAX,
    ensures
        forall|file: &mut OffsetBuffer|
            #![trigger call_ensures(write_base_with_metadata_at, (file, start, len, entries), result)]
            call_ensures(write_base_with_metadata_at, (file, start, len, entries), result)
                && file.start() <= start && promises::memory_is_there(
                file.room(),
                (segment::measure_outcome(segment::pairs_view(entries@))->Ok_0).1,
            ) ==> {
                let all = segment::pairs_view(entries@);
                let at = start - file.start();
                let segment = final(file)@.subrange(at, final(file).at());
                &&& result matches Ok(written)
                &&& written.size == segment.len()
                &&& written.len == len
                &&& state::holds_entries(segment, start, all)
                &&& final(file)@.len() >= file@.len()
                &&& forall|p: int|
                    0 <= p < file@.len() && !(at <= p < final(file).at()) ==> #[trigger] final(
                        file
                    )@[p] == file@[p]
            },
{
    let all = segment::pairs_view(entries@);
    compacting::law_measured_size(all);
    maintenance::law_measured_entries_can_be_built(start as int, all);
    maintenance::lemma_built_base(start, len as int, all);
    let segment = writer::base_segment(start as int, all);
    state::lemma_holds_entries(segment, start, all);
    assert forall|file: &mut OffsetBuffer|
        #![trigger call_ensures(write_base_with_metadata_at, (file, start, len, entries), result)]
        call_ensures(write_base_with_metadata_at, (file, start, len, entries), result)
            && file.start() <= start && promises::memory_is_there(
            file.room(),
            (segment::measure_outcome(all)->Ok_0).1,
        ) implies result is Ok && final(file)@.subrange(start - file.start(), final(file).at())
        == segment by {
        if result is Ok {
            assert(final(file)@.subrange(start - file.start(), final(file).at()) =~= segment);
        }
    }
}

} // verus!
