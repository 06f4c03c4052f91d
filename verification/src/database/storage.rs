//! Where the serialized image of a database lives.

use crate::bytes;
use crate::bytes::copy_into;
use crate::database::state::BaseBytes;
use crate::error;
use crate::error::{Error, ErrorKind, ErrorView, Result};
use crate::format::superblock::DATA_START;
use crate::room::Room;
use std::sync::Arc;
use vstd::prelude::*;

verus! {

/// A position to move to.
#[derive(Clone, Copy, Debug, PartialEq, Eq, Structural)]
pub enum SeekFrom {
    Start(u64),
    End(i64),
    Current(i64),
}

/// A file, of which the library knows the length. Its bytes are read and written by
/// whoever opened it.
pub struct FileStorage {
    pub len: u64,
}

/// An immutable range of an image in memory.
pub struct MemoryRegion {
    pub offset: u64,
    pub bytes: Arc<Vec<u8>>,
}

/// An image in memory. The active Base is shared with readers. Obsolete generations and
/// the non-durable Overlay log consume logical offsets but no backing bytes.
pub struct MemoryStorage {
    header: Vec<u8>,
    base: Option<MemoryRegion>,
    tail_start: u64,
    tail: Vec<u8>,
    len: u64,
    position: u64,
    room: Room,
}

/// The storage backend of a database.
pub enum Storage {
    File(FileStorage),
    Memory(MemoryStorage),
}

/// The error for memory that could not be had.
pub open spec fn growth_error() -> ErrorView {
    error::out_of_memory("could not grow memory storage"@)
}

/// The error for immutable bytes that could not be had.
pub open spec fn immutable_error() -> ErrorView {
    error::out_of_memory("could not allocate immutable bytes"@)
}

/// The bytes resized: cut, or filled up with zeros.
pub open spec fn resized(bytes: Seq<u8>, len: int) -> Seq<u8> {
    Seq::new(
        len as nat,
        |i: int|
            if i < bytes.len() {
                bytes[i]
            } else {
                0u8
            },
    )
}

fn resize_bytes(room: Room, bytes: &mut Vec<u8>, len: usize) -> (result: Result<()>)
    ensures
        match result {
            Ok(()) => {
                &&& room.grants(len > old(bytes)@.len(), len - old(bytes)@.len())
                &&& final(bytes)@ == resized(old(bytes)@, len as int)
            },
            Err(error) => {
                &&& room.may_refuse(len > old(bytes)@.len(), len - old(bytes)@.len())
                &&& error@ == growth_error()
                &&& final(bytes)@ == old(bytes)@
            },
        },
{
    if len > bytes.len() && !room.reserve_bytes(bytes, len - bytes.len()) {
        return Err(Error::from_io(ErrorKind::OutOfMemory, "could not grow memory storage"));
    }
    bytes.resize(len, 0);
    assert(bytes@ =~= resized(old(bytes)@, len as int));
    Ok(())
}

/// An image after a write at `at`. What the region of the write held behind it, up to
/// `region_end`, is dropped and reads as zeros.
pub open spec fn after_write(image: Seq<u8>, at: int, part: Seq<u8>, region_end: int) -> Seq<u8> {
    let end = at + part.len();
    Seq::new(
        if end > image.len() {
            end as nat
        } else {
            image.len()
        },
        |p: int|
            if at <= p < end {
                part[p - at]
            } else if end <= p < region_end || p >= image.len() {
                0u8
            } else {
                image[p]
            },
    )
}

/// An image after a new Base took the place of everything behind the pages at the start.
pub open spec fn after_replace(image: Seq<u8>, offset: int, base: Seq<u8>) -> Seq<u8> {
    Seq::new(
        (offset + base.len()) as nat,
        |p: int|
            if p >= offset {
                base[p - offset]
            } else if p >= DATA_START || p >= image.len() {
                0u8
            } else {
                image[p]
            },
    )
}

impl Default for MemoryStorage {
    fn default() -> (storage: Self)
        ensures
            storage.wf(),
            storage.image() == Seq::<u8>::empty(),
            storage.base_region() is None,
            storage.stored_header() == 0,
            storage.stored_tail() == 0,
            storage.at() == 0,
            storage.room() == Room::Ask,
    {
        MemoryStorage::new_in(Room::Ask)
    }
}

impl MemoryStorage {
    /// An empty image, with memory reserved in `room`.
    pub fn new_in(room: Room) -> (storage: Self)
        ensures
            storage.wf(),
            storage.image() == Seq::<u8>::empty(),
            storage.base_region() is None,
            storage.stored_header() == 0,
            storage.stored_tail() == 0,
            storage.at() == 0,
            storage.room() == room,
    {
        let storage = MemoryStorage {
            header: Vec::new(),
            base: None,
            tail_start: DATA_START,
            tail: Vec::new(),
            len: 0,
            position: 0,
            room,
        };
        assert(storage.image() =~= Seq::<u8>::empty());
        storage
    }

    /// The regions follow one another: the header, the Base and the tail. What is stored
    /// behind the end of the image is zero.
    pub closed spec fn wf(self) -> bool {
        &&& self.header@.len() <= DATA_START
        &&& self.tail_start + self.tail@.len() <= u64::MAX
        &&& self.tail@.len() > 0 ==> self.tail_start + self.tail@.len() <= self.len
        &&& match self.base {
            Some(base) => {
                &&& base.offset >= DATA_START
                &&& base.offset + base.bytes@.len() <= self.tail_start
                &&& self.tail_start <= self.len
            },
            None => self.tail_start == DATA_START,
        }
        &&& forall|p: int| p >= self.len ==> #[trigger] self.byte_at(p) == 0
    }

    /// The byte at a position of the image. What no region covers is zero.
    pub closed spec fn byte_at(self, p: int) -> u8 {
        if p < self.header@.len() {
            self.header@[p]
        } else if self.base is Some && self.base->Some_0.offset <= p < self.base->Some_0.offset
            + self.base->Some_0.bytes@.len() {
            self.base->Some_0.bytes@[p - self.base->Some_0.offset]
        } else if self.tail_start <= p < self.tail_start + self.tail@.len() {
            self.tail@[p - self.tail_start]
        } else {
            0
        }
    }

    /// The whole image.
    pub closed spec fn image(self) -> Seq<u8> {
        Seq::new(self.len as nat, |p: int| self.byte_at(p))
    }

    /// The immutable Base, with its position.
    pub closed spec fn base_region(self) -> Option<(u64, Seq<u8>)> {
        match self.base {
            Some(base) => Some((base.offset, base.bytes@)),
            None => None,
        }
    }

    /// Where bytes that can be written start, behind the pages at the start.
    pub closed spec fn writable_from(self) -> int {
        self.tail_start as int
    }

    /// How many of the bytes that can be written are stored. A log that is not stored
    /// consumes positions behind them.
    pub closed spec fn stored_tail(self) -> int {
        self.tail@.len() as int
    }

    /// How many bytes of the pages at the start are stored.
    pub closed spec fn stored_header(self) -> int {
        self.header@.len() as int
    }

    /// Who answers when memory is reserved.
    pub closed spec fn room(self) -> Room {
        self.room
    }

    /// Whether setting the length reserves memory.
    pub open spec fn set_len_reserves(self, len: int) -> bool {
        if self.base_region() is Some {
            len - self.writable_from() > self.stored_tail()
        } else if len <= DATA_START {
            len > self.stored_header()
        } else {
            DATA_START > self.stored_header() || len - DATA_START > self.stored_tail()
        }
    }

    /// Whether writing `len` bytes reserves memory.
    pub open spec fn write_reserves(self, len: int) -> bool {
        if self.in_header(len) {
            self.at() + len > self.stored_header()
        } else {
            self.at() + len - self.writable_from() > self.stored_tail()
        }
    }

    /// The position of the next read or write.
    pub closed spec fn at(self) -> int {
        self.position as int
    }

    /// The Base ends where writable bytes start or before, and lies in its place in the
    /// image.
    pub proof fn lemma_regions(self)
        requires
            self.wf(),
        ensures
            self.image().len() <= u64::MAX,
            self.writable_from() <= u64::MAX,
            0 <= self.at() <= u64::MAX,
            0 <= self.stored_header() <= DATA_START,
            0 <= self.stored_tail(),
            match self.base_region() {
                Some((offset, bytes)) => {
                    &&& offset >= DATA_START
                    &&& offset + bytes.len() <= self.writable_from()
                    &&& self.writable_from() <= self.image().len()
                    &&& self.image().subrange(offset as int, offset + bytes.len()) == bytes
                },
                None => self.writable_from() == DATA_START,
            },
    {
        if let Some(base) = self.base {
            assert(self.image().subrange(
                base.offset as int,
                base.offset + base.bytes@.len(),
            ) =~= base.bytes@);
        }
    }

    /// The length of the image.
    pub fn len(&self) -> (len: u64)
        ensures
            len == self.image().len(),
    {
        self.len
    }

    /// Cuts the image, or fills it up with zeros. The Base cannot be cut.
    pub fn set_len(&mut self, len: u64) -> (result: Result<()>)
        requires
            old(self).wf(),
        ensures
            final(self).wf(),
            final(self).room() == old(self).room(),
            final(self).base_region() == old(self).base_region(),
            final(self).writable_from() == old(self).writable_from(),
            final(self).at() == old(self).at(),
            match result {
                Ok(()) => {
                    &&& !(old(self).base_region() is Some && len < old(self).writable_from())
                    &&& final(self).image() == resized(old(self).image(), len as int)
                    &&& final(self).stored_tail() == (if len < old(self).writable_from() {
                        0
                    } else {
                        len - old(self).writable_from()
                    })
                    &&& final(self).stored_header() == (if old(self).base_region() is Some {
                        old(self).stored_header()
                    } else if len < DATA_START {
                        len as int
                    } else {
                        DATA_START as int
                    })
                    &&& old(self).room().grants(old(self).set_len_reserves(len as int), 1)
                },
                Err(error) => {
                    &&& final(self).image() == old(self).image()
                    &&& final(self).stored_tail() == old(self).stored_tail()
                    &&& if old(self).base_region() is Some && len < old(self).writable_from() {
                        error@ == error::invalid_input(
                            "cannot truncate the active in-memory Base"@,
                        )
                    } else {
                        (old(self).room().may_refuse(
                            old(self).set_len_reserves(len as int),
                            len as int,
                        ) && error@ == growth_error()) || (len - old(self).writable_from() > usize::MAX
                            && error@ == error::invalid_input(
                            "memory storage length is too large"@,
                        ))
                    }
                },
            },
    {
        let ghost before = *self;
        if self.base.is_some() {
            if len < self.tail_start {
                return Err(
                    Error::from_io(
                        ErrorKind::InvalidInput,
                        "cannot truncate the active in-memory Base",
                    ),
                );
            }
            let tail_len: u64 = len - self.tail_start;
            if tail_len > usize::MAX as u64 {
                return Err(
                    Error::from_io(
                        ErrorKind::InvalidInput,
                        "memory storage length is too large",
                    ),
                );
            }
            match resize_bytes(self.room, &mut self.tail, tail_len as usize) {
                Ok(()) => {},
                Err(error) => {
                    assert(self.image() =~= before.image());
                    assert(self.wf()) by {
                        self.lemma_same_bytes(before);
                    }
                    return Err(error);
                },
            }
            self.len = len;
            proof {
                before.lemma_set_len(*self, len);
            }
            return Ok(());
        }
        if len <= DATA_START {
            match resize_bytes(self.room, &mut self.header, len as usize) {
                Ok(()) => {},
                Err(error) => {
                    proof {
                        self.lemma_same_bytes(before);
                    }
                    return Err(error);
                },
            }
            self.tail.clear();
            self.tail_start = DATA_START;
        } else {
            match resize_bytes(self.room, &mut self.header, DATA_START as usize) {
                Ok(()) => {},
                Err(error) => {
                    proof {
                        self.lemma_same_bytes(before);
                    }
                    return Err(error);
                },
            }
            proof {
                self.lemma_same_bytes(before);
            }
            self.tail_start = DATA_START;
            let tail_len: u64 = len - DATA_START;
            if tail_len > usize::MAX as u64 {
                return Err(
                    Error::from_io(
                        ErrorKind::InvalidInput,
                        "memory storage length is too large",
                    ),
                );
            }
            match resize_bytes(self.room, &mut self.tail, tail_len as usize) {
                Ok(()) => {},
                Err(error) => {
                    proof {
                        self.lemma_same_bytes(before);
                    }
                    return Err(error);
                },
            }
        }
        self.len = len;
        proof {
            before.lemma_set_len(*self, len);
        }
        Ok(())
    }

    /// Storage with the same regions holds the same image; zeros at the end of the header
    /// change nothing.
    proof fn lemma_same_bytes(self, other: Self)
        requires
            other.wf(),
            self.base == other.base,
            self.tail_start == other.tail_start,
            self.tail@ == other.tail@,
            self.len == other.len,
            self.header@ == other.header@ || (self.header@ == resized(
                other.header@,
                self.header@.len() as int,
            ) && other.header@.len() <= self.header@.len() <= DATA_START),
        ensures
            self.wf(),
            self.image() == other.image(),
    {
        assert forall|p: int| p >= 0 implies #[trigger] self.byte_at(p) == other.byte_at(p) by {
            if p < other.header@.len() {
                assert(self.header@[p] == other.header@[p]);
            } else if p < self.header@.len() {
                assert(self.header@[p] == 0);
            }
        }
        assert forall|p: int| p >= self.len implies #[trigger] self.byte_at(p) == 0 by {
            assert(other.byte_at(p) == 0);
        }
        assert(self.image() =~= other.image());
    }

    proof fn lemma_set_len(self, after: Self, len: u64)
        requires
            self.wf(),
            after.len == len,
            after.base == self.base,
            after.tail_start == self.tail_start,
            match self.base {
                Some(_) => {
                    &&& len >= self.tail_start
                    &&& after.header@ == self.header@
                    &&& after.tail@ == resized(self.tail@, len - self.tail_start)
                },
                None => if len <= DATA_START {
                    &&& after.header@ == resized(self.header@, len as int)
                    &&& after.tail@ == Seq::<u8>::empty()
                } else {
                    &&& after.header@ == resized(self.header@, DATA_START as int)
                    &&& after.tail@ == resized(self.tail@, len - DATA_START)
                },
            },
        ensures
            after.wf(),
            after.image() == resized(self.image(), len as int),
    {
        assert forall|p: int| 0 <= p < len implies #[trigger] after.byte_at(p) == (if p
            < self.len {
            self.byte_at(p)
        } else {
            0
        }) by {
            if p >= self.len {
                assert(self.byte_at(p) == 0);
            }
        }
        assert(after.image() =~= resized(self.image(), len as int));
        assert forall|p: int| p >= len implies #[trigger] after.byte_at(p) == 0 by {
            if self.base is Some {
                if p < after.header@.len() {
                    assert(false);
                }
            }
        }
    }

    /// Makes a new Base the only thing behind the pages at the start.
    pub fn replace_base(&mut self, offset: u64, bytes: Arc<Vec<u8>>) -> (result: Result<()>)
        requires
            old(self).wf(),
        ensures
            final(self).wf(),
            final(self).room() == old(self).room(),
            match result {
                Ok(()) => {
                    &&& offset >= DATA_START
                    &&& bytes@.len() > 0
                    &&& offset + bytes@.len() <= u64::MAX
                    &&& final(self).image() == after_replace(
                        old(self).image(),
                        offset as int,
                        bytes@,
                    )
                    &&& final(self).base_region() == Some((offset, bytes@))
                    &&& final(self).stored_tail() == 0
                    &&& final(self).stored_header() == DATA_START
                    &&& final(self).at() == offset + bytes@.len()
                    &&& old(self).room().grants(old(self).stored_header() < DATA_START, 1)
                },
                Err(error) => {
                    &&& final(self).image() == old(self).image()
                    &&& final(self).base_region() == old(self).base_region()
                    &&& final(self).stored_tail() == old(self).stored_tail()
                    &&& final(self).at() == old(self).at()
                    &&& final(self).stored_header() == old(self).stored_header()
                    &&& if offset < DATA_START || bytes@.len() == 0 {
                        error@ == error::invalid_input("invalid in-memory Base range"@)
                    } else if offset + bytes@.len() > u64::MAX {
                        error@ == error::invalid_base("in-memory Base range overflows"@)
                    } else {
                        old(self).room().may_refuse(
                            old(self).stored_header() < DATA_START,
                            DATA_START as int,
                        ) && error@ == growth_error()
                    }
                },
            },
    {
        let ghost before = *self;
        if offset < DATA_START || bytes.len() == 0 {
            return Err(Error::from_io(ErrorKind::InvalidInput, "invalid in-memory Base range"));
        }
        let end: u64 = match offset.checked_add(bytes.len() as u64) {
            Some(end) => end,
            None => {
                return Err(Error::invalid_base("in-memory Base range overflows"));
            },
        };
        match resize_bytes(self.room, &mut self.header, DATA_START as usize) {
            Ok(()) => {},
            Err(error) => {
                proof {
                    self.lemma_same_bytes(before);
                }
                return Err(error);
            },
        }
        self.base = Some(MemoryRegion { offset, bytes });
        self.tail_start = end;
        self.tail.clear();
        self.len = end;
        self.position = end;
        proof {
            let base = self.base->Some_0;
            assert forall|p: int| 0 <= p < DATA_START implies #[trigger] self.byte_at(p) == (if p
                < before.len {
                before.byte_at(p)
            } else {
                0
            }) by {
                if p >= before.len {
                    assert(before.byte_at(p) == 0);
                }
            }
            assert(self.image() =~= after_replace(
                before.image(),
                offset as int,
                base.bytes@,
            ));
        }
        Ok(())
    }

    /// Lets the image grow by a log that is not stored: it reads as zeros.
    pub fn extend_log(&mut self, additional: u64) -> (result: Result<()>)
        requires
            old(self).wf(),
        ensures
            final(self).wf(),
            final(self).room() == old(self).room(),
            final(self).stored_header() == old(self).stored_header(),
            final(self).base_region() == old(self).base_region(),
            final(self).writable_from() == old(self).writable_from(),
            final(self).stored_tail() == old(self).stored_tail(),
            match result {
                Ok(()) => {
                    &&& old(self).image().len() + additional <= u64::MAX
                    &&& final(self).image() == resized(
                        old(self).image(),
                        old(self).image().len() + additional,
                    )
                    &&& final(self).at() == final(self).image().len()
                },
                Err(error) => {
                    &&& old(self).image().len() + additional > u64::MAX
                    &&& error@ == error::invalid_input("memory log size overflow"@)
                    &&& *final(self) == *old(self)
                },
            },
    {
        let ghost before = *self;
        let len: u64 = match self.len.checked_add(additional) {
            Some(len) => len,
            None => {
                return Err(Error::from_io(ErrorKind::InvalidInput, "memory log size overflow"));
            },
        };
        self.len = len;
        self.position = len;
        proof {
            assert forall|p: int| p >= 0 implies #[trigger] self.byte_at(p) == before.byte_at(
                p,
            ) by {}
            assert forall|p: int| p >= self.len implies #[trigger] self.byte_at(p) == 0 by {
                assert(before.byte_at(p) == 0);
            }
            assert forall|p: int| before.len <= p < self.len implies #[trigger] self.byte_at(p)
                == 0 by {
                assert(before.byte_at(p) == 0);
            }
            assert(self.image() =~= resized(before.image(), len as int));
        }
        Ok(())
    }

    /// Reads from the current position into the start of the buffer, up to the end of the
    /// buffer or of the image, and moves behind what was read.
    pub fn read(&mut self, buffer: &mut [u8]) -> (read: usize)
        requires
            old(self).wf(),
        ensures
            final(self).wf(),
            final(self).room() == old(self).room(),
            final(self).stored_header() == old(self).stored_header(),
            final(self).image() == old(self).image(),
            final(self).base_region() == old(self).base_region(),
            final(self).writable_from() == old(self).writable_from(),
            final(self).stored_tail() == old(self).stored_tail(),
            final(self).at() == old(self).at() + read,
            read == (if old(self).at() >= old(self).image().len() {
                0
            } else if old(self).image().len() - old(self).at() < old(buffer)@.len() {
                old(self).image().len() - old(self).at()
            } else {
                old(buffer)@.len() as int
            }),
            read == 0 ==> final(buffer)@ == old(buffer)@,
            read > 0 ==> final(buffer)@ == bytes::overwritten(
                old(buffer)@,
                0,
                old(self).image().subrange(old(self).at(), old(self).at() + read),
            ),
    {
        let ghost before = *self;
        let ghost empty = buffer@;
        let ghost start = self.position as int;
        assert(buffer@.len() == buffer.len());
        if buffer.len() == 0 || self.position >= self.len {
            return 0;
        }
        let left: u64 = self.len - self.position;
        let available: usize = if left < buffer.len() as u64 {
            left as usize
        } else {
            buffer.len()
        };
        let mut written: usize = 0;
        while written < available
            invariant
                before.wf(),
                written <= available,
                available <= empty.len(),
                empty.len() <= usize::MAX,
                start + available <= before.len,
                buffer@.len() == empty.len(),
                self.header == before.header,
                self.base == before.base,
                self.tail_start == before.tail_start,
                self.tail == before.tail,
                self.len == before.len,
                self.room == before.room,
                self.position == start + written,
                forall|j: int|
                    0 <= j < empty.len() ==> #[trigger] buffer@[j] == (if j < written {
                        before.byte_at(start + j)
                    } else {
                        empty[j]
                    }),
            decreases available - written,
        {
            let position: u64 = self.position;
            let wanted: usize = available - written;
            let ghost filled = buffer@;
            proof {
                self.lemma_same_bytes(before);
            }
            let len: usize = self.read_region(buffer, written, wanted);
            self.position = position + len as u64;
            proof {
                assert forall|j: int| 0 <= j < empty.len() implies #[trigger] buffer@[j] == (if j
                    < written + len {
                    before.byte_at(start + j)
                } else {
                    empty[j]
                }) by {
                    assert(buffer@[j] == (if written <= j < written + len {
                        self.byte_at(position + (j - written))
                    } else {
                        filled[j]
                    }));
                }
            }
            written += len;
        }
        proof {
            assert forall|p: int| p >= 0 implies #[trigger] self.byte_at(p) == before.byte_at(
                p,
            ) by {}
            assert(self.image() =~= before.image());
            assert forall|p: int| p >= self.len implies #[trigger] self.byte_at(p) == 0 by {
                assert(before.byte_at(p) == 0);
            }
            let part = before.image().subrange(start, start + available);
            assert forall|j: int| 0 <= j < available implies buffer@[j] == part[j] by {
                assert(before.image()[start + j] == before.byte_at(start + j));
            }
            assert(buffer@ =~= bytes::overwritten(empty, 0, part));
        }
        written
    }

    /// Reads from the current position, at most up to the end of the region that covers it,
    /// or to the start of the next one where none does.
    fn read_region(&self, buffer: &mut [u8], at: usize, wanted: usize) -> (len: usize)
        requires
            self.wf(),
            0 < wanted,
            at + wanted <= old(buffer)@.len(),
            self.position + wanted <= self.len,
        ensures
            0 < len <= wanted,
            final(buffer)@.len() == old(buffer)@.len(),
            forall|j: int|
                0 <= j < old(buffer)@.len() ==> #[trigger] final(buffer)@[j] == (if at <= j < at
                    + len {
                    self.byte_at(self.position + (j - at))
                } else {
                    old(buffer)@[j]
                }),
    {
        assert(buffer@.len() == buffer.len());
        let position: u64 = self.position;
        if position < self.header.len() as u64 {
            let start: usize = position as usize;
            let len: usize = smaller(self.header.len() - start, wanted);
            copy_into(buffer, at, &self.header.as_slice()[start..start + len]);
            return len;
        }
        if let Some(base) = &self.base {
            let base_end: u64 = base.offset + base.bytes.len() as u64;
            if position >= base.offset && position < base_end {
                let start: usize = (position - base.offset) as usize;
                let len: usize = smaller(base.bytes.len() - start, wanted);
                copy_into(buffer, at, &base.bytes.as_slice()[start..start + len]);
                return len;
            }
        }
        let tail_end: u64 = self.tail_start + self.tail.len() as u64;
        if position >= self.tail_start && position < tail_end {
            let start: usize = (position - self.tail_start) as usize;
            let len: usize = smaller(self.tail.len() - start, wanted);
            copy_into(buffer, at, &self.tail.as_slice()[start..start + len]);
            return len;
        }
        let mut next: u64 = self.len;
        if let Some(base) = &self.base {
            if base.offset > position && base.offset < next {
                next = base.offset;
            }
        }
        if self.tail_start > position && self.tail_start < next {
            next = self.tail_start;
        }
        let gap: u64 = next - position;
        let len: usize = if gap < wanted as u64 {
            gap as usize
        } else {
            wanted
        };
        let mut i: usize = 0;
        let ghost before = buffer@;
        while i < len
            invariant
                i <= len,
                len <= wanted,
                at + wanted <= before.len(),
                before.len() <= usize::MAX,
                buffer@.len() == before.len(),
                forall|j: int|
                    0 <= j < before.len() ==> #[trigger] buffer@[j] == (if at <= j < at + i {
                        0
                    } else {
                        before[j]
                    }),
            decreases len - i,
        {
            buffer[at + i] = 0;
            i += 1;
        }
        len
    }

    /// Whether a write at the current position lies within the pages at the start.
    pub open spec fn in_header(self, len: int) -> bool {
        self.at() + len <= DATA_START
    }

    /// Writes at the current position and moves behind what was written. What the region of
    /// the write held behind it is dropped and reads as zeros. The Base cannot be written.
    pub fn write(&mut self, bytes: &[u8]) -> (result: Result<usize>)
        requires
            old(self).wf(),
        ensures
            final(self).wf(),
            final(self).room() == old(self).room(),
            final(self).base_region() == old(self).base_region(),
            final(self).writable_from() == old(self).writable_from(),
            match result {
                Ok(written) => {
                    &&& written == bytes@.len()
                    &&& final(self).at() == old(self).at() + bytes@.len()
                    &&& bytes@.len() > 0 ==> old(self).in_header(bytes@.len() as int) || old(
                        self,
                    ).at() >= old(self).writable_from()
                    &&& final(self).stored_tail() == (if bytes@.len() == 0 || old(self).in_header(
                        bytes@.len() as int,
                    ) {
                        old(self).stored_tail()
                    } else {
                        old(self).at() + bytes@.len() - old(self).writable_from()
                    })
                    &&& final(self).stored_header() == (if bytes@.len() > 0 && old(
                        self,
                    ).in_header(bytes@.len() as int) {
                        old(self).at() + bytes@.len()
                    } else {
                        old(self).stored_header()
                    })
                    &&& bytes@.len() > 0 ==> old(self).room().grants(
                        old(self).write_reserves(bytes@.len() as int),
                        1,
                    )
                    &&& final(self).image() == (if bytes@.len() == 0 {
                        old(self).image()
                    } else if old(self).in_header(bytes@.len() as int) {
                        after_write(
                            old(self).image(),
                            old(self).at(),
                            bytes@,
                            DATA_START as int,
                        )
                    } else {
                        after_write(
                            old(self).image(),
                            old(self).at(),
                            bytes@,
                            old(self).image().len() as int,
                        )
                    })
                },
                Err(error) => {
                    &&& bytes@.len() > 0
                    &&& final(self).image() == old(self).image()
                    &&& final(self).stored_header() == old(self).stored_header()
                    &&& final(self).stored_tail() == old(self).stored_tail()
                    &&& final(self).at() == old(self).at()
                    &&& if old(self).at() + bytes@.len() > u64::MAX {
                        error@ == error::invalid_input("write range overflow"@)
                    } else if !old(self).in_header(bytes@.len() as int) && old(self).at() < old(
                        self,
                    ).writable_from() {
                        error@ == error::invalid_input(
                            "cannot overwrite an immutable in-memory Base"@,
                        )
                    } else {
                        ||| old(self).room().may_refuse(
                            old(self).write_reserves(bytes@.len() as int),
                            old(self).at() + bytes@.len(),
                        ) && error@ == growth_error()
                        ||| old(self).at() - old(self).writable_from() > usize::MAX && error@
                            == error::invalid_input("write offset is too large"@)
                        ||| old(self).at() - old(self).writable_from() + bytes@.len() > usize::MAX
                            && error@ == error::invalid_input("write range overflow"@)
                    }
                },
            },
    {
        let ghost before = *self;
        if bytes.len() == 0 {
            return Ok(0);
        }
        assert(bytes@.len() == bytes.len());
        let start: u64 = self.position;
        let end: u64 = match start.checked_add(bytes.len() as u64) {
            Some(end) => end,
            None => {
                return Err(Error::from_io(ErrorKind::InvalidInput, "write range overflow"));
            },
        };
        if end <= DATA_START {
            match resize_bytes(self.room, &mut self.header, end as usize) {
                Ok(()) => {},
                Err(error) => {
                    proof {
                        self.lemma_same_bytes(before);
                    }
                    return Err(error);
                },
            }
            copy_into(self.header.as_mut_slice(), start as usize, bytes);
        } else if start >= self.tail_start {
            let offset: u64 = start - self.tail_start;
            if offset > usize::MAX as u64 {
                return Err(
                    Error::from_io(ErrorKind::InvalidInput, "write offset is too large"),
                );
            }
            let offset: usize = offset as usize;
            let tail_end: usize = match offset.checked_add(bytes.len()) {
                Some(end) => end,
                None => {
                    return Err(Error::from_io(ErrorKind::InvalidInput, "write range overflow"));
                },
            };
            match resize_bytes(self.room, &mut self.tail, tail_end) {
                Ok(()) => {},
                Err(error) => {
                    proof {
                        self.lemma_same_bytes(before);
                    }
                    return Err(error);
                },
            }
            copy_into(self.tail.as_mut_slice(), offset, bytes);
        } else {
            return Err(
                Error::from_io(
                    ErrorKind::InvalidInput,
                    "cannot overwrite an immutable in-memory Base",
                ),
            );
        }
        self.position = end;
        if end > self.len {
            self.len = end;
        }
        proof {
            let region_end = if end <= DATA_START {
                DATA_START as int
            } else {
                before.len as int
            };
            assert forall|p: int| p >= 0 implies #[trigger] self.byte_at(p) == (if start <= p
                < end {
                bytes@[p - start]
            } else if end <= p < region_end || p >= before.len {
                0
            } else {
                before.byte_at(p)
            }) by {
                if p >= before.len {
                    assert(before.byte_at(p) == 0);
                }
            }
            assert(self.image() =~= after_write(
                before.image(),
                start as int,
                bytes@,
                region_end,
            ));
        }
        Ok(bytes.len())
    }

    /// Where a seek leads, if it leads anywhere.
    pub open spec fn seek_target(self, position: SeekFrom) -> int {
        match position {
            SeekFrom::Start(position) => position as int,
            SeekFrom::End(offset) => self.image().len() + offset,
            SeekFrom::Current(offset) => self.at() + offset,
        }
    }

    /// Moves to a position.
    pub fn seek(&mut self, position: SeekFrom) -> (result: Result<u64>)
        requires
            old(self).wf(),
        ensures
            final(self).wf(),
            final(self).room() == old(self).room(),
            final(self).stored_header() == old(self).stored_header(),
            final(self).image() == old(self).image(),
            final(self).base_region() == old(self).base_region(),
            final(self).writable_from() == old(self).writable_from(),
            final(self).stored_tail() == old(self).stored_tail(),
            match result {
                Ok(at) => at == old(self).seek_target(position) && final(self).at() == at,
                Err(error) => !(0 <= old(self).seek_target(position) <= u64::MAX) && error@
                    == error::invalid_input("invalid seek position"@) && final(self).at() == old(
                    self,
                ).at(),
            },
    {
        let ghost before = *self;
        let (base, offset): (u64, i64) = match position {
            SeekFrom::Start(position) => (position, 0),
            SeekFrom::End(offset) => (self.len, offset),
            SeekFrom::Current(offset) => (self.position, offset),
        };
        let target: i128 = base as i128 + offset as i128;
        if target < 0 || target > 0xffff_ffff_ffff_ffff {
            return Err(Error::from_io(ErrorKind::InvalidInput, "invalid seek position"));
        }
        self.position = target as u64;
        proof {
            self.lemma_same_bytes(before);
        }
        Ok(self.position)
    }

    /// Reads `len` bytes at `offset`, where the image has them. The position stays.
    pub fn read_at(&mut self, offset: u64, len: usize) -> (result: Result<Vec<u8>>)
        requires
            old(self).wf(),
            offset + len <= old(self).image().len(),
        ensures
            final(self).wf(),
            final(self).room() == old(self).room(),
            final(self).stored_header() == old(self).stored_header(),
            final(self).image() == old(self).image(),
            final(self).base_region() == old(self).base_region(),
            final(self).writable_from() == old(self).writable_from(),
            final(self).stored_tail() == old(self).stored_tail(),
            final(self).at() == old(self).at(),
            match result {
                Ok(bytes) => {
                    &&& bytes@ == old(self).image().subrange(offset as int, offset + len)
                    &&& old(self).room().grants(len > 0, len as int)
                },
                Err(error) => old(self).room().may_refuse(len > 0, len as int) && error@
                    == immutable_error(),
            },
    {
        let ghost before = *self;
        let mut bytes: Vec<u8> = Vec::new();
        if !self.room.reserve_bytes(&mut bytes, len) {
            return Err(
                Error::from_io(ErrorKind::OutOfMemory, "could not allocate immutable bytes"),
            );
        }
        bytes.resize(len, 0);
        let previous: u64 = self.position;
        self.position = offset;
        proof {
            self.lemma_same_bytes(before);
        }
        let ghost moved = *self;
        if len > 0 {
            let read: usize = self.read(bytes.as_mut_slice());
            assert(read == len);
        }
        assert(bytes@ =~= before.image().subrange(offset as int, offset + len));
        let ghost after = *self;
        self.position = previous;
        proof {
            self.lemma_same_bytes(after);
        }
        Ok(bytes)
    }

    /// Whether a range that is loaded becomes the Base: there is none, and the range is all
    /// of the bytes that can be written.
    pub open spec fn becomes_base(self, offset: int, size: int) -> bool {
        &&& self.base_region() is None
        &&& size > 0
        &&& offset == self.writable_from()
        &&& offset + size == self.image().len()
    }

    /// Whether a range lies in the Base.
    pub open spec fn in_base(self, offset: int, size: int) -> bool {
        self.base_region() matches Some((at, bytes)) && at <= offset && offset + size <= at
            + bytes.len()
    }

    /// The bytes of a range that is loaded: those that are stored, where it becomes the Base.
    pub open spec fn loaded(self, offset: int, size: int) -> Seq<u8> {
        if self.becomes_base(offset, size) {
            self.image().subrange(offset, offset + self.stored_tail())
        } else {
            self.image().subrange(offset, offset + size)
        }
    }

    /// A range of the image, as immutable bytes. A range of the Base is shared with it. The
    /// writable bytes become the Base where there is none and the range is all of them; a log
    /// that is not stored is then no part of it. Memory is reserved only for a copy.
    pub fn load_immutable(&mut self, offset: u64, size: u64) -> (result: Result<BaseBytes>)
        requires
            old(self).wf(),
        ensures
            final(self).wf(),
            final(self).room() == old(self).room(),
            final(self).stored_header() == old(self).stored_header(),
            final(self).image() == old(self).image(),
            final(self).at() == old(self).at(),
            final(self).base_region() == (if old(self).becomes_base(offset as int, size as int) {
                Some((offset, old(self).loaded(offset as int, size as int)))
            } else {
                old(self).base_region()
            }),
            final(self).stored_tail() == (if old(self).becomes_base(offset as int, size as int) {
                0
            } else {
                old(self).stored_tail()
            }),
            match result {
                Ok(bytes) => {
                    &&& size > 0
                    &&& offset + size <= old(self).image().len()
                    &&& bytes.wf()
                    &&& bytes@ == old(self).loaded(offset as int, size as int)
                    &&& old(self).room().grants(
                        !old(self).becomes_base(offset as int, size as int) && !old(
                            self,
                        ).in_base(offset as int, size as int),
                        size as int,
                    )
                },
                Err(error) => if size == 0 {
                    error@ == error::invalid_data("cannot load an empty segment"@)
                } else if offset + size > old(self).image().len() {
                    error@ == error::invalid_base("segment extends beyond memory storage"@)
                } else {
                    &&& !old(self).becomes_base(offset as int, size as int)
                    &&& !old(self).in_base(offset as int, size as int)
                    &&& (old(self).room().may_refuse(true, size as int) && error@ == immutable_error()) || (size
                        > usize::MAX && error@ == error::invalid_base("segment is too large"@))
                },
            },
    {
        let ghost before = *self;
        if size == 0 {
            return Err(Error::from_io(ErrorKind::InvalidData, "cannot load an empty segment"));
        }
        let end: u64 = match offset.checked_add(size) {
            Some(end) => end,
            None => {
                return Err(Error::invalid_base("segment extends beyond memory storage"));
            },
        };
        if end > self.len {
            return Err(Error::invalid_base("segment extends beyond memory storage"));
        }
        if let Some(base) = &self.base {
            let base_end: u64 = base.offset + base.bytes.len() as u64;
            if offset >= base.offset && end <= base_end {
                let start: usize = (offset - base.offset) as usize;
                let stop: usize = (end - base.offset) as usize;
                proof {
                    assert(base.bytes@.subrange(start as int, stop as int)
                        =~= before.image().subrange(offset as int, end as int)) by {
                        let left = base.bytes@.subrange(start as int, stop as int);
                        let right = before.image().subrange(offset as int, end as int);
                        assert forall|j: int| 0 <= j < size implies #[trigger] left[j]
                            == right[j] by {
                            assert(before.byte_at(offset + j) == base.bytes@[start + j]);
                        }
                    }
                }
                return Ok(
                    BaseBytes::Memory { bytes: Arc::clone(&base.bytes), range: start..stop },
                );
            }
        }
        if self.base.is_none() && offset == self.tail_start && end == self.len {
            let mut taken: Vec<u8> = Vec::new();
            std::mem::swap(&mut taken, &mut self.tail);
            let bytes = Arc::new(taken);
            self.base = Some(MemoryRegion { offset, bytes: Arc::clone(&bytes) });
            self.tail_start = end;
            proof {
                assert forall|p: int| p >= 0 implies #[trigger] self.byte_at(p) == before.byte_at(
                    p,
                ) by {}
                assert forall|p: int| p >= self.len implies #[trigger] self.byte_at(p) == 0 by {
                    assert(before.byte_at(p) == 0);
                }
                assert(self.image() =~= before.image());
                assert(bytes@ =~= before.loaded(offset as int, size as int)) by {
                    let right = before.image().subrange(offset as int, offset + bytes@.len());
                    assert forall|j: int| 0 <= j < bytes@.len() implies bytes@[j]
                        == #[trigger] right[j] by {
                        assert(before.byte_at(offset + j) == bytes@[j]);
                    }
                }
            }
            return Ok(BaseBytes::whole(bytes));
        }
        if size > usize::MAX as u64 {
            return Err(Error::invalid_base("segment is too large"));
        }
        match self.read_at(offset, size as usize) {
            Ok(bytes) => Ok(BaseBytes::whole(Arc::new(bytes))),
            Err(error) => Err(error),
        }
    }
}

/// The smaller of two lengths.
fn smaller(a: usize, b: usize) -> (len: usize)
    ensures
        len == (if a < b {
            a
        } else {
            b
        }),
{
    if a < b {
        a
    } else {
        b
    }
}

impl Storage {
    pub open spec fn wf(self) -> bool {
        match self {
            Storage::File(_) => true,
            Storage::Memory(memory) => memory.wf(),
        }
    }

    /// The length of the image.
    pub open spec fn size(self) -> int {
        match self {
            Storage::File(file) => file.len as int,
            Storage::Memory(memory) => memory.image().len() as int,
        }
    }

    /// An empty image in memory.
    pub fn memory() -> (storage: Self)
        ensures
            storage matches Storage::Memory(memory) && memory.wf() && memory.image() == Seq::<
                u8,
            >::empty() && memory.base_region() is None && memory.stored_header() == 0
                && memory.stored_tail() == 0 && memory.at() == 0 && memory.room() == Room::Ask,
    {
        Storage::Memory(MemoryStorage::default())
    }

    /// The length of the image.
    pub fn len(&self) -> (len: u64)
        ensures
            len == self.size(),
    {
        match self {
            Storage::File(file) => file.len,
            Storage::Memory(memory) => memory.len(),
        }
    }

    /// Sets the length of the image. For a file this records the length that it has been
    /// given.
    pub fn set_len(&mut self, len: u64) -> (result: Result<()>)
        requires
            old(self).wf(),
        ensures
            final(self).wf(),
            match (*old(self), *final(self)) {
                (Storage::File(_), Storage::File(file)) => result is Ok && file.len == len,
                (Storage::Memory(before), Storage::Memory(after)) => {
                    &&& after.base_region() == before.base_region()
                    &&& after.room() == before.room()
                    &&& match result {
                        Ok(()) => after.image() == resized(before.image(), len as int)
                            && before.room().grants(before.set_len_reserves(len as int), 1),
                        Err(error) => after.image() == before.image(),
                    }
                    &&& before.base_region() is Some && len < before.writable_from()
                        ==> error::outcome(result) == Err::<(), ErrorView>(
                        error::invalid_input("cannot truncate the active in-memory Base"@),
                    )
                    &&& !(before.base_region() is Some && len < before.writable_from())
                        ==> match result {
                        Ok(()) => true,
                        Err(error) => (before.room().may_refuse(
                            before.set_len_reserves(len as int),
                            len as int,
                        ) && error@ == growth_error()) || (len - before.writable_from()
                            > usize::MAX && error@ == error::invalid_input(
                            "memory storage length is too large"@,
                        )),
                    }
                },
                _ => false,
            },
    {
        match self {
            Storage::File(file) => {
                file.len = len;
                Ok(())
            },
            Storage::Memory(memory) => memory.set_len(len),
        }
    }

    /// Makes a new Base the only thing behind the pages at the start of an image in memory.
    pub fn replace_memory_base(&mut self, offset: u64, bytes: Arc<Vec<u8>>) -> (result: Result<()>)
        requires
            old(self).wf(),
        ensures
            final(self).wf(),
            match (*old(self), *final(self)) {
                (Storage::File(before), Storage::File(after)) => after == before
                    && error::outcome(result) == Err::<(), ErrorView>(
                    error::invalid_input("cannot install an in-memory Base into file storage"@),
                ),
                (Storage::Memory(before), Storage::Memory(after)) => after.room() == before.room()
                    && match result {
                    Ok(()) => {
                        &&& before.room().grants(before.stored_header() < DATA_START, 1)
                        &&& after.image() == after_replace(
                            before.image(),
                            offset as int,
                            bytes@,
                        )
                        &&& after.base_region() == Some((offset, bytes@))
                    },
                    Err(error) => {
                        &&& after.image() == before.image()
                        &&& after.base_region() == before.base_region()
                        &&& if offset < DATA_START || bytes@.len() == 0 {
                            error@ == error::invalid_input("invalid in-memory Base range"@)
                        } else if offset + bytes@.len() > u64::MAX {
                            error@ == error::invalid_base("in-memory Base range overflows"@)
                        } else {
                            before.room().may_refuse(
                                before.stored_header() < DATA_START,
                                DATA_START as int,
                            ) && error@ == growth_error()
                        }
                    },
                },
                _ => false,
            },
    {
        match self {
            Storage::Memory(memory) => memory.replace_base(offset, bytes),
            Storage::File(_) => Err(
                Error::from_io(
                    ErrorKind::InvalidInput,
                    "cannot install an in-memory Base into file storage",
                ),
            ),
        }
    }

    /// Lets an image in memory grow by a log that is not stored.
    pub fn extend_memory_log(&mut self, additional: u64) -> (result: Result<()>)
        requires
            old(self).wf(),
        ensures
            final(self).wf(),
            match (*old(self), *final(self)) {
                (Storage::File(before), Storage::File(after)) => after == before
                    && error::outcome(result) == Err::<(), ErrorView>(
                    error::invalid_input("cannot extend an in-memory log in file storage"@),
                ),
                (Storage::Memory(before), Storage::Memory(after)) => {
                    &&& after.base_region() == before.base_region()
                    &&& after.room() == before.room()
                    &&& match result {
                        Ok(()) => before.image().len() + additional <= u64::MAX && after.image()
                            == resized(before.image(), before.image().len() + additional),
                        Err(error) => {
                            &&& before.image().len() + additional > u64::MAX
                            &&& error@ == error::invalid_input("memory log size overflow"@)
                            &&& after == before
                        },
                    }
                },
                _ => false,
            },
    {
        match self {
            Storage::Memory(memory) => memory.extend_log(additional),
            Storage::File(_) => Err(
                Error::from_io(
                    ErrorKind::InvalidInput,
                    "cannot extend an in-memory log in file storage",
                ),
            ),
        }
    }

    /// The bytes of the Base of an image in memory.
    pub fn memory_base_mapping(&self) -> (mapping: Option<&Arc<Vec<u8>>>)
        ensures
            match self {
                Storage::File(_) => mapping is None,
                Storage::Memory(memory) => match memory.base_region() {
                    Some((_, bytes)) => mapping matches Some(mapping) && mapping@ == bytes,
                    None => mapping is None,
                },
            },
    {
        match self {
            Storage::Memory(memory) => match &memory.base {
                Some(base) => Some(&base.bytes),
                None => None,
            },
            Storage::File(_) => None,
        }
    }

    /// The bytes that an image in memory takes: those of its regions.
    pub fn memory_materialized_bytes(&self) -> (bytes: Option<usize>)
        requires
            self matches Storage::Memory(memory) ==> memory.materialized() <= usize::MAX,
        ensures
            bytes == (match self {
                Storage::File(_) => None,
                Storage::Memory(memory) => Some(memory.materialized() as usize),
            }),
    {
        match self {
            Storage::Memory(memory) => {
                let base: usize = match &memory.base {
                    Some(base) => base.bytes.len(),
                    None => 0,
                };
                Some(memory.header.len() + base + memory.tail.len())
            },
            Storage::File(_) => None,
        }
    }

    /// Whether the image is in memory.
    pub fn is_memory(&self) -> (yes: bool)
        ensures
            yes == (self is Memory),
    {
        match self {
            Storage::Memory(_) => true,
            Storage::File(_) => false,
        }
    }
}

impl MemoryStorage {
    /// The number of bytes in the regions.
    pub closed spec fn materialized(self) -> int {
        self.header@.len() + (match self.base {
            Some(base) => base.bytes@.len() as int,
            None => 0int,
        }) + self.tail@.len()
    }
}

} // verus!
