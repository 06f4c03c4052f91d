//! Superblocks: two alternating pages that say where the active Base and its log
//! are.

use crate::bytes;
use crate::bytes::{push_bytes, push_u32, push_u64, same_bytes, u32_at, u64_at};
use crate::checksum;
use crate::checksum::crc32c;
use crate::database::storage;
use crate::database::storage::{MemoryStorage, SeekFrom};
use crate::error;
use crate::error::{Error, ErrorKind, ErrorView, Result};
use crate::format::segment::BASE_HEADER;
use crate::text;
use crate::text::append_decimal;
use vstd::prelude::*;
use vstd::string::StringExecFns;

verus! {

pub const FORMAT_VERSION: u32 = 1;

pub const SUPERBLOCK_SIZE: u64 = 4096;

pub const HEADER_SIZE: usize = 72;

pub const DATA_START: u64 = 8192;

pub const ENVELOPE_MIN_SIZE: usize = 28;

/// The bytes that open a Superblock page.
pub open spec fn magic() -> Seq<u8> {
    seq![0x4cu8, 0x4bu8, 0x56u8, 0u8, 0u8, 0u8, 0u8, 0u8]
}

/// What a Superblock says.
pub struct SuperblockView {
    pub generation: u64,
    pub base_offset: u64,
    pub base_size: u64,
    pub base_slots: u64,
    pub base_len: u64,
    pub log_start: u64,
    pub base_checksum: u32,
}

/// Where the active Base and its log are.
#[derive(Clone, Copy, Debug)]
pub struct Superblock {
    generation: u64,
    base_offset: u64,
    base_size: u64,
    base_slots: u64,
    base_len: u64,
    log_start: u64,
    base_checksum: u32,
}

impl View for Superblock {
    type V = SuperblockView;

    closed spec fn view(&self) -> SuperblockView {
        SuperblockView {
            generation: self.generation,
            base_offset: self.base_offset,
            base_size: self.base_size,
            base_slots: self.base_slots,
            base_len: self.base_len,
            log_start: self.log_start,
            base_checksum: self.base_checksum,
        }
    }
}

impl Superblock {
    pub fn new(
        generation: u64,
        base_offset: u64,
        base_size: u64,
        base_slots: u64,
        base_len: u64,
        log_start: u64,
        base_checksum: u32,
    ) -> (superblock: Self)
        ensures
            superblock@ == (SuperblockView {
                generation,
                base_offset,
                base_size,
                base_slots,
                base_len,
                log_start,
                base_checksum,
            }),
    {
        Superblock {
            generation,
            base_offset,
            base_size,
            base_slots,
            base_len,
            log_start,
            base_checksum,
        }
    }

    pub fn generation(self) -> (generation: u64)
        ensures
            generation == self@.generation,
    {
        self.generation
    }

    pub fn base_offset(self) -> (base_offset: u64)
        ensures
            base_offset == self@.base_offset,
    {
        self.base_offset
    }

    pub fn base_size(self) -> (base_size: u64)
        ensures
            base_size == self@.base_size,
    {
        self.base_size
    }

    pub fn base_slots(self) -> (base_slots: u64)
        ensures
            base_slots == self@.base_slots,
    {
        self.base_slots
    }

    pub fn base_len(self) -> (base_len: u64)
        ensures
            base_len == self@.base_len,
    {
        self.base_len
    }

    pub fn log_start(self) -> (log_start: u64)
        ensures
            log_start == self@.log_start,
    {
        self.log_start
    }

    pub fn base_checksum(self) -> (base_checksum: u32)
        ensures
            base_checksum == self@.base_checksum,
    {
        self.base_checksum
    }
}

/// The part of a header that its checksum covers.
pub open spec fn header_body(superblock: SuperblockView) -> Seq<u8> {
    magic() + bytes::u32_bytes(FORMAT_VERSION) + bytes::u32_bytes(HEADER_SIZE as u32)
        + bytes::u64_bytes(superblock.generation) + bytes::u64_bytes(superblock.base_offset)
        + bytes::u64_bytes(superblock.base_size) + bytes::u64_bytes(superblock.base_slots)
        + bytes::u64_bytes(superblock.base_len) + bytes::u64_bytes(superblock.log_start)
        + bytes::u32_bytes(superblock.base_checksum)
}

/// `n` zero bytes.
pub open spec fn zeros(n: int) -> Seq<u8> {
    Seq::new(n as nat, |i: int| 0u8)
}

/// The page that holds a Superblock.
pub open spec fn page_bytes(superblock: SuperblockView) -> Seq<u8> {
    let body = header_body(superblock);
    body + bytes::u32_bytes(checksum::crc32c_value(body)) + zeros(SUPERBLOCK_SIZE - HEADER_SIZE)
}

/// Where the page of a generation is: consecutive generations alternate.
pub open spec fn page_offset(generation: u64) -> int {
    (generation % 2) * SUPERBLOCK_SIZE
}

/// Encodes the page that holds a Superblock.
pub fn encode_page(superblock: Superblock) -> (page: Vec<u8>)
    ensures
        page@ == page_bytes(superblock@),
        page@.len() == SUPERBLOCK_SIZE,
{
    broadcast use {bytes::lemma_u32_bytes_len, bytes::lemma_u64_bytes_len};

    let mut page: Vec<u8> = Vec::new();
    let magic_bytes: [u8; 8] = [0x4cu8, 0x4bu8, 0x56u8, 0u8, 0u8, 0u8, 0u8, 0u8];
    push_bytes(&mut page, magic_bytes.as_slice());
    push_u32(&mut page, FORMAT_VERSION);
    push_u32(&mut page, HEADER_SIZE as u32);
    push_u64(&mut page, superblock.generation);
    push_u64(&mut page, superblock.base_offset);
    push_u64(&mut page, superblock.base_size);
    push_u64(&mut page, superblock.base_slots);
    push_u64(&mut page, superblock.base_len);
    push_u64(&mut page, superblock.log_start);
    push_u32(&mut page, superblock.base_checksum);
    assert(page@ =~= header_body(superblock@));
    let header_checksum: u32 = crc32c(page.as_slice());
    push_u32(&mut page, header_checksum);
    let ghost header = page@;
    assert(header.len() == 72);
    while page.len() < 4096
        invariant
            72 <= page@.len() <= 4096,
            page@ == header + zeros(page@.len() - 72),
            header.len() == 72,
        decreases 4096 - page@.len(),
    {
        page.push(0);
        assert(page@ =~= header + zeros(page@.len() - 72));
    }
    page
}

/// The offset at which a generation is published.
pub fn page_offset_of(generation: u64) -> (offset: u64)
    ensures
        offset == page_offset(generation),
        offset == 0 || offset == SUPERBLOCK_SIZE,
{
    (generation % 2) * SUPERBLOCK_SIZE
}

/// The offset of the page on which a generation is not published.
pub open spec fn other_page_offset(generation: u64) -> int {
    SUPERBLOCK_SIZE - page_offset(generation)
}

/// The offset of the second copy of a page.
pub fn redundant_page_offset_of(generation: u64) -> (offset: u64)
    ensures
        offset == other_page_offset(generation),
        offset == 0 || offset == SUPERBLOCK_SIZE,
{
    SUPERBLOCK_SIZE - page_offset_of(generation)
}

/// Whether writing the page of a generation to an image in memory reserves memory.
pub open spec fn write_reserves(file: MemoryStorage, generation: u64) -> bool {
    page_offset(generation) + SUPERBLOCK_SIZE > file.stored_header()
}

/// Writes a Superblock to its page of an image in memory.
pub fn write(file: &mut MemoryStorage, superblock: Superblock) -> (result: Result<()>)
    requires
        old(file).wf(),
    ensures
        final(file).wf(),
        final(file).base_region() == old(file).base_region(),
        final(file).writable_from() == old(file).writable_from(),
        final(file).room() == old(file).room(),
        match result {
            Ok(()) => {
                &&& final(file).image() == storage::after_write(
                    old(file).image(),
                    page_offset(superblock@.generation),
                    page_bytes(superblock@),
                    DATA_START as int,
                )
                &&& final(file).stored_header() == page_offset(superblock@.generation)
                    + SUPERBLOCK_SIZE
                &&& old(file).room().grants(
                    write_reserves(*old(file), superblock@.generation),
                    1,
                )
            },
            Err(error) => {
                &&& old(file).room().may_refuse(
                    write_reserves(*old(file), superblock@.generation),
                    DATA_START as int,
                )
                &&& error@ == storage::growth_error()
                &&& final(file).image() == old(file).image()
                &&& final(file).stored_header() == old(file).stored_header()
            },
        },
{
    let page = encode_page(superblock);
    let offset: u64 = page_offset_of(superblock.generation);
    match file.seek(SeekFrom::Start(offset)) {
        Ok(_) => {},
        Err(error) => {
            return Err(error);
        },
    }
    proof {
        file.lemma_regions();
    }
    match file.write(page.as_slice()) {
        Ok(_) => Ok(()),
        Err(error) => Err(error),
    }
}

/// The version-independent envelope of a page: the format version and the header
/// size, where the page holds an intact header.
pub open spec fn envelope(page: Seq<u8>) -> Option<(u32, int)> {
    let size = bytes::le_u32(page, 12) as int;
    if page.subrange(0, 8) != magic() {
        None
    } else if !(ENVELOPE_MIN_SIZE <= size <= page.len()) {
        None
    } else if bytes::le_u32(page, size - 4) != checksum::crc32c_value(page.subrange(0, size - 4)) {
        None
    } else {
        Some((bytes::le_u32(page, 8), size))
    }
}

/// Reads the version-independent Superblock envelope. Every format version keeps
/// magic, version, header size and generation at their current offsets, with the
/// header CRC32C stored in its final four bytes.
fn read_envelope(page: &[u8]) -> (result: Option<(u32, usize)>)
    requires
        page@.len() == SUPERBLOCK_SIZE,
    ensures
        match result {
            Some((version, size)) => envelope(page@) == Some((version, size as int)),
            None => envelope(page@) == None::<(u32, int)>,
        },
{
    let magic_bytes: [u8; 8] = [0x4cu8, 0x4bu8, 0x56u8, 0u8, 0u8, 0u8, 0u8, 0u8];
    assert(magic_bytes@ =~= magic());
    assert(page@.len() == page.len());
    if !same_bytes(&page[0..8], magic_bytes.as_slice()) {
        return None;
    }
    let header_size: usize = u32_at(page, 12) as usize;
    if header_size < ENVELOPE_MIN_SIZE || header_size > page.len() {
        return None;
    }
    let checksum_offset: usize = header_size - 4;
    if u32_at(page, checksum_offset) != crc32c(&page[0..checksum_offset]) {
        return None;
    }
    Some((u32_at(page, 8), header_size))
}

/// The Superblock that a page of the current version holds.
pub open spec fn decode_page(page: Seq<u8>) -> SuperblockView {
    SuperblockView {
        generation: bytes::le_u64(page, 16),
        base_offset: bytes::le_u64(page, 24),
        base_size: bytes::le_u64(page, 32),
        base_slots: bytes::le_u64(page, 40),
        base_len: bytes::le_u64(page, 48),
        log_start: bytes::le_u64(page, 56),
        base_checksum: bytes::le_u32(page, 64),
    }
}

/// Whether the Base lies behind the pages and within the file, and the log behind the
/// Base and within the file.
pub open spec fn ranges_ok(superblock: SuperblockView, file_len: u64) -> bool {
    let base_end = superblock.base_offset + superblock.base_size;
    &&& superblock.base_offset >= DATA_START
    &&& superblock.base_size >= BASE_HEADER
    &&& base_end <= superblock.log_start
    &&& superblock.log_start <= file_len
}

/// The page at `offset`, where the file holds all of it.
pub open spec fn page_at(file: Seq<u8>, offset: int) -> Option<Seq<u8>> {
    if offset + SUPERBLOCK_SIZE <= file.len() {
        Some(file.subrange(offset, offset + SUPERBLOCK_SIZE))
    } else {
        None
    }
}

/// The format version of the page at `offset`, where it is another than the current.
pub open spec fn foreign_version(file: Seq<u8>, offset: int) -> Option<u32> {
    match page_at(file, offset) {
        Some(page) => match envelope(page) {
            Some((version, _)) => if version != FORMAT_VERSION {
                Some(version)
            } else {
                None
            },
            None => None,
        },
        None => None,
    }
}

/// The Superblock on the page at `offset`, where that page is intact, of the current
/// version, and describes ranges that the file has.
pub open spec fn candidate(file: Seq<u8>, offset: int, file_len: u64) -> Option<SuperblockView> {
    match page_at(file, offset) {
        Some(page) => if envelope(page) == Some((FORMAT_VERSION, HEADER_SIZE as int)) && ranges_ok(
            decode_page(page),
            file_len,
        ) {
            Some(decode_page(page))
        } else {
            None
        },
        None => None,
    }
}

/// The newer of two candidates.
pub open spec fn newer(
    first: Option<SuperblockView>,
    second: Option<SuperblockView>,
) -> Option<SuperblockView> {
    match (first, second) {
        (Some(a), Some(b)) => if b.generation > a.generation {
            Some(b)
        } else {
            Some(a)
        },
        (Some(a), None) => Some(a),
        (None, other) => other,
    }
}

/// The error for a page of another format version.
pub open spec fn unsupported_version(version: u32) -> ErrorView {
    error::io_error(
        ErrorKind::Unsupported,
        "unsupported database format version "@ + text::decimal(version as nat),
    )
}

/// What reading the latest Superblock gives.
pub open spec fn latest_outcome(file: Seq<u8>, file_len: u64) -> std::result::Result<
    SuperblockView,
    ErrorView,
> {
    match (foreign_version(file, 0), foreign_version(file, SUPERBLOCK_SIZE as int)) {
        (_, Some(version)) => Err(unsupported_version(version)),
        (Some(version), None) => Err(unsupported_version(version)),
        (None, None) => match newer(
            candidate(file, 0, file_len),
            candidate(file, SUPERBLOCK_SIZE as int, file_len),
        ) {
            Some(latest) => Ok(latest),
            None => Err(error::invalid_data("no valid superblock"@)),
        },
    }
}

/// What one page contributes to the choice of the latest Superblock.
enum PageContent {
    Nothing,
    Foreign(u32),
    Candidate(Superblock),
}

/// Reads one page.
fn read_page(file: &[u8], offset: usize, file_len: u64) -> (content: PageContent)
    requires
        offset <= SUPERBLOCK_SIZE,
    ensures
        match content {
            PageContent::Nothing => foreign_version(file@, offset as int) == None::<u32>
                && candidate(file@, offset as int, file_len) == None::<SuperblockView>,
            PageContent::Foreign(version) => foreign_version(file@, offset as int) == Some(version)
                && candidate(file@, offset as int, file_len) == None::<SuperblockView>,
            PageContent::Candidate(superblock) => foreign_version(file@, offset as int) == None::<
                u32,
            > && candidate(file@, offset as int, file_len) == Some(superblock@),
        },
{
    assert(file@.len() == file.len());
    if offset + 4096 > file.len() {
        return PageContent::Nothing;
    }
    let page = &file[offset..offset + 4096];
    let (version, header_size) = match read_envelope(page) {
        Some(envelope) => envelope,
        None => {
            return PageContent::Nothing;
        },
    };
    if version != FORMAT_VERSION {
        return PageContent::Foreign(version);
    }
    if header_size != HEADER_SIZE {
        return PageContent::Nothing;
    }
    let candidate = Superblock {
        generation: u64_at(page, 16),
        base_offset: u64_at(page, 24),
        base_size: u64_at(page, 32),
        base_slots: u64_at(page, 40),
        base_len: u64_at(page, 48),
        log_start: u64_at(page, 56),
        base_checksum: u32_at(page, 64),
    };
    assert(candidate@ == decode_page(page@));
    let base_end: u64 = match candidate.base_offset.checked_add(candidate.base_size) {
        Some(base_end) => base_end,
        None => {
            return PageContent::Nothing;
        },
    };
    if candidate.base_offset < DATA_START || candidate.base_size < BASE_HEADER as u64 || base_end
        > file_len || candidate.log_start < base_end || candidate.log_start > file_len {
        return PageContent::Nothing;
    }
    PageContent::Candidate(candidate)
}

/// Chooses the Superblock to use from the two pages at the start of a file of
/// `file_len` bytes. `file` holds the start of the file, up to the end of the pages
/// where it is long enough.
pub fn read_latest_from(file: &[u8], file_len: u64) -> (result: Result<Superblock>)
    ensures
        match result {
            Ok(superblock) => latest_outcome(file@, file_len) == Ok::<SuperblockView, ErrorView>(
                superblock@,
            ),
            Err(error) => latest_outcome(file@, file_len) == Err::<SuperblockView, ErrorView>(
                error@,
            ),
        },
{
    let first = read_page(file, 0, file_len);
    let second = read_page(file, 4096, file_len);
    let unsupported: Option<u32> = match (&first, &second) {
        (_, PageContent::Foreign(version)) => Some(*version),
        (PageContent::Foreign(version), _) => Some(*version),
        _ => None,
    };
    if let Some(version) = unsupported {
        let mut message = String::from_str("unsupported database format version ");
        append_decimal(&mut message, version as u64);
        return Err(Error::from_io(ErrorKind::Unsupported, message.as_str()));
    }
    match (first, second) {
        (PageContent::Candidate(a), PageContent::Candidate(b)) => if b.generation > a.generation {
            Ok(b)
        } else {
            Ok(a)
        },
        (PageContent::Candidate(a), _) => Ok(a),
        (_, PageContent::Candidate(b)) => Ok(b),
        _ => Err(Error::from_io(ErrorKind::InvalidData, "no valid superblock")),
    }
}

/// A page gives back the Superblock that was encoded on it.
pub proof fn law_page_roundtrip(superblock: SuperblockView)
    ensures
        page_bytes(superblock).len() == SUPERBLOCK_SIZE,
        envelope(page_bytes(superblock)) == Some((FORMAT_VERSION, HEADER_SIZE as int)),
        decode_page(page_bytes(superblock)) == superblock,
{
    broadcast use {bytes::lemma_u32_bytes_len, bytes::lemma_u64_bytes_len};

    let page = page_bytes(superblock);
    let body = header_body(superblock);
    assert(body.len() == 68);
    assert(page.subrange(0, 8) =~= magic());
    assert(page.subrange(8, 12) =~= bytes::u32_bytes(FORMAT_VERSION));
    assert(page.subrange(12, 16) =~= bytes::u32_bytes(HEADER_SIZE as u32));
    assert(page.subrange(16, 24) =~= bytes::u64_bytes(superblock.generation));
    assert(page.subrange(24, 32) =~= bytes::u64_bytes(superblock.base_offset));
    assert(page.subrange(32, 40) =~= bytes::u64_bytes(superblock.base_size));
    assert(page.subrange(40, 48) =~= bytes::u64_bytes(superblock.base_slots));
    assert(page.subrange(48, 56) =~= bytes::u64_bytes(superblock.base_len));
    assert(page.subrange(56, 64) =~= bytes::u64_bytes(superblock.log_start));
    assert(page.subrange(64, 68) =~= bytes::u32_bytes(superblock.base_checksum));
    assert(page.subrange(68, 72) =~= bytes::u32_bytes(checksum::crc32c_value(body)));
    assert(page.subrange(0, 68) =~= body);
    bytes::lemma_le_u32_of_bytes(page, 8, FORMAT_VERSION);
    bytes::lemma_le_u32_of_bytes(page, 12, HEADER_SIZE as u32);
    bytes::lemma_le_u64_of_bytes(page, 16, superblock.generation);
    bytes::lemma_le_u64_of_bytes(page, 24, superblock.base_offset);
    bytes::lemma_le_u64_of_bytes(page, 32, superblock.base_size);
    bytes::lemma_le_u64_of_bytes(page, 40, superblock.base_slots);
    bytes::lemma_le_u64_of_bytes(page, 48, superblock.base_len);
    bytes::lemma_le_u64_of_bytes(page, 56, superblock.log_start);
    bytes::lemma_le_u32_of_bytes(page, 64, superblock.base_checksum);
    bytes::lemma_le_u32_of_bytes(page, 68, checksum::crc32c_value(body));
}

/// A Superblock written to its page is a candidate of that page, in a file that has
/// the ranges it describes.
pub proof fn lemma_written_candidate(
    file: Seq<u8>,
    offset: int,
    superblock: SuperblockView,
    file_len: u64,
)
    requires
        0 <= offset,
        page_at(file, offset) == Some(page_bytes(superblock)),
        ranges_ok(superblock, file_len),
    ensures
        candidate(file, offset, file_len) == Some(superblock),
        foreign_version(file, offset) == None::<u32>,
{
    law_page_roundtrip(superblock);
}

/// Publishing a generation leaves the page of the one before it alone.
pub proof fn law_generations_alternate(generation: u64)
    requires
        generation < u64::MAX,
    ensures
        page_offset(generation) != page_offset((generation + 1) as u64),
        page_offset(generation) == 0 || page_offset(generation) == SUPERBLOCK_SIZE,
{
}

/// With both pages intact the highest generation is used.
pub proof fn law_highest_generation_wins(
    file: Seq<u8>,
    file_len: u64,
    first: SuperblockView,
    second: SuperblockView,
)
    requires
        candidate(file, 0, file_len) == Some(first),
        candidate(file, SUPERBLOCK_SIZE as int, file_len) == Some(second),
    ensures
        latest_outcome(file, file_len) matches Ok(latest) && (latest == first || latest == second)
            && latest.generation >= first.generation && latest.generation >= second.generation,
{
}

/// A page that is torn, stale or out of range does not hide the other one.
pub proof fn law_damaged_page_leaves_the_other(file: Seq<u8>, file_len: u64, good: int, bad: int)
    requires
        (good == 0 && bad == SUPERBLOCK_SIZE) || (good == SUPERBLOCK_SIZE && bad == 0),
        candidate(file, good, file_len) is Some,
        candidate(file, bad, file_len) is None,
        foreign_version(file, bad) is None,
    ensures
        latest_outcome(file, file_len) == Ok::<SuperblockView, ErrorView>(
            candidate(file, good, file_len)->Some_0,
        ),
{
}

/// A page of another format version is refused, whatever the other page holds.
pub proof fn law_foreign_version_is_refused(file: Seq<u8>, file_len: u64, offset: int)
    requires
        offset == 0 || offset == SUPERBLOCK_SIZE,
        foreign_version(file, offset) is Some,
    ensures
        latest_outcome(file, file_len) matches Err(error) && error::error_kind(error)
            == ErrorKind::Unsupported,
{
}

} // verus!
