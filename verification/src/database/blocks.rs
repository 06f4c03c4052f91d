//! Block verification of an immutable segment, remembered across readers.

use crate::bytes;
use crate::bytes::u32_at;
use crate::checksum::crc32c;
use crate::error;
use crate::error::{Error, ErrorView, Result};
use crate::format::lookup;
use crate::format::segment;
use crate::format::segment::{SegmentLayout, CHECKSUM_BLOCK_SIZE};
use crate::format::validate;
use vstd::prelude::*;
use vstd::rwlock::{RwLock, RwLockPredicate};

verus! {

/// Whether the data has a readable header and passes complete validation as a Base at
/// `offset`.
pub open spec fn structure_ok(data: Seq<u8>, offset: u64) -> bool {
    match segment::header_outcome(data) {
        Ok((slots, len)) => validate::validate_outcome(data, offset as int, slots, len) is Ok,
        Err(_) => false,
    }
}

/// The blocks of a segment, and their checksums.
pub struct SegmentBlocks {
    offset: u64,
    data_size: usize,
    checksums: Vec<u32>,
    facts: Ghost<SegmentFacts>,
}

/// The segment that is verified, and whether it had passed every check before.
pub struct SegmentFacts {
    pub data: Seq<u8>,
    pub checksums: Seq<u8>,
    pub offset: u64,
    pub passed: bool,
}

impl SegmentBlocks {
    /// The data of the segment.
    pub closed spec fn data(self) -> Seq<u8> {
        self.facts@.data
    }

    /// The checksum table of the segment.
    pub closed spec fn table(self) -> Seq<u8> {
        self.facts@.checksums
    }

    /// The position of the segment.
    pub closed spec fn segment_offset(self) -> u64 {
        self.offset
    }

    /// The number of blocks.
    pub open spec fn count(self) -> int {
        segment::block_count(self.data().len() as int)
    }

    /// The checksums are those of the table.
    pub closed spec fn wf(self) -> bool {
        &&& self.data_size == self.data().len()
        &&& self.table().len() == 4 * self.count()
        &&& self.checksums@.len() == self.count()
        &&& forall|i: int|
            0 <= i < self.checksums@.len() ==> #[trigger] self.checksums@[i] == bytes::le_u32(
                self.table(),
                4 * i,
            )
    }

    /// Whether a mapping starts with the data of the segment.
    pub open spec fn describes(self, mapping: Seq<u8>) -> bool {
        &&& self.data().len() <= mapping.len()
        &&& mapping.subrange(0, self.data().len() as int) == self.data()
    }

    /// The blocks of the segment at `offset`.
    pub fn new(offset: u64, layout: &SegmentLayout<'_>) -> (blocks: Self)
        requires
            layout.wf(),
        ensures
            blocks.wf(),
            blocks.data() == layout.data_view(),
            blocks.table() == layout.checksums_view(),
            blocks.segment_offset() == offset,
    {
        let data = layout.data();
        let table = layout.checksums();
        assert(data@.len() == data.len());
        let data_size: usize = data.len();
        let count: usize = segment::count_blocks(data_size);
        let mut checksums: Vec<u32> = Vec::new();
        let mut i: usize = 0;
        while i < count
            invariant
                i <= count,
                count == segment::block_count(data@.len() as int),
                table@.len() == 4 * count,
                table@.len() == table.len(),
                checksums@.len() == i,
                forall|j: int|
                    0 <= j < i ==> #[trigger] checksums@[j] == bytes::le_u32(table@, 4 * j),
            decreases count - i,
        {
            checksums.push(u32_at(table, 4 * i));
            i += 1;
        }
        let ghost facts = SegmentFacts { data: data@, checksums: table@, offset, passed: false };
        SegmentBlocks { offset, data_size, checksums, facts: Ghost(facts) }
    }

    /// The number of blocks.
    fn len(&self) -> (len: usize)
        requires
            self.wf(),
        ensures
            len == self.count(),
    {
        self.checksums.len()
    }

    /// Whether a block matches its checksum.
    fn matches(&self, mapping: &[u8], block: usize) -> (ok: bool)
        requires
            self.wf(),
            self.describes(mapping@),
            block < self.count(),
        ensures
            ok == segment::block_ok(self.data(), self.table(), block as int),
    {
        assert(mapping@.len() == mapping.len());
        let block_start: usize = block * CHECKSUM_BLOCK_SIZE;
        let block_end: usize = if self.data_size - block_start >= CHECKSUM_BLOCK_SIZE {
            block_start + CHECKSUM_BLOCK_SIZE
        } else {
            self.data_size
        };
        assert(mapping@.subrange(block_start as int, block_end as int) =~= segment::block(
            self.data(),
            block as int,
        ));
        crc32c(&mapping[block_start..block_end]) == self.checksums[block]
    }
}

/// What has been verified of a segment so far.
pub struct Progress {
    verified: Vec<bool>,
    remaining: usize,
    fully_verified: bool,
    semantically_verified: bool,
}

/// How many blocks have not been verified.
spec fn unverified(verified: Seq<bool>) -> nat
    decreases verified.len(),
{
    if verified.len() == 0 {
        0
    } else {
        unverified(verified.drop_last()) + if verified.last() {
            0nat
        } else {
            1nat
        }
    }
}

proof fn lemma_unverified(verified: Seq<bool>)
    ensures
        unverified(verified) == 0 <==> (forall|i: int|
            0 <= i < verified.len() ==> #[trigger] verified[i]),
        unverified(verified) <= verified.len(),
    decreases verified.len(),
{
    if verified.len() > 0 {
        let shorter = verified.drop_last();
        lemma_unverified(shorter);
        if unverified(verified) == 0 {
            assert forall|i: int| 0 <= i < verified.len() implies #[trigger] verified[i] by {
                if i < shorter.len() {
                    assert(shorter[i]);
                }
            }
        } else if verified.last() {
            let i = choose|i: int| 0 <= i < shorter.len() && !#[trigger] shorter[i];
            assert(!verified[i]);
        }
    }
}

proof fn lemma_unverified_set(verified: Seq<bool>, at: int)
    requires
        0 <= at < verified.len(),
        !verified[at],
    ensures
        unverified(verified.update(at, true)) + 1 == unverified(verified),
    decreases verified.len(),
{
    let after = verified.update(at, true);
    if at == verified.len() - 1 {
        assert(after.drop_last() =~= verified.drop_last());
    } else {
        assert(after.drop_last() =~= verified.drop_last().update(at, true));
        lemma_unverified_set(verified.drop_last(), at);
    }
}

proof fn lemma_unverified_none(n: nat)
    ensures
        unverified(Seq::new(n, |i: int| false)) == n,
    decreases n,
{
    if n > 0 {
        assert(Seq::new(n, |i: int| false).drop_last() =~= Seq::new((n - 1) as nat, |i: int| false));
        lemma_unverified_none((n - 1) as nat);
    }
}

/// The first block from `from` on that does not match its checksum, or `to`.
pub open spec fn first_mismatch(data: Seq<u8>, table: Seq<u8>, from: int, to: int) -> int
    decreases to - from,
{
    if from >= to || !segment::block_ok(data, table, from) {
        from
    } else {
        first_mismatch(data, table, from + 1, to)
    }
}

/// The first block that holds a byte from `start` on.
pub open spec fn first_block(start: int) -> int {
    start / CHECKSUM_BLOCK_SIZE as int
}

/// Where the blocks end that hold a byte before `end`.
pub open spec fn block_limit(end: int) -> int {
    (end - 1) / CHECKSUM_BLOCK_SIZE as int + 1
}

/// Which blocks are verified after a range was checked: those from before, and those of the
/// range up to the first that does not match.
pub open spec fn after_check(
    verified: Seq<bool>,
    data: Seq<u8>,
    table: Seq<u8>,
    start: int,
    end: int,
) -> Seq<bool> {
    if start >= end || end > data.len() {
        verified
    } else {
        let from = first_block(start);
        let stop = first_mismatch(data, table, from, block_limit(end));
        Seq::new(verified.len(), |i: int| verified[i] || from <= i < stop)
    }
}

impl Progress {
    /// Which blocks have been verified.
    pub closed spec fn blocks(self) -> Seq<bool> {
        self.verified@
    }

    /// Whether all of the segment counts as verified.
    pub closed spec fn full(self) -> bool {
        self.fully_verified
    }

    /// Whether the structure of the segment has been validated.
    pub closed spec fn validated(self) -> bool {
        self.semantically_verified
    }

    /// The blocks that are left are counted. A segment with blocks counts as verified exactly
    /// when all of them are.
    pub closed spec fn wf(self) -> bool {
        &&& self.remaining == unverified(self.verified@)
        &&& self.verified@.len() > 0 ==> self.fully_verified == (self.remaining == 0)
    }

    /// A segment with blocks counts as verified exactly when every block has been verified.
    pub proof fn law_full_when_every_block_is_verified(self)
        requires
            self.wf(),
            self.blocks().len() > 0,
        ensures
            self.full() <==> (forall|i: int|
                0 <= i < self.blocks().len() ==> #[trigger] self.blocks()[i]),
    {
        lemma_unverified(self.verified@);
    }

    /// Blocks that have been verified match their checksums.
    pub open spec fn matches(self, data: Seq<u8>, table: Seq<u8>) -> bool {
        &&& self.blocks().len() == segment::block_count(data.len() as int)
        &&& forall|i: int|
            0 <= i < self.blocks().len() && #[trigger] self.blocks()[i] ==> segment::block_ok(
                data,
                table,
                i,
            )
    }

    /// Nothing has been verified of `count` blocks, or everything.
    pub fn new(count: usize, passed: bool) -> (progress: Self)
        ensures
            progress.wf(),
            progress.blocks() == Seq::new(count as nat, |i: int| passed),
            progress.full() == passed,
            progress.validated() == passed,
    {
        let mut verified: Vec<bool> = Vec::new();
        let mut i: usize = 0;
        while i < count
            invariant
                i <= count,
                verified@ == Seq::new(i as nat, |j: int| passed),
            decreases count - i,
        {
            verified.push(passed);
            assert(verified@ =~= Seq::new((i + 1) as nat, |j: int| passed));
            i += 1;
        }
        let remaining: usize = if passed {
            0
        } else {
            count
        };
        proof {
            if passed {
                lemma_unverified(verified@);
            } else {
                assert(verified@ =~= Seq::new(count as nat, |j: int| false));
                lemma_unverified_none(count as nat);
            }
        }
        Progress { verified, remaining, fully_verified: passed, semantically_verified: passed }
    }

    /// Whether one block has been verified.
    pub fn is_block_verified(&self, block: usize) -> (verified: bool)
        requires
            block < self.blocks().len(),
        ensures
            verified == self.blocks()[block as int],
    {
        self.verified[block]
    }

    /// Whether every block has been verified.
    pub fn is_fully_verified(&self) -> (verified: bool)
        ensures
            verified == self.full(),
    {
        self.fully_verified
    }

    /// Whether the structure of the segment has been validated.
    pub fn is_semantically_verified(&self) -> (verified: bool)
        ensures
            verified == self.validated(),
    {
        self.semantically_verified
    }

    /// Remembers that one block has been verified. The last one makes the segment count as
    /// verified.
    pub fn mark_block(&mut self, block: usize)
        requires
            old(self).wf(),
            block < old(self).blocks().len(),
        ensures
            final(self).wf(),
            final(self).blocks() == old(self).blocks().update(block as int, true),
            final(self).validated() == old(self).validated(),
    {
        if self.verified[block] {
            assert(self.verified@ =~= self.verified@.update(block as int, true));
        } else {
            proof {
                lemma_unverified_set(self.verified@, block as int);
                lemma_unverified(self.verified@);
            }
            self.verified.set(block, true);
            self.remaining = self.remaining - 1;
            if self.remaining == 0 {
                self.fully_verified = true;
            }
        }
    }

    /// Remembers that the structure of the segment has been validated.
    pub fn mark_structure(&mut self)
        ensures
            old(self).wf() ==> final(self).wf(),
            final(self).blocks() == old(self).blocks(),
            final(self).full() == old(self).full(),
            final(self).validated(),
    {
        self.semantically_verified = true;
    }

    /// Verifies the blocks that hold a range, and remembers those that match. Once the
    /// segment counts as verified, any range passes.
    pub fn verify_range(
        &mut self,
        blocks: &SegmentBlocks,
        mapping: &[u8],
        start: usize,
        end: usize,
    ) -> (result: Result<()>)
        requires
            old(self).wf(),
            old(self).matches(blocks.data(), blocks.table()),
            blocks.wf(),
            blocks.describes(mapping@),
        ensures
            final(self).wf(),
            final(self).matches(blocks.data(), blocks.table()),
            final(self).validated() == old(self).validated(),
            error::outcome(result) == (if old(self).full() {
                Ok::<(), ErrorView>(())
            } else {
                lookup::range_outcome(
                    blocks.data(),
                    blocks.table(),
                    blocks.segment_offset(),
                    start as int,
                    end as int,
                )
            }),
            final(self).blocks() == (if old(self).full() {
                old(self).blocks()
            } else {
                after_check(
                    old(self).blocks(),
                    blocks.data(),
                    blocks.table(),
                    start as int,
                    end as int,
                )
            }),
            old(self).full() ==> final(self).full(),
    {
        if self.fully_verified {
            return Ok(());
        }
        if start > end {
            return Err(Error::invalid_base("read range lies outside segment"));
        }
        if end > blocks.data_size {
            return Err(Error::invalid_base("read range lies outside segment data"));
        }
        if start == end {
            return Ok(());
        }
        let first: usize = start / CHECKSUM_BLOCK_SIZE;
        let last: usize = (end - 1) / CHECKSUM_BLOCK_SIZE;
        let ghost before = self.verified@;
        let mut block: usize = first;
        proof {
            assert(before =~= Seq::new(before.len(), |i: int| before[i] || first <= i < first));
        }
        while block <= last
            invariant
                first <= block <= last + 1,
                last < blocks.count(),
                first == first_block(start as int),
                last + 1 == block_limit(end as int),
                start < end <= blocks.data().len(),
                before == old(self).blocks(),
                !old(self).full(),
                self.wf(),
                self.validated() == old(self).validated(),
                self.matches(blocks.data(), blocks.table()),
                blocks.wf(),
                blocks.describes(mapping@),
                self.verified@ == Seq::new(
                    before.len(),
                    |i: int| before[i] || first <= i < block,
                ),
                first_mismatch(blocks.data(), blocks.table(), first as int, last + 1)
                    == first_mismatch(blocks.data(), blocks.table(), block as int, last + 1),
                segment::blocks_outcome(
                    blocks.data(),
                    blocks.table(),
                    blocks.segment_offset(),
                    first as int,
                    last + 1,
                ) == segment::blocks_outcome(
                    blocks.data(),
                    blocks.table(),
                    blocks.segment_offset(),
                    block as int,
                    last + 1,
                ),
            decreases last + 1 - block,
        {
            let ghost marked = self.verified@;
            if !self.verified[block] {
                if !blocks.matches(mapping, block) {
                    return Err(Error::corrupted_block(blocks.offset, block as u64));
                }
                self.mark_block(block);
            }
            proof {
                assert(segment::block_ok(blocks.data(), blocks.table(), block as int));
                assert(self.verified@ =~= Seq::new(
                    before.len(),
                    |i: int| before[i] || first <= i < block + 1,
                ));
            }
            block += 1;
        }
        Ok(())
    }
}

impl RwLockPredicate<Progress> for SegmentFacts {
    closed spec fn inv(self, progress: Progress) -> bool {
        &&& progress.wf()
        &&& progress.matches(self.data, self.checksums)
        &&& progress.full() ==> segment::blocks_ok(self.data, self.checksums)
        &&& progress.validated() ==> structure_ok(self.data, self.offset)
        &&& self.passed ==> progress.full() && progress.validated()
    }
}

/// Verifies blocks of one segment when they are first read. Readers share what has
/// been verified, and any of them may add to it at any time. So the contracts here say what
/// holds whatever has been verified before; those of [`Progress`] say exactly what a call
/// makes of it.
pub struct SegmentVerifier {
    blocks: SegmentBlocks,
    progress: RwLock<Progress, SegmentFacts>,
}

impl SegmentVerifier {
    /// The data of the segment.
    pub closed spec fn data(self) -> Seq<u8> {
        self.blocks.data()
    }

    /// The checksum table of the segment.
    pub closed spec fn table(self) -> Seq<u8> {
        self.blocks.table()
    }

    /// Whether the segment had passed every check before the verifier was made.
    pub closed spec fn passed(self) -> bool {
        self.progress.pred().passed
    }

    /// The position of the segment.
    pub closed spec fn segment_offset(self) -> u64 {
        self.blocks.segment_offset()
    }

    /// The verifier holds the checksums of the segment that it is about.
    pub closed spec fn wf(self) -> bool {
        let facts = self.progress.pred();
        &&& self.blocks.wf()
        &&& facts.data == self.data()
        &&& facts.checksums == self.table()
        &&& facts.offset == self.segment_offset()
    }

    /// Whether a mapping starts with the data of the segment.
    pub open spec fn describes(self, mapping: Seq<u8>) -> bool {
        &&& self.data().len() <= mapping.len()
        &&& mapping.subrange(0, self.data().len() as int) == self.data()
    }

    /// A verifier for the segment at `offset`. One that starts out fully verified is for
    /// data that has passed every check.
    pub fn new(offset: u64, layout: &SegmentLayout<'_>, fully_verified: bool) -> (verifier: Self)
        requires
            layout.wf(),
            fully_verified ==> segment::blocks_ok(layout.data_view(), layout.checksums_view())
                && structure_ok(layout.data_view(), offset),
        ensures
            verifier.wf(),
            verifier.data() == layout.data_view(),
            verifier.table() == layout.checksums_view(),
            verifier.segment_offset() == offset,
            verifier.passed() == fully_verified,
    {
        let blocks = SegmentBlocks::new(offset, layout);
        let progress = Progress::new(blocks.len(), fully_verified);
        let ghost facts = SegmentFacts {
            data: blocks.data(),
            checksums: blocks.table(),
            offset,
            passed: fully_verified,
        };
        SegmentVerifier { blocks, progress: RwLock::new(progress, Ghost(facts)) }
    }

    /// Verifies the blocks that hold a range. Once every block of the segment has been
    /// verified, any range passes.
    pub fn verify_range(&self, mapping: &[u8], start: usize, end: usize) -> (result: Result<()>)
        requires
            self.wf(),
            self.describes(mapping@),
        ensures
            error::outcome(result) == lookup::range_outcome(
                self.data(),
                self.table(),
                self.segment_offset(),
                start as int,
                end as int,
            ) || (result is Ok && segment::blocks_ok(self.data(), self.table())),
            self.passed() ==> result is Ok,
    {
        if self.is_fully_verified() {
            return Ok(());
        }
        let (progress, handle) = self.progress.acquire_write();
        let mut progress = progress;
        let result = progress.verify_range(&self.blocks, mapping, start, end);
        proof {
            if progress.full() {
                if progress.blocks().len() > 0 {
                    progress.law_full_when_every_block_is_verified();
                }
                assert forall|i: int|
                    0 <= i < segment::block_count(
                        self.data().len() as int,
                    ) implies #[trigger] segment::block_ok(self.data(), self.table(), i) by {
                    assert(progress.blocks()[i]);
                }
            }
        }
        handle.release_write(progress);
        result
    }

    /// The size of the data of the segment.
    pub fn data_size(&self) -> (size: usize)
        requires
            self.wf(),
        ensures
            size == self.data().len(),
    {
        self.blocks.data_size
    }

    /// Whether every block has been verified.
    pub fn is_fully_verified(&self) -> (verified: bool)
        requires
            self.wf(),
        ensures
            verified ==> segment::blocks_ok(self.data(), self.table()),
            self.passed() ==> verified,
    {
        let handle = self.progress.acquire_read();
        let verified: bool = handle.borrow().is_fully_verified();
        handle.release_read();
        verified
    }

    /// Whether the structure of the segment has been validated.
    pub fn is_semantically_verified(&self) -> (verified: bool)
        requires
            self.wf(),
        ensures
            verified ==> structure_ok(self.data(), self.segment_offset()),
            self.passed() ==> verified,
    {
        let handle = self.progress.acquire_read();
        let verified: bool = handle.borrow().is_semantically_verified();
        handle.release_read();
        verified
    }

    /// Remembers that the structure of the segment has been validated.
    pub fn mark_semantically_verified(&self)
        requires
            self.wf(),
            structure_ok(self.data(), self.segment_offset()),
    {
        let (progress, handle) = self.progress.acquire_write();
        let mut progress = progress;
        progress.mark_structure();
        handle.release_write(progress);
    }
}

} // verus!
