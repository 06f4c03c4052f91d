//! Iterating over the live entries of a database.

use crate::bytes;
use crate::database::blocks;
use crate::database::live;
use crate::database::state::OverlayEntry;
use crate::database::view::ReadView;
use crate::error;
use crate::error::{Error, ErrorView, Result};
use crate::format::index;
use crate::format::lookup;
use crate::format::records;
use crate::format::segment;
use crate::format::segment::{record_at, trusted_record_at, BASE_HEADER, SLOT_SIZE};
use crate::format::validate;
use crate::options::VerificationMode;
use vstd::prelude::*;

verus! {

/// A live entry, and the range of the Base that holds it, where one does.
pub struct Located {
    pub key: Seq<u8>,
    pub value: Seq<u8>,
    pub range: Option<(int, int)>,
}

/// The live entries among the next `n` records of a Base.
pub open spec fn base_items(
    mapping: Seq<u8>,
    data_size: int,
    overlay: Map<Seq<u8>, OverlayEntry>,
    offset: int,
    n: nat,
) -> Seq<Located>
    decreases n,
{
    if n == 0 {
        Seq::empty()
    } else {
        match segment::record_outcome(mapping, offset, data_size) {
            Err(_) => Seq::empty(),
            Ok((key, value, end)) => {
                let rest = base_items(mapping, data_size, overlay, end, (n - 1) as nat);
                if overlay.contains_key(key) {
                    rest
                } else {
                    seq![Located { key, value, range: Some((offset + 8, end)) }] + rest
                }
            },
        }
    }
}

/// Where the next `n` records of a Base end, or why they cannot be read.
pub open spec fn base_end(mapping: Seq<u8>, data_size: int, offset: int, n: nat) -> std::result::Result<
    int,
    ErrorView,
>
    decreases n,
{
    if n == 0 {
        Ok(offset)
    } else {
        match segment::record_outcome(mapping, offset, data_size) {
            Err(error) => Err(error),
            Ok((key, value, end)) => base_end(mapping, data_size, end, (n - 1) as nat),
        }
    }
}

/// The entries that an Overlay puts, from position `i` on.
pub open spec fn overlay_items(keys: Seq<Seq<u8>>, values: Seq<OverlayEntry>, i: int) -> Seq<
    Located,
>
    decreases keys.len() - i,
{
    if i >= keys.len() {
        Seq::empty()
    } else {
        match values[i]@ {
            Some(value) => seq![Located { key: keys[i], value, range: None }] + overlay_items(
                keys,
                values,
                i + 1,
            ),
            None => overlay_items(keys, values, i + 1),
        }
    }
}

/// No more live entries than records.
proof fn lemma_base_items_len(
    mapping: Seq<u8>,
    data_size: int,
    overlay: Map<Seq<u8>, OverlayEntry>,
    offset: int,
    n: nat,
)
    ensures
        base_items(mapping, data_size, overlay, offset, n).len() <= n,
    decreases n,
{
    if n > 0 {
        if let Ok((key, value, end)) = segment::record_outcome(mapping, offset, data_size) {
            lemma_base_items_len(mapping, data_size, overlay, end, (n - 1) as nat);
        }
    }
}

/// No more entries are put than an Overlay holds.
proof fn lemma_overlay_items_len(keys: Seq<Seq<u8>>, values: Seq<OverlayEntry>, i: int)
    requires
        i <= keys.len(),
    ensures
        overlay_items(keys, values, i).len() <= keys.len() - i,
    decreases keys.len() - i,
{
    if i < keys.len() {
        lemma_overlay_items_len(keys, values, i + 1);
    }
}

/// The error for records that do not fill the data.
pub open spec fn record_count_error() -> ErrorView {
    error::invalid_base("base record count does not match data size"@)
}

/// Zero-copy iterator over a consistent view of the current in-process state.
pub struct RawEntries<'a> {
    view: ReadView<'a>,
    base_offset: usize,
    base_remaining: usize,
    pub base_trusted: bool,
    pending_error: Option<Error>,
    finished: bool,
    overlay_position: usize,
}

impl<'a> RawEntries<'a> {
    /// The view that is iterated.
    pub closed spec fn source(self) -> ReadView<'a> {
        self.view
    }

    /// Whether records are read without checks: what `base_trusted` holds.
    pub closed spec fn trusted(self) -> bool {
        self.base_trusted
    }

    /// Records of a trusted Base are whole and fill its data.
    pub closed spec fn wf(self) -> bool {
        &&& self.view.wf()
        &&& self.overlay_position <= self.view.overlay.keys().len()
        &&& self.base_trusted ==> (records::parse_records(
            self.view.base.data(),
            self.base_offset as int,
            self.base_remaining as nat,
        ) matches Some((_, end)) && end == self.view.base.data().len())
        &&& self.pending_error is Some ==> self.finished
    }

    /// The error that waits to be taken.
    pub closed spec fn pending(self) -> Option<ErrorView> {
        match self.pending_error {
            Some(error) => Some(error@),
            None => None,
        }
    }

    /// The entries that are still to come.
    pub closed spec fn remaining(self) -> Seq<Located> {
        let data_size = self.view.base.data().len() as int;
        let mapping = self.view.base.mapping@;
        if self.finished {
            Seq::empty()
        } else {
            base_items(
                mapping,
                data_size,
                self.view.overlay@,
                self.base_offset as int,
                self.base_remaining as nat,
            ) + if base_end(
                mapping,
                data_size,
                self.base_offset as int,
                self.base_remaining as nat,
            ) == Ok::<int, ErrorView>(data_size) {
                overlay_items(
                    self.view.overlay.keys(),
                    self.view.overlay.values(),
                    self.overlay_position as int,
                )
            } else {
                Seq::empty()
            }
        }
    }

    /// How many records and Overlay entries have not been looked at.
    pub closed spec fn unvisited(self) -> int {
        self.base_remaining + self.view.overlay.keys().len() - self.overlay_position
    }

    /// The error with which the iteration ends.
    pub closed spec fn failure(self) -> Option<ErrorView> {
        let data_size = self.view.base.data().len() as int;
        if self.finished {
            self.pending()
        } else {
            match base_end(
                self.view.base.mapping@,
                data_size,
                self.base_offset as int,
                self.base_remaining as nat,
            ) {
                Err(error) => Some(error),
                Ok(end) => if end == data_size {
                    None
                } else {
                    Some(record_count_error())
                },
            }
        }
    }

    /// What the iteration over a whole view gives.
    pub open spec fn all_items(view: ReadView<'a>, len: nat) -> Seq<Located> {
        let data_size = view.base.data().len() as int;
        let at = index::records_offset(view.base.slots as int);
        base_items(view.base.mapping@, data_size, view.overlay@, at, len) + if base_end(
            view.base.mapping@,
            data_size,
            at,
            len,
        ) == Ok::<int, ErrorView>(data_size) {
            overlay_items(view.overlay.keys(), view.overlay.values(), 0)
        } else {
            Seq::empty()
        }
    }

    /// The error with which the iteration over a whole view ends.
    pub open spec fn all_failure(view: ReadView<'a>, len: nat) -> Option<ErrorView> {
        let data_size = view.base.data().len() as int;
        match base_end(
            view.base.mapping@,
            data_size,
            index::records_offset(view.base.slots as int),
            len,
        ) {
            Err(error) => Some(error),
            Ok(end) => if end == data_size {
                None
            } else {
                Some(record_count_error())
            },
        }
    }

    /// Starts an iteration over a view whose Base has `base_remaining` records.
    pub fn new(view: ReadView<'a>, base_remaining: usize) -> (entries: Self)
        requires
            view.wf(),
            segment::header_outcome(view.base.data()) == Ok::<(u64, int), ErrorView>(
                (view.base.slots, base_remaining as int),
            ),
        ensures
            entries.wf(),
            entries.source() == view,
            entries.remaining() == Self::all_items(view, base_remaining as nat),
            entries.failure() == Self::all_failure(view, base_remaining as nat),
            entries.pending() is None,
            entries.unvisited() == base_remaining + view.overlay.keys().len(),
            entries.trusted() ==> blocks::structure_ok(view.base.data(), view.base.offset),
            view.base.verifier.passed() ==> entries.trusted(),
    {
        let base_trusted: bool = view.base.verifier.is_semantically_verified();
        proof {
            if base_trusted {
                validate::law_validated_base_is_readable(
                    view.base.data(),
                    view.base.offset as int,
                    view.base.slots,
                    base_remaining as nat,
                );
            }
        }
        assert(view.base.mapping@.len() == view.base.mapping.len());
        RawEntries {
            view,
            base_offset: BASE_HEADER + view.base.slots as usize * SLOT_SIZE,
            base_remaining,
            base_trusted,
            pending_error: None,
            finished: false,
            overlay_position: 0,
        }
    }

    /// Takes the error with which the iteration ended.
    pub fn take_error(&mut self) -> (error: Option<Error>)
        requires
            old(self).wf(),
        ensures
            final(self).wf(),
            final(self).source() == old(self).source(),
            final(self).remaining() == old(self).remaining(),
            final(self).unvisited() == old(self).unvisited(),
            final(self).pending() is None,
            match error {
                Some(error) => old(self).pending() == Some(error@),
                None => old(self).pending() is None,
            },
            old(self).pending() is None ==> final(self).failure() == old(self).failure(),
            old(self).pending() is Some ==> final(self).failure() is None,
    {
        self.pending_error.take()
    }

    /// Bounds on the number of entries that are still to come. There is no upper bound where
    /// a machine word does not hold it.
    pub fn size_hint(&self) -> (hint: (usize, Option<usize>))
        requires
            self.wf(),
        ensures
            hint.0 == 0,
            hint.1 == (if self.unvisited() <= usize::MAX {
                Some(self.unvisited() as usize)
            } else {
                None
            }),
            hint.1 matches Some(upper) ==> self.remaining().len() <= upper,
    {
        proof {
            self.lemma_unvisited();
        }
        let overlay: usize = self.view.overlay.len() - self.overlay_position;
        (0, self.base_remaining.checked_add(overlay))
    }

    /// No more entries come than records and Overlay entries have not been looked at.
    proof fn lemma_unvisited(self)
        requires
            self.wf(),
        ensures
            self.remaining().len() <= self.unvisited(),
    {
        lemma_base_items_len(
            self.view.base.mapping@,
            self.view.base.data().len() as int,
            self.view.overlay@,
            self.base_offset as int,
            self.base_remaining as nat,
        );
        lemma_overlay_items_len(
            self.view.overlay.keys(),
            self.view.overlay.values(),
            self.overlay_position as int,
        );
    }

    /// The record at the current position of the Base.
    fn read_record(&self) -> (result: Result<(&'a [u8], &'a [u8], usize)>)
        requires
            self.wf(),
            self.base_remaining > 0,
        ensures
            match result {
                Ok((key, value, end)) => segment::record_outcome(
                    self.view.base.mapping@,
                    self.base_offset as int,
                    self.view.base.data().len() as int,
                ) == Ok::<(Seq<u8>, Seq<u8>, int), ErrorView>((key@, value@, end as int)),
                Err(error) => !self.base_trusted && segment::record_outcome(
                    self.view.base.mapping@,
                    self.base_offset as int,
                    self.view.base.data().len() as int,
                ) == Err::<(Seq<u8>, Seq<u8>, int), ErrorView>(error@),
            },
    {
        let mapping = self.view.base.mapping;
        assert(mapping@.len() == mapping.len());
        if self.base_trusted {
            proof {
                lemma_mapped_record(
                    self.view.base.data(),
                    mapping@,
                    self.base_offset as int,
                );
            }
            Ok(trusted_record_at(mapping, self.base_offset))
        } else {
            record_at(mapping, self.base_offset, self.view.base.verifier.data_size())
        }
    }

    /// The next live entry, with the range of the Base that holds it.
    pub fn next_located(&mut self) -> (item: Option<(&'a [u8], &'a [u8], Option<(usize, usize)>)>)
        requires
            old(self).wf(),
        ensures
            final(self).wf(),
            final(self).source() == old(self).source(),
            final(self).failure() == old(self).failure(),
            final(self).trusted() == old(self).trusted(),
            item is Some ==> final(self).unvisited() < old(self).unvisited(),
            item is None ==> final(self).unvisited() <= old(self).unvisited(),
            match item {
                Some((key, value, range)) => {
                    &&& old(self).remaining().len() > 0
                    &&& old(self).remaining()[0] == (Located {
                        key: key@,
                        value: value@,
                        range: match range {
                            Some((start, end)) => Some((start as int, end as int)),
                            None => None,
                        },
                    })
                    &&& final(self).remaining() == old(self).remaining().drop_first()
                    &&& range matches Some((start, end)) ==> start <= end
                        <= old(self).source().base.data().len()
                    &&& final(self).pending() == old(self).pending()
                },
                None => {
                    &&& old(self).remaining().len() == 0
                    &&& final(self).remaining().len() == 0
                    &&& final(self).pending() == old(self).failure()
                },
            },
    {
        if self.finished {
            return None;
        }
        let ghost before = *self;
        while self.base_remaining > 0
            invariant
                self.wf(),
                !self.finished,
                self.view == before.view,
                self.remaining() == before.remaining(),
                self.failure() == before.failure(),
                self.pending_error == before.pending_error,
                self.unvisited() <= before.unvisited(),
                self.base_trusted == before.base_trusted,
                before == *old(self),
            decreases self.base_remaining,
        {
            let ghost current = *self;
            let offset: usize = self.base_offset;
            let (key, value, end) = match self.read_record() {
                Ok(record) => record,
                Err(error) => {
                    self.pending_error = Some(error);
                    self.finished = true;
                    return None;
                },
            };
            self.base_offset = end;
            self.base_remaining = self.base_remaining - 1;
            assert(self.view.base.mapping@.len() == self.view.base.mapping.len());
            proof {
                if self.base_trusted {
                    lemma_mapped_record(
                        self.view.base.data(),
                        self.view.base.mapping@,
                        offset as int,
                    );
                }
            }
            if !self.view.overlay.contains_key(key) {
                proof {
                    assert(current.remaining().drop_first() =~= self.remaining());
                }
                return Some((key, value, Some((offset + 8, end))));
            }
        }
        if self.base_offset != self.view.base.verifier.data_size() {
            self.pending_error = Some(
                Error::invalid_base("base record count does not match data size"),
            );
            self.finished = true;
            return None;
        }
        let view = self.view;
        while self.overlay_position < view.overlay.len()
            invariant
                self.wf(),
                !self.finished,
                view == self.view,
                self.base_remaining == 0,
                self.base_offset == self.view.base.data().len(),
                self.view == before.view,
                self.remaining() == before.remaining(),
                self.failure() == before.failure(),
                self.pending_error == before.pending_error,
                self.unvisited() <= before.unvisited(),
                self.base_trusted == before.base_trusted,
                before == *old(self),
            decreases view.overlay.keys().len() - self.overlay_position,
        {
            let ghost current = *self;
            proof {
                view.overlay.lemma_wf();
            }
            let (key, entry) = view.overlay.entry_at(self.overlay_position);
            let ghost position = self.overlay_position as int;
            self.overlay_position = self.overlay_position + 1;
            if let OverlayEntry::Put(value) = entry {
                proof {
                    assert(view.overlay.values()[position].wf());
                    assert(current.remaining().drop_first() =~= self.remaining());
                }
                return Some((key, value.as_slice(), None));
            }
            assert(self.remaining() =~= current.remaining());
        }
        self.finished = true;
        None
    }

    /// The next live entry.
    pub fn next(&mut self) -> (item: Option<(&'a [u8], &'a [u8])>)
        requires
            old(self).wf(),
        ensures
            final(self).wf(),
            final(self).source() == old(self).source(),
            final(self).failure() == old(self).failure(),
            final(self).trusted() == old(self).trusted(),
            item is Some ==> final(self).unvisited() < old(self).unvisited(),
            item is None ==> final(self).unvisited() <= old(self).unvisited(),
            match item {
                Some((key, value)) => {
                    &&& old(self).remaining().len() > 0
                    &&& old(self).remaining()[0].key == key@
                    &&& old(self).remaining()[0].value == value@
                    &&& final(self).remaining() == old(self).remaining().drop_first()
                    &&& final(self).pending() == old(self).pending()
                },
                None => {
                    &&& old(self).remaining().len() == 0
                    &&& final(self).remaining().len() == 0
                    &&& final(self).pending() == old(self).failure()
                },
            },
    {
        match self.next_located() {
            Some((key, value, _)) => Some((key, value)),
            None => None,
        }
    }
}

/// A record that fits in the data is read from a mapping that starts with the data.
pub proof fn lemma_mapped_record(data: Seq<u8>, mapping: Seq<u8>, at: int)
    requires
        data.len() <= mapping.len() <= usize::MAX,
        mapping.subrange(0, data.len() as int) == data,
        segment::record_fits(data, at),
    ensures
        segment::record_fits(mapping, at),
        segment::record_outcome(mapping, at, data.len() as int) == Ok::<
            (Seq<u8>, Seq<u8>, int),
            ErrorView,
        >(
            (
                segment::record_key(data, at),
                segment::record_value(data, at),
                segment::record_end(data, at),
            ),
        ),
        segment::record_key(mapping, at) == segment::record_key(data, at),
        segment::record_value(mapping, at) == segment::record_value(data, at),
        segment::record_end(mapping, at) == segment::record_end(data, at),
{
    assert(data =~= mapping.subrange(0, data.len() as int));
    assert(mapping.subrange(at, at + 4) =~= data.subrange(at, at + 4));
    assert(mapping.subrange(at + 4, at + 8) =~= data.subrange(at + 4, at + 8));
    bytes::lemma_le_u32_same(mapping, at, data, at);
    bytes::lemma_le_u32_same(mapping, at + 4, data, at + 4);
    assert(segment::record_key(mapping, at) =~= segment::record_key(data, at));
    assert(segment::record_value(mapping, at) =~= segment::record_value(data, at));
}

/// What iterating gives for a live entry: the entry, unless the blocks that hold it have
/// to be checked and fail.
pub open spec fn checked_item(
    data: Seq<u8>,
    table: Seq<u8>,
    offset: u64,
    verification: VerificationMode,
    item: Located,
) -> std::result::Result<(Seq<u8>, Seq<u8>), ErrorView> {
    match item.range {
        Some((start, end)) => if verification == VerificationMode::OnRead {
            match lookup::range_outcome(data, table, offset, start, end) {
                Err(error) => Err(error),
                Ok(_) => Ok((item.key, item.value)),
            }
        } else {
            Ok((item.key, item.value))
        },
        None => Ok((item.key, item.value)),
    }
}

/// What iterating over live entries gives, with the error at the end of the iteration.
pub open spec fn checked(
    data: Seq<u8>,
    table: Seq<u8>,
    offset: u64,
    verification: VerificationMode,
    items: Seq<Located>,
    failure: Option<ErrorView>,
) -> Seq<std::result::Result<(Seq<u8>, Seq<u8>), ErrorView>> {
    Seq::new(
        items.len(),
        |i: int| checked_item(data, table, offset, verification, items[i]),
    ) + match failure {
        Some(error) => seq![Err::<(Seq<u8>, Seq<u8>), ErrorView>(error)],
        None => Seq::empty(),
    }
}

/// What iterating over live entries of a view gives.
pub open spec fn checked_items(
    view: ReadView<'_>,
    items: Seq<Located>,
    failure: Option<ErrorView>,
) -> Seq<std::result::Result<(Seq<u8>, Seq<u8>), ErrorView>> {
    checked(
        view.base.data(),
        view.base.table(),
        view.base.offset,
        view.verification,
        items,
        failure,
    )
}

/// What one step of an iteration returned, by the bytes that it gave.
pub open spec fn item_view(item: Result<(&[u8], &[u8])>) -> std::result::Result<
    (Seq<u8>, Seq<u8>),
    ErrorView,
> {
    match item {
        Ok((key, value)) => Ok((key@, value@)),
        Err(error) => Err(error@),
    }
}

/// Fallible zero-copy iterator over a consistent database view.
pub struct Entries<'a> {
    view: ReadView<'a>,
    inner: RawEntries<'a>,
}

impl<'a> Entries<'a> {
    pub closed spec fn wf(self) -> bool {
        &&& self.inner.wf()
        &&& self.inner.source() == self.view
        &&& self.inner.pending() is None
    }

    /// What the iteration is still going to give.
    pub closed spec fn results(self) -> Seq<
        std::result::Result<(Seq<u8>, Seq<u8>), ErrorView>,
    > {
        checked_items(self.view, self.inner.remaining(), self.inner.failure())
    }

    /// Starts an iteration over a view whose Base has `base_len` records.
    pub(crate) fn new(view: ReadView<'a>, base_len: usize) -> (entries: Self)
        requires
            view.wf(),
            segment::header_outcome(view.base.data()) == Ok::<(u64, int), ErrorView>(
                (view.base.slots, base_len as int),
            ),
        ensures
            entries.wf(),
            entries.results() == checked_items(
                view,
                RawEntries::all_items(view, base_len as nat),
                RawEntries::all_failure(view, base_len as nat),
            ),
            entries.unvisited() == base_len + view.overlay.keys().len(),
    {
        Entries { view, inner: RawEntries::new(view, base_len) }
    }

    /// How many records and Overlay entries have not been looked at.
    pub closed spec fn unvisited(self) -> int {
        self.inner.unvisited()
    }

    /// Bounds on the number of entries that are still to come. An error with which the
    /// iteration ends is not counted.
    pub fn size_hint(&self) -> (hint: (usize, Option<usize>))
        requires
            self.wf(),
        ensures
            hint.0 == 0,
            hint.1 == (if self.unvisited() <= usize::MAX {
                Some(self.unvisited() as usize)
            } else {
                None
            }),
            hint.1 matches Some(upper) ==> self.results().len() <= upper + 1,
    {
        self.inner.size_hint()
    }

    /// The next live entry, or what went wrong where it should be.
    pub fn next(&mut self) -> (item: Option<Result<(&'a [u8], &'a [u8])>>)
        requires
            old(self).wf(),
        ensures
            final(self).wf(),
            final(self).unvisited() <= old(self).unvisited(),
            match item {
                Some(item) => {
                    &&& old(self).results().len() > 0
                    &&& item_view(item) == old(self).results()[0]
                    &&& final(self).results() == old(self).results().drop_first()
                },
                None => old(self).results().len() == 0 && final(self).results().len() == 0,
            },
    {
        let ghost before = *self;
        match self.inner.next_located() {
            Some((key, value, range)) => {
                proof {
                    assert(self.results() =~= before.results().drop_first());
                }
                if let Some((start, end)) = range {
                    if self.view.verification == VerificationMode::OnRead {
                        let base = self.view.base;
                        proof {
                            if segment::blocks_ok(base.data(), base.table()) {
                                lookup::lemma_range_ok(
                                    base.data(),
                                    base.table(),
                                    base.offset,
                                    start as int,
                                    end as int,
                                );
                            }
                        }
                        return match base.verifier.verify_range(base.mapping, start, end) {
                            Ok(()) => Some(Ok((key, value))),
                            Err(error) => Some(Err(error)),
                        };
                    }
                }
                Some(Ok((key, value)))
            },
            None => match self.inner.take_error() {
                Some(error) => {
                    assert(self.results() =~= before.results().drop_first());
                    Some(Err(error))
                },
                None => None,
            },
        }
    }
}

/// The entries that located entries stand for.
pub open spec fn plain(items: Seq<Located>) -> Seq<(Seq<u8>, Seq<u8>)> {
    Seq::new(items.len(), |i: int| (items[i].key, items[i].value))
}

/// The records of a readable Base are iterated up to the end of its data.
proof fn lemma_base_items(
    data: Seq<u8>,
    mapping: Seq<u8>,
    overlay: Map<Seq<u8>, OverlayEntry>,
    offset: int,
    n: nat,
    entries: Seq<(Seq<u8>, Seq<u8>)>,
    i: int,
)
    requires
        data.len() <= mapping.len() <= usize::MAX,
        mapping.subrange(0, data.len() as int) == data,
        0 <= i <= entries.len(),
        0 <= offset,
        n == entries.len() - i,
        records::parse_records(data, offset, n) == Some((entries.skip(i), data.len() as int)),
    ensures
        base_end(mapping, data.len() as int, offset, n) == Ok::<int, ErrorView>(
            data.len() as int,
        ),
        plain(base_items(mapping, data.len() as int, overlay, offset, n)) == live::live_base(
            entries,
            overlay,
            i,
        ),
        forall|x: int|
            0 <= x < base_items(mapping, data.len() as int, overlay, offset, n).len() ==> ((
            #[trigger] base_items(
                mapping,
                data.len() as int,
                overlay,
                offset,
                n,
            )[x]).range matches Some((start, end)) && 0 <= start <= end <= data.len()),
    decreases n,
{
    let items = base_items(mapping, data.len() as int, overlay, offset, n);
    if n > 0 {
        lemma_mapped_record(data, mapping, offset);
        let end = segment::record_end(data, offset);
        let (rest, stop) = records::parse_records(data, end, (n - 1) as nat)->Some_0;
        assert(entries.skip(i)[0] == entries[i]);
        assert(rest =~= entries.skip(i + 1)) by {
            let whole = seq![(
                segment::record_key(data, offset),
                segment::record_value(data, offset),
            )] + rest;
            assert(entries.skip(i) == whole);
            assert(whole.len() == 1 + rest.len());
            assert(entries.skip(i).len() == entries.len() - i);
            assert forall|j: int| 0 <= j < rest.len() implies rest[j] == entries.skip(i + 1)[j] by {
                assert(whole[j + 1] == rest[j]);
                assert(entries.skip(i)[j + 1] == entries[i + j + 1]);
            }
        }
        lemma_base_items(data, mapping, overlay, end, (n - 1) as nat, entries, i + 1);
        let tail = base_items(mapping, data.len() as int, overlay, end, (n - 1) as nat);
        if !overlay.contains_key(entries[i].0) {
            assert(plain(items) =~= seq![entries[i]] + plain(tail));
            assert forall|x: int| 0 <= x < items.len() implies ((
            #[trigger] items[x]).range matches Some((start, end)) && 0 <= start <= end
                <= data.len()) by {
                if x > 0 {
                    assert(items[x] == tail[x - 1]);
                }
            }
        }
    } else {
        assert(plain(items) =~= live::live_base(entries, overlay, i));
    }
}

proof fn lemma_overlay_items(keys: Seq<Seq<u8>>, values: Seq<OverlayEntry>, i: int)
    requires
        0 <= i,
    ensures
        plain(overlay_items(keys, values, i)) == live::live_overlay(keys, values, i),
        forall|x: int|
            0 <= x < overlay_items(keys, values, i).len() ==> (#[trigger] overlay_items(
                keys,
                values,
                i,
            )[x]).range is None,
    decreases keys.len() - i,
{
    let items = overlay_items(keys, values, i);
    if i < keys.len() {
        lemma_overlay_items(keys, values, i + 1);
        let tail = overlay_items(keys, values, i + 1);
        match values[i]@ {
            Some(value) => {
                assert(plain(items) =~= seq![(keys[i], value)] + plain(tail));
                assert forall|x: int| 0 <= x < items.len() implies (
                #[trigger] items[x]).range is None by {
                    if x > 0 {
                        assert(items[x] == tail[x - 1]);
                    }
                }
            },
            None => {},
        }
    } else {
        assert(plain(items) =~= live::live_overlay(keys, values, i));
    }
}

/// Iterating over a view of a readable Base gives its live entries and ends without an
/// error; and where the blocks are intact, no check fails on the way.
pub proof fn lemma_iterates_live_entries(
    view: ReadView<'_>,
    entries: Seq<(Seq<u8>, Seq<u8>)>,
)
    requires
        view.wf(),
        view.base.mapping@.len() <= usize::MAX,
        records::parse_records(
            view.base.data(),
            index::records_offset(view.base.slots as int),
            entries.len(),
        ) == Some((entries, view.base.data().len() as int)),
    ensures
        RawEntries::all_failure(view, entries.len()) is None,
        plain(RawEntries::all_items(view, entries.len())) == live::live_entries(
            entries,
            view.overlay.keys(),
            view.overlay.values(),
        ),
        segment::blocks_ok(view.base.data(), view.base.table()) ==> checked_items(
            view,
            RawEntries::all_items(view, entries.len()),
            RawEntries::all_failure(view, entries.len()),
        ) == good_items(
            live::live_entries(entries, view.overlay.keys(), view.overlay.values()),
        ),
{
    let data = view.base.data();
    let mapping = view.base.mapping@;
    let at = index::records_offset(view.base.slots as int);
    let keys = view.overlay.keys();
    let values = view.overlay.values();
    assert(entries.skip(0) =~= entries);
    lemma_base_items(data, mapping, view.overlay@, at, entries.len(), entries, 0);
    lemma_overlay_items(keys, values, 0);
    let first = base_items(mapping, data.len() as int, view.overlay@, at, entries.len());
    let second = overlay_items(keys, values, 0);
    let items = RawEntries::all_items(view, entries.len());
    let live = live::live_entries(entries, keys, values);
    assert(items == first + second);
    assert(plain(items) =~= plain(first) + plain(second));
    if segment::blocks_ok(data, view.base.table()) {
        let results = checked_items(view, items, None);
        assert forall|x: int| 0 <= x < items.len() implies #[trigger] results[x]
            == good_items(live)[x] by {
            assert(live[x] == (items[x].key, items[x].value)) by {
                assert(plain(items)[x] == live[x]);
            }
            if x < first.len() {
                assert(items[x] == first[x]);
                let (start, end) = first[x].range->Some_0;
                lookup::lemma_range_ok(
                    data,
                    view.base.table(),
                    view.base.offset,
                    start,
                    end,
                );
            } else {
                assert(items[x] == second[x - first.len()]);
            }
        }
        assert(results =~= good_items(live));
    }
}

/// Entries, none of which failed.
pub open spec fn good_items(entries: Seq<(Seq<u8>, Seq<u8>)>) -> Seq<
    std::result::Result<(Seq<u8>, Seq<u8>), ErrorView>,
> {
    Seq::new(entries.len(), |i: int| Ok::<(Seq<u8>, Seq<u8>), ErrorView>(entries[i]))
}

} // verus!
