//! The live entries of a database: those of the Base that the Overlay says nothing of, and
//! those that the Overlay puts.

use crate::database::state;
use crate::database::state::OverlayEntry;
use crate::format::lookup;
use crate::format::records;
use crate::format::segment;
use crate::key_map;
use vstd::prelude::*;

verus! {

/// What a database holds: what the Overlay says, and what the Base holds where the Overlay
/// says nothing.
pub open spec fn merged(
    base: Map<Seq<u8>, Seq<u8>>,
    overlay: Map<Seq<u8>, Option<Seq<u8>>>,
) -> Map<Seq<u8>, Seq<u8>> {
    Map::new(
        |key: Seq<u8>|
            if overlay.contains_key(key) {
                overlay[key] is Some
            } else {
                base.contains_key(key)
            },
        |key: Seq<u8>|
            if overlay.contains_key(key) {
                overlay[key]->Some_0
            } else {
                base[key]
            },
    )
}

/// The entries of a Base, from entry `i` on, of which the Overlay says nothing.
pub open spec fn live_base(
    entries: Seq<(Seq<u8>, Seq<u8>)>,
    overlay: Map<Seq<u8>, OverlayEntry>,
    i: int,
) -> Seq<(Seq<u8>, Seq<u8>)>
    decreases entries.len() - i,
{
    if i >= entries.len() {
        Seq::empty()
    } else if overlay.contains_key(entries[i].0) {
        live_base(entries, overlay, i + 1)
    } else {
        seq![entries[i]] + live_base(entries, overlay, i + 1)
    }
}

/// The entries that an Overlay puts, from position `i` on.
pub open spec fn live_overlay(keys: Seq<Seq<u8>>, values: Seq<OverlayEntry>, i: int) -> Seq<
    (Seq<u8>, Seq<u8>),
>
    decreases keys.len() - i,
{
    if i >= keys.len() {
        Seq::empty()
    } else {
        match values[i]@ {
            Some(value) => seq![(keys[i], value)] + live_overlay(keys, values, i + 1),
            None => live_overlay(keys, values, i + 1),
        }
    }
}

/// All live entries, in the order in which they are iterated.
pub open spec fn live_entries(
    entries: Seq<(Seq<u8>, Seq<u8>)>,
    keys: Seq<Seq<u8>>,
    values: Seq<OverlayEntry>,
) -> Seq<(Seq<u8>, Seq<u8>)> {
    live_base(entries, key_map::pairs_map(keys, values), 0) + live_overlay(keys, values, 0)
}

/// Whether every key and value of an Overlay is within the limits of the format.
pub open spec fn overlay_fits(overlay: Map<Seq<u8>, Option<Seq<u8>>>) -> bool {
    forall|key: Seq<u8>| #[trigger]
        overlay.contains_key(key) ==> (match overlay[key] {
            Some(value) => segment::lengths_fit(key.len() as int, value.len() as int),
            None => segment::lengths_fit(key.len() as int, 0),
        })
}

/// Each live entry of a Base is an entry from `i` on of which the Overlay says nothing.
proof fn lemma_live_base(
    entries: Seq<(Seq<u8>, Seq<u8>)>,
    overlay: Map<Seq<u8>, OverlayEntry>,
    i: int,
)
    requires
        0 <= i <= entries.len(),
        records::entry_keys(entries).no_duplicates(),
    ensures
        ({
            let live = live_base(entries, overlay, i);
            &&& live.len() <= entries.len() - i
            &&& records::entry_keys(live).no_duplicates()
            &&& forall|x: int|
                0 <= x < live.len() ==> !overlay.contains_key((#[trigger] live[x]).0) && exists|
                    j: int,
                | i <= j < entries.len() && entries[j] == live[x]
            &&& forall|j: int|
                i <= j < entries.len() && !overlay.contains_key((#[trigger] entries[j]).0)
                    ==> live.contains(entries[j])
        }),
    decreases entries.len() - i,
{
    let live = live_base(entries, overlay, i);
    if i < entries.len() {
        let rest = live_base(entries, overlay, i + 1);
        lemma_live_base(entries, overlay, i + 1);
        if overlay.contains_key(entries[i].0) {
            assert forall|x: int| 0 <= x < live.len() implies !overlay.contains_key(
                (#[trigger] live[x]).0,
            ) && exists|j: int| i <= j < entries.len() && entries[j] == live[x] by {
                let j = choose|j: int| i + 1 <= j < entries.len() && entries[j] == rest[x];
                assert(entries[j] == live[x]);
            }
        } else {
            assert forall|x: int| 0 <= x < live.len() implies !overlay.contains_key(
                (#[trigger] live[x]).0,
            ) && exists|j: int| i <= j < entries.len() && entries[j] == live[x] by {
                if x == 0 {
                    assert(entries[i] == live[x]);
                } else {
                    assert(live[x] == rest[x - 1]);
                    let j = choose|j: int| i + 1 <= j < entries.len() && entries[j] == rest[x - 1];
                    assert(entries[j] == live[x]);
                }
            }
            assert forall|j: int|
                i <= j < entries.len() && !overlay.contains_key(
                    (#[trigger] entries[j]).0,
                ) implies live.contains(entries[j]) by {
                if j == i {
                    assert(live[0] == entries[j]);
                } else {
                    let x = choose|x: int| 0 <= x < rest.len() && rest[x] == entries[j];
                    assert(live[x + 1] == entries[j]);
                }
            }
            let keys = records::entry_keys(live);
            assert forall|x: int, y: int|
                0 <= x < keys.len() && 0 <= y < keys.len() && x != y implies keys[x] != keys[y] by {
                if x > 0 && y > 0 {
                    assert(records::entry_keys(rest)[x - 1] != records::entry_keys(rest)[y - 1]);
                } else {
                    let z = if x == 0 { y } else { x };
                    assert(live[z] == rest[z - 1]);
                    let j = choose|j: int| i + 1 <= j < entries.len() && entries[j] == rest[z - 1];
                    assert(records::entry_keys(entries)[i] != records::entry_keys(entries)[j]);
                }
            }
        }
    }
}

/// Each live entry of an Overlay is one that it puts at position `i` or behind.
proof fn lemma_live_overlay(keys: Seq<Seq<u8>>, values: Seq<OverlayEntry>, i: int)
    requires
        0 <= i <= keys.len(),
        keys.len() == values.len(),
        keys.no_duplicates(),
    ensures
        ({
            let live = live_overlay(keys, values, i);
            &&& live.len() <= keys.len() - i
            &&& records::entry_keys(live).no_duplicates()
            &&& forall|x: int|
                0 <= x < live.len() ==> exists|j: int|
                    i <= j < keys.len() && (#[trigger] live[x]).0 == keys[j] && #[trigger] values[j]@
                        == Some(live[x].1)
            &&& forall|j: int|
                i <= j < keys.len() && (#[trigger] values[j])@ is Some ==> live.contains(
                    (keys[j], values[j]@->Some_0),
                )
        }),
    decreases keys.len() - i,
{
    let live = live_overlay(keys, values, i);
    if i < keys.len() {
        let rest = live_overlay(keys, values, i + 1);
        lemma_live_overlay(keys, values, i + 1);
        match values[i]@ {
            None => {
                assert forall|x: int| 0 <= x < live.len() implies exists|j: int|
                    i <= j < keys.len() && (#[trigger] live[x]).0 == keys[j] && #[trigger] values[j]@
                        == Some(live[x].1) by {
                    assert(live[x] == rest[x]);
                    let j = choose|j: int|
                        i + 1 <= j < keys.len() && rest[x].0 == keys[j] && #[trigger] values[j]@
                            == Some(rest[x].1);
                    assert(values[j]@ == Some(live[x].1));
                }
            },
            Some(value) => {
                assert forall|x: int| 0 <= x < live.len() implies exists|j: int|
                    i <= j < keys.len() && (#[trigger] live[x]).0 == keys[j] && #[trigger] values[j]@
                        == Some(live[x].1) by {
                    if x == 0 {
                        assert(values[i]@ == Some(live[x].1));
                    } else {
                        assert(live[x] == rest[x - 1]);
                        let j = choose|j: int|
                            i + 1 <= j < keys.len() && rest[x - 1].0 == keys[j]
                                && #[trigger] values[j]@ == Some(rest[x - 1].1);
                        assert(values[j]@ == Some(live[x].1));
                    }
                }
                assert forall|j: int|
                    i <= j < keys.len() && (#[trigger] values[j])@ is Some implies live.contains(
                    (keys[j], values[j]@->Some_0),
                ) by {
                    if j == i {
                        assert(live[0] == (keys[j], values[j]@->Some_0));
                    } else {
                        let entry = (keys[j], values[j]@->Some_0);
                        assert(rest.contains(entry));
                        let x = choose|x: int| 0 <= x < rest.len() && rest[x] == entry;
                        assert(live[x + 1] == entry);
                    }
                }
                let names = records::entry_keys(live);
                assert forall|x: int, y: int|
                    0 <= x < names.len() && 0 <= y < names.len() && x != y implies names[x]
                    != names[y] by {
                    if x > 0 && y > 0 {
                        assert(records::entry_keys(rest)[x - 1] != records::entry_keys(rest)[y
                            - 1]);
                    } else {
                        let z = if x == 0 { y } else { x };
                        assert(live[z] == rest[z - 1]);
                        let j = choose|j: int|
                            i + 1 <= j < keys.len() && rest[z - 1].0 == keys[j]
                                && #[trigger] values[j]@ == Some(rest[z - 1].1);
                        assert(keys[i] != keys[j]);
                    }
                }
            },
        }
    }
}

/// The live entries have distinct keys, and describe exactly what the database holds.
pub proof fn law_live_entries_are_the_contents(
    entries: Seq<(Seq<u8>, Seq<u8>)>,
    keys: Seq<Seq<u8>>,
    values: Seq<OverlayEntry>,
)
    requires
        records::entry_keys(entries).no_duplicates(),
        keys.no_duplicates(),
        keys.len() == values.len(),
    ensures
        ({
            let live = live_entries(entries, keys, values);
            &&& records::entry_keys(live).no_duplicates()
            &&& lookup::entries_map(live) == merged(
                lookup::entries_map(entries),
                state::overlay_view(key_map::pairs_map(keys, values)),
            )
        }),
{
    let overlay = key_map::pairs_map(keys, values);
    let said = state::overlay_view(overlay);
    let first = live_base(entries, overlay, 0);
    let second = live_overlay(keys, values, 0);
    let live = live_entries(entries, keys, values);
    lemma_live_base(entries, overlay, 0);
    lemma_live_overlay(keys, values, 0);
    let names = records::entry_keys(live);
    assert forall|x: int| first.len() <= x < live.len() implies overlay.contains_key(
        (#[trigger] live[x]).0,
    ) && said[live[x].0] == Some(live[x].1) by {
        let y = x - first.len();
        assert(live[x] == second[y]);
        let j = choose|j: int|
            0 <= j < keys.len() && second[y].0 == keys[j] && #[trigger] values[j]@ == Some(
                second[y].1,
            );
        key_map::lemma_pairs_map_at(keys, values, j);
    }
    assert(names.no_duplicates()) by {
        assert forall|x: int, y: int|
            0 <= x < names.len() && 0 <= y < names.len() && x != y implies names[x] != names[y] by {
            let n = first.len() as int;
            if x < n && y < n {
                assert(records::entry_keys(first)[x] != records::entry_keys(first)[y]);
            } else if x >= n && y >= n {
                assert(records::entry_keys(second)[x - n] != records::entry_keys(second)[y - n]);
            } else {
                let a = if x < n { x } else { y };
                let b = if x < n { y } else { x };
                assert(live[a] == first[a]);
                assert(!overlay.contains_key(live[a].0));
                assert(overlay.contains_key(live[b].0));
            }
        }
    }
    let base = lookup::entries_map(entries);
    let left = lookup::entries_map(live);
    let right = merged(base, said);
    assert forall|k: Seq<u8>|
        #![trigger left.dom().contains(k)]
        #![trigger right.dom().contains(k)]
        #![trigger left[k]]
        left.dom().contains(k) == right.dom().contains(k) && (left.dom().contains(k) ==> left[k]
            == right[k]) by {
        if names.contains(k) {
            let x = names.index_of(k);
            assert(names[x] == k);
            key_map::lemma_pairs_map_at(names, records::entry_values(live), x);
            if x < first.len() {
                assert(live[x] == first[x]);
                let j = choose|j: int| 0 <= j < entries.len() && entries[j] == first[x];
                key_map::lemma_pairs_map_at(
                    records::entry_keys(entries),
                    records::entry_values(entries),
                    j,
                );
                assert(records::entry_keys(entries)[j] == k);
            } else {
                assert(overlay.contains_key(live[x].0));
            }
        }
        if right.dom().contains(k) {
            if said.contains_key(k) {
                let j = keys.index_of(k);
                assert(keys[j] == k);
                key_map::lemma_pairs_map_at(keys, values, j);
                assert(values[j]@ is Some);
                let entry = (keys[j], values[j]@->Some_0);
                assert(second.contains(entry));
                let y = choose|y: int| 0 <= y < second.len() && second[y] == entry;
                assert(live[first.len() + y] == entry);
                assert(names[first.len() + y] == k);
            } else {
                let base_keys = records::entry_keys(entries);
                let j = base_keys.index_of(k);
                assert(base_keys[j] == k);
                assert(!overlay.contains_key(entries[j].0));
                let x = choose|x: int| 0 <= x < first.len() && first[x] == entries[j];
                assert(live[x] == entries[j]);
                assert(names[x] == k);
            }
        }
    }
    assert(left =~= right);
}

/// Live entries are within the limits of the format where all entries are.
pub proof fn lemma_live_fits(
    entries: Seq<(Seq<u8>, Seq<u8>)>,
    keys: Seq<Seq<u8>>,
    values: Seq<OverlayEntry>,
)
    requires
        records::entry_keys(entries).no_duplicates(),
        keys.no_duplicates(),
        keys.len() == values.len(),
        records::entries_fit(entries),
        overlay_fits(state::overlay_view(key_map::pairs_map(keys, values))),
    ensures
        records::entries_fit(live_entries(entries, keys, values)),
        live_entries(entries, keys, values).len() <= entries.len() + keys.len(),
{
    let overlay = key_map::pairs_map(keys, values);
    let first = live_base(entries, overlay, 0);
    let second = live_overlay(keys, values, 0);
    let live = live_entries(entries, keys, values);
    lemma_live_base(entries, overlay, 0);
    lemma_live_overlay(keys, values, 0);
    assert forall|x: int| 0 <= x < live.len() implies segment::lengths_fit(
        (#[trigger] live[x]).0.len() as int,
        live[x].1.len() as int,
    ) by {
        if x < first.len() {
            assert(live[x] == first[x]);
            let j = choose|j: int| 0 <= j < entries.len() && entries[j] == first[x];
            assert(segment::lengths_fit(
                entries[j].0.len() as int,
                entries[j].1.len() as int,
            ));
        } else {
            let y = x - first.len();
            assert(live[x] == second[y]);
            let j = choose|j: int|
                0 <= j < keys.len() && second[y].0 == keys[j] && #[trigger] values[j]@ == Some(
                    second[y].1,
                );
            key_map::lemma_pairs_map_at(keys, values, j);
            assert(state::overlay_view(overlay).contains_key(keys[j]));
        }
    }
}

/// Without anything in the Overlay every entry of a Base is live.
pub proof fn lemma_nothing_over(
    entries: Seq<(Seq<u8>, Seq<u8>)>,
    keys: Seq<Seq<u8>>,
    values: Seq<OverlayEntry>,
    i: int,
)
    requires
        keys.len() == 0,
        0 <= i <= entries.len(),
    ensures
        live_base(entries, key_map::pairs_map(keys, values), i) == entries.skip(i),
        i == 0 ==> live_entries(entries, keys, values) == entries,
    decreases entries.len() - i,
{
    if i < entries.len() {
        lemma_nothing_over(entries, keys, values, i + 1);
        assert(!keys.contains(entries[i].0));
        assert(entries.skip(i) =~= seq![entries[i]] + entries.skip(i + 1));
    } else {
        assert(entries.skip(i) =~= Seq::empty());
    }
    if i == 0 {
        assert(live_entries(entries, keys, values) =~= entries);
    }
}

} // verus!
