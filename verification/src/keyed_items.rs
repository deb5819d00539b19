//! Telemetry lists keyed by generation: of the entries that share a key the last one
//! stays, and the list comes out in increasing order of key.
use vstd::prelude::*;

use vstd::string::StringSliceAdditionalSpecFns;

use crate::json::{items_view, json_generation_win_rate_key, usize_field_value};
use crate::text::copy_range;

verus! {

pub type ItemKey = (usize, usize);

/// `a` comes before `b`: by the first number, then by the second.
pub open spec fn key_before(a: ItemKey, b: ItemKey) -> bool {
    a.0 < b.0 || (a.0 == b.0 && a.1 < b.1)
}

/// Each key with the item of its last entry.
pub open spec fn latest_map(entries: Seq<(ItemKey, Seq<u8>)>) -> Map<ItemKey, Seq<u8>>
    decreases entries.len(),
{
    if entries.len() == 0 {
        Map::empty()
    } else {
        latest_map(entries.drop_last()).insert(entries.last().0, entries.last().1)
    }
}

/// `listing` holds the entries of `map` in increasing order of key.
pub open spec fn lists_in_key_order(listing: Seq<(ItemKey, Seq<u8>)>, map: Map<ItemKey, Seq<u8>>) -> bool {
    &&& forall|a: int, b: int|
        0 <= a < b < listing.len() ==> key_before(#[trigger] listing[a].0, #[trigger] listing[b].0)
    &&& forall|k: int|
        0 <= k < listing.len() ==> map.contains_key(#[trigger] listing[k].0) && map[listing[k].0]
            == listing[k].1
    &&& forall|key: ItemKey| #[trigger]
        map.contains_key(key) ==> exists|k: int| 0 <= k < listing.len() && #[trigger] listing[k].0 == key
}

/// The items of the entries, the last of each key, in increasing order of key.
pub open spec fn latest_items(entries: Seq<(ItemKey, Seq<u8>)>, items: Seq<Seq<u8>>) -> bool {
    exists|listing: Seq<(ItemKey, Seq<u8>)>|
        #[trigger] lists_in_key_order(listing, latest_map(entries)) && items == listing.map_values(
            |e: (ItemKey, Seq<u8>)| e.1,
        )
}

pub open spec fn entries_view(entries: Seq<(ItemKey, Vec<u8>)>) -> Seq<(ItemKey, Seq<u8>)> {
    entries.map_values(|e: (ItemKey, Vec<u8>)| (e.0, e.1@))
}

pub open spec fn listing_view(listing: Seq<(ItemKey, Vec<u8>)>) -> Seq<(ItemKey, Seq<u8>)> {
    listing.map_values(|e: (ItemKey, Vec<u8>)| (e.0, e.1@))
}

fn contains_generation(values: &[usize], value: usize) -> (found: bool)
    ensures
        found == values@.contains(value),
{
    let mut i: usize = 0;
    while i < values.len()
        invariant
            i <= values.len(),
            forall|j: int| 0 <= j < i ==> values@[j] != value,
        decreases values.len() - i,
    {
        if values[i] == value {
            proof {
                assert(values@[i as int] == value);
            }
            return true;
        }
        i += 1;
    }
    false
}

fn key_is_before(a: ItemKey, b: ItemKey) -> (before: bool)
    ensures
        before == key_before(a, b),
{
    a.0 < b.0 || (a.0 == b.0 && a.1 < b.1)
}

/// Puts `item` under `key` in the ordered listing, replacing the item of an equal key.
fn place(listing: &mut Vec<(ItemKey, Vec<u8>)>, key: ItemKey, item: Vec<u8>, Ghost(map): Ghost<Map<ItemKey, Seq<u8>>>)
    requires
        lists_in_key_order(listing_view(old(listing)@), map),
    ensures
        lists_in_key_order(listing_view(final(listing)@), map.insert(key, item@)),
{
    let ghost before = listing_view(listing@);
    let mut i: usize = 0;
    while i < listing.len() && key_is_before(listing[i].0, key)
        invariant
            i <= listing.len(),
            listing_view(listing@) == before,
            forall|j: int| 0 <= j < i ==> key_before(#[trigger] before[j].0, key),
        decreases listing.len() - i,
    {
        proof {
            assert(before[i as int].0 == listing@[i as int].0);
        }
        i += 1;
    }
    let ghost next = map.insert(key, item@);
    if i < listing.len() && listing[i].0 .0 == key.0 && listing[i].0 .1 == key.1 {
        let ghost item_view = item@;
        listing.set(i, (key, item));
        proof {
            let after = listing_view(listing@);
            assert(after =~= before.update(i as int, (key, item_view)));
            assert forall|key2: ItemKey| #[trigger] next.contains_key(key2) implies exists|k: int|
                0 <= k < after.len() && #[trigger] after[k].0 == key2 by {
                if key2 == key {
                    assert(after[i as int].0 == key);
                } else {
                    let k = choose|k: int| 0 <= k < before.len() && #[trigger] before[k].0 == key2;
                    assert(after[k].0 == key2);
                }
            }
            assert forall|a: int, b: int| 0 <= a < b < after.len() implies key_before(
                #[trigger] after[a].0,
                #[trigger] after[b].0,
            ) by {
                assert(key_before(before[a].0, before[b].0));
            }
            assert forall|k: int| 0 <= k < after.len() implies next.contains_key(
                #[trigger] after[k].0,
            ) && next[after[k].0] == after[k].1 by {
                if k != i {
                    assert(after[k] == before[k]);
                    if k < i {
                        assert(key_before(before[k].0, before[i as int].0));
                    } else {
                        assert(key_before(before[i as int].0, before[k].0));
                    }
                }
            }
        }
    } else {
        let ghost item_view = item@;
        proof {
            if i < listing.len() {
                assert(before[i as int].0 == listing@[i as int].0);
                assert(!key_before(before[i as int].0, key));
            }
        }
        listing.insert(i, (key, item));
        proof {
            let after = listing_view(listing@);
            assert(after =~= before.insert(i as int, (key, item_view)));
            assert forall|a: int, b: int| 0 <= a < b < after.len() implies key_before(
                #[trigger] after[a].0,
                #[trigger] after[b].0,
            ) by {
                if a < i && b == i {
                } else if a < i && b > i {
                    assert(key_before(before[a].0, before[b - 1].0));
                } else if a == i && b > i {
                    if b - 1 > i {
                        assert(key_before(before[i as int].0, before[b - 1].0));
                    }
                } else if a > i {
                    assert(key_before(before[a - 1].0, before[b - 1].0));
                } else {
                    assert(key_before(before[a].0, before[b].0));
                }
            }
            assert forall|k: int| 0 <= k < after.len() implies next.contains_key(
                #[trigger] after[k].0,
            ) && next[after[k].0] == after[k].1 by {
                if k < i {
                    assert(after[k] == before[k]);
                    assert(before[k].0 != key);
                } else if k > i {
                    assert(after[k] == before[k - 1]);
                    if i < before.len() {
                        if k - 1 > i {
                            assert(key_before(before[i as int].0, before[k - 1].0));
                        }
                    }
                    assert(before[k - 1].0 != key);
                }
            }
            assert forall|key2: ItemKey| #[trigger] next.contains_key(key2) implies exists|k: int|
                0 <= k < after.len() && #[trigger] after[k].0 == key2 by {
                if key2 == key {
                    assert(after[i as int].0 == key);
                } else {
                    let k = choose|k: int| 0 <= k < before.len() && #[trigger] before[k].0 == key2;
                    if k < i {
                        assert(after[k].0 == key2);
                    } else {
                        assert(after[k + 1].0 == key2);
                    }
                }
            }
        }
    }
}

/// The items of `entries`, the last entry of each key, in increasing order of key.
pub fn latest_by_key(entries: &[(ItemKey, Vec<u8>)]) -> (items: Vec<Vec<u8>>)
    ensures
        latest_items(entries_view(entries@), items_view(items@)),
{
    let ghost all = entries_view(entries@);
    let mut listing: Vec<(ItemKey, Vec<u8>)> = Vec::new();
    let mut i: usize = 0;
    proof {
        assert(listing_view(listing@) =~= Seq::<(ItemKey, Seq<u8>)>::empty());
        assert(latest_map(all.take(0)) =~= Map::<ItemKey, Seq<u8>>::empty());
    }
    while i < entries.len()
        invariant
            i <= entries.len(),
            all == entries_view(entries@),
            lists_in_key_order(listing_view(listing@), latest_map(all.take(i as int))),
        decreases entries.len() - i,
    {
        let key = entries[i].0;
        let item = copy_range(entries[i].1.as_slice(), 0, entries[i].1.len());
        proof {
            assert(entries[i as int].1@.subrange(0, entries[i as int].1@.len() as int)
                =~= entries[i as int].1@);
            assert(all.take(i + 1).drop_last() =~= all.take(i as int));
            assert(all[i as int] == (key, item@));
        }
        place(&mut listing, key, item, Ghost(latest_map(all.take(i as int))));
        i += 1;
    }
    proof {
        assert(all.take(all.len() as int) =~= all);
    }
    let mut items: Vec<Vec<u8>> = Vec::new();
    let mut k: usize = 0;
    let ghost final_listing = listing_view(listing@);
    while k < listing.len()
        invariant
            k <= listing.len(),
            final_listing == listing_view(listing@),
            items_view(items@) == final_listing.take(k as int).map_values(
                |e: (ItemKey, Seq<u8>)| e.1,
            ),
        decreases listing.len() - k,
    {
        let item = copy_range(listing[k].1.as_slice(), 0, listing[k].1.len());
        proof {
            assert(listing[k as int].1@.subrange(0, listing[k as int].1@.len() as int)
                =~= listing[k as int].1@);
            assert(final_listing[k as int].1 == item@);
        }
        let ghost before = items_view(items@);
        items.push(item);
        proof {
            assert(items_view(items@) =~= before.push(final_listing[k as int].1));
            assert(final_listing.take(k + 1) =~= final_listing.take(k as int).push(
                final_listing[k as int],
            ));
            assert(final_listing.take(k + 1).map_values(|e: (ItemKey, Seq<u8>)| e.1)
                =~= final_listing.take(k as int).map_values(|e: (ItemKey, Seq<u8>)| e.1).push(
                final_listing[k as int].1,
            ));
        }
        k += 1;
    }
    proof {
        assert(final_listing.take(final_listing.len() as int) =~= final_listing);
        assert(lists_in_key_order(final_listing, latest_map(all)));
    }
    items
}

/// Metric records for the telemetry: the last record of each generation that is not
/// excluded, in increasing order of generation. Each record is its generation and its
/// JSON.
pub fn dedup_metric_records(records: &[(usize, Vec<u8>)], excluded: &[usize]) -> (items: Vec<Vec<u8>>)
    ensures
        latest_items(
            metric_entries(records@.map_values(|r: (usize, Vec<u8>)| (r.0, r.1@)), excluded@),
            items_view(items@),
        ),
{
    let ghost all = records@.map_values(|r: (usize, Vec<u8>)| (r.0, r.1@));
    let mut entries: Vec<(ItemKey, Vec<u8>)> = Vec::new();
    let mut i: usize = 0;
    while i < records.len()
        invariant
            i <= records.len(),
            all == records@.map_values(|r: (usize, Vec<u8>)| (r.0, r.1@)),
            entries_view(entries@) == metric_entries(all.take(i as int), excluded@),
        decreases records.len() - i,
    {
        let generation = records[i].0;
        proof {
            assert(all.take(i + 1).drop_last() =~= all.take(i as int));
        }
        let skip = contains_generation(excluded, generation);
        if !skip {
            let item = copy_range(records[i].1.as_slice(), 0, records[i].1.len());
            proof {
                assert(records[i as int].1@.subrange(0, records[i as int].1@.len() as int)
                    =~= records[i as int].1@);
            }
            let ghost before = entries_view(entries@);
            entries.push(((generation, 0), item));
            proof {
                assert(entries_view(entries@) =~= before.push(((generation, 0usize), all[i as int].1)));
            }
        }
        i += 1;
    }
    proof {
        assert(all.take(all.len() as int) =~= all);
    }
    latest_by_key(entries.as_slice())
}

/// The keyed entries of metric records: each generation keyed with a zero second number,
/// the excluded generations left out.
pub open spec fn metric_entries(records: Seq<(usize, Seq<u8>)>, excluded: Seq<usize>) -> Seq<(ItemKey, Seq<u8>)>
    decreases records.len(),
{
    if records.len() == 0 {
        Seq::empty()
    } else {
        let rest = metric_entries(records.drop_last(), excluded);
        if excluded.contains(records.last().0) {
            rest
        } else {
            rest.push(((records.last().0, 0usize), records.last().1))
        }
    }
}

/// The `(validationGeneration, evaluatedGeneration)` pair of a win-rate item.
pub open spec fn win_rate_key_spec(item: Seq<u8>) -> Option<ItemKey> {
    match (
        usize_field_value(item, "validationGeneration".spec_bytes()),
        usize_field_value(item, "evaluatedGeneration".spec_bytes()),
    ) {
        (Some(validation), Some(evaluated)) => Some((validation, evaluated)),
        _ => None,
    }
}

/// The keyed entries of earlier win-rate items: those with both generations.
pub open spec fn win_rate_entries(items: Seq<Seq<u8>>) -> Seq<(ItemKey, Seq<u8>)>
    decreases items.len(),
{
    if items.len() == 0 {
        Seq::empty()
    } else {
        let rest = win_rate_entries(items.drop_last());
        match win_rate_key_spec(items.last()) {
            Some(key) => rest.push((key, items.last())),
            None => rest,
        }
    }
}

/// Generation win rates for the telemetry: the earlier items that carry both generations,
/// then this run's records, the last of each `(validation, evaluated)` pair kept, in
/// increasing order of the pair.
pub fn dedup_generation_win_rate_items(existing_items: &[Vec<u8>], records: &[(ItemKey, Vec<u8>)]) -> (items: Vec<Vec<u8>>)
    ensures
        latest_items(
            win_rate_entries(items_view(existing_items@)) + entries_view(records@),
            items_view(items@),
        ),
{
    let ghost existing = items_view(existing_items@);
    let mut entries: Vec<(ItemKey, Vec<u8>)> = Vec::new();
    let mut i: usize = 0;
    while i < existing_items.len()
        invariant
            i <= existing_items.len(),
            existing == items_view(existing_items@),
            entries_view(entries@) == win_rate_entries(existing.take(i as int)),
        decreases existing_items.len() - i,
    {
        let item = &existing_items[i];
        proof {
            assert(existing.take(i + 1).drop_last() =~= existing.take(i as int));
            assert(existing[i as int] == item@);
        }
        match json_generation_win_rate_key(item.as_slice()) {
            Some(key) => {
                let copy = copy_range(item.as_slice(), 0, item.len());
                proof {
                    assert(item@.subrange(0, item@.len() as int) =~= item@);
                }
                let ghost before = entries_view(entries@);
                entries.push((key, copy));
                proof {
                    assert(entries_view(entries@) =~= before.push((key, item@)));
                }
            },
            None => {},
        }
        i += 1;
    }
    proof {
        assert(existing.take(existing.len() as int) =~= existing);
    }
    let ghost first = entries_view(entries@);
    let mut r: usize = 0;
    while r < records.len()
        invariant
            r <= records.len(),
            entries_view(entries@) == first + entries_view(records@.take(r as int)),
        decreases records.len() - r,
    {
        let item = copy_range(records[r].1.as_slice(), 0, records[r].1.len());
        proof {
            assert(records[r as int].1@.subrange(0, records[r as int].1@.len() as int)
                =~= records[r as int].1@);
        }
        let ghost before = entries_view(entries@);
        entries.push((records[r].0, item));
        proof {
            assert(entries_view(entries@) =~= before.push((records@[r as int].0, records@[r as int].1@)));
            assert(records@.take(r + 1) =~= records@.take(r as int).push(records@[r as int]));
            assert(entries_view(records@.take(r + 1)) =~= entries_view(records@.take(r as int)).push(
                (records@[r as int].0, records@[r as int].1@),
            ));
            assert(entries_view(entries@) =~= first + entries_view(records@.take(r + 1)));
        }
        r += 1;
    }
    proof {
        assert(records@.take(records@.len() as int) =~= records@);
    }
    latest_by_key(entries.as_slice())
}

} // verus!
