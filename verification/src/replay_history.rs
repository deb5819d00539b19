//! Pruning the replay history to the generations whose replays are kept.
use vstd::prelude::*;

use crate::stats::ReplayChunkRecord;

verus! {

/// The records of `history` whose generation is in `retained`, in order.
pub open spec fn retained_records(history: Seq<ReplayChunkRecord>, retained: Seq<usize>) -> Seq<
    ReplayChunkRecord,
>
    decreases history.len(),
{
    if history.len() == 0 {
        Seq::empty()
    } else {
        let rest = retained_records(history.drop_last(), retained);
        if retained.contains(history.last().generation) {
            rest.push(history.last())
        } else {
            rest
        }
    }
}

/// `history` holds a record of `generation`.
pub open spec fn has_generation(history: Seq<ReplayChunkRecord>, generation: usize) -> bool {
    exists|k: int| 0 <= k < history.len() && #[trigger] history[k].generation == generation
}

/// `removed` lists, in increasing order and once each, the generations of `history` that
/// are not retained.
pub open spec fn is_removed_generations(
    removed: Seq<usize>,
    history: Seq<ReplayChunkRecord>,
    retained: Seq<usize>,
) -> bool {
    &&& forall|a: int, b: int| 0 <= a < b < removed.len() ==> #[trigger] removed[a] < #[trigger] removed[b]
    &&& forall|g: usize|
        #![trigger has_generation(history, g)]
        #![trigger removed.contains(g)]
        removed.contains(g) <==> (has_generation(history, g) && !retained.contains(g))
}

fn contains_usize(values: &[usize], value: usize) -> (found: bool)
    ensures
        found == values@.contains(value),
{
    let mut i: usize = 0;
    while i < values.len()
        invariant
            i <= values.len(),
            forall|j: int| 0 <= j < i ==> values@[j] != value,
        decreases values.len() - i,
    {
        if values[i] == value {
            proof {
                assert(values@[i as int] == value);
            }
            return true;
        }
        i += 1;
    }
    false
}

/// Inserts `value` into the increasing sequence `sorted` unless it is there already.
pub(crate) fn insert_sorted(sorted: &mut Vec<usize>, value: usize)
    requires
        forall|a: int, b: int|
            0 <= a < b < old(sorted)@.len() ==> #[trigger] old(sorted)@[a]
                < #[trigger] old(sorted)@[b],
    ensures
        forall|a: int, b: int|
            0 <= a < b < final(sorted)@.len() ==> #[trigger] final(sorted)@[a]
                < #[trigger] final(sorted)@[b],
        forall|g: usize| #[trigger]
            final(sorted)@.contains(g) <==> (old(sorted)@.contains(g) || g == value),
{
    let ghost before = sorted@;
    let mut i: usize = 0;
    while i < sorted.len() && sorted[i] < value
        invariant
            i <= sorted.len(),
            sorted@ == before,
            forall|j: int| 0 <= j < i ==> sorted@[j] < value,
        decreases sorted.len() - i,
    {
        i += 1;
    }
    if i < sorted.len() && sorted[i] == value {
        return;
    }
    sorted.insert(i, value);
    proof {
        assert forall|g: usize| #[trigger] sorted@.contains(g) <==> (before.contains(g) || g
            == value) by {
            if sorted@.contains(g) {
                let k = choose|k: int| 0 <= k < sorted@.len() && sorted@[k] == g;
                if k < i {
                    assert(before[k] == g);
                } else if k > i {
                    assert(before[k - 1] == g);
                }
            }
            if before.contains(g) {
                let k = choose|k: int| 0 <= k < before.len() && before[k] == g;
                if k < i {
                    assert(sorted@[k] == g);
                } else {
                    assert(sorted@[k + 1] == g);
                }
            }
            if g == value {
                assert(sorted@[i as int] == g);
            }
        }
    }
}

/// Keeps the records of the retained generations, in order, and returns the other
/// generations of the history, in increasing order and once each: those whose replay
/// files go.
pub fn prune_replay_history(history: &mut Vec<ReplayChunkRecord>, retained: &[usize]) -> (removed: Vec<usize>)
    ensures
        final(history)@ == retained_records(old(history)@, retained@),
        is_removed_generations(removed@, old(history)@, retained@),
{
    let ghost all = history@;
    let mut kept: Vec<ReplayChunkRecord> = Vec::new();
    let mut removed: Vec<usize> = Vec::new();
    let mut i: usize = 0;
    while i < history.len()
        invariant
            history@ == all,
            i <= all.len(),
            kept@ == retained_records(all.take(i as int), retained@),
            is_removed_generations(removed@, all.take(i as int), retained@),
        decreases all.len() - i,
    {
        let record = history[i];
        let ghost before = all.take(i as int);
        let ghost after = all.take(i + 1);
        proof {
            assert(after.drop_last() =~= before);
            assert(after.last() == record);
        }
        let keep = contains_usize(retained, record.generation);
        if keep {
            kept.push(record);
        } else {
            insert_sorted(&mut removed, record.generation);
        }
        proof {
            assert forall|g: usize|
                #![trigger has_generation(after, g)]
                has_generation(after, g) <==> (has_generation(before, g) || g == record.generation) by {
                if has_generation(after, g) {
                    let k = choose|k: int| 0 <= k < after.len() && #[trigger] after[k].generation == g;
                    if k < i {
                        assert(before[k] == after[k]);
                    }
                }
                if has_generation(before, g) {
                    let k = choose|k: int| 0 <= k < before.len() && #[trigger] before[k].generation == g;
                    assert(after[k] == before[k]);
                }
                if g == record.generation {
                    assert(after[i as int].generation == g);
                }
            }
        }
        i += 1;
    }
    proof {
        assert(all.take(all.len() as int) =~= all);
    }
    *history = kept;
    removed
}

/// Replayed participant views of `generation` among `games`, each a
/// `(generation, game index)` pair.
pub open spec fn views_of(games: Seq<(usize, usize)>, generation: usize) -> int
    decreases games.len(),
{
    if games.len() == 0 {
        0
    } else {
        views_of(games.drop_last(), generation) + if games.last().0 == generation {
            1int
        } else {
            0int
        }
    }
}

/// Distinct games of `generation` among `games`: the entries that no earlier entry repeats.
pub open spec fn games_of(games: Seq<(usize, usize)>, generation: usize) -> int
    decreases games.len(),
{
    if games.len() == 0 {
        0
    } else {
        games_of(games.drop_last(), generation) + if games.last().0 == generation
            && !games.drop_last().contains(games.last()) {
            1int
        } else {
            0int
        }
    }
}

/// `generation` occurs among `games`.
pub open spec fn has_views(games: Seq<(usize, usize)>, generation: usize) -> bool {
    exists|k: int| 0 <= k < games.len() && #[trigger] games[k].0 == generation
}

/// `records` has one record per generation of `games`, in increasing order of generation,
/// counting its participant views and its distinct games.
pub open spec fn records_of(records: Seq<ReplayChunkRecord>, games: Seq<(usize, usize)>) -> bool {
    &&& forall|a: int, b: int|
        0 <= a < b < records.len() ==> #[trigger] records[a].generation
            < #[trigger] records[b].generation
    &&& forall|k: int|
        0 <= k < records.len() ==> {
            let g = (#[trigger] records[k]).generation;
            &&& has_views(games, g)
            &&& records[k].game_count == views_of(games, g)
            &&& records[k].actual_game_count == games_of(games, g)
        }
    &&& forall|g: usize|
        #![trigger has_views(games, g)]
        has_views(games, g) ==> exists|k: int| 0 <= k < records.len() && #[trigger] records[k].generation == g
}

proof fn lemma_counts_step(games: Seq<(usize, usize)>, i: int, g: usize)
    requires
        0 <= i < games.len(),
    ensures
        views_of(games.take(i + 1), g) == views_of(games.take(i), g) + if games[i].0 == g {
            1int
        } else {
            0int
        },
        games_of(games.take(i + 1), g) == games_of(games.take(i), g) + if games[i].0 == g
            && !games.take(i).contains(games[i]) {
            1int
        } else {
            0int
        },
        has_views(games.take(i + 1), g) == (has_views(games.take(i), g) || games[i].0 == g),
{
    let before = games.take(i);
    let after = games.take(i + 1);
    assert(after.drop_last() =~= before);
    assert(after.last() == games[i]);
    if has_views(after, g) && games[i].0 != g {
        let k = choose|k: int| 0 <= k < after.len() && #[trigger] after[k].0 == g;
        assert(before[k] == after[k]);
    }
    if has_views(before, g) {
        let k = choose|k: int| 0 <= k < before.len() && #[trigger] before[k].0 == g;
        assert(after[k] == before[k]);
    }
    if games[i].0 == g {
        assert(after[i].0 == g);
    }
}

proof fn lemma_counts_absent(games: Seq<(usize, usize)>, g: usize)
    requires
        !has_views(games, g),
    ensures
        views_of(games, g) == 0,
        games_of(games, g) == 0,
    decreases games.len(),
{
    if games.len() > 0 {
        let prefix = games.drop_last();
        assert(!has_views(prefix, g)) by {
            if has_views(prefix, g) {
                let k = choose|k: int| 0 <= k < prefix.len() && #[trigger] prefix[k].0 == g;
                assert(games[k].0 == g);
            }
        }
        assert(games[games.len() - 1].0 != g);
        lemma_counts_absent(prefix, g);
    }
}

fn seen_before(games: &[(usize, usize)], i: usize) -> (seen: bool)
    requires
        i < games.len(),
    ensures
        seen == games@.take(i as int).contains(games@[i as int]),
{
    let ghost prefix = games@.take(i as int);
    let mut j: usize = 0;
    while j < i
        invariant
            i < games.len(),
            j <= i,
            prefix == games@.take(i as int),
            forall|k: int| 0 <= k < j ==> #[trigger] prefix[k] != games@[i as int],
        decreases i - j,
    {
        if games[j].0 == games[i].0 && games[j].1 == games[i].1 {
            proof {
                assert(prefix[j as int] == games@[i as int]);
            }
            return true;
        }
        j += 1;
    }
    false
}

/// The replay chunk records of a generation's replayed games, given as
/// `(generation, game index)` pairs: one record per generation, in increasing order,
/// with its participant views and its distinct games.
pub fn replay_chunk_records_from_replay_games(games: &[(usize, usize)]) -> (records: Vec<ReplayChunkRecord>)
    ensures
        records_of(records@, games@),
{
    let mut records: Vec<ReplayChunkRecord> = Vec::new();
    let mut i: usize = 0;
    while i < games.len()
        invariant
            i <= games.len(),
            records_of(records@, games@.take(i as int)),
            forall|k: int| 0 <= k < records@.len() ==> #[trigger] records@[k].game_count <= i,
        decreases games.len() - i,
    {
        let (generation, _) = games[i];
        let repeated = seen_before(games, i);
        let ghost before = records@;
        let ghost all = games@;
        let ghost earlier = all.take(i as int);
        let ghost later = all.take(i + 1);
        let mut pos: usize = 0;
        while pos < records.len() && records[pos].generation < generation
            invariant
                pos <= records.len(),
                records@ == before,
                forall|j: int| 0 <= j < pos ==> #[trigger] before[j].generation < generation,
            decreases records.len() - pos,
        {
            pos += 1;
        }
        if pos < records.len() && records[pos].generation == generation {
            let old_record = records[pos];
            proof {
                assert(old_record.actual_game_count == games_of(earlier, generation));
                lemma_games_at_most_views(earlier, generation);
                lemma_counts_step(all, i as int, generation);
            }
            let updated = ReplayChunkRecord {
                generation,
                game_count: old_record.game_count + 1,
                actual_game_count: if repeated {
                    old_record.actual_game_count
                } else {
                    old_record.actual_game_count + 1
                },
            };
            records.set(pos, updated);
            proof {
                assert forall|k: int| 0 <= k < records@.len() && k != pos implies #[trigger] records@[k].generation
                    != generation by {
                    if k < pos {
                        assert(before[k].generation < before[pos as int].generation);
                    } else {
                        assert(before[pos as int].generation < before[k].generation);
                    }
                }
                assert forall|k: int| 0 <= k < records@.len() implies {
                    let g = (#[trigger] records@[k]).generation;
                    &&& has_views(later, g)
                    &&& records@[k].game_count == views_of(later, g)
                    &&& records@[k].actual_game_count == games_of(later, g)
                } by {
                    lemma_counts_step(all, i as int, records@[k].generation);
                }
                assert forall|g: usize|
                    #![trigger has_views(later, g)]
                    has_views(later, g) implies exists|k: int|
                        0 <= k < records@.len() && #[trigger] records@[k].generation == g by {
                    lemma_counts_step(all, i as int, g);
                    if g != generation {
                        assert(has_views(earlier, g));
                        let k = choose|k: int| 0 <= k < before.len() && #[trigger] before[k].generation
                            == g;
                        assert(records@[k].generation == g);
                    } else {
                        assert(records@[pos as int].generation == g);
                    }
                }
            }
        } else {
            proof {
                if pos < records.len() {
                    assert(before[pos as int].generation > generation);
                }
                assert(!has_views(earlier, generation)) by {
                    if has_views(earlier, generation) {
                        let k = choose|k: int| 0 <= k < before.len() && #[trigger] before[k].generation
                            == generation;
                        if k < pos {
                            assert(before[k].generation < generation);
                        } else if k > pos {
                            assert(before[pos as int].generation < before[k].generation);
                        }
                    }
                }
                lemma_counts_absent(earlier, generation);
                assert(!earlier.contains(all[i as int])) by {
                    if earlier.contains(all[i as int]) {
                        let k = choose|k: int| 0 <= k < i && earlier[k] == all[i as int];
                        assert(has_views(earlier, generation)) by {
                            assert(earlier[k].0 == generation);
                        }
                    }
                }
                lemma_counts_step(all, i as int, generation);
            }
            records.insert(pos, ReplayChunkRecord { generation, game_count: 1, actual_game_count: 1 });
            proof {
                assert forall|a: int, b: int| 0 <= a < b < records@.len() implies #[trigger] records@[a].generation
                    < #[trigger] records@[b].generation by {
                    if a < pos && b > pos {
                        assert(before[a].generation < before[b - 1].generation);
                    } else if a > pos {
                        assert(before[a - 1].generation < before[b - 1].generation);
                    } else if a == pos && b > pos + 1 {
                        assert(before[pos as int].generation < before[b - 1].generation);
                    } else if a < pos && b < pos {
                        assert(before[a].generation < before[b].generation);
                    }
                }
                assert forall|k: int| 0 <= k < records@.len() implies {
                    let g = (#[trigger] records@[k]).generation;
                    &&& has_views(later, g)
                    &&& records@[k].game_count == views_of(later, g)
                    &&& records@[k].actual_game_count == games_of(later, g)
                } by {
                    lemma_counts_step(all, i as int, records@[k].generation);
                    if k < pos {
                        assert(records@[k] == before[k]);
                    } else if k > pos {
                        assert(records@[k] == before[k - 1]);
                    }
                }
                assert forall|g: usize|
                    #![trigger has_views(later, g)]
                    has_views(later, g) implies exists|k: int|
                        0 <= k < records@.len() && #[trigger] records@[k].generation == g by {
                    lemma_counts_step(all, i as int, g);
                    if g == generation {
                        assert(records@[pos as int].generation == g);
                    } else {
                        assert(has_views(earlier, g));
                        let k = choose|k: int| 0 <= k < before.len() && #[trigger] before[k].generation == g;
                        if k < pos {
                            assert(records@[k].generation == g);
                        } else {
                            assert(records@[k + 1].generation == g);
                        }
                    }
                }
            }
        }
        i += 1;
    }
    proof {
        assert(games@.take(games@.len() as int) =~= games@);
    }
    records
}

proof fn lemma_games_at_most_views(games: Seq<(usize, usize)>, g: usize)
    ensures
        0 <= games_of(games, g) <= views_of(games, g),
    decreases games.len(),
{
    if games.len() > 0 {
        lemma_games_at_most_views(games.drop_last(), g);
    }
}

} // verus!
