//! The `replayChunks` list of the telemetry: the replay files found on disk, the entries
//! of an earlier telemetry file, and the generations of this run, each generation once.
use vstd::prelude::*;

use crate::json::{
    item_generation, items_view, json_generation_value, latest_per_generation, plain_items,
    telemetry_array_items_excluding_generations,
};
use crate::schedule::PLAYER_COUNT_FOUR;
use crate::stats::ReplayChunkRecord;
use crate::text::copy_range;
use crate::telemetry::{joined, replay_chunk_item, replay_chunks_json};

verus! {

/// Games of a full replay file.
pub const DEFAULT_FULL_REPLAY_ACTUAL_GAMES: usize = 10;

/// Player views of a full replay file: each game seen from four seats.
pub const DEFAULT_FULL_REPLAY_PARTICIPANT_VIEWS: usize = DEFAULT_FULL_REPLAY_ACTUAL_GAMES * PLAYER_COUNT_FOUR;

/// The record that a replay file found on disk stands for.
pub open spec fn artifact_record(generation: usize) -> ReplayChunkRecord {
    ReplayChunkRecord {
        generation,
        game_count: DEFAULT_FULL_REPLAY_PARTICIPANT_VIEWS,
        actual_game_count: DEFAULT_FULL_REPLAY_ACTUAL_GAMES,
    }
}

/// Entries for the replay files of `generations`, skipping the excluded ones.
pub open spec fn artifact_items(run_id: Seq<u8>, generations: Seq<usize>, excluded: Seq<usize>) -> Seq<
    Seq<u8>,
>
    decreases generations.len(),
{
    if generations.len() == 0 {
        Seq::empty()
    } else {
        let rest = artifact_items(run_id, generations.drop_last(), excluded);
        if excluded.contains(generations.last()) {
            rest
        } else {
            rest.push(replay_chunk_item(run_id, artifact_record(generations.last())))
        }
    }
}

fn contains_value(values: &[usize], value: usize) -> (found: bool)
    ensures
        found == values@.contains(value),
{
    let mut i: usize = 0;
    while i < values.len()
        invariant
            i <= values.len(),
            forall|j: int| 0 <= j < i ==> values@[j] != value,
        decreases values.len() - i,
    {
        if values[i] == value {
            proof {
                assert(values@[i as int] == value);
            }
            return true;
        }
        i += 1;
    }
    false
}

/// Entries for the replay files found on disk, one per generation of `generations` that
/// is not excluded.
pub fn replay_chunk_artifact_items(run_id: &[u8], generations: &[usize], excluded: &[usize]) -> (items: Vec<Vec<u8>>)
    ensures
        items_view(items@) == artifact_items(run_id@, generations@, excluded@),
{
    let mut items: Vec<Vec<u8>> = Vec::new();
    let mut i: usize = 0;
    while i < generations.len()
        invariant
            i <= generations.len(),
            items_view(items@) == artifact_items(run_id@, generations@.take(i as int), excluded@),
        decreases generations.len() - i,
    {
        let generation = generations[i];
        proof {
            assert(generations@.take(i + 1).drop_last() =~= generations@.take(i as int));
        }
        if !contains_value(excluded, generation) {
            let record = ReplayChunkRecord {
                generation,
                game_count: DEFAULT_FULL_REPLAY_PARTICIPANT_VIEWS,
                actual_game_count: DEFAULT_FULL_REPLAY_ACTUAL_GAMES,
            };
            let records = vec![record];
            let item = replay_chunks_json(run_id, records.as_slice());
            proof {
                assert(records@.map_values(|r: ReplayChunkRecord| replay_chunk_item(run_id@, r))
                    =~= seq![replay_chunk_item(run_id@, artifact_record(generation))]);
            }
            let ghost before = items_view(items@);
            items.push(item);
            proof {
                assert(items_view(items@) =~= before.push(item@));
            }
        }
        i += 1;
    }
    proof {
        assert(generations@.take(generations@.len() as int) =~= generations@);
    }
    items
}

/// Some item of `items` belongs to `generation`.
pub open spec fn generation_taken(items: Seq<Seq<u8>>, generation: usize) -> bool {
    exists|k: int| 0 <= k < items.len() && item_generation(#[trigger] items[k]) == Some(generation)
}

/// `items` followed by each of `existing` whose generation no earlier item has.
pub open spec fn merged_chunk_items(items: Seq<Seq<u8>>, existing: Seq<Seq<u8>>) -> Seq<Seq<u8>>
    decreases existing.len(),
{
    if existing.len() == 0 {
        items
    } else {
        let before = merged_chunk_items(items, existing.drop_last());
        match item_generation(existing.last()) {
            Some(generation) => if generation_taken(before, generation) {
                before
            } else {
                before.push(existing.last())
            },
            None => before.push(existing.last()),
        }
    }
}

/// The joined list: the merged items, then this run's entries when there are any.
pub open spec fn chunk_list(items: Seq<Seq<u8>>, existing: Seq<Seq<u8>>, current: Seq<u8>) -> Seq<u8> {
    let merged = merged_chunk_items(items, existing);
    joined(
        if current.len() == 0 {
            merged
        } else {
            merged.push(current)
        },
    )
}

fn any_item_with_generation(items: &Vec<Vec<u8>>, generation: usize) -> (found: bool)
    ensures
        found == generation_taken(items_view(items@), generation),
{
    let ghost view = items_view(items@);
    let mut k: usize = 0;
    while k < items.len()
        invariant
            k <= items.len(),
            view == items_view(items@),
            forall|j: int| 0 <= j < k ==> item_generation(#[trigger] view[j]) != Some(generation),
        decreases items.len() - k,
    {
        let found = json_generation_value(items[k].as_slice());
        proof {
            assert(view[k as int] == items@[k as int]@);
        }
        if found == Some(generation) {
            return true;
        }
        k += 1;
    }
    false
}

fn join_items(items: &Vec<Vec<u8>>) -> (json: Vec<u8>)
    ensures
        json@ == joined(items_view(items@)),
{
    let ghost view = items_view(items@);
    let mut json: Vec<u8> = Vec::new();
    let mut i: usize = 0;
    while i < items.len()
        invariant
            i <= items.len(),
            view == items_view(items@),
            json@ == joined(view.take(i as int)),
        decreases items.len() - i,
    {
        proof {
            assert(view.take(i + 1).drop_last() =~= view.take(i as int));
            assert(view[i as int] == items@[i as int]@);
        }
        if i > 0 {
            json.push(44u8);
        }
        let item = &items[i];
        let mut j: usize = 0;
        let ghost start = json@;
        while j < item.len()
            invariant
                j <= item.len(),
                json@ == start + item@.take(j as int),
            decreases item.len() - j,
        {
            json.push(item[j]);
            proof {
                assert(item@.take(j + 1) =~= item@.take(j as int).push(item@[j as int]));
            }
            j += 1;
        }
        proof {
            assert(item@.take(item.len() as int) =~= item@);
            if i == 0 {
                assert(json@ =~= view[0]);
            }
        }
        i += 1;
    }
    proof {
        assert(view.take(view.len() as int) =~= view);
    }
    json
}

/// Joins the entries found on disk, the earlier entries whose generation none of the
/// preceding ones has, and this run's entries (`current`, left out when empty).
pub fn merge_replay_chunk_items(items: Vec<Vec<u8>>, existing: &[Vec<u8>], current: Vec<u8>) -> (json: Vec<u8>)
    ensures
        json@ == chunk_list(items_view(items@), items_view(existing@), current@),
{
    let ghost start = items_view(items@);
    let ghost earlier = items_view(existing@);
    let mut items = items;
    let mut i: usize = 0;
    while i < existing.len()
        invariant
            i <= existing.len(),
            earlier == items_view(existing@),
            items_view(items@) == merged_chunk_items(start, earlier.take(i as int)),
        decreases existing.len() - i,
    {
        let item = &existing[i];
        proof {
            assert(earlier.take(i + 1).drop_last() =~= earlier.take(i as int));
            assert(earlier[i as int] == item@);
        }
        let generation = json_generation_value(item.as_slice());
        let skip = match generation {
            Some(g) => any_item_with_generation(&items, g),
            None => false,
        };
        if !skip {
            let copy = copy_range(item.as_slice(), 0, item.len());
            proof {
                assert(item@.subrange(0, item@.len() as int) =~= item@);
            }
            let ghost before = items_view(items@);
            items.push(copy);
            proof {
                assert(items_view(items@) =~= before.push(item@));
            }
        }
        i += 1;
    }
    proof {
        assert(earlier.take(earlier.len() as int) =~= earlier);
    }
    if current.len() > 0 {
        let ghost before = items_view(items@);
        items.push(current);
        proof {
            assert(items_view(items@) =~= before.push(current@));
        }
    }
    join_items(&items)
}

/// The generations of the replay history.
pub open spec fn history_generations(history: Seq<ReplayChunkRecord>) -> Seq<usize> {
    history.map_values(|r: ReplayChunkRecord| r.generation)
}

/// The `replayChunks` list: entries for the replay files on disk (`artifact_generations`,
/// from the file names) and the entries of the earlier telemetry (`telemetry_items`),
/// both without this run's generations, then this run's entries.
pub fn replay_chunks_json_preserving_existing(
    run_id: &[u8],
    artifact_generations: &[usize],
    telemetry_items: &[Vec<u8>],
    replay_history: &[ReplayChunkRecord],
) -> (json: Vec<u8>)
    ensures
        exists|latest: Seq<(usize, Seq<u8>)>|
            #[trigger] latest_per_generation(
                latest,
                items_view(telemetry_items@),
                history_generations(replay_history@),
            ) && json@ == chunk_list(
                artifact_items(run_id@, artifact_generations@, history_generations(replay_history@)),
                plain_items(items_view(telemetry_items@)) + latest.map_values(
                    |e: (usize, Seq<u8>)| e.1,
                ),
                joined(
                    replay_history@.map_values(
                        |r: ReplayChunkRecord| replay_chunk_item(run_id@, r),
                    ),
                ),
            ),
{
    let mut excluded: Vec<usize> = Vec::new();
    let mut i: usize = 0;
    while i < replay_history.len()
        invariant
            i <= replay_history.len(),
            excluded@ == history_generations(replay_history@).take(i as int),
        decreases replay_history.len() - i,
    {
        excluded.push(replay_history[i].generation);
        proof {
            assert(excluded@ =~= history_generations(replay_history@).take(i + 1));
        }
        i += 1;
    }
    proof {
        assert(excluded@ =~= history_generations(replay_history@));
    }
    let artifacts = replay_chunk_artifact_items(run_id, artifact_generations, excluded.as_slice());
    let existing = telemetry_array_items_excluding_generations(telemetry_items, excluded.as_slice());
    let current = replay_chunks_json(run_id, replay_history);
    merge_replay_chunk_items(artifacts, existing.as_slice(), current)
}

} // verus!
