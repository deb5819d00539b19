//! JSON fragments of the dashboard telemetry built from integer counters.
use vstd::prelude::*;
use vstd::string::StringSliceAdditionalSpecFns;

use crate::decimal::{
    decimal_digits, padded_decimal, push_decimal, push_padded_decimal, push_signed_decimal,
    signed_decimal,
};
use crate::paths::{push_bytes, push_literal};
use crate::stats::{PlayerStats, ReplayChunkRecord};

verus! {

/// JSON items joined with commas.
pub open spec fn joined(items: Seq<Seq<u8>>) -> Seq<u8>
    decreases items.len(),
{
    if items.len() == 0 {
        Seq::empty()
    } else if items.len() == 1 {
        items[0]
    } else {
        joined(items.drop_last()) + seq![44u8] + items.last()
    }
}

/// The replay chunk entry of one generation.
pub open spec fn replay_chunk_item(run_id: Seq<u8>, record: ReplayChunkRecord) -> Seq<u8> {
    "{\"generation\":".spec_bytes() + decimal_digits(record.generation as nat)
        + ",\"path\":\"/telemetry/replays_".spec_bytes() + run_id + "_generation_".spec_bytes()
        + decimal_digits(record.generation as nat) + ".json\",\"gameCount\":".spec_bytes()
        + decimal_digits(record.game_count as nat) + ",\"actualGameCount\":".spec_bytes()
        + decimal_digits(record.actual_game_count as nat) + "}".spec_bytes()
}

fn push_replay_chunk_item(buffer: &mut Vec<u8>, run_id: &[u8], record: &ReplayChunkRecord)
    ensures
        final(buffer)@ == old(buffer)@ + replay_chunk_item(run_id@, *record),
{
    proof {
        reveal_strlit("{\"generation\":");
        reveal_strlit(",\"path\":\"/telemetry/replays_");
        reveal_strlit("_generation_");
        reveal_strlit(".json\",\"gameCount\":");
        reveal_strlit(",\"actualGameCount\":");
        reveal_strlit("}");
    }
    push_literal(buffer, "{\"generation\":");
    push_decimal(buffer, record.generation);
    push_literal(buffer, ",\"path\":\"/telemetry/replays_");
    push_bytes(buffer, run_id);
    push_literal(buffer, "_generation_");
    push_decimal(buffer, record.generation);
    push_literal(buffer, ".json\",\"gameCount\":");
    push_decimal(buffer, record.game_count);
    push_literal(buffer, ",\"actualGameCount\":");
    push_decimal(buffer, record.actual_game_count);
    push_literal(buffer, "}");
    assert(final(buffer)@ =~= old(buffer)@ + replay_chunk_item(run_id@, *record));
}

proof fn lemma_joined_push(items: Seq<Seq<u8>>, item: Seq<u8>)
    ensures
        joined(items.push(item)) == if items.len() == 0 {
            item
        } else {
            joined(items) + seq![44u8] + item
        },
{
    assert(items.push(item).drop_last() =~= items);
}

/// The replay chunks of the run, as the telemetry lists them.
pub fn replay_chunks_json(run_id: &[u8], replay_history: &[ReplayChunkRecord]) -> (json: Vec<u8>)
    ensures
        json@ == joined(replay_history@.map_values(|r: ReplayChunkRecord| replay_chunk_item(run_id@, r))),
{
    let ghost items = replay_history@.map_values(|r: ReplayChunkRecord| replay_chunk_item(run_id@, r));
    let mut json: Vec<u8> = Vec::new();
    let mut i: usize = 0;
    while i < replay_history.len()
        invariant
            i <= replay_history.len(),
            items == replay_history@.map_values(|r: ReplayChunkRecord| replay_chunk_item(run_id@, r)),
            json@ == joined(items.take(i as int)),
        decreases replay_history.len() - i,
    {
        proof {
            lemma_joined_push(items.take(i as int), items[i as int]);
            assert(items.take(i + 1) =~= items.take(i as int).push(items[i as int]));
        }
        if i > 0 {
            json.push(44u8);
        }
        push_replay_chunk_item(&mut json, run_id, &replay_history[i]);
        proof {
            if i == 0 {
                assert(json@ =~= items[0]);
            } else {
                assert(json@ =~= joined(items.take(i as int)) + seq![44u8] + items[i as int]);
            }
        }
        i += 1;
    }
    proof {
        assert(items.take(items.len() as int) =~= items);
    }
    json
}

/// The placeholder entry of model `index` while a generation is evaluated.
pub open spec fn progress_model_item(index: usize) -> Seq<u8> {
    "{\"id\":\"M-".spec_bytes() + padded_decimal(index as nat, 3)
        + "\",\"parent\":\"pending\",\"rating\":600,\"wins\":0,\"draws\":0,\"losses\":0,\"games\":0,\"captures\":0,\"fleetHits\":0,\"hitShips\":0,\"sunDestroyedFleets\":0,\"sunDestroyedShips\":0,\"outOfBoundsFleets\":0,\"outOfBoundsShips\":0,\"launchActions\":0,\"launchedShips\":0,\"avgFleetSize\":0.0,\"mutation\":\"pending\",\"selected\":".spec_bytes()
        + if index == 0 {
        "true".spec_bytes()
    } else {
        "false".spec_bytes()
    } + "}".spec_bytes()
}

/// Placeholder entries for the whole population.
pub fn progress_models_json(population_size: usize) -> (json: Vec<u8>)
    ensures
        json@ == joined(Seq::new(population_size as nat, |i: int| progress_model_item(i as usize))),
{
    proof {
        reveal_strlit("{\"id\":\"M-");
        reveal_strlit(
            "\",\"parent\":\"pending\",\"rating\":600,\"wins\":0,\"draws\":0,\"losses\":0,\"games\":0,\"captures\":0,\"fleetHits\":0,\"hitShips\":0,\"sunDestroyedFleets\":0,\"sunDestroyedShips\":0,\"outOfBoundsFleets\":0,\"outOfBoundsShips\":0,\"launchActions\":0,\"launchedShips\":0,\"avgFleetSize\":0.0,\"mutation\":\"pending\",\"selected\":",
        );
        reveal_strlit("true");
        reveal_strlit("false");
        reveal_strlit("}");
    }
    let ghost items = Seq::new(population_size as nat, |i: int| progress_model_item(i as usize));
    let mut json: Vec<u8> = Vec::new();
    let mut index: usize = 0;
    while index < population_size
        invariant
            index <= population_size,
            items == Seq::new(population_size as nat, |i: int| progress_model_item(i as usize)),
            json@ == joined(items.take(index as int)),
        decreases population_size - index,
    {
        proof {
            lemma_joined_push(items.take(index as int), items[index as int]);
            assert(items.take(index + 1) =~= items.take(index as int).push(items[index as int]));
        }
        proof {
            reveal_strlit("{\"id\":\"M-");
            reveal_strlit(
                "\",\"parent\":\"pending\",\"rating\":600,\"wins\":0,\"draws\":0,\"losses\":0,\"games\":0,\"captures\":0,\"fleetHits\":0,\"hitShips\":0,\"sunDestroyedFleets\":0,\"sunDestroyedShips\":0,\"outOfBoundsFleets\":0,\"outOfBoundsShips\":0,\"launchActions\":0,\"launchedShips\":0,\"avgFleetSize\":0.0,\"mutation\":\"pending\",\"selected\":",
            );
            reveal_strlit("true");
            reveal_strlit("false");
            reveal_strlit("}");
        }
        if index > 0 {
            json.push(44u8);
        }
        let ghost separated = json@;
        push_literal(&mut json, "{\"id\":\"M-");
        push_padded_decimal(&mut json, index, 3);
        push_literal(
            &mut json,
            "\",\"parent\":\"pending\",\"rating\":600,\"wins\":0,\"draws\":0,\"losses\":0,\"games\":0,\"captures\":0,\"fleetHits\":0,\"hitShips\":0,\"sunDestroyedFleets\":0,\"sunDestroyedShips\":0,\"outOfBoundsFleets\":0,\"outOfBoundsShips\":0,\"launchActions\":0,\"launchedShips\":0,\"avgFleetSize\":0.0,\"mutation\":\"pending\",\"selected\":",
        );
        if index == 0 {
            push_literal(&mut json, "true");
        } else {
            push_literal(&mut json, "false");
        }
        push_literal(&mut json, "}");
        proof {
            assert(json@ =~= separated + progress_model_item(index));
            if index == 0 {
                assert(json@ =~= items[0]);
            } else {
                assert(json@ =~= joined(items.take(index as int)) + seq![44u8] + items[index as int]);
            }
        }
        index += 1;
    }
    proof {
        assert(items.take(items.len() as int) =~= items);
    }
    json
}

/// The arena's rating of a model: 600, plus ten per win, minus ten per loss.
pub open spec fn arena_rating(stats: PlayerStats) -> int {
    600 + (stats.wins as i32) * 10 - (stats.losses as i32) * 10
}

/// The start of the arena's entry for model `index`: id, parent and rating.
pub open spec fn arena_item_head(index: usize, parent: Seq<u8>, stats: PlayerStats) -> Seq<u8> {
    "{\"id\":\"P-".spec_bytes() + decimal_digits(index as nat) + "\",\"parent\":\"".spec_bytes()
        + parent + "\",\"rating\":".spec_bytes() + signed_decimal(arena_rating(stats))
}

/// Wins, draws, losses and games of the entry.
pub open spec fn arena_item_results(stats: PlayerStats) -> Seq<u8> {
    ",\"wins\":".spec_bytes() + decimal_digits(stats.wins as nat) + ",\"draws\":".spec_bytes()
        + decimal_digits(stats.draws as nat) + ",\"losses\":".spec_bytes() + decimal_digits(
        stats.losses as nat,
    ) + ",\"games\":".spec_bytes() + decimal_digits((stats.wins + stats.draws + stats.losses) as nat)
}

/// Captures, hits and sun losses of the entry.
pub open spec fn arena_item_combat(stats: PlayerStats) -> Seq<u8> {
    ",\"captures\":".spec_bytes() + decimal_digits(stats.captures as nat)
        + ",\"fleetHits\":".spec_bytes() + decimal_digits(stats.fleet_hits as nat)
        + ",\"hitShips\":".spec_bytes() + signed_decimal(stats.hit_ships as int)
        + ",\"sunDestroyedFleets\":".spec_bytes() + decimal_digits(stats.sun_destroyed_fleets as nat)
        + ",\"sunDestroyedShips\":".spec_bytes() + signed_decimal(stats.sun_destroyed_ships as int)
}

/// Launches and the closing fields of the entry.
pub open spec fn arena_item_tail(index: usize, stats: PlayerStats) -> Seq<u8> {
    ",\"outOfBoundsFleets\":0,\"outOfBoundsShips\":0,\"launchActions\":".spec_bytes()
        + decimal_digits(stats.launch_actions as nat) + ",\"launchedShips\":".spec_bytes()
        + signed_decimal(stats.launched_ships as int)
        + ",\"avgFleetSize\":0.0,\"mutation\":\"none\",\"selected\":".spec_bytes() + if index == 0 {
        "true".spec_bytes()
    } else {
        "false".spec_bytes()
    } + "}".spec_bytes()
}

/// The arena's entry for model `index`.
pub open spec fn arena_model_item(index: usize, parent: Seq<u8>, stats: PlayerStats) -> Seq<u8> {
    arena_item_head(index, parent, stats) + arena_item_results(stats) + arena_item_combat(stats)
        + arena_item_tail(index, stats)
}

/// The rating and the game count fit their types.
pub open spec fn arena_stats_fit(stats: PlayerStats) -> bool {
    &&& i32::MIN <= (stats.wins as i32) * 10 <= i32::MAX
    &&& i32::MIN <= (stats.losses as i32) * 10 <= i32::MAX
    &&& i32::MIN <= 600 + (stats.wins as i32) * 10 <= i32::MAX
    &&& i32::MIN <= arena_rating(stats) <= i32::MAX
    &&& stats.wins + stats.draws <= usize::MAX
    &&& stats.wins + stats.draws + stats.losses <= usize::MAX
}

fn push_arena_item_head(buffer: &mut Vec<u8>, index: usize, parent: &[u8], stats: &PlayerStats)
    requires
        arena_stats_fit(*stats),
    ensures
        final(buffer)@ == old(buffer)@ + arena_item_head(index, parent@, *stats),
{
    proof {
        reveal_strlit("{\"id\":\"P-");
        reveal_strlit("\",\"parent\":\"");
        reveal_strlit("\",\"rating\":");
    }
    let rating: i32 = 600 + stats.wins as i32 * 10 - stats.losses as i32 * 10;
    push_literal(buffer, "{\"id\":\"P-");
    push_decimal(buffer, index);
    push_literal(buffer, "\",\"parent\":\"");
    push_bytes(buffer, parent);
    push_literal(buffer, "\",\"rating\":");
    push_signed_decimal(buffer, rating as i64);
    assert(final(buffer)@ =~= old(buffer)@ + arena_item_head(index, parent@, *stats));
}

fn push_arena_item_results(buffer: &mut Vec<u8>, stats: &PlayerStats)
    requires
        arena_stats_fit(*stats),
    ensures
        final(buffer)@ == old(buffer)@ + arena_item_results(*stats),
{
    proof {
        reveal_strlit(",\"wins\":");
        reveal_strlit(",\"draws\":");
        reveal_strlit(",\"losses\":");
        reveal_strlit(",\"games\":");
    }
    push_literal(buffer, ",\"wins\":");
    push_decimal(buffer, stats.wins);
    push_literal(buffer, ",\"draws\":");
    push_decimal(buffer, stats.draws);
    push_literal(buffer, ",\"losses\":");
    push_decimal(buffer, stats.losses);
    push_literal(buffer, ",\"games\":");
    push_decimal(buffer, stats.wins + stats.draws + stats.losses);
    assert(final(buffer)@ =~= old(buffer)@ + arena_item_results(*stats));
}

fn push_arena_item_combat(buffer: &mut Vec<u8>, stats: &PlayerStats)
    ensures
        final(buffer)@ == old(buffer)@ + arena_item_combat(*stats),
{
    proof {
        reveal_strlit(",\"captures\":");
        reveal_strlit(",\"fleetHits\":");
        reveal_strlit(",\"hitShips\":");
        reveal_strlit(",\"sunDestroyedFleets\":");
        reveal_strlit(",\"sunDestroyedShips\":");
    }
    push_literal(buffer, ",\"captures\":");
    push_decimal(buffer, stats.captures);
    push_literal(buffer, ",\"fleetHits\":");
    push_decimal(buffer, stats.fleet_hits);
    push_literal(buffer, ",\"hitShips\":");
    push_signed_decimal(buffer, stats.hit_ships);
    push_literal(buffer, ",\"sunDestroyedFleets\":");
    push_decimal(buffer, stats.sun_destroyed_fleets);
    push_literal(buffer, ",\"sunDestroyedShips\":");
    push_signed_decimal(buffer, stats.sun_destroyed_ships);
    assert(final(buffer)@ =~= old(buffer)@ + arena_item_combat(*stats));
}

fn push_arena_item_tail(buffer: &mut Vec<u8>, index: usize, stats: &PlayerStats)
    ensures
        final(buffer)@ == old(buffer)@ + arena_item_tail(index, *stats),
{
    proof {
        reveal_strlit(",\"outOfBoundsFleets\":0,\"outOfBoundsShips\":0,\"launchActions\":");
        reveal_strlit(",\"launchedShips\":");
        reveal_strlit(",\"avgFleetSize\":0.0,\"mutation\":\"none\",\"selected\":");
        reveal_strlit("true");
        reveal_strlit("false");
        reveal_strlit("}");
    }
    push_literal(buffer, ",\"outOfBoundsFleets\":0,\"outOfBoundsShips\":0,\"launchActions\":");
    push_decimal(buffer, stats.launch_actions);
    push_literal(buffer, ",\"launchedShips\":");
    push_signed_decimal(buffer, stats.launched_ships);
    push_literal(buffer, ",\"avgFleetSize\":0.0,\"mutation\":\"none\",\"selected\":");
    if index == 0 {
        push_literal(buffer, "true");
    } else {
        push_literal(buffer, "false");
    }
    push_literal(buffer, "}");
    assert(final(buffer)@ =~= old(buffer)@ + arena_item_tail(index, *stats));
}

fn push_arena_model_item(buffer: &mut Vec<u8>, index: usize, parent: &[u8], stats: &PlayerStats)
    requires
        arena_stats_fit(*stats),
    ensures
        final(buffer)@ == old(buffer)@ + arena_model_item(index, parent@, *stats),
{
    push_arena_item_head(buffer, index, parent, stats);
    push_arena_item_results(buffer, stats);
    push_arena_item_combat(buffer, stats);
    push_arena_item_tail(buffer, index, stats);
    assert(final(buffer)@ =~= old(buffer)@ + arena_model_item(index, parent@, *stats));
}

/// The arena's model entries, the first one selected.
pub fn models_json(stats: &[PlayerStats], parent: &[u8]) -> (json: Vec<u8>)
    requires
        forall|i: int| 0 <= i < stats.len() ==> arena_stats_fit(#[trigger] stats@[i]),
    ensures
        json@ == joined(Seq::new(stats@.len(), |i: int| arena_model_item(i as usize, parent@, stats@[i]))),
{
    let ghost items = Seq::new(stats@.len(), |i: int| arena_model_item(i as usize, parent@, stats@[i]));
    let mut json: Vec<u8> = Vec::new();
    let mut index: usize = 0;
    while index < stats.len()
        invariant
            index <= stats.len(),
            forall|i: int| 0 <= i < stats.len() ==> arena_stats_fit(#[trigger] stats@[i]),
            items == Seq::new(stats@.len(), |i: int| arena_model_item(i as usize, parent@, stats@[i])),
            json@ == joined(items.take(index as int)),
        decreases stats.len() - index,
    {
        proof {
            lemma_joined_push(items.take(index as int), items[index as int]);
            assert(items.take(index + 1) =~= items.take(index as int).push(items[index as int]));
        }
        if index > 0 {
            json.push(44u8);
        }
        push_arena_model_item(&mut json, index, parent, &stats[index]);
        proof {
            if index == 0 {
                assert(json@ =~= items[0]);
            } else {
                assert(json@ =~= joined(items.take(index as int)) + seq![44u8] + items[index as int]);
            }
        }
        index += 1;
    }
    proof {
        assert(items.take(items.len() as int) =~= items);
    }
    json
}

} // verus!
