//! Where the trainer writes its artifacts, and the public paths the dashboard reads.
use vstd::prelude::*;
use vstd::string::StringSliceAdditionalSpecFns;

use crate::artifact::literal_bytes;
use crate::decimal::{decimal_digits, push_decimal};

verus! {

pub(crate) fn push_bytes(buffer: &mut Vec<u8>, bytes: &[u8])
    ensures
        final(buffer)@ == old(buffer)@ + bytes@,
{
    let mut i: usize = 0;
    while i < bytes.len()
        invariant
            i <= bytes.len(),
            buffer@ == old(buffer)@ + bytes@.take(i as int),
        decreases bytes.len() - i,
    {
        buffer.push(bytes[i]);
        proof {
            assert(buffer@ =~= old(buffer)@ + bytes@.take(i + 1));
        }
        i += 1;
    }
    proof {
        assert(bytes@.take(bytes@.len() as int) =~= bytes@);
    }
}

pub(crate) fn push_literal(buffer: &mut Vec<u8>, literal: &str)
    requires
        vstd::string::is_ascii(literal),
    ensures
        final(buffer)@ == old(buffer)@ + literal.spec_bytes(),
{
    push_bytes(buffer, literal_bytes(literal));
}

/// `head{run_id}middle{generation}tail`.
pub open spec fn generation_path(head: Seq<u8>, run_id: Seq<u8>, middle: Seq<u8>, generation: usize, tail: Seq<u8>) -> Seq<u8> {
    head + run_id + middle + decimal_digits(generation as nat) + tail
}

/// `head{run_id}middle{generation}_game_{game_index}.json`.
pub open spec fn game_path(head: Seq<u8>, run_id: Seq<u8>, generation: usize, game_index: usize) -> Seq<u8> {
    head + run_id + "/generation_".spec_bytes() + decimal_digits(generation as nat)
        + "_game_".spec_bytes() + decimal_digits(game_index as nat) + ".json".spec_bytes()
}

fn build_generation_path(head: &str, run_id: &[u8], middle: &str, generation: usize, tail: &str) -> (path: Vec<u8>)
    requires
        vstd::string::is_ascii(head),
        vstd::string::is_ascii(middle),
        vstd::string::is_ascii(tail),
    ensures
        path@ == generation_path(
            head.spec_bytes(),
            run_id@,
            middle.spec_bytes(),
            generation,
            tail.spec_bytes(),
        ),
{
    let mut path: Vec<u8> = Vec::new();
    push_literal(&mut path, head);
    push_bytes(&mut path, run_id);
    push_literal(&mut path, middle);
    push_decimal(&mut path, generation);
    push_literal(&mut path, tail);
    assert(path@ =~= generation_path(
        head.spec_bytes(),
        run_id@,
        middle.spec_bytes(),
        generation,
        tail.spec_bytes(),
    ));
    path
}

fn build_game_path(head: &str, run_id: &[u8], generation: usize, game_index: usize) -> (path: Vec<u8>)
    requires
        vstd::string::is_ascii(head),
    ensures
        path@ == game_path(head.spec_bytes(), run_id@, generation, game_index),
{
    proof {
        reveal_strlit("/generation_");
        reveal_strlit("_game_");
        reveal_strlit(".json");
    }
    let mut path: Vec<u8> = Vec::new();
    push_literal(&mut path, head);
    push_bytes(&mut path, run_id);
    push_literal(&mut path, "/generation_");
    push_decimal(&mut path, generation);
    push_literal(&mut path, "_game_");
    push_decimal(&mut path, game_index);
    push_literal(&mut path, ".json");
    assert(path@ =~= game_path(head.spec_bytes(), run_id@, generation, game_index));
    path
}

/// `dashboard/public/telemetry/generation_logs/{run_id}/generation_{generation}.json`
pub fn generation_log_path(run_id: &[u8], generation: usize) -> (path: Vec<u8>)
    ensures
        path@ == generation_path(
            "dashboard/public/telemetry/generation_logs/".spec_bytes(),
            run_id@,
            "/generation_".spec_bytes(),
            generation,
            ".json".spec_bytes(),
        ),
{
    proof {
        reveal_strlit("dashboard/public/telemetry/generation_logs/");
        reveal_strlit("/generation_");
        reveal_strlit(".json");
    }
    build_generation_path(
        "dashboard/public/telemetry/generation_logs/",
        run_id,
        "/generation_",
        generation,
        ".json",
    )
}

/// `dashboard/public/telemetry/replays_{run_id}_generation_{generation}.json`
pub fn replay_chunk_path(run_id: &[u8], generation: usize) -> (path: Vec<u8>)
    ensures
        path@ == generation_path(
            "dashboard/public/telemetry/replays_".spec_bytes(),
            run_id@,
            "_generation_".spec_bytes(),
            generation,
            ".json".spec_bytes(),
        ),
{
    proof {
        reveal_strlit("dashboard/public/telemetry/replays_");
        reveal_strlit("_generation_");
        reveal_strlit(".json");
    }
    build_generation_path(
        "dashboard/public/telemetry/replays_",
        run_id,
        "_generation_",
        generation,
        ".json",
    )
}

/// `dashboard/public/telemetry/replay_games/{run_id}/generation_{generation}_game_{game_index}.json`
pub fn replay_game_file_path(run_id: &[u8], generation: usize, game_index: usize) -> (path: Vec<u8>)
    ensures
        path@ == game_path(
            "dashboard/public/telemetry/replay_games/".spec_bytes(),
            run_id@,
            generation,
            game_index,
        ),
{
    proof {
        reveal_strlit("dashboard/public/telemetry/replay_games/");
    }
    build_game_path("dashboard/public/telemetry/replay_games/", run_id, generation, game_index)
}

/// `/telemetry/replay_games/{run_id}/generation_{generation}_game_{game_index}.json`
pub fn replay_game_public_path(run_id: &[u8], generation: usize, game_index: usize) -> (path: Vec<u8>)
    ensures
        path@ == game_path("/telemetry/replay_games/".spec_bytes(), run_id@, generation, game_index),
{
    proof {
        reveal_strlit("/telemetry/replay_games/");
    }
    build_game_path("/telemetry/replay_games/", run_id, generation, game_index)
}

/// `dashboard/public/telemetry/live_{run_id}_generation_{generation}.owlive`
pub fn live_replay_file_path(run_id: &[u8], generation: usize) -> (path: Vec<u8>)
    ensures
        path@ == generation_path(
            "dashboard/public/telemetry/live_".spec_bytes(),
            run_id@,
            "_generation_".spec_bytes(),
            generation,
            ".owlive".spec_bytes(),
        ),
{
    proof {
        reveal_strlit("dashboard/public/telemetry/live_");
        reveal_strlit("_generation_");
        reveal_strlit(".owlive");
    }
    build_generation_path(
        "dashboard/public/telemetry/live_",
        run_id,
        "_generation_",
        generation,
        ".owlive",
    )
}

/// `/telemetry/live_{run_id}_generation_{generation}.owlive`
pub fn live_replay_public_path(run_id: &[u8], generation: usize) -> (path: Vec<u8>)
    ensures
        path@ == generation_path(
            "/telemetry/live_".spec_bytes(),
            run_id@,
            "_generation_".spec_bytes(),
            generation,
            ".owlive".spec_bytes(),
        ),
{
    proof {
        reveal_strlit("/telemetry/live_");
        reveal_strlit("_generation_");
        reveal_strlit(".owlive");
    }
    build_generation_path("/telemetry/live_", run_id, "_generation_", generation, ".owlive")
}

/// `dashboard/public/telemetry/live_{run_id}_generation_{generation}.owslot`
pub fn legacy_live_replay_slot_file_path(run_id: &[u8], generation: usize) -> (path: Vec<u8>)
    ensures
        path@ == generation_path(
            "dashboard/public/telemetry/live_".spec_bytes(),
            run_id@,
            "_generation_".spec_bytes(),
            generation,
            ".owslot".spec_bytes(),
        ),
{
    proof {
        reveal_strlit("dashboard/public/telemetry/live_");
        reveal_strlit("_generation_");
        reveal_strlit(".owslot");
    }
    build_generation_path(
        "dashboard/public/telemetry/live_",
        run_id,
        "_generation_",
        generation,
        ".owslot",
    )
}

/// `dashboard/public/telemetry/generation_models/{run_id}/generation_{generation}_top4.owmodels`
pub fn generation_top_models_path(run_id: &[u8], generation: usize) -> (path: Vec<u8>)
    ensures
        path@ == generation_path(
            "dashboard/public/telemetry/generation_models/".spec_bytes(),
            run_id@,
            "/generation_".spec_bytes(),
            generation,
            "_top4.owmodels".spec_bytes(),
        ),
{
    proof {
        reveal_strlit("dashboard/public/telemetry/generation_models/");
        reveal_strlit("/generation_");
        reveal_strlit("_top4.owmodels");
    }
    build_generation_path(
        "dashboard/public/telemetry/generation_models/",
        run_id,
        "/generation_",
        generation,
        "_top4.owmodels",
    )
}

/// `/telemetry/generation_models/{run_id}/generation_{generation}_top4.owmodels`
pub fn generation_top_models_public_path(run_id: &[u8], generation: usize) -> (path: Vec<u8>)
    ensures
        path@ == generation_path(
            "/telemetry/generation_models/".spec_bytes(),
            run_id@,
            "/generation_".spec_bytes(),
            generation,
            "_top4.owmodels".spec_bytes(),
        ),
{
    proof {
        reveal_strlit("/telemetry/generation_models/");
        reveal_strlit("/generation_");
        reveal_strlit("_top4.owmodels");
    }
    build_generation_path(
        "/telemetry/generation_models/",
        run_id,
        "/generation_",
        generation,
        "_top4.owmodels",
    )
}

/// The JSON literal of a boolean.
pub fn json_bool(value: bool) -> (literal: &'static str)
    ensures
        literal@ == if value {
            "true"@
        } else {
            "false"@
        },
{
    if value {
        "true"
    } else {
        "false"
    }
}

} // verus!
