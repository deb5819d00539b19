//! The log of one generation: where its replays and top models are, how many games were
//! replayed, and the best models with their rewards.
use vstd::prelude::*;
use vstd::string::StringSliceAdditionalSpecFns;

use crate::decimal::{
    decimal_digits, padded_decimal, push_decimal, push_padded_decimal, push_signed_decimal,
    signed_decimal,
};
use crate::paths::{generation_path, generation_top_models_public_path, push_bytes, push_literal};
use crate::telemetry::joined;

verus! {

/// How many different values `values` holds: the entries that no earlier entry repeats.
pub open spec fn distinct_count(values: Seq<usize>) -> int
    decreases values.len(),
{
    if values.len() == 0 {
        0
    } else {
        distinct_count(values.drop_last()) + if values.drop_last().contains(values.last()) {
            0int
        } else {
            1int
        }
    }
}

/// How many different games the replayed participant views come from.
pub fn distinct_game_count(game_indices: &[usize]) -> (count: usize)
    ensures
        count == distinct_count(game_indices@),
{
    let mut count: usize = 0;
    let mut i: usize = 0;
    while i < game_indices.len()
        invariant
            i <= game_indices.len(),
            count == distinct_count(game_indices@.take(i as int)),
            count <= i,
        decreases game_indices.len() - i,
    {
        let value = game_indices[i];
        let mut seen = false;
        let mut j: usize = 0;
        while j < i
            invariant
                j <= i < game_indices.len(),
                seen == game_indices@.take(j as int).contains(value),
            decreases i - j,
        {
            proof {
                assert(game_indices@.take(j + 1) =~= game_indices@.take(j as int).push(
                    game_indices@[j as int],
                ));
                if game_indices@.take(j as int).contains(value) {
                    let w = choose|w: int| 0 <= w < j && #[trigger] game_indices@.take(j as int)[w]
                        == value;
                    assert(game_indices@.take(j + 1)[w] == value);
                }
                if game_indices@[j as int] == value {
                    assert(game_indices@.take(j + 1)[j as int] == value);
                }
            }
            if game_indices[j] == value {
                seen = true;
            }
            j += 1;
        }
        proof {
            let prefix = game_indices@.take(i + 1);
            assert(prefix.drop_last() =~= game_indices@.take(i as int));
            assert(prefix.last() == value);
        }
        if !seen {
            count += 1;
        }
        i += 1;
    }
    proof {
        assert(game_indices@.take(game_indices@.len() as int) =~= game_indices@);
    }
    count
}

/// The log entry of a top model.
pub open spec fn top_model_item(model_index: usize, reward: i32) -> Seq<u8> {
    "{\"modelIndex\":".spec_bytes() + decimal_digits(model_index as nat) + ",\"modelId\":\"M-".spec_bytes()
        + padded_decimal(model_index as nat, 3) + "\",\"reward\":".spec_bytes() + signed_decimal(
        reward as int,
    ) + "}".spec_bytes()
}

/// The entries of the first `count` ranked models.
pub open spec fn top_model_items(ranked: Seq<(usize, i32)>, count: int) -> Seq<Seq<u8>> {
    let n = if count < ranked.len() {
        count
    } else {
        ranked.len() as int
    };
    Seq::new(n as nat, |k: int| top_model_item(ranked[k].0, ranked[k].1))
}

/// The log of a generation; `metric` is the generation's metric record, already JSON.
pub open spec fn generation_log_text(
    run_id: Seq<u8>,
    generation: usize,
    metric: Seq<u8>,
    replay_game_count: usize,
    actual_game_count: usize,
    ranked: Seq<(usize, i32)>,
    top_model_count: int,
) -> Seq<u8> {
    "{\n  \"runId\": \"".spec_bytes() + run_id + "\",\n  \"generation\": ".spec_bytes()
        + decimal_digits(generation as nat) + ",\n  \"metric\": ".spec_bytes() + metric
        + ",\n  \"replayChunkPath\": \"/telemetry/replays_".spec_bytes() + run_id
        + "_generation_".spec_bytes() + decimal_digits(generation as nat)
        + ".json\",\n  \"replayGameCount\": ".spec_bytes() + decimal_digits(
        replay_game_count as nat,
    ) + ",\n  \"actualReplayGameCount\": ".spec_bytes() + decimal_digits(actual_game_count as nat)
        + ",\n  \"topModelsPath\": \"".spec_bytes() + generation_path(
        "/telemetry/generation_models/".spec_bytes(),
        run_id,
        "/generation_".spec_bytes(),
        generation,
        "_top4.owmodels".spec_bytes(),
    ) + "\",\n  \"topModels\": [".spec_bytes() + joined(top_model_items(ranked, top_model_count))
        + "]\n}\n".spec_bytes()
}

fn push_top_model(buffer: &mut Vec<u8>, model_index: usize, reward: i32)
    ensures
        final(buffer)@ == old(buffer)@ + top_model_item(model_index, reward),
{
    proof {
        reveal_strlit("{\"modelIndex\":");
        reveal_strlit(",\"modelId\":\"M-");
        reveal_strlit("\",\"reward\":");
        reveal_strlit("}");
    }
    push_literal(buffer, "{\"modelIndex\":");
    push_decimal(buffer, model_index);
    push_literal(buffer, ",\"modelId\":\"M-");
    push_padded_decimal(buffer, model_index, 3);
    push_literal(buffer, "\",\"reward\":");
    push_signed_decimal(buffer, reward as i64);
    push_literal(buffer, "}");
    assert(final(buffer)@ =~= old(buffer)@ + top_model_item(model_index, reward));
}

/// The log of a generation: its replay chunk, its replayed views (`replay_game_count`)
/// and games (`game_indices`, one per view), its top models file and the first
/// `top_model_count` models of the ranking with their rewards. `metric` is the
/// generation's metric record, already JSON.
pub fn generation_log_json(
    run_id: &[u8],
    generation: usize,
    metric: &[u8],
    game_indices: &[usize],
    ranked: &[(usize, i32)],
    top_model_count: usize,
) -> (log: Vec<u8>)
    ensures
        log@ == generation_log_text(
            run_id@,
            generation,
            metric@,
            game_indices@.len() as usize,
            distinct_count(game_indices@) as usize,
            ranked@,
            top_model_count as int,
        ),
{
    proof {
        reveal_strlit("{\n  \"runId\": \"");
        reveal_strlit("\",\n  \"generation\": ");
        reveal_strlit(",\n  \"metric\": ");
        reveal_strlit(",\n  \"replayChunkPath\": \"/telemetry/replays_");
        reveal_strlit("_generation_");
        reveal_strlit(".json\",\n  \"replayGameCount\": ");
        reveal_strlit(",\n  \"actualReplayGameCount\": ");
        reveal_strlit(",\n  \"topModelsPath\": \"");
        reveal_strlit("\",\n  \"topModels\": [");
        reveal_strlit("]\n}\n");
    }
    let actual = distinct_game_count(game_indices);
    let mut log: Vec<u8> = Vec::new();
    push_literal(&mut log, "{\n  \"runId\": \"");
    push_bytes(&mut log, run_id);
    push_literal(&mut log, "\",\n  \"generation\": ");
    push_decimal(&mut log, generation);
    push_literal(&mut log, ",\n  \"metric\": ");
    push_bytes(&mut log, metric);
    push_literal(&mut log, ",\n  \"replayChunkPath\": \"/telemetry/replays_");
    push_bytes(&mut log, run_id);
    push_literal(&mut log, "_generation_");
    push_decimal(&mut log, generation);
    push_literal(&mut log, ".json\",\n  \"replayGameCount\": ");
    push_decimal(&mut log, game_indices.len());
    push_literal(&mut log, ",\n  \"actualReplayGameCount\": ");
    push_decimal(&mut log, actual);
    push_literal(&mut log, ",\n  \"topModelsPath\": \"");
    let top_path = generation_top_models_public_path(run_id, generation);
    push_bytes(&mut log, top_path.as_slice());
    push_literal(&mut log, "\",\n  \"topModels\": [");
    let ghost head = log@;
    let count = if top_model_count < ranked.len() {
        top_model_count
    } else {
        ranked.len()
    };
    let ghost items = top_model_items(ranked@, top_model_count as int);
    let mut k: usize = 0;
    while k < count
        invariant
            k <= count,
            count <= ranked.len(),
            items == top_model_items(ranked@, top_model_count as int),
            items.len() == count,
            log@ == head + joined(items.take(k as int)),
        decreases count - k,
    {
        let ghost before = log@;
        if k > 0 {
            log.push(44u8);
        }
        push_top_model(&mut log, ranked[k].0, ranked[k].1);
        proof {
            assert(items.take(k + 1).drop_last() =~= items.take(k as int));
            assert(items[k as int] == top_model_item(ranked@[k as int].0, ranked@[k as int].1));
            if k == 0 {
                assert(items.take(1) =~= seq![items[0]]);
            }
        }
        k += 1;
    }
    proof {
        assert(items.take(count as int) =~= items);
    }
    push_literal(&mut log, "]\n}\n");
    log
}

} // verus!
