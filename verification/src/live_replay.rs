//! Records of the live replay file: the header that names the captured games, and the
//! result record of a finished game. Numbers are little-endian.
use vstd::bytes::*;
use vstd::prelude::*;
use vstd::string::StringSliceAdditionalSpecFns;

use crate::decimal::{padded_decimal, push_padded_decimal};
use crate::schedule::GameAssignment;

verus! {

pub const LIVE_REPLAY_RECORD_HEADER: u8 = 1;

pub const LIVE_REPLAY_RECORD_FRAME: u8 = 2;

pub const LIVE_REPLAY_RECORD_RESULT: u8 = 3;

/// The value of a live replay record that did not fit its field.
#[derive(Clone, Copy, Debug, PartialEq, Eq, Structural)]
pub enum LiveReplayField {
    Generation,
    ActivePlayerCount,
    CapturedGameCount,
    GameIndex,
    ParticipantCount,
    ModelIndex,
    OpponentLabel,
    ResultGame,
    ResultRewardCount,
    FrameGame,
    FrameStep,
    PlanetCount,
    FleetCount,
    CometGroupCount,
    CometPlanetCount,
    CometPathCount,
    CometPathPointCount,
    CometPathIndex,
}

#[derive(Clone, Copy, Debug, PartialEq, Eq, Structural)]
pub enum LiveReplayError {
    Overflow(LiveReplayField),
    GameIndexOutOfRange(usize),
}

pub open spec fn le_u32(value: u32) -> Seq<u8> {
    spec_u32_to_le_bytes(value)
}

/// The little-endian bytes of an `i32`, its two's complement.
pub open spec fn le_i32(value: i32) -> Seq<u8> {
    spec_u32_to_le_bytes(value as u32)
}

/// Appends `value` as a `u32`; refuses a value that does not fit.
pub fn push_usize_as_u32(buffer: &mut Vec<u8>, value: usize, field: LiveReplayField) -> (result: Result<
    (),
    LiveReplayError,
>)
    ensures
        value <= u32::MAX ==> result is Ok && final(buffer)@ == old(buffer)@ + le_u32(
            value as u32,
        ),
        value > u32::MAX ==> result == Err::<(), LiveReplayError>(LiveReplayError::Overflow(field))
            && final(buffer)@ == old(buffer)@,
{
    if value > 0xffff_ffff {
        return Err(LiveReplayError::Overflow(field));
    }
    let mut encoded = u32_to_le_bytes(value as u32);
    buffer.append(&mut encoded);
    Ok(())
}

/// Appends an `i32`.
pub fn push_i32(buffer: &mut Vec<u8>, value: i32)
    ensures
        final(buffer)@ == old(buffer)@ + le_i32(value),
{
    let mut encoded = u32_to_le_bytes(value as u32);
    buffer.append(&mut encoded);
}

/// Appends `value` as an `i32`; refuses a value that does not fit.
pub fn push_isize_as_i32(buffer: &mut Vec<u8>, value: isize, field: LiveReplayField) -> (result: Result<
    (),
    LiveReplayError,
>)
    ensures
        i32::MIN <= value <= i32::MAX ==> result is Ok && final(buffer)@ == old(buffer)@ + le_i32(
            value as i32,
        ),
        !(i32::MIN <= value <= i32::MAX) ==> result == Err::<(), LiveReplayError>(
            LiveReplayError::Overflow(field),
        ) && final(buffer)@ == old(buffer)@,
{
    if value < -0x8000_0000 || value > 0x7fff_ffff {
        return Err(LiveReplayError::Overflow(field));
    }
    push_i32(buffer, value as i32);
    Ok(())
}

/// A length-prefixed string.
pub open spec fn length_prefixed(value: Seq<u8>) -> Seq<u8> {
    le_u32(value.len() as u32) + value
}

/// Appends a string as its `u32` length and its bytes.
pub fn push_string(buffer: &mut Vec<u8>, value: &[u8], field: LiveReplayField) -> (result: Result<
    (),
    LiveReplayError,
>)
    ensures
        value@.len() <= u32::MAX ==> result is Ok && final(buffer)@ == old(buffer)@
            + length_prefixed(value@),
        value@.len() > u32::MAX ==> result == Err::<(), LiveReplayError>(
            LiveReplayError::Overflow(field),
        ) && final(buffer)@ == old(buffer)@,
{
    push_usize_as_u32(buffer, value.len(), field)?;
    let ghost prefixed = buffer@;
    let mut i: usize = 0;
    while i < value.len()
        invariant
            i <= value.len(),
            buffer@ == prefixed + value@.take(i as int),
        decreases value.len() - i,
    {
        buffer.push(value[i]);
        proof {
            assert(buffer@ =~= prefixed + value@.take(i + 1));
        }
        i += 1;
    }
    proof {
        assert(value@.take(value@.len() as int) =~= value@);
        assert(buffer@ =~= old(buffer)@ + length_prefixed(value@));
    }
    Ok(())
}

/// The rewards recorded for a finished game: as many as both the game and the file
/// have players, and at most the four owner slots.
pub open spec fn recorded_rewards(rewards: Seq<i32>, reward_count: int) -> Seq<u8>
    decreases reward_count,
{
    if reward_count <= 0 {
        Seq::empty()
    } else {
        recorded_rewards(rewards, reward_count - 1) + le_i32(rewards[reward_count - 1])
    }
}

pub open spec fn smaller(a: usize, b: usize) -> usize {
    if a <= b {
        a
    } else {
        b
    }
}

/// The result record of game `game_index`.
pub open spec fn result_record(
    game_index: usize,
    rewards: Seq<i32>,
    active_player_count: usize,
    file_player_count: usize,
) -> Seq<u8> {
    let reward_count = smaller(active_player_count, file_player_count);
    seq![LIVE_REPLAY_RECORD_RESULT] + le_u32(game_index as u32) + le_u32(reward_count as u32)
        + recorded_rewards(rewards, smaller(reward_count, 4) as int)
}

/// The bytes appended to the live replay when game `game_index` finishes.
pub fn live_replay_result_record(
    game_index: usize,
    game_count: usize,
    rewards: &[i32; 4],
    active_player_count: usize,
    file_player_count: usize,
) -> (record: Result<Vec<u8>, LiveReplayError>)
    ensures
        game_index >= game_count ==> record == Err::<Vec<u8>, LiveReplayError>(
            LiveReplayError::GameIndexOutOfRange(game_index),
        ),
        game_index < game_count && game_index > u32::MAX ==> record == Err::<Vec<u8>, LiveReplayError>(
            LiveReplayError::Overflow(LiveReplayField::ResultGame),
        ),
        game_index < game_count && game_index <= u32::MAX && smaller(
            active_player_count,
            file_player_count,
        ) > u32::MAX ==> record == Err::<Vec<u8>, LiveReplayError>(
            LiveReplayError::Overflow(LiveReplayField::ResultRewardCount),
        ),
        game_index < game_count && game_index <= u32::MAX && smaller(
            active_player_count,
            file_player_count,
        ) <= u32::MAX ==> record is Ok && record->Ok_0@ == result_record(
            game_index,
            rewards@,
            active_player_count,
            file_player_count,
        ),
{
    if game_index >= game_count {
        return Err(LiveReplayError::GameIndexOutOfRange(game_index));
    }
    let mut bytes: Vec<u8> = Vec::new();
    bytes.push(LIVE_REPLAY_RECORD_RESULT);
    push_usize_as_u32(&mut bytes, game_index, LiveReplayField::ResultGame)?;
    let reward_count = if active_player_count <= file_player_count {
        active_player_count
    } else {
        file_player_count
    };
    push_usize_as_u32(&mut bytes, reward_count, LiveReplayField::ResultRewardCount)?;
    let ghost head = bytes@;
    let taken = if reward_count < 4 {
        reward_count
    } else {
        4
    };
    let mut i: usize = 0;
    while i < taken
        invariant
            taken <= 4,
            i <= taken,
            bytes@ == head + recorded_rewards(rewards@, i as int),
        decreases taken - i,
    {
        push_i32(&mut bytes, rewards[i]);
        proof {
            assert(bytes@ =~= head + recorded_rewards(rewards@, i + 1));
        }
        i += 1;
    }
    proof {
        assert(bytes@ =~= result_record(
            game_index,
            rewards@,
            active_player_count,
            file_player_count,
        ));
    }
    Ok(bytes)
}

/// `M-{model:03}` (`M` is 77, `-` is 45), the label of one model.
pub open spec fn model_label(model_index: usize) -> Seq<u8> {
    seq![77u8, 45u8] + padded_decimal(model_index as nat, 3)
}

/// The labels of the other models of a game, joined with `/` (47), for the slots before `upto`.
pub open spec fn opponent_labels(model_indices: Seq<usize>, player_slot: int, upto: int) -> Seq<u8>
    decreases upto,
{
    if upto <= 0 {
        Seq::empty()
    } else {
        let earlier = opponent_labels(model_indices, player_slot, upto - 1);
        if upto - 1 == player_slot {
            earlier
        } else if earlier.len() == 0 {
            model_label(model_indices[upto - 1])
        } else {
            earlier + seq![47u8] + model_label(model_indices[upto - 1])
        }
    }
}

/// The opponents of `player_slot` in a game, as the live replay names them.
pub fn opponent_label_for_slot(assignment: &GameAssignment, active_player_count: usize, player_slot: usize) -> (label: Vec<u8>)
    requires
        active_player_count <= 4,
    ensures
        label@ == opponent_labels(
            assignment.model_indices@,
            player_slot as int,
            active_player_count as int,
        ),
{
    let mut label: Vec<u8> = Vec::new();
    let mut slot: usize = 0;
    while slot < active_player_count
        invariant
            active_player_count <= 4,
            slot <= active_player_count,
            label@ == opponent_labels(assignment.model_indices@, player_slot as int, slot as int),
        decreases active_player_count - slot,
    {
        if slot != player_slot {
            let ghost earlier = label@;
            if label.len() > 0 {
                label.push(47u8);
            }
            label.push(77u8);
            label.push(45u8);
            push_padded_decimal(&mut label, assignment.model_indices[slot], 3);
            proof {
                let m = model_label(assignment.model_indices@[slot as int]);
                if earlier.len() == 0 {
                    assert(label@ =~= m);
                } else {
                    assert(label@ =~= earlier + seq![47u8] + m);
                }
            }
        }
        slot += 1;
    }
    label
}

/// The magic bytes that open a live replay file: `OWLIVE1` and a newline.
pub open spec fn live_replay_magic() -> Seq<u8> {
    seq![79u8, 87u8, 76u8, 73u8, 86u8, 69u8, 49u8, 10u8]
}

/// The seats of one captured game, for the slots before `upto`: each model index and
/// the labels of that seat's opponents.
pub open spec fn game_seats(model_indices: Seq<usize>, active_player_count: int, upto: int) -> Seq<u8>
    decreases upto,
{
    if upto <= 0 {
        Seq::empty()
    } else {
        game_seats(model_indices, active_player_count, upto - 1) + le_u32(
            model_indices[upto - 1] as u32,
        ) + length_prefixed(opponent_labels(model_indices, upto - 1, active_player_count))
    }
}

/// The captured games before `upto`: index, participant count and seats of each.
pub open spec fn captured_games(assignments: Seq<GameAssignment>, active_player_count: int, upto: int) -> Seq<u8>
    decreases upto,
{
    if upto <= 0 {
        Seq::empty()
    } else {
        captured_games(assignments, active_player_count, upto - 1) + le_u32((upto - 1) as u32)
            + le_u32(active_player_count as u32) + game_seats(
            assignments[upto - 1].model_indices@,
            active_player_count,
            active_player_count,
        )
    }
}

/// The header of a live replay file.
pub open spec fn header_record(
    generation: usize,
    assignments: Seq<GameAssignment>,
    captured: usize,
    active_player_count: usize,
) -> Seq<u8> {
    live_replay_magic() + seq![LIVE_REPLAY_RECORD_HEADER] + le_u32(generation as u32) + le_u32(
        active_player_count as u32,
    ) + le_u32(captured as u32) + captured_games(
        assignments,
        active_player_count as int,
        captured as int,
    )
}

/// Every seat of the first `captured` games holds a model index that fits a `u32`.
pub open spec fn seats_fit(assignments: Seq<GameAssignment>, captured: int, active_player_count: int) -> bool {
    forall|g: int, s: int|
        0 <= g < captured && 0 <= s < active_player_count ==> #[trigger] assignments[g].model_indices@[s]
            <= u32::MAX
}

proof fn lemma_opponent_labels_short(model_indices: Seq<usize>, player_slot: int, upto: int)
    requires
        0 <= upto <= model_indices.len(),
    ensures
        opponent_labels(model_indices, player_slot, upto).len() <= 23 * upto,
    decreases upto,
{
    if upto > 0 {
        lemma_opponent_labels_short(model_indices, player_slot, upto - 1);
        crate::decimal::lemma_usize_digits(model_indices[upto - 1]);
    }
}

/// The header of the live replay file of `generation`: the first `live_capture_count`
/// games of `assignments` are captured, each with its seats and their opponents' labels.
pub fn live_replay_header_record(
    generation: usize,
    assignments: &[GameAssignment],
    live_capture_count: usize,
    active_player_count: usize,
) -> (record: Result<Vec<u8>, LiveReplayError>)
    requires
        active_player_count <= 4,
    ensures
        ({
            let captured = smaller(live_capture_count, assignments@.len() as usize);
            match record {
                Ok(bytes) => generation <= u32::MAX && captured <= u32::MAX && seats_fit(
                    assignments@,
                    captured as int,
                    active_player_count as int,
                ) && bytes@ == header_record(
                    generation,
                    assignments@,
                    captured,
                    active_player_count,
                ),
                Err(e) => if generation > u32::MAX {
                    e == LiveReplayError::Overflow(LiveReplayField::Generation)
                } else if captured > u32::MAX {
                    e == LiveReplayError::Overflow(LiveReplayField::CapturedGameCount)
                } else {
                    !seats_fit(assignments@, captured as int, active_player_count as int) && e
                        == LiveReplayError::Overflow(LiveReplayField::ModelIndex)
                },
            }
        }),
{
    let captured = if live_capture_count <= assignments.len() {
        live_capture_count
    } else {
        assignments.len()
    };
    let mut bytes: Vec<u8> = Vec::new();
    bytes.push(79u8);
    bytes.push(87u8);
    bytes.push(76u8);
    bytes.push(73u8);
    bytes.push(86u8);
    bytes.push(69u8);
    bytes.push(49u8);
    bytes.push(10u8);
    bytes.push(LIVE_REPLAY_RECORD_HEADER);
    push_usize_as_u32(&mut bytes, generation, LiveReplayField::Generation)?;
    push_usize_as_u32(&mut bytes, active_player_count, LiveReplayField::ActivePlayerCount)?;
    push_usize_as_u32(&mut bytes, captured, LiveReplayField::CapturedGameCount)?;
    let ghost head = bytes@;
    proof {
        assert(head =~= live_replay_magic() + seq![LIVE_REPLAY_RECORD_HEADER] + le_u32(
            generation as u32,
        ) + le_u32(active_player_count as u32) + le_u32(captured as u32));
    }
    let mut game: usize = 0;
    while game < captured
        invariant
            active_player_count <= 4,
            captured <= assignments.len(),
            captured <= u32::MAX,
            generation <= u32::MAX,
            captured == smaller(live_capture_count, assignments@.len() as usize),
            game <= captured,
            bytes@ == head + captured_games(assignments@, active_player_count as int, game as int),
            seats_fit(assignments@, game as int, active_player_count as int),
        decreases captured - game,
    {
        let ghost before_game = bytes@;
        push_usize_as_u32(&mut bytes, game, LiveReplayField::GameIndex)?;
        push_usize_as_u32(&mut bytes, active_player_count, LiveReplayField::ParticipantCount)?;
        let ghost seats_start = bytes@;
        let assignment = &assignments[game];
        let ghost indices = assignment.model_indices@;
        let mut slot: usize = 0;
        while slot < active_player_count
            invariant
                active_player_count <= 4,
                slot <= active_player_count,
                game < captured <= assignments.len(),
                captured <= u32::MAX,
                generation <= u32::MAX,
                captured == smaller(live_capture_count, assignments@.len() as usize),
                indices == assignments@[game as int].model_indices@,
                indices == assignment.model_indices@,
                bytes@ == seats_start + game_seats(indices, active_player_count as int, slot as int),
                seats_fit(assignments@, game as int, active_player_count as int),
                forall|s: int| 0 <= s < slot ==> #[trigger] indices[s] <= u32::MAX,
            decreases active_player_count - slot,
        {
            let ghost before_seat = bytes@;
            let model_index = assignment.model_indices[slot];
            if model_index > 0xffff_ffff {
                proof {
                    assert(assignments@[game as int].model_indices@[slot as int] > u32::MAX);
                }
                return Err(LiveReplayError::Overflow(LiveReplayField::ModelIndex));
            }
            push_usize_as_u32(&mut bytes, model_index, LiveReplayField::ModelIndex)?;
            let label = opponent_label_for_slot(assignment, active_player_count, slot);
            proof {
                lemma_opponent_labels_short(indices, slot as int, active_player_count as int);
            }
            push_string(&mut bytes, label.as_slice(), LiveReplayField::OpponentLabel)?;
            proof {
                assert(bytes@ =~= seats_start + game_seats(
                    indices,
                    active_player_count as int,
                    slot + 1,
                ));
            }
            slot += 1;
        }
        proof {
            assert(bytes@ =~= head + captured_games(
                assignments@,
                active_player_count as int,
                game + 1,
            ));
            assert forall|g: int, s: int|
                0 <= g < game + 1 && 0 <= s < active_player_count implies #[trigger] assignments@[g].model_indices@[s]
                    <= u32::MAX by {
                if g == game {
                    assert(indices[s] <= u32::MAX);
                }
            }
        }
        game += 1;
    }
    Ok(bytes)
}

} // verus!
