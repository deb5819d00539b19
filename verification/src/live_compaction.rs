//! Files of a generation's replayed games: the compact live replay file (a header naming
//! each game and its participants, the frames of each game, then each game's rewards),
//! and the game index of the replay chunk.
use vstd::prelude::*;
use vstd::string::StringSliceAdditionalSpecFns;

use crate::live_replay::{
    le_i32, le_u32, length_prefixed, live_replay_magic, push_i32, push_string,
    push_usize_as_u32, LiveReplayError, LiveReplayField, LIVE_REPLAY_RECORD_FRAME,
    LIVE_REPLAY_RECORD_HEADER, LIVE_REPLAY_RECORD_RESULT,
};
use crate::decimal::{
    decimal_digits, padded_decimal, push_decimal, push_padded_decimal, push_signed_decimal,
    signed_decimal,
};
use crate::paths::{game_path, push_bytes, push_literal, replay_game_public_path};
use crate::telemetry::joined;
use crate::replay_frame::{frame_bytes, frame_error, push_replay_frame_binary, ReplayFrameBits};
use crate::replay_games::{
    entries_view, groups_view, is_game_grouping, replay_actual_games, ReplayGameEntry,
    ReplayGameEntryView,
};

verus! {

/// The participants of a game in the header, for the first `upto` of them.
pub open spec fn participants_bytes(entries: Seq<ReplayGameEntryView>, group: Seq<usize>, upto: int) -> Seq<u8>
    decreases upto,
{
    if upto <= 0 {
        Seq::empty()
    } else {
        let p = entries[group[upto - 1] as int];
        participants_bytes(entries, group, upto - 1) + le_u32(p.model_index as u32)
            + length_prefixed(p.opponent_label)
    }
}

/// The first participant field that does not fit, among the first `upto`.
pub open spec fn participants_error(entries: Seq<ReplayGameEntryView>, group: Seq<usize>, upto: int) -> Option<LiveReplayField>
    decreases upto,
{
    if upto <= 0 {
        None
    } else {
        match participants_error(entries, group, upto - 1) {
            Some(field) => Some(field),
            None => {
                let p = entries[group[upto - 1] as int];
                if p.model_index > u32::MAX {
                    Some(LiveReplayField::ModelIndex)
                } else if p.opponent_label.len() > u32::MAX {
                    Some(LiveReplayField::OpponentLabel)
                } else {
                    None
                }
            },
        }
    }
}

/// The game index of a group: that of its first view.
pub open spec fn group_game(entries: Seq<ReplayGameEntryView>, group: Seq<usize>) -> usize {
    entries[group[0] as int].game_index
}

/// The header entries of the first `upto` games.
pub open spec fn header_games_bytes(entries: Seq<ReplayGameEntryView>, groups: Seq<Seq<usize>>, upto: int) -> Seq<u8>
    decreases upto,
{
    if upto <= 0 {
        Seq::empty()
    } else {
        let group = groups[upto - 1];
        header_games_bytes(entries, groups, upto - 1) + le_u32(group_game(entries, group) as u32)
            + le_u32(group.len() as u32) + participants_bytes(entries, group, group.len() as int)
    }
}

/// The first header field of the first `upto` games that does not fit.
pub open spec fn header_games_error(entries: Seq<ReplayGameEntryView>, groups: Seq<Seq<usize>>, upto: int) -> Option<LiveReplayField>
    decreases upto,
{
    if upto <= 0 {
        None
    } else {
        match header_games_error(entries, groups, upto - 1) {
            Some(field) => Some(field),
            None => {
                let group = groups[upto - 1];
                if group_game(entries, group) > u32::MAX {
                    Some(LiveReplayField::GameIndex)
                } else if group.len() > u32::MAX {
                    Some(LiveReplayField::ParticipantCount)
                } else {
                    participants_error(entries, group, group.len() as int)
                }
            },
        }
    }
}

/// The frame records of one game, for its first `upto` frames.
pub open spec fn game_frames_bytes(frames: Seq<ReplayFrameBits>, game_index: usize, upto: int) -> Seq<u8>
    decreases upto,
{
    if upto <= 0 {
        Seq::empty()
    } else {
        game_frames_bytes(frames, game_index, upto - 1) + seq![LIVE_REPLAY_RECORD_FRAME] + le_u32(
            game_index as u32,
        ) + frame_bytes(frames[upto - 1])
    }
}

/// The first field of the first `upto` frames of a game that does not fit.
pub open spec fn game_frames_error(frames: Seq<ReplayFrameBits>, upto: int) -> Option<LiveReplayField>
    decreases upto,
{
    if upto <= 0 {
        None
    } else {
        match game_frames_error(frames, upto - 1) {
            Some(field) => Some(field),
            None => frame_error(frames[upto - 1]),
        }
    }
}

/// The frames of each game are those of its first view.
pub open spec fn frames_part_bytes(
    entries: Seq<ReplayGameEntryView>,
    groups: Seq<Seq<usize>>,
    frames: Seq<Seq<ReplayFrameBits>>,
    upto: int,
) -> Seq<u8>
    decreases upto,
{
    if upto <= 0 {
        Seq::empty()
    } else {
        let group = groups[upto - 1];
        let game_frames = frames[group[0] as int];
        frames_part_bytes(entries, groups, frames, upto - 1) + game_frames_bytes(
            game_frames,
            group_game(entries, group),
            game_frames.len() as int,
        )
    }
}

pub open spec fn frames_part_error(groups: Seq<Seq<usize>>, frames: Seq<Seq<ReplayFrameBits>>, upto: int) -> Option<LiveReplayField>
    decreases upto,
{
    if upto <= 0 {
        None
    } else {
        match frames_part_error(groups, frames, upto - 1) {
            Some(field) => Some(field),
            None => {
                let game_frames = frames[groups[upto - 1][0] as int];
                game_frames_error(game_frames, game_frames.len() as int)
            },
        }
    }
}

/// The rewards of a game's participants, for the first `upto` of them.
pub open spec fn rewards_bytes(entries: Seq<ReplayGameEntryView>, group: Seq<usize>, upto: int) -> Seq<u8>
    decreases upto,
{
    if upto <= 0 {
        Seq::empty()
    } else {
        rewards_bytes(entries, group, upto - 1) + le_i32(entries[group[upto - 1] as int].reward)
    }
}

/// The result records of the first `upto` games.
pub open spec fn results_bytes(entries: Seq<ReplayGameEntryView>, groups: Seq<Seq<usize>>, upto: int) -> Seq<u8>
    decreases upto,
{
    if upto <= 0 {
        Seq::empty()
    } else {
        let group = groups[upto - 1];
        results_bytes(entries, groups, upto - 1) + seq![LIVE_REPLAY_RECORD_RESULT] + le_u32(
            group_game(entries, group) as u32,
        ) + le_u32(group.len() as u32) + rewards_bytes(entries, group, group.len() as int)
    }
}

/// The first field of the compacted file that does not fit, if any.
pub open spec fn compaction_error(
    generation: usize,
    active_player_count: usize,
    entries: Seq<ReplayGameEntryView>,
    groups: Seq<Seq<usize>>,
    frames: Seq<Seq<ReplayFrameBits>>,
) -> Option<LiveReplayField> {
    if generation > u32::MAX {
        Some(LiveReplayField::Generation)
    } else if active_player_count > u32::MAX {
        Some(LiveReplayField::ActivePlayerCount)
    } else if groups.len() > u32::MAX {
        Some(LiveReplayField::CapturedGameCount)
    } else {
        match header_games_error(entries, groups, groups.len() as int) {
            Some(field) => Some(field),
            None => frames_part_error(groups, frames, groups.len() as int),
        }
    }
}

/// The bytes of the compacted file.
pub open spec fn compaction_bytes(
    generation: usize,
    active_player_count: usize,
    entries: Seq<ReplayGameEntryView>,
    groups: Seq<Seq<usize>>,
    frames: Seq<Seq<ReplayFrameBits>>,
) -> Seq<u8> {
    live_replay_magic() + seq![LIVE_REPLAY_RECORD_HEADER] + le_u32(generation as u32) + le_u32(
        active_player_count as u32,
    ) + le_u32(groups.len() as u32) + header_games_bytes(entries, groups, groups.len() as int)
        + frames_part_bytes(entries, groups, frames, groups.len() as int) + results_bytes(
        entries,
        groups,
        groups.len() as int,
    )
}

pub open spec fn frames_view(frames: Seq<Vec<ReplayFrameBits>>) -> Seq<Seq<ReplayFrameBits>> {
    frames.map_values(|f: Vec<ReplayFrameBits>| f@)
}

proof fn lemma_participants_error_extends(entries: Seq<ReplayGameEntryView>, group: Seq<usize>, k: int, n: int)
    requires
        0 <= k <= n,
        participants_error(entries, group, k) is Some,
    ensures
        participants_error(entries, group, n) == participants_error(entries, group, k),
    decreases n - k,
{
    if n > k {
        lemma_participants_error_extends(entries, group, k, n - 1);
    }
}

proof fn lemma_header_error_extends(entries: Seq<ReplayGameEntryView>, groups: Seq<Seq<usize>>, k: int, n: int)
    requires
        0 <= k <= n,
        header_games_error(entries, groups, k) is Some,
    ensures
        header_games_error(entries, groups, n) == header_games_error(entries, groups, k),
    decreases n - k,
{
    if n > k {
        lemma_header_error_extends(entries, groups, k, n - 1);
    }
}

proof fn lemma_game_frames_error_extends(frames: Seq<ReplayFrameBits>, k: int, n: int)
    requires
        0 <= k <= n,
        game_frames_error(frames, k) is Some,
    ensures
        game_frames_error(frames, n) == game_frames_error(frames, k),
    decreases n - k,
{
    if n > k {
        lemma_game_frames_error_extends(frames, k, n - 1);
    }
}

proof fn lemma_frames_part_error_extends(groups: Seq<Seq<usize>>, frames: Seq<Seq<ReplayFrameBits>>, k: int, n: int)
    requires
        0 <= k <= n,
        frames_part_error(groups, frames, k) is Some,
    ensures
        frames_part_error(groups, frames, n) == frames_part_error(groups, frames, k),
    decreases n - k,
{
    if n > k {
        lemma_frames_part_error_extends(groups, frames, k, n - 1);
    }
}

/// Appends the header entry of one game; fails on the first field that does not fit.
fn push_header_game(
    bytes: &mut Vec<u8>,
    entries: &[ReplayGameEntry],
    group: &Vec<usize>,
) -> (result: Result<(), LiveReplayError>)
    requires
        group@.len() > 0,
        forall|k: int| 0 <= k < group@.len() ==> #[trigger] group@[k] < entries@.len(),
    ensures
        ({
            let view = entries_view(entries@);
            let g = group@;
            let error = if group_game(view, g) > u32::MAX {
                Some(LiveReplayField::GameIndex)
            } else if g.len() > u32::MAX {
                Some(LiveReplayField::ParticipantCount)
            } else {
                participants_error(view, g, g.len() as int)
            };
            match error {
                Some(field) => result == Err::<(), LiveReplayError>(LiveReplayError::Overflow(field)),
                None => result is Ok && final(bytes)@ == old(bytes)@ + le_u32(
                    group_game(view, g) as u32,
                ) + le_u32(g.len() as u32) + participants_bytes(view, g, g.len() as int),
            }
        }),
{
    let ghost view = entries_view(entries@);
    let ghost start = bytes@;
    let first = &entries[group[0]];
    proof {
        assert(view[group@[0] as int] == first@);
    }
    push_usize_as_u32(bytes, first.game_index, LiveReplayField::GameIndex)?;
    push_usize_as_u32(bytes, group.len(), LiveReplayField::ParticipantCount)?;
    let ghost head = bytes@;
    let mut p: usize = 0;
    while p < group.len()
        invariant
            p <= group@.len(),
            view == entries_view(entries@),
            forall|k: int| 0 <= k < group@.len() ==> #[trigger] group@[k] < entries@.len(),
            participants_error(view, group@, p as int) is None,
            bytes@ == head + participants_bytes(view, group@, p as int),
            group_game(view, group@) <= u32::MAX,
            group@.len() <= u32::MAX,
        decreases group.len() - p,
    {
        let participant = &entries[group[p]];
        proof {
            assert(view[group@[p as int] as int] == participant@);
        }
        if participant.model_index > 0xffff_ffff || participant.opponent_label.len() > 0xffff_ffff {
            proof {
                assert(participants_error(view, group@, p + 1) is Some);
                lemma_participants_error_extends(view, group@, p + 1, group@.len() as int);
            }
            if participant.model_index > 0xffff_ffff {
                return Err(LiveReplayError::Overflow(LiveReplayField::ModelIndex));
            }
            return Err(LiveReplayError::Overflow(LiveReplayField::OpponentLabel));
        }
        push_usize_as_u32(bytes, participant.model_index, LiveReplayField::ModelIndex)?;
        push_string(bytes, participant.opponent_label.as_slice(), LiveReplayField::OpponentLabel)?;
        proof {
            assert(bytes@ =~= head + participants_bytes(view, group@, p + 1));
        }
        p += 1;
    }
    proof {
        assert(bytes@ =~= start + le_u32(group_game(view, group@) as u32) + le_u32(
            group@.len() as u32,
        ) + participants_bytes(view, group@, group@.len() as int));
    }
    Ok(())
}

/// Appends the frame records of one game; fails on the first frame field that does not fit.
fn push_game_frames(bytes: &mut Vec<u8>, frames: &Vec<ReplayFrameBits>, game_index: usize) -> (result:
    Result<(), LiveReplayError>)
    requires
        game_index <= u32::MAX,
    ensures
        match game_frames_error(frames@, frames@.len() as int) {
            Some(field) => result == Err::<(), LiveReplayError>(LiveReplayError::Overflow(field)),
            None => result is Ok && final(bytes)@ == old(bytes)@ + game_frames_bytes(
                frames@,
                game_index,
                frames@.len() as int,
            ),
        },
{
    let ghost start = bytes@;
    let mut f: usize = 0;
    while f < frames.len()
        invariant
            game_index <= u32::MAX,
            f <= frames@.len(),
            game_frames_error(frames@, f as int) is None,
            bytes@ == start + game_frames_bytes(frames@, game_index, f as int),
        decreases frames.len() - f,
    {
        let ghost before = bytes@;
        bytes.push(LIVE_REPLAY_RECORD_FRAME);
        push_usize_as_u32(bytes, game_index, LiveReplayField::FrameGame)?;
        match push_replay_frame_binary(bytes, &frames[f]) {
            Ok(()) => {},
            Err(e) => {
                proof {
                    lemma_game_frames_error_extends(frames@, f + 1, frames@.len() as int);
                }
                return Err(e);
            },
        }
        proof {
            assert(bytes@ =~= start + game_frames_bytes(frames@, game_index, f + 1));
        }
        f += 1;
    }
    Ok(())
}

/// Appends the result record of one game.
fn push_game_result(bytes: &mut Vec<u8>, entries: &[ReplayGameEntry], group: &Vec<usize>)
    requires
        group@.len() > 0,
        group@.len() <= u32::MAX,
        forall|k: int| 0 <= k < group@.len() ==> #[trigger] group@[k] < entries@.len(),
        group_game(entries_view(entries@), group@) <= u32::MAX,
    ensures
        final(bytes)@ == old(bytes)@ + seq![LIVE_REPLAY_RECORD_RESULT] + le_u32(
            group_game(entries_view(entries@), group@) as u32,
        ) + le_u32(group@.len() as u32) + rewards_bytes(
            entries_view(entries@),
            group@,
            group@.len() as int,
        ),
{
    let ghost view = entries_view(entries@);
    let ghost start = bytes@;
    bytes.push(LIVE_REPLAY_RECORD_RESULT);
    let first = &entries[group[0]];
    proof {
        assert(view[group@[0] as int] == first@);
    }
    let _ = push_usize_as_u32(bytes, first.game_index, LiveReplayField::ResultGame);
    let _ = push_usize_as_u32(bytes, group.len(), LiveReplayField::ResultRewardCount);
    let ghost head = bytes@;
    let mut p: usize = 0;
    while p < group.len()
        invariant
            p <= group@.len(),
            view == entries_view(entries@),
            forall|k: int| 0 <= k < group@.len() ==> #[trigger] group@[k] < entries@.len(),
            bytes@ == head + rewards_bytes(view, group@, p as int),
        decreases group.len() - p,
    {
        let participant = &entries[group[p]];
        proof {
            assert(view[group@[p as int] as int] == participant@);
        }
        push_i32(bytes, participant.reward);
        p += 1;
    }
    proof {
        assert(bytes@ =~= start + seq![LIVE_REPLAY_RECORD_RESULT] + le_u32(
            group_game(view, group@) as u32,
        ) + le_u32(group@.len() as u32) + rewards_bytes(view, group@, group@.len() as int));
    }
}

/// The live replay file of a generation's replayed games: `None` when there are none.
/// `frames` holds the frames of each view; a game's frames are those of its first view.
/// Fails on the first field that does not fit.
pub fn compact_live_replay(
    generation: usize,
    active_player_count: usize,
    entries: &[ReplayGameEntry],
    frames: &[Vec<ReplayFrameBits>],
) -> (result: Result<Option<Vec<u8>>, LiveReplayError>)
    requires
        frames@.len() == entries@.len(),
    ensures
        exists|groups: Seq<Seq<usize>>|
            #[trigger] is_game_grouping(groups, entries_view(entries@)) && if groups.len() == 0 {
                result == Ok::<Option<Vec<u8>>, LiveReplayError>(None)
            } else {
                match compaction_error(
                    generation,
                    active_player_count,
                    entries_view(entries@),
                    groups,
                    frames_view(frames@),
                ) {
                    Some(field) => result == Err::<Option<Vec<u8>>, LiveReplayError>(
                        LiveReplayError::Overflow(field),
                    ),
                    None => result is Ok && result->Ok_0 is Some && result->Ok_0->Some_0@
                        == compaction_bytes(
                        generation,
                        active_player_count,
                        entries_view(entries@),
                        groups,
                        frames_view(frames@),
                    ),
                }
            },
{
    let ghost view = entries_view(entries@);
    let ghost fview = frames_view(frames@);
    let groups = replay_actual_games(entries);
    let ghost gview = groups_view(groups@);
    proof {
        assert(is_game_grouping(gview, view));
    }
    if groups.len() == 0 {
        return Ok(None);
    }
    proof {
        lemma_groups_in_range(gview, view);
    }
    let mut bytes: Vec<u8> = Vec::new();
    bytes.push(79u8);
    bytes.push(87u8);
    bytes.push(76u8);
    bytes.push(73u8);
    bytes.push(86u8);
    bytes.push(69u8);
    bytes.push(49u8);
    bytes.push(10u8);
    bytes.push(LIVE_REPLAY_RECORD_HEADER);
    push_usize_as_u32(&mut bytes, generation, LiveReplayField::Generation)?;
    push_usize_as_u32(&mut bytes, active_player_count, LiveReplayField::ActivePlayerCount)?;
    push_usize_as_u32(&mut bytes, groups.len(), LiveReplayField::CapturedGameCount)?;
    let ghost head = bytes@;
    proof {
        assert(head =~= live_replay_magic() + seq![LIVE_REPLAY_RECORD_HEADER] + le_u32(
            generation as u32,
        ) + le_u32(active_player_count as u32) + le_u32(groups@.len() as u32));
    }
    let mut g: usize = 0;
    while g < groups.len()
        invariant
            g <= groups@.len(),
            gview == groups_view(groups@),
            view == entries_view(entries@),
            is_game_grouping(gview, view),
            forall|a: int, b: int|
                0 <= a < gview.len() && 0 <= b < gview[a].len() ==> #[trigger] gview[a][b]
                    < entries@.len(),
            header_games_error(view, gview, g as int) is None,
            bytes@ == head + header_games_bytes(view, gview, g as int),
            generation <= u32::MAX,
            active_player_count <= u32::MAX,
            gview.len() <= u32::MAX,
            gview.len() > 0,
        decreases groups.len() - g,
    {
        proof {
            assert(gview[g as int] == groups@[g as int]@);
            assert(gview[g as int].len() > 0);
        }
        match push_header_game(&mut bytes, entries, &groups[g]) {
            Ok(()) => {},
            Err(e) => {
                proof {
                    lemma_header_error_extends(view, gview, g + 1, gview.len() as int);
                }
                return Err(e);
            },
        }
        g += 1;
    }
    let ghost after_header = bytes@;
    proof {
        lemma_header_ok(view, gview, gview.len() as int);
    }
    let mut g: usize = 0;
    while g < groups.len()
        invariant
            g <= groups@.len(),
            gview == groups_view(groups@),
            view == entries_view(entries@),
            fview == frames_view(frames@),
            frames@.len() == entries@.len(),
            is_game_grouping(gview, view),
            forall|a: int, b: int|
                0 <= a < gview.len() && 0 <= b < gview[a].len() ==> #[trigger] gview[a][b]
                    < entries@.len(),
            header_games_error(view, gview, gview.len() as int) is None,
            forall|a: int| 0 <= a < gview.len() ==> #[trigger] group_game(view, gview[a]) <= u32::MAX,
            frames_part_error(gview, fview, g as int) is None,
            bytes@ == after_header + frames_part_bytes(view, gview, fview, g as int),
            after_header == head + header_games_bytes(view, gview, gview.len() as int),
            generation <= u32::MAX,
            active_player_count <= u32::MAX,
            gview.len() <= u32::MAX,
            gview.len() > 0,
        decreases groups.len() - g,
    {
        let group = &groups[g];
        let first = group[0];
        proof {
            assert(gview[g as int] == group@);
            assert(gview[g as int].len() > 0);
            assert(fview[first as int] == frames@[first as int]@);
            assert(view[first as int] == entries@[first as int]@);
            assert(group_game(view, gview[g as int]) <= u32::MAX);
        }
        match push_game_frames(&mut bytes, &frames[first], entries[first].game_index) {
            Ok(()) => {},
            Err(e) => {
                proof {
                    lemma_frames_part_error_extends(gview, fview, g + 1, gview.len() as int);
                }
                return Err(e);
            },
        }
        g += 1;
    }
    let ghost after_frames = bytes@;
    let mut g: usize = 0;
    while g < groups.len()
        invariant
            g <= groups@.len(),
            gview == groups_view(groups@),
            view == entries_view(entries@),
            forall|a: int, b: int|
                0 <= a < gview.len() && 0 <= b < gview[a].len() ==> #[trigger] gview[a][b]
                    < entries@.len(),
            forall|a: int| 0 <= a < gview.len() ==> (#[trigger] gview[a]).len() > 0,
            forall|a: int| 0 <= a < gview.len() ==> #[trigger] group_game(view, gview[a]) <= u32::MAX,
            forall|a: int| 0 <= a < gview.len() ==> (#[trigger] gview[a]).len() <= u32::MAX,
            bytes@ == after_frames + results_bytes(view, gview, g as int),
            after_frames == after_header + frames_part_bytes(view, gview, fview, gview.len() as int),
            after_header == head + header_games_bytes(view, gview, gview.len() as int),
            fview == frames_view(frames@),
            is_game_grouping(gview, view),
            header_games_error(view, gview, gview.len() as int) is None,
            frames_part_error(gview, fview, gview.len() as int) is None,
            generation <= u32::MAX,
            active_player_count <= u32::MAX,
            gview.len() <= u32::MAX,
            gview.len() > 0,
        decreases groups.len() - g,
    {
        proof {
            assert(gview[g as int] == groups@[g as int]@);
        }
        push_game_result(&mut bytes, entries, &groups[g]);
        g += 1;
    }
    proof {
        assert(bytes@ =~= compaction_bytes(generation, active_player_count, view, gview, fview));
    }
    Ok(Some(bytes))
}

proof fn lemma_header_ok(entries: Seq<ReplayGameEntryView>, groups: Seq<Seq<usize>>, n: int)
    requires
        0 <= n <= groups.len(),
        header_games_error(entries, groups, n) is None,
    ensures
        forall|a: int| 0 <= a < n ==> #[trigger] group_game(entries, groups[a]) <= u32::MAX,
        forall|a: int| 0 <= a < n ==> (#[trigger] groups[a]).len() <= u32::MAX,
    decreases n,
{
    if n > 0 {
        lemma_header_ok(entries, groups, n - 1);
    }
}

proof fn lemma_groups_in_range(groups: Seq<Seq<usize>>, entries: Seq<ReplayGameEntryView>)
    requires
        is_game_grouping(groups, entries),
    ensures
        forall|a: int, b: int|
            0 <= a < groups.len() && 0 <= b < groups[a].len() ==> #[trigger] groups[a][b]
                < entries.len(),
{
    assert forall|a: int, b: int| 0 <= a < groups.len() && 0 <= b < groups[a].len() implies #[trigger] groups[a][b]
        < entries.len() by {
        lemma_flatten_member(groups, a, b);
        let flat = crate::replay_games::flatten(groups);
        let k = choose|k: int| 0 <= k < flat.len() && flat[k] == groups[a][b];
        assert(flat[k] < entries.len());
    }
}

proof fn lemma_flatten_member(groups: Seq<Seq<usize>>, a: int, b: int)
    requires
        0 <= a < groups.len(),
        0 <= b < groups[a].len(),
    ensures
        flatten_contains(groups, groups[a][b]),
    decreases groups.len(),
{
    let flat = crate::replay_games::flatten(groups);
    if a == groups.len() - 1 {
        let rest = crate::replay_games::flatten(groups.drop_last());
        assert(flat[rest.len() + b] == groups[a][b]);
    } else {
        lemma_flatten_member(groups.drop_last(), a, b);
        let rest = crate::replay_games::flatten(groups.drop_last());
        let k = choose|k: int| 0 <= k < rest.len() && rest[k] == groups[a][b];
        assert(flat[k] == groups[a][b]);
    }
}

pub open spec fn flatten_contains(groups: Seq<Seq<usize>>, value: usize) -> bool {
    exists|k: int|
        0 <= k < crate::replay_games::flatten(groups).len()
            && crate::replay_games::flatten(groups)[k] == value
}

/// The index entry of one participant view.
pub open spec fn participant_item(entry: ReplayGameEntryView) -> Seq<u8> {
    "{\"modelId\":\"M-".spec_bytes() + padded_decimal(entry.model_index as nat, 3)
        + "\",\"opponentId\":\"".spec_bytes() + entry.opponent_label + "\",\"reward\":".spec_bytes()
        + signed_decimal(entry.reward as int) + "}".spec_bytes()
}

/// The index entry of one replayed game: its first view's generation and game index, the
/// public path of its replay file, its frame count and its participants.
pub open spec fn indexed_game_item(
    run_id: Seq<u8>,
    generation: usize,
    entries: Seq<ReplayGameEntryView>,
    group: Seq<usize>,
    frame_count: usize,
) -> Seq<u8> {
    let first = entries[group[0] as int];
    "{\"generation\":".spec_bytes() + decimal_digits(first.generation as nat)
        + ",\"gameIndex\":".spec_bytes() + decimal_digits(first.game_index as nat)
        + ",\"path\":\"".spec_bytes() + game_path(
        "/telemetry/replay_games/".spec_bytes(),
        run_id,
        generation,
        first.game_index,
    ) + "\",\"frameCount\":".spec_bytes() + decimal_digits(frame_count as nat)
        + ",\"participants\":[".spec_bytes() + joined(
        Seq::new(group.len(), |p: int| participant_item(entries[group[p] as int])),
    ) + "]}".spec_bytes()
}

/// The index entries of the games of a grouping that are not empty.
pub open spec fn indexed_game_items(
    run_id: Seq<u8>,
    generation: usize,
    entries: Seq<ReplayGameEntryView>,
    groups: Seq<Seq<usize>>,
    frame_counts: Seq<usize>,
) -> Seq<Seq<u8>>
    decreases groups.len(),
{
    if groups.len() == 0 {
        Seq::empty()
    } else {
        let rest = indexed_game_items(run_id, generation, entries, groups.drop_last(), frame_counts);
        let group = groups.last();
        if group.len() == 0 {
            rest
        } else {
            rest.push(
                indexed_game_item(run_id, generation, entries, group, frame_counts[group[0] as int]),
            )
        }
    }
}

fn push_participant(buffer: &mut Vec<u8>, entry: &ReplayGameEntry)
    ensures
        final(buffer)@ == old(buffer)@ + participant_item(entry@),
{
    proof {
        reveal_strlit("{\"modelId\":\"M-");
        reveal_strlit("\",\"opponentId\":\"");
        reveal_strlit("\",\"reward\":");
        reveal_strlit("}");
    }
    push_literal(buffer, "{\"modelId\":\"M-");
    push_padded_decimal(buffer, entry.model_index, 3);
    push_literal(buffer, "\",\"opponentId\":\"");
    push_bytes(buffer, entry.opponent_label.as_slice());
    push_literal(buffer, "\",\"reward\":");
    push_signed_decimal(buffer, entry.reward as i64);
    push_literal(buffer, "}");
    assert(final(buffer)@ =~= old(buffer)@ + participant_item(entry@));
}

#[verifier::spinoff_prover]
#[verifier::rlimit(30)]
fn push_indexed_game(
    buffer: &mut Vec<u8>,
    run_id: &[u8],
    generation: usize,
    entries: &[ReplayGameEntry],
    group: &Vec<usize>,
    frame_count: usize,
)
    requires
        group@.len() > 0,
        forall|k: int| 0 <= k < group@.len() ==> #[trigger] group@[k] < entries@.len(),
    ensures
        final(buffer)@ == old(buffer)@ + indexed_game_item(
            run_id@,
            generation,
            entries_view(entries@),
            group@,
            frame_count,
        ),
{
    let ghost view = entries_view(entries@);
    let ghost start = old(buffer)@;
    proof {
        reveal_strlit("{\"generation\":");
        reveal_strlit(",\"gameIndex\":");
        reveal_strlit(",\"path\":\"");
        reveal_strlit("\",\"frameCount\":");
        reveal_strlit(",\"participants\":[");
        reveal_strlit("]}");
    }
    let first = &entries[group[0]];
    proof {
        assert(view[group@[0] as int] == first@);
    }
    push_literal(buffer, "{\"generation\":");
    push_decimal(buffer, first.generation);
    push_literal(buffer, ",\"gameIndex\":");
    push_decimal(buffer, first.game_index);
    push_literal(buffer, ",\"path\":\"");
    let path = replay_game_public_path(run_id, generation, first.game_index);
    push_bytes(buffer, path.as_slice());
    push_literal(buffer, "\",\"frameCount\":");
    push_decimal(buffer, frame_count);
    push_literal(buffer, ",\"participants\":[");
    let ghost head = buffer@;
    let ghost items = Seq::new(group@.len(), |p: int| participant_item(view[group@[p] as int]));
    let mut p: usize = 0;
    while p < group.len()
        invariant
            p <= group@.len(),
            view == entries_view(entries@),
            forall|k: int| 0 <= k < group@.len() ==> #[trigger] group@[k] < entries@.len(),
            items == Seq::new(group@.len(), |q: int| participant_item(view[group@[q] as int])),
            buffer@ == head + joined(items.take(p as int)),
        decreases group.len() - p,
    {
        if p > 0 {
            buffer.push(44u8);
        }
        let participant = &entries[group[p]];
        proof {
            assert(view[group@[p as int] as int] == participant@);
        }
        push_participant(buffer, participant);
        proof {
            assert(items.take(p + 1).drop_last() =~= items.take(p as int));
            if p == 0 {
                assert(items.take(1) =~= seq![items[0]]);
            }
        }
        p += 1;
    }
    proof {
        assert(items.take(group@.len() as int) =~= items);
    }
    push_literal(buffer, "]}");
    proof {
        assert(buffer@ =~= start + indexed_game_item(run_id@, generation, view, group@, frame_count));
    }
}

/// The `games` list of an indexed replay chunk: for each game of the grouping, its first
/// view's generation and game index, the public path of its replay file, its frame count
/// (`frame_counts` has one per view) and its participants. Empty groups are skipped.
pub fn indexed_replay_games_json(
    run_id: &[u8],
    generation: usize,
    entries: &[ReplayGameEntry],
    groups: &[Vec<usize>],
    frame_counts: &[usize],
) -> (json: Vec<u8>)
    requires
        frame_counts@.len() == entries@.len(),
        forall|a: int, b: int|
            0 <= a < groups@.len() && 0 <= b < groups@[a]@.len() ==> #[trigger] groups@[a]@[b]
                < entries@.len(),
    ensures
        json@ == joined(
            indexed_game_items(
                run_id@,
                generation,
                entries_view(entries@),
                groups_view(groups@),
                frame_counts@,
            ),
        ),
{
    let ghost view = entries_view(entries@);
    let ghost gview = groups_view(groups@);
    let mut json: Vec<u8> = Vec::new();
    let mut g: usize = 0;
    let mut written: usize = 0;
    proof {
        assert(gview.take(0) =~= Seq::<Seq<usize>>::empty());
    }
    while g < groups.len()
        invariant
            g <= groups@.len(),
            view == entries_view(entries@),
            gview == groups_view(groups@),
            frame_counts@.len() == entries@.len(),
            forall|a: int, b: int|
                0 <= a < groups@.len() && 0 <= b < groups@[a]@.len() ==> #[trigger] groups@[a]@[b]
                    < entries@.len(),
            written == indexed_game_items(run_id@, generation, view, gview.take(g as int), frame_counts@).len(),
            json@ == joined(indexed_game_items(run_id@, generation, view, gview.take(g as int), frame_counts@)),
            written <= g,
        decreases groups.len() - g,
    {
        let group = &groups[g];
        let ghost before = indexed_game_items(run_id@, generation, view, gview.take(g as int), frame_counts@);
        proof {
            assert(gview.take(g + 1).drop_last() =~= gview.take(g as int));
            assert(gview[g as int] == group@);
            assert(gview.take(g + 1).last() == group@);
        }
        if group.len() > 0 {
            if written > 0 {
                json.push(44u8);
            }
            let count = frame_counts[group[0]];
            push_indexed_game(&mut json, run_id, generation, entries, group, count);
            proof {
                let item = indexed_game_item(run_id@, generation, view, group@, count);
                assert(indexed_game_items(run_id@, generation, view, gview.take(g + 1), frame_counts@)
                    == before.push(item));
                assert(before.push(item).drop_last() =~= before);
                if written == 0 {
                    assert(json@ =~= item);
                }
            }
            written += 1;
        }
        g += 1;
    }
    proof {
        assert(gview.take(gview.len() as int) =~= gview);
    }
    json
}

/// The text of an indexed replay chunk: the generation, how many games and replayed views
/// it holds, and the index entries of its games.
pub open spec fn indexed_chunk_text(
    run_id: Seq<u8>,
    generation: usize,
    entries: Seq<ReplayGameEntryView>,
    groups: Seq<Seq<usize>>,
    frame_counts: Seq<usize>,
) -> Seq<u8> {
    "{\n  \"generation\": ".spec_bytes() + decimal_digits(generation as nat)
        + ",\n  \"format\": \"indexed_replay_v1\",\n  \"actualGameCount\": ".spec_bytes()
        + decimal_digits(groups.len()) + ",\n  \"gameCount\": ".spec_bytes()
        + decimal_digits(entries.len()) + ",\n  \"games\": [".spec_bytes() + joined(
        indexed_game_items(run_id, generation, entries, groups, frame_counts),
    ) + "]\n}\n".spec_bytes()
}

fn push_indexed_chunk(
    run_id: &[u8],
    generation: usize,
    entries: &[ReplayGameEntry],
    groups: &[Vec<usize>],
    frame_counts: &[usize],
) -> (chunk: Vec<u8>)
    requires
        frame_counts@.len() == entries@.len(),
        forall|a: int, b: int|
            0 <= a < groups@.len() && 0 <= b < groups@[a]@.len() ==> #[trigger] groups@[a]@[b]
                < entries@.len(),
    ensures
        chunk@ == indexed_chunk_text(
            run_id@,
            generation,
            entries_view(entries@),
            groups_view(groups@),
            frame_counts@,
        ),
{
    proof {
        reveal_strlit("{\n  \"generation\": ");
        reveal_strlit(",\n  \"format\": \"indexed_replay_v1\",\n  \"actualGameCount\": ");
        reveal_strlit(",\n  \"gameCount\": ");
        reveal_strlit(",\n  \"games\": [");
        reveal_strlit("]\n}\n");
    }
    let games = indexed_replay_games_json(run_id, generation, entries, groups, frame_counts);
    let mut chunk: Vec<u8> = Vec::new();
    push_literal(&mut chunk, "{\n  \"generation\": ");
    push_decimal(&mut chunk, generation);
    push_literal(&mut chunk, ",\n  \"format\": \"indexed_replay_v1\",\n  \"actualGameCount\": ");
    push_decimal(&mut chunk, groups.len());
    push_literal(&mut chunk, ",\n  \"gameCount\": ");
    push_decimal(&mut chunk, entries.len());
    push_literal(&mut chunk, ",\n  \"games\": [");
    push_bytes(&mut chunk, games.as_slice());
    push_literal(&mut chunk, "]\n}\n");
    proof {
        let head = "{\n  \"generation\": ".spec_bytes() + decimal_digits(generation as nat)
            + ",\n  \"format\": \"indexed_replay_v1\",\n  \"actualGameCount\": ".spec_bytes()
            + decimal_digits(groups@.len() as nat) + ",\n  \"gameCount\": ".spec_bytes()
            + decimal_digits(entries@.len() as nat) + ",\n  \"games\": [".spec_bytes();
        assert(chunk@ =~= head + games@ + "]\n}\n".spec_bytes());
        assert(groups_view(groups@).len() == groups@.len());
        assert(entries_view(entries@).len() == entries@.len());
    }
    chunk
}

/// The text of a generation's replay chunk with no replayed view: an empty game list.
pub open spec fn empty_chunk_text(generation: usize) -> Seq<u8> {
    "{\n  \"generation\": ".spec_bytes() + decimal_digits(generation as nat)
        + ",\n  \"format\": \"compact_replay_v2\",\n  \"games\": []\n}\n".spec_bytes()
}

/// The replay chunk of a generation: its replayed views grouped by game and indexed,
/// or, when there is no view, an empty game list. `frame_counts` has one count per view.
pub fn replay_chunk_json(
    run_id: &[u8],
    generation: usize,
    entries: &[ReplayGameEntry],
    frame_counts: &[usize],
) -> (chunk: Vec<u8>)
    requires
        frame_counts@.len() == entries@.len(),
    ensures
        exists|groups: Seq<Seq<usize>>|
            #[trigger] is_game_grouping(groups, entries_view(entries@)) && if groups.len() == 0 {
                chunk@ == empty_chunk_text(generation)
            } else {
                chunk@ == indexed_chunk_text(
                    run_id@,
                    generation,
                    entries_view(entries@),
                    groups,
                    frame_counts@,
                )
            },
{
    let ghost view = entries_view(entries@);
    let groups = replay_actual_games(entries);
    let ghost gview = groups_view(groups@);
    if groups.len() == 0 {
        proof {
            reveal_strlit("{\n  \"generation\": ");
            reveal_strlit(",\n  \"format\": \"compact_replay_v2\",\n  \"games\": []\n}\n");
        }
        let mut chunk: Vec<u8> = Vec::new();
        push_literal(&mut chunk, "{\n  \"generation\": ");
        push_decimal(&mut chunk, generation);
        push_literal(&mut chunk, ",\n  \"format\": \"compact_replay_v2\",\n  \"games\": []\n}\n");
        return chunk;
    }
    proof {
        lemma_groups_in_range(gview, view);
        assert forall|a: int, b: int|
            0 <= a < groups@.len() && 0 <= b < groups@[a]@.len() implies #[trigger] groups@[a]@[b]
                < entries@.len() by {
            assert(gview[a] == groups@[a]@);
        }
    }
    push_indexed_chunk(run_id, generation, entries, groups.as_slice(), frame_counts)
}

} // verus!
