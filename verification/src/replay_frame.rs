//! The frame records of the live replay file: one snapshot of a game's board. Positions,
//! radii and ship counts are 32-bit floats; they are carried here as their bit patterns
//! and written as such, little-endian like every other number of the file.
use vstd::prelude::*;

use crate::live_replay::{
    le_i32, le_u32, push_i32, push_isize_as_i32, push_usize_as_u32, LiveReplayError,
    LiveReplayField, LIVE_REPLAY_RECORD_FRAME,
};

verus! {

/// A planet of a frame; the float fields are bit patterns.
#[derive(Clone, Copy, Debug, PartialEq, Eq, Structural)]
pub struct FramePlanet {
    pub id: i32,
    pub owner: i32,
    pub x: u32,
    pub y: u32,
    pub radius: u32,
    pub ships: u32,
    pub production: u32,
}

/// A fleet of a frame; the float fields are bit patterns.
#[derive(Clone, Copy, Debug, PartialEq, Eq, Structural)]
pub struct FrameFleet {
    pub id: i32,
    pub owner: i32,
    pub x: u32,
    pub y: u32,
    pub angle: u32,
    pub ships: u32,
}

/// An active comet group of a frame: its planets, their paths as bit-pattern points, and
/// how far along the paths the comets are.
#[derive(Clone, Debug)]
pub struct FrameCometGroup {
    pub planet_ids: Vec<i32>,
    pub paths: Vec<Vec<(u32, u32)>>,
    pub path_index: isize,
}

/// A snapshot of a game at `step`.
#[derive(Clone, Debug)]
pub struct ReplayFrameBits {
    pub step: usize,
    pub planets: Vec<FramePlanet>,
    pub fleets: Vec<FrameFleet>,
    pub comet_groups: Vec<FrameCometGroup>,
}

pub struct CometGroupView {
    pub planet_ids: Seq<i32>,
    pub paths: Seq<Seq<(u32, u32)>>,
    pub path_index: isize,
}

impl View for FrameCometGroup {
    type V = CometGroupView;

    open spec fn view(&self) -> CometGroupView {
        CometGroupView {
            planet_ids: self.planet_ids@,
            paths: self.paths@.map_values(|path: Vec<(u32, u32)>| path@),
            path_index: self.path_index,
        }
    }
}

pub open spec fn groups_view(groups: Seq<FrameCometGroup>) -> Seq<CometGroupView> {
    groups.map_values(|group: FrameCometGroup| group@)
}

pub open spec fn planet_bytes(planet: FramePlanet) -> Seq<u8> {
    le_i32(planet.id) + le_i32(planet.owner) + le_u32(planet.x) + le_u32(planet.y) + le_u32(
        planet.radius,
    ) + le_u32(planet.ships) + le_u32(planet.production)
}

pub open spec fn fleet_bytes(fleet: FrameFleet) -> Seq<u8> {
    le_i32(fleet.id) + le_i32(fleet.owner) + le_u32(fleet.x) + le_u32(fleet.y) + le_u32(
        fleet.angle,
    ) + le_u32(fleet.ships)
}

pub open spec fn planets_bytes(planets: Seq<FramePlanet>) -> Seq<u8>
    decreases planets.len(),
{
    if planets.len() == 0 {
        Seq::empty()
    } else {
        planets_bytes(planets.drop_last()) + planet_bytes(planets.last())
    }
}

pub open spec fn fleets_bytes(fleets: Seq<FrameFleet>) -> Seq<u8>
    decreases fleets.len(),
{
    if fleets.len() == 0 {
        Seq::empty()
    } else {
        fleets_bytes(fleets.drop_last()) + fleet_bytes(fleets.last())
    }
}

pub open spec fn ids_bytes(ids: Seq<i32>) -> Seq<u8>
    decreases ids.len(),
{
    if ids.len() == 0 {
        Seq::empty()
    } else {
        ids_bytes(ids.drop_last()) + le_i32(ids.last())
    }
}

pub open spec fn points_bytes(points: Seq<(u32, u32)>) -> Seq<u8>
    decreases points.len(),
{
    if points.len() == 0 {
        Seq::empty()
    } else {
        points_bytes(points.drop_last()) + le_u32(points.last().0) + le_u32(points.last().1)
    }
}

/// The paths of a comet group, each as its point count and its points.
pub open spec fn paths_bytes(paths: Seq<Seq<(u32, u32)>>) -> Seq<u8>
    decreases paths.len(),
{
    if paths.len() == 0 {
        Seq::empty()
    } else {
        paths_bytes(paths.drop_last()) + le_u32(paths.last().len() as u32) + points_bytes(
            paths.last(),
        )
    }
}

pub open spec fn group_bytes(group: CometGroupView) -> Seq<u8> {
    le_u32(group.planet_ids.len() as u32) + ids_bytes(group.planet_ids) + le_u32(
        group.paths.len() as u32,
    ) + paths_bytes(group.paths) + le_i32(group.path_index as i32)
}

pub open spec fn groups_bytes(groups: Seq<CometGroupView>) -> Seq<u8>
    decreases groups.len(),
{
    if groups.len() == 0 {
        Seq::empty()
    } else {
        groups_bytes(groups.drop_last()) + group_bytes(groups.last())
    }
}

/// The bytes of a frame.
pub open spec fn frame_bytes(frame: ReplayFrameBits) -> Seq<u8> {
    le_u32(frame.step as u32) + le_u32(frame.planets@.len() as u32) + planets_bytes(
        frame.planets@,
    ) + le_u32(frame.fleets@.len() as u32) + fleets_bytes(frame.fleets@) + le_u32(
        frame.comet_groups@.len() as u32,
    ) + groups_bytes(groups_view(frame.comet_groups@))
}

/// The first field of the paths that does not fit: a point count beyond `u32`.
pub open spec fn paths_overflow(paths: Seq<Seq<(u32, u32)>>) -> bool {
    exists|k: int| 0 <= k < paths.len() && #[trigger] paths[k].len() > u32::MAX
}

/// The first field of a comet group that does not fit its encoding, if any.
pub open spec fn group_error(group: CometGroupView) -> Option<LiveReplayField> {
    if group.planet_ids.len() > u32::MAX {
        Some(LiveReplayField::CometPlanetCount)
    } else if group.paths.len() > u32::MAX {
        Some(LiveReplayField::CometPathCount)
    } else if paths_overflow(group.paths) {
        Some(LiveReplayField::CometPathPointCount)
    } else if !(i32::MIN <= group.path_index <= i32::MAX) {
        Some(LiveReplayField::CometPathIndex)
    } else {
        None
    }
}

/// The first field of the comet groups, in order, that does not fit, if any.
pub open spec fn groups_error(groups: Seq<CometGroupView>) -> Option<LiveReplayField>
    decreases groups.len(),
{
    if groups.len() == 0 {
        None
    } else {
        match groups_error(groups.drop_last()) {
            Some(field) => Some(field),
            None => group_error(groups.last()),
        }
    }
}

/// The first field of a frame that does not fit its encoding, if any.
pub open spec fn frame_error(frame: ReplayFrameBits) -> Option<LiveReplayField> {
    if frame.step > u32::MAX {
        Some(LiveReplayField::FrameStep)
    } else if frame.planets@.len() > u32::MAX {
        Some(LiveReplayField::PlanetCount)
    } else if frame.fleets@.len() > u32::MAX {
        Some(LiveReplayField::FleetCount)
    } else if frame.comet_groups@.len() > u32::MAX {
        Some(LiveReplayField::CometGroupCount)
    } else {
        groups_error(groups_view(frame.comet_groups@))
    }
}

/// The bytes of the paths written before the first path with too many points.
pub open spec fn paths_written(paths: Seq<Seq<(u32, u32)>>) -> Seq<u8>
    decreases paths.len(),
{
    if paths.len() == 0 {
        Seq::empty()
    } else if paths_overflow(paths.drop_last()) {
        paths_written(paths.drop_last())
    } else if paths.last().len() > u32::MAX {
        paths_bytes(paths.drop_last())
    } else {
        paths_bytes(paths)
    }
}

/// The bytes of a comet group written before its first field that does not fit.
pub open spec fn group_written(group: CometGroupView) -> Seq<u8> {
    let ids = le_u32(group.planet_ids.len() as u32) + ids_bytes(group.planet_ids);
    if group.planet_ids.len() > u32::MAX {
        Seq::empty()
    } else if group.paths.len() > u32::MAX {
        ids
    } else if paths_overflow(group.paths) {
        ids + le_u32(group.paths.len() as u32) + paths_written(group.paths)
    } else if !(i32::MIN <= group.path_index <= i32::MAX) {
        ids + le_u32(group.paths.len() as u32) + paths_bytes(group.paths)
    } else {
        group_bytes(group)
    }
}

/// The bytes of the comet groups written before the first field that does not fit.
pub open spec fn groups_written(groups: Seq<CometGroupView>) -> Seq<u8>
    decreases groups.len(),
{
    if groups.len() == 0 {
        Seq::empty()
    } else if groups_error(groups.drop_last()) is Some {
        groups_written(groups.drop_last())
    } else {
        groups_bytes(groups.drop_last()) + group_written(groups.last())
    }
}

/// The bytes of a frame written before its first field that does not fit.
pub open spec fn frame_written(frame: ReplayFrameBits) -> Seq<u8> {
    let step = le_u32(frame.step as u32);
    let planets = step + le_u32(frame.planets@.len() as u32) + planets_bytes(frame.planets@);
    let fleets = planets + le_u32(frame.fleets@.len() as u32) + fleets_bytes(frame.fleets@);
    if frame.step > u32::MAX {
        Seq::empty()
    } else if frame.planets@.len() > u32::MAX {
        step
    } else if frame.fleets@.len() > u32::MAX {
        planets
    } else if frame.comet_groups@.len() > u32::MAX {
        fleets
    } else {
        frame_head(frame) + groups_written(groups_view(frame.comet_groups@))
    }
}

/// The bytes of a frame before its comet groups.
pub open spec fn frame_head(frame: ReplayFrameBits) -> Seq<u8> {
    le_u32(frame.step as u32) + le_u32(frame.planets@.len() as u32) + planets_bytes(frame.planets@)
        + le_u32(frame.fleets@.len() as u32) + fleets_bytes(frame.fleets@) + le_u32(
        frame.comet_groups@.len() as u32,
    )
}

proof fn lemma_paths_written_at(paths: Seq<Seq<(u32, u32)>>, i: int, n: int)
    requires
        0 <= i < n <= paths.len(),
        forall|k: int| 0 <= k < i ==> #[trigger] paths[k].len() <= u32::MAX,
        paths[i].len() > u32::MAX,
    ensures
        paths_written(paths.take(n)) == paths_bytes(paths.take(i)),
    decreases n,
{
    let t = paths.take(n);
    assert(t.drop_last() =~= paths.take(n - 1));
    if n == i + 1 {
        assert(!paths_overflow(paths.take(i)));
        assert(paths.take(n - 1) =~= paths.take(i));
    } else {
        lemma_paths_written_at(paths, i, n - 1);
        assert(paths.take(n - 1)[i] == paths[i]);
        assert(paths_overflow(paths.take(n - 1)));
    }
}

proof fn lemma_groups_written_at(groups: Seq<CometGroupView>, i: int, n: int)
    requires
        0 <= i < n <= groups.len(),
        groups_error(groups.take(i)) is None,
        group_error(groups[i]) is Some,
    ensures
        groups_written(groups.take(n)) == groups_bytes(groups.take(i)) + group_written(groups[i]),
        groups_error(groups.take(n)) is Some,
    decreases n,
{
    let t = groups.take(n);
    assert(t.drop_last() =~= groups.take(n - 1));
    if n == i + 1 {
        assert(groups.take(n - 1) =~= groups.take(i));
    } else {
        lemma_groups_written_at(groups, i, n - 1);
    }
}

proof fn lemma_groups_error_extends(groups: Seq<CometGroupView>, k: int, n: int)
    requires
        0 <= k <= n <= groups.len(),
        groups_error(groups.take(k)) is Some,
    ensures
        groups_error(groups.take(n)) == groups_error(groups.take(k)),
    decreases n - k,
{
    if n > k {
        lemma_groups_error_extends(groups, k, n - 1);
        assert(groups.take(n).drop_last() =~= groups.take(n - 1));
    }
}

fn push_points(buffer: &mut Vec<u8>, points: &Vec<(u32, u32)>)
    ensures
        final(buffer)@ == old(buffer)@ + points_bytes(points@),
{
    let ghost start = buffer@;
    let mut i: usize = 0;
    while i < points.len()
        invariant
            i <= points.len(),
            buffer@ == start + points_bytes(points@.take(i as int)),
        decreases points.len() - i,
    {
        let (x, y) = points[i];
        push_bits(buffer, x);
        push_bits(buffer, y);
        proof {
            assert(points@.take(i + 1).drop_last() =~= points@.take(i as int));
            assert(buffer@ =~= start + points_bytes(points@.take(i + 1)));
        }
        i += 1;
    }
    proof {
        assert(points@.take(points@.len() as int) =~= points@);
    }
}

/// Appends a 32-bit pattern, as `f32::to_le_bytes` writes the float it holds.
fn push_bits(buffer: &mut Vec<u8>, bits: u32)
    ensures
        final(buffer)@ == old(buffer)@ + le_u32(bits),
{
    let mut encoded = vstd::bytes::u32_to_le_bytes(bits);
    buffer.append(&mut encoded);
}

/// Appends the paths of a comet group; refuses a path with more points than a `u32` holds.
fn push_paths(buffer: &mut Vec<u8>, paths: &Vec<Vec<(u32, u32)>>) -> (result: Result<(), LiveReplayError>)
    ensures
        ({
            let view = paths@.map_values(|path: Vec<(u32, u32)>| path@);
            match result {
                Ok(()) => !paths_overflow(view) && final(buffer)@ == old(buffer)@ + paths_bytes(view),
                Err(e) => paths_overflow(view) && e == LiveReplayError::Overflow(
                    LiveReplayField::CometPathPointCount,
                ) && final(buffer)@ == old(buffer)@ + paths_written(view),
            }
        }),
{
    let ghost view = paths@.map_values(|path: Vec<(u32, u32)>| path@);
    let ghost start = buffer@;
    let mut i: usize = 0;
    while i < paths.len()
        invariant
            i <= paths.len(),
            view == paths@.map_values(|path: Vec<(u32, u32)>| path@),
            start == old(buffer)@,
            buffer@ == start + paths_bytes(view.take(i as int)),
            forall|k: int| 0 <= k < i ==> #[trigger] view[k].len() <= u32::MAX,
        decreases paths.len() - i,
    {
        let path = &paths[i];
        proof {
            assert(view[i as int] == path@);
        }
        if path.len() > 0xffff_ffff {
            proof {
                assert(view[i as int].len() > u32::MAX);
                lemma_paths_written_at(view, i as int, view.len() as int);
                assert(view.take(view.len() as int) =~= view);
            }
            return Err(LiveReplayError::Overflow(LiveReplayField::CometPathPointCount));
        }
        push_usize_as_u32(buffer, path.len(), LiveReplayField::CometPathPointCount)?;
        push_points(buffer, path);
        proof {
            assert(view.take(i + 1).drop_last() =~= view.take(i as int));
            assert(buffer@ =~= start + paths_bytes(view.take(i + 1)));
        }
        i += 1;
    }
    proof {
        assert(view.take(view.len() as int) =~= view);
    }
    Ok(())
}

fn push_group(buffer: &mut Vec<u8>, group: &FrameCometGroup) -> (result: Result<(), LiveReplayError>)
    ensures
        match group_error(group@) {
            Some(field) => result == Err::<(), LiveReplayError>(LiveReplayError::Overflow(field))
                && final(buffer)@ == old(buffer)@ + group_written(group@),
            None => result is Ok && final(buffer)@ == old(buffer)@ + group_bytes(group@),
        },
{
    let ghost start = buffer@;
    push_usize_as_u32(buffer, group.planet_ids.len(), LiveReplayField::CometPlanetCount)?;
    let mut i: usize = 0;
    let ghost counted = buffer@;
    while i < group.planet_ids.len()
        invariant
            i <= group.planet_ids.len(),
            buffer@ == counted + ids_bytes(group.planet_ids@.take(i as int)),
        decreases group.planet_ids.len() - i,
    {
        push_i32(buffer, group.planet_ids[i]);
        proof {
            assert(group.planet_ids@.take(i + 1).drop_last() =~= group.planet_ids@.take(i as int));
        }
        i += 1;
    }
    proof {
        assert(group.planet_ids@.take(group.planet_ids@.len() as int) =~= group.planet_ids@);
    }
    push_usize_as_u32(buffer, group.paths.len(), LiveReplayField::CometPathCount)?;
    proof {
        assert(group@.paths.len() == group.paths@.len());
    }
    let ghost before_paths = buffer@;
    push_paths(buffer, &group.paths)?;
    proof {
        assert(buffer@ =~= start + le_u32(group@.planet_ids.len() as u32) + ids_bytes(
            group@.planet_ids,
        ) + le_u32(group@.paths.len() as u32) + paths_bytes(group@.paths));
    }
    push_isize_as_i32(buffer, group.path_index, LiveReplayField::CometPathIndex)?;
    proof {
        assert(buffer@ =~= start + group_bytes(group@));
    }
    Ok(())
}

/// Appends a frame; refuses one with a count or index that does not fit its field,
/// naming the first such field.
pub fn push_replay_frame_binary(buffer: &mut Vec<u8>, frame: &ReplayFrameBits) -> (result: Result<
    (),
    LiveReplayError,
>)
    ensures
        match frame_error(*frame) {
            Some(field) => result == Err::<(), LiveReplayError>(LiveReplayError::Overflow(field))
                && final(buffer)@ == old(buffer)@ + frame_written(*frame),
            None => result is Ok && final(buffer)@ == old(buffer)@ + frame_bytes(*frame),
        },
{
    let ghost start = buffer@;
    push_usize_as_u32(buffer, frame.step, LiveReplayField::FrameStep)?;
    push_usize_as_u32(buffer, frame.planets.len(), LiveReplayField::PlanetCount)?;
    let ghost after_planet_count = buffer@;
    let mut i: usize = 0;
    while i < frame.planets.len()
        invariant
            i <= frame.planets.len(),
            buffer@ == after_planet_count + planets_bytes(frame.planets@.take(i as int)),
        decreases frame.planets.len() - i,
    {
        let planet = frame.planets[i];
        push_i32(buffer, planet.id);
        push_i32(buffer, planet.owner);
        push_bits(buffer, planet.x);
        push_bits(buffer, planet.y);
        push_bits(buffer, planet.radius);
        push_bits(buffer, planet.ships);
        push_bits(buffer, planet.production);
        proof {
            assert(frame.planets@.take(i + 1).drop_last() =~= frame.planets@.take(i as int));
            assert(buffer@ =~= after_planet_count + planets_bytes(frame.planets@.take(i + 1)));
        }
        i += 1;
    }
    proof {
        assert(frame.planets@.take(frame.planets@.len() as int) =~= frame.planets@);
    }
    if frame.fleets.len() > 0xffff_ffff {
        return Err(LiveReplayError::Overflow(LiveReplayField::FleetCount));
    }
    push_usize_as_u32(buffer, frame.fleets.len(), LiveReplayField::FleetCount)?;
    let ghost after_fleet_count = buffer@;
    let mut j: usize = 0;
    while j < frame.fleets.len()
        invariant
            j <= frame.fleets.len(),
            buffer@ == after_fleet_count + fleets_bytes(frame.fleets@.take(j as int)),
        decreases frame.fleets.len() - j,
    {
        let fleet = frame.fleets[j];
        push_i32(buffer, fleet.id);
        push_i32(buffer, fleet.owner);
        push_bits(buffer, fleet.x);
        push_bits(buffer, fleet.y);
        push_bits(buffer, fleet.angle);
        push_bits(buffer, fleet.ships);
        proof {
            assert(frame.fleets@.take(j + 1).drop_last() =~= frame.fleets@.take(j as int));
            assert(buffer@ =~= after_fleet_count + fleets_bytes(frame.fleets@.take(j + 1)));
        }
        j += 1;
    }
    proof {
        assert(frame.fleets@.take(frame.fleets@.len() as int) =~= frame.fleets@);
    }
    if frame.comet_groups.len() > 0xffff_ffff {
        return Err(LiveReplayError::Overflow(LiveReplayField::CometGroupCount));
    }
    push_usize_as_u32(buffer, frame.comet_groups.len(), LiveReplayField::CometGroupCount)?;
    let ghost after_group_count = buffer@;
    let ghost groups = groups_view(frame.comet_groups@);
    proof {
        assert(after_group_count =~= start + frame_head(*frame));
    }
    let mut k: usize = 0;
    while k < frame.comet_groups.len()
        invariant
            k <= frame.comet_groups.len(),
            groups == groups_view(frame.comet_groups@),
            frame.step <= u32::MAX,
            frame.planets@.len() <= u32::MAX,
            frame.fleets@.len() <= u32::MAX,
            frame.comet_groups@.len() <= u32::MAX,
            groups_error(groups.take(k as int)) is None,
            after_group_count == start + frame_head(*frame),
            start == old(buffer)@,
            buffer@ == after_group_count + groups_bytes(groups.take(k as int)),
        decreases frame.comet_groups.len() - k,
    {
        proof {
            assert(groups.take(k + 1).drop_last() =~= groups.take(k as int));
            assert(groups[k as int] == frame.comet_groups@[k as int]@);
        }
        match push_group(buffer, &frame.comet_groups[k]) {
            Ok(()) => {},
            Err(e) => {
                proof {
                    assert(groups.take(k + 1).last() == groups[k as int]);
                    assert(groups_error(groups.take(k + 1)) == group_error(groups[k as int]));
                    lemma_groups_error_extends(groups, k + 1, groups.len() as int);
                    lemma_groups_written_at(groups, k as int, groups.len() as int);
                    assert(groups.take(groups.len() as int) =~= groups);
                    assert(groups.take(k as int + 1).drop_last() =~= groups.take(k as int));
                    assert(buffer@ =~= start + frame_written(*frame));
                }
                return Err(e);
            },
        }
        proof {
            assert(buffer@ =~= after_group_count + groups_bytes(groups.take(k + 1)));
        }
        k += 1;
    }
    proof {
        assert(groups.take(groups.len() as int) =~= groups);
        assert(buffer@ =~= start + frame_bytes(*frame));
    }
    Ok(())
}

/// The frame record of a frame of captured game `game_index`.
pub open spec fn frame_record(game_index: usize, frame: ReplayFrameBits) -> Seq<u8> {
    seq![LIVE_REPLAY_RECORD_FRAME] + le_u32(game_index as u32) + frame_bytes(frame)
}

/// The bytes appended to the live replay for a frame of game `game_index`, one of the
/// `game_count` captured games.
pub fn live_replay_frame_record(game_index: usize, game_count: usize, frame: &ReplayFrameBits) -> (record:
    Result<Vec<u8>, LiveReplayError>)
    ensures
        game_index >= game_count ==> record == Err::<Vec<u8>, LiveReplayError>(
            LiveReplayError::GameIndexOutOfRange(game_index),
        ),
        game_index < game_count && game_index > u32::MAX ==> record == Err::<Vec<u8>, LiveReplayError>(
            LiveReplayError::Overflow(LiveReplayField::FrameGame),
        ),
        game_index < game_count && game_index <= u32::MAX ==> match frame_error(*frame) {
            Some(field) => record == Err::<Vec<u8>, LiveReplayError>(
                LiveReplayError::Overflow(field),
            ),
            None => record is Ok && record->Ok_0@ == frame_record(game_index, *frame),
        },
{
    if game_index >= game_count {
        return Err(LiveReplayError::GameIndexOutOfRange(game_index));
    }
    let mut bytes: Vec<u8> = Vec::new();
    bytes.push(LIVE_REPLAY_RECORD_FRAME);
    push_usize_as_u32(&mut bytes, game_index, LiveReplayField::FrameGame)?;
    push_replay_frame_binary(&mut bytes, frame)?;
    proof {
        assert(bytes@ =~= frame_record(game_index, *frame));
    }
    Ok(bytes)
}

} // verus!
