//! Scoring a population after its games: each model's total reward over the seats it
//! played, and the ranking by total reward.
use vstd::prelude::*;

use crate::gameplay::{gameplay_sum, reward_as_gameplay, GameplayStats};
use crate::rewards::RewardValues;
use crate::schedule::GameAssignment;

verus! {

/// The seats of the first `games` games, in order: the model in each seat and the reward
/// that seat received.
pub open spec fn seat_results<T>(
    assignments: Seq<GameAssignment>,
    rewards: Seq<[T; 4]>,
    active_player_count: int,
    games: int,
) -> Seq<(usize, T)>
    decreases games,
{
    if games <= 0 {
        Seq::empty()
    } else {
        seat_results(assignments, rewards, active_player_count, games - 1) + Seq::new(
            active_player_count as nat,
            |slot: int|
                (assignments[games - 1].model_indices@[slot], rewards[games - 1]@[slot]),
        )
    }
}

/// The games that have both a seating and a result.
pub open spec fn played_games<T>(assignments: Seq<GameAssignment>, rewards: Seq<[T; 4]>) -> int {
    if assignments.len() < rewards.len() {
        assignments.len() as int
    } else {
        rewards.len() as int
    }
}

/// The total reward of `model` over `seats`.
pub open spec fn reward_total(seats: Seq<(usize, i32)>, model: int) -> int
    decreases seats.len(),
{
    if seats.len() == 0 {
        0
    } else {
        reward_total(seats.drop_last(), model) + if seats.last().0 == model {
            seats.last().1 as int
        } else {
            0
        }
    }
}

/// Every seat holds one of the `model_count` models, and every model's running total fits
/// an `i32`.
pub open spec fn seats_in_range(seats: Seq<(usize, i32)>, model_count: int) -> bool {
    &&& forall|k: int| 0 <= k < seats.len() ==> #[trigger] seats[k].0 < model_count
    &&& forall|k: int, model: int|
        0 <= k <= seats.len() && 0 <= model < model_count ==> i32::MIN <= #[trigger] reward_total(
            seats.take(k),
            model,
        ) <= i32::MAX
}

/// Each model's total reward over the games that were played: the seats of each game,
/// up to `active_player_count`, credit the seat's model with the seat's reward.
pub fn model_reward_totals(
    model_count: usize,
    assignments: &[GameAssignment],
    rewards: &[[i32; 4]],
    active_player_count: usize,
) -> (totals: Vec<i32>)
    requires
        active_player_count <= 4,
        seats_in_range(
            seat_results(
                assignments@,
                rewards@,
                active_player_count as int,
                played_games(assignments@, rewards@),
            ),
            model_count as int,
        ),
    ensures
        totals@.len() == model_count,
        forall|model: int|
            0 <= model < model_count ==> #[trigger] totals@[model] == reward_total(
                seat_results(
                    assignments@,
                    rewards@,
                    active_player_count as int,
                    played_games(assignments@, rewards@),
                ),
                model,
            ),
{
    let ghost all = seat_results(
        assignments@,
        rewards@,
        active_player_count as int,
        played_games(assignments@, rewards@),
    );
    let games = if assignments.len() < rewards.len() {
        assignments.len()
    } else {
        rewards.len()
    };
    let mut totals: Vec<i32> = Vec::new();
    let mut m: usize = 0;
    while m < model_count
        invariant
            m <= model_count,
            totals@.len() == m,
            forall|j: int| 0 <= j < m ==> #[trigger] totals@[j] == 0,
        decreases model_count - m,
    {
        totals.push(0);
        m += 1;
    }
    let mut game: usize = 0;
    proof {
        lemma_seat_results_len(assignments@, rewards@, active_player_count as int, games as int);
    }
    while game < games
        invariant
            active_player_count <= 4,
            games == played_games(assignments@, rewards@),
            games <= assignments.len(),
            games <= rewards.len(),
            game <= games,
            all == seat_results(assignments@, rewards@, active_player_count as int, games as int),
            seats_in_range(all, model_count as int),
            all.len() == games * active_player_count,
            totals@.len() == model_count,
            forall|model: int|
                0 <= model < model_count ==> #[trigger] totals@[model] == reward_total(
                    all.take(game * active_player_count),
                    model,
                ),
        decreases games - game,
    {
        let mut slot: usize = 0;
        proof {
            lemma_seat_results_prefix(
                assignments@,
                rewards@,
                active_player_count as int,
                game + 1,
                games as int,
            );
            lemma_seat_results_len(assignments@, rewards@, active_player_count as int, game as int);
        }
        while slot < active_player_count
            invariant
                active_player_count <= 4,
                game < games,
                games <= assignments.len(),
                games <= rewards.len(),
                slot <= active_player_count,
                all == seat_results(assignments@, rewards@, active_player_count as int, games as int),
                seats_in_range(all, model_count as int),
                all.len() == games * active_player_count,
                all.take((game + 1) * active_player_count) == seat_results(
                    assignments@,
                    rewards@,
                    active_player_count as int,
                    game + 1,
                ),
                seat_results(assignments@, rewards@, active_player_count as int, game as int).len()
                    == game * active_player_count,
                totals@.len() == model_count,
                forall|model: int|
                    0 <= model < model_count ==> #[trigger] totals@[model] == reward_total(
                        all.take(game * active_player_count + slot),
                        model,
                    ),
            decreases active_player_count - slot,
        {
            let ghost k: int = game * active_player_count + slot;
            let model = assignments[game].model_indices[slot];
            let reward = rewards[game][slot];
            proof {
                assert((game + 1) * active_player_count == game * active_player_count
                    + active_player_count) by (nonlinear_arith);
                assert(k < all.len()) by (nonlinear_arith)
                    requires
                        k == game * active_player_count + slot,
                        slot < active_player_count,
                        game < games,
                        all.len() == games * active_player_count,
                ;
                let block = seat_results(assignments@, rewards@, active_player_count as int, game + 1);
                assert((game + 1) * active_player_count <= games * active_player_count) by (nonlinear_arith)
                    requires
                        game + 1 <= games,
                ;
                assert(all.take((game + 1) * active_player_count)[k] == all[k]);
                assert(all[k as int] == block[k as int]);
                assert(block[k as int] == (model, reward));
                assert(all.take(k + 1).drop_last() =~= all.take(k as int));
                assert(all[k as int].0 < model_count);
                assert(i32::MIN <= reward_total(all.take(k + 1), model as int) <= i32::MAX);
            }
            let current = totals[model];
            totals.set(model, current + reward);
            proof {
                assert forall|other: int| 0 <= other < model_count implies #[trigger] totals@[other]
                    == reward_total(all.take(k + 1), other) by {}
            }
            slot += 1;
        }
        proof {
            assert((game + 1) * active_player_count == game * active_player_count
                + active_player_count) by (nonlinear_arith);
        }
        game += 1;
    }
    proof {
        assert(all.take(games * active_player_count) =~= all);
    }
    totals
}

proof fn lemma_seat_results_len<T>(
    assignments: Seq<GameAssignment>,
    rewards: Seq<[T; 4]>,
    active_player_count: int,
    games: int,
)
    requires
        0 <= active_player_count,
        0 <= games,
    ensures
        seat_results(assignments, rewards, active_player_count, games).len() == games
            * active_player_count,
    decreases games,
{
    if games > 0 {
        lemma_seat_results_len(assignments, rewards, active_player_count, games - 1);
        assert(seat_results(assignments, rewards, active_player_count, games).len() == seat_results(
            assignments,
            rewards,
            active_player_count,
            games - 1,
        ).len() + active_player_count);
        assert(games * active_player_count == (games - 1) * active_player_count
            + active_player_count) by (nonlinear_arith);
    } else {
        assert(games * active_player_count == 0) by (nonlinear_arith)
            requires
                games == 0,
        ;
    }
}

proof fn lemma_seat_results_prefix<T>(
    assignments: Seq<GameAssignment>,
    rewards: Seq<[T; 4]>,
    active_player_count: int,
    games: int,
    total: int,
)
    requires
        0 <= active_player_count,
        0 <= games <= total,
    ensures
        seat_results(assignments, rewards, active_player_count, total).take(
            games * active_player_count,
        ) == seat_results(assignments, rewards, active_player_count, games),
    decreases total - games,
{
    lemma_seat_results_len(assignments, rewards, active_player_count, games);
    if games < total {
        lemma_seat_results_prefix(assignments, rewards, active_player_count, games + 1, total);
        lemma_seat_results_len(assignments, rewards, active_player_count, games + 1);
        let longer = seat_results(assignments, rewards, active_player_count, games + 1);
        let whole = seat_results(assignments, rewards, active_player_count, total);
        lemma_seat_results_len(assignments, rewards, active_player_count, total);
        assert((games + 1) * active_player_count == games * active_player_count
            + active_player_count) by (nonlinear_arith);
        assert((games + 1) * active_player_count <= total * active_player_count) by (nonlinear_arith)
            requires
                games + 1 <= total,
                0 <= active_player_count,
        ;
        assert(0 <= games * active_player_count) by (nonlinear_arith)
            requires
                0 <= games,
                0 <= active_player_count,
        ;
        assert(whole.take(games * active_player_count) =~= longer.take(
            games * active_player_count,
        ));
        assert(longer.take(games * active_player_count) =~= seat_results(
            assignments,
            rewards,
            active_player_count,
            games,
        ));
    } else {
        assert(seat_results(assignments, rewards, active_player_count, total).take(
            games * active_player_count,
        ) =~= seat_results(assignments, rewards, active_player_count, games));
    }
}

/// `a` ranks before `b`: a higher total reward, or the same and a lower index.
pub open spec fn ranks_before(rewards: Seq<i32>, a: usize, b: usize) -> bool {
    rewards[a as int] > rewards[b as int] || (rewards[a as int] == rewards[b as int] && a < b)
}

/// `ranking` orders all model indices below `rewards.len()` by `ranks_before`.
pub open spec fn is_ranking(ranking: Seq<usize>, rewards: Seq<i32>) -> bool {
    &&& ranking.len() == rewards.len()
    &&& forall|k: int| 0 <= k < ranking.len() ==> #[trigger] ranking[k] < rewards.len()
    &&& forall|a: int, b: int|
        0 <= a < b < ranking.len() ==> ranks_before(rewards, #[trigger] ranking[a], #[trigger] ranking[b])
}

/// The model indices ordered by total reward, highest first, ties by lower index.
pub fn rank_by_reward(rewards: &[i32]) -> (ranking: Vec<usize>)
    ensures
        is_ranking(ranking@, rewards@),
        forall|model: int| 0 <= model < rewards@.len() ==> #[trigger] ranking@.contains(model as usize),
{
    let mut ranking: Vec<usize> = Vec::new();
    let mut i: usize = 0;
    while i < rewards.len()
        invariant
            i <= rewards.len(),
            ranking@.len() == i,
            forall|k: int| 0 <= k < ranking@.len() ==> #[trigger] ranking@[k] < i,
            forall|a: int, b: int|
                0 <= a < b < ranking@.len() ==> ranks_before(
                    rewards@,
                    #[trigger] ranking@[a],
                    #[trigger] ranking@[b],
                ),
            forall|model: int| 0 <= model < i ==> #[trigger] ranking@.contains(model as usize),
        decreases rewards.len() - i,
    {
        let ghost before = ranking@;
        let mut pos: usize = 0;
        while pos < ranking.len() && rewards[ranking[pos]] >= rewards[i]
            invariant
                pos <= ranking.len(),
                ranking@ == before,
                i < rewards.len(),
                forall|k: int| 0 <= k < ranking@.len() ==> #[trigger] ranking@[k] < i,
                forall|j: int| 0 <= j < pos ==> ranks_before(rewards@, #[trigger] before[j], i),
            decreases ranking.len() - pos,
        {
            pos += 1;
        }
        proof {
            if pos < before.len() {
                assert(ranks_before(rewards@, i, before[pos as int]));
            }
        }
        ranking.insert(pos, i);
        proof {
            assert forall|a: int, b: int| 0 <= a < b < ranking@.len() implies ranks_before(
                rewards@,
                #[trigger] ranking@[a],
                #[trigger] ranking@[b],
            ) by {
                if a < pos && b == pos {
                } else if a < pos && b > pos {
                    assert(ranks_before(rewards@, before[a], before[b - 1]));
                } else if a == pos && b > pos {
                    if b - 1 > pos {
                        assert(ranks_before(rewards@, before[pos as int], before[b - 1]));
                    }
                } else if a > pos {
                    assert(ranks_before(rewards@, before[a - 1], before[b - 1]));
                } else {
                    assert(ranks_before(rewards@, before[a], before[b]));
                }
            }
            assert forall|model: int| 0 <= model < i + 1 implies #[trigger] ranking@.contains(
                model as usize,
            ) by {
                if model == i {
                    assert(ranking@[pos as int] == i);
                } else {
                    assert(before.contains(model as usize));
                    let k = choose|k: int| 0 <= k < before.len() && before[k] == model as usize;
                    if k < pos {
                        assert(ranking@[k] == model as usize);
                    } else {
                        assert(ranking@[k + 1] == model as usize);
                    }
                }
            }
            assert forall|k: int| 0 <= k < ranking@.len() implies #[trigger] ranking@[k] < i + 1 by {
                if k < pos {
                    assert(ranking@[k] == before[k]);
                } else if k > pos {
                    assert(ranking@[k] == before[k - 1]);
                }
            }
        }
        i += 1;
    }
    ranking
}

/// The record of `model` after counting each of its seats' rewards as a game.
pub open spec fn reward_gameplay(seats: Seq<(usize, i32)>, model: int, values: RewardValues) -> GameplayStats
    decreases seats.len(),
{
    if seats.len() == 0 {
        GameplayStats {
            game_count: 0,
            win_count: 0,
            draw_count: 0,
            loss_count: 0,
            capture_count: 0,
            fleet_hit_count: 0,
            hit_ship_count: 0,
            sun_destroyed_fleet_count: 0,
            sun_destroyed_ship_count: 0,
            out_of_bounds_destroyed_fleet_count: 0,
            out_of_bounds_destroyed_ship_count: 0,
            launch_action_count: 0,
            launched_ship_count: 0,
            fleet_observation_count: 0,
        }
    } else {
        let rest = reward_gameplay(seats.drop_last(), model, values);
        if seats.last().0 == model {
            gameplay_sum(rest, reward_as_gameplay(seats.last().1, values))
        } else {
            rest
        }
    }
}

proof fn lemma_reward_gameplay_bounded(seats: Seq<(usize, i32)>, model: int, values: RewardValues)
    requires
        seats.len() <= usize::MAX,
    ensures
        ({
            let g = reward_gameplay(seats, model, values);
            &&& g.game_count <= seats.len()
            &&& g.win_count <= g.game_count
            &&& g.draw_count <= g.game_count
            &&& g.loss_count <= g.game_count
            &&& g.capture_count == 0
            &&& g.fleet_hit_count == 0
            &&& g.hit_ship_count == 0
            &&& g.sun_destroyed_fleet_count == 0
            &&& g.sun_destroyed_ship_count == 0
            &&& g.out_of_bounds_destroyed_fleet_count == 0
            &&& g.out_of_bounds_destroyed_ship_count == 0
            &&& g.launch_action_count == 0
            &&& g.launched_ship_count == 0
            &&& g.fleet_observation_count == 0
        }),
    decreases seats.len(),
{
    if seats.len() > 0 {
        lemma_reward_gameplay_bounded(seats.drop_last(), model, values);
    }
}

/// Each model's results over the games that were played: every seat of the model counts
/// as a game won, lost or drawn by its reward.
pub fn model_reward_gameplay(
    model_count: usize,
    assignments: &[GameAssignment],
    rewards: &[[i32; 4]],
    active_player_count: usize,
    values: RewardValues,
) -> (gameplay: Vec<GameplayStats>)
    requires
        active_player_count <= 4,
        played_games(assignments@, rewards@) * active_player_count <= usize::MAX,
        forall|k: int|
            0 <= k < seat_results(
                assignments@,
                rewards@,
                active_player_count as int,
                played_games(assignments@, rewards@),
            ).len() ==> #[trigger] seat_results(
                assignments@,
                rewards@,
                active_player_count as int,
                played_games(assignments@, rewards@),
            )[k].0 < model_count,
    ensures
        gameplay@.len() == model_count,
        forall|model: int|
            0 <= model < model_count ==> #[trigger] gameplay@[model] == reward_gameplay(
                seat_results(
                    assignments@,
                    rewards@,
                    active_player_count as int,
                    played_games(assignments@, rewards@),
                ),
                model,
                values,
            ),
{
    let ghost all = seat_results(
        assignments@,
        rewards@,
        active_player_count as int,
        played_games(assignments@, rewards@),
    );
    let games = if assignments.len() < rewards.len() {
        assignments.len()
    } else {
        rewards.len()
    };
    let mut gameplay: Vec<GameplayStats> = Vec::new();
    let mut m: usize = 0;
    while m < model_count
        invariant
            m <= model_count,
            gameplay@.len() == m,
            forall|j: int| 0 <= j < m ==> #[trigger] gameplay@[j] == reward_gameplay(
                Seq::empty(),
                j,
                values,
            ),
        decreases model_count - m,
    {
        gameplay.push(
            GameplayStats {
                game_count: 0,
                win_count: 0,
                draw_count: 0,
                loss_count: 0,
                capture_count: 0,
                fleet_hit_count: 0,
                hit_ship_count: 0,
                sun_destroyed_fleet_count: 0,
                sun_destroyed_ship_count: 0,
                out_of_bounds_destroyed_fleet_count: 0,
                out_of_bounds_destroyed_ship_count: 0,
                launch_action_count: 0,
                launched_ship_count: 0,
                fleet_observation_count: 0,
            },
        );
        m += 1;
    }
    proof {
        lemma_seat_results_len(assignments@, rewards@, active_player_count as int, games as int);
        assert(all.take(0) =~= Seq::<(usize, i32)>::empty());
    }
    let mut game: usize = 0;
    while game < games
        invariant
            active_player_count <= 4,
            games == played_games(assignments@, rewards@),
            games <= assignments.len(),
            games <= rewards.len(),
            game <= games,
            all == seat_results(assignments@, rewards@, active_player_count as int, games as int),
            forall|k: int| 0 <= k < all.len() ==> #[trigger] all[k].0 < model_count,
            all.len() == games * active_player_count,
            all.len() <= usize::MAX,
            gameplay@.len() == model_count,
            forall|model: int|
                0 <= model < model_count ==> #[trigger] gameplay@[model] == reward_gameplay(
                    all.take(game * active_player_count),
                    model,
                    values,
                ),
        decreases games - game,
    {
        let mut slot: usize = 0;
        proof {
            lemma_seat_results_prefix(
                assignments@,
                rewards@,
                active_player_count as int,
                game + 1,
                games as int,
            );
            lemma_seat_results_len(assignments@, rewards@, active_player_count as int, game as int);
        }
        while slot < active_player_count
            invariant
                active_player_count <= 4,
                game < games,
                games <= assignments.len(),
                games <= rewards.len(),
                slot <= active_player_count,
                all == seat_results(assignments@, rewards@, active_player_count as int, games as int),
                forall|k: int| 0 <= k < all.len() ==> #[trigger] all[k].0 < model_count,
                all.len() == games * active_player_count,
                all.len() <= usize::MAX,
                all.take((game + 1) * active_player_count) == seat_results(
                    assignments@,
                    rewards@,
                    active_player_count as int,
                    game + 1,
                ),
                seat_results(assignments@, rewards@, active_player_count as int, game as int).len()
                    == game * active_player_count,
                gameplay@.len() == model_count,
                forall|model: int|
                    0 <= model < model_count ==> #[trigger] gameplay@[model] == reward_gameplay(
                        all.take(game * active_player_count + slot),
                        model,
                        values,
                    ),
            decreases active_player_count - slot,
        {
            let ghost k: int = game * active_player_count + slot;
            let model = assignments[game].model_indices[slot];
            let reward = rewards[game][slot];
            proof {
                assert((game + 1) * active_player_count == game * active_player_count
                    + active_player_count) by (nonlinear_arith);
                assert((game + 1) * active_player_count <= games * active_player_count) by (nonlinear_arith)
                    requires
                        game + 1 <= games,
                ;
                let block = seat_results(assignments@, rewards@, active_player_count as int, game + 1);
                assert(all.take((game + 1) * active_player_count)[k] == all[k]);
                assert(all[k] == block[k]);
                assert(block[k] == (model, reward));
                assert(all.take(k + 1).drop_last() =~= all.take(k));
                assert(all[k].0 < model_count);
                lemma_reward_gameplay_bounded(all.take(k), model as int, values);
                assert(k < all.len());
            }
            let mut record = gameplay[model];
            record.add_reward(reward, values);
            gameplay.set(model, record);
            proof {
                assert forall|other: int| 0 <= other < model_count implies #[trigger] gameplay@[other]
                    == reward_gameplay(all.take(k + 1), other, values) by {}
            }
            slot += 1;
        }
        proof {
            assert((game + 1) * active_player_count == game * active_player_count
                + active_player_count) by (nonlinear_arith);
        }
        game += 1;
    }
    proof {
        assert(all.take(games * active_player_count) =~= all);
    }
    gameplay
}

/// The validation counts of one evaluated generation: its archived champions, and the
/// games they played, won, drew and lost.
#[derive(Clone, Copy, Debug, PartialEq, Eq, Structural)]
pub struct ValidationTally {
    pub model_count: usize,
    pub game_count: usize,
    pub win_count: usize,
    pub draw_count: usize,
    pub loss_count: usize,
}

/// How many champions of the archive come from `generation`.
pub open spec fn champions_of(generations: Seq<usize>, generation: usize) -> int
    decreases generations.len(),
{
    if generations.len() == 0 {
        0
    } else {
        champions_of(generations.drop_last(), generation) + if generations.last() == generation {
            1int
        } else {
            0int
        }
    }
}

/// Games, wins, draws and losses of the seats held by champions of `generation`.
pub open spec fn seat_tally(seats: Seq<(usize, i32)>, generations: Seq<usize>, generation: usize, values: RewardValues) -> (int, int, int, int)
    decreases seats.len(),
{
    if seats.len() == 0 {
        (0, 0, 0, 0)
    } else {
        let rest = seat_tally(seats.drop_last(), generations, generation, values);
        let reward = seats.last().1;
        if generations[seats.last().0 as int] == generation {
            (
                rest.0 + 1,
                rest.1 + if reward == values.win {
                    1int
                } else {
                    0int
                },
                rest.2 + if reward != values.win && reward != values.loss {
                    1int
                } else {
                    0int
                },
                rest.3 + if reward != values.win && reward == values.loss {
                    1int
                } else {
                    0int
                },
            )
        } else {
            rest
        }
    }
}

/// `tallies` holds one entry per generation of the archive, in increasing order, with
/// that generation's champions and the results of their seats.
pub open spec fn tallies_of(
    tallies: Seq<(usize, ValidationTally)>,
    generations: Seq<usize>,
    seats: Seq<(usize, i32)>,
    values: RewardValues,
) -> bool {
    &&& forall|a: int, b: int|
        0 <= a < b < tallies.len() ==> #[trigger] tallies[a].0 < #[trigger] tallies[b].0
    &&& forall|k: int|
        0 <= k < tallies.len() ==> {
            let g = (#[trigger] tallies[k]).0;
            let t = tallies[k].1;
            let s = seat_tally(seats, generations, g, values);
            &&& generations.contains(g)
            &&& t.model_count == champions_of(generations, g)
            &&& t.game_count == s.0
            &&& t.win_count == s.1
            &&& t.draw_count == s.2
            &&& t.loss_count == s.3
        }
    &&& forall|g: usize| #[trigger]
        generations.contains(g) ==> exists|k: int| 0 <= k < tallies.len() && #[trigger] tallies[k].0 == g
}

proof fn lemma_champions_step(generations: Seq<usize>, i: int, g: usize)
    requires
        0 <= i < generations.len(),
    ensures
        champions_of(generations.take(i + 1), g) == champions_of(generations.take(i), g) + if generations[i]
            == g {
            1int
        } else {
            0int
        },
        generations.take(i + 1).contains(g) == (generations.take(i).contains(g) || generations[i] == g),
{
    let before = generations.take(i);
    let after = generations.take(i + 1);
    assert(after.drop_last() =~= before);
    if after.contains(g) && generations[i] != g {
        let k = choose|k: int| 0 <= k < after.len() && after[k] == g;
        assert(before[k] == g);
    }
    if before.contains(g) {
        let k = choose|k: int| 0 <= k < before.len() && before[k] == g;
        assert(after[k] == g);
    }
    if generations[i] == g {
        assert(after[i] == g);
    }
}

proof fn lemma_champions_absent(generations: Seq<usize>, g: usize)
    requires
        !generations.contains(g),
    ensures
        champions_of(generations, g) == 0,
    decreases generations.len(),
{
    if generations.len() > 0 {
        let prefix = generations.drop_last();
        assert(!prefix.contains(g)) by {
            if prefix.contains(g) {
                let k = choose|k: int| 0 <= k < prefix.len() && prefix[k] == g;
                assert(generations[k] == g);
            }
        }
        assert(generations[generations.len() - 1] != g);
        lemma_champions_absent(prefix, g);
    }
}

proof fn lemma_seat_tally_bounded(seats: Seq<(usize, i32)>, generations: Seq<usize>, g: usize, values: RewardValues)
    ensures
        ({
            let t = seat_tally(seats, generations, g, values);
            0 <= t.1 <= t.0 && 0 <= t.2 <= t.0 && 0 <= t.3 <= t.0 && t.0 <= seats.len()
        }),
    decreases seats.len(),
{
    if seats.len() > 0 {
        lemma_seat_tally_bounded(seats.drop_last(), generations, g, values);
    }
}

/// The archive's generations, in increasing order, each with its champion count.
fn generation_entries(generations: &[usize]) -> (tallies: Vec<(usize, ValidationTally)>)
    ensures
        tallies_of(tallies@, generations@, Seq::empty(), RewardValues { win: 0, draw: 0, loss: 0 }),
        forall|k: int|
            0 <= k < tallies@.len() ==> (#[trigger] tallies@[k]).1.game_count == 0
                && tallies@[k].1.win_count == 0 && tallies@[k].1.draw_count == 0
                && tallies@[k].1.loss_count == 0,
{
    let ghost zero = RewardValues { win: 0, draw: 0, loss: 0 };
    let mut tallies: Vec<(usize, ValidationTally)> = Vec::new();
    let mut i: usize = 0;
    while i < generations.len()
        invariant
            i <= generations.len(),
            tallies_of(tallies@, generations@.take(i as int), Seq::empty(), zero),
            forall|k: int|
                0 <= k < tallies@.len() ==> (#[trigger] tallies@[k]).1.game_count == 0
                    && tallies@[k].1.win_count == 0 && tallies@[k].1.draw_count == 0
                    && tallies@[k].1.loss_count == 0 && tallies@[k].1.model_count <= i,
        decreases generations.len() - i,
    {
        let generation = generations[i];
        let ghost before = tallies@;
        let ghost all = generations@;
        let ghost earlier = all.take(i as int);
        let ghost later = all.take(i + 1);
        let mut pos: usize = 0;
        while pos < tallies.len() && tallies[pos].0 < generation
            invariant
                pos <= tallies.len(),
                tallies@ == before,
                forall|j: int| 0 <= j < pos ==> #[trigger] before[j].0 < generation,
            decreases tallies.len() - pos,
        {
            pos += 1;
        }
        if pos < tallies.len() && tallies[pos].0 == generation {
            let old_entry = tallies[pos];
            let mut tally = old_entry.1;
            tally.model_count = tally.model_count + 1;
            tallies.set(pos, (generation, tally));
            proof {
                assert forall|k: int| 0 <= k < tallies@.len() && k != pos implies #[trigger] tallies@[k].0
                    != generation by {
                    if k < pos {
                        assert(before[k].0 < before[pos as int].0);
                    } else {
                        assert(before[pos as int].0 < before[k].0);
                    }
                }
                assert forall|k: int| 0 <= k < tallies@.len() implies {
                    let g = (#[trigger] tallies@[k]).0;
                    let t = tallies@[k].1;
                    let s = seat_tally(Seq::empty(), later, g, zero);
                    &&& later.contains(g)
                    &&& t.model_count == champions_of(later, g)
                    &&& t.game_count == s.0
                    &&& t.win_count == s.1
                    &&& t.draw_count == s.2
                    &&& t.loss_count == s.3
                } by {
                    lemma_champions_step(all, i as int, tallies@[k].0);
                }
                assert forall|g: usize| #[trigger] later.contains(g) implies exists|k: int|
                    0 <= k < tallies@.len() && #[trigger] tallies@[k].0 == g by {
                    lemma_champions_step(all, i as int, g);
                    if g != generation {
                        assert(earlier.contains(g));
                        let k = choose|k: int| 0 <= k < before.len() && #[trigger] before[k].0 == g;
                        assert(tallies@[k].0 == g);
                    } else {
                        assert(tallies@[pos as int].0 == g);
                    }
                }
            }
        } else {
            proof {
                if pos < tallies.len() {
                    assert(before[pos as int].0 > generation);
                }
                assert(!earlier.contains(generation)) by {
                    if earlier.contains(generation) {
                        let k = choose|k: int| 0 <= k < before.len() && #[trigger] before[k].0
                            == generation;
                        if k < pos {
                            assert(before[k].0 < generation);
                        } else if k > pos {
                            assert(before[pos as int].0 < before[k].0);
                        }
                    }
                }
                lemma_champions_absent(earlier, generation);
                lemma_champions_step(all, i as int, generation);
            }
            tallies.insert(
                pos,
                (
                    generation,
                    ValidationTally {
                        model_count: 1,
                        game_count: 0,
                        win_count: 0,
                        draw_count: 0,
                        loss_count: 0,
                    },
                ),
            );
            proof {
                assert forall|a: int, b: int| 0 <= a < b < tallies@.len() implies #[trigger] tallies@[a].0
                    < #[trigger] tallies@[b].0 by {
                    if a < pos && b > pos {
                        assert(before[a].0 < before[b - 1].0);
                    } else if a > pos {
                        assert(before[a - 1].0 < before[b - 1].0);
                    } else if a == pos && b > pos + 1 {
                        assert(before[pos as int].0 < before[b - 1].0);
                    } else if a < pos && b < pos {
                        assert(before[a].0 < before[b].0);
                    }
                }
                assert forall|k: int| 0 <= k < tallies@.len() implies {
                    let g = (#[trigger] tallies@[k]).0;
                    let t = tallies@[k].1;
                    let s = seat_tally(Seq::empty(), later, g, zero);
                    &&& later.contains(g)
                    &&& t.model_count == champions_of(later, g)
                    &&& t.game_count == s.0
                    &&& t.win_count == s.1
                    &&& t.draw_count == s.2
                    &&& t.loss_count == s.3
                } by {
                    lemma_champions_step(all, i as int, tallies@[k].0);
                    if k < pos {
                        assert(tallies@[k] == before[k]);
                    } else if k > pos {
                        assert(tallies@[k] == before[k - 1]);
                    }
                }
                assert forall|g: usize| #[trigger] later.contains(g) implies exists|k: int|
                    0 <= k < tallies@.len() && #[trigger] tallies@[k].0 == g by {
                    lemma_champions_step(all, i as int, g);
                    if g == generation {
                        assert(tallies@[pos as int].0 == g);
                    } else {
                        assert(earlier.contains(g));
                        let k = choose|k: int| 0 <= k < before.len() && #[trigger] before[k].0 == g;
                        if k < pos {
                            assert(tallies@[k].0 == g);
                        } else {
                            assert(tallies@[k + 1].0 == g);
                        }
                    }
                }
                assert forall|k: int| 0 <= k < tallies@.len() implies (#[trigger] tallies@[k]).1.game_count
                    == 0 && tallies@[k].1.win_count == 0 && tallies@[k].1.draw_count == 0
                    && tallies@[k].1.loss_count == 0 && tallies@[k].1.model_count <= i + 1 by {
                    if k < pos {
                        assert(tallies@[k] == before[k]);
                    } else if k > pos {
                        assert(tallies@[k] == before[k - 1]);
                    }
                }
            }
        }
        i += 1;
    }
    proof {
        assert(generations@.take(generations@.len() as int) =~= generations@);
    }
    tallies
}

/// The validation counts of each archived generation: its champions, and the games its
/// champions' seats played, won, drew and lost in the games that were played.
/// `generations` holds the generation of each archived champion, by model index.
pub fn generation_validation_tallies(
    generations: &[usize],
    assignments: &[GameAssignment],
    rewards: &[[i32; 4]],
    active_player_count: usize,
    values: RewardValues,
) -> (tallies: Vec<(usize, ValidationTally)>)
    requires
        active_player_count <= 4,
        played_games(assignments@, rewards@) * active_player_count <= usize::MAX,
        forall|k: int|
            0 <= k < seat_results(
                assignments@,
                rewards@,
                active_player_count as int,
                played_games(assignments@, rewards@),
            ).len() ==> #[trigger] seat_results(
                assignments@,
                rewards@,
                active_player_count as int,
                played_games(assignments@, rewards@),
            )[k].0 < generations@.len(),
    ensures
        tallies_of(
            tallies@,
            generations@,
            seat_results(
                assignments@,
                rewards@,
                active_player_count as int,
                played_games(assignments@, rewards@),
            ),
            values,
        ),
{
    let ghost all = seat_results(
        assignments@,
        rewards@,
        active_player_count as int,
        played_games(assignments@, rewards@),
    );
    let ghost gens = generations@;
    let games = if assignments.len() < rewards.len() {
        assignments.len()
    } else {
        rewards.len()
    };
    let mut tallies = generation_entries(generations);
    proof {
        lemma_seat_results_len(assignments@, rewards@, active_player_count as int, games as int);
        assert(all.take(0) =~= Seq::<(usize, i32)>::empty());
        assert forall|k: int| 0 <= k < tallies@.len() implies {
            let g = (#[trigger] tallies@[k]).0;
            let t = tallies@[k].1;
            let s = seat_tally(all.take(0), gens, g, values);
            &&& gens.contains(g)
            &&& t.model_count == champions_of(gens, g)
            &&& t.game_count == s.0
            &&& t.win_count == s.1
            &&& t.draw_count == s.2
            &&& t.loss_count == s.3
        } by {
            let zero = RewardValues { win: 0, draw: 0, loss: 0 };
            assert(seat_tally(Seq::<(usize, i32)>::empty(), gens, tallies@[k].0, zero) == (
                0int,
                0int,
                0int,
                0int,
            ));
        }
    }
    let mut game: usize = 0;
    while game < games
        invariant
            active_player_count <= 4,
            games == played_games(assignments@, rewards@),
            games <= assignments.len(),
            games <= rewards.len(),
            game <= games,
            gens == generations@,
            all == seat_results(assignments@, rewards@, active_player_count as int, games as int),
            forall|k: int| 0 <= k < all.len() ==> #[trigger] all[k].0 < gens.len(),
            all.len() == games * active_player_count,
            all.len() <= usize::MAX,
            tallies_of(tallies@, gens, all.take(game * active_player_count), values),
        decreases games - game,
    {
        let mut slot: usize = 0;
        proof {
            lemma_seat_results_prefix(
                assignments@,
                rewards@,
                active_player_count as int,
                game + 1,
                games as int,
            );
            lemma_seat_results_len(assignments@, rewards@, active_player_count as int, game as int);
        }
        while slot < active_player_count
            invariant
                active_player_count <= 4,
                game < games,
                games <= assignments.len(),
                games <= rewards.len(),
                slot <= active_player_count,
                gens == generations@,
                all == seat_results(assignments@, rewards@, active_player_count as int, games as int),
                forall|k: int| 0 <= k < all.len() ==> #[trigger] all[k].0 < gens.len(),
                all.len() == games * active_player_count,
                all.len() <= usize::MAX,
                all.take((game + 1) * active_player_count) == seat_results(
                    assignments@,
                    rewards@,
                    active_player_count as int,
                    game + 1,
                ),
                seat_results(assignments@, rewards@, active_player_count as int, game as int).len()
                    == game * active_player_count,
                tallies_of(tallies@, gens, all.take(game * active_player_count + slot), values),
            decreases active_player_count - slot,
        {
            let ghost k: int = game * active_player_count + slot;
            let model = assignments[game].model_indices[slot];
            let reward = rewards[game][slot];
            proof {
                assert((game + 1) * active_player_count == game * active_player_count
                    + active_player_count) by (nonlinear_arith);
                assert((game + 1) * active_player_count <= games * active_player_count) by (nonlinear_arith)
                    requires
                        game + 1 <= games,
                ;
                let block = seat_results(assignments@, rewards@, active_player_count as int, game + 1);
                assert(all.take((game + 1) * active_player_count)[k] == all[k]);
                assert(all[k] == block[k]);
                assert(block[k] == (model, reward));
                assert(all.take(k + 1).drop_last() =~= all.take(k));
                assert(all[k].0 < gens.len());
            }
            let generation = generations[model];
            let ghost before = tallies@;
            let ghost prefix = all.take(k);
            let ghost next = all.take(k + 1);
            proof {
                assert(gens[model as int] == generation);
                assert(gens.contains(generation));
            }
            let mut pos: usize = 0;
            while pos < tallies.len() && tallies[pos].0 != generation
                invariant
                    pos <= tallies.len(),
                    tallies@ == before,
                    forall|j: int| 0 <= j < pos ==> #[trigger] before[j].0 != generation,
                decreases tallies.len() - pos,
            {
                pos += 1;
            }
            proof {
                if pos == tallies.len() {
                    let j = choose|j: int| 0 <= j < before.len() && #[trigger] before[j].0 == generation;
                    assert(before[j].0 != generation);
                }
                lemma_seat_tally_bounded(prefix, gens, generation, values);
                assert(prefix.len() == k);
                assert(k < all.len());
            }
            let entry = tallies[pos];
            let mut tally = entry.1;
            tally.game_count = tally.game_count + 1;
            if reward == values.win {
                tally.win_count = tally.win_count + 1;
            } else if reward == values.loss {
                tally.loss_count = tally.loss_count + 1;
            } else {
                tally.draw_count = tally.draw_count + 1;
            }
            tallies.set(pos, (generation, tally));
            proof {
                assert forall|j: int| 0 <= j < tallies@.len() implies {
                    let g = (#[trigger] tallies@[j]).0;
                    let t = tallies@[j].1;
                    let s = seat_tally(next, gens, g, values);
                    &&& gens.contains(g)
                    &&& t.model_count == champions_of(gens, g)
                    &&& t.game_count == s.0
                    &&& t.win_count == s.1
                    &&& t.draw_count == s.2
                    &&& t.loss_count == s.3
                } by {
                    if j != pos {
                        assert(tallies@[j] == before[j]);
                        if j < pos {
                            assert(before[j].0 < before[pos as int].0);
                        } else {
                            assert(before[pos as int].0 < before[j].0);
                        }
                    }
                }
                assert forall|g: usize| #[trigger] gens.contains(g) implies exists|j: int|
                    0 <= j < tallies@.len() && #[trigger] tallies@[j].0 == g by {
                    let j = choose|j: int| 0 <= j < before.len() && #[trigger] before[j].0 == g;
                    assert(tallies@[j].0 == g);
                }
            }
            slot += 1;
        }
        proof {
            assert((game + 1) * active_player_count == game * active_player_count
                + active_player_count) by (nonlinear_arith);
        }
        game += 1;
    }
    proof {
        assert(all.take(games * active_player_count) =~= all);
    }
    tallies
}

/// The record of `model` after adding the records of each of its seats.
pub open spec fn seat_gameplay_total(seats: Seq<(usize, GameplayStats)>, model: int) -> GameplayStats
    decreases seats.len(),
{
    if seats.len() == 0 {
        GameplayStats {
            game_count: 0,
            win_count: 0,
            draw_count: 0,
            loss_count: 0,
            capture_count: 0,
            fleet_hit_count: 0,
            hit_ship_count: 0,
            sun_destroyed_fleet_count: 0,
            sun_destroyed_ship_count: 0,
            out_of_bounds_destroyed_fleet_count: 0,
            out_of_bounds_destroyed_ship_count: 0,
            launch_action_count: 0,
            launched_ship_count: 0,
            fleet_observation_count: 0,
        }
    } else {
        let rest = seat_gameplay_total(seats.drop_last(), model);
        if seats.last().0 == model {
            gameplay_sum(rest, seats.last().1)
        } else {
            rest
        }
    }
}

/// Every seat holds one of the `model_count` models, and adding its record to its model's
/// running record fits every field.
pub open spec fn seat_records_add_up(seats: Seq<(usize, GameplayStats)>, model_count: int) -> bool {
    forall|k: int|
        0 <= k < seats.len() ==> #[trigger] seats[k].0 < model_count
            && crate::gameplay::gameplay_sum_fits(
            seat_gameplay_total(seats.take(k), seats[k].0 as int),
            seats[k].1,
        )
}

/// Each model's gameplay over the games that were played: the record of every seat is
/// added to the record of the seat's model.
pub fn model_gameplay_totals(
    model_count: usize,
    assignments: &[GameAssignment],
    seat_gameplay: &[[GameplayStats; 4]],
    active_player_count: usize,
) -> (totals: Vec<GameplayStats>)
    requires
        active_player_count <= 4,
        seat_records_add_up(
            seat_results(
                assignments@,
                seat_gameplay@,
                active_player_count as int,
                played_games(assignments@, seat_gameplay@),
            ),
            model_count as int,
        ),
    ensures
        totals@.len() == model_count,
        forall|model: int|
            0 <= model < model_count ==> #[trigger] totals@[model] == seat_gameplay_total(
                seat_results(
                    assignments@,
                    seat_gameplay@,
                    active_player_count as int,
                    played_games(assignments@, seat_gameplay@),
                ),
                model,
            ),
{
    let ghost all = seat_results(
        assignments@,
        seat_gameplay@,
        active_player_count as int,
        played_games(assignments@, seat_gameplay@),
    );
    let games = if assignments.len() < seat_gameplay.len() {
        assignments.len()
    } else {
        seat_gameplay.len()
    };
    let mut totals: Vec<GameplayStats> = Vec::new();
    let mut m: usize = 0;
    while m < model_count
        invariant
            m <= model_count,
            totals@.len() == m,
            forall|j: int| 0 <= j < m ==> #[trigger] totals@[j] == seat_gameplay_total(
                Seq::empty(),
                j,
            ),
        decreases model_count - m,
    {
        totals.push(
            GameplayStats {
                game_count: 0,
                win_count: 0,
                draw_count: 0,
                loss_count: 0,
                capture_count: 0,
                fleet_hit_count: 0,
                hit_ship_count: 0,
                sun_destroyed_fleet_count: 0,
                sun_destroyed_ship_count: 0,
                out_of_bounds_destroyed_fleet_count: 0,
                out_of_bounds_destroyed_ship_count: 0,
                launch_action_count: 0,
                launched_ship_count: 0,
                fleet_observation_count: 0,
            },
        );
        m += 1;
    }
    proof {
        lemma_seat_results_len(assignments@, seat_gameplay@, active_player_count as int, games as int);
        assert(all.take(0) =~= Seq::<(usize, GameplayStats)>::empty());
    }
    let mut game: usize = 0;
    while game < games
        invariant
            active_player_count <= 4,
            games == played_games(assignments@, seat_gameplay@),
            games <= assignments.len(),
            games <= seat_gameplay.len(),
            game <= games,
            all == seat_results(assignments@, seat_gameplay@, active_player_count as int, games as int),
            forall|k: int|
                0 <= k < all.len() ==> #[trigger] all[k].0 < model_count
                    && crate::gameplay::gameplay_sum_fits(
                    seat_gameplay_total(all.take(k), all[k].0 as int),
                    all[k].1,
                ),
            all.len() == games * active_player_count,
            totals@.len() == model_count,
            forall|model: int|
                0 <= model < model_count ==> #[trigger] totals@[model] == seat_gameplay_total(
                    all.take(game * active_player_count),
                    model,
                ),
        decreases games - game,
    {
        let mut slot: usize = 0;
        proof {
            lemma_seat_results_prefix(
                assignments@,
                seat_gameplay@,
                active_player_count as int,
                game + 1,
                games as int,
            );
            lemma_seat_results_len(assignments@, seat_gameplay@, active_player_count as int, game as int);
        }
        while slot < active_player_count
            invariant
                active_player_count <= 4,
                game < games,
                games <= assignments.len(),
                games <= seat_gameplay.len(),
                slot <= active_player_count,
                all == seat_results(assignments@, seat_gameplay@, active_player_count as int, games as int),
                forall|k: int|
                    0 <= k < all.len() ==> #[trigger] all[k].0 < model_count
                        && crate::gameplay::gameplay_sum_fits(
                        seat_gameplay_total(all.take(k), all[k].0 as int),
                        all[k].1,
                    ),
                all.len() == games * active_player_count,
                all.take((game + 1) * active_player_count) == seat_results(
                    assignments@,
                    seat_gameplay@,
                    active_player_count as int,
                    game + 1,
                ),
                seat_results(assignments@, seat_gameplay@, active_player_count as int, game as int).len()
                    == game * active_player_count,
                totals@.len() == model_count,
                forall|model: int|
                    0 <= model < model_count ==> #[trigger] totals@[model] == seat_gameplay_total(
                        all.take(game * active_player_count + slot),
                        model,
                    ),
            decreases active_player_count - slot,
        {
            let ghost k: int = game * active_player_count + slot;
            let model = assignments[game].model_indices[slot];
            let record = seat_gameplay[game][slot];
            proof {
                assert((game + 1) * active_player_count == game * active_player_count
                    + active_player_count) by (nonlinear_arith);
                assert((game + 1) * active_player_count <= games * active_player_count) by (nonlinear_arith)
                    requires
                        game + 1 <= games,
                ;
                let block = seat_results(assignments@, seat_gameplay@, active_player_count as int, game + 1);
                assert(all.take((game + 1) * active_player_count)[k] == all[k]);
                assert(all[k] == block[k]);
                assert(block[k] == (model, record));
                assert(all.take(k + 1).drop_last() =~= all.take(k));
                assert(all[k].0 < model_count);
            }
            let mut total = totals[model];
            total.add_gameplay(record);
            totals.set(model, total);
            proof {
                assert forall|other: int| 0 <= other < model_count implies #[trigger] totals@[other]
                    == seat_gameplay_total(all.take(k + 1), other) by {}
            }
            slot += 1;
        }
        proof {
            assert((game + 1) * active_player_count == game * active_player_count
                + active_player_count) by (nonlinear_arith);
        }
        game += 1;
    }
    proof {
        assert(all.take(games * active_player_count) =~= all);
    }
    totals
}

} // verus!
