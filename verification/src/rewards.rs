//! Rewards at the end of a game: the single best score wins, a shared best score draws,
//! everyone else loses.
use vstd::prelude::*;

use crate::schedule::MAX_PLAYER_SLOTS;
use crate::types::PlayerScore;

verus! {

/// The reward values of the trainer.
#[derive(Clone, Copy, Debug, PartialEq, Eq, Structural)]
pub struct RewardValues {
    pub win: i32,
    pub draw: i32,
    pub loss: i32,
}

/// The ships scored by seat `seat`: those of the last score entry of that player, or
/// zero when there is none.
pub open spec fn seat_score(scores: Seq<PlayerScore>, seat: int) -> i32
    decreases scores.len(),
{
    if scores.len() == 0 {
        0
    } else if scores.last().player as int == seat {
        scores.last().ships
    } else {
        seat_score(scores.drop_last(), seat)
    }
}

/// The best score among the first `seats` seats, or zero when there are none.
pub open spec fn best_score(scores: Seq<PlayerScore>, seats: int) -> i32
    decreases seats,
{
    if seats <= 0 {
        0
    } else if seats == 1 {
        seat_score(scores, 0)
    } else {
        let rest = best_score(scores, seats - 1);
        let last = seat_score(scores, seats - 1);
        if last > rest {
            last
        } else {
            rest
        }
    }
}

/// How many of the first `seats` seats scored `best`.
pub open spec fn seats_with_score(scores: Seq<PlayerScore>, seats: int, best: i32) -> int
    decreases seats,
{
    if seats <= 0 {
        0
    } else {
        seats_with_score(scores, seats - 1, best) + if seat_score(scores, seats - 1) == best {
            1int
        } else {
            0int
        }
    }
}

/// The reward of seat `seat` in a game of `active_player_count` seats.
pub open spec fn seat_reward(scores: Seq<PlayerScore>, active_player_count: int, values: RewardValues, seat: int) -> i32 {
    if seat >= active_player_count {
        values.draw
    } else {
        let best = best_score(scores, active_player_count);
        let score = seat_score(scores, seat);
        if score == best && seats_with_score(scores, active_player_count, best) == 1 {
            values.win
        } else if score == best {
            values.draw
        } else {
            values.loss
        }
    }
}

/// The rewards of the four seats at the end of a game with `active_player_count` seats;
/// seats beyond them draw.
pub fn final_rewards(scores: &[PlayerScore], active_player_count: usize, values: RewardValues) -> (rewards: [i32; 4])
    requires
        active_player_count <= MAX_PLAYER_SLOTS,
    ensures
        forall|seat: int|
            0 <= seat < 4 ==> #[trigger] rewards@[seat] == seat_reward(
                scores@,
                active_player_count as int,
                values,
                seat,
            ),
{
    let mut seat_scores: [i32; 4] = [0, 0, 0, 0];
    let mut i: usize = 0;
    while i < scores.len()
        invariant
            i <= scores.len(),
            forall|seat: int| 0 <= seat < 4 ==> #[trigger] seat_scores@[seat] == seat_score(
                scores@.take(i as int),
                seat,
            ),
        decreases scores.len() - i,
    {
        let player = scores[i].player;
        proof {
            assert(scores@.take(i + 1).drop_last() =~= scores@.take(i as int));
            assert(scores@.take(i + 1).last() == scores@[i as int]);
        }
        if 0 <= player && player < 4 {
            seat_scores.set(player as usize, scores[i].ships);
        }
        i += 1;
    }
    proof {
        assert(scores@.take(scores@.len() as int) =~= scores@);
    }
    let mut best: i32 = 0;
    let mut seat: usize = 0;
    while seat < active_player_count
        invariant
            active_player_count <= 4,
            seat <= active_player_count,
            forall|s: int| 0 <= s < 4 ==> #[trigger] seat_scores@[s] == seat_score(scores@, s),
            best == best_score(scores@, seat as int),
        decreases active_player_count - seat,
    {
        if seat == 0 || seat_scores[seat] > best {
            best = seat_scores[seat];
        }
        seat += 1;
    }
    let mut best_count: usize = 0;
    let mut seat: usize = 0;
    while seat < active_player_count
        invariant
            active_player_count <= 4,
            seat <= active_player_count,
            forall|s: int| 0 <= s < 4 ==> #[trigger] seat_scores@[s] == seat_score(scores@, s),
            best_count == seats_with_score(scores@, seat as int, best),
            best_count <= seat,
        decreases active_player_count - seat,
    {
        if seat_scores[seat] == best {
            best_count += 1;
        }
        seat += 1;
    }
    let mut rewards: [i32; 4] = [values.draw, values.draw, values.draw, values.draw];
    let mut seat: usize = 0;
    while seat < active_player_count
        invariant
            active_player_count <= 4,
            seat <= active_player_count,
            forall|s: int| 0 <= s < 4 ==> #[trigger] seat_scores@[s] == seat_score(scores@, s),
            best == best_score(scores@, active_player_count as int),
            best_count == seats_with_score(scores@, active_player_count as int, best),
            forall|s: int|
                0 <= s < 4 ==> #[trigger] rewards@[s] == if s < seat {
                    seat_reward(scores@, active_player_count as int, values, s)
                } else {
                    values.draw
                },
        decreases active_player_count - seat,
    {
        let score = seat_scores[seat];
        let reward = if score == best && best_count == 1 {
            values.win
        } else if score == best {
            values.draw
        } else {
            values.loss
        };
        rewards.set(seat, reward);
        seat += 1;
    }
    rewards
}

/// How a validation game went for one seat.
#[derive(Clone, Copy, Debug, PartialEq, Eq, Structural)]
pub enum Outcome {
    Win,
    Draw,
    Loss,
}

/// A reward equal to the win value counts as a win, one equal to the loss value as a
/// loss, anything else as a draw.
pub fn reward_outcome(reward: i32, values: RewardValues) -> (outcome: Outcome)
    ensures
        outcome == if reward == values.win {
            Outcome::Win
        } else if reward == values.loss {
            Outcome::Loss
        } else {
            Outcome::Draw
        },
{
    if reward == values.win {
        Outcome::Win
    } else if reward == values.loss {
        Outcome::Loss
    } else {
        Outcome::Draw
    }
}

proof fn lemma_two_best_seats(scores: Seq<PlayerScore>, seats: int, best: i32, a: int, b: int)
    requires
        0 <= a < b < seats,
        seat_score(scores, a) == best,
        seat_score(scores, b) == best,
    ensures
        seats_with_score(scores, seats, best) >= 2,
    decreases seats,
{
    lemma_count_nonneg(scores, seats - 1, best);
    if b < seats - 1 {
        lemma_two_best_seats(scores, seats - 1, best, a, b);
    } else {
        lemma_one_best_seat(scores, seats - 1, best, a);
    }
}

proof fn lemma_one_best_seat(scores: Seq<PlayerScore>, seats: int, best: i32, a: int)
    requires
        0 <= a < seats,
        seat_score(scores, a) == best,
    ensures
        seats_with_score(scores, seats, best) >= 1,
    decreases seats,
{
    lemma_count_nonneg(scores, seats - 1, best);
    if a < seats - 1 {
        lemma_one_best_seat(scores, seats - 1, best, a);
    }
}

proof fn lemma_count_nonneg(scores: Seq<PlayerScore>, seats: int, best: i32)
    ensures
        seats_with_score(scores, seats, best) >= 0,
    decreases seats,
{
    if seats > 0 {
        lemma_count_nonneg(scores, seats - 1, best);
    }
}

/// At most one seat of a game wins, when the win reward differs from the others.
pub proof fn law_at_most_one_winner(
    scores: Seq<PlayerScore>,
    active_player_count: int,
    values: RewardValues,
    a: int,
    b: int,
)
    requires
        values.win != values.draw,
        values.win != values.loss,
        0 <= a < b,
    ensures
        !(seat_reward(scores, active_player_count, values, a) == values.win && seat_reward(
            scores,
            active_player_count,
            values,
            b,
        ) == values.win),
{
    if seat_reward(scores, active_player_count, values, a) == values.win && seat_reward(
        scores,
        active_player_count,
        values,
        b,
    ) == values.win {
        let best = best_score(scores, active_player_count);
        lemma_two_best_seats(scores, active_player_count, best, a, b);
    }
}

} // verus!
