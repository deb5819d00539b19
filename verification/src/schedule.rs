//! Self-play scheduling: which models meet in which game, and the small
//! counting rules that decide when a game or generation is recorded.
use vstd::arithmetic::div_mod::{
    lemma_fundamental_div_mod, lemma_fundamental_div_mod_converse, lemma_mod_equivalence,
    lemma_mod_bound,
};
use vstd::prelude::*;

verus! {

pub const PLAYER_COUNT_TWO: usize = 2;

pub const PLAYER_COUNT_FOUR: usize = 4;

/// Owner slots of a game; a two-player game leaves the last two at zero.
pub const MAX_PLAYER_SLOTS: usize = 4;

#[derive(Clone, Copy, Debug, PartialEq, Eq, Structural)]
pub enum ScheduleError {
    /// The agent configuration does not have exactly four owner slots.
    RequiresFourOwnerSlots,
    /// Only two- and four-player games are played.
    InvalidPlayersPerGame(usize),
    PopulationLessThanPlayers { population: usize, players: usize },
    PopulationNotDivisible { population: usize, players: usize },
    /// `population * games_per_model` does not fit in `usize`.
    ParticipationOverflow,
    StrideSearchOverflow,
    CoprimeStrideMissing { population: usize, players: usize },
    DuplicateModel { model: usize, round: usize, group: usize },
    /// A parent was given no slot for its own elite copy.
    ParentSlotBelowEliteCopy,
    /// A pass over the parents dealt no child although children were still owed.
    ChildSequenceStalled,
}

/// A game of the self-play schedule: the population index seated in each owner slot.
#[derive(Clone, Copy, Debug)]
pub struct GameAssignment {
    pub model_indices: [usize; 4],
}

pub open spec fn player_count_allowed(players: int) -> bool {
    players == PLAYER_COUNT_TWO || players == PLAYER_COUNT_FOUR
}

/// Accepts two- and four-player games.
pub fn validate_active_player_count(player_count: usize) -> (result: Result<(), ScheduleError>)
    ensures
        result is Ok <==> player_count_allowed(player_count as int),
        result is Err ==> result == Err::<(), ScheduleError>(
            ScheduleError::InvalidPlayersPerGame(player_count),
        ),
{
    if player_count == PLAYER_COUNT_TWO || player_count == PLAYER_COUNT_FOUR {
        Ok(())
    } else {
        Err(ScheduleError::InvalidPlayersPerGame(player_count))
    }
}

/// A population must fill at least one game.
pub fn require_population_for_player_count(population_size: usize, active_player_count: usize) -> (result: Result<(), ScheduleError>)
    ensures
        result is Ok <==> population_size >= active_player_count,
        result is Err ==> result == Err::<(), ScheduleError>(
            ScheduleError::PopulationLessThanPlayers {
                population: population_size,
                players: active_player_count,
            },
        ),
{
    if population_size < active_player_count {
        return Err(
            ScheduleError::PopulationLessThanPlayers {
                population: population_size,
                players: active_player_count,
            },
        );
    }
    Ok(())
}

/// The checks shared by the game count and the schedule, in the order they are made.
pub open spec fn schedule_check(population: int, games_per_model: int, players: int) -> Option<ScheduleError> {
    if !player_count_allowed(players) {
        Some(ScheduleError::InvalidPlayersPerGame(players as usize))
    } else if population < players {
        Some(
            ScheduleError::PopulationLessThanPlayers {
                population: population as usize,
                players: players as usize,
            },
        )
    } else if population % players != 0 {
        Some(
            ScheduleError::PopulationNotDivisible {
                population: population as usize,
                players: players as usize,
            },
        )
    } else if population * games_per_model > usize::MAX {
        Some(ScheduleError::ParticipationOverflow)
    } else {
        None
    }
}

/// Number of self-play games: each model plays `games_per_model` games.
pub fn expected_self_play_game_count(
    population_size: usize,
    games_per_model: usize,
    active_player_count: usize,
) -> (result: Result<usize, ScheduleError>)
    ensures
        match schedule_check(
            population_size as int,
            games_per_model as int,
            active_player_count as int,
        ) {
            Some(error) => result == Err::<usize, ScheduleError>(error),
            None => result == Ok::<usize, ScheduleError>(
                ((population_size * games_per_model) / active_player_count as int) as usize,
            ),
        },
{
    validate_active_player_count(active_player_count)?;
    require_population_for_player_count(population_size, active_player_count)?;
    if population_size % active_player_count != 0 {
        return Err(
            ScheduleError::PopulationNotDivisible {
                population: population_size,
                players: active_player_count,
            },
        );
    }
    match population_size.checked_mul(games_per_model) {
        Some(participations) => Ok(participations / active_player_count),
        None => Err(ScheduleError::ParticipationOverflow),
    }
}

/// Greatest common divisor by Euclid's algorithm.
pub open spec fn gcd(a: nat, b: nat) -> nat
    decreases b,
{
    if b == 0 {
        a
    } else {
        gcd(b, a % b)
    }
}

pub fn greatest_common_divisor(left: usize, right: usize) -> (divisor: usize)
    ensures
        divisor == gcd(left as nat, right as nat),
{
    let mut left = left;
    let mut right = right;
    let ghost expected = gcd(left as nat, right as nat);
    while right != 0
        invariant
            gcd(left as nat, right as nat) == expected,
        decreases right,
    {
        let remainder = left % right;
        left = right;
        right = remainder;
    }
    left
}

/// `stride` is the first candidate after `players` that is coprime with the population,
/// searched over `population` candidates.
pub open spec fn is_permutation_stride(population: int, players: int, stride: int) -> bool {
    &&& players + 1 <= stride < players + 1 + population
    &&& gcd(stride as nat, population as nat) == 1
    &&& forall|candidate: int|
        players + 1 <= candidate < stride ==> #[trigger] gcd(candidate as nat, population as nat) != 1
}

pub open spec fn permutation_stride(population: int, players: int) -> int {
    choose|stride: int| is_permutation_stride(population, players, stride)
}

proof fn lemma_permutation_stride_unique(population: int, players: int, a: int, b: int)
    requires
        is_permutation_stride(population, players, a),
        is_permutation_stride(population, players, b),
    ensures
        a == b,
{
}

/// A candidate that leaves remainder one is coprime with the population.
proof fn lemma_gcd_of_remainder_one(candidate: nat, population: nat)
    requires
        population > 0,
        population == 1 || candidate % population == 1,
    ensures
        gcd(candidate, population) == 1,
{
    if population == 1 {
        assert(candidate % 1 == 0) by (nonlinear_arith);
        assert(gcd(1, 0) == 1);
    } else {
        assert(gcd(population, 1) == gcd(1, population % 1));
        assert(population % 1 == 0) by (nonlinear_arith);
    }
}

/// A positive population always has a permutation stride.
pub proof fn lemma_permutation_stride_exists(population: int, players: int)
    requires
        population > 0,
        players >= 0,
    ensures
        is_permutation_stride(population, players, permutation_stride(population, players)),
{
    let first = players + 1;
    let k = if population == 1 {
        0
    } else {
        (population + 1 - first % population) % population
    };
    let witness = first + k;
    if population > 1 {
        assert(witness % population == 1) by (nonlinear_arith)
            requires
                population > 1,
                first >= 0,
                k == (population + 1 - first % population) % population,
                witness == first + k,
        {
            vstd::arithmetic::div_mod::lemma_add_mod_noop(first, k, population);
            vstd::arithmetic::div_mod::lemma_mod_twice(first, population);
            vstd::arithmetic::div_mod::lemma_add_mod_noop(
                first % population,
                population + 1 - first % population,
                population,
            );
        }
        assert(0 <= k < population) by (nonlinear_arith)
            requires
                population > 1,
                k == (population + 1 - first % population) % population,
        ;
    }
    lemma_gcd_of_remainder_one(witness as nat, population as nat);
    lemma_first_coprime_exists(population, players, witness);
}

/// The least coprime candidate below a known coprime candidate is the stride.
proof fn lemma_first_coprime_exists(population: int, players: int, witness: int)
    requires
        players + 1 <= witness < players + 1 + population,
        gcd(witness as nat, population as nat) == 1,
    ensures
        is_permutation_stride(population, players, permutation_stride(population, players)),
    decreases witness - players,
{
    if exists|c: int| players + 1 <= c < witness && #[trigger] gcd(c as nat, population as nat) == 1 {
        let c = choose|c: int| players + 1 <= c < witness && #[trigger] gcd(c as nat, population as nat) == 1;
        lemma_first_coprime_exists(population, players, c);
    } else {
        assert(is_permutation_stride(population, players, witness));
    }
}

/// Searches the `population` candidates after `players` for the first one coprime with
/// the population.
pub fn assignment_permutation_stride(population_size: usize, active_player_count: usize) -> (result: Result<usize, ScheduleError>)
    requires
        active_player_count < usize::MAX,
    ensures
        active_player_count + 1 + population_size > usize::MAX ==> result == Err::<
            usize,
            ScheduleError,
        >(ScheduleError::StrideSearchOverflow),
        active_player_count + 1 + population_size <= usize::MAX && population_size == 0
            ==> result == Err::<usize, ScheduleError>(
            ScheduleError::CoprimeStrideMissing {
                population: population_size,
                players: active_player_count,
            },
        ),
        active_player_count + 1 + population_size <= usize::MAX && population_size > 0 ==> (
        result is Ok && is_permutation_stride(
            population_size as int,
            active_player_count as int,
            result->Ok_0 as int,
        ) && result->Ok_0 == permutation_stride(
            population_size as int,
            active_player_count as int,
        )),
{
    let first_candidate = active_player_count + 1;
    let last_candidate = match first_candidate.checked_add(population_size) {
        Some(last) => last,
        None => return Err(ScheduleError::StrideSearchOverflow),
    };
    let mut candidate = first_candidate;
    while candidate < last_candidate
        invariant
            first_candidate == active_player_count + 1,
            last_candidate == first_candidate + population_size,
            first_candidate <= candidate <= last_candidate,
            forall|c: int|
                first_candidate <= c < candidate ==> #[trigger] gcd(c as nat, population_size as nat) != 1,
        decreases last_candidate - candidate,
    {
        if greatest_common_divisor(candidate, population_size) == 1 {
            proof {
                assert(is_permutation_stride(
                    population_size as int,
                    active_player_count as int,
                    candidate as int,
                ));
                lemma_permutation_stride_exists(population_size as int, active_player_count as int);
                lemma_permutation_stride_unique(
                    population_size as int,
                    active_player_count as int,
                    candidate as int,
                    permutation_stride(population_size as int, active_player_count as int),
                );
            }
            return Ok(candidate);
        }
        candidate += 1;
    }
    proof {
        if population_size > 0 {
            lemma_permutation_stride_exists(population_size as int, active_player_count as int);
        }
    }
    Err(
        ScheduleError::CoprimeStrideMissing {
            population: population_size,
            players: active_player_count,
        },
    )
}

/// Bezout coefficients `(x, y)` with `a * x + b * y == gcd(a, b)`.
proof fn lemma_bezout(a: nat, b: nat) -> (xy: (int, int))
    ensures
        a * xy.0 + b * xy.1 == gcd(a, b),
    decreases b,
{
    if b == 0 {
        (1, 0)
    } else {
        let r = a % b;
        let q = a / b;
        let (x, y) = lemma_bezout(b, r);
        lemma_fundamental_div_mod(a as int, b as int);
        let g = gcd(a, b);
        assert(a * y + b * (x - q * y) == g) by (nonlinear_arith)
            requires
                b * x + r * y == g,
                a == b * q + r,
        ;
        (y, x - q * y)
    }
}

/// A factor coprime with `n` can be cancelled from a multiple of `n`.
proof fn lemma_coprime_cancel(s: int, n: int, d: int)
    requires
        n > 0,
        s >= 0,
        gcd(s as nat, n as nat) == 1,
        (d * s) % n == 0,
    ensures
        d % n == 0,
{
    let (x, y) = lemma_bezout(s as nat, n as nat);
    let k = (d * s) / n;
    lemma_fundamental_div_mod(d * s, n);
    let c = k * x + d * y;
    assert(d == c * n) by (nonlinear_arith)
        requires
            s * x + n * y == 1,
            d * s == n * k,
            c == k * x + d * y,
    ;
    lemma_fundamental_div_mod_converse(d, n, c, 0);
}

/// Multiplying by a stride coprime with `n` and shifting is one to one on `[0, n)`.
proof fn lemma_stride_injective(n: int, s: int, t: int, r1: int, r2: int)
    requires
        n > 0,
        s >= 0,
        gcd(s as nat, n as nat) == 1,
        0 <= r1 < n,
        0 <= r2 < n,
        (r1 * s + t) % n == (r2 * s + t) % n,
    ensures
        r1 == r2,
{
    lemma_mod_equivalence(r1 * s + t, r2 * s + t, n);
    assert((r1 * s + t) - (r2 * s + t) == (r1 - r2) * s) by (nonlinear_arith);
    lemma_coprime_cancel(s, n, r1 - r2);
    lemma_fundamental_div_mod(r1 - r2, n);
    let q = (r1 - r2) / n;
    assert(r1 - r2 == 0) by (nonlinear_arith)
        requires
            r1 - r2 == n * q,
            -n < r1 - r2 < n,
            n > 0,
    ;
}

/// Every residue is reached by some rank in `[0, n)`.
proof fn lemma_stride_surjective(n: int, s: int, t: int, m: int) -> (rank: int)
    requires
        n > 0,
        s >= 0,
        gcd(s as nat, n as nat) == 1,
        0 <= m < n,
    ensures
        0 <= rank < n,
        (rank * s + t) % n == m,
{
    let (x, y) = lemma_bezout(s as nat, n as nat);
    let product = (m - t) * x;
    let rank = product % n;
    let q = product / n;
    lemma_fundamental_div_mod(product, n);
    lemma_mod_bound(product, n);
    let k = -((m - t) * y + q * s);
    assert(rank * s + t == k * n + m) by (nonlinear_arith)
        requires
            s * x + n * y == 1,
            product == (m - t) * x,
            product == n * q + rank,
            k == -((m - t) * y + q * s),
    ;
    lemma_fundamental_div_mod_converse(rank * s + t, n, k, m);
    rank
}

/// The population index seated in `slot` of `group` in `round`.
pub open spec fn assigned_model(
    population: int,
    players: int,
    stride: int,
    round: int,
    group: int,
    slot: int,
) -> int {
    ((group * players + slot) * stride + round) % population
}

/// The four owner slots of a game; slots past `players` hold zero.
pub open spec fn assignment_seats(
    population: int,
    players: int,
    stride: int,
    round: int,
    group: int,
) -> Seq<usize> {
    Seq::new(
        MAX_PLAYER_SLOTS as nat,
        |slot: int|
            if slot < players {
                assigned_model(population, players, stride, round, group, slot) as usize
            } else {
                0usize
            },
    )
}

/// Game `i` of the schedule is group `i % groups` of round `i / groups`.
pub open spec fn schedule_matches(
    schedule: Seq<GameAssignment>,
    population: int,
    games_per_model: int,
    players: int,
) -> bool {
    let groups = population / players;
    let stride = permutation_stride(population, players);
    &&& schedule.len() == games_per_model * groups
    &&& forall|i: int|
        0 <= i < schedule.len() ==> (#[trigger] schedule[i]).model_indices@ == assignment_seats(
            population,
            players,
            stride,
            i / groups,
            i % groups,
        )
}

pub open spec fn assignment_check(
    population: int,
    games_per_model: int,
    players: int,
    max_players: int,
) -> Option<ScheduleError> {
    if max_players != MAX_PLAYER_SLOTS {
        Some(ScheduleError::RequiresFourOwnerSlots)
    } else {
        match schedule_check(population, games_per_model, players) {
            Some(error) => Some(error),
            None => if players + 1 + population > usize::MAX {
                Some(ScheduleError::StrideSearchOverflow)
            } else {
                None
            },
        }
    }
}

/// The self-play schedule: in each of `games_per_model` rounds the population is
/// permuted by a stride coprime with its size and cut into games of `players` seats.
pub fn game_assignments(
    population_size: usize,
    games_per_model: usize,
    active_player_count: usize,
    max_players: usize,
) -> (result: Result<Vec<GameAssignment>, ScheduleError>)
    ensures
        match assignment_check(
            population_size as int,
            games_per_model as int,
            active_player_count as int,
            max_players as int,
        ) {
            Some(error) => result == Err::<Vec<GameAssignment>, ScheduleError>(error),
            None => result is Ok && schedule_matches(
                result->Ok_0@,
                population_size as int,
                games_per_model as int,
                active_player_count as int,
            ),
        },
{
    if max_players != MAX_PLAYER_SLOTS {
        return Err(ScheduleError::RequiresFourOwnerSlots);
    }
    validate_active_player_count(active_player_count)?;
    require_population_for_player_count(population_size, active_player_count)?;
    if population_size % active_player_count != 0 {
        return Err(
            ScheduleError::PopulationNotDivisible {
                population: population_size,
                players: active_player_count,
            },
        );
    }
    if population_size.checked_mul(games_per_model).is_none() {
        return Err(ScheduleError::ParticipationOverflow);
    }
    let group_count = population_size / active_player_count;
    let stride = assignment_permutation_stride(population_size, active_player_count)?;
    let ghost n = population_size as int;
    let ghost p = active_player_count as int;
    let ghost groups = group_count as int;
    proof {
        lemma_fundamental_div_mod(n, p);
        assert(groups * p == n && groups >= 1) by (nonlinear_arith)
            requires
                n == p * (n / p) + n % p,
                n % p == 0,
                groups == n / p,
                n >= p,
                p > 0,
        ;
    }
    let mut assignments: Vec<GameAssignment> = Vec::new();
    let mut participation_round: usize = 0;
    while participation_round < games_per_model
        invariant
            n == population_size,
            p == active_player_count,
            groups == group_count,
            player_count_allowed(p),
            n >= p,
            groups * p == n,
            groups >= 1,
            stride == permutation_stride(n, p),
            is_permutation_stride(n, p, stride as int),
            participation_round <= games_per_model,
            assignments.len() == participation_round * groups,
            forall|i: int|
                0 <= i < assignments.len() ==> (#[trigger] assignments@[i]).model_indices@
                    == assignment_seats(n, p, stride as int, i / groups, i % groups),
        decreases games_per_model - participation_round,
    {
        let mut group_index: usize = 0;
        while group_index < group_count
            invariant
                n == population_size,
                p == active_player_count,
                groups == group_count,
                player_count_allowed(p),
                groups * p == n,
                groups >= 1,
                is_permutation_stride(n, p, stride as int),
                participation_round < games_per_model,
                group_index <= group_count,
                assignments.len() == participation_round * groups + group_index,
                forall|i: int|
                    0 <= i < assignments.len() ==> (#[trigger] assignments@[i]).model_indices@
                        == assignment_seats(n, p, stride as int, i / groups, i % groups),
            decreases group_count - group_index,
        {
            let mut model_indices = [0usize; 4];
            let mut player_slot: usize = 0;
            while player_slot < active_player_count
                invariant
                    n == population_size,
                    p == active_player_count,
                    groups == group_count,
                    player_count_allowed(p),
                    groups * p == n,
                    is_permutation_stride(n, p, stride as int),
                    group_index < group_count,
                    player_slot <= active_player_count,
                    model_indices@.len() == MAX_PLAYER_SLOTS,
                    forall|j: int|
                        0 <= j < player_slot ==> #[trigger] model_indices@[j] == assigned_model(
                            n,
                            p,
                            stride as int,
                            participation_round as int,
                            group_index as int,
                            j,
                        ),
                    forall|j: int| player_slot <= j < MAX_PLAYER_SLOTS ==> #[trigger] model_indices@[j] == 0,
                decreases active_player_count - player_slot,
            {
                assert((group_index as int) * p + player_slot < n) by (nonlinear_arith)
                    requires
                        group_index < groups,
                        player_slot < p,
                        groups * p == n,
                ;
                let rank: usize = group_index * active_player_count + player_slot;
                assert((rank as int) * (stride as int) <= (usize::MAX as int) * (usize::MAX as int))
                    by (nonlinear_arith);
                let wide: u128 = (rank as u128) * (stride as u128) + (participation_round as u128);
                let model_index: usize = (wide % (population_size as u128)) as usize;
                let mut previous: usize = 0;
                while previous < player_slot
                    invariant
                        n == population_size,
                        p == active_player_count,
                        player_count_allowed(p),
                        groups * p == n,
                        is_permutation_stride(n, p, stride as int),
                        group_index < group_count,
                        groups == group_count,
                        player_slot < active_player_count,
                        previous <= player_slot,
                        model_indices@.len() == MAX_PLAYER_SLOTS,
                        rank == group_index * p + player_slot,
                        rank < n,
                        model_index == assigned_model(
                            n,
                            p,
                            stride as int,
                            participation_round as int,
                            group_index as int,
                            player_slot as int,
                        ),
                        forall|j: int|
                            0 <= j < player_slot ==> #[trigger] model_indices@[j] == assigned_model(
                                n,
                                p,
                                stride as int,
                                participation_round as int,
                                group_index as int,
                                j,
                            ),
                    decreases player_slot - previous,
                {
                    proof {
                        let other = (group_index as int) * p + previous;
                        assert(0 <= other < n) by (nonlinear_arith)
                            requires
                                other == group_index * p + previous,
                                group_index < groups,
                                previous < p,
                                groups * p == n,
                        ;
                        if model_indices@[previous as int] == model_index {
                            lemma_stride_injective(
                                n,
                                stride as int,
                                participation_round as int,
                                other,
                                rank as int,
                            );
                        }
                    }
                    if model_indices[previous] == model_index {
                        return Err(
                            ScheduleError::DuplicateModel {
                                model: model_index,
                                round: participation_round,
                                group: group_index,
                            },
                        );
                    }
                    previous += 1;
                }
                model_indices[player_slot] = model_index;
                player_slot += 1;
            }
            proof {
                let i = assignments.len() as int;
                assert(i == participation_round * groups + group_index);
                lemma_fundamental_div_mod_converse(
                    i,
                    groups,
                    participation_round as int,
                    group_index as int,
                );
                assert(model_indices@ =~= assignment_seats(
                    n,
                    p,
                    stride as int,
                    participation_round as int,
                    group_index as int,
                ));
            }
            assignments.push(GameAssignment { model_indices });
            group_index += 1;
        }
        assert((participation_round + 1) * groups == participation_round * groups + groups)
            by (nonlinear_arith);
        participation_round += 1;
    }
    Ok(assignments)
}

/// The schedule's parameters are accepted: an allowed player count and a population that
/// splits into whole games.
pub open spec fn schedule_parameters_valid(population: int, players: int) -> bool {
    &&& player_count_allowed(players)
    &&& population >= players
    &&& population % players == 0
}

proof fn lemma_rank_split(population: int, players: int, rank: int) -> (group_slot: (int, int))
    requires
        schedule_parameters_valid(population, players),
        0 <= rank < population,
    ensures
        0 <= group_slot.0 < population / players,
        0 <= group_slot.1 < players,
        rank == group_slot.0 * players + group_slot.1,
{
    let groups = population / players;
    lemma_fundamental_div_mod(population, players);
    lemma_fundamental_div_mod(rank, players);
    lemma_mod_bound(rank, players);
    let group = rank / players;
    let slot = rank % players;
    assert(0 <= group < groups) by (nonlinear_arith)
        requires
            rank == players * group + slot,
            0 <= slot < players,
            0 <= rank < population,
            population == players * groups,
            players > 0,
    ;
    (group, slot)
}

/// In every round of the self-play schedule, each model of the population takes
/// exactly one seat: some group and slot hold it, and no other seat does.
pub proof fn law_each_round_seats_every_model_once(
    population: int,
    players: int,
    round: int,
    model: int,
)
    requires
        schedule_parameters_valid(population, players),
        round >= 0,
        0 <= model < population,
    ensures
        exists|group: int, slot: int|
            0 <= group < population / players && 0 <= slot < players && #[trigger] assigned_model(
                population,
                players,
                permutation_stride(population, players),
                round,
                group,
                slot,
            ) == model,
        forall|g1: int, s1: int, g2: int, s2: int|
            0 <= g1 < population / players && 0 <= s1 < players && 0 <= g2 < population / players
                && 0 <= s2 < players && #[trigger] assigned_model(
                population,
                players,
                permutation_stride(population, players),
                round,
                g1,
                s1,
            ) == model && #[trigger] assigned_model(
                population,
                players,
                permutation_stride(population, players),
                round,
                g2,
                s2,
            ) == model ==> g1 == g2 && s1 == s2,
{
    let stride = permutation_stride(population, players);
    lemma_permutation_stride_exists(population, players);
    let rank = lemma_stride_surjective(population, stride, round, model);
    let (group, slot) = lemma_rank_split(population, players, rank);
    assert(assigned_model(population, players, stride, round, group, slot) == model);
    assert forall|g1: int, s1: int, g2: int, s2: int|
        0 <= g1 < population / players && 0 <= s1 < players && 0 <= g2 < population / players
            && 0 <= s2 < players && #[trigger] assigned_model(
            population,
            players,
            stride,
            round,
            g1,
            s1,
        ) == model && #[trigger] assigned_model(
            population,
            players,
            stride,
            round,
            g2,
            s2,
        ) == model implies g1 == g2 && s1 == s2 by {
        lemma_rank_in_population(population, players, g1, s1);
        lemma_rank_in_population(population, players, g2, s2);
        lemma_stride_injective(population, stride, round, g1 * players + s1, g2 * players + s2);
        lemma_fundamental_div_mod_converse(g1 * players + s1, players, g1, s1);
        lemma_fundamental_div_mod_converse(g2 * players + s2, players, g2, s2);
    }
}

/// How many of the first `players` seats hold `model`.
pub open spec fn seats_of(seats: Seq<usize>, players: int, model: int) -> nat
    decreases players,
{
    if players <= 0 {
        0
    } else {
        seats_of(seats, players - 1, model) + if seats[players - 1] == model {
            1nat
        } else {
            0nat
        }
    }
}

/// How many seats of the schedule's games hold `model`.
pub open spec fn participations(schedule: Seq<GameAssignment>, players: int, model: int) -> nat
    decreases schedule.len(),
{
    if schedule.len() == 0 {
        0
    } else {
        participations(schedule.drop_last(), players, model) + seats_of(
            schedule.last().model_indices@,
            players,
            model,
        )
    }
}

proof fn lemma_seats_in_game(
    population: int,
    players: int,
    round: int,
    group: int,
    model: int,
    home_group: int,
    home_slot: int,
    k: int,
)
    requires
        schedule_parameters_valid(population, players),
        population <= usize::MAX,
        round >= 0,
        0 <= group < population / players,
        0 <= k <= players,
        0 <= model < population,
        0 <= home_slot < players,
        assigned_model(population, players, permutation_stride(population, players), round, home_group, home_slot)
            == model,
        forall|g: int, s: int|
            0 <= g < population / players && 0 <= s < players && #[trigger] assigned_model(
                population,
                players,
                permutation_stride(population, players),
                round,
                g,
                s,
            ) == model ==> g == home_group && s == home_slot,
    ensures
        seats_of(
            assignment_seats(population, players, permutation_stride(population, players), round, group),
            k,
            model,
        ) == if group == home_group && home_slot < k {
            1nat
        } else {
            0nat
        },
    decreases k,
{
    if k > 0 {
        lemma_seats_in_game(population, players, round, group, model, home_group, home_slot, k - 1);
        let stride = permutation_stride(population, players);
        let value = assigned_model(population, players, stride, round, group, k - 1);
        assert(0 <= value < population);
        let seats = assignment_seats(population, players, stride, round, group);
        assert(seats[k - 1] == value as usize);
    }
}

/// Some group before `j` seats `model` in `round`.
pub open spec fn seated_before(population: int, players: int, round: int, model: int, j: int) -> bool {
    exists|g: int, s: int|
        0 <= g < j && 0 <= s < players && #[trigger] assigned_model(
            population,
            players,
            permutation_stride(population, players),
            round,
            g,
            s,
        ) == model
}

proof fn lemma_participations_in_round(
    schedule: Seq<GameAssignment>,
    population: int,
    games_per_model: int,
    players: int,
    model: int,
    round: int,
    j: int,
)
    requires
        schedule_parameters_valid(population, players),
        population <= usize::MAX,
        schedule_matches(schedule, population, games_per_model, players),
        0 <= model < population,
        0 <= round < games_per_model,
        0 <= j <= population / players,
        participations(schedule.take(round * (population / players)), players, model) == round,
    ensures
        participations(schedule.take(round * (population / players) + j), players, model) == round
            + if seated_before(population, players, round, model, j) {
            1int
        } else {
            0int
        },
    decreases j,
{
    let groups = population / players;
    let stride = permutation_stride(population, players);
    lemma_fundamental_div_mod(population, players);
    assert(groups > 0) by (nonlinear_arith)
        requires
            population == players * groups,
            population >= players,
            players > 0,
    ;
    assert(round * groups + j <= games_per_model * groups) by (nonlinear_arith)
        requires
            round < games_per_model,
            j <= groups,
            0 <= round,
            groups > 0,
    ;
    if j > 0 {
        lemma_participations_in_round(schedule, population, games_per_model, players, model, round, j - 1);
        let n = round * groups + (j - 1);
        assert(schedule.take(n + 1).drop_last() =~= schedule.take(n));
        assert(schedule.take(n + 1).last() == schedule[n]);
        lemma_fundamental_div_mod_converse(n, groups, round, j - 1);
        assert(schedule[n].model_indices@ == assignment_seats(population, players, stride, round, j - 1));
        law_each_round_seats_every_model_once(population, players, round, model);
        let (hg, hs) = choose|g: int, s: int|
            0 <= g < groups && 0 <= s < players && #[trigger] assigned_model(
                population,
                players,
                stride,
                round,
                g,
                s,
            ) == model;
        lemma_seats_in_game(population, players, round, j - 1, model, hg, hs, players);
        assert(seated_before(population, players, round, model, j) == (hg < j)) by {
            if seated_before(population, players, round, model, j) {
                let (g1, s1) = choose|g: int, s: int|
                    0 <= g < j && 0 <= s < players && #[trigger] assigned_model(
                        population,
                        players,
                        stride,
                        round,
                        g,
                        s,
                    ) == model;
                assert(g1 == hg && s1 == hs);
            }
            if hg < j {
                assert(assigned_model(population, players, stride, round, hg, hs) == model);
            }
        }
        assert(seated_before(population, players, round, model, j - 1) == (hg < j - 1)) by {
            if seated_before(population, players, round, model, j - 1) {
                let (g1, s1) = choose|g: int, s: int|
                    0 <= g < j - 1 && 0 <= s < players && #[trigger] assigned_model(
                        population,
                        players,
                        stride,
                        round,
                        g,
                        s,
                    ) == model;
                assert(g1 == hg && s1 == hs);
            }
            if hg < j - 1 {
                assert(assigned_model(population, players, stride, round, hg, hs) == model);
            }
        }
    }
}

proof fn lemma_participations_by_round(
    schedule: Seq<GameAssignment>,
    population: int,
    games_per_model: int,
    players: int,
    model: int,
    round: int,
)
    requires
        schedule_parameters_valid(population, players),
        population <= usize::MAX,
        schedule_matches(schedule, population, games_per_model, players),
        0 <= model < population,
        0 <= round <= games_per_model,
    ensures
        participations(schedule.take(round * (population / players)), players, model) == round,
    decreases round,
{
    if round == 0 {
        assert(schedule.take(0) =~= Seq::<GameAssignment>::empty());
    } else {
        let groups = population / players;
        lemma_participations_by_round(schedule, population, games_per_model, players, model, round - 1);
        lemma_participations_in_round(
            schedule,
            population,
            games_per_model,
            players,
            model,
            round - 1,
            groups,
        );
        law_each_round_seats_every_model_once(population, players, round - 1, model);
        assert(seated_before(population, players, round - 1, model, groups));
        assert((round - 1) * groups + groups == round * groups) by (nonlinear_arith);
    }
}

/// Over the whole self-play schedule, every model of the population takes exactly
/// `games_per_model` seats.
pub proof fn law_every_model_plays_games_per_model(
    schedule: Seq<GameAssignment>,
    population: int,
    games_per_model: int,
    players: int,
    model: int,
)
    requires
        schedule_parameters_valid(population, players),
        population <= usize::MAX,
        games_per_model >= 0,
        schedule_matches(schedule, population, games_per_model, players),
        0 <= model < population,
    ensures
        participations(schedule, players, model) == games_per_model,
{
    lemma_participations_by_round(schedule, population, games_per_model, players, model, games_per_model);
    assert(schedule.take(games_per_model * (population / players)) =~= schedule);
}

proof fn lemma_rank_in_population(population: int, players: int, group: int, slot: int)
    requires
        schedule_parameters_valid(population, players),
        0 <= group < population / players,
        0 <= slot < players,
    ensures
        0 <= group * players + slot < population,
{
    lemma_fundamental_div_mod(population, players);
    let groups = population / players;
    assert(0 <= group * players + slot < population) by (nonlinear_arith)
        requires
            population == players * groups,
            0 <= group < groups,
            0 <= slot < players,
    ;
}

/// No game of the schedule seats a model twice.
pub proof fn law_game_seats_are_distinct(
    population: int,
    players: int,
    round: int,
    group: int,
    slot: int,
    other_slot: int,
)
    requires
        schedule_parameters_valid(population, players),
        round >= 0,
        0 <= group < population / players,
        0 <= slot < players,
        0 <= other_slot < players,
        slot != other_slot,
    ensures
        assigned_model(population, players, permutation_stride(population, players), round, group, slot)
            != assigned_model(
            population,
            players,
            permutation_stride(population, players),
            round,
            group,
            other_slot,
        ),
{
    let stride = permutation_stride(population, players);
    lemma_permutation_stride_exists(population, players);
    lemma_rank_in_population(population, players, group, slot);
    lemma_rank_in_population(population, players, group, other_slot);
    if assigned_model(population, players, stride, round, group, slot) == assigned_model(
        population,
        players,
        stride,
        round,
        group,
        other_slot,
    ) {
        lemma_stride_injective(
            population,
            stride,
            round,
            group * players + slot,
            group * players + other_slot,
        );
    }
}

/// Worker threads used by the trainer for CPU work.
pub const TRAINING_CPU_WORKER_COUNT: usize = 12;

/// A generation is scheduled when it is a multiple of the interval.
pub fn scheduled_generation(generation: usize, interval: usize) -> (scheduled: bool)
    requires
        interval > 0,
    ensures
        scheduled == (generation % interval == 0),
{
    generation % interval == 0
}

/// Games recorded for the live replay: the first ones, up to the configured count.
pub fn live_replay_capture_count(total_game_count: usize, live_replay_enabled: bool, live_replay_game_count: usize) -> (count: usize)
    ensures
        count == if live_replay_enabled {
            if total_game_count < live_replay_game_count {
                total_game_count
            } else {
                live_replay_game_count
            }
        } else {
            0
        },
{
    if live_replay_enabled {
        if total_game_count < live_replay_game_count {
            total_game_count
        } else {
            live_replay_game_count
        }
    } else {
        0
    }
}

pub fn captures_live_replay(game_index: usize, live_capture_count: usize) -> (captured: bool)
    ensures
        captured == (game_index < live_capture_count),
{
    game_index < live_capture_count
}

pub fn captures_generation_replay(game_index: usize, captured_replay_game_count: usize) -> (captured: bool)
    ensures
        captured == (game_index < captured_replay_game_count),
{
    game_index < captured_replay_game_count
}

/// The live replay is rewritten every `update_interval_turns` turns while games are captured.
pub fn should_write_live_replay(live_capture_count: usize, turn_index: usize, update_interval_turns: usize) -> (write: bool)
    requires
        live_capture_count > 0 ==> update_interval_turns > 0,
    ensures
        write == (live_capture_count > 0 && turn_index % update_interval_turns == 0),
{
    live_capture_count > 0 && turn_index % update_interval_turns == 0
}

/// Whether a replay that already holds `frame_count` frames records the frame of `step`:
/// never once `max_frames` are held, always when none is held yet, and otherwise on
/// every `frame_stride`-th step.
pub fn replay_frame_is_recorded(frame_count: usize, step: usize, frame_stride: usize, max_frames: usize) -> (recorded: bool)
    requires
        frame_count < max_frames ==> frame_stride > 0,
    ensures
        recorded == (frame_count < max_frames && (frame_count == 0 || step % frame_stride == 0)),
{
    if frame_count >= max_frames {
        return false;
    }
    if step % frame_stride != 0 && frame_count != 0 {
        return false;
    }
    true
}

/// Between one and `TRAINING_CPU_WORKER_COUNT` workers, one per item at most.
pub fn worker_count_for_len(len: usize) -> (workers: usize)
    ensures
        workers == if len < 1 {
            1
        } else if len > TRAINING_CPU_WORKER_COUNT {
            TRAINING_CPU_WORKER_COUNT
        } else {
            len
        },
{
    if len < 1 {
        1
    } else if len > TRAINING_CPU_WORKER_COUNT {
        TRAINING_CPU_WORKER_COUNT
    } else {
        len
    }
}

/// Items per worker: `len` divided by the worker count (at least one), rounded up,
/// and never below one.
pub fn chunk_size_for_workers(len: usize, worker_count: usize) -> (chunk: usize)
    ensures
        ({
            let workers = if worker_count < 1 {
                1
            } else {
                worker_count as int
            };
            let ceiling = (len as int + workers - 1) / workers;
            chunk == if ceiling < 1 {
                1
            } else {
                ceiling
            }
        }),
{
    let workers = if worker_count < 1 {
        1
    } else {
        worker_count
    };
    proof {
        let w = workers as int;
        let l = len as int;
        lemma_fundamental_div_mod(l, w);
        lemma_mod_bound(l, w);
        let q = l / w;
        let r = l % w;
        assert(r != 0 ==> q + 1 <= usize::MAX) by (nonlinear_arith)
            requires
                l == w * q + r,
                0 <= r < w,
                l <= usize::MAX,
                w >= 1,
        ;
        if r != 0 {
            assert(l + w - 1 == (q + 1) * w + (r - 1)) by (nonlinear_arith)
                requires
                    l == w * q + r,
            ;
            lemma_fundamental_div_mod_converse(l + w - 1, w, q + 1, r - 1);
        } else {
            assert(l + w - 1 == q * w + (w - 1)) by (nonlinear_arith)
                requires
                    l == w * q + r,
                    r == 0,
            ;
            lemma_fundamental_div_mod_converse(l + w - 1, w, q, w - 1);
        }
    }
    let ceiling = len / workers + if len % workers != 0 {
        1
    } else {
        0
    };
    if ceiling < 1 {
        1
    } else {
        ceiling
    }
}

/// The training sample of a decoded request: requests count on from the first
/// sample recorded for the batch.
pub fn decode_sample_index(first_sample_index: Option<usize>, request_index: usize) -> (index: Option<usize>)
    requires
        first_sample_index is Some ==> first_sample_index->Some_0 + request_index <= usize::MAX,
    ensures
        index == match first_sample_index {
            Some(first) => Some((first + request_index) as usize),
            None => None::<usize>,
        },
{
    match first_sample_index {
        Some(first_index) => Some(first_index + request_index),
        None => None,
    }
}

/// Seat `seat` of game `game` in round `round` of the arena tournament: the models are
/// rotated by `7 * round`, every odd round walks them backwards, and consecutive runs of
/// `players` models form the games.
pub open spec fn tournament_seat(models: int, players: int, round: int, game: int, seat: int) -> int {
    let position = game * players + seat;
    let walked = if round % 2 == 1 {
        models - 1 - position
    } else {
        position
    };
    (walked + (round * 7) % models) % models
}

/// Seat `seat` of the `round`-th game of `group`: the group's models rotated left by
/// `round % players`, and walked backwards in odd rounds.
pub open spec fn grouped_tournament_seat(players: int, group: int, round: int, seat: int) -> int {
    let walked = if round % 2 == 1 {
        players - 1 - seat
    } else {
        seat
    };
    group * players + (walked + round % players) % players
}

pub open spec fn tournament_is_empty(models: int, players: int, games_per_model: int) -> bool {
    models == 0 || players == 0 || games_per_model == 0
}

/// `(value + offset) % modulus` for `value, offset < modulus`, without overflow.
fn add_mod(value: usize, offset: usize, modulus: usize) -> (sum: usize)
    requires
        value < modulus,
        offset < modulus,
    ensures
        sum == (value + offset) % (modulus as int),
{
    if value >= modulus - offset {
        proof {
            lemma_fundamental_div_mod_converse(value + offset, modulus as int, 1, value + offset - modulus);
        }
        value - (modulus - offset)
    } else {
        proof {
            lemma_fundamental_div_mod_converse(value + offset, modulus as int, 0, value + offset);
        }
        value + offset
    }
}

/// The arena's round-robin tournament over a model list.
pub fn tournament_schedule(model_count: usize, players: usize, games_per_model: usize) -> (games: Vec<Vec<usize>>)
    ensures
        games@.len() == if tournament_is_empty(
            model_count as int,
            players as int,
            games_per_model as int,
        ) {
            0
        } else {
            games_per_model * (model_count / players) as int
        },
        forall|t: int|
            0 <= t < games@.len() ==> (#[trigger] games@[t])@.len() == players && forall|seat: int|
                0 <= seat < players ==> #[trigger] games@[t]@[seat] == tournament_seat(
                    model_count as int,
                    players as int,
                    t / (model_count / players) as int,
                    t % (model_count / players) as int,
                    seat,
                ),
{
    let mut games: Vec<Vec<usize>> = Vec::new();
    if model_count == 0 || players == 0 || games_per_model == 0 {
        return games;
    }
    let game_count = model_count / players;
    let ghost m = model_count as int;
    let ghost p = players as int;
    let ghost per_round = game_count as int;
    proof {
        lemma_fundamental_div_mod(m, p);
        lemma_mod_bound(m, p);
    }
    let mut round: usize = 0;
    while round < games_per_model
        invariant
            m == model_count,
            p == players,
            per_round == game_count,
            m > 0,
            p > 0,
            game_count == m / p,
            m == p * per_round + m % p,
            0 <= m % p < p,
            round <= games_per_model,
            games@.len() == round * per_round,
            forall|t: int|
                0 <= t < games@.len() ==> (#[trigger] games@[t])@.len() == players && forall|
                    seat: int,
                | 0 <= seat < players ==> #[trigger] games@[t]@[seat] == tournament_seat(
                    m,
                    p,
                    t / per_round,
                    t % per_round,
                    seat,
                ),
        decreases games_per_model - round,
    {
        let offset = ((round as u128 * 7) % (model_count as u128)) as usize;
        let odd = round % 2 == 1;
        let mut game: usize = 0;
        while game < game_count
            invariant
                m == model_count,
                p == players,
                per_round == game_count,
                m > 0,
                p > 0,
                m == p * per_round + m % p,
                0 <= m % p < p,
                round < games_per_model,
                offset == (round * 7) % m,
                odd == (round % 2 == 1),
                game <= game_count,
                games@.len() == round * per_round + game,
                forall|t: int|
                    0 <= t < games@.len() ==> (#[trigger] games@[t])@.len() == players && forall|
                        seat: int,
                    | 0 <= seat < players ==> #[trigger] games@[t]@[seat] == tournament_seat(
                        m,
                        p,
                        t / per_round,
                        t % per_round,
                        seat,
                    ),
            decreases game_count - game,
        {
            let mut seats: Vec<usize> = Vec::new();
            let mut seat: usize = 0;
            while seat < players
                invariant
                    m == model_count,
                    p == players,
                    per_round == game_count,
                    m == p * per_round + m % p,
                    0 <= m % p < p,
                    offset == (round * 7) % m,
                    odd == (round % 2 == 1),
                    m > 0,
                    game < game_count,
                    seat <= players,
                    seats@.len() == seat,
                    forall|j: int|
                        0 <= j < seat ==> #[trigger] seats@[j] == tournament_seat(
                            m,
                            p,
                            round as int,
                            game as int,
                            j,
                        ),
                decreases players - seat,
            {
                assert(game * p + seat < m) by (nonlinear_arith)
                    requires
                        game < per_round,
                        seat < p,
                        m == p * per_round + m % p,
                        0 <= m % p,
                ;
                let position = game * players + seat;
                let walked = if odd {
                    model_count - 1 - position
                } else {
                    position
                };
                proof {
                    lemma_mod_bound(round * 7, m);
                }
                seats.push(add_mod(walked, offset, model_count));
                seat += 1;
            }
            proof {
                let t = games@.len() as int;
                lemma_fundamental_div_mod_converse(t, per_round, round as int, game as int);
            }
            games.push(seats);
            game += 1;
        }
        assert((round + 1) * per_round == round * per_round + per_round) by (nonlinear_arith);
        round += 1;
    }
    games
}

/// The arena tournament that keeps each group of `players` consecutive models together
/// for all of its rounds.
pub fn grouped_tournament_schedule(model_count: usize, players: usize, games_per_model: usize) -> (games: Vec<Vec<usize>>)
    ensures
        games@.len() == if tournament_is_empty(
            model_count as int,
            players as int,
            games_per_model as int,
        ) {
            0
        } else {
            (model_count / players) as int * games_per_model
        },
        forall|t: int|
            0 <= t < games@.len() ==> (#[trigger] games@[t])@.len() == players && forall|seat: int|
                0 <= seat < players ==> #[trigger] games@[t]@[seat] == grouped_tournament_seat(
                    players as int,
                    t / games_per_model as int,
                    t % games_per_model as int,
                    seat,
                ),
{
    let mut games: Vec<Vec<usize>> = Vec::new();
    if model_count == 0 || players == 0 || games_per_model == 0 {
        return games;
    }
    let group_count = model_count / players;
    let ghost m = model_count as int;
    let ghost p = players as int;
    let ghost g = games_per_model as int;
    proof {
        lemma_fundamental_div_mod(m, p);
        lemma_mod_bound(m, p);
    }
    let mut group: usize = 0;
    while group < group_count
        invariant
            m == model_count,
            p == players,
            g == games_per_model,
            m > 0,
            p > 0,
            g > 0,
            group_count == m / p,
            m == p * group_count + m % p,
            0 <= m % p < p,
            group <= group_count,
            games@.len() == group * g,
            forall|t: int|
                0 <= t < games@.len() ==> (#[trigger] games@[t])@.len() == players && forall|
                    seat: int,
                | 0 <= seat < players ==> #[trigger] games@[t]@[seat] == grouped_tournament_seat(
                    p,
                    t / g,
                    t % g,
                    seat,
                ),
        decreases group_count - group,
    {
        let mut round: usize = 0;
        while round < games_per_model
            invariant
                m == model_count,
                p == players,
                g == games_per_model,
                p > 0,
                g > 0,
                m == p * group_count + m % p,
                0 <= m % p < p,
                group < group_count,
                round <= games_per_model,
                games@.len() == group * g + round,
                forall|t: int|
                    0 <= t < games@.len() ==> (#[trigger] games@[t])@.len() == players && forall|
                        seat: int,
                    | 0 <= seat < players ==> #[trigger] games@[t]@[seat]
                        == grouped_tournament_seat(p, t / g, t % g, seat),
            decreases games_per_model - round,
        {
            let shift = round % players;
            let odd = round % 2 == 1;
            let mut participants: Vec<usize> = Vec::new();
            let mut seat: usize = 0;
            while seat < players
                invariant
                    m == model_count,
                    p == players,
                    p > 0,
                    m == p * group_count + m % p,
                    0 <= m % p < p,
                    group < group_count,
                    shift == round as int % p,
                    odd == (round % 2 == 1),
                    seat <= players,
                    participants@.len() == seat,
                    forall|j: int|
                        0 <= j < seat ==> #[trigger] participants@[j] == grouped_tournament_seat(
                            p,
                            group as int,
                            round as int,
                            j,
                        ),
                decreases players - seat,
            {
                let walked = if odd {
                    players - 1 - seat
                } else {
                    seat
                };
                let within = add_mod(walked, shift, players);
                assert(group * p + within < m) by (nonlinear_arith)
                    requires
                        group < group_count,
                        within < p,
                        m == p * group_count + m % p,
                        0 <= m % p,
                ;
                participants.push(group * players + within);
                seat += 1;
            }
            proof {
                let t = games@.len() as int;
                lemma_fundamental_div_mod_converse(t, g, group as int, round as int);
            }
            games.push(participants);
            round += 1;
        }
        assert((group + 1) * g == group * g + g) by (nonlinear_arith);
        group += 1;
    }
    games
}

/// Shifting by a common offset keeps distinct residues distinct.
proof fn lemma_shift_injective(modulus: int, offset: int, x: int, y: int)
    requires
        modulus > 0,
        0 <= x < modulus,
        0 <= y < modulus,
        (x + offset) % modulus == (y + offset) % modulus,
    ensures
        x == y,
{
    lemma_mod_equivalence(x + offset, y + offset, modulus);
    lemma_fundamental_div_mod(x - y, modulus);
    let q = (x - y) / modulus;
    assert(x - y == 0) by (nonlinear_arith)
        requires
            x - y == modulus * q + (x - y) % modulus,
            (x - y) % modulus == 0,
            -modulus < x - y < modulus,
    ;
}

/// Every game of the arena tournament seats distinct models of the list.
pub proof fn law_tournament_game_seats_are_distinct(
    models: int,
    players: int,
    round: int,
    game: int,
    seat: int,
    other_seat: int,
)
    requires
        models > 0,
        players > 0,
        round >= 0,
        0 <= game < models / players,
        0 <= seat < players,
        0 <= other_seat < players,
    ensures
        0 <= tournament_seat(models, players, round, game, seat) < models,
        seat != other_seat ==> tournament_seat(models, players, round, game, seat) != tournament_seat(
            models,
            players,
            round,
            game,
            other_seat,
        ),
{
    lemma_fundamental_div_mod(models, players);
    lemma_mod_bound(models, players);
    let per_round = models / players;
    assert(game * players + seat < models && game * players + other_seat < models)
        by (nonlinear_arith)
        requires
            0 <= game < per_round,
            0 <= seat < players,
            0 <= other_seat < players,
            models == players * per_round + models % players,
            0 <= models % players,
    ;
    assert(0 <= game * players) by (nonlinear_arith)
        requires
            game >= 0,
            players > 0,
    ;
    let offset = (round * 7) % models;
    let position = game * players + seat;
    let other_position = game * players + other_seat;
    let walked = if round % 2 == 1 {
        models - 1 - position
    } else {
        position
    };
    let other_walked = if round % 2 == 1 {
        models - 1 - other_position
    } else {
        other_position
    };
    lemma_mod_bound(walked + offset, models);
    if seat != other_seat && tournament_seat(models, players, round, game, seat) == tournament_seat(
        models,
        players,
        round,
        game,
        other_seat,
    ) {
        lemma_shift_injective(models, offset, walked, other_walked);
    }
}

/// Every game of the grouped tournament seats each model of its group exactly once.
pub proof fn law_grouped_game_seats_its_group(
    players: int,
    group: int,
    round: int,
    seat: int,
    other_seat: int,
)
    requires
        players > 0,
        group >= 0,
        round >= 0,
        0 <= seat < players,
        0 <= other_seat < players,
    ensures
        group * players <= grouped_tournament_seat(players, group, round, seat) < group * players
            + players,
        seat != other_seat ==> grouped_tournament_seat(players, group, round, seat)
            != grouped_tournament_seat(players, group, round, other_seat),
{
    let shift = round % players;
    lemma_mod_bound(round, players);
    let walked = if round % 2 == 1 {
        players - 1 - seat
    } else {
        seat
    };
    let other_walked = if round % 2 == 1 {
        players - 1 - other_seat
    } else {
        other_seat
    };
    lemma_mod_bound(walked + shift, players);
    if seat != other_seat && grouped_tournament_seat(players, group, round, seat)
        == grouped_tournament_seat(players, group, round, other_seat) {
        lemma_shift_injective(players, shift, walked, other_walked);
    }
}

/// The first round of the arena tournament seats the models in list order, the second
/// walks the list backwards from a rotation of seven, and every round is the round two
/// before it rotated by fourteen more.
pub proof fn law_tournament_rounds_rotate_by_seven(models: int, players: int, round: int, game: int, seat: int)
    requires
        models > 0,
        round >= 0,
        0 <= game * players + seat < models,
    ensures
        tournament_seat(models, players, 0, game, seat) == game * players + seat,
        tournament_seat(models, players, 1, game, seat) == (models - 1 - (game * players + seat)
            + 7) % models,
        tournament_seat(models, players, round + 2, game, seat) == (tournament_seat(
            models,
            players,
            round,
            game,
            seat,
        ) + 14) % models,
{
    let position = game * players + seat;
    vstd::arithmetic::div_mod::lemma_small_mod(position as nat, models as nat);
    vstd::arithmetic::div_mod::lemma_small_mod(0, models as nat);
    assert(tournament_seat(models, players, 0, game, seat) == position);
    let backwards = models - 1 - position;
    vstd::arithmetic::div_mod::lemma_small_mod(backwards as nat, models as nat);
    vstd::arithmetic::div_mod::lemma_add_mod_noop(backwards, 7, models);
    vstd::arithmetic::div_mod::lemma_mod_twice(7, models);
    assert(1int * 7 == 7);
    assert(tournament_seat(models, players, 1, game, seat) == (backwards + 7int % models) % models);
    assert((round + 2) % 2 == round % 2);
    let walked = if round % 2 == 1 {
        models - 1 - position
    } else {
        position
    };
    assert(0 <= walked < models);
    assert((round + 2) * 7 == round * 7 + 14);
    // (walked + (7r + 14) % m) % m == ((walked + (7r) % m) % m + 14) % m
    vstd::arithmetic::div_mod::lemma_add_mod_noop(walked, round * 7 + 14, models);
    vstd::arithmetic::div_mod::lemma_add_mod_noop(walked, round * 7, models);
    vstd::arithmetic::div_mod::lemma_small_mod(walked as nat, models as nat);
    vstd::arithmetic::div_mod::lemma_mod_twice(round * 7 + 14, models);
    vstd::arithmetic::div_mod::lemma_mod_twice(round * 7, models);
    vstd::arithmetic::div_mod::lemma_add_mod_noop(walked + round * 7, 14, models);
    vstd::arithmetic::div_mod::lemma_mod_twice(walked + round * 7, models);
    vstd::arithmetic::div_mod::lemma_add_mod_noop((walked + round * 7) % models, 14, models);
}

/// In the grouped tournament the first round seats a group's models in order, the
/// second walks them backwards shifted by one, and every round is the round two before
/// it shifted by two more within the group.
pub proof fn law_grouped_rounds_shift_within_the_group(players: int, group: int, round: int, seat: int)
    requires
        players > 0,
        round >= 0,
        0 <= seat < players,
    ensures
        grouped_tournament_seat(players, group, 0, seat) == group * players + seat,
        grouped_tournament_seat(players, group, 1, seat) == group * players + (players - 1 - seat
            + 1) % players,
        grouped_tournament_seat(players, group, round + 2, seat) - group * players == (
        grouped_tournament_seat(players, group, round, seat) - group * players + 2) % players,
{
    vstd::arithmetic::div_mod::lemma_small_mod(seat as nat, players as nat);
    vstd::arithmetic::div_mod::lemma_small_mod(0, players as nat);
    let backwards = players - 1 - seat;
    vstd::arithmetic::div_mod::lemma_small_mod(backwards as nat, players as nat);
    vstd::arithmetic::div_mod::lemma_add_mod_noop(backwards, 1, players);
    vstd::arithmetic::div_mod::lemma_mod_twice(1, players);
    assert((round + 2) % 2 == round % 2);
    let walked = if round % 2 == 1 {
        backwards
    } else {
        seat
    };
    vstd::arithmetic::div_mod::lemma_small_mod(walked as nat, players as nat);
    vstd::arithmetic::div_mod::lemma_add_mod_noop(walked, round + 2, players);
    vstd::arithmetic::div_mod::lemma_add_mod_noop(walked, round, players);
    vstd::arithmetic::div_mod::lemma_add_mod_noop(walked + round, 2, players);
    vstd::arithmetic::div_mod::lemma_mod_twice(walked + round, players);
    vstd::arithmetic::div_mod::lemma_mod_twice(round + 2, players);
    vstd::arithmetic::div_mod::lemma_mod_twice(round, players);
    vstd::arithmetic::div_mod::lemma_add_mod_noop((walked + round) % players, 2, players);
}

} // verus!
