use orbit_wars::rewards::{final_rewards, reward_outcome, Outcome, RewardValues};
use orbit_wars::types::{owner_class_for_planet, EncodeError, OwnerClass, PlayerScore};

const VALUES: RewardValues = RewardValues { win: 1, draw: 0, loss: -1 };

fn scores(ships: &[i32]) -> Vec<PlayerScore> {
    ships
        .iter()
        .enumerate()
        .map(|(player, ships)| PlayerScore { player: player as i32, ships: *ships })
        .collect()
}

#[test]
fn single_best_score_wins() {
    assert_eq!(final_rewards(&scores(&[10, 30, 20, 5]), 4, VALUES), [-1, 1, -1, -1]);
}

#[test]
fn shared_best_score_draws() {
    assert_eq!(final_rewards(&scores(&[30, 30, 20, 5]), 4, VALUES), [0, 0, -1, -1]);
}

#[test]
fn seats_beyond_the_game_draw() {
    assert_eq!(final_rewards(&scores(&[3, 7, 99, 99]), 2, VALUES), [-1, 1, 0, 0]);
    assert_eq!(final_rewards(&scores(&[3, 7]), 0, VALUES), [0, 0, 0, 0]);
}

#[test]
fn missing_scores_count_as_zero() {
    let only_second = vec![PlayerScore { player: 1, ships: -4 }, PlayerScore { player: 9, ships: 50 }];
    assert_eq!(final_rewards(&only_second, 2, VALUES), [1, -1, 0, 0]);
}

#[test]
fn reward_outcomes() {
    assert_eq!(reward_outcome(1, VALUES), Outcome::Win);
    assert_eq!(reward_outcome(-1, VALUES), Outcome::Loss);
    assert_eq!(reward_outcome(0, VALUES), Outcome::Draw);
    assert_eq!(reward_outcome(5, VALUES), Outcome::Draw);
}

#[test]
fn owner_classes_rank_opponents() {
    assert_eq!(owner_class_for_planet(-1, 2, 4), Ok(OwnerClass::Neutral));
    assert_eq!(owner_class_for_planet(2, 2, 4), Ok(OwnerClass::Own));
    assert_eq!(owner_class_for_planet(0, 1, 4), Ok(OwnerClass::Enemy(0)));
    assert_eq!(owner_class_for_planet(2, 1, 4), Ok(OwnerClass::Enemy(1)));
    assert_eq!(owner_class_for_planet(3, 1, 4), Ok(OwnerClass::Enemy(2)));
    assert_eq!(owner_class_for_planet(3, 0, 4), Ok(OwnerClass::Enemy(2)));
}

#[test]
fn owner_class_errors() {
    assert_eq!(owner_class_for_planet(4, 0, 4), Err(EncodeError::InvalidOwnerClass));
    assert_eq!(owner_class_for_planet(1, -1, 4), Err(EncodeError::InvalidOwnerClass));
    assert_eq!(owner_class_for_planet(4, 0, 6), Err(EncodeError::InvalidOwnerClass));
    assert_eq!(owner_class_for_planet(1, 0, 6), Ok(OwnerClass::Enemy(0)));
}
