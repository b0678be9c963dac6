use advent_puzzles::memory_game::{play_game, GameError};

#[test]
fn example_seed_turn_4() {
    assert_eq!(play_game(&vec![0, 3, 6], 4), Ok(0));
}

#[test]
fn example_seed_turn_5() {
    assert_eq!(play_game(&vec![0, 3, 6], 5), Ok(3));
}

#[test]
fn example_seed_turn_6() {
    assert_eq!(play_game(&vec![0, 3, 6], 6), Ok(3));
}

#[test]
fn example_seed_turn_7() {
    assert_eq!(play_game(&vec![0, 3, 6], 7), Ok(1));
}

#[test]
fn example_seed_turn_10() {
    assert_eq!(play_game(&vec![0, 3, 6], 10), Ok(0));
}

#[test]
fn example_seed_turn_2020() {
    assert_eq!(play_game(&vec![0, 3, 6], 2020), Ok(436));
}

#[test]
fn further_seeds_turn_2020() {
    assert_eq!(play_game(&vec![1, 3, 2], 2020), Ok(1));
    assert_eq!(play_game(&vec![2, 1, 3], 2020), Ok(10));
    assert_eq!(play_game(&vec![1, 2, 3], 2020), Ok(27));
    assert_eq!(play_game(&vec![2, 3, 1], 2020), Ok(78));
    assert_eq!(play_game(&vec![3, 2, 1], 2020), Ok(438));
    assert_eq!(play_game(&vec![3, 1, 2], 2020), Ok(1836));
}

#[test]
fn too_few_turns_is_invalid_argument() {
    assert_eq!(play_game(&vec![0, 3, 6], 2), Err(GameError::InvalidArgument));
    assert_eq!(play_game(&vec![0, 3, 6], 0), Err(GameError::InvalidArgument));
    assert_eq!(play_game(&vec![7], 0), Err(GameError::InvalidArgument));
}

#[test]
fn minimal_turn_count_returns_last_seed_element() {
    assert_eq!(play_game(&vec![0, 3, 6], 3), Ok(6));
    assert_eq!(play_game(&vec![5], 1), Ok(5));
    assert_eq!(play_game(&vec![9, 4], 2), Ok(4));
}

#[test]
fn one_turn_past_the_seed() {
    // 6 had not been spoken before turn 2, so turn 3 speaks 0
    assert_eq!(play_game(&vec![0, 3, 6], 4), Ok(0));
    // 0 was spoken at turn 0 and again at turn 1, so turn 2 speaks the gap 1
    assert_eq!(play_game(&vec![0, 0], 3), Ok(1));
}

#[test]
fn identical_calls_agree() {
    let seed = vec![0, 20, 7, 16, 1, 18, 15];
    let first = play_game(&seed, 5000);
    let second = play_game(&seed, 5000);
    assert_eq!(first, second);
    assert!(first.is_ok());
}
