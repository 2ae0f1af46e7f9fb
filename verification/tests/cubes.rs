use advent::day::{Day, Error};
use advent::day2::{Bag, Color, Day2, Game, GameError, Round, Withdraw};
use std::str::FromStr;

fn games(text: &[&str]) -> Vec<Game> {
    text.iter().map(|l| Game::from_str(l).unwrap()).collect()
}

fn sample() -> Vec<Game> {
    games(&[
        "Game 1: 3 blue, 4 red; 1 red, 2 green, 6 blue; 2 green",
        "Game 2: 1 blue, 2 green; 3 green, 4 blue, 1 red; 1 green, 1 blue",
        "Game 3: 8 green, 6 blue, 20 red; 5 blue, 4 red, 13 green; 5 green, 1 red",
        "Game 4: 1 green, 3 red, 6 blue; 3 green, 6 red; 3 green, 15 blue, 14 red",
        "Game 5: 6 red, 1 blue, 3 green; 2 blue, 1 red, 2 green",
    ])
}

fn counts(bag: &Bag) -> (u64, u64, u64) {
    (bag.red, bag.green, bag.blue)
}

#[test]
fn colour_names() {
    assert_eq!(Color::from_str("red"), Ok(Color::Red));
    assert_eq!(Color::from_str("green"), Ok(Color::Green));
    assert_eq!(Color::from_str("blue"), Ok(Color::Blue));
    assert_eq!(Color::from_str("Red"), Err(GameError::UnknownColor));
    assert_eq!(Color::from_str("re"), Err(GameError::UnknownColor));
    assert_eq!(Color::from_str("reds"), Err(GameError::UnknownColor));
    assert_eq!(Color::from_str(""), Err(GameError::UnknownColor));
}

#[test]
fn withdrawal_reads_count_and_colour() {
    let w = Withdraw::from_str(" 3 blue").unwrap();
    assert_eq!((w.count, w.color), (3, Color::Blue));
    let w = Withdraw::from_str("20 red ").unwrap();
    assert_eq!((w.count, w.color), (20, Color::Red));
    let w = Withdraw::from_str("1 green and more").unwrap();
    assert_eq!((w.count, w.color), (1, Color::Green));
}

#[test]
fn withdrawal_faults() {
    assert_eq!(Withdraw::from_str("").err(), Some(GameError::InvalidNumber));
    assert_eq!(Withdraw::from_str("blue 3").err(), Some(GameError::InvalidNumber));
    assert_eq!(Withdraw::from_str("3").err(), Some(GameError::MissingColor));
    assert_eq!(Withdraw::from_str("3  blue").err(), Some(GameError::UnknownColor));
    assert_eq!(Withdraw::from_str("3 pink").err(), Some(GameError::UnknownColor));
}

#[test]
fn round_reads_withdrawals() {
    let round = Round::from_str(" 1 red, 2 green, 6 blue").unwrap();
    let read: Vec<(u64, Color)> = round.0.iter().map(|w| (w.count, w.color)).collect();
    assert_eq!(read, vec![(1, Color::Red), (2, Color::Green), (6, Color::Blue)]);
    assert_eq!(Round::from_str("1 red,").err(), Some(GameError::InvalidNumber));
    assert_eq!(Round::from_str("1 red, 2 grey, x").err(), Some(GameError::UnknownColor));
}

#[test]
fn game_reads_number_and_rounds() {
    let game = Game::from_str("Game 12: 3 blue, 4 red; 2 green").unwrap();
    assert_eq!(game.id, 12);
    assert_eq!(game.rounds.len(), 2);
    assert_eq!(game.rounds[0].0.len(), 2);
    assert_eq!(game.rounds[1].0[0].count, 2);
    let odd = Game::from_str("Game Game 7: 1 red: not read").unwrap();
    assert_eq!(odd.id, 7);
    assert_eq!(odd.rounds.len(), 1);
}

#[test]
fn game_faults() {
    assert_eq!(Game::from_str("game 1: 1 red").err(), Some(GameError::MissingIdentifier));
    assert_eq!(Game::from_str("").err(), Some(GameError::MissingIdentifier));
    assert_eq!(Game::from_str("Game x: 1 red").err(), Some(GameError::InvalidNumber));
    assert_eq!(Game::from_str("Game 4294967296: 1 red").err(), Some(GameError::InvalidNumber));
    assert_eq!(Game::from_str("Game 1").err(), Some(GameError::MissingRounds));
    assert_eq!(Game::from_str("Game 1:").err(), Some(GameError::InvalidNumber));
    assert_eq!(Game::from_str("Game 1: 1 red; 2").err(), Some(GameError::MissingColor));
}

#[test]
fn possible_with_a_bag() {
    let bag = Bag { red: 12, green: 13, blue: 14 };
    let possible: Vec<bool> = sample().iter().map(|g| g.is_possible(&bag)).collect();
    assert_eq!(possible, vec![true, true, false, false, true]);
    let w = Withdraw { count: 13, color: Color::Green };
    assert!(w.is_possible(&bag));
    assert!(!Withdraw { count: 14, color: Color::Green }.is_possible(&bag));
    assert!(Round(vec![w, Withdraw { count: 12, color: Color::Red }]).is_possible(&bag));
    assert!(!Round(vec![w, Withdraw { count: 13, color: Color::Red }]).is_possible(&bag));
    assert!(Round(vec![]).is_possible(&bag));
}

#[test]
fn least_bag_of_a_game() {
    let bags: Vec<(u64, u64, u64)> = sample().iter().map(|g| counts(&g.bag())).collect();
    assert_eq!(bags, vec![(4, 2, 6), (1, 3, 4), (20, 13, 6), (14, 3, 15), (6, 3, 2)]);
    let none = Game { id: 1, rounds: vec![] };
    assert_eq!(counts(&none.bag()), (0, 0, 0));
}

#[test]
fn bag_counts_and_power() {
    let bag = Bag { red: 4, green: 2, blue: 6 };
    assert_eq!(bag.count_for(Color::Red), 4);
    assert_eq!(bag.count_for(Color::Green), 2);
    assert_eq!(bag.count_for(Color::Blue), 6);
    assert_eq!(bag.power(), 48);
    assert_eq!(bag.checked_power(), Some(48));
    let large = Bag { red: u64::MAX, green: 2, blue: 1 };
    assert_eq!(large.checked_power(), None);
    let flat = Bag { red: u64::MAX, green: u64::MAX, blue: 0 };
    assert_eq!(flat.checked_power(), Some(0));
    assert_eq!(flat.power(), 0);
    let edge = Bag { red: u64::MAX, green: 1, blue: 1 };
    assert_eq!(edge.power(), u64::MAX);
}

#[test]
fn cube_puzzle_answers() {
    assert_eq!(Day2::part_1(sample()), Ok(8));
    assert_eq!(Day2::part_2(sample()), Ok(2286));
    assert_eq!(Day2::part_1(vec![]), Ok(0));
    assert_eq!(Day2::part_2(vec![]), Ok(0));
    assert_eq!(Day2::DAY, 2);
}

#[test]
fn cube_puzzle_overflow() {
    let huge = games(&["Game 1: 18446744073709551615 red, 2 green, 1 blue"]);
    assert_eq!(Day2::part_2(huge), Err(Error::Game(GameError::Overflow)));
    let twice = games(&[
        "Game 1: 18446744073709551615 red, 1 green, 1 blue",
        "Game 2: 1 red, 1 green, 1 blue",
    ]);
    assert_eq!(Day2::part_2(twice), Err(Error::Game(GameError::Overflow)));
}
