use advent::day::{Day, Error};
use advent::day6::{
    pair_races, read_sheet, total_margin, Day6, Millimeters, Number, Race, RaceError,
    MIN_BUTTON_HOLD_TIME_MS,
};
use std::str::FromStr;

fn lines(text: &[&str]) -> Vec<String> {
    text.iter().map(|l| l.to_string()).collect()
}

fn sample() -> Vec<String> {
    lines(&["Time:      7  15   30", "Distance:  9  40  200"])
}

fn race(duration_ms: u64, distance: u64) -> Race {
    Race { duration_ms, distance: Millimeters::from(distance) }
}

#[test]
fn beats_the_record() {
    let r = race(7, 9);
    let wins: Vec<bool> = (0..=7).map(|h| r.beats(h)).collect();
    assert_eq!(wins, vec![false, false, true, true, true, true, false, false]);
    assert!(!race(u64::MAX, u64::MAX).beats(1));
    assert!(race(u64::MAX, u64::MAX).beats(2));
    assert!(race(u64::MAX, u64::MAX).beats(u64::MAX / 2));
}

#[test]
fn counts_the_ways() {
    assert_eq!(race(7, 9).count_ways(1, 6), 4);
    assert_eq!(race(7, 9).count_ways(0, 8), 4);
    assert_eq!(race(7, 9).count_ways(3, 5), 2);
    assert_eq!(race(7, 9).count_ways(5, 5), 0);
    assert_eq!(race(7, 9).count_ways(6, 2), 0);
    assert_eq!(race(15, 40).count_ways(1, 14), 8);
    assert_eq!(race(30, 200).count_ways(1, 29), 9);
}

#[test]
fn number_in_pieces() {
    assert_eq!(Number::from_str("      7  15   30").unwrap().0, 71530);
    assert_eq!(Number::from_str("  9  40  200").unwrap().0, 940200);
    assert_eq!(Number::from_str("12 0 3").unwrap().0, 1203);
    assert_eq!(Number::from_str("0 0").unwrap().0, 0);
    assert_eq!(Number::from_str("007 5").unwrap().0, 75);
    assert_eq!(Number::from_str("").unwrap().0, 0);
    assert_eq!(Number::from_str("18446744073709551615").unwrap().0, u64::MAX);
    assert_eq!(Number::from_str("1844674407370955161 5").unwrap().0, u64::MAX);
}

#[test]
fn number_faults() {
    assert_eq!(Number::from_str("7 x").err(), Some(RaceError::InvalidNumber));
    assert_eq!(Number::from_str("7\t5").err(), Some(RaceError::InvalidNumber));
    assert_eq!(Number::from_str("1844674407370955161 6").err(), Some(RaceError::Overflow));
    assert_eq!(Number::from_str("1 18446744073709551615").err(), Some(RaceError::Overflow));
    assert_eq!(Number::from_str("18446744073709551616").err(), Some(RaceError::InvalidNumber));
}

#[test]
fn sheet_has_two_rows() {
    let (times, distances) = read_sheet(&sample()).unwrap();
    assert_eq!(times.iter().collect::<String>(), "      7  15   30");
    assert_eq!(distances.iter().collect::<String>(), "  9  40  200");
    assert_eq!(read_sheet(&[]).err(), Some(RaceError::MissingTime));
    assert_eq!(read_sheet(&lines(&["Time 7"])).err(), Some(RaceError::MissingTime));
    assert_eq!(read_sheet(&lines(&["Time: 7"])).err(), Some(RaceError::MissingDistance));
    assert_eq!(read_sheet(&lines(&["Time: 7", "9"])).err(), Some(RaceError::MissingDistance));
}

#[test]
fn races_pair_by_pair() {
    let races = pair_races(&[Some(7), Some(15), None], &[Some(9), Some(40)]).unwrap();
    let read: Vec<(u64, u64)> = races.iter().map(|r| (r.duration_ms, r.distance.0)).collect();
    assert_eq!(read, vec![(7, 9), (15, 40)]);
    assert_eq!(
        pair_races(&[Some(7), None], &[Some(9), Some(40)]).err(),
        Some(RaceError::InvalidNumber)
    );
    assert_eq!(pair_races(&[Some(7)], &[None, Some(40)]).err(), Some(RaceError::InvalidNumber));
    assert_eq!(pair_races(&[], &[None]).unwrap().len(), 0);
}

#[test]
fn margin_is_the_product_of_the_ways() {
    assert_eq!(total_margin(&[race(7, 9), race(15, 40), race(30, 200)]), Ok(288));
    assert_eq!(total_margin(&[]), Ok(1));
    assert_eq!(total_margin(&[race(1, 0)]), Ok(0));
    assert_eq!(total_margin(&[race(3, 0)]), Ok(1));
    assert_eq!(total_margin(&[race(7, 9), race(0, 0)]), Err(RaceError::DurationTooShort));
}

#[test]
fn margin_above_usize_is_an_error() {
    let wide = race(3_000_001, 0);
    assert_eq!(total_margin(&[wide]), Ok(2_999_999));
    assert_eq!(total_margin(&[wide, wide]), Ok(2_999_999 * 2_999_999));
    assert_eq!(total_margin(&[wide, wide, wide]), Err(RaceError::Overflow));
    assert_eq!(total_margin(&[wide, wide, wide, race(0, 0)]), Err(RaceError::Overflow));
    assert_eq!(total_margin(&[race(1, 0), wide, wide, wide]), Ok(0));
}

#[test]
fn race_puzzle_answers() {
    assert_eq!(Day6::part_1(sample()), Ok(288));
    assert_eq!(Day6::part_2(sample()), Ok(71503));
    assert_eq!(Day6::DAY, 6);
    assert_eq!(MIN_BUTTON_HOLD_TIME_MS, 14);
}

#[test]
fn race_puzzle_faults() {
    assert_eq!(Day6::part_1(vec![]), Err(Error::Race(RaceError::MissingTime)));
    assert_eq!(Day6::part_2(lines(&["Time: 7"])), Err(Error::Race(RaceError::MissingDistance)));
    assert_eq!(
        Day6::part_1(lines(&["Time: 7 x", "Distance: 9 40"])),
        Err(Error::Race(RaceError::InvalidNumber))
    );
    assert_eq!(Day6::part_1(lines(&["Time: 7 x", "Distance: 9"])), Ok(4));
    assert_eq!(
        Day6::part_1(lines(&["Time: 0", "Distance: 9"])),
        Err(Error::Race(RaceError::DurationTooShort))
    );
    assert_eq!(
        Day6::part_2(lines(&["Time: 1 3", "Distance: 9"])),
        Err(Error::Race(RaceError::DurationTooShort))
    );
    assert_eq!(Day6::part_2(lines(&["Time: 2 8", "Distance: 9"])), Ok(1));
    assert_eq!(
        Day6::part_2(lines(&["Time: 7 x", "Distance: 9"])),
        Err(Error::Race(RaceError::InvalidNumber))
    );
}
