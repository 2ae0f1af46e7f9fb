use advent::day::{Day, Error, Part};
use advent::day1::Day1;
use advent::day2::Day2;
use advent::day3::Day3;
use advent::day4::Day4;
use advent::day5::Day5;
use advent::day6::Day6;
use advent::day7::Day7;

struct Idle;

impl Day for Idle {
    type Item = String;
    type Answer = u32;

    const DAY: usize = 25;
}

struct Half;

impl Day for Half {
    type Item = u8;
    type Answer = usize;

    const DAY: usize = 24;

    fn part_1(items: Vec<u8>) -> Result<usize, Error> {
        Ok(items.len())
    }
}

#[test]
fn part_without_solver_is_unsolved() {
    assert_eq!(Idle::part_1(vec![]), Err(Error::Unsolved));
    assert_eq!(Idle::part_2(vec!["any".to_string()]), Err(Error::Unsolved));
    assert_eq!(Half::part_1(vec![1, 2, 3]), Ok(3));
    assert_eq!(Half::part_2(vec![1, 2, 3]), Err(Error::Unsolved));
    assert_eq!(Idle::DAY, 25);
}

#[test]
fn days_are_numbered() {
    let days =
        [Day1::DAY, Day2::DAY, Day3::DAY, Day4::DAY, Day5::DAY, Day6::DAY, Day7::DAY];
    assert_eq!(days, [1, 2, 3, 4, 5, 6, 7]);
    assert_ne!(Part::One, Part::Two);
    assert_ne!(Part::All, Part::One);
}
