//! Solvers for a run of daily puzzles, each a small parser and a calculation,
//! with the almanac's chained range lookup and its exhaustive search at the centre.

pub mod day;
pub mod day1;
pub mod day2;
pub mod day3;
pub mod day4;
pub mod day5;
pub mod day6;
pub mod day7;
pub mod first;
pub mod tally;
pub mod text;
