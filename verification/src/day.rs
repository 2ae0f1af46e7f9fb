//! What every daily puzzle offers: two parts, each an answer computed from the
//! puzzle's parsed input.

use crate::day1::CalibrationError;
use crate::day2::GameError;
use crate::day3::EngineError;
use crate::day4::CardError;
use crate::day5::search::AlmanacError;
use crate::day6::RaceError;
use crate::day7::HandError;
use vstd::prelude::*;

verus! {

/// Which parts of a puzzle to solve.
#[derive(Debug, Copy, Clone, PartialEq, Eq)]
pub enum Part {
    All,
    One,
    Two,
}

/// Why a puzzle gave no answer.
#[derive(Debug, Copy, Clone, PartialEq, Eq)]
pub enum Error {
    /// The part has no solver yet.
    Unsolved,
    /// The calibration document has no value.
    Calibration(CalibrationError),
    /// The cube games have no total.
    Game(GameError),
    /// The engine schematic could not be read or laid out.
    Engine(EngineError),
    /// The scratch cards have no total.
    Card(CardError),
    /// The almanac could not be read, or could not be searched.
    Almanac(AlmanacError),
    /// The boat races have no answer.
    Race(RaceError),
    /// The hands could not be read, or have no total.
    Hand(HandError),
}

/// A daily puzzle. A part that a puzzle does not solve answers `Error::Unsolved`.
pub trait Day {
    /// What one line of the input is read into.
    type Item;

    /// What the puzzle's answers are.
    type Answer;

    /// The number of the day.
    const DAY: usize;

    /// Whether the puzzle solves its first part.
    open spec fn solves_part_1() -> bool {
        false
    }

    /// Whether the puzzle solves its second part.
    open spec fn solves_part_2() -> bool {
        false
    }

    fn part_1(_items: Vec<Self::Item>) -> (r: Result<Self::Answer, Error>)
        ensures
            !Self::solves_part_1() ==> r == Err::<Self::Answer, Error>(Error::Unsolved),
    {
        Err(Error::Unsolved)
    }

    fn part_2(_items: Vec<Self::Item>) -> (r: Result<Self::Answer, Error>)
        ensures
            !Self::solves_part_2() ==> r == Err::<Self::Answer, Error>(Error::Unsolved),
    {
        Err(Error::Unsolved)
    }
}

} // verus!
