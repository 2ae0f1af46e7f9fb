//! The boat races: holding the button for some milliseconds gives the boat as much
//! speed, and the rest of the race's time to travel. A way to hold the button wins
//! when the boat goes further than the record.

use crate::day::{Day, Error};
use crate::text::{
    chars_of, fields, find_char, first_index, numbers, parse_each, parse_numbers, readings, split,
    texts, trim, trimmed,
};
use std::str::FromStr;
use vstd::prelude::*;
use vstd::slice::{slice_subrange, slice_to_vec};
use vstd::std_specs::convert::FromSpecImpl;

verus! {

/// Why the races have no answer.
#[derive(Debug, Copy, Clone, PartialEq, Eq)]
pub enum RaceError {
    /// The first line is absent or has no colon.
    MissingTime,
    /// The second line is absent or has no colon.
    MissingDistance,
    /// A number is not an unsigned integer of 64 bits.
    InvalidNumber,
    /// The race is shorter than the shortest time that the button is held.
    DurationTooShort,
    /// A number, a count or a product does not fit its type.
    Overflow,
}

#[derive(Debug, Copy, Clone, Eq, PartialEq)]
pub struct Millimeters(pub u64);

impl From<u64> for Millimeters {
    fn from(value: u64) -> (r: Millimeters) {
        Millimeters(value)
    }
}

impl FromSpecImpl<u64> for Millimeters {
    open spec fn obeys_from_spec() -> bool {
        true
    }

    open spec fn from_spec(value: u64) -> Millimeters {
        Millimeters(value)
    }
}

/// A race: how long it lasts, and the record distance.
#[derive(Debug, Copy, Clone)]
pub struct Race {
    pub duration_ms: u64,
    pub distance: Millimeters,
}

impl Race {
    /// Holding the button for `hold` milliseconds takes the boat past the record.
    pub open spec fn wins(&self, hold: int) -> bool {
        hold * (self.duration_ms - hold) > self.distance.0
    }

    /// How many of the holds from `lo` up to `hi` win.
    pub open spec fn ways(&self, lo: int, hi: int) -> int
        decreases hi - lo,
    {
        if hi <= lo {
            0
        } else {
            self.ways(lo, hi - 1) + (if self.wins(hi - 1) {
                1int
            } else {
                0int
            })
        }
    }

    /// Tells whether holding the button for so long beats the record.
    pub fn beats(&self, button_hold_duration_ms: u64) -> (r: bool)
        requires
            button_hold_duration_ms <= self.duration_ms,
        ensures
            r == self.wins(button_hold_duration_ms as int),
    {
        let remaining_time: u64 = self.duration_ms - button_hold_duration_ms;
        assert(button_hold_duration_ms * remaining_time <= 0xffff_ffff_ffff_ffff
            * 0xffff_ffff_ffff_ffff) by (nonlinear_arith)
            requires
                button_hold_duration_ms <= 0xffff_ffff_ffff_ffff,
                remaining_time <= 0xffff_ffff_ffff_ffff,
        ;
        let distance: u128 = button_hold_duration_ms as u128 * remaining_time as u128;
        distance > self.distance.0 as u128
    }

    /// Counts the holds from `lo` up to `hi` that beat the record, one by one.
    pub fn count_ways(&self, lo: u64, hi: u64) -> (r: u64)
        requires
            hi <= self.duration_ms + 1,
        ensures
            r == self.ways(lo as int, hi as int),
    {
        if hi <= lo {
            return 0;
        }
        let mut count: u64 = 0;
        let mut hold: u64 = lo;
        while hold < hi
            invariant
                hi <= self.duration_ms + 1,
                lo <= hold <= hi,
                count == self.ways(lo as int, hold as int),
                count <= hold - lo,
            decreases hi - hold,
        {
            if self.beats(hold) {
                count += 1;
            }
            hold += 1;
        }
        count
    }
}

/// How many decimal digits a number has.
pub open spec fn digits(x: nat) -> nat
    decreases x,
{
    if x < 10 {
        1
    } else {
        1 + digits(x / 10)
    }
}

/// Ten to the power of `n`.
pub open spec fn tens(n: nat) -> nat
    decreases n,
{
    if n == 0 {
        1
    } else {
        10 * tens((n - 1) as nat)
    }
}

/// The number that the decimal digits of `acc` followed by those of `x` spell.
pub open spec fn appended(acc: nat, x: nat) -> nat {
    acc * tens(digits(x)) + x
}

/// The number that the decimal digits of all numbers of a list spell, one after the
/// other.
pub open spec fn glued(list: Seq<u64>) -> nat
    decreases list.len(),
{
    if list.len() == 0 {
        0
    } else {
        appended(glued(list.drop_last()), list.last() as nat)
    }
}

/// A number written in pieces with blanks between them.
#[derive(Debug)]
pub struct Number(pub u64);

/// What a line of pieces says: the pieces are numbers of 64 bits each, and their
/// digits together spell the number, which has 64 bits too.
pub open spec fn parse_glued(s: Seq<char>) -> Result<u64, RaceError> {
    match numbers(fields(trimmed(s), ' '), u64::MAX as nat, true, false) {
        None => Err(RaceError::InvalidNumber),
        Some(list) => if glued(list) > u64::MAX {
            Err(RaceError::Overflow)
        } else {
            Ok(glued(list) as u64)
        },
    }
}

/// Ten to a higher power is no smaller, and no power of ten is zero.
pub proof fn lemma_tens_grow(k: nat, n: nat)
    requires
        k <= n,
    ensures
        1 <= tens(k) <= tens(n),
    decreases n,
{
    if k < n {
        lemma_tens_grow(k, (n - 1) as nat);
    } else if k > 0 {
        lemma_tens_grow((k - 1) as nat, (n - 1) as nat);
    }
}

/// The digits of a longer list spell no smaller a number.
pub proof fn lemma_glued_grows(list: Seq<u64>, n: int)
    requires
        0 <= n <= list.len(),
    ensures
        glued(list.take(n)) <= glued(list),
    decreases list.len(),
{
    if n == list.len() {
        assert(list.take(n) =~= list);
    } else {
        assert(list.drop_last().take(n) =~= list.take(n));
        lemma_glued_grows(list.drop_last(), n);
        let front = glued(list.drop_last());
        lemma_tens_grow(0, digits(list.last() as nat));
        assert(front * tens(digits(list.last() as nat)) >= front) by (nonlinear_arith)
            requires
                tens(digits(list.last() as nat)) >= 1,
        ;
    }
}

/// Counts the decimal digits of a number.
fn count_digits(x: u64) -> (r: u64)
    ensures
        r == digits(x as nat),
{
    let mut rest: u64 = x;
    let mut count: u64 = 1;
    while rest >= 10
        invariant
            1 <= count,
            count + digits(rest as nat) == 1 + digits(x as nat),
            count + rest <= x + 1,
        decreases rest,
    {
        rest = rest / 10;
        count += 1;
    }
    count
}

/// Ten to the power of `n`, unless it is above `u64::MAX`.
fn power_of_ten(n: u64) -> (r: Option<u64>)
    ensures
        r is Some <==> tens(n as nat) <= u64::MAX,
        r is Some ==> r->0 == tens(n as nat),
{
    let mut p: u64 = 1;
    let mut k: u64 = 0;
    while k < n
        invariant
            k <= n,
            p == tens(k as nat),
        decreases n - k,
    {
        match p.checked_mul(10) {
            Some(q) => {
                p = q;
            },
            None => {
                proof {
                    lemma_tens_grow((k + 1) as nat, n as nat);
                }
                return None;
            },
        }
        k += 1;
    }
    Some(p)
}

/// Writes the digits of `x` after those of `acc`, unless the number is above
/// `u64::MAX`.
fn append_digits(acc: u64, x: u64) -> (r: Option<u64>)
    ensures
        r is Some <==> appended(acc as nat, x as nat) <= u64::MAX,
        r is Some ==> r->0 == appended(acc as nat, x as nat),
{
    if acc == 0 {
        assert(0 * tens(digits(x as nat)) == 0) by (nonlinear_arith);
        return Some(x);
    }
    let shift = power_of_ten(count_digits(x));
    proof {
        let t = tens(digits(x as nat));
        assert(acc * t >= t) by (nonlinear_arith)
            requires
                acc >= 1,
                t >= 0,
        ;
    }
    match shift {
        Some(t) => match acc.checked_mul(t) {
            Some(high) => high.checked_add(x),
            None => None,
        },
        None => None,
    }
}

impl Number {
    /// Reads a number written in pieces.
    pub fn from_chars(s: &[char]) -> (r: Result<Number, RaceError>)
        ensures
            match r {
                Ok(number) => parse_glued(s@) == Ok::<u64, RaceError>(number.0),
                Err(e) => parse_glued(s@) == Err::<u64, RaceError>(e),
            },
    {
        let (a, b) = trim(s);
        let body = slice_subrange(s, a, b);
        let parts = split(body, ' ');
        let list = match parse_numbers(body, parts.as_slice(), u64::MAX, true, false) {
            Some(v) => v,
            None => {
                return Err(RaceError::InvalidNumber);
            },
        };
        let mut acc: u64 = 0;
        let mut i: usize = 0;
        assert(list@.take(0) =~= Seq::<u64>::empty());
        while i < list.len()
            invariant
                i <= list@.len(),
                numbers(fields(trimmed(s@), ' '), u64::MAX as nat, true, false) == Some(list@),
                acc == glued(list@.take(i as int)),
            decreases list@.len() - i,
        {
            assert(list@.take(i + 1).drop_last() =~= list@.take(i as int));
            proof {
                lemma_glued_grows(list@, i + 1);
            }
            match append_digits(acc, list[i]) {
                Some(next) => {
                    acc = next;
                },
                None => {
                    return Err(RaceError::Overflow);
                },
            }
            i += 1;
        }
        assert(list@.take(list@.len() as int) =~= list@);
        Ok(Number(acc))
    }
}

impl FromStr for Number {
    type Err = RaceError;

    /// Reads a number written in pieces.
    fn from_str(s: &str) -> (r: Result<Number, RaceError>)
        ensures
            match r {
                Ok(number) => parse_glued(s@) == Ok::<u64, RaceError>(number.0),
                Err(e) => parse_glued(s@) == Err::<u64, RaceError>(e),
            },
    {
        let chars = chars_of(s);
        Number::from_chars(chars.as_slice())
    }
}

/// What follows the first colon of a line, if it has one.
pub open spec fn after_colon(line: Seq<char>) -> Option<Seq<char>> {
    let k = first_index(line, ':');
    if 0 <= k < line.len() {
        Some(line.skip(k + 1))
    } else {
        None
    }
}

/// The text of the times and the text of the distances: what follows the first colon
/// of the first and of the second line.
pub open spec fn sheet(lines: Seq<Seq<char>>) -> Result<(Seq<char>, Seq<char>), RaceError> {
    if lines.len() < 1 || after_colon(lines[0]) is None {
        Err(RaceError::MissingTime)
    } else if lines.len() < 2 || after_colon(lines[1]) is None {
        Err(RaceError::MissingDistance)
    } else {
        Ok((after_colon(lines[0])->0, after_colon(lines[1])->0))
    }
}

/// The races that a list of times and a list of distances make, pair by pair. What
/// one list has more than the other is not read.
pub open spec fn races_of(times: Seq<Option<u64>>, distances: Seq<Option<u64>>) -> Result<
    Seq<Race>,
    RaceError,
> {
    let n = if times.len() < distances.len() {
        times.len()
    } else {
        distances.len()
    };
    if exists|i: int| 0 <= i < n && (#[trigger] times[i] is None || distances[i] is None) {
        Err(RaceError::InvalidNumber)
    } else {
        Ok(
            Seq::new(
                n,
                |i: int| Race { duration_ms: times[i]->0, distance: Millimeters(distances[i]->0) },
            ),
        )
    }
}

/// The product, over the races, of the number of holds that win: holds of at least
/// one millisecond that leave at least two for travelling.
pub open spec fn margin(races: Seq<Race>) -> Result<usize, RaceError>
    decreases races.len(),
{
    if races.len() == 0 {
        Ok(1)
    } else {
        match margin(races.drop_last()) {
            Err(e) => Err(e),
            Ok(p) => {
                let race = races.last();
                let ways = race.ways(1, race.duration_ms - 1);
                if race.duration_ms == 0 {
                    Err(RaceError::DurationTooShort)
                } else if ways > usize::MAX || p * ways > usize::MAX {
                    Err(RaceError::Overflow)
                } else {
                    Ok((p * ways) as usize)
                }
            },
        }
    }
}

/// The numbers of the fields of a text that are not empty.
pub open spec fn row(s: Seq<char>) -> Seq<Option<u64>> {
    readings(fields(trimmed(s), ' '))
}

/// The first answer: every column of the sheet is a race.
pub open spec fn margin_of_all(lines: Seq<Seq<char>>) -> Result<usize, RaceError> {
    match sheet(lines) {
        Err(e) => Err(e),
        Ok(texts) => match races_of(row(texts.0), row(texts.1)) {
            Err(e) => Err(e),
            Ok(races) => margin(races),
        },
    }
}

/// The shortest time that the button is held in the one long race.
pub const MIN_BUTTON_HOLD_TIME_MS: u64 = 14;

/// The second answer: the sheet is one race, its numbers written in pieces. The
/// holds counted are those of at least `MIN_BUTTON_HOLD_TIME_MS` that leave as much
/// for travelling.
pub open spec fn ways_of_one(lines: Seq<Seq<char>>) -> Result<usize, RaceError> {
    match sheet(lines) {
        Err(e) => Err(e),
        Ok(texts) => match parse_glued(texts.0) {
            Err(e) => Err(e),
            Ok(time) => match parse_glued(texts.1) {
                Err(e) => Err(e),
                Ok(distance) => {
                    let race = Race { duration_ms: time, distance: Millimeters(distance) };
                    let ways = race.ways(
                        MIN_BUTTON_HOLD_TIME_MS as int,
                        time - MIN_BUTTON_HOLD_TIME_MS + 1,
                    );
                    if time < MIN_BUTTON_HOLD_TIME_MS {
                        Err(RaceError::DurationTooShort)
                    } else if ways > usize::MAX {
                        Err(RaceError::Overflow)
                    } else {
                        Ok(ways as usize)
                    }
                },
            },
        },
    }
}

/// Where the first races fail, all fail in the same way.
pub proof fn lemma_margin_prefix(races: Seq<Race>, n: int)
    requires
        0 <= n <= races.len(),
        margin(races.take(n)) is Err,
    ensures
        margin(races) == margin(races.take(n)),
    decreases races.len(),
{
    if n == races.len() {
        assert(races.take(n) =~= races);
    } else {
        assert(races.drop_last().take(n) =~= races.take(n));
        lemma_margin_prefix(races.drop_last(), n);
    }
}

/// The text after the first colon of a line.
fn cut_after_colon(line: &[char]) -> (r: Option<&[char]>)
    ensures
        match r {
            Some(rest) => after_colon(line@) == Some(rest@),
            None => after_colon(line@) is None,
        },
{
    let k = find_char(line, ':');
    if k < line.len() {
        let rest = slice_subrange(line, k + 1, line.len());
        assert(rest@ =~= line@.skip(k + 1));
        Some(rest)
    } else {
        None
    }
}

/// Reads the numbers of a text, field by field.
fn read_row(s: &[char]) -> (r: Vec<Option<u64>>)
    ensures
        r@ == row(s@),
{
    let (a, b) = trim(s);
    let body = slice_subrange(s, a, b);
    let parts = split(body, ' ');
    parse_each(body, parts.as_slice())
}

/// Reads the text of the times and the text of the distances off the sheet.
pub fn read_sheet(items: &[String]) -> (r: Result<(Vec<char>, Vec<char>), RaceError>)
    ensures
        match r {
            Ok(found) => sheet(texts(items@)) == Ok::<(Seq<char>, Seq<char>), RaceError>(
                (found.0@, found.1@),
            ),
            Err(e) => sheet(texts(items@)) == Err::<(Seq<char>, Seq<char>), RaceError>(e),
        },
{
    let ghost t = texts(items@);
    if items.len() < 1 {
        return Err(RaceError::MissingTime);
    }
    assert(t[0] == items@[0]@);
    let first = chars_of(items[0].as_str());
    let times = match cut_after_colon(first.as_slice()) {
        Some(rest) => slice_to_vec(rest),
        None => {
            return Err(RaceError::MissingTime);
        },
    };
    if items.len() < 2 {
        return Err(RaceError::MissingDistance);
    }
    assert(t[1] == items@[1]@);
    let second = chars_of(items[1].as_str());
    let distances = match cut_after_colon(second.as_slice()) {
        Some(rest) => slice_to_vec(rest),
        None => {
            return Err(RaceError::MissingDistance);
        },
    };
    Ok((times, distances))
}

/// Pairs the times with the distances.
pub fn pair_races(times: &[Option<u64>], distances: &[Option<u64>]) -> (r: Result<
    Vec<Race>,
    RaceError,
>)
    ensures
        match r {
            Ok(races) => races_of(times@, distances@) == Ok::<Seq<Race>, RaceError>(races@),
            Err(e) => races_of(times@, distances@) == Err::<Seq<Race>, RaceError>(e),
        },
{
    let n: usize = if times.len() < distances.len() {
        times.len()
    } else {
        distances.len()
    };
    let mut races: Vec<Race> = Vec::new();
    let mut i: usize = 0;
    while i < n
        invariant
            i <= n,
            n == (if times@.len() < distances@.len() {
                times@.len()
            } else {
                distances@.len()
            }),
            races@.len() == i,
            forall|j: int| 0 <= j < i ==> (#[trigger] times@[j]) is Some && distances@[j] is Some,
            forall|j: int|
                0 <= j < i ==> #[trigger] races@[j] == (Race {
                    duration_ms: times@[j]->0,
                    distance: Millimeters(distances@[j]->0),
                }),
        decreases n - i,
    {
        let time = match times[i] {
            Some(v) => v,
            None => {
                return Err(RaceError::InvalidNumber);
            },
        };
        let distance = match distances[i] {
            Some(v) => v,
            None => {
                assert(times@[i as int] is None || distances@[i as int] is None);
                return Err(RaceError::InvalidNumber);
            },
        };
        races.push(Race { duration_ms: time, distance: Millimeters(distance) });
        i += 1;
    }
    assert(races_of(times@, distances@)->Ok_0 =~= races@);
    Ok(races)
}

/// Multiplies the numbers of ways to win each race.
pub fn total_margin(races: &[Race]) -> (r: Result<usize, RaceError>)
    ensures
        r == margin(races@),
{
    let mut answer: usize = 1;
    let mut k: usize = 0;
    assert(races@.take(0) =~= Seq::<Race>::empty());
    while k < races.len()
        invariant
            k <= races@.len(),
            margin(races@.take(k as int)) == Ok::<usize, RaceError>(answer),
        decreases races@.len() - k,
    {
        let race = races[k];
        assert(races@.take(k + 1).drop_last() =~= races@.take(k as int));
        assert(races@.take(k + 1).last() == race);
        proof {
            if margin(races@.take(k + 1)) is Err {
                lemma_margin_prefix(races@, k + 1);
            }
        }
        if race.duration_ms == 0 {
            return Err(RaceError::DurationTooShort);
        }
        let ways: u64 = race.count_ways(1, race.duration_ms - 1);
        if ways > usize::MAX as u64 {
            return Err(RaceError::Overflow);
        }
        match answer.checked_mul(ways as usize) {
            Some(product) => {
                answer = product;
            },
            None => {
                return Err(RaceError::Overflow);
            },
        }
        k += 1;
    }
    assert(races@.take(races@.len() as int) =~= races@);
    Ok(answer)
}

/// Wraps a race result for the puzzle's caller.
pub open spec fn answer(r: Result<usize, RaceError>) -> Result<usize, Error> {
    match r {
        Ok(v) => Ok(v),
        Err(e) => Err(Error::Race(e)),
    }
}

/// The boat race puzzle.
pub struct Day6;

impl Day for Day6 {
    type Item = String;

    type Answer = usize;

    const DAY: usize = 6;

    open spec fn solves_part_1() -> bool {
        true
    }

    open spec fn solves_part_2() -> bool {
        true
    }

    /// The product of the numbers of ways to win each race.
    fn part_1(items: Vec<String>) -> (r: Result<usize, Error>)
        ensures
            r == answer(margin_of_all(texts(items@))),
    {
        let (time, distance) = match read_sheet(items.as_slice()) {
            Ok(found) => found,
            Err(e) => {
                return Err(Error::Race(e));
            },
        };
        let times = read_row(time.as_slice());
        let distances = read_row(distance.as_slice());
        let races = match pair_races(times.as_slice(), distances.as_slice()) {
            Ok(races) => races,
            Err(e) => {
                return Err(Error::Race(e));
            },
        };
        match total_margin(races.as_slice()) {
            Ok(answer) => Ok(answer),
            Err(e) => Err(Error::Race(e)),
        }
    }

    /// The number of ways to win the one long race.
    fn part_2(items: Vec<String>) -> (r: Result<usize, Error>)
        ensures
            r == answer(ways_of_one(texts(items@))),
    {
        let (time, distance) = match read_sheet(items.as_slice()) {
            Ok(found) => found,
            Err(e) => {
                return Err(Error::Race(e));
            },
        };
        let time = match Number::from_chars(time.as_slice()) {
            Ok(number) => number,
            Err(e) => {
                return Err(Error::Race(e));
            },
        };
        let distance = match Number::from_chars(distance.as_slice()) {
            Ok(number) => number,
            Err(e) => {
                return Err(Error::Race(e));
            },
        };
        let race = Race { duration_ms: time.0, distance: Millimeters(distance.0) };
        if race.duration_ms < MIN_BUTTON_HOLD_TIME_MS {
            return Err(Error::Race(RaceError::DurationTooShort));
        }
        let max_button_hold_time_ms: u64 = race.duration_ms - MIN_BUTTON_HOLD_TIME_MS;
        let ways: u64 = race.count_ways(MIN_BUTTON_HOLD_TIME_MS, max_button_hold_time_ms + 1);
        if ways > usize::MAX as u64 {
            return Err(Error::Race(RaceError::Overflow));
        }
        Ok(ways as usize)
    }
}

} // verus!
