//! The calibration document: each line gives a two-digit value, made of the first
//! and the last digit found in it. The second reading also takes digits that are
//! spelled out.

use crate::day::{Day, Error};
use crate::text::{
    chars_of, digit_of, digit_value, has_at, is_digit, matches_at, somes, texts,
};
use vstd::prelude::*;

verus! {

/// Why a document has no calibration value.
#[derive(Debug, Copy, Clone, PartialEq, Eq)]
pub enum CalibrationError {
    /// A line has no digit.
    MissingDigit,
    /// The sum of the values is above `u32::MAX`.
    Overflow,
}

/// A way of finding the digits of a line.
pub trait Digits {
    /// The digits of a line, in the order in which they stand in it.
    spec fn found(s: Seq<char>) -> Seq<u32>;

    fn find(s: &str) -> (r: Vec<u32>)
        ensures
            r@ == Self::found(s@),
            forall|i: int| 0 <= i < r@.len() ==> r@[i] <= 9,
    ;
}

/// What stands at position `i` of a line if it is a decimal digit.
pub open spec fn plain_at(s: Seq<char>, i: int) -> Option<u32> {
    if is_digit(s[i]) {
        Some(digit_value(s[i]) as u32)
    } else {
        None
    }
}

/// The English name of a digit from one to nine.
pub open spec fn word(k: int) -> Seq<char> {
    if k == 1 {
        seq!['o', 'n', 'e']
    } else if k == 2 {
        seq!['t', 'w', 'o']
    } else if k == 3 {
        seq!['t', 'h', 'r', 'e', 'e']
    } else if k == 4 {
        seq!['f', 'o', 'u', 'r']
    } else if k == 5 {
        seq!['f', 'i', 'v', 'e']
    } else if k == 6 {
        seq!['s', 'i', 'x']
    } else if k == 7 {
        seq!['s', 'e', 'v', 'e', 'n']
    } else if k == 8 {
        seq!['e', 'i', 'g', 'h', 't']
    } else {
        seq!['n', 'i', 'n', 'e']
    }
}

/// The first digit from `k` to nine whose name stands at position `i`.
pub open spec fn spelled_at(s: Seq<char>, i: int, k: int) -> Option<u32>
    decreases 10 - k,
{
    if k > 9 {
        None
    } else if has_at(s, i, word(k)) {
        Some(k as u32)
    } else {
        spelled_at(s, i, k + 1)
    }
}

/// The digit that stands at position `i`, as a character or by its name.
pub open spec fn token_at(s: Seq<char>, i: int) -> Option<u32> {
    match plain_at(s, i) {
        Some(d) => Some(d),
        None => spelled_at(s, i, 1),
    }
}

/// Reads decimal digits only.
pub struct Part1;

/// Reads decimal digits and the names of the digits from one to nine. Names may
/// share letters: `eightwo` holds an eight and a two.
pub struct Part2;

/// The letters of the name of digit `k`.
fn name(k: u32) -> (r: Vec<char>)
    requires
        1 <= k <= 9,
    ensures
        r@ == word(k as int),
{
    let r = if k == 1 {
        vec!['o', 'n', 'e']
    } else if k == 2 {
        vec!['t', 'w', 'o']
    } else if k == 3 {
        vec!['t', 'h', 'r', 'e', 'e']
    } else if k == 4 {
        vec!['f', 'o', 'u', 'r']
    } else if k == 5 {
        vec!['f', 'i', 'v', 'e']
    } else if k == 6 {
        vec!['s', 'i', 'x']
    } else if k == 7 {
        vec!['s', 'e', 'v', 'e', 'n']
    } else if k == 8 {
        vec!['e', 'i', 'g', 'h', 't']
    } else {
        vec!['n', 'i', 'n', 'e']
    };
    assert(r@ =~= word(k as int));
    r
}

/// The digit whose name stands at position `i`, if one does.
fn spelled(s: &[char], i: usize) -> (r: Option<u32>)
    ensures
        r == spelled_at(s@, i as int, 1),
        r is Some ==> 1 <= r->0 <= 9,
{
    let mut k: u32 = 1;
    while k <= 9
        invariant
            1 <= k <= 10,
            spelled_at(s@, i as int, 1) == spelled_at(s@, i as int, k as int),
        decreases 10 - k,
    {
        let w = name(k);
        if matches_at(s, i, w.as_slice()) {
            return Some(k);
        }
        k += 1;
    }
    None
}

impl Digits for Part1 {
    open spec fn found(s: Seq<char>) -> Seq<u32> {
        somes(Seq::new(s.len(), |i: int| plain_at(s, i)))
    }

    fn find(s: &str) -> (r: Vec<u32>) {
        let chars = chars_of(s);
        let ghost all = Seq::new(s@.len(), |i: int| plain_at(s@, i));
        let mut digits: Vec<u32> = Vec::new();
        let mut i: usize = 0;
        assert(all.take(0) =~= Seq::<Option<u32>>::empty());
        while i < chars.len()
            invariant
                i <= chars@.len(),
                chars@ == s@,
                all == Seq::new(s@.len(), |i: int| plain_at(s@, i)),
                digits@ == somes(all.take(i as int)),
                forall|j: int| 0 <= j < digits@.len() ==> digits@[j] <= 9,
            decreases chars@.len() - i,
        {
            assert(all.take(i + 1).drop_last() =~= all.take(i as int));
            assert(all.take(i + 1).last() == plain_at(s@, i as int));
            match digit_of(chars[i]) {
                Some(d) => {
                    digits.push(d);
                },
                None => {},
            }
            i += 1;
        }
        assert(all.take(chars@.len() as int) =~= all);
        digits
    }
}

impl Digits for Part2 {
    open spec fn found(s: Seq<char>) -> Seq<u32> {
        somes(Seq::new(s.len(), |i: int| token_at(s, i)))
    }

    fn find(s: &str) -> (r: Vec<u32>) {
        let chars = chars_of(s);
        let ghost all = Seq::new(s@.len(), |i: int| token_at(s@, i));
        let mut digits: Vec<u32> = Vec::new();
        let mut i: usize = 0;
        assert(all.take(0) =~= Seq::<Option<u32>>::empty());
        while i < chars.len()
            invariant
                i <= chars@.len(),
                chars@ == s@,
                all == Seq::new(s@.len(), |i: int| token_at(s@, i)),
                digits@ == somes(all.take(i as int)),
                forall|j: int| 0 <= j < digits@.len() ==> digits@[j] <= 9,
            decreases chars@.len() - i,
        {
            assert(all.take(i + 1).drop_last() =~= all.take(i as int));
            assert(all.take(i + 1).last() == token_at(s@, i as int));
            let token = match digit_of(chars[i]) {
                Some(d) => Some(d),
                None => spelled(chars.as_slice(), i),
            };
            match token {
                Some(d) => {
                    digits.push(d);
                },
                None => {},
            }
            i += 1;
        }
        assert(all.take(chars@.len() as int) =~= all);
        digits
    }
}

/// The number whose decimal digits are `first` and `second`.
pub fn combine_digits(first: u32, second: u32) -> (r: u32)
    requires
        first * 10 + second <= u32::MAX,
    ensures
        r == first * 10 + second,
{
    first * 10 + second
}

/// The value of a line: ten times its first digit plus its last digit.
pub open spec fn line_value(digits: Seq<u32>) -> int {
    digits.first() * 10 + digits.last()
}

/// The sum of the values of the lines. The first line without a digit, or the first
/// at which the sum would pass `u32::MAX`, makes an error of the whole.
pub open spec fn calibrated<D: Digits>(lines: Seq<Seq<char>>) -> Result<u32, CalibrationError>
    decreases lines.len(),
{
    if lines.len() == 0 {
        Ok(0)
    } else {
        match calibrated::<D>(lines.drop_last()) {
            Err(e) => Err(e),
            Ok(sum) => {
                let digits = D::found(lines.last());
                if digits.len() == 0 {
                    Err(CalibrationError::MissingDigit)
                } else if sum + line_value(digits) > u32::MAX {
                    Err(CalibrationError::Overflow)
                } else {
                    Ok((sum + line_value(digits)) as u32)
                }
            },
        }
    }
}

/// Where the first lines of a document fail, the document fails in the same way.
pub proof fn lemma_calibrated_prefix<D: Digits>(lines: Seq<Seq<char>>, n: int)
    requires
        0 <= n <= lines.len(),
        calibrated::<D>(lines.take(n)) is Err,
    ensures
        calibrated::<D>(lines) == calibrated::<D>(lines.take(n)),
    decreases lines.len(),
{
    if n == lines.len() {
        assert(lines.take(n) =~= lines);
    } else {
        assert(lines.drop_last().take(n) =~= lines.take(n));
        lemma_calibrated_prefix::<D>(lines.drop_last(), n);
    }
}

/// Adds up the values of all lines, with the digits found as `D` finds them.
pub fn solve<D: Digits>(lines: Vec<String>) -> (r: Result<u32, CalibrationError>)
    ensures
        r == calibrated::<D>(texts(lines@)),
{
    let ghost t = texts(lines@);
    let mut sum: u32 = 0;
    let mut i: usize = 0;
    assert(t.take(0) =~= Seq::<Seq<char>>::empty());
    while i < lines.len()
        invariant
            i <= lines@.len(),
            t == texts(lines@),
            calibrated::<D>(t.take(i as int)) == Ok::<u32, CalibrationError>(sum),
        decreases lines@.len() - i,
    {
        assert(t.take(i + 1).drop_last() =~= t.take(i as int));
        assert(t.take(i + 1).last() == lines@[i as int]@);
        let digits = D::find(lines[i].as_str());
        if digits.len() == 0 {
            proof {
                lemma_calibrated_prefix::<D>(t, i + 1);
            }
            return Err(CalibrationError::MissingDigit);
        }
        let first_digit = digits[0];
        let last_digit = digits[digits.len() - 1];
        let combined = combine_digits(first_digit, last_digit);
        match sum.checked_add(combined) {
            Some(total) => {
                sum = total;
            },
            None => {
                proof {
                    lemma_calibrated_prefix::<D>(t, i + 1);
                }
                return Err(CalibrationError::Overflow);
            },
        }
        i += 1;
    }
    assert(t.take(lines@.len() as int) =~= t);
    Ok(sum)
}

/// Wraps a calibration result for the puzzle's caller.
pub open spec fn answer(r: Result<u32, CalibrationError>) -> Result<u32, Error> {
    match r {
        Ok(v) => Ok(v),
        Err(e) => Err(Error::Calibration(e)),
    }
}

/// The calibration puzzle.
pub struct Day1;

impl Day for Day1 {
    type Item = String;

    type Answer = u32;

    const DAY: usize = 1;

    open spec fn solves_part_1() -> bool {
        true
    }

    open spec fn solves_part_2() -> bool {
        true
    }

    /// The sum of the values of all lines, from their decimal digits.
    fn part_1(items: Vec<String>) -> (r: Result<u32, Error>)
        ensures
            r == answer(calibrated::<Part1>(texts(items@))),
    {
        match solve::<Part1>(items) {
            Ok(v) => Ok(v),
            Err(e) => Err(Error::Calibration(e)),
        }
    }

    /// The sum of the values of all lines, digits by name included.
    fn part_2(items: Vec<String>) -> (r: Result<u32, Error>)
        ensures
            r == answer(calibrated::<Part2>(texts(items@))),
    {
        match solve::<Part2>(items) {
            Ok(v) => Ok(v),
            Err(e) => Err(Error::Calibration(e)),
        }
    }
}

} // verus!
