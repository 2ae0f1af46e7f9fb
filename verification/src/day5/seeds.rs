//! The seed numbers, and the ranges that they make two by two.

use crate::first::{first_at, lemma_first_at};
use vstd::prelude::*;

verus! {

/// The seed numbers as they stand in the input. Taken two by two they are ranges: a
/// start and a length. A last number without a partner is its own length.
pub struct Seeds(pub Vec<u64>);

/// What is wrong with the values that a search is to cover.
#[derive(Debug, Copy, Clone, PartialEq, Eq)]
pub enum DomainError {
    /// There is no seed at all.
    NoRanges,
    /// The range at this position has length zero.
    EmptyRange(usize),
    /// The range at this position would end past `u64::MAX`.
    RangeTooLarge(usize),
}

/// How many ranges the seed numbers make.
pub open spec fn range_count(raw: Seq<u64>) -> int {
    (raw.len() as int + 1) / 2
}

/// The first value of the range at position `k`.
pub open spec fn range_start(raw: Seq<u64>, k: int) -> u64 {
    raw[2 * k]
}

/// The number of values of the range at position `k`.
pub open spec fn range_len(raw: Seq<u64>, k: int) -> u64 {
    if 2 * k + 1 < raw.len() {
        raw[2 * k + 1]
    } else {
        raw[2 * k]
    }
}

/// The value after the last of the range at position `k`.
pub open spec fn range_end(raw: Seq<u64>, k: int) -> int {
    range_start(raw, k) + range_len(raw, k)
}

/// Tells of each position whether the range there would end past `u64::MAX`.
pub open spec fn too_large(raw: Seq<u64>) -> spec_fn(int) -> bool {
    |k: int| range_end(raw, k) > u64::MAX
}

/// Tells of each position whether the range there has length zero.
pub open spec fn empty(raw: Seq<u64>) -> spec_fn(int) -> bool {
    |k: int| range_len(raw, k) == 0
}

/// The position of the first range that would end past `u64::MAX`; the number of
/// ranges where all fit.
pub open spec fn first_too_large(raw: Seq<u64>) -> int {
    first_at(too_large(raw), 0, range_count(raw))
}

/// The position of the first range of length zero; the number of ranges where there
/// is none.
pub open spec fn first_empty(raw: Seq<u64>) -> int {
    first_at(empty(raw), 0, range_count(raw))
}

/// The ranges that the seed numbers make, each as its start and the value after its
/// last, unless one of them does not fit.
pub open spec fn spans(raw: Seq<u64>) -> Result<Seq<(u64, u64)>, DomainError> {
    if first_too_large(raw) < range_count(raw) {
        Err(DomainError::RangeTooLarge(first_too_large(raw) as usize))
    } else {
        Ok(
            Seq::new(
                range_count(raw) as nat,
                |k: int| (range_start(raw, k), range_end(raw, k) as u64),
            ),
        )
    }
}

/// The reason for which no search can be made over these seed numbers, if there is
/// one: a range that does not fit, no range at all, or a range without values.
pub open spec fn domain_fault(raw: Seq<u64>) -> Option<DomainError> {
    if first_too_large(raw) < range_count(raw) {
        Some(DomainError::RangeTooLarge(first_too_large(raw) as usize))
    } else if raw.len() == 0 {
        Some(DomainError::NoRanges)
    } else if first_empty(raw) < range_count(raw) {
        Some(DomainError::EmptyRange(first_empty(raw) as usize))
    } else {
        None
    }
}

impl Seeds {
    /// The seed numbers taken two by two as half-open intervals: each start with the
    /// value after the last of its range. No value of a range is enumerated here.
    pub fn ranges(&self) -> (r: Result<Vec<(u64, u64)>, DomainError>)
        ensures
            match r {
                Ok(v) => spans(self.0@) == Ok::<Seq<(u64, u64)>, DomainError>(v@),
                Err(e) => spans(self.0@) == Err::<Seq<(u64, u64)>, DomainError>(e),
            },
    {
        let n: usize = self.0.len();
        let count: usize = n / 2 + n % 2;
        let ghost raw = self.0@;
        let mut out: Vec<(u64, u64)> = Vec::new();
        let mut k: usize = 0;
        while k < count
            invariant
                k <= count,
                count == range_count(raw),
                n == raw.len(),
                raw == self.0@,
                first_too_large(raw) == first_at(too_large(raw), k as int, count as int),
                out@.len() == k,
                forall|j: int|
                    0 <= j < k ==> out@[j] == (range_start(raw, j), range_end(raw, j) as u64),
            decreases count - k,
        {
            let start: u64 = self.0[2 * k];
            let len: u64 = if 2 * k + 1 < n {
                self.0[2 * k + 1]
            } else {
                self.0[2 * k]
            };
            assert(too_large(raw)(k as int) == (start + len > u64::MAX));
            match start.checked_add(len) {
                Some(end) => {
                    out.push((start, end));
                },
                None => {
                    return Err(DomainError::RangeTooLarge(k));
                },
            }
            k += 1;
        }
        assert(out@ =~= Seq::new(
            range_count(raw) as nat,
            |k: int| (range_start(raw, k), range_end(raw, k) as u64),
        ));
        Ok(out)
    }

    /// Checks the seed numbers before any work is handed out, and gives the ranges to
    /// search: there is at least one, each fits, and none is empty.
    pub fn plan(&self) -> (r: Result<Vec<(u64, u64)>, DomainError>)
        ensures
            match r {
                Ok(v) => domain_fault(self.0@) is None && spans(self.0@) == Ok::<
                    Seq<(u64, u64)>,
                    DomainError,
                >(v@),
                Err(e) => domain_fault(self.0@) == Some(e),
            },
    {
        let ranges = match self.ranges() {
            Ok(v) => v,
            Err(e) => {
                return Err(e);
            },
        };
        if self.0.len() == 0 {
            return Err(DomainError::NoRanges);
        }
        let ghost raw = self.0@;
        proof {
            lemma_first_at(too_large(raw), 0, range_count(raw));
        }
        let mut k: usize = 0;
        while k < ranges.len()
            invariant
                k <= ranges@.len(),
                ranges@.len() == range_count(raw),
                spans(raw) == Ok::<Seq<(u64, u64)>, DomainError>(ranges@),
                forall|j: int| 0 <= j < range_count(raw) ==> !#[trigger] too_large(raw)(j),
                raw.len() > 0,
                raw == self.0@,
                first_too_large(raw) >= range_count(raw),
                first_empty(raw) == first_at(empty(raw), k as int, range_count(raw)),
            decreases ranges@.len() - k,
        {
            let (start, end) = ranges[k];
            assert(!too_large(raw)(k as int));
            assert(empty(raw)(k as int) == (start == end));
            if start == end {
                return Err(DomainError::EmptyRange(k));
            }
            k += 1;
        }
        Ok(ranges)
    }
}

} // verus!
