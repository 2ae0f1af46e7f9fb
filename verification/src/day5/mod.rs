//! The almanac: range rules gathered into category maps, a chain of such maps walked
//! from one category to another, and the exhaustive search for the lowest value that
//! a set of seed ranges resolves to.

pub mod chain;
pub mod maps;
pub mod parse;
pub mod search;
pub mod seeds;

use crate::day::{Day, Error};
use crate::day5::chain::{lemma_trail_follows, routed, ChainError};
use crate::day5::maps::MapView;
use crate::day5::parse::{parse_input, read_input};
use crate::day5::search::{
    global_lowest, located, lowest, reduce, search, search_fault, AlmanacError,
};
use crate::day5::seeds::DomainError;
use crate::text::texts;
use vstd::prelude::*;

verus! {

/// The value that each seed of a list resolves to.
pub open spec fn locations(maps: Seq<MapView>, seeds: Seq<u64>) -> Seq<u64> {
    Seq::new(seeds.len(), |i: int| located(maps, seeds[i]))
}

/// The lowest value that any single seed of the input resolves to, or the stage at
/// which the input fails.
pub open spec fn lowest_location(lines: Seq<Seq<char>>) -> Result<u64, AlmanacError> {
    match parse_input(lines) {
        Err(e) => Err(AlmanacError::Parse(e)),
        Ok(input) => match routed(input.1, "seed"@, "location"@) {
            Err(e) => Err(AlmanacError::Chain(e)),
            Ok(_) => match lowest(locations(input.1, input.0)) {
                None => Err(AlmanacError::Domain(DomainError::NoRanges)),
                Some(m) => Ok(m),
            },
        },
    }
}

/// The stage at which a search over the input's seed ranges fails, if it does.
pub open spec fn range_search_fault(lines: Seq<Seq<char>>) -> Option<AlmanacError> {
    match parse_input(lines) {
        Err(e) => Some(AlmanacError::Parse(e)),
        Ok(input) => search_fault(input.1, input.0),
    }
}

/// The almanac puzzle: the lowest location of the seeds, taken one by one in the
/// first part and as ranges in the second.
pub struct Day5;

impl Day for Day5 {
    type Item = String;

    type Answer = u64;

    const DAY: usize = 5;

    open spec fn solves_part_1() -> bool {
        true
    }

    open spec fn solves_part_2() -> bool {
        true
    }

    /// The lowest location that any of the seed numbers resolves to.
    fn part_1(lines: Vec<String>) -> (r: Result<u64, Error>)
        ensures
            r == (match lowest_location(texts(lines@)) {
                Ok(m) => Ok::<u64, Error>(m),
                Err(e) => Err(Error::Almanac(e)),
            }),
    {
        let (seeds, almanac) = match read_input(lines.as_slice()) {
            Ok(input) => input,
            Err(e) => {
                return Err(Error::Almanac(AlmanacError::Parse(e)));
            },
        };
        let route = match almanac.route("seed", "location") {
            Ok(route) => route,
            Err(e) => {
                return Err(Error::Almanac(AlmanacError::Chain(e)));
            },
        };
        let hops: usize = almanac.maps.len();
        let ghost all = locations(almanac@, seeds.0@);
        let mut found: Vec<u64> = Vec::new();
        let mut i: usize = 0;
        while i < seeds.0.len()
            invariant
                i <= seeds.0@.len(),
                almanac.wf(),
                almanac@.len() == hops,
                routed(almanac@, "seed"@, "location"@) == Ok::<Seq<usize>, ChainError>(route@),
                all == locations(almanac@, seeds.0@),
                found@ == all.take(i as int),
            decreases seeds.0@.len() - i,
        {
            proof {
                lemma_trail_follows(
                    almanac@,
                    seeds.0@[i as int],
                    "seed"@,
                    "location"@,
                    almanac@.len(),
                );
            }
            let value = almanac.follow(route.as_slice(), seeds.0[i]);
            found.push(value);
            assert(found@ =~= all.take(i + 1));
            i += 1;
        }
        assert(all.take(seeds.0@.len() as int) =~= all);
        match reduce(found.as_slice()) {
            Some(m) => Ok(m),
            None => Err(Error::Almanac(AlmanacError::Domain(DomainError::NoRanges))),
        }
    }

    /// The lowest location that any seed of the seed ranges resolves to.
    fn part_2(lines: Vec<String>) -> (r: Result<u64, Error>)
        ensures
            match r {
                Ok(m) => range_search_fault(texts(lines@)) is None && global_lowest(
                    parse_input(texts(lines@))->Ok_0.1,
                    parse_input(texts(lines@))->Ok_0.0,
                    m,
                ),
                Err(e) => range_search_fault(texts(lines@)) is Some && e == Error::Almanac(
                    range_search_fault(texts(lines@))->0,
                ),
            },
    {
        let (seeds, almanac) = match read_input(lines.as_slice()) {
            Ok(input) => input,
            Err(e) => {
                return Err(Error::Almanac(AlmanacError::Parse(e)));
            },
        };
        match search(&almanac, &seeds) {
            Ok(m) => Ok(m),
            Err(e) => Err(Error::Almanac(e)),
        }
    }
}

} // verus!
