//! The text of an almanac: a seed line, then blocks of a header and rule lines.

use crate::day5::chain::Almanac;
use crate::day5::maps::{rules_wf, CategoryMap, MapRange, MapView, Path, PathView};
use crate::day5::seeds::Seeds;
use crate::text::{
    chars_of, cut, fields, find_char, first_index, numbers, parse_number, parse_numbers, split,
    texts, trim, trimmed, unsigned,
};
use std::str::FromStr;
use vstd::prelude::*;
use vstd::slice::slice_subrange;
use vstd::string::StrSliceExecFns;

verus! {

/// What is wrong with a line of the almanac's text.
#[derive(Debug, Copy, Clone, PartialEq, Eq)]
pub enum ParseFault {
    /// The seed line is absent or has no colon.
    MissingSeeds,
    /// Nothing follows the seed line.
    MissingBlocks,
    /// A block has no header line.
    MissingPath,
    /// A header names no destination category.
    MissingDestination,
    /// The word between the two categories of a header is not `to`.
    ExpectedTo,
    /// A rule has a single number.
    MissingSourceStart,
    /// A rule has two numbers only.
    MissingLength,
    /// A number is not an unsigned integer of 64 bits.
    InvalidNumber,
    /// One of the two intervals of a rule would end past `u64::MAX`.
    RuleTooLarge,
}

/// A fault and the position of the line that has it.
#[derive(Debug, Copy, Clone, PartialEq, Eq)]
pub struct ParseError {
    pub line: usize,
    pub fault: ParseFault,
}

/// What a header such as `seed-to-soil` says: the piece before the first hyphen is
/// the source, the second piece must be `to`, and the third is the destination.
pub open spec fn parse_path(s: Seq<char>) -> Result<PathView, ParseFault> {
    let f = fields(s, '-');
    if f.len() < 2 {
        Err(ParseFault::MissingDestination)
    } else if f[1] != seq!['t', 'o'] {
        Err(ParseFault::ExpectedTo)
    } else if f.len() < 3 {
        Err(ParseFault::MissingDestination)
    } else {
        Ok(PathView { source: f[0], destination: f[2] })
    }
}

/// What a rule line says: destination start, source start and length, separated by
/// single blanks. What follows the third number is not read.
pub open spec fn parse_rule(s: Seq<char>) -> Result<MapRange, ParseFault> {
    let f = fields(s, ' ');
    let max = u64::MAX as nat;
    if unsigned(f[0], max) is None {
        Err(ParseFault::InvalidNumber)
    } else if f.len() < 2 {
        Err(ParseFault::MissingSourceStart)
    } else if unsigned(f[1], max) is None {
        Err(ParseFault::InvalidNumber)
    } else if f.len() < 3 {
        Err(ParseFault::MissingLength)
    } else if unsigned(f[2], max) is None {
        Err(ParseFault::InvalidNumber)
    } else {
        let rule = MapRange {
            destination_start: unsigned(f[0], max)->0 as u64,
            source_start: unsigned(f[1], max)->0 as u64,
            len: unsigned(f[2], max)->0 as u64,
        };
        if rule.wf() {
            Ok(rule)
        } else {
            Err(ParseFault::RuleTooLarge)
        }
    }
}

/// What a seed line says: after the first colon, numbers separated by single blanks,
/// with white space allowed before the first and after the last.
pub open spec fn parse_seeds(s: Seq<char>) -> Result<Seq<u64>, ParseFault> {
    let k = first_index(s, ':');
    if !(0 <= k < s.len()) {
        Err(ParseFault::MissingSeeds)
    } else {
        match numbers(fields(trimmed(s.skip(k + 1)), ' '), u64::MAX as nat, false, false) {
            Some(v) => Ok(v),
            None => Err(ParseFault::InvalidNumber),
        }
    }
}

/// The rules that the lines from `from` up to `to` say, or the first line among them
/// that says none.
pub open spec fn parse_rules(lines: Seq<Seq<char>>, from: int, to: int) -> Result<
    Seq<MapRange>,
    ParseError,
>
    decreases to - from,
{
    if to <= from {
        Ok(Seq::empty())
    } else {
        match parse_rules(lines, from, to - 1) {
            Err(e) => Err(e),
            Ok(v) => match parse_rule(lines[to - 1]) {
                Err(fault) => Err(ParseError { line: (to - 1) as usize, fault }),
                Ok(rule) => Ok(v.push(rule)),
            },
        }
    }
}

/// The map that the block of lines from `from` up to `to` says: a header, of which
/// the text before the first blank is read, then one rule per line.
pub open spec fn parse_block(lines: Seq<Seq<char>>, from: int, to: int) -> Result<
    MapView,
    ParseError,
> {
    if to <= from {
        Err(ParseError { line: from as usize, fault: ParseFault::MissingPath })
    } else {
        match parse_path(fields(lines[from], ' ')[0]) {
            Err(fault) => Err(ParseError { line: from as usize, fault }),
            Ok(path) => match parse_rules(lines, from + 1, to) {
                Err(e) => Err(e),
                Ok(rules) => Ok(
                    MapView { source: path.source, destination: path.destination, rules },
                ),
            },
        }
    }
}

/// The position of the first empty line at or after `from`; the number of lines where
/// there is none.
pub open spec fn block_end(lines: Seq<Seq<char>>, from: int) -> int
    decreases lines.len() - from,
{
    if from >= lines.len() || lines[from].len() == 0 {
        from
    } else {
        block_end(lines, from + 1)
    }
}

/// The maps that the lines from `from` on say: blocks separated by single empty
/// lines, each block a map. The first line at fault is reported; an empty block has
/// its fault where it would begin.
pub open spec fn parse_chart(lines: Seq<Seq<char>>, from: int) -> Result<Seq<MapView>, ParseError>
    decreases lines.len() - from,
{
    let end = block_end(lines, from);
    match parse_block(lines, from, end) {
        Err(e) => Err(e),
        Ok(m) => if from <= end < lines.len() {
            match parse_chart(lines, end + 1) {
                Err(e) => Err(e),
                Ok(rest) => Ok(seq![m] + rest),
            }
        } else {
            Ok(seq![m])
        },
    }
}

impl FromStr for Path {
    type Err = ParseFault;

    /// Reads a header such as `seed-to-soil`.
    fn from_str(s: &str) -> (r: Result<Path, ParseFault>)
        ensures
            match r {
                Ok(p) => parse_path(s@) == Ok::<PathView, ParseFault>(p@),
                Err(e) => parse_path(s@) == Err::<PathView, ParseFault>(e),
            },
    {
        let chars = chars_of(s);
        let parts = split(chars.as_slice(), '-');
        let ghost f = fields(s@, '-');
        if parts.len() < 2 {
            return Err(ParseFault::MissingDestination);
        }
        let source = parts[0];
        let to = parts[1];
        assert(f[0] == cut(s@, parts@[0]));
        assert(f[1] == cut(s@, parts@[1]));
        if !(to.1 - to.0 == 2 && chars[to.0] == 't' && chars[to.0 + 1] == 'o') {
            assert(f[1] != seq!['t', 'o']) by {
                if f[1].len() == 2 {
                    assert(f[1][0] == s@[to.0 as int]);
                    assert(f[1][1] == s@[to.0 + 1]);
                }
            }
            return Err(ParseFault::ExpectedTo);
        }
        assert(f[1] =~= seq!['t', 'o']);
        if parts.len() < 3 {
            return Err(ParseFault::MissingDestination);
        }
        let destination = parts[2];
        assert(f[2] == cut(s@, parts@[2]));
        Ok(
            Path {
                source: s.substring_char(source.0, source.1).to_owned(),
                destination: s.substring_char(destination.0, destination.1).to_owned(),
            },
        )
    }
}

impl FromStr for MapRange {
    type Err = ParseFault;

    /// Reads a rule line: destination start, source start and length.
    fn from_str(s: &str) -> (r: Result<MapRange, ParseFault>)
        ensures
            r == parse_rule(s@),
            r is Ok ==> r->Ok_0.wf(),
    {
        let chars = chars_of(s);
        let line = chars.as_slice();
        let parts = split(line, ' ');
        let ghost f = fields(s@, ' ');
        assert(f[0] == cut(s@, parts@[0]));
        let destination_start = match parse_number(
            slice_subrange(line, parts[0].0, parts[0].1),
            u64::MAX,
        ) {
            Some(v) => v,
            None => {
                return Err(ParseFault::InvalidNumber);
            },
        };
        if parts.len() < 2 {
            return Err(ParseFault::MissingSourceStart);
        }
        assert(f[1] == cut(s@, parts@[1]));
        let source_start = match parse_number(
            slice_subrange(line, parts[1].0, parts[1].1),
            u64::MAX,
        ) {
            Some(v) => v,
            None => {
                return Err(ParseFault::InvalidNumber);
            },
        };
        if parts.len() < 3 {
            return Err(ParseFault::MissingLength);
        }
        assert(f[2] == cut(s@, parts@[2]));
        let len = match parse_number(slice_subrange(line, parts[2].0, parts[2].1), u64::MAX) {
            Some(v) => v,
            None => {
                return Err(ParseFault::InvalidNumber);
            },
        };
        match MapRange::new(destination_start, source_start, len) {
            Some(rule) => Ok(rule),
            None => Err(ParseFault::RuleTooLarge),
        }
    }
}

impl FromStr for Seeds {
    type Err = ParseFault;

    /// Reads the seed line: a label, a colon, and the seed numbers.
    fn from_str(s: &str) -> (r: Result<Seeds, ParseFault>)
        ensures
            match r {
                Ok(seeds) => parse_seeds(s@) == Ok::<Seq<u64>, ParseFault>(seeds.0@),
                Err(e) => parse_seeds(s@) == Err::<Seq<u64>, ParseFault>(e),
            },
    {
        let chars = chars_of(s);
        let line = chars.as_slice();
        let n: usize = line.len();
        let k = find_char(line, ':');
        if k == n {
            return Err(ParseFault::MissingSeeds);
        }
        let rest = slice_subrange(line, k + 1, n);
        assert(rest@ =~= s@.skip(k + 1));
        let (a, b) = trim(rest);
        let body = slice_subrange(rest, a, b);
        let parts = split(body, ' ');
        match parse_numbers(body, parts.as_slice(), u64::MAX, false, false) {
            Some(v) => Ok(Seeds(v)),
            None => Err(ParseFault::InvalidNumber),
        }
    }
}

impl CategoryMap {
    /// Reads the block of lines from `from` up to `to`: a header, then rules.
    pub fn read(lines: &[String], from: usize, to: usize) -> (r: Result<CategoryMap, ParseError>)
        requires
            from <= to <= lines@.len(),
        ensures
            match r {
                Ok(m) => m.wf() && parse_block(texts(lines@), from as int, to as int) == Ok::<
                    MapView,
                    ParseError,
                >(m@),
                Err(e) => parse_block(texts(lines@), from as int, to as int) == Err::<
                    MapView,
                    ParseError,
                >(e),
            },
    {
        let ghost t = texts(lines@);
        if to == from {
            return Err(ParseError { line: from, fault: ParseFault::MissingPath });
        }
        let header = lines[from].as_str();
        assert(header@ == t[from as int]);
        let chars = chars_of(header);
        let parts = split(chars.as_slice(), ' ');
        let first = parts[0];
        assert(fields(header@, ' ')[0] == cut(header@, parts@[0]));
        let category = match Path::from_str(header.substring_char(first.0, first.1)) {
            Ok(p) => p,
            Err(fault) => {
                return Err(ParseError { line: from, fault });
            },
        };
        let mut ranges: Vec<MapRange> = Vec::new();
        let mut i: usize = from + 1;
        while i < to
            invariant
                from < i <= to <= lines@.len(),
                t == texts(lines@),
                rules_wf(ranges@),
                parse_path(fields(t[from as int], ' ')[0]) == Ok::<PathView, ParseFault>(category@),
                parse_rules(t, from + 1, i as int) == Ok::<Seq<MapRange>, ParseError>(ranges@),
            decreases to - i,
        {
            assert(lines@[i as int]@ == t[i as int]);
            match MapRange::from_str(lines[i].as_str()) {
                Ok(rule) => {
                    ranges.push(rule);
                },
                Err(fault) => {
                    proof {
                        lemma_rules_prefix(t, from + 1, i + 1, to as int);
                    }
                    return Err(ParseError { line: i, fault });
                },
            }
            i += 1;
        }
        Ok(CategoryMap { category, ranges })
    }

    /// Reads a whole block: a header line, then one rule per line.
    pub fn try_from(value: Vec<String>) -> (r: Result<CategoryMap, ParseError>)
        ensures
            match r {
                Ok(m) => m.wf() && parse_block(texts(value@), 0, value@.len() as int) == Ok::<
                    MapView,
                    ParseError,
                >(m@),
                Err(e) => parse_block(texts(value@), 0, value@.len() as int) == Err::<
                    MapView,
                    ParseError,
                >(e),
            },
    {
        CategoryMap::read(value.as_slice(), 0, value.len())
    }
}

/// Where the rule lines up to some line fail, so do the rule lines up to any later
/// one, and at the same line.
pub proof fn lemma_rules_prefix(lines: Seq<Seq<char>>, from: int, mid: int, to: int)
    requires
        from <= mid <= to,
        parse_rules(lines, from, mid) is Err,
    ensures
        parse_rules(lines, from, to) == parse_rules(lines, from, mid),
    decreases to - mid,
{
    if mid < to {
        lemma_rules_prefix(lines, from, mid, to - 1);
    }
}

impl Almanac {
    /// Reads the maps that the lines from `from` on say, block by block.
    pub fn read(lines: &[String], from: usize) -> (r: Result<Almanac, ParseError>)
        requires
            from <= lines@.len(),
        ensures
            match r {
                Ok(a) => a.wf() && parse_chart(texts(lines@), from as int) == Ok::<
                    Seq<MapView>,
                    ParseError,
                >(a@),
                Err(e) => parse_chart(texts(lines@), from as int) == Err::<
                    Seq<MapView>,
                    ParseError,
                >(e),
            },
    {
        let ghost t = texts(lines@);
        let n: usize = lines.len();
        let mut maps: Vec<CategoryMap> = Vec::new();
        let mut start: usize = from;
        loop
            invariant
                from <= start <= n,
                n == lines@.len(),
                t == texts(lines@),
                forall|j: int| 0 <= j < maps@.len() ==> (#[trigger] maps@[j]).wf(),
                parse_chart(t, from as int) == (match parse_chart(t, start as int) {
                    Ok(rest) => Ok::<Seq<MapView>, ParseError>(
                        Seq::new(maps@.len(), |i: int| maps@[i]@) + rest,
                    ),
                    Err(e) => Err(e),
                }),
            decreases n - start,
        {
            let mut end: usize = start;
            while end < n && lines[end].as_str().unicode_len() != 0
                invariant
                    start <= end <= n,
                    n == lines@.len(),
                    t == texts(lines@),
                    block_end(t, start as int) == block_end(t, end as int),
                decreases n - end,
            {
                assert(lines@[end as int]@ == t[end as int]);
                end += 1;
            }
            assert(end < n ==> lines@[end as int]@ == t[end as int]);
            assert(block_end(t, start as int) == end);
            let map = match CategoryMap::read(lines, start, end) {
                Ok(m) => m,
                Err(e) => {
                    return Err(e);
                },
            };
            let ghost before = Seq::new(maps@.len(), |i: int| maps@[i]@);
            let ghost m = map@;
            maps.push(map);
            let ghost after = Seq::new(maps@.len(), |i: int| maps@[i]@);
            assert(after =~= before + seq![m]);
            if end >= n {
                let almanac = Almanac { maps };
                assert(almanac@ =~= after);
                assert(before + seq![m] =~= after);
                return Ok(almanac);
            }
            proof {
                match parse_chart(t, end + 1) {
                    Ok(rest) => {
                        assert(before + (seq![m] + rest) =~= after + rest);
                    },
                    Err(e) => {},
                }
            }
            start = end + 1;
        }
    }

    /// Reads the maps of an almanac from its lines: blocks separated by empty lines.
    pub fn create(blocks: &[String]) -> (r: Result<Almanac, ParseError>)
        ensures
            match r {
                Ok(a) => a.wf() && parse_chart(texts(blocks@), 0) == Ok::<Seq<MapView>, ParseError>(
                    a@,
                ),
                Err(e) => parse_chart(texts(blocks@), 0) == Err::<Seq<MapView>, ParseError>(e),
            },
    {
        Almanac::read(blocks, 0)
    }
}

/// What the lines of a puzzle input say: the seed numbers on the first line, a
/// second line that is not read, and the maps from the third line on.
pub open spec fn parse_input(lines: Seq<Seq<char>>) -> Result<
    (Seq<u64>, Seq<MapView>),
    ParseError,
> {
    if lines.len() == 0 {
        Err(ParseError { line: 0, fault: ParseFault::MissingSeeds })
    } else {
        match parse_seeds(lines[0]) {
            Err(fault) => Err(ParseError { line: 0, fault }),
            Ok(seeds) => if lines.len() < 2 {
                Err(ParseError { line: 1, fault: ParseFault::MissingBlocks })
            } else {
                match parse_chart(lines, 2) {
                    Err(e) => Err(e),
                    Ok(maps) => Ok((seeds, maps)),
                }
            },
        }
    }
}

/// Reads a puzzle input: the seeds and the almanac.
pub fn read_input(lines: &[String]) -> (r: Result<(Seeds, Almanac), ParseError>)
    ensures
        match r {
            Ok(input) => input.1.wf() && parse_input(texts(lines@)) == Ok::<
                (Seq<u64>, Seq<MapView>),
                ParseError,
            >((input.0.0@, input.1@)),
            Err(e) => parse_input(texts(lines@)) == Err::<(Seq<u64>, Seq<MapView>), ParseError>(e),
        },
{
    if lines.len() == 0 {
        return Err(ParseError { line: 0, fault: ParseFault::MissingSeeds });
    }
    assert(lines@[0]@ == texts(lines@)[0]);
    let seeds = match Seeds::from_str(lines[0].as_str()) {
        Ok(seeds) => seeds,
        Err(fault) => {
            return Err(ParseError { line: 0, fault });
        },
    };
    if lines.len() < 2 {
        return Err(ParseError { line: 1, fault: ParseFault::MissingBlocks });
    }
    match Almanac::read(lines, 2) {
        Ok(almanac) => Ok((seeds, almanac)),
        Err(e) => Err(e),
    }
}

} // verus!
