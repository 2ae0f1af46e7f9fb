use advent::day::{Day, Error};
use advent::day5::chain::{Almanac, ChainError};
use advent::day5::maps::{CategoryMap, MapRange, Path};
use advent::day5::parse::{read_input, ParseError, ParseFault};
use advent::day5::search::{reduce, search, AlmanacError, Progress, Scan, Worker};
use advent::day5::seeds::{DomainError, Seeds};
use advent::day5::Day5;
use std::str::FromStr;

fn lines(text: &[&str]) -> Vec<String> {
    text.iter().map(|l| l.to_string()).collect()
}

fn rule(destination_start: u64, source_start: u64, len: u64) -> MapRange {
    MapRange::new(destination_start, source_start, len).unwrap()
}

fn one_map(source: &str, destination: &str, ranges: Vec<MapRange>) -> CategoryMap {
    CategoryMap {
        category: Path { source: source.to_string(), destination: destination.to_string() },
        ranges,
    }
}

fn sample() -> Vec<String> {
    lines(&[
        "seeds: 79 14 55 13",
        "",
        "seed-to-soil map:",
        "50 98 2",
        "52 50 48",
        "",
        "soil-to-fertilizer map:",
        "0 15 37",
        "37 52 2",
        "39 0 15",
        "",
        "fertilizer-to-water map:",
        "49 53 8",
        "0 11 42",
        "42 0 7",
        "57 7 4",
        "",
        "water-to-light map:",
        "88 18 7",
        "18 25 70",
        "",
        "light-to-temperature map:",
        "45 77 23",
        "81 45 19",
        "68 64 13",
        "",
        "temperature-to-humidity map:",
        "0 69 1",
        "1 0 69",
        "",
        "humidity-to-location map:",
        "60 56 37",
        "56 93 4",
    ])
}

#[test]
fn rule_maps_inside_its_interval_only() {
    let r = rule(50, 98, 2);
    assert_eq!(r.map(97), None);
    assert_eq!(r.map(98), Some(50));
    assert_eq!(r.map(99), Some(51));
    assert_eq!(r.map(100), None);
    assert_eq!(r.range(), (98, 100));
}

#[test]
fn rule_of_length_zero_matches_nothing() {
    let r = rule(5, 10, 0);
    assert_eq!(r.map(9), None);
    assert_eq!(r.map(10), None);
    assert_eq!(r.map(11), None);
}

#[test]
fn rule_that_would_overflow_is_refused() {
    assert_eq!(MapRange::new(0, u64::MAX, 1), None);
    assert_eq!(MapRange::new(u64::MAX, 0, 1), None);
    assert_eq!(
        MapRange::new(0, u64::MAX, 0),
        Some(MapRange { destination_start: 0, source_start: u64::MAX, len: 0 })
    );
    let r = rule(1, 0, u64::MAX - 1);
    assert_eq!(r.map(u64::MAX - 2), Some(u64::MAX - 1));
    assert_eq!(r.map(u64::MAX - 1), None);
}

#[test]
fn seed_to_soil_scenario() {
    let m = one_map("seed", "soil", vec![rule(50, 98, 2), rule(52, 50, 48)]);
    assert_eq!(m.map(79), Some(81));
    assert_eq!(m.map(98), Some(50));
    assert_eq!(m.map(99), Some(51));
    assert_eq!(m.map(10), None);
    assert_eq!(m.apply(79), 81);
    assert_eq!(m.apply(98), 50);
    assert_eq!(m.apply(99), 51);
    assert_eq!(m.apply(10), 10);
}

#[test]
fn first_declared_rule_wins() {
    let m = one_map("a", "b", vec![rule(100, 10, 10), rule(500, 15, 10)]);
    assert_eq!(m.apply(15), 105);
    assert_eq!(m.apply(19), 109);
    assert_eq!(m.apply(20), 505);
    let swapped = one_map("a", "b", vec![rule(500, 15, 10), rule(100, 10, 10)]);
    assert_eq!(swapped.apply(15), 500);
    assert_eq!(swapped.apply(14), 104);
}

#[test]
fn uncovered_value_passes_unchanged() {
    let m = one_map("a", "b", vec![rule(100, 10, 10)]);
    assert_eq!(m.map(9), None);
    assert_eq!(m.apply(9), 9);
    assert_eq!(m.apply(20), 20);
    let none = one_map("a", "b", vec![]);
    assert_eq!(none.apply(7), 7);
}

#[test]
fn path_reads_source_and_destination() {
    let p = Path::from_str("seed-to-soil").unwrap();
    assert_eq!(p.source, "seed");
    assert_eq!(p.destination, "soil");
    let q = Path::from_str("a-to-b-and-more").unwrap();
    assert_eq!(q.source, "a");
    assert_eq!(q.destination, "b");
}

#[test]
fn path_faults() {
    assert_eq!(Path::from_str("seed").err(), Some(ParseFault::MissingDestination));
    assert_eq!(Path::from_str("seed-to").err(), Some(ParseFault::MissingDestination));
    assert_eq!(Path::from_str("seed-of-soil").err(), Some(ParseFault::ExpectedTo));
    assert_eq!(Path::from_str("seed-").err(), Some(ParseFault::ExpectedTo));
    assert_eq!(Path::from_str("").err(), Some(ParseFault::MissingDestination));
}

#[test]
fn rule_line_reads_three_numbers() {
    assert_eq!(
        MapRange::from_str("50 98 2"),
        Ok(MapRange { destination_start: 50, source_start: 98, len: 2 })
    );
    assert_eq!(
        MapRange::from_str("+1 02 3 and more"),
        Ok(MapRange { destination_start: 1, source_start: 2, len: 3 })
    );
    assert_eq!(
        MapRange::from_str("0 0 18446744073709551615"),
        Ok(MapRange { destination_start: 0, source_start: 0, len: u64::MAX })
    );
}

#[test]
fn rule_line_faults() {
    assert_eq!(MapRange::from_str(""), Err(ParseFault::InvalidNumber));
    assert_eq!(MapRange::from_str("50"), Err(ParseFault::MissingSourceStart));
    assert_eq!(MapRange::from_str("50 98"), Err(ParseFault::MissingLength));
    assert_eq!(MapRange::from_str("50  98 2"), Err(ParseFault::InvalidNumber));
    assert_eq!(MapRange::from_str("50 x 2"), Err(ParseFault::InvalidNumber));
    assert_eq!(MapRange::from_str("50 98 -2"), Err(ParseFault::InvalidNumber));
    assert_eq!(MapRange::from_str("50 98 18446744073709551616"), Err(ParseFault::InvalidNumber));
    assert_eq!(MapRange::from_str("1 98 18446744073709551615"), Err(ParseFault::RuleTooLarge));
    assert_eq!(MapRange::from_str("18446744073709551615 0 1"), Err(ParseFault::RuleTooLarge));
}

#[test]
fn seed_line_reads_numbers() {
    assert_eq!(Seeds::from_str("seeds: 79 14 55 13").unwrap().0, vec![79, 14, 55, 13]);
    assert_eq!(Seeds::from_str("seeds:7").unwrap().0, vec![7]);
    assert_eq!(Seeds::from_str("any label:  1 2  ").unwrap().0, vec![1, 2]);
}

#[test]
fn seed_line_faults() {
    assert_eq!(Seeds::from_str("seeds 79 14").err(), Some(ParseFault::MissingSeeds));
    assert_eq!(Seeds::from_str("seeds:").err(), Some(ParseFault::InvalidNumber));
    assert_eq!(Seeds::from_str("seeds: 79  14").err(), Some(ParseFault::InvalidNumber));
    assert_eq!(Seeds::from_str("seeds: 79 soil").err(), Some(ParseFault::InvalidNumber));
}

#[test]
fn seed_ranges_scenario() {
    let seeds = Seeds(vec![79, 14, 55, 13]);
    assert_eq!(seeds.ranges(), Ok(vec![(79, 93), (55, 68)]));
    assert_eq!(seeds.plan(), Ok(vec![(79, 93), (55, 68)]));
    assert_eq!(seeds.ranges(), Ok(vec![(79, 93), (55, 68)]));
}

#[test]
fn seed_without_partner_is_its_own_length() {
    assert_eq!(Seeds(vec![10, 2, 7]).ranges(), Ok(vec![(10, 12), (7, 14)]));
    assert_eq!(Seeds(vec![]).ranges(), Ok(vec![]));
}

#[test]
fn seed_range_faults() {
    assert_eq!(Seeds(vec![u64::MAX, 1]).ranges(), Err(DomainError::RangeTooLarge(0)));
    assert_eq!(Seeds(vec![1, 1, 2, u64::MAX]).ranges(), Err(DomainError::RangeTooLarge(1)));
    assert_eq!(Seeds(vec![1, 0]).ranges(), Ok(vec![(1, 1)]));
    assert_eq!(Seeds(vec![1, 0]).plan(), Err(DomainError::EmptyRange(0)));
    assert_eq!(Seeds(vec![1, 5, 9, 0, 3, 0]).plan(), Err(DomainError::EmptyRange(1)));
    assert_eq!(Seeds(vec![]).plan(), Err(DomainError::NoRanges));
    assert_eq!(Seeds(vec![1, 0, u64::MAX, 1]).plan(), Err(DomainError::RangeTooLarge(1)));
}

#[test]
fn block_reads_header_and_rules() {
    let m = CategoryMap::try_from(lines(&["seed-to-soil map:", "50 98 2", "52 50 48"])).unwrap();
    assert_eq!(m.category.source, "seed");
    assert_eq!(m.category.destination, "soil");
    assert_eq!(m.ranges, vec![rule(50, 98, 2), rule(52, 50, 48)]);
}

#[test]
fn block_faults_name_their_line() {
    assert_eq!(
        CategoryMap::try_from(vec![]).err(),
        Some(ParseError { line: 0, fault: ParseFault::MissingPath })
    );
    assert_eq!(
        CategoryMap::try_from(lines(&["seed map:"])).err(),
        Some(ParseError { line: 0, fault: ParseFault::MissingDestination })
    );
    assert_eq!(
        CategoryMap::try_from(lines(&["a-to-b map:", "1 2 3", "1 2", "x"])).err(),
        Some(ParseError { line: 2, fault: ParseFault::MissingLength })
    );
}

#[test]
fn almanac_reads_blocks() {
    let a = Almanac::create(&lines(&["a-to-b map:", "1 2 3", "", "b-to-c map:"])).unwrap();
    assert_eq!(a.maps.len(), 2);
    assert_eq!(a.maps[0].ranges, vec![rule(1, 2, 3)]);
    assert_eq!(a.maps[1].category.destination, "c");
    assert_eq!(a.maps[1].ranges, vec![]);
    assert_eq!(a.map("b").map(|m| m.category.destination.clone()), Some("c".to_string()));
    assert!(a.map("c").is_none());
}

#[test]
fn almanac_faults_name_their_line() {
    assert_eq!(
        Almanac::create(&[]).err(),
        Some(ParseError { line: 0, fault: ParseFault::MissingPath })
    );
    assert_eq!(
        Almanac::create(&lines(&["a-to-b map:", "1 2 3", ""])).err(),
        Some(ParseError { line: 3, fault: ParseFault::MissingPath })
    );
    assert_eq!(
        Almanac::create(&lines(&["a-to-b map:", "", "", "b-to-c map:"])).err(),
        Some(ParseError { line: 2, fault: ParseFault::MissingPath })
    );
    assert_eq!(
        Almanac::create(&lines(&["a-to-b map:", "1 2 3", "", "b-to-c map:", "4 5 six"])).err(),
        Some(ParseError { line: 4, fault: ParseFault::InvalidNumber })
    );
    assert_eq!(
        Almanac::create(&lines(&["a-to-b map:", "", "b-from-c map:"])).err(),
        Some(ParseError { line: 2, fault: ParseFault::ExpectedTo })
    );
}

#[test]
fn resolve_walks_the_chain() {
    let (_, almanac) = read_input(&sample()).unwrap();
    assert_eq!(almanac.resolve(79, "seed", "location"), 82);
    assert_eq!(almanac.resolve(14, "seed", "location"), 43);
    assert_eq!(almanac.resolve(55, "seed", "location"), 86);
    assert_eq!(almanac.resolve(13, "seed", "location"), 35);
    assert_eq!(almanac.resolve(79, "seed", "soil"), 81);
    assert_eq!(almanac.resolve(79, "seed", "fertilizer"), 81);
    assert_eq!(almanac.resolve(81, "fertilizer", "light"), 74);
    assert_eq!(almanac.resolve(14, "seed", "fertilizer"), 53);
}

#[test]
fn resolve_to_origin_is_identity() {
    let (_, almanac) = read_input(&sample()).unwrap();
    assert_eq!(almanac.resolve(79, "seed", "seed"), 79);
    assert_eq!(almanac.resolve(98, "seed", "seed"), 98);
    assert_eq!(almanac.resolve(5, "nowhere", "nowhere"), 5);
    assert_eq!(almanac.route("seed", "seed"), Ok(vec![]));
}

#[test]
fn resolve_stops_where_the_chain_ends() {
    let (_, almanac) = read_input(&sample()).unwrap();
    assert_eq!(almanac.resolve(79, "seed", "moon"), 82);
    assert_eq!(almanac.resolve(79, "moon", "location"), 79);
    assert_eq!(almanac.route("seed", "moon"), Err(ChainError::Unreachable));
}

#[test]
fn resolve_cuts_a_cycle() {
    let almanac = Almanac {
        maps: vec![one_map("a", "b", vec![rule(1, 0, 100)]), one_map("b", "a", vec![])],
    };
    assert_eq!(almanac.resolve(0, "a", "b"), 1);
    assert_eq!(almanac.resolve(0, "a", "c"), 1);
    assert_eq!(almanac.route("a", "c"), Err(ChainError::HopLimit));
    assert_eq!(almanac.route("a", "a"), Ok(vec![]));
    assert_eq!(almanac.route("b", "a"), Ok(vec![1]));
}

#[test]
fn first_map_of_a_source_is_used() {
    let almanac = Almanac {
        maps: vec![
            one_map("a", "b", vec![rule(10, 0, 5)]),
            one_map("a", "b", vec![rule(20, 0, 5)]),
        ],
    };
    assert_eq!(almanac.resolve(1, "a", "b"), 11);
    assert_eq!(almanac.position("a"), 0);
    assert_eq!(almanac.position("b"), 2);
}

#[test]
fn route_and_follow_agree_with_resolve() {
    let (_, almanac) = read_input(&sample()).unwrap();
    let route = almanac.route("seed", "location").unwrap();
    assert_eq!(route, vec![0, 1, 2, 3, 4, 5, 6]);
    for seed in 0..120u64 {
        assert_eq!(almanac.follow(&route, seed), almanac.resolve(seed, "seed", "location"));
    }
    assert_eq!(almanac.follow(&[0], 79), 81);
    assert_eq!(almanac.follow(&[], 79), 79);
}

#[test]
fn worker_finds_the_lowest_of_its_range() {
    let (_, almanac) = read_input(&sample()).unwrap();
    assert_eq!(Worker { id: 0, almanac: &almanac, range: (79, 93) }.run(), 46);
    assert_eq!(Worker { id: 1, almanac: &almanac, range: (55, 68) }.run(), 56);
    assert_eq!(Worker { id: 2, almanac: &almanac, range: (82, 83) }.run(), 46);
}

#[test]
fn reduce_takes_the_minimum() {
    assert_eq!(reduce(&[]), None);
    assert_eq!(reduce(&[7]), Some(7));
    assert_eq!(reduce(&[46, 56]), Some(46));
    assert_eq!(reduce(&[56, 46]), Some(46));
    assert_eq!(reduce(&[3, 1, 2, 1]), Some(1));
    assert_eq!(reduce(&[1, 2, 1, 3]), Some(1));
}

#[test]
fn search_over_identity_chain() {
    let almanac = Almanac { maps: vec![one_map("seed", "location", vec![])] };
    assert_eq!(search(&almanac, &Seeds(vec![79, 14, 55, 13])), Ok(55));
}

#[test]
fn search_agrees_with_resolving_every_seed() {
    let (seeds, almanac) = read_input(&sample()).unwrap();
    let mut lowest = u64::MAX;
    for (start, end) in seeds.ranges().unwrap() {
        for seed in start..end {
            lowest = lowest.min(almanac.resolve(seed, "seed", "location"));
        }
    }
    assert_eq!(lowest, 46);
    assert_eq!(search(&almanac, &seeds), Ok(46));
    assert_eq!(search(&almanac, &Seeds(vec![55, 13, 79, 14])), Ok(46));
}

#[test]
fn search_rejects_empty_range() {
    let almanac = Almanac { maps: vec![one_map("seed", "location", vec![])] };
    assert_eq!(
        search(&almanac, &Seeds(vec![79, 14, 55, 0])),
        Err(AlmanacError::Domain(DomainError::EmptyRange(1)))
    );
    assert_eq!(search(&almanac, &Seeds(vec![])), Err(AlmanacError::Domain(DomainError::NoRanges)));
    assert_eq!(
        search(&almanac, &Seeds(vec![u64::MAX, 2])),
        Err(AlmanacError::Domain(DomainError::RangeTooLarge(0)))
    );
}

#[test]
fn search_rejects_broken_chain() {
    let almanac = Almanac { maps: vec![one_map("seed", "soil", vec![])] };
    assert_eq!(
        search(&almanac, &Seeds(vec![1, 1])),
        Err(AlmanacError::Chain(ChainError::Unreachable))
    );
    let round = Almanac {
        maps: vec![one_map("seed", "soil", vec![]), one_map("soil", "seed", vec![])],
    };
    assert_eq!(search(&round, &Seeds(vec![1, 0])), Err(AlmanacError::Chain(ChainError::HopLimit)));
}

#[test]
fn almanac_puzzle_answers() {
    assert_eq!(Day5::part_1(sample()), Ok(35));
    assert_eq!(Day5::part_2(sample()), Ok(46));
    assert_eq!(Day5::DAY, 5);
}

#[test]
fn almanac_puzzle_faults() {
    let parse = |line, fault| Err(Error::Almanac(AlmanacError::Parse(ParseError { line, fault })));
    assert_eq!(Day5::part_1(vec![]), parse(0, ParseFault::MissingSeeds));
    assert_eq!(Day5::part_2(lines(&["seeds 1 2"])), parse(0, ParseFault::MissingSeeds));
    assert_eq!(Day5::part_1(lines(&["seeds: 1 2"])), parse(1, ParseFault::MissingBlocks));
    assert_eq!(Day5::part_1(lines(&["seeds: 1 2", ""])), parse(2, ParseFault::MissingPath));
    assert_eq!(
        Day5::part_2(lines(&["seeds: 1 2", "", "seed-to-location map:", "1 2"])),
        parse(3, ParseFault::MissingLength)
    );
    assert_eq!(
        Day5::part_1(lines(&["seeds: 1 2", "", "seed-to-soil map:"])),
        Err(Error::Almanac(AlmanacError::Chain(ChainError::Unreachable)))
    );
    assert_eq!(
        Day5::part_2(lines(&["seeds: 1 0", "", "seed-to-location map:"])),
        Err(Error::Almanac(AlmanacError::Domain(DomainError::EmptyRange(0))))
    );
    assert_eq!(Day5::part_1(lines(&["seeds: 1 0", "", "seed-to-location map:"])), Ok(0));
}

#[test]
fn worker_advances_in_steps() {
    let (_, almanac) = read_input(&sample()).unwrap();
    let worker = Worker { id: 0, almanac: &almanac, range: (79, 93) };
    let scan = worker.start();
    assert_eq!(scan, Scan { next: 79, best: None });
    assert!(!worker.finished(&scan));
    assert_eq!(worker.percent(&scan), 0);
    let scan = worker.advance(scan, 0);
    assert_eq!(scan, Scan { next: 79, best: None });
    let scan = worker.advance(scan, 1);
    assert_eq!(scan, Scan { next: 80, best: Some(82) });
    assert_eq!(worker.percent(&scan), 7);
    let scan = worker.advance(scan, 3);
    assert_eq!(scan, Scan { next: 83, best: Some(46) });
    assert_eq!(worker.percent(&scan), 28);
    let scan = worker.advance(scan, u64::MAX);
    assert_eq!(scan, Scan { next: 93, best: Some(46) });
    assert!(worker.finished(&scan));
    assert_eq!(worker.percent(&scan), 100);
    let scan = worker.advance(scan, 5);
    assert_eq!(scan, Scan { next: 93, best: Some(46) });
}

#[test]
fn percent_of_a_huge_range() {
    let almanac = Almanac { maps: vec![] };
    let worker = Worker { id: 0, almanac: &almanac, range: (0, u64::MAX) };
    assert_eq!(worker.percent(&Scan { next: u64::MAX - 1, best: Some(0) }), 99);
    assert_eq!(worker.percent(&Scan { next: u64::MAX / 2, best: Some(0) }), 49);
    assert_eq!(worker.percent(&Scan { next: u64::MAX, best: Some(0) }), 100);
}

#[test]
fn progress_is_due_every_half_second() {
    let mut progress = Progress { last_ms: 0 };
    assert!(!progress.tick(0));
    assert!(!progress.tick(499));
    assert_eq!(progress.last_ms, 0);
    assert!(progress.tick(500));
    assert_eq!(progress.last_ms, 500);
    assert!(!progress.tick(999));
    assert!(!progress.tick(100));
    assert_eq!(progress.last_ms, 500);
    assert!(progress.tick(1700));
    assert_eq!(progress.last_ms, 1700);
    assert!(progress.tick(u64::MAX));
}

#[test]
fn a_route_found_with_many_hops_needs_one_per_map() {
    let chain = Almanac {
        maps: vec![
            one_map("c", "d", vec![rule(1000, 0, 10)]),
            one_map("a", "b", vec![rule(10, 0, 10)]),
            one_map("b", "c", vec![rule(100, 10, 10)]),
        ],
    };
    assert_eq!(chain.route("a", "d"), Ok(vec![1, 2, 0]));
    assert_eq!(chain.resolve(3, "a", "d"), 103);
    assert_eq!(chain.resolve(3, "a", "c"), 103);
    assert_eq!(chain.resolve(3, "b", "d"), 1003);
    assert_eq!(chain.route("d", "a"), Err(ChainError::Unreachable));
}

#[test]
fn try_resolve_reports_a_broken_chain() {
    let (_, almanac) = read_input(&sample()).unwrap();
    assert_eq!(almanac.try_resolve(79, "seed", "location"), Ok(82));
    assert_eq!(almanac.try_resolve(79, "seed", "seed"), Ok(79));
    assert_eq!(almanac.try_resolve(79, "seed", "moon"), Err(ChainError::Unreachable));
    assert_eq!(almanac.try_resolve(79, "moon", "location"), Err(ChainError::Unreachable));
    let round = Almanac {
        maps: vec![one_map("a", "b", vec![rule(1, 0, 100)]), one_map("b", "a", vec![])],
    };
    assert_eq!(round.try_resolve(0, "a", "c"), Err(ChainError::HopLimit));
    assert_eq!(round.try_resolve(0, "a", "b"), Ok(1));
}
