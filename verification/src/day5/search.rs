//! The exhaustive search: one worker per seed range, each resolving every seed of
//! its range, and the reduction of their results to the lowest.

use crate::day5::chain::{lemma_trail_follows, resolved, routed, Almanac, ChainError};
use crate::day5::maps::MapView;
use crate::day5::parse::ParseError;
use crate::day5::seeds::{
    domain_fault, empty, range_count, range_end, range_start, spans, too_large, DomainError, Seeds,
};
use crate::first::lemma_first_at;
use vstd::prelude::*;

verus! {

/// The value that a seed resolves to at the end of the chain.
pub open spec fn located(maps: Seq<MapView>, seed: u64) -> u64 {
    resolved(maps, seed, "seed"@, "location"@)
}

/// `m` is the lowest value that a seed of `[lo, hi)` resolves to: some seed of the
/// interval resolves to it, and none to less.
pub open spec fn lowest_in(maps: Seq<MapView>, lo: int, hi: int, m: u64) -> bool {
    &&& exists|v: u64| lo <= v < hi && #[trigger] located(maps, v) == m
    &&& forall|v: u64| lo <= v < hi ==> m <= #[trigger] located(maps, v)
}

/// The least of a list of values; `None` for the empty list.
pub open spec fn lowest(s: Seq<u64>) -> Option<u64>
    decreases s.len(),
{
    if s.len() == 0 {
        None
    } else {
        match lowest(s.drop_last()) {
            Some(m) => Some(if s.last() < m { s.last() } else { m }),
            None => Some(s.last()),
        }
    }
}

/// The least of a list is one of its values, and none of them is less.
pub proof fn lemma_lowest(s: Seq<u64>)
    ensures
        lowest(s) is Some <==> s.len() > 0,
        lowest(s) is Some ==> s.contains(lowest(s)->0),
        forall|i: int| 0 <= i < s.len() ==> lowest(s)->0 <= #[trigger] s[i],
    decreases s.len(),
{
    if s.len() > 0 {
        let front = s.drop_last();
        lemma_lowest(front);
        let m = lowest(s)->0;
        if front.len() > 0 && lowest(front)->0 <= s.last() {
            let i = choose|i: int| 0 <= i < front.len() && front[i] == lowest(front)->0;
            assert(s[i] == m);
        } else {
            assert(s[s.len() - 1] == m);
        }
        assert forall|i: int| 0 <= i < s.len() implies m <= #[trigger] s[i] by {
            if i < front.len() {
                assert(front[i] == s[i]);
            }
        }
    }
}

/// Reduces the results of the workers to their minimum; `None` if there are none.
pub fn reduce(results: &[u64]) -> (r: Option<u64>)
    ensures
        r == lowest(results@),
{
    let mut best: Option<u64> = None;
    let mut i: usize = 0;
    assert(results@.take(0) =~= Seq::<u64>::empty());
    while i < results.len()
        invariant
            i <= results@.len(),
            best == lowest(results@.take(i as int)),
        decreases results@.len() - i,
    {
        let x = results[i];
        assert(results@.take(i + 1).drop_last() =~= results@.take(i as int));
        best = match best {
            Some(m) => Some(if x < m { x } else { m }),
            None => Some(x),
        };
        i += 1;
    }
    assert(results@.take(results@.len() as int) =~= results@);
    best
}

/// The reduction does not depend on the order in which the results come in: two
/// lists that hold the same values, each as often, have the same minimum.
pub proof fn law_reduce_any_order(a: Seq<u64>, b: Seq<u64>)
    requires
        a.to_multiset() == b.to_multiset(),
    ensures
        lowest(a) == lowest(b),
{
    lemma_lowest(a);
    lemma_lowest(b);
    a.to_multiset_ensures();
    b.to_multiset_ensures();
    assert(a.len() == b.len());
    if a.len() > 0 {
        let x = lowest(a)->0;
        let y = lowest(b)->0;
        assert(b.to_multiset().count(x) > 0);
        assert(b.contains(x));
        assert(a.to_multiset().count(y) > 0);
        assert(a.contains(y));
        let i = choose|i: int| 0 <= i < b.len() && b[i] == x;
        let j = choose|j: int| 0 <= j < a.len() && a[j] == y;
        assert(y <= b[i]);
        assert(x <= a[j]);
    }
}

/// A unit of search: one range of seeds, and the chain to resolve them with.
pub struct Worker<'a> {
    pub id: usize,
    pub almanac: &'a Almanac,
    pub range: (u64, u64),
}

impl<'a> Worker<'a> {
    /// Resolves one seed, along the route where the chain has one and hop by hop
    /// where it has none.
    fn locate(&self, route: &Result<Vec<usize>, ChainError>, seed: u64) -> (r: u64)
        requires
            self.almanac.wf(),
            match route {
                Ok(v) => routed(self.almanac@, "seed"@, "location"@) == Ok::<
                    Seq<usize>,
                    ChainError,
                >(v@),
                Err(e) => true,
            },
        ensures
            r == located(self.almanac@, seed),
    {
        match route {
            Ok(v) => {
                let hops: usize = self.almanac.maps.len();
                proof {
                    assert(self.almanac@.len() == hops);
                    lemma_trail_follows(
                        self.almanac@,
                        seed,
                        "seed"@,
                        "location"@,
                        self.almanac@.len(),
                    );
                }
                self.almanac.follow(v.as_slice(), seed)
            },
            Err(_) => self.almanac.resolve(seed, "seed", "location"),
        }
    }

    /// The scan stands somewhere in the worker's range, and what it holds as the lowest
    /// value is the lowest over the seeds before where it stands.
    pub open spec fn tracks(&self, scan: Scan) -> bool {
        &&& self.range.0 <= scan.next <= self.range.1
        &&& match scan.best {
            None => scan.next == self.range.0,
            Some(m) => lowest_in(self.almanac@, self.range.0 as int, scan.next as int, m),
        }
    }

    /// The scan before any seed is resolved.
    pub fn start(&self) -> (r: Scan)
        requires
            self.range.0 <= self.range.1,
        ensures
            r == (Scan { next: self.range.0, best: None }),
            self.tracks(r),
    {
        Scan { next: self.range.0, best: None }
    }

    /// Resolves the next `steps` seeds of the range, or those that are left if they
    /// are fewer.
    pub fn advance(&self, scan: Scan, steps: u64) -> (r: Scan)
        requires
            self.almanac.wf(),
            self.tracks(scan),
        ensures
            self.tracks(r),
            r.next == (if scan.next + steps < self.range.1 {
                scan.next + steps
            } else {
                self.range.1 as int
            }),
    {
        let route = self.almanac.route("seed", "location");
        let left: u64 = self.range.1 - scan.next;
        let end: u64 = if steps < left {
            scan.next + steps
        } else {
            self.range.1
        };
        let mut best: Option<u64> = scan.best;
        let mut seed: u64 = scan.next;
        while seed < end
            invariant
                self.almanac.wf(),
                scan.next <= seed <= end <= self.range.1,
                match route {
                    Ok(v) => routed(self.almanac@, "seed"@, "location"@) == Ok::<
                        Seq<usize>,
                        ChainError,
                    >(v@),
                    Err(e) => true,
                },
                self.tracks(Scan { next: seed, best }),
            decreases end - seed,
        {
            let value = self.locate(&route, seed);
            best = match best {
                Some(m) => Some(if value < m { value } else { m }),
                None => Some(value),
            };
            seed += 1;
        }
        Scan { next: seed, best }
    }

    /// Tells whether every seed of the range is resolved.
    pub fn finished(&self, scan: &Scan) -> (r: bool)
        ensures
            r == (scan.next >= self.range.1),
    {
        scan.next >= self.range.1
    }

    /// How much of the range is resolved, in per cent, rounded down.
    pub fn percent(&self, scan: &Scan) -> (r: u64)
        requires
            self.range.0 < self.range.1,
            self.range.0 <= scan.next <= self.range.1,
        ensures
            r == (scan.next - self.range.0) * 100 / (self.range.1 - self.range.0),
            r <= 100,
    {
        let index: u128 = (scan.next - self.range.0) as u128;
        let seed_count: u128 = (self.range.1 - self.range.0) as u128;
        assert((index * 100) / (seed_count as int) <= 100) by (nonlinear_arith)
            requires
                0 <= index <= seed_count,
                seed_count > 0,
        ;
        (index * 100 / seed_count) as u64
    }

    /// Resolves every seed of the range in turn and answers with the lowest value any
    /// of them resolves to. The range is not empty: `Seeds::plan` hands out none that
    /// is, and reports an empty one as an error before any worker is made.
    pub fn run(self) -> (r: u64)
        requires
            self.almanac.wf(),
            self.range.0 < self.range.1,
        ensures
            lowest_in(self.almanac@, self.range.0 as int, self.range.1 as int, r),
    {
        let done = self.advance(self.start(), u64::MAX);
        match done.best {
            Some(m) => m,
            None => 0,
        }
    }
}

/// How far a worker has come: the next seed to resolve, and the lowest value that a
/// seed before it resolves to.
#[derive(Debug, Copy, Clone, PartialEq, Eq)]
pub struct Scan {
    pub next: u64,
    pub best: Option<u64>,
}

/// The least time between two reports of progress, in milliseconds.
pub const PROGRESS_INTERVAL_MS: u64 = 500;

/// When a worker last reported its progress, in milliseconds since it began.
#[derive(Debug, Copy, Clone, PartialEq, Eq)]
pub struct Progress {
    pub last_ms: u64,
}

impl Progress {
    /// At least the interval has passed since the last report.
    pub open spec fn due(&self, elapsed_ms: u64) -> bool {
        elapsed_ms - self.last_ms >= PROGRESS_INTERVAL_MS
    }

    /// Decides, at `elapsed_ms` since the worker began, whether a report is due, and
    /// if so takes that time as the time of the last report.
    pub fn tick(&mut self, elapsed_ms: u64) -> (r: bool)
        ensures
            r == old(self).due(elapsed_ms),
            final(self).last_ms == (if r {
                elapsed_ms
            } else {
                old(self).last_ms
            }),
    {
        if elapsed_ms >= self.last_ms && elapsed_ms - self.last_ms >= PROGRESS_INTERVAL_MS {
            self.last_ms = elapsed_ms;
            true
        } else {
            false
        }
    }
}

/// Why a search gave no result: the stage that failed, and how.
#[derive(Debug, Copy, Clone, PartialEq, Eq)]
pub enum AlmanacError {
    Parse(ParseError),
    Chain(ChainError),
    Domain(DomainError),
}

/// `m` is the lowest value that any seed of any range resolves to.
pub open spec fn global_lowest(maps: Seq<MapView>, raw: Seq<u64>, m: u64) -> bool {
    &&& exists|v: u64| in_ranges(raw, v) && #[trigger] located(maps, v) == m
    &&& forall|v: u64| in_ranges(raw, v) ==> m <= #[trigger] located(maps, v)
}

/// `v` lies in the range at position `k`.
pub open spec fn in_range(raw: Seq<u64>, k: int, v: u64) -> bool {
    0 <= k < range_count(raw) && range_start(raw, k) <= v < range_end(raw, k)
}

/// `v` lies in one of the ranges.
pub open spec fn in_ranges(raw: Seq<u64>, v: u64) -> bool {
    exists|k: int| #[trigger] in_range(raw, k, v)
}

/// There is one lowest value only: two searches of the same seeds with the same chain
/// answer the same, however each was carried out.
pub proof fn law_lowest_is_unique(maps: Seq<MapView>, raw: Seq<u64>, a: u64, b: u64)
    requires
        global_lowest(maps, raw, a),
        global_lowest(maps, raw, b),
    ensures
        a == b,
{
    let x = choose|v: u64| in_ranges(raw, v) && #[trigger] located(maps, v) == a;
    let y = choose|v: u64| in_ranges(raw, v) && #[trigger] located(maps, v) == b;
    assert(b <= located(maps, x));
    assert(a <= located(maps, y));
}

/// Searching range by range and reducing agrees with one search over all values:
/// the least of the ranges' own minima is the lowest value that any seed of any range
/// resolves to, whoever found each minimum and in whatever order.
pub proof fn law_reduce_local_minima(maps: Seq<MapView>, raw: Seq<u64>, locals: Seq<u64>)
    requires
        locals.len() == range_count(raw),
        locals.len() > 0,
        forall|k: int|
            0 <= k < locals.len() ==> lowest_in(
                maps,
                range_start(raw, k) as int,
                range_end(raw, k),
                #[trigger] locals[k],
            ),
    ensures
        lowest(locals) is Some,
        global_lowest(maps, raw, lowest(locals)->0),
{
    lemma_lowest(locals);
    let m = lowest(locals)->0;
    let k = choose|k: int| 0 <= k < locals.len() && locals[k] == m;
    assert(lowest_in(maps, range_start(raw, k) as int, range_end(raw, k), locals[k]));
    let v = choose|v: u64|
        range_start(raw, k) <= v < range_end(raw, k) && #[trigger] located(maps, v) == m;
    assert(in_range(raw, k, v));
    assert forall|w: u64| in_ranges(raw, w) implies m <= #[trigger] located(maps, w) by {
        let j = choose|j: int| #[trigger] in_range(raw, j, w);
        assert(lowest_in(maps, range_start(raw, j) as int, range_end(raw, j), locals[j]));
    }
}

/// The reason for which a search over these seeds with this chain gives no result, if
/// there is one: first the chain is checked, then the seeds.
pub open spec fn search_fault(maps: Seq<MapView>, raw: Seq<u64>) -> Option<AlmanacError> {
    match routed(maps, "seed"@, "location"@) {
        Err(e) => Some(AlmanacError::Chain(e)),
        Ok(_) => match domain_fault(raw) {
            Some(e) => Some(AlmanacError::Domain(e)),
            None => None,
        },
    }
}

/// Finds the lowest value that any seed of any range resolves to at the end of the
/// chain. One worker is made for each range; each runs to its end, and their results
/// are reduced to the minimum. Nothing is searched if the chain does not lead from
/// seeds to locations, or if the seeds give no range, a range that does not fit, or
/// an empty one.
pub fn search(almanac: &Almanac, seeds: &Seeds) -> (r: Result<u64, AlmanacError>)
    requires
        almanac.wf(),
    ensures
        match r {
            Ok(m) => search_fault(almanac@, seeds.0@) is None && global_lowest(
                almanac@,
                seeds.0@,
                m,
            ),
            Err(e) => search_fault(almanac@, seeds.0@) == Some(e),
        },
{
    match almanac.route("seed", "location") {
        Err(e) => {
            return Err(AlmanacError::Chain(e));
        },
        Ok(_) => {},
    }
    let ranges = match seeds.plan() {
        Err(e) => {
            return Err(AlmanacError::Domain(e));
        },
        Ok(v) => v,
    };
    let ghost raw = seeds.0@;
    proof {
        lemma_first_at(too_large(raw), 0, range_count(raw));
        lemma_first_at(empty(raw), 0, range_count(raw));
    }
    let mut results: Vec<u64> = Vec::new();
    let mut k: usize = 0;
    while k < ranges.len()
        invariant
            almanac.wf(),
            k <= ranges@.len(),
            ranges@.len() == range_count(raw),
            spans(raw) == Ok::<Seq<(u64, u64)>, DomainError>(ranges@),
            forall|j: int| 0 <= j < range_count(raw) ==> !#[trigger] too_large(raw)(j),
            forall|j: int| 0 <= j < range_count(raw) ==> !#[trigger] empty(raw)(j),
            results@.len() == k,
            forall|j: int|
                0 <= j < k ==> lowest_in(
                    almanac@,
                    range_start(raw, j) as int,
                    range_end(raw, j),
                    #[trigger] results@[j],
                ),
        decreases ranges@.len() - k,
    {
        assert(!too_large(raw)(k as int));
        assert(!empty(raw)(k as int));
        assert(ranges@[k as int] == (range_start(raw, k as int), range_end(raw, k as int) as u64));
        let worker = Worker { id: k, almanac, range: ranges[k] };
        let m = worker.run();
        results.push(m);
        k += 1;
    }
    proof {
        law_reduce_local_minima(almanac@, raw, results@);
    }
    match reduce(results.as_slice()) {
        Some(m) => Ok(m),
        None => Err(AlmanacError::Domain(DomainError::NoRanges)),
    }
}

} // verus!
