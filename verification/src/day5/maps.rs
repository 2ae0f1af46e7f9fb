//! Range rules and the category maps that they make up.

use vstd::prelude::*;

verus! {

/// The two categories that a map leads between.
#[derive(Debug, Clone)]
pub struct Path {
    pub source: String,
    pub destination: String,
}

/// A path as plain text.
pub struct PathView {
    pub source: Seq<char>,
    pub destination: Seq<char>,
}

impl View for Path {
    type V = PathView;

    open spec fn view(&self) -> PathView {
        PathView { source: self.source@, destination: self.destination@ }
    }
}

/// One rule of a map: the `len` values from `source_start` on go, in order, to the
/// values from `destination_start` on.
#[derive(Debug, Copy, Clone, PartialEq, Eq)]
pub struct MapRange {
    pub destination_start: u64,
    pub source_start: u64,
    pub len: u64,
}

impl MapRange {
    /// Both the interval the rule reads and the interval it writes end within `u64`.
    pub open spec fn wf(&self) -> bool {
        &&& self.source_start + self.len <= u64::MAX
        &&& self.destination_start + self.len <= u64::MAX
    }

    /// `n` lies in the half-open interval that the rule reads.
    pub open spec fn covers(&self, n: u64) -> bool {
        self.source_start <= n < self.source_start + self.len
    }

    /// Where the rule sends `n`, if it covers it.
    pub open spec fn image(&self, n: u64) -> Option<u64> {
        if self.covers(n) {
            Some((self.destination_start + (n - self.source_start)) as u64)
        } else {
            None
        }
    }

    /// Makes a rule, unless one of its two intervals would run past `u64::MAX`.
    pub fn new(destination_start: u64, source_start: u64, len: u64) -> (r: Option<MapRange>)
        ensures
            r is Some <==> (MapRange { destination_start, source_start, len }).wf(),
            r is Some ==> r->0 == (MapRange { destination_start, source_start, len }),
    {
        if len > u64::MAX - source_start || len > u64::MAX - destination_start {
            None
        } else {
            Some(MapRange { destination_start, source_start, len })
        }
    }

    /// Translates `n` if the rule covers it.
    pub fn map(&self, n: u64) -> (r: Option<u64>)
        requires
            self.wf(),
        ensures
            r == self.image(n),
    {
        let (range_start, range_end) = self.range();
        if n >= range_start && n < range_end {
            Some(self.destination_start + (n - range_start))
        } else {
            None
        }
    }

    /// The interval that the rule reads: its first value and the one after its last.
    pub fn range(&self) -> (r: (u64, u64))
        requires
            self.wf(),
        ensures
            r.0 == self.source_start,
            r.1 == self.source_start + self.len,
    {
        (self.source_start, self.source_start + self.len)
    }
}

/// Every rule of the list is well formed.
pub open spec fn rules_wf(rules: Seq<MapRange>) -> bool {
    forall|i: int| 0 <= i < rules.len() ==> (#[trigger] rules[i]).wf()
}

/// What the first rule that covers `n` makes of it; `None` if no rule covers it.
pub open spec fn first_image(rules: Seq<MapRange>, n: u64) -> Option<u64>
    decreases rules.len(),
{
    if rules.len() == 0 {
        None
    } else {
        match rules[0].image(n) {
            Some(v) => Some(v),
            None => first_image(rules.skip(1), n),
        }
    }
}

/// A map from one category to the next: its rules in the order they were declared.
#[derive(Debug, Clone)]
pub struct CategoryMap {
    pub category: Path,
    pub ranges: Vec<MapRange>,
}

/// A category map as plain values.
pub struct MapView {
    pub source: Seq<char>,
    pub destination: Seq<char>,
    pub rules: Seq<MapRange>,
}

impl MapView {
    /// Every rule of the map is well formed.
    pub open spec fn wf(&self) -> bool {
        rules_wf(self.rules)
    }

    /// The translation of `n` by the first rule that covers it.
    pub open spec fn image(&self, n: u64) -> Option<u64> {
        first_image(self.rules, n)
    }

    /// One hop of the chain: the translation of `n`, or `n` itself where no rule
    /// covers it.
    pub open spec fn hop(&self, n: u64) -> u64 {
        match self.image(n) {
            Some(v) => v,
            None => n,
        }
    }
}

impl View for CategoryMap {
    type V = MapView;

    open spec fn view(&self) -> MapView {
        MapView {
            source: self.category.source@,
            destination: self.category.destination@,
            rules: self.ranges@,
        }
    }
}

impl CategoryMap {
    /// Every rule of the map is well formed.
    pub open spec fn wf(&self) -> bool {
        self@.wf()
    }

    /// Tries the rules in the order of their declaration and answers with the first
    /// translation; `None` where no rule covers `n`.
    pub fn map(&self, n: u64) -> (r: Option<u64>)
        requires
            self.wf(),
        ensures
            r == self@.image(n),
    {
        let mut i: usize = 0;
        assert(self.ranges@.skip(0) =~= self.ranges@);
        while i < self.ranges.len()
            invariant
                i <= self.ranges@.len(),
                self.wf(),
                first_image(self.ranges@, n) == first_image(self.ranges@.skip(i as int), n),
            decreases self.ranges@.len() - i,
        {
            let ghost rest = self.ranges@.skip(i as int);
            assert(rest[0] == self.ranges@[i as int]);
            assert(rest.skip(1) =~= self.ranges@.skip(i + 1));
            match self.ranges[i].map(n) {
                Some(v) => {
                    return Some(v);
                },
                None => {},
            }
            i += 1;
        }
        None
    }

    /// One hop of the chain: the translation of `n`, or `n` unchanged where no rule
    /// covers it.
    pub fn apply(&self, n: u64) -> (r: u64)
        requires
            self.wf(),
        ensures
            r == self@.hop(n),
    {
        match self.map(n) {
            Some(v) => v,
            None => n,
        }
    }
}

/// A rule of length zero covers no value.
pub proof fn law_empty_rule_matches_nothing(r: MapRange, v: u64)
    requires
        r.len == 0,
    ensures
        !r.covers(v),
        r.image(v) is None,
{
}

/// A rule sends every value of its interval to the destination start plus the
/// value's offset from the source start: the first to the destination start itself,
/// the last to the last of the destination interval, and the value after the last
/// nowhere.
pub proof fn law_rule_offset(r: MapRange, v: u64)
    requires
        r.wf(),
        r.source_start <= v < r.source_start + r.len,
    ensures
        r.image(v) is Some,
        r.image(v)->0 == r.destination_start + (v - r.source_start),
        v == r.source_start ==> r.image(v)->0 == r.destination_start,
        v == r.source_start + r.len - 1 ==> r.image(v)->0 == r.destination_start + r.len - 1,
        r.source_start + r.len <= u64::MAX ==> !r.covers((r.source_start + r.len) as u64),
{
}

/// The first rule that covers a value decides its translation, whatever the rules
/// declared after it would make of it.
pub proof fn law_first_rule_wins(m: MapView, i: int, v: u64)
    requires
        0 <= i < m.rules.len(),
        m.rules[i].covers(v),
        forall|j: int| 0 <= j < i ==> !(#[trigger] m.rules[j]).covers(v),
    ensures
        m.image(v) == m.rules[i].image(v),
        m.hop(v) == m.rules[i].image(v)->0,
    decreases i,
{
    if i > 0 {
        let rest = MapView { source: m.source, destination: m.destination, rules: m.rules.skip(1) };
        assert(!m.rules[0].covers(v));
        assert forall|j: int| 0 <= j < i - 1 implies !(#[trigger] rest.rules[j]).covers(v) by {
            assert(rest.rules[j] == m.rules[j + 1]);
        }
        law_first_rule_wins(rest, i - 1, v);
    }
}

/// A value that no rule of a map covers has no translation, and a hop through the map
/// leaves it as it is.
pub proof fn law_uncovered_unchanged(m: MapView, v: u64)
    requires
        forall|j: int| 0 <= j < m.rules.len() ==> !(#[trigger] m.rules[j]).covers(v),
    ensures
        m.image(v) is None,
        m.hop(v) == v,
    decreases m.rules.len(),
{
    if m.rules.len() > 0 {
        let rest = MapView { source: m.source, destination: m.destination, rules: m.rules.skip(1) };
        assert(!m.rules[0].covers(v));
        assert forall|j: int| 0 <= j < rest.rules.len() implies !(#[trigger] rest.rules[j]).covers(
            v,
        ) by {
            assert(rest.rules[j] == m.rules[j + 1]);
        }
        law_uncovered_unchanged(rest, v);
    }
}

} // verus!
