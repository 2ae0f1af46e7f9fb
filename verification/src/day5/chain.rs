//! The chain of category maps, walked from one category to another.

use crate::day5::maps::{CategoryMap, MapView};
use crate::text::same_str;
use vstd::prelude::*;
use vstd::set_lib::{lemma_int_range, lemma_len_subset, set_int_range};

verus! {

/// The chain of category maps. A map is found by the category it starts from; where
/// two maps start from the same category, the one declared first is used.
#[derive(Clone)]
pub struct Almanac {
    pub maps: Vec<CategoryMap>,
}

/// Why a chain does not lead from one category to another.
#[derive(Debug, Copy, Clone, PartialEq, Eq)]
pub enum ChainError {
    /// The walk came to a category that no map starts from.
    Unreachable,
    /// The walk took as many hops as there are maps and has not met the target.
    HopLimit,
}

/// The position, at or after `from`, of the first map that starts from `label`; the
/// number of maps where there is none.
pub open spec fn find_from(maps: Seq<MapView>, label: Seq<char>, from: int) -> int
    decreases maps.len() - from,
{
    if from < 0 || from >= maps.len() || maps[from].source == label {
        from
    } else {
        find_from(maps, label, from + 1)
    }
}

/// The position of the map that the chain uses for `label`.
pub open spec fn find(maps: Seq<MapView>, label: Seq<char>) -> int {
    find_from(maps, label, 0)
}

/// Every map of the chain is well formed.
pub open spec fn maps_wf(maps: Seq<MapView>) -> bool {
    forall|i: int| 0 <= i < maps.len() ==> (#[trigger] maps[i]).wf()
}

/// The value that `value` becomes on the walk from `label` towards `target`, with at
/// most `fuel` hops. The walk ends at the target, at a category that no map starts
/// from, or when the hops are used up.
pub open spec fn walk(
    maps: Seq<MapView>,
    value: u64,
    label: Seq<char>,
    target: Seq<char>,
    fuel: nat,
) -> u64
    decreases fuel,
{
    let k = find(maps, label);
    if label == target || fuel == 0 || !(0 <= k < maps.len()) {
        value
    } else {
        walk(maps, maps[k].hop(value), maps[k].destination, target, (fuel - 1) as nat)
    }
}

/// The value that the chain resolves `value` to between two categories. A walk that
/// has not met the target after one hop per map never will, so it is cut there.
pub open spec fn resolved(
    maps: Seq<MapView>,
    value: u64,
    origin: Seq<char>,
    target: Seq<char>,
) -> u64 {
    walk(maps, value, origin, target, maps.len())
}

/// The positions of the maps that the walk from `label` to `target` goes through, in
/// order, or the reason why it does not arrive within `fuel` hops.
pub open spec fn trail(
    maps: Seq<MapView>,
    label: Seq<char>,
    target: Seq<char>,
    fuel: nat,
) -> Result<Seq<usize>, ChainError>
    decreases fuel,
{
    let k = find(maps, label);
    if label == target {
        Ok(Seq::empty())
    } else if !(0 <= k < maps.len()) {
        Err(ChainError::Unreachable)
    } else if fuel == 0 {
        Err(ChainError::HopLimit)
    } else {
        match trail(maps, maps[k].destination, target, (fuel - 1) as nat) {
            Ok(rest) => Ok(seq![k as usize] + rest),
            Err(e) => Err(e),
        }
    }
}

/// The route from `origin` to `target`, if the chain has one.
pub open spec fn routed(maps: Seq<MapView>, origin: Seq<char>, target: Seq<char>) -> Result<
    Seq<usize>,
    ChainError,
> {
    trail(maps, origin, target, maps.len())
}

/// Every position of the route is that of a map.
pub open spec fn route_fits(maps: Seq<MapView>, route: Seq<usize>) -> bool {
    forall|i: int| 0 <= i < route.len() ==> (#[trigger] route[i]) < maps.len()
}

/// The value that `value` becomes when the maps of a route are applied in order.
pub open spec fn followed(maps: Seq<MapView>, route: Seq<usize>, value: u64) -> u64
    decreases route.len(),
{
    if route.len() == 0 {
        value
    } else {
        followed(maps, route.skip(1), maps[route[0] as int].hop(value))
    }
}

/// A trail that arrives holds positions of maps only, and following it gives what the
/// walk gives.
pub proof fn lemma_trail_follows(
    maps: Seq<MapView>,
    value: u64,
    label: Seq<char>,
    target: Seq<char>,
    fuel: nat,
)
    requires
        maps.len() <= usize::MAX,
        trail(maps, label, target, fuel) is Ok,
    ensures
        route_fits(maps, trail(maps, label, target, fuel)->Ok_0),
        followed(maps, trail(maps, label, target, fuel)->Ok_0, value) == walk(
            maps,
            value,
            label,
            target,
            fuel,
        ),
    decreases fuel,
{
    let k = find(maps, label);
    if label == target {
    } else {
        let next = maps[k].hop(value);
        let rest = trail(maps, maps[k].destination, target, (fuel - 1) as nat)->Ok_0;
        lemma_trail_follows(maps, next, maps[k].destination, target, (fuel - 1) as nat);
        let whole = seq![k as usize] + rest;
        assert(whole.skip(1) =~= rest);
        assert(whole[0] == k as usize);
        assert forall|i: int| 0 <= i < whole.len() implies (#[trigger] whole[i]) < maps.len() by {
            if i > 0 {
                assert(whole[i] == rest[i - 1]);
            }
        }
    }
}

/// A trail that arrives keeps arriving, by the same maps, when more hops are allowed.
pub proof fn lemma_trail_more_fuel(
    maps: Seq<MapView>,
    label: Seq<char>,
    target: Seq<char>,
    fuel: nat,
    more: nat,
)
    requires
        fuel <= more,
        trail(maps, label, target, fuel) is Ok,
    ensures
        trail(maps, label, target, more) == trail(maps, label, target, fuel),
    decreases fuel,
{
    let k = find(maps, label);
    if label != target {
        lemma_trail_more_fuel(
            maps,
            maps[k].destination,
            target,
            (fuel - 1) as nat,
            (more - 1) as nat,
        );
    }
}

/// A trail that arrives needs no more hops than it has maps.
pub proof fn lemma_trail_own_fuel(
    maps: Seq<MapView>,
    label: Seq<char>,
    target: Seq<char>,
    fuel: nat,
)
    requires
        trail(maps, label, target, fuel) is Ok,
    ensures
        trail(maps, label, target, fuel)->Ok_0.len() <= fuel,
        trail(maps, label, target, trail(maps, label, target, fuel)->Ok_0.len()) == trail(
            maps,
            label,
            target,
            fuel,
        ),
    decreases fuel,
{
    let k = find(maps, label);
    if label != target {
        let rest = trail(maps, maps[k].destination, target, (fuel - 1) as nat)->Ok_0;
        lemma_trail_own_fuel(maps, maps[k].destination, target, (fuel - 1) as nat);
        assert((seq![k as usize] + rest).len() == rest.len() + 1);
    }
}

/// After each map of a trail, the rest of the trail leads on from that map's
/// destination.
pub proof fn lemma_trail_rest(
    maps: Seq<MapView>,
    label: Seq<char>,
    target: Seq<char>,
    fuel: nat,
    j: int,
)
    requires
        maps.len() <= usize::MAX,
        trail(maps, label, target, fuel) is Ok,
        0 <= j < trail(maps, label, target, fuel)->Ok_0.len(),
    ensures
        j < fuel,
        trail(maps, label, target, fuel)->Ok_0[j] < maps.len(),
        trail(
            maps,
            maps[trail(maps, label, target, fuel)->Ok_0[j] as int].destination,
            target,
            (fuel - j - 1) as nat,
        ) == Ok::<Seq<usize>, ChainError>(trail(maps, label, target, fuel)->Ok_0.skip(j + 1)),
    decreases j,
{
    let k = find(maps, label);
    let whole = trail(maps, label, target, fuel)->Ok_0;
    let rest = trail(maps, maps[k].destination, target, (fuel - 1) as nat)->Ok_0;
    assert(whole == seq![k as usize] + rest);
    if j == 0 {
        assert(whole.skip(1) =~= rest);
    } else {
        lemma_trail_rest(maps, maps[k].destination, target, (fuel - 1) as nat, j - 1);
        assert(whole[j] == rest[j - 1]);
        assert(whole.skip(j + 1) =~= rest.skip(j));
    }
}

/// A trail that arrives goes through no map twice.
pub proof fn lemma_trail_distinct(
    maps: Seq<MapView>,
    label: Seq<char>,
    target: Seq<char>,
    fuel: nat,
)
    requires
        maps.len() <= usize::MAX,
        trail(maps, label, target, fuel) is Ok,
    ensures
        trail(maps, label, target, fuel)->Ok_0.no_duplicates(),
{
    let whole = trail(maps, label, target, fuel)->Ok_0;
    assert forall|i: int, j: int| 0 <= i < j < whole.len() implies whole[i] != whole[j] by {
        if whole[i] == whole[j] {
            lemma_trail_rest(maps, label, target, fuel, i);
            lemma_trail_rest(maps, label, target, fuel, j);
            let next = maps[whole[i] as int].destination;
            lemma_trail_more_fuel(maps, next, target, (fuel - j - 1) as nat, (fuel - i - 1) as nat);
            assert(whole.skip(i + 1).len() != whole.skip(j + 1).len());
        }
    }
}

/// One hop per map is enough: whatever route any number of hops finds, that many
/// hops find too. So a walk that is cut for want of hops would never have arrived.
pub proof fn law_one_hop_per_map_suffices(
    maps: Seq<MapView>,
    origin: Seq<char>,
    target: Seq<char>,
    fuel: nat,
)
    requires
        maps.len() <= usize::MAX,
        trail(maps, origin, target, fuel) is Ok,
    ensures
        routed(maps, origin, target) == trail(maps, origin, target, fuel),
        forall|v: u64| #[trigger]
            resolved(maps, v, origin, target) == walk(maps, v, origin, target, fuel),
{
    let route = trail(maps, origin, target, fuel)->Ok_0;
    lemma_trail_distinct(maps, origin, target, fuel);
    lemma_trail_own_fuel(maps, origin, target, fuel);
    let places = route.map_values(|k: usize| k as int);
    assert forall|i: int, j: int| 0 <= i < j < places.len() implies places[i] != places[j] by {
        assert(route[i] != route[j]);
    }
    places.unique_seq_to_set();
    lemma_int_range(0, maps.len() as int);
    assert forall|x: int| places.to_set().contains(x) implies set_int_range(
        0,
        maps.len() as int,
    ).contains(x) by {
        let i = choose|i: int| 0 <= i < places.len() && places[i] == x;
        lemma_trail_rest(maps, origin, target, fuel, i);
    }
    lemma_len_subset(places.to_set(), set_int_range(0, maps.len() as int));
    assert(route.len() <= maps.len());
    lemma_trail_more_fuel(maps, origin, target, route.len(), maps.len());
    assert forall|v: u64| #[trigger]
        resolved(maps, v, origin, target) == walk(maps, v, origin, target, fuel) by {
        lemma_trail_follows(maps, v, origin, target, fuel);
        lemma_trail_follows(maps, v, origin, target, maps.len());
    }
}

impl View for Almanac {
    type V = Seq<MapView>;

    open spec fn view(&self) -> Seq<MapView> {
        Seq::new(self.maps@.len(), |i: int| self.maps@[i]@)
    }
}

impl Almanac {
    /// Every rule of every map is well formed.
    pub open spec fn wf(&self) -> bool {
        maps_wf(self@)
    }

    /// The position of the first map that starts from `source`; the number of maps
    /// where there is none.
    pub fn position(&self, source: &str) -> (k: usize)
        ensures
            k == find(self@, source@),
            k <= self.maps@.len(),
            k < self.maps@.len() ==> self@[k as int].source == source@,
    {
        let mut i: usize = 0;
        while i < self.maps.len()
            invariant
                i <= self.maps@.len(),
                find(self@, source@) == find_from(self@, source@, i as int),
            decreases self.maps@.len() - i,
        {
            if same_str(self.maps[i].category.source.as_str(), source) {
                return i;
            }
            i += 1;
        }
        i
    }

    /// The map that starts from `source`: the first one declared, if there are several.
    pub fn map(&self, source: &str) -> (r: Option<&CategoryMap>)
        ensures
            0 <= find(self@, source@) <= self@.len(),
            r is Some <==> find(self@, source@) < self@.len(),
            r is Some ==> *r->0 == self.maps@[find(self@, source@)],
            r is Some ==> r->0@ == self@[find(self@, source@)],
    {
        let k = self.position(source);
        if k < self.maps.len() {
            Some(&self.maps[k])
        } else {
            None
        }
    }

    /// Walks the chain from `source` until the category is `destination`, applying one
    /// map per hop, and answers with the value that `seed` has become. A value that no
    /// rule of a map covers passes through that map unchanged. Where no map starts from
    /// the category reached, the walk ends there with the value as it is; a walk that
    /// goes round without meeting `destination` is cut after one hop per map.
    pub fn resolve(&self, seed: u64, source: &str, destination: &str) -> (r: u64)
        requires
            self.wf(),
        ensures
            r == resolved(self@, seed, source@, destination@),
    {
        let mut dest: u64 = seed;
        let mut next_map: &str = source;
        let mut fuel: usize = self.maps.len();
        while fuel > 0 && !same_str(next_map, destination)
            invariant
                self.wf(),
                fuel <= self.maps@.len(),
                resolved(self@, seed, source@, destination@) == walk(
                    self@,
                    dest,
                    next_map@,
                    destination@,
                    fuel as nat,
                ),
            decreases fuel,
        {
            match self.map(next_map) {
                Some(map) => {
                    assert(map@.wf());
                    next_map = map.category.destination.as_str();
                    dest = map.apply(dest);
                },
                None => {
                    return dest;
                },
            }
            fuel -= 1;
        }
        dest
    }

    /// Finds, once and for every value, the maps that lead from `source` to
    /// `destination`. It fails where the walk comes to a category that no map starts
    /// from, or has taken one hop per map without arriving.
    pub fn route(&self, source: &str, destination: &str) -> (r: Result<Vec<usize>, ChainError>)
        ensures
            match r {
                Ok(route) => routed(self@, source@, destination@) == Ok::<Seq<usize>, ChainError>(
                    route@,
                ),
                Err(e) => routed(self@, source@, destination@) == Err::<Seq<usize>, ChainError>(e),
            },
    {
        let mut route: Vec<usize> = Vec::new();
        let mut label: &str = source;
        let mut fuel: usize = self.maps.len();
        loop
            invariant
                fuel <= self.maps@.len(),
                routed(self@, source@, destination@) == (match trail(
                    self@,
                    label@,
                    destination@,
                    fuel as nat,
                ) {
                    Ok(rest) => Ok::<Seq<usize>, ChainError>(route@ + rest),
                    Err(e) => Err(e),
                }),
            decreases fuel,
        {
            if same_str(label, destination) {
                assert(route@ + Seq::<usize>::empty() =~= route@);
                return Ok(route);
            }
            let k = self.position(label);
            if k >= self.maps.len() {
                return Err(ChainError::Unreachable);
            }
            if fuel == 0 {
                return Err(ChainError::HopLimit);
            }
            let ghost before = route@;
            let ghost here = label@;
            route.push(k);
            label = self.maps[k].category.destination.as_str();
            fuel -= 1;
            proof {
                assert(label@ == self@[k as int].destination);
                match trail(self@, label@, destination@, fuel as nat) {
                    Ok(rest) => {
                        assert(before + (seq![k] + rest) =~= route@ + rest);
                    },
                    Err(e) => {},
                }
            }
        }
    }

    /// Resolves `seed` from `source` to `destination`, or says why the chain does not
    /// lead there: where `resolve` stops short and answers with the value as far as it
    /// came, this answers with the error.
    pub fn try_resolve(&self, seed: u64, source: &str, destination: &str) -> (r: Result<
        u64,
        ChainError,
    >)
        requires
            self.wf(),
        ensures
            r == (match routed(self@, source@, destination@) {
                Ok(_) => Ok::<u64, ChainError>(resolved(self@, seed, source@, destination@)),
                Err(e) => Err(e),
            }),
    {
        let hops: usize = self.maps.len();
        match self.route(source, destination) {
            Ok(route) => {
                proof {
                    assert(self@.len() == hops);
                    lemma_trail_follows(self@, seed, source@, destination@, self@.len());
                }
                Ok(self.follow(route.as_slice(), seed))
            },
            Err(e) => Err(e),
        }
    }

    /// Applies the maps of a route in order.
    pub fn follow(&self, route: &[usize], value: u64) -> (r: u64)
        requires
            self.wf(),
            route_fits(self@, route@),
        ensures
            r == followed(self@, route@, value),
    {
        let mut cur: u64 = value;
        let mut i: usize = 0;
        assert(route@.skip(0) =~= route@);
        while i < route.len()
            invariant
                i <= route@.len(),
                self.wf(),
                route_fits(self@, route@),
                followed(self@, route@, value) == followed(self@, route@.skip(i as int), cur),
            decreases route@.len() - i,
        {
            let ghost rest = route@.skip(i as int);
            assert(rest[0] == route@[i as int]);
            assert(rest.skip(1) =~= route@.skip(i + 1));
            let k = route[i];
            assert(self.maps@[k as int]@ == self@[k as int]);
            cur = self.maps[k].apply(cur);
            i += 1;
        }
        cur
    }
}

/// Resolving from a category to itself takes no hop and returns the value unchanged.
pub proof fn law_resolve_to_origin(maps: Seq<MapView>, v: u64, label: Seq<char>)
    ensures
        resolved(maps, v, label, label) == v,
{
}

} // verus!
