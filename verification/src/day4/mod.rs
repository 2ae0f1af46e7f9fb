//! The scratch cards: each card has winning numbers and numbers of its own. A card
//! scores by how many of its numbers win, and in the second reading it wins copies
//! of the cards that follow it.

use crate::day::{Day, Error};
use crate::tally::{sum_u32, total_u32};
use crate::text::{
    chars_of, cut, fields, has_prefix, matches_at, numbers, parse_numbers, split, trim, trimmed,
};
use std::collections::HashSet;
use std::str::FromStr;
use vstd::prelude::*;
use vstd::slice::slice_subrange;
use vstd::std_specs::hash::spec_hash_keys_iter;
use vstd::std_specs::iter::IteratorSpec;

verus! {

broadcast use vstd::std_specs::hash::group_hash_axioms;

/// Why a card could not be read, or the cards have no total.
#[derive(Debug, Copy, Clone, PartialEq, Eq)]
pub enum CardError {
    /// The line does not begin with `Card`.
    MissingStart,
    /// No colon follows the card's name, or no bar follows the winning numbers.
    MissingNumbers,
    /// A number is not an unsigned integer of 32 bits.
    InvalidNumber,
    /// A card wins copies of more cards than follow it.
    MissingCards,
    /// A count or a sum is above `u32::MAX`.
    Overflow,
}

/// One card: the numbers that win, the numbers it has, and how many copies of it
/// were won.
#[derive(Debug)]
pub struct ScratchCard {
    pub winning: HashSet<u32>,
    pub numbers: HashSet<u32>,
    pub copies: u32,
}

/// A card as plain values.
pub struct CardView {
    pub winning: Set<u32>,
    pub numbers: Set<u32>,
    pub copies: u32,
}

impl View for ScratchCard {
    type V = CardView;

    open spec fn view(&self) -> CardView {
        CardView { winning: self.winning@, numbers: self.numbers@, copies: self.copies }
    }
}

impl CardView {
    /// The numbers of the card that win.
    pub open spec fn matches(&self) -> Set<u32> {
        self.numbers.intersect(self.winning)
    }
}

/// The set of the numbers of a list.
pub open spec fn set_of(s: Seq<u64>) -> Set<u32>
    decreases s.len(),
{
    if s.len() == 0 {
        Set::empty()
    } else {
        set_of(s.drop_last()).insert(s.last() as u32)
    }
}

/// The numbers that a part of a card holds: white space aside, numbers of 32 bits
/// separated by any number of blanks.
pub open spec fn parse_list(s: Seq<char>) -> Option<Seq<u64>> {
    numbers(fields(trimmed(s), ' '), u32::MAX as nat, true, true)
}

/// The word that a card begins with.
pub open spec fn card_word() -> Seq<char> {
    seq!['C', 'a', 'r', 'd']
}

/// What a line such as `Card 1: 41 48 | 83 41` says. The text before the first colon
/// begins with `Card`; the text after it holds the winning numbers, a bar, and the
/// card's own numbers.
pub open spec fn parse_card(s: Seq<char>) -> Result<CardView, CardError> {
    let f = fields(s, ':');
    if !has_prefix(f[0], card_word()) {
        Err(CardError::MissingStart)
    } else if f.len() < 2 {
        Err(CardError::MissingNumbers)
    } else {
        let g = fields(f[1], '|');
        match parse_list(g[0]) {
            None => Err(CardError::InvalidNumber),
            Some(winning) => if g.len() < 2 {
                Err(CardError::MissingNumbers)
            } else {
                match parse_list(g[1]) {
                    None => Err(CardError::InvalidNumber),
                    Some(own) => Ok(
                        CardView { winning: set_of(winning), numbers: set_of(own), copies: 0 },
                    ),
                }
            },
        }
    }
}

/// Reads a list of numbers into a set.
fn read_set(s: &[char]) -> (r: Option<HashSet<u32>>)
    ensures
        match r {
            Some(set) => parse_list(s@) is Some && set@ == set_of(parse_list(s@)->0),
            None => parse_list(s@) is None,
        },
{
    let (a, b) = trim(s);
    let body = slice_subrange(s, a, b);
    let parts = split(body, ' ');
    let list = match parse_numbers(body, parts.as_slice(), 0xffff_ffff, true, true) {
        Some(v) => v,
        None => {
            return None;
        },
    };
    let mut set: HashSet<u32> = HashSet::new();
    let mut i: usize = 0;
    assert(list@.take(0) =~= Seq::<u64>::empty());
    while i < list.len()
        invariant
            i <= list@.len(),
            set@ == set_of(list@.take(i as int)),
        decreases list@.len() - i,
    {
        assert(list@.take(i + 1).drop_last() =~= list@.take(i as int));
        set.insert(list[i] as u32);
        i += 1;
    }
    assert(list@.take(list@.len() as int) =~= list@);
    Some(set)
}

impl ScratchCard {

    /// The numbers of the card that win, each once, in no particular order.
    pub fn winning_numbers(&self) -> (r: Vec<u32>)
        ensures
            r@.no_duplicates(),
            r@.to_set() == self@.matches(),
            r@.len() == self@.matches().len(),
    {
        let mut out: Vec<u32> = Vec::new();
        let ghost all = spec_hash_keys_iter(&self.numbers).remaining();
        let ghost mut seen: int = 0;
        for x in it: self.numbers.iter()
            invariant
                it.seq() == all,
                seen == it.index(),
                all.unref().to_set() == self.numbers@,
                all.no_duplicates(),
                out@.no_duplicates(),
                forall|i: int|
                    0 <= i < out@.len() ==> self.winning@.contains(#[trigger] out@[i]) && exists|
                        j: int,
                    |
                        0 <= j < seen && *all[j] == out@[i],
                forall|j: int|
                    0 <= j < seen && self.winning@.contains(*#[trigger] all[j]) ==> out@.contains(
                        *all[j],
                    ),
        {
            let ghost before = out@;
            let ghost idx = it.index();
            assert(*x == *all[idx]);
            if self.winning.contains(x) {
                assert forall|i: int| 0 <= i < before.len() implies before[i] != *x by {
                    let j = choose|j: int| 0 <= j < idx && *all[j] == before[i];
                    assert(all[j] != all[idx]);
                }
                out.push(*x);
                assert(out@[before.len() as int] == *x);
                assert forall|j: int|
                    0 <= j < idx + 1 && self.winning@.contains(
                        *#[trigger] all[j],
                    ) implies out@.contains(*all[j]) by {
                    if j < idx {
                        assert(before.contains(*all[j]));
                        let i = choose|i: int| 0 <= i < before.len() && before[i] == *all[j];
                        assert(out@[i] == *all[j]);
                    }
                }
            }
            proof {
                seen = seen + 1;
            }
        }
        assert forall|v: u32| out@.to_set().contains(v) <==> self@.matches().contains(v) by {
            if out@.contains(v) {
                let i = choose|i: int| 0 <= i < out@.len() && out@[i] == v;
                let j = choose|j: int| 0 <= j < all.len() && *all[j] == out@[i];
                assert(all.unref()[j] == v);
                assert(all.unref().to_set().contains(v));
            }
            if self.numbers@.contains(v) && self.winning@.contains(v) {
                assert(all.unref().to_set().contains(v));
                let j = choose|j: int| 0 <= j < all.unref().len() && all.unref()[j] == v;
                assert(*all[j] == v);
            }
        }
        assert(out@.to_set() =~= self@.matches());
        proof {
            out@.unique_seq_to_set();
        }
        out
    }

    /// How many of the card there are: the card itself and its copies.
    pub fn count(&self) -> (r: u32)
        requires
            self.copies < u32::MAX,
        ensures
            r == 1 + self.copies,
    {
        1 + self.copies
    }
}

impl FromStr for ScratchCard {
    type Err = CardError;

    /// Reads a card.
    fn from_str(s: &str) -> (r: Result<ScratchCard, CardError>)
        ensures
            match r {
                Ok(card) => parse_card(s@) == Ok::<CardView, CardError>(card@),
                Err(e) => parse_card(s@) == Err::<CardView, CardError>(e),
            },
    {
        let chars = chars_of(s);
        let line = chars.as_slice();
        let parts = split(line, ':');
        let ghost f = fields(s@, ':');
        assert(f[0] == cut(s@, parts@[0]));
        let start = slice_subrange(line, parts[0].0, parts[0].1);
        let prefix = ['C', 'a', 'r', 'd'];
        assert(prefix@ =~= card_word());
        if !matches_at(start, 0, prefix.as_slice()) {
            return Err(CardError::MissingStart);
        }
        if parts.len() < 2 {
            return Err(CardError::MissingNumbers);
        }
        assert(f[1] == cut(s@, parts@[1]));
        let content = slice_subrange(line, parts[1].0, parts[1].1);
        let halves = split(content, '|');
        let ghost g = fields(f[1], '|');
        assert(g[0] == cut(content@, halves@[0]));
        let winning = match read_set(slice_subrange(content, halves[0].0, halves[0].1)) {
            Some(set) => set,
            None => {
                return Err(CardError::InvalidNumber);
            },
        };
        if halves.len() < 2 {
            return Err(CardError::MissingNumbers);
        }
        assert(g[1] == cut(content@, halves@[1]));
        let numbers = match read_set(slice_subrange(content, halves[1].0, halves[1].1)) {
            Some(set) => set,
            None => {
                return Err(CardError::InvalidNumber);
            },
        };
        Ok(ScratchCard { winning, numbers, copies: 0 })
    }
}

/// The cards of a list as plain values.
pub open spec fn views(cards: Seq<ScratchCard>) -> Seq<CardView> {
    Seq::new(cards.len(), |i: int| cards[i]@)
}

/// Two to the power of `n`.
pub open spec fn doubled(n: nat) -> nat
    decreases n,
{
    if n == 0 {
        1
    } else {
        2 * doubled((n - 1) as nat)
    }
}

/// A higher power of two is no smaller.
pub proof fn lemma_doubled_grows(k: nat, n: nat)
    requires
        k <= n,
    ensures
        1 <= doubled(k) <= doubled(n),
    decreases n,
{
    if k < n {
        lemma_doubled_grows(k, (n - 1) as nat);
    } else if k > 0 {
        lemma_doubled_grows((k - 1) as nat, (n - 1) as nat);
    }
}

/// What a card with `wins` winning numbers is worth: nothing without any, one point
/// for the first, and twice as much for each one more.
pub open spec fn worth(wins: nat) -> nat {
    if wins == 0 {
        0
    } else {
        doubled((wins - 1) as nat)
    }
}

/// The points of a card.
pub open spec fn points(card: CardView) -> nat {
    worth(card.matches().len())
}

/// The sum of the points of the cards.
pub open spec fn point_sum(cards: Seq<CardView>) -> Result<u32, CardError> {
    let each = Seq::new(cards.len(), |i: int| points(cards[i]) as u32);
    if exists|i: int| 0 <= i < cards.len() && #[trigger] points(cards[i]) > u32::MAX {
        Err(CardError::Overflow)
    } else if total_u32(each) > u32::MAX {
        Err(CardError::Overflow)
    } else {
        Ok(total_u32(each) as u32)
    }
}

/// What `wins` winning numbers are worth, unless it is above `u32::MAX`.
pub fn score(wins: usize) -> (r: Option<u32>)
    ensures
        r is Some <==> worth(wins as nat) <= u32::MAX,
        r is Some ==> r->0 == worth(wins as nat),
{
    if wins == 0 {
        return Some(0);
    }
    let mut p: u32 = 1;
    let mut k: usize = 1;
    while k < wins
        invariant
            1 <= k <= wins,
            p == doubled((k - 1) as nat),
        decreases wins - k,
    {
        match p.checked_mul(2) {
            Some(q) => {
                p = q;
            },
            None => {
                proof {
                    lemma_doubled_grows(k as nat, (wins - 1) as nat);
                }
                return None;
            },
        }
        k += 1;
    }
    Some(p)
}

/// The copies of all cards after the card at `idx`, with `w` winning numbers, has
/// been played: each of the `w` cards after it has one copy more for the card itself
/// and for each of its copies.
pub open spec fn raised(copies: Seq<int>, idx: int, w: int) -> Seq<int> {
    Seq::new(
        copies.len(),
        |j: int|
            if idx < j <= idx + w {
                copies[j] + 1 + copies[idx]
            } else {
                copies[j]
            },
    )
}

/// Every count of the list is one of 32 bits.
pub open spec fn fits_u32(s: Seq<int>) -> bool {
    forall|j: int| 0 <= j < s.len() ==> 0 <= #[trigger] s[j] <= u32::MAX
}

/// The copies of all cards once the cards from `idx` on have been played in order,
/// or why the play stops: a card that wins more cards than follow it, or a count of
/// copies above `u32::MAX`.
pub open spec fn dealt(wins: Seq<int>, copies: Seq<int>, idx: int) -> Result<Seq<int>, CardError>
    decreases wins.len() - idx,
{
    if idx < 0 || idx >= wins.len() {
        Ok(copies)
    } else if idx + 1 + wins[idx] > wins.len() {
        Err(CardError::MissingCards)
    } else if !fits_u32(raised(copies, idx, wins[idx])) {
        Err(CardError::Overflow)
    } else {
        dealt(wins, raised(copies, idx, wins[idx]), idx + 1)
    }
}

/// How many winning numbers each card has.
pub open spec fn wins_of(cards: Seq<CardView>) -> Seq<int> {
    Seq::new(cards.len(), |i: int| cards[i].matches().len() as int)
}

/// How many copies each card has.
pub open spec fn copies_of(cards: Seq<CardView>) -> Seq<int> {
    Seq::new(cards.len(), |i: int| cards[i].copies as int)
}

/// How many cards there are in the end, the cards themselves and their copies.
pub open spec fn card_total(cards: Seq<CardView>) -> Result<u32, CardError> {
    match dealt(wins_of(cards), copies_of(cards), 0) {
        Err(e) => Err(e),
        Ok(copies) => {
            let counts = Seq::new(copies.len(), |i: int| (1 + copies[i]) as u32);
            if exists|i: int| 0 <= i < copies.len() && 1 + #[trigger] copies[i] > u32::MAX {
                Err(CardError::Overflow)
            } else if total_u32(counts) > u32::MAX {
                Err(CardError::Overflow)
            } else {
                Ok(total_u32(counts) as u32)
            }
        },
    }
}

/// Wraps a card result for the puzzle's caller.
pub open spec fn answer(r: Result<u32, CardError>) -> Result<u32, Error> {
    match r {
        Ok(v) => Ok(v),
        Err(e) => Err(Error::Card(e)),
    }
}

/// The counts of a list as unbounded numbers.
pub open spec fn as_ints(s: Seq<u32>) -> Seq<int> {
    Seq::new(s.len(), |i: int| s[i] as int)
}

/// The scratch card puzzle.
pub struct Day4;

impl Day for Day4 {
    type Item = ScratchCard;

    type Answer = u32;

    const DAY: usize = 4;

    open spec fn solves_part_1() -> bool {
        true
    }

    open spec fn solves_part_2() -> bool {
        true
    }

    /// The sum of the points of all cards.
    fn part_1(cards: Vec<ScratchCard>) -> (r: Result<u32, Error>)
        ensures
            r == answer(point_sum(views(cards@))),
    {
        let ghost v = views(cards@);
        let ghost each = Seq::new(v.len(), |i: int| points(v[i]) as u32);
        let mut scores: Vec<u32> = Vec::new();
        let mut i: usize = 0;
        while i < cards.len()
            invariant
                i <= cards@.len(),
                v == views(cards@),
                each == Seq::new(v.len(), |i: int| points(v[i]) as u32),
                scores@ == each.take(i as int),
                forall|j: int| 0 <= j < i ==> #[trigger] points(v[j]) <= u32::MAX,
            decreases cards@.len() - i,
        {
            let winning_numbers = cards[i].winning_numbers().len();
            assert(worth(winning_numbers as nat) == points(v[i as int]));
            match score(winning_numbers) {
                Some(p) => {
                    scores.push(p);
                },
                None => {
                    return Err(Error::Card(CardError::Overflow));
                },
            }
            assert(scores@ =~= each.take(i + 1));
            i += 1;
        }
        assert(each.take(cards@.len() as int) =~= each);
        match sum_u32(scores.as_slice()) {
            Some(total) => Ok(total),
            None => Err(Error::Card(CardError::Overflow)),
        }
    }

    /// The number of cards in the end, when each card wins one copy of as many of the
    /// following cards as it has winning numbers, and each copy wins the same again.
    fn part_2(cards: Vec<ScratchCard>) -> (r: Result<u32, Error>)
        ensures
            r == answer(card_total(views(cards@))),
    {
        let n: usize = cards.len();
        let ghost v = views(cards@);
        let mut wins: Vec<usize> = Vec::new();
        let mut copies: Vec<u32> = Vec::new();
        let mut i: usize = 0;
        while i < n
            invariant
                i <= n,
                n == cards@.len(),
                v == views(cards@),
                wins@.len() == i,
                copies@.len() == i,
                forall|j: int| 0 <= j < i ==> #[trigger] wins@[j] == wins_of(v)[j],
                forall|j: int| 0 <= j < i ==> #[trigger] copies@[j] == copies_of(v)[j],
            decreases n - i,
        {
            wins.push(cards[i].winning_numbers().len());
            copies.push(cards[i].copies);
            i += 1;
        }
        assert(as_ints(copies@) =~= copies_of(v));
        let mut idx: usize = 0;
        while idx < n
            invariant
                idx <= n,
                v == views(cards@),
                wins@.len() == n,
                copies@.len() == n,
                forall|j: int| 0 <= j < n ==> #[trigger] wins@[j] == wins_of(v)[j],
                wins_of(v).len() == n,
                dealt(wins_of(v), copies_of(v), 0) == dealt(
                    wins_of(v),
                    as_ints(copies@),
                    idx as int,
                ),
            decreases n - idx,
        {
            let w: usize = wins[idx];
            let gap: usize = n - idx - 1;
            if w > gap {
                return Err(Error::Card(CardError::MissingCards));
            }
            let ghost before = as_ints(copies@);
            let ghost after = raised(before, idx as int, w as int);
            let own: u32 = copies[idx];
            let mut j: usize = idx + 1;
            while j <= idx + w
                invariant
                    idx < j <= idx + w + 1,
                    idx + w < n,
                    v == views(cards@),
                    wins_of(v).len() == n,
                    wins_of(v)[idx as int] == w,
                    dealt(wins_of(v), copies_of(v), 0) == dealt(wins_of(v), before, idx as int),
                    copies@.len() == n,
                    before.len() == n,
                    own == before[idx as int],
                    after == raised(before, idx as int, w as int),
                    forall|k: int| 0 <= k < j ==> #[trigger] copies@[k] == after[k],
                    forall|k: int| j <= k < n ==> #[trigger] copies@[k] == before[k],
                decreases idx + w + 1 - j,
            {
                let raise: Option<u32> = match copies[j].checked_add(1) {
                    Some(c) => c.checked_add(own),
                    None => None,
                };
                match raise {
                    Some(c) => {
                        copies.set(j, c);
                    },
                    None => {
                        assert(after[j as int] > u32::MAX);
                        return Err(Error::Card(CardError::Overflow));
                    },
                }
                j += 1;
            }
            assert(as_ints(copies@) =~= after);
            assert(fits_u32(after));
            idx += 1;
        }
        let ghost last = as_ints(copies@);
        let ghost all = Seq::new(last.len(), |i: int| (1 + last[i]) as u32);
        let mut counts: Vec<u32> = Vec::new();
        let mut i: usize = 0;
        while i < n
            invariant
                i <= n,
                copies@.len() == n,
                v == views(cards@),
                dealt(wins_of(v), copies_of(v), 0) == Ok::<Seq<int>, CardError>(last),
                last == as_ints(copies@),
                all == Seq::new(last.len(), |i: int| (1 + last[i]) as u32),
                counts@ == all.take(i as int),
                forall|j: int| 0 <= j < i ==> 1 + #[trigger] last[j] <= u32::MAX,
            decreases n - i,
        {
            if copies[i] == 0xffff_ffff {
                assert(1 + last[i as int] > u32::MAX);
                return Err(Error::Card(CardError::Overflow));
            }
            counts.push(1 + copies[i]);
            assert(counts@ =~= all.take(i + 1));
            i += 1;
        }
        assert(all.take(n as int) =~= all);
        match sum_u32(counts.as_slice()) {
            Some(total) => Ok(total),
            None => Err(Error::Card(CardError::Overflow)),
        }
    }
}

} // verus!
