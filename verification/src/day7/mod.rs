//! The card game: hands of five cards, ordered first by their kind and then card by
//! card, each winning its bid times its place in that order.

pub mod order;
pub mod permutation;

use crate::day::{Day, Error};
use crate::day7::permutation::{
    in_base, lemma_rank_bound, lemma_rank_injective, picked, rank, tuples,
    PermutationsWithReplacement,
};
use crate::text::{chars_of, find_char, first_index, parse_number, texts, unsigned};
use std::marker::PhantomData;
use std::str::FromStr;
use vstd::prelude::*;
use vstd::slice::slice_subrange;
use vstd::std_specs::convert::TryFromSpecImpl;

verus! {

/// Why a hand could not be read, or the hands have no total.
#[derive(Debug, Copy, Clone, PartialEq, Eq)]
pub enum HandError {
    /// No blank parts the cards from the bid.
    InvalidHand,
    /// A character names no card.
    InvalidCard,
    /// The bid is not an unsigned integer of 64 bits.
    InvalidNumber,
    /// The hand has not five cards.
    InvalidNumberOfCards,
    /// The winnings are above `u64::MAX`.
    Overflow,
}

/// The kind of a hand, from the weakest to the strongest.
#[derive(Debug, Copy, Clone, Eq, PartialEq, Structural, PartialOrd, Ord)]
pub enum Outcome {
    HighCard,
    Pair,
    TwoPair,
    ThreeOfAKind,
    FullHouse,
    FourOfAKind,
    FiveOfAKind,
}

impl Outcome {
    /// The strength of the kind, from one to seven.
    pub open spec fn rank(&self) -> u8 {
        match self {
            Outcome::HighCard => 1,
            Outcome::Pair => 2,
            Outcome::TwoPair => 3,
            Outcome::ThreeOfAKind => 4,
            Outcome::FullHouse => 5,
            Outcome::FourOfAKind => 6,
            Outcome::FiveOfAKind => 7,
        }
    }

    pub fn value(&self) -> (r: u8)
        ensures
            r == self.rank(),
    {
        match self {
            Outcome::HighCard => 1,
            Outcome::Pair => 2,
            Outcome::TwoPair => 3,
            Outcome::ThreeOfAKind => 4,
            Outcome::FullHouse => 5,
            Outcome::FourOfAKind => 6,
            Outcome::FiveOfAKind => 7,
        }
    }
}

/// A playing card: a number card from two to ten, or a face card.
#[derive(Debug, Copy, Clone, PartialEq, Eq, Hash, Structural)]
pub enum Card {
    N(u8),
    Jack,
    Queen,
    King,
    As,
}

/// The card that a character names.
pub open spec fn parse_card(c: char) -> Result<Card, HandError> {
    if '2' <= c <= '9' {
        Ok(Card::N((c as int - '0' as int) as u8))
    } else if c == 'T' {
        Ok(Card::N(10))
    } else if c == 'J' {
        Ok(Card::Jack)
    } else if c == 'Q' {
        Ok(Card::Queen)
    } else if c == 'K' {
        Ok(Card::King)
    } else if c == 'A' {
        Ok(Card::As)
    } else {
        Err(HandError::InvalidCard)
    }
}

impl TryFrom<char> for Card {
    type Error = HandError;

    /// Reads a card from its character.
    fn try_from(value: char) -> (r: Result<Card, HandError>) {
        Ok(
            match value {
                '2' => Card::N(2),
                '3' => Card::N(3),
                '4' => Card::N(4),
                '5' => Card::N(5),
                '6' => Card::N(6),
                '7' => Card::N(7),
                '8' => Card::N(8),
                '9' => Card::N(9),
                'T' => Card::N(10),
                'J' => Card::Jack,
                'Q' => Card::Queen,
                'K' => Card::King,
                'A' => Card::As,
                _ => {
                    return Err(HandError::InvalidCard);
                },
            },
        )
    }
}

impl TryFromSpecImpl<char> for Card {
    open spec fn obeys_try_from_spec() -> bool {
        true
    }

    open spec fn try_from_spec(value: char) -> Result<Card, HandError> {
        parse_card(value)
    }
}

/// The rules of a game: what kind a hand is, and what a card is worth when two hands
/// of one kind are compared.
pub trait Rules {
    spec fn strength(cards: Seq<Card>) -> Outcome;

    spec fn worth(card: Card) -> u8;

    fn outcome(cards: &[Card; 5]) -> (r: Outcome)
        ensures
            r == Self::strength(cards@),
    ;

    fn card_value(card: &Card) -> (r: u8)
        ensures
            r == Self::worth(*card),
    ;
}

/// How often the card `c` is among the first `n` cards.
pub open spec fn occurs(cards: Seq<Card>, c: Card, n: int) -> int
    decreases n,
{
    if n <= 0 {
        0
    } else {
        occurs(cards, c, n - 1) + (if cards[n - 1] == c {
            1int
        } else {
            0int
        })
    }
}

/// The card at position `i` does not stand before it.
pub open spec fn is_first(cards: Seq<Card>, i: int) -> bool {
    forall|j: int| 0 <= j < i ==> #[trigger] cards[j] != cards[i]
}

/// How many different cards among the first `n` are in the hand exactly `size`
/// times: each is counted where it first stands.
pub open spec fn groups(cards: Seq<Card>, size: int, n: int) -> int
    decreases n,
{
    if n <= 0 {
        0
    } else {
        groups(cards, size, n - 1) + (if is_first(cards, n - 1) && occurs(
            cards,
            cards[n - 1],
            cards.len() as int,
        ) == size {
            1int
        } else {
            0int
        })
    }
}

/// How many different cards are in the hand exactly `size` times.
pub open spec fn groups_of(cards: Seq<Card>, size: int) -> int {
    groups(cards, size, cards.len() as int)
}

/// The kind of a hand by the cards as they are.
pub open spec fn kind(cards: Seq<Card>) -> Outcome {
    let pairs = groups_of(cards, 2);
    let sets = groups_of(cards, 3);
    if pairs == 1 && sets == 1 {
        Outcome::FullHouse
    } else if pairs == 2 {
        Outcome::TwoPair
    } else if sets == 1 {
        Outcome::ThreeOfAKind
    } else if pairs == 1 {
        Outcome::Pair
    } else if groups_of(cards, 4) == 1 {
        Outcome::FourOfAKind
    } else if groups_of(cards, 5) == 1 {
        Outcome::FiveOfAKind
    } else {
        Outcome::HighCard
    }
}

/// The plain rules: a hand is of the kind that its cards make, and a Jack ranks
/// between the ten and the Queen.
#[derive(Debug, Copy, Clone, Eq, PartialEq)]
pub struct Part1;

/// The rules with jokers: a Jack stands for whatever card makes the hand strongest,
/// and card by card it is the weakest of all.
#[derive(Debug, Copy, Clone, Eq, PartialEq)]
pub struct Part2;

/// Counts how often a card is in the hand.
fn count_card(cards: &[Card; 5], c: Card) -> (r: usize)
    ensures
        r == occurs(cards@, c, 5),
        r <= 5,
{
    let mut count: usize = 0;
    let mut j: usize = 0;
    while j < 5
        invariant
            j <= 5,
            count <= j,
            count == occurs(cards@, c, j as int),
        decreases 5 - j,
    {
        if cards[j] == c {
            count += 1;
        }
        j += 1;
    }
    count
}

/// Tells whether the card at position `i` does not stand before it.
fn stands_first(cards: &[Card; 5], i: usize) -> (r: bool)
    requires
        i < 5,
    ensures
        r == is_first(cards@, i as int),
{
    let mut j: usize = 0;
    while j < i
        invariant
            j <= i < 5,
            forall|k: int| 0 <= k < j ==> #[trigger] cards@[k] != cards@[i as int],
        decreases i - j,
    {
        if cards[j] == cards[i] {
            return false;
        }
        j += 1;
    }
    true
}

/// Counts the different cards that are in the hand exactly `size` times.
fn count_groups(cards: &[Card; 5], size: usize) -> (r: usize)
    ensures
        r == groups_of(cards@, size as int),
{
    let mut count: usize = 0;
    let mut i: usize = 0;
    while i < 5
        invariant
            i <= 5,
            count <= i,
            count == groups(cards@, size as int, i as int),
        decreases 5 - i,
    {
        if stands_first(cards, i) && count_card(cards, cards[i]) == size {
            count += 1;
        }
        i += 1;
    }
    count
}

impl Rules for Part1 {
    open spec fn strength(cards: Seq<Card>) -> Outcome {
        kind(cards)
    }

    open spec fn worth(card: Card) -> u8 {
        match card {
            Card::N(n) => n,
            Card::Jack => 11,
            Card::Queen => 12,
            Card::King => 13,
            Card::As => 14,
        }
    }

    fn card_value(card: &Card) -> (r: u8) {
        match card {
            Card::N(n) => *n,
            Card::Jack => 11,
            Card::Queen => 12,
            Card::King => 13,
            Card::As => 14,
        }
    }

    fn outcome(cards: &[Card; 5]) -> (r: Outcome) {
        let pairs = count_groups(cards, 2);
        let two_pair = pairs == 2;
        let set = count_groups(cards, 3);
        if pairs == 1 && set == 1 {
            return Outcome::FullHouse;
        }
        if two_pair {
            return Outcome::TwoPair;
        }
        if set == 1 {
            return Outcome::ThreeOfAKind;
        }
        if pairs == 1 {
            return Outcome::Pair;
        }
        let four_of_a_kind = count_groups(cards, 4);
        if four_of_a_kind == 1 {
            return Outcome::FourOfAKind;
        }
        let five_of_a_kind = count_groups(cards, 5);
        if five_of_a_kind == 1 {
            return Outcome::FiveOfAKind;
        }
        return Outcome::HighCard;
    }
}

/// The cards that a joker can stand for.
pub open spec fn deck() -> Seq<Card> {
    seq![
        Card::N(2),
        Card::N(3),
        Card::N(4),
        Card::N(5),
        Card::N(6),
        Card::N(7),
        Card::N(8),
        Card::N(9),
        Card::N(10),
        Card::Jack,
        Card::Queen,
        Card::King,
        Card::As,
    ]
}

/// The card is one that a joker can stand for.
pub open spec fn in_deck(c: Card) -> bool {
    match c {
        Card::N(n) => 2 <= n <= 10,
        _ => true,
    }
}

/// Where a card stands in the deck.
pub open spec fn deck_index(c: Card) -> int {
    match c {
        Card::N(n) => n - 2,
        Card::Jack => 9,
        Card::Queen => 10,
        Card::King => 11,
        Card::As => 12,
    }
}

/// The hand `other` is `cards` with each Jack replaced by a card of the deck.
pub open spec fn fills(cards: Seq<Card>, other: Seq<Card>) -> bool {
    &&& other.len() == cards.len()
    &&& forall|i: int|
        0 <= i < cards.len() ==> (if cards[i] == Card::Jack {
            in_deck(#[trigger] other[i])
        } else {
            other[i] == cards[i]
        })
}

/// `o` is the strongest kind that the hand can be made into by replacing its Jacks.
pub open spec fn is_best(cards: Seq<Card>, o: Outcome) -> bool {
    &&& exists|other: Seq<Card>| fills(cards, other) && #[trigger] kind(other) == o
    &&& forall|other: Seq<Card>| fills(cards, other) ==> (#[trigger] kind(other)).rank() <= o.rank()
}

/// The hand with its Jacks replaced, in order, by the cards of `combo`.
pub open spec fn filled(cards: Seq<Card>, combo: Seq<Card>) -> Seq<Card> {
    Seq::new(
        cards.len(),
        |i: int|
            if cards[i] == Card::Jack {
                combo[occurs(cards, Card::Jack, i)]
            } else {
                cards[i]
            },
    )
}

/// The deck positions of the cards that stand in `other` where the first `n` cards
/// of `cards` have a Jack.
pub open spec fn tuple_upto(cards: Seq<Card>, other: Seq<Card>, n: int) -> Seq<usize>
    decreases n,
{
    if n <= 0 {
        Seq::empty()
    } else if cards[n - 1] == Card::Jack {
        tuple_upto(cards, other, n - 1).push(deck_index(other[n - 1]) as usize)
    } else {
        tuple_upto(cards, other, n - 1)
    }
}

/// A card is no more often among fewer cards.
pub proof fn lemma_occurs_grows(cards: Seq<Card>, c: Card, k: int, n: int)
    requires
        0 <= k <= n,
    ensures
        0 <= occurs(cards, c, k) <= occurs(cards, c, n),
        occurs(cards, c, k) <= k,
    decreases n,
{
    if k < n {
        lemma_occurs_grows(cards, c, k, n - 1);
    } else if k > 0 {
        lemma_occurs_grows(cards, c, k - 1, n - 1);
    }
}

/// Every card of the deck stands at its position.
pub proof fn lemma_deck(c: Card)
    requires
        in_deck(c),
    ensures
        0 <= deck_index(c) < 13,
        deck()[deck_index(c)] == c,
        deck().len() == 13,
{
}

/// Every card at a position of the deck is one a joker can stand for.
pub proof fn lemma_deck_cards(d: int)
    requires
        0 <= d < 13,
    ensures
        in_deck(deck()[d]),
{
}

/// The tuple read off a replacement picks, Jack by Jack, the cards that replace them.
pub proof fn lemma_tuple_fills(cards: Seq<Card>, other: Seq<Card>, n: int)
    requires
        fills(cards, other),
        0 <= n <= cards.len(),
    ensures
        tuple_upto(cards, other, n).len() == occurs(cards, Card::Jack, n),
        in_base(tuple_upto(cards, other, n), 13),
        forall|i: int|
            0 <= i < n && cards[i] == Card::Jack ==> deck()[tuple_upto(cards, other, n)[occurs(
                cards,
                Card::Jack,
                i,
            )] as int] == #[trigger] other[i],
    decreases n,
{
    if n > 0 {
        lemma_tuple_fills(cards, other, n - 1);
        let before = tuple_upto(cards, other, n - 1);
        let t = tuple_upto(cards, other, n);
        if cards[n - 1] == Card::Jack {
            assert(in_deck(other[n - 1]));
            lemma_deck(other[n - 1]);
            assert forall|i: int| 0 <= i < n && cards[i] == Card::Jack implies deck()[t[occurs(
                cards,
                Card::Jack,
                i,
            )] as int] == #[trigger] other[i] by {
                lemma_occurs_grows(cards, Card::Jack, i, n - 1);
                if i < n - 1 {
                    lemma_occurs_grows(cards, Card::Jack, i + 1, n - 1);
                    assert(t[occurs(cards, Card::Jack, i)] == before[occurs(cards, Card::Jack, i)]);
                }
            }
            assert forall|i: int| 0 <= i < t.len() implies (#[trigger] t[i]) < 13 by {
                if i < before.len() {
                    assert(t[i] == before[i]);
                }
            }
        }
    }
}

/// Every replacement of the Jacks is the one that some tuple of deck positions
/// makes.
pub proof fn lemma_every_fill_is_picked(cards: Seq<Card>, other: Seq<Card>)
    requires
        fills(cards, other),
    ensures
        ({
            let t = tuple_upto(cards, other, cards.len() as int);
            &&& t.len() == occurs(cards, Card::Jack, cards.len() as int)
            &&& in_base(t, 13)
            &&& filled(cards, picked(deck(), t)) == other
        }),
{
    let n = cards.len() as int;
    let t = tuple_upto(cards, other, n);
    lemma_tuple_fills(cards, other, n);
    let made = filled(cards, picked(deck(), t));
    assert forall|i: int| 0 <= i < n implies made[i] == other[i] by {
        if cards[i] == Card::Jack {
            lemma_occurs_grows(cards, Card::Jack, i + 1, n);
            lemma_occurs_grows(cards, Card::Jack, i, n);
            let m = occurs(cards, Card::Jack, i);
            assert(occurs(cards, Card::Jack, i + 1) == m + 1);
            assert(0 <= m < t.len());
            assert(picked(deck(), t)[m] == deck()[t[m] as int]);
            assert(deck()[t[m] as int] == other[i]);
        } else {
            assert(other[i] == cards[i]);
        }
    }
    assert(made =~= other);
}

/// A hand filled from picked deck cards is a replacement of its Jacks.
pub proof fn lemma_picked_fills(cards: Seq<Card>, t: Seq<usize>)
    requires
        t.len() == occurs(cards, Card::Jack, cards.len() as int),
        in_base(t, 13),
    ensures
        fills(cards, filled(cards, picked(deck(), t))),
{
    let made = filled(cards, picked(deck(), t));
    assert forall|i: int| 0 <= i < cards.len() implies (if cards[i] == Card::Jack {
        in_deck(#[trigger] made[i])
    } else {
        made[i] == cards[i]
    }) by {
        if cards[i] == Card::Jack {
            lemma_occurs_grows(cards, Card::Jack, i + 1, cards.len() as int);
            let m = occurs(cards, Card::Jack, i);
            lemma_occurs_grows(cards, Card::Jack, i, cards.len() as int);
            assert(t[m] < 13);
            lemma_deck_cards(t[m] as int);
        }
    }
}

/// There is one strongest kind only.
pub proof fn lemma_best_is_unique(cards: Seq<Card>, a: Outcome, b: Outcome)
    requires
        is_best(cards, a),
        is_best(cards, b),
    ensures
        a == b,
{
    let x = choose|other: Seq<Card>| fills(cards, other) && #[trigger] kind(other) == a;
    let y = choose|other: Seq<Card>| fills(cards, other) && #[trigger] kind(other) == b;
    assert(kind(x).rank() <= b.rank());
    assert(kind(y).rank() <= a.rank());
}

/// The hand with its Jacks replaced, in order, by the cards of `combination`.
fn substitute(cards: &[Card; 5], combination: &Vec<Card>) -> (r: [Card; 5])
    requires
        combination@.len() == occurs(cards@, Card::Jack, 5),
    ensures
        r@ == filled(cards@, combination@),
{
    let mut hand: [Card; 5] = *cards;
    let mut used: usize = 0;
    let mut i: usize = 0;
    while i < 5
        invariant
            i <= 5,
            used == occurs(cards@, Card::Jack, i as int),
            combination@.len() == occurs(cards@, Card::Jack, 5),
            forall|k: int| 0 <= k < i ==> hand@[k] == filled(cards@, combination@)[k],
            forall|k: int| i <= k < 5 ==> hand@[k] == cards@[k],
        decreases 5 - i,
    {
        proof {
            lemma_occurs_grows(cards@, Card::Jack, i + 1, 5);
        }
        if cards[i] == Card::Jack {
            hand[i] = combination[used];
            used += 1;
        }
        i += 1;
    }
    assert(hand@ =~= filled(cards@, combination@));
    hand
}

/// The thirteen cards of the deck.
fn deck_cards() -> (r: Vec<Card>)
    ensures
        r@ == deck(),
{
    let r = vec![
        Card::N(2),
        Card::N(3),
        Card::N(4),
        Card::N(5),
        Card::N(6),
        Card::N(7),
        Card::N(8),
        Card::N(9),
        Card::N(10),
        Card::Jack,
        Card::Queen,
        Card::King,
        Card::As,
    ];
    assert(r@ =~= deck());
    r
}

impl Rules for Part2 {
    open spec fn strength(cards: Seq<Card>) -> Outcome {
        choose|o: Outcome| is_best(cards, o)
    }

    open spec fn worth(card: Card) -> u8 {
        match card {
            Card::N(n) => n,
            Card::Jack => 1,
            Card::Queen => 12,
            Card::King => 13,
            Card::As => 14,
        }
    }

    fn card_value(card: &Card) -> (r: u8) {
        match card {
            Card::N(n) => *n,
            Card::Jack => 1,
            Card::Queen => 12,
            Card::King => 13,
            Card::As => 14,
        }
    }

    fn outcome(cards: &[Card; 5]) -> (r: Outcome) {
        let jokers = count_card(cards, Card::Jack);
        let mut combinations = PermutationsWithReplacement::new(deck_cards(), jokers);
        let mut best: Option<Outcome> = None;
        let ghost mut shown: Seq<Card> = Seq::empty();
        proof {
            lemma_rank_bound(combinations.indices@, 13);
            assert forall|t: Seq<usize>|
                t.len() == jokers && in_base(t, 13) implies #[trigger] rank(t, 13)
                >= 0 by {
                lemma_rank_bound(t, 13);
            }
        }
        loop
            invariant
                combinations.wf(),
                combinations.data@ == deck(),
                combinations.indices@.len() == jokers,
                jokers == occurs(cards@, Card::Jack, 5),
                cards@.len() == 5,
                0 <= combinations.given() <= tuples(13, jokers as nat),
                best is None <==> combinations.given() == 0,
                best is Some ==> fills(cards@, shown) && kind(shown) == best->0,
                forall|t: Seq<usize>|
                    t.len() == jokers && in_base(t, 13) && #[trigger] rank(t, 13)
                        < combinations.given() ==> best is Some && kind(
                        filled(cards@, picked(deck(), t)),
                    ).rank() <= best->0.rank(),
            ensures
                combinations.given() == tuples(13, jokers as nat),
            decreases tuples(13, jokers as nat) - combinations.given(),
        {
            let ghost done = combinations.given();
            let ghost before = best;
            match combinations.next() {
                None => {
                    break ;
                },
                Some(combination) => {
                    let ghost at = combinations.indices@;
                    proof {
                        lemma_rank_bound(at, 13);
                        lemma_picked_fills(cards@, at);
                    }
                    let hand = substitute(cards, &combination);
                    let o = Part1::outcome(&hand);
                    let better = match best {
                        Some(b) => o.value() > b.value(),
                        None => true,
                    };
                    if better {
                        best = Some(o);
                        proof {
                            shown = hand@;
                        }
                    }
                    assert forall|t: Seq<usize>|
                        t.len() == jokers && in_base(t, 13)
                            && #[trigger] rank(t, 13)
                            < combinations.given() implies best is Some && kind(
                        filled(cards@, picked(deck(), t)),
                    ).rank() <= best->0.rank() by {
                        if rank(t, 13) < done {
                            assert(before is Some);
                        } else {
                            lemma_rank_injective(t, at, 13);
                        }
                    }
                },
            }
        }
        proof {
            lemma_rank_bound(combinations.indices@, 13);
            assert(is_best(cards@, best->0)) by {
                assert forall|other: Seq<Card>| fills(cards@, other) implies (#[trigger] kind(
                    other,
                )).rank() <= best->0.rank() by {
                    lemma_every_fill_is_picked(cards@, other);
                    let t = tuple_upto(cards@, other, 5);
                    lemma_rank_bound(t, 13);
                    assert(rank(t, 13) < combinations.given());
                }
            }
            lemma_best_is_unique(cards@, best->0, Self::strength(cards@));
        }
        match best {
            Some(o) => o,
            None => Outcome::HighCard,
        }
    }
}

/// A hand: five cards and a bid, played by the rules `R`.
#[derive(Debug, Eq, PartialEq)]
pub struct Hand<R: Rules> {
    pub cards: [Card; 5],
    pub bid: u64,
    pub _phantom: PhantomData<R>,
}

/// A hand as plain values.
pub struct HandView {
    pub cards: Seq<Card>,
    pub bid: u64,
}

impl<R: Rules> View for Hand<R> {
    type V = HandView;

    open spec fn view(&self) -> HandView {
        HandView { cards: self.cards@, bid: self.bid }
    }
}

/// How two hands of one kind compare card by card from position `from` on: 1 where
/// the first hand has the first card worth more, -1 where the second has, 0 where
/// all cards are worth the same.
pub open spec fn card_order<R: Rules>(a: Seq<Card>, b: Seq<Card>, from: int) -> int
    decreases a.len() - from,
{
    if from < 0 || from >= a.len() {
        0
    } else if R::worth(a[from]) > R::worth(b[from]) {
        1
    } else if R::worth(a[from]) < R::worth(b[from]) {
        -1
    } else {
        card_order::<R>(a, b, from + 1)
    }
}

/// How two hands compare: by the strength of their kinds, and hands of one kind card
/// by card. 1 where the first hand is stronger, -1 where the second is, 0 where
/// neither.
pub open spec fn hand_order<R: Rules>(a: Seq<Card>, b: Seq<Card>) -> int {
    if R::strength(a) == R::strength(b) {
        card_order::<R>(a, b, 0)
    } else if R::strength(a).rank() < R::strength(b).rank() {
        -1
    } else {
        1
    }
}

/// Compares two hands whose kinds are known.
pub fn order_with<R: Rules>(
    kind_a: Outcome,
    a: &[Card; 5],
    kind_b: Outcome,
    b: &[Card; 5],
) -> (r: i8)
    requires
        kind_a == R::strength(a@),
        kind_b == R::strength(b@),
    ensures
        r == hand_order::<R>(a@, b@),
        r == -1 || r == 0 || r == 1,
{
    if kind_a == kind_b {
        let mut i: usize = 0;
        while i < 5
            invariant
                i <= 5,
                R::strength(a@) == R::strength(b@),
                card_order::<R>(a@, b@, 0) == card_order::<R>(a@, b@, i as int),
            decreases 5 - i,
        {
            let x = R::card_value(&a[i]);
            let y = R::card_value(&b[i]);
            if x > y {
                return 1;
            }
            if y > x {
                return -1;
            }
            i += 1;
        }
        0
    } else if kind_a.value() < kind_b.value() {
        -1
    } else {
        1
    }
}

/// The cards that the characters of a text name, or the error of the first that
/// names none.
pub open spec fn parse_cards(s: Seq<char>) -> Result<Seq<Card>, HandError>
    decreases s.len(),
{
    if s.len() == 0 {
        Ok(Seq::empty())
    } else {
        match parse_cards(s.drop_last()) {
            Err(e) => Err(e),
            Ok(v) => match parse_card(s.last()) {
                Err(e) => Err(e),
                Ok(c) => Ok(v.push(c)),
            },
        }
    }
}

/// Where the first characters of a text fail as cards, the text fails too.
pub proof fn lemma_cards_prefix(s: Seq<char>, n: int)
    requires
        0 <= n <= s.len(),
        parse_cards(s.take(n)) is Err,
    ensures
        parse_cards(s) == parse_cards(s.take(n)),
    decreases s.len(),
{
    if n == s.len() {
        assert(s.take(n) =~= s);
    } else {
        assert(s.drop_last().take(n) =~= s.take(n));
        lemma_cards_prefix(s.drop_last(), n);
    }
}

/// What a line such as `32T3K 765` says: five cards, one blank, and the bid.
pub open spec fn parse_hand(s: Seq<char>) -> Result<HandView, HandError> {
    let k = first_index(s, ' ');
    if !(0 <= k < s.len()) {
        Err(HandError::InvalidHand)
    } else {
        match parse_cards(s.take(k)) {
            Err(e) => Err(e),
            Ok(cards) => match unsigned(s.skip(k + 1), u64::MAX as nat) {
                None => Err(HandError::InvalidNumber),
                Some(bid) => if cards.len() != 5 {
                    Err(HandError::InvalidNumberOfCards)
                } else {
                    Ok(HandView { cards, bid: bid as u64 })
                },
            },
        }
    }
}

impl<R: Rules> Hand<R> {
    /// The product of the bid and a place in the order.
    pub open spec fn prize(&self, place: int) -> int {
        self.bid * place
    }

    /// The kind of the hand by its rules.
    pub fn outcome(&self) -> (r: Outcome)
        ensures
            r == R::strength(self@.cards),
    {
        R::outcome(&self.cards)
    }

    /// What the hand wins at the given place.
    pub fn score(&self, rank: usize) -> (r: u64)
        requires
            self.prize(rank as int) <= u64::MAX,
        ensures
            r == self.prize(rank as int),
    {
        match self.checked_score(rank) {
            Some(v) => v,
            None => 0,
        }
    }

    /// What the hand wins at the given place, unless it is above `u64::MAX`.
    pub fn checked_score(&self, rank: usize) -> (r: Option<u64>)
        ensures
            r is Some <==> self.prize(rank as int) <= u64::MAX,
            r is Some ==> r->0 == self.prize(rank as int),
    {
        self.bid.checked_mul(rank as u64)
    }
}

impl<R: Rules> FromStr for Hand<R> {
    type Err = HandError;

    /// Reads a hand.
    fn from_str(s: &str) -> (r: Result<Self, HandError>)
        ensures
            match r {
                Ok(hand) => parse_hand(s@) == Ok::<HandView, HandError>(hand@),
                Err(e) => parse_hand(s@) == Err::<HandView, HandError>(e),
            },
    {
        let chars = chars_of(s);
        let line = chars.as_slice();
        let k = find_char(line, ' ');
        if k >= line.len() {
            return Err(HandError::InvalidHand);
        }
        let ghost text = s@.take(k as int);
        let mut cards: Vec<Card> = Vec::new();
        let mut i: usize = 0;
        assert(text.take(0) =~= Seq::<char>::empty());
        while i < k
            invariant
                i <= k < line@.len(),
                line@ == s@,
                k == first_index(s@, ' '),
                text == s@.take(k as int),
                parse_cards(text.take(i as int)) == Ok::<Seq<Card>, HandError>(cards@),
            decreases k - i,
        {
            assert(text.take(i + 1).drop_last() =~= text.take(i as int));
            assert(text.take(i + 1).last() == line@[i as int]);
            match Card::try_from(line[i]) {
                Ok(card) => {
                    cards.push(card);
                },
                Err(e) => {
                    proof {
                        lemma_cards_prefix(text, i + 1);
                    }
                    return Err(e);
                },
            }
            i += 1;
        }
        assert(text.take(k as int) =~= text);
        let rest = slice_subrange(line, k + 1, line.len());
        assert(rest@ =~= s@.skip(k + 1));
        let bid = match parse_number(rest, u64::MAX) {
            Some(v) => v,
            None => {
                return Err(HandError::InvalidNumber);
            },
        };
        if cards.len() != 5 {
            return Err(HandError::InvalidNumberOfCards);
        }
        let five: [Card; 5] = [cards[0], cards[1], cards[2], cards[3], cards[4]];
        assert(five@ =~= cards@);
        Ok(Hand { cards: five, bid, _phantom: PhantomData })
    }
}

/// The hands that the lines say, or the error of the first line that says none.
pub open spec fn parse_hands(lines: Seq<Seq<char>>) -> Result<Seq<HandView>, HandError>
    decreases lines.len(),
{
    if lines.len() == 0 {
        Ok(Seq::empty())
    } else {
        match parse_hands(lines.drop_last()) {
            Err(e) => Err(e),
            Ok(v) => match parse_hand(lines.last()) {
                Err(e) => Err(e),
                Ok(hand) => Ok(v.push(hand)),
            },
        }
    }
}

/// Where the first lines fail as hands, all lines fail in the same way.
pub proof fn lemma_hands_prefix(lines: Seq<Seq<char>>, n: int)
    requires
        0 <= n <= lines.len(),
        parse_hands(lines.take(n)) is Err,
    ensures
        parse_hands(lines) == parse_hands(lines.take(n)),
    decreases lines.len(),
{
    if n == lines.len() {
        assert(lines.take(n) =~= lines);
    } else {
        assert(lines.drop_last().take(n) =~= lines.take(n));
        lemma_hands_prefix(lines.drop_last(), n);
    }
}

/// The hand at `j` comes before the hand at `i` when the hands are put in order: it
/// is the weaker one, or neither is stronger and it stands earlier in the list.
pub open spec fn comes_before<R: Rules>(hands: Seq<HandView>, j: int, i: int) -> bool {
    let o = hand_order::<R>(hands[j].cards, hands[i].cards);
    o < 0 || (o == 0 && j < i)
}

/// How many of the first `n` hands come before the hand at `i`.
pub open spec fn weaker<R: Rules>(hands: Seq<HandView>, i: int, n: int) -> int
    decreases n,
{
    if n <= 0 {
        0
    } else {
        weaker::<R>(hands, i, n - 1) + (if comes_before::<R>(hands, n - 1, i) {
            1int
        } else {
            0int
        })
    }
}

/// The place of the hand at `i` in the order of all hands, the weakest at place one.
pub open spec fn place<R: Rules>(hands: Seq<HandView>, i: int) -> int {
    1 + weaker::<R>(hands, i, hands.len() as int)
}

/// What the first `n` hands win together: each its bid times its place.
pub open spec fn winnings<R: Rules>(hands: Seq<HandView>, n: int) -> int
    decreases n,
{
    if n <= 0 {
        0
    } else {
        winnings::<R>(hands, n - 1) + hands[n - 1].bid * place::<R>(hands, n - 1)
    }
}

/// What the hands that the lines say win together.
pub open spec fn total_winnings<R: Rules>(lines: Seq<Seq<char>>) -> Result<u64, HandError> {
    match parse_hands(lines) {
        Err(e) => Err(e),
        Ok(hands) => if winnings::<R>(hands, hands.len() as int) > u64::MAX {
            Err(HandError::Overflow)
        } else {
            Ok(winnings::<R>(hands, hands.len() as int) as u64)
        },
    }
}

/// Fewer hands hold no more hands that come before a given one.
pub proof fn lemma_weaker_grows<R: Rules>(hands: Seq<HandView>, i: int, k: int, n: int)
    requires
        0 <= k <= n,
    ensures
        0 <= weaker::<R>(hands, i, k) <= weaker::<R>(hands, i, n),
        weaker::<R>(hands, i, k) <= k,
    decreases n,
{
    if k < n {
        lemma_weaker_grows::<R>(hands, i, k, n - 1);
    } else if k > 0 {
        lemma_weaker_grows::<R>(hands, i, k - 1, n - 1);
    }
}

/// Fewer hands win no more.
pub proof fn lemma_winnings_grow<R: Rules>(hands: Seq<HandView>, k: int, n: int)
    requires
        0 <= k <= n,
    ensures
        0 <= winnings::<R>(hands, k) <= winnings::<R>(hands, n),
    decreases n,
{
    if k < n {
        lemma_winnings_grow::<R>(hands, k, n - 1);
        lemma_weaker_grows::<R>(hands, n - 1, 0, hands.len() as int);
        let bid = hands[n - 1].bid;
        let p = place::<R>(hands, n - 1);
        assert(bid * p >= 0) by (nonlinear_arith)
            requires
                bid >= 0,
                p >= 0,
        ;
    } else if k > 0 {
        lemma_winnings_grow::<R>(hands, k - 1, n - 1);
        lemma_weaker_grows::<R>(hands, n - 1, 0, hands.len() as int);
        let bid = hands[n - 1].bid;
        let p = place::<R>(hands, n - 1);
        assert(bid * p >= 0) by (nonlinear_arith)
            requires
                bid >= 0,
                p >= 0,
        ;
    }
}

/// A hand is neither stronger nor weaker than itself.
pub proof fn lemma_order_self<R: Rules>(a: Seq<Card>, from: int)
    ensures
        card_order::<R>(a, a, from) == 0,
    decreases a.len() - from,
{
    if 0 <= from < a.len() {
        lemma_order_self::<R>(a, from + 1);
    }
}

/// Comparing two hands card by card the other way round gives the opposite.
pub proof fn lemma_card_order_flips<R: Rules>(a: Seq<Card>, b: Seq<Card>, from: int)
    requires
        a.len() == b.len(),
    ensures
        card_order::<R>(b, a, from) == -card_order::<R>(a, b, from),
    decreases a.len() - from,
{
    if 0 <= from < a.len() {
        lemma_card_order_flips::<R>(a, b, from + 1);
    }
}

/// Card by card, a hand that is no stronger than a second, which is no stronger than
/// a third, is no stronger than the third; and it is weaker if either of the two is.
pub proof fn lemma_card_order_chains<R: Rules>(
    a: Seq<Card>,
    b: Seq<Card>,
    c: Seq<Card>,
    from: int,
)
    requires
        a.len() == b.len(),
        b.len() == c.len(),
        card_order::<R>(a, b, from) <= 0,
        card_order::<R>(b, c, from) <= 0,
    ensures
        card_order::<R>(a, c, from) <= 0,
        card_order::<R>(a, b, from) < 0 || card_order::<R>(b, c, from) < 0 ==> card_order::<R>(
            a,
            c,
            from,
        ) < 0,
    decreases a.len() - from,
{
    if 0 <= from < a.len() {
        if R::worth(a[from]) == R::worth(b[from]) && R::worth(b[from]) == R::worth(c[from]) {
            lemma_card_order_chains::<R>(a, b, c, from + 1);
        }
    }
}

/// Comparing two hands the other way round gives the opposite.
pub proof fn lemma_hand_order_flips<R: Rules>(a: Seq<Card>, b: Seq<Card>)
    requires
        a.len() == b.len(),
    ensures
        hand_order::<R>(b, a) == -hand_order::<R>(a, b),
{
    lemma_card_order_flips::<R>(a, b, 0);
}

/// A hand that is no stronger than a second, which is no stronger than a third, is no
/// stronger than the third; and it is weaker if either of the two is.
pub proof fn lemma_hand_order_chains<R: Rules>(a: Seq<Card>, b: Seq<Card>, c: Seq<Card>)
    requires
        a.len() == b.len(),
        b.len() == c.len(),
        hand_order::<R>(a, b) <= 0,
        hand_order::<R>(b, c) <= 0,
    ensures
        hand_order::<R>(a, c) <= 0,
        hand_order::<R>(a, b) < 0 || hand_order::<R>(b, c) < 0 ==> hand_order::<R>(a, c) < 0,
{
    let x = R::strength(a);
    let y = R::strength(b);
    let z = R::strength(c);
    lemma_order_self::<R>(a, 0);
    lemma_order_self::<R>(b, 0);
    if x == y && y == z {
        lemma_card_order_chains::<R>(a, b, c, 0);
    }
}

/// The hands of a list all have as many cards.
pub open spec fn same_size(hands: Seq<HandView>) -> bool {
    forall|i: int, j: int|
        0 <= i < hands.len() && 0 <= j < hands.len() ==> (#[trigger] hands[i]).cards.len() == (
        #[trigger] hands[j]).cards.len()
}

/// Of two different hands of a list, one comes before the other, and not both do.
pub proof fn lemma_one_comes_first<R: Rules>(hands: Seq<HandView>, i: int, j: int)
    requires
        same_size(hands),
        0 <= i < hands.len(),
        0 <= j < hands.len(),
    ensures
        i != j ==> comes_before::<R>(hands, i, j) != comes_before::<R>(hands, j, i),
        !comes_before::<R>(hands, i, i),
{
    assert(hands[i].cards.len() == hands[j].cards.len());
    lemma_hand_order_flips::<R>(hands[i].cards, hands[j].cards);
    lemma_order_self::<R>(hands[i].cards, 0);
}

/// What comes before a hand that comes before another comes before that other.
pub proof fn lemma_before_chains<R: Rules>(hands: Seq<HandView>, k: int, j: int, i: int)
    requires
        same_size(hands),
        0 <= k < hands.len(),
        0 <= j < hands.len(),
        0 <= i < hands.len(),
        comes_before::<R>(hands, k, j),
        comes_before::<R>(hands, j, i),
    ensures
        comes_before::<R>(hands, k, i),
{
    assert(hands[k].cards.len() == hands[j].cards.len());
    assert(hands[j].cards.len() == hands[i].cards.len());
    lemma_hand_order_chains::<R>(hands[k].cards, hands[j].cards, hands[i].cards);
}

/// Among the first `n` hands, no more come before a hand than before one it comes
/// before, and fewer once the hand itself is among them.
pub proof fn lemma_weaker_rises<R: Rules>(hands: Seq<HandView>, j: int, i: int, n: int)
    requires
        same_size(hands),
        0 <= j < hands.len(),
        0 <= i < hands.len(),
        0 <= n <= hands.len(),
        comes_before::<R>(hands, j, i),
    ensures
        weaker::<R>(hands, j, n) <= weaker::<R>(hands, i, n),
        j < n ==> weaker::<R>(hands, j, n) < weaker::<R>(hands, i, n),
    decreases n,
{
    if n > 0 {
        lemma_weaker_rises::<R>(hands, j, i, n - 1);
        if comes_before::<R>(hands, n - 1, j) {
            lemma_before_chains::<R>(hands, n - 1, j, i);
        }
        if n - 1 == j {
            lemma_one_comes_first::<R>(hands, j, j);
        }
    }
}

/// The places are those of the hands put in order, the weakest first and hands that
/// tie in the order of the list: every place is one from the first to the last, no
/// two hands share a place, and a hand that comes before another has the lower place.
pub proof fn law_places_are_an_order<R: Rules>(hands: Seq<HandView>, i: int, j: int)
    requires
        same_size(hands),
        0 <= i < hands.len(),
        0 <= j < hands.len(),
    ensures
        1 <= place::<R>(hands, i) <= hands.len(),
        i != j ==> place::<R>(hands, i) != place::<R>(hands, j),
        comes_before::<R>(hands, j, i) ==> place::<R>(hands, j) < place::<R>(hands, i),
        hand_order::<R>(hands[j].cards, hands[i].cards) < 0 ==> place::<R>(hands, j) < place::<R>(
            hands,
            i,
        ),
{
    let n = hands.len() as int;
    lemma_weaker_grows::<R>(hands, i, 0, n);
    lemma_weaker_skips_self::<R>(hands, i, n);
    lemma_one_comes_first::<R>(hands, i, j);
    if comes_before::<R>(hands, j, i) {
        lemma_weaker_rises::<R>(hands, j, i, n);
    }
    if comes_before::<R>(hands, i, j) {
        lemma_weaker_rises::<R>(hands, i, j, n);
    }
}

/// A hand does not come before itself, so fewer hands come before it than there are.
pub proof fn lemma_weaker_skips_self<R: Rules>(hands: Seq<HandView>, i: int, n: int)
    requires
        0 <= i < hands.len(),
        0 <= n <= hands.len(),
    ensures
        weaker::<R>(hands, i, n) <= n,
        i < n ==> weaker::<R>(hands, i, n) < n,
    decreases n,
{
    if n > 0 {
        lemma_weaker_skips_self::<R>(hands, i, n - 1);
        if n - 1 == i {
            lemma_order_self::<R>(hands[i].cards, 0);
        }
    }
}

/// The hands of a list as plain values.
pub open spec fn views<R: Rules>(hands: Seq<Hand<R>>) -> Seq<HandView> {
    Seq::new(hands.len(), |i: int| hands[i]@)
}

/// Counts the hands that come before the hand at `i`, and gives its place.
fn place_of<R: Rules>(hands: &Vec<Hand<R>>, kinds: &Vec<Outcome>, i: usize) -> (r: usize)
    requires
        i < hands@.len(),
        kinds@.len() == hands@.len(),
        forall|j: int|
            0 <= j < hands@.len() ==> #[trigger] kinds@[j] == R::strength(hands@[j]@.cards),
    ensures
        r == place::<R>(views(hands@), i as int),
{
    let ghost v = views(hands@);
    let n: usize = hands.len();
    let mut count: usize = 0;
    let mut j: usize = 0;
    while j < n
        invariant
            j <= n,
            i < n,
            n == hands@.len(),
            kinds@.len() == n,
            v == views(hands@),
            forall|j: int| 0 <= j < n ==> #[trigger] kinds@[j] == R::strength(hands@[j]@.cards),
            count == weaker::<R>(v, i as int, j as int),
            count <= j,
            j > i ==> count < j,
        decreases n - j,
    {
        assert(v[j as int] == hands@[j as int]@);
        assert(v[i as int] == hands@[i as int]@);
        let o = order_with::<R>(kinds[j], &hands[j].cards, kinds[i], &hands[i].cards);
        proof {
            if j == i {
                lemma_order_self::<R>(v[i as int].cards, 0);
            }
        }
        if o < 0 || (o == 0 && j < i) {
            count += 1;
        }
        j += 1;
    }
    count + 1
}

/// Adds up what all hands win: each its bid times its place when the hands are put
/// in order, the weakest first, hands that tie in the order of the lines.
pub fn solve<R: Rules>(items: Vec<String>) -> (r: Result<u64, HandError>)
    ensures
        r == total_winnings::<R>(texts(items@)),
{
    let ghost t = texts(items@);
    let mut hands: Vec<Hand<R>> = Vec::new();
    let mut i: usize = 0;
    assert(t.take(0) =~= Seq::<Seq<char>>::empty());
    assert(views(hands@) =~= Seq::<HandView>::empty());
    while i < items.len()
        invariant
            i <= items@.len(),
            t == texts(items@),
            parse_hands(t.take(i as int)) == Ok::<Seq<HandView>, HandError>(views(hands@)),
        decreases items@.len() - i,
    {
        assert(t.take(i + 1).drop_last() =~= t.take(i as int));
        assert(t.take(i + 1).last() == items@[i as int]@);
        let ghost before = views(hands@);
        match Hand::<R>::from_str(items[i].as_str()) {
            Ok(hand) => {
                let ghost view = hand@;
                hands.push(hand);
                assert(views(hands@) =~= before.push(view));
            },
            Err(e) => {
                proof {
                    lemma_hands_prefix(t, i + 1);
                }
                return Err(e);
            },
        }
        i += 1;
    }
    assert(t.take(items@.len() as int) =~= t);
    let ghost v = views(hands@);
    let n: usize = hands.len();
    let mut kinds: Vec<Outcome> = Vec::new();
    let mut k: usize = 0;
    while k < n
        invariant
            k <= n,
            n == hands@.len(),
            kinds@.len() == k,
            forall|j: int| 0 <= j < k ==> #[trigger] kinds@[j] == R::strength(hands@[j]@.cards),
        decreases n - k,
    {
        kinds.push(hands[k].outcome());
        k += 1;
    }
    let mut answer: u64 = 0;
    let mut idx: usize = 0;
    while idx < n
        invariant
            idx <= n,
            n == hands@.len(),
            kinds@.len() == n,
            v == views(hands@),
            parse_hands(texts(items@)) == Ok::<Seq<HandView>, HandError>(v),
            forall|j: int| 0 <= j < n ==> #[trigger] kinds@[j] == R::strength(hands@[j]@.cards),
            answer == winnings::<R>(v, idx as int),
        decreases n - idx,
    {
        let rank = place_of(&hands, &kinds, idx);
        assert(v[idx as int] == hands@[idx as int]@);
        proof {
            lemma_winnings_grow::<R>(v, idx + 1, n as int);
            lemma_winnings_grow::<R>(v, idx as int, idx + 1);
        }
        let prize = match hands[idx].checked_score(rank) {
            Some(p) => p,
            None => {
                return Err(HandError::Overflow);
            },
        };
        match answer.checked_add(prize) {
            Some(total) => {
                answer = total;
            },
            None => {
                return Err(HandError::Overflow);
            },
        }
        idx += 1;
    }
    Ok(answer)
}

/// Wraps a hand result for the puzzle's caller.
pub open spec fn answer(r: Result<u64, HandError>) -> Result<u64, Error> {
    match r {
        Ok(v) => Ok(v),
        Err(e) => Err(Error::Hand(e)),
    }
}

/// The card game puzzle.
pub struct Day7;

impl Day for Day7 {
    type Item = String;

    type Answer = u64;

    const DAY: usize = 7;

    open spec fn solves_part_1() -> bool {
        true
    }

    open spec fn solves_part_2() -> bool {
        true
    }

    /// The total winnings by the plain rules.
    fn part_1(items: Vec<String>) -> (r: Result<u64, Error>)
        ensures
            r == answer(total_winnings::<Part1>(texts(items@))),
    {
        match solve::<Part1>(items) {
            Ok(v) => Ok(v),
            Err(e) => Err(Error::Hand(e)),
        }
    }

    /// The total winnings by the rules with jokers.
    fn part_2(items: Vec<String>) -> (r: Result<u64, Error>)
        ensures
            r == answer(total_winnings::<Part2>(texts(items@))),
    {
        match solve::<Part2>(items) {
            Ok(v) => Ok(v),
            Err(e) => Err(Error::Hand(e)),
        }
    }
}

} // verus!
