use advent::day::{Day, Error};
use advent::day7::permutation::PermutationsWithReplacement;
use advent::day7::{solve, Card, Day7, Hand, HandError, Outcome, Part1, Part2, Rules};
use std::cmp::Ordering;
use std::str::FromStr;

fn lines(text: &[&str]) -> Vec<String> {
    text.iter().map(|l| l.to_string()).collect()
}

fn sample() -> Vec<String> {
    lines(&["32T3K 765", "T55J5 684", "KK677 28", "KTJJT 220", "QQQJA 483"])
}

fn five(text: &str) -> [Card; 5] {
    Hand::<Part1>::from_str(&format!("{text} 0")).unwrap().cards
}

#[test]
fn outcome_values() {
    assert_eq!(Outcome::HighCard.value(), 1);
    assert_eq!(Outcome::Pair.value(), 2);
    assert_eq!(Outcome::TwoPair.value(), 3);
    assert_eq!(Outcome::ThreeOfAKind.value(), 4);
    assert_eq!(Outcome::FullHouse.value(), 5);
    assert_eq!(Outcome::FourOfAKind.value(), 6);
    assert_eq!(Outcome::FiveOfAKind.value(), 7);
    assert!(Outcome::Pair < Outcome::TwoPair);
    assert!(Outcome::FullHouse > Outcome::ThreeOfAKind);
}

#[test]
fn cards_by_character() {
    assert_eq!(Card::try_from('2'), Ok(Card::N(2)));
    assert_eq!(Card::try_from('9'), Ok(Card::N(9)));
    assert_eq!(Card::try_from('T'), Ok(Card::N(10)));
    assert_eq!(Card::try_from('J'), Ok(Card::Jack));
    assert_eq!(Card::try_from('Q'), Ok(Card::Queen));
    assert_eq!(Card::try_from('K'), Ok(Card::King));
    assert_eq!(Card::try_from('A'), Ok(Card::As));
    assert_eq!(Card::try_from('1'), Err(HandError::InvalidCard));
    assert_eq!(Card::try_from('0'), Err(HandError::InvalidCard));
    assert_eq!(Card::try_from('t'), Err(HandError::InvalidCard));
    assert_eq!(Card::try_from(' '), Err(HandError::InvalidCard));
}

#[test]
fn card_values_by_rules() {
    assert_eq!(Part1::card_value(&Card::N(7)), 7);
    assert_eq!(Part1::card_value(&Card::Jack), 11);
    assert_eq!(Part1::card_value(&Card::Queen), 12);
    assert_eq!(Part1::card_value(&Card::King), 13);
    assert_eq!(Part1::card_value(&Card::As), 14);
    assert_eq!(Part2::card_value(&Card::N(7)), 7);
    assert_eq!(Part2::card_value(&Card::Jack), 1);
    assert_eq!(Part2::card_value(&Card::Queen), 12);
    assert_eq!(Part2::card_value(&Card::King), 13);
    assert_eq!(Part2::card_value(&Card::As), 14);
}

#[test]
fn kinds_by_the_plain_rules() {
    assert_eq!(Part1::outcome(&five("23456")), Outcome::HighCard);
    assert_eq!(Part1::outcome(&five("32T3K")), Outcome::Pair);
    assert_eq!(Part1::outcome(&five("KK677")), Outcome::TwoPair);
    assert_eq!(Part1::outcome(&five("KTJJT")), Outcome::TwoPair);
    assert_eq!(Part1::outcome(&five("T55J5")), Outcome::ThreeOfAKind);
    assert_eq!(Part1::outcome(&five("QQQJA")), Outcome::ThreeOfAKind);
    assert_eq!(Part1::outcome(&five("23332")), Outcome::FullHouse);
    assert_eq!(Part1::outcome(&five("AA8AA")), Outcome::FourOfAKind);
    assert_eq!(Part1::outcome(&five("AAAAA")), Outcome::FiveOfAKind);
    assert_eq!(Part1::outcome(&five("JJJJJ")), Outcome::FiveOfAKind);
}

#[test]
fn kinds_with_jokers() {
    assert_eq!(Part2::outcome(&five("23456")), Outcome::HighCard);
    assert_eq!(Part2::outcome(&five("32T3K")), Outcome::Pair);
    assert_eq!(Part2::outcome(&five("KK677")), Outcome::TwoPair);
    assert_eq!(Part2::outcome(&five("2345J")), Outcome::Pair);
    assert_eq!(Part2::outcome(&five("T55J5")), Outcome::FourOfAKind);
    assert_eq!(Part2::outcome(&five("KTJJT")), Outcome::FourOfAKind);
    assert_eq!(Part2::outcome(&five("QQQJA")), Outcome::FourOfAKind);
    assert_eq!(Part2::outcome(&five("2233J")), Outcome::FullHouse);
    assert_eq!(Part2::outcome(&five("234JJ")), Outcome::ThreeOfAKind);
    assert_eq!(Part2::outcome(&five("2JJJJ")), Outcome::FiveOfAKind);
    assert_eq!(Part2::outcome(&five("JJJJJ")), Outcome::FiveOfAKind);
}

#[test]
fn hand_reads_cards_and_bid() {
    let hand = Hand::<Part1>::from_str("32T3K 765").unwrap();
    assert_eq!(hand.cards, [Card::N(3), Card::N(2), Card::N(10), Card::N(3), Card::King]);
    assert_eq!(hand.bid, 765);
    assert_eq!(hand.outcome(), Outcome::Pair);
    let joker = Hand::<Part2>::from_str("T55J5 684").unwrap();
    assert_eq!(joker.outcome(), Outcome::FourOfAKind);
    assert_eq!(joker.bid, 684);
}

#[test]
fn hand_faults() {
    assert_eq!(Hand::<Part1>::from_str("32T3K765").err(), Some(HandError::InvalidHand));
    assert_eq!(Hand::<Part1>::from_str("").err(), Some(HandError::InvalidHand));
    assert_eq!(Hand::<Part1>::from_str("32X3K 765").err(), Some(HandError::InvalidCard));
    assert_eq!(Hand::<Part1>::from_str("32T3K 7 5").err(), Some(HandError::InvalidNumber));
    assert_eq!(Hand::<Part1>::from_str("32T3K ").err(), Some(HandError::InvalidNumber));
    assert_eq!(Hand::<Part1>::from_str("32T3 765").err(), Some(HandError::InvalidNumberOfCards));
    assert_eq!(Hand::<Part1>::from_str(" 765").err(), Some(HandError::InvalidNumberOfCards));
    assert_eq!(Hand::<Part1>::from_str("32T3KK 765").err(), Some(HandError::InvalidNumberOfCards));
    assert_eq!(Hand::<Part1>::from_str("32T3 x").err(), Some(HandError::InvalidNumber));
}

#[test]
fn score_is_bid_times_place() {
    let hand = Hand::<Part1>::from_str("32T3K 765").unwrap();
    assert_eq!(hand.score(1), 765);
    assert_eq!(hand.score(5), 3825);
    assert_eq!(hand.score(0), 0);
    assert_eq!(hand.checked_score(3), Some(2295));
    let rich = Hand::<Part1>::from_str("32T3K 18446744073709551615").unwrap();
    assert_eq!(rich.checked_score(1), Some(u64::MAX));
    assert_eq!(rich.checked_score(2), None);
}

#[test]
fn hands_in_order() {
    let order = |a: &str, b: &str| {
        Hand::<Part1>::from_str(a).unwrap().cmp(&Hand::<Part1>::from_str(b).unwrap())
    };
    assert_eq!(order("32T3K 1", "KK677 1"), Ordering::Less);
    assert_eq!(order("KK677 1", "KTJJT 1"), Ordering::Greater);
    assert_eq!(order("T55J5 1", "QQQJA 1"), Ordering::Less);
    assert_eq!(order("33332 1", "2AAAA 1"), Ordering::Greater);
    assert_eq!(order("77888 1", "77788 1"), Ordering::Greater);
    assert_eq!(order("32T3K 1", "32T3K 9"), Ordering::Equal);
    let low = Hand::<Part1>::from_str("32T3K 1").unwrap();
    let high = Hand::<Part1>::from_str("KK677 1").unwrap();
    assert_eq!(low.partial_cmp(&high), Some(Ordering::Less));
    assert_eq!(high.partial_cmp(&low), Some(Ordering::Greater));
    assert_eq!(low.partial_cmp(&low), Some(Ordering::Equal));
    assert_eq!(order("QQQJA 1", "KTJJT 1"), Ordering::Greater);
    let joker = |a: &str, b: &str| {
        Hand::<Part2>::from_str(a).unwrap().cmp(&Hand::<Part2>::from_str(b).unwrap())
    };
    assert_eq!(joker("QQQJA 1", "KTJJT 1"), Ordering::Less);
    assert_eq!(joker("JKKK2 1", "QQQQ2 1"), Ordering::Less);
    assert_eq!(joker("T55J5 1", "QQQJA 1"), Ordering::Less);
    assert_eq!(joker("JJJJJ 1", "22222 1"), Ordering::Less);
}

#[test]
fn tuples_in_odometer_order() {
    let mut all = PermutationsWithReplacement::new(vec!['a', 'b', 'c'], 2);
    let mut seen = Vec::new();
    while let Some(tuple) = all.next() {
        seen.push(tuple.iter().collect::<String>());
    }
    assert_eq!(seen, vec!["aa", "ab", "ac", "ba", "bb", "bc", "ca", "cb", "cc"]);
    assert_eq!(all.next(), None);
    assert_eq!(all.next(), None);
}

#[test]
fn tuples_at_the_edges() {
    let mut none = PermutationsWithReplacement::new(vec![1, 2, 3], 0);
    assert_eq!(none.next(), Some(vec![]));
    assert_eq!(none.next(), None);
    let mut empty = PermutationsWithReplacement::new(Vec::<u8>::new(), 0);
    assert_eq!(empty.next(), Some(vec![]));
    assert_eq!(empty.next(), None);
    let mut one = PermutationsWithReplacement::new(vec![7], 3);
    assert_eq!(one.next(), Some(vec![7, 7, 7]));
    assert_eq!(one.next(), None);
    let fresh = PermutationsWithReplacement::new(vec![7, 8], 3);
    assert_eq!(fresh.data, vec![7, 8]);
    assert_eq!(fresh.indices, vec![0, 0, 0]);
    assert!(fresh.first);
    let mut count = 0;
    let mut many = PermutationsWithReplacement::new(vec![0u8; 13], 3);
    while many.next().is_some() {
        count += 1;
    }
    assert_eq!(count, 13 * 13 * 13);
}

#[test]
fn winnings_of_the_sample() {
    assert_eq!(solve::<Part1>(sample()), Ok(6440));
    assert_eq!(solve::<Part2>(sample()), Ok(5905));
    assert_eq!(Day7::part_1(sample()), Ok(6440));
    assert_eq!(Day7::part_2(sample()), Ok(5905));
    assert_eq!(solve::<Part1>(vec![]), Ok(0));
    assert_eq!(Day7::DAY, 7);
}

#[test]
fn hands_that_tie_keep_the_order_of_the_lines() {
    assert_eq!(solve::<Part1>(lines(&["23456 10", "23456 1"])), Ok(10 + 2));
    assert_eq!(solve::<Part1>(lines(&["23456 1", "23456 10"])), Ok(1 + 20));
    assert_eq!(solve::<Part1>(lines(&["AAAAA 5", "23456 10", "23456 1"])), Ok(15 + 10 + 2));
}

#[test]
fn winnings_faults() {
    assert_eq!(solve::<Part1>(lines(&["32T3K 765", "bad"])), Err(HandError::InvalidHand));
    assert_eq!(
        Day7::part_2(lines(&["32T3K 765", "32T3 1"])),
        Err(Error::Hand(HandError::InvalidNumberOfCards))
    );
    assert_eq!(
        solve::<Part1>(lines(&["22222 18446744073709551615", "23456 1"])),
        Err(HandError::Overflow)
    );
    assert_eq!(
        solve::<Part1>(lines(&["23456 18446744073709551615", "22222 1"])),
        Err(HandError::Overflow)
    );
    assert_eq!(solve::<Part1>(lines(&["23456 18446744073709551615"])), Ok(u64::MAX));
}
