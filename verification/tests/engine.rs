use advent::day::{Day, Error};
use advent::day3::{get_adjacent_indexes, lex, Day3, Engine, EngineError, Fragment, Piece, RawPiece};
use std::str::FromStr;

fn schematic(text: &[&str]) -> Vec<Fragment> {
    text.iter().map(|l| Fragment::from_str(l).unwrap()).collect()
}

fn sample() -> Vec<Fragment> {
    schematic(&[
        "467..114..",
        "...*......",
        "..35..633.",
        "......#...",
        "617*......",
        ".....+.58.",
        "..592.....",
        "......755.",
        "...$.*....",
        ".664.598..",
    ])
}

#[test]
fn is_symbol() {
    assert_eq!(Piece::Number(123, 3).is_symbol(), false);
    assert_eq!(Piece::Char('.').is_symbol(), false);
    assert_eq!(Piece::Char('$').is_symbol(), true);
}

#[test]
fn lex_piece() {
    let s = "467..114..";
    let (vis, next) = lex(s).expect("number").unwrap();
    assert_eq!(vis, Piece::Number(467, 3));
    assert_eq!(next, "..114..");
}

#[test]
fn parse() {
    let s = "467..114..";
    let fragment: Fragment = s.parse().unwrap();
    assert_eq!(
        fragment.pieces,
        vec![
            Piece::Number(467, 3),
            Piece::Char('.'),
            Piece::Char('.'),
            Piece::Number(114, 3),
            Piece::Char('.'),
            Piece::Char('.'),
        ]
    );
}

#[test]
fn parse_with_number_last() {
    let s = "467..114..982";
    let fragment: Fragment = s.parse().unwrap();
    assert_eq!(
        fragment.pieces,
        vec![
            Piece::Number(467, 3),
            Piece::Char('.'),
            Piece::Char('.'),
            Piece::Number(114, 3),
            Piece::Char('.'),
            Piece::Char('.'),
            Piece::Number(982, 3),
        ]
    );
}

#[test]
fn parse_with_single_digit_numbers() {
    let s = "467..114..982.4";
    let fragment: Fragment = s.parse().unwrap();
    assert_eq!(
        fragment.pieces,
        vec![
            Piece::Number(467, 3),
            Piece::Char('.'),
            Piece::Char('.'),
            Piece::Number(114, 3),
            Piece::Char('.'),
            Piece::Char('.'),
            Piece::Number(982, 3),
            Piece::Char('.'),
            Piece::Number(4, 1),
        ]
    );
}

#[test]
fn adjacent() {
    assert_eq!(
        get_adjacent_indexes(0, 1).into_iter().collect::<Vec<(_, _)>>(),
        vec![(0, 0), (0, 2), (1, 1), (1, 0), (1, 2)]
    );
}

#[test]
fn adjacent_in_the_open_and_at_the_far_corner() {
    assert_eq!(
        get_adjacent_indexes(5, 5),
        vec![(5, 4), (5, 6), (4, 5), (6, 5), (4, 4), (4, 6), (6, 4), (6, 6)]
    );
    assert_eq!(get_adjacent_indexes(0, 0), vec![(0, 1), (1, 0), (1, 1)]);
    let m = usize::MAX;
    assert_eq!(get_adjacent_indexes(m, m), vec![(m, m - 1), (m - 1, m), (m - 1, m - 1)]);
}

#[test]
fn raw_piece_kinds() {
    assert_eq!(RawPiece::from('7'), RawPiece::Digit(7));
    assert_eq!(RawPiece::from('0'), RawPiece::Digit(0));
    assert_eq!(RawPiece::from('*'), RawPiece::Char('*'));
    assert_eq!(RawPiece::from('.'), RawPiece::Char('.'));
    assert!(RawPiece::Char('*').is_symbol());
    assert!(RawPiece::Char('#').is_symbol());
    assert!(!RawPiece::Char('.').is_symbol());
    assert!(!RawPiece::Digit(3).is_symbol());
    assert!(RawPiece::Char('*').is_gear());
    assert!(!RawPiece::Char('#').is_gear());
    assert!(!RawPiece::Digit(3).is_gear());
}

#[test]
fn lex_at_the_end_and_on_a_symbol() {
    assert!(lex("").is_none());
    let (piece, rest) = lex("*12").unwrap().unwrap();
    assert_eq!(piece, Piece::Char('*'));
    assert_eq!(rest, "12");
    let (piece, rest) = lex("007").unwrap().unwrap();
    assert_eq!(piece, Piece::Number(7, 3));
    assert_eq!(rest, "");
}

#[test]
fn lex_rejects_a_number_above_u32() {
    assert_eq!(lex("4294967295.").unwrap().unwrap().0, Piece::Number(u32::MAX, 10));
    assert_eq!(lex("4294967296.").unwrap().err(), Some(EngineError::NumberTooLarge));
    assert_eq!(Fragment::from_str("..4294967296").err(), Some(EngineError::NumberTooLarge));
}

#[test]
fn fragment_keeps_its_text() {
    let fragment = Fragment::from_str("12.#").unwrap();
    assert_eq!(fragment.raw, "12.#");
    assert_eq!(fragment.pieces, vec![Piece::Number(12, 2), Piece::Char('.'), Piece::Char('#')]);
    assert_eq!(Fragment::from_str("").unwrap().pieces, vec![]);
}

#[test]
fn craft_lays_out_the_grid() {
    let engine = Engine::craft(schematic(&["1.", "*2"])).unwrap();
    assert_eq!(engine.columns, 2);
    assert_eq!(
        engine.pieces,
        vec![Piece::Number(1, 1), Piece::Char('.'), Piece::Char('*'), Piece::Number(2, 1)]
    );
    assert_eq!(
        engine.raw,
        vec![RawPiece::Digit(1), RawPiece::Char('.'), RawPiece::Char('*'), RawPiece::Digit(2)]
    );
    assert_eq!(engine.get_raw(0, 0), Some(RawPiece::Digit(1)));
    assert_eq!(engine.get_raw(1, 0), Some(RawPiece::Char('*')));
    assert_eq!(engine.get_raw(1, 1), Some(RawPiece::Digit(2)));
    assert_eq!(engine.get_raw(0, 2), Some(RawPiece::Char('*')));
    assert_eq!(engine.get_raw(2, 0), None);
    assert_eq!(engine.get_raw(usize::MAX, usize::MAX), None);
    assert_eq!(engine.map_index(3), (1, 1));
    assert_eq!(engine.map_index(2), (1, 0));
    assert!(engine.is_sound());
}

#[test]
fn craft_needs_a_line() {
    assert_eq!(Engine::craft(vec![]).err(), Some(EngineError::BrokenEngine));
    let flat = Engine::craft(schematic(&["", "12"])).unwrap();
    assert_eq!(flat.columns, 0);
    assert!(!flat.is_sound());
}

#[test]
fn parts_of_the_sample() {
    let engine = Engine::craft(sample()).unwrap();
    assert_eq!(engine.parts(), vec![467, 35, 633, 617, 592, 755, 664, 598]);
}

#[test]
fn gears_of_the_sample() {
    let engine = Engine::craft(sample()).unwrap();
    assert_eq!(engine.gears(), Ok(vec![16345, 451490]));
}

#[test]
fn gear_with_one_or_three_numbers_has_no_ratio() {
    let one = Engine::craft(schematic(&["12*.."])).unwrap();
    assert_eq!(one.gears(), Ok(vec![]));
    let three = Engine::craft(schematic(&["1.2", ".*.", "3.."])).unwrap();
    assert_eq!(three.gears(), Ok(vec![]));
    let two = Engine::craft(schematic(&["1.2", ".*.", "..."])).unwrap();
    assert_eq!(two.gears(), Ok(vec![2]));
}

#[test]
fn gear_ratio_above_u32_is_an_error() {
    let engine = Engine::craft(schematic(&["65536*65536"])).unwrap();
    assert_eq!(engine.gears(), Err(EngineError::Overflow));
    let fits = Engine::craft(schematic(&["65535*65537"])).unwrap();
    assert_eq!(fits.gears(), Ok(vec![4294967295]));
}

#[test]
fn schematic_puzzle_answers() {
    assert_eq!(Day3::part_1(sample()), Ok(4361));
    assert_eq!(Day3::part_2(sample()), Ok(467835));
    assert_eq!(Day3::DAY, 3);
}

#[test]
fn schematic_puzzle_faults() {
    assert_eq!(Day3::part_1(vec![]), Err(Error::Engine(EngineError::BrokenEngine)));
    assert_eq!(Day3::part_2(vec![]), Err(Error::Engine(EngineError::BrokenEngine)));
    assert_eq!(Day3::part_1(schematic(&[""])), Err(Error::Engine(EngineError::BrokenEngine)));
    assert_eq!(
        Day3::part_1(schematic(&["4294967295*1"])),
        Err(Error::Engine(EngineError::Overflow))
    );
    assert_eq!(
        Day3::part_2(schematic(&["65536*65536"])),
        Err(Error::Engine(EngineError::Overflow))
    );
}
