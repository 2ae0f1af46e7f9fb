//! The cube game: each game is a list of rounds, each round a list of withdrawals of
//! so many cubes of one colour. A game is possible with a bag that holds at least as
//! many cubes of each colour as any withdrawal takes, and the least such bag has a
//! power.

use crate::day::{Day, Error};
use crate::tally::{sum_u64, total_u64};
use crate::text::{
    chars_of, cut, cuts, fields, has_prefix, matches_at, parse_number, remove_all, same, split,
    trim, trimmed, unsigned, within, without,
};
use std::str::FromStr;
use vstd::prelude::*;
use vstd::slice::slice_subrange;

verus! {

/// Why the record of a game could not be read, or a total not be given.
#[derive(Debug, Copy, Clone, PartialEq, Eq)]
pub enum GameError {
    /// The record does not begin with `Game `.
    MissingIdentifier,
    /// The identifier or a count is not an unsigned number of its size.
    InvalidNumber,
    /// No colon follows the identifier.
    MissingRounds,
    /// A withdrawal has a count and nothing else.
    MissingColor,
    /// The colour is none of `red`, `green`, `blue`.
    UnknownColor,
    /// A sum or a product is above `u64::MAX`.
    Overflow,
}

#[derive(Debug, Copy, Clone, Eq, PartialEq)]
pub enum Color {
    Red,
    Green,
    Blue,
}

/// So many cubes of one colour, taken out of the bag together.
#[derive(Debug, Copy, Clone)]
pub struct Withdraw {
    pub count: u64,
    pub color: Color,
}

/// The withdrawals of one round.
#[derive(Debug, Clone)]
pub struct Round(pub Vec<Withdraw>);

/// One game: its number and its rounds.
#[derive(Debug, Clone)]
pub struct Game {
    pub id: u32,
    pub rounds: Vec<Round>,
}

/// A game as plain values.
pub struct GameView {
    pub id: u32,
    pub rounds: Seq<Seq<Withdraw>>,
}

/// The cubes in a bag, by colour.
pub struct Bag {
    pub red: u64,
    pub green: u64,
    pub blue: u64,
}

impl View for Round {
    type V = Seq<Withdraw>;

    open spec fn view(&self) -> Seq<Withdraw> {
        self.0@
    }
}

impl View for Game {
    type V = GameView;

    open spec fn view(&self) -> GameView {
        GameView { id: self.id, rounds: Seq::new(self.rounds@.len(), |i: int| self.rounds@[i]@) }
    }
}

/// The colour that a word names.
pub open spec fn parse_color(s: Seq<char>) -> Result<Color, GameError> {
    if s == seq!['r', 'e', 'd'] {
        Ok(Color::Red)
    } else if s == seq!['g', 'r', 'e', 'e', 'n'] {
        Ok(Color::Green)
    } else if s == seq!['b', 'l', 'u', 'e'] {
        Ok(Color::Blue)
    } else {
        Err(GameError::UnknownColor)
    }
}

/// What a withdrawal such as ` 3 blue` says: white space aside, a count, one blank
/// and a colour. What follows a second blank is not read.
pub open spec fn parse_withdraw(s: Seq<char>) -> Result<Withdraw, GameError> {
    let f = fields(trimmed(s), ' ');
    match unsigned(f[0], u64::MAX as nat) {
        None => Err(GameError::InvalidNumber),
        Some(count) => if f.len() < 2 {
            Err(GameError::MissingColor)
        } else {
            match parse_color(f[1]) {
                Err(e) => Err(e),
                Ok(color) => Ok(Withdraw { count: count as u64, color }),
            }
        },
    }
}

/// What each of a list of texts says as a withdrawal, or the first error among them.
pub open spec fn parse_withdraws(f: Seq<Seq<char>>) -> Result<Seq<Withdraw>, GameError>
    decreases f.len(),
{
    if f.len() == 0 {
        Ok(Seq::empty())
    } else {
        match parse_withdraws(f.drop_last()) {
            Err(e) => Err(e),
            Ok(v) => match parse_withdraw(f.last()) {
                Err(e) => Err(e),
                Ok(w) => Ok(v.push(w)),
            },
        }
    }
}

/// What a round says: withdrawals separated by commas.
pub open spec fn parse_round(s: Seq<char>) -> Result<Seq<Withdraw>, GameError> {
    parse_withdraws(fields(trimmed(s), ','))
}

/// What each of a list of texts says as a round, or the first error among them.
pub open spec fn parse_rounds(f: Seq<Seq<char>>) -> Result<Seq<Seq<Withdraw>>, GameError>
    decreases f.len(),
{
    if f.len() == 0 {
        Ok(Seq::empty())
    } else {
        match parse_rounds(f.drop_last()) {
            Err(e) => Err(e),
            Ok(v) => match parse_round(f.last()) {
                Err(e) => Err(e),
                Ok(r) => Ok(v.push(r)),
            },
        }
    }
}

/// The word that a record begins with.
pub open spec fn game_word() -> Seq<char> {
    seq!['G', 'a', 'm', 'e', ' ']
}

/// What a record such as `Game 3: 1 red, 2 blue; 4 green` says. The text before the
/// first colon begins with `Game `, and is the game's number once every `Game ` is
/// taken out of it. The text between the first and the second colon holds the
/// rounds, separated by semicolons.
pub open spec fn parse_game(s: Seq<char>) -> Result<GameView, GameError> {
    let f = fields(s, ':');
    if !has_prefix(f[0], game_word()) {
        Err(GameError::MissingIdentifier)
    } else {
        match unsigned(without(f[0], game_word()), u32::MAX as nat) {
            None => Err(GameError::InvalidNumber),
            Some(id) => if f.len() < 2 {
                Err(GameError::MissingRounds)
            } else {
                match parse_rounds(fields(f[1], ';')) {
                    Err(e) => Err(e),
                    Ok(rounds) => Ok(GameView { id: id as u32, rounds }),
                }
            },
        }
    }
}

/// Where the first texts of a list fail as withdrawals, the list fails in the same
/// way.
pub proof fn lemma_withdraws_prefix(f: Seq<Seq<char>>, n: int)
    requires
        0 <= n <= f.len(),
        parse_withdraws(f.take(n)) is Err,
    ensures
        parse_withdraws(f) == parse_withdraws(f.take(n)),
    decreases f.len(),
{
    if n == f.len() {
        assert(f.take(n) =~= f);
    } else {
        assert(f.drop_last().take(n) =~= f.take(n));
        lemma_withdraws_prefix(f.drop_last(), n);
    }
}

/// Where the first texts of a list fail as rounds, the list fails in the same way.
pub proof fn lemma_rounds_prefix(f: Seq<Seq<char>>, n: int)
    requires
        0 <= n <= f.len(),
        parse_rounds(f.take(n)) is Err,
    ensures
        parse_rounds(f) == parse_rounds(f.take(n)),
    decreases f.len(),
{
    if n == f.len() {
        assert(f.take(n) =~= f);
    } else {
        assert(f.drop_last().take(n) =~= f.take(n));
        lemma_rounds_prefix(f.drop_last(), n);
    }
}

impl Color {
    /// Reads the name of a colour.
    pub fn from_chars(s: &[char]) -> (r: Result<Color, GameError>)
        ensures
            r == parse_color(s@),
    {
        let red = ['r', 'e', 'd'];
        let green = ['g', 'r', 'e', 'e', 'n'];
        let blue = ['b', 'l', 'u', 'e'];
        assert(red@ =~= seq!['r', 'e', 'd']);
        assert(green@ =~= seq!['g', 'r', 'e', 'e', 'n']);
        assert(blue@ =~= seq!['b', 'l', 'u', 'e']);
        if same(s, red.as_slice()) {
            Ok(Color::Red)
        } else if same(s, green.as_slice()) {
            Ok(Color::Green)
        } else if same(s, blue.as_slice()) {
            Ok(Color::Blue)
        } else {
            Err(GameError::UnknownColor)
        }
    }
}

impl FromStr for Color {
    type Err = GameError;

    /// Reads the name of a colour.
    fn from_str(s: &str) -> (r: Result<Color, GameError>)
        ensures
            r == parse_color(s@),
    {
        let chars = chars_of(s);
        Color::from_chars(chars.as_slice())
    }
}

impl Withdraw {
    /// The bag holds at least as many cubes of the colour as are taken.
    pub open spec fn fits(&self, bag: &Bag) -> bool {
        bag.held(self.color) >= self.count
    }

    /// Reads a withdrawal.
    pub fn from_chars(s: &[char]) -> (r: Result<Withdraw, GameError>)
        ensures
            r == parse_withdraw(s@),
    {
        let (a, b) = trim(s);
        let body = slice_subrange(s, a, b);
        let parts = split(body, ' ');
        let ghost f = fields(trimmed(s@), ' ');
        assert(f[0] == cut(body@, parts@[0]));
        let count = match parse_number(slice_subrange(body, parts[0].0, parts[0].1), u64::MAX) {
            Some(v) => v,
            None => {
                return Err(GameError::InvalidNumber);
            },
        };
        if parts.len() < 2 {
            return Err(GameError::MissingColor);
        }
        assert(f[1] == cut(body@, parts@[1]));
        match Color::from_chars(slice_subrange(body, parts[1].0, parts[1].1)) {
            Ok(color) => Ok(Withdraw { count, color }),
            Err(e) => Err(e),
        }
    }

    pub fn is_possible(&self, bag: &Bag) -> (r: bool)
        ensures
            r == self.fits(bag),
    {
        bag.count_for(self.color) >= self.count
    }
}

impl FromStr for Withdraw {
    type Err = GameError;

    /// Reads a withdrawal.
    fn from_str(s: &str) -> (r: Result<Withdraw, GameError>)
        ensures
            r == parse_withdraw(s@),
    {
        let chars = chars_of(s);
        Withdraw::from_chars(chars.as_slice())
    }
}

/// Every withdrawal of the list fits the bag.
pub open spec fn all_fit(ws: Seq<Withdraw>, bag: &Bag) -> bool {
    forall|i: int| 0 <= i < ws.len() ==> (#[trigger] ws[i]).fits(bag)
}

/// Every withdrawal of every round fits the bag.
pub open spec fn rounds_fit(rounds: Seq<Seq<Withdraw>>, bag: &Bag) -> bool {
    forall|i: int| 0 <= i < rounds.len() ==> all_fit(#[trigger] rounds[i], bag)
}

impl Round {
    /// Reads a round.
    pub fn from_chars(s: &[char]) -> (r: Result<Round, GameError>)
        ensures
            match r {
                Ok(round) => parse_round(s@) == Ok::<Seq<Withdraw>, GameError>(round@),
                Err(e) => parse_round(s@) == Err::<Seq<Withdraw>, GameError>(e),
            },
    {
        let (a, b) = trim(s);
        let body = slice_subrange(s, a, b);
        let parts = split(body, ',');
        let ghost f = fields(trimmed(s@), ',');
        let mut withdraws: Vec<Withdraw> = Vec::new();
        let mut i: usize = 0;
        assert(f.take(0) =~= Seq::<Seq<char>>::empty());
        while i < parts.len()
            invariant
                i <= parts@.len(),
                f == fields(body@, ','),
                body@ == trimmed(s@),
                within(body@, parts@),
                cuts(body@, parts@) == f,
                parse_withdraws(f.take(i as int)) == Ok::<Seq<Withdraw>, GameError>(withdraws@),
            decreases parts@.len() - i,
        {
            assert(f.take(i + 1).drop_last() =~= f.take(i as int));
            assert(f.take(i + 1).last() == cut(body@, parts@[i as int]));
            match Withdraw::from_chars(slice_subrange(body, parts[i].0, parts[i].1)) {
                Ok(w) => {
                    withdraws.push(w);
                },
                Err(e) => {
                    proof {
                        lemma_withdraws_prefix(f, i + 1);
                    }
                    return Err(e);
                },
            }
            i += 1;
        }
        assert(f.take(parts@.len() as int) =~= f);
        Ok(Round(withdraws))
    }

    pub fn is_possible(&self, bag: &Bag) -> (r: bool)
        ensures
            r == all_fit(self@, bag),
    {
        let mut i: usize = 0;
        while i < self.0.len()
            invariant
                i <= self.0@.len(),
                forall|j: int| 0 <= j < i ==> (#[trigger] self.0@[j]).fits(bag),
            decreases self.0@.len() - i,
        {
            if !self.0[i].is_possible(bag) {
                return false;
            }
            i += 1;
        }
        true
    }
}

impl FromStr for Round {
    type Err = GameError;

    /// Reads a round.
    fn from_str(s: &str) -> (r: Result<Round, GameError>)
        ensures
            match r {
                Ok(round) => parse_round(s@) == Ok::<Seq<Withdraw>, GameError>(round@),
                Err(e) => parse_round(s@) == Err::<Seq<Withdraw>, GameError>(e),
            },
    {
        let chars = chars_of(s);
        Round::from_chars(chars.as_slice())
    }
}

/// The largest count of one colour among the first `n` withdrawals of a round, and at
/// least `floor`.
pub open spec fn most_of(ws: Seq<Withdraw>, color: Color, floor: u64) -> u64
    decreases ws.len(),
{
    if ws.len() == 0 {
        floor
    } else {
        let rest = most_of(ws.drop_last(), color, floor);
        if ws.last().color == color && ws.last().count > rest {
            ws.last().count
        } else {
            rest
        }
    }
}

/// The largest count of one colour that any withdrawal of any round takes; zero if
/// none takes that colour.
pub open spec fn most(rounds: Seq<Seq<Withdraw>>, color: Color) -> u64
    decreases rounds.len(),
{
    if rounds.len() == 0 {
        0
    } else {
        most_of(rounds.last(), color, most(rounds.drop_last(), color))
    }
}

impl Game {

    /// Every withdrawal of the game can be made from the bag.
    pub fn is_possible(&self, bag: &Bag) -> (r: bool)
        ensures
            r == rounds_fit(self@.rounds, bag),
    {
        let mut i: usize = 0;
        while i < self.rounds.len()
            invariant
                i <= self.rounds@.len(),
                forall|j: int| 0 <= j < i ==> all_fit(#[trigger] self@.rounds[j], bag),
            decreases self.rounds@.len() - i,
        {
            assert(self@.rounds[i as int] == self.rounds@[i as int]@);
            if !self.rounds[i].is_possible(bag) {
                return false;
            }
            i += 1;
        }
        true
    }

    /// The largest count of one colour that the game takes at once.
    fn largest(&self, color: Color) -> (r: u64)
        ensures
            r == most(self@.rounds, color),
    {
        let mut best: u64 = 0;
        let mut i: usize = 0;
        assert(self@.rounds.take(0) =~= Seq::<Seq<Withdraw>>::empty());
        while i < self.rounds.len()
            invariant
                i <= self.rounds@.len(),
                best == most(self@.rounds.take(i as int), color),
            decreases self.rounds@.len() - i,
        {
            let round = &self.rounds[i];
            let ghost floor = best;
            assert(self@.rounds.take(i + 1).drop_last() =~= self@.rounds.take(i as int));
            assert(self@.rounds.take(i + 1).last() == round@);
            let mut j: usize = 0;
            assert(round@.take(0) =~= Seq::<Withdraw>::empty());
            while j < round.0.len()
                invariant
                    j <= round@.len(),
                    best == most_of(round@.take(j as int), color, floor),
                decreases round@.len() - j,
            {
                let w = round.0[j];
                assert(round@.take(j + 1).drop_last() =~= round@.take(j as int));
                assert(round@.take(j + 1).last() == w);
                if same_color(w.color, color) && w.count > best {
                    best = w.count;
                }
                j += 1;
            }
            assert(round@.take(round@.len() as int) =~= round@);
            i += 1;
        }
        assert(self@.rounds.take(self.rounds@.len() as int) =~= self@.rounds);
        best
    }

    /// The least bag with which the game is possible: of each colour, the largest
    /// count that a withdrawal takes.
    pub fn bag(&self) -> (r: Bag)
        ensures
            r.red == most(self@.rounds, Color::Red),
            r.green == most(self@.rounds, Color::Green),
            r.blue == most(self@.rounds, Color::Blue),
    {
        let red = self.largest(Color::Red);
        let green = self.largest(Color::Green);
        let blue = self.largest(Color::Blue);
        Bag { red, green, blue }
    }
}

impl FromStr for Game {
    type Err = GameError;

    /// Reads the record of a game.
    fn from_str(s: &str) -> (r: Result<Game, GameError>)
        ensures
            match r {
                Ok(game) => parse_game(s@) == Ok::<GameView, GameError>(game@),
                Err(e) => parse_game(s@) == Err::<GameView, GameError>(e),
            },
    {
        let chars = chars_of(s);
        let line = chars.as_slice();
        let parts = split(line, ':');
        let ghost f = fields(s@, ':');
        assert(f[0] == cut(s@, parts@[0]));
        let game_start = slice_subrange(line, parts[0].0, parts[0].1);
        let prefix = ['G', 'a', 'm', 'e', ' '];
        assert(prefix@ =~= game_word());
        if !matches_at(game_start, 0, prefix.as_slice()) {
            return Err(GameError::MissingIdentifier);
        }
        let game_id = remove_all(game_start, prefix.as_slice());
        let id = match parse_number(game_id.as_slice(), 0xffff_ffff) {
            Some(v) => v as u32,
            None => {
                return Err(GameError::InvalidNumber);
            },
        };
        if parts.len() < 2 {
            return Err(GameError::MissingRounds);
        }
        assert(f[1] == cut(s@, parts@[1]));
        let body = slice_subrange(line, parts[1].0, parts[1].1);
        let pieces = split(body, ';');
        let ghost g = fields(f[1], ';');
        let mut rounds: Vec<Round> = Vec::new();
        let mut i: usize = 0;
        assert(g.take(0) =~= Seq::<Seq<char>>::empty());
        assert(Seq::new(rounds@.len(), |j: int| rounds@[j]@) =~= Seq::<Seq<Withdraw>>::empty());
        while i < pieces.len()
            invariant
                i <= pieces@.len(),
                g == fields(body@, ';'),
                f == fields(s@, ':'),
                f.len() >= 2,
                body@ == f[1],
                has_prefix(f[0], game_word()),
                unsigned(without(f[0], game_word()), u32::MAX as nat) == Some(id as nat),
                within(body@, pieces@),
                cuts(body@, pieces@) == g,
                parse_rounds(g.take(i as int)) == Ok::<Seq<Seq<Withdraw>>, GameError>(
                    Seq::new(rounds@.len(), |j: int| rounds@[j]@),
                ),
            decreases pieces@.len() - i,
        {
            assert(g.take(i + 1).drop_last() =~= g.take(i as int));
            assert(g.take(i + 1).last() == cut(body@, pieces@[i as int]));
            let ghost before = Seq::new(rounds@.len(), |j: int| rounds@[j]@);
            match Round::from_chars(slice_subrange(body, pieces[i].0, pieces[i].1)) {
                Ok(round) => {
                    let ghost view = round@;
                    rounds.push(round);
                    assert(Seq::new(rounds@.len(), |j: int| rounds@[j]@) =~= before.push(view));
                },
                Err(e) => {
                    proof {
                        lemma_rounds_prefix(g, i + 1);
                    }
                    return Err(e);
                },
            }
            i += 1;
        }
        assert(g.take(pieces@.len() as int) =~= g);
        Ok(Game { id, rounds })
    }
}

/// Tells whether two colours are the same.
fn same_color(a: Color, b: Color) -> (r: bool)
    ensures
        r == (a == b),
{
    match (a, b) {
        (Color::Red, Color::Red) => true,
        (Color::Green, Color::Green) => true,
        (Color::Blue, Color::Blue) => true,
        _ => false,
    }
}

impl Bag {
    /// How many cubes of a colour the bag holds.
    pub open spec fn held(&self, color: Color) -> u64 {
        match color {
            Color::Red => self.red,
            Color::Green => self.green,
            Color::Blue => self.blue,
        }
    }

    /// The product of the three counts.
    pub open spec fn product(&self) -> int {
        self.red * self.green * self.blue
    }

    pub fn count_for(&self, color: Color) -> (r: u64)
        ensures
            r == self.held(color),
    {
        match color {
            Color::Red => self.red,
            Color::Green => self.green,
            Color::Blue => self.blue,
        }
    }

    /// The power of the bag: the product of its three counts.
    pub fn power(&self) -> (r: u64)
        requires
            self.product() <= u64::MAX,
        ensures
            r == self.product(),
    {
        match self.checked_power() {
            Some(v) => v,
            None => 0,
        }
    }

    /// The power of the bag, unless it is above `u64::MAX`.
    pub fn checked_power(&self) -> (r: Option<u64>)
        ensures
            r is Some <==> self.product() <= u64::MAX,
            r is Some ==> r->0 == self.product(),
    {
        if self.red == 0 || self.green == 0 || self.blue == 0 {
            assert(self.red * self.green * self.blue == 0) by (nonlinear_arith)
                requires
                    self.red == 0 || self.green == 0 || self.blue == 0,
            ;
            return Some(0);
        }
        assert(self.red * self.green * self.blue >= self.red * self.green) by (nonlinear_arith)
            requires
                self.blue >= 1,
        ;
        match self.red.checked_mul(self.green) {
            Some(first) => first.checked_mul(self.blue),
            None => None,
        }
    }
}

/// The games of a list as plain values.
pub open spec fn views(games: Seq<Game>) -> Seq<GameView> {
    Seq::new(games.len(), |i: int| games[i]@)
}

/// The bag that the games are measured against: 12 red, 13 green and 14 blue cubes.
pub open spec fn elf_bag() -> Bag {
    Bag { red: 12, green: 13, blue: 14 }
}

/// What a game adds to the first answer: its number if it is possible with the
/// bag, else nothing.
pub open spec fn id_if_possible(game: GameView) -> u64 {
    if rounds_fit(game.rounds, &elf_bag()) {
        game.id as u64
    } else {
        0
    }
}

/// The power of the least bag with which a game is possible.
pub open spec fn least_power(game: GameView) -> int {
    most(game.rounds, Color::Red) * most(game.rounds, Color::Green) * most(
        game.rounds,
        Color::Blue,
    )
}

/// The sum of the numbers of the possible games.
pub open spec fn possible_sum(games: Seq<GameView>) -> Result<u64, GameError> {
    let ids = Seq::new(games.len(), |i: int| id_if_possible(games[i]));
    if total_u64(ids) > u64::MAX {
        Err(GameError::Overflow)
    } else {
        Ok(total_u64(ids) as u64)
    }
}

/// The sum of the powers of the least bags of the games.
pub open spec fn power_sum(games: Seq<GameView>) -> Result<u64, GameError> {
    let powers = Seq::new(games.len(), |i: int| least_power(games[i]) as u64);
    if exists|i: int| 0 <= i < games.len() && #[trigger] least_power(games[i]) > u64::MAX {
        Err(GameError::Overflow)
    } else if total_u64(powers) > u64::MAX {
        Err(GameError::Overflow)
    } else {
        Ok(total_u64(powers) as u64)
    }
}

/// Wraps a game result for the puzzle's caller.
pub open spec fn answer(r: Result<u64, GameError>) -> Result<u64, Error> {
    match r {
        Ok(v) => Ok(v),
        Err(e) => Err(Error::Game(e)),
    }
}

/// The cube game puzzle.
pub struct Day2;

impl Day for Day2 {
    type Item = Game;

    type Answer = u64;

    const DAY: usize = 2;

    open spec fn solves_part_1() -> bool {
        true
    }

    open spec fn solves_part_2() -> bool {
        true
    }

    /// The sum of the numbers of the games that are possible with 12 red, 13 green
    /// and 14 blue cubes.
    fn part_1(games: Vec<Game>) -> (r: Result<u64, Error>)
        ensures
            r == answer(possible_sum(views(games@))),
    {
        let bag = Bag { red: 12, green: 13, blue: 14 };
        let ghost all = Seq::new(games@.len(), |i: int| id_if_possible(views(games@)[i]));
        let mut ids: Vec<u64> = Vec::new();
        let mut i: usize = 0;
        while i < games.len()
            invariant
                i <= games@.len(),
                bag == elf_bag(),
                all == Seq::new(games@.len(), |i: int| id_if_possible(views(games@)[i])),
                ids@ == all.take(i as int),
            decreases games@.len() - i,
        {
            let id: u64 = if games[i].is_possible(&bag) {
                games[i].id as u64
            } else {
                0
            };
            ids.push(id);
            assert(ids@ =~= all.take(i + 1));
            i += 1;
        }
        assert(all.take(games@.len() as int) =~= all);
        match sum_u64(ids.as_slice()) {
            Some(total) => Ok(total),
            None => Err(Error::Game(GameError::Overflow)),
        }
    }

    /// The sum of the powers of the least bags of all games.
    fn part_2(games: Vec<Game>) -> (r: Result<u64, Error>)
        ensures
            r == answer(power_sum(views(games@))),
    {
        let ghost v = views(games@);
        let ghost all = Seq::new(games@.len(), |i: int| least_power(v[i]) as u64);
        let mut powers: Vec<u64> = Vec::new();
        let mut i: usize = 0;
        while i < games.len()
            invariant
                i <= games@.len(),
                v == views(games@),
                all == Seq::new(games@.len(), |i: int| least_power(v[i]) as u64),
                powers@ == all.take(i as int),
                forall|j: int| 0 <= j < i ==> #[trigger] least_power(v[j]) <= u64::MAX,
            decreases games@.len() - i,
        {
            let bag = games[i].bag();
            assert(bag.product() == least_power(v[i as int]));
            match bag.checked_power() {
                Some(power) => {
                    powers.push(power);
                },
                None => {
                    return Err(Error::Game(GameError::Overflow));
                },
            }
            assert(powers@ =~= all.take(i + 1));
            i += 1;
        }
        assert(all.take(games@.len() as int) =~= all);
        match sum_u64(powers.as_slice()) {
            Some(total) => Ok(total),
            None => Err(Error::Game(GameError::Overflow)),
        }
    }
}

} // verus!
