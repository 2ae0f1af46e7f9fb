//! The engine schematic: lines lexed into numbers and single characters, laid out as
//! a grid, in which a number counts as a part when a symbol stands next to it, and a
//! `*` is a gear when exactly two numbers stand next to it.

use crate::day::{Day, Error};
use crate::first::first_at;
use crate::tally::{sum_u32, total_u32};
use crate::text::{
    all_digits, chars_of, decimal, digit_of, digit_run, digit_value, is_digit, lemma_digit_run,
    parse_number, somes, unsigned_body,
};
use std::str::FromStr;
use vstd::prelude::*;
use vstd::slice::slice_subrange;
use vstd::std_specs::convert::FromSpecImpl;
use vstd::string::StrSliceExecFns;
use vstd::utf8::encode_utf8;

verus! {

/// Why a schematic could not be read or laid out.
#[derive(Debug, Copy, Clone, PartialEq, Eq)]
pub enum EngineError {
    /// A run of digits spells a number above `u32::MAX`.
    NumberTooLarge,
    /// There is no line, the first line is empty, or the pieces do not fit the grid.
    BrokenEngine,
    /// A sum or a product is above `u32::MAX`.
    Overflow,
}

/// One character of the grid.
#[derive(Debug, Clone, Copy, Eq, PartialEq)]
pub enum RawPiece {
    Digit(u32),
    Char(char),
}

impl RawPiece {
    /// Any character that is neither a digit nor a dot.
    pub open spec fn symbol(&self) -> bool {
        match self {
            RawPiece::Char(c) => *c != '.',
            RawPiece::Digit(_) => false,
        }
    }

    /// The character `*`.
    pub open spec fn gear(&self) -> bool {
        *self == RawPiece::Char('*')
    }

    /// What a character is in the grid: a digit with its value, or itself.
    pub open spec fn of(value: char) -> RawPiece {
        if is_digit(value) {
            RawPiece::Digit(digit_value(value) as u32)
        } else {
            RawPiece::Char(value)
        }
    }

    pub fn is_symbol(&self) -> (r: bool)
        ensures
            r == self.symbol(),
    {
        match self {
            RawPiece::Char(c) => *c != '.',
            _ => false,
        }
    }

    pub fn is_gear(&self) -> (r: bool)
        ensures
            r == self.gear(),
    {
        match self {
            RawPiece::Char(c) => *c == '*',
            _ => false,
        }
    }
}

impl From<char> for RawPiece {
    fn from(value: char) -> (r: RawPiece) {
        match digit_of(value) {
            Some(d) => RawPiece::Digit(d),
            None => RawPiece::Char(value),
        }
    }
}

impl FromSpecImpl<char> for RawPiece {
    open spec fn obeys_from_spec() -> bool {
        true
    }

    open spec fn from_spec(value: char) -> RawPiece {
        RawPiece::of(value)
    }
}

/// One token of a line: a number with the count of its digits, or a single character.
#[derive(Debug, Copy, Clone, Eq, PartialEq)]
pub enum Piece {
    Number(u32, usize),
    Char(char),
}

impl Piece {
    /// Any character but the dot; a number is no symbol.
    pub open spec fn symbol(&self) -> bool {
        match self {
            Piece::Char(c) => *c != '.',
            Piece::Number(_, _) => false,
        }
    }

    /// How many characters of the line the piece takes.
    pub open spec fn width(&self) -> int {
        match self {
            Piece::Number(_, len) => *len as int,
            Piece::Char(_) => 1,
        }
    }

    pub fn is_symbol(&self) -> (r: bool)
        ensures
            r == self.symbol(),
    {
        match self {
            Piece::Char(c) => *c != '.',
            _ => false,
        }
    }
}

/// The first token of `s` and what follows it: the longest run of digits as a number,
/// or else one character. `None` at the end of the text; an error where the digits
/// spell a number above `u32::MAX`.
pub open spec fn lexed(s: Seq<char>) -> Option<Result<(Piece, Seq<char>), EngineError>> {
    if s.len() == 0 {
        None
    } else if is_digit(s[0]) {
        let n = digit_run(s);
        if decimal(s.take(n)) <= u32::MAX {
            Some(Ok((Piece::Number(decimal(s.take(n)) as u32, n as usize), s.skip(n))))
        } else {
            Some(Err(EngineError::NumberTooLarge))
        }
    } else {
        Some(Ok((Piece::Char(s[0]), s.skip(1))))
    }
}

/// Takes the first token off a text.
pub fn lex(s: &str) -> (r: Option<Result<(Piece, &str), EngineError>>)
    ensures
        match r {
            None => lexed(s@) is None,
            Some(Err(e)) => lexed(s@) == Some(Err::<(Piece, Seq<char>), EngineError>(e)),
            Some(Ok(token)) => lexed(s@) == Some(
                Ok::<(Piece, Seq<char>), EngineError>((token.0, token.1@)),
            ),
        },
        r matches Some(Ok(token)) ==> token.1@.len() < s@.len(),
{
    let chars = chars_of(s);
    let n: usize = chars.len();
    if n == 0 {
        return None;
    }
    let first = chars[0];
    if digit_of(first).is_some() {
        let mut end: usize = 1;
        while end < n && digit_of(chars[end]).is_some()
            invariant
                1 <= end <= n,
                n == chars@.len(),
                forall|i: int| 0 <= i < end ==> is_digit(chars@[i]),
            decreases n - end,
        {
            end += 1;
        }
        proof {
            lemma_digit_run(chars@, end as int);
        }
        let digits = slice_subrange(chars.as_slice(), 0, end);
        assert(digits@ =~= s@.take(end as int));
        assert(unsigned_body(digits@) == digits@);
        assert(all_digits(digits@));
        match parse_number(digits, 0xffff_ffff) {
            Some(number) => {
                let rest = s.substring_char(end, n);
                assert(rest@ =~= s@.skip(end as int));
                Some(Ok((Piece::Number(number as u32, end), rest)))
            },
            None => Some(Err(EngineError::NumberTooLarge)),
        }
    } else {
        let rest = s.substring_char(1, n);
        assert(rest@ =~= s@.skip(1));
        Some(Ok((Piece::Char(first), rest)))
    }
}

/// The tokens of a whole line, or the error of the first run of digits that spells
/// too large a number.
pub open spec fn pieces_of(s: Seq<char>) -> Result<Seq<Piece>, EngineError>
    decreases s.len(),
{
    match lexed(s) {
        None => Ok(Seq::empty()),
        Some(Err(e)) => Err(e),
        Some(Ok(token)) => if token.1.len() < s.len() {
            match pieces_of(token.1) {
                Ok(rest) => Ok(seq![token.0] + rest),
                Err(e) => Err(e),
            }
        } else {
            Ok(seq![token.0])
        },
    }
}

/// One line of the schematic: its tokens, and its text.
#[derive(Debug, Clone)]
pub struct Fragment {
    pub pieces: Vec<Piece>,
    pub raw: String,
}

impl FromStr for Fragment {
    type Err = EngineError;

    /// Lexes one line of the schematic.
    fn from_str(s: &str) -> (r: Result<Fragment, EngineError>)
        ensures
            match r {
                Ok(fragment) => pieces_of(s@) == Ok::<Seq<Piece>, EngineError>(fragment.pieces@)
                    && fragment.raw@ == s@,
                Err(e) => pieces_of(s@) == Err::<Seq<Piece>, EngineError>(e),
            },
    {
        let mut pieces: Vec<Piece> = Vec::new();
        let mut rest: &str = s;
        loop
            invariant
                pieces_of(s@) == (match pieces_of(rest@) {
                    Ok(more) => Ok::<Seq<Piece>, EngineError>(pieces@ + more),
                    Err(e) => Err(e),
                }),
            decreases rest@.len(),
        {
            match lex(rest) {
                None => {
                    assert(pieces@ + Seq::<Piece>::empty() =~= pieces@);
                    return Ok(Fragment { pieces, raw: s.to_owned() });
                },
                Some(Err(e)) => {
                    return Err(e);
                },
                Some(Ok((piece, remainder))) => {
                    let ghost before = pieces@;
                    pieces.push(piece);
                    proof {
                        match pieces_of(remainder@) {
                            Ok(more) => {
                                assert(before + (seq![piece] + more) =~= pieces@ + more);
                            },
                            Err(e) => {},
                        }
                    }
                    rest = remainder;
                },
            }
        }
    }
}

/// A coordinate moved by one step, if it stays a coordinate.
pub open spec fn shifted(x: usize, d: int) -> Option<usize> {
    if 0 <= x + d <= usize::MAX {
        Some((x + d) as usize)
    } else {
        None
    }
}

/// The eight directions, as row and column steps: left, right, up, down, then the
/// four diagonals.
pub open spec fn direction(k: int) -> (int, int) {
    if k == 0 {
        (0, -1)
    } else if k == 1 {
        (0, 1)
    } else if k == 2 {
        (-1, 0)
    } else if k == 3 {
        (1, 0)
    } else if k == 4 {
        (-1, -1)
    } else if k == 5 {
        (-1, 1)
    } else if k == 6 {
        (1, -1)
    } else {
        (1, 1)
    }
}

/// The cell next to `(x, y)` in direction `k`, if both its coordinates exist.
pub open spec fn neighbour(x: usize, y: usize, k: int) -> Option<(usize, usize)> {
    match (shifted(x, direction(k).0), shifted(y, direction(k).1)) {
        (Some(a), Some(b)) => Some((a, b)),
        _ => None,
    }
}

/// The cells next to `(x, y)`, in the order of the directions.
pub open spec fn neighbours(x: usize, y: usize) -> Seq<(usize, usize)> {
    somes(Seq::new(8, |k: int| neighbour(x, y, k)))
}

/// Moves a coordinate by one step of -1, 0 or 1.
fn shift(x: usize, d: i8) -> (r: Option<usize>)
    requires
        -1 <= d <= 1,
    ensures
        r == shifted(x, d as int),
{
    if d < 0 {
        if x == 0 {
            None
        } else {
            Some(x - 1)
        }
    } else if d > 0 {
        if x == usize::MAX {
            None
        } else {
            Some(x + 1)
        }
    } else {
        Some(x)
    }
}

/// The step of direction `k`.
fn step(k: usize) -> (r: (i8, i8))
    requires
        k < 8,
    ensures
        r.0 == direction(k as int).0,
        r.1 == direction(k as int).1,
{
    if k == 0 {
        (0, -1)
    } else if k == 1 {
        (0, 1)
    } else if k == 2 {
        (-1, 0)
    } else if k == 3 {
        (1, 0)
    } else if k == 4 {
        (-1, -1)
    } else if k == 5 {
        (-1, 1)
    } else if k == 6 {
        (1, -1)
    } else {
        (1, 1)
    }
}

/// The cells next to `(x, y)`: left, right, up, down, then the four diagonals, without
/// those that would have a coordinate below zero or above `usize::MAX`.
pub fn get_adjacent_indexes(x: usize, y: usize) -> (r: Vec<(usize, usize)>)
    ensures
        r@ == neighbours(x, y),
{
    let ghost all = Seq::new(8, |k: int| neighbour(x, y, k));
    let mut out: Vec<(usize, usize)> = Vec::new();
    let mut k: usize = 0;
    assert(all.take(0) =~= Seq::<Option<(usize, usize)>>::empty());
    while k < 8
        invariant
            k <= 8,
            all == Seq::new(8, |k: int| neighbour(x, y, k)),
            out@ == somes(all.take(k as int)),
        decreases 8 - k,
    {
        let (dx, dy) = step(k);
        assert(all.take(k + 1).drop_last() =~= all.take(k as int));
        assert(all.take(k + 1).last() == neighbour(x, y, k as int));
        match (shift(x, dx), shift(y, dy)) {
            (Some(a), Some(b)) => {
                out.push((a, b));
            },
            _ => {},
        }
        k += 1;
    }
    assert(all.take(8) =~= all);
    out
}

/// The tokens of all lines, in order.
pub open spec fn all_pieces(fragments: Seq<Fragment>) -> Seq<Piece>
    decreases fragments.len(),
{
    if fragments.len() == 0 {
        Seq::empty()
    } else {
        all_pieces(fragments.drop_last()) + fragments.last().pieces@
    }
}

/// The grid cells that a text makes, character by character.
pub open spec fn cells_of(s: Seq<char>) -> Seq<RawPiece> {
    Seq::new(s.len(), |i: int| RawPiece::of(s[i]))
}

/// The grid cells of all lines, row after row.
pub open spec fn all_cells(fragments: Seq<Fragment>) -> Seq<RawPiece>
    decreases fragments.len(),
{
    if fragments.len() == 0 {
        Seq::empty()
    } else {
        all_cells(fragments.drop_last()) + cells_of(fragments.last().raw@)
    }
}

/// The schematic as a whole: the tokens of all lines, the width of a row, and the
/// cells of the grid row after row.
#[derive(Debug)]
pub struct Engine {
    pub pieces: Vec<Piece>,
    pub columns: usize,
    pub raw: Vec<RawPiece>,
}

/// One gear cell in the books: where it is, and the numbers found next to it so far.
pub struct Mesh {
    pub cell: (usize, usize),
    pub numbers: Seq<u32>,
}

/// Tells of each entry of the books whether it is the one of `cell`.
pub open spec fn is_cell(book: Seq<Mesh>, cell: (usize, usize)) -> spec_fn(int) -> bool {
    |i: int| book[i].cell == cell
}

/// The books after a number was found next to `cell`: the entry of the cell has one
/// number more, or a new entry is added at the end.
pub open spec fn noted(book: Seq<Mesh>, cell: (usize, usize), n: u32) -> Seq<Mesh> {
    let i = first_at(is_cell(book, cell), 0, book.len() as int);
    if 0 <= i < book.len() {
        book.update(i, Mesh { cell, numbers: book[i].numbers.push(n) })
    } else {
        book.push(Mesh { cell, numbers: seq![n] })
    }
}

/// The books after a number was found next to each of `cells`, in their order.
pub open spec fn noted_all(book: Seq<Mesh>, cells: Seq<(usize, usize)>, n: u32) -> Seq<Mesh>
    decreases cells.len(),
{
    if cells.len() == 0 {
        book
    } else {
        noted(noted_all(book, cells.drop_last(), n), cells.last(), n)
    }
}

/// The product of the two numbers of each gear that has exactly two, in the order of
/// the books; an error if one of the products is above `u32::MAX`.
pub open spec fn ratios(book: Seq<Mesh>) -> Result<Seq<u32>, EngineError>
    decreases book.len(),
{
    if book.len() == 0 {
        Ok(Seq::empty())
    } else {
        match ratios(book.drop_last()) {
            Err(e) => Err(e),
            Ok(v) => {
                let last = book.last().numbers;
                if last.len() != 2 {
                    Ok(v)
                } else if last[0] * last[1] > u32::MAX {
                    Err(EngineError::Overflow)
                } else {
                    Ok(v.push((last[0] * last[1]) as u32))
                }
            },
        }
    }
}

/// The schematic that a list of lines makes: the tokens of all lines, the grid cells
/// of all lines, and for the width of a row the length of the first line in bytes.
pub open spec fn crafted(fragments: Seq<Fragment>) -> EngineView {
    EngineView {
        pieces: all_pieces(fragments),
        columns: encode_utf8(fragments[0].raw@).len() as usize,
        raw: all_cells(fragments),
    }
}

/// The schematic as plain values.
pub struct EngineView {
    pub pieces: Seq<Piece>,
    pub columns: usize,
    pub raw: Seq<RawPiece>,
}

impl View for Engine {
    type V = EngineView;

    open spec fn view(&self) -> EngineView {
        EngineView { pieces: self.pieces@, columns: self.columns, raw: self.raw@ }
    }
}

impl EngineView {
    /// The cell in row `x` and column `y`, counted along the rows. A column past the
    /// width of a row is a cell of a later row.
    pub open spec fn cell(&self, x: int, y: int) -> Option<RawPiece> {
        let i = x * self.columns + y;
        if 0 <= i < self.raw.len() {
            Some(self.raw[i])
        } else {
            None
        }
    }

    /// How many characters the first `k` tokens take.
    pub open spec fn offset(&self, k: int) -> int
        decreases k,
    {
        if k <= 0 {
            0
        } else {
            self.offset(k - 1) + self.pieces[k - 1].width()
        }
    }

    /// The grid has rows, and the tokens take no more characters than can be counted.
    pub open spec fn wf(&self) -> bool {
        self.columns > 0 && self.offset(self.pieces.len() as int) <= usize::MAX
    }

    /// The row in which token `k` begins.
    pub open spec fn row(&self, k: int) -> usize {
        (self.offset(k) / self.columns as int) as usize
    }

    /// The column at which the digit `y` of token `k` stands.
    pub open spec fn column(&self, k: int, y: int) -> usize {
        (self.offset(k) % self.columns as int + y) as usize
    }

    /// A symbol stands in this cell.
    pub open spec fn symbol_at(&self, c: (usize, usize)) -> bool {
        self.cell(c.0 as int, c.1 as int) matches Some(p) && p.symbol()
    }

    /// A gear stands in this cell.
    pub open spec fn gear_at(&self, c: (usize, usize)) -> bool {
        self.cell(c.0 as int, c.1 as int) matches Some(p) && p.gear()
    }

    /// A symbol stands next to the cell `(x, y)`.
    pub open spec fn symbol_near(&self, x: usize, y: usize) -> bool {
        exists|i: int|
            0 <= i < neighbours(x, y).len() && self.symbol_at(#[trigger] neighbours(x, y)[i])
    }

    /// A symbol stands next to the digit `y` of token `k`.
    pub open spec fn digit_near_symbol(&self, k: int, y: int) -> bool {
        self.symbol_near(self.row(k), self.column(k, y))
    }

    /// Token `k` is a number with a symbol next to one of its digits.
    pub open spec fn is_part(&self, k: int) -> bool {
        match self.pieces[k] {
            Piece::Number(_, len) => exists|y: int|
                0 <= y < len && #[trigger] self.digit_near_symbol(k, y),
            Piece::Char(_) => false,
        }
    }

    /// The numbers among the first `k` tokens that are parts, in order.
    pub open spec fn parts_upto(&self, k: int) -> Seq<u32>
        decreases k,
    {
        if k <= 0 {
            Seq::empty()
        } else {
            match self.pieces[k - 1] {
                Piece::Number(n, _) => if self.is_part(k - 1) {
                    self.parts_upto(k - 1).push(n)
                } else {
                    self.parts_upto(k - 1)
                },
                Piece::Char(_) => self.parts_upto(k - 1),
            }
        }
    }

    /// Of each cell next to `(x, y)`, the cell itself if a gear stands in it.
    pub open spec fn gear_picks(&self, x: usize, y: usize) -> Seq<Option<(usize, usize)>> {
        Seq::new(
            neighbours(x, y).len(),
            |i: int|
                if self.gear_at(neighbours(x, y)[i]) {
                    Some(neighbours(x, y)[i])
                } else {
                    None
                },
        )
    }

    /// The gear cells next to `(x, y)`, in the order of the directions.
    pub open spec fn gears_near(&self, x: usize, y: usize) -> Seq<(usize, usize)> {
        somes(self.gear_picks(x, y))
    }

    /// Tells of each digit of token `k` whether a gear stands next to it.
    pub open spec fn geared(&self, k: int) -> spec_fn(int) -> bool {
        |y: int| self.gears_near(self.row(k), self.column(k, y)).len() > 0
    }

    /// The gear cells that token `k` counts for: those next to the first of its digits
    /// that has any. A character counts for none.
    pub open spec fn hits(&self, k: int) -> Seq<(usize, usize)> {
        match self.pieces[k] {
            Piece::Number(_, len) => {
                let y = first_at(self.geared(k), 0, len as int);
                if 0 <= y < len {
                    self.gears_near(self.row(k), self.column(k, y))
                } else {
                    Seq::empty()
                }
            },
            Piece::Char(_) => Seq::empty(),
        }
    }

    /// The books after the first `k` tokens: the gear cells in the order in which a
    /// number first counted for them, each with the numbers that count for it.
    pub open spec fn book_upto(&self, k: int) -> Seq<Mesh>
        decreases k,
    {
        if k <= 0 {
            Seq::empty()
        } else {
            match self.pieces[k - 1] {
                Piece::Number(n, _) => noted_all(self.book_upto(k - 1), self.hits(k - 1), n),
                Piece::Char(_) => self.book_upto(k - 1),
            }
        }
    }
}

impl Engine {
    /// The grid has rows, and the tokens take no more characters than can be counted.
    pub open spec fn wf(&self) -> bool {
        self@.wf()
    }

    /// Lays the lines out as one schematic. The width of a row is the length of the
    /// first line in bytes.
    pub fn craft(fragments: Vec<Fragment>) -> (r: Result<Engine, EngineError>)
        ensures
            match r {
                Ok(engine) => fragments@.len() > 0 && engine@ == crafted(fragments@),
                Err(e) => fragments@.len() == 0 && e == EngineError::BrokenEngine,
            },
    {
        if fragments.len() == 0 {
            return Err(EngineError::BrokenEngine);
        }
        let columns: usize = fragments[0].raw.as_str().as_bytes().len();
        let mut pieces: Vec<Piece> = Vec::new();
        let mut raw: Vec<RawPiece> = Vec::new();
        let mut i: usize = 0;
        assert(fragments@.take(0) =~= Seq::<Fragment>::empty());
        while i < fragments.len()
            invariant
                i <= fragments@.len(),
                pieces@ == all_pieces(fragments@.take(i as int)),
                raw@ == all_cells(fragments@.take(i as int)),
            decreases fragments@.len() - i,
        {
            let fragment = &fragments[i];
            let ghost front = fragments@.take(i as int);
            assert(fragments@.take(i + 1).drop_last() =~= front);
            assert(fragments@.take(i + 1).last() == *fragment);
            let mut j: usize = 0;
            while j < fragment.pieces.len()
                invariant
                    j <= fragment.pieces@.len(),
                    pieces@ == all_pieces(front) + fragment.pieces@.take(j as int),
                decreases fragment.pieces@.len() - j,
            {
                pieces.push(fragment.pieces[j]);
                assert(pieces@ =~= all_pieces(front) + fragment.pieces@.take(j + 1));
                j += 1;
            }
            assert(fragment.pieces@.take(fragment.pieces@.len() as int) =~= fragment.pieces@);
            let chars = chars_of(fragment.raw.as_str());
            let ghost cells = cells_of(fragment.raw@);
            let mut c: usize = 0;
            while c < chars.len()
                invariant
                    c <= chars@.len(),
                    chars@ == fragment.raw@,
                    cells == cells_of(fragment.raw@),
                    raw@ == all_cells(front) + cells.take(c as int),
                decreases chars@.len() - c,
            {
                raw.push(RawPiece::from(chars[c]));
                assert(raw@ =~= all_cells(front) + cells.take(c + 1));
                c += 1;
            }
            assert(cells.take(chars@.len() as int) =~= cells);
            i += 1;
        }
        assert(fragments@.take(fragments@.len() as int) =~= fragments@);
        Ok(Engine { pieces, columns, raw })
    }

    /// The cell in row `x` and column `y`, if the grid has it.
    pub fn get_raw(&self, x: usize, y: usize) -> (r: Option<RawPiece>)
        ensures
            r == self@.cell(x as int, y as int),
    {
        let n: usize = self.raw.len();
        match x.checked_mul(self.columns) {
            Some(p) => match p.checked_add(y) {
                Some(i) => if i < n {
                    Some(self.raw[i])
                } else {
                    None
                },
                None => None,
            },
            None => None,
        }
    }

    /// The row and the column of the cell at position `idx` along the rows.
    pub fn map_index(&self, idx: usize) -> (r: (usize, usize))
        requires
            self.columns > 0,
        ensures
            r.0 == idx / self.columns,
            r.1 == idx % self.columns,
    {
        (idx / self.columns, idx % self.columns)
    }
}

/// What is kept of a gear cell while the tokens are gone through: how many numbers
/// were found next to it, up to three, and the first two of them.
#[derive(Clone, Copy)]
struct Entry {
    cell: (usize, usize),
    count: u8,
    first: u32,
    second: u32,
}

/// The entry holds what the books say of its cell.
spec fn keeps(e: Entry, m: Mesh) -> bool {
    &&& e.cell == m.cell
    &&& e.count == (if m.numbers.len() < 3 { m.numbers.len() as int } else { 3 })
    &&& m.numbers.len() >= 1 ==> e.first == m.numbers[0]
    &&& m.numbers.len() >= 2 ==> e.second == m.numbers[1]
}

/// The entries hold what the books say, cell by cell.
spec fn keeps_all(entries: Seq<Entry>, book: Seq<Mesh>) -> bool {
    &&& entries.len() == book.len()
    &&& forall|i: int| 0 <= i < entries.len() ==> keeps(#[trigger] entries[i], book[i])
}

/// Notes that the number `n` was found next to `cell`.
fn note(entries: &mut Vec<Entry>, cell: (usize, usize), n: u32, Ghost(book): Ghost<Seq<Mesh>>)
    requires
        keeps_all(old(entries)@, book),
    ensures
        keeps_all(final(entries)@, noted(book, cell, n)),
{
    let mut i: usize = 0;
    while i < entries.len()
        invariant
            i <= entries@.len(),
            entries@ == old(entries)@,
            keeps_all(entries@, book),
            first_at(is_cell(book, cell), 0, book.len() as int) == first_at(
                is_cell(book, cell),
                i as int,
                book.len() as int,
            ),
        decreases entries@.len() - i,
    {
        let e = entries[i];
        assert(keeps(entries@[i as int], book[i as int]));
        assert(is_cell(book, cell)(i as int) == (e.cell == cell));
        if e.cell.0 == cell.0 && e.cell.1 == cell.1 {
            let updated = Entry {
                cell: e.cell,
                count: if e.count < 3 {
                    e.count + 1
                } else {
                    3
                },
                first: if e.count == 0 {
                    n
                } else {
                    e.first
                },
                second: if e.count == 1 {
                    n
                } else {
                    e.second
                },
            };
            entries.set(i, updated);
            proof {
                let after = noted(book, cell, n);
                assert forall|j: int| 0 <= j < entries@.len() implies keeps(
                    #[trigger] entries@[j],
                    after[j],
                ) by {
                    if j != i {
                        assert(keeps(old(entries)@[j], book[j]));
                    }
                }
            }
            return ;
        }
        i += 1;
    }
    entries.push(Entry { cell, count: 1, first: n, second: 0 });
    proof {
        let after = noted(book, cell, n);
        assert forall|j: int| 0 <= j < entries@.len() implies keeps(
            #[trigger] entries@[j],
            after[j],
        ) by {
            if j < book.len() {
                assert(keeps(old(entries)@[j], book[j]));
            }
        }
    }
}

/// Where the products of the first entries of the books fail, those of all fail.
proof fn lemma_ratios_prefix(book: Seq<Mesh>, n: int)
    requires
        0 <= n <= book.len(),
        ratios(book.take(n)) is Err,
    ensures
        ratios(book) == ratios(book.take(n)),
    decreases book.len(),
{
    if n == book.len() {
        assert(book.take(n) =~= book);
    } else {
        assert(book.drop_last().take(n) =~= book.take(n));
        lemma_ratios_prefix(book.drop_last(), n);
    }
}

impl EngineView {
    /// The tokens up to a later one take no fewer characters.
    pub proof fn lemma_offset_grows(&self, k: int, n: int)
        requires
            0 <= k <= n,
        ensures
            0 <= self.offset(k) <= self.offset(n),
        decreases n,
    {
        if k < n {
            self.lemma_offset_grows(k, n - 1);
        } else if k > 0 {
            self.lemma_offset_grows(k - 1, n - 1);
        }
    }

}

impl Engine {
    /// Tests whether the grid has rows and the tokens can be counted along it.
    pub fn is_sound(&self) -> (r: bool)
        ensures
            r == self.wf(),
    {
        if self.columns == 0 {
            return false;
        }
        let mut total: usize = 0;
        let mut k: usize = 0;
        while k < self.pieces.len()
            invariant
                k <= self.pieces@.len(),
                total == self@.offset(k as int),
            decreases self.pieces@.len() - k,
        {
            let width: usize = match self.pieces[k] {
                Piece::Number(_, len) => len,
                Piece::Char(_) => 1,
            };
            match total.checked_add(width) {
                Some(t) => {
                    total = t;
                },
                None => {
                    proof {
                        self@.lemma_offset_grows(k + 1, self.pieces@.len() as int);
                    }
                    return false;
                },
            }
            k += 1;
        }
        true
    }

    /// Tests whether a symbol stands next to the cell `(x, y)`.
    fn touches_symbol(&self, x: usize, y: usize) -> (r: bool)
        ensures
            r == self@.symbol_near(x, y),
    {
        let adj = get_adjacent_indexes(x, y);
        let mut i: usize = 0;
        while i < adj.len()
            invariant
                i <= adj@.len(),
                adj@ == neighbours(x, y),
                forall|j: int| 0 <= j < i ==> !self@.symbol_at(#[trigger] adj@[j]),
            decreases adj@.len() - i,
        {
            let (a, b) = adj[i];
            match self.get_raw(a, b) {
                Some(p) => {
                    if p.is_symbol() {
                        assert(self@.symbol_at(adj@[i as int]));
                        return true;
                    }
                },
                None => {},
            }
            i += 1;
        }
        false
    }

    /// The numbers that have a symbol next to one of their digits, in the order of the
    /// schematic.
    pub fn parts(&self) -> (r: Vec<u32>)
        requires
            self.wf(),
        ensures
            r@ == self@.parts_upto(self.pieces@.len() as int),
    {
        let mut parts: Vec<u32> = Vec::new();
        let mut raw_idx: usize = 0;
        let mut k: usize = 0;
        while k < self.pieces.len()
            invariant
                k <= self.pieces@.len(),
                self.wf(),
                raw_idx == self@.offset(k as int),
                parts@ == self@.parts_upto(k as int),
            decreases self.pieces@.len() - k,
        {
            proof {
                self@.lemma_offset_grows(k + 1, self.pieces@.len() as int);
            }
            match self.pieces[k] {
                Piece::Number(n, len) => {
                    let (row, column) = self.map_index(raw_idx);
                    assert(self@.offset(k + 1) == raw_idx + len);
                    assert(column <= raw_idx) by (nonlinear_arith)
                        requires
                            self.columns > 0,
                            column == raw_idx % self.columns,
                    ;
                    let mut is_part = false;
                    let mut y: usize = 0;
                    while y < len && !is_part
                        invariant
                            y <= len,
                            k < self.pieces@.len(),
                            self.pieces@[k as int] == Piece::Number(n, len),
                            row == self@.row(k as int),
                            column == self@.offset(k as int) % self.columns as int,
                            column + len <= usize::MAX,
                            is_part <==> exists|z: int|
                                0 <= z < y && #[trigger] self@.digit_near_symbol(k as int, z),
                        decreases len - y + (if is_part { 0int } else { 1int }),
                    {
                        is_part = self.touches_symbol(row, column + y);
                        assert(is_part == self@.digit_near_symbol(k as int, y as int));
                        y += 1;
                    }
                    assert(is_part == self@.is_part(k as int));
                    if is_part {
                        parts.push(n);
                    }
                    raw_idx += len;
                },
                Piece::Char(_) => {
                    raw_idx += 1;
                },
            }
            k += 1;
        }
        parts
    }

    /// The gear cells next to the cell `(x, y)`.
    fn touched_gears(&self, x: usize, y: usize) -> (r: Vec<(usize, usize)>)
        ensures
            r@ == self@.gears_near(x, y),
    {
        let adj = get_adjacent_indexes(x, y);
        let ghost picks = self@.gear_picks(x, y);
        let mut out: Vec<(usize, usize)> = Vec::new();
        let mut i: usize = 0;
        assert(picks.take(0) =~= Seq::<Option<(usize, usize)>>::empty());
        while i < adj.len()
            invariant
                i <= adj@.len(),
                adj@ == neighbours(x, y),
                picks == self@.gear_picks(x, y),
                out@ == somes(picks.take(i as int)),
            decreases adj@.len() - i,
        {
            let (a, b) = adj[i];
            assert(picks.take(i + 1).drop_last() =~= picks.take(i as int));
            assert(picks.take(i + 1).last() == picks[i as int]);
            let is_gear = match self.get_raw(a, b) {
                Some(p) => p.is_gear(),
                None => false,
            };
            if is_gear {
                out.push((a, b));
            }
            i += 1;
        }
        assert(picks.take(adj@.len() as int) =~= picks);
        out
    }

    /// The gear ratios: for each `*` that exactly two numbers count for, the product
    /// of the two, in the order in which a number first counted for the cell. A
    /// number counts for the gears next to the first of its digits that has any.
    pub fn gears(&self) -> (r: Result<Vec<u32>, EngineError>)
        requires
            self.wf(),
        ensures
            match r {
                Ok(v) => ratios(self@.book_upto(self.pieces@.len() as int)) == Ok::<
                    Seq<u32>,
                    EngineError,
                >(v@),
                Err(e) => ratios(self@.book_upto(self.pieces@.len() as int)) == Err::<
                    Seq<u32>,
                    EngineError,
                >(e),
            },
    {
        let mut entries: Vec<Entry> = Vec::new();
        let ghost mut book: Seq<Mesh> = Seq::empty();
        let mut raw_idx: usize = 0;
        let mut k: usize = 0;
        while k < self.pieces.len()
            invariant
                k <= self.pieces@.len(),
                self.wf(),
                raw_idx == self@.offset(k as int),
                book == self@.book_upto(k as int),
                keeps_all(entries@, book),
            decreases self.pieces@.len() - k,
        {
            proof {
                self@.lemma_offset_grows(k + 1, self.pieces@.len() as int);
            }
            match self.pieces[k] {
                Piece::Number(n, len) => {
                    let (row, column) = self.map_index(raw_idx);
                    assert(self@.offset(k + 1) == raw_idx + len);
                    assert(column <= raw_idx) by (nonlinear_arith)
                        requires
                            self.columns > 0,
                            column == raw_idx % self.columns,
                    ;
                    let ghost start = book;
                    let mut found = false;
                    let mut y: usize = 0;
                    while y < len && !found
                        invariant
                            y <= len,
                            k < self.pieces@.len(),
                            self.pieces@[k as int] == Piece::Number(n, len),
                            row == self@.row(k as int),
                            column == self@.offset(k as int) % self.columns as int,
                            column + len <= usize::MAX,
                            keeps_all(entries@, book),
                            !found ==> book == start && first_at(
                                self@.geared(k as int),
                                0,
                                len as int,
                            ) == first_at(self@.geared(k as int), y as int, len as int),
                            found ==> book == noted_all(start, self@.hits(k as int), n),
                        decreases len - y + (if found { 0int } else { 1int }),
                    {
                        let cells = self.touched_gears(row, column + y);
                        assert(self@.geared(k as int)(y as int) == (cells@.len() > 0));
                        if cells.len() > 0 {
                            assert(self@.hits(k as int) == cells@);
                            let mut j: usize = 0;
                            assert(cells@.take(0) =~= Seq::<(usize, usize)>::empty());
                            while j < cells.len()
                                invariant
                                    j <= cells@.len(),
                                    keeps_all(entries@, book),
                                    book == noted_all(start, cells@.take(j as int), n),
                                decreases cells@.len() - j,
                            {
                                assert(cells@.take(j + 1).drop_last() =~= cells@.take(j as int));
                                note(&mut entries, cells[j], n, Ghost(book));
                                proof {
                                    book = noted(book, cells@[j as int], n);
                                }
                                j += 1;
                            }
                            assert(cells@.take(cells@.len() as int) =~= cells@);
                            found = true;
                        }
                        y += 1;
                    }
                    raw_idx += len;
                },
                Piece::Char(_) => {
                    raw_idx += 1;
                },
            }
            k += 1;
        }
        let mut out: Vec<u32> = Vec::new();
        let mut i: usize = 0;
        assert(book.take(0) =~= Seq::<Mesh>::empty());
        while i < entries.len()
            invariant
                i <= entries@.len(),
                keeps_all(entries@, book),
                book == self@.book_upto(self.pieces@.len() as int),
                ratios(book.take(i as int)) == Ok::<Seq<u32>, EngineError>(out@),
            decreases entries@.len() - i,
        {
            let e = entries[i];
            assert(keeps(entries@[i as int], book[i as int]));
            assert(book.take(i + 1).drop_last() =~= book.take(i as int));
            assert(book.take(i + 1).last() == book[i as int]);
            if e.count == 2 {
                match e.first.checked_mul(e.second) {
                    Some(p) => {
                        out.push(p);
                    },
                    None => {
                        proof {
                            lemma_ratios_prefix(book, i + 1);
                        }
                        return Err(EngineError::Overflow);
                    },
                }
            }
            i += 1;
        }
        assert(book.take(entries@.len() as int) =~= book);
        Ok(out)
    }
}

/// The sum of the part numbers of a schematic, or why there is none.
pub open spec fn part_sum(fragments: Seq<Fragment>) -> Result<u32, EngineError> {
    if fragments.len() == 0 || !crafted(fragments).wf() {
        Err(EngineError::BrokenEngine)
    } else {
        let parts = crafted(fragments).parts_upto(crafted(fragments).pieces.len() as int);
        if total_u32(parts) > u32::MAX {
            Err(EngineError::Overflow)
        } else {
            Ok(total_u32(parts) as u32)
        }
    }
}

/// The sum of the gear ratios of a schematic, or why there is none.
pub open spec fn gear_sum(fragments: Seq<Fragment>) -> Result<u32, EngineError> {
    if fragments.len() == 0 || !crafted(fragments).wf() {
        Err(EngineError::BrokenEngine)
    } else {
        match ratios(crafted(fragments).book_upto(crafted(fragments).pieces.len() as int)) {
            Err(e) => Err(e),
            Ok(v) => if total_u32(v) > u32::MAX {
                Err(EngineError::Overflow)
            } else {
                Ok(total_u32(v) as u32)
            },
        }
    }
}

/// Wraps an engine result for the puzzle's caller.
pub open spec fn answer(r: Result<u32, EngineError>) -> Result<u32, Error> {
    match r {
        Ok(v) => Ok(v),
        Err(e) => Err(Error::Engine(e)),
    }
}

/// The schematic puzzle: the sum of the part numbers, and the sum of the gear ratios.
pub struct Day3;

impl Day for Day3 {
    type Item = Fragment;

    type Answer = u32;

    const DAY: usize = 3;

    open spec fn solves_part_1() -> bool {
        true
    }

    open spec fn solves_part_2() -> bool {
        true
    }

    /// The sum of all numbers that have a symbol next to them.
    fn part_1(items: Vec<Fragment>) -> (r: Result<u32, Error>)
        ensures
            r == answer(part_sum(items@)),
    {
        let engine = match Engine::craft(items) {
            Ok(engine) => engine,
            Err(e) => {
                return Err(Error::Engine(e));
            },
        };
        if !engine.is_sound() {
            return Err(Error::Engine(EngineError::BrokenEngine));
        }
        let parts = engine.parts();
        match sum_u32(parts.as_slice()) {
            Some(total) => Ok(total),
            None => Err(Error::Engine(EngineError::Overflow)),
        }
    }

    /// The sum of the products of the two numbers next to each gear.
    fn part_2(items: Vec<Fragment>) -> (r: Result<u32, Error>)
        ensures
            r == answer(gear_sum(items@)),
    {
        let engine = match Engine::craft(items) {
            Ok(engine) => engine,
            Err(e) => {
                return Err(Error::Engine(e));
            },
        };
        if !engine.is_sound() {
            return Err(Error::Engine(EngineError::BrokenEngine));
        }
        let gears = match engine.gears() {
            Ok(gears) => gears,
            Err(e) => {
                return Err(Error::Engine(e));
            },
        };
        match sum_u32(gears.as_slice()) {
            Some(total) => Ok(total),
            None => Err(Error::Engine(EngineError::Overflow)),
        }
    }
}

} // verus!
