//! The crossword payload: its cells, its clues, and their byte layout.

use crate::error::Error;
use crate::utils::{
    first_bad, lemma_first_bad, lemma_first_bad_is, lemma_text_end, occurs_before, push_char, scan_text, text_at,
    text_end,
};
use vstd::prelude::*;
use vstd::utf8::encode_utf8;

verus! {

/// What a cell of the grid holds.
#[derive(Debug, Clone, Copy, PartialEq, Eq, Structural)]
pub enum CrosswordBoxValue {
    Empty,
    Solid,
    Letter(char),
}

/// Whether `c` is one of `A` to `Z`.
pub open spec fn is_upper(c: char) -> bool {
    'A' <= c <= 'Z'
}

/// Whether `c` is one of `a` to `z`.
pub open spec fn is_lower(c: char) -> bool {
    'a' <= c <= 'z'
}

/// The byte that stands for a cell value: a space for an empty cell, `#` for
/// a solid one, and for a letter the low eight bits of its code point.
pub open spec fn value_byte(value: CrosswordBoxValue) -> u8 {
    match value {
        CrosswordBoxValue::Empty => 0x20,
        CrosswordBoxValue::Solid => 0x23,
        CrosswordBoxValue::Letter(c) => c as u8,
    }
}

/// The cell value that a byte stands for, when it stands for one: a space,
/// `#`, or an ASCII letter of either case.
pub open spec fn value_of_byte(byte: u8) -> Result<CrosswordBoxValue, Error> {
    if byte == 0x20 {
        Ok(CrosswordBoxValue::Empty)
    } else if byte == 0x23 {
        Ok(CrosswordBoxValue::Solid)
    } else if is_upper(byte as char) || is_lower(byte as char) {
        Ok(CrosswordBoxValue::Letter(byte as char))
    } else {
        Err(Error::InvalidCrosswordBoxByte { found: byte })
    }
}

/// The text that shows a cell value: one character.
pub open spec fn value_text(value: CrosswordBoxValue) -> Seq<char> {
    match value {
        CrosswordBoxValue::Empty => seq![' '],
        CrosswordBoxValue::Solid => seq!['#'],
        CrosswordBoxValue::Letter(c) => seq![c],
    }
}

impl CrosswordBoxValue {
    /// The byte that stands for this value in a payload.
    pub fn to_byte(&self) -> (byte: u8)
        ensures
            byte == value_byte(*self),
    {
        match self {
            CrosswordBoxValue::Empty => 0x20,
            CrosswordBoxValue::Solid => 0x23,
            CrosswordBoxValue::Letter(letter) => #[verifier::truncate] (*letter as u8),
        }
    }

    /// The value as displayed text: a space, `#`, or the letter.
    pub fn to_string(&self) -> (text: String)
        ensures
            text@ == value_text(*self),
    {
        let mut text = String::new();
        match self {
            CrosswordBoxValue::Empty => push_char(&mut text, ' '),
            CrosswordBoxValue::Solid => push_char(&mut text, '#'),
            CrosswordBoxValue::Letter(letter) => push_char(&mut text, *letter),
        }
        assert(text@ =~= value_text(*self));
        text
    }

    /// Reads a cell value from its byte.
    pub fn from_byte(byte: u8) -> (value: Result<Self, Error>)
        ensures
            value == value_of_byte(byte),
    {
        if byte == 0x20 {
            Ok(CrosswordBoxValue::Empty)
        } else if byte == 0x23 {
            Ok(CrosswordBoxValue::Solid)
        } else if (0x41 <= byte && byte <= 0x5A) || (0x61 <= byte && byte <= 0x7A) {
            Ok(CrosswordBoxValue::Letter(byte as char))
        } else {
            Err(Error::InvalidCrosswordBoxByte { found: byte })
        }
    }
}

/// One cell of the grid: its number (0 for none) and what it holds.
#[derive(Debug, Clone, Copy, PartialEq, Eq, Structural)]
pub struct CrosswordBox {
    pub number: u8,
    pub value: CrosswordBoxValue,
}

/// Why a cell value is refused, if it is: a letter must be ASCII, alphabetic
/// and not lower case, in that order of checks.
pub open spec fn value_fault(value: CrosswordBoxValue) -> Option<Error> {
    match value {
        CrosswordBoxValue::Letter(c) => if c as u32 > 0x7F {
            Some(Error::NonAsciiCharacter)
        } else if !is_upper(c) && !is_lower(c) {
            Some(Error::NonAlphabeticCharacter)
        } else if is_lower(c) {
            Some(Error::NonUppercaseCharacter)
        } else {
            None
        },
        _ => None,
    }
}

/// The bytes of one cell: its number, then its value.
pub open spec fn box_bytes(cell: CrosswordBox) -> Seq<u8> {
    seq![cell.number, value_byte(cell.value)]
}

impl CrosswordBox {
    /// Whether the cell holds a value that `new` accepts.
    pub open spec fn wf(&self) -> bool {
        value_fault(self.value) is None
    }

    /// Makes a cell, or says why the value is refused.
    pub fn new(number: u8, value: CrosswordBoxValue) -> (made: Result<CrosswordBox, Error>)
        ensures
            made == match value_fault(value) {
                Some(fault) => Err::<CrosswordBox, Error>(fault),
                None => Ok(CrosswordBox { number, value }),
            },
    {
        match value {
            CrosswordBoxValue::Letter(letter) => {
                let code: u32 = letter as u32;
                if code > 0x7F {
                    return Err(Error::NonAsciiCharacter);
                }
                let upper: bool = 0x41 <= code && code <= 0x5A;
                let lower: bool = 0x61 <= code && code <= 0x7A;
                if !upper && !lower {
                    return Err(Error::NonAlphabeticCharacter);
                }
                if lower {
                    return Err(Error::NonUppercaseCharacter);
                }
            },
            _ => {},
        }
        Ok(CrosswordBox { number, value })
    }

    /// The two bytes of the cell.
    pub fn to_bytes(&self) -> (bytes: Vec<u8>)
        ensures
            bytes@ == box_bytes(*self),
    {
        let mut bytes = Vec::new();
        bytes.push(self.number);
        bytes.push(self.value.to_byte());
        assert(bytes@ =~= box_bytes(*self));
        bytes
    }
}

/// A clue: the number of the cell where its answer starts, and its text.
#[derive(Debug, Clone, PartialEq, Eq)]
pub struct CrosswordClue {
    pub number: u8,
    pub value: String,
}

/// A clue as a mathematical value.
pub struct ClueView {
    pub number: u8,
    pub text: Seq<char>,
}

impl View for CrosswordClue {
    type V = ClueView;

    open spec fn view(&self) -> ClueView {
        ClueView { number: self.number, text: self.value@ }
    }
}

/// The bytes of one clue: its number, its text in UTF-8, and a zero byte.
pub open spec fn clue_bytes(clue: ClueView) -> Seq<u8> {
    seq![clue.number] + encode_utf8(clue.text) + seq![0u8]
}

/// The bytes of a list of clues, one after the other.
pub open spec fn clues_bytes(clues: Seq<ClueView>) -> Seq<u8>
    decreases clues.len(),
{
    if clues.len() == 0 {
        Seq::empty()
    } else {
        clues_bytes(clues.drop_last()) + clue_bytes(clues.last())
    }
}

/// The bytes of a row of cells, one after the other.
pub open spec fn row_bytes(row: Seq<CrosswordBox>) -> Seq<u8>
    decreases row.len(),
{
    if row.len() == 0 {
        Seq::empty()
    } else {
        row_bytes(row.drop_last()) + box_bytes(row.last())
    }
}

/// The bytes of a grid: its rows from the top, one after the other.
pub open spec fn grid_bytes(grid: Seq<Seq<CrosswordBox>>) -> Seq<u8>
    decreases grid.len(),
{
    if grid.len() == 0 {
        Seq::empty()
    } else {
        grid_bytes(grid.drop_last()) + row_bytes(grid.last())
    }
}

/// The clues of a list, each as a mathematical value.
pub open spec fn clue_views(clues: Seq<CrosswordClue>) -> Seq<ClueView> {
    clues.map_values(|clue: CrosswordClue| clue@)
}

/// The rows of a grid, each as a sequence of cells.
pub open spec fn grid_view(grid: Seq<Vec<CrosswordBox>>) -> Seq<Seq<CrosswordBox>> {
    grid.map_values(|row: Vec<CrosswordBox>| row@)
}

impl CrosswordClue {
    /// Makes a clue with the given number and text.
    pub fn new(number: u8, value: &str) -> (clue: CrosswordClue)
        ensures
            clue@ == (ClueView { number, text: value@ }),
    {
        CrosswordClue { number, value: value.to_owned() }
    }

    /// The bytes of the clue.
    pub fn to_bytes(&self) -> (bytes: Vec<u8>)
        ensures
            bytes@ == clue_bytes(self@),
    {
        let mut bytes = Vec::new();
        bytes.push(self.number);
        bytes.extend_from_slice(self.value.as_str().as_bytes());
        bytes.push(0);
        assert(bytes@ =~= clue_bytes(self@));
        bytes
    }
}

/// A crossword: its size, its clues in both directions, and its grid.
#[derive(Debug, Clone, PartialEq, Eq)]
pub struct CrosswordData {
    pub width: u8,
    pub height: u8,
    pub total_clues: u8,
    pub horizontal_clues: Vec<CrosswordClue>,
    pub vertical_clues: Vec<CrosswordClue>,
    pub crossword_data: Vec<Vec<CrosswordBox>>,
}

/// A crossword as a mathematical value.
pub struct CrosswordView {
    pub width: u8,
    pub height: u8,
    pub total_clues: u8,
    pub horizontal: Seq<ClueView>,
    pub vertical: Seq<ClueView>,
    pub grid: Seq<Seq<CrosswordBox>>,
}

impl View for CrosswordData {
    type V = CrosswordView;

    open spec fn view(&self) -> CrosswordView {
        CrosswordView {
            width: self.width,
            height: self.height,
            total_clues: self.total_clues,
            horizontal: clue_views(self.horizontal_clues@),
            vertical: clue_views(self.vertical_clues@),
            grid: grid_view(self.crossword_data@),
        }
    }
}

/// The payload bytes of a crossword: width, height and clue count, the
/// horizontal clues and a zero byte, the vertical clues and a zero byte, then
/// the grid row by row.
pub open spec fn crossword_bytes(puzzle: CrosswordView) -> Seq<u8> {
    seq![puzzle.width, puzzle.height, puzzle.total_clues] + clues_bytes(puzzle.horizontal)
        + seq![0u8] + clues_bytes(puzzle.vertical) + seq![0u8] + grid_bytes(puzzle.grid)
}

/// Appends the bytes of each clue of `clues` to `bytes`.
fn append_clues(bytes: &mut Vec<u8>, clues: &Vec<CrosswordClue>)
    ensures
        final(bytes)@ == old(bytes)@ + clues_bytes(clue_views(clues@)),
{
    let ghost before = bytes@;
    let mut i: usize = 0;
    while i < clues.len()
        invariant
            i <= clues.len(),
            bytes@ == before + clues_bytes(clue_views(clues@.take(i as int))),
        decreases clues.len() - i,
    {
        let part = clues[i].to_bytes();
        bytes.extend_from_slice(part.as_slice());
        proof {
            let upto = clue_views(clues@.take(i + 1));
            assert(upto.drop_last() =~= clue_views(clues@.take(i as int)));
            assert(upto.last() == clues@[i as int]@);
            assert(bytes@ =~= before + clues_bytes(upto));
        }
        i = i + 1;
    }
    assert(clues@.take(i as int) =~= clues@);
}

/// Appends the bytes of each cell of `row` to `bytes`.
fn append_row(bytes: &mut Vec<u8>, row: &Vec<CrosswordBox>)
    ensures
        final(bytes)@ == old(bytes)@ + row_bytes(row@),
{
    let ghost before = bytes@;
    let mut i: usize = 0;
    while i < row.len()
        invariant
            i <= row.len(),
            bytes@ == before + row_bytes(row@.take(i as int)),
        decreases row.len() - i,
    {
        let part = row[i].to_bytes();
        bytes.extend_from_slice(part.as_slice());
        proof {
            assert(row@.take(i + 1).drop_last() =~= row@.take(i as int));
            assert(bytes@ =~= before + row_bytes(row@.take(i + 1)));
        }
        i = i + 1;
    }
    assert(row@.take(i as int) =~= row@);
}

/// The numbers of the cells of a row, from the left.
pub open spec fn row_numbers(row: Seq<CrosswordBox>) -> Seq<u8> {
    row.map_values(|cell: CrosswordBox| cell.number)
}

/// The numbers of the cells of a grid, row by row from the top.
pub open spec fn cell_numbers(grid: Seq<Seq<CrosswordBox>>) -> Seq<u8>
    decreases grid.len(),
{
    if grid.len() == 0 {
        Seq::empty()
    } else {
        cell_numbers(grid.drop_last()) + row_numbers(grid.last())
    }
}

/// The numbers of a list of clues, in order.
pub open spec fn clue_numbers(clues: Seq<ClueView>) -> Seq<u8> {
    clues.map_values(|clue: ClueView| clue.number)
}

/// Whether the number at position `k` also stands at an earlier position.
pub open spec fn repeats(numbers: Seq<u8>, k: int) -> bool {
    numbers.take(k).contains(numbers[k])
}

/// Whether a clue's number is that of no cell: it is zero, which numbers no
/// cell, or no cell has it.
pub open spec fn names_no_cell(cells: Seq<u8>, number: u8) -> bool {
    number == 0 || !cells.contains(number)
}

/// The position of the first clue whose number is that of no cell, or that
/// an earlier clue of the list has too; the length of the list when there is
/// no such clue.
pub open spec fn first_bad_clue(cells: Seq<u8>, clues: Seq<u8>) -> int {
    first_bad(0, clues.len() as int, |i: int| names_no_cell(cells, clues[i]) || repeats(clues, i))
}

/// Why a list of clues is refused, if it is: the first clue at fault decides,
/// and a number that is that of no cell counts before a repeated one.
pub open spec fn clues_fault(cells: Seq<u8>, clues: Seq<u8>, vertical: bool) -> Option<Error> {
    let at = first_bad_clue(cells, clues);
    if at >= clues.len() {
        None
    } else if names_no_cell(cells, clues[at]) {
        if vertical {
            Some(Error::VerticalClueContainsInvalidNumber { number: clues[at] })
        } else {
            Some(Error::HorizontalClueContainsInvalidNumber { number: clues[at] })
        }
    } else {
        if vertical {
            Some(Error::VerticalClueContainsDuplicate { number: clues[at] })
        } else {
            Some(Error::HorizontalClueContainsDuplicate { number: clues[at] })
        }
    }
}

/// The position of the first row whose length is not `width`; the number of
/// rows when there is none.
pub open spec fn first_bad_row(grid: Seq<Seq<CrosswordBox>>, width: u8) -> int {
    first_bad(0, grid.len() as int, |i: int| grid[i].len() != width)
}

/// The position, row by row, of the first cell whose number is not zero and
/// stands in an earlier cell too; the number of cells when there is none.
pub open spec fn first_repeated_cell(numbers: Seq<u8>) -> int {
    first_bad(0, numbers.len() as int, |k: int| numbers[k] != 0 && repeats(numbers, k))
}

/// Why the parts of a crossword are refused, if they are.
///
/// The checks come in this order, and the first that fails decides: the grid
/// has `height` rows; each row has `width` cells; no number but zero stands
/// in two cells; each vertical clue has the number of a cell, which is never
/// zero, and no two of them have the same; and the same for the horizontal
/// clues.
pub open spec fn crossword_fault(
    width: u8,
    height: u8,
    horizontal: Seq<ClueView>,
    vertical: Seq<ClueView>,
    grid: Seq<Seq<CrosswordBox>>,
) -> Option<Error> {
    let numbers = cell_numbers(grid);
    let row = first_bad_row(grid, width);
    let cell = first_repeated_cell(numbers);
    if grid.len() != height {
        Some(
            Error::HeightCrosswordDataMismatch { height, crossword_height: grid.len() as u32 },
        )
    } else if row < grid.len() {
        Some(Error::WidthCrosswordDataMismatch { width, crossword_width: grid[row].len() as u32 })
    } else if cell < numbers.len() {
        Some(Error::DuplicateNumber { number: numbers[cell] })
    } else if clues_fault(numbers, clue_numbers(vertical), true) is Some {
        clues_fault(numbers, clue_numbers(vertical), true)
    } else {
        clues_fault(numbers, clue_numbers(horizontal), false)
    }
}

/// Whether each clue of a list has a number other than zero that a cell has
/// too, and no two of them the same number.
pub open spec fn clues_valid(cells: Seq<u8>, clues: Seq<u8>) -> bool {
    &&& forall|i: int| 0 <= i < clues.len() ==> #[trigger] clues[i] != 0 && cells.contains(clues[i])
    &&& forall|i: int, j: int| 0 <= i < j < clues.len() ==> clues[i] != clues[j]
}

/// Whether the parts make a crossword: the grid has `height` rows of `width`
/// cells; no number but zero stands in two cells; and in each direction
/// every clue has a number other than zero that a cell has too, and no two
/// clues the same number.
pub open spec fn crossword_valid(
    width: u8,
    height: u8,
    horizontal: Seq<ClueView>,
    vertical: Seq<ClueView>,
    grid: Seq<Seq<CrosswordBox>>,
) -> bool {
    let cells = cell_numbers(grid);
    &&& grid.len() == height
    &&& forall|r: int| 0 <= r < grid.len() ==> (#[trigger] grid[r]).len() == width
    &&& forall|i: int, j: int| 0 <= i < j < cells.len() && cells[j] != 0 ==> cells[i] != cells[j]
    &&& clues_valid(cells, clue_numbers(vertical))
    &&& clues_valid(cells, clue_numbers(horizontal))
}

/// A list of clues has no fault exactly when it is valid.
pub proof fn lemma_clues_fault(cells: Seq<u8>, clues: Seq<u8>, vertical: bool)
    ensures
        clues_fault(cells, clues, vertical) is None <==> clues_valid(cells, clues),
{
    let bad = |i: int| names_no_cell(cells, clues[i]) || repeats(clues, i);
    lemma_first_bad(0, clues.len() as int, bad);
    let at = first_bad(0, clues.len() as int, bad);
    if at >= clues.len() {
        assert forall|i: int| 0 <= i < clues.len() implies #[trigger] clues[i] != 0
            && cells.contains(clues[i]) by {
            assert(!bad(i));
        }
        assert forall|i: int, j: int| 0 <= i < j < clues.len() implies clues[i] != clues[j] by {
            assert(!bad(j));
            assert(clues.take(j)[i] == clues[i]);
        }
    } else {
        assert(bad(at));
        if !names_no_cell(cells, clues[at]) {
            let i = choose|i: int| 0 <= i < clues.take(at).len() && clues.take(at)[i] == clues[at];
            assert(clues[i] == clues[at]);
        }
    }
}

/// The parts of a crossword have no fault exactly when they make a valid
/// crossword.
pub proof fn lemma_crossword_fault(
    width: u8,
    height: u8,
    horizontal: Seq<ClueView>,
    vertical: Seq<ClueView>,
    grid: Seq<Seq<CrosswordBox>>,
)
    ensures
        crossword_fault(width, height, horizontal, vertical, grid) is None <==> crossword_valid(
            width,
            height,
            horizontal,
            vertical,
            grid,
        ),
{
    let cells = cell_numbers(grid);
    let bad_row = |i: int| grid[i].len() != width;
    let bad_cell = |k: int| cells[k] != 0 && repeats(cells, k);
    lemma_first_bad(0, grid.len() as int, bad_row);
    lemma_first_bad(0, cells.len() as int, bad_cell);
    lemma_clues_fault(cells, clue_numbers(vertical), true);
    lemma_clues_fault(cells, clue_numbers(horizontal), false);
    let row = first_bad(0, grid.len() as int, bad_row);
    let cell = first_bad(0, cells.len() as int, bad_cell);
    if row >= grid.len() {
        assert forall|r: int| 0 <= r < grid.len() implies (#[trigger] grid[r]).len() == width by {
            assert(!bad_row(r));
        }
    } else {
        assert(bad_row(row));
    }
    if cell >= cells.len() {
        assert forall|i: int, j: int| 0 <= i < j < cells.len() && cells[j] != 0 implies cells[i]
            != cells[j] by {
            assert(!bad_cell(j));
            assert(cells.take(j)[i] == cells[i]);
        }
    } else {
        assert(bad_cell(cell));
        let i = choose|i: int| 0 <= i < cells.take(cell).len() && cells.take(cell)[i] == cells[cell];
        assert(cells[i] == cells[cell]);
    }
}

/// The numbers of all cells of `grid`, row by row.
fn collect_numbers(grid: &Vec<Vec<CrosswordBox>>) -> (numbers: Vec<u8>)
    ensures
        numbers@ == cell_numbers(grid_view(grid@)),
{
    let mut numbers: Vec<u8> = Vec::new();
    let mut r: usize = 0;
    while r < grid.len()
        invariant
            r <= grid.len(),
            numbers@ == cell_numbers(grid_view(grid@.take(r as int))),
        decreases grid.len() - r,
    {
        let row = &grid[r];
        let ghost before = numbers@;
        let mut c: usize = 0;
        while c < row.len()
            invariant
                c <= row.len(),
                numbers@ == before + row_numbers(row@.take(c as int)),
            decreases row.len() - c,
        {
            numbers.push(row[c].number);
            c = c + 1;
            assert(numbers@ =~= before + row_numbers(row@.take(c as int)));
        }
        proof {
            assert(row@.take(c as int) =~= row@);
            let upto = grid_view(grid@.take(r + 1));
            assert(upto.drop_last() =~= grid_view(grid@.take(r as int)));
            assert(upto.last() == row@);
        }
        r = r + 1;
    }
    assert(grid@.take(r as int) =~= grid@);
    numbers
}

/// Holds a list of clues against the numbers of the cells. Zero numbers no
/// cell: a clue with that number is refused like one whose number no cell
/// has.
fn check_clues(cells: &Vec<u8>, clues: &Vec<CrosswordClue>, vertical: bool) -> (fault: Option<
    Error,
>)
    ensures
        fault == clues_fault(cells@, clue_numbers(clue_views(clues@)), vertical),
{
    let ghost wanted = clue_numbers(clue_views(clues@));
    let ghost bad = |i: int| names_no_cell(cells@, wanted[i]) || repeats(wanted, i);
    let mut seen: Vec<u8> = Vec::new();
    let mut i: usize = 0;
    while i < clues.len()
        invariant
            i <= clues.len(),
            wanted == clue_numbers(clue_views(clues@)),
            bad == (|i: int| names_no_cell(cells@, wanted[i]) || repeats(wanted, i)),
            seen@ == wanted.take(i as int),
            forall|j: int| 0 <= j < i ==> !#[trigger] bad(j),
        decreases clues.len() - i,
    {
        let number = clues[i].number;
        assert(cells@.take(cells.len() as int) =~= cells@);
        assert(number == wanted[i as int]);
        if number == 0 || !occurs_before(cells, cells.len(), number) {
            proof {
                assert(bad(i as int));
                lemma_first_bad_is(0, i as int, wanted.len() as int, bad);
            }
            if vertical {
                return Some(Error::VerticalClueContainsInvalidNumber { number });
            } else {
                return Some(Error::HorizontalClueContainsInvalidNumber { number });
            }
        }
        assert(seen@.take(seen.len() as int) =~= seen@);
        if occurs_before(&seen, seen.len(), number) {
            proof {
                assert(bad(i as int));
                lemma_first_bad_is(0, i as int, wanted.len() as int, bad);
            }
            if vertical {
                return Some(Error::VerticalClueContainsDuplicate { number });
            } else {
                return Some(Error::HorizontalClueContainsDuplicate { number });
            }
        }
        seen.push(number);
        assert(!bad(i as int));
        i = i + 1;
        assert(seen@ =~= wanted.take(i as int));
    }
    proof {
        lemma_first_bad_is(0, i as int, wanted.len() as int, bad);
    }
    None
}

/// The clues that stand from `start` on, up to the zero byte that closes
/// their list, and the offset after that byte. `None` when `s` ends before a
/// clue's text or the list is closed.
pub open spec fn scan_clues(s: Seq<u8>, start: int) -> Option<(Seq<ClueView>, int)>
    decreases s.len() - start,
    via scan_clues_decreases
{
    if start < 0 || start >= s.len() {
        None
    } else if s[start] == 0 {
        Some((Seq::empty(), start + 1))
    } else if text_end(s, start + 1) >= s.len() {
        None
    } else {
        match scan_clues(s, text_end(s, start + 1) + 1) {
            None => None,
            Some((rest, next)) => Some(
                (seq![ClueView { number: s[start], text: text_at(s, start + 1) }] + rest, next),
            ),
        }
    }
}

#[via_fn]
proof fn scan_clues_decreases(s: Seq<u8>, start: int) {
    if 0 <= start < s.len() {
        lemma_text_end(s, start + 1);
    }
}

/// The cell that a number byte and a value byte stand for, or why they stand
/// for none.
pub open spec fn decode_box(number: u8, byte: u8) -> Result<CrosswordBox, Error> {
    match value_of_byte(byte) {
        Err(fault) => Err(fault),
        Ok(value) => match value_fault(value) {
            Some(fault) => Err(fault),
            None => Ok(CrosswordBox { number, value }),
        },
    }
}

/// The first `count` cells that stand from `base` on, two bytes each, or the
/// fault of the first of them that has one.
pub open spec fn decode_cells(s: Seq<u8>, base: int, count: nat) -> Result<
    Seq<CrosswordBox>,
    Error,
>
    decreases count,
{
    if count == 0 {
        Ok(Seq::empty())
    } else {
        match decode_cells(s, base, (count - 1) as nat) {
            Err(fault) => Err(fault),
            Ok(cells) => match decode_box(s[base + 2 * (count - 1)], s[base + 2 * (count - 1) + 1]) {
                Err(fault) => Err(fault),
                Ok(cell) => Ok(cells.push(cell)),
            },
        }
    }
}

/// The first `rows` rows of `width` cells that stand from `base` on, or the
/// fault of the first cell, row by row, that has one.
pub open spec fn decode_rows(s: Seq<u8>, base: int, width: nat, rows: nat) -> Result<
    Seq<Seq<CrosswordBox>>,
    Error,
>
    decreases rows,
{
    if rows == 0 {
        Ok(Seq::empty())
    } else {
        match decode_rows(s, base, width, (rows - 1) as nat) {
            Err(fault) => Err(fault),
            Ok(grid) => match decode_cells(s, base + 2 * width * (rows - 1), width) {
                Err(fault) => Err(fault),
                Ok(row) => Ok(grid.push(row)),
            },
        }
    }
}

/// What a payload decodes to.
///
/// The payload holds width, height and clue count, none of them zero; two
/// clue lists, each closed by a zero byte, that together hold as many clues
/// as the count says; and then exactly two bytes for each cell of the grid.
/// The checks come in that order, and the first that fails decides. A payload
/// that ends before its third byte, or before a clue list is closed, is
/// refused as ending unexpectedly.
pub open spec fn decode_crossword(s: Seq<u8>) -> Result<CrosswordView, Error> {
    if s.len() < 3 {
        Err(Error::UnexpectedEndOfFile)
    } else if s[0] == 0 || s[1] == 0 {
        Err(Error::WidthOrHeightIsZero)
    } else if s[2] == 0 {
        Err(Error::TotalCluesIsZero)
    } else {
        match scan_clues(s, 3) {
            None => Err(Error::UnexpectedEndOfFile),
            Some((horizontal, middle)) => match scan_clues(s, middle) {
                None => Err(Error::UnexpectedEndOfFile),
                Some((vertical, base)) => if horizontal.len() + vertical.len() != s[2] {
                    Err(
                        Error::ClueCountMismatch {
                            expected: s[2],
                            found: (horizontal.len() + vertical.len()) as u32,
                        },
                    )
                } else if base + s[0] * s[1] * 2 != s.len() {
                    Err(
                        Error::NotEnoughCrosswordBytes {
                            expected: (base + s[0] * s[1] * 2) as u32,
                            found: s.len() as u32,
                        },
                    )
                } else {
                    match decode_rows(s, base, s[0] as nat, s[1] as nat) {
                        Err(fault) => Err(fault),
                        Ok(grid) => Ok(
                            CrosswordView {
                                width: s[0],
                                height: s[1],
                                total_clues: s[2],
                                horizontal,
                                vertical,
                                grid,
                            },
                        ),
                    }
                },
            },
        }
    }
}

/// Reads the clue that starts at `start`: its number byte, then its text up
/// to a zero byte. Gives the clue and the offset after that zero byte, or
/// `None` when `bytes` ends before it.
pub fn parse_crossword_clue(bytes: &[u8], start: usize) -> (parsed: Option<(CrosswordClue, usize)>)
    ensures
        match parsed {
            None => start >= bytes.len() || text_end(bytes@, start + 1) >= bytes.len(),
            Some((clue, next)) => {
                &&& start < bytes.len()
                &&& text_end(bytes@, start + 1) < bytes.len()
                &&& next == text_end(bytes@, start + 1) + 1
                &&& start < next <= bytes.len()
                &&& clue@ == (ClueView { number: bytes@[start as int], text: text_at(bytes@, start + 1) })
            },
        },
{
    if start >= bytes.len() {
        return None;
    }
    let number = bytes[start];
    let (value, end) = scan_text(bytes, start + 1);
    if end >= bytes.len() {
        return None;
    }
    Some((CrosswordClue { number, value }, end + 1))
}

/// `found` put behind the clues `front`.
spec fn behind(front: Seq<ClueView>, found: Option<(Seq<ClueView>, int)>) -> Option<
    (Seq<ClueView>, int),
> {
    match found {
        None => None,
        Some((rest, next)) => Some((front + rest, next)),
    }
}

/// Reads clues from `start` on until the zero byte that closes their list.
fn read_clues(bytes: &[u8], start: usize) -> (found: Option<(Vec<CrosswordClue>, usize)>)
    ensures
        match found {
            None => scan_clues(bytes@, start as int) is None,
            Some((clues, next)) => scan_clues(bytes@, start as int) == Some(
                (clue_views(clues@), next as int),
            ) && next <= bytes.len(),
        },
{
    let mut clues: Vec<CrosswordClue> = Vec::new();
    let mut offset: usize = start;
    loop
        invariant
            scan_clues(bytes@, start as int) == behind(
                clue_views(clues@),
                scan_clues(bytes@, offset as int),
            ),
        decreases bytes.len() - offset,
    {
        if offset >= bytes.len() {
            return None;
        }
        if bytes[offset] == 0x00 {
            assert(clue_views(clues@) + Seq::<ClueView>::empty() =~= clue_views(clues@));
            return Some((clues, offset + 1));
        }
        match parse_crossword_clue(bytes, offset) {
            None => {
                return None;
            },
            Some((clue, next)) => {
                proof {
                    let before = clue_views(clues@);
                    let after = clue_views(clues@.push(clue));
                    assert(after =~= before.push(clue@));
                    match scan_clues(bytes@, next as int) {
                        None => {},
                        Some((rest, end)) => {
                            assert(before + (seq![clue@] + rest) =~= after + rest);
                        },
                    }
                }
                clues.push(clue);
                offset = next;
            },
        }
    }
}

/// A fault among the first cells is the fault of any longer run of cells.
proof fn lemma_cells_fault_stays(s: Seq<u8>, base: int, count: nat, more: nat)
    requires
        count <= more,
        decode_cells(s, base, count) is Err,
    ensures
        decode_cells(s, base, more) == decode_cells(s, base, count),
    decreases more,
{
    if count < more {
        lemma_cells_fault_stays(s, base, count, (more - 1) as nat);
    }
}

/// A fault among the first rows is the fault of any longer run of rows.
proof fn lemma_rows_fault_stays(s: Seq<u8>, base: int, width: nat, rows: nat, more: nat)
    requires
        rows <= more,
        decode_rows(s, base, width, rows) is Err,
    ensures
        decode_rows(s, base, width, more) == decode_rows(s, base, width, rows),
    decreases more,
{
    if rows < more {
        lemma_rows_fault_stays(s, base, width, rows, (more - 1) as nat);
    }
}

/// Reads the `width` cells that stand from `base` on.
fn read_row(bytes: &[u8], base: usize, width: u8) -> (found: Result<Vec<CrosswordBox>, Error>)
    requires
        base + 2 * width <= bytes.len(),
    ensures
        match found {
            Ok(row) => decode_cells(bytes@, base as int, width as nat) == Ok::<
                Seq<CrosswordBox>,
                Error,
            >(row@),
            Err(fault) => decode_cells(bytes@, base as int, width as nat) == Err::<
                Seq<CrosswordBox>,
                Error,
            >(fault),
        },
{
    let mut row: Vec<CrosswordBox> = Vec::new();
    let mut c: u8 = 0;
    let mut offset: usize = base;
    while c < width
        invariant
            c <= width,
            offset == base + 2 * c,
            base + 2 * width <= bytes.len(),
            decode_cells(bytes@, base as int, c as nat) == Ok::<Seq<CrosswordBox>, Error>(row@),
        decreases width - c,
    {
        let number = bytes[offset];
        let value = match CrosswordBoxValue::from_byte(bytes[offset + 1]) {
            Ok(value) => value,
            Err(fault) => {
                proof {
                    lemma_cells_fault_stays(bytes@, base as int, (c + 1) as nat, width as nat);
                }
                return Err(fault);
            },
        };
        let cell = match CrosswordBox::new(number, value) {
            Ok(cell) => cell,
            Err(fault) => {
                proof {
                    lemma_cells_fault_stays(bytes@, base as int, (c + 1) as nat, width as nat);
                }
                return Err(fault);
            },
        };
        row.push(cell);
        offset = offset + 2;
        c = c + 1;
    }
    Ok(row)
}

/// Rows of `width` cells up to row `row` lie within those up to row `height`.
proof fn lemma_row_fits(width: nat, row: nat, height: nat)
    requires
        row < height,
    ensures
        2 * width * row + 2 * width <= 2 * width * height,
        2 * width * (row + 1) == 2 * width * row + 2 * width,
{
    assert(2 * width * (row + 1) == 2 * width * row + 2 * width) by (nonlinear_arith);
    assert(2 * width * (row + 1) <= 2 * width * height) by (nonlinear_arith)
        requires
            row + 1 <= height,
    ;
}

/// Reads `height` rows of `width` cells that stand from `base` on.
fn read_grid(bytes: &[u8], base: usize, width: u8, height: u8) -> (found: Result<
    Vec<Vec<CrosswordBox>>,
    Error,
>)
    requires
        base + 2 * width * height == bytes.len(),
    ensures
        match found {
            Ok(grid) => decode_rows(bytes@, base as int, width as nat, height as nat) == Ok::<
                Seq<Seq<CrosswordBox>>,
                Error,
            >(grid_view(grid@)),
            Err(fault) => decode_rows(bytes@, base as int, width as nat, height as nat) == Err::<
                Seq<Seq<CrosswordBox>>,
                Error,
            >(fault),
        },
{
    let mut crossword_data: Vec<Vec<CrosswordBox>> = Vec::new();
    let mut r: u8 = 0;
    let mut offset: usize = base;
    assert(grid_view(crossword_data@) =~= Seq::<Seq<CrosswordBox>>::empty());
    while r < height
        invariant
            r <= height,
            offset == base + 2 * width * r,
            base + 2 * width * height == bytes.len(),
            decode_rows(bytes@, base as int, width as nat, r as nat) == Ok::<
                Seq<Seq<CrosswordBox>>,
                Error,
            >(grid_view(crossword_data@)),
        decreases height - r,
    {
        proof {
            lemma_row_fits(width as nat, r as nat, height as nat);
            assert(base + 2 * (width as nat) * ((r + 1) as nat - 1) == offset);
        }
        let row = match read_row(bytes, offset, width) {
            Ok(row) => row,
            Err(fault) => {
                proof {
                    lemma_rows_fault_stays(
                        bytes@,
                        base as int,
                        width as nat,
                        (r + 1) as nat,
                        height as nat,
                    );
                }
                return Err(fault);
            },
        };
        proof {
            assert(grid_view(crossword_data@.push(row)) =~= grid_view(crossword_data@).push(row@));
        }
        crossword_data.push(row);
        offset = offset + 2 * (width as usize);
        r = r + 1;
    }
    Ok(crossword_data)
}

/// Whether a result of decoding stands for `expected`.
pub open spec fn loaded_is(
    loaded: Result<CrosswordData, Error>,
    expected: Result<CrosswordView, Error>,
) -> bool {
    match loaded {
        Ok(puzzle) => expected == Ok::<CrosswordView, Error>(puzzle@),
        Err(fault) => expected == Err::<CrosswordView, Error>(fault),
    }
}

impl CrosswordData {
    /// Decodes a crossword from its payload bytes.
    ///
    /// The clue lists and the grid are read as they stand: the numbers of
    /// cells and clues are not held against each other, as `new` does.
    pub fn load(bytes: &[u8]) -> (loaded: Result<CrosswordData, Error>)
        ensures
            loaded_is(loaded, decode_crossword(bytes@)),
    {
        if bytes.len() < 3 {
            return Err(Error::UnexpectedEndOfFile);
        }
        let width = bytes[0];
        let height = bytes[1];
        let total_clues = bytes[2];

        if width == 0 || height == 0 {
            return Err(Error::WidthOrHeightIsZero);
        }
        if total_clues == 0 {
            return Err(Error::TotalCluesIsZero);
        }
        let (horizontal_clues, middle) = match read_clues(bytes, 3) {
            Some(found) => found,
            None => {
                return Err(Error::UnexpectedEndOfFile);
            },
        };
        let (vertical_clues, base) = match read_clues(bytes, middle) {
            Some(found) => found,
            None => {
                return Err(Error::UnexpectedEndOfFile);
            },
        };
        let found_clues: u128 = horizontal_clues.len() as u128 + vertical_clues.len() as u128;
        if found_clues != total_clues as u128 {
            return Err(
                Error::ClueCountMismatch {
                    expected: total_clues,
                    found: #[verifier::truncate] (found_clues as u32),
                },
            );
        }
        assert(width * height <= 255 * 255) by (nonlinear_arith)
            requires
                width <= 255,
                height <= 255,
        ;
        let cell_bytes: usize = width as usize * height as usize * 2;
        let expected_bytes: u128 = base as u128 + cell_bytes as u128;
        if expected_bytes != bytes.len() as u128 {
            return Err(
                Error::NotEnoughCrosswordBytes {
                    expected: #[verifier::truncate] (expected_bytes as u32),
                    found: #[verifier::truncate] (bytes.len() as u32),
                },
            );
        }
        assert(2 * width * height == width * height * 2) by (nonlinear_arith);
        let crossword_data = match read_grid(bytes, base, width, height) {
            Ok(grid) => grid,
            Err(fault) => {
                return Err(fault);
            },
        };
        Ok(
            CrosswordData {
                width,
                height,
                total_clues,
                horizontal_clues,
                vertical_clues,
                crossword_data,
            },
        )
    }

    /// Makes a crossword from its parts, or says why they are refused.
    ///
    /// The clue count of the crossword is the number of clues given: parts
    /// that are not refused must hold 255 clues at most, for the count is
    /// kept in one byte.
    pub fn new(
        width: u8,
        height: u8,
        horizontal_clues: Vec<CrosswordClue>,
        vertical_clues: Vec<CrosswordClue>,
        crossword_data: Vec<Vec<CrosswordBox>>,
    ) -> (made: Result<CrosswordData, Error>)
        requires
            crossword_fault(
                width,
                height,
                clue_views(horizontal_clues@),
                clue_views(vertical_clues@),
                grid_view(crossword_data@),
            ) is None ==> horizontal_clues.len() + vertical_clues.len() <= 255,
        ensures
            match crossword_fault(
                width,
                height,
                clue_views(horizontal_clues@),
                clue_views(vertical_clues@),
                grid_view(crossword_data@),
            ) {
                Some(fault) => made == Err::<CrosswordData, Error>(fault),
                None => made is Ok && made->Ok_0@ == (CrosswordView {
                    width,
                    height,
                    total_clues: (horizontal_clues.len() + vertical_clues.len()) as u8,
                    horizontal: clue_views(horizontal_clues@),
                    vertical: clue_views(vertical_clues@),
                    grid: grid_view(crossword_data@),
                }),
            },
    {
        let ghost grid = grid_view(crossword_data@);
        if crossword_data.len() != height as usize {
            return Err(
                Error::HeightCrosswordDataMismatch {
                    height,
                    crossword_height: #[verifier::truncate] (crossword_data.len() as u32),
                },
            );
        }
        let ghost bad_row = |i: int| grid[i].len() != width;
        let mut r: usize = 0;
        while r < crossword_data.len()
            invariant
                r <= crossword_data.len(),
                crossword_data.len() == height,
                grid == grid_view(crossword_data@),
                bad_row == (|i: int| grid[i].len() != width),
                forall|j: int| 0 <= j < r ==> !#[trigger] bad_row(j),
            decreases crossword_data.len() - r,
        {
            if crossword_data[r].len() != width as usize {
                proof {
                    assert(bad_row(r as int));
                    lemma_first_bad_is(0, r as int, grid.len() as int, bad_row);
                }
                return Err(
                    Error::WidthCrosswordDataMismatch {
                        width,
                        crossword_width: #[verifier::truncate] (crossword_data[r].len() as u32),
                    },
                );
            }
            assert(!bad_row(r as int));
            r = r + 1;
        }
        proof {
            lemma_first_bad_is(0, r as int, grid.len() as int, bad_row);
        }

        let numbers = collect_numbers(&crossword_data);
        let ghost bad_cell = |k: int| numbers@[k] != 0 && repeats(numbers@, k);
        let mut k: usize = 0;
        while k < numbers.len()
            invariant
                k <= numbers.len(),
                crossword_data.len() == height,
                grid == grid_view(crossword_data@),
                first_bad_row(grid, width) == grid.len(),
                numbers@ == cell_numbers(grid),
                bad_cell == (|k: int| numbers@[k] != 0 && repeats(numbers@, k)),
                forall|j: int| 0 <= j < k ==> !#[trigger] bad_cell(j),
            decreases numbers.len() - k,
        {
            let number = numbers[k];
            if number != 0 && occurs_before(&numbers, k, number) {
                proof {
                    assert(bad_cell(k as int));
                    lemma_first_bad_is(0, k as int, numbers.len() as int, bad_cell);
                }
                return Err(Error::DuplicateNumber { number });
            }
            assert(!bad_cell(k as int));
            k = k + 1;
        }
        proof {
            lemma_first_bad_is(0, k as int, numbers.len() as int, bad_cell);
        }

        match check_clues(&numbers, &vertical_clues, true) {
            Some(fault) => {
                return Err(fault);
            },
            None => {},
        }
        match check_clues(&numbers, &horizontal_clues, false) {
            Some(fault) => {
                return Err(fault);
            },
            None => {},
        }
        let total_clues: u8 = (horizontal_clues.len() + vertical_clues.len()) as u8;
        Ok(
            CrosswordData {
                width,
                height,
                total_clues,
                vertical_clues,
                horizontal_clues,
                crossword_data,
            },
        )
    }

    /// The payload bytes of the crossword.
    pub fn to_bytes(&self) -> (bytes: Vec<u8>)
        ensures
            bytes@ == crossword_bytes(self@),
    {
        let mut bytes = Vec::new();
        bytes.push(self.width);
        bytes.push(self.height);
        bytes.push(self.total_clues);
        append_clues(&mut bytes, &self.horizontal_clues);
        bytes.push(0);
        append_clues(&mut bytes, &self.vertical_clues);
        bytes.push(0);
        let ghost head = bytes@;
        let mut r: usize = 0;
        while r < self.crossword_data.len()
            invariant
                r <= self.crossword_data.len(),
                bytes@ == head + grid_bytes(grid_view(self.crossword_data@.take(r as int))),
            decreases self.crossword_data.len() - r,
        {
            append_row(&mut bytes, &self.crossword_data[r]);
            proof {
                let upto = grid_view(self.crossword_data@.take(r + 1));
                assert(upto.drop_last() =~= grid_view(self.crossword_data@.take(r as int)));
                assert(upto.last() == self.crossword_data@[r as int]@);
                assert(bytes@ =~= head + grid_bytes(upto));
            }
            r = r + 1;
        }
        assert(self.crossword_data@.take(r as int) =~= self.crossword_data@);
        assert(bytes@ =~= crossword_bytes(self@));
        bytes
    }
}

} // verus!
