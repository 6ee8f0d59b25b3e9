//! Decoding undoes encoding: what is proved of the two together.

use crate::crossword::{
    box_bytes, clue_bytes, clue_numbers, clues_bytes, crossword_bytes, crossword_valid, decode_box, decode_cells,
    decode_crossword, decode_rows, grid_bytes, row_bytes, scan_clues, value_fault, ClueView,
    CrosswordBox, CrosswordView,
};
use crate::error::Error;
use crate::load::{body_of, decode_file};
use crate::utils::{
    be_bytes, be_value, checksum_value, field_at, le_bytes, le_value, lemma_be_roundtrip, lemma_checksum_order,
    lemma_checksum_tells_change, lemma_le_roundtrip, lemma_text_end, lemma_text_end_is, text_at, text_end, widen,
};
use crate::{
    crossword_file, file_bytes, game_of_byte, gamedata_bytes, header_bytes, magic,
    metadata_bytes, Game, GameDataView, MetadataView, TggFileView,
};
use vstd::prelude::*;
use vstd::utf8::{encode_utf8, is_ascii_chars, is_ascii_chars_encode_utf8};

verus! {

/// Whether a text can stand in a file: every character is ASCII and none is
/// the NUL character, which ends a text.
pub open spec fn text_ok(text: Seq<char>) -> bool {
    forall|i: int| 0 <= i < text.len() ==> '\0' < #[trigger] text[i] <= '\u{7f}'
}

/// Whether a clue can stand in a payload: its number is not zero, which
/// closes a list of clues, and its text can stand in a file.
pub open spec fn clue_ok(clue: ClueView) -> bool {
    clue.number != 0 && text_ok(clue.text)
}

/// Whether a crossword can be written and read back: width, height and clue
/// count are not zero; the clue count is the number of clues; each clue can
/// stand in a payload; the grid has `height` rows of `width` cells; and each
/// cell holds a value that a cell may hold.
pub open spec fn puzzle_ok(puzzle: CrosswordView) -> bool {
    &&& puzzle.width != 0
    &&& puzzle.height != 0
    &&& puzzle.total_clues != 0
    &&& puzzle.horizontal.len() + puzzle.vertical.len() == puzzle.total_clues
    &&& forall|i: int| 0 <= i < puzzle.horizontal.len() ==> clue_ok(#[trigger] puzzle.horizontal[i])
    &&& forall|i: int| 0 <= i < puzzle.vertical.len() ==> clue_ok(#[trigger] puzzle.vertical[i])
    &&& puzzle.grid.len() == puzzle.height
    &&& forall|r: int| 0 <= r < puzzle.grid.len() ==> (#[trigger] puzzle.grid[r]).len() == puzzle.width
    &&& forall|r: int, c: int|
        0 <= r < puzzle.grid.len() && 0 <= c < puzzle.grid[r].len() ==> (
        #[trigger] puzzle.grid[r][c]).wf()
}

/// A crossword whose parts are valid can be written and read back, where it
/// has a width, a height and a clue, its clue count is the number of its
/// clues, the texts of its clues can stand in a file, and each cell holds a
/// value that a cell may hold.
pub proof fn lemma_valid_crossword_ok(puzzle: CrosswordView)
    requires
        crossword_valid(
            puzzle.width,
            puzzle.height,
            puzzle.horizontal,
            puzzle.vertical,
            puzzle.grid,
        ),
        puzzle.width != 0,
        puzzle.height != 0,
        puzzle.total_clues != 0,
        puzzle.horizontal.len() + puzzle.vertical.len() == puzzle.total_clues,
        forall|i: int| 0 <= i < puzzle.horizontal.len() ==> text_ok((#[trigger] puzzle.horizontal[i]).text),
        forall|i: int| 0 <= i < puzzle.vertical.len() ==> text_ok((#[trigger] puzzle.vertical[i]).text),
        forall|r: int, c: int|
            0 <= r < puzzle.grid.len() && 0 <= c < puzzle.grid[r].len() ==> (
            #[trigger] puzzle.grid[r][c]).wf(),
    ensures
        puzzle_ok(puzzle),
{
    assert forall|i: int| 0 <= i < puzzle.horizontal.len() implies clue_ok(
        #[trigger] puzzle.horizontal[i],
    ) by {
        assert(clue_numbers(puzzle.horizontal)[i] == puzzle.horizontal[i].number);
    }
    assert forall|i: int| 0 <= i < puzzle.vertical.len() implies clue_ok(
        #[trigger] puzzle.vertical[i],
    ) by {
        assert(clue_numbers(puzzle.vertical)[i] == puzzle.vertical[i].number);
    }
}

/// The bytes of a text that can stand in a file are its characters, one byte
/// each and none of them zero, and read back as the text.
pub proof fn lemma_text_bytes(text: Seq<char>)
    requires
        text_ok(text),
    ensures
        encode_utf8(text).len() == text.len(),
        forall|i: int| 0 <= i < text.len() ==> #[trigger] encode_utf8(text)[i] != 0,
        widen(encode_utf8(text)) == text,
{
    assert(is_ascii_chars(text));
    is_ascii_chars_encode_utf8(text);
    assert forall|i: int| 0 <= i < text.len() implies #[trigger] encode_utf8(text)[i] != 0 by {
        assert(text[i] as u8 == encode_utf8(text)[i]);
    }
    assert forall|i: int| 0 <= i < text.len() implies #[trigger] widen(encode_utf8(text))[i]
        == text[i] by {
        assert(text[i] as u8 == encode_utf8(text)[i]);
    }
    assert(widen(encode_utf8(text)) =~= text);
}

/// The bytes of a list of clues are those of its first clue, then those of
/// the others.
pub proof fn lemma_clues_bytes_front(clues: Seq<ClueView>)
    requires
        clues.len() > 0,
    ensures
        clues_bytes(clues) == clue_bytes(clues[0]) + clues_bytes(clues.drop_first()),
    decreases clues.len(),
{
    if clues.len() == 1 {
        assert(clues.drop_last() =~= Seq::<ClueView>::empty());
        assert(clues.drop_first() =~= Seq::<ClueView>::empty());
        assert(clues_bytes(clues) =~= clue_bytes(clues[0]) + clues_bytes(clues.drop_first()));
    } else {
        lemma_clues_bytes_front(clues.drop_last());
        assert(clues.drop_first().drop_last() =~= clues.drop_last().drop_first());
        assert(clues.drop_first().last() == clues.last());
        assert(clues_bytes(clues) =~= clue_bytes(clues[0]) + clues_bytes(clues.drop_first()));
    }
}

/// Where the bytes of a list of clues stand in `s` from `start` on, with a
/// zero byte behind them, those clues are read there.
pub proof fn lemma_scan_clues(s: Seq<u8>, start: int, clues: Seq<ClueView>)
    requires
        0 <= start,
        start + clues_bytes(clues).len() < s.len(),
        s.subrange(start, start + clues_bytes(clues).len()) == clues_bytes(clues),
        s[start + clues_bytes(clues).len()] == 0,
        forall|i: int| 0 <= i < clues.len() ==> clue_ok(#[trigger] clues[i]),
    ensures
        scan_clues(s, start) == Some((clues, start + clues_bytes(clues).len() + 1)),
    decreases clues.len(),
{
    let all = clues_bytes(clues);
    if clues.len() == 0 {
    } else {
        let first = clues[0];
        let rest = clues.drop_first();
        let text = encode_utf8(first.text);
        let n = text.len() as int;
        lemma_clues_bytes_front(clues);
        lemma_text_bytes(first.text);
        assert(clue_ok(first));
        assert(clue_bytes(first).len() == n + 2);
        assert(all.len() == n + 2 + clues_bytes(rest).len());
        assert forall|j: int| 0 <= j < all.len() implies s[start + j] == all[j] by {
            assert(s.subrange(start, start + all.len())[j] == s[start + j]);
        }
        assert(s[start] == first.number) by {
            assert(all[0] == first.number);
        }
        assert forall|i: int| start + 1 <= i < start + 1 + n implies s[i] != 0 by {
            assert(all[i - start] == text[i - start - 1]);
        }
        assert(s[start + 1 + n] == 0) by {
            assert(all[n + 1] == 0);
        }
        lemma_text_end_is(s, start + 1, start + 1 + n);
        assert(s.subrange(start + 1, start + 1 + n) =~= text) by {
            assert forall|i: int| 0 <= i < n implies s.subrange(start + 1, start + 1 + n)[i]
                == text[i] by {
                assert(all[i + 1] == text[i]);
            }
        }
        assert(text_at(s, start + 1) == first.text);
        let next = start + n + 2;
        assert(s.subrange(next, next + clues_bytes(rest).len()) =~= clues_bytes(rest)) by {
            assert forall|j: int| 0 <= j < clues_bytes(rest).len() implies s[next + j]
                == clues_bytes(rest)[j] by {
                assert(all[n + 2 + j] == clues_bytes(rest)[j]);
            }
        }
        assert forall|i: int| 0 <= i < rest.len() implies clue_ok(#[trigger] rest[i]) by {
            assert(rest[i] == clues[i + 1]);
        }
        lemma_scan_clues(s, next, rest);
        assert(seq![ClueView { number: s[start], text: text_at(s, start + 1) }] + rest =~= clues);
    }
}

/// A cell that holds a value that a cell may hold is read back from its
/// two bytes.
pub proof fn lemma_box_roundtrip(cell: CrosswordBox)
    requires
        value_fault(cell.value) is None,
    ensures
        decode_box(box_bytes(cell)[0], box_bytes(cell)[1]) == Ok::<CrosswordBox, Error>(cell),
{
}

/// A row of cells takes two bytes for each cell.
pub proof fn lemma_row_bytes_len(row: Seq<CrosswordBox>)
    ensures
        row_bytes(row).len() == 2 * row.len(),
    decreases row.len(),
{
    if row.len() > 0 {
        lemma_row_bytes_len(row.drop_last());
    }
}

/// A grid whose rows all have `width` cells takes two bytes for each cell.
pub proof fn lemma_grid_bytes_len(grid: Seq<Seq<CrosswordBox>>, width: nat)
    requires
        forall|r: int| 0 <= r < grid.len() ==> (#[trigger] grid[r]).len() == width,
    ensures
        grid_bytes(grid).len() == 2 * width * grid.len(),
    decreases grid.len(),
{
    if grid.len() > 0 {
        let front = grid.drop_last();
        assert forall|r: int| 0 <= r < front.len() implies (#[trigger] front[r]).len() == width by {
            assert(front[r] == grid[r]);
        }
        lemma_grid_bytes_len(front, width);
        lemma_row_bytes_len(grid.last());
        assert(2 * width * grid.len() == 2 * width * (grid.len() - 1) + 2 * width)
            by (nonlinear_arith);
    } else {
        assert(2 * width * 0 == 0);
    }
}

/// Where the bytes of a row stand in `s` from `base` on, the cells of the
/// row are read there.
pub proof fn lemma_decode_cells(s: Seq<u8>, base: int, row: Seq<CrosswordBox>)
    requires
        0 <= base,
        base + row_bytes(row).len() <= s.len(),
        s.subrange(base, base + row_bytes(row).len()) == row_bytes(row),
        forall|c: int| 0 <= c < row.len() ==> value_fault((#[trigger] row[c]).value) is None,
    ensures
        decode_cells(s, base, row.len()) == Ok::<Seq<CrosswordBox>, Error>(row),
    decreases row.len(),
{
    if row.len() > 0 {
        let front = row.drop_last();
        let all = row_bytes(row);
        lemma_row_bytes_len(row);
        lemma_row_bytes_len(front);
        assert forall|j: int| 0 <= j < all.len() implies s[base + j] == all[j] by {
            assert(s.subrange(base, base + all.len())[j] == s[base + j]);
        }
        assert(s.subrange(base, base + row_bytes(front).len()) =~= row_bytes(front)) by {
            assert forall|j: int| 0 <= j < row_bytes(front).len() implies s[base + j] == row_bytes(
                front,
            )[j] by {
                assert(all[j] == row_bytes(front)[j]);
            }
        }
        assert forall|c: int| 0 <= c < front.len() implies value_fault(
            (#[trigger] front[c]).value,
        ) is None by {
            assert(front[c] == row[c]);
        }
        lemma_decode_cells(s, base, front);
        let k = row.len() - 1;
        assert(s[base + 2 * k] == box_bytes(row.last())[0]) by {
            assert(all[2 * k] == box_bytes(row.last())[0]);
        }
        assert(s[base + 2 * k + 1] == box_bytes(row.last())[1]) by {
            assert(all[2 * k + 1] == box_bytes(row.last())[1]);
        }
        assert(value_fault(row[k].value) is None);
        lemma_box_roundtrip(row.last());
        assert(front.push(row.last()) =~= row);
    } else {
        assert(row =~= Seq::<CrosswordBox>::empty());
    }
}

/// Where the bytes of a grid stand in `s` from `base` on, the rows of the
/// grid are read there.
pub proof fn lemma_decode_rows(s: Seq<u8>, base: int, width: nat, grid: Seq<Seq<CrosswordBox>>)
    requires
        0 <= base,
        base + grid_bytes(grid).len() <= s.len(),
        s.subrange(base, base + grid_bytes(grid).len()) == grid_bytes(grid),
        forall|r: int| 0 <= r < grid.len() ==> (#[trigger] grid[r]).len() == width,
        forall|r: int, c: int|
            0 <= r < grid.len() && 0 <= c < grid[r].len() ==> value_fault(
                (#[trigger] grid[r][c]).value,
            ) is None,
    ensures
        decode_rows(s, base, width, grid.len()) == Ok::<Seq<Seq<CrosswordBox>>, Error>(grid),
    decreases grid.len(),
{
    if grid.len() > 0 {
        let front = grid.drop_last();
        let last = grid.last();
        let all = grid_bytes(grid);
        assert forall|r: int| 0 <= r < front.len() implies (#[trigger] front[r]).len() == width by {
            assert(front[r] == grid[r]);
        }
        assert forall|r: int, c: int| 0 <= r < front.len() && 0 <= c < front[r].len() implies value_fault(
            (#[trigger] front[r][c]).value,
        ) is None by {
            assert(front[r] == grid[r]);
            assert(value_fault(grid[r][c].value) is None);
        }
        lemma_grid_bytes_len(front, width);
        lemma_grid_bytes_len(grid, width);
        lemma_row_bytes_len(last);
        let k = grid.len() - 1;
        assert(2 * width * grid.len() == 2 * width * k + 2 * width) by (nonlinear_arith)
            requires
                k == grid.len() - 1,
        ;
        assert forall|j: int| 0 <= j < all.len() implies s[base + j] == all[j] by {
            assert(s.subrange(base, base + all.len())[j] == s[base + j]);
        }
        assert(s.subrange(base, base + grid_bytes(front).len()) =~= grid_bytes(front)) by {
            assert forall|j: int| 0 <= j < grid_bytes(front).len() implies s[base + j]
                == grid_bytes(front)[j] by {
                assert(all[j] == grid_bytes(front)[j]);
            }
        }
        lemma_decode_rows(s, base, width, front);
        let row_base = base + 2 * width * k;
        assert(s.subrange(row_base, row_base + row_bytes(last).len()) =~= row_bytes(last)) by {
            assert forall|j: int| 0 <= j < row_bytes(last).len() implies s[row_base + j]
                == row_bytes(last)[j] by {
                assert(all[2 * width * k + j] == row_bytes(last)[j]);
            }
        }
        assert forall|c: int| 0 <= c < last.len() implies value_fault(
            (#[trigger] last[c]).value,
        ) is None by {
            assert(value_fault(grid[k][c].value) is None);
        }
        lemma_decode_cells(s, row_base, last);
        assert(last.len() == width);
        assert(front.push(last) =~= grid);
    } else {
        assert(grid =~= Seq::<Seq<CrosswordBox>>::empty());
    }
}

/// Decoding undoes encoding: the payload bytes of a crossword that can be
/// written and read back decode to that crossword.
pub proof fn lemma_crossword_roundtrip(puzzle: CrosswordView)
    requires
        puzzle_ok(puzzle),
    ensures
        decode_crossword(crossword_bytes(puzzle)) == Ok::<CrosswordView, Error>(puzzle),
{
    let s = crossword_bytes(puzzle);
    let h = clues_bytes(puzzle.horizontal);
    let v = clues_bytes(puzzle.vertical);
    let g = grid_bytes(puzzle.grid);
    let middle: int = 3 + h.len() as int + 1;
    let base: int = middle + v.len() as int + 1;
    assert(s.len() == base + g.len());
    assert(s.subrange(3, 3 + h.len() as int) =~= h);
    assert(s[3 + h.len() as int] == 0);
    lemma_scan_clues(s, 3, puzzle.horizontal);
    assert(s.subrange(middle, middle + v.len()) =~= v);
    assert(s[middle + v.len()] == 0);
    lemma_scan_clues(s, middle, puzzle.vertical);
    lemma_grid_bytes_len(puzzle.grid, puzzle.width as nat);
    assert(s.subrange(base, base + g.len()) =~= g);
    lemma_decode_rows(s, base, puzzle.width as nat, puzzle.grid);
    assert(puzzle.width * puzzle.height * 2 == 2 * puzzle.width * puzzle.height)
        by (nonlinear_arith);
}

/// The cells that are read are as many as were asked for, and each holds a
/// value that a cell may hold.
pub proof fn lemma_decoded_cells(s: Seq<u8>, base: int, count: nat)
    requires
        decode_cells(s, base, count) is Ok,
    ensures
        decode_cells(s, base, count)->Ok_0.len() == count,
        forall|c: int| 0 <= c < count ==> (#[trigger] decode_cells(s, base, count)->Ok_0[c]).wf(),
    decreases count,
{
    if count > 0 {
        lemma_decoded_cells(s, base, (count - 1) as nat);
    }
}

/// The rows that are read are as many as were asked for, each of `width`
/// cells, and each cell holds a value that a cell may hold.
pub proof fn lemma_decoded_rows(s: Seq<u8>, base: int, width: nat, rows: nat)
    requires
        decode_rows(s, base, width, rows) is Ok,
    ensures
        decode_rows(s, base, width, rows)->Ok_0.len() == rows,
        forall|r: int|
            0 <= r < rows ==> (#[trigger] decode_rows(s, base, width, rows)->Ok_0[r]).len()
                == width,
        forall|r: int, c: int|
            0 <= r < rows && 0 <= c < width ==> (#[trigger] decode_rows(
                s,
                base,
                width,
                rows,
            )->Ok_0[r][c]).wf(),
    decreases rows,
{
    if rows > 0 {
        lemma_decoded_rows(s, base, width, (rows - 1) as nat);
        lemma_decoded_cells(s, base + 2 * width * (rows - 1), width);
    }
}

/// The clues that are read have numbers other than zero.
pub proof fn lemma_scanned_clues(s: Seq<u8>, start: int)
    requires
        scan_clues(s, start) is Some,
    ensures
        forall|i: int|
            0 <= i < scan_clues(s, start)->Some_0.0.len() ==> (#[trigger] scan_clues(
                s,
                start,
            )->Some_0.0[i]).number != 0,
    decreases s.len() - start,
{
    if 0 <= start < s.len() && s[start] != 0 {
        lemma_text_end(s, start + 1);
        lemma_scanned_clues(s, text_end(s, start + 1) + 1);
    }
}

/// What decoding promises of a crossword, whatever the payload: width,
/// height and clue count are not zero; the clue count is the number of
/// clues; no clue has the number zero; the grid has `height` rows of `width`
/// cells; and each cell holds a value that a cell may hold.
pub proof fn lemma_decoded_crossword(s: Seq<u8>)
    requires
        decode_crossword(s) is Ok,
    ensures
        ({
            let puzzle = decode_crossword(s)->Ok_0;
            &&& puzzle.width != 0
            &&& puzzle.height != 0
            &&& puzzle.total_clues != 0
            &&& puzzle.horizontal.len() + puzzle.vertical.len() == puzzle.total_clues
            &&& forall|i: int|
                0 <= i < puzzle.horizontal.len() ==> (#[trigger] puzzle.horizontal[i]).number != 0
            &&& forall|i: int|
                0 <= i < puzzle.vertical.len() ==> (#[trigger] puzzle.vertical[i]).number != 0
            &&& puzzle.grid.len() == puzzle.height
            &&& forall|r: int|
                0 <= r < puzzle.grid.len() ==> (#[trigger] puzzle.grid[r]).len() == puzzle.width
            &&& forall|r: int, c: int|
                0 <= r < puzzle.grid.len() && 0 <= c < puzzle.grid[r].len() ==> (
                #[trigger] puzzle.grid[r][c]).wf()
        }),
{
    let horizontal = scan_clues(s, 3)->Some_0;
    let vertical = scan_clues(s, horizontal.1)->Some_0;
    lemma_scanned_clues(s, 3);
    lemma_scanned_clues(s, horizontal.1);
    lemma_decoded_rows(s, vertical.1, s[0] as nat, s[1] as nat);
}

/// Whether the texts of all clues of a list are ASCII.
pub open spec fn clues_ascii(clues: Seq<ClueView>) -> bool {
    forall|i: int| 0 <= i < clues.len() ==> is_ascii_chars((#[trigger] clues[i]).text)
}

/// Bytes that read as ASCII characters are the bytes of those characters.
proof fn lemma_ascii_bytes(bytes: Seq<u8>)
    requires
        is_ascii_chars(widen(bytes)),
    ensures
        encode_utf8(widen(bytes)) == bytes,
{
    let text = widen(bytes);
    is_ascii_chars_encode_utf8(text);
    assert forall|i: int| 0 <= i < bytes.len() implies encode_utf8(text)[i] == bytes[i] by {
        assert(text[i] as u8 == encode_utf8(text)[i]);
        assert('\0' <= text[i] <= '\u{7f}');
    }
    assert(encode_utf8(text) =~= bytes);
}

/// The clues that are read, written again, are the bytes they were read
/// from, where their texts are ASCII.
pub proof fn lemma_scanned_clues_bytes(s: Seq<u8>, start: int)
    requires
        scan_clues(s, start) is Some,
        clues_ascii(scan_clues(s, start)->Some_0.0),
    ensures
        start < scan_clues(s, start)->Some_0.1 <= s.len(),
        s.subrange(start, scan_clues(s, start)->Some_0.1) == clues_bytes(
            scan_clues(s, start)->Some_0.0,
        ) + seq![0u8],
    decreases s.len() - start,
{
    let clues = scan_clues(s, start)->Some_0.0;
    let next = scan_clues(s, start)->Some_0.1;
    if s[start] == 0 {
        assert(s.subrange(start, next) =~= clues_bytes(clues) + seq![0u8]);
    } else {
        let end = text_end(s, start + 1);
        lemma_text_end(s, start + 1);
        let rest = scan_clues(s, end + 1)->Some_0.0;
        let first = ClueView { number: s[start], text: text_at(s, start + 1) };
        assert(clues == seq![first] + rest);
        assert(clues[0] == first);
        assert(clues.drop_first() =~= rest);
        assert forall|i: int| 0 <= i < rest.len() implies is_ascii_chars(
            (#[trigger] rest[i]).text,
        ) by {
            assert(rest[i] == clues[i + 1]);
        }
        lemma_scanned_clues_bytes(s, end + 1);
        lemma_clues_bytes_front(clues);
        lemma_ascii_bytes(s.subrange(start + 1, end));
        assert(clue_bytes(first) =~= s.subrange(start, end + 1));
        assert(s.subrange(start, next) =~= s.subrange(start, end + 1) + s.subrange(end + 1, next));
        assert(clues_bytes(clues) + seq![0u8] =~= clue_bytes(first) + (clues_bytes(rest) + seq![
            0u8,
        ]));
    }
}

/// The cells that are read, written again, are the bytes they were read
/// from.
pub proof fn lemma_decoded_cells_bytes(s: Seq<u8>, base: int, count: nat)
    requires
        0 <= base,
        base + 2 * count <= s.len(),
        decode_cells(s, base, count) is Ok,
    ensures
        row_bytes(decode_cells(s, base, count)->Ok_0) == s.subrange(base, base + 2 * count),
    decreases count,
{
    let row = decode_cells(s, base, count)->Ok_0;
    if count == 0 {
        assert(row_bytes(row) =~= s.subrange(base, base));
    } else {
        let k = count - 1;
        let front = decode_cells(s, base, k as nat)->Ok_0;
        lemma_decoded_cells_bytes(s, base, k as nat);
        let cell = decode_box(s[base + 2 * k], s[base + 2 * k + 1])->Ok_0;
        assert(row == front.push(cell));
        assert(row.drop_last() =~= front);
        assert(box_bytes(cell) =~= s.subrange(base + 2 * k, base + 2 * k + 2));
        assert(s.subrange(base, base + 2 * count) =~= s.subrange(base, base + 2 * k) + s.subrange(
            base + 2 * k,
            base + 2 * k + 2,
        ));
    }
}

/// The rows that are read, written again, are the bytes they were read from.
pub proof fn lemma_decoded_rows_bytes(s: Seq<u8>, base: int, width: nat, rows: nat)
    requires
        0 <= base,
        base + 2 * width * rows <= s.len(),
        decode_rows(s, base, width, rows) is Ok,
    ensures
        grid_bytes(decode_rows(s, base, width, rows)->Ok_0) == s.subrange(
            base,
            base + 2 * width * rows,
        ),
    decreases rows,
{
    let grid = decode_rows(s, base, width, rows)->Ok_0;
    if rows == 0 {
        assert(2 * width * 0 == 0);
        assert(grid_bytes(grid) =~= s.subrange(base, base));
    } else {
        let k = rows - 1;
        let row_base = base + 2 * width * k;
        assert(2 * width * rows == 2 * width * k + 2 * width) by (nonlinear_arith)
            requires
                k == rows - 1,
        ;
        assert(0 <= 2 * width * k) by (nonlinear_arith)
            requires
                0 <= k,
                0 <= width,
        ;
        let front = decode_rows(s, base, width, k as nat)->Ok_0;
        let row = decode_cells(s, row_base, width)->Ok_0;
        lemma_decoded_rows_bytes(s, base, width, k as nat);
        lemma_decoded_cells_bytes(s, row_base, width);
        assert(grid == front.push(row));
        assert(grid.drop_last() =~= front);
        assert(s.subrange(base, base + 2 * width * rows) =~= s.subrange(base, row_base)
            + s.subrange(row_base, row_base + 2 * width));
    }
}

/// Encoding undoes decoding: a crossword that a payload decodes to, and whose
/// clue texts are ASCII, is encoded to that payload.
pub proof fn lemma_crossword_bytes_of_decoded(s: Seq<u8>)
    requires
        decode_crossword(s) is Ok,
        clues_ascii(decode_crossword(s)->Ok_0.horizontal),
        clues_ascii(decode_crossword(s)->Ok_0.vertical),
    ensures
        crossword_bytes(decode_crossword(s)->Ok_0) == s,
{
    let puzzle = decode_crossword(s)->Ok_0;
    let middle = scan_clues(s, 3)->Some_0.1;
    let base = scan_clues(s, middle)->Some_0.1;
    lemma_scanned_clues_bytes(s, 3);
    lemma_scanned_clues_bytes(s, middle);
    assert(s[0] * s[1] * 2 == 2 * (s[0] as nat) * (s[1] as nat)) by (nonlinear_arith);
    lemma_decoded_rows_bytes(s, base, s[0] as nat, s[1] as nat);
    assert(s =~= seq![s[0], s[1], s[2]] + s.subrange(3, middle) + s.subrange(middle, base)
        + s.subrange(base, s.len() as int));
    assert(crossword_bytes(puzzle) =~= seq![s[0], s[1], s[2]] + (clues_bytes(puzzle.horizontal)
        + seq![0u8]) + (clues_bytes(puzzle.vertical) + seq![0u8]) + grid_bytes(puzzle.grid));
}

/// Whether a text can stand as title, description or author: it is not
/// empty and can stand in a file.
pub open spec fn label_ok(text: Seq<char>) -> bool {
    text.len() > 0 && text_ok(text)
}

/// Whether a file can be written and read back: its texts can stand as
/// labels; its payload is a crossword that can be written and read back, and
/// the header says so; and the checksum in header and footer is that of the
/// metadata bytes and the payload bytes together.
pub open spec fn file_ok(file: TggFileView) -> bool {
    &&& label_ok(file.metadata.title)
    &&& label_ok(file.metadata.description)
    &&& label_ok(file.metadata.author)
    &&& file.header.game == Game::Crossword
    &&& file.gamedata matches GameDataView::Crossword(puzzle) && puzzle_ok(puzzle)
    &&& file.header.file_checksum == checksum_value(
        metadata_bytes(file.metadata) + gamedata_bytes(file.gamedata),
    )
    &&& file.footer.file_checksum == file.header.file_checksum
}

/// Where the bytes of a label stand in `body` from `start` on, with a zero
/// byte behind them, the label is read there.
proof fn lemma_field_at(body: Seq<u8>, start: int, text: Seq<char>)
    requires
        0 <= start,
        text_ok(text),
        start + encode_utf8(text).len() < body.len(),
        body.subrange(start, start + encode_utf8(text).len()) == encode_utf8(text),
        body[start + encode_utf8(text).len()] == 0,
    ensures
        field_at(body, start) == (text, start + text.len() + 1),
{
    let bytes = encode_utf8(text);
    lemma_text_bytes(text);
    assert forall|i: int| start <= i < start + bytes.len() implies body[i] != 0 by {
        assert(body.subrange(start, start + bytes.len())[i - start] == body[i]);
        assert(bytes[i - start] != 0);
    }
    lemma_text_end_is(body, start, start + bytes.len());
}

/// The offset in the metadata bytes at which the creation date stands:
/// behind the three labels and their terminators.
pub open spec fn date_offset(metadata: MetadataView) -> int {
    metadata.title.len() as int + 1 + metadata.description.len() + 1 + metadata.author.len() + 1
}

/// Where metadata bytes stand at the front of `body`, the three labels are
/// read there one after the other, and the creation date and the payload
/// checksum stand behind them.
proof fn lemma_metadata_read(metadata: MetadataView, body: Seq<u8>)
    requires
        label_ok(metadata.title),
        label_ok(metadata.description),
        label_ok(metadata.author),
        metadata_bytes(metadata).len() <= body.len(),
        body.subrange(0, metadata_bytes(metadata).len() as int) == metadata_bytes(metadata),
    ensures
        metadata_bytes(metadata).len() == date_offset(metadata) + 6,
        field_at(body, 0) == (metadata.title, metadata.title.len() as int + 1),
        field_at(body, metadata.title.len() as int + 1) == (
            metadata.description,
            metadata.title.len() as int + 1 + metadata.description.len() + 1,
        ),
        field_at(body, metadata.title.len() as int + 1 + metadata.description.len() + 1) == (
            metadata.author,
            date_offset(metadata),
        ),
        be_value(body.subrange(date_offset(metadata), date_offset(metadata) + 4))
            == metadata.creation_date,
        le_value(body[date_offset(metadata) + 4], body[date_offset(metadata) + 5])
            == metadata.gamedata_checksum,
{
    let meta = metadata_bytes(metadata);
    let title = encode_utf8(metadata.title);
    let description = encode_utf8(metadata.description);
    let author = encode_utf8(metadata.author);
    lemma_text_bytes(metadata.title);
    lemma_text_bytes(metadata.description);
    lemma_text_bytes(metadata.author);
    lemma_le_roundtrip(metadata.gamedata_checksum);
    lemma_be_roundtrip(metadata.creation_date);
    let after_title: int = title.len() as int + 1;
    let after_description: int = after_title + description.len() + 1;
    let after_author: int = after_description + author.len() + 1;
    assert(meta.len() == after_author + 6);
    assert forall|j: int| 0 <= j < meta.len() implies body[j] == meta[j] by {
        assert(body.subrange(0, meta.len() as int)[j] == body[j]);
    }
    assert(body.subrange(0, title.len() as int) =~= title) by {
        assert forall|j: int| 0 <= j < title.len() implies body[j] == title[j] by {
            assert(meta[j] == title[j]);
        }
    }
    assert(body[title.len() as int] == 0) by {
        assert(meta[title.len() as int] == 0);
    }
    lemma_field_at(body, 0, metadata.title);
    assert(body.subrange(after_title, after_title + description.len()) =~= description) by {
        assert forall|j: int| 0 <= j < description.len() implies body[after_title + j]
            == description[j] by {
            assert(meta[after_title + j] == description[j]);
        }
    }
    assert(body[after_title + description.len()] == 0) by {
        assert(meta[after_title + description.len()] == 0);
    }
    lemma_field_at(body, after_title, metadata.description);
    assert(body.subrange(after_description, after_description + author.len()) =~= author) by {
        assert forall|j: int| 0 <= j < author.len() implies body[after_description + j]
            == author[j] by {
            assert(meta[after_description + j] == author[j]);
        }
    }
    assert(body[after_description + author.len()] == 0) by {
        assert(meta[after_description + author.len()] == 0);
    }
    lemma_field_at(body, after_description, metadata.author);
    assert(body.subrange(after_author, after_author + 4) =~= be_bytes(metadata.creation_date)) by {
        assert forall|j: int| 0 <= j < 4 implies body[after_author + j] == be_bytes(
            metadata.creation_date,
        )[j] by {
            assert(meta[after_author + j] == be_bytes(metadata.creation_date)[j]);
        }
    }
    assert(body[after_author + 4] == le_bytes(metadata.gamedata_checksum)[0]) by {
        assert(meta[after_author + 4] == le_bytes(metadata.gamedata_checksum)[0]);
    }
    assert(body[after_author + 5] == le_bytes(metadata.gamedata_checksum)[1]) by {
        assert(meta[after_author + 5] == le_bytes(metadata.gamedata_checksum)[1]);
    }
}

/// The bytes of a file are its header, its body and its footer: the body is
/// the metadata bytes and the payload bytes.
proof fn lemma_file_parts(file: TggFileView)
    ensures
        file_bytes(file).len() == 17 + metadata_bytes(file.metadata).len() + gamedata_bytes(
            file.gamedata,
        ).len() + 2,
        file_bytes(file).subrange(0, 14) == magic(),
        game_of_byte(file_bytes(file)[14]) == Some(file.header.game),
        le_value(file_bytes(file)[15], file_bytes(file)[16]) == file.header.file_checksum,
        le_value(
            file_bytes(file)[file_bytes(file).len() - 2],
            file_bytes(file)[file_bytes(file).len() - 1],
        ) == file.footer.file_checksum,
        body_of(file_bytes(file)) == metadata_bytes(file.metadata) + gamedata_bytes(file.gamedata),
{
    let s = file_bytes(file);
    let head = header_bytes(file.header);
    let foot = le_bytes(file.footer.file_checksum);
    lemma_le_roundtrip(file.header.file_checksum);
    lemma_le_roundtrip(file.footer.file_checksum);
    assert(head.len() == 17);
    assert(foot.len() == 2);
    assert(s.subrange(0, 14) =~= magic());
    assert(s[14] == head[14]);
    assert(s[15] == head[15]);
    assert(s[16] == head[16]);
    assert(s[s.len() - 2] == foot[0]);
    assert(s[s.len() - 1] == foot[1]);
    assert(body_of(s) =~= metadata_bytes(file.metadata) + gamedata_bytes(file.gamedata));
}

/// The two parts of a concatenation are found in it again.
proof fn lemma_concat_parts(a: Seq<u8>, b: Seq<u8>)
    ensures
        (a + b).len() == a.len() + b.len(),
        (a + b).subrange(0, a.len() as int) == a,
        (a + b).subrange(a.len() as int, (a + b).len() as int) == b,
{
    assert((a + b).subrange(0, a.len() as int) =~= a);
    assert((a + b).subrange(a.len() as int, (a + b).len() as int) =~= b);
}

/// The payload of a crossword holds three bytes at least.
proof fn lemma_payload_len(puzzle: CrosswordView)
    ensures
        crossword_bytes(puzzle).len() >= 3,
{
}

/// Decoding undoes encoding: the bytes of a file that can be written and
/// read back decode to that file.
pub proof fn lemma_file_roundtrip(file: TggFileView)
    requires
        file_ok(file),
    ensures
        decode_file(file_bytes(file)) == Ok::<TggFileView, Error>(file),
{
    let s = file_bytes(file);
    let meta = metadata_bytes(file.metadata);
    let payload = gamedata_bytes(file.gamedata);
    let puzzle = file.gamedata->Crossword_0;
    let body = body_of(s);
    let offset = date_offset(file.metadata);
    assert(body == meta + payload && s.len() >= 19 && s.subrange(0, 14) == magic()
        && game_of_byte(s[14]) == Some(file.header.game) && le_value(s[15], s[16])
        == file.header.file_checksum && le_value(s[s.len() - 2], s[s.len() - 1])
        == file.footer.file_checksum) by {
        lemma_file_parts(file);
    }
    assert(body.len() == meta.len() + payload.len() && body.subrange(0, meta.len() as int) == meta
        && body.subrange(meta.len() as int, body.len() as int) == payload) by {
        lemma_concat_parts(meta, payload);
    }
    assert(payload.len() >= 3) by {
        lemma_payload_len(puzzle);
    }
    assert(decode_crossword(payload) == Ok::<CrosswordView, Error>(puzzle)) by {
        lemma_crossword_roundtrip(puzzle);
    }
    assert(meta.len() == offset + 6 && field_at(body, 0) == (
        file.metadata.title,
        file.metadata.title.len() as int + 1,
    ) && field_at(body, file.metadata.title.len() as int + 1) == (
        file.metadata.description,
        file.metadata.title.len() as int + 1 + file.metadata.description.len() + 1,
    ) && field_at(
        body,
        file.metadata.title.len() as int + 1 + file.metadata.description.len() + 1,
    ) == (file.metadata.author, offset) && be_value(body.subrange(offset, offset + 4))
        == file.metadata.creation_date && le_value(body[offset + 4], body[offset + 5])
        == file.metadata.gamedata_checksum) by {
        lemma_metadata_read(file.metadata, body);
    }
}

/// The file that is made for a crossword can be written and read back,
/// where its texts can stand as labels and the crossword can be written and
/// read back.
pub proof fn lemma_crossword_file_ok(
    title: Seq<char>,
    description: Seq<char>,
    author: Seq<char>,
    creation_date: u32,
    puzzle: CrosswordView,
)
    requires
        label_ok(title),
        label_ok(description),
        label_ok(author),
        puzzle_ok(puzzle),
    ensures
        file_ok(crossword_file(title, description, author, creation_date, puzzle)),
{
    let file = crossword_file(title, description, author, creation_date, puzzle);
    lemma_checksum_order(crossword_bytes(puzzle), metadata_bytes(file.metadata));
}

/// A change of one byte of the body is told: where a file decodes, the same
/// bytes with one byte of the body changed do not. They are refused for
/// their checksum, unless the change leaves one of the labels empty or too
/// few bytes behind them.
pub proof fn lemma_body_change_refused(s: Seq<u8>, i: int, b: u8)
    requires
        decode_file(s) is Ok,
        17 <= i < s.len() - 2,
        b != s[i],
    ensures
        decode_file(s.update(i, b)) is Err,
        match decode_file(s.update(i, b))->Err_0 {
            Error::TitleIsEmpty => true,
            Error::DescriptionIsEmpty => true,
            Error::AuthorIsEmpty => true,
            Error::InsufficientMetadataBytes { .. } => true,
            Error::HeaderChecksumMismatch { expected, found } => expected == le_value(s[15], s[16])
                && found == checksum_value(body_of(s.update(i, b))),
            _ => false,
        },
{
    let t = s.update(i, b);
    assert(t.subrange(0, 14) =~= s.subrange(0, 14));
    assert(body_of(t) =~= body_of(s).update(i - 17, b));
    lemma_checksum_tells_change(body_of(s), i - 17, b);
}

} // verus!
