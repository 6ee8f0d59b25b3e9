use tgg::crossword::{
    parse_crossword_clue, CrosswordBox, CrosswordBoxValue, CrosswordClue, CrosswordData,
};
use tgg::error::Error;

fn cell(number: u8, value: CrosswordBoxValue) -> CrosswordBox {
    CrosswordBox::new(number, value).unwrap()
}

fn letter(number: u8, c: char) -> CrosswordBox {
    cell(number, CrosswordBoxValue::Letter(c))
}

fn solid() -> CrosswordBox {
    cell(0, CrosswordBoxValue::Solid)
}

/// A three by three grid: CAT across the top, TAB down the right.
fn cat_grid() -> Vec<Vec<CrosswordBox>> {
    vec![
        vec![letter(1, 'C'), letter(0, 'A'), letter(2, 'T')],
        vec![solid(), solid(), letter(0, 'A')],
        vec![solid(), solid(), letter(0, 'B')],
    ]
}

fn cat_puzzle() -> CrosswordData {
    CrosswordData::new(
        3,
        3,
        vec![CrosswordClue::new(1, "Good pet")],
        vec![CrosswordClue::new(2, "Starts a paragraph")],
        cat_grid(),
    )
    .unwrap()
}

fn cat_bytes() -> Vec<u8> {
    let mut bytes = vec![3u8, 3, 2, 1];
    bytes.extend_from_slice(b"Good pet\0");
    bytes.push(0);
    bytes.push(2);
    bytes.extend_from_slice(b"Starts a paragraph\0");
    bytes.push(0);
    bytes.extend_from_slice(&[1, b'C', 0, b'A', 2, b'T']);
    bytes.extend_from_slice(&[0, b'#', 0, b'#', 0, b'A']);
    bytes.extend_from_slice(&[0, b'#', 0, b'#', 0, b'B']);
    bytes
}

#[test]
fn letter_must_be_an_upper_case_ascii_letter() {
    assert_eq!(
        CrosswordBox::new(1, CrosswordBoxValue::Letter('a')),
        Err(Error::NonUppercaseCharacter)
    );
    assert_eq!(
        CrosswordBox::new(1, CrosswordBoxValue::Letter('Ω')),
        Err(Error::NonAsciiCharacter)
    );
    assert_eq!(
        CrosswordBox::new(1, CrosswordBoxValue::Letter('é')),
        Err(Error::NonAsciiCharacter)
    );
    assert_eq!(
        CrosswordBox::new(1, CrosswordBoxValue::Letter('7')),
        Err(Error::NonAlphabeticCharacter)
    );
    assert_eq!(
        CrosswordBox::new(1, CrosswordBoxValue::Letter(' ')),
        Err(Error::NonAlphabeticCharacter)
    );
    let made = CrosswordBox::new(9, CrosswordBoxValue::Letter('C')).unwrap();
    assert_eq!(made.number, 9);
    assert_eq!(made.value, CrosswordBoxValue::Letter('C'));
    assert_eq!(made.value.to_byte(), 0x43);
    assert_eq!(made.to_bytes(), vec![9, 0x43]);
}

#[test]
fn empty_and_solid_cells_are_always_accepted() {
    assert_eq!(cell(0, CrosswordBoxValue::Empty).to_bytes(), vec![0, 0x20]);
    assert_eq!(cell(200, CrosswordBoxValue::Solid).to_bytes(), vec![200, 0x23]);
}

#[test]
fn cell_values_and_their_bytes() {
    assert_eq!(CrosswordBoxValue::Empty.to_byte(), 0x20);
    assert_eq!(CrosswordBoxValue::Solid.to_byte(), 0x23);
    assert_eq!(CrosswordBoxValue::Letter('Z').to_byte(), 0x5A);
    assert_eq!(CrosswordBoxValue::from_byte(0x20), Ok(CrosswordBoxValue::Empty));
    assert_eq!(CrosswordBoxValue::from_byte(0x23), Ok(CrosswordBoxValue::Solid));
    assert_eq!(CrosswordBoxValue::from_byte(b'Q'), Ok(CrosswordBoxValue::Letter('Q')));
    assert_eq!(CrosswordBoxValue::from_byte(b'q'), Ok(CrosswordBoxValue::Letter('q')));
    assert_eq!(
        CrosswordBoxValue::from_byte(b'1'),
        Err(Error::InvalidCrosswordBoxByte { found: b'1' })
    );
    assert_eq!(
        CrosswordBoxValue::from_byte(0),
        Err(Error::InvalidCrosswordBoxByte { found: 0 })
    );
    assert_eq!(
        CrosswordBoxValue::from_byte(0xC9),
        Err(Error::InvalidCrosswordBoxByte { found: 0xC9 })
    );
}

#[test]
fn cell_values_as_text() {
    assert_eq!(CrosswordBoxValue::Empty.to_string(), " ");
    assert_eq!(CrosswordBoxValue::Solid.to_string(), "#");
    assert_eq!(CrosswordBoxValue::Letter('K').to_string(), "K");
}

#[test]
fn clue_bytes_are_number_text_terminator() {
    let clue = CrosswordClue::new(4, "Front");
    assert_eq!(clue.number, 4);
    assert_eq!(clue.value, "Front");
    assert_eq!(clue.to_bytes(), vec![4, b'F', b'r', b'o', b'n', b't', 0]);
    assert_eq!(CrosswordClue::new(1, "").to_bytes(), vec![1, 0]);
}

#[test]
fn a_clue_is_parsed_with_the_offset_behind_it() {
    let bytes = [9u8, 7, b'h', b'i', 0, 5];
    let (clue, next) = parse_crossword_clue(&bytes, 1).unwrap();
    assert_eq!(clue, CrosswordClue::new(7, "hi"));
    assert_eq!(next, 5);
    assert_eq!(parse_crossword_clue(&bytes, 5), None);
    assert_eq!(parse_crossword_clue(&bytes, 6), None);
    assert_eq!(parse_crossword_clue(&[7, b'h', b'i'], 0), None);
}

#[test]
fn a_valid_crossword_is_made() {
    let puzzle = cat_puzzle();
    assert_eq!(puzzle.width, 3);
    assert_eq!(puzzle.height, 3);
    assert_eq!(puzzle.total_clues, 2);
    assert_eq!(puzzle.horizontal_clues, vec![CrosswordClue::new(1, "Good pet")]);
    assert_eq!(puzzle.vertical_clues, vec![CrosswordClue::new(2, "Starts a paragraph")]);
    assert_eq!(puzzle.crossword_data, cat_grid());
}

#[test]
fn crossword_bytes_follow_the_layout() {
    assert_eq!(cat_puzzle().to_bytes(), cat_bytes());
}

#[test]
fn decoding_undoes_encoding() {
    let puzzle = cat_puzzle();
    assert_eq!(CrosswordData::load(&puzzle.to_bytes()), Ok(puzzle));
}

#[test]
fn the_height_must_be_the_number_of_rows() {
    assert_eq!(
        CrosswordData::new(3, 2, vec![], vec![], cat_grid()),
        Err(Error::HeightCrosswordDataMismatch { height: 2, crossword_height: 3 })
    );
}

#[test]
fn the_width_must_be_the_length_of_each_row() {
    let mut grid = cat_grid();
    grid[1].pop();
    grid[2].push(solid());
    assert_eq!(
        CrosswordData::new(3, 3, vec![], vec![], grid),
        Err(Error::WidthCrosswordDataMismatch { width: 3, crossword_width: 2 })
    );
}

#[test]
fn no_number_but_zero_may_stand_in_two_cells() {
    let mut grid = cat_grid();
    grid[2][0] = cell(2, CrosswordBoxValue::Solid);
    assert_eq!(
        CrosswordData::new(3, 3, vec![], vec![], grid),
        Err(Error::DuplicateNumber { number: 2 })
    );
}

#[test]
fn the_first_repeated_number_is_reported() {
    let grid = vec![vec![letter(3, 'A'), letter(5, 'B'), letter(5, 'C'), letter(3, 'D')]];
    assert_eq!(
        CrosswordData::new(4, 1, vec![], vec![], grid),
        Err(Error::DuplicateNumber { number: 5 })
    );
}

#[test]
fn a_clue_must_have_the_number_of_a_cell() {
    assert_eq!(
        CrosswordData::new(
            3,
            3,
            vec![CrosswordClue::new(8, "x")],
            vec![CrosswordClue::new(2, "ok"), CrosswordClue::new(9, "y")],
            cat_grid()
        ),
        Err(Error::VerticalClueContainsInvalidNumber { number: 9 })
    );
    assert_eq!(
        CrosswordData::new(
            3,
            3,
            vec![CrosswordClue::new(1, "ok"), CrosswordClue::new(8, "x")],
            vec![CrosswordClue::new(2, "ok")],
            cat_grid()
        ),
        Err(Error::HorizontalClueContainsInvalidNumber { number: 8 })
    );
}

#[test]
fn no_two_clues_of_one_direction_share_a_number() {
    assert_eq!(
        CrosswordData::new(
            3,
            3,
            vec![CrosswordClue::new(1, "a"), CrosswordClue::new(1, "b")],
            vec![CrosswordClue::new(2, "a"), CrosswordClue::new(2, "b")],
            cat_grid()
        ),
        Err(Error::VerticalClueContainsDuplicate { number: 2 })
    );
    assert_eq!(
        CrosswordData::new(
            3,
            3,
            vec![CrosswordClue::new(1, "a"), CrosswordClue::new(2, "b"), CrosswordClue::new(1, "c")],
            vec![CrosswordClue::new(2, "a")],
            cat_grid()
        ),
        Err(Error::HorizontalClueContainsDuplicate { number: 1 })
    );
}

#[test]
fn a_number_may_have_a_clue_in_each_direction() {
    let puzzle = CrosswordData::new(
        3,
        3,
        vec![CrosswordClue::new(1, "across"), CrosswordClue::new(2, "across")],
        vec![CrosswordClue::new(2, "down"), CrosswordClue::new(1, "down")],
        cat_grid(),
    )
    .unwrap();
    assert_eq!(puzzle.total_clues, 4);
}

#[test]
fn a_payload_needs_three_bytes() {
    assert_eq!(CrosswordData::load(&[]), Err(Error::UnexpectedEndOfFile));
    assert_eq!(CrosswordData::load(&[3, 3]), Err(Error::UnexpectedEndOfFile));
}

#[test]
fn width_height_and_clue_count_are_not_zero() {
    assert_eq!(CrosswordData::load(&[0, 3, 2]), Err(Error::WidthOrHeightIsZero));
    assert_eq!(CrosswordData::load(&[3, 0, 2]), Err(Error::WidthOrHeightIsZero));
    assert_eq!(CrosswordData::load(&[0, 0, 0]), Err(Error::WidthOrHeightIsZero));
    assert_eq!(CrosswordData::load(&[3, 3, 0]), Err(Error::TotalCluesIsZero));
}

#[test]
fn a_payload_that_ends_in_its_clues_is_refused() {
    assert_eq!(CrosswordData::load(&[3, 3, 2]), Err(Error::UnexpectedEndOfFile));
    assert_eq!(CrosswordData::load(&[3, 3, 2, 1, b'a']), Err(Error::UnexpectedEndOfFile));
    assert_eq!(CrosswordData::load(&[3, 3, 2, 1, b'a', 0]), Err(Error::UnexpectedEndOfFile));
    assert_eq!(CrosswordData::load(&[3, 3, 2, 1, b'a', 0, 0]), Err(Error::UnexpectedEndOfFile));
    assert_eq!(
        CrosswordData::load(&[3, 3, 2, 1, b'a', 0, 0, 2, b'b']),
        Err(Error::UnexpectedEndOfFile)
    );
}

#[test]
fn the_declared_clue_count_must_be_the_number_of_clues() {
    let mut bytes = vec![3u8, 3, 5];
    bytes.extend_from_slice(&[1, b'a', 0, 2, b'b', 0, 0]);
    bytes.extend_from_slice(&[1, b'c', 0, 2, b'd', 0, 0]);
    bytes.extend_from_slice(&cat_bytes()[cat_bytes().len() - 18..]);
    assert_eq!(
        CrosswordData::load(&bytes),
        Err(Error::ClueCountMismatch { expected: 5, found: 4 })
    );
    bytes[2] = 4;
    let puzzle = CrosswordData::load(&bytes).unwrap();
    assert_eq!(puzzle.horizontal_clues.len(), 2);
    assert_eq!(puzzle.vertical_clues.len(), 2);
}

#[test]
fn the_grid_takes_two_bytes_for_each_cell() {
    let whole = cat_bytes();
    let len = whole.len() as u32;
    assert_eq!(len, 3 + 10 + 1 + 20 + 1 + 18);
    let short = &whole[..whole.len() - 1];
    assert_eq!(
        CrosswordData::load(short),
        Err(Error::NotEnoughCrosswordBytes { expected: len, found: len - 1 })
    );
    let mut long = whole.clone();
    long.push(b' ');
    assert_eq!(
        CrosswordData::load(&long),
        Err(Error::NotEnoughCrosswordBytes { expected: len, found: len + 1 })
    );
    assert!(CrosswordData::load(&whole).is_ok());
}

#[test]
fn a_grid_larger_than_a_byte_counts_is_sized_right() {
    // 16 x 16 cells: 512 bytes of grid.
    let mut bytes = vec![16u8, 16, 1, 1, b'x', 0, 0, 0];
    for _ in 0..256 {
        bytes.extend_from_slice(&[0, b' ']);
    }
    let puzzle = CrosswordData::load(&bytes).unwrap();
    assert_eq!(puzzle.crossword_data.len(), 16);
    assert_eq!(puzzle.crossword_data[15].len(), 16);
    bytes.pop();
    assert_eq!(
        CrosswordData::load(&bytes),
        Err(Error::NotEnoughCrosswordBytes { expected: 520, found: 519 })
    );
}

#[test]
fn a_cell_byte_must_stand_for_a_value() {
    let mut bytes = cat_bytes();
    let last = bytes.len() - 1;
    bytes[last] = b'7';
    assert_eq!(
        CrosswordData::load(&bytes),
        Err(Error::InvalidCrosswordBoxByte { found: b'7' })
    );
    bytes[last] = b'b';
    assert_eq!(CrosswordData::load(&bytes), Err(Error::NonUppercaseCharacter));
}

#[test]
fn the_first_faulty_cell_is_reported() {
    let mut bytes = cat_bytes();
    let grid = bytes.len() - 18;
    bytes[grid + 5] = b't';
    bytes[grid + 3] = b'!';
    bytes[grid + 17] = b'?';
    assert_eq!(
        CrosswordData::load(&bytes),
        Err(Error::InvalidCrosswordBoxByte { found: b'!' })
    );
}

#[test]
fn decoding_does_not_hold_clues_against_cells() {
    // The clue's number stands in no cell, and two cells share a number.
    let bytes = [1u8, 2, 1, 9, b'x', 0, 0, 0, 4, b'A', 4, b'B'];
    let puzzle = CrosswordData::load(&bytes).unwrap();
    assert_eq!(puzzle.horizontal_clues, vec![CrosswordClue::new(9, "x")]);
    assert_eq!(puzzle.crossword_data, vec![vec![letter(4, 'A')], vec![letter(4, 'B')]]);
}

#[test]
fn clue_text_bytes_are_read_one_character_each() {
    let bytes = [1u8, 1, 1, 1, 0xC9, b't', 0xE9, 0, 0, 0, 1, b'A'];
    let puzzle = CrosswordData::load(&bytes).unwrap();
    assert_eq!(puzzle.horizontal_clues[0].value, "Été");
}

#[test]
fn a_clue_numbered_zero_is_refused() {
    // The only cell has no number.
    let grid = vec![vec![letter(0, 'A')]];
    assert_eq!(
        CrosswordData::new(1, 1, vec![CrosswordClue::new(0, "x")], vec![], grid.clone()),
        Err(Error::HorizontalClueContainsInvalidNumber { number: 0 })
    );
    assert_eq!(
        CrosswordData::new(1, 1, vec![], vec![CrosswordClue::new(0, "x")], grid),
        Err(Error::VerticalClueContainsInvalidNumber { number: 0 })
    );
    // Cells without a number beside numbered ones.
    assert_eq!(
        CrosswordData::new(
            3,
            3,
            vec![CrosswordClue::new(1, "Good pet"), CrosswordClue::new(0, "none")],
            vec![CrosswordClue::new(2, "Starts a paragraph")],
            cat_grid()
        ),
        Err(Error::HorizontalClueContainsInvalidNumber { number: 0 })
    );
}

#[test]
fn a_zero_clue_counts_before_a_repeated_one() {
    assert_eq!(
        CrosswordData::new(
            3,
            3,
            vec![],
            vec![
                CrosswordClue::new(2, "a"),
                CrosswordClue::new(0, "b"),
                CrosswordClue::new(2, "c")
            ],
            cat_grid()
        ),
        Err(Error::VerticalClueContainsInvalidNumber { number: 0 })
    );
}

#[test]
fn what_is_made_can_be_read_back() {
    // One numbered cell, one clue each way with its number.
    let made = CrosswordData::new(
        1,
        1,
        vec![CrosswordClue::new(7, "x")],
        vec![CrosswordClue::new(7, "y")],
        vec![vec![letter(7, 'A')]],
    )
    .unwrap();
    assert_eq!(made.to_bytes(), vec![1, 1, 2, 7, b'x', 0, 0, 7, b'y', 0, 0, 7, b'A']);
    assert_eq!(CrosswordData::load(&made.to_bytes()), Ok(made));
}
