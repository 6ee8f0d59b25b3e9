use tgg::crossword::{CrosswordBox, CrosswordBoxValue, CrosswordClue, CrosswordData};
use tgg::error::Error;
use tgg::load::load;
use tgg::{creation_date_from, Footer, Game, GameData, Header, Metadata, TggFile};

fn sum16(bytes: &[u8]) -> u16 {
    let mut sum: u32 = 0;
    for b in bytes {
        sum = (sum + *b as u32) % 65536;
    }
    sum as u16
}

fn letter(number: u8, c: char) -> CrosswordBox {
    CrosswordBox::new(number, CrosswordBoxValue::Letter(c)).unwrap()
}

fn solid() -> CrosswordBox {
    CrosswordBox::new(0, CrosswordBoxValue::Solid).unwrap()
}

fn cat_grid() -> Vec<Vec<CrosswordBox>> {
    vec![
        vec![letter(1, 'C'), letter(0, 'A'), letter(2, 'T')],
        vec![solid(), solid(), letter(0, 'A')],
        vec![solid(), solid(), letter(0, 'B')],
    ]
}

fn cat_payload() -> Vec<u8> {
    let mut bytes = vec![3u8, 3, 2, 1];
    bytes.extend_from_slice(b"Good pet\0");
    bytes.push(0);
    bytes.push(2);
    bytes.extend_from_slice(b"Starts a paragraph\0");
    bytes.push(0);
    bytes.extend_from_slice(&[1, b'C', 0, b'A', 2, b'T']);
    bytes.extend_from_slice(&[0, b'#', 0, b'#', 0, b'A']);
    bytes.extend_from_slice(&[0, b'#', 0, b'#', 0, b'B']);
    bytes
}

/// The body of a file: the three labels, the date, the payload checksum,
/// the payload.
fn body(title: &str, description: &str, author: &str, date: u32, payload: &[u8]) -> Vec<u8> {
    let mut bytes = Vec::new();
    for label in [title, description, author] {
        bytes.extend_from_slice(label.as_bytes());
        bytes.push(0);
    }
    bytes.extend_from_slice(&date.to_be_bytes());
    bytes.extend_from_slice(&sum16(payload).to_le_bytes());
    bytes.extend_from_slice(payload);
    bytes
}

/// A file round `body`, with the given checksums in header and footer.
fn wrap(game: u8, header_sum: u16, body: &[u8], footer_sum: u16) -> Vec<u8> {
    let mut bytes = b"TalonGamesGame".to_vec();
    bytes.push(game);
    bytes.extend_from_slice(&header_sum.to_le_bytes());
    bytes.extend_from_slice(body);
    bytes.extend_from_slice(&footer_sum.to_le_bytes());
    bytes
}

/// A file round `body` with the right checksums.
fn file(game: u8, body: &[u8]) -> Vec<u8> {
    wrap(game, sum16(body), body, sum16(body))
}

fn cat_file() -> Vec<u8> {
    file(0x01, &body("Cat", "A small one", "Me", 86_400 * 365, &cat_payload()))
}

#[test]
fn games_and_their_bytes() {
    assert_eq!(Game::Crossword.to_byte(), 0x01);
    assert_eq!(Game::WordSearch.to_byte(), 0x02);
    assert_eq!(Game::from_byte(0x01), Some(Game::Crossword));
    assert_eq!(Game::from_byte(0x02), Some(Game::WordSearch));
    assert_eq!(Game::from_byte(0x00), None);
    assert_eq!(Game::from_byte(0x03), None);
    assert_eq!(Game::from_byte(0xFF), None);
    assert_eq!(Game::Crossword.to_string(), "Crossword");
    assert_eq!(Game::WordSearch.to_string(), "Word Search");
}

#[test]
fn header_bytes_are_marker_game_checksum() {
    let header = Header::new(Game::Crossword, 0x1234);
    assert_eq!(header.game, Game::Crossword);
    assert_eq!(header.file_checksum, 0x1234);
    let mut expected = b"TalonGamesGame".to_vec();
    expected.extend_from_slice(&[0x01, 0x34, 0x12]);
    assert_eq!(header.to_bytes(), expected);
    assert_eq!(Header::new(Game::WordSearch, 0).to_bytes()[14], 0x02);
}

#[test]
fn footer_bytes_are_the_checksum_low_byte_first() {
    assert_eq!(Footer::new(0xABCD).to_bytes(), [0xCD, 0xAB]);
    assert_eq!(Footer::new(7).to_bytes(), [7, 0]);
}

#[test]
fn metadata_bytes_follow_the_layout() {
    let metadata = Metadata::new(
        "T".to_string(),
        "De".to_string(),
        "Aut".to_string(),
        0x0102_0304,
        0xBEEF,
    );
    assert_eq!(
        metadata.to_bytes(),
        vec![b'T', 0, b'D', b'e', 0, b'A', b'u', b't', 0, 1, 2, 3, 4, 0xEF, 0xBE]
    );
    assert_eq!(metadata.get_date(), "July, 15, 1970");
}

#[test]
fn metadata_made_now_reads_the_clock() {
    let metadata = Metadata::create("t", "d", "a", 77);
    assert_eq!(metadata.title, "t");
    assert_eq!(metadata.description, "d");
    assert_eq!(metadata.author, "a");
    assert_eq!(metadata.gamedata_checksum, 77);
    // Later than the first day of 2020.
    assert!(metadata.creation_date > 1_577_836_800);
}

#[test]
fn gamedata_bytes_are_those_of_the_crossword() {
    let puzzle = CrosswordData::load(&cat_payload()).unwrap();
    assert_eq!(GameData::Crossword(puzzle).to_bytes(), cat_payload());
}

#[test]
fn a_file_is_decoded() {
    let loaded = TggFile::from_bytes(cat_file()).unwrap();
    assert_eq!(loaded.get_game_name(), "Crossword");
    assert_eq!(loaded.get_title(), "Cat");
    assert_eq!(loaded.get_description(), "A small one");
    assert_eq!(loaded.get_author(), "Me");
    assert_eq!(loaded.get_raw_creation_date(), 31_536_000);
    assert_eq!(loaded.get_formatted_creation_date(), "January, 01, 1971");
    let GameData::Crossword(puzzle) = loaded.get_game_data();
    assert_eq!(puzzle.crossword_data, cat_grid());
    assert_eq!(loaded.to_bytes(), cat_file());
    assert_eq!(load(cat_file()), Ok(loaded));
}

#[test]
fn a_crossword_file_is_made_written_and_read_back() {
    let made = TggFile::custom_crossword(
        "Pets",
        "Three by three",
        "Somebody",
        3,
        3,
        vec![CrosswordClue::new(1, "Good pet")],
        vec![CrosswordClue::new(2, "Starts a paragraph")],
        cat_grid(),
    )
    .unwrap();
    let bytes = made.to_bytes();
    let read = TggFile::from_bytes(bytes.clone()).unwrap();
    assert_eq!(read, made);
    assert_eq!(read.get_title(), "Pets");
    assert_eq!(read.get_description(), "Three by three");
    assert_eq!(read.get_author(), "Somebody");
    assert_eq!(read.get_raw_creation_date(), made.get_raw_creation_date());
    assert!(made.get_raw_creation_date() > 1_577_836_800);
    let GameData::Crossword(puzzle) = read.get_game_data();
    assert_eq!(puzzle.width, 3);
    assert_eq!(puzzle.height, 3);
    assert_eq!(puzzle.total_clues, 2);
    assert_eq!(puzzle.horizontal_clues, vec![CrosswordClue::new(1, "Good pet")]);
    assert_eq!(puzzle.vertical_clues, vec![CrosswordClue::new(2, "Starts a paragraph")]);
    assert_eq!(puzzle.crossword_data, cat_grid());
    assert_eq!(puzzle.crossword_data[0][0].number, 1);
    assert_eq!(puzzle.crossword_data[0][1].number, 0);
    assert_eq!(puzzle.crossword_data[0][2].number, 2);
    assert_eq!(read.to_bytes(), bytes);
}

#[test]
fn a_crossword_file_made_at_a_given_time_has_these_bytes() {
    let made = TggFile::custom_crossword_at(
        "Cat",
        "A small one",
        "Me",
        31_536_000,
        3,
        3,
        vec![CrosswordClue::new(1, "Good pet")],
        vec![CrosswordClue::new(2, "Starts a paragraph")],
        cat_grid(),
    )
    .unwrap();
    assert_eq!(made.to_bytes(), cat_file());
    assert_eq!(made.get_raw_creation_date(), 31_536_000);
}

#[test]
fn a_refused_crossword_makes_no_file() {
    assert_eq!(
        TggFile::custom_crossword("t", "d", "a", 3, 4, vec![], vec![], cat_grid()),
        Err(Error::HeightCrosswordDataMismatch { height: 4, crossword_height: 3 })
    );
    assert_eq!(
        TggFile::custom_crossword_at(
            "t",
            "d",
            "a",
            0,
            3,
            3,
            vec![CrosswordClue::new(5, "none")],
            vec![],
            cat_grid()
        ),
        Err(Error::HorizontalClueContainsInvalidNumber { number: 5 })
    );
}

#[test]
fn a_file_needs_a_whole_header() {
    assert_eq!(
        TggFile::from_bytes(vec![]),
        Err(Error::InsufficientHeaderBytes { min: 17, found: 0 })
    );
    assert_eq!(
        TggFile::from_bytes(b"TalonGamesGame\x01\x00".to_vec()),
        Err(Error::InsufficientHeaderBytes { min: 17, found: 16 })
    );
}

#[test]
fn a_file_starts_with_the_marker() {
    let mut bytes = cat_file();
    bytes[13] = b'E';
    assert_eq!(TggFile::from_bytes(bytes), Err(Error::InvalidID));
    let mut bytes = cat_file();
    bytes[0] = b't';
    // The marker is looked at before the game byte.
    bytes[14] = 0xFF;
    assert_eq!(TggFile::from_bytes(bytes), Err(Error::InvalidID));
}

#[test]
fn an_unknown_game_byte_is_refused_before_anything_else_is_read() {
    let mut bytes = cat_file();
    bytes[14] = 0xFF;
    assert_eq!(
        TggFile::from_bytes(bytes),
        Err(Error::InvalidGameTypeByte { found: 0xFF })
    );
    // Nothing behind the header at all.
    let mut bare = b"TalonGamesGame".to_vec();
    bare.extend_from_slice(&[0xFF, 0, 0]);
    assert_eq!(
        TggFile::from_bytes(bare),
        Err(Error::InvalidGameTypeByte { found: 0xFF })
    );
    let mut bytes = cat_file();
    bytes[14] = 0x00;
    assert_eq!(
        TggFile::from_bytes(bytes),
        Err(Error::InvalidGameTypeByte { found: 0x00 })
    );
}

#[test]
fn a_word_search_payload_is_refused() {
    let bytes = file(0x02, &body("Words", "Find them", "Me", 0, b"anything"));
    assert_eq!(
        TggFile::from_bytes(bytes),
        Err(Error::InvalidGameTypeByte { found: 0x02 })
    );
    // The checks of metadata and checksums come first.
    let bytes = file(0x02, &body("", "Find them", "Me", 0, b"anything"));
    assert_eq!(TggFile::from_bytes(bytes), Err(Error::TitleIsEmpty));
}

#[test]
fn the_labels_must_not_be_empty() {
    let payload = cat_payload();
    assert_eq!(
        TggFile::from_bytes(file(0x01, &body("", "d", "a", 0, &payload))),
        Err(Error::TitleIsEmpty)
    );
    assert_eq!(
        TggFile::from_bytes(file(0x01, &body("t", "", "a", 0, &payload))),
        Err(Error::DescriptionIsEmpty)
    );
    assert_eq!(
        TggFile::from_bytes(file(0x01, &body("t", "d", "", 0, &payload))),
        Err(Error::AuthorIsEmpty)
    );
    assert_eq!(
        TggFile::from_bytes(file(0x01, &body("", "", "", 0, &payload))),
        Err(Error::TitleIsEmpty)
    );
}

#[test]
fn a_file_that_ends_in_its_labels_is_refused() {
    // No room for a body at all.
    let mut bare = b"TalonGamesGame".to_vec();
    bare.extend_from_slice(&[0x01, 0, 0]);
    assert_eq!(TggFile::from_bytes(bare.clone()), Err(Error::TitleIsEmpty));
    bare.push(0);
    assert_eq!(TggFile::from_bytes(bare.clone()), Err(Error::TitleIsEmpty));
    bare.push(0);
    assert_eq!(TggFile::from_bytes(bare), Err(Error::TitleIsEmpty));
    // The title runs to the end of the body.
    assert_eq!(TggFile::from_bytes(file(0x01, b"Title")), Err(Error::DescriptionIsEmpty));
    assert_eq!(TggFile::from_bytes(file(0x01, b"Title\0")), Err(Error::DescriptionIsEmpty));
    assert_eq!(TggFile::from_bytes(file(0x01, b"Title\0D")), Err(Error::AuthorIsEmpty));
    assert_eq!(TggFile::from_bytes(file(0x01, b"Title\0D\0")), Err(Error::AuthorIsEmpty));
}

#[test]
fn six_bytes_must_follow_the_labels() {
    assert_eq!(
        TggFile::from_bytes(file(0x01, b"T\0D\0A\0\x00\x00\x00\x00\x00")),
        Err(Error::InsufficientMetadataBytes { expected: 12, found: 11 })
    );
    assert_eq!(
        TggFile::from_bytes(file(0x01, b"T\0D\0A\0")),
        Err(Error::InsufficientMetadataBytes { expected: 12, found: 6 })
    );
    // An author without a terminator: the offset is one past the body.
    assert_eq!(
        TggFile::from_bytes(file(0x01, b"T\0D\0A")),
        Err(Error::InsufficientMetadataBytes { expected: 12, found: 5 })
    );
}

#[test]
fn the_header_checksum_must_be_that_of_the_body() {
    let body = body("Cat", "A small one", "Me", 0, &cat_payload());
    let right = sum16(&body);
    let wrong = right.wrapping_add(1);
    assert_eq!(
        TggFile::from_bytes(wrap(0x01, wrong, &body, wrong)),
        Err(Error::HeaderChecksumMismatch { expected: wrong, found: right })
    );
    assert_eq!(
        TggFile::from_bytes(wrap(0x01, wrong, &body, right)),
        Err(Error::HeaderChecksumMismatch { expected: wrong, found: right })
    );
}

#[test]
fn the_footer_checksum_must_be_that_of_the_header() {
    let body = body("Cat", "A small one", "Me", 0, &cat_payload());
    let right = sum16(&body);
    let wrong = right ^ 0x0100;
    assert_eq!(
        TggFile::from_bytes(wrap(0x01, right, &body, wrong)),
        Err(Error::FooterChecksumMismatch { expected: right, found: wrong })
    );
    // The header is held against the body first.
    let other = right.wrapping_add(3);
    assert_eq!(
        TggFile::from_bytes(wrap(0x01, other, &body, wrong)),
        Err(Error::HeaderChecksumMismatch { expected: other, found: right })
    );
}

#[test]
fn a_changed_byte_of_the_body_is_told() {
    let good = cat_file();
    assert!(TggFile::from_bytes(good.clone()).is_ok());
    let stored = u16::from_le_bytes([good[15], good[16]]);
    // Every byte of the body, changed by one bit or to any other value.
    for at in 17..good.len() - 2 {
        for change in [0x01u8, 0x80, 0xFF] {
            let mut bad = good.clone();
            bad[at] ^= change;
            match TggFile::from_bytes(bad.clone()) {
                Err(Error::HeaderChecksumMismatch { expected, found }) => {
                    assert_eq!(expected, stored);
                    assert_eq!(found, sum16(&bad[17..bad.len() - 2]));
                    assert_ne!(found, stored);
                }
                Err(Error::TitleIsEmpty)
                | Err(Error::DescriptionIsEmpty)
                | Err(Error::AuthorIsEmpty)
                | Err(Error::InsufficientMetadataBytes { .. }) => {
                    // The change cut a label short: only among the labels.
                    assert!(at < 17 + 19);
                }
                other => panic!("byte {} changed, and the file gave {:?}", at, other),
            }
        }
    }
    // A byte of the payload, in particular.
    let mut bad = good.clone();
    let last = bad.len() - 3;
    bad[last] = b'C';
    assert_eq!(
        TggFile::from_bytes(bad),
        Err(Error::HeaderChecksumMismatch { expected: stored, found: stored.wrapping_add(1) })
    );
}

#[test]
fn the_payload_checksum_is_kept_but_not_held_against_the_payload() {
    let mut body = body("Cat", "A small one", "Me", 0, &cat_payload());
    body[23] ^= 0xFF;
    let read = TggFile::from_bytes(file(0x01, &body)).unwrap();
    assert_eq!(read.to_bytes(), file(0x01, &body));
}

#[test]
fn the_payload_must_not_be_empty() {
    assert_eq!(
        TggFile::from_bytes(file(0x01, &body("t", "d", "a", 5, &[]))),
        Err(Error::GameDataIsEmpty)
    );
}

#[test]
fn a_fault_of_the_payload_is_the_fault_of_the_file() {
    assert_eq!(
        TggFile::from_bytes(file(0x01, &body("t", "d", "a", 5, &[3, 3]))),
        Err(Error::UnexpectedEndOfFile)
    );
    assert_eq!(
        TggFile::from_bytes(file(0x01, &body("t", "d", "a", 5, &[3, 0, 1]))),
        Err(Error::WidthOrHeightIsZero)
    );
    let mut payload = cat_payload();
    payload[2] = 5;
    assert_eq!(
        TggFile::from_bytes(file(0x01, &body("t", "d", "a", 5, &payload))),
        Err(Error::ClueCountMismatch { expected: 5, found: 2 })
    );
}

#[test]
fn a_clock_reading_becomes_a_creation_date() {
    assert_eq!(creation_date_from(Some(0)), 0);
    assert_eq!(creation_date_from(Some(1_700_000_000)), 1_700_000_000);
    assert_eq!(creation_date_from(Some(4_294_967_295)), 4_294_967_295);
    // Only the low 32 bits of the seconds are kept.
    assert_eq!(creation_date_from(Some(4_294_967_296)), 0);
    assert_eq!(creation_date_from(Some(4_294_967_296 + 7)), 7);
    assert_eq!(creation_date_from(Some(u64::MAX)), u32::MAX);
    // A clock before the epoch.
    assert_eq!(creation_date_from(None), 0);
}

#[test]
fn a_clue_numbered_zero_makes_no_file() {
    let grid = vec![vec![CrosswordBox::new(0, CrosswordBoxValue::Letter('A')).unwrap()]];
    assert_eq!(
        TggFile::custom_crossword_at(
            "t",
            "d",
            "a",
            0,
            1,
            1,
            vec![CrosswordClue::new(0, "x")],
            vec![],
            grid.clone()
        ),
        Err(Error::HorizontalClueContainsInvalidNumber { number: 0 })
    );
    assert_eq!(
        TggFile::custom_crossword("t", "d", "a", 1, 1, vec![], vec![CrosswordClue::new(0, "x")], grid),
        Err(Error::VerticalClueContainsInvalidNumber { number: 0 })
    );
}
