//! TGG: a small self-describing binary container for puzzle-game data.
//!
//! A file is a header (format marker, game type, file checksum), metadata
//! (title, description, author, creation date, payload checksum), the payload
//! of one game, and a footer that repeats the file checksum.

pub mod crossword;
pub mod date;
pub mod error;
pub mod load;
pub mod roundtrip;
pub mod utils;
pub mod word_ladder;

use crate::crossword::{
    clue_views, crossword_bytes, crossword_fault, grid_view, CrosswordBox, CrosswordClue,
    CrosswordData, CrosswordView,
};
use crate::date::{date_text, format_timestamp, is_date_of};
use crate::utils::{be_bytes, checksum_of, checksum_value, le_bytes};
use crate::error::Error;
use crate::load::{decode_file, file_is, load};
use vstd::prelude::*;
use vstd::string::StringExecFns;
use vstd::utf8::encode_utf8;

verus! {

/// The marker that every file starts with: the ASCII text `TalonGamesGame`.
pub open spec fn magic() -> Seq<u8> {
    seq![
        0x54u8, 0x61u8, 0x6Cu8, 0x6Fu8, 0x6Eu8, 0x47u8, 0x61u8, 0x6Du8, 0x65u8, 0x73u8, 0x47u8,
        0x61u8, 0x6Du8, 0x65u8,
    ]
}

/// The kind of game that a file holds.
#[derive(Debug, Clone, Copy, PartialEq, Eq, Structural)]
pub enum Game {
    Crossword,
    WordSearch,
}

/// The byte that stands for a game.
pub open spec fn game_byte(game: Game) -> u8 {
    match game {
        Game::Crossword => 0x01,
        Game::WordSearch => 0x02,
    }
}

/// The game that a byte stands for, if it stands for one.
pub open spec fn game_of_byte(byte: u8) -> Option<Game> {
    if byte == 0x01 {
        Some(Game::Crossword)
    } else if byte == 0x02 {
        Some(Game::WordSearch)
    } else {
        None
    }
}

impl Game {
    /// The byte that stands for this game in a header.
    pub fn to_byte(&self) -> (byte: u8)
        ensures
            byte == game_byte(*self),
    {
        match self {
            Game::Crossword => 0x01,
            Game::WordSearch => 0x02,
        }
    }

    /// The name of the game.
    pub fn to_string(&self) -> (name: String)
        ensures
            name@ == match *self {
                Game::Crossword => "Crossword"@,
                Game::WordSearch => "Word Search"@,
            },
    {
        match self {
            Game::Crossword => String::from_str("Crossword"),
            Game::WordSearch => String::from_str("Word Search"),
        }
    }

    /// Reads a game from its byte.
    pub fn from_byte(byte: u8) -> (game: Option<Game>)
        ensures
            game == game_of_byte(byte),
    {
        match byte {
            0x01 => Some(Game::Crossword),
            0x02 => Some(Game::WordSearch),
            _ => None,
        }
    }
}

/// The head of a file: the game it holds and the checksum of its body.
#[derive(Debug, Clone, Copy, PartialEq, Eq, Structural)]
pub struct Header {
    pub game: Game,
    pub file_checksum: u16,
}

/// The bytes of a header: the marker, the game byte, and the checksum with
/// its low byte first.
pub open spec fn header_bytes(header: Header) -> Seq<u8> {
    magic() + seq![game_byte(header.game)] + le_bytes(header.file_checksum)
}

impl Header {
    /// Makes the header of a file.
    pub fn new(game: Game, file_checksum: u16) -> (header: Header)
        ensures
            header == (Header { game, file_checksum }),
    {
        Header { game, file_checksum }
    }

    /// The bytes of the header.
    pub fn to_bytes(&self) -> (bytes: Vec<u8>)
        ensures
            bytes@ == header_bytes(*self),
    {
        let mut bytes: Vec<u8> = vec![
            0x54u8, 0x61u8, 0x6Cu8, 0x6Fu8, 0x6Eu8, 0x47u8, 0x61u8, 0x6Du8, 0x65u8, 0x73u8, 0x47u8,
            0x61u8, 0x6Du8, 0x65u8,
        ];
        bytes.push(self.game.to_byte());
        bytes.push((self.file_checksum % 256) as u8);
        bytes.push((self.file_checksum / 256) as u8);
        assert(bytes@ =~= header_bytes(*self));
        bytes
    }
}

/// What describes a file: its texts, when it was made, and the checksum of
/// its payload.
#[derive(Debug, Clone, PartialEq, Eq)]
pub struct Metadata {
    pub title: String,
    pub description: String,
    pub author: String,
    pub creation_date: u32,
    pub gamedata_checksum: u16,
}

/// Metadata as a mathematical value.
pub struct MetadataView {
    pub title: Seq<char>,
    pub description: Seq<char>,
    pub author: Seq<char>,
    pub creation_date: u32,
    pub gamedata_checksum: u16,
}

impl View for Metadata {
    type V = MetadataView;

    open spec fn view(&self) -> MetadataView {
        MetadataView {
            title: self.title@,
            description: self.description@,
            author: self.author@,
            creation_date: self.creation_date,
            gamedata_checksum: self.gamedata_checksum,
        }
    }
}

/// The bytes of metadata: title, description and author in UTF-8, each with
/// a zero byte behind it; the creation date with its high byte first; and
/// the payload checksum with its low byte first.
pub open spec fn metadata_bytes(metadata: MetadataView) -> Seq<u8> {
    encode_utf8(metadata.title) + seq![0u8] + encode_utf8(metadata.description) + seq![0u8]
        + encode_utf8(metadata.author) + seq![0u8] + be_bytes(metadata.creation_date) + le_bytes(
        metadata.gamedata_checksum,
    )
}

/// `SystemTime::elapsed`, asked of the Unix epoch: the whole seconds from the
/// epoch to what the system clock shows, or `None` when the clock stands
/// before the epoch. Nothing is claimed of the number.
#[verifier::external_body]
fn seconds_since_epoch() -> (seconds: Option<u64>) {
    match std::time::UNIX_EPOCH.elapsed() {
        Ok(elapsed) => Some(elapsed.as_secs()),
        Err(_) => None,
    }
}

/// The creation date for a file made now: what `creation_date_from` makes of
/// the reading of the system clock. Of the reading itself nothing is known.
fn creation_date_now() -> (creation_date: u32) {
    creation_date_from(seconds_since_epoch())
}

/// The creation date that a reading of the clock stands for: its seconds
/// since the Unix epoch, reduced to their low 32 bits; zero for a clock that
/// stands before the epoch.
pub open spec fn clock_date(seconds: Option<u64>) -> u32 {
    match seconds {
        Some(seconds) => (seconds % 0x1_0000_0000) as u32,
        None => 0,
    }
}

/// The creation date that a reading of the clock stands for.
pub fn creation_date_from(seconds: Option<u64>) -> (creation_date: u32)
    ensures
        creation_date == clock_date(seconds),
{
    match seconds {
        Some(seconds) => (seconds % 0x1_0000_0000) as u32,
        None => 0,
    }
}

impl Metadata {
    /// Makes metadata from its parts.
    pub fn new(
        title: String,
        description: String,
        author: String,
        creation_date: u32,
        gamedata_checksum: u16,
    ) -> (metadata: Metadata)
        ensures
            metadata == (Metadata { title, description, author, creation_date, gamedata_checksum }),
    {
        Metadata { title, description, author, creation_date, gamedata_checksum }
    }

    /// Makes the metadata of a file that is created now: the creation date
    /// is read from the system clock.
    pub fn create(title: &str, description: &str, author: &str, gamedata_checksum: u16) -> (metadata:
        Metadata)
        ensures
            metadata@ == (MetadataView {
                title: title@,
                description: description@,
                author: author@,
                creation_date: metadata.creation_date,
                gamedata_checksum,
            }),
    {
        Metadata::new(
            title.to_owned(),
            description.to_owned(),
            author.to_owned(),
            creation_date_now(),
            gamedata_checksum,
        )
    }

    /// The creation date as text.
    pub fn get_date(&self) -> (text: String)
        ensures
            exists|year: int, month: int, day: int|
                is_date_of(self.creation_date as int / 86400, year, month, day) && text@
                    == date_text(year, month, day),
    {
        format_timestamp(self.creation_date)
    }

    /// The bytes of the metadata.
    pub fn to_bytes(&self) -> (bytes: Vec<u8>)
        ensures
            bytes@ == metadata_bytes(self@),
    {
        let mut bytes: Vec<u8> = Vec::new();
        bytes.extend_from_slice(self.title.as_str().as_bytes());
        bytes.push(0);
        bytes.extend_from_slice(self.description.as_str().as_bytes());
        bytes.push(0);
        bytes.extend_from_slice(self.author.as_str().as_bytes());
        bytes.push(0);
        let date = self.creation_date;
        bytes.push((date / 0x100_0000) as u8);
        bytes.push((date / 0x1_0000 % 256) as u8);
        bytes.push((date / 0x100 % 256) as u8);
        bytes.push((date % 256) as u8);
        bytes.push((self.gamedata_checksum % 256) as u8);
        bytes.push((self.gamedata_checksum / 256) as u8);
        assert(bytes@ =~= metadata_bytes(self@));
        bytes
    }
}

/// The payload of a file.
#[derive(Debug, Clone, PartialEq, Eq)]
pub enum GameData {
    Crossword(CrosswordData),
}

/// A payload as a mathematical value.
pub enum GameDataView {
    Crossword(CrosswordView),
}

impl View for GameData {
    type V = GameDataView;

    open spec fn view(&self) -> GameDataView {
        match self {
            GameData::Crossword(data) => GameDataView::Crossword(data@),
        }
    }
}

/// The bytes of a payload.
pub open spec fn gamedata_bytes(gamedata: GameDataView) -> Seq<u8> {
    match gamedata {
        GameDataView::Crossword(puzzle) => crossword_bytes(puzzle),
    }
}

impl GameData {
    /// The bytes of the payload.
    pub fn to_bytes(&self) -> (bytes: Vec<u8>)
        ensures
            bytes@ == gamedata_bytes(self@),
    {
        match self {
            GameData::Crossword(data) => data.to_bytes(),
        }
    }
}

/// The end of a file: the file checksum once more.
#[derive(Debug, Clone, Copy, PartialEq, Eq, Structural)]
pub struct Footer {
    pub file_checksum: u16,
}

impl Footer {
    /// Makes the footer of a file.
    pub fn new(file_checksum: u16) -> (footer: Footer)
        ensures
            footer == (Footer { file_checksum }),
    {
        Footer { file_checksum }
    }

    /// The two bytes of the footer: the checksum with its low byte first.
    pub fn to_bytes(&self) -> (bytes: [u8; 2])
        ensures
            bytes@ == le_bytes(self.file_checksum),
    {
        let bytes: [u8; 2] = [(self.file_checksum % 256) as u8, (self.file_checksum / 256) as u8];
        assert(bytes@ =~= le_bytes(self.file_checksum));
        bytes
    }
}

/// A whole file: header, metadata, payload and footer.
#[derive(Debug, Clone, PartialEq, Eq)]
pub struct TggFile {
    header: Header,
    metadata: Metadata,
    gamedata: GameData,
    footer: Footer,
}

/// A file as a mathematical value.
pub struct TggFileView {
    pub header: Header,
    pub metadata: MetadataView,
    pub gamedata: GameDataView,
    pub footer: Footer,
}

/// The bytes of a file: header, metadata, payload, footer.
pub open spec fn file_bytes(file: TggFileView) -> Seq<u8> {
    header_bytes(file.header) + metadata_bytes(file.metadata) + gamedata_bytes(file.gamedata)
        + le_bytes(file.footer.file_checksum)
}

/// The file that holds a crossword under the given texts and creation date.
///
/// The payload checksum is that of the payload bytes. The file checksum, in
/// header and footer alike, is that of the payload bytes and the metadata
/// bytes together.
pub open spec fn crossword_file(
    title: Seq<char>,
    description: Seq<char>,
    author: Seq<char>,
    creation_date: u32,
    puzzle: CrosswordView,
) -> TggFileView {
    let payload = crossword_bytes(puzzle);
    let metadata = MetadataView {
        title,
        description,
        author,
        creation_date,
        gamedata_checksum: checksum_value(payload),
    };
    let file_checksum = checksum_value(payload + metadata_bytes(metadata));
    TggFileView {
        header: Header { game: Game::Crossword, file_checksum },
        metadata,
        gamedata: GameDataView::Crossword(puzzle),
        footer: Footer { file_checksum },
    }
}

impl View for TggFile {
    type V = TggFileView;

    closed spec fn view(&self) -> TggFileView {
        TggFileView {
            header: self.header,
            metadata: self.metadata@,
            gamedata: self.gamedata@,
            footer: self.footer,
        }
    }
}

impl TggFile {
    /// Decodes a file from its bytes.
    pub fn from_bytes(bytes: Vec<u8>) -> (loaded: Result<TggFile, Error>)
        ensures
            file_is(loaded, decode_file(bytes@)),
    {
        load(bytes)
    }

    /// Puts a file together from its four parts.
    pub(crate) fn from_parts(
        header: Header,
        metadata: Metadata,
        gamedata: GameData,
        footer: Footer,
    ) -> (file: TggFile)
        ensures
            file@ == (TggFileView { header, metadata: metadata@, gamedata: gamedata@, footer }),
    {
        TggFile { header, metadata, gamedata, footer }
    }

    /// Makes the file of a crossword with the given creation date, or says
    /// why the parts of the crossword are refused.
    pub fn custom_crossword_at(
        title: &str,
        description: &str,
        author: &str,
        creation_date: u32,
        width: u8,
        height: u8,
        horizontal_clues: Vec<CrosswordClue>,
        vertical_clues: Vec<CrosswordClue>,
        crossword_data: Vec<Vec<CrosswordBox>>,
    ) -> (made: Result<TggFile, Error>)
        requires
            crossword_fault(
                width,
                height,
                clue_views(horizontal_clues@),
                clue_views(vertical_clues@),
                grid_view(crossword_data@),
            ) is None ==> horizontal_clues.len() + vertical_clues.len() <= 255,
        ensures
            match crossword_fault(
                width,
                height,
                clue_views(horizontal_clues@),
                clue_views(vertical_clues@),
                grid_view(crossword_data@),
            ) {
                Some(fault) => made == Err::<TggFile, Error>(fault),
                None => made is Ok && made->Ok_0@ == crossword_file(
                    title@,
                    description@,
                    author@,
                    creation_date,
                    CrosswordView {
                        width,
                        height,
                        total_clues: (horizontal_clues.len() + vertical_clues.len()) as u8,
                        horizontal: clue_views(horizontal_clues@),
                        vertical: clue_views(vertical_clues@),
                        grid: grid_view(crossword_data@),
                    },
                ),
            },
    {
        let crossword = match CrosswordData::new(
            width,
            height,
            horizontal_clues,
            vertical_clues,
            crossword_data,
        ) {
            Ok(crossword) => crossword,
            Err(fault) => {
                return Err(fault);
            },
        };
        let gamedata_checksum = checksum_of(crossword.to_bytes());
        let metadata = Metadata::new(
            title.to_owned(),
            description.to_owned(),
            author.to_owned(),
            creation_date,
            gamedata_checksum,
        );
        let mut bytes = crossword.to_bytes();
        let mut rest = metadata.to_bytes();
        bytes.append(&mut rest);
        let file_checksum = checksum_of(bytes);
        let footer = Footer::new(file_checksum);
        let header = Header::new(Game::Crossword, file_checksum);
        Ok(TggFile { header, metadata, gamedata: GameData::Crossword(crossword), footer })
    }

    /// Makes the file of a crossword that is created now, or says why the
    /// parts of the crossword are refused. The creation date is read from the
    /// system clock; all else is as `custom_crossword_at` makes it.
    pub fn custom_crossword(
        title: &str,
        description: &str,
        author: &str,
        width: u8,
        height: u8,
        horizontal_clues: Vec<CrosswordClue>,
        vertical_clues: Vec<CrosswordClue>,
        crossword_data: Vec<Vec<CrosswordBox>>,
    ) -> (made: Result<TggFile, Error>)
        requires
            crossword_fault(
                width,
                height,
                clue_views(horizontal_clues@),
                clue_views(vertical_clues@),
                grid_view(crossword_data@),
            ) is None ==> horizontal_clues.len() + vertical_clues.len() <= 255,
        ensures
            match crossword_fault(
                width,
                height,
                clue_views(horizontal_clues@),
                clue_views(vertical_clues@),
                grid_view(crossword_data@),
            ) {
                Some(fault) => made == Err::<TggFile, Error>(fault),
                None => made is Ok && made->Ok_0@ == crossword_file(
                    title@,
                    description@,
                    author@,
                    made->Ok_0@.metadata.creation_date,
                    CrosswordView {
                        width,
                        height,
                        total_clues: (horizontal_clues.len() + vertical_clues.len()) as u8,
                        horizontal: clue_views(horizontal_clues@),
                        vertical: clue_views(vertical_clues@),
                        grid: grid_view(crossword_data@),
                    },
                ),
            },
    {
        TggFile::custom_crossword_at(
            title,
            description,
            author,
            creation_date_now(),
            width,
            height,
            horizontal_clues,
            vertical_clues,
            crossword_data,
        )
    }

    /// The bytes of the file.
    pub fn to_bytes(&self) -> (bytes: Vec<u8>)
        ensures
            bytes@ == file_bytes(self@),
    {
        let mut bytes = self.header.to_bytes();
        let mut metadata = self.metadata.to_bytes();
        bytes.append(&mut metadata);
        let mut gamedata = self.gamedata.to_bytes();
        bytes.append(&mut gamedata);
        let footer = self.footer.to_bytes();
        bytes.push(footer[0]);
        bytes.push(footer[1]);
        assert(bytes@ =~= file_bytes(self@));
        bytes
    }

    /// The name of the game that the file holds.
    pub fn get_game_name(&self) -> (name: String)
        ensures
            name@ == match self@.header.game {
                Game::Crossword => "Crossword"@,
                Game::WordSearch => "Word Search"@,
            },
    {
        self.header.game.to_string()
    }

    /// The title.
    pub fn get_title(&self) -> (title: String)
        ensures
            title@ == self@.metadata.title,
    {
        self.metadata.title.clone()
    }

    /// The description.
    pub fn get_description(&self) -> (description: String)
        ensures
            description@ == self@.metadata.description,
    {
        self.metadata.description.clone()
    }

    /// The author.
    pub fn get_author(&self) -> (author: String)
        ensures
            author@ == self@.metadata.author,
    {
        self.metadata.author.clone()
    }

    /// The creation date in seconds since the Unix epoch.
    pub fn get_raw_creation_date(&self) -> (creation_date: u32)
        ensures
            creation_date == self@.metadata.creation_date,
    {
        self.metadata.creation_date
    }

    /// The creation date as text.
    pub fn get_formatted_creation_date(&self) -> (text: String)
        ensures
            exists|year: int, month: int, day: int|
                is_date_of(self@.metadata.creation_date as int / 86400, year, month, day) && text@
                    == date_text(year, month, day),
    {
        self.metadata.get_date()
    }

    /// The payload.
    pub fn get_game_data<'a>(&'a self) -> (gamedata: &'a GameData)
        ensures
            gamedata@ == self@.gamedata,
    {
        &self.gamedata
    }
}

} // verus!
