//! Decoding a whole file: header, metadata, checksums, payload.

use crate::crossword::{decode_crossword, CrosswordData};
use crate::error::Error;
use crate::utils::{be_value, checksum_of, checksum_value, field_at, le_value, read_field};
use crate::{
    game_of_byte, magic, Footer, Game, GameData, GameDataView, Header, Metadata, MetadataView,
    TggFile, TggFileView,
};
use vstd::prelude::*;
use vstd::slice::{slice_subrange, slice_to_vec};

verus! {

/// The length of a header: the marker, the game byte, and two checksum bytes.
pub open spec fn header_len() -> int {
    17
}

/// The body of a file: what stands between the header and the two bytes of
/// the footer. A file too short to hold a footer has an empty body.
pub open spec fn body_of(s: Seq<u8>) -> Seq<u8> {
    if s.len() >= header_len() + 2 {
        s.subrange(header_len(), s.len() - 2)
    } else {
        Seq::empty()
    }
}

/// What the payload of a game decodes to. Only crosswords can be decoded:
/// the payload of any other game is refused with the byte of that game.
pub open spec fn decode_gamedata(game: Game, payload: Seq<u8>) -> Result<GameDataView, Error> {
    match game {
        Game::Crossword => match decode_crossword(payload) {
            Ok(puzzle) => Ok(GameDataView::Crossword(puzzle)),
            Err(fault) => Err(fault),
        },
        Game::WordSearch => Err(Error::InvalidGameTypeByte { found: 0x02 }),
    }
}

/// What a file decodes to.
///
/// The checks come in this order, and the first that fails decides: the file
/// holds a whole header; it starts with the marker; its game byte stands for
/// a game; title, description and author are not empty; six bytes follow
/// them; the checksum in the header is that of the body; the checksum in the
/// footer is that of the header; the payload is not empty; the payload
/// decodes.
pub open spec fn decode_file(s: Seq<u8>) -> Result<TggFileView, Error> {
    let body = body_of(s);
    let title = field_at(body, 0);
    let description = field_at(body, title.1);
    let author = field_at(body, description.1);
    let file_checksum = le_value(s[15], s[16]);
    let footer_checksum = le_value(s[s.len() - 2], s[s.len() - 1]);
    if s.len() < header_len() {
        Err(Error::InsufficientHeaderBytes { min: 17, found: s.len() as u32 })
    } else if s.subrange(0, 14) != magic() {
        Err(Error::InvalidID)
    } else if game_of_byte(s[14]) is None {
        Err(Error::InvalidGameTypeByte { found: s[14] })
    } else if title.0.len() == 0 {
        Err(Error::TitleIsEmpty)
    } else if description.0.len() == 0 {
        Err(Error::DescriptionIsEmpty)
    } else if author.0.len() == 0 {
        Err(Error::AuthorIsEmpty)
    } else if author.1 + 6 > body.len() {
        Err(
            Error::InsufficientMetadataBytes {
                expected: (author.1 + 6) as u32,
                found: body.len() as u32,
            },
        )
    } else if file_checksum != checksum_value(body) {
        Err(Error::HeaderChecksumMismatch { expected: file_checksum, found: checksum_value(body) })
    } else if file_checksum != footer_checksum {
        Err(Error::FooterChecksumMismatch { expected: file_checksum, found: footer_checksum })
    } else if author.1 + 6 == body.len() {
        Err(Error::GameDataIsEmpty)
    } else {
        match decode_gamedata(
            game_of_byte(s[14])->Some_0,
            body.subrange(author.1 + 6, body.len() as int),
        ) {
            Err(fault) => Err(fault),
            Ok(gamedata) => Ok(
                TggFileView {
                    header: Header { game: game_of_byte(s[14])->Some_0, file_checksum },
                    metadata: MetadataView {
                        title: title.0,
                        description: description.0,
                        author: author.0,
                        creation_date: be_value(body.subrange(author.1, author.1 + 4)),
                        gamedata_checksum: le_value(body[author.1 + 4], body[author.1 + 5]),
                    },
                    gamedata,
                    footer: Footer { file_checksum },
                },
            ),
        }
    }
}

/// Whether a result of decoding stands for `expected`.
pub open spec fn file_is(loaded: Result<TggFile, Error>, expected: Result<TggFileView, Error>) -> bool {
    match loaded {
        Ok(file) => expected == Ok::<TggFileView, Error>(file@),
        Err(fault) => expected == Err::<TggFileView, Error>(fault),
    }
}

/// Whether `bytes` starts with the marker of the format.
fn starts_with_magic(bytes: &[u8]) -> (found: bool)
    requires
        bytes.len() >= 14,
    ensures
        found == (bytes@.subrange(0, 14) == magic()),
{
    let marker: [u8; 14] = [
        0x54, 0x61, 0x6C, 0x6F, 0x6E, 0x47, 0x61, 0x6D, 0x65, 0x73, 0x47, 0x61, 0x6D, 0x65,
    ];
    assert(marker@ =~= magic());
    let mut i: usize = 0;
    while i < 14
        invariant
            i <= 14 <= bytes.len(),
            marker@ == magic(),
            forall|j: int| 0 <= j < i ==> bytes@[j] == marker@[j],
        decreases 14 - i,
    {
        if bytes[i] != marker[i] {
            assert(bytes@.subrange(0, 14)[i as int] != magic()[i as int]);
            return false;
        }
        i = i + 1;
    }
    assert(bytes@.subrange(0, 14) =~= magic());
    true
}

/// Decodes a file from its bytes.
pub fn load(bytes: Vec<u8>) -> (loaded: Result<TggFile, Error>)
    ensures
        file_is(loaded, decode_file(bytes@)),
{
    let all = bytes.as_slice();
    let len = all.len();
    if len < 17 {
        return Err(
            Error::InsufficientHeaderBytes { min: 17, found: #[verifier::truncate] (len as u32) },
        );
    }
    if !starts_with_magic(all) {
        return Err(Error::InvalidID);
    }
    let game = match Game::from_byte(all[14]) {
        Some(game) => game,
        None => {
            return Err(Error::InvalidGameTypeByte { found: all[14] });
        },
    };
    let file_checksum: u16 = all[15] as u16 + 256 * (all[16] as u16);

    let body = if len >= 19 {
        slice_subrange(all, 17, len - 2)
    } else {
        slice_subrange(all, 17, 17)
    };
    assert(body@ =~= body_of(bytes@));

    let (title, offset) = read_field(body, 0);
    let (description, offset) = read_field(body, offset);
    let (author, offset) = read_field(body, offset);

    if title.as_str().is_empty() {
        return Err(Error::TitleIsEmpty);
    }
    if description.as_str().is_empty() {
        return Err(Error::DescriptionIsEmpty);
    }
    if author.as_str().is_empty() {
        return Err(Error::AuthorIsEmpty);
    }
    if offset > body.len() || body.len() - offset < 6 {
        return Err(
            Error::InsufficientMetadataBytes {
                expected: #[verifier::truncate] ((offset + 6) as u32),
                found: #[verifier::truncate] (body.len() as u32),
            },
        );
    }
    let creation_date: u32 = body[offset] as u32 * 0x100_0000 + body[offset + 1] as u32 * 0x1_0000
        + body[offset + 2] as u32 * 0x100 + body[offset + 3] as u32;
    let gamedata_checksum: u16 = body[offset + 4] as u16 + 256 * (body[offset + 5] as u16);

    let calculated_checksum = checksum_of(slice_to_vec(body));
    let footer_file_checksum: u16 = all[len - 2] as u16 + 256 * (all[len - 1] as u16);
    if file_checksum != calculated_checksum {
        return Err(
            Error::HeaderChecksumMismatch { expected: file_checksum, found: calculated_checksum },
        );
    }
    if file_checksum != footer_file_checksum {
        return Err(
            Error::FooterChecksumMismatch { expected: file_checksum, found: footer_file_checksum },
        );
    }
    let game_data = slice_subrange(body, offset + 6, body.len());
    if game_data.len() == 0 {
        return Err(Error::GameDataIsEmpty);
    }
    let gamedata: GameData = match game {
        Game::Crossword => {
            let crossword_data = match CrosswordData::load(game_data) {
                Ok(crossword_data) => crossword_data,
                Err(fault) => {
                    return Err(fault);
                },
            };
            GameData::Crossword(crossword_data)
        },
        Game::WordSearch => {
            return Err(Error::InvalidGameTypeByte { found: game.to_byte() });
        },
    };
    let header = Header::new(game, file_checksum);
    let metadata = Metadata::new(title, description, author, creation_date, gamedata_checksum);
    let footer = Footer::new(file_checksum);
    Ok(TggFile::from_parts(header, metadata, gamedata, footer))
}

} // verus!
