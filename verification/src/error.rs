//! The failures that decoding and validation report.

use vstd::prelude::*;

verus! {

/// Why a byte buffer could not be decoded, or why puzzle data was rejected.
#[derive(Debug, Clone, Copy, PartialEq, Eq, Structural)]
#[allow(inconsistent_fields)]
pub enum Error {
    // -- Container
    InsufficientHeaderBytes { min: u32, found: u32 },
    InvalidID,
    InvalidGameTypeByte { found: u8 },
    TitleIsEmpty,
    DescriptionIsEmpty,
    AuthorIsEmpty,
    InsufficientMetadataBytes { expected: u32, found: u32 },
    HeaderChecksumMismatch { expected: u16, found: u16 },
    FooterChecksumMismatch { expected: u16, found: u16 },
    GameDataIsEmpty,
    // -- Crossword
    UnexpectedEndOfFile,
    WidthOrHeightIsZero,
    TotalCluesIsZero,
    ClueCountMismatch { expected: u8, found: u32 },
    NotEnoughCrosswordBytes { expected: u32, found: u32 },
    HeightCrosswordDataMismatch { height: u8, crossword_height: u32 },
    WidthCrosswordDataMismatch { width: u8, crossword_width: u32 },
    DuplicateNumber { number: u8 },
    VerticalClueContainsInvalidNumber { number: u8 },
    VerticalClueContainsDuplicate { number: u8 },
    HorizontalClueContainsInvalidNumber { number: u8 },
    HorizontalClueContainsDuplicate { number: u8 },
    NonAsciiCharacter,
    NonAlphabeticCharacter,
    NonUppercaseCharacter,
    InvalidCrosswordBoxByte { found: u8 },
}

} // verus!
