//! The word-ladder payload. Its layout is not settled, so none is decoded.

use vstd::prelude::*;
use vstd::string::StringExecFns;

verus! {

/// A word ladder: the word to start from and the word to reach, each with
/// its definition, and the steps between them.
#[derive(Debug, Clone, PartialEq, Eq)]
pub struct WordLadder {
    pub starting_word: String,
    pub starting_word_def: String,
    pub ending_word: String,
    pub ending_word_def: String,
    pub steps: u8,
    pub step_hints: Vec<String>,
}

/// What a refused word-ladder payload is told.
pub open spec fn not_decoded() -> Seq<char> {
    "word-ladder payloads cannot be decoded"@
}

impl WordLadder {
    /// Refuses the payload, whatever it holds: no word ladder is decoded
    /// before the steps and their hints have a layout.
    pub fn load(_bytes: &[u8]) -> (loaded: Result<WordLadder, String>)
        ensures
            loaded is Err,
            loaded->Err_0@ == not_decoded(),
    {
        Err(String::from_str("word-ladder payloads cannot be decoded"))
    }
}

} // verus!
