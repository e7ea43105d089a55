//! Length bounds that a candidate word must satisfy.
//!
//! Lengths are counted in characters; for canonical words (all lowercase
//! English letters) this coincides with the UTF-8 byte count.

use vstd::prelude::*;

verus! {

pub struct Word;

impl Word {
    /// Smallest accepted word length.
    pub fn min() -> (r: usize)
        ensures
            r == 2,
    {
        2
    }

    /// Largest accepted word length.
    pub fn max() -> (r: usize)
        ensures
            r == 25,
    {
        25
    }
}

/// The word is too short to be accepted.
pub fn is_min(word: &str) -> (r: bool)
    ensures
        r == (word@.len() < 2),
{
    word.unicode_len() < 2
}

/// The word is too long to be accepted.
pub fn is_max(word: &str) -> (r: bool)
    ensures
        r == (word@.len() > 25),
{
    word.unicode_len() > 25
}

} // verus!
