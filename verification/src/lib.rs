//! A five-letter word-guessing game in the style of Wordle.
//!
//! The heart of the library is [`feedback::compare`], which classifies every
//! letter of a guess against a hidden target word as `Correct`, in the word
//! but misplaced (`Wrong`), or `NotInWord`, taking care not to double-count
//! duplicate letters.

pub mod feedback;
pub mod game;
pub mod select;
pub mod word;

use vstd::prelude::*;

verus! {

/// Every word in the game has exactly this many letters.
pub const WORD_SIZE: usize = 5;

} // verus!
