//! The decisions of the game loop: when a turn wins, loses, or plays on.
//!
//! The loop itself lives with the terminal: it prompts, scores the guess with
//! [`crate::feedback::compare`], shows the result, and asks [`next_turn`]
//! what follows.

use vstd::prelude::*;
use crate::feedback::{spec_solved, CheckedWord};

verus! {

/// How many guesses a player gets before the game is lost.
pub const MAX_TRIES: u8 = 6;

/// What follows a turn of the game.
#[derive(Clone, Copy, Debug, Eq, PartialEq, Structural)]
pub enum TurnOutcome {
    /// The guess solved the word: the game ends as a win.
    Won,
    /// The guess did not solve the word and it was the last try: the game
    /// ends as a loss.
    Lost,
    /// The guess did not solve the word; play on with this many tries left.
    Playing { tries_left: u8 },
}

/// Decide a turn that began with `tries_left` tries, given the scored guess:
/// a solved guess wins at once, an unsolved one uses up a try, and using up
/// the last try loses the game.
pub fn next_turn(tries_left: u8, scored: &CheckedWord) -> (r: TurnOutcome)
    requires
        1 <= tries_left,
    ensures
        spec_solved(scored@) ==> r == TurnOutcome::Won,
        !spec_solved(scored@) && tries_left == 1 ==> r == TurnOutcome::Lost,
        !spec_solved(scored@) && tries_left > 1 ==> r == (TurnOutcome::Playing {
            tries_left: (tries_left - 1) as u8,
        }),
{
    if scored.solved() {
        TurnOutcome::Won
    } else {
        let rest = tries_left - 1;
        if rest == 0 {
            TurnOutcome::Lost
        } else {
            TurnOutcome::Playing { tries_left: rest }
        }
    }
}

} // verus!
