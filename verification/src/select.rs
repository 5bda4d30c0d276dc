//! Choosing the hidden target word from the loaded word list.

use vstd::prelude::*;
use rand::seq::SliceRandom;
use crate::word::Word;

verus! {

/// Relies on rand's `SliceRandom::choose` for slices: it returns `None`
/// exactly when the slice is empty, and otherwise a reference to one of the
/// slice's elements, picked at random.
#[verifier::external_body]
fn choose_word(words: &Vec<Word>) -> (r: Option<Word>)
    ensures
        (r is None) <==> words@.len() == 0,
        (r is Some) ==> exists|i: int| 0 <= i < words@.len() && words@[i] == r->0,
{
    words.as_slice().choose(&mut rand::thread_rng()).copied()
}

/// Pick the hidden target at random from the word list: some word of the
/// list whenever the list is not empty, and an error exactly when it is.
pub fn get_random_word(words: &Vec<Word>) -> (r: Result<Word, String>)
    ensures
        (r is Err) <==> words@.len() == 0,
        r is Err ==> r->Err_0@ == "No word found."@,
        r is Ok ==> exists|i: int| 0 <= i < words@.len() && words@[i] == r->Ok_0,
{
    match choose_word(words) {
        Some(word) => Ok(word),
        None => Err("No word found.".to_owned()),
    }
}

} // verus!
