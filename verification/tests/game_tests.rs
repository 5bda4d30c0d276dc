use wordle::feedback::{compare, CheckedLetter, CheckedWord, Position};
use wordle::game::{next_turn, TurnOutcome, MAX_TRIES};
use wordle::select::get_random_word;
use wordle::word::{Word, WordError};
use wordle::WORD_SIZE;

fn word(s: &str) -> Word {
    Word::from_str(s).unwrap()
}

fn positions(scored: &CheckedWord) -> Vec<Option<Position>> {
    (0..WORD_SIZE).map(|i| *scored.letter_at(i).position()).collect()
}

#[test]
fn scenario_identical_words_all_correct() {
    let scored = compare(word("CRANE"), word("CRANE"));
    assert_eq!(positions(&scored), vec![Some(Position::Correct); WORD_SIZE]);
    assert!(scored.solved());
}

#[test]
fn scenario_duplicate_guess_letter() {
    // The target has one E; the first E of the guess claims it, the second
    // finds none left. The D is present but misplaced.
    let scored = compare(word("SPEED"), word("ABIDE"));
    assert_eq!(
        positions(&scored),
        vec![
            Some(Position::NotInWord),
            Some(Position::NotInWord),
            Some(Position::Wrong),
            Some(Position::NotInWord),
            Some(Position::Wrong),
        ]
    );
    assert!(!scored.solved());
}

#[test]
fn scenario_anagram() {
    // LOYAL holds every letter of ALLOY, twice for L, and nothing matches
    // exactly, so every guess position is present but misplaced.
    let scored = compare(word("ALLOY"), word("LOYAL"));
    assert_eq!(positions(&scored), vec![Some(Position::Wrong); WORD_SIZE]);
    assert!(!scored.solved());
}

#[test]
fn every_position_gets_feedback() {
    let scored = compare(word("QUIRK"), word("ABIDE"));
    for i in 0..WORD_SIZE {
        assert!(scored.letter_at(i).checked());
    }
}

#[test]
fn correct_positions_match_the_target() {
    let guess = word("CRATE");
    let target = word("CRANE");
    let scored = compare(guess, target);
    for i in 0..WORD_SIZE {
        let l = scored.letter_at(i);
        if *l.position() == Some(Position::Correct) {
            assert_eq!(l.letter(), ['C', 'R', 'A', 'N', 'E'][i]);
        }
    }
    assert_eq!(
        positions(&scored),
        vec![
            Some(Position::Correct),
            Some(Position::Correct),
            Some(Position::Correct),
            Some(Position::NotInWord),
            Some(Position::Correct),
        ]
    );
}

#[test]
fn claims_never_outnumber_target_occurrences() {
    // SPEED holds two Es, ABIDE only one: at most one E of the guess may be
    // marked Correct or Wrong.
    let scored = compare(word("SPEED"), word("ABIDE"));
    let claimed_es = (0..WORD_SIZE)
        .filter(|&i| {
            let l = scored.letter_at(i);
            l.letter() == 'E' && *l.position() != Some(Position::NotInWord)
        })
        .count();
    assert!(claimed_es <= 1);
}

#[test]
fn absent_letter_is_absent_everywhere() {
    let scored = compare(word("AAAAA"), word("BCDEF"));
    assert_eq!(positions(&scored), vec![Some(Position::NotInWord); WORD_SIZE]);
}

#[test]
fn solved_is_false_on_one_wrong_position() {
    let scored = compare(word("CRATE"), word("CRANE"));
    assert!(!scored.solved());
}

#[test]
fn from_str_folds_to_uppercase() {
    assert_eq!(word("crane"), word("CRANE"));
    let w = word("cRanE");
    let letters: Vec<char> = w.iter().copied().collect();
    assert_eq!(letters, vec!['C', 'R', 'A', 'N', 'E']);
}

#[test]
fn from_str_rejects_non_letters() {
    assert_eq!(Word::from_str("cr4ne"), Err(WordError::NotAWord));
    assert_eq!(Word::from_str("hull!"), Err(WordError::NotAWord));
    assert_eq!(Word::from_str("so so"), Err(WordError::NotAWord));
}

#[test]
fn from_str_rejects_wrong_length() {
    assert_eq!(Word::from_str("tool"), Err(WordError::WrongLength));
    assert_eq!(Word::from_str("toolbox"), Err(WordError::WrongLength));
    assert_eq!(Word::from_str(""), Err(WordError::WrongLength));
}

#[test]
fn word_new_keeps_its_letters() {
    let w = Word::new(['W', 'E', 'E', 'P', 'Y']);
    let letters: Vec<char> = w.iter().copied().collect();
    assert_eq!(letters, vec!['W', 'E', 'E', 'P', 'Y']);
}

#[test]
fn word_map_applies_in_order() {
    let w = word("CRANE");
    let shifted = w.map(|c| c as u32);
    assert_eq!(shifted, ['C' as u32, 'R' as u32, 'A' as u32, 'N' as u32, 'E' as u32]);
}

#[test]
fn checked_letter_life_cycle() {
    let mut l = CheckedLetter::new('Q');
    assert_eq!(l.letter(), 'Q');
    assert!(!l.checked());
    assert_eq!(*l.position(), None);
    l.set_position(Position::Wrong);
    assert!(l.checked());
    assert_eq!(*l.position(), Some(Position::Wrong));
    assert_eq!(l.letter(), 'Q');
}

#[test]
fn checked_word_new_and_letter_at() {
    let letters = ['H', 'E', 'L', 'L', 'O'].map(CheckedLetter::new);
    let cw = CheckedWord::new(letters);
    for i in 0..WORD_SIZE {
        assert_eq!(cw.letter_at(i).letter(), ['H', 'E', 'L', 'L', 'O'][i]);
        assert!(!cw.letter_at(i).checked());
    }
    assert!(!cw.solved());
}

#[test]
fn checked_word_map_and_iter() {
    let scored = compare(word("SPEED"), word("ABIDE"));
    let letters = scored.map(|l| l.letter());
    assert_eq!(letters, ['S', 'P', 'E', 'E', 'D']);
    let collected: Vec<char> = scored.iter().map(|l| l.letter()).collect();
    assert_eq!(collected, vec!['S', 'P', 'E', 'E', 'D']);
}

#[test]
fn random_word_from_empty_list_is_an_error() {
    let words: Vec<Word> = Vec::new();
    assert_eq!(get_random_word(&words), Err("No word found.".to_string()));
}

#[test]
fn random_word_from_singleton_list_is_that_word() {
    let words = vec![word("CRANE")];
    assert_eq!(get_random_word(&words), Ok(word("CRANE")));
}

#[test]
fn random_word_is_a_member_of_the_list() {
    let words = vec![word("CRANE"), word("SPEED"), word("ABIDE")];
    let picked = get_random_word(&words).unwrap();
    assert!(words.contains(&picked));
}

#[test]
fn solved_turn_wins() {
    let scored = compare(word("CRANE"), word("CRANE"));
    assert_eq!(next_turn(1, &scored), TurnOutcome::Won);
    assert_eq!(next_turn(MAX_TRIES, &scored), TurnOutcome::Won);
}

#[test]
fn unsolved_last_turn_loses() {
    let scored = compare(word("SPEED"), word("ABIDE"));
    assert_eq!(next_turn(1, &scored), TurnOutcome::Lost);
}

#[test]
fn unsolved_turn_plays_on_with_one_try_fewer() {
    let scored = compare(word("SPEED"), word("ABIDE"));
    assert_eq!(next_turn(MAX_TRIES, &scored), TurnOutcome::Playing { tries_left: MAX_TRIES - 1 });
}

#[test]
fn from_str_rejects_accented_letters() {
    assert_eq!(Word::from_str("cr\u{e2}ne"), Err(WordError::NotAWord));
}

#[test]
fn word_size_and_tries_are_the_classic_ones() {
    assert_eq!(WORD_SIZE, 5);
    assert_eq!(MAX_TRIES, 6);
}

#[test]
fn from_str_trims_surrounding_whitespace() {
    assert_eq!(Word::from_str(" crane\n"), Ok(Word::new(['C', 'R', 'A', 'N', 'E'])));
    assert_eq!(Word::from_str("\t speed \r\n"), Ok(Word::new(['S', 'P', 'E', 'E', 'D'])));
    assert_eq!(Word::from_str("\u{a0}CRANE\u{3000}"), Ok(Word::new(['C', 'R', 'A', 'N', 'E'])));
}

#[test]
fn from_str_all_whitespace_is_wrong_length() {
    assert_eq!(Word::from_str("  \t  "), Err(WordError::WrongLength));
    assert_eq!(Word::from_str("\n"), Err(WordError::WrongLength));
}

#[test]
fn checked_word_from_word_is_unevaluated() {
    let cw = CheckedWord::from(word("CRANE"));
    for i in 0..WORD_SIZE {
        assert_eq!(cw.letter_at(i).letter(), ['C', 'R', 'A', 'N', 'E'][i]);
        assert!(!cw.letter_at(i).checked());
    }
    assert!(!cw.solved());
}
