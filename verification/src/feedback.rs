//! Per-letter feedback for a guess: the data types that carry the result of
//! scoring a guess against the target word.

use vstd::prelude::*;
use crate::WORD_SIZE;
use crate::word::Word;

verus! {

/// How one letter of a guess relates to the target word.
#[derive(Clone, Copy, Debug, Eq, PartialEq, Structural)]
pub enum Position {
    /// The letter matches the target at the same index.
    Correct,
    /// The letter occurs in the target, but at another index, and that
    /// occurrence has not been claimed by an earlier guess letter.
    Wrong,
    /// The letter does not occur in the target, or every occurrence has
    /// already been claimed.
    NotInWord,
}

/// One letter of a guess together with its feedback, which is absent until
/// the letter has been evaluated.
#[derive(Clone, Copy, Debug, Eq, PartialEq)]
pub struct CheckedLetter {
    letter: char,
    position: Option<Position>,
}

impl CheckedLetter {
    /// The letter this entry carries.
    pub closed spec fn spec_letter(&self) -> char {
        self.letter
    }

    /// The feedback assigned so far, if any.
    pub closed spec fn spec_position(&self) -> Option<Position> {
        self.position
    }

    /// A letter that has not been evaluated yet.
    pub fn new(letter: char) -> (r: Self)
        ensures
            r.spec_letter() == letter,
            r.spec_position() is None,
    {
        Self { letter, position: None }
    }

    pub fn letter(&self) -> (c: char)
        ensures
            c == self.spec_letter(),
    {
        self.letter
    }

    pub fn position(&self) -> (p: &Option<Position>)
        ensures
            *p == self.spec_position(),
    {
        &self.position
    }

    /// Whether feedback has been assigned to this letter.
    pub fn checked(&self) -> (b: bool)
        ensures
            b == (self.spec_position() is Some),
    {
        self.position.is_some()
    }

    /// Assign feedback to this letter.
    pub fn set_position(&mut self, position: Position)
        ensures
            final(self).spec_letter() == old(self).spec_letter(),
            final(self).spec_position() == Some(position),
    {
        self.position = Some(position);
    }
}

/// A scored guess is solved when every letter has been marked `Correct`.
pub open spec fn spec_solved(s: Seq<CheckedLetter>) -> bool {
    forall|i: int| 0 <= i < s.len() ==> (#[trigger] s[i].spec_position()) == Some(Position::Correct)
}

/// A whole guess after evaluation: one [`CheckedLetter`] per position.
#[derive(Clone, Copy, Debug, Eq, PartialEq)]
pub struct CheckedWord {
    letters: [CheckedLetter; WORD_SIZE],
}

impl View for CheckedWord {
    type V = Seq<CheckedLetter>;

    closed spec fn view(&self) -> Seq<CheckedLetter> {
        self.letters@
    }
}

impl CheckedWord {
    pub fn new(letters: [CheckedLetter; WORD_SIZE]) -> (r: Self)
        ensures
            r@ == letters@,
    {
        Self { letters }
    }

    /// A word as a fresh, unevaluated scored word: the same letters, none of
    /// them checked yet.
    pub fn from(word: Word) -> (r: CheckedWord)
        ensures
            r@.len() == WORD_SIZE,
            forall|i: int|
                0 <= i < WORD_SIZE ==> (#[trigger] r@[i]).spec_letter() == word@[i]
                    && r@[i].spec_position() is None,
    {
        CheckedWord::new(word.map(CheckedLetter::new))
    }

    /// Whether every position of this scored word is marked `Correct`.
    pub fn solved(&self) -> (b: bool)
        ensures
            b == spec_solved(self@),
    {
        let mut i: usize = 0;
        while i < WORD_SIZE
            invariant
                i <= WORD_SIZE,
                forall|j: int|
                    0 <= j < i ==> (#[trigger] self@[j].spec_position()) == Some(
                        Position::Correct,
                    ),
            decreases WORD_SIZE - i,
        {
            let correct = match self.letters[i].position() {
                Some(Position::Correct) => true,
                _ => false,
            };
            if !correct {
                return false;
            }
            i += 1;
        }
        true
    }

    /// The letter at index `i` together with its feedback.
    pub fn letter_at(&self, i: usize) -> (l: CheckedLetter)
        requires
            i < WORD_SIZE,
        ensures
            l == self@[i as int],
    {
        self.letters[i]
    }

    /// An iterator over the scored letters, in order.
    pub fn iter(&self) -> (r: core::slice::Iter<'_, CheckedLetter>)
        ensures
            vstd::std_specs::slice::into_iter_elts(r) == self@,
    {
        broadcast use vstd::std_specs::slice::axiom_spec_slice_iter;

        let sl: &[CheckedLetter] = self.letters.as_slice();
        let it = sl.iter();
        proof {
            assert(sl@.as_ref().unref() =~= sl@);
        }
        it
    }

    /// Apply `f` to every scored letter, in order.
    pub fn map<T: Copy>(&self, f: impl Fn(CheckedLetter) -> T) -> (r: [T; WORD_SIZE])
        requires
            forall|i: int| 0 <= i < WORD_SIZE ==> call_requires(f, (self@[i],)),
        ensures
            forall|i: int|
                0 <= i < WORD_SIZE ==> call_ensures(f, (self@[i],), #[trigger] r@[i]),
    {
        let first = f(self.letter_at(0));
        let mut out: [T; WORD_SIZE] = [first; WORD_SIZE];
        let mut i: usize = 1;
        while i < WORD_SIZE
            invariant
                1 <= i <= WORD_SIZE,
                forall|j: int| 0 <= j < WORD_SIZE ==> call_requires(f, (self@[j],)),
                forall|j: int|
                    0 <= j < i ==> call_ensures(f, (self@[j],), #[trigger] out@[j]),
            decreases WORD_SIZE - i,
        {
            out[i] = f(self.letter_at(i));
            i += 1;
        }
        out
    }
}

/// The letters of `target` at the indices from `i` on where `guess` does not
/// match exactly, in order. Starting at index 0 this is the pool of target
/// letters that misplaced guess letters may claim: an exact match consumes
/// its target letter before the pool is built.
pub open spec fn leftover_from(guess: Seq<char>, target: Seq<char>, i: int) -> Seq<char>
    decreases target.len() - i,
{
    if i < 0 || i >= target.len() {
        Seq::empty()
    } else if i < guess.len() && guess[i] == target[i] {
        leftover_from(guess, target, i + 1)
    } else {
        seq![target[i]] + leftover_from(guess, target, i + 1)
    }
}

/// `s` with the first occurrence of `c` removed; `s` unchanged when `c` does
/// not occur.
pub open spec fn remove_first(s: Seq<char>, c: char) -> Seq<char>
    decreases s.len(),
{
    if s.len() == 0 {
        s
    } else if s[0] == c {
        s.drop_first()
    } else {
        seq![s[0]] + remove_first(s.drop_first(), c)
    }
}

/// The feedback for the guess positions from `i` on, given the pool `avail`
/// of still unclaimed target letters. An exact match is `Correct` and leaves
/// the pool alone (its target letter was never in the pool); otherwise a
/// letter still in the pool is `Wrong` and claims the pool's first occurrence
/// of itself, and a letter not in the pool is `NotInWord`.
pub open spec fn score_from(
    guess: Seq<char>,
    target: Seq<char>,
    i: int,
    avail: Seq<char>,
) -> Seq<Position>
    decreases guess.len() - i,
{
    if i < 0 || i >= guess.len() {
        Seq::empty()
    } else if i < target.len() && guess[i] == target[i] {
        seq![Position::Correct] + score_from(guess, target, i + 1, avail)
    } else if avail.contains(guess[i]) {
        seq![Position::Wrong] + score_from(guess, target, i + 1, remove_first(avail, guess[i]))
    } else {
        seq![Position::NotInWord] + score_from(guess, target, i + 1, avail)
    }
}

/// The feedback `compare` assigns: one [`Position`] for each guess index.
pub open spec fn score(guess: Seq<char>, target: Seq<char>) -> Seq<Position> {
    score_from(guess, target, 0, leftover_from(guess, target, 0))
}

/// The scored suffix has one entry per remaining guess position.
proof fn lemma_score_from_len(guess: Seq<char>, target: Seq<char>, i: int, avail: Seq<char>)
    requires
        0 <= i <= guess.len(),
    ensures
        score_from(guess, target, i, avail).len() == guess.len() - i,
    decreases guess.len() - i,
{
    if i < guess.len() {
        if i < target.len() && guess[i] == target[i] {
            lemma_score_from_len(guess, target, i + 1, avail);
        } else if avail.contains(guess[i]) {
            lemma_score_from_len(guess, target, i + 1, remove_first(avail, guess[i]));
        } else {
            lemma_score_from_len(guess, target, i + 1, avail);
        }
    }
}

/// Removing the first occurrence of `c` is removing the element at the
/// smallest index that holds `c`.
proof fn lemma_remove_first_at(s: Seq<char>, c: char, j: int)
    requires
        0 <= j < s.len(),
        s[j] == c,
        forall|k: int| 0 <= k < j ==> s[k] != c,
    ensures
        remove_first(s, c) == s.remove(j),
    decreases j,
{
    if j == 0 {
        assert(s.drop_first() =~= s.remove(0));
    } else {
        lemma_remove_first_at(s.drop_first(), c, j - 1);
        assert(seq![s[0]] + s.drop_first().remove(j - 1) =~= s.remove(j));
    }
}

/// The index of the first occurrence of `c` in `letters`, if any.
fn find_first(letters: &Vec<char>, c: char) -> (r: Option<usize>)
    ensures
        (match r {
            Some(j) => j < letters@.len() && letters@[j as int] == c && (forall|k: int|
                0 <= k < j ==> letters@[k] != c),
            None => forall|k: int| 0 <= k < letters@.len() ==> letters@[k] != c,
        }),
{
    let mut i: usize = 0;
    while i < letters.len()
        invariant
            i <= letters@.len(),
            forall|k: int| 0 <= k < i ==> letters@[k] != c,
        decreases letters@.len() - i,
    {
        if letters[i] == c {
            return Some(i);
        }
        i += 1;
    }
    None
}

/// Score `guess` against `word`: every position gets a feedback, in two
/// passes. The first pass marks exact matches `Correct`; the second walks the
/// remaining positions left to right and marks each `Wrong` if its letter can
/// still claim an unclaimed target letter, else `NotInWord`. A target letter
/// claimed once, by an exact match or an earlier misplaced letter, is never
/// claimed again.
pub fn compare(guess: Word, word: Word) -> (r: CheckedWord)
    ensures
        r@.len() == WORD_SIZE,
        forall|i: int| 0 <= i < WORD_SIZE ==> (#[trigger] r@[i]).spec_letter() == guess@[i],
        forall|i: int|
            0 <= i < WORD_SIZE ==> (#[trigger] r@[i]).spec_position() == Some(
                score(guess@, word@)[i],
            ),
{
    broadcast use crate::word::lemma_word_len;

    let ghost g = guess@;
    let ghost t = word@;

    // Pass 1: mark the exact matches.
    let mut letters: [CheckedLetter; WORD_SIZE] = [CheckedLetter::new('A'); WORD_SIZE];
    let mut i: usize = 0;
    while i < WORD_SIZE
        invariant
            i <= WORD_SIZE,
            g == guess@,
            t == word@,
            g.len() == WORD_SIZE,
            t.len() == WORD_SIZE,
            forall|j: int| 0 <= j < i ==> (#[trigger] letters@[j]).spec_letter() == g[j],
            forall|j: int|
                0 <= j < i ==> (#[trigger] letters@[j]).spec_position() == (if g[j] == t[j] {
                    Some(Position::Correct)
                } else {
                    None::<Position>
                }),
        decreases WORD_SIZE - i,
    {
        let c = guess.char_at(i);
        let mut cl = CheckedLetter::new(c);
        if c == word.char_at(i) {
            cl.set_position(Position::Correct);
        }
        letters[i] = cl;
        i += 1;
    }

    // The pool of target letters still open to misplaced guess letters.
    let mut leftover: Vec<char> = Vec::new();
    let mut i: usize = 0;
    while i < WORD_SIZE
        invariant
            i <= WORD_SIZE,
            g == guess@,
            t == word@,
            g.len() == WORD_SIZE,
            t.len() == WORD_SIZE,
            forall|j: int| 0 <= j < WORD_SIZE ==> (#[trigger] letters@[j]).spec_letter() == g[j],
            forall|j: int|
                0 <= j < WORD_SIZE ==> (#[trigger] letters@[j]).spec_position() == (if g[j]
                    == t[j] {
                    Some(Position::Correct)
                } else {
                    None::<Position>
                }),
            leftover_from(g, t, 0) == leftover@ + leftover_from(g, t, i as int),
        decreases WORD_SIZE - i,
    {
        let ghost lv = leftover@;
        if !letters[i].checked() {
            leftover.push(word.char_at(i));
            proof {
                assert(leftover@ =~= lv + seq![t[i as int]]);
                assert(lv + (seq![t[i as int]] + leftover_from(g, t, i + 1)) =~= (lv + seq![
                    t[i as int],
                ]) + leftover_from(g, t, i + 1));
            }
        }
        i += 1;
    }
    proof {
        assert(leftover@ + leftover_from(g, t, WORD_SIZE as int) =~= leftover@);
    }

    // Pass 2: walk the still unmarked positions left to right.
    let ghost mut done: Seq<Position> = Seq::empty();
    proof {
        assert(done + score_from(g, t, 0, leftover@) =~= score_from(g, t, 0, leftover@));
    }
    let mut i: usize = 0;
    while i < WORD_SIZE
        invariant
            i <= WORD_SIZE,
            g == guess@,
            t == word@,
            g.len() == WORD_SIZE,
            t.len() == WORD_SIZE,
            forall|j: int| 0 <= j < WORD_SIZE ==> (#[trigger] letters@[j]).spec_letter() == g[j],
            done.len() == i,
            forall|j: int|
                0 <= j < i ==> (#[trigger] letters@[j]).spec_position() == Some(done[j]),
            forall|j: int|
                i <= j < WORD_SIZE ==> (#[trigger] letters@[j]).spec_position() == (if g[j]
                    == t[j] {
                    Some(Position::Correct)
                } else {
                    None::<Position>
                }),
            score(g, t) == done + score_from(g, t, i as int, leftover@),
        decreases WORD_SIZE - i,
    {
        let ghost lv = leftover@;
        let cl = letters[i];
        if cl.checked() {
            proof {
                assert(g[i as int] == t[i as int]);
                let step = seq![Position::Correct];
                assert(done.push(Position::Correct) =~= done + step);
                assert((done + step) + score_from(g, t, i + 1, lv) =~= done + (step + score_from(
                    g,
                    t,
                    i + 1,
                    lv,
                )));
                done = done.push(Position::Correct);
            }
        } else {
            match find_first(&leftover, cl.letter()) {
                Some(j) => {
                    let mut marked = cl;
                    marked.set_position(Position::Wrong);
                    letters[i] = marked;
                    leftover.remove(j);
                    proof {
                        assert(lv[j as int] == g[i as int]);
                        assert(lv.contains(g[i as int]));
                        lemma_remove_first_at(lv, g[i as int], j as int);
                        let step = seq![Position::Wrong];
                        assert(done.push(Position::Wrong) =~= done + step);
                        assert((done + step) + score_from(g, t, i + 1, leftover@) =~= done + (step
                            + score_from(g, t, i + 1, leftover@)));
                        done = done.push(Position::Wrong);
                    }
                },
                None => {
                    let mut marked = cl;
                    marked.set_position(Position::NotInWord);
                    letters[i] = marked;
                    proof {
                        assert(!lv.contains(g[i as int]));
                        let step = seq![Position::NotInWord];
                        assert(done.push(Position::NotInWord) =~= done + step);
                        assert((done + step) + score_from(g, t, i + 1, lv) =~= done + (step
                            + score_from(g, t, i + 1, lv)));
                        done = done.push(Position::NotInWord);
                    }
                },
            }
        }
        i += 1;
    }
    proof {
        assert(done + score_from(g, t, WORD_SIZE as int, leftover@) =~= done);
        assert(score(g, t) =~= done);
    }
    CheckedWord::new(letters)
}

/// How many positions of `s` hold the letter `c`.
pub open spec fn count_of(s: Seq<char>, c: char) -> nat
    decreases s.len(),
{
    if s.len() == 0 {
        0
    } else {
        (if s[0] == c {
            1nat
        } else {
            0nat
        }) + count_of(s.drop_first(), c)
    }
}

/// How many positions hold the guess letter `c` and a feedback other than
/// `NotInWord`: the positions where `c` claims a target letter.
pub open spec fn claimed_count(g: Seq<char>, sc: Seq<Position>, c: char) -> nat
    decreases g.len(),
{
    if g.len() == 0 || sc.len() == 0 {
        0
    } else {
        (if g[0] == c && sc[0] != Position::NotInWord {
            1nat
        } else {
            0nat
        }) + claimed_count(g.drop_first(), sc.drop_first(), c)
    }
}

/// How many positions from `i` on are exact matches holding the letter `c`.
spec fn exact_count(g: Seq<char>, t: Seq<char>, c: char, i: int) -> nat
    decreases g.len() - i,
{
    if i < 0 || i >= g.len() {
        0
    } else {
        (if i < t.len() && g[i] == t[i] && g[i] == c {
            1nat
        } else {
            0nat
        }) + exact_count(g, t, c, i + 1)
    }
}

proof fn lemma_count_cons(a: char, s: Seq<char>, c: char)
    ensures
        count_of(seq![a] + s, c) == (if a == c {
            1nat
        } else {
            0nat
        }) + count_of(s, c),
{
    assert((seq![a] + s).drop_first() =~= s);
    assert((seq![a] + s)[0] == a);
}

/// A letter occurs in `s` exactly when it is counted at least once.
proof fn lemma_count_zero(s: Seq<char>, c: char)
    ensures
        (count_of(s, c) == 0) <==> !s.contains(c),
    decreases s.len(),
{
    if s.len() > 0 {
        lemma_count_zero(s.drop_first(), c);
        if s.contains(c) {
            let k = choose|k: int| 0 <= k < s.len() && s[k] == c;
            if k > 0 {
                assert(s.drop_first()[k - 1] == c);
            }
        } else {
            assert(s[0] != c);
            assert(forall|k: int| 0 <= k < s.drop_first().len() ==> s.drop_first()[k] == s[k + 1]
                && s[k + 1] != c);
        }
    }
}

/// Removing the first occurrence of `d` lowers the count of `d` by one and
/// leaves the count of every other letter alone.
proof fn lemma_count_remove_first(s: Seq<char>, d: char, c: char)
    requires
        s.contains(d),
    ensures
        count_of(remove_first(s, d), c) + (if c == d {
            1nat
        } else {
            0nat
        }) == count_of(s, c),
    decreases s.len(),
{
    if s[0] == d {
        assert(remove_first(s, d) == s.drop_first());
    } else {
        let k = choose|k: int| 0 <= k < s.len() && s[k] == d;
        assert(k > 0);
        assert(s.drop_first()[k - 1] == d);
        lemma_count_remove_first(s.drop_first(), d, c);
        lemma_count_cons(s[0], remove_first(s.drop_first(), d), c);
    }
}

/// The exact matches and the leftover pool together partition the letters of
/// the target: each target letter is counted once, on whichever side.
proof fn lemma_partition(g: Seq<char>, t: Seq<char>, c: char, i: int)
    requires
        g.len() == t.len(),
        0 <= i <= t.len(),
    ensures
        count_of(t.skip(i), c) == exact_count(g, t, c, i) + count_of(leftover_from(g, t, i), c),
    decreases t.len() - i,
{
    if i < t.len() {
        lemma_partition(g, t, c, i + 1);
        assert(t.skip(i) =~= seq![t[i]] + t.skip(i + 1));
        lemma_count_cons(t[i], t.skip(i + 1), c);
        if g[i] == t[i] {
        } else {
            lemma_count_cons(t[i], leftover_from(g, t, i + 1), c);
        }
    } else {
        assert(t.skip(i) =~= Seq::<char>::empty());
    }
}

/// Letters claimed from position `i` on never outnumber the exact matches
/// from `i` on plus what the pool still holds.
proof fn lemma_claimed_bound(g: Seq<char>, t: Seq<char>, c: char, i: int, avail: Seq<char>)
    requires
        0 <= i <= g.len(),
    ensures
        claimed_count(g.skip(i), score_from(g, t, i, avail), c) <= exact_count(g, t, c, i)
            + count_of(avail, c),
    decreases g.len() - i,
{
    if i < g.len() {
        let suffix = g.skip(i);
        assert(suffix =~= seq![g[i]] + g.skip(i + 1));
        assert(suffix.drop_first() =~= g.skip(i + 1));
        if i < t.len() && g[i] == t[i] {
            let rest = score_from(g, t, i + 1, avail);
            assert((seq![Position::Correct] + rest).drop_first() =~= rest);
            lemma_claimed_bound(g, t, c, i + 1, avail);
        } else if avail.contains(g[i]) {
            let rest = score_from(g, t, i + 1, remove_first(avail, g[i]));
            assert((seq![Position::Wrong] + rest).drop_first() =~= rest);
            lemma_claimed_bound(g, t, c, i + 1, remove_first(avail, g[i]));
            lemma_count_remove_first(avail, g[i], c);
        } else {
            let rest = score_from(g, t, i + 1, avail);
            assert((seq![Position::NotInWord] + rest).drop_first() =~= rest);
            lemma_claimed_bound(g, t, c, i + 1, avail);
        }
    }
}

/// Duplicate conservation: for any letter, the guess positions marked
/// `Correct` or `Wrong` for that letter never outnumber its occurrences in
/// the target, so no target letter is claimed twice.
pub proof fn lemma_duplicate_conservation(g: Seq<char>, t: Seq<char>, c: char)
    requires
        g.len() == t.len(),
    ensures
        claimed_count(g, score(g, t), c) <= count_of(t, c),
{
    lemma_claimed_bound(g, t, c, 0, leftover_from(g, t, 0));
    lemma_partition(g, t, c, 0);
    assert(g.skip(0) =~= g);
    assert(t.skip(0) =~= t);
}

/// Every position of the score carries a feedback entry: the score is as
/// long as the guess, one entry per position.
pub proof fn lemma_score_len(g: Seq<char>, t: Seq<char>)
    ensures
        score(g, t).len() == g.len(),
{
    lemma_score_from_len(g, t, 0, leftover_from(g, t, 0));
}

proof fn lemma_score_from_self(w: Seq<char>, i: int, avail: Seq<char>)
    requires
        0 <= i <= w.len(),
    ensures
        score_from(w, w, i, avail).len() == w.len() - i,
        forall|j: int|
            0 <= j < w.len() - i ==> score_from(w, w, i, avail)[j] == Position::Correct,
    decreases w.len() - i,
{
    if i < w.len() {
        lemma_score_from_self(w, i + 1, avail);
    }
}

/// Identity: scoring any word against itself marks every position `Correct`.
pub proof fn lemma_identity_all_correct(w: Seq<char>)
    ensures
        score(w, w).len() == w.len(),
        forall|i: int| 0 <= i < w.len() ==> score(w, w)[i] == Position::Correct,
{
    lemma_score_from_self(w, 0, leftover_from(w, w, 0));
}

proof fn lemma_score_from_correct_is_exact(
    g: Seq<char>,
    t: Seq<char>,
    i: int,
    avail: Seq<char>,
)
    requires
        0 <= i <= g.len(),
    ensures
        forall|j: int|
            i <= j < g.len() && score_from(g, t, i, avail)[j - i] == Position::Correct ==> g[j]
                == t[j],
    decreases g.len() - i,
{
    if i < g.len() {
        let head = if i < t.len() && g[i] == t[i] {
            Position::Correct
        } else if avail.contains(g[i]) {
            Position::Wrong
        } else {
            Position::NotInWord
        };
        let avail2 = if head == Position::Wrong {
            remove_first(avail, g[i])
        } else {
            avail
        };
        let rest = score_from(g, t, i + 1, avail2);
        lemma_score_from_len(g, t, i + 1, avail2);
        lemma_score_from_correct_is_exact(g, t, i + 1, avail2);
        assert(score_from(g, t, i, avail) == seq![head] + rest);
        assert forall|j: int|
            i <= j < g.len() && score_from(g, t, i, avail)[j - i]
                == Position::Correct implies g[j] == t[j] by {
            if j > i {
                assert((seq![head] + rest)[j - i] == rest[j - i - 1]);
            }
        }
    }
}

/// No false exacts: a position marked `Correct` really holds the target's
/// letter at that position.
pub proof fn lemma_no_false_exacts(g: Seq<char>, t: Seq<char>, i: int)
    requires
        0 <= i < g.len(),
        score(g, t)[i] == Position::Correct,
    ensures
        g[i] == t[i],
{
    lemma_score_from_correct_is_exact(g, t, 0, leftover_from(g, t, 0));
}

proof fn lemma_score_from_absent(g: Seq<char>, t: Seq<char>, c: char, i: int, avail: Seq<char>)
    requires
        0 <= i <= g.len(),
        !t.contains(c),
        !avail.contains(c),
    ensures
        forall|j: int|
            i <= j < g.len() && g[j] == c ==> score_from(g, t, i, avail)[j - i]
                == Position::NotInWord,
    decreases g.len() - i,
{
    if i < g.len() {
        let head = if i < t.len() && g[i] == t[i] {
            Position::Correct
        } else if avail.contains(g[i]) {
            Position::Wrong
        } else {
            Position::NotInWord
        };
        let avail2 = if head == Position::Wrong {
            remove_first(avail, g[i])
        } else {
            avail
        };
        if head == Position::Correct {
            assert(t.contains(t[i]));
            assert(g[i] != c);
        }
        if head == Position::Wrong {
            assert(g[i] != c);
            lemma_count_zero(avail, c);
            lemma_count_remove_first(avail, g[i], c);
            lemma_count_zero(avail2, c);
        }
        let rest = score_from(g, t, i + 1, avail2);
        lemma_score_from_len(g, t, i + 1, avail2);
        lemma_score_from_absent(g, t, c, i + 1, avail2);
        assert(score_from(g, t, i, avail) == seq![head] + rest);
        assert forall|j: int|
            i <= j < g.len() && g[j] == c implies score_from(g, t, i, avail)[j - i]
            == Position::NotInWord by {
            if j > i {
                assert((seq![head] + rest)[j - i] == rest[j - i - 1]);
            }
        }
    }
}

/// Symmetry of absence: a letter that occurs nowhere in the target is marked
/// `NotInWord` at every guess position that holds it.
pub proof fn lemma_absent_letter(g: Seq<char>, t: Seq<char>, i: int)
    requires
        g.len() == t.len(),
        0 <= i < g.len(),
        !t.contains(g[i]),
    ensures
        score(g, t)[i] == Position::NotInWord,
{
    let c = g[i];
    let pool = leftover_from(g, t, 0);
    lemma_partition(g, t, c, 0);
    assert(t.skip(0) =~= t);
    lemma_count_zero(t, c);
    lemma_count_zero(pool, c);
    lemma_score_from_absent(g, t, c, 0, pool);
}

} // verus!
