//! The fixed-length words the game is played with.

use vstd::prelude::*;
use vstd::string::StrSliceExecFns;
use crate::WORD_SIZE;

verus! {

/// Why raw text cannot be made into a [`Word`].
#[derive(Clone, Copy, Debug, Eq, PartialEq, Structural)]
pub enum WordError {
    /// Some character is not a letter.
    NotAWord,
    /// Every character is a letter, but there are not exactly
    /// [`WORD_SIZE`] of them.
    WrongLength,
}

/// An ASCII letter, of either case.
pub open spec fn is_alpha(c: char) -> bool {
    ('A' <= c && c <= 'Z') || ('a' <= c && c <= 'z')
}

/// A whitespace character: the Unicode `White_Space` set, exactly what
/// trimming a string removes from its ends.
pub open spec fn is_whitespace(c: char) -> bool {
    |||('\u{09}' <= c && c <= '\u{0d}')
    ||| c == ' '
    ||| c == '\u{85}'
    ||| c == '\u{a0}'
    ||| c == '\u{1680}'
    |||('\u{2000}' <= c && c <= '\u{200a}')
    ||| c == '\u{2028}'
    ||| c == '\u{2029}'
    ||| c == '\u{202f}'
    ||| c == '\u{205f}'
    ||| c == '\u{3000}'
}

fn is_whitespace_exec(c: char) -> (b: bool)
    ensures
        b == is_whitespace(c),
{
    ('\u{09}' <= c && c <= '\u{0d}') || c == ' ' || c == '\u{85}' || c == '\u{a0}' || c
        == '\u{1680}' || ('\u{2000}' <= c && c <= '\u{200a}') || c == '\u{2028}' || c == '\u{2029}'
        || c == '\u{202f}' || c == '\u{205f}' || c == '\u{3000}'
}

/// `s` with leading whitespace removed.
pub open spec fn trim_start(s: Seq<char>) -> Seq<char>
    decreases s.len(),
{
    if s.len() > 0 && is_whitespace(s[0]) {
        trim_start(s.drop_first())
    } else {
        s
    }
}

/// `s` with trailing whitespace removed.
pub open spec fn trim_end(s: Seq<char>) -> Seq<char>
    decreases s.len(),
{
    if s.len() > 0 && is_whitespace(s.last()) {
        trim_end(s.drop_last())
    } else {
        s
    }
}

/// `s` with leading and trailing whitespace removed: what trimming the raw
/// line leaves for validation.
pub open spec fn trimmed(s: Seq<char>) -> Seq<char> {
    trim_end(trim_start(s))
}

/// Trimming the front keeps the suffix from the first index that is not
/// whitespace.
proof fn lemma_trim_start_skip(s: Seq<char>, k: int)
    requires
        0 <= k <= s.len(),
        forall|j: int| 0 <= j < k ==> is_whitespace(#[trigger] s[j]),
        k < s.len() ==> !is_whitespace(s[k]),
    ensures
        trim_start(s) == s.skip(k),
    decreases k,
{
    if k == 0 {
        assert(s.skip(0) =~= s);
    } else {
        assert forall|j: int| 0 <= j < k - 1 implies is_whitespace(
            #[trigger] s.drop_first()[j],
        ) by {
            assert(s.drop_first()[j] == s[j + 1]);
        }
        assert(k - 1 < s.drop_first().len() ==> !is_whitespace(s.drop_first()[k - 1]));
        lemma_trim_start_skip(s.drop_first(), k - 1);
        assert(s.drop_first().skip(k - 1) =~= s.skip(k));
    }
}

/// Trimming the back keeps the prefix up to the last index that is not
/// whitespace.
proof fn lemma_trim_end_take(s: Seq<char>, k: int)
    requires
        0 <= k <= s.len(),
        forall|j: int| k <= j < s.len() ==> is_whitespace(#[trigger] s[j]),
        k > 0 ==> !is_whitespace(s[k - 1]),
    ensures
        trim_end(s) == s.take(k),
    decreases s.len() - k,
{
    if k == s.len() {
        assert(s.take(k) =~= s);
    } else {
        assert(is_whitespace(s.last()));
        assert forall|j: int| k <= j < s.drop_last().len() implies is_whitespace(
            #[trigger] s.drop_last()[j],
        ) by {
            assert(s.drop_last()[j] == s[j]);
        }
        assert(k > 0 ==> !is_whitespace(s.drop_last()[k - 1]));
        lemma_trim_end_take(s.drop_last(), k);
        assert(s.drop_last().take(k) =~= s.take(k));
    }
}

/// `c` with a lowercase ASCII letter folded to its uppercase form; any other
/// character is left alone.
pub open spec fn to_upper(c: char) -> char {
    if 'a' <= c && c <= 'z' {
        (((c as u8) - 32) as char)
    } else {
        c
    }
}

/// An ordered, fixed-length sequence of letters. A word built by
/// [`Word::from_str`] satisfies [`wf_word`]: every letter is an uppercase
/// ASCII letter. A word is never mutated once constructed.
#[derive(Clone, Copy, Debug, Eq, Hash, PartialEq)]
pub struct Word {
    letters: [char; WORD_SIZE],
}

impl View for Word {
    type V = Seq<char>;

    closed spec fn view(&self) -> Seq<char> {
        self.letters@
    }
}

/// Every word has exactly [`WORD_SIZE`] letters.
pub broadcast proof fn lemma_word_len(w: Word)
    ensures
        #[trigger] w@.len() == WORD_SIZE,
{
}

/// An uppercase ASCII letter.
pub open spec fn is_upper_alpha(c: char) -> bool {
    'A' <= c <= 'Z'
}

/// A well-formed word: every letter is an uppercase ASCII letter.
pub open spec fn wf_word(w: Word) -> bool {
    forall|i: int| 0 <= i < w@.len() ==> is_upper_alpha(#[trigger] w@[i])
}

impl Word {
    pub fn new(letters: [char; WORD_SIZE]) -> (r: Self)
        ensures
            r@ == letters@,
    {
        Self { letters }
    }

    /// The letter at index `i`.
    pub(crate) fn char_at(&self, i: usize) -> (c: char)
        requires
            i < WORD_SIZE,
        ensures
            c == self@[i as int],
    {
        self.letters[i]
    }

    /// An iterator over the letters, in order.
    pub fn iter(&self) -> (r: core::slice::Iter<'_, char>)
        ensures
            vstd::std_specs::slice::into_iter_elts(r) == self@,
    {
        broadcast use vstd::std_specs::slice::axiom_spec_slice_iter;

        let sl: &[char] = self.letters.as_slice();
        let it = sl.iter();
        proof {
            assert(sl@.as_ref().unref() =~= sl@);
        }
        it
    }

    /// Apply `f` to every letter, in order.
    pub fn map<T: Copy>(&self, f: impl Fn(char) -> T) -> (r: [T; WORD_SIZE])
        requires
            forall|i: int| 0 <= i < WORD_SIZE ==> call_requires(f, (self@[i],)),
        ensures
            forall|i: int|
                0 <= i < WORD_SIZE ==> call_ensures(f, (self@[i],), #[trigger] r@[i]),
    {
        let first = f(self.char_at(0));
        let mut out: [T; WORD_SIZE] = [first; WORD_SIZE];
        let mut i: usize = 1;
        while i < WORD_SIZE
            invariant
                1 <= i <= WORD_SIZE,
                forall|j: int| 0 <= j < WORD_SIZE ==> call_requires(f, (self@[j],)),
                forall|j: int|
                    0 <= j < i ==> call_ensures(f, (self@[j],), #[trigger] out@[j]),
            decreases WORD_SIZE - i,
        {
            out[i] = f(self.char_at(i));
            i += 1;
        }
        out
    }

    /// Make a word out of a raw line. Leading and trailing whitespace is
    /// trimmed away first; what remains is accepted exactly when every
    /// character is a letter and there are exactly [`WORD_SIZE`] of them,
    /// and the letters are folded to uppercase. Text with any other
    /// character inside is no word at all, and purely alphabetic text of the
    /// wrong length is rejected for its length.
    pub fn from_str(s: &str) -> (r: Result<Word, WordError>)
        ensures
            (r is Ok) <==> (trimmed(s@).len() == WORD_SIZE && forall|i: int|
                0 <= i < trimmed(s@).len() ==> is_alpha(#[trigger] trimmed(s@)[i])),
            r is Ok ==> r->Ok_0@.len() == WORD_SIZE && (forall|i: int|
                0 <= i < WORD_SIZE ==> r->Ok_0@[i] == to_upper(#[trigger] trimmed(s@)[i]))
                && wf_word(r->Ok_0),
            (r == Err::<Word, WordError>(WordError::NotAWord)) <==> (exists|i: int|
                0 <= i < trimmed(s@).len() && !is_alpha(#[trigger] trimmed(s@)[i])),
            (r == Err::<Word, WordError>(WordError::WrongLength)) <==> (trimmed(s@).len()
                != WORD_SIZE && forall|i: int|
                0 <= i < trimmed(s@).len() ==> is_alpha(#[trigger] trimmed(s@)[i])),
    {
        let n = s.unicode_len();
        let mut start: usize = 0;
        while start < n && is_whitespace_exec(s.get_char(start))
            invariant
                start <= n,
                n == s@.len(),
                forall|j: int| 0 <= j < start ==> is_whitespace(#[trigger] s@[j]),
            decreases n - start,
        {
            start += 1;
        }
        let mut end: usize = n;
        while end > start && is_whitespace_exec(s.get_char(end - 1))
            invariant
                start <= end <= n,
                n == s@.len(),
                forall|j: int| end <= j < n ==> is_whitespace(#[trigger] s@[j]),
            decreases end,
        {
            end -= 1;
        }
        let ghost core = trimmed(s@);
        proof {
            lemma_trim_start_skip(s@, start as int);
            assert forall|j: int|
                end - start <= j < s@.skip(start as int).len() implies is_whitespace(
                #[trigger] s@.skip(start as int)[j],
            ) by {
                assert(s@.skip(start as int)[j] == s@[start + j]);
            }
            assert(end - start > 0 ==> !is_whitespace(s@.skip(start as int)[end - start - 1]));
            lemma_trim_end_take(s@.skip(start as int), end - start);
            assert(core =~= s@.subrange(start as int, end as int));
        }
        let len = end - start;
        let mut i: usize = 0;
        while i < len
            invariant
                i <= len,
                len == end - start,
                start <= end <= n,
                n == s@.len(),
                core == trimmed(s@),
                core == s@.subrange(start as int, end as int),
                forall|j: int| 0 <= j < i ==> is_alpha(#[trigger] core[j]),
            decreases len - i,
        {
            let c = s.get_char(start + i);
            proof {
                assert(core[i as int] == s@[start + i]);
            }
            if !(('A' <= c && c <= 'Z') || ('a' <= c && c <= 'z')) {
                return Err(WordError::NotAWord);
            }
            i += 1;
        }
        if len != WORD_SIZE {
            return Err(WordError::WrongLength);
        }
        let mut letters: [char; WORD_SIZE] = ['A'; WORD_SIZE];
        let mut i: usize = 0;
        while i < WORD_SIZE
            invariant
                i <= WORD_SIZE,
                start + WORD_SIZE == end,
                end <= n,
                n == s@.len(),
                core == trimmed(s@),
                core == s@.subrange(start as int, end as int),
                forall|j: int| 0 <= j < WORD_SIZE ==> is_alpha(#[trigger] core[j]),
                forall|j: int| 0 <= j < i ==> letters@[j] == to_upper(#[trigger] core[j]),
                forall|j: int| 0 <= j < i ==> is_upper_alpha(#[trigger] letters@[j]),
            decreases WORD_SIZE - i,
        {
            let c = s.get_char(start + i);
            proof {
                assert(core[i as int] == s@[start + i]);
            }
            let up = if 'a' <= c && c <= 'z' {
                ((c as u8) - 32) as char
            } else {
                c
            };
            letters[i] = up;
            i += 1;
        }
        Ok(Word { letters })
    }
}

} // verus!
