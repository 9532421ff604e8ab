use vstd::prelude::*;

use crate::WORD_LENGTH;

verus! {

/// A word of the game: exactly WORD_LENGTH letters.
pub open spec fn is_word(s: Seq<char>) -> bool {
    s.len() == WORD_LENGTH
}

/// Every entry of the list is a word of the game.
pub open spec fn all_words(ws: Seq<String>) -> bool {
    forall|i: int| 0 <= i < ws.len() ==> is_word(#[trigger] ws[i]@)
}

/// Prior probability of a letter, as the first matching entry of the table,
/// in parts per million; 0 for a letter the table does not list.
pub open spec fn spec_frequency_of(table: Seq<(char, u32)>, c: char) -> u32
    decreases table.len(),
{
    if table.len() == 0 {
        0
    } else if table[0].0 == c {
        table[0].1
    } else {
        spec_frequency_of(table.drop_first(), c)
    }
}

/// The immutable candidate corpus and the letter-frequency priors, both
/// injected once at construction and never changed afterwards.
pub struct WordPool {
    pub words: Vec<String>,
    pub letter_frequencies: Vec<(char, u32)>,
}

impl WordPool {
    pub open spec fn wf(&self) -> bool {
        all_words(self.words@)
    }

    /// Builds the pool from a corpus of words and a table of letter priors
    /// (letter, parts per million).
    pub fn new(words: Vec<String>, letter_frequencies: Vec<(char, u32)>) -> (pool: WordPool)
        requires
            all_words(words@),
        ensures
            pool.wf(),
            pool.words@ == words@,
            pool.letter_frequencies@ == letter_frequencies@,
    {
        WordPool { words, letter_frequencies }
    }

    pub fn len(&self) -> (n: usize)
        ensures
            n == self.words@.len(),
    {
        self.words.len()
    }

    /// The prior of `c`, or 0 where the table does not list it.
    pub fn frequency_of(&self, c: char) -> (r: u32)
        ensures
            r == spec_frequency_of(self.letter_frequencies@, c),
    {
        let n = self.letter_frequencies.len();
        let mut i: usize = 0;
        proof {
            assert(self.letter_frequencies@.skip(0) =~= self.letter_frequencies@);
        }
        while i < n
            invariant
                0 <= i <= n,
                n == self.letter_frequencies@.len(),
                spec_frequency_of(self.letter_frequencies@, c) == spec_frequency_of(
                    self.letter_frequencies@.skip(i as int),
                    c,
                ),
            decreases n - i,
        {
            let (ch, f) = self.letter_frequencies[i];
            proof {
                assert(self.letter_frequencies@.skip(i as int)[0] == self.letter_frequencies@[i as int]);
                assert(self.letter_frequencies@.skip(i as int).drop_first() =~= self.letter_frequencies@.skip(
                    i as int + 1,
                ));
            }
            if ch == c {
                return f;
            }
            i = i + 1;
        }
        proof {
            assert(self.letter_frequencies@.skip(n as int).len() == 0);
        }
        0
    }
}

/// Relies on String::push: appends exactly the given character.
#[verifier::external_body]
fn push_char(s: &mut String, c: char)
    ensures
        final(s)@ == old(s)@.push(c),
{
    s.push(c);
}

/// A string made of the given characters.
pub fn chars_to_string(v: &Vec<char>) -> (s: String)
    ensures
        s@ == v@,
{
    let n = v.len();
    let mut s = String::new();
    let mut i: usize = 0;
    while i < n
        invariant
            0 <= i <= n,
            n == v@.len(),
            s@ =~= v@.take(i as int),
        decreases n - i,
    {
        push_char(&mut s, v[i]);
        proof {
            assert(s@ =~= v@.take(i as int + 1));
        }
        i = i + 1;
    }
    proof {
        assert(s@ =~= v@);
    }
    s
}

/// The characters of a string, as a vector.
pub fn chars_of(s: &str) -> (v: Vec<char>)
    ensures
        v@ == s@,
{
    let n = s.unicode_len();
    let mut v: Vec<char> = Vec::new();
    let mut i: usize = 0;
    while i < n
        invariant
            0 <= i <= n,
            n == s@.len(),
            v@ =~= s@.take(i as int),
        decreases n - i,
    {
        v.push(s.get_char(i));
        i = i + 1;
    }
    proof {
        assert(v@ =~= s@);
    }
    v
}

} // verus!
