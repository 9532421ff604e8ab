pub mod constraints;
pub mod entropy;
pub mod feedback;
pub mod session;
pub mod appstate;
pub mod sim;
pub mod words;

use vstd::prelude::*;

verus! {

/// Length of every word in the game: the pool, every guess and every answer.
pub const WORD_LENGTH: usize = 5;

pub fn word_length() -> (n: usize)
    ensures
        n == WORD_LENGTH,
{
    WORD_LENGTH
}

} // verus!
