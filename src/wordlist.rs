//! The rule that decides which words of a source word list are worth
//! keeping in a puzzle dictionary.

use vstd::prelude::*;
use crate::text::chars_of;
use vstd::utf8::encode_utf8;

verus! {

/// The shortest word worth keeping, in bytes.
pub const MINIMUM_LENGTH: usize = 3;

/// No character equals the one before it.
pub open spec fn no_doubled_letters(w: Seq<char>) -> bool {
    forall|i: int| 1 <= i < w.len() ==> #[trigger] w[i] != w[i - 1]
}

/// A word of at least `MINIMUM_LENGTH` bytes with no immediately doubled
/// letter: BUT passes, BUTT does not.
pub fn is_playable_word(word: &str) -> (r: bool)
    ensures
        r == (encode_utf8(word@).len() as usize >= MINIMUM_LENGTH && no_doubled_letters(word@)),
{
    if word.len() < MINIMUM_LENGTH {
        return false;
    }
    let cs = chars_of(word);
    let mut prev: Option<char> = None;
    let mut i: usize = 0;
    while i < cs.len()
        invariant
            cs@ == word@,
            i <= cs.len(),
            i == 0 ==> prev is None,
            i > 0 ==> prev == Some(cs@[i - 1]),
            forall|j: int| 1 <= j < i ==> #[trigger] cs@[j] != cs@[j - 1],
        decreases cs.len() - i,
    {
        let c = cs[i];
        match prev {
            Some(p) => {
                if p == c {
                    assert(cs@[i as int] == cs@[i - 1]);
                    return false;
                }
            },
            None => {},
        }
        prev = Some(c);
        i += 1;
    }
    true
}

} // verus!
