//! An index of one word: which positions each letter occupies.

use super::bitmask::Bitmask;
use vstd::prelude::*;

verus! {

/// The set of positions at which letter `c` occurs in `w`.
pub open spec fn letter_positions(w: Seq<u8>, c: u8) -> Set<int> {
    Set::new(|i: int| 0 <= i < w.len() && w[i] == c)
}

/// One word of the bank, with lookup of the positions a letter occupies.
///
/// A word is an ordered sequence of letters, each one byte; it is
/// immutable once built, and two equal words index identically.
pub struct WordProcessor {
    pub word: Vec<u8>,
}

impl View for WordProcessor {
    type V = Seq<u8>;

    open spec fn view(&self) -> Seq<u8> {
        self.word@
    }
}

impl Clone for WordProcessor {
    fn clone(&self) -> (r: Self)
        ensures
            r@ == self@,
    {
        WordProcessor { word: vstd::slice::slice_to_vec(self.word.as_slice()) }
    }
}

impl WordProcessor {
    /// Indexes `word`.
    pub fn new(word: &[u8]) -> (r: Self)
        ensures
            r@ == word@,
    {
        WordProcessor { word: vstd::slice::slice_to_vec(word) }
    }

    /// The positions letter `c` occupies, or `None` if the word lacks it.
    pub fn get(&self, c: u8) -> (r: Option<Bitmask>)
        requires
            self@.len() <= 64,
        ensures
            match r {
                Some(m) => m@ == letter_positions(self@, c) && exists|i: int|
                    0 <= i < self@.len() && self@[i] == c,
                None => forall|i: int| 0 <= i < self@.len() ==> self@[i] != c,
            },
    {
        let mut mask = Bitmask::new();
        let mut found = false;
        let mut i: usize = 0;
        while i < self.word.len()
            invariant
                i <= self@.len() <= 64,
                mask@ == Set::new(|j: int| 0 <= j < i && self@[j] == c),
                found == exists|j: int| 0 <= j < i && self@[j] == c,
            decreases self@.len() - i,
        {
            if self.word[i] == c {
                mask.add(i);
                found = true;
                proof {
                    assert(mask@ =~= Set::new(|j: int| 0 <= j < i + 1 && self@[j] == c));
                }
            } else {
                proof {
                    assert(mask@ =~= Set::new(|j: int| 0 <= j < i + 1 && self@[j] == c));
                }
            }
            i = i + 1;
        }
        if found {
            proof {
                assert(mask@ =~= letter_positions(self@, c));
            }
            Some(mask)
        } else {
            None
        }
    }
}

} // verus!
