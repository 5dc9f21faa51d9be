//! A spelling-bee letter-set filter.
//!
//! A letter bank holds a set of allowed letters, the first of which is
//! required. A word qualifies when it uses every required letter and no
//! letter outside the allowed set; the solver lists the first qualifying
//! words of its bank.

use vstd::prelude::*;

verus! {

/// How many solutions the solver reports at most.
pub const MAX_SOLUTIONS: usize = 20;

/// The letters a puzzle allows, with those it requires.
pub struct LetterBank {
    /// Letters every solution must use.
    pub required: Vec<u8>,
    /// Letters a solution may use; a superset of the required ones.
    pub allowed: Vec<u8>,
}

/// Whether word `w` uses every required letter and only allowed ones.
pub open spec fn bee_matches(required: Seq<u8>, allowed: Seq<u8>, w: Seq<u8>) -> bool {
    (forall|i: int| 0 <= i < required.len() ==> w.contains(#[trigger] required[i])) && (forall|
        i: int,
    | 0 <= i < w.len() ==> allowed.contains(#[trigger] w[i]))
}

/// Whether `c` occurs in `s`.
fn slice_has(s: &[u8], c: u8) -> (r: bool)
    ensures
        r == s@.contains(c),
{
    let n = s.len();
    let mut i: usize = 0;
    while i < n
        invariant
            i <= n == s@.len(),
            forall|j: int| 0 <= j < i ==> s@[j] != c,
        decreases n - i,
    {
        if s[i] == c {
            return true;
        }
        i = i + 1;
    }
    false
}

impl LetterBank {
    /// Builds a letter bank from the puzzle's letters: all of them are
    /// allowed, and the first is required.
    pub fn from_str(s: &[u8]) -> (r: Self)
        requires
            s@.len() > 0,
        ensures
            r.required@ == seq![s@[0]],
            r.allowed@ == s@,
    {
        let mut required: Vec<u8> = Vec::new();
        required.push(s[0]);
        proof {
            assert(required@ =~= seq![s@[0]]);
        }
        LetterBank { required, allowed: vstd::slice::slice_to_vec(s) }
    }

    /// Whether `word` uses every required letter and only allowed ones.
    pub fn matches(&self, word: &[u8]) -> (r: bool)
        ensures
            r == bee_matches(self.required@, self.allowed@, word@),
    {
        let nr = self.required.len();
        let mut i: usize = 0;
        while i < nr
            invariant
                i <= nr == self.required@.len(),
                forall|j: int| 0 <= j < i ==> word@.contains(#[trigger] self.required@[j]),
            decreases nr - i,
        {
            if !slice_has(word, self.required[i]) {
                return false;
            }
            i = i + 1;
        }
        let nw = word.len();
        let mut k: usize = 0;
        while k < nw
            invariant
                k <= nw == word@.len(),
                forall|j: int| 0 <= j < i ==> word@.contains(#[trigger] self.required@[j]),
                i == self.required@.len(),
                forall|j: int| 0 <= j < k ==> self.allowed@.contains(#[trigger] word@[j]),
            decreases nw - k,
        {
            if !slice_has(self.allowed.as_slice(), word[k]) {
                return false;
            }
            k = k + 1;
        }
        true
    }
}

/// The words of `bank` that match, in bank order.
pub open spec fn bee_filter(required: Seq<u8>, allowed: Seq<u8>, bank: Seq<Seq<u8>>) -> Seq<
    Seq<u8>,
>
    decreases bank.len(),
{
    if bank.len() == 0 {
        Seq::empty()
    } else {
        let rest = bee_filter(required, allowed, bank.drop_last());
        if bee_matches(required, allowed, bank.last()) {
            rest.push(bank.last())
        } else {
            rest
        }
    }
}

/// The matching words, capped at `cap`.
pub open spec fn bee_solutions(
    required: Seq<u8>,
    allowed: Seq<u8>,
    bank: Seq<Seq<u8>>,
    cap: int,
) -> Seq<Seq<u8>> {
    let f = bee_filter(required, allowed, bank);
    if f.len() <= cap {
        f
    } else {
        f.take(cap)
    }
}

/// Lists the words of a bank that a letter bank accepts.
pub struct SpellingBeeSolver {
    /// The puzzle's letters.
    pub letters: LetterBank,
    /// The vocabulary searched.
    pub word_bank: Vec<Vec<u8>>,
}

impl SpellingBeeSolver {
    /// A solver over `word_bank` for the puzzle `letters`.
    pub fn new(letters: LetterBank, word_bank: Vec<Vec<u8>>) -> (r: Self)
        ensures
            r.letters.required@ == letters.required@,
            r.letters.allowed@ == letters.allowed@,
            r.word_bank@ == word_bank@,
    {
        SpellingBeeSolver { letters, word_bank }
    }

    /// The first matching words of the bank, at most [`MAX_SOLUTIONS`],
    /// in bank order.
    pub fn solve(&self) -> (r: Vec<Vec<u8>>)
        ensures
            r@.map_values(|w: Vec<u8>| w@) == bee_solutions(
                self.letters.required@,
                self.letters.allowed@,
                self.word_bank@.map_values(|w: Vec<u8>| w@),
                MAX_SOLUTIONS as int,
            ),
    {
        let ghost req = self.letters.required@;
        let ghost alw = self.letters.allowed@;
        let ghost bankw = self.word_bank@.map_values(|w: Vec<u8>| w@);
        let n = self.word_bank.len();
        let mut r: Vec<Vec<u8>> = Vec::new();
        let mut i: usize = 0;
        while i < n
            invariant
                i <= n == self.word_bank@.len(),
                req == self.letters.required@,
                alw == self.letters.allowed@,
                bankw == self.word_bank@.map_values(|w: Vec<u8>| w@),
                r@.map_values(|w: Vec<u8>| w@) == bee_solutions(
                    req,
                    alw,
                    bankw.take(i as int),
                    MAX_SOLUTIONS as int,
                ),
                r@.len() <= MAX_SOLUTIONS,
                r@.len() == MAX_SOLUTIONS ==> bee_filter(req, alw, bankw.take(i as int)).len()
                    >= MAX_SOLUTIONS,
                r@.len() < MAX_SOLUTIONS ==> r@.len() == bee_filter(
                    req,
                    alw,
                    bankw.take(i as int),
                ).len(),
            decreases n - i,
        {
            let ghost prefix = bankw.take(i as int);
            let ghost f0 = bee_filter(req, alw, prefix);
            let ghost r0 = r@;
            let w = &self.word_bank[i];
            let matched = self.letters.matches(w.as_slice());
            if matched && r.len() < MAX_SOLUTIONS {
                r.push(vstd::slice::slice_to_vec(w.as_slice()));
            }
            proof {
                assert(bankw.take(i + 1) =~= prefix.push(bankw[i as int]));
                assert(bankw[i as int] == w@);
                assert(bee_filter(req, alw, prefix.push(w@)) == if bee_matches(req, alw, w@) {
                    f0.push(w@)
                } else {
                    f0
                }) by {
                    assert(prefix.push(w@).drop_last() =~= prefix);
                }
                if matched {
                    if r0.len() < MAX_SOLUTIONS {
                        assert(r@.map_values(|x: Vec<u8>| x@) =~= r0.map_values(
                            |x: Vec<u8>| x@,
                        ).push(w@));
                        assert(r@.map_values(|x: Vec<u8>| x@) =~= bee_solutions(
                            req,
                            alw,
                            bankw.take(i + 1),
                            MAX_SOLUTIONS as int,
                        ));
                    } else {
                        assert(f0.push(w@).take(MAX_SOLUTIONS as int) =~= f0.take(
                            MAX_SOLUTIONS as int,
                        ));
                        assert(r@.map_values(|x: Vec<u8>| x@) =~= bee_solutions(
                            req,
                            alw,
                            bankw.take(i + 1),
                            MAX_SOLUTIONS as int,
                        ));
                    }
                }
            }
            i = i + 1;
        }
        proof {
            assert(bankw.take(n as int) =~= bankw);
        }
        r
    }
}

} // verus!
