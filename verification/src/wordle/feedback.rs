//! Per-position feedback for a guess against a candidate solution.
//!
//! Every position of the guess earns one color. A position whose letter
//! matches the solution exactly is `GREEN`. A remaining occurrence of a
//! letter earns `YELLOW` only while the solution still has occurrences of
//! that letter not consumed by an exact match, counted left to right;
//! every further occurrence, and every letter the solution lacks, is
//! `BLACK`. This bounded counting is what keeps duplicate letters from
//! earning more yellows than the solution can justify.

use super::word_index::WordProcessor;
use vstd::prelude::*;

verus! {

/// The color one guess position earns.
#[allow(non_camel_case_types)]
#[derive(Copy, Clone, PartialEq, Eq, Hash, Debug, Structural)]
pub enum Color {
    /// Nothing known yet about this position; never produced by scoring.
    GRAY,
    /// The solution has no unconsumed occurrence of this letter.
    BLACK,
    /// The letter occurs in the solution, but elsewhere.
    YELLOW,
    /// The letter is exactly right for this position.
    GREEN,
}

/// Occurrences of letter `c` among the first `k` positions of `s`.
pub open spec fn count_occ(s: Seq<u8>, c: u8, k: int) -> nat
    decreases k,
{
    if k <= 0 {
        0
    } else {
        count_occ(s, c, k - 1) + (if s[k - 1] == c {
            1nat
        } else {
            0nat
        })
    }
}

/// Exact matches of letter `c` among the first `k` positions: positions
/// where guess and solution both hold `c`.
pub open spec fn count_green(g: Seq<u8>, s: Seq<u8>, c: u8, k: int) -> nat
    decreases k,
{
    if k <= 0 {
        0
    } else {
        count_green(g, s, c, k - 1) + (if g[k - 1] == c && s[k - 1] == c {
            1nat
        } else {
            0nat
        })
    }
}

/// Non-exact occurrences of letter `c` in the guess among the first `k`
/// positions: positions where the guess holds `c` but the solution does not.
pub open spec fn count_miss(g: Seq<u8>, s: Seq<u8>, c: u8, k: int) -> nat
    decreases k,
{
    if k <= 0 {
        0
    } else {
        count_miss(g, s, c, k - 1) + (if g[k - 1] == c && s[k - 1] != c {
            1nat
        } else {
            0nat
        })
    }
}

/// How many yellows letter `c` may earn: its occurrences in the solution
/// not already consumed by an exact match.
pub open spec fn yellow_quota(g: Seq<u8>, s: Seq<u8>, c: u8) -> int {
    count_occ(s, c, s.len() as int) - count_green(g, s, c, g.len() as int)
}

/// The color position `i` of guess `g` earns against solution `s`.
pub open spec fn color_at(g: Seq<u8>, s: Seq<u8>, i: int) -> Color {
    if g[i] == s[i] {
        Color::GREEN
    } else if count_miss(g, s, g[i], i) < yellow_quota(g, s, g[i]) {
        Color::YELLOW
    } else {
        Color::BLACK
    }
}

/// The full feedback sequence for guess `g` against solution `s`.
pub open spec fn feedback_spec(g: Seq<u8>, s: Seq<u8>) -> Seq<Color> {
    Seq::new(g.len(), |i: int| color_at(g, s, i))
}

/// Exact matches of a letter never outnumber its occurrences in the solution.
pub proof fn lemma_green_le_occ(g: Seq<u8>, s: Seq<u8>, c: u8, k: int)
    ensures
        count_green(g, s, c, k) <= count_occ(s, c, k),
    decreases k,
{
    if k > 0 {
        lemma_green_le_occ(g, s, c, k - 1);
    }
}

/// A letter that occurs nowhere in `s` occurs zero times in every prefix.
pub proof fn lemma_count_occ_zero(s: Seq<u8>, c: u8, k: int)
    requires
        k <= s.len(),
        forall|j: int| 0 <= j < s.len() ==> s[j] != c,
    ensures
        count_occ(s, c, k) == 0,
    decreases k,
{
    if k > 0 {
        lemma_count_occ_zero(s, c, k - 1);
    }
}

/// Feedback of a word against itself is an exact match at every position.
pub proof fn lemma_feedback_self_all_green(w: Seq<u8>)
    ensures
        feedback_spec(w, w).len() == w.len(),
        forall|i: int| 0 <= i < w.len() ==> feedback_spec(w, w)[i] == Color::GREEN,
{
    assert forall|i: int| 0 <= i < w.len() implies feedback_spec(w, w)[i] == Color::GREEN by {
        assert(color_at(w, w, i) == Color::GREEN);
    }
}

/// A guess sharing no letter with the solution earns `BLACK` everywhere.
pub proof fn lemma_feedback_disjoint_all_absent(g: Seq<u8>, s: Seq<u8>)
    requires
        g.len() == s.len(),
        forall|i: int, j: int| 0 <= i < g.len() && 0 <= j < s.len() ==> g[i] != s[j],
    ensures
        feedback_spec(g, s).len() == g.len(),
        forall|i: int| 0 <= i < g.len() ==> feedback_spec(g, s)[i] == Color::BLACK,
{
    assert forall|i: int| 0 <= i < g.len() implies feedback_spec(g, s)[i] == Color::BLACK by {
        assert(g[i] != s[i]);
        lemma_count_occ_zero(s, g[i], s.len() as int);
        lemma_green_le_occ(g, s, g[i], g.len() as int);
        assert(yellow_quota(g, s, g[i]) <= 0);
        assert(color_at(g, s, i) == Color::BLACK);
    }
}

/// Occurrences of `c` among the first `k` letters of `s`.
fn count_occ_upto(s: &Vec<u8>, c: u8, k: usize) -> (r: usize)
    requires
        k <= s@.len(),
    ensures
        r == count_occ(s@, c, k as int),
        r <= k,
{
    let mut r: usize = 0;
    let mut j: usize = 0;
    while j < k
        invariant
            j <= k <= s@.len(),
            r == count_occ(s@, c, j as int),
            r <= j,
        decreases k - j,
    {
        if s[j] == c {
            r = r + 1;
        }
        j = j + 1;
    }
    r
}

/// Exact matches of `c` among the first `k` positions of guess `g`
/// against solution `s`.
fn count_green_upto(g: &Vec<u8>, s: &Vec<u8>, c: u8, k: usize) -> (r: usize)
    requires
        k <= g@.len(),
        k <= s@.len(),
    ensures
        r == count_green(g@, s@, c, k as int),
        r <= k,
{
    let mut r: usize = 0;
    let mut j: usize = 0;
    while j < k
        invariant
            j <= k <= g@.len(),
            k <= s@.len(),
            r == count_green(g@, s@, c, j as int),
            r <= j,
        decreases k - j,
    {
        if g[j] == c && s[j] == c {
            r = r + 1;
        }
        j = j + 1;
    }
    r
}

/// Non-exact occurrences of `c` among the first `k` positions of guess
/// `g` against solution `s`.
fn count_miss_upto(g: &Vec<u8>, s: &Vec<u8>, c: u8, k: usize) -> (r: usize)
    requires
        k <= g@.len(),
        k <= s@.len(),
    ensures
        r == count_miss(g@, s@, c, k as int),
        r <= k,
{
    let mut r: usize = 0;
    let mut j: usize = 0;
    while j < k
        invariant
            j <= k <= g@.len(),
            k <= s@.len(),
            r == count_miss(g@, s@, c, j as int),
            r <= j,
        decreases k - j,
    {
        if g[j] == c && s[j] != c {
            r = r + 1;
        }
        j = j + 1;
    }
    r
}

/// A fully-colored feedback sequence: one color per guess position.
///
/// Two records are equal exactly when every position's color matches.
#[derive(Debug)]
pub struct Clues(pub Vec<Color>);

impl View for Clues {
    type V = Seq<Color>;

    open spec fn view(&self) -> Seq<Color> {
        self.0@
    }
}

impl Clone for Clues {
    fn clone(&self) -> (r: Self)
        ensures
            r@ == self@,
    {
        Clues(vstd::slice::slice_to_vec(self.0.as_slice()))
    }
}

impl vstd::std_specs::cmp::PartialEqSpecImpl for Clues {
    open spec fn obeys_eq_spec() -> bool {
        true
    }

    open spec fn eq_spec(&self, other: &Self) -> bool {
        self.0@ == other.0@
    }
}

impl PartialEq for Clues {
    fn eq(&self, other: &Self) -> (r: bool) {
        if self.0.len() != other.0.len() {
            return false;
        }
        let n = self.0.len();
        let mut i: usize = 0;
        while i < n
            invariant
                i <= n,
                n == self.0@.len() == other.0@.len(),
                forall|j: int| 0 <= j < i ==> self.0@[j] == other.0@[j],
            decreases n - i,
        {
            if self.0[i] != other.0[i] {
                return false;
            }
            i = i + 1;
        }
        proof {
            assert(self.0@ =~= other.0@);
        }
        true
    }
}

/// Why clue input was rejected.
#[derive(Copy, Clone, PartialEq, Eq, Debug, Structural)]
pub enum ClueError {
    /// A feedback code held a character other than `b`, `y` or `g`.
    UnsupportedColor,
    /// A feedback record does not color every position of its word.
    LengthMismatch,
}

/// The color a feedback-code character stands for. Characters outside
/// `{b, y, g}` are rejected before this is consulted.
pub open spec fn decode_color(b: u8) -> Color {
    if b == 98 {
        Color::BLACK
    } else if b == 121 {
        Color::YELLOW
    } else if b == 103 {
        Color::GREEN
    } else {
        Color::GRAY
    }
}

/// Whether every character of a feedback code is one of `b`, `y`, `g`.
pub open spec fn valid_code(s: Seq<u8>) -> bool {
    forall|i: int| 0 <= i < s.len() ==> s[i] == 98 || s[i] == 121 || s[i] == 103
}

impl Clues {
    /// Parses a feedback code, one character per position: `b` for
    /// `BLACK`, `y` for `YELLOW`, `g` for `GREEN`. Any other character
    /// is a hard input error; nothing is coerced.
    pub fn from_str(code: &[u8]) -> (r: Result<Clues, ClueError>)
        ensures
            r is Ok <==> valid_code(code@),
            match r {
                Ok(c) => c@ == Seq::new(code@.len(), |i: int| decode_color(code@[i])),
                Err(e) => e == ClueError::UnsupportedColor,
            },
    {
        let n = code.len();
        let mut colors: Vec<Color> = Vec::new();
        let mut i: usize = 0;
        while i < n
            invariant
                i <= n == code@.len(),
                colors@.len() == i,
                forall|j: int| 0 <= j < i ==> #[trigger] colors@[j] == decode_color(code@[j]),
                forall|j: int| 0 <= j < i ==> code@[j] == 98 || code@[j] == 121 || code@[j] == 103,
            decreases n - i,
        {
            let b = code[i];
            if b == 98 {
                colors.push(Color::BLACK);
            } else if b == 121 {
                colors.push(Color::YELLOW);
            } else if b == 103 {
                colors.push(Color::GREEN);
            } else {
                return Err(ClueError::UnsupportedColor);
            }
            i = i + 1;
        }
        proof {
            assert(colors@ =~= Seq::new(code@.len(), |i: int| decode_color(code@[i])));
        }
        Ok(Clues(colors))
    }
}

/// A guess word paired with the feedback it earned, whether observed
/// from a real round or derived from a hypothetical solution.
pub struct WordClues {
    pub word: WordProcessor,
    pub clues: Clues,
}

impl WordClues {
    /// Pairs an externally observed feedback with its guess word.
    ///
    /// The feedback must color every position of the word; a length
    /// mismatch is a hard input error.
    pub fn from_clues(word: WordProcessor, clues: Clues) -> (r: Result<WordClues, ClueError>)
        ensures
            match r {
                Ok(wc) => word@.len() == clues@.len() && wc.word@ == word@ && wc.clues@ == clues@,
                Err(e) => word@.len() != clues@.len() && e == ClueError::LengthMismatch,
            },
    {
        if word.word.len() != clues.0.len() {
            return Err(ClueError::LengthMismatch);
        }
        Ok(WordClues { word, clues })
    }

    /// Computes the feedback `word` would earn if `solution` were the
    /// answer, and pairs it with `word`.
    pub fn from_solution(word: &WordProcessor, solution: &WordProcessor) -> (r: WordClues)
        requires
            word@.len() == solution@.len(),
        ensures
            r.word@ == word@,
            r.clues@ == feedback_spec(word@, solution@),
    {
        let n = word.word.len();
        let mut colors: Vec<Color> = Vec::new();
        let mut i: usize = 0;
        while i < n
            invariant
                i <= n,
                n == word@.len() == solution@.len(),
                colors@.len() == i,
                forall|j: int| 0 <= j < i ==> colors@[j] == color_at(word@, solution@, j),
            decreases n - i,
        {
            let c = word.word[i];
            if c == solution.word[i] {
                colors.push(Color::GREEN);
            } else {
                let occ = count_occ_upto(&solution.word, c, n);
                let green = count_green_upto(&word.word, &solution.word, c, n);
                proof {
                    lemma_green_le_occ(word@, solution@, c, n as int);
                }
                let quota = occ - green;
                let miss = count_miss_upto(&word.word, &solution.word, c, i);
                if miss < quota {
                    colors.push(Color::YELLOW);
                } else {
                    colors.push(Color::BLACK);
                }
            }
            i = i + 1;
        }
        proof {
            assert(colors@ =~= feedback_spec(word@, solution@));
        }
        WordClues { word: word.clone(), clues: Clues(colors) }
    }

    /// The feedback record of this clue.
    pub fn get_colors(&self) -> (r: &Clues)
        ensures
            r@ == self.clues@,
    {
        &self.clues
    }
}

} // verus!
