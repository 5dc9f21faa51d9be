use puzzles::spellingbee::{LetterBank, SpellingBeeSolver};

fn words(list: &[&str]) -> Vec<Vec<u8>> {
    list.iter().map(|w| w.as_bytes().to_vec()).collect()
}

#[test]
fn matches_requires_the_first_letter() {
    let bank = LetterBank::from_str(b"abcdefg");
    assert!(bank.matches(b"badge"));
    assert!(bank.matches(b"face"));
    // Lacks the required letter.
    assert!(!bank.matches(b"bed"));
    // Uses a letter outside the bank.
    assert!(!bank.matches(b"axe"));
}

#[test]
fn solve_lists_matching_words_in_order() {
    let bank = LetterBank::from_str(b"abcdefg");
    let solver = SpellingBeeSolver::new(bank, words(&["bed", "badge", "axe", "face", "cab"]));
    assert_eq!(solver.solve(), words(&["badge", "face", "cab"]));
}

#[test]
fn solve_caps_its_answer_list() {
    let bank = LetterBank::from_str(b"a");
    let many: Vec<&str> = std::iter::repeat("a").take(25).collect();
    let solver = SpellingBeeSolver::new(bank, words(&many));
    assert_eq!(solver.solve().len(), 20);
}

#[test]
fn solve_of_an_empty_bank_is_empty() {
    let bank = LetterBank::from_str(b"xyz");
    let solver = SpellingBeeSolver::new(bank, Vec::new());
    assert!(solver.solve().is_empty());
}
