use puzzles::wordle::feedback::{ClueError, Clues, Color, WordClues};
use puzzles::wordle::word_index::WordProcessor;

fn feedback(guess: &str, solution: &str) -> Clues {
    WordClues::from_solution(
        &WordProcessor::new(guess.as_bytes()),
        &WordProcessor::new(solution.as_bytes()),
    )
    .get_colors()
    .clone()
}

#[test]
fn solve_test_colors() {
    assert_eq!(
        feedback("saber", "label"),
        Clues(vec![
            Color::BLACK,
            Color::GREEN,
            Color::GREEN,
            Color::GREEN,
            Color::BLACK
        ])
    );
    assert_eq!(
        feedback("aheap", "woken"),
        Clues(vec![
            Color::BLACK,
            Color::BLACK,
            Color::YELLOW,
            Color::BLACK,
            Color::BLACK
        ])
    );

    assert_eq!(
        feedback("serai", "delve"),
        Clues(vec![
            Color::BLACK,
            Color::GREEN,
            Color::BLACK,
            Color::BLACK,
            Color::BLACK
        ])
    );
    assert_eq!(
        feedback("yente", "delve"),
        Clues(vec![
            Color::BLACK,
            Color::GREEN,
            Color::BLACK,
            Color::BLACK,
            Color::GREEN
        ])
    );
    assert_eq!(
        feedback("blech", "delve"),
        Clues(vec![
            Color::BLACK,
            Color::YELLOW,
            Color::YELLOW,
            Color::BLACK,
            Color::BLACK
        ])
    );
    assert_eq!(
        feedback("begem", "delve"),
        Clues(vec![
            Color::BLACK,
            Color::GREEN,
            Color::BLACK,
            Color::YELLOW,
            Color::BLACK
        ])
    );
    assert_eq!(
        feedback("welke", "delve"),
        Clues(vec![
            Color::BLACK,
            Color::GREEN,
            Color::GREEN,
            Color::BLACK,
            Color::GREEN
        ])
    );
    assert_eq!(
        feedback("mommy", "delve"),
        Clues(vec![
            Color::BLACK,
            Color::BLACK,
            Color::BLACK,
            Color::BLACK,
            Color::BLACK
        ])
    );

    assert_eq!(feedback("forge", "forge"), Clues(vec![Color::GREEN; 5]));
    assert_eq!(
        feedback("forte", "forge"),
        Clues(vec![
            Color::GREEN,
            Color::GREEN,
            Color::GREEN,
            Color::BLACK,
            Color::GREEN
        ])
    );
    assert_eq!(
        feedback("forze", "forge"),
        Clues(vec![
            Color::GREEN,
            Color::GREEN,
            Color::GREEN,
            Color::BLACK,
            Color::GREEN
        ])
    );
    assert_eq!(
        feedback("bafts", "forge"),
        Clues(vec![
            Color::BLACK,
            Color::BLACK,
            Color::YELLOW,
            Color::BLACK,
            Color::BLACK
        ])
    );
    assert_eq!(
        feedback("murid", "forge"),
        Clues(vec![
            Color::BLACK,
            Color::BLACK,
            Color::GREEN,
            Color::BLACK,
            Color::BLACK
        ])
    );
    assert_eq!(
        feedback("soare", "forge"),
        Clues(vec![
            Color::BLACK,
            Color::GREEN,
            Color::BLACK,
            Color::YELLOW,
            Color::GREEN
        ])
    );
}

#[test]
fn main_test_colors() {
    assert_eq!(
        feedback("saber", "label"),
        Clues(vec![
            Color::BLACK,
            Color::GREEN,
            Color::GREEN,
            Color::GREEN,
            Color::BLACK
        ])
    );
    assert_eq!(
        feedback("aheap", "woken"),
        Clues(vec![
            Color::BLACK,
            Color::BLACK,
            Color::YELLOW,
            Color::BLACK,
            Color::BLACK
        ])
    );

    assert_eq!(
        feedback("serai", "delve"),
        Clues(vec![
            Color::BLACK,
            Color::GREEN,
            Color::BLACK,
            Color::BLACK,
            Color::BLACK
        ])
    );
    assert_eq!(
        feedback("yente", "delve"),
        Clues(vec![
            Color::BLACK,
            Color::GREEN,
            Color::BLACK,
            Color::BLACK,
            Color::GREEN
        ])
    );
    assert_eq!(
        feedback("blech", "delve"),
        Clues(vec![
            Color::BLACK,
            Color::YELLOW,
            Color::YELLOW,
            Color::BLACK,
            Color::BLACK
        ])
    );
    assert_eq!(
        feedback("begem", "delve"),
        Clues(vec![
            Color::BLACK,
            Color::GREEN,
            Color::BLACK,
            Color::YELLOW,
            Color::BLACK
        ])
    );
    assert_eq!(
        feedback("welke", "delve"),
        Clues(vec![
            Color::BLACK,
            Color::GREEN,
            Color::GREEN,
            Color::BLACK,
            Color::GREEN
        ])
    );
    assert_eq!(
        feedback("mommy", "delve"),
        Clues(vec![
            Color::BLACK,
            Color::BLACK,
            Color::BLACK,
            Color::BLACK,
            Color::BLACK
        ])
    );

    assert_eq!(feedback("forge", "forge"), Clues(vec![Color::GREEN; 5]));
    assert_eq!(
        feedback("forte", "forge"),
        Clues(vec![
            Color::GREEN,
            Color::GREEN,
            Color::GREEN,
            Color::BLACK,
            Color::GREEN
        ])
    );
    assert_eq!(
        feedback("forze", "forge"),
        Clues(vec![
            Color::GREEN,
            Color::GREEN,
            Color::GREEN,
            Color::BLACK,
            Color::GREEN
        ])
    );
    assert_eq!(
        feedback("bafts", "forge"),
        Clues(vec![
            Color::BLACK,
            Color::BLACK,
            Color::YELLOW,
            Color::BLACK,
            Color::BLACK
        ])
    );
    assert_eq!(
        feedback("murid", "forge"),
        Clues(vec![
            Color::BLACK,
            Color::BLACK,
            Color::GREEN,
            Color::BLACK,
            Color::BLACK
        ])
    );
    assert_eq!(
        feedback("soare", "forge"),
        Clues(vec![
            Color::BLACK,
            Color::GREEN,
            Color::BLACK,
            Color::YELLOW,
            Color::GREEN
        ])
    );
}

#[test]
fn self_feedback_is_all_green() {
    assert_eq!(feedback("apple", "apple"), Clues(vec![Color::GREEN; 5]));
    assert_eq!(feedback("zz", "zz"), Clues(vec![Color::GREEN; 2]));
}

#[test]
fn disjoint_words_are_all_absent() {
    assert_eq!(feedback("abcde", "fghij"), Clues(vec![Color::BLACK; 5]));
}

#[test]
fn duplicate_letters_earn_bounded_yellows() {
    // "sheet" against "crest": one exact e, and no second e marked.
    assert_eq!(
        feedback("sheet", "crest"),
        Clues(vec![
            Color::YELLOW,
            Color::BLACK,
            Color::GREEN,
            Color::BLACK,
            Color::GREEN
        ])
    );
    // Of the non-exact e's of "eeeek", only the leftmost earns a yellow.
    assert_eq!(
        feedback("eeeek", "melee"),
        Clues(vec![
            Color::YELLOW,
            Color::GREEN,
            Color::BLACK,
            Color::GREEN,
            Color::BLACK
        ])
    );
}

#[test]
fn from_str_parses_codes() {
    let clues = Clues::from_str(b"bygbg").unwrap();
    assert_eq!(
        clues,
        Clues(vec![
            Color::BLACK,
            Color::YELLOW,
            Color::GREEN,
            Color::BLACK,
            Color::GREEN
        ])
    );
    assert_eq!(Clues::from_str(b"").unwrap(), Clues(vec![]));
}

#[test]
fn from_str_rejects_unsupported_characters() {
    assert_eq!(Clues::from_str(b"bgxgy"), Err(ClueError::UnsupportedColor));
    assert_eq!(Clues::from_str(b"BYG"), Err(ClueError::UnsupportedColor));
}

#[test]
fn from_clues_rejects_length_mismatch() {
    let word = WordProcessor::new(b"forte");
    let short = Clues::from_str(b"ggg").unwrap();
    assert!(matches!(
        WordClues::from_clues(word, short),
        Err(ClueError::LengthMismatch)
    ));

    let word = WordProcessor::new(b"forte");
    let full = Clues::from_str(b"gggbg").unwrap();
    let clue = WordClues::from_clues(word, full).unwrap();
    assert_eq!(clue.word.word, b"forte".to_vec());
}
