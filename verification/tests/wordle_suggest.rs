use puzzles::wordle::feedback::WordClues;
use puzzles::wordle::suggest::{
    filter_candidates, LargestUniqueValuesRanker, LowestMaxBucketRanker, Ranker, WordSuggestor,
};
use puzzles::wordle::word_index::WordProcessor;

fn bank(words: &[&str]) -> Vec<WordProcessor> {
    words.iter().map(|w| WordProcessor::new(w.as_bytes())).collect()
}

fn words_of(list: &[WordProcessor]) -> Vec<String> {
    list.iter()
        .map(|p| String::from_utf8(p.word.clone()).unwrap())
        .collect()
}

fn forte_vs_forge_clue() -> WordClues {
    WordClues::from_solution(
        &WordProcessor::new(b"forte"),
        &WordProcessor::new(b"forge"),
    )
}

#[test]
fn filter_keeps_consistent_words() {
    let bank = bank(&["forge", "forte", "forze", "soare"]);
    let clues = vec![forte_vs_forge_clue()];
    let candidates = filter_candidates(&bank, &clues);
    assert_eq!(words_of(&candidates), vec!["forge", "forze"]);
}

#[test]
fn filter_with_no_clues_keeps_everything() {
    let bank = bank(&["forge", "forte", "forze", "soare"]);
    let candidates = filter_candidates(&bank, &vec![]);
    assert_eq!(words_of(&candidates), vec!["forge", "forte", "forze", "soare"]);
}

#[test]
fn filter_is_idempotent() {
    let bank = bank(&["forge", "forte", "forze", "soare"]);
    let clues = vec![forte_vs_forge_clue()];
    let once = filter_candidates(&bank, &clues);
    let twice = filter_candidates(&once, &clues);
    assert_eq!(words_of(&twice), words_of(&once));
}

#[test]
fn adding_a_clue_never_grows_the_candidate_set() {
    let bank = bank(&["forge", "forte", "forze", "soare"]);
    let mut clues = vec![forte_vs_forge_clue()];
    let before = filter_candidates(&bank, &clues);
    clues.push(WordClues::from_solution(
        &WordProcessor::new(b"soare"),
        &WordProcessor::new(b"forge"),
    ));
    let after = filter_candidates(&bank, &clues);
    assert!(after.len() <= before.len());
}

#[test]
fn unique_partitions_score_is_bounded_by_candidates() {
    let candidates = bank(&["forge", "forze"]);
    let ranker = LargestUniqueValuesRanker::new();
    // forge tells forge and forze apart: every candidate gets its own bucket.
    assert_eq!(ranker.rank(&candidates, &WordProcessor::new(b"forge")), 2);
    // soare gives both candidates the same feedback: one bucket.
    assert_eq!(ranker.rank(&candidates, &WordProcessor::new(b"soare")), 1);
    assert_eq!(ranker.rank(&candidates, &WordProcessor::new(b"forte")), 1);
}

#[test]
fn worst_bucket_score_stays_in_range() {
    let candidates = bank(&["forge", "forze"]);
    let ranker = LowestMaxBucketRanker::new();
    let split = ranker.rank(&candidates, &WordProcessor::new(b"forge"));
    let lump = ranker.rank(&candidates, &WordProcessor::new(b"soare"));
    assert_eq!(split, 1);
    assert_eq!(lump, 0);
    assert!(split <= candidates.len() - 1);
    assert!(lump <= candidates.len() - 1);
}

#[test]
fn suggest_prefers_the_splitting_guess() {
    let mut suggestor = WordSuggestor::new(bank(&["forge", "forte", "forze", "soare"]));
    suggestor.add_clue(forte_vs_forge_clue());
    let by_partitions = suggestor.suggest_word(&LargestUniqueValuesRanker::new());
    assert_eq!(by_partitions, b"forge".to_vec());
    let by_worst_bucket = suggestor.suggest_word(&LowestMaxBucketRanker::new());
    assert_eq!(by_worst_bucket, b"forge".to_vec());
}

#[test]
fn suggest_returns_a_single_candidate_verbatim() {
    let mut suggestor = WordSuggestor::new(bank(&["forge", "forte", "soare"]));
    suggestor.add_clue(forte_vs_forge_clue());
    // Only forge is consistent: it comes back without any scoring.
    assert_eq!(
        suggestor.suggest_word(&LargestUniqueValuesRanker::new()),
        b"forge".to_vec()
    );
}

#[test]
fn suggest_reports_no_solution_on_contradictory_clues() {
    let mut suggestor = WordSuggestor::new(bank(&["forte", "soare"]));
    suggestor.add_clue(forte_vs_forge_clue());
    assert_eq!(
        suggestor.suggest_word(&LargestUniqueValuesRanker::new()),
        Vec::<u8>::new()
    );
}

#[test]
fn suggest_reports_no_solution_on_an_empty_bank() {
    let suggestor = WordSuggestor::new(Vec::new());
    assert_eq!(
        suggestor.suggest_word(&LowestMaxBucketRanker::new()),
        Vec::<u8>::new()
    );
}

#[test]
fn suggest_breaks_ties_by_bank_order() {
    // With no clues, every word of this bank is a candidate, and forze
    // and forge score alike; the earlier entry wins.
    let suggestor = WordSuggestor::new(bank(&["forze", "forge"]));
    assert_eq!(
        suggestor.suggest_word(&LargestUniqueValuesRanker::new()),
        b"forze".to_vec()
    );
}
