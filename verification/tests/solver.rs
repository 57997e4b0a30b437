use wordle_solver::SolverError;
use wordle_solver::hint::{Hint, LetterHint};
use wordle_solver::score::{
    ScoreEntry, get_scores, rank_entries, score_entries, score_entries_chunked, score_one,
};
use wordle_solver::session::SolverSession;
use wordle_solver::word::{Word, dedup_words};

fn w(text: &str) -> Word {
    Word::from_string(text, text.chars().count()).unwrap()
}

fn words(texts: &[&str]) -> Vec<Word> {
    texts.iter().map(|t| w(t)).collect()
}

fn marks(pattern: &str) -> Vec<LetterHint> {
    pattern
        .chars()
        .map(|c| match c {
            'C' => LetterHint::Correct,
            'M' => LetterHint::Misplaced,
            _ => LetterHint::Incorrect,
        })
        .collect()
}

fn hint_of(guess: &str, answer: &str) -> Vec<LetterHint> {
    Hint::from_guess_and_answer(&w(guess), &w(answer))
        .unwrap()
        .marks()
        .clone()
}

#[test]
fn parse_uppercases_mixed_case() {
    let word = Word::from_string("crAnE", 5).unwrap();
    let letters: String = word.letters().iter().collect();
    assert_eq!(letters, "CRANE");
}

#[test]
fn parse_rejects_wrong_length() {
    assert_eq!(
        Word::from_string("CRANES", 5).unwrap_err(),
        SolverError::InvalidLength
    );
    assert_eq!(
        Word::from_string("", 5).unwrap_err(),
        SolverError::InvalidLength
    );
}

#[test]
fn parse_rejects_non_letters() {
    assert_eq!(
        Word::from_string("CR4NE", 5).unwrap_err(),
        SolverError::InvalidCharacter
    );
    assert_eq!(
        Word::from_string("AB CD", 5).unwrap_err(),
        SolverError::InvalidCharacter
    );
}

#[test]
fn parse_rejects_accented_letters() {
    assert_eq!(
        Word::from_string("\u{00e9}COLE", 5).unwrap_err(),
        SolverError::InvalidCharacter
    );
}

#[test]
fn parse_length_checked_before_characters() {
    assert_eq!(
        Word::from_string("A1", 5).unwrap_err(),
        SolverError::InvalidLength
    );
}

#[test]
fn word_new_accepts_only_uppercase() {
    assert!(Word::new(vec!['C', 'A', 'T']).is_ok());
    assert_eq!(
        Word::new(vec!['C', 'a', 'T']).unwrap_err(),
        SolverError::InvalidCharacter
    );
}

#[test]
fn hint_all_correct_for_identical_words() {
    assert_eq!(hint_of("EAGER", "EAGER"), marks("CCCCC"));
}

#[test]
fn hint_scenario_arise_against_eager() {
    // Guess ARISE against answer EAGER: no position agrees, so the
    // two-pass algorithm gives no Correct mark. A, R and E occur
    // elsewhere in EAGER; I and S do not.
    assert_eq!(hint_of("ARISE", "EAGER"), marks("MMIIM"));
}

#[test]
fn hint_consumes_duplicate_letters() {
    // SPEED against ERASE: the first E is misplaced, the second E has
    // no occurrence of E left to consume, so it stays incorrect.
    assert_eq!(hint_of("SPEED", "ERASE"), marks("MIMMI"));
    // LLAMA against LABEL: one L correct, the second L misplaced, the
    // first A misplaced, the second A already consumed.
    assert_eq!(hint_of("LLAMA", "LABEL"), marks("CMMII"));
}

#[test]
fn hint_counts_never_exceed_letter_supply() {
    // Guess with three E against an answer with two: at most two may
    // be marked, and index-wise matches are all Correct.
    let h = hint_of("EEEXY", "EAGER");
    let marked = h
        .iter()
        .filter(|m| **m != LetterHint::Incorrect)
        .count();
    assert_eq!(h[0], LetterHint::Correct);
    assert_eq!(marked, 2);
}

#[test]
fn hint_rejects_length_mismatch() {
    let g = w("CAT");
    let a = w("CRANE");
    assert_eq!(
        Hint::from_guess_and_answer(&g, &a).unwrap_err(),
        SolverError::LengthMismatch
    );
}

#[test]
fn feedback_string_parses_each_mark() {
    let g = w("HELLO");
    let h = Hint::from_string("h*ll_", &g).unwrap();
    assert_eq!(h.marks().clone(), marks("CMCCI"));
}

#[test]
fn feedback_string_rejects_bad_character() {
    let g = w("HELLO");
    assert_eq!(
        Hint::from_string("h?ll_", &g).unwrap_err(),
        SolverError::InvalidHintSyntax
    );
}

#[test]
fn feedback_string_rejects_length_mismatch() {
    let g = w("HELLO");
    assert_eq!(
        Hint::from_string("h*l", &g).unwrap_err(),
        SolverError::InvalidHintSyntax
    );
}

#[test]
fn feedback_letter_must_match_guess_position() {
    // 'g' is not the first letter of EAGER, so it encodes no mark.
    let g = w("EAGER");
    assert_eq!(
        Hint::from_string("g_*__", &g).unwrap_err(),
        SolverError::InvalidHintSyntax
    );
}

#[test]
fn scores_lie_in_the_documented_ranges() {
    let list = words(&["ABACK", "EAGER", "ARISE", "SPEED", "ERASE"]);
    let table = get_scores(&list, &list, 5);
    assert_eq!(table.len(), 5);
    for e in &table {
        assert!(e.expected_millis < 100_000);
        assert!(e.worst_millis <= 100_000);
    }
}

#[test]
fn score_three_way_split_has_exact_value() {
    // ARISE splits {ABACK, EAGER, ARISE} into three singleton hint
    // buckets: both metrics are exactly 66.666 percent.
    let list = words(&["ABACK", "EAGER", "ARISE"]);
    let e = score_one(&w("ARISE"), &list);
    assert_eq!(e.expected_millis, 66_666);
    assert_eq!(e.worst_millis, 66_666);
}

#[test]
fn score_of_uninformative_guess_is_zero() {
    // Every answer gives ZZZZZ the same all-incorrect hint: one bucket
    // holding everything, so both metrics are exactly zero.
    let list = words(&["ABACK", "EAGER", "ARISE"]);
    let e = score_one(&w("ZZZZZ"), &list);
    assert_eq!(e.expected_millis, 0);
    assert_eq!(e.worst_millis, 0);
}

#[test]
fn score_against_no_answers_is_degenerate() {
    let none: Vec<Word> = Vec::new();
    let e = score_one(&w("ARISE"), &none);
    assert_eq!(e.expected_millis, 0);
    assert_eq!(e.worst_millis, 100_000);
}

#[test]
fn worst_case_score_counts_largest_bucket() {
    // AB against {AA, AB, BB}: three singleton buckets of one answer
    // each; the largest bucket keeps 1 of 3, so 66.666% go at worst.
    let list = words(&["AA", "AB", "BB"]);
    let e = score_one(&w("AB"), &list);
    assert_eq!(e.worst_millis, 66_666);
    assert_eq!(e.expected_millis, 66_666);
}

#[test]
fn chunk_size_does_not_change_the_table() {
    let list = words(&["ABACK", "EAGER", "ARISE", "SPEED", "ERASE", "LLAMA", "LABEL"]);
    let direct = score_entries(&list, &list, 5);
    for chunk_size in [1usize, 2, 3, 100] {
        let chunked = score_entries_chunked(&list, &list, 5, chunk_size);
        assert_eq!(chunked, direct);
    }
}

#[test]
fn parallel_scoring_matches_sequential() {
    let list = words(&["ABACK", "EAGER", "ARISE", "SPEED", "ERASE", "LLAMA", "LABEL"]);
    let par = get_scores(&list, &list, 5);
    let seq = rank_entries(&score_entries(&list, &list, 5));
    assert_eq!(par, seq);
}

#[test]
fn ranking_sorts_descending_and_keeps_ties_in_order() {
    let list = words(&["ABACK", "EAGER", "ARISE"]);
    let table = get_scores(&list, &list, 5);
    for pair in table.windows(2) {
        assert!(pair[0].expected_millis >= pair[1].expected_millis);
    }
    // all three guesses split the set identically, so the tie keeps
    // the input order
    let names: Vec<String> = table
        .iter()
        .map(|e| e.word.letters().iter().collect())
        .collect();
    assert_eq!(names, vec!["ABACK", "EAGER", "ARISE"]);
}

#[test]
fn dedup_keeps_first_occurrences() {
    let list = words(&["ABACK", "EAGER", "ABACK", "ARISE", "EAGER"]);
    let deduped = dedup_words(&list);
    assert_eq!(deduped, words(&["ABACK", "EAGER", "ARISE"]));
}

fn fresh_session() -> SolverSession {
    let list = dedup_words(&words(&["ABACK", "EAGER", "ARISE", "SPEED", "ERASE"]));
    SolverSession::new(list, 5)
}

#[test]
fn session_starts_with_full_candidate_sets() {
    let s = fresh_session();
    assert!(s.active);
    assert_eq!(s.remaining_answers.len(), 5);
    assert_eq!(s.remaining_guesses.len(), 5);
    assert_eq!(s.history.len(), 0);
    assert_eq!(s.score_cache.len(), 1);
}

#[test]
fn hint_keeps_exactly_the_consistent_answers() {
    let mut s = fresh_session();
    let guess = w("ARISE");
    let feedback = Hint::from_guess_and_answer(&guess, &w("EAGER")).unwrap();
    let (removed, remaining) = s.hint(&guess, &feedback).unwrap();
    assert_eq!(removed + remaining, 5);
    // every surviving answer reproduces the feedback
    for a in &s.remaining_answers {
        let h = Hint::from_guess_and_answer(&guess, a).unwrap();
        assert_eq!(h, feedback);
    }
    assert!(s.remaining_answers.contains(&w("EAGER")));
    // the played guess left the guess list
    assert!(!s.remaining_guesses.contains(&guess));
    assert_eq!(s.history.len(), 1);
    assert_eq!(s.score_cache.len(), 2);
}

#[test]
fn hint_rejects_wrong_width() {
    let mut s = fresh_session();
    let guess = w("CAT");
    let feedback = Hint::new(marks("III"));
    assert_eq!(
        s.hint(&guess, &feedback).unwrap_err(),
        SolverError::LengthMismatch
    );
    assert_eq!(s.history.len(), 0);
    assert_eq!(s.remaining_answers.len(), 5);
}

#[test]
fn inconsistent_feedback_may_empty_the_answers() {
    let mut s = fresh_session();
    let guess = w("ARISE");
    // every remaining word shares a letter with ARISE, so an
    // all-incorrect feedback is consistent with none of them
    let feedback = Hint::new(marks("IIIII"));
    let (removed, remaining) = s.hint(&guess, &feedback).unwrap();
    assert_eq!(removed, 5);
    assert_eq!(remaining, 0);
    assert!(s.active);
    // the degenerate state still accepts commands
    assert_eq!(s.top(3, false).len(), 3);
    assert!(s.undo());
    assert_eq!(s.remaining_answers.len(), 5);
}

#[test]
fn hint_then_undo_restores_the_state() {
    let mut s = fresh_session();
    let answers_before = s.remaining_answers.clone();
    let guesses_before = s.remaining_guesses.clone();
    let cache_before = s.score_cache.clone();
    let history_before = s.history.clone();
    let guess = w("ARISE");
    let feedback = Hint::from_guess_and_answer(&guess, &w("EAGER")).unwrap();
    s.hint(&guess, &feedback).unwrap();
    assert!(s.undo());
    assert_eq!(s.remaining_answers, answers_before);
    assert_eq!(s.remaining_guesses, guesses_before);
    assert_eq!(s.score_cache, cache_before);
    assert_eq!(s.history, history_before);
}

#[test]
fn undo_on_fresh_session_reports_nothing_to_undo() {
    let mut s = fresh_session();
    let answers_before = s.remaining_answers.clone();
    let guesses_before = s.remaining_guesses.clone();
    let cache_before = s.score_cache.clone();
    assert!(!s.undo());
    assert_eq!(s.remaining_answers, answers_before);
    assert_eq!(s.remaining_guesses, guesses_before);
    assert_eq!(s.score_cache, cache_before);
    assert_eq!(s.history.len(), 0);
}

#[test]
fn applying_matching_feedback_removes_an_inconsistent_word() {
    // EAGER with feedback "e_*__" parses to [C, I, M, I, I], which is
    // not the hint EAGER gives against itself, so EAGER is removed.
    let mut s = fresh_session();
    let guess = w("EAGER");
    let feedback = Hint::from_string("e_*__", &guess).unwrap();
    let self_hint = Hint::from_guess_and_answer(&guess, &guess).unwrap();
    assert_ne!(feedback, self_hint);
    s.hint(&guess, &feedback).unwrap();
    assert!(!s.remaining_answers.contains(&guess));
}

#[test]
fn top_clips_and_orders_the_table() {
    let s = fresh_session();
    let top2 = s.top(2, false);
    let full = s.top(100, false);
    assert_eq!(top2.len(), 2);
    assert_eq!(full.len(), 5);
    assert_eq!(&full[..2], &top2[..]);
    assert!(top2[0].expected_millis >= top2[1].expected_millis);
}

#[test]
fn strict_top_keeps_only_possible_answers() {
    let mut s = fresh_session();
    let guess = w("ARISE");
    let feedback = Hint::from_guess_and_answer(&guess, &w("EAGER")).unwrap();
    s.hint(&guess, &feedback).unwrap();
    let strict = s.top(100, true);
    for e in &strict {
        assert!(s.remaining_answers.contains(&e.word));
    }
    // the non-strict table still lists words that are no longer
    // possible answers
    let loose = s.top(100, false);
    assert!(loose.len() > strict.len());
}

#[test]
fn score_lookup_finds_rank_and_misses_report_word_not_found() {
    let s = fresh_session();
    let (rank, entry) = s.score(&w("ABACK")).unwrap();
    assert!(rank < 5);
    assert_eq!(entry.word, w("ABACK"));
    assert_eq!(
        s.score(&w("ZZZZZ")).unwrap_err(),
        SolverError::WordNotFound
    );
}

#[test]
fn history_report_tracks_reductions() {
    let mut s = fresh_session();
    let guess = w("ARISE");
    let feedback = Hint::from_guess_and_answer(&guess, &w("EAGER")).unwrap();
    let (removed, remaining) = s.hint(&guess, &feedback).unwrap();
    let report = s.history_report();
    assert_eq!(report.len(), 1);
    assert_eq!(report[0].guess, guess);
    assert_eq!(report[0].hint, feedback);
    assert_eq!(report[0].before, 5);
    assert_eq!(report[0].removed, removed);
    assert_eq!(report[0].remaining, remaining);
}

#[test]
fn exit_terminates_the_session() {
    let mut s = fresh_session();
    s.exit();
    assert!(!s.active);
}

#[test]
fn two_hints_shrink_further_than_one() {
    let mut s = SolverSession::new(
        dedup_words(&words(&["ABACK", "EAGER", "ARISE", "SPEED", "ERASE", "LABEL"])),
        5,
    );
    let g1 = w("ARISE");
    let f1 = Hint::from_guess_and_answer(&g1, &w("SPEED")).unwrap();
    let (_, after_one) = s.hint(&g1, &f1).unwrap();
    let g2 = w("LABEL");
    let f2 = Hint::from_guess_and_answer(&g2, &w("SPEED")).unwrap();
    let (_, after_two) = s.hint(&g2, &f2).unwrap();
    assert!(after_two <= after_one);
    assert!(s.remaining_answers.contains(&w("SPEED")));
    assert_eq!(s.history.len(), 2);
    assert_eq!(s.score_cache.len(), 3);
}

#[test]
fn scoring_entries_expose_entry_fields() {
    let list = words(&["AA", "AB", "BB"]);
    let table = score_entries(&list, &list, 2);
    let e: &ScoreEntry = &table[0];
    assert_eq!(e.word, w("AA"));
}
