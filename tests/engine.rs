use wordle::feedback::{CharResult, Wordle, WORD_LEN};
use wordle::pattern::WordPattern;
use wordle::solve::{best_guess, filter_words, first_guess, worst_score, Solver};

use CharResult::{Correct, CorrectChar, Incorrect};

fn pattern_for(secret: &str, guess: &str) -> WordPattern {
    WordPattern::new(guess, Wordle::new(secret).check(guess))
}

#[test]
fn check_marks_exact_and_misplaced_letters() {
    assert_eq!(
        Wordle::new("crane").check("trace"),
        [Incorrect, Correct, Correct, CorrectChar, Correct]
    );
}

#[test]
fn check_of_the_secret_is_all_correct() {
    assert_eq!(Wordle::new("crane").check("crane"), [Correct; WORD_LEN]);
}

#[test]
fn check_uses_up_each_unmatched_letter_once() {
    // 'a' occurs once in the secret: only the first unmatched 'a' is present.
    assert_eq!(
        Wordle::new("abcde").check("xxaax"),
        [Incorrect, Incorrect, CorrectChar, Incorrect, Incorrect]
    );
    // 'l' is matched twice exactly; the third 'l' finds none left.
    assert_eq!(
        Wordle::new("hello").check("lolly"),
        [Incorrect, CorrectChar, Correct, Correct, Incorrect]
    );
}

#[test]
fn check_doubled_guess_letter_against_single_secret_letter() {
    // One 'e' in the secret, matched exactly; the other two are absent.
    assert_eq!(
        Wordle::new("crane").check("eerie"),
        [Incorrect, Incorrect, CorrectChar, Incorrect, Correct]
    );
    // One 'p' in the secret, unmatched: the first 'p' is present, the second absent.
    assert_eq!(
        Wordle::new("plant").check("apple"),
        [CorrectChar, CorrectChar, Incorrect, CorrectChar, Incorrect]
    );
}

#[test]
fn feedback_counts_stay_within_the_secret() {
    let cases = [("hello", "lolly"), ("abbey", "babes"), ("crane", "eerie"), ("apple", "papal")];
    for (s, g) in cases {
        let r = Wordle::new(s).check(g);
        let same = s.chars().zip(g.chars()).filter(|(a, b)| a == b).count();
        let correct = r.iter().filter(|m| **m == Correct).count();
        assert_eq!(correct, same);
        for c in g.chars() {
            let hits = g
                .chars()
                .zip(r.iter())
                .filter(|(x, m)| *x == c && (**m == Correct || **m == CorrectChar))
                .count();
            assert!(hits <= s.chars().filter(|x| *x == c).count());
        }
    }
}

#[test]
fn secret_matches_its_own_constraint() {
    let words = ["crane", "trace", "hello", "lolly", "apple", "angle", "abbey", "babes"];
    for s in words {
        for g in words {
            assert!(pattern_for(s, g).matches(s), "{} {}", s, g);
        }
    }
}

#[test]
fn split_verdict_rules_out_the_secret() {
    // 'a' is both present and absent and correct nowhere: the absent mark
    // forbids 'a' everywhere, so the secret itself no longer matches.
    assert!(!pattern_for("abcde", "xxaax").matches("abcde"));
}

#[test]
fn perfect_match_only_for_the_secret() {
    assert!(pattern_for("crane", "crane").is_perfect_match());
    assert!(!pattern_for("crane", "trace").is_perfect_match());
    assert!(!pattern_for("crane", "cranf").is_perfect_match());
}

#[test]
fn unknown_marks_constrain_nothing() {
    let p = WordPattern::new("zzzzz", [CharResult::Unknown; WORD_LEN]);
    assert!(p.matches("crane"));
    assert!(p.matches("zzzzz"));
    assert!(!p.is_perfect_match());
    assert_eq!(p.result(), [CharResult::Unknown; WORD_LEN]);
}

#[test]
fn constraint_from_apple_against_angle() {
    let p = pattern_for("angle", "apple");
    assert_eq!(p.result, [Correct, Incorrect, Incorrect, Correct, Correct]);
    assert!(p.matches("angle"));
    assert!(!p.matches("apple"));
}

#[test]
fn correct_letter_elsewhere_is_not_forbidden() {
    // The second 'e' is absent, but 'e' is correct at the end: 'e' stays allowed there.
    let p = pattern_for("crane", "eerie");
    assert!(p.matches("crane"));
    assert!(p.matches("urate"));
    assert!(!p.matches("brine"));
    assert!(!p.matches("eager"));
}

#[test]
fn filter_keeps_matching_words_in_order() {
    let p = pattern_for("crane", "trace");
    let mut words = vec!["brace", "crane", "grace", "apple", "crane"];
    filter_words(&p, &mut words);
    assert_eq!(words, vec!["crane", "crane"]);
}

#[test]
fn filter_twice_removes_nothing_more() {
    let p = pattern_for("angle", "apple");
    let mut words = vec!["apple", "angle", "ankle", "addle", "amble", "crane"];
    filter_words(&p, &mut words);
    let once = words.clone();
    filter_words(&p, &mut words);
    assert_eq!(words, once);
    assert_eq!(once, vec!["angle", "ankle", "addle", "amble"]);
}

#[test]
fn solver_counts_remaining_words() {
    let s = Solver::new(Wordle::new("angle"));
    assert_eq!(s.num_filtered_words("apple", &["apple", "angle", "ankle", "crane"]), 2);
    assert_eq!(s.num_filtered_words("angle", &["apple", "angle", "ankle", "crane"]), 1);
}

#[test]
fn worst_score_is_the_largest_pool_left() {
    let answers = ["apple", "angle", "ankle"];
    // Secret apple leaves only apple; secret angle or ankle leaves both.
    assert_eq!(worst_score("apple", &answers), 2);
    assert_eq!(worst_score("angle", &answers), 1);
}

#[test]
fn worst_score_zero_for_a_dead_end_guess() {
    assert_eq!(worst_score("xxaax", &["abcde", "abcdf"]), 0);
}

#[test]
fn best_guess_of_empty_and_single_pools() {
    assert_eq!(best_guess(&["crane"], &[]), None);
    assert_eq!(best_guess(&["crane"], &["apple"]), Some("apple"));
}

#[test]
fn best_guess_minimises_worst_case() {
    let answers = ["apple", "angle", "ankle"];
    assert_eq!(best_guess(&[], &answers), Some("angle"));
}

#[test]
fn best_guess_prefers_earlier_candidate_on_ties() {
    // Both answers split the pool equally; the first answer wins the tie,
    // ahead of an equally good word of the guess pool.
    let answers = ["abcde", "abcdf"];
    assert_eq!(best_guess(&["abcdf"], &answers), Some("abcde"));
}

#[test]
fn best_guess_never_picks_a_dead_end() {
    let answers = ["abcde", "abcdf"];
    let g = best_guess(&["xxaax"], &answers).unwrap();
    assert!(worst_score(g, &answers) > 0);
    assert_eq!(g, "abcde");
}

#[test]
fn best_guess_may_come_from_the_guess_pool() {
    // Each answer alone leaves two words when it misses; "bcdxy" tells all three apart.
    let answers = ["abxxx", "acxxx", "adxxx"];
    assert_eq!(worst_score("abxxx", &answers), 2);
    let g = best_guess(&["bcdyy"], &answers).unwrap();
    assert_eq!(worst_score(g, &answers), 1);
    assert_eq!(g, "bcdyy");
}

#[test]
fn opening_guess_is_trace() {
    assert_eq!(first_guess(), "trace");
}
