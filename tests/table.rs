use wordle::feedback::{CharResult, Wordle, WORD_LEN};
use wordle::pattern::WordPattern;
use wordle::pipeline::{count_correct, feasible_feedbacks, keep_slowest, precompute, FEEDBACK_COUNT};
use wordle::precompute::{parse_precomputed_data, BestGuess, Precompute};
use wordle::solve::{best_guess, filter_words};

use CharResult::{Correct, CorrectChar, Incorrect, Unknown};

fn sample_table() -> Precompute {
    let mut t = Precompute::new();
    t.add(BestGuess {
        init_guess: "trace".to_string(),
        result: [Incorrect, Correct, Correct, CorrectChar, Correct],
        best_guess: "crane".to_string(),
    });
    t.add(BestGuess {
        init_guess: "trace".to_string(),
        result: [Incorrect; WORD_LEN],
        best_guess: "lolly".to_string(),
    });
    t.add(BestGuess {
        init_guess: "crane".to_string(),
        result: [Unknown, CorrectChar, Correct, Incorrect, Correct],
        best_guess: "brace".to_string(),
    });
    t
}

#[test]
fn table_text_exact() {
    let text = sample_table().to_text();
    assert_eq!(text, "trace accpc crane\ntrace aaaaa lolly\ncrane upcac brace\n");
}

#[test]
fn table_round_trip_keeps_every_lookup() {
    let t = sample_table();
    let back = parse_precomputed_data(&t.to_text()).unwrap();
    assert_eq!(back.len(), t.len());
    for (g, fb) in [
        ("trace", [Incorrect, Correct, Correct, CorrectChar, Correct]),
        ("trace", [Incorrect; WORD_LEN]),
        ("crane", [Unknown, CorrectChar, Correct, Incorrect, Correct]),
        ("crane", [Correct; WORD_LEN]),
    ] {
        assert_eq!(back.get(g, &fb), t.get(g, &fb));
    }
    assert_eq!(back.get("trace", &[Incorrect; WORD_LEN]), Some("lolly".to_string()));
    assert_eq!(back.get("crane", &[Correct; WORD_LEN]), None);
}

#[test]
fn later_record_replaces_earlier() {
    let mut t = sample_table();
    t.add(BestGuess {
        init_guess: "trace".to_string(),
        result: [Incorrect; WORD_LEN],
        best_guess: "hello".to_string(),
    });
    assert_eq!(t.get("trace", &[Incorrect; WORD_LEN]), Some("hello".to_string()));
}

#[test]
fn malformed_text_is_refused() {
    assert!(parse_precomputed_data("garbage").is_none());
    assert!(parse_precomputed_data("trace accpc crane").is_none());
    assert!(parse_precomputed_data("trace accpx crane\n").is_none());
    assert!(parse_precomputed_data("trace_accpc crane\n").is_none());
    assert_eq!(parse_precomputed_data("").unwrap().len(), 0);
}

#[test]
fn table_well_formedness() {
    assert!(sample_table().is_well_formed());
    let mut t = Precompute::new();
    t.add(BestGuess { init_guess: "ab".to_string(), result: [Correct; WORD_LEN], best_guess: "crane".to_string() });
    assert!(!t.is_well_formed());
}

#[test]
fn feedback_enumeration_sizes() {
    assert_eq!(FEEDBACK_COUNT, 243);
    assert_eq!(feasible_feedbacks(5).len(), 243);
    assert_eq!(feasible_feedbacks(0).len(), 32);
    assert_eq!(feasible_feedbacks(1).len(), 112);
    assert_eq!(feasible_feedbacks(2).len(), 192);
    let all = feasible_feedbacks(5);
    assert_eq!(all[0], [Incorrect; WORD_LEN]);
    assert_eq!(all[1], [CorrectChar, Incorrect, Incorrect, Incorrect, Incorrect]);
    assert_eq!(all[242], [Correct; WORD_LEN]);
    for fb in feasible_feedbacks(1) {
        assert!(count_correct(&fb) <= 1);
    }
    let mut seen = all.clone();
    seen.sort();
    seen.dedup();
    assert_eq!(seen.len(), 243);
    assert!(all.iter().all(|fb| !fb.contains(&Unknown)));
}

#[test]
fn slowest_half_is_kept_slowest_first() {
    assert_eq!(keep_slowest(&vec![5, 9, 9, 1]), vec![1, 2]);
    assert_eq!(keep_slowest(&vec![3, 1, 2]), vec![0]);
    assert_eq!(keep_slowest(&vec![7]), Vec::<usize>::new());
    assert_eq!(keep_slowest(&vec![1, 2, 3, 4, 5, 6]), vec![5, 4, 3]);
}

#[test]
fn precompute_records_best_second_guesses() {
    let answers = ["crane", "brace", "grace", "apple", "angle", "ankle", "hello", "plant"];
    let guesses = ["lolly", "xxaax"];
    let table = precompute("trace", &guesses, &answers, 1);
    assert!(table.len() > 0);
    let text = table.to_text();
    let mut productive = 0;
    for fb in feasible_feedbacks(1) {
        let mut pool = answers.to_vec();
        filter_words(&WordPattern::new("trace", fb), &mut pool);
        if pool.is_empty() {
            continue;
        }
        productive += 1;
        if let Some(g) = table.get("trace", &fb) {
            assert_eq!(Some(g.as_str()), best_guess(&guesses, &pool));
        }
    }
    assert_eq!(table.len(), productive / 2);
    let mut keys: Vec<_> = text.lines().map(|l| l[6..11].to_string()).collect();
    keys.sort();
    keys.dedup();
    assert_eq!(keys.len(), table.len());
    assert!(text.lines().all(|l| l.starts_with("trace ")));
    // After "trace" against "apple", the answers left are apple, angle and
    // ankle, and angle splits them best.
    let fb = Wordle::new("apple").check("trace");
    if let Some(g) = table.get("trace", &fb) {
        assert_eq!(g, "angle");
    }
}
