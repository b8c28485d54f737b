use wordle::feedback::{CharResult, GuessResult, Wordle, WORD_LEN};
use wordle::pattern::WordPattern;
use wordle::precompute::{BestGuess, Precompute};
use wordle::session::{PollResult, Session, SolverResult};
use wordle::solve::first_guess;
use wordle::ui::GameControl;

use CharResult::{Correct, CorrectChar, Incorrect};

/// Plays a self-scored game; returns the solved word and its round.
fn play(secret: &str, answers: &[&'static str], guesses: &[&'static str], table: Precompute) -> Option<(String, u32)> {
    let mut s = Session::new(first_guess(), answers.to_vec(), guesses.to_vec(), table);
    loop {
        let guess = s.current_guess().to_string();
        let result = Wordle::new(secret).check(&guess);
        match s.step::<()>(PollResult::Score(WordPattern::new(&guess, result))) {
            None => {}
            Some(SolverResult::Answer { word, guess_count }) => return Some((word, guess_count)),
            Some(_) => return None,
        }
    }
}

const ANSWERS: [&str; 10] = [
    "crane", "trace", "brace", "grace", "apple", "angle", "ankle", "hello", "lolly", "plant",
];

#[test]
fn trace_solves_crane_in_two_rounds() {
    assert_eq!(
        Wordle::new("crane").check("trace"),
        [Incorrect, Correct, Correct, CorrectChar, Correct]
    );
    let (word, rounds) = play("crane", &ANSWERS, &[], Precompute::new()).unwrap();
    assert_eq!(word, "crane");
    assert_eq!(rounds, 2);
}

#[test]
fn every_answer_of_a_small_list_is_solved_within_six_rounds() {
    for secret in ANSWERS {
        let (word, rounds) = play(secret, &ANSWERS, &["xxaax"], Precompute::new()).unwrap();
        assert_eq!(word, secret);
        assert!(rounds <= 6, "{} took {}", secret, rounds);
    }
}

#[test]
fn opening_guess_that_is_the_secret_solves_in_one_round() {
    let (word, rounds) = play("trace", &ANSWERS, &[], Precompute::new()).unwrap();
    assert_eq!((word.as_str(), rounds), ("trace", 1));
}

#[test]
fn control_signal_is_relayed() {
    let mut s = Session::new("trace", vec!["crane"], vec![], Precompute::new());
    let r = s.step(PollResult::Control(GameControl::Quit));
    assert!(matches!(r, Some(SolverResult::Control(GameControl::Quit))));
    assert_eq!(s.guess_count(), 1);
}

#[test]
fn contradictory_feedback_ends_with_no_answer() {
    let mut s = Session::new("trace", vec!["crane"], vec![], Precompute::new());
    let p = WordPattern::new("trace", [Incorrect; WORD_LEN]);
    let r = s.step::<()>(PollResult::Score(p));
    assert!(matches!(r, Some(SolverResult::NoAnswer)));
    assert_eq!(s.num_answers(), 0);
}

#[test]
fn table_entry_is_used_as_next_guess() {
    let fb: GuessResult = [Incorrect, Correct, Correct, CorrectChar, Correct];
    let mut table = Precompute::new();
    table.add(BestGuess {
        init_guess: "trace".to_string(),
        result: fb,
        best_guess: "brace".to_string(),
    });
    let mut s = Session::new("trace", ANSWERS.to_vec(), vec![], table);
    let r = s.step::<()>(PollResult::Score(WordPattern::new("trace", fb)));
    assert!(r.is_none());
    assert_eq!(s.current_guess(), "brace");
    assert_eq!(s.num_answers(), 1);
}

#[test]
fn table_miss_falls_back_to_the_selector() {
    let mut s = Session::new("trace", ANSWERS.to_vec(), vec![], Precompute::new());
    let fb = Wordle::new("crane").check("trace");
    assert!(s.step::<()>(PollResult::Score(WordPattern::new("trace", fb))).is_none());
    assert_eq!(s.current_guess(), "crane");
}
