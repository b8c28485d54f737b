use wordle::feedback::CharResult;
use wordle::ui::{down, up, update_keyb, Keyb};
use wordle::words::{answers, guesses, valid_words};

use CharResult::{Correct, CorrectChar, Incorrect, Unknown};

fn key(k: &Keyb, c: char) -> CharResult {
    for (_, row) in k.rows() {
        for (kc, r) in row {
            if *kc == c {
                return *r;
            }
        }
    }
    panic!("no key {}", c);
}

#[test]
fn new_keyboard_is_qwerty_and_unmarked() {
    let k = Keyb::new();
    let rows = k.rows();
    assert_eq!(rows.len(), 3);
    assert_eq!(rows[0].0, "     ");
    assert_eq!(rows[1].0, "      ");
    assert_eq!(rows[2].0, "       ");
    let letters: Vec<String> = rows.iter().map(|(_, r)| r.iter().map(|(c, _)| *c).collect()).collect();
    assert_eq!(letters, vec!["QWERTYUIOP", "ASDFGHJKL", "ZXCVBNM"]);
    assert!(rows.iter().all(|(_, r)| r.iter().all(|(_, m)| *m == Unknown)));
}

#[test]
fn keyboard_takes_marks_ignoring_case() {
    let mut k = Keyb::new();
    update_keyb(&mut k, "trace", [Incorrect, Correct, Correct, CorrectChar, Correct]);
    assert_eq!(key(&k, 'T'), Incorrect);
    assert_eq!(key(&k, 'R'), Correct);
    assert_eq!(key(&k, 'A'), Correct);
    assert_eq!(key(&k, 'C'), CorrectChar);
    assert_eq!(key(&k, 'E'), Correct);
    assert_eq!(key(&k, 'Q'), Unknown);
}

#[test]
fn correct_key_stays_correct() {
    let mut k = Keyb::new();
    update_keyb(&mut k, "crane", [Correct; 5]);
    update_keyb(&mut k, "rcxyz", [Incorrect, CorrectChar, Incorrect, Incorrect, Incorrect]);
    assert_eq!(key(&k, 'R'), Correct);
    assert_eq!(key(&k, 'C'), Correct);
    assert_eq!(key(&k, 'X'), Incorrect);
}

#[test]
fn later_letter_overrides_earlier_on_the_same_key() {
    let mut k = Keyb::new();
    update_keyb(&mut k, "eerie", [CorrectChar, Incorrect, Incorrect, Incorrect, Incorrect]);
    assert_eq!(key(&k, 'E'), Incorrect);
    update_keyb(&mut k, "abbey", [Incorrect, Incorrect, CorrectChar, Incorrect, Incorrect]);
    assert_eq!(key(&k, 'B'), CorrectChar);
}

#[test]
fn word_lists_are_split_into_lines() {
    assert_eq!(answers("cigar\nrebut\r\nsissy\n"), vec!["cigar", "rebut", "sissy"]);
    assert_eq!(guesses("aahed\n\naalii"), vec!["aahed", "", "aalii"]);
    assert_eq!(answers(""), Vec::<&str>::new());
    assert_eq!(guesses("abcde\r"), vec!["abcde\r"]);
}

#[test]
fn word_validity() {
    assert!(valid_words(&["cigar", "rebut"]));
    assert!(!valid_words(&["cigar", "rebu"]));
    assert!(valid_words(&[]));
}

#[test]
fn scoring_a_letter_cycles_through_the_marks() {
    assert_eq!(up(Unknown), CorrectChar);
    assert_eq!(up(Incorrect), CorrectChar);
    assert_eq!(up(CorrectChar), Correct);
    assert_eq!(up(Correct), Incorrect);
    assert_eq!(down(Unknown), Correct);
    assert_eq!(down(Correct), CorrectChar);
    assert_eq!(down(CorrectChar), Incorrect);
    assert_eq!(down(Incorrect), Correct);
}
