//! Plain data behind the terminal front ends: screen geometry, control
//! signals, and the on-screen keyboard's record of what each letter got.
use vstd::prelude::*;
use crate::feedback::{CharResult, GuessResult, WORD_LEN};

verus! {

/// A request from the player that interrupts a game.
#[derive(Clone, Copy, PartialEq, Eq, Structural, Debug)]
pub enum GameControl {
    Restart,
    Quit,
    Debug,
}

/// A position on the screen.
#[derive(Clone, Copy, PartialEq, Eq, Structural, Debug)]
pub struct ScreenPos {
    pub col: u16,
    pub row: u16,
}

/// A size on the screen.
#[derive(Clone, Copy, PartialEq, Eq, Structural, Debug)]
pub struct ScreenSize {
    pub cols: u16,
    pub rows: u16,
}

/// A rectangle on the screen.
#[derive(Clone, Copy, PartialEq, Eq, Structural, Debug)]
pub struct Window {
    pub pos: ScreenPos,
    pub size: ScreenSize,
}

/// One letter of a word on the screen, with its cell and its mark.
#[derive(Clone, Copy, PartialEq, Eq, Structural, Debug)]
pub struct WordleChar {
    pub c: char,
    pub window: Window,
    pub result: CharResult,
}

/// The mark after `m` when the player steps up through the marks while
/// scoring a letter: absent, present, correct, and round again.
pub open spec fn mark_above(m: CharResult) -> CharResult {
    match m {
        CharResult::Correct => CharResult::Incorrect,
        CharResult::CorrectChar => CharResult::Correct,
        CharResult::Incorrect => CharResult::CorrectChar,
        CharResult::Unknown => CharResult::CorrectChar,
    }
}

/// The mark after `m` when the player steps down through the marks: the
/// reverse of stepping up, an unmarked letter going to correct.
pub open spec fn mark_below(m: CharResult) -> CharResult {
    match m {
        CharResult::Correct => CharResult::CorrectChar,
        CharResult::CorrectChar => CharResult::Incorrect,
        CharResult::Incorrect => CharResult::Correct,
        CharResult::Unknown => CharResult::Correct,
    }
}

/// The mark one step up from `m`.
pub fn up(m: CharResult) -> (r: CharResult)
    ensures
        r == mark_above(m),
        m != CharResult::Unknown ==> mark_below(r) == m,
{
    match m {
        CharResult::Correct => CharResult::Incorrect,
        CharResult::CorrectChar => CharResult::Correct,
        CharResult::Incorrect => CharResult::CorrectChar,
        CharResult::Unknown => CharResult::CorrectChar,
    }
}

/// The mark one step down from `m`.
pub fn down(m: CharResult) -> (r: CharResult)
    ensures
        r == mark_below(m),
        m != CharResult::Unknown ==> mark_above(r) == m,
{
    match m {
        CharResult::Correct => CharResult::CorrectChar,
        CharResult::CorrectChar => CharResult::Incorrect,
        CharResult::Incorrect => CharResult::Correct,
        CharResult::Unknown => CharResult::Correct,
    }
}

/// The code of `c` with ASCII capitals made lower case.
pub open spec fn ascii_lower(c: char) -> u32 {
    if 'A' <= c && c <= 'Z' {
        (c as u32 + 32) as u32
    } else {
        c as u32
    }
}

/// Whether `a` and `b` are the same letter up to ASCII case.
pub open spec fn same_letter(a: char, b: char) -> bool {
    ascii_lower(a) == ascii_lower(b)
}

/// The mark of key `c`, starting from `r`, after the first `n` letters of
/// guess `g` with marks `s`: each letter equal to the key up to ASCII case
/// sets the key's mark to its own, unless the key is already correct.
pub open spec fn key_after(c: char, r: CharResult, g: Seq<char>, s: Seq<CharResult>, n: int) -> CharResult
    decreases n,
{
    if n <= 0 {
        r
    } else {
        let prev = key_after(c, r, g, s, n - 1);
        if same_letter(g[n - 1], c) && prev != CharResult::Correct {
            s[n - 1]
        } else {
            prev
        }
    }
}

/// Each letter of a row with no mark yet.
pub open spec fn unmarked(letters: Seq<char>) -> Seq<(char, CharResult)> {
    letters.map_values(|c: char| (c, CharResult::Unknown))
}

/// A row of keys after a guess.
pub open spec fn row_after(
    keys: Seq<(char, CharResult)>,
    g: Seq<char>,
    s: Seq<CharResult>,
) -> Seq<(char, CharResult)> {
    keys.map_values(
        |k: (char, CharResult)| (k.0, key_after(k.0, k.1, g, s, WORD_LEN as int)),
    )
}

/// The on-screen keyboard: rows of keys, each row with its left padding.
pub struct Keyb {
    rows: Vec<(String, Vec<(char, CharResult)>)>,
}

/// The plain values of keyboard rows.
pub open spec fn rows_view(rows: Seq<(String, Vec<(char, CharResult)>)>) -> Seq<
    (Seq<char>, Seq<(char, CharResult)>),
> {
    rows.map_values(|r: (String, Vec<(char, CharResult)>)| (r.0@, r.1@))
}

impl View for Keyb {
    type V = Seq<(Seq<char>, Seq<(char, CharResult)>)>;

    closed spec fn view(&self) -> Seq<(Seq<char>, Seq<(char, CharResult)>)> {
        rows_view(self.rows@)
    }
}

/// The keys of `letters`, none marked yet.
fn make_row(letters: &str) -> (r: Vec<(char, CharResult)>)
    ensures
        r@ == unmarked(letters@),
{
    let n = letters.unicode_len();
    let mut out: Vec<(char, CharResult)> = Vec::new();
    let mut i: usize = 0;
    while i < n
        invariant
            i <= n,
            n == letters@.len(),
            out@ == unmarked(letters@.take(i as int)),
        decreases n - i,
    {
        out.push((letters.get_char(i), CharResult::Unknown));
        i += 1;
        assert(out@ =~= unmarked(letters@.take(i as int)));
    }
    assert(letters@.take(n as int) == letters@);
    out
}

/// Whether `a` and `b` are the same letter up to ASCII case.
fn eq_ignore_case(a: char, b: char) -> (r: bool)
    ensures
        r == same_letter(a, b),
{
    let la: u32 = if 'A' <= a && a <= 'Z' {
        a as u32 + 32
    } else {
        a as u32
    };
    let lb: u32 = if 'A' <= b && b <= 'Z' {
        b as u32 + 32
    } else {
        b as u32
    };
    la == lb
}

impl Keyb {
    /// A keyboard in QWERTY layout with no key marked.
    pub fn new() -> (r: Keyb)
        ensures
            r@ == seq![
                ("     "@, unmarked("QWERTYUIOP"@)),
                ("      "@, unmarked("ASDFGHJKL"@)),
                ("       "@, unmarked("ZXCVBNM"@)),
            ],
    {
        let mut rows: Vec<(String, Vec<(char, CharResult)>)> = Vec::new();
        rows.push(("     ".to_owned(), make_row("QWERTYUIOP")));
        rows.push(("      ".to_owned(), make_row("ASDFGHJKL")));
        rows.push(("       ".to_owned(), make_row("ZXCVBNM")));
        let r = Keyb { rows };
        assert(r@ =~= seq![
            ("     "@, unmarked("QWERTYUIOP"@)),
            ("      "@, unmarked("ASDFGHJKL"@)),
            ("       "@, unmarked("ZXCVBNM"@)),
        ]);
        r
    }

    /// The rows of keys, each with its left padding.
    pub fn rows(&self) -> (r: &Vec<(String, Vec<(char, CharResult)>)>)
        ensures
            rows_view(r@) == self@,
    {
        &self.rows
    }
}

/// The keys of `keys` after guess `guess` got marks `score`.
fn update_row(keys: &Vec<(char, CharResult)>, guess: &str, score: &GuessResult) -> (r: Vec<
    (char, CharResult),
>)
    requires
        guess@.len() == WORD_LEN,
    ensures
        r@ == row_after(keys@, guess@, score@),
{
    let mut out: Vec<(char, CharResult)> = Vec::new();
    let mut k: usize = 0;
    while k < keys.len()
        invariant
            k <= keys@.len(),
            guess@.len() == WORD_LEN,
            out@ == row_after(keys@.take(k as int), guess@, score@),
        decreases keys@.len() - k,
    {
        let (c, r0) = keys[k];
        let mut r = r0;
        let mut i: usize = 0;
        while i < WORD_LEN
            invariant
                i <= WORD_LEN,
                guess@.len() == WORD_LEN,
                r == key_after(c, r0, guess@, score@, i as int),
            decreases WORD_LEN - i,
        {
            if eq_ignore_case(guess.get_char(i), c) && r != CharResult::Correct {
                r = score[i];
            }
            i += 1;
        }
        out.push((c, r));
        k += 1;
        assert(out@ =~= row_after(keys@.take(k as int), guess@, score@));
    }
    assert(keys@.take(keys@.len() as int) == keys@);
    out
}

/// Marks each key with what the letters of `guess` equal to it (up to ASCII
/// case) got in `score`, later letters overriding earlier ones; a key once
/// correct stays correct.
pub fn update_keyb(keyb: &mut Keyb, guess: &str, score: GuessResult)
    requires
        guess@.len() == WORD_LEN,
    ensures
        final(keyb)@.len() == old(keyb)@.len(),
        forall|i: int|
            0 <= i < old(keyb)@.len() ==> (#[trigger] final(keyb)@[i]).0 == old(keyb)@[i].0
                && final(keyb)@[i].1 == row_after(old(keyb)@[i].1, guess@, score@),
{
    let mut rows: Vec<(String, Vec<(char, CharResult)>)> = Vec::new();
    let mut i: usize = 0;
    while i < keyb.rows.len()
        invariant
            i <= keyb.rows@.len(),
            guess@.len() == WORD_LEN,
            rows@.len() == i,
            forall|j: int|
                0 <= j < i ==> (#[trigger] rows@[j]).0@ == keyb.rows@[j].0@ && rows@[j].1@
                    == row_after(keyb.rows@[j].1@, guess@, score@),
        decreases keyb.rows@.len() - i,
    {
        let pad = keyb.rows[i].0.clone();
        let keys = update_row(&keyb.rows[i].1, guess, &score);
        rows.push((pad, keys));
        i += 1;
    }
    keyb.rows = rows;
}

} // verus!
