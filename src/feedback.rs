//! Per-letter feedback of a guess against a secret word.
use vstd::prelude::*;

verus! {

/// The number of letters in every word.
pub const WORD_LEN: usize = 5;

/// The mark given to one letter of a guess.
#[derive(Clone, Copy, PartialEq, Eq, Structural, PartialOrd, Ord, Debug, Hash)]
pub enum CharResult {
    /// Not yet marked (used by interactive front ends before the player scores a letter).
    Unknown,
    /// The letter does not occur among the secret's unmatched letters.
    Incorrect,
    /// The letter occurs in the secret, at another position.
    CorrectChar,
    /// The letter sits at this very position in the secret.
    Correct,
}

/// Feedback for a whole guess, one mark per position.
pub type GuessResult = [CharResult; WORD_LEN];

/// Number of positions `k < n` where the secret's letter is `c` and the guess
/// does not match the secret: the secret's unmatched occurrences of `c`.
pub open spec fn unmatched_count(s: Seq<char>, g: Seq<char>, c: char, n: int) -> nat
    decreases n,
{
    if n <= 0 {
        0
    } else {
        unmatched_count(s, g, c, n - 1) + if s[n - 1] != g[n - 1] && s[n - 1] == c {
            1nat
        } else {
            0nat
        }
    }
}

/// Number of positions `j < n` where the guess's letter is `c` and the guess
/// does not match the secret: the guess's earlier misplaced-or-absent `c`s.
pub open spec fn missed_guess_count(s: Seq<char>, g: Seq<char>, c: char, n: int) -> nat
    decreases n,
{
    if n <= 0 {
        0
    } else {
        missed_guess_count(s, g, c, n - 1) + if g[n - 1] != s[n - 1] && g[n - 1] == c {
            1nat
        } else {
            0nat
        }
    }
}

/// How many of the secret's unmatched occurrences of `c` the first `n`
/// positions of the guess have used up.
pub open spec fn used_up(s: Seq<char>, g: Seq<char>, c: char, n: int) -> nat {
    let k = missed_guess_count(s, g, c, n);
    let u = unmatched_count(s, g, c, s.len() as int);
    if k < u {
        k
    } else {
        u
    }
}

/// The mark of position `i`: correct on an exact match; otherwise present
/// exactly when fewer earlier unmatched guess positions hold the same letter
/// than the secret has unmatched occurrences of it (each present mark uses up
/// one such occurrence, left to right); otherwise absent.
pub open spec fn mark_at(s: Seq<char>, g: Seq<char>, i: int) -> CharResult {
    if g[i] == s[i] {
        CharResult::Correct
    } else if missed_guess_count(s, g, g[i], i) < unmatched_count(s, g, g[i], s.len() as int) {
        CharResult::CorrectChar
    } else {
        CharResult::Incorrect
    }
}

/// The feedback that guess `g` receives against secret `s`.
pub open spec fn feedback(s: Seq<char>, g: Seq<char>) -> Seq<CharResult> {
    Seq::new(g.len(), |i: int| mark_at(s, g, i))
}

/// Number of positions `k < n` where secret and guess hold the same letter.
pub open spec fn same_position_count(s: Seq<char>, g: Seq<char>, n: int) -> nat
    decreases n,
{
    if n <= 0 {
        0
    } else {
        same_position_count(s, g, n - 1) + if s[n - 1] == g[n - 1] {
            1nat
        } else {
            0nat
        }
    }
}

/// Number of positions `k < n` where secret and guess both hold `c`.
pub open spec fn exact_count(s: Seq<char>, g: Seq<char>, c: char, n: int) -> nat
    decreases n,
{
    if n <= 0 {
        0
    } else {
        exact_count(s, g, c, n - 1) + if s[n - 1] == g[n - 1] && s[n - 1] == c {
            1nat
        } else {
            0nat
        }
    }
}

/// Number of marks equal to `m` among the first `n` marks of `r`.
pub open spec fn mark_count(r: Seq<CharResult>, m: CharResult, n: int) -> nat
    decreases n,
{
    if n <= 0 {
        0
    } else {
        mark_count(r, m, n - 1) + if r[n - 1] == m {
            1nat
        } else {
            0nat
        }
    }
}

/// Number of occurrences of `c` among the first `n` letters of `w`.
pub open spec fn letter_count(w: Seq<char>, c: char, n: int) -> nat
    decreases n,
{
    if n <= 0 {
        0
    } else {
        letter_count(w, c, n - 1) + if w[n - 1] == c {
            1nat
        } else {
            0nat
        }
    }
}

/// Number of positions `j < n` where the guess holds `c` and the mark is
/// correct or present.
pub open spec fn letter_hits(g: Seq<char>, r: Seq<CharResult>, c: char, n: int) -> nat
    decreases n,
{
    if n <= 0 {
        0
    } else {
        letter_hits(g, r, c, n - 1) + if g[n - 1] == c && (r[n - 1] == CharResult::Correct
            || r[n - 1] == CharResult::CorrectChar) {
            1nat
        } else {
            0nat
        }
    }
}

proof fn lemma_counts_prefix(s: Seq<char>, g: Seq<char>, c: char, n: int)
    requires
        s.len() == WORD_LEN,
        g.len() == WORD_LEN,
        0 <= n <= WORD_LEN,
    ensures
        mark_count(feedback(s, g), CharResult::Correct, n) == same_position_count(s, g, n),
        letter_count(s, c, n) == exact_count(s, g, c, n) + unmatched_count(s, g, c, n),
        letter_hits(g, feedback(s, g), c, n) == exact_count(s, g, c, n) + used_up(s, g, c, n),
    decreases n,
{
    if n > 0 {
        lemma_counts_prefix(s, g, c, n - 1);
    }
}

/// Feedback marks exactly the positions where guess and secret agree as
/// correct, and for each letter the correct and present marks on it never
/// outnumber its occurrences in the secret.
pub proof fn lemma_feedback_counts(s: Seq<char>, g: Seq<char>)
    requires
        s.len() == WORD_LEN,
        g.len() == WORD_LEN,
    ensures
        mark_count(feedback(s, g), CharResult::Correct, WORD_LEN as int) == same_position_count(
            s,
            g,
            WORD_LEN as int,
        ),
        forall|c: char|
            letter_hits(g, feedback(s, g), c, WORD_LEN as int) <= letter_count(
                s,
                c,
                WORD_LEN as int,
            ),
{
    lemma_counts_prefix(s, g, 'a', WORD_LEN as int);
    assert forall|c: char|
        letter_hits(g, feedback(s, g), c, WORD_LEN as int) <= letter_count(
            s,
            c,
            WORD_LEN as int,
        ) by {
        lemma_counts_prefix(s, g, c, WORD_LEN as int);
    }
}

/// A game with a fixed secret word.
#[derive(Clone, Copy)]
pub struct Wordle<'a> {
    word: &'a str,
}

impl<'a> View for Wordle<'a> {
    type V = Seq<char>;

    closed spec fn view(&self) -> Seq<char> {
        self.word@
    }
}

impl<'a> Wordle<'a> {
    /// A game whose secret is `word`.
    pub fn new(word: &'a str) -> (r: Wordle<'a>)
        ensures
            r@ == word@,
    {
        Wordle { word }
    }

    /// The feedback that `guess` receives against this game's secret: first
    /// every exact match is marked, and the secret's other letters are kept
    /// as unmatched; then, left to right, every other guess letter found among
    /// the unmatched letters is marked present and uses that letter up.
    pub fn check(&self, guess: &str) -> (r: GuessResult)
        requires
            self@.len() == WORD_LEN,
            guess@.len() == WORD_LEN,
        ensures
            r@ == feedback(self@, guess@),
    {
        let ghost s = self@;
        let ghost g = guess@;
        let mut out = [CharResult::Incorrect;WORD_LEN];
        let mut missed: Vec<char> = Vec::new();
        let mut i: usize = 0;
        proof {
            missed@.to_multiset_ensures();
        }
        while i < WORD_LEN
            invariant
                i <= WORD_LEN,
                s == self@,
                g == guess@,
                s.len() == WORD_LEN,
                g.len() == WORD_LEN,
                forall|j: int| 0 <= j < i ==> (out@[j] == CharResult::Correct) == (g[j] == s[j]),
                forall|j: int|
                    0 <= j < i ==> out@[j] == CharResult::Correct || out@[j] == CharResult::Incorrect,
                forall|j: int| i <= j < WORD_LEN ==> out@[j] == CharResult::Incorrect,
                forall|c: char| missed@.to_multiset().count(c) == unmatched_count(s, g, c, i as int),
            decreases WORD_LEN - i,
        {
            let ghost before = missed@;
            let gc = guess.get_char(i);
            let sc = self.word.get_char(i);
            if gc == sc {
                out[i] = CharResult::Correct;
            } else {
                missed.push(sc);
            }
            proof {
                assert forall|c: char|
                    missed@.to_multiset().count(c) == unmatched_count(s, g, c, i + 1) by {
                    assert(before.to_multiset().count(c) == unmatched_count(s, g, c, i as int));
                    assert(unmatched_count(s, g, c, i + 1) == unmatched_count(s, g, c, i as int)
                        + if s[i as int] != g[i as int] && s[i as int] == c { 1nat } else { 0nat });
                    before.to_multiset_ensures();
                    if gc != sc {
                        assert(missed@ == before.push(sc));
                    }
                }
            }
            i += 1;
        }
        i = 0;
        while i < WORD_LEN
            invariant
                i <= WORD_LEN,
                s == self@,
                g == guess@,
                s.len() == WORD_LEN,
                g.len() == WORD_LEN,
                forall|j: int| 0 <= j < i ==> out@[j] == mark_at(s, g, j),
                forall|j: int| i <= j < WORD_LEN ==> (out@[j] == CharResult::Correct) == (g[j] == s[j]),
                forall|j: int|
                    i <= j < WORD_LEN ==> out@[j] == CharResult::Correct || out@[j]
                        == CharResult::Incorrect,
                forall|c: char|
                    #![trigger missed@.to_multiset().count(c)]
                    missed@.to_multiset().count(c) + used_up(s, g, c, i as int) == unmatched_count(
                        s,
                        g,
                        c,
                        WORD_LEN as int,
                    ),
            decreases WORD_LEN - i,
        {
            let ghost before = missed@;
            let gc = guess.get_char(i);
            if out[i] != CharResult::Correct {
                match find_char(&missed, gc) {
                    Some(k) => {
                        out[i] = CharResult::CorrectChar;
                        missed.remove(k);
                        assert(before.remove(k as int) == missed@);
                    },
                    None => {},
                }
            }
            proof {
                before.to_multiset_ensures();
                assert forall|c: char|
                    #![trigger missed@.to_multiset().count(c)]
                    missed@.to_multiset().count(c) + used_up(s, g, c, i + 1) == unmatched_count(
                        s,
                        g,
                        c,
                        WORD_LEN as int,
                    ) by {
                    assert(before.to_multiset().count(c) + used_up(s, g, c, i as int)
                        == unmatched_count(s, g, c, WORD_LEN as int));
                    assert(missed_guess_count(s, g, c, i + 1) == missed_guess_count(s, g, c, i as int)
                        + if g[i as int] != s[i as int] && g[i as int] == c { 1nat } else { 0nat });
                }
                assert(before.to_multiset().count(gc) + used_up(s, g, gc, i as int)
                    == unmatched_count(s, g, gc, WORD_LEN as int));
                assert(before.contains(gc) <==> before.to_multiset().count(gc) > 0);
                assert(out@[i as int] == mark_at(s, g, i as int));
            }
            i += 1;
        }
        assert(out@ =~= feedback(s, g)) by {
            assert(s.len() as int == WORD_LEN as int);
        }
        out
    }
}

/// The first index at which `v` holds `c`, if any.
pub(crate) fn find_char(v: &Vec<char>, c: char) -> (r: Option<usize>)
    ensures
        match r {
            Some(k) => k < v@.len() && v@[k as int] == c,
            None => !v@.contains(c),
        },
{
    let mut k: usize = 0;
    while k < v.len()
        invariant
            k <= v@.len(),
            forall|j: int| 0 <= j < k ==> v@[j] != c,
        decreases v@.len() - k,
    {
        if v[k] == c {
            return Some(k);
        }
        k += 1;
    }
    None
}

} // verus!
