//! Constraints derived from one guess and its feedback.
use vstd::prelude::*;
use crate::feedback::{
    feedback, find_char, mark_at, missed_guess_count, unmatched_count, CharResult, GuessResult,
    WORD_LEN,
};

verus! {

/// What one guess and its feedback say about the secret.
pub struct PatternModel {
    /// The feedback the constraint was built from.
    pub result: Seq<CharResult>,
    /// The letter required at each position (from correct marks).
    pub mask: Seq<Option<char>>,
    /// Letters that must occur somewhere (from present marks).
    pub required: Set<char>,
    /// The letter ruled out at each position (from present and absent marks).
    pub bad_at: Seq<Option<char>>,
    /// Letters ruled out everywhere: absent letters that are correct nowhere
    /// in the same guess.
    pub bad: Set<char>,
}

/// The constraint built from guess `g` and its marks `r`.
pub open spec fn pattern_model(g: Seq<char>, r: Seq<CharResult>) -> PatternModel {
    PatternModel {
        result: r,
        mask: Seq::new(
            WORD_LEN as nat,
            |i: int|
                if r[i] == CharResult::Correct {
                    Some(g[i])
                } else {
                    None
                },
        ),
        required: Set::new(
            |c: char| exists|i: int| 0 <= i < WORD_LEN && r[i] == CharResult::CorrectChar && g[i] == c,
        ),
        bad_at: Seq::new(
            WORD_LEN as nat,
            |i: int|
                if r[i] == CharResult::CorrectChar || r[i] == CharResult::Incorrect {
                    Some(g[i])
                } else {
                    None
                },
        ),
        bad: Set::new(
            |c: char|
                (exists|i: int| 0 <= i < WORD_LEN && r[i] == CharResult::Incorrect && g[i] == c)
                    && !correct_somewhere(g, r, c),
        ),
    }
}

/// Whether some position of `g` holding `c` is marked correct.
pub open spec fn correct_somewhere(g: Seq<char>, r: Seq<CharResult>, c: char) -> bool {
    exists|i: int| 0 <= i < WORD_LEN && r[i] == CharResult::Correct && g[i] == c
}

/// Whether position `i` of word `w` is allowed by constraint `p`.
pub open spec fn admits_at(p: PatternModel, w: Seq<char>, i: int) -> bool {
    p.mask[i] == Some(w[i]) || (p.mask[i] is None && p.bad_at[i] != Some(w[i]) && !p.bad.contains(
        w[i],
    ))
}

/// Whether word `w` satisfies constraint `p`.
pub open spec fn admits(p: PatternModel, w: Seq<char>) -> bool {
    &&& forall|i: int| 0 <= i < WORD_LEN ==> admits_at(p, w, i)
    &&& forall|c: char| p.required.contains(c) ==> w.contains(c)
}

/// Whether every position of `p` requires a letter.
pub open spec fn is_perfect(p: PatternModel) -> bool {
    forall|i: int| 0 <= i < WORD_LEN ==> p.mask[i] is Some
}

/// Whether guess `g` is both present and absent on some letter that it has
/// correct nowhere: the absent mark then rules that letter out although the
/// present mark says the secret holds it.
pub open spec fn split_verdict(g: Seq<char>, r: Seq<CharResult>) -> bool {
    exists|j: int, k: int|
        0 <= j < WORD_LEN && 0 <= k < WORD_LEN && r[j] == CharResult::CorrectChar && r[k]
            == CharResult::Incorrect && g[j] == g[k] && !correct_somewhere(g, r, g[j])
}

/// A constraint derived from a guess and its feedback.
pub struct WordPattern {
    pub result: GuessResult,
    mask: [Option<char>; WORD_LEN],
    required_chars: Vec<char>,
    bad_chars_by_pos: [Option<char>; WORD_LEN],
    bad_chars: Vec<char>,
}

impl View for WordPattern {
    type V = PatternModel;

    closed spec fn view(&self) -> PatternModel {
        PatternModel {
            result: self.result@,
            mask: self.mask@,
            required: self.required_chars@.to_set(),
            bad_at: self.bad_chars_by_pos@,
            bad: self.bad_chars@.to_set(),
        }
    }
}

/// Whether some position of `mask` requires `c`.
fn mask_has(mask: &[Option<char>; WORD_LEN], c: char) -> (r: bool)
    ensures
        r == exists|i: int| 0 <= i < WORD_LEN && mask@[i] == Some(c),
{
    let mut i: usize = 0;
    while i < WORD_LEN
        invariant
            i <= WORD_LEN,
            forall|j: int| 0 <= j < i ==> mask@[j] != Some(c),
        decreases WORD_LEN - i,
    {
        match mask[i] {
            Some(m) => {
                if m == c {
                    return true;
                }
            },
            None => {},
        }
        i += 1;
    }
    false
}

/// Whether the word `w` holds the letter `c`.
fn word_has(w: &str, c: char) -> (r: bool)
    ensures
        r == w@.contains(c),
{
    let n = w.unicode_len();
    let mut i: usize = 0;
    while i < n
        invariant
            i <= n,
            n == w@.len(),
            forall|j: int| 0 <= j < i ==> w@[j] != c,
        decreases n - i,
    {
        if w.get_char(i) == c {
            return true;
        }
        i += 1;
    }
    false
}

impl WordPattern {
    /// The constraint that `result`, the feedback on `word`, places on the
    /// secret.
    pub fn new(word: &str, result: GuessResult) -> (r: WordPattern)
        requires
            word@.len() == WORD_LEN,
        ensures
            r@ == pattern_model(word@, result@),
    {
        let ghost g = word@;
        let ghost m = pattern_model(word@, result@);
        let mut mask: [Option<char>; WORD_LEN] = [None;WORD_LEN];
        let mut bad_chars_by_pos: [Option<char>; WORD_LEN] = [None;WORD_LEN];
        let mut required_chars: Vec<char> = Vec::new();
        let mut i: usize = 0;
        while i < WORD_LEN
            invariant
                i <= WORD_LEN,
                g == word@,
                g.len() == WORD_LEN,
                m == pattern_model(g, result@),
                forall|j: int| 0 <= j < i ==> mask@[j] == m.mask[j] && bad_chars_by_pos@[j] == m.bad_at[j],
                forall|j: int| i <= j < WORD_LEN ==> mask@[j] is None && bad_chars_by_pos@[j] is None,
                forall|c: char|
                    required_chars@.contains(c) <==> exists|j: int|
                        0 <= j < i && result@[j] == CharResult::CorrectChar && g[j] == c,
            decreases WORD_LEN - i,
        {
            let ghost before = required_chars@;
            let c = word.get_char(i);
            match result[i] {
                CharResult::Correct => {
                    mask[i] = Some(c);
                },
                CharResult::CorrectChar => {
                    required_chars.push(c);
                    bad_chars_by_pos[i] = Some(c);
                },
                CharResult::Incorrect => {
                    bad_chars_by_pos[i] = Some(c);
                },
                CharResult::Unknown => {},
            }
            proof {
                assert forall|x: char|
                    required_chars@.contains(x) <==> exists|j: int|
                        0 <= j < i + 1 && result@[j] == CharResult::CorrectChar && g[j] == x by {
                    if result@[i as int] == CharResult::CorrectChar {
                        assert(required_chars@ == before.push(c));
                        if x == c {
                            assert(required_chars@[before.len() as int] == c);
                        }
                        if before.contains(x) {
                            let k = choose|k: int| 0 <= k < before.len() && before[k] == x;
                            assert(required_chars@[k] == x);
                        }
                        if required_chars@.contains(x) {
                            let k = choose|k: int| 0 <= k < required_chars@.len() && required_chars@[k] == x;
                            if k < before.len() {
                                assert(before[k] == x);
                            }
                        }
                    }
                }
            }
            i += 1;
        }
        let mut bad_chars: Vec<char> = Vec::new();
        i = 0;
        while i < WORD_LEN
            invariant
                i <= WORD_LEN,
                g == word@,
                g.len() == WORD_LEN,
                m == pattern_model(g, result@),
                mask@ == m.mask,
                forall|c: char|
                    bad_chars@.contains(c) <==> (exists|j: int|
                        0 <= j < i && result@[j] == CharResult::Incorrect && g[j] == c)
                        && !correct_somewhere(g, result@, c),
            decreases WORD_LEN - i,
        {
            let ghost before = bad_chars@;
            if result[i] == CharResult::Incorrect {
                let c = word.get_char(i);
                let in_mask = mask_has(&mask, c);
                proof {
                    assert(in_mask == correct_somewhere(g, result@, c)) by {
                        if in_mask {
                            let k = choose|k: int| 0 <= k < WORD_LEN && mask@[k] == Some(c);
                            assert(m.mask[k] == Some(c));
                        }
                        if correct_somewhere(g, result@, c) {
                            let k = choose|k: int|
                                0 <= k < WORD_LEN && result@[k] == CharResult::Correct && g[k] == c;
                            assert(mask@[k] == Some(c));
                        }
                    }
                }
                if !in_mask {
                    bad_chars.push(c);
                }
                proof {
                    assert forall|x: char|
                        bad_chars@.contains(x) <==> (exists|j: int|
                            0 <= j < i + 1 && result@[j] == CharResult::Incorrect && g[j] == x)
                            && !correct_somewhere(g, result@, x) by {
                        if !in_mask {
                            assert(bad_chars@ == before.push(c));
                            if x == c {
                                assert(bad_chars@[before.len() as int] == c);
                            }
                            if before.contains(x) {
                                let k = choose|k: int| 0 <= k < before.len() && before[k] == x;
                                assert(bad_chars@[k] == x);
                            }
                            if bad_chars@.contains(x) {
                                let k = choose|k: int| 0 <= k < bad_chars@.len() && bad_chars@[k] == x;
                                if k < before.len() {
                                    assert(before[k] == x);
                                }
                            }
                        }
                    }
                }
            }
            i += 1;
        }
        let r = WordPattern { result, mask, required_chars, bad_chars_by_pos, bad_chars };
        assert(r@.mask =~= m.mask);
        assert(r@.bad_at =~= m.bad_at);
        assert(r@.required =~= m.required);
        assert(r@.bad =~= m.bad);
        r
    }

    /// The feedback the constraint was built from.
    pub fn result(&self) -> (r: GuessResult)
        ensures
            r@ == self@.result,
    {
        self.result
    }

    /// Whether every position of the guess was marked correct.
    pub fn is_perfect_match(&self) -> (r: bool)
        ensures
            r == is_perfect(self@),
    {
        let mut i: usize = 0;
        while i < WORD_LEN
            invariant
                i <= WORD_LEN,
                forall|j: int| 0 <= j < i ==> self.mask@[j] is Some,
            decreases WORD_LEN - i,
        {
            if self.mask[i].is_none() {
                return false;
            }
            i += 1;
        }
        true
    }

    /// Whether `word` could still be the secret under this constraint.
    pub fn matches(&self, word: &str) -> (r: bool)
        requires
            word@.len() == WORD_LEN,
        ensures
            r == admits(self@, word@),
    {
        let mut i: usize = 0;
        while i < WORD_LEN
            invariant
                i <= WORD_LEN,
                word@.len() == WORD_LEN,
                forall|j: int| 0 <= j < i ==> admits_at(self@, word@, j),
            decreases WORD_LEN - i,
        {
            let c = word.get_char(i);
            let ok = match self.mask[i] {
                Some(m) => m == c,
                None => {
                    let at_pos = match self.bad_chars_by_pos[i] {
                        Some(b) => b == c,
                        None => false,
                    };
                    let found = find_char(&self.bad_chars, c);
                    proof {
                        if let Some(k) = found {
                            assert(self.bad_chars@[k as int] == c);
                            assert(self.bad_chars@.contains(c));
                        }
                    }
                    !at_pos && found.is_none()
                },
            };
            if !ok {
                assert(!admits_at(self@, word@, i as int));
                return false;
            }
            i += 1;
        }
        let mut k: usize = 0;
        while k < self.required_chars.len()
            invariant
                k <= self.required_chars@.len(),
                forall|j: int| 0 <= j < k ==> word@.contains(#[trigger] self.required_chars@[j]),
            decreases self.required_chars@.len() - k,
        {
            if !word_has(word, self.required_chars[k]) {
                assert(self.required_chars@.contains(self.required_chars@[k as int]));
                return false;
            }
            k += 1;
        }
        proof {
            assert forall|c: char| self@.required.contains(c) implies word@.contains(c) by {
                let j = choose|j: int| 0 <= j < self.required_chars@.len() && self.required_chars@[j] == c;
            }
        }
        true
    }
}

proof fn lemma_unmatched_witness(s: Seq<char>, g: Seq<char>, c: char, n: int)
    requires
        0 <= n <= s.len(),
        s.len() == g.len(),
        unmatched_count(s, g, c, n) > 0,
    ensures
        exists|i: int| 0 <= i < n && s[i] != g[i] && s[i] == c,
    decreases n,
{
    if unmatched_count(s, g, c, n - 1) > 0 {
        lemma_unmatched_witness(s, g, c, n - 1);
    }
}

proof fn lemma_unmatched_positive(s: Seq<char>, g: Seq<char>, c: char, n: int, i: int)
    requires
        0 <= i < n <= s.len(),
        s.len() == g.len(),
        s[i] != g[i],
        s[i] == c,
    ensures
        unmatched_count(s, g, c, n) > 0,
    decreases n,
{
    if i < n - 1 {
        lemma_unmatched_positive(s, g, c, n - 1, i);
    }
}

proof fn lemma_first_missed(s: Seq<char>, g: Seq<char>, c: char, n: int)
    requires
        0 <= n <= g.len(),
        s.len() == g.len(),
        missed_guess_count(s, g, c, n) > 0,
    ensures
        exists|j: int|
            0 <= j < n && g[j] != s[j] && g[j] == c && missed_guess_count(s, g, c, j) == 0,
    decreases n,
{
    if missed_guess_count(s, g, c, n - 1) > 0 {
        lemma_first_missed(s, g, c, n - 1);
    }
}

/// A secret satisfies the constraint built from its own feedback on a guess,
/// unless that feedback marks some letter both present and absent while
/// marking it correct nowhere; in that case the absent mark forbids a letter
/// that the secret holds.
pub proof fn lemma_secret_admitted(s: Seq<char>, g: Seq<char>)
    requires
        s.len() == WORD_LEN,
        g.len() == WORD_LEN,
    ensures
        admits(pattern_model(g, feedback(s, g)), s) <==> !split_verdict(g, feedback(s, g)),
{
    let r = feedback(s, g);
    let p = pattern_model(g, r);
    if !split_verdict(g, r) {
        assert forall|i: int| 0 <= i < WORD_LEN implies admits_at(p, s, i) by {
            if r[i] != CharResult::Correct && p.bad.contains(s[i]) {
                let c = s[i];
                let k = choose|k: int|
                    0 <= k < WORD_LEN && r[k] == CharResult::Incorrect && g[k] == c;
                assert(r[k] == mark_at(s, g, k));
                lemma_unmatched_positive(s, g, c, WORD_LEN as int, i);
                lemma_first_missed(s, g, c, k);
                let j = choose|j: int|
                    0 <= j < k && g[j] != s[j] && g[j] == c && missed_guess_count(s, g, c, j) == 0;
                assert(r[j] == mark_at(s, g, j));
                assert(split_verdict(g, r));
            }
        }
        assert forall|c: char| p.required.contains(c) implies s.contains(c) by {
            let j = choose|j: int|
                0 <= j < WORD_LEN && r[j] == CharResult::CorrectChar && g[j] == c;
            assert(r[j] == mark_at(s, g, j));
            lemma_unmatched_witness(s, g, c, WORD_LEN as int);
            let i = choose|i: int| 0 <= i < WORD_LEN && s[i] != g[i] && s[i] == c;
            assert(s[i] == c);
        }
    } else {
        let (j, k) = choose|j: int, k: int|
            0 <= j < WORD_LEN && 0 <= k < WORD_LEN && r[j] == CharResult::CorrectChar && r[k]
                == CharResult::Incorrect && g[j] == g[k] && !correct_somewhere(g, r, g[j]);
        let c = g[j];
        assert(r[j] == mark_at(s, g, j));
        lemma_unmatched_witness(s, g, c, WORD_LEN as int);
        let i = choose|i: int| 0 <= i < WORD_LEN && s[i] != g[i] && s[i] == c;
        assert(r[i] == mark_at(s, g, i));
        assert(p.bad.contains(c));
        assert(!admits_at(p, s, i));
    }
}

/// The constraint from a guess's own feedback requires a letter at every
/// position exactly when the guess is the secret.
pub proof fn lemma_perfect_iff_solved(s: Seq<char>, g: Seq<char>)
    requires
        s.len() == WORD_LEN,
        g.len() == WORD_LEN,
    ensures
        is_perfect(pattern_model(g, feedback(s, g))) <==> g == s,
{
    let r = feedback(s, g);
    if is_perfect(pattern_model(g, r)) {
        assert forall|i: int| 0 <= i < WORD_LEN implies g[i] == s[i] by {
            assert(pattern_model(g, r).mask[i] is Some);
            assert(r[i] == mark_at(s, g, i));
        }
        assert(g =~= s);
    }
}

} // verus!
