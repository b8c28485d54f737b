//! Candidate filtering and minimax guess selection.
use vstd::prelude::*;
use rayon::iter::{IndexedParallelIterator, IntoParallelRefIterator, ParallelIterator};
use crate::feedback::{feedback, Wordle, WORD_LEN};
use crate::pattern::{admits, pattern_model, PatternModel, WordPattern};

verus! {

/// The letters of each word of a pool.
pub open spec fn words_view(ws: Seq<&str>) -> Seq<Seq<char>> {
    ws.map_values(|w: &str| w@)
}

/// Whether every word of a pool has `WORD_LEN` letters.
pub open spec fn all_valid(ws: Seq<&str>) -> bool {
    forall|i: int| 0 <= i < ws.len() ==> (#[trigger] ws[i])@.len() == WORD_LEN
}

/// The words of `ws` that constraint `p` admits, in their order.
pub open spec fn filtered<'a>(p: PatternModel, ws: Seq<&'a str>) -> Seq<&'a str> {
    ws.filter(|w: &'a str| admits(p, w@))
}

/// Number of words of `ws` that constraint `p` admits.
pub open spec fn admitted_count(p: PatternModel, ws: Seq<Seq<char>>) -> nat
    decreases ws.len(),
{
    if ws.len() == 0 {
        0
    } else {
        admitted_count(p, ws.drop_last()) + if admits(p, ws.last()) {
            1nat
        } else {
            0nat
        }
    }
}

/// Number of words of `ws` left after guessing `g` when the secret is `a`.
pub open spec fn survivors(g: Seq<char>, a: Seq<char>, ws: Seq<Seq<char>>) -> nat {
    admitted_count(pattern_model(g, feedback(a, g)), ws)
}

/// The most words of `ws` that guessing `g` can leave, over every secret of
/// `secrets`.
pub open spec fn worst_case(g: Seq<char>, secrets: Seq<Seq<char>>, ws: Seq<Seq<char>>) -> nat
    decreases secrets.len(),
{
    if secrets.len() == 0 {
        0
    } else {
        let rest = worst_case(g, secrets.drop_last(), ws);
        let last = survivors(g, secrets.last(), ws);
        if rest < last {
            last
        } else {
            rest
        }
    }
}

/// Whether the candidate at index `i1` with worst case `s1` ranks before the
/// one at `i2` with worst case `s2`: a worst case of zero ranks after every
/// positive one, then smaller worst cases first, then smaller indices.
pub open spec fn precedes(s1: nat, i1: int, s2: nat, i2: int) -> bool {
    if (s1 == 0) != (s2 == 0) {
        s2 == 0
    } else if s1 != s2 {
        s1 < s2
    } else {
        i1 < i2
    }
}

/// Whether index `k` holds the minimax guess among `cands` for the answer pool
/// `answers`.
pub open spec fn is_best(cands: Seq<Seq<char>>, answers: Seq<Seq<char>>, k: int) -> bool {
    &&& 0 <= k < cands.len()
    &&& forall|j: int|
        0 <= j < cands.len() && j != k ==> precedes(
            worst_case(cands[k], answers, answers),
            k,
            worst_case(#[trigger] cands[j], answers, answers),
            j,
        )
}

/// Whether `w` is what the selector picks from guess pool `gs` for answer
/// pool `ans`: the only answer when one is left, otherwise the minimax
/// candidate of `ans` followed by `gs`.
pub open spec fn is_next_guess(gs: Seq<Seq<char>>, ans: Seq<Seq<char>>, w: Seq<char>) -> bool {
    ||| ans.len() == 1 && w == ans[0]
    ||| ans.len() >= 2 && exists|k: int| is_best(ans + gs, ans, k) && w == (ans + gs)[k]
}

/// Removes from `words` every word that `pattern` does not admit, keeping
/// the order of the rest.
pub fn filter_words(pattern: &WordPattern, words: &mut Vec<&str>)
    requires
        all_valid(old(words)@),
    ensures
        final(words)@ == filtered(pattern@, old(words)@),
{
    let ghost f = |w: &str| admits(pattern@, w@);
    let mut kept: Vec<&str> = Vec::new();
    let mut i: usize = 0;
    while i < words.len()
        invariant
            i <= words@.len(),
            all_valid(words@),
            f == (|w: &str| admits(pattern@, w@)),
            kept@ == words@.take(i as int).filter(f),
        decreases words@.len() - i,
    {
        let w = words[i];
        let keep = pattern.matches(w);
        proof {
            assert(words@.take(i + 1) == words@.take(i as int).push(w));
            words@.take(i as int).lemma_filter_push(w, f);
        }
        if keep {
            kept.push(w);
        }
        i += 1;
    }
    assert(words@.take(words@.len() as int) == words@);
    *words = kept;
}

/// A game seen from the solver's side: how many answers each guess leaves.
#[derive(Clone, Copy)]
pub struct Solver<'a> {
    wordle: Wordle<'a>,
}

impl<'a> View for Solver<'a> {
    type V = Seq<char>;

    closed spec fn view(&self) -> Seq<char> {
        self.wordle@
    }
}

impl<'a> Solver<'a> {
    /// A solver for the game `wordle`.
    pub fn new(wordle: Wordle<'a>) -> (r: Solver<'a>)
        ensures
            r@ == wordle@,
    {
        Solver { wordle }
    }

    /// How many of `words` remain possible after guessing `word` in this game.
    pub fn num_filtered_words(&self, word: &str, words: &[&'a str]) -> (r: usize)
        requires
            self@.len() == WORD_LEN,
            word@.len() == WORD_LEN,
            all_valid(words@),
        ensures
            r == survivors(word@, self@, words_view(words@)),
    {
        let filter = WordPattern::new(word, self.wordle.check(word));
        let ghost p = filter@;
        let mut count: usize = 0;
        let mut i: usize = 0;
        while i < words.len()
            invariant
                i <= words@.len(),
                count <= i,
                all_valid(words@),
                p == filter@,
                count == admitted_count(p, words_view(words@).take(i as int)),
            decreases words@.len() - i,
        {
            proof {
                assert(words_view(words@).take(i + 1).drop_last() == words_view(words@).take(
                    i as int,
                ));
            }
            if filter.matches(words[i]) {
                count += 1;
            }
            i += 1;
        }
        assert(words_view(words@).take(words@.len() as int) == words_view(words@));
        count
    }
}

/// The most answers that guessing `guess` can leave, over every answer of
/// `answers` taken as the secret.
pub fn worst_score(guess: &str, answers: &[&str]) -> (r: usize)
    requires
        guess@.len() == WORD_LEN,
        all_valid(answers@),
    ensures
        r == worst_case(guess@, words_view(answers@), words_view(answers@)),
{
    let ghost ws = words_view(answers@);
    let mut worst: usize = 0;
    let mut i: usize = 0;
    while i < answers.len()
        invariant
            i <= answers@.len(),
            ws == words_view(answers@),
            guess@.len() == WORD_LEN,
            all_valid(answers@),
            worst == worst_case(guess@, ws.take(i as int), ws),
        decreases answers@.len() - i,
    {
        let n = Solver::new(Wordle::new(answers[i])).num_filtered_words(guess, answers);
        proof {
            assert(ws.take(i + 1).drop_last() == ws.take(i as int));
        }
        if n > worst {
            worst = n;
        }
        i += 1;
    }
    assert(ws.take(answers@.len() as int) == ws);
    worst
}

/// Relies on rayon's `collect_into_vec` on an indexed parallel iterator,
/// which stores the closure's result for each candidate at that candidate's
/// index.
#[verifier::external_body]
fn parallel_worst_scores(cands: &[&str], answers: &[&str]) -> (r: Vec<usize>)
    requires
        all_valid(cands@),
        all_valid(answers@),
    ensures
        r@.len() == cands@.len(),
        forall|i: int|
            0 <= i < cands@.len() ==> r@[i] == worst_case(
                (#[trigger] cands@[i])@,
                words_view(answers@),
                words_view(answers@),
            ),
{
    let mut out = Vec::new();
    cands.par_iter().map(|g| worst_score(g, answers)).collect_into_vec(&mut out);
    out
}

/// Whether worst case `s1` at index `i1` ranks before `s2` at index `i2`.
fn ranks_before(s1: usize, i1: usize, s2: usize, i2: usize) -> (r: bool)
    ensures
        r == precedes(s1 as nat, i1 as int, s2 as nat, i2 as int),
{
    if (s1 == 0) != (s2 == 0) {
        s2 == 0
    } else if s1 != s2 {
        s1 < s2
    } else {
        i1 < i2
    }
}

/// The next guess: `None` for an empty answer pool, the only answer when one
/// is left, and otherwise the candidate of `answer_pool` followed by
/// `guess_pool` that leaves the fewest answers in the worst case, a worst
/// case of zero counting as worse than any other, ties going to the earlier
/// candidate.
pub fn best_guess<'a>(guess_pool: &[&'a str], answer_pool: &[&'a str]) -> (r: Option<&'a str>)
    requires
        all_valid(guess_pool@),
        all_valid(answer_pool@),
        answer_pool@.len() + guess_pool@.len() <= usize::MAX,
    ensures
        answer_pool@.len() == 0 ==> r is None,
        answer_pool@.len() == 1 ==> r == Some(answer_pool@[0]),
        answer_pool@.len() >= 2 ==> exists|k: int|
            is_best(words_view(answer_pool@ + guess_pool@), words_view(answer_pool@), k) && r
                == Some((answer_pool@ + guess_pool@)[k]),
        answer_pool@.len() >= 1 ==> (r matches Some(w) && is_next_guess(
            words_view(guess_pool@),
            words_view(answer_pool@),
            w@,
        )),
{
    if answer_pool.len() == 0 {
        return None;
    }
    if answer_pool.len() == 1 {
        return Some(answer_pool[0]);
    }
    let ghost all = answer_pool@ + guess_pool@;
    let mut cands: Vec<&'a str> = Vec::new();
    let mut i: usize = 0;
    while i < answer_pool.len()
        invariant
            i <= answer_pool@.len(),
            cands@ == answer_pool@.take(i as int),
        decreases answer_pool@.len() - i,
    {
        cands.push(answer_pool[i]);
        i += 1;
        assert(cands@ == answer_pool@.take(i as int));
    }
    assert(answer_pool@.take(answer_pool@.len() as int) == answer_pool@);
    i = 0;
    while i < guess_pool.len()
        invariant
            i <= guess_pool@.len(),
            cands@ == answer_pool@ + guess_pool@.take(i as int),
        decreases guess_pool@.len() - i,
    {
        cands.push(guess_pool[i]);
        i += 1;
        assert(cands@ == answer_pool@ + guess_pool@.take(i as int));
    }
    assert(guess_pool@.take(guess_pool@.len() as int) == guess_pool@);
    assert(cands@ == all);
    assert(all_valid(all));
    let ghost cv = words_view(all);
    let ghost av = words_view(answer_pool@);
    let scores = parallel_worst_scores(cands.as_slice(), answer_pool);
    let mut best: usize = 0;
    let mut k: usize = 1;
    while k < cands.len()
        invariant
            1 <= k <= cands@.len(),
            best < k,
            cands@ == all,
            cv == words_view(all),
            scores@.len() == cands@.len(),
            forall|j: int|
                0 <= j < cands@.len() ==> scores@[j] == worst_case(
                    #[trigger] cv[j],
                    av,
                    av,
                ),
            forall|j: int|
                0 <= j < k && j != best ==> precedes(
                    scores@[best as int] as nat,
                    best as int,
                    #[trigger] scores@[j] as nat,
                    j,
                ),
        decreases cands@.len() - k,
    {
        if ranks_before(scores[k], k, scores[best], best) {
            best = k;
        }
        k += 1;
    }
    proof {
        assert forall|j: int| 0 <= j < cv.len() && j != best implies precedes(
            worst_case(cv[best as int], av, av),
            best as int,
            worst_case(#[trigger] cv[j], av, av),
            j,
        ) by {
            assert(scores@[j] == worst_case(cv[j], av, av));
        }
        assert(is_best(cv, av, best as int));
        assert(cv =~= av + words_view(guess_pool@));
    }
    Some(cands[best])
}

/// The opening guess.
pub fn first_guess() -> (r: &'static str)
    ensures
        r@ == seq!['t', 'r', 'a', 'c', 'e'],
{
    proof {
        reveal_strlit("trace");
    }
    "trace"
}

/// Two passes of the same filter keep the same words as one.
pub proof fn lemma_filter_idempotent(p: PatternModel, ws: Seq<&str>)
    ensures
        filtered(p, filtered(p, ws)) == filtered(p, ws),
{
    let f = |w: &str| admits(p, w@);
    let once = ws.filter(f);
    assert forall|i: int| 0 <= i < once.len() implies f(#[trigger] once[i]) by {
        ws.lemma_filter_pred(f, i);
    }
    lemma_filter_keeps_all(once, f);
}

proof fn lemma_filter_keeps_all<A>(s: Seq<A>, f: spec_fn(A) -> bool)
    requires
        forall|i: int| 0 <= i < s.len() ==> f(#[trigger] s[i]),
    ensures
        s.filter(f) == s,
    decreases s.len(),
{
    reveal(Seq::filter);
    if s.len() > 0 {
        lemma_filter_keeps_all(s.drop_last(), f);
        assert(s.drop_last().push(s.last()) == s);
    }
}

/// The minimax guess never has a worst case of zero while some candidate
/// has a positive one.
pub proof fn lemma_best_avoids_dead_ends(
    cands: Seq<Seq<char>>,
    answers: Seq<Seq<char>>,
    k: int,
    j: int,
)
    requires
        is_best(cands, answers, k),
        0 <= j < cands.len(),
        worst_case(cands[j], answers, answers) > 0,
    ensures
        worst_case(cands[k], answers, answers) > 0,
{
    if j != k {
        assert(precedes(
            worst_case(cands[k], answers, answers),
            k,
            worst_case(cands[j], answers, answers),
            j,
        ));
    }
}

} // verus!
