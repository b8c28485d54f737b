//! The offline pipeline that fills the table of second guesses: every
//! feasible feedback on the opening guess, the best guess after each, and
//! the slowest half of them kept.
use vstd::prelude::*;
use crate::feedback::{mark_count, CharResult, GuessResult, WORD_LEN};
use crate::pattern::{admits, pattern_model, WordPattern};
use crate::precompute::{BestGuess, Precompute, RecordView};
use crate::solve::{all_valid, best_guess, filter_words, filtered, is_next_guess, words_view};

verus! {

/// Number of feedbacks made of absent, present and correct marks.
pub const FEEDBACK_COUNT: usize = 243;

/// The mark that base-three digit `d` stands for.
pub open spec fn digit_mark(d: int) -> CharResult {
    if d == 0 {
        CharResult::Incorrect
    } else if d == 1 {
        CharResult::CorrectChar
    } else {
        CharResult::Correct
    }
}

/// The `k` marks given by the base-three digits of `n`, least significant
/// first.
pub open spec fn digits(n: nat, k: nat) -> Seq<CharResult>
    decreases k,
{
    if k == 0 {
        Seq::empty()
    } else {
        seq![digit_mark((n % 3) as int)] + digits(n / 3, (k - 1) as nat)
    }
}

/// Every feedback made of absent, present and correct marks, in counting
/// order.
pub open spec fn all_feedbacks() -> Seq<Seq<CharResult>> {
    Seq::new(FEEDBACK_COUNT as nat, |n: int| digits(n as nat, WORD_LEN as nat))
}

/// The feedbacks with at most `max_correct` correct marks, in counting order.
pub open spec fn feasible(max_correct: nat) -> Seq<Seq<CharResult>> {
    all_feedbacks().filter(
        |p: Seq<CharResult>| mark_count(p, CharResult::Correct, WORD_LEN as int) <= max_correct,
    )
}

/// The plain values of a sequence of feedbacks.
pub open spec fn results_view(v: Seq<GuessResult>) -> Seq<Seq<CharResult>> {
    v.map_values(|a: GuessResult| a@)
}

proof fn lemma_digits_len(n: nat, k: nat)
    ensures
        digits(n, k).len() == k,
    decreases k,
{
    if k > 0 {
        lemma_digits_len(n / 3, (k - 1) as nat);
    }
}

/// The feedback numbered `n` in counting order.
fn feedback_for_index(n: usize) -> (r: GuessResult)
    ensures
        r@ == digits(n as nat, WORD_LEN as nat),
{
    let ghost all = digits(n as nat, WORD_LEN as nat);
    proof {
        lemma_digits_len(n as nat, WORD_LEN as nat);
    }
    let mut out: GuessResult = [CharResult::Incorrect;WORD_LEN];
    let mut m: usize = n;
    let mut i: usize = 0;
    while i < WORD_LEN
        invariant
            i <= WORD_LEN,
            all == digits(n as nat, WORD_LEN as nat),
            all.len() == WORD_LEN,
            forall|j: int| 0 <= j < i ==> out@[j] == all[j],
            digits(m as nat, (WORD_LEN - i) as nat) == all.subrange(i as int, WORD_LEN as int),
        decreases WORD_LEN - i,
    {
        let d = m % 3;
        out[i] = if d == 0 {
            CharResult::Incorrect
        } else if d == 1 {
            CharResult::CorrectChar
        } else {
            CharResult::Correct
        };
        proof {
            let rest = digits(m as nat, (WORD_LEN - i) as nat);
            assert(rest == seq![digit_mark((m % 3) as int)] + digits(
                (m / 3) as nat,
                (WORD_LEN - i - 1) as nat,
            ));
            assert(rest[0] == all[i as int]);
            lemma_digits_len((m / 3) as nat, (WORD_LEN - i - 1) as nat);
            assert(digits((m / 3) as nat, (WORD_LEN - i - 1) as nat) =~= rest.subrange(
                1,
                rest.len() as int,
            ));
            assert(digits((m / 3) as nat, (WORD_LEN - i - 1) as nat) =~= all.subrange(
                i + 1,
                WORD_LEN as int,
            ));
        }
        m = m / 3;
        i += 1;
    }
    assert(out@ =~= all);
    out
}

/// Number of correct marks in a feedback.
pub fn count_correct(r: &GuessResult) -> (n: usize)
    ensures
        n == mark_count(r@, CharResult::Correct, WORD_LEN as int),
{
    let mut n: usize = 0;
    let mut i: usize = 0;
    while i < WORD_LEN
        invariant
            i <= WORD_LEN,
            n <= i,
            n == mark_count(r@, CharResult::Correct, i as int),
        decreases WORD_LEN - i,
    {
        if r[i] == CharResult::Correct {
            n += 1;
        }
        i += 1;
    }
    n
}

/// Every feedback made of absent, present and correct marks that has at
/// most `max_correct` correct marks, in counting order.
pub fn feasible_feedbacks(max_correct: usize) -> (r: Vec<GuessResult>)
    ensures
        results_view(r@) == feasible(max_correct as nat),
{
    let ghost f = |p: Seq<CharResult>|
        mark_count(p, CharResult::Correct, WORD_LEN as int) <= max_correct as nat;
    let mut out: Vec<GuessResult> = Vec::new();
    let mut n: usize = 0;
    while n < FEEDBACK_COUNT
        invariant
            n <= FEEDBACK_COUNT,
            f == (|p: Seq<CharResult>|
                mark_count(p, CharResult::Correct, WORD_LEN as int) <= max_correct as nat),
            results_view(out@) == all_feedbacks().take(n as int).filter(f),
        decreases FEEDBACK_COUNT - n,
    {
        let p = feedback_for_index(n);
        let ghost before = out@;
        proof {
            assert(all_feedbacks().take(n + 1) == all_feedbacks().take(n as int).push(p@));
            all_feedbacks().take(n as int).lemma_filter_push(p@, f);
        }
        if count_correct(&p) <= max_correct {
            out.push(p);
            assert(results_view(out@) =~= results_view(before).push(p@));
        }
        n += 1;
    }
    assert(all_feedbacks().take(FEEDBACK_COUNT as int) == all_feedbacks());
    out
}

/// Whether `p` is a whole feedback made of absent, present and correct marks.
pub open spec fn three_marks(p: Seq<CharResult>) -> bool {
    p.len() == WORD_LEN && forall|i: int| 0 <= i < p.len() ==> p[i] != CharResult::Unknown
}

/// The base-three digit that stands for mark `m`.
pub open spec fn mark_digit(m: CharResult) -> nat {
    match m {
        CharResult::Incorrect => 0,
        CharResult::CorrectChar => 1,
        _ => 2,
    }
}

/// The number of `p` in counting order: its marks as base-three digits,
/// least significant first.
pub open spec fn index_of(p: Seq<CharResult>) -> nat
    decreases p.len(),
{
    if p.len() == 0 {
        0
    } else {
        mark_digit(p[0]) + 3 * index_of(p.drop_first())
    }
}

/// Three to the power `k`.
pub open spec fn pow3(k: nat) -> nat
    decreases k,
{
    if k == 0 {
        1
    } else {
        3 * pow3((k - 1) as nat)
    }
}

proof fn lemma_index_of(p: Seq<CharResult>)
    requires
        forall|i: int| 0 <= i < p.len() ==> p[i] != CharResult::Unknown,
    ensures
        digits(index_of(p), p.len()) == p,
        index_of(p) < pow3(p.len()),
    decreases p.len(),
{
    if p.len() > 0 {
        let rest = p.drop_first();
        assert forall|i: int| 0 <= i < rest.len() implies rest[i] != CharResult::Unknown by {
            assert(rest[i] == p[i + 1]);
        }
        lemma_index_of(rest);
        let x = index_of(rest);
        let d = mark_digit(p[0]);
        assert((d + 3 * x) % 3 == d && (d + 3 * x) / 3 == x) by (nonlinear_arith)
            requires
                d < 3,
        ;
        assert(digit_mark(d as int) == p[0]);
        assert(digits(index_of(p), p.len()) =~= seq![p[0]] + rest);
        assert(seq![p[0]] + rest =~= p);
    }
}

proof fn lemma_index_of_digits(n: nat, k: nat)
    requires
        n < pow3(k),
    ensures
        index_of(digits(n, k)) == n,
    decreases k,
{
    if k > 0 {
        let p3 = pow3((k - 1) as nat);
        assert(n / 3 < p3 && n == n % 3 + 3 * (n / 3)) by (nonlinear_arith)
            requires
                n < 3 * p3,
        ;
        lemma_index_of_digits(n / 3, (k - 1) as nat);
        let d = digits(n, k);
        assert(d.drop_first() =~= digits(n / 3, (k - 1) as nat));
    }
}

proof fn lemma_pow3_five()
    ensures
        pow3(WORD_LEN as nat) == FEEDBACK_COUNT,
{
    assert(pow3(0) == 1);
    assert(pow3(1) == 3);
    assert(pow3(2) == 9);
    assert(pow3(3) == 27);
    assert(pow3(4) == 81);
    assert(pow3(5) == 243);
}

proof fn lemma_filter_no_duplicates<A>(s: Seq<A>, f: spec_fn(A) -> bool)
    requires
        s.no_duplicates(),
    ensures
        s.filter(f).no_duplicates(),
    decreases s.len(),
{
    reveal(Seq::filter);
    if s.len() > 0 {
        let prev = s.drop_last();
        assert(prev.no_duplicates()) by {
            assert forall|i: int, j: int|
                0 <= i < prev.len() && 0 <= j < prev.len() && i != j implies prev[i] != prev[j] by {
                assert(prev[i] == s[i] && prev[j] == s[j]);
            }
        }
        lemma_filter_no_duplicates(prev, f);
        if f(s.last()) {
            let sub = prev.filter(f);
            if sub.contains(s.last()) {
                prev.lemma_filter_contains_rev(f, s.last());
                let i = choose|i: int| 0 <= i < prev.len() && prev[i] == s.last();
                assert(s[i] == s[s.len() - 1]);
            }
            let pushed = sub.push(s.last());
            assert forall|i: int, j: int|
                0 <= i < pushed.len() && 0 <= j < pushed.len() && i != j implies pushed[i]
                    != pushed[j] by {
                if i < sub.len() && j < sub.len() {
                } else if i < sub.len() {
                    assert(sub.contains(sub[i]));
                } else {
                    assert(sub.contains(sub[j]));
                }
            }
        }
    }
}

/// No feedback is listed twice among the feasible ones.
pub proof fn lemma_feasible_distinct(max_correct: nat)
    ensures
        feasible(max_correct).no_duplicates(),
{
    lemma_pow3_five();
    let all = all_feedbacks();
    assert forall|i: int, j: int| 0 <= i < all.len() && 0 <= j < all.len() && i != j implies all[i] != all[j] by {
        lemma_index_of_digits(i as nat, WORD_LEN as nat);
        lemma_index_of_digits(j as nat, WORD_LEN as nat);
    }
    lemma_filter_no_duplicates(
        all,
        |p: Seq<CharResult>| mark_count(p, CharResult::Correct, WORD_LEN as int) <= max_correct,
    );
}

/// Every feedback made of absent, present and correct marks is listed in
/// counting order, and every one with at most `max_correct` correct marks is
/// among the feasible ones.
pub proof fn lemma_every_feedback_listed(p: Seq<CharResult>, max_correct: nat)
    requires
        three_marks(p),
    ensures
        all_feedbacks().contains(p),
        mark_count(p, CharResult::Correct, WORD_LEN as int) <= max_correct ==> feasible(
            max_correct,
        ).contains(p),
{
    lemma_index_of(p);
    lemma_pow3_five();
    let n = index_of(p) as int;
    assert(all_feedbacks()[n] == p);
    if mark_count(p, CharResult::Correct, WORD_LEN as int) <= max_correct {
        all_feedbacks().lemma_filter_contains(
            |q: Seq<CharResult>| mark_count(q, CharResult::Correct, WORD_LEN as int) <= max_correct,
            n,
        );
    }
}

/// Whether the pair `a` comes no later than `b` in lexicographic order.
pub open spec fn pair_le(a: (u128, usize), b: (u128, usize)) -> bool {
    a.0 < b.0 || (a.0 == b.0 && a.1 <= b.1)
}

/// Whether run `i` ranks before run `j` when runs are ordered slowest
/// first, ties going to the earlier run.
pub open spec fn slower(times: Seq<u128>, i: int, j: int) -> bool {
    times[i] > times[j] || (times[i] == times[j] && i < j)
}

/// Relies on `slice::sort_unstable`: afterwards the pairs are the same pairs
/// as before, in ascending order (tuples compare lexicographically).
#[verifier::external_body]
fn sort_pairs(v: &mut Vec<(u128, usize)>)
    ensures
        final(v)@.to_multiset() == old(v)@.to_multiset(),
        forall|a: int, b: int|
            0 <= a < b < final(v)@.len() ==> pair_le(#[trigger] final(v)@[a], #[trigger] final(v)@[b]),
{
    v.sort_unstable();
}

/// The indices of the slowest half of the runs whose times are `times`
/// (rounded down), slowest first, ties going to the earlier run.
pub fn keep_slowest(times: &Vec<u128>) -> (r: Vec<usize>)
    ensures
        r@.len() == times@.len() / 2,
        forall|a: int| 0 <= a < r@.len() ==> #[trigger] r@[a] < times@.len(),
        forall|a: int, b: int|
            0 <= a < b < r@.len() ==> slower(times@, #[trigger] r@[a] as int, #[trigger] r@[b] as int),
        forall|a: int, j: int|
            #![trigger r@[a], times@[j]]
            0 <= a < r@.len() && 0 <= j < times@.len() && !r@.contains(j as usize) ==> slower(
                times@,
                r@[a] as int,
                j,
            ),
{
    let n = times.len();
    let mut keys: Vec<(u128, usize)> = Vec::new();
    let mut i: usize = 0;
    while i < n
        invariant
            i <= n,
            n == times@.len(),
            keys@.len() == i,
            forall|j: int| 0 <= j < i ==> #[trigger] keys@[j] == ((u128::MAX - times@[j]) as u128, j as usize),
        decreases n - i,
    {
        keys.push((u128::MAX - times[i], i));
        i += 1;
    }
    let ghost k = keys@;
    sort_pairs(&mut keys);
    let ghost v = keys@;
    proof {
        k.to_multiset_ensures();
        v.to_multiset_ensures();
        assert(k.no_duplicates());
        k.lemma_multiset_has_no_duplicates();
        v.lemma_multiset_has_no_duplicates_conv();
        assert forall|a: int| 0 <= a < v.len() implies (#[trigger] v[a]).1 < n && k[v[a].1 as int]
            == v[a] by {
            assert(v.contains(v[a]));
            assert(v.to_multiset().count(v[a]) > 0);
            assert(k.to_multiset().count(v[a]) > 0);
            assert(k.contains(v[a]));
        }
        assert forall|j: int| 0 <= j < n implies exists|q: int|
            0 <= q < v.len() && #[trigger] v[q] == #[trigger] k[j] by {
            assert(k.contains(k[j]));
            assert(k.to_multiset().count(k[j]) > 0);
            assert(v.to_multiset().count(k[j]) > 0);
            assert(v.contains(k[j]));
        }
    }
    let h = n / 2;
    let mut out: Vec<usize> = Vec::new();
    let mut a: usize = 0;
    while a < h
        invariant
            a <= h,
            h == n / 2,
            keys@ == v,
            v.len() == n,
            out@.len() == a,
            forall|b: int| 0 <= b < a ==> #[trigger] out@[b] == v[b].1,
        decreases h - a,
    {
        out.push(keys[a].1);
        a += 1;
    }
    proof {
        assert forall|a: int, b: int| 0 <= a < b < out@.len() implies slower(
            times@,
            #[trigger] out@[a] as int,
            #[trigger] out@[b] as int,
        ) by {
            assert(pair_le(v[a], v[b]));
            assert(v[a] != v[b]);
            assert(k[v[a].1 as int] == v[a]);
            assert(k[v[b].1 as int] == v[b]);
        }
        assert forall|a: int, j: int|
            #![trigger out@[a], times@[j]]
            0 <= a < out@.len() && 0 <= j < n && !out@.contains(j as usize) implies slower(
            times@,
            out@[a] as int,
            j,
        ) by {
            let q = choose|q: int| 0 <= q < v.len() && #[trigger] v[q] == k[j];
            if q < h {
                assert(out@[q] == j as usize);
                assert(out@.contains(j as usize));
            }
            assert(pair_le(v[a], v[q]));
            assert(v[a] != v[q]);
            assert(k[v[a].1 as int] == v[a]);
        }
    }
    out
}

#[verifier::external_type_specification]
#[verifier::external_body]
pub struct ExInstant(std::time::Instant);

/// Relies on `Instant::now`: a reading of the monotonic clock, of which
/// nothing is promised.
pub assume_specification[ std::time::Instant::now ]() -> std::time::Instant;

/// Relies on `Instant::elapsed`: the time since a reading, of which nothing
/// is promised.
pub assume_specification[ std::time::Instant::elapsed ](i: &std::time::Instant) -> std::time::Duration;

/// Relies on `Duration::as_nanos`: the whole nanoseconds of a duration, of
/// which nothing is promised here.
pub assume_specification[ std::time::Duration::as_nanos ](d: &std::time::Duration) -> u128;

/// The feedbacks on `opening`, with at most `max_correct` correct marks,
/// after which some answer of `answers` is left, in counting order.
pub open spec fn productive(opening: Seq<char>, answers: Seq<&str>, max_correct: nat) -> Seq<
    Seq<CharResult>,
> {
    feasible(max_correct).filter(
        |fb: Seq<CharResult>| filtered(pattern_model(opening, fb), answers).len() > 0,
    )
}

/// Whether `rec` is what the pipeline computes for one feedback on `opening`:
/// a productive feedback and the guess the selector picks from `guesses`
/// for the answers it leaves.
pub open spec fn record_computed(
    opening: Seq<char>,
    guesses: Seq<&str>,
    answers: Seq<&str>,
    max_correct: nat,
    rec: RecordView,
) -> bool {
    &&& rec.0 == opening
    &&& productive(opening, answers, max_correct).contains(rec.1)
    &&& is_next_guess(
        words_view(guesses),
        words_view(filtered(pattern_model(opening, rec.1), answers)),
        rec.2,
    )
}

/// The table of second guesses after `opening`: for every feedback with at
/// most `max_correct` correct marks that leaves some answer, the best next
/// guess from `guesses` for the answers left; of those, the half (rounded
/// down) that took longest to compute is kept, slowest first.
pub fn precompute<'a>(
    opening: &str,
    guesses: &[&'a str],
    answers: &[&'a str],
    max_correct: usize,
) -> (r: Precompute)
    requires
        opening@.len() == WORD_LEN,
        all_valid(guesses@),
        all_valid(answers@),
        answers@.len() + guesses@.len() <= usize::MAX,
    ensures
        r@.len() == productive(opening@, answers@, max_correct as nat).len() / 2,
        forall|k: int|
            0 <= k < r@.len() ==> record_computed(
                opening@,
                guesses@,
                answers@,
                max_correct as nat,
                #[trigger] r@[k],
            ),
        forall|a: int, b: int| 0 <= a < b < r@.len() ==> (#[trigger] r@[a]).1 != (#[trigger] r@[b]).1,
{
    let ghost f = |fb: Seq<CharResult>| filtered(pattern_model(opening@, fb), answers@).len() > 0;
    let fbs = feasible_feedbacks(max_correct);
    let mut found_fb: Vec<GuessResult> = Vec::new();
    let mut found_best: Vec<&'a str> = Vec::new();
    let mut times: Vec<u128> = Vec::new();
    let mut i: usize = 0;
    while i < fbs.len()
        invariant
            i <= fbs@.len(),
            opening@.len() == WORD_LEN,
            all_valid(guesses@),
            all_valid(answers@),
            answers@.len() + guesses@.len() <= usize::MAX,
            f == (|fb: Seq<CharResult>| filtered(pattern_model(opening@, fb), answers@).len() > 0),
            results_view(fbs@) == feasible(max_correct as nat),
            results_view(found_fb@) == results_view(fbs@).take(i as int).filter(f),
            found_best@.len() == found_fb@.len(),
            times@.len() == found_fb@.len(),
            forall|j: int|
                0 <= j < found_fb@.len() ==> is_next_guess(
                    words_view(guesses@),
                    words_view(filtered(pattern_model(opening@, (#[trigger] found_fb@[j])@), answers@)),
                    found_best@[j]@,
                ),
        decreases fbs@.len() - i,
    {
        let fb = fbs[i];
        let ghost before = found_fb@;
        proof {
            assert(results_view(fbs@)[i as int] == fb@);
            assert(results_view(fbs@).take(i + 1) == results_view(fbs@).take(i as int).push(fb@));
            results_view(fbs@).take(i as int).lemma_filter_push(fb@, f);
        }
        let start = std::time::Instant::now();
        let pattern = WordPattern::new(opening, fb);
        let mut pool = vstd::slice::slice_to_vec(answers);
        filter_words(&pattern, &mut pool);
        proof {
            answers@.lemma_filter_len(|w: &str| admits(pattern@, w@));
            assert forall|j: int| 0 <= j < pool@.len() implies (#[trigger] pool@[j])@.len()
                == WORD_LEN by {
                answers@.lemma_filter_contains_rev(|w: &str| admits(pattern@, w@), pool@[j]);
            }
        }
        match best_guess(guesses, pool.as_slice()) {
            Some(b) => {
                let elapsed = start.elapsed();
                found_fb.push(fb);
                found_best.push(b);
                times.push(elapsed.as_nanos());
                assert(results_view(found_fb@) =~= results_view(before).push(fb@));
            },
            None => {},
        }
        i += 1;
    }
    assert(results_view(fbs@).take(fbs@.len() as int) == results_view(fbs@));
    let ghost found = results_view(found_fb@);
    assert(found == productive(opening@, answers@, max_correct as nat));
    proof {
        lemma_feasible_distinct(max_correct as nat);
        lemma_filter_no_duplicates(feasible(max_correct as nat), f);
    }
    let keep = keep_slowest(&times);
    assert forall|x: int, y: int| 0 <= x < y < keep@.len() implies #[trigger] keep@[x] != #[trigger] keep@[y] by {
        assert(slower(times@, keep@[x] as int, keep@[y] as int));
    }
    let mut table = Precompute::new();
    let mut a: usize = 0;
    while a < keep.len()
        invariant
            a <= keep@.len(),
            opening@.len() == WORD_LEN,
            found == results_view(found_fb@),
            found == productive(opening@, answers@, max_correct as nat),
            found_best@.len() == found_fb@.len(),
            times@.len() == found_fb@.len(),
            forall|b: int| 0 <= b < keep@.len() ==> #[trigger] keep@[b] < times@.len(),
            forall|j: int|
                0 <= j < found_fb@.len() ==> is_next_guess(
                    words_view(guesses@),
                    words_view(filtered(pattern_model(opening@, (#[trigger] found_fb@[j])@), answers@)),
                    found_best@[j]@,
                ),
            table@.len() == a,
            found.no_duplicates(),
            forall|x: int, y: int| 0 <= x < y < keep@.len() ==> #[trigger] keep@[x] != #[trigger] keep@[y],
            forall|k: int| 0 <= k < a ==> (#[trigger] table@[k]).1 == found[keep@[k] as int],
            forall|k: int|
                0 <= k < a ==> record_computed(
                    opening@,
                    guesses@,
                    answers@,
                    max_correct as nat,
                    #[trigger] table@[k],
                ),
        decreases keep@.len() - a,
    {
        let idx = keep[a];
        let rec = BestGuess {
            init_guess: opening.to_owned(),
            result: found_fb[idx],
            best_guess: found_best[idx].to_owned(),
        };
        proof {
            assert(found[idx as int] == found_fb@[idx as int]@);
            assert(found.contains(rec@.1));
        }
        let ghost before = table@;
        table.add(rec);
        proof {
            assert forall|k: int| 0 <= k < a + 1 implies record_computed(
                opening@,
                guesses@,
                answers@,
                max_correct as nat,
                #[trigger] table@[k],
            ) by {
                if k < a {
                    assert(table@[k] == before[k]);
                }
            }
            assert forall|k: int| 0 <= k < a + 1 implies (#[trigger] table@[k]).1
                == found[keep@[k] as int] by {
                if k < a {
                    assert(table@[k] == before[k]);
                }
            }
        }
        a += 1;
    }
    assert forall|x: int, y: int| 0 <= x < y < table@.len() implies (#[trigger] table@[x]).1
        != (#[trigger] table@[y]).1 by {
        assert(keep@[x] != keep@[y]);
        assert(table@[x].1 == found[keep@[x] as int]);
        assert(table@[y].1 == found[keep@[y] as int]);
    }
    table
}

} // verus!
