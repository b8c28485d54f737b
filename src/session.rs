//! The decisions of the solve loop, one round at a time: the caller asks the
//! feedback source about the current guess and hands the answer to `step`.
use vstd::prelude::*;
use crate::feedback::WORD_LEN;
use crate::pattern::{is_perfect, WordPattern};
use crate::precompute::{table_lookup, table_ok, Precompute, RecordView};
use crate::solve::{all_valid, best_guess, filter_words, filtered, is_next_guess, words_view};

verus! {

/// What the feedback source answers about a guess: a control signal to relay,
/// or the constraint from the guess's feedback.
pub enum PollResult<Control> {
    Control(Control),
    Score(WordPattern),
}

/// How a solve session ends.
pub enum SolverResult<Control> {
    /// The feedback source's control signal, relayed unchanged.
    Control(Control),
    /// The guess `word` was marked correct everywhere in round `guess_count`.
    Answer { word: String, guess_count: u32 },
    /// No answer fits the feedback received.
    NoAnswer,
}

/// A solve session between two rounds.
pub struct Session<'a> {
    guess: String,
    answers: Vec<&'a str>,
    guesses: Vec<&'a str>,
    table: Precompute,
    guess_count: u32,
}

impl<'a> Session<'a> {
    /// The guess to ask about next.
    pub closed spec fn guess_view(&self) -> Seq<char> {
        self.guess@
    }

    /// The answers still possible.
    pub closed spec fn answers_view(&self) -> Seq<&'a str> {
        self.answers@
    }

    /// The words that may be guessed.
    pub closed spec fn guesses_view(&self) -> Seq<&'a str> {
        self.guesses@
    }

    /// The table of second guesses.
    pub closed spec fn table_view(&self) -> Seq<RecordView> {
        self.table@
    }

    /// Rounds played so far.
    pub closed spec fn rounds(&self) -> nat {
        self.guess_count as nat
    }

    /// Every word has `WORD_LEN` letters, and the pools fit together in memory.
    pub open spec fn wf(&self) -> bool {
        &&& self.guess_view().len() == WORD_LEN
        &&& all_valid(self.answers_view())
        &&& all_valid(self.guesses_view())
        &&& table_ok(self.table_view())
        &&& self.answers_view().len() + self.guesses_view().len() <= usize::MAX
    }

    /// A session that opens with `opening`.
    pub fn new(opening: &str, answers: Vec<&'a str>, guesses: Vec<&'a str>, table: Precompute) -> (r:
        Session<'a>)
        requires
            opening@.len() == WORD_LEN,
            all_valid(answers@),
            all_valid(guesses@),
            table_ok(table@),
            answers@.len() + guesses@.len() <= usize::MAX,
        ensures
            r.wf(),
            r.guess_view() == opening@,
            r.answers_view() == answers@,
            r.guesses_view() == guesses@,
            r.table_view() == table@,
            r.rounds() == 0,
    {
        Session { guess: opening.to_owned(), answers, guesses, table, guess_count: 0 }
    }

    /// The guess to ask the feedback source about.
    pub fn current_guess(&self) -> (r: &str)
        ensures
            r@ == self.guess_view(),
    {
        self.guess.as_str()
    }

    /// Rounds played so far.
    pub fn guess_count(&self) -> (r: u32)
        ensures
            r == self.rounds(),
    {
        self.guess_count
    }

    /// Number of answers still possible.
    pub fn num_answers(&self) -> (r: usize)
        ensures
            r == self.answers_view().len(),
    {
        self.answers.len()
    }

    /// One round: counts it, then acts on what the feedback source said about
    /// the current guess. A control signal ends the session and is relayed;
    /// a perfect constraint ends it solved. Otherwise the answers are
    /// filtered, and the next guess comes from the table for this guess and
    /// feedback, or else from the selector; `None` means the session goes on
    /// with that guess, and a selector with no answer left ends it.
    pub fn step<Control>(&mut self, poll: PollResult<Control>) -> (r: Option<SolverResult<Control>>)
        requires
            old(self).wf(),
            old(self).rounds() < u32::MAX,
        ensures
            final(self).wf(),
            final(self).rounds() == old(self).rounds() + 1,
            final(self).guesses_view() == old(self).guesses_view(),
            final(self).table_view() == old(self).table_view(),
            match poll {
                PollResult::Control(c) => r == Some(SolverResult::Control(c)),
                PollResult::Score(p) => if is_perfect(p@) {
                    r matches Some(SolverResult::Answer { word, guess_count }) && word@
                        == old(self).guess_view() && guess_count == old(self).rounds() + 1
                } else {
                    &&& final(self).answers_view() == filtered(p@, old(self).answers_view())
                    &&& match table_lookup(old(self).table_view(), old(self).guess_view(), p@.result) {
                        Some(g) => r is None && final(self).guess_view() == g,
                        None => if final(self).answers_view().len() == 0 {
                            r matches Some(SolverResult::NoAnswer)
                        } else {
                            r is None && is_next_guess(
                                words_view(final(self).guesses_view()),
                                words_view(final(self).answers_view()),
                                final(self).guess_view(),
                            )
                        },
                    }
                },
            },
    {
        self.guess_count = self.guess_count + 1;
        let pattern = match poll {
            PollResult::Control(c) => {
                return Some(SolverResult::Control(c));
            },
            PollResult::Score(p) => p,
        };
        if pattern.is_perfect_match() {
            return Some(SolverResult::Answer { word: self.guess.clone(), guess_count: self.guess_count });
        }
        let ghost before = self.answers@;
        filter_words(&pattern, &mut self.answers);
        proof {
            before.lemma_filter_len(|w: &str| crate::pattern::admits(pattern@, w@));
            assert forall|j: int| 0 <= j < self.answers@.len() implies (
            #[trigger] self.answers@[j])@.len() == WORD_LEN by {
                before.lemma_filter_contains_rev(
                    |w: &str| crate::pattern::admits(pattern@, w@),
                    self.answers@[j],
                );
            }
        }
        let result = pattern.result();
        match self.table.get(self.guess.as_str(), &result) {
            Some(g) => {
                proof {
                    crate::precompute::lemma_lookup_found(self.table@, self.guess@, result@);
                }
                self.guess = g;
                None
            },
            None => match best_guess(self.guesses.as_slice(), self.answers.as_slice()) {
                None => Some(SolverResult::NoAnswer),
                Some(x) => {
                    self.guess = x.to_owned();
                    None
                },
            },
        }
    }
}

} // verus!
