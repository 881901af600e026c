use vstd::prelude::*;

use crate::constraints::{
    filter, filtered, giving, holds_letter, kept_in_round, lemma_answer_survives, lemma_filter_keeps,
    lemma_filter_round, lemma_filter_shrinks, lemma_filtered_admitted, round_applied, Constraints,
};
use crate::feedback::{all_green, feedback_for, is_all_green, mark, respond, Feedback, Response};
use crate::ranker::{arranged, lemma_arranged_shrinks, ordered, rank, ranked, scores_of};
use crate::word::{distinct_count, distinct_letters, has_letter, Word};

verus! {

/// A solving session: the answers still possible, the words to guess from,
/// what the feedback so far says, and how many rounds were played.
pub struct WordleSolver {
    finished: bool,
    attempt: u8,
    answer_list: Vec<Word>,
    filter_list: Vec<Word>,
    constraints: Constraints,
}

/// How a session ended.
pub enum WordleResult {
    /// A guess was all matches.
    Done,
    /// The rounds ran out, or no answer was left; the answers still possible.
    Failed(Vec<Word>),
}

/// The words of `words` with five different letters, in their order.
pub open spec fn distinct_words(words: Seq<Word>) -> Seq<Word>
    decreases words.len(),
{
    if words.len() == 0 {
        Seq::empty()
    } else {
        let rest = distinct_words(words.drop_last());
        if distinct_count(words.last()@) == 5 {
            rest.push(words.last())
        } else {
            rest
        }
    }
}

/// The words of `words` that would have given every guess of `guesses` the
/// feedback that `answer` gives it.
pub open spec fn indistinguishable(words: Seq<Word>, guesses: Seq<Word>, answer: Word) -> Seq<Word>
    decreases guesses.len(),
{
    if guesses.len() == 0 {
        words
    } else {
        indistinguishable(
            giving(words, guesses[0], feedback_for(answer, guesses[0])),
            guesses.drop_first(),
            answer,
        )
    }
}

/// The confirmed letters after a round: each match confirms its letter.
pub open spec fn confirm_round(confirmed: [Option<char>; 5], guess: Word, f: Feedback) -> [Option<char>; 5] {
    [
        if f[0] == Response::Green { Some(guess[0]) } else { confirmed[0] },
        if f[1] == Response::Green { Some(guess[1]) } else { confirmed[1] },
        if f[2] == Response::Green { Some(guess[2]) } else { confirmed[2] },
        if f[3] == Response::Green { Some(guess[3]) } else { confirmed[3] },
        if f[4] == Response::Green { Some(guess[4]) } else { confirmed[4] },
    ]
}

/// The guess a session makes from its answers, guesses and confirmed letters,
/// and the guess list it keeps: the first answer while two or fewer are left;
/// else the top of the ranked guesses, or, where none scores, the top of the
/// ranked answers (or the first answer, where none of those scores either).
pub open spec fn next_guess(answers: Seq<Word>, guesses: Seq<Word>, confirmed: [Option<char>; 5]) -> (Word, Seq<Word>) {
    if answers.len() <= 2 {
        (answers[0], guesses)
    } else {
        let rk = ranked(guesses, scores_of(guesses, answers, confirmed));
        if rk.len() > 0 {
            (rk[0], rk)
        } else {
            let fb = ranked(answers, scores_of(answers, answers, confirmed));
            (if fb.len() > 0 { fb[0] } else { answers[0] }, rk)
        }
    }
}

/// The rest of a session played against `answer` from the given state: the
/// guesses it makes, the answers left at its end, and whether it is solved.
/// It stops once solved, after round six, or when no answer is left.
pub open spec fn run(
    answers: Seq<Word>,
    guesses: Seq<Word>,
    confirmed: [Option<char>; 5],
    attempt: int,
    solved: bool,
    answer: Word,
) -> (Seq<Word>, Seq<Word>, bool)
    decreases 7 - attempt,
{
    if solved || attempt > 6 || answers.len() == 0 {
        (Seq::empty(), answers, solved)
    } else {
        let g = next_guess(answers, guesses, confirmed).0;
        let kept = next_guess(answers, guesses, confirmed).1;
        let f = feedback_for(answer, g);
        let rest = run(
            giving(answers, g, f),
            giving(kept, g, f),
            confirm_round(confirmed, g, f),
            attempt + 1,
            all_green(f),
            answer,
        );
        (seq![g] + rest.0, rest.1, rest.2)
    }
}

/// What a played-out session tells: the rounds' guesses are the only ones that
/// narrow the answers, a session is solved exactly when a guess is the
/// answer, it plays at most six rounds, and it fails only with no answer left
/// or after round six.
pub proof fn lemma_run(
    answers: Seq<Word>,
    guesses: Seq<Word>,
    confirmed: [Option<char>; 5],
    attempt: int,
    solved: bool,
    answer: Word,
)
    requires
        1 <= attempt <= 7,
    ensures
        ({
            let r = run(answers, guesses, confirmed, attempt, solved, answer);
            &&& r.1 == indistinguishable(answers, r.0, answer)
            &&& r.2 <==> solved || r.0.contains(answer)
            &&& r.0.len() + attempt <= 7
            &&& !r.2 ==> r.1.len() == 0 || r.0.len() + attempt == 7
        }),
    decreases 7 - attempt,
{
    if !(solved || attempt > 6 || answers.len() == 0) {
        let g = next_guess(answers, guesses, confirmed).0;
        let kept = next_guess(answers, guesses, confirmed).1;
        let f = feedback_for(answer, g);
        lemma_run(giving(answers, g, f), giving(kept, g, f), confirm_round(confirmed, g, f), attempt + 1, all_green(f), answer);
        let rest = run(giving(answers, g, f), giving(kept, g, f), confirm_round(confirmed, g, f), attempt + 1, all_green(f), answer);
        let p = seq![g] + rest.0;
        assert(p[0] == g);
        assert(p.drop_first() =~= rest.0);
        if all_green(f) {
            assert(g =~= answer);
        }
        if g == answer {
            assert(all_green(f));
        }
        assert(p.contains(answer) <==> g == answer || rest.0.contains(answer)) by {
            if rest.0.contains(answer) {
                let k = choose|k: int| 0 <= k < rest.0.len() && rest.0[k] == answer;
                assert(p[k + 1] == answer);
            }
            if p.contains(answer) && g != answer {
                let k = choose|k: int| 0 <= k < p.len() && p[k] == answer;
                assert(rest.0[k - 1] == answer);
            }
        }
    }
}

/// Every word of `r` is a word of `cands`.
proof fn lemma_arranged_within(r: Seq<Word>, cands: Seq<Word>, sc: Seq<int>)
    requires
        sc.len() == cands.len(),
        arranged(r, cands, sc),
    ensures
        forall|k: int| 0 <= k < r.len() ==> cands.contains(#[trigger] r[k]),
{
    let idx = choose|idx: Seq<int>|
        #[trigger] ordered(idx, sc) && r.len() == idx.len() && forall|k: int|
            0 <= k < r.len() ==> r[k] == cands[idx[k]];
    assert forall|k: int| 0 <= k < r.len() implies cands.contains(#[trigger] r[k]) by {
        assert(0 <= idx[k] < sc.len());
        assert(cands[idx[k]] == r[k]);
    }
}

impl WordleSolver {
    /// The answers still possible.
    pub closed spec fn answers(&self) -> Seq<Word> {
        self.answer_list@
    }

    /// The words that guesses are drawn from.
    pub closed spec fn guesses(&self) -> Seq<Word> {
        self.filter_list@
    }

    /// What the feedback so far says of the answer.
    pub closed spec fn known(&self) -> Constraints {
        self.constraints
    }

    /// The number of the round to be played next, from 1.
    pub closed spec fn attempt_number(&self) -> int {
        self.attempt as int
    }

    /// Whether a guess was all matches.
    pub closed spec fn solved(&self) -> bool {
        self.finished
    }

    /// The rest of this session played against `answer` (see `run`).
    pub open spec fn session(&self, answer: Word) -> (Seq<Word>, Seq<Word>, bool) {
        run(self.answers(), self.guesses(), self.known().confirmed, self.attempt_number(), self.solved(), answer)
    }

    /// The guesses that the rest of this session makes against `answer`.
    pub open spec fn played(&self, answer: Word) -> Seq<Word> {
        self.session(answer).0
    }

    /// Whether the session is over: `Some(true)` once solved, `Some(false)`
    /// after six rounds or when no answer is left, `None` while it goes on.
    pub open spec fn outcome(&self) -> Option<bool> {
        if self.solved() {
            Some(true)
        } else if self.attempt_number() > 6 || self.answers().len() == 0 {
            Some(false)
        } else {
            None
        }
    }

    /// Both lists agree with what is known, and at most six rounds were played.
    pub closed spec fn wf(&self) -> bool {
        &&& 1 <= self.attempt <= 7
        &&& self.constraints.coherent()
        &&& forall|k: int|
            0 <= k < self.answer_list@.len() ==> self.constraints.admits(#[trigger] self.answer_list@[k])
        &&& forall|k: int|
            0 <= k < self.filter_list@.len() ==> self.constraints.admits(#[trigger] self.filter_list@[k])
    }

    /// A session over a dictionary: every word may be the answer, and the
    /// words with five different letters are the ones to guess from.
    pub fn new(words: Vec<Word>) -> (r: WordleSolver)
        ensures
            r.wf(),
            r.answers() == words@,
            r.guesses() == distinct_words(words@),
            r.attempt_number() == 1,
            !r.solved(),
            forall|i: int| 0 <= i < 5 ==> r.known().confirmed[i] is None,
            r.known().present@.len() == 0,
            r.known().misplaced@.len() == 0,
            r.known().absent@.len() == 0,
            r.known().coherent(),
    {
        let mut guesses: Vec<Word> = Vec::new();
        let mut i: usize = 0;
        while i < words.len()
            invariant
                i <= words@.len(),
                guesses@ == distinct_words(words@.subrange(0, i as int)),
            decreases words@.len() - i,
        {
            let w = words[i];
            assert(words@.subrange(0, i + 1).drop_last() =~= words@.subrange(0, i as int));
            if distinct_letters(&w) == 5 {
                guesses.push(w);
            }
            i = i + 1;
        }
        assert(words@.subrange(0, words@.len() as int) =~= words@);
        WordleSolver {
            finished: false,
            attempt: 1,
            answer_list: words,
            filter_list: guesses,
            constraints: Constraints::new(),
        }
    }

    /// Returns whether the session is over, and how (see `outcome`).
    pub fn is_successed(&self) -> (r: Option<bool>)
        ensures
            r == self.outcome(),
    {
        if self.finished {
            Some(true)
        } else if self.attempt > 6 || self.answer_list.len() == 0 {
            Some(false)
        } else {
            None
        }
    }

    /// The answers still possible.
    pub fn remaining_words(&self) -> (r: &Vec<Word>)
        ensures
            r@ == self.answers(),
    {
        &self.answer_list
    }

    /// What the feedback so far says of the answer.
    pub fn constraints(&self) -> (r: &Constraints)
        ensures
            *r == self.known(),
    {
        &self.constraints
    }

    /// Picks the next guess. With two answers or fewer left, the first of them.
    /// Otherwise the guesses are ranked against the answers and the best one
    /// is taken; where none scores, the answers themselves are ranked instead.
    pub fn guess(&mut self) -> (r: Word)
        requires
            old(self).wf(),
            old(self).answers().len() > 0,
        ensures
            final(self).wf(),
            final(self).answers() == old(self).answers(),
            final(self).known() == old(self).known(),
            final(self).attempt_number() == old(self).attempt_number(),
            final(self).solved() == old(self).solved(),
            old(self).answers().contains(r) || old(self).guesses().contains(r),
            final(self).guesses().len() <= old(self).guesses().len(),
            forall|k: int|
                0 <= k < final(self).guesses().len() ==> old(self).guesses().contains(
                    #[trigger] final(self).guesses()[k],
                ),
            old(self).answers().len() <= 2 ==> r == old(self).answers()[0] && final(self).guesses()
                == old(self).guesses(),
            old(self).answers().len() > 2 ==> arranged(
                final(self).guesses(),
                old(self).guesses(),
                scores_of(old(self).guesses(), old(self).answers(), old(self).known().confirmed),
            ),
            old(self).answers().len() > 2 && final(self).guesses().len() > 0 ==> r
                == final(self).guesses()[0],
            (r, final(self).guesses()) == next_guess(
                old(self).answers(),
                old(self).guesses(),
                old(self).known().confirmed,
            ),
    {
        if self.answer_list.len() <= 2 {
            assert(self.answer_list@.contains(self.answer_list@[0]));
            return self.answer_list[0];
        }
        let ranked = rank(&self.answer_list, &self.constraints.confirmed, &self.filter_list);
        proof {
            lemma_arranged_shrinks(
                ranked@,
                self.filter_list@,
                scores_of(self.filter_list@, self.answer_list@, self.constraints.confirmed),
            );
            lemma_arranged_within(
                ranked@,
                self.filter_list@,
                scores_of(self.filter_list@, self.answer_list@, self.constraints.confirmed),
            );
            assert forall|k: int| 0 <= k < ranked@.len() implies self.constraints.admits(#[trigger] ranked@[k]) by {
                let j = choose|j: int| 0 <= j < self.filter_list@.len() && self.filter_list@[j] == ranked@[k];
            }
        }
        self.filter_list = ranked;
        if self.filter_list.len() > 0 {
            assert(old(self).filter_list@.contains(self.filter_list@[0]));
            self.filter_list[0]
        } else {
            let fallback = rank(&self.answer_list, &self.constraints.confirmed, &self.answer_list);
            proof {
                lemma_arranged_within(
                    fallback@,
                    self.answer_list@,
                    scores_of(self.answer_list@, self.answer_list@, self.constraints.confirmed),
                );
            }
            if fallback.len() > 0 {
                assert(self.answer_list@.contains(fallback@[0]));
                fallback[0]
            } else {
                assert(self.answer_list@.contains(self.answer_list@[0]));
                self.answer_list[0]
            }
        }
    }

    /// Plays one round: `response` is the feedback on `guess`. The constraints
    /// take it in and both lists keep only the words that agree with them. The
    /// round number goes up by one, and stays at 7 once six rounds were played.
    pub fn attempt(&mut self, guess: &Word, response: &Feedback)
        ensures
            old(self).wf() ==> final(self).wf(),
            old(self).known().coherent() ==> final(self).known().coherent(),
            final(self).attempt_number() == if old(self).attempt_number() < 7 {
                old(self).attempt_number() + 1
            } else {
                old(self).attempt_number()
            },
            final(self).solved() == (old(self).solved() || all_green(*response)),
            round_applied(old(self).known(), final(self).known(), *guess, *response),
            final(self).answers() == filtered(old(self).answers(), final(self).known()),
            final(self).guesses() == filtered(old(self).guesses(), final(self).known()),
            forall|k: int|
                0 <= k < final(self).answers().len() ==> old(self).answers().contains(
                    #[trigger] final(self).answers()[k],
                ),
            forall|k: int|
                0 <= k < final(self).guesses().len() ==> old(self).guesses().contains(
                    #[trigger] final(self).guesses()[k],
                ),
            final(self).answers().len() <= old(self).answers().len(),
            final(self).guesses().len() <= old(self).guesses().len(),
            forall|i: int, k: int|
                0 <= i < 5 && response[i] == Response::Green && 0 <= k < final(self).answers().len()
                    ==> (#[trigger] final(self).answers()[k][i]) == guess[i],
            forall|i: int, k: int|
                0 <= i < 5 && response[i] == Response::Black && !kept_in_round(*guess, *response, guess[i])
                    && !holds_letter(old(self).known(), guess[i]) && 0 <= k < final(self).answers().len()
                    ==> !(#[trigger] has_letter(final(self).answers()[k], guess[i])),
    {
        if is_all_green(response) {
            self.finished = true;
        }
        self.constraints.apply(guess, response);
        self.answer_list = filter(&self.answer_list, &self.constraints);
        self.filter_list = filter(&self.filter_list, &self.constraints);
        if self.attempt < 7 {
            self.attempt = self.attempt + 1;
        }
        proof {
            let c = self.constraints;
            lemma_filtered_admitted(old(self).answer_list@, c);
            lemma_filtered_admitted(old(self).filter_list@, c);
            lemma_filter_shrinks(old(self).answer_list@, c);
            lemma_filter_shrinks(old(self).filter_list@, c);
            assert forall|i: int, k: int|
                0 <= i < 5 && response[i] == Response::Black && !kept_in_round(*guess, *response, guess[i])
                    && !holds_letter(old(self).constraints, guess[i]) && 0 <= k < self.answer_list@.len()
                    implies !(#[trigger] has_letter(self.answer_list@[k], guess[i])) by {
                let x = guess[i];
                if holds_letter(c, x) {
                    if exists|j: int| 0 <= j < 5 && #[trigger] c.confirmed[j] == Some(x) {
                        let j = choose|j: int| 0 <= j < 5 && #[trigger] c.confirmed[j] == Some(x);
                        if response[j] == Response::Green {
                            assert(guess[j] == x);
                        } else {
                            assert(old(self).constraints.confirmed[j] == Some(x));
                        }
                    } else if !old(self).constraints.present@.contains(x) {
                        let j = choose|j: int| 0 <= j < 5 && response[j] == Response::Yellow && guess[j] == x;
                    }
                }
                assert(c.absent@.contains(guess[i]));
                let j = choose|j: int| 0 <= j < c.absent@.len() && c.absent@[j] == guess[i];
                assert(c.admits(self.answer_list@[k]));
            }
            assert forall|i: int, k: int|
                0 <= i < 5 && response[i] == Response::Green && 0 <= k < self.answer_list@.len()
                    implies (#[trigger] self.answer_list@[k][i]) == guess[i] by {
                assert(c.confirmed[i] == Some(guess[i]));
                assert(c.admits(self.answer_list@[k]));
            }
        }
    }

    /// Plays the session out against `answer`, which gives each guess its
    /// feedback, until a guess is all matches, six rounds were played, or no
    /// answer is left: the result is what `run` says of this session. Where
    /// what is known admits the answer (as for a new session), it is `Done`
    /// exactly when one of the guesses played is the answer, and a failure
    /// hands back the words that no guess played could tell from the answer.
    /// An answer of the dictionary is never lost on the way.
    #[verifier::rlimit(50)]
    pub fn try_solve(self, answer: Word) -> (r: WordleResult)
        requires
            self.wf(),
        ensures
            self.answers().contains(answer) ==> (r is Done || (r matches WordleResult::Failed(l)
                && l@.contains(answer))),
            r matches WordleResult::Failed(l) ==> forall|k: int|
                0 <= k < l@.len() ==> self.answers().contains(#[trigger] l@[k]),
            self.known().admits(answer) ==> (r is Done <==> self.session(answer).2),
            self.known().admits(answer) ==> (r is Done <==> self.solved() || self.played(answer).contains(answer)),
            self.known().admits(answer) ==> (r matches WordleResult::Failed(l) ==> l@ == self.session(answer).1
                && l@ == indistinguishable(self.answers(), self.played(answer), answer)
                && (l@.len() == 0 || self.played(answer).len() + self.attempt_number() == 7)),
            self.played(answer).len() + self.attempt_number() <= 7,
    {
        let ghost start = self.answer_list@;
        let ghost admitted = self.constraints.admits(answer);
        proof {
            lemma_run(self.answer_list@, self.filter_list@, self.constraints.confirmed, self.attempt as int,
                self.finished, answer);
        }
        let mut s = self;
        loop
            invariant
                s.wf(),
                start == self.answers(),
                admitted == self.known().admits(answer),
                self.played(answer).len() + self.attempt_number() <= 7,
                self.session(answer).2 <==> self.solved() || self.played(answer).contains(answer),
                self.session(answer).1 == indistinguishable(self.answers(), self.played(answer), answer),
                !self.session(answer).2 ==> self.session(answer).1.len() == 0 || self.played(answer).len()
                    + self.attempt_number() == 7,
                admitted ==> s.constraints.admits(answer),
                admitted ==> s.session(answer).1 == self.session(answer).1 && s.session(answer).2
                    == self.session(answer).2,
                forall|k: int| 0 <= k < s.answer_list@.len() ==> start.contains(#[trigger] s.answer_list@[k]),
                start.contains(answer) ==> s.answer_list@.contains(answer),
            decreases 7 - s.attempt,
        {
            match s.is_successed() {
                Some(true) => {
                    return WordleResult::Done;
                },
                Some(false) => {
                    return WordleResult::Failed(s.answer_list);
                },
                None => {},
            }
            let ghost unguessed = s;
            let g = s.guess();
            let f = respond(&answer, &g);
            let ghost before = s;
            s.attempt(&g, &f);
            proof {
                assert forall|k: int| 0 <= k < s.answer_list@.len() implies start.contains(
                    #[trigger] s.answer_list@[k],
                ) by {
                    let j = choose|j: int|
                        0 <= j < before.answer_list@.len() && before.answer_list@[j] == s.answer_list@[k];
                    assert(start.contains(before.answer_list@[j]));
                }
                if start.contains(answer) {
                    let j = choose|j: int| 0 <= j < before.answer_list@.len() && before.answer_list@[j] == answer;
                    assert(before.constraints.admits(before.answer_list@[j]));
                    lemma_answer_survives(before.constraints, s.constraints, g, answer, f);
                    lemma_filter_keeps(before.answer_list@, s.constraints, answer);
                }
                if admitted {
                    lemma_step(unguessed, before, s, g, answer);
                }
            }
        }
    }
}

/// One round of `try_solve` is one step of `run`.
proof fn lemma_step(s0: WordleSolver, s1: WordleSolver, s2: WordleSolver, g: Word, answer: Word)
    requires
        s0.wf(),
        s0.outcome() is None,
        s0.constraints.admits(answer),
        s1.answers() == s0.answers(),
        s1.known() == s0.known(),
        s1.attempt_number() == s0.attempt_number(),
        s1.solved() == s0.solved(),
        (g, s1.guesses()) == next_guess(s0.answers(), s0.guesses(), s0.known().confirmed),
        s1.wf(),
        s2.attempt_number() == s1.attempt_number() + 1,
        s2.solved() == (s1.solved() || all_green(feedback_for(answer, g))),
        round_applied(s1.known(), s2.known(), g, feedback_for(answer, g)),
        s2.answers() == filtered(s1.answers(), s2.known()),
        s2.guesses() == filtered(s1.guesses(), s2.known()),
    ensures
        s2.constraints.admits(answer),
        s2.session(answer).1 == s0.session(answer).1,
        s2.session(answer).2 == s0.session(answer).2,
{
    let f = feedback_for(answer, g);
    assert forall|i: int| 0 <= i < 5 implies f[i] == mark(answer, g, i) by {}
    lemma_answer_survives(s1.constraints, s2.constraints, g, answer, f);
    lemma_filter_round(s1.answer_list@, s1.constraints, s2.constraints, g, answer);
    lemma_filter_round(s1.filter_list@, s1.constraints, s2.constraints, g, answer);
    assert(s2.constraints.confirmed =~= confirm_round(s0.constraints.confirmed, g, f));
}

/// A session ends within six rounds: in any run of rounds from a new
/// session, each round adding one to the round number as `attempt` does, the
/// state after the sixth round is over.
pub proof fn lemma_six_rounds_at_most(states: Seq<WordleSolver>)
    requires
        states.len() > 6,
        states[0].attempt_number() == 1,
        forall|k: int|
            0 <= k < states.len() - 1 ==> states[k + 1].attempt_number() == (#[trigger] states[k]).attempt_number()
                + 1,
    ensures
        states[6].outcome() is Some,
{
    assert(states[1].attempt_number() == 2);
    assert(states[2].attempt_number() == 3);
    assert(states[3].attempt_number() == 4);
    assert(states[4].attempt_number() == 5);
    assert(states[5].attempt_number() == 6);
    assert(states[6].attempt_number() == 7);
}

} // verus!
