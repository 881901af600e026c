use vstd::prelude::*;

use crate::feedback::{feedback_for, gives, mark, Feedback, Response};
use crate::word::{contains, has_letter, Word};

verus! {

/// What the feedback so far says of the answer.
pub struct Constraints {
    /// The letter known at each position, where one is known.
    pub confirmed: [Option<char>; 5],
    /// Letters known to occur in the answer.
    pub present: Vec<char>,
    /// Pairs of a position and a letter that occurs in the answer but not there.
    pub misplaced: Vec<(usize, char)>,
    /// Letters known not to occur in the answer.
    pub absent: Vec<char>,
}

impl Constraints {
    /// Whether `w` agrees with every constraint.
    pub open spec fn admits(&self, w: Word) -> bool {
        &&& forall|i: int|
            0 <= i < 5 && (#[trigger] self.confirmed[i]) is Some ==> w[i] == self.confirmed[i]->0
        &&& forall|k: int| 0 <= k < self.present@.len() ==> has_letter(w, #[trigger] self.present@[k])
        &&& forall|k: int|
            0 <= k < self.misplaced@.len() && (#[trigger] self.misplaced@[k]).0 < 5 ==> w[self.misplaced@[k].0 as int]
                != self.misplaced@[k].1
        &&& forall|k: int| 0 <= k < self.absent@.len() ==> !has_letter(w, #[trigger] self.absent@[k])
    }

    /// No constraint at all.
    pub fn new() -> (r: Constraints)
        ensures
            forall|i: int| 0 <= i < 5 ==> r.confirmed[i] is None,
            r.present@.len() == 0,
            r.misplaced@.len() == 0,
            r.absent@.len() == 0,
            r.coherent(),
    {
        Constraints {
            confirmed: [None, None, None, None, None],
            present: Vec::new(),
            misplaced: Vec::new(),
            absent: Vec::new(),
        }
    }

    /// A match: letter `c` stands at position `i`.
    pub fn confirm(&mut self, i: usize, c: char)
        requires
            i < 5,
        ensures
            final(self).confirmed@ == old(self).confirmed@.update(i as int, Some(c)),
            final(self).present@ == old(self).present@,
            final(self).misplaced@ == old(self).misplaced@,
            final(self).absent@ == old(self).absent@,
    {
        self.confirmed[i] = Some(c);
    }

    /// A present letter: `c` occurs in the answer, but not at position `i`.
    pub fn with(&mut self, i: usize, c: char)
        requires
            i < 5,
        ensures
            final(self).confirmed@ == old(self).confirmed@,
            final(self).present@ == (if old(self).present@.contains(c) {
                old(self).present@
            } else {
                old(self).present@.push(c)
            }),
            final(self).misplaced@ == (if old(self).misplaced@.contains((i, c)) {
                old(self).misplaced@
            } else {
                old(self).misplaced@.push((i, c))
            }),
            final(self).absent@ == old(self).absent@,
    {
        if !vec_has(&self.present, c) {
            self.present.push(c);
        }
        let mut k: usize = 0;
        let mut found = false;
        while k < self.misplaced.len()
            invariant
                k <= self.misplaced@.len(),
                found <==> exists|j: int| 0 <= j < k && self.misplaced@[j] == (i, c),
            decreases self.misplaced@.len() - k,
        {
            let (p, d) = self.misplaced[k];
            if p == i && d == c {
                found = true;
            }
            k = k + 1;
        }
        if !found {
            self.misplaced.push((i, c));
        }
    }

    /// An absent letter: `c` does not occur in the answer.
    pub fn without(&mut self, c: char)
        ensures
            final(self).confirmed@ == old(self).confirmed@,
            final(self).present@ == old(self).present@,
            final(self).misplaced@ == old(self).misplaced@,
            final(self).absent@ == (if old(self).absent@.contains(c) {
                old(self).absent@
            } else {
                old(self).absent@.push(c)
            }),
    {
        if !vec_has(&self.absent, c) {
            self.absent.push(c);
        }
    }

    /// Returns whether `w` agrees with every constraint.
    pub fn allows(&self, w: &Word) -> (r: bool)
        ensures
            r == self.admits(*w),
    {
        let mut i: usize = 0;
        while i < 5
            invariant
                i <= 5,
                forall|j: int|
                    0 <= j < i && (#[trigger] self.confirmed[j]) is Some ==> w[j] == self.confirmed[j]->0,
            decreases 5 - i,
        {
            match self.confirmed[i] {
                Some(c) => {
                    if w[i] != c {
                        return false;
                    }
                },
                None => {},
            }
            i = i + 1;
        }
        let mut k: usize = 0;
        while k < self.present.len()
            invariant
                k <= self.present@.len(),
                forall|j: int| 0 <= j < k ==> has_letter(*w, #[trigger] self.present@[j]),
            decreases self.present@.len() - k,
        {
            if !contains(w, self.present[k]) {
                return false;
            }
            k = k + 1;
        }
        let mut k: usize = 0;
        while k < self.misplaced.len()
            invariant
                k <= self.misplaced@.len(),
                forall|j: int|
                    0 <= j < k && (#[trigger] self.misplaced@[j]).0 < 5 ==> w[self.misplaced@[j].0 as int]
                        != self.misplaced@[j].1,
            decreases self.misplaced@.len() - k,
        {
            let (p, c) = self.misplaced[k];
            if p < 5 && w[p] == c {
                return false;
            }
            k = k + 1;
        }
        let mut k: usize = 0;
        while k < self.absent.len()
            invariant
                k <= self.absent@.len(),
                forall|j: int| 0 <= j < k ==> !has_letter(*w, #[trigger] self.absent@[j]),
            decreases self.absent@.len() - k,
        {
            if contains(w, self.absent[k]) {
                return false;
            }
            k = k + 1;
        }
        true
    }
}

/// Returns whether `c` is among the letters of `v`.
fn vec_has(v: &Vec<char>, c: char) -> (r: bool)
    ensures
        r == v@.contains(c),
{
    let mut k: usize = 0;
    while k < v.len()
        invariant
            k <= v@.len(),
            forall|j: int| 0 <= j < k ==> v@[j] != c,
        decreases v@.len() - k,
    {
        if v[k] == c {
            return true;
        }
        k = k + 1;
    }
    false
}

/// The words of `words` that agree with `c`, in their order.
pub open spec fn filtered(words: Seq<Word>, c: Constraints) -> Seq<Word>
    decreases words.len(),
{
    if words.len() == 0 {
        Seq::empty()
    } else {
        let rest = filtered(words.drop_last(), c);
        if c.admits(words.last()) {
            rest.push(words.last())
        } else {
            rest
        }
    }
}

/// The words of `words` that agree with every constraint of `c`, in their order.
pub fn filter(words: &Vec<Word>, c: &Constraints) -> (r: Vec<Word>)
    ensures
        r@ == filtered(words@, *c),
{
    let mut out: Vec<Word> = Vec::new();
    let mut i: usize = 0;
    while i < words.len()
        invariant
            i <= words@.len(),
            out@ == filtered(words@.subrange(0, i as int), *c),
        decreases words@.len() - i,
    {
        let w = words[i];
        assert(words@.subrange(0, i + 1).drop_last() =~= words@.subrange(0, i as int));
        if c.allows(&w) {
            out.push(w);
        }
        i = i + 1;
    }
    assert(words@.subrange(0, words@.len() as int) =~= words@);
    out
}

/// Filtering never adds a word: the result is at most as long as the input.
pub proof fn lemma_filter_shrinks(words: Seq<Word>, c: Constraints)
    ensures
        filtered(words, c).len() <= words.len(),
    decreases words.len(),
{
    if words.len() > 0 {
        lemma_filter_shrinks(words.drop_last(), c);
    }
}

/// Every word kept by the filter agrees with the constraints and was in the input.
pub proof fn lemma_filtered_admitted(words: Seq<Word>, c: Constraints)
    ensures
        forall|k: int|
            0 <= k < filtered(words, c).len() ==> c.admits(#[trigger] filtered(words, c)[k])
                && words.contains(filtered(words, c)[k]),
    decreases words.len(),
{
    if words.len() > 0 {
        let rest = words.drop_last();
        lemma_filtered_admitted(rest, c);
        let f = filtered(words, c);
        assert forall|k: int| 0 <= k < f.len() implies c.admits(#[trigger] f[k]) && words.contains(f[k]) by {
            if k < filtered(rest, c).len() {
                assert(f[k] == filtered(rest, c)[k]);
                let j = choose|j: int| 0 <= j < rest.len() && rest[j] == f[k];
                assert(words[j] == f[k]);
            } else {
                assert(f[k] == words.last());
                assert(words[words.len() - 1] == f[k]);
            }
        }
    }
}

/// A word that agrees with the constraints stays through the filter.
pub proof fn lemma_filter_keeps(words: Seq<Word>, c: Constraints, w: Word)
    requires
        words.contains(w),
        c.admits(w),
    ensures
        filtered(words, c).contains(w),
    decreases words.len(),
{
    let rest = words.drop_last();
    if words.last() == w {
        assert(filtered(words, c).last() == w);
    } else {
        let j = choose|j: int| 0 <= j < words.len() && words[j] == w;
        assert(rest[j] == w);
        lemma_filter_keeps(rest, c, w);
        let k = choose|k: int| 0 <= k < filtered(rest, c).len() && filtered(rest, c)[k] == w;
        assert(filtered(words, c)[k] == w);
    }
}

/// A list whose words all agree with the constraints passes the filter unchanged.
pub proof fn lemma_filter_all_admitted(words: Seq<Word>, c: Constraints)
    requires
        forall|k: int| 0 <= k < words.len() ==> c.admits(#[trigger] words[k]),
    ensures
        filtered(words, c) == words,
    decreases words.len(),
{
    if words.len() > 0 {
        lemma_filter_all_admitted(words.drop_last(), c);
        assert(c.admits(words[words.len() - 1]));
        assert(words.drop_last().push(words.last()) =~= words);
    }
}

/// Filtering twice with the same constraints gives what filtering once gives.
pub proof fn lemma_filter_idempotent(words: Seq<Word>, c: Constraints)
    ensures
        filtered(filtered(words, c), c) == filtered(words, c),
{
    lemma_filtered_admitted(words, c);
    lemma_filter_all_admitted(filtered(words, c), c);
}

/// Whether `c` knows letter `x` to occur: confirmed somewhere, or present.
pub open spec fn holds_letter(c: Constraints, x: char) -> bool {
    (exists|i: int| 0 <= i < 5 && #[trigger] c.confirmed[i] == Some(x)) || c.present@.contains(x)
}

/// Whether this round marks letter `x` a match or present somewhere.
pub open spec fn kept_in_round(guess: Word, f: Feedback, x: char) -> bool {
    exists|i: int|
        0 <= i < 5 && (f[i] == Response::Green || f[i] == Response::Yellow) && #[trigger] guess[i] == x
}

/// Whether this round marks letter `x` absent somewhere.
pub open spec fn absent_in_round(guess: Word, f: Feedback, x: char) -> bool {
    exists|i: int| 0 <= i < 5 && f[i] == Response::Black && #[trigger] guess[i] == x
}

impl Constraints {
    /// No letter known to occur is also known to be absent.
    pub open spec fn coherent(&self) -> bool {
        forall|x: char| holds_letter(*self, x) ==> !#[trigger] self.absent@.contains(x)
    }
}

/// Whether `after` is `before` with the feedback `f` on `guess` applied, in
/// the order match, present, absent: a match confirms its letter at its
/// position, a present letter is known to occur but not at its position, an
/// absent letter is known not to occur.
///
/// Letters are kept as sets, without counts. A match or present mark wins over
/// an absent one: a letter that the round marks a match or present leaves the
/// absent letters, and an absent mark on a letter that is then confirmed or
/// present adds nothing. So no confirmed or present letter is ever absent.
pub open spec fn round_applied(before: Constraints, after: Constraints, guess: Word, f: Feedback) -> bool {
    &&& forall|i: int|
        0 <= i < 5 ==> #[trigger] after.confirmed[i] == (if f[i] == Response::Green {
            Some(guess[i])
        } else {
            before.confirmed[i]
        })
    &&& forall|x: char|
        #[trigger] after.present@.contains(x) <==> before.present@.contains(x) || exists|i: int|
            0 <= i < 5 && f[i] == Response::Yellow && guess[i] == x
    &&& forall|x: (usize, char)|
        #[trigger] after.misplaced@.contains(x) <==> before.misplaced@.contains(x) || exists|i: int|
            0 <= i < 5 && f[i] == Response::Yellow && x == (i as usize, guess[i])
    &&& forall|x: char|
        #[trigger] after.absent@.contains(x) <==> (before.absent@.contains(x) && !kept_in_round(guess, f, x))
            || (absent_in_round(guess, f, x) && !holds_letter(after, x))
}

/// Returns a copy of `v` without the letter `c`.
fn without_letter(v: &Vec<char>, c: char) -> (r: Vec<char>)
    ensures
        forall|y: char| #[trigger] r@.contains(y) <==> v@.contains(y) && y != c,
{
    let mut out: Vec<char> = Vec::new();
    let mut k: usize = 0;
    while k < v.len()
        invariant
            k <= v@.len(),
            forall|y: char| #[trigger] out@.contains(y) <==> (exists|j: int| 0 <= j < k && v@[j] == y) && y != c,
        decreases v@.len() - k,
    {
        let d = v[k];
        let ghost before = out@;
        if d != c {
            out.push(d);
        }
        proof {
            assert forall|y: char| #[trigger] out@.contains(y) <==> (exists|j: int| 0 <= j < k + 1 && v@[j] == y) && y != c by {
                if out@.contains(y) {
                    let m = choose|m: int| 0 <= m < out@.len() && out@[m] == y;
                    if m < before.len() {
                        assert(before[m] == y);
                        assert(before.contains(y));
                    } else {
                        assert(v@[k as int] == y);
                    }
                }
                if (exists|j: int| 0 <= j < k + 1 && v@[j] == y) && y != c {
                    let j = choose|j: int| 0 <= j < k + 1 && v@[j] == y;
                    if j < k {
                        assert(before.contains(y));
                        let m = choose|m: int| 0 <= m < before.len() && before[m] == y;
                        assert(out@[m] == y);
                    } else {
                        assert(out@[out@.len() - 1] == y);
                    }
                }
            }
        }
        k = k + 1;
    }
    proof {
        assert forall|y: char| #[trigger] out@.contains(y) <==> v@.contains(y) && y != c by {
            if v@.contains(y) {
                let j = choose|j: int| 0 <= j < v@.len() && v@[j] == y;
                assert(exists|j: int| 0 <= j < k && v@[j] == y);
            }
        }
    }
    out
}

/// Returns whether `c` is confirmed at some position.
fn is_confirmed(confirmed: &[Option<char>; 5], c: char) -> (r: bool)
    ensures
        r == exists|i: int| 0 <= i < 5 && #[trigger] confirmed[i] == Some(c),
{
    let mut i: usize = 0;
    while i < 5
        invariant
            i <= 5,
            forall|j: int| 0 <= j < i ==> confirmed[j] != Some(c),
        decreases 5 - i,
    {
        if confirmed[i] == Some(c) {
            return true;
        }
        i = i + 1;
    }
    false
}

impl Constraints {
    /// Applies one round of feedback on `guess`: first every match, then every
    /// present letter, then every absent one.
    pub fn apply(&mut self, guess: &Word, f: &Feedback)
        ensures
            round_applied(*old(self), *final(self), *guess, *f),
            old(self).coherent() ==> final(self).coherent(),
    {
        let ghost start = *self;
        let mut i: usize = 0;
        while i < 5
            invariant
                i <= 5,
                forall|j: int|
                    0 <= j < 5 ==> #[trigger] self.confirmed[j] == (if j < i && f[j] == Response::Green {
                        Some(guess[j])
                    } else {
                        start.confirmed[j]
                    }),
                self.present@ == start.present@,
                self.misplaced@ == start.misplaced@,
                forall|x: char|
                    #[trigger] self.absent@.contains(x) <==> start.absent@.contains(x) && !exists|j: int|
                        0 <= j < i && f[j] == Response::Green && guess[j] == x,
            decreases 5 - i,
        {
            if f[i] == Response::Green {
                self.confirm(i, guess[i]);
                self.absent = without_letter(&self.absent, guess[i]);
            }
            i = i + 1;
        }
        let ghost confirmed = self.confirmed;
        let mut i: usize = 0;
        while i < 5
            invariant
                i <= 5,
                self.confirmed == confirmed,
                forall|x: char|
                    #[trigger] self.present@.contains(x) <==> start.present@.contains(x) || exists|j: int|
                        0 <= j < i && f[j] == Response::Yellow && guess[j] == x,
                forall|x: (usize, char)|
                    #[trigger] self.misplaced@.contains(x) <==> start.misplaced@.contains(x) || exists|j: int|
                        0 <= j < i && f[j] == Response::Yellow && x == (j as usize, guess[j]),
                forall|x: char|
                    #[trigger] self.absent@.contains(x) <==> start.absent@.contains(x) && !(exists|j: int|
                        0 <= j < 5 && f[j] == Response::Green && guess[j] == x) && !(exists|j: int|
                        0 <= j < i && f[j] == Response::Yellow && guess[j] == x),
            decreases 5 - i,
        {
            if f[i] == Response::Yellow {
                let ghost before = *self;
                self.with(i, guess[i]);
                self.absent = without_letter(&self.absent, guess[i]);
                proof {
                    assert forall|x: char| #[trigger] self.present@.contains(x) <==> before.present@.contains(x)
                        || x == guess[i as int] by {
                        if x == guess[i as int] && !before.present@.contains(x) {
                            assert(self.present@.last() == x);
                        }
                        if self.present@.contains(x) && !before.present@.contains(x) {
                            let k = choose|k: int| 0 <= k < self.present@.len() && self.present@[k] == x;
                            if k < before.present@.len() {
                                assert(before.present@[k] == x);
                            }
                        }
                        if before.present@.contains(x) && !before.present@.contains(guess[i as int]) {
                            let k = choose|k: int| 0 <= k < before.present@.len() && before.present@[k] == x;
                            assert(self.present@[k] == x);
                        }
                    }
                    let y = (i, guess[i as int]);
                    assert forall|x: (usize, char)| #[trigger] self.misplaced@.contains(x) <==> before.misplaced@.contains(x)
                        || x == y by {
                        if x == y && !before.misplaced@.contains(x) {
                            assert(self.misplaced@.last() == x);
                        }
                        if self.misplaced@.contains(x) && !before.misplaced@.contains(x) {
                            let k = choose|k: int| 0 <= k < self.misplaced@.len() && self.misplaced@[k] == x;
                            if k < before.misplaced@.len() {
                                assert(before.misplaced@[k] == x);
                            }
                        }
                        if before.misplaced@.contains(x) && !before.misplaced@.contains(y) {
                            let k = choose|k: int| 0 <= k < before.misplaced@.len() && before.misplaced@[k] == x;
                            assert(self.misplaced@[k] == x);
                        }
                    }
                }
            }
            i = i + 1;
        }
        let ghost middle = *self;
        let mut i: usize = 0;
        while i < 5
            invariant
                i <= 5,
                self.confirmed == confirmed,
                middle.confirmed == confirmed,
                self.present@ == middle.present@,
                self.misplaced@ == middle.misplaced@,
                forall|x: char|
                    #[trigger] self.absent@.contains(x) <==> middle.absent@.contains(x) || ((exists|j: int|
                        0 <= j < i && f[j] == Response::Black && guess[j] == x) && !holds_letter(middle, x)),
            decreases 5 - i,
        {
            if f[i] == Response::Black {
                let c = guess[i];
                let known = is_confirmed(&self.confirmed, c) || vec_has(&self.present, c);
                assert(known == holds_letter(middle, c));
                if !known {
                    let ghost before = *self;
                    self.without(c);
                    proof {
                        assert forall|x: char| #[trigger] self.absent@.contains(x) <==> before.absent@.contains(x)
                            || x == c by {
                            if x == c && !before.absent@.contains(x) {
                                assert(self.absent@.last() == x);
                            }
                            if self.absent@.contains(x) && !before.absent@.contains(x) {
                                let k = choose|k: int| 0 <= k < self.absent@.len() && self.absent@[k] == x;
                                if k < before.absent@.len() {
                                    assert(before.absent@[k] == x);
                                }
                            }
                            if before.absent@.contains(x) && !before.absent@.contains(c) {
                                let k = choose|k: int| 0 <= k < before.absent@.len() && before.absent@[k] == x;
                                assert(self.absent@[k] == x);
                            }
                        }
                    }
                }
            }
            i = i + 1;
        }
        proof {
            let after = *self;
            assert(round_applied(start, after, *guess, *f)) by {
                assert forall|x: char| #[trigger] after.absent@.contains(x) <==> (start.absent@.contains(x)
                    && !kept_in_round(*guess, *f, x)) || (absent_in_round(*guess, *f, x) && !holds_letter(after, x)) by {
                    assert(holds_letter(after, x) == holds_letter(middle, x));
                    if kept_in_round(*guess, *f, x) {
                        let j = choose|j: int|
                            0 <= j < 5 && (f[j] == Response::Green || f[j] == Response::Yellow) && #[trigger] guess[j] == x;
                        if f[j] == Response::Green {
                            assert(after.confirmed[j] == Some(x));
                        }
                    }
                }
            }
            if start.coherent() {
                lemma_round_coherent(start, after, *guess, *f);
            }
        }
    }
}

/// A round keeps the constraints coherent.
proof fn lemma_round_coherent(before: Constraints, after: Constraints, guess: Word, f: Feedback)
    requires
        before.coherent(),
        round_applied(before, after, guess, f),
    ensures
        after.coherent(),
{
    assert forall|x: char| holds_letter(after, x) implies !#[trigger] after.absent@.contains(x) by {
        if after.absent@.contains(x) && !(absent_in_round(guess, f, x) && !holds_letter(after, x)) {
            assert(before.absent@.contains(x) && !kept_in_round(guess, f, x));
            if exists|i: int| 0 <= i < 5 && #[trigger] after.confirmed[i] == Some(x) {
                let i = choose|i: int| 0 <= i < 5 && #[trigger] after.confirmed[i] == Some(x);
                if f[i] == Response::Green {
                    assert(guess[i] == x);
                } else {
                    assert(before.confirmed[i] == Some(x));
                    assert(holds_letter(before, x));
                }
            } else {
                assert(after.present@.contains(x));
                if !before.present@.contains(x) {
                    let i = choose|i: int| 0 <= i < 5 && f[i] == Response::Yellow && guess[i] == x;
                }
                assert(holds_letter(before, x));
            }
        }
    }
}

/// The answer is never ruled out: where the constraints admit a word and the
/// feedback applied is what that word gives to the guess, the new constraints
/// admit it too.
pub proof fn lemma_answer_survives(before: Constraints, after: Constraints, guess: Word, answer: Word, f: Feedback)
    requires
        before.admits(answer),
        forall|i: int| 0 <= i < 5 ==> f[i] == mark(answer, guess, i),
        round_applied(before, after, guess, f),
    ensures
        after.admits(answer),
{
    assert forall|i: int| 0 <= i < 5 && (#[trigger] after.confirmed[i]) is Some implies answer[i]
        == after.confirmed[i]->0 by {
        if f[i] != Response::Green {
            assert(after.confirmed[i] == before.confirmed[i]);
        }
    }
    assert forall|k: int| 0 <= k < after.present@.len() implies has_letter(answer, #[trigger] after.present@[k]) by {
        let x = after.present@[k];
        assert(after.present@.contains(x));
        if before.present@.contains(x) {
            let j = choose|j: int| 0 <= j < before.present@.len() && before.present@[j] == x;
            assert(has_letter(answer, before.present@[j]));
        } else {
            let i = choose|i: int| 0 <= i < 5 && f[i] == Response::Yellow && guess[i] == x;
            assert(mark(answer, guess, i) == Response::Yellow);
        }
    }
    assert forall|k: int| 0 <= k < after.misplaced@.len() && (#[trigger] after.misplaced@[k]).0 < 5 implies answer[after.misplaced@[k].0 as int]
        != after.misplaced@[k].1 by {
        let x = after.misplaced@[k];
        assert(after.misplaced@.contains(x));
        if before.misplaced@.contains(x) {
            let j = choose|j: int| 0 <= j < before.misplaced@.len() && before.misplaced@[j] == x;
            assert(x.0 < 5 ==> answer[before.misplaced@[j].0 as int] != before.misplaced@[j].1);
        } else {
            let i = choose|i: int| 0 <= i < 5 && f[i] == Response::Yellow && x == (i as usize, guess[i]);
            assert(mark(answer, guess, i) == Response::Yellow);
        }
    }
    assert forall|k: int| 0 <= k < after.absent@.len() implies !has_letter(answer, #[trigger] after.absent@[k]) by {
        let x = after.absent@[k];
        assert(after.absent@.contains(x));
        if before.absent@.contains(x) {
            let j = choose|j: int| 0 <= j < before.absent@.len() && before.absent@[j] == x;
            assert(!has_letter(answer, before.absent@[j]));
        } else {
            let i = choose|i: int| 0 <= i < 5 && f[i] == Response::Black && guess[i] == x;
            assert(mark(answer, guess, i) == Response::Black);
        }
    }
}

/// The words of `words` that, were they the answer, would give `f` to `guess`.
pub open spec fn giving(words: Seq<Word>, guess: Word, f: Feedback) -> Seq<Word>
    decreases words.len(),
{
    if words.len() == 0 {
        Seq::empty()
    } else {
        let rest = giving(words.drop_last(), guess, f);
        if gives(words.last(), guess, f) {
            rest.push(words.last())
        } else {
            rest
        }
    }
}

/// Where the constraints admit the answer, every letter they know to occur
/// after a round of the answer's feedback is a letter of the answer.
proof fn lemma_known_letters_in_answer(before: Constraints, after: Constraints, guess: Word, answer: Word)
    requires
        before.admits(answer),
        round_applied(before, after, guess, feedback_for(answer, guess)),
    ensures
        forall|x: char| holds_letter(after, x) ==> has_letter(answer, x),
{
    let f = feedback_for(answer, guess);
    assert forall|x: char| holds_letter(after, x) implies has_letter(answer, x) by {
        if exists|i: int| 0 <= i < 5 && #[trigger] after.confirmed[i] == Some(x) {
            let i = choose|i: int| 0 <= i < 5 && #[trigger] after.confirmed[i] == Some(x);
            if f[i] != Response::Green {
                assert(before.confirmed[i] == Some(x));
            }
            assert(answer[i] == x);
        } else if before.present@.contains(x) {
            let j = choose|j: int| 0 <= j < before.present@.len() && before.present@[j] == x;
            assert(has_letter(answer, before.present@[j]));
        } else {
            let i = choose|i: int| 0 <= i < 5 && f[i] == Response::Yellow && guess[i] == x;
            assert(mark(answer, guess, i) == Response::Yellow);
        }
    }
}

/// Of the words that the constraints admit, a round of the feedback that an
/// admitted answer gives keeps exactly the words that would give the same.
pub proof fn lemma_round_admits(before: Constraints, after: Constraints, guess: Word, answer: Word, w: Word)
    requires
        before.admits(w),
        before.admits(answer),
        round_applied(before, after, guess, feedback_for(answer, guess)),
    ensures
        after.admits(w) <==> gives(w, guess, feedback_for(answer, guess)),
{
    let f = feedback_for(answer, guess);
    if gives(w, guess, f) {
        lemma_answer_survives(before, after, guess, w, f);
    }
    if after.admits(w) {
        lemma_known_letters_in_answer(before, after, guess, answer);
        assert forall|i: int| 0 <= i < 5 implies #[trigger] mark(w, guess, i) == f[i] by {
            if f[i] == Response::Green {
                assert(after.confirmed[i] == Some(guess[i]));
            } else if f[i] == Response::Yellow {
                assert(after.present@.contains(guess[i]));
                let k = choose|k: int| 0 <= k < after.present@.len() && after.present@[k] == guess[i];
                assert(has_letter(w, after.present@[k]));
                assert(after.misplaced@.contains((i as usize, guess[i])));
                let m = choose|m: int|
                    0 <= m < after.misplaced@.len() && after.misplaced@[m] == (i as usize, guess[i]);
                assert(w[after.misplaced@[m].0 as int] != after.misplaced@[m].1);
            } else {
                assert(f[i] == mark(answer, guess, i));
                assert(!has_letter(answer, guess[i]));
                assert(!holds_letter(after, guess[i]));
                assert(absent_in_round(guess, f, guess[i]));
                assert(after.absent@.contains(guess[i]));
                let k = choose|k: int| 0 <= k < after.absent@.len() && after.absent@[k] == guess[i];
                assert(!has_letter(w, after.absent@[k]));
            }
        }
    }
}

/// Filtering a list that the constraints admit, after a round of the feedback
/// that an admitted answer gives, keeps the words that would give the same.
pub proof fn lemma_filter_round(words: Seq<Word>, before: Constraints, after: Constraints, guess: Word, answer: Word)
    requires
        forall|k: int| 0 <= k < words.len() ==> before.admits(#[trigger] words[k]),
        before.admits(answer),
        round_applied(before, after, guess, feedback_for(answer, guess)),
    ensures
        filtered(words, after) == giving(words, guess, feedback_for(answer, guess)),
    decreases words.len(),
{
    if words.len() > 0 {
        let rest = words.drop_last();
        assert forall|k: int| 0 <= k < rest.len() implies before.admits(#[trigger] rest[k]) by {
            assert(rest[k] == words[k]);
        }
        lemma_filter_round(rest, before, after, guess, answer);
        assert(before.admits(words[words.len() - 1]));
        lemma_round_admits(before, after, guess, answer, words.last());
    }
}

} // verus!
