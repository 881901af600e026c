use vstd::prelude::*;

use crate::word::{contains, has_letter, Word};

verus! {

/// The mark given to one letter of a guess.
#[derive(Clone, Copy, Debug, PartialEq, Eq, Structural)]
pub enum Response {
    /// The letter does not occur in the answer.
    Black,
    /// The letter occurs in the answer, at another position.
    Yellow,
    /// The letter is at this position in the answer.
    Green,
}

/// The marks for the five letters of a guess.
pub type Feedback = [Response; 5];

/// The mark that a typed digit stands for: `0` absent, `1` present, `2` match.
pub open spec fn response_of_digit(c: char) -> Option<Response> {
    if c == '0' {
        Some(Response::Black)
    } else if c == '1' {
        Some(Response::Yellow)
    } else if c == '2' {
        Some(Response::Green)
    } else {
        None
    }
}

/// The feedback a line of five digits stands for.
pub open spec fn feedback_of_line(line: Seq<char>) -> Option<Feedback> {
    if line.len() == 5 && forall|i: int| 0 <= i < 5 ==> (#[trigger] response_of_digit(line[i])) is Some {
        Some(
            [
                response_of_digit(line[0])->0,
                response_of_digit(line[1])->0,
                response_of_digit(line[2])->0,
                response_of_digit(line[3])->0,
                response_of_digit(line[4])->0,
            ],
        )
    } else {
        None
    }
}

/// The mark that `answer` gives to letter `i` of `guess`: green where the
/// letters agree, yellow where the letter occurs elsewhere in the answer,
/// black where it does not occur at all.
pub open spec fn mark(answer: Word, guess: Word, i: int) -> Response {
    if answer[i] == guess[i] {
        Response::Green
    } else if has_letter(answer, guess[i]) {
        Response::Yellow
    } else {
        Response::Black
    }
}

/// The feedback that `answer` gives to `guess`, letter by letter.
pub open spec fn feedback_for(answer: Word, guess: Word) -> Feedback {
    [
        mark(answer, guess, 0),
        mark(answer, guess, 1),
        mark(answer, guess, 2),
        mark(answer, guess, 3),
        mark(answer, guess, 4),
    ]
}

/// Whether `w`, were it the answer, would give `f` to `guess`.
pub open spec fn gives(w: Word, guess: Word, f: Feedback) -> bool {
    forall|i: int| 0 <= i < 5 ==> #[trigger] mark(w, guess, i) == f[i]
}

/// Whether every letter of the feedback is a match.
pub open spec fn all_green(f: Feedback) -> bool {
    forall|i: int| 0 <= i < 5 ==> f[i] == Response::Green
}

impl Response {
    /// Reads one typed digit.
    pub fn from_digit(c: char) -> (r: Option<Response>)
        ensures
            r == response_of_digit(c),
    {
        if c == '0' {
            Some(Response::Black)
        } else if c == '1' {
            Some(Response::Yellow)
        } else if c == '2' {
            Some(Response::Green)
        } else {
            None
        }
    }
}

/// Reads a line of feedback: exactly five digits, each `0`, `1` or `2`.
pub fn parse_feedback(line: &Vec<char>) -> (r: Option<Feedback>)
    ensures
        r == feedback_of_line(line@),
{
    if line.len() != 5 {
        return None;
    }
    let mut out: Vec<Response> = Vec::new();
    let mut i: usize = 0;
    while i < 5
        invariant
            i <= 5,
            line@.len() == 5,
            out@.len() == i,
            forall|j: int| 0 <= j < i ==> (#[trigger] response_of_digit(line@[j])) is Some,
            forall|j: int| 0 <= j < i ==> out@[j] == response_of_digit(line@[j])->0,
        decreases 5 - i,
    {
        match Response::from_digit(line[i]) {
            Some(r) => out.push(r),
            None => return None,
        }
        i = i + 1;
    }
    Some([out[0], out[1], out[2], out[3], out[4]])
}

/// The feedback that `answer` gives to `guess`.
pub fn respond(answer: &Word, guess: &Word) -> (r: Feedback)
    ensures
        r == feedback_for(*answer, *guess),
{
    let mut out: Vec<Response> = Vec::new();
    let mut i: usize = 0;
    while i < 5
        invariant
            i <= 5,
            out@.len() == i,
            forall|j: int| 0 <= j < i ==> out@[j] == mark(*answer, *guess, j),
        decreases 5 - i,
    {
        let m = if answer[i] == guess[i] {
            Response::Green
        } else if contains(answer, guess[i]) {
            Response::Yellow
        } else {
            Response::Black
        };
        out.push(m);
        i = i + 1;
    }
    let r = [out[0], out[1], out[2], out[3], out[4]];
    assert(r =~= feedback_for(*answer, *guess));
    r
}

/// Returns whether every letter of the feedback is a match.
pub fn is_all_green(f: &Feedback) -> (r: bool)
    ensures
        r == all_green(*f),
{
    let mut i: usize = 0;
    while i < 5
        invariant
            i <= 5,
            forall|j: int| 0 <= j < i ==> f[j] == Response::Green,
        decreases 5 - i,
    {
        if f[i] != Response::Green {
            return false;
        }
        i = i + 1;
    }
    true
}

} // verus!
