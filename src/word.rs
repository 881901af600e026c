use vstd::prelude::*;

verus! {

/// A five-letter word, one character per position.
pub type Word = [char; 5];

/// Whether `c` is an ASCII capital letter.
pub open spec fn is_upper(c: char) -> bool {
    'A' <= c <= 'Z'
}

/// Whether `c` is an ASCII letter, in either case.
pub open spec fn is_letter(c: char) -> bool {
    ('a' <= c <= 'z') || is_upper(c)
}

/// The lower-case form of a letter; other characters are unchanged.
pub open spec fn lower(c: char) -> char {
    if is_upper(c) {
        ((c as u32) + 32) as char
    } else {
        c
    }
}

/// Whether `c` occurs anywhere in `w`.
pub open spec fn has_letter(w: Word, c: char) -> bool {
    exists|i: int| 0 <= i < 5 && w[i] == c
}

/// The number of different characters in `s`.
pub open spec fn distinct_count(s: Seq<char>) -> nat
    decreases s.len(),
{
    if s.len() == 0 {
        0
    } else {
        distinct_count(s.drop_last()) + if s.drop_last().contains(s.last()) {
            0nat
        } else {
            1nat
        }
    }
}

/// The word a dictionary line stands for, if it is exactly five letters:
/// the letters in lower case.
pub open spec fn word_of_line(line: Seq<char>) -> Option<Word> {
    if line.len() == 5 && forall|i: int| 0 <= i < 5 ==> is_letter(#[trigger] line[i]) {
        Some([lower(line[0]), lower(line[1]), lower(line[2]), lower(line[3]), lower(line[4])])
    } else {
        None
    }
}

fn to_lower(c: char) -> (r: char)
    ensures
        r == lower(c),
{
    if c >= 'A' && c <= 'Z' {
        ((c as u8) + 32) as char
    } else {
        c
    }
}

/// Returns whether `c` occurs anywhere in `w`.
pub fn contains(w: &Word, c: char) -> (r: bool)
    ensures
        r == has_letter(*w, c),
{
    let mut i: usize = 0;
    while i < 5
        invariant
            i <= 5,
            forall|j: int| 0 <= j < i ==> w[j] != c,
        decreases 5 - i,
    {
        if w[i] == c {
            return true;
        }
        i = i + 1;
    }
    false
}

/// Counts the different letters of `w` (5 when no letter repeats).
pub fn distinct_letters(w: &Word) -> (r: usize)
    ensures
        r == distinct_count(w@),
        1 <= r <= 5,
{
    let mut count: usize = 0;
    let mut i: usize = 0;
    while i < 5
        invariant
            i <= 5,
            count == distinct_count(w@.subrange(0, i as int)),
            count <= i,
            i > 0 ==> count >= 1,
        decreases 5 - i,
    {
        let c = w[i];
        let mut seen = false;
        let mut j: usize = 0;
        while j < i
            invariant
                j <= i < 5,
                c == w@[i as int],
                seen <==> exists|k: int| 0 <= k < j && w@[k] == c,
            decreases i - j,
        {
            if w[j] == c {
                seen = true;
            }
            j = j + 1;
        }
        proof {
            let prev = w@.subrange(0, i as int);
            let next = w@.subrange(0, i + 1);
            assert(next.drop_last() =~= prev);
            assert(next.last() == c);
            if seen {
                let k = choose|k: int| 0 <= k < i && w@[k] == c;
                assert(prev[k] == c);
            } else {
                assert(!prev.contains(c));
            }
        }
        if !seen {
            count = count + 1;
        }
        i = i + 1;
    }
    assert(w@.subrange(0, 5) =~= w@);
    count
}

/// Reads a dictionary line: a word when the line is exactly five letters,
/// which are taken in lower case, and nothing otherwise.
pub fn parse_word(line: &Vec<char>) -> (r: Option<Word>)
    ensures
        r == word_of_line(line@),
{
    if line.len() != 5 {
        return None;
    }
    let mut i: usize = 0;
    while i < 5
        invariant
            i <= 5,
            line@.len() == 5,
            forall|j: int| 0 <= j < i ==> is_letter(#[trigger] line@[j]),
        decreases 5 - i,
    {
        let c = line[i];
        if !((c >= 'a' && c <= 'z') || (c >= 'A' && c <= 'Z')) {
            return None;
        }
        i = i + 1;
    }
    let w: Word = [
        to_lower(line[0]),
        to_lower(line[1]),
        to_lower(line[2]),
        to_lower(line[3]),
        to_lower(line[4]),
    ];
    Some(w)
}

/// The words of a dictionary, one line each: the lines that are words, in order.
pub open spec fn words_of_lines(lines: Seq<Vec<char>>) -> Seq<Word>
    decreases lines.len(),
{
    if lines.len() == 0 {
        Seq::empty()
    } else {
        let rest = words_of_lines(lines.drop_last());
        match word_of_line(lines.last()@) {
            Some(w) => rest.push(w),
            None => rest,
        }
    }
}

/// Reads a dictionary given as its lines; lines that are not words are dropped.
pub fn parse_dictionary(lines: &Vec<Vec<char>>) -> (r: Vec<Word>)
    ensures
        r@ == words_of_lines(lines@),
{
    let mut out: Vec<Word> = Vec::new();
    let mut i: usize = 0;
    while i < lines.len()
        invariant
            i <= lines@.len(),
            out@ == words_of_lines(lines@.subrange(0, i as int)),
        decreases lines@.len() - i,
    {
        assert(lines@.subrange(0, i + 1).drop_last() =~= lines@.subrange(0, i as int));
        match parse_word(&lines[i]) {
            Some(w) => out.push(w),
            None => {},
        }
        i = i + 1;
    }
    assert(lines@.subrange(0, lines@.len() as int) =~= lines@);
    out
}

} // verus!
