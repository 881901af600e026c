use vstd::prelude::*;

use crate::counts::LetterCounts;
use crate::word::{distinct_count, distinct_letters, Word};

verus! {

/// How many words of `words` have letter `c` at position `i`.
pub open spec fn count_at(words: Seq<Word>, i: int, c: char) -> nat
    decreases words.len(),
{
    if words.len() == 0 {
        0
    } else {
        count_at(words.drop_last(), i, c) + if words.last()[i] == c {
            1nat
        } else {
            0nat
        }
    }
}

/// The frequency of `c` at position `i` of the answers, counted only where
/// the position is not yet confirmed.
pub open spec fn pos_freq(answers: Seq<Word>, confirmed: [Option<char>; 5], i: int, c: char) -> nat {
    if confirmed[i] is None {
        count_at(answers, i, c)
    } else {
        0
    }
}

/// The frequency of `c` over all positions that are not yet confirmed.
pub open spec fn global_freq(answers: Seq<Word>, confirmed: [Option<char>; 5], c: char) -> nat {
    pos_freq(answers, confirmed, 0, c)
        + pos_freq(answers, confirmed, 1, c)
        + pos_freq(answers, confirmed, 2, c)
        + pos_freq(answers, confirmed, 3, c)
        + pos_freq(answers, confirmed, 4, c)
}

/// What letter `i` of `w` adds to its score: nothing where it repeats the
/// confirmed letter, else its global frequency plus its frequency at `i`.
pub open spec fn letter_score(answers: Seq<Word>, confirmed: [Option<char>; 5], w: Word, i: int) -> nat {
    if confirmed[i] == Some(w[i]) {
        0
    } else {
        global_freq(answers, confirmed, w[i]) + pos_freq(answers, confirmed, i, w[i])
    }
}

/// The score of a guess against the answers still possible.
pub open spec fn score(answers: Seq<Word>, confirmed: [Option<char>; 5], w: Word) -> nat {
    letter_score(answers, confirmed, w, 0)
        + letter_score(answers, confirmed, w, 1)
        + letter_score(answers, confirmed, w, 2)
        + letter_score(answers, confirmed, w, 3)
        + letter_score(answers, confirmed, w, 4)
}

/// The scores of `cands`, one for each, in order.
pub open spec fn scores_of(cands: Seq<Word>, answers: Seq<Word>, confirmed: [Option<char>; 5]) -> Seq<int> {
    Seq::new(cands.len(), |j: int| score(answers, confirmed, cands[j]) as int)
}

/// The offline score of a word of a dictionary: the frequencies of its letters
/// at their positions, divided by six less its number of different letters.
pub open spec fn dictionary_score(words: Seq<Word>, w: Word) -> int {
    let total = count_at(words, 0, w[0]) + count_at(words, 1, w[1]) + count_at(words, 2, w[2])
        + count_at(words, 3, w[3]) + count_at(words, 4, w[4]);
    total as int / (6 - distinct_count(w@))
}

/// The offline scores of the words of a dictionary, in order.
pub open spec fn dictionary_scores(words: Seq<Word>) -> Seq<int> {
    Seq::new(words.len(), |j: int| dictionary_score(words, words[j]))
}

/// Whether `idx` lists the positions of the positive scores of `sc`, each once,
/// highest score first and, among equal scores, in their order in `sc`.
pub open spec fn ordered(idx: Seq<int>, sc: Seq<int>) -> bool {
    &&& forall|k: int| 0 <= k < idx.len() ==> 0 <= #[trigger] idx[k] < sc.len() && sc[idx[k]] > 0
    &&& forall|j: int| 0 <= j < sc.len() && #[trigger] sc[j] > 0 ==> idx.contains(j)
    &&& forall|k: int, l: int|
        0 <= k < l < idx.len() ==> sc[idx[k]] > sc[idx[l]] || (sc[idx[k]] == sc[idx[l]] && idx[k]
            < idx[l])
}

/// Whether `r` is `cands` with its words of positive score `sc` kept and put in
/// that order.
pub open spec fn arranged(r: Seq<Word>, cands: Seq<Word>, sc: Seq<int>) -> bool {
    exists|idx: Seq<int>|
        #[trigger] ordered(idx, sc) && r.len() == idx.len() && forall|k: int|
            0 <= k < r.len() ==> r[k] == cands[idx[k]]
}

/// The ranking of `cands` by `sc`: the one arrangement that `arranged` allows.
pub open spec fn ranked(cands: Seq<Word>, sc: Seq<int>) -> Seq<Word> {
    choose|r: Seq<Word>| arranged(r, cands, sc)
}

/// Two index lists in the order of the same scores are the same list.
proof fn lemma_ordered_unique(a: Seq<int>, b: Seq<int>, sc: Seq<int>)
    requires
        ordered(a, sc),
        ordered(b, sc),
    ensures
        a == b,
{
    assert forall|k: int| 0 <= k < a.len() && k < b.len() implies a[k] == b[k] by {
        if a[k] != b[k] {
            lemma_first_difference(a, b, sc, k);
        }
    }
    if a.len() < b.len() {
        let x = b[a.len() as int];
        assert(a.contains(x));
        let m = choose|m: int| 0 <= m < a.len() && a[m] == x;
        assert(b[m] == a[m]);
    } else if b.len() < a.len() {
        let x = a[b.len() as int];
        assert(b.contains(x));
        let m = choose|m: int| 0 <= m < b.len() && b[m] == x;
        assert(a[m] == b[m]);
    }
    assert(a =~= b);
}

/// Two index lists in the order of the same scores cannot first differ at `k`.
proof fn lemma_first_difference(a: Seq<int>, b: Seq<int>, sc: Seq<int>, k: int)
    requires
        ordered(a, sc),
        ordered(b, sc),
        0 <= k < a.len(),
        k < b.len(),
    ensures
        a[k] == b[k],
    decreases k,
{
    if a[k] != b[k] {
        assert forall|j: int| 0 <= j < k implies a[j] == b[j] by {
            lemma_first_difference(a, b, sc, j);
        }
        let x = a[k];
        let y = b[k];
        assert(sc[x] > 0 && sc[y] > 0);
        assert(b.contains(x));
        let m = choose|m: int| 0 <= m < b.len() && b[m] == x;
        if m < k {
            assert(a[m] == x);
        }
        assert(a.contains(y));
        let n = choose|n: int| 0 <= n < a.len() && a[n] == y;
        if n < k {
            assert(b[n] == y);
        }
        assert(m > k && n > k);
    }
}

/// An arrangement of `cands` by `sc` is the ranking.
pub proof fn lemma_ranked_unique(r: Seq<Word>, cands: Seq<Word>, sc: Seq<int>)
    requires
        arranged(r, cands, sc),
    ensures
        r == ranked(cands, sc),
{
    let q = ranked(cands, sc);
    let ia = choose|idx: Seq<int>|
        #[trigger] ordered(idx, sc) && r.len() == idx.len() && forall|k: int| 0 <= k < r.len() ==> r[k] == cands[idx[k]];
    let ib = choose|idx: Seq<int>|
        #[trigger] ordered(idx, sc) && q.len() == idx.len() && forall|k: int| 0 <= k < q.len() ==> q[k] == cands[idx[k]];
    lemma_ordered_unique(ia, ib, sc);
    assert(r =~= q);
}

/// Ranking never adds a word: an arrangement is at most as long as the list.
pub proof fn lemma_arranged_shrinks(r: Seq<Word>, cands: Seq<Word>, sc: Seq<int>)
    requires
        sc.len() == cands.len(),
        arranged(r, cands, sc),
    ensures
        r.len() <= cands.len(),
{
    let idx = choose|idx: Seq<int>|
        #[trigger] ordered(idx, sc) && r.len() == idx.len() && forall|k: int| 0 <= k < r.len() ==> r[k] == cands[idx[k]];
    assert(idx.no_duplicates()) by {
        assert forall|k: int, l: int| 0 <= k < idx.len() && 0 <= l < idx.len() && k != l implies idx[k] != idx[l] by {
            if k < l {
                assert(sc[idx[k]] > sc[idx[l]] || (sc[idx[k]] == sc[idx[l]] && idx[k] < idx[l]));
            } else {
                assert(sc[idx[l]] > sc[idx[k]] || (sc[idx[l]] == sc[idx[k]] && idx[l] < idx[k]));
            }
        }
    }
    idx.unique_seq_to_set();
    let range = vstd::set_lib::set_int_range(0, cands.len() as int);
    vstd::set_lib::lemma_int_range(0, cands.len() as int);
    assert(idx.to_set().subset_of(range)) by {
        assert forall|x: int| idx.to_set().contains(x) implies range.contains(x) by {
            let k = choose|k: int| 0 <= k < idx.len() && idx[k] == x;
        }
    }
    vstd::set_lib::lemma_len_subset(idx.to_set(), range);
}

proof fn lemma_count_bound(words: Seq<Word>, i: int, c: char)
    ensures
        count_at(words, i, c) <= words.len(),
    decreases words.len(),
{
    if words.len() > 0 {
        lemma_count_bound(words.drop_last(), i, c);
    }
}

proof fn lemma_count_member(words: Seq<Word>, k: int, i: int)
    requires
        0 <= k < words.len(),
    ensures
        count_at(words, i, words[k][i]) >= 1,
    decreases words.len(),
{
    if k < words.len() - 1 {
        assert(words.drop_last()[k] == words[k]);
        lemma_count_member(words.drop_last(), k, i);
    }
}

/// Counts, for each letter, the words of `words` that have it at position `i`.
pub fn position_counts(words: &Vec<Word>, i: usize) -> (r: LetterCounts)
    requires
        i < 5,
    ensures
        r.wf(),
        forall|c: char| #[trigger] r.count(c) == count_at(words@, i as int, c),
{
    let mut t = LetterCounts::new();
    let mut j: usize = 0;
    while j < words.len()
        invariant
            i < 5,
            j <= words@.len(),
            t.wf(),
            forall|c: char| #[trigger] t.count(c) == count_at(words@.subrange(0, j as int), i as int, c),
        decreases words@.len() - j,
    {
        let c = words[j][i];
        let ghost before = words@.subrange(0, j as int);
        let ghost after = words@.subrange(0, j + 1);
        proof {
            assert(after.drop_last() =~= before);
            lemma_count_bound(before, i as int, c);
        }
        t.add_one(c);
        assert forall|d: char| #[trigger] t.count(d) == count_at(after, i as int, d) by {
            assert(after.last() == words@[j as int]);
        }
        j = j + 1;
    }
    assert(words@.subrange(0, words@.len() as int) =~= words@);
    t
}

/// The letter frequencies of a dictionary, one table for each position.
pub fn analyze_freq(words: &Vec<Word>) -> (r: [LetterCounts; 5])
    ensures
        forall|i: int| 0 <= i < 5 ==> (#[trigger] r[i]).wf(),
        forall|i: int, c: char| 0 <= i < 5 ==> #[trigger] r[i].count(c) == count_at(words@, i, c),
{
    [
        position_counts(words, 0),
        position_counts(words, 1),
        position_counts(words, 2),
        position_counts(words, 3),
        position_counts(words, 4),
    ]
}

/// The frequency tables of the positions not yet confirmed; the table of a
/// confirmed position is empty.
fn open_position_counts(answers: &Vec<Word>, confirmed: &[Option<char>; 5]) -> (r: [LetterCounts; 5])
    ensures
        forall|i: int| 0 <= i < 5 ==> (#[trigger] r[i]).wf(),
        forall|i: int, c: char|
            0 <= i < 5 ==> #[trigger] r[i].count(c) == pos_freq(answers@, *confirmed, i, c),
{
    let t0 = if confirmed[0].is_none() { position_counts(answers, 0) } else { LetterCounts::new() };
    let t1 = if confirmed[1].is_none() { position_counts(answers, 1) } else { LetterCounts::new() };
    let t2 = if confirmed[2].is_none() { position_counts(answers, 2) } else { LetterCounts::new() };
    let t3 = if confirmed[3].is_none() { position_counts(answers, 3) } else { LetterCounts::new() };
    let t4 = if confirmed[4].is_none() { position_counts(answers, 4) } else { LetterCounts::new() };
    [t0, t1, t2, t3, t4]
}

/// What letter `i` of `w` adds to its score, from the tables of the answers.
fn letter_points(
    tables: &[LetterCounts; 5],
    confirmed: &[Option<char>; 5],
    w: &Word,
    i: usize,
    Ghost(answers): Ghost<Seq<Word>>,
) -> (r: u128)
    requires
        i < 5,
        answers.len() <= u64::MAX,
        forall|p: int| 0 <= p < 5 ==> (#[trigger] tables[p]).wf(),
        forall|p: int, c: char|
            0 <= p < 5 ==> #[trigger] tables[p].count(c) == pos_freq(answers, *confirmed, p, c),
    ensures
        r == letter_score(answers, *confirmed, *w, i as int),
        r <= 6 * u64::MAX,
{
    let c = w[i];
    if confirmed[i] == Some(c) {
        return 0;
    }
    proof {
        lemma_count_bound(answers, 0, c);
        lemma_count_bound(answers, 1, c);
        lemma_count_bound(answers, 2, c);
        lemma_count_bound(answers, 3, c);
        lemma_count_bound(answers, 4, c);
        assert(tables[0].count(c) == pos_freq(answers, *confirmed, 0, c));
        assert(tables[1].count(c) == pos_freq(answers, *confirmed, 1, c));
        assert(tables[2].count(c) == pos_freq(answers, *confirmed, 2, c));
        assert(tables[3].count(c) == pos_freq(answers, *confirmed, 3, c));
        assert(tables[4].count(c) == pos_freq(answers, *confirmed, 4, c));
        assert(tables[i as int].count(c) == pos_freq(answers, *confirmed, i as int, c));
    }
    let global = tables[0].get(c) + tables[1].get(c) + tables[2].get(c) + tables[3].get(c)
        + tables[4].get(c);
    global + tables[i].get(c)
}

/// The score of `w`, from the tables of the answers.
fn score_with(
    tables: &[LetterCounts; 5],
    confirmed: &[Option<char>; 5],
    w: &Word,
    Ghost(answers): Ghost<Seq<Word>>,
) -> (r: u128)
    requires
        answers.len() <= u64::MAX,
        forall|p: int| 0 <= p < 5 ==> (#[trigger] tables[p]).wf(),
        forall|p: int, c: char|
            0 <= p < 5 ==> #[trigger] tables[p].count(c) == pos_freq(answers, *confirmed, p, c),
    ensures
        r == score(answers, *confirmed, *w),
{
    let p0 = letter_points(tables, confirmed, w, 0, Ghost(answers));
    let p1 = letter_points(tables, confirmed, w, 1, Ghost(answers));
    let p2 = letter_points(tables, confirmed, w, 2, Ghost(answers));
    let p3 = letter_points(tables, confirmed, w, 3, Ghost(answers));
    let p4 = letter_points(tables, confirmed, w, 4, Ghost(answers));
    p0 + p1 + p2 + p3 + p4
}

/// Returns the score of guess `w` against the answers still possible.
pub fn word_score(answers: &Vec<Word>, confirmed: &[Option<char>; 5], w: &Word) -> (r: u128)
    ensures
        r == score(answers@, *confirmed, *w),
{
    let tables = open_position_counts(answers, confirmed);
    let n: usize = answers.len();
    assert(answers@.len() <= u64::MAX) by {
        assert(n == answers@.len());
        assert(usize::MAX == u32::MAX || usize::MAX == u64::MAX);
    }
    score_with(&tables, confirmed, w, Ghost(answers@))
}

/// Whether index `a` goes before index `b`: higher score first, then lower index.
spec fn goes_before(sc: Seq<u128>, a: usize, b: usize) -> bool {
    sc[a as int] > sc[b as int] || (sc[a as int] == sc[b as int] && a < b)
}

/// Inserting index `j`, above every index present, before the first index of
/// lower score keeps the indices in order.
proof fn lemma_insert_in_order(old_sorted: Seq<usize>, t: Seq<usize>, p: int, j: usize, scores: Seq<u128>)
    requires
        j < scores.len(),
        scores[j as int] > 0,
        0 <= p <= old_sorted.len(),
        t == old_sorted.insert(p, j),
        forall|k: int| 0 <= k < old_sorted.len() ==> (#[trigger] old_sorted[k]) < j && scores[old_sorted[k] as int] > 0,
        forall|i: int| 0 <= i < j && #[trigger] scores[i] > 0 ==> old_sorted.contains(i as usize),
        forall|k: int, l: int| 0 <= k < l < old_sorted.len() ==> goes_before(scores, old_sorted[k], old_sorted[l]),
        forall|k: int| 0 <= k < p ==> scores[(#[trigger] old_sorted[k]) as int] >= scores[j as int],
        p < old_sorted.len() ==> scores[old_sorted[p] as int] < scores[j as int],
    ensures
        forall|k: int| 0 <= k < t.len() ==> (#[trigger] t[k]) < j + 1 && scores[t[k] as int] > 0,
        forall|i: int| 0 <= i < j + 1 && #[trigger] scores[i] > 0 ==> t.contains(i as usize),
        forall|k: int, l: int| 0 <= k < l < t.len() ==> goes_before(scores, t[k], t[l]),
{
    let s = scores[j as int];
    old_sorted.insert_ensures(p, j);
    assert(t[p] == j);
    assert forall|k: int| 0 <= k < t.len() implies (#[trigger] t[k]) < j + 1 && scores[t[k] as int] > 0 by {
        if k > p {
            assert(t[k] == old_sorted[k - 1]);
        }
    }
    assert forall|i: int| 0 <= i < j + 1 && #[trigger] scores[i] > 0 implies t.contains(i as usize) by {
        if i == j {
            assert(t[p] == i as usize);
        } else {
            assert(old_sorted.contains(i as usize));
            let k = choose|k: int| 0 <= k < old_sorted.len() && old_sorted[k] == i as usize;
            if k < p {
                assert(t[k] == i as usize);
            } else {
                assert(t[k + 1] == i as usize);
            }
        }
    }
    assert forall|k: int, l: int| 0 <= k < l < t.len() implies goes_before(scores, t[k], t[l]) by {
        if l < p {
            assert(t[k] == old_sorted[k] && t[l] == old_sorted[l]);
        } else if l == p {
            assert(t[k] == old_sorted[k]);
            assert(scores[old_sorted[k] as int] >= s);
        } else if k < p {
            assert(t[k] == old_sorted[k] && t[l] == old_sorted[l - 1]);
        } else if k == p {
            assert(t[l] == old_sorted[l - 1]);
            if l - 1 > p {
                assert(goes_before(scores, old_sorted[p], old_sorted[l - 1]));
            }
        } else {
            assert(t[k] == old_sorted[k - 1] && t[l] == old_sorted[l - 1]);
        }
    }
}

/// The indices of the positive scores, highest first; equal scores keep their order.
fn order_by_score(scores: &Vec<u128>) -> (r: Vec<usize>)
    ensures
        forall|k: int| 0 <= k < r@.len() ==> (#[trigger] r@[k]) < scores@.len() && scores@[r@[k] as int] > 0,
        forall|j: int| 0 <= j < scores@.len() && #[trigger] scores@[j] > 0 ==> r@.contains(j as usize),
        forall|k: int, l: int| 0 <= k < l < r@.len() ==> goes_before(scores@, r@[k], r@[l]),
{
    let mut sorted: Vec<usize> = Vec::new();
    let mut j: usize = 0;
    while j < scores.len()
        invariant
            j <= scores@.len(),
            forall|k: int| 0 <= k < sorted@.len() ==> (#[trigger] sorted@[k]) < j && scores@[sorted@[k] as int] > 0,
            forall|i: int| 0 <= i < j && #[trigger] scores@[i] > 0 ==> sorted@.contains(i as usize),
            forall|k: int, l: int| 0 <= k < l < sorted@.len() ==> goes_before(scores@, sorted@[k], sorted@[l]),
        decreases scores@.len() - j,
    {
        let s = scores[j];
        if s > 0 {
            let mut p: usize = 0;
            while p < sorted.len() && scores[sorted[p]] >= s
                invariant
                    p <= sorted@.len(),
                    j < scores@.len(),
                    s == scores@[j as int],
                    forall|k: int| 0 <= k < sorted@.len() ==> (#[trigger] sorted@[k]) < j,
                    forall|k: int| 0 <= k < p ==> scores@[(#[trigger] sorted@[k]) as int] >= s,
                decreases sorted@.len() - p,
            {
                p = p + 1;
            }
            let ghost old_sorted = sorted@;
            sorted.insert(p, j);
            proof {
                lemma_insert_in_order(old_sorted, sorted@, p as int, j, scores@);
            }
        }
        j = j + 1;
    }
    sorted
}

/// The words of `cands` at the positions `order`, in that order.
fn pick(cands: &Vec<Word>, order: &Vec<usize>) -> (r: Vec<Word>)
    requires
        forall|k: int| 0 <= k < order@.len() ==> (#[trigger] order@[k]) < cands@.len(),
    ensures
        r@.len() == order@.len(),
        forall|k: int| 0 <= k < r@.len() ==> r@[k] == cands@[#[trigger] order@[k] as int],
{
    let mut out: Vec<Word> = Vec::new();
    let mut k: usize = 0;
    while k < order.len()
        invariant
            k <= order@.len(),
            out@.len() == k,
            forall|m: int| 0 <= m < order@.len() ==> (#[trigger] order@[m]) < cands@.len(),
            forall|m: int| 0 <= m < k ==> out@[m] == cands@[#[trigger] order@[m] as int],
        decreases order@.len() - k,
    {
        out.push(cands[order[k]]);
        k = k + 1;
    }
    out
}

/// From the order of the exec scores, the arrangement of the words by `sc`.
proof fn lemma_arranged(r: Seq<Word>, cands: Seq<Word>, order: Seq<usize>, scores: Seq<u128>, sc: Seq<int>)
    requires
        sc.len() == cands.len(),
        scores.len() == cands.len(),
        scores.len() <= usize::MAX,
        forall|j: int| 0 <= j < sc.len() ==> sc[j] == #[trigger] scores[j] as int,
        forall|k: int| 0 <= k < order.len() ==> (#[trigger] order[k]) < scores.len() && scores[order[k] as int] > 0,
        forall|j: int| 0 <= j < scores.len() && #[trigger] scores[j] > 0 ==> order.contains(j as usize),
        forall|k: int, l: int| 0 <= k < l < order.len() ==> goes_before(scores, order[k], order[l]),
        r.len() == order.len(),
        forall|k: int| 0 <= k < r.len() ==> r[k] == cands[#[trigger] order[k] as int],
    ensures
        arranged(r, cands, sc),
{
    let idx = Seq::new(order.len(), |k: int| order[k] as int);
    assert forall|k: int| 0 <= k < idx.len() implies 0 <= #[trigger] idx[k] < sc.len() && sc[idx[k]] > 0 by {
        assert(scores[order[k] as int] > 0);
    }
    assert forall|j: int| 0 <= j < sc.len() && #[trigger] sc[j] > 0 implies idx.contains(j) by {
        assert(scores[j] > 0);
        let k = choose|k: int| 0 <= k < order.len() && order[k] == j as usize;
        assert(idx[k] == j);
    }
    assert forall|k: int, l: int| 0 <= k < l < idx.len() implies sc[idx[k]] > sc[idx[l]] || (sc[idx[k]]
        == sc[idx[l]] && idx[k] < idx[l]) by {
        assert(goes_before(scores, order[k], order[l]));
        assert(sc[idx[k]] == scores[order[k] as int] as int);
        assert(sc[idx[l]] == scores[order[l] as int] as int);
    }
    assert(ordered(idx, sc));
    assert forall|k: int| 0 <= k < r.len() implies r[k] == cands[idx[k]] by {
        assert(r[k] == cands[order[k] as int]);
    }
}

/// Ranks guesses by their letter frequencies in the answers still possible:
/// guesses of score zero are dropped, the rest sorted by descending score,
/// equal scores keeping their order.
pub fn rank(answers: &Vec<Word>, confirmed: &[Option<char>; 5], cands: &Vec<Word>) -> (r: Vec<Word>)
    ensures
        arranged(r@, cands@, scores_of(cands@, answers@, *confirmed)),
        r@ == ranked(cands@, scores_of(cands@, answers@, *confirmed)),
{
    let tables = open_position_counts(answers, confirmed);
    let n: usize = answers.len();
    assert(answers@.len() <= u64::MAX) by {
        assert(n == answers@.len());
        assert(usize::MAX == u32::MAX || usize::MAX == u64::MAX);
    }
    let mut scores: Vec<u128> = Vec::new();
    let mut j: usize = 0;
    while j < cands.len()
        invariant
            j <= cands@.len(),
            scores@.len() == j,
            answers@.len() <= u64::MAX,
            forall|p: int| 0 <= p < 5 ==> (#[trigger] tables[p]).wf(),
            forall|p: int, c: char|
                0 <= p < 5 ==> #[trigger] tables[p].count(c) == pos_freq(answers@, *confirmed, p, c),
            forall|m: int| 0 <= m < j ==> #[trigger] scores@[m] == score(answers@, *confirmed, cands@[m]),
        decreases cands@.len() - j,
    {
        let s = score_with(&tables, confirmed, &cands[j], Ghost(answers@));
        scores.push(s);
        j = j + 1;
    }
    let order = order_by_score(&scores);
    let r = pick(cands, &order);
    proof {
        lemma_arranged(r@, cands@, order@, scores@, scores_of(cands@, answers@, *confirmed));
        lemma_ranked_unique(r@, cands@, scores_of(cands@, answers@, *confirmed));
    }
    r
}

/// Orders a whole dictionary for later use, most useful words first: each
/// word scores the frequencies of its letters at their positions over the
/// dictionary, divided by six less its number of different letters, so that
/// words with repeated letters come later; equal scores keep their order.
pub fn preprocess(words: &Vec<Word>) -> (r: Vec<Word>)
    ensures
        arranged(r@, words@, dictionary_scores(words@)),
        forall|j: int| 0 <= j < words@.len() ==> r@.contains(#[trigger] words@[j]),
{
    let tables = analyze_freq(words);
    let n: usize = words.len();
    let mut scores: Vec<u128> = Vec::new();
    let mut j: usize = 0;
    while j < n
        invariant
            n == words@.len(),
            j <= n,
            scores@.len() == j,
            forall|p: int| 0 <= p < 5 ==> (#[trigger] tables[p]).wf(),
            forall|p: int, c: char| 0 <= p < 5 ==> #[trigger] tables[p].count(c) == count_at(words@, p, c),
            forall|m: int| 0 <= m < j ==> #[trigger] scores@[m] == dictionary_score(words@, words@[m]),
            forall|m: int| 0 <= m < j ==> #[trigger] scores@[m] > 0,
        decreases n - j,
    {
        let w = words[j];
        proof {
            assert(n <= u64::MAX) by {
                assert(usize::MAX == u32::MAX || usize::MAX == u64::MAX);
            }
            lemma_count_bound(words@, 0, w[0]);
            lemma_count_bound(words@, 1, w[1]);
            lemma_count_bound(words@, 2, w[2]);
            lemma_count_bound(words@, 3, w[3]);
            lemma_count_bound(words@, 4, w[4]);
            lemma_count_member(words@, j as int, 0);
            lemma_count_member(words@, j as int, 1);
            lemma_count_member(words@, j as int, 2);
            lemma_count_member(words@, j as int, 3);
            lemma_count_member(words@, j as int, 4);
            assert(tables[0].count(w[0]) == count_at(words@, 0, w[0]));
            assert(tables[1].count(w[1]) == count_at(words@, 1, w[1]));
            assert(tables[2].count(w[2]) == count_at(words@, 2, w[2]));
            assert(tables[3].count(w[3]) == count_at(words@, 3, w[3]));
            assert(tables[4].count(w[4]) == count_at(words@, 4, w[4]));
        }
        let total = tables[0].get(w[0]) + tables[1].get(w[1]) + tables[2].get(w[2])
            + tables[3].get(w[3]) + tables[4].get(w[4]);
        let divisor = 6 - distinct_letters(&w) as u128;
        assert(total / divisor >= 1) by (nonlinear_arith)
            requires
                total >= 5,
                1 <= divisor <= 5,
        ;
        scores.push(total / divisor);
        j = j + 1;
    }
    let order = order_by_score(&scores);
    let r = pick(words, &order);
    proof {
        lemma_arranged(r@, words@, order@, scores@, dictionary_scores(words@));
        assert forall|j: int| 0 <= j < words@.len() implies r@.contains(#[trigger] words@[j]) by {
            assert(scores@[j] > 0);
            let k = choose|k: int| 0 <= k < order@.len() && order@[k] == j as usize;
            assert(r@[k] == words@[j]);
        }
    }
    r
}

} // verus!
