use vstd::prelude::*;

verus! {

/// How often each letter was seen, as pairs of a letter and its count,
/// each letter at most once. (vstd's hash maps give `char` keys no model, so
/// a short list of pairs keeps the counts provable; a table holds a few dozen
/// letters at most.)
pub struct LetterCounts {
    entries: Vec<(char, u128)>,
}

/// The count that the last pair for `c` holds, or 0 if there is none.
pub open spec fn lookup(s: Seq<(char, u128)>, c: char) -> int
    decreases s.len(),
{
    if s.len() == 0 {
        0
    } else if s.last().0 == c {
        s.last().1 as int
    } else {
        lookup(s.drop_last(), c)
    }
}

/// Whether no letter has two pairs.
pub open spec fn unique_keys(s: Seq<(char, u128)>) -> bool {
    forall|j: int, k: int| 0 <= j < s.len() && 0 <= k < s.len() && j != k ==> s[j].0 != s[k].0
}

proof fn lemma_lookup_at(s: Seq<(char, u128)>, k: int, c: char)
    requires
        unique_keys(s),
        0 <= k < s.len(),
        s[k].0 == c,
    ensures
        lookup(s, c) == s[k].1,
    decreases s.len(),
{
    if k != s.len() - 1 {
        assert(s.last().0 != c);
        let rest = s.drop_last();
        assert(rest[k] == s[k]);
        lemma_lookup_at(rest, k, c);
    }
}

proof fn lemma_lookup_missing(s: Seq<(char, u128)>, c: char)
    requires
        forall|k: int| 0 <= k < s.len() ==> s[k].0 != c,
    ensures
        lookup(s, c) == 0,
    decreases s.len(),
{
    if s.len() > 0 {
        let rest = s.drop_last();
        assert forall|k: int| 0 <= k < rest.len() implies rest[k].0 != c by {
            assert(rest[k] == s[k]);
        }
        lemma_lookup_missing(rest, c);
    }
}

impl LetterCounts {
    /// Whether the pairs hold each letter at most once.
    pub closed spec fn wf(&self) -> bool {
        unique_keys(self.entries@)
    }

    /// How often `c` was seen.
    pub closed spec fn count(&self, c: char) -> int {
        lookup(self.entries@, c)
    }

    /// No letter seen yet.
    pub fn new() -> (r: LetterCounts)
        ensures
            r.wf(),
            forall|c: char| #[trigger] r.count(c) == 0,
    {
        LetterCounts { entries: Vec::new() }
    }

    /// Returns how often `c` was seen.
    pub fn get(&self, c: char) -> (r: u128)
        requires
            self.wf(),
        ensures
            r == self.count(c),
    {
        let mut k: usize = 0;
        while k < self.entries.len()
            invariant
                k <= self.entries@.len(),
                unique_keys(self.entries@),
                forall|j: int| 0 <= j < k ==> self.entries@[j].0 != c,
            decreases self.entries@.len() - k,
        {
            if self.entries[k].0 == c {
                proof {
                    lemma_lookup_at(self.entries@, k as int, c);
                }
                return self.entries[k].1;
            }
            k = k + 1;
        }
        proof {
            lemma_lookup_missing(self.entries@, c);
        }
        0
    }

    /// Adds one sighting of `c`.
    pub fn add_one(&mut self, c: char)
        requires
            old(self).wf(),
            old(self).count(c) < u128::MAX,
        ensures
            final(self).wf(),
            final(self).count(c) == old(self).count(c) + 1,
            forall|d: char| d != c ==> #[trigger] final(self).count(d) == old(self).count(d),
    {
        let ghost s = self.entries@;
        let mut k: usize = 0;
        while k < self.entries.len()
            invariant
                self.entries@ == s,
                old(self).entries@ == s,
                unique_keys(s),
                lookup(s, c) < u128::MAX,
                k <= s.len(),
                forall|j: int| 0 <= j < k ==> s[j].0 != c,
            decreases s.len() - k,
        {
            if self.entries[k].0 == c {
                let n = self.entries[k].1;
                proof {
                    lemma_lookup_at(s, k as int, c);
                }
                self.entries.set(k, (c, n + 1));
                proof {
                    let t = self.entries@;
                    assert(t == s.update(k as int, (c, (n + 1) as u128)));
                    assert(unique_keys(t)) by {
                        assert forall|i: int, j: int|
                            0 <= i < t.len() && 0 <= j < t.len() && i != j implies t[i].0 != t[j].0 by {
                            assert(s[i].0 != s[j].0);
                        }
                    }
                    lemma_lookup_at(t, k as int, c);
                    assert forall|d: char| d != c implies #[trigger] lookup(t, d) == lookup(s, d) by {
                        if exists|i: int| 0 <= i < s.len() && s[i].0 == d {
                            let i = choose|i: int| 0 <= i < s.len() && s[i].0 == d;
                            lemma_lookup_at(s, i, d);
                            lemma_lookup_at(t, i, d);
                        } else {
                            lemma_lookup_missing(s, d);
                            assert forall|i: int| 0 <= i < t.len() implies t[i].0 != d by {
                                assert(s[i].0 != d);
                            }
                            lemma_lookup_missing(t, d);
                        }
                    }
                }
                return;
            }
            k = k + 1;
        }
        proof {
            lemma_lookup_missing(s, c);
        }
        self.entries.push((c, 1));
        proof {
            let t = self.entries@;
            assert(t.drop_last() =~= s);
            assert(unique_keys(t)) by {
                assert forall|i: int, j: int|
                    0 <= i < t.len() && 0 <= j < t.len() && i != j implies t[i].0 != t[j].0 by {
                    if i < s.len() && j < s.len() {
                        assert(s[i].0 != s[j].0);
                    } else if i < s.len() {
                        assert(s[i].0 != c);
                    } else {
                        assert(s[j].0 != c);
                    }
                }
            }
        }
    }
}

} // verus!
