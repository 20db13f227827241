use vstd::prelude::*;

use crate::model::{cell, in_span, materialized, span_len, span_lo, window};
use crate::penalties::{Retention, WFAOpts};

verus! {

/// The Match, Insert and Delete wavefronts of one materialized score over its
/// span of diagonals: position `j` holds diagonal `lo + j`.
pub struct ScoreEntry {
    pub score: usize,
    pub lo: usize,
    pub m: Vec<i64>,
    pub i: Vec<i64>,
    pub d: Vec<i64>,
}

/// The entry holds exactly the wavefronts that the recurrence defines, over
/// the span of its score.
pub open spec fn entry_matches(p: WFAOpts, t: Seq<u8>, q: Seq<u8>, e: ScoreEntry) -> bool {
    &&& materialized(p, e.score as int)
    &&& e.lo == span_lo(q, e.score as int)
    &&& e.m@.len() == span_len(t, q, e.score as int)
    &&& e.i@.len() == span_len(t, q, e.score as int)
    &&& e.d@.len() == span_len(t, q, e.score as int)
    &&& forall|j: int|
        0 <= j < e.m@.len() ==> #[trigger] e.m@[j] == cell(p, t, q, e.score as int, 2nat, e.lo + j)
    &&& forall|j: int|
        0 <= j < e.i@.len() ==> #[trigger] e.i@[j] == cell(p, t, q, e.score as int, 0nat, e.lo + j)
    &&& forall|j: int|
        0 <= j < e.d@.len() ==> #[trigger] e.d@[j] == cell(p, t, q, e.score as int, 1nat, e.lo + j)
}

impl ScoreEntry {
    /// The offset of the Match (`st == 2`), Insert (`st == 0`) or Delete state
    /// on diagonal `k`: unreached outside the span.
    pub fn offset(
        &self,
        st: u8,
        k: usize,
        Ghost(p): Ghost<WFAOpts>,
        Ghost(t): Ghost<Seq<u8>>,
        Ghost(q): Ghost<Seq<u8>>,
    ) -> (r: i64)
        requires
            entry_matches(p, t, q, *self),
            st <= 2,
        ensures
            r == cell(p, t, q, self.score as int, st as nat, k as int),
    {
        if k < self.lo || k - self.lo >= self.m.len() {
            assert(!in_span(t, q, self.score as int, k as int));
            return -1;
        }
        let j = k - self.lo;
        if st == 2 {
            self.m[j]
        } else if st == 0 {
            self.i[j]
        } else {
            self.d[j]
        }
    }
}

/// Past wavefronts by score.
pub struct WavefrontStore {
    entries: Vec<ScoreEntry>,
    retention: Retention,
    window: usize,
}

impl WavefrontStore {
    pub closed spec fn entries(&self) -> Seq<ScoreEntry> {
        self.entries@
    }

    /// The lowest score that the store still answers for once `cur` is stored.
    pub closed spec fn keep_from(&self, cur: int) -> int {
        match self.retention {
            Retention::Full => 0,
            Retention::Bounded => cur - self.window + 1,
        }
    }

    /// Entries hold the recurrence's wavefronts in increasing score order, up to
    /// `cur`, and every materialized score from `keep_from(cur)` to `cur` is there.
    pub closed spec fn inv(&self, p: WFAOpts, t: Seq<u8>, q: Seq<u8>, cur: int) -> bool {
        &&& self.window == window(p)
        &&& forall|j: int|
            0 <= j < self.entries@.len() ==> {
                &&& entry_matches(p, t, q, #[trigger] self.entries@[j])
                &&& self.entries@[j].score <= cur
            }
        &&& forall|i: int, j: int|
            0 <= i < j < self.entries@.len() ==> #[trigger] self.entries@[i].score
                < #[trigger] self.entries@[j].score
        &&& forall|s: int|
            #![trigger materialized(p, s)]
            self.keep_from(cur) <= s <= cur && materialized(p, s) ==> exists|j: int|
                0 <= j < self.entries@.len() && #[trigger] self.entries@[j].score == s
    }

    pub fn new(retention: Retention, span: usize) -> (r: WavefrontStore)
        ensures
            r.entries().len() == 0,
            r.keep_from(-1) <= 0,
            forall|p: WFAOpts, t: Seq<u8>, q: Seq<u8>|
                span == window(p) ==> #[trigger] r.inv(p, t, q, -1),
    {
        WavefrontStore { entries: Vec::new(), retention, window: span }
    }

    /// Index of the entry of score `s`, if it is stored.
    pub fn find(&self, s: usize, Ghost(p): Ghost<WFAOpts>, Ghost(t): Ghost<Seq<u8>>, Ghost(q): Ghost<Seq<u8>>, Ghost(cur): Ghost<int>) -> (r: Option<usize>)
        requires
            self.inv(p, t, q, cur),
            self.keep_from(cur) <= s,
        ensures
            match r {
                Some(j) => j < self.entries().len() && self.entries()[j as int].score == s
                    && entry_matches(p, t, q, self.entries()[j as int]),
                None => s > cur || !materialized(p, s as int),
            },
    {
        let mut j: usize = 0;
        while j < self.entries.len()
            invariant
                j <= self.entries@.len(),
                self.inv(p, t, q, cur),
                forall|i: int| 0 <= i < j ==> #[trigger] self.entries@[i].score != s,
            decreases self.entries@.len() - j,
        {
            if self.entries[j].score == s {
                return Some(j);
            }
            j = j + 1;
        }
        None
    }

    pub fn entry(&self, j: usize) -> (r: &ScoreEntry)
        requires
            j < self.entries().len(),
        ensures
            *r == self.entries()[j as int],
    {
        &self.entries[j]
    }

    /// Stores the wavefronts of the next materialized score and, when bounded,
    /// drops the entries that no later recurrence can reach.
    pub fn push(&mut self, e: ScoreEntry, Ghost(p): Ghost<WFAOpts>, Ghost(t): Ghost<Seq<u8>>, Ghost(q): Ghost<Seq<u8>>, Ghost(cur): Ghost<int>)
        requires
            old(self).inv(p, t, q, cur),
            entry_matches(p, t, q, e),
            cur < e.score,
            forall|s: int| cur < s < e.score ==> !#[trigger] materialized(p, s),
        ensures
            final(self).inv(p, t, q, e.score as int),
            final(self).keep_from(e.score as int) == e.score - window(p) + 1
                || final(self).keep_from(e.score as int) == 0,
    {
        let ghost s_new = e.score as int;
        let new_score = e.score;
        self.entries.push(e);
        assert forall|s: int|
            #![trigger materialized(p, s)]
            self.keep_from(s_new) <= s <= s_new && materialized(p, s) implies exists|j: int|
                0 <= j < self.entries@.len() && #[trigger] self.entries@[j].score == s by {
            if s == s_new {
                assert(self.entries@[self.entries@.len() - 1].score == s);
            } else {
                assert(s <= cur);
                assert(self.keep_from(cur) <= self.keep_from(s_new));
                let j = choose|j: int|
                    0 <= j < old(self).entries@.len() && #[trigger] old(self).entries@[j].score == s;
                assert(self.entries@[j].score == s);
            }
        }
        if self.retention == Retention::Bounded {
            while self.entries.len() > 0 && new_score >= self.window && self.entries[0].score
                <= new_score - self.window
                invariant
                    self.inv(p, t, q, s_new),
                    self.retention == Retention::Bounded,
                    new_score == s_new,
                decreases self.entries@.len(),
            {
                let ghost before = self.entries@;
                assert(before[0].score + window(p) <= s_new);
                self.entries.remove(0);
                assert forall|s: int|
                    #![trigger materialized(p, s)]
                    self.keep_from(s_new) <= s <= s_new && materialized(p, s) implies exists|j: int|
                        0 <= j < self.entries@.len() && #[trigger] self.entries@[j].score == s by {
                    let j = choose|j: int|
                        0 <= j < before.len() && #[trigger] before[j].score == s;
                    assert(j != 0);
                    assert(self.entries@[j - 1].score == s);
                }
                assert forall|i: int, j: int|
                    0 <= i < j < self.entries@.len() implies #[trigger] self.entries@[i].score
                        < #[trigger] self.entries@[j].score by {
                    assert(before[i + 1].score < before[j + 1].score);
                }
            }
        }
    }
}

} // verus!
