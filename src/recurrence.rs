use vstd::prelude::*;

use crate::extend::{clip_offset, extend_diagonal};
use crate::model::{
    cell, del_offset, in_span, ins_offset, lemma_cell_range, mat_offset, materialized,
    num_diagonals, open_cost, source, span_len, span_lo, valid_penalties, window,
};
use crate::penalties::WFAOpts;
use crate::store::{entry_matches, ScoreEntry, WavefrontStore};

verus! {

/// Finds the stored wavefronts of score `s - d`, which the recurrence for `s`
/// reads; where there are none, that score is not materialized and every
/// source cell there is unreached.
pub fn lookup(
    store: &WavefrontStore,
    s: usize,
    d: usize,
    Ghost(p): Ghost<WFAOpts>,
    Ghost(t): Ghost<Seq<u8>>,
    Ghost(q): Ghost<Seq<u8>>,
    Ghost(cur): Ghost<int>,
) -> (r: Option<usize>)
    requires
        store.inv(p, t, q, cur),
        cur < s,
        forall|s2: int| cur < s2 < s ==> !#[trigger] materialized(p, s2),
        store.keep_from(cur) <= s - window(p) || store.keep_from(cur) <= 0,
        1 <= d <= window(p),
    ensures
        match r {
            Some(j) => {
                &&& j < store.entries().len()
                &&& d <= s
                &&& store.entries()[j as int].score == s - d
                &&& entry_matches(p, t, q, store.entries()[j as int])
            },
            None => {
                &&& (s < d || !materialized(p, s - d))
                &&& forall|st: nat, k: int| #[trigger] source(p, t, q, s as int, d as int, st, k) == -1
            },
        },
{
    if s < d {
        return None;
    }
    let r = store.find(s - d, Ghost(p), Ghost(t), Ghost(q), Ghost(cur));
    if r.is_none() {
        assert(!materialized(p, s - d));
        assert forall|st: nat, k: int| #[trigger] source(p, t, q, s as int, d as int, st, k) == -1 by {
            assert(cell(p, t, q, s - d, st, k) == -1);
        }
    }
    r
}

/// Reads diagonal `k` of the Match (`st == 2`), Insert (`st == 0`) or Delete
/// wavefront of a looked-up score; unreached where there is none.
fn read_source(
    store: &WavefrontStore,
    found: Option<usize>,
    st: u8,
    k: usize,
    Ghost(p): Ghost<WFAOpts>,
    Ghost(t): Ghost<Seq<u8>>,
    Ghost(q): Ghost<Seq<u8>>,
    Ghost(s): Ghost<int>,
    Ghost(d): Ghost<int>,
) -> (r: i64)
    requires
        st <= 2,
        k < num_diagonals(t, q),
        match found {
            Some(j) => {
                &&& j < store.entries().len()
                &&& d <= s
                &&& store.entries()[j as int].score == s - d
                &&& entry_matches(p, t, q, store.entries()[j as int])
            },
            None => forall|st2: nat, k2: int| #[trigger] source(p, t, q, s, d, st2, k2) == -1,
        },
        found is Some ==> 1 <= d,
    ensures
        r == source(p, t, q, s, d, st as nat, k as int),
{
    match found {
        Some(j) => store.entry(j).offset(st, k, Ghost(p), Ghost(t), Ghost(q)),
        None => -1,
    }
}

/// The Match, Insert and Delete wavefronts of the materialized score `s`,
/// computed from the stored wavefronts at `s - x`, `s - (o + e)` and `s - e`
/// over the diagonals that `s` may reach, Match extended last.
#[verifier::rlimit(50)]
pub fn compute_score(
    store: &WavefrontStore,
    p: &WFAOpts,
    t: &[u8],
    q: &[u8],
    s: usize,
    Ghost(cur): Ghost<int>,
) -> (r: ScoreEntry)
    requires
        valid_penalties(*p),
        materialized(*p, s as int),
        cur < s,
        store.inv(*p, t@, q@, cur),
        forall|s2: int| cur < s2 < s ==> !#[trigger] materialized(*p, s2),
        store.keep_from(cur) <= s - window(*p) || store.keep_from(cur) <= 0,
        t@.len() <= i64::MAX,
        num_diagonals(t@, q@) <= usize::MAX,
    ensures
        r.score == s,
        entry_matches(*p, t@, q@, r),
{
    let ghost gp = *p;
    let ghost tv = t@;
    let ghost qv = q@;
    let n: usize = t.len();
    let m: usize = q.len();
    let nd: usize = n + m + 1;
    let oe: usize = p.o as usize + p.e as usize;
    let ext: usize = p.e as usize;
    let mis: usize = p.x as usize;
    let j_open = lookup(store, s, oe, Ghost(gp), Ghost(tv), Ghost(qv), Ghost(cur));
    let j_ext = lookup(store, s, ext, Ghost(gp), Ghost(tv), Ghost(qv), Ghost(cur));
    let j_mis = if mis > 0 {
        lookup(store, s, mis, Ghost(gp), Ghost(tv), Ghost(qv), Ghost(cur))
    } else {
        None
    };
    let free: bool = mis == 0;
    let lo: usize = if s >= m { 0 } else { m - s };
    let hi: usize = if s >= n { nd - 1 } else { m + s };
    let len: usize = hi - lo + 1;
    let mut mv: Vec<i64> = vec![-1i64; len];
    let mut iv: Vec<i64> = vec![-1i64; len];
    let mut dv: Vec<i64> = vec![-1i64; len];
    let mut k: usize = lo;
    while k <= hi
        invariant
            gp == *p,
            tv == t@,
            qv == q@,
            valid_penalties(gp),
            materialized(gp, s as int),
            n == tv.len(),
            m == qv.len(),
            nd == num_diagonals(tv, qv),
            n <= i64::MAX,
            oe == open_cost(gp),
            ext == gp.e,
            mis == gp.x,
            free == (gp.x == 0),
            j_mis is Some ==> 1 <= mis,
            lo <= k <= hi + 1,
            hi < nd,
            forall|k2: int| lo <= k2 <= hi <==> in_span(tv, qv, s as int, k2),
            match j_open {
                Some(j) => {
                    &&& j < store.entries().len()
                    &&& oe <= s
                    &&& store.entries()[j as int].score == s - oe
                    &&& entry_matches(gp, tv, qv, store.entries()[j as int])
                },
                None => forall|st: nat, k2: int| #[trigger] source(gp, tv, qv, s as int, oe as int, st, k2) == -1,
            },
            match j_ext {
                Some(j) => {
                    &&& j < store.entries().len()
                    &&& ext <= s
                    &&& store.entries()[j as int].score == s - ext
                    &&& entry_matches(gp, tv, qv, store.entries()[j as int])
                },
                None => forall|st: nat, k2: int| #[trigger] source(gp, tv, qv, s as int, ext as int, st, k2) == -1,
            },
            match j_mis {
                Some(j) => {
                    &&& j < store.entries().len()
                    &&& mis <= s
                    &&& store.entries()[j as int].score == s - mis
                    &&& entry_matches(gp, tv, qv, store.entries()[j as int])
                },
                None => forall|st: nat, k2: int| #[trigger] source(gp, tv, qv, s as int, mis as int, st, k2) == -1,
            },
            lo == span_lo(qv, s as int),
            len == span_len(tv, qv, s as int),
            len == hi - lo + 1,
            mv@.len() == len,
            iv@.len() == len,
            dv@.len() == len,
            forall|j: int| 0 <= j < k - lo ==> #[trigger] mv@[j] == cell(gp, tv, qv, s as int, 2nat, lo + j),
            forall|j: int| 0 <= j < k - lo ==> #[trigger] iv@[j] == cell(gp, tv, qv, s as int, 0nat, lo + j),
            forall|j: int| 0 <= j < k - lo ==> #[trigger] dv@[j] == cell(gp, tv, qv, s as int, 1nat, lo + j),
        decreases hi + 1 - k,
    {
        let ghost ki = k as int;
        assert(in_span(tv, qv, s as int, ki));
        // Insert: one target character past diagonal k - 1.
        let a: i64 = if k >= 1 {
            read_source(store, j_open, 2, k - 1, Ghost(gp), Ghost(tv), Ghost(qv), Ghost(s as int), Ghost(oe as int))
        } else {
            -1
        };
        let b: i64 = if k >= 1 {
            read_source(store, j_ext, 0, k - 1, Ghost(gp), Ghost(tv), Ghost(qv), Ghost(s as int), Ghost(ext as int))
        } else {
            -1
        };
        proof {
            if k == 0 {
                assert(source(gp, tv, qv, s as int, oe as int, 2nat, ki - 1) == -1);
                assert(source(gp, tv, qv, s as int, ext as int, 0nat, ki - 1) == -1);
            } else {
                if oe <= s {
                    lemma_cell_range(gp, tv, qv, s - oe, 2nat, ki - 1);
                }
                if ext <= s {
                    lemma_cell_range(gp, tv, qv, s - ext, 0nat, ki - 1);
                }
            }
        }
        let best_i: i64 = if a >= b { a } else { b };
        let ins: i64 = if best_i < 0 { -1 } else { clip_offset(t, q, k, best_i, true) };
        assert(ins == ins_offset(gp, tv, qv, s as int, ki));
        assert(ins == cell(gp, tv, qv, s as int, 0nat, ki));
        // Delete: the same target position on diagonal k + 1.
        let c: i64 = if k + 1 < nd {
            read_source(store, j_open, 2, k + 1, Ghost(gp), Ghost(tv), Ghost(qv), Ghost(s as int), Ghost(oe as int))
        } else {
            -1
        };
        let dd: i64 = if k + 1 < nd {
            read_source(store, j_ext, 1, k + 1, Ghost(gp), Ghost(tv), Ghost(qv), Ghost(s as int), Ghost(ext as int))
        } else {
            -1
        };
        proof {
            if k + 1 == nd {
                assert(source(gp, tv, qv, s as int, oe as int, 2nat, ki + 1) == -1);
                assert(source(gp, tv, qv, s as int, ext as int, 1nat, ki + 1) == -1);
            } else {
                if oe <= s {
                    lemma_cell_range(gp, tv, qv, s - oe, 2nat, ki + 1);
                }
                if ext <= s {
                    lemma_cell_range(gp, tv, qv, s - ext, 1nat, ki + 1);
                }
            }
        }
        let best_d: i64 = if c >= dd { c } else { dd };
        let del: i64 = if best_d < 0 { -1 } else { clip_offset(t, q, k, best_d, false) };
        assert(del == del_offset(gp, tv, qv, s as int, ki));
        assert(del == cell(gp, tv, qv, s as int, 1nat, ki));
        // Match: the seed at score zero, else a mismatch or a gap that ends here.
        let pre: i64 = if s == 0 {
            if k == m { 0 } else { -1 }
        } else {
            let prev = read_source(store, j_mis, 2, k, Ghost(gp), Ghost(tv), Ghost(qv), Ghost(s as int), Ghost(mis as int));
            proof {
                if mis <= s {
                    lemma_cell_range(gp, tv, qv, s - mis, 2nat, ki);
                }
            }
            let sub: i64 = if prev < 0 { -1 } else { clip_offset(t, q, k, prev, true) };
            let gap: i64 = if ins >= del { ins } else { del };
            if sub >= gap { sub } else { gap }
        };
        proof {
            lemma_cell_range(gp, tv, qv, s as int, 0nat, ki);
            lemma_cell_range(gp, tv, qv, s as int, 1nat, ki);
        }
        assert(pre == mat_offset(gp, tv, qv, s as int, ki));
        let off = extend_diagonal(t, q, k, pre, free);
        assert(off == cell(gp, tv, qv, s as int, 2nat, ki));
        iv.set(k - lo, ins);
        dv.set(k - lo, del);
        mv.set(k - lo, off);
        k = k + 1;
    }
    ScoreEntry { score: s, lo, m: mv, i: iv, d: dv }
}

} // verus!
