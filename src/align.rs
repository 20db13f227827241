use vstd::prelude::*;

use crate::extend::extend_diagonal;
use crate::model::{
    cell, corner_reached, free_mismatch, in_span, mat_offset, materialized, num_diagonals,
    open_cost, stalls, valid_penalties, window, zero_costs,
};
use crate::penalties::{Retention, WFAOpts, WfaError, Width};
use crate::recurrence::{compute_score, lookup};
use crate::store::WavefrontStore;

verus! {

/// Both sequences fit the width, and their diagonals can be indexed.
pub open spec fn lengths_fit(t: Seq<u8>, q: Seq<u8>, w: Width) -> bool {
    &&& t.len() <= w.spec_max()
    &&& q.len() <= w.spec_max()
    &&& num_diagonals(t, q) <= usize::MAX
}

/// The highest score that an alignment may report.
pub open spec fn score_limit(w: Width) -> int {
    if w.spec_max() <= usize::MAX { w.spec_max() } else { usize::MAX as int }
}

/// What an alignment returns: the first score whose Match wavefront reaches
/// the end of both sequences, or the error that prevents it. Without any
/// positive cost the score is zero; a free gap extension beside a positive
/// cost is refused unless the seed alone reaches the end.
pub open spec fn alignment_outcome(
    opts: WFAOpts,
    t: Seq<u8>,
    q: Seq<u8>,
    width: Width,
    r: Result<usize, WfaError>,
) -> bool {
    match r {
        Ok(s) => {
            &&& lengths_fit(t, q, width)
            &&& s <= score_limit(width)
            &&& if zero_costs(opts) {
                s == 0
            } else {
                &&& corner_reached(opts, t, q, s as int)
                &&& forall|s2: int| 0 <= s2 < s ==> !#[trigger] corner_reached(opts, t, q, s2)
                &&& (stalls(opts) ==> s == 0)
            }
        },
        Err(WfaError::SequenceTooLong) => !lengths_fit(t, q, width),
        Err(WfaError::InvalidPenalties) => {
            &&& lengths_fit(t, q, width)
            &&& stalls(opts)
            &&& !corner_reached(opts, t, q, 0)
        },
        Err(WfaError::ScoreOverflow) => {
            &&& lengths_fit(t, q, width)
            &&& valid_penalties(opts)
            &&& forall|s2: int| 0 <= s2 <= score_limit(width) ==> !#[trigger] corner_reached(opts, t, q, s2)
        },
    }
}

/// The Match wavefront of score zero, extended along the main diagonal,
/// reaches the end of both sequences.
fn seed_reaches_corner(t: &[u8], q: &[u8], free: bool, Ghost(p): Ghost<WFAOpts>) -> (r: bool)
    requires
        free == free_mismatch(p),
        t@.len() <= i64::MAX,
        num_diagonals(t@, q@) <= usize::MAX,
    ensures
        r == corner_reached(p, t@, q@, 0),
{
    let n = t.len();
    if n != q.len() {
        assert(!in_span(t@, q@, 0, n as int));
        return false;
    }
    assert(in_span(t@, q@, 0, n as int));
    assert(mat_offset(p, t@, q@, 0, n as int) == 0);
    let off = extend_diagonal(t, q, n, 0, free);
    off >= n as i64
}

/// The first score above `cur` that a mismatch, a gap opening or a gap
/// extension reaches from a stored score, if one lies within `limit`.
fn next_score(
    store: &WavefrontStore,
    p: &WFAOpts,
    cur: usize,
    limit: usize,
    Ghost(t): Ghost<Seq<u8>>,
    Ghost(q): Ghost<Seq<u8>>,
) -> (r: Option<usize>)
    requires
        valid_penalties(*p),
        store.inv(*p, t, q, cur as int),
        store.keep_from(cur as int) <= cur + 1 - window(*p) || store.keep_from(cur as int) <= 0,
        cur <= limit,
    ensures
        match r {
            Some(s) => {
                &&& cur < s <= limit
                &&& materialized(*p, s as int)
                &&& forall|s2: int| cur < s2 < s ==> !#[trigger] materialized(*p, s2)
            },
            None => forall|s2: int| cur < s2 <= limit ==> !#[trigger] materialized(*p, s2),
        },
{
    let ghost gp = *p;
    let oe: usize = p.o as usize + p.e as usize;
    let mut s: usize = cur;
    loop
        invariant
            gp == *p,
            valid_penalties(gp),
            store.inv(gp, t, q, cur as int),
            store.keep_from(cur as int) <= cur + 1 - window(gp) || store.keep_from(cur as int) <= 0,
            oe == open_cost(gp),
            cur <= s <= limit,
            forall|s2: int| cur < s2 <= s ==> !#[trigger] materialized(gp, s2),
        decreases limit - s,
    {
        if s >= limit {
            return None;
        }
        s = s + 1;
        let a = if p.x > 0 {
            lookup(store, s, p.x as usize, Ghost(gp), Ghost(t), Ghost(q), Ghost(cur as int))
        } else {
            None
        };
        let b = lookup(store, s, oe, Ghost(gp), Ghost(t), Ghost(q), Ghost(cur as int));
        let c = lookup(store, s, p.e as usize, Ghost(gp), Ghost(t), Ghost(q), Ghost(cur as int));
        if a.is_some() || b.is_some() || c.is_some() {
            return Some(s);
        }
        assert(!materialized(gp, s as int));
    }
}

/// The gap-affine alignment score of `t` and `q`: the first materialized score
/// whose Match wavefront reaches the end of both sequences. Past wavefronts
/// are kept as `retention` says; the result does not depend on it.
pub fn wfa_with_store(opts: &WFAOpts, t: &[u8], q: &[u8], width: Width, retention: Retention) -> (r: Result<usize, WfaError>)
    ensures
        alignment_outcome(*opts, t@, q@, width, r),
{
    let ghost gp = *opts;
    let max = width.max_value();
    let n: usize = t.len();
    let m: usize = q.len();
    proof {
        width.lemma_max_fits();
    }
    if n as u64 > max || m as u64 > max || m == usize::MAX || n >= usize::MAX - m {
        return Err(WfaError::SequenceTooLong);
    }
    if opts.x == 0 && opts.o == 0 && opts.e == 0 {
        return Ok(0);
    }
    if opts.e == 0 {
        if seed_reaches_corner(t, q, opts.x == 0, Ghost(gp)) {
            return Ok(0);
        }
        return Err(WfaError::InvalidPenalties);
    }
    let limit: usize = if max > usize::MAX as u64 { usize::MAX } else { max as usize };
    let oe: usize = opts.o as usize + opts.e as usize;
    let span: usize = if opts.x as usize >= oe { opts.x as usize } else { oe };
    let mut store = WavefrontStore::new(retention, span);
    let mut s: usize = 0;
    let ghost mut cur: int = -1;
    proof {
        assert(store.inv(gp, t@, q@, -1));
    }
    loop
        invariant
            gp == *opts,
            valid_penalties(gp),
            lengths_fit(t@, q@, width),
            t@.len() <= i64::MAX,
            n == t@.len(),
            m == q@.len(),
            limit == score_limit(width),
            store.inv(gp, t@, q@, cur),
            store.keep_from(cur) <= s - window(gp) || store.keep_from(cur) <= 0,
            cur < s <= limit,
            materialized(gp, s as int),
            forall|s2: int| cur < s2 < s ==> !#[trigger] materialized(gp, s2),
            forall|s2: int| 0 <= s2 < s ==> !#[trigger] corner_reached(gp, t@, q@, s2),
        decreases limit - s,
    {
        let e = compute_score(&store, opts, t, q, s, Ghost(cur));
        let corner = e.offset(2, n, Ghost(gp), Ghost(t@), Ghost(q@));
        if corner >= n as i64 {
            return Ok(s);
        }
        store.push(e, Ghost(gp), Ghost(t@), Ghost(q@), Ghost(cur));
        proof {
            cur = s as int;
        }
        match next_score(&store, opts, s, limit, Ghost(t@), Ghost(q@)) {
            Some(next) => {
                assert forall|s2: int| 0 <= s2 < next implies !#[trigger] corner_reached(gp, t@, q@, s2) by {
                    if s2 > s {
                        assert(!materialized(gp, s2));
                    }
                }
                s = next;
            },
            None => {
                assert forall|s2: int| 0 <= s2 <= limit implies !#[trigger] corner_reached(gp, t@, q@, s2) by {
                    if s2 > s {
                        assert(!materialized(gp, s2));
                    }
                }
                return Err(WfaError::ScoreOverflow);
            },
        }
    }
}

/// The gap-affine alignment score of target `t` and query `q`, keeping only
/// the past wavefronts that later scores can reach.
pub fn wfa(opts: &WFAOpts, t: &[u8], q: &[u8], width: Width) -> (r: Result<usize, WfaError>)
    ensures
        alignment_outcome(*opts, t@, q@, width, r),
{
    wfa_with_store(opts, t, q, width, Retention::Bounded)
}

} // verus!
