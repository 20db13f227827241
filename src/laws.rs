use vstd::prelude::*;

use crate::align::{alignment_outcome, lengths_fit, score_limit};
use crate::model::{
    cell, corner_reached, del_offset, extend_from, extend_offset, in_matrix, in_span, ins_offset,
    free_mismatch, lemma_cell_range, lemma_extend_range, mat_offset, materialized, max2, open_cost,
    query_pos, source, stalls, valid_penalties, zero_costs,
};
use crate::penalties::{WFAOpts, WfaError, Width};

verus! {

/// Extension from the same position in two equal sequences runs to their end.
pub proof fn lemma_extend_equal(s: Seq<u8>, h: int, free: bool)
    requires
        0 <= h <= s.len(),
    ensures
        extend_from(s, s, h, h, free) == s.len(),
    decreases s.len() - h,
{
    if h < s.len() {
        lemma_extend_equal(s, h + 1, free);
    }
}

/// Where the corner is first reached at `s0`, and the configuration does not
/// stall past the seed, the alignment returns `s0`.
pub proof fn lemma_first_corner(
    p: WFAOpts,
    t: Seq<u8>,
    q: Seq<u8>,
    w: Width,
    r: Result<usize, WfaError>,
    s0: int,
)
    requires
        !zero_costs(p),
        !stalls(p) || s0 == 0,
        lengths_fit(t, q, w),
        0 <= s0 <= score_limit(w),
        corner_reached(p, t, q, s0),
        forall|s2: int| 0 <= s2 < s0 ==> !#[trigger] corner_reached(p, t, q, s2),
        alignment_outcome(p, t, q, w, r),
    ensures
        r == Ok::<usize, WfaError>(s0 as usize),
{
    match r {
        Ok(v) => {
            if v > s0 {
                assert(!corner_reached(p, t, q, s0));
            }
        },
        Err(WfaError::ScoreOverflow) => {
            assert(!corner_reached(p, t, q, s0));
        },
        _ => {},
    }
}

/// A sequence aligned with itself scores zero, whatever the costs.
pub proof fn lemma_identity(p: WFAOpts, s: Seq<u8>, w: Width, r: Result<usize, WfaError>)
    requires
        lengths_fit(s, s, w),
        alignment_outcome(p, s, s, w, r),
    ensures
        r == Ok::<usize, WfaError>(0),
{
    let n = s.len() as int;
    w.lemma_max_fits();
    if !zero_costs(p) {
        assert(materialized(p, 0));
        assert(in_span(s, s, 0, n));
        assert(mat_offset(p, s, s, 0, n) == 0);
        lemma_extend_equal(s, 0, free_mismatch(p));
        assert(cell(p, s, s, 0, 2nat, n) == n);
        assert(corner_reached(p, s, s, 0));
        lemma_first_corner(p, s, s, w, r, 0);
    }
}

/// An alignment's outcome is determined by its inputs: the bounded and the
/// full-history stores, or any other two runs, return the same.
pub proof fn lemma_outcome_unique(
    p: WFAOpts,
    t: Seq<u8>,
    q: Seq<u8>,
    w: Width,
    r1: Result<usize, WfaError>,
    r2: Result<usize, WfaError>,
)
    requires
        alignment_outcome(p, t, q, w, r1),
        alignment_outcome(p, t, q, w, r2),
    ensures
        r1 == r2,
{
    match (r1, r2) {
        (Ok(a), Ok(b)) => {
            if a < b {
                assert(!corner_reached(p, t, q, a as int));
            } else if b < a {
                assert(!corner_reached(p, t, q, b as int));
            }
        },
        (Ok(a), Err(WfaError::ScoreOverflow)) => {
            assert(!corner_reached(p, t, q, a as int));
        },
        (Err(WfaError::ScoreOverflow), Ok(b)) => {
            assert(!corner_reached(p, t, q, b as int));
        },
        _ => {},
    }
}

/// Extension runs equally far with the sequences' roles swapped.
pub proof fn lemma_extend_swap(t: Seq<u8>, q: Seq<u8>, h: int, v: int, free: bool)
    requires
        0 <= h <= t.len(),
        0 <= v <= q.len(),
    ensures
        extend_from(q, t, v, h, free) - v == extend_from(t, q, h, v, free) - h,
    decreases t.len() - h,
{
    if h < t.len() && v < q.len() && (free || t[h] == q[v]) {
        lemma_extend_swap(t, q, h + 1, v + 1, free);
    }
}

/// An offset on diagonal `k` of `(t, q)` as an offset on the mirrored diagonal
/// of `(q, t)`: its query position.
pub open spec fn mirror_offset(q: Seq<u8>, k: int, off: int) -> int {
    if off < 0 { -1 } else { query_pos(q, k, off) }
}

/// Insert of `(t, q)` is Delete of `(q, t)`, and the other way round.
pub open spec fn mirror_state(st: nat) -> nat {
    if st == 0 { 1 } else if st == 1 { 0 } else { st }
}

/// Swapping target and query mirrors every wavefront: diagonal `k` becomes
/// `t.len() + q.len() - k`, offsets become query positions, and Insert and
/// Delete trade places.
pub proof fn lemma_cell_swap(p: WFAOpts, t: Seq<u8>, q: Seq<u8>, s: int, st: nat, k: int)
    requires
        st <= 2,
    ensures
        cell(p, q, t, s, mirror_state(st), t.len() + q.len() - k)
            == mirror_offset(q, k, cell(p, t, q, s, st, k)),
    decreases s, st,
{
    let k2 = t.len() + q.len() - k;
    let st2 = mirror_state(st);
    assert(in_span(t, q, s, k) == in_span(q, t, s, k2));
    if s < 0 || !materialized(p, s) || !in_span(t, q, s, k) {
    } else if st == 0 {
        let oe = open_cost(p);
        if s > 0 && valid_penalties(p) {
            if s >= oe {
                lemma_cell_swap(p, t, q, s - oe, 2nat, k - 1);
                lemma_cell_range(p, t, q, s - oe, 2nat, k - 1);
            }
            if s >= p.e {
                lemma_cell_swap(p, t, q, s - p.e, 0nat, k - 1);
                lemma_cell_range(p, t, q, s - p.e, 0nat, k - 1);
            }
            let a = source(p, t, q, s, oe, 2nat, k - 1);
            let b = source(p, t, q, s, p.e as int, 0nat, k - 1);
            assert(source(p, q, t, s, oe, 2nat, k2 + 1) == mirror_offset(q, k - 1, a));
            assert(source(p, q, t, s, p.e as int, 1nat, k2 + 1) == mirror_offset(q, k - 1, b));
            let best = max2(a, b);
            if best >= 0 {
                assert(in_matrix(t, q, k, best + 1) == in_matrix(q, t, k2, mirror_offset(q, k, best + 1)));
            }
        }
        assert(del_offset(p, q, t, s, k2) == mirror_offset(q, k, ins_offset(p, t, q, s, k)));
    } else if st == 1 {
        let oe = open_cost(p);
        if s > 0 && valid_penalties(p) {
            if s >= oe {
                lemma_cell_swap(p, t, q, s - oe, 2nat, k + 1);
                lemma_cell_range(p, t, q, s - oe, 2nat, k + 1);
            }
            if s >= p.e {
                lemma_cell_swap(p, t, q, s - p.e, 1nat, k + 1);
                lemma_cell_range(p, t, q, s - p.e, 1nat, k + 1);
            }
            let a = source(p, t, q, s, oe, 2nat, k + 1);
            let b = source(p, t, q, s, p.e as int, 1nat, k + 1);
            assert(source(p, q, t, s, oe, 2nat, k2 - 1) == mirror_offset(q, k + 1, a));
            assert(source(p, q, t, s, p.e as int, 0nat, k2 - 1) == mirror_offset(q, k + 1, b));
            let best = max2(a, b);
            if best >= 0 {
                assert(in_matrix(t, q, k, best) == in_matrix(q, t, k2, mirror_offset(q, k, best)));
            }
        }
        assert(ins_offset(p, q, t, s, k2) == mirror_offset(q, k, del_offset(p, t, q, s, k)));
    } else {
        if s > 0 && valid_penalties(p) {
            if p.x > 0 && s >= p.x {
                lemma_cell_swap(p, t, q, s - p.x, 2nat, k);
                lemma_cell_range(p, t, q, s - p.x, 2nat, k);
            }
            lemma_cell_swap(p, t, q, s, 0nat, k);
            lemma_cell_swap(p, t, q, s, 1nat, k);
            lemma_cell_range(p, t, q, s, 0nat, k);
            lemma_cell_range(p, t, q, s, 1nat, k);
            let c = source(p, t, q, s, p.x as int, 2nat, k);
            assert(source(p, q, t, s, p.x as int, 2nat, k2) == mirror_offset(q, k, c));
            if c >= 0 {
                assert(in_matrix(t, q, k, c + 1) == in_matrix(q, t, k2, mirror_offset(q, k, c + 1)));
            }
        }
        let pre = mat_offset(p, t, q, s, k);
        assert(mat_offset(p, q, t, s, k2) == mirror_offset(q, k, pre));
        if pre >= 0 {
            lemma_extend_swap(t, q, pre, query_pos(q, k, pre), free_mismatch(p));
            lemma_extend_range(t, q, pre, query_pos(q, k, pre), free_mismatch(p));
        }
        assert(extend_offset(q, t, k2, mirror_offset(q, k, pre), free_mismatch(p))
            == mirror_offset(q, k, extend_offset(t, q, k, pre, free_mismatch(p))));
    }
}

/// Swapping target and query leaves the alignment's outcome unchanged.
pub proof fn lemma_symmetry(
    p: WFAOpts,
    t: Seq<u8>,
    q: Seq<u8>,
    w: Width,
    r1: Result<usize, WfaError>,
    r2: Result<usize, WfaError>,
)
    requires
        alignment_outcome(p, t, q, w, r1),
        alignment_outcome(p, q, t, w, r2),
    ensures
        r1 == r2,
{
    assert forall|s: int|
        #![trigger corner_reached(p, t, q, s)]
        #![trigger corner_reached(p, q, t, s)]
        corner_reached(p, t, q, s) == corner_reached(p, q, t, s) by {
        lemma_cell_swap(p, t, q, s, 2nat, t.len() as int);
    }
    assert(lengths_fit(t, q, w) == lengths_fit(q, t, w));
    assert(alignment_outcome(p, t, q, w, r2));
    lemma_outcome_unique(p, t, q, w, r1, r2);
}

/// Below the cost of one gap no Insert or Delete state exists, and Match
/// stays on the main diagonal.
pub proof fn lemma_below_gap(p: WFAOpts, t: Seq<u8>, q: Seq<u8>, s: int, st: nat, k: int)
    requires
        0 <= s < open_cost(p),
        st <= 2,
        st < 2 || k != q.len(),
    ensures
        cell(p, t, q, s, st, k) == -1,
    decreases s, st,
{
    if s < 0 || !materialized(p, s) || !in_span(t, q, s, k) {
    } else if st == 0 {
        if s > 0 && valid_penalties(p) && s >= p.e {
            lemma_below_gap(p, t, q, s - p.e, 0nat, k - 1);
        }
        assert(ins_offset(p, t, q, s, k) == -1);
    } else if st == 1 {
        if s > 0 && valid_penalties(p) && s >= p.e {
            lemma_below_gap(p, t, q, s - p.e, 1nat, k + 1);
        }
        assert(del_offset(p, t, q, s, k) == -1);
    } else {
        if s > 0 && valid_penalties(p) {
            if p.x > 0 && s >= p.x {
                lemma_below_gap(p, t, q, s - p.x, 2nat, k);
            }
            lemma_below_gap(p, t, q, s, 0nat, k);
            lemma_below_gap(p, t, q, s, 1nat, k);
        }
        assert(mat_offset(p, t, q, s, k) == -1);
    }
}

/// Extension over a common prefix runs at least to its end.
pub proof fn lemma_extend_prefix(t: Seq<u8>, q: Seq<u8>, i: int, h: int, free: bool)
    requires
        0 <= h <= i <= t.len(),
        i <= q.len(),
        forall|j: int| 0 <= j < i ==> t[j] == q[j],
    ensures
        extend_from(t, q, h, h, free) >= i,
    decreases i - h,
{
    if h < i {
        assert(t[h] == q[h]);
        lemma_extend_prefix(t, q, i, h + 1, free);
    } else {
        lemma_extend_range(t, q, h, h, free);
    }
}

/// Extension one query character ahead runs to the end where the query
/// repeats the target from `i` on.
pub proof fn lemma_extend_shifted(t: Seq<u8>, q: Seq<u8>, i: int, h: int, free: bool)
    requires
        0 <= i <= h <= t.len(),
        q.len() == t.len() + 1,
        forall|j: int| i <= j < t.len() ==> q[j + 1] == t[j],
    ensures
        extend_from(t, q, h, h + 1, free) == t.len(),
    decreases t.len() - h,
{
    if h < t.len() {
        assert(q[h + 1] == t[h]);
        lemma_extend_shifted(t, q, i, h + 1, free);
    }
}

/// A query that is the target with one character inserted costs one gap
/// opening and one extension, where that score fits the width.
pub proof fn lemma_single_insertion(
    p: WFAOpts,
    t: Seq<u8>,
    q: Seq<u8>,
    i: int,
    w: Width,
    r: Result<usize, WfaError>,
)
    requires
        valid_penalties(p) || zero_costs(p),
        0 <= i <= t.len(),
        q.len() == t.len() + 1,
        forall|j: int| 0 <= j < i ==> q[j] == t[j],
        forall|j: int| i <= j < t.len() ==> q[j + 1] == t[j],
        lengths_fit(t, q, w),
        open_cost(p) <= score_limit(w),
        alignment_outcome(p, t, q, w, r),
    ensures
        r == Ok::<usize, WfaError>(open_cost(p) as usize),
{
    if zero_costs(p) {
        return;
    }
    let n = t.len() as int;
    let m = q.len() as int;
    let oe = open_cost(p);
    let free = free_mismatch(p);
    // The seed runs past the common prefix.
    assert(materialized(p, 0));
    assert(in_span(t, q, 0, m));
    assert(mat_offset(p, t, q, 0, m) == 0);
    lemma_extend_prefix(t, q, i, 0, free);
    lemma_extend_range(t, q, 0, 0, free);
    let e0 = extend_from(t, q, 0, 0, free);
    assert(cell(p, t, q, 0, 2nat, m) == e0);
    // One deletion from there opens the gap at score o + e.
    assert(materialized(p, oe));
    assert(in_span(t, q, oe, n));
    lemma_below_gap(p, t, q, oe - p.e, 1nat, m);
    assert(source(p, t, q, oe, oe, 2nat, m) == e0);
    assert(del_offset(p, t, q, oe, n) == e0);
    assert(cell(p, t, q, oe, 1nat, n) == e0);
    lemma_cell_range(p, t, q, oe, 0nat, n);
    let pre = mat_offset(p, t, q, oe, n);
    assert(pre >= e0);
    lemma_extend_shifted(t, q, i, pre, free);
    assert(query_pos(q, n, pre) == pre + 1);
    assert(cell(p, t, q, oe, 2nat, n) == n);
    assert(corner_reached(p, t, q, oe));
    assert forall|s2: int| 0 <= s2 < oe implies !#[trigger] corner_reached(p, t, q, s2) by {
        lemma_below_gap(p, t, q, s2, 2nat, n);
    }
    lemma_first_corner(p, t, q, w, r, oe);
}

/// Below the cost of a mismatch and of two gaps, Insert lies above the main
/// diagonal, Delete below it, and Match leaves it after the seed.
pub proof fn lemma_below_mismatch(p: WFAOpts, t: Seq<u8>, q: Seq<u8>, s: int, st: nat, k: int)
    requires
        0 <= s < 2 * open_cost(p),
        s < p.x,
        st <= 2,
        st == 0 ==> k <= q.len(),
        st == 1 ==> k >= q.len(),
        st == 2 ==> k == q.len() && s > 0,
    ensures
        cell(p, t, q, s, st, k) == -1,
    decreases s, st,
{
    let oe = open_cost(p);
    let m = q.len() as int;
    if s < 0 || !materialized(p, s) || !in_span(t, q, s, k) {
    } else if st == 0 {
        if s > 0 && valid_penalties(p) {
            if s >= oe {
                lemma_below_gap(p, t, q, s - oe, 2nat, k - 1);
            }
            if s >= p.e {
                lemma_below_mismatch(p, t, q, s - p.e, 0nat, k - 1);
            }
        }
        assert(ins_offset(p, t, q, s, k) == -1);
    } else if st == 1 {
        if s > 0 && valid_penalties(p) {
            if s >= oe {
                lemma_below_gap(p, t, q, s - oe, 2nat, k + 1);
            }
            if s >= p.e {
                lemma_below_mismatch(p, t, q, s - p.e, 1nat, k + 1);
            }
        }
        assert(del_offset(p, t, q, s, k) == -1);
    } else {
        if valid_penalties(p) {
            lemma_below_mismatch(p, t, q, s, 0nat, k);
            lemma_below_mismatch(p, t, q, s, 1nat, k);
        }
        assert(mat_offset(p, t, q, s, k) == -1);
    }
}

/// Extension along the main diagonal stops at the first differing position.
pub proof fn lemma_extend_stops(t: Seq<u8>, q: Seq<u8>, i: int, h: int)
    requires
        0 <= h <= i < t.len(),
        i < q.len(),
        t[i] != q[i],
    ensures
        extend_from(t, q, h, h, false) <= i,
    decreases i - h,
{
    if h < i {
        lemma_extend_stops(t, q, i, h + 1);
    }
}

/// Extension along the main diagonal runs to the end past the last difference.
pub proof fn lemma_extend_suffix(t: Seq<u8>, q: Seq<u8>, i: int, h: int, free: bool)
    requires
        0 <= i < h <= t.len(),
        q.len() == t.len(),
        forall|j: int| i < j < t.len() ==> t[j] == q[j],
    ensures
        extend_from(t, q, h, h, free) == t.len(),
    decreases t.len() - h,
{
    if h < t.len() {
        assert(t[h] == q[h]);
        lemma_extend_suffix(t, q, i, h + 1, free);
    }
}

/// Two sequences of equal length that differ in one position cost one
/// mismatch, where a mismatch costs no more than two gaps and fits the width.
pub proof fn lemma_single_substitution(
    p: WFAOpts,
    t: Seq<u8>,
    q: Seq<u8>,
    i: int,
    w: Width,
    r: Result<usize, WfaError>,
)
    requires
        valid_penalties(p) || zero_costs(p),
        q.len() == t.len(),
        0 <= i < t.len(),
        t[i] != q[i],
        forall|j: int| 0 <= j < t.len() && j != i ==> t[j] == q[j],
        p.x <= 2 * open_cost(p),
        lengths_fit(t, q, w),
        p.x <= score_limit(w),
        alignment_outcome(p, t, q, w, r),
    ensures
        r == Ok::<usize, WfaError>(p.x as usize),
{
    if zero_costs(p) {
        return;
    }
    let n = t.len() as int;
    let x = p.x as int;
    if x == 0 {
        // A free mismatch lets the seed run to the end.
        assert(in_span(t, q, 0, n));
        assert(mat_offset(p, t, q, 0, n) == 0);
        lemma_extend_free(t, q, 0);
        assert(corner_reached(p, t, q, 0));
        lemma_first_corner(p, t, q, w, r, 0);
        return;
    }
    // The seed stops at the substitution.
    assert(materialized(p, 0));
    assert(in_span(t, q, 0, n));
    assert(mat_offset(p, t, q, 0, n) == 0);
    assert forall|j: int| 0 <= j < i implies t[j] == q[j] by {}
    lemma_extend_prefix(t, q, i, 0, false);
    lemma_extend_stops(t, q, i, 0);
    assert(cell(p, t, q, 0, 2nat, n) == i);
    // A mismatch steps over it, and the rest matches.
    assert(materialized(p, x));
    assert(in_span(t, q, x, n));
    assert(source(p, t, q, x, x, 2nat, n) == i);
    lemma_cell_range(p, t, q, x, 0nat, n);
    lemma_cell_range(p, t, q, x, 1nat, n);
    let pre = mat_offset(p, t, q, x, n);
    assert(pre >= i + 1);
    lemma_extend_suffix(t, q, i, pre, false);
    assert(cell(p, t, q, x, 2nat, n) == n);
    assert(corner_reached(p, t, q, x));
    assert forall|s2: int| 0 <= s2 < x implies !#[trigger] corner_reached(p, t, q, s2) by {
        if s2 > 0 {
            lemma_below_mismatch(p, t, q, s2, 2nat, n);
        }
    }
    lemma_first_corner(p, t, q, w, r, x);
}

/// With free mismatches, extension along the main diagonal of two sequences
/// of equal length runs to their end.
pub proof fn lemma_extend_free(t: Seq<u8>, q: Seq<u8>, h: int)
    requires
        0 <= h <= t.len(),
        q.len() == t.len(),
    ensures
        extend_from(t, q, h, h, true) == t.len(),
    decreases t.len() - h,
{
    if h < t.len() {
        lemma_extend_free(t, q, h + 1);
    }
}

} // verus!
