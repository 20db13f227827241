use vstd::prelude::*;

use crate::penalties::WFAOpts;

verus! {

/// Every gap raises the score: with a positive gap-extend cost, gap openings
/// and extensions are positive steps. A mismatch may cost nothing.
pub open spec fn valid_penalties(p: WFAOpts) -> bool {
    p.e >= 1
}

/// No operation costs anything, so every alignment scores zero.
pub open spec fn zero_costs(p: WFAOpts) -> bool {
    p.x == 0 && p.o == 0 && p.e == 0
}

/// A free gap extension beside a positive cost: the score could stall.
pub open spec fn stalls(p: WFAOpts) -> bool {
    p.e == 0 && !zero_costs(p)
}

/// Mismatches cost nothing, so extension steps over them.
pub open spec fn free_mismatch(p: WFAOpts) -> bool {
    p.x == 0
}

/// Cost of a gap of length one.
pub open spec fn open_cost(p: WFAOpts) -> int {
    p.o + p.e
}

/// The number of past scores that a recurrence can look back to.
pub open spec fn window(p: WFAOpts) -> int {
    if p.x >= open_cost(p) { p.x as int } else { open_cost(p) }
}

/// A score is materialized when it is zero, or when a costly mismatch, a gap
/// opening or a gap extension leads to it from a materialized score.
pub open spec fn materialized(p: WFAOpts, s: int) -> bool
    decreases s,
{
    if s <= 0 {
        s == 0
    } else if !valid_penalties(p) {
        false
    } else {
        (p.x > 0 && s >= p.x && materialized(p, s - p.x))
        || (s >= open_cost(p) && materialized(p, s - open_cost(p)))
        || (s >= p.e && materialized(p, s - p.e))
    }
}

/// Diagonal `k` holds the cells with `k == q.len() + h - v`, for `h` a position
/// in `t` and `v` one in `q`; diagonals run from 0 to `t.len() + q.len()`.
pub open spec fn num_diagonals(t: Seq<u8>, q: Seq<u8>) -> int {
    (t.len() + q.len() + 1) as int
}

/// The diagonals that score `s` may reach: each gap character costs at least
/// one, so no state strays further than `s` from the main diagonal.
pub open spec fn in_span(t: Seq<u8>, q: Seq<u8>, s: int, k: int) -> bool {
    0 <= k < num_diagonals(t, q) && q.len() - s <= k <= q.len() + s
}

/// The lowest diagonal of the span of score `s`.
pub open spec fn span_lo(q: Seq<u8>, s: int) -> int {
    if s >= q.len() { 0 } else { q.len() - s }
}

/// The number of diagonals in the span of score `s`.
pub open spec fn span_len(t: Seq<u8>, q: Seq<u8>, s: int) -> int {
    let hi: int = if s >= t.len() { (t.len() + q.len()) as int } else { q.len() + s };
    hi - span_lo(q, s) + 1
}

/// Query position of offset `off` on diagonal `k`.
pub open spec fn query_pos(q: Seq<u8>, k: int, off: int) -> int {
    off + q.len() - k
}

/// An offset that stays inside the alignment matrix.
pub open spec fn in_matrix(t: Seq<u8>, q: Seq<u8>, k: int, off: int) -> bool {
    0 <= off <= t.len() && 0 <= query_pos(q, k, off) <= q.len()
}

/// An offset, or the unreached mark `-1` where it leaves the matrix.
pub open spec fn clip(t: Seq<u8>, q: Seq<u8>, k: int, off: int) -> int {
    if in_matrix(t, q, k, off) { off } else { -1 }
}

/// The furthest target position reached from `(h, v)` along matching
/// characters, or along any characters where mismatches are `free`.
pub open spec fn extend_from(t: Seq<u8>, q: Seq<u8>, h: int, v: int, free: bool) -> int
    decreases t.len() - h,
{
    if 0 <= h < t.len() && 0 <= v < q.len() && (free || t[h] == q[v]) {
        extend_from(t, q, h + 1, v + 1, free)
    } else {
        h
    }
}

/// Greedy extension of an offset on diagonal `k`; unreached stays unreached.
pub open spec fn extend_offset(t: Seq<u8>, q: Seq<u8>, k: int, off: int, free: bool) -> int {
    if off < 0 { off } else { extend_from(t, q, off, query_pos(q, k, off), free) }
}

pub open spec fn max2(a: int, b: int) -> int {
    if a >= b { a } else { b }
}

/// A source cell: the offset of state `st` at score `s - d` on diagonal `k`,
/// or unreached where `s - d` is negative.
pub open spec fn source(p: WFAOpts, t: Seq<u8>, q: Seq<u8>, s: int, d: int, st: nat, k: int) -> int
    decreases if 0 < d <= s { s - d } else { 0 }, st, 3nat,
{
    if s < d || d <= 0 { -1 } else { cell(p, t, q, s - d, st, k) }
}

/// Insert offset before clipping: one target character past the best of a gap
/// opening from Match and a gap extension from Insert, on diagonal `k - 1`.
pub open spec fn ins_offset(p: WFAOpts, t: Seq<u8>, q: Seq<u8>, s: int, k: int) -> int
    decreases s, 0nat, 1nat,
{
    if s <= 0 || !valid_penalties(p) {
        -1
    } else {
        let best = max2(
            source(p, t, q, s, open_cost(p), 2nat, k - 1),
            source(p, t, q, s, p.e as int, 0nat, k - 1),
        );
        if best < 0 { -1 } else { clip(t, q, k, best + 1) }
    }
}

/// Delete offset: the best of a gap opening from Match and a gap extension
/// from Delete, on diagonal `k + 1`, at the same target position.
pub open spec fn del_offset(p: WFAOpts, t: Seq<u8>, q: Seq<u8>, s: int, k: int) -> int
    decreases s, 1nat, 1nat,
{
    if s <= 0 || !valid_penalties(p) {
        -1
    } else {
        let best = max2(
            source(p, t, q, s, open_cost(p), 2nat, k + 1),
            source(p, t, q, s, p.e as int, 1nat, k + 1),
        );
        if best < 0 { -1 } else { clip(t, q, k, best) }
    }
}

/// Match offset before extension: the seed at score zero, else the best of a
/// mismatch from Match at `s - x` and the Insert and Delete offsets at `s`.
pub open spec fn mat_offset(p: WFAOpts, t: Seq<u8>, q: Seq<u8>, s: int, k: int) -> int
    decreases s, 2nat, 1nat,
{
    if s == 0 {
        if k == q.len() { 0 } else { -1 }
    } else if s < 0 || !valid_penalties(p) {
        -1
    } else {
        let m = source(p, t, q, s, p.x as int, 2nat, k);
        let mis = if m < 0 { -1 } else { clip(t, q, k, m + 1) };
        max2(mis, max2(cell(p, t, q, s, 0nat, k), cell(p, t, q, s, 1nat, k)))
    }
}

/// The wavefront offset of state `st` (0 Insert, 1 Delete, 2 Match) at score
/// `s` on diagonal `k`: `-1` where
/// the score is not materialized or the diagonal lies outside its span.
pub open spec fn cell(p: WFAOpts, t: Seq<u8>, q: Seq<u8>, s: int, st: nat, k: int) -> int
    decreases s, st, 2nat,
{
    if s < 0 || !materialized(p, s) || !in_span(t, q, s, k) {
        -1
    } else if st == 0nat {
        ins_offset(p, t, q, s, k)
    } else if st == 1nat {
        del_offset(p, t, q, s, k)
    } else {
        extend_offset(t, q, k, mat_offset(p, t, q, s, k), free_mismatch(p))
    }
}

/// The Match wavefront of score `s` has reached the far corner of the matrix.
pub open spec fn corner_reached(p: WFAOpts, t: Seq<u8>, q: Seq<u8>, s: int) -> bool {
    cell(p, t, q, s, 2nat, t.len() as int) >= t.len()
}

} // verus!

verus! {

/// Extension moves forward along the diagonal and stays inside the matrix.
pub proof fn lemma_extend_range(t: Seq<u8>, q: Seq<u8>, h: int, v: int, free: bool)
    requires
        0 <= h <= t.len(),
        0 <= v <= q.len(),
    ensures
        h <= extend_from(t, q, h, v, free) <= t.len(),
        extend_from(t, q, h, v, free) - h + v <= q.len(),
    decreases t.len() - h,
{
    if 0 <= h < t.len() && 0 <= v < q.len() && (free || t[h] == q[v]) {
        lemma_extend_range(t, q, h + 1, v + 1, free);
    }
}

/// Every offset is unreached or a position inside the matrix.
pub proof fn lemma_cell_range(p: WFAOpts, t: Seq<u8>, q: Seq<u8>, s: int, st: nat, k: int)
    ensures
        cell(p, t, q, s, st, k) == -1 || in_matrix(t, q, k, cell(p, t, q, s, st, k)),
    decreases st,
{
    if s < 0 || !materialized(p, s) || !in_span(t, q, s, k) {
    } else if st == 0 {
    } else if st == 1 {
    } else {
        let pre = mat_offset(p, t, q, s, k);
        if s > 0 && valid_penalties(p) {
            lemma_cell_range(p, t, q, s, 0nat, k);
            lemma_cell_range(p, t, q, s, 1nat, k);
        }
        assert(pre == -1 || in_matrix(t, q, k, pre));
        if pre >= 0 {
            lemma_extend_range(t, q, pre, query_pos(q, k, pre), free_mismatch(p));
        }
    }
}

} // verus!
