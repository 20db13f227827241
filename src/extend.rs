use vstd::prelude::*;

use crate::model::{clip, extend_from, extend_offset, in_matrix, lemma_extend_range, num_diagonals};

verus! {

/// Advances an offset on diagonal `k` while the target and query characters
/// under it match, or to the matrix's edge where mismatches are `free`.
pub fn extend_diagonal(t: &[u8], q: &[u8], k: usize, off: i64, free: bool) -> (r: i64)
    requires
        k < num_diagonals(t@, q@),
        t@.len() <= i64::MAX,
        off < 0 || in_matrix(t@, q@, k as int, off as int),
    ensures
        r == extend_offset(t@, q@, k as int, off as int, free),
        r < 0 || in_matrix(t@, q@, k as int, r as int),
{
    if off < 0 {
        return off;
    }
    let mut h: usize = off as usize;
    let mut v: usize = q.len() - (k - h);
    proof {
        lemma_extend_range(t@, q@, h as int, v as int, free);
    }
    while h < t.len() && v < q.len() && (free || t[h] == q[v])
        invariant
            h <= t@.len(),
            v <= q@.len(),
            v + k == h + q@.len(),
            extend_from(t@, q@, h as int, v as int, free) == extend_offset(t@, q@, k as int, off as int, free),
        decreases t@.len() - h,
    {
        h = h + 1;
        v = v + 1;
    }
    h as i64
}

/// The offset `base + step` on diagonal `k`, or `-1` where it leaves the matrix.
pub fn clip_offset(t: &[u8], q: &[u8], k: usize, base: i64, step: bool) -> (r: i64)
    requires
        k < num_diagonals(t@, q@),
        t@.len() <= i64::MAX,
        0 <= base <= t@.len(),
    ensures
        r == clip(t@, q@, k as int, base + if step { 1int } else { 0int }),
{
    let n: usize = t.len();
    let b: usize = base as usize;
    if step && b >= n {
        return -1;
    }
    let off: usize = if step { b + 1 } else { b };
    if off <= k && k - off <= q.len() {
        off as i64
    } else {
        -1
    }
}

} // verus!
