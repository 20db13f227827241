//! Gap-affine alignment scores by the wavefront algorithm, with the recurrence
//! stated as spec functions and the executable code proved against it.

mod align;
mod extend;
mod laws;
mod model;
mod penalties;
mod recurrence;
mod store;

pub use align::{alignment_outcome, lengths_fit, score_limit, wfa, wfa_with_store};
pub use laws::{
    lemma_first_corner, lemma_identity, lemma_outcome_unique, lemma_single_insertion, lemma_single_substitution,
    lemma_symmetry, mirror_offset, mirror_state,
};
pub use model::{
    cell, clip, corner_reached, del_offset, extend_from, extend_offset, in_matrix, in_span,
    ins_offset, mat_offset, materialized, max2, num_diagonals, open_cost, query_pos, source,
    span_len, span_lo,
    stalls, valid_penalties, window, zero_costs, free_mismatch,
};
pub use penalties::{Retention, WFAOpts, WfaError, Width};
