use wfa_align::{wfa, wfa_with_store, Retention, WFAOpts, WfaError, Width};

fn example_opts() -> WFAOpts {
    WFAOpts { a: 0, x: 4, o: 6, e: 2 }
}

fn score(opts: &WFAOpts, t: &str, q: &str) -> usize {
    wfa(opts, t.as_bytes(), q.as_bytes(), Width::I64).unwrap()
}

/// Gotoh's quadratic dynamic program for the same gap-affine costs.
fn reference_score(opts: &WFAOpts, t: &[u8], q: &[u8]) -> usize {
    let (x, o, e) = (opts.x as usize, opts.o as usize, opts.e as usize);
    let inf = usize::MAX / 4;
    let (n, m) = (t.len(), q.len());
    let mut mm = vec![vec![inf; m + 1]; n + 1];
    let mut ii = vec![vec![inf; m + 1]; n + 1];
    let mut dd = vec![vec![inf; m + 1]; n + 1];
    mm[0][0] = 0;
    for h in 0..=n {
        for v in 0..=m {
            if h > 0 {
                ii[h][v] = (mm[h - 1][v] + o + e).min(ii[h - 1][v] + e);
            }
            if v > 0 {
                dd[h][v] = (mm[h][v - 1] + o + e).min(dd[h][v - 1] + e);
            }
            if h > 0 && v > 0 {
                let cost = if t[h - 1] == q[v - 1] { 0 } else { x };
                mm[h][v] = mm[h - 1][v - 1] + cost;
            }
            mm[h][v] = mm[h][v].min(ii[h][v]).min(dd[h][v]);
        }
    }
    mm[n][m]
}

fn pseudo_random_seq(state: &mut u64, alphabet: &[u8], max_len: u64) -> Vec<u8> {
    *state = state.wrapping_mul(6364136223846793005).wrapping_add(1442695040888963407);
    let len = (*state >> 33) % (max_len + 1);
    let mut out = Vec::new();
    for _ in 0..len {
        *state = state.wrapping_mul(6364136223846793005).wrapping_add(1442695040888963407);
        out.push(alphabet[((*state >> 33) % alphabet.len() as u64) as usize]);
    }
    out
}

#[test]
fn identical_sequences_score_zero() {
    assert_eq!(score(&example_opts(), "GATACA", "GATACA"), 0);
}

#[test]
fn last_base_swapped_costs_one_mismatch() {
    assert_eq!(score(&example_opts(), "GATACA", "GATACC"), 4);
}

#[test]
fn one_deleted_base_costs_one_gap() {
    assert_eq!(score(&example_opts(), "GATACA", "GATAC"), 8);
}

#[test]
fn gagata_matches_dynamic_programming() {
    let opts = example_opts();
    let expected = reference_score(&opts, b"GATACA", b"GAGATA");
    assert_eq!(expected, 8);
    assert_eq!(score(&opts, "GATACA", "GAGATA"), expected);
}

#[test]
fn random_pairs_match_dynamic_programming() {
    let mut state: u64 = 7;
    for round in 0..400u64 {
        let opts = WFAOpts {
            a: 0,
            x: (1 + round % 6) as u8,
            o: (round % 7) as u8,
            e: (1 + round % 4) as u8,
        };
        let t = pseudo_random_seq(&mut state, b"ACGT", 12);
        let q = pseudo_random_seq(&mut state, b"ACGT", 12);
        let got = wfa(&opts, &t, &q, Width::I32).unwrap();
        assert_eq!(got, reference_score(&opts, &t, &q), "t={:?} q={:?}", t, q);
    }
}

#[test]
fn identity_holds_for_several_sequences() {
    let opts = example_opts();
    for s in ["", "A", "GATTACA", "ACGTACGTACGTTTGA"] {
        assert_eq!(score(&opts, s, s), 0);
    }
    let other = WFAOpts { a: 0, x: 3, o: 0, e: 5 };
    assert_eq!(score(&other, "CCCTTAG", "CCCTTAG"), 0);
}

#[test]
fn swapping_target_and_query_keeps_the_score() {
    let opts = example_opts();
    let pairs = [("GATACA", "GAGATA"), ("ACGT", "AACCGGTT"), ("", "ACG"), ("TTTT", "GATACA")];
    for (t, q) in pairs {
        assert_eq!(score(&opts, t, q), score(&opts, q, t));
    }
}

#[test]
fn single_substitution_costs_the_mismatch() {
    let opts = WFAOpts { a: 0, x: 5, o: 3, e: 1 };
    assert_eq!(score(&opts, "ACGTACGT", "ACGAACGT"), 5);
    assert_eq!(score(&example_opts(), "TACGG", "CACGG"), 4);
}

#[test]
fn single_insertion_costs_open_plus_extend() {
    let opts = WFAOpts { a: 0, x: 4, o: 3, e: 2 };
    assert_eq!(score(&opts, "ACGTACGT", "ACGTTACGT"), 5);
    assert_eq!(score(&example_opts(), "GATACA", "GATTACA"), 8);
    assert_eq!(score(&example_opts(), "A", ""), 8);
}

#[test]
fn appending_a_mismatch_never_lowers_the_score() {
    let opts = example_opts();
    let base = score(&opts, "GATACA", "GATTCA");
    let longer = score(&opts, "GATACAG", "GATTCAT");
    assert!(longer >= base);
}

#[test]
fn bounded_and_full_stores_agree() {
    let mut state: u64 = 99;
    for round in 0..200u64 {
        let opts = WFAOpts { a: 0, x: (1 + round % 5) as u8, o: (round % 4) as u8, e: (1 + round % 3) as u8 };
        let t = pseudo_random_seq(&mut state, b"AC", 10);
        let q = pseudo_random_seq(&mut state, b"AC", 10);
        let bounded = wfa_with_store(&opts, &t, &q, Width::I16, Retention::Bounded);
        let full = wfa_with_store(&opts, &t, &q, Width::I16, Retention::Full);
        assert_eq!(bounded, full);
    }
}

#[test]
fn empty_sequences_score_zero() {
    assert_eq!(score(&example_opts(), "", ""), 0);
}

#[test]
fn zero_mismatch_cost_makes_substitutions_free() {
    let opts = WFAOpts { a: 0, x: 0, o: 6, e: 2 };
    assert_eq!(score(&opts, "GATACA", "GATACA"), 0);
    assert_eq!(score(&opts, "GATACA", "GATACC"), 0);
    assert_eq!(score(&opts, "GATAC", "GATACA"), 8);
    assert_eq!(score(&opts, "AAAA", "CC"), 10);
}

#[test]
fn zero_mismatch_cost_matches_dynamic_programming() {
    let mut state: u64 = 3;
    for round in 0..200u64 {
        let opts = WFAOpts { a: 0, x: 0, o: (round % 5) as u8, e: (1 + round % 3) as u8 };
        let t = pseudo_random_seq(&mut state, b"ACG", 10);
        let q = pseudo_random_seq(&mut state, b"ACG", 10);
        let got = wfa(&opts, &t, &q, Width::I32).unwrap();
        assert_eq!(got, reference_score(&opts, &t, &q), "t={:?} q={:?}", t, q);
    }
}

#[test]
fn all_zero_costs_score_zero() {
    let opts = WFAOpts { a: 0, x: 0, o: 0, e: 0 };
    assert_eq!(score(&opts, "GATACA", "TT"), 0);
    assert_eq!(score(&opts, "", "ACGT"), 0);
}

#[test]
fn zero_extend_cost_is_rejected_when_a_gap_is_needed() {
    let opts = WFAOpts { a: 0, x: 4, o: 6, e: 0 };
    assert_eq!(wfa(&opts, b"GATACA", b"GATAC", Width::I8), Err(WfaError::InvalidPenalties));
    assert_eq!(wfa(&opts, b"GATACA", b"GATACC", Width::I8), Err(WfaError::InvalidPenalties));
    assert_eq!(wfa(&opts, b"GATACA", b"GATACA", Width::I8), Ok(0));
    let free = WFAOpts { a: 0, x: 0, o: 6, e: 0 };
    assert_eq!(wfa(&free, b"GATACA", b"GATACC", Width::I8), Ok(0));
}

#[test]
fn overlong_sequence_is_reported_before_penalties() {
    let long = vec![b'A'; 128];
    let stalled = WFAOpts { a: 0, x: 4, o: 6, e: 0 };
    assert_eq!(wfa(&stalled, &long, b"A", Width::I8), Err(WfaError::SequenceTooLong));
    let free = WFAOpts { a: 0, x: 0, o: 6, e: 2 };
    assert_eq!(wfa(&free, &long, b"A", Width::I8), Err(WfaError::SequenceTooLong));
}

#[test]
fn sequence_longer_than_width_is_rejected() {
    let long = vec![b'A'; 128];
    let fits = vec![b'A'; 127];
    let opts = example_opts();
    assert_eq!(wfa(&opts, &long, b"A", Width::I8), Err(WfaError::SequenceTooLong));
    assert_eq!(wfa(&opts, b"A", &long, Width::I8), Err(WfaError::SequenceTooLong));
    assert_eq!(wfa(&opts, &fits, &fits, Width::I8), Ok(0));
}

#[test]
fn score_beyond_width_overflows() {
    let t = vec![b'A'; 40];
    let q = vec![b'C'; 40];
    let opts = example_opts();
    assert_eq!(wfa(&opts, &t, &q, Width::I8), Err(WfaError::ScoreOverflow));
    assert_eq!(wfa(&opts, &t, &q, Width::I16), Ok(160));
}

#[test]
fn width_maxima() {
    assert_eq!(Width::I8.max_value(), 127);
    assert_eq!(Width::I16.max_value(), 32767);
    assert_eq!(Width::I32.max_value(), 2147483647);
    assert_eq!(Width::I64.max_value(), i64::MAX as u64);
    assert_eq!(Width::I16.bits(), 16);
}

#[test]
fn default_penalties_are_unit_costs() {
    let opts = WFAOpts::default();
    assert_eq!((opts.a, opts.x, opts.o, opts.e), (0, 1, 1, 1));
    assert_eq!(score(&opts, "GATACA", "GATACC"), 1);
    assert_eq!(score(&opts, "GATACA", "GATAC"), 2);
}
