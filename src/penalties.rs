use vstd::arithmetic::power2::{lemma2_to64, lemma2_to64_rest, pow2};
use vstd::prelude::*;

verus! {

/// Gap-affine penalties: a match bonus, and the costs of a mismatch, of
/// opening a gap and of extending it by one character.
pub struct WFAOpts {
    pub a: u8,
    pub x: u8,
    pub o: u8,
    pub e: u8,
}

impl Default for WFAOpts {
    fn default() -> (r: WFAOpts)
        ensures
            r.a == 0 && r.x == 1 && r.o == 1 && r.e == 1,
    {
        WFAOpts { a: 0, x: 1, o: 1, e: 1 }
    }
}

/// The signed integer width that bounds sequence lengths and scores.
#[derive(Clone, Copy, Debug, PartialEq, Eq, Structural)]
pub enum Width {
    I8,
    I16,
    I32,
    I64,
}

impl Width {
    pub open spec fn spec_bits(self) -> nat {
        match self {
            Width::I8 => 8,
            Width::I16 => 16,
            Width::I32 => 32,
            Width::I64 => 64,
        }
    }

    /// The largest value of the signed type: `2^(bits - 1) - 1`.
    pub open spec fn spec_max(self) -> int {
        pow2((self.spec_bits() - 1) as nat) - 1
    }

    pub fn bits(&self) -> (r: usize)
        ensures
            r == self.spec_bits(),
    {
        match self {
            Width::I8 => 8,
            Width::I16 => 16,
            Width::I32 => 32,
            Width::I64 => 64,
        }
    }

    /// Every width holds the values of `i8`, and no more than those of `i64`.
    pub proof fn lemma_max_fits(self)
        ensures
            127 <= self.spec_max() <= i64::MAX,
    {
        lemma2_to64();
        lemma2_to64_rest();
    }

    /// The longest sequence, and the highest score, that this width holds.
    pub fn max_value(&self) -> (r: u64)
        ensures
            r == self.spec_max(),
    {
        let bits = self.bits();
        proof {
            lemma2_to64();
            lemma2_to64_rest();
        }
        power_of_two(bits - 1) - 1
    }
}

/// Relies on num::pow: `2` raised to `exp` by repeated squaring, which stays
/// within `u64` for every exponent below 64.
#[verifier::external_body]
fn power_of_two(exp: usize) -> (r: u64)
    requires
        exp < 64,
    ensures
        r == pow2(exp as nat),
{
    num::pow(2u64, exp)
}

/// Why an alignment could not be computed.
#[derive(Clone, Copy, Debug, PartialEq, Eq, Structural)]
pub enum WfaError {
    /// The gap-extend cost is zero beside a positive cost, so the score could
    /// stall, and the seed alone does not reach the end.
    InvalidPenalties,
    /// A sequence is longer than the chosen width holds.
    SequenceTooLong,
    /// No score that the chosen width holds reaches the end of both sequences.
    ScoreOverflow,
}

/// Which past wavefronts the store keeps.
#[derive(Clone, Copy, Debug, PartialEq, Eq, Structural)]
pub enum Retention {
    /// Only the scores that later recurrences can still look back to.
    Bounded,
    /// Every materialized score.
    Full,
}

} // verus!
