//! A hidden Markov model tagger: maximum-likelihood estimation of
//! start/transition/emission tables from labelled integer sequences, and
//! Viterbi decoding of the most likely hidden-state sequence, with an
//! optional forward (total-likelihood) computation and a stochastic sampler.
//!
//! Probabilities are exact decimal fixed-point numbers: an entry `p` of a
//! probability table stands for the probability `p / SCALE`.  Counts are
//! kept in thousandths (`COUNT_UNIT` per observed event), so that additive
//! smoothing by a fraction of a count stays exact integer arithmetic.

use vstd::prelude::*;

pub mod arith;
pub mod hmm;
pub mod hmm_ice;
pub mod hmm_tag;
pub mod loader;
pub mod sampler;
pub mod scaling;
pub mod viterbi;

verus! {

/// Fixed-point denominator: a table entry `p` stands for `p / SCALE`,
/// so `SCALE` itself is probability one.
pub const SCALE: u64 = 1_000_000;

/// Counts are kept in thousandths of one observed event, so that a
/// Laplace-style smoothing constant smaller than one count is exact.
pub const COUNT_UNIT: u64 = 1_000;

/// Machine limit on the number of hidden states, chosen so that every
/// intermediate product of the trellis computation fits in a `u128`.
pub const MAX_STATES: usize = 256;

/// Machine limit on the number of observation symbols.
pub const MAX_SYMBOLS: usize = 16_777_216;

/// Machine limit on the number of corpus tokens handed to estimation,
/// chosen so that every count in thousandths fits in a `u64`.
pub const MAX_TOKENS: u64 = 1_000_000_000_000;

/// Machine limit on the additive smoothing constant (one thousand counts).
pub const MAX_SMOOTH: u64 = 1_000_000;

/// Runtime configuration of model estimation.
#[derive(Clone, Copy, Debug, PartialEq, Eq, Structural)]
pub struct EstimateOptions {
    /// Additive (Laplace-style) smoothing constant, in thousandths of one
    /// observed count, added to every transition-count cell before
    /// normalization.  `0` switches smoothing off; `1` adds `0.001` of a
    /// count to every cell.
    pub smooth_millis: u64,
}

/// Runtime configuration of decoding.
#[derive(Clone, Copy, Debug, PartialEq, Eq, Structural)]
pub struct DecodeOptions {
    /// Also compute the total-sequence (forward) likelihood.
    pub track_likelihood: bool,
}

/// The errors of this library.
#[derive(Clone, Copy, Debug, PartialEq, Eq, Structural)]
pub enum HmmError {
    /// Estimation was asked for on an empty corpus, or with zero states
    /// or zero observation symbols.
    ConfigurationError,
    /// Decoding was asked for on an empty observation sequence.
    DecodeInputError,
}

} // verus!
