//! Stochastic sampling from a model: an explicit, seedable random
//! source drives a cumulative-distribution scan over each probability
//! row, producing a random trajectory of `(state, emission)` pairs.

use crate::arith::{nats_of, sum_of, sum_upto};
use crate::hmm::{lemma_mat_index, HMM};
use crate::{MAX_SYMBOLS, SCALE};
use rand::rngs::StdRng;
use rand::Rng;
use vstd::prelude::*;

verus! {

/// rand's standard seedable generator, declared opaquely so that an
/// explicit, reproducible random source can cross this library's
/// signatures.
#[verifier::external_type_specification]
#[verifier::external_body]
pub struct ExStdRng(StdRng);

/// Relies on rand's `Rng::gen_range`: a uniform draw from the given
/// range, which panics only when the range is empty, and `0 .. SCALE`
/// is not.  Nothing more is assumed of the draw than its range.
#[verifier::external_body]
fn draw_unit(rng: &mut StdRng) -> (r: u64)
    ensures
        r < SCALE,
{
    rng.gen_range(0..SCALE)
}

/// Where a cumulative scan of `probs` first exceeds `dice`, starting
/// the scan at index `n`: the sampled index of a draw `dice`.
pub open spec fn sample_from(probs: Seq<u64>, dice: nat, n: int) -> Option<int>
    decreases probs.len() - n,
{
    if n < 0 || n >= probs.len() {
        None
    } else if dice < sum_upto(nats_of(probs), n + 1) {
        Some(n)
    } else {
        sample_from(probs, dice, n + 1)
    }
}

/// The index sampled from the distribution `probs` by the draw `dice`:
/// the first index at which the cumulative probability mass exceeds the
/// draw, or `None` when the total mass stays at or below it.
pub open spec fn spec_sample(probs: Seq<u64>, dice: nat) -> Option<int> {
    sample_from(probs, dice, 0)
}

/// The total probability mass of one row, in `SCALE` units.
pub open spec fn row_mass(row: Seq<u64>) -> nat {
    sum_of(nats_of(row))
}

/// Every row of the model carries at least probability one of mass:
/// the start row, and each state's transition and emission rows.
pub open spec fn fully_massed(m: HMM) -> bool {
    &&& row_mass(m.start()) >= SCALE
    &&& forall|s: int| 0 <= s < m.k() ==> row_mass(#[trigger] m.trans()[s]) >= SCALE
    &&& forall|s: int| 0 <= s < m.k() ==> row_mass(#[trigger] m.emiss()[s]) >= SCALE
}

/// A draw below the total mass always lands: the cumulative scan from
/// any index not yet past the draw reaches an entry that exceeds it.
proof fn lemma_sample_some(probs: Seq<u64>, dice: nat, n: int)
    requires
        0 <= n < probs.len(),
        dice < row_mass(probs),
    ensures
        (sample_from(probs, dice, n) is Some),
    decreases probs.len() - n,
{
    let pnats = nats_of(probs);
    if dice < sum_upto(pnats, n + 1) {
    } else {
        if n + 1 == probs.len() {
            assert(sum_upto(pnats, n + 1) == row_mass(probs));
        }
        lemma_sample_some(probs, dice, n + 1);
    }
}

/// A sampled index carries positive probability: the cumulative mass
/// moved past the draw exactly there.
proof fn lemma_sample_pos(probs: Seq<u64>, dice: nat, n: int)
    requires
        (sample_from(probs, dice, n) is Some),
        0 <= n,
        sum_upto(nats_of(probs), n) <= dice,
    ensures
        ({
            let i = sample_from(probs, dice, n)->0;
            &&& n <= i < probs.len()
            &&& probs[i] > 0
            &&& dice < sum_upto(nats_of(probs), i + 1)
        }),
    decreases probs.len() - n,
{
    if dice < sum_upto(nats_of(probs), n + 1) {
    } else {
        lemma_sample_pos(probs, dice, n + 1);
    }
}

/// Sample an index from the distribution `probs` with the uniform draw
/// `dice`, by scanning the cumulative distribution from the left.
///
/// Deterministic in its arguments: the caller supplies the draw, so the
/// whole function is verified for every value the source can produce.
#[verifier::loop_isolation(false)]
pub fn vector_sample(probs: &Vec<u64>, dice: u64) -> (r: Option<usize>)
    requires
        probs@.len() <= MAX_SYMBOLS,
        forall|i: int| 0 <= i < probs@.len() ==> #[trigger] probs@[i] <= SCALE,
    ensures
        match r {
            Some(n) => {
                &&& spec_sample(probs@, dice as nat) == Some(n as int)
                &&& n < probs@.len()
                &&& probs@[n as int] > 0
            },
            None => spec_sample(probs@, dice as nat) is None,
        },
{
    let ghost pnats = nats_of(probs@);
    let len = probs.len();
    let mut cum: u64 = 0;
    let mut n: usize = 0;
    while n < len
        invariant
            n <= len,
            cum as nat == sum_upto(pnats, n as int),
            dice as nat >= sum_upto(pnats, n as int),
            spec_sample(probs@, dice as nat) == sample_from(probs@, dice as nat, n as int),
        decreases len - n,
    {
        proof {
            crate::arith::lemma_sum_upper(pnats, n as int + 1, SCALE as nat);
            vstd::arithmetic::mul::lemma_mul_inequality(
                n as int + 1,
                MAX_SYMBOLS as int,
                SCALE as int,
            );
        }
        cum = cum + probs[n];
        if dice < cum {
            proof {
                lemma_sample_pos(probs@, dice as nat, n as int);
            }
            return Some(n);
        }
        n = n + 1;
    }
    None
}

impl HMM {
    /// Sample a random trajectory of `steps` pairs `(state, emission)`
    /// from the model, drawing from `rng`: the first state from the
    /// start distribution, then, for each step, an emission from the
    /// state's emission row and the next state from its transition row.
    ///
    /// Whatever the draws, every reported pair has positive probability
    /// under the model, the first state has positive start probability,
    /// and each step's state has positive transition probability from
    /// the one before it.  On a model whose rows each carry at least
    /// probability one of mass (`fully_massed`) the trajectory is owed:
    /// every draw lands inside the cumulative scan, so the result is
    /// `Some`.  `None` comes only when a draw fell beyond a deficient
    /// row's total mass (a row whose entries sum below one, such as an
    /// all-zero row of an unsmoothed model).
    #[verifier::loop_isolation(false)]
    pub fn traverse(&mut self, rng: &mut StdRng, steps: usize) -> (r: Option<
        Vec<(usize, usize)>,
    >)
        requires
            old(self).wf(),
            old(self).count_state >= 1,
        ensures
            final(self).count_state == old(self).count_state,
            final(self).count_emiss == old(self).count_emiss,
            final(self).prob_start == old(self).prob_start,
            final(self).prob_trans == old(self).prob_trans,
            final(self).prob_emiss == old(self).prob_emiss,
            final(self).wf(),
            match r {
                Some(tr) => {
                    &&& tr@.len() == steps
                    &&& final(self).state < final(self).count_state
                    &&& forall|i: int|
                        0 <= i < steps ==> (#[trigger] tr@[i]).0 < old(self).count_state
                            && tr@[i].1 < old(self).count_emiss && old(self).emiss()[tr@[i].0 as int][tr@[i].1 as int] > 0
                    &&& steps > 0 ==> old(self).start()[tr@[0].0 as int] > 0
                    &&& forall|i: int|
                        0 <= i < steps - 1 ==> old(self).trans()[(#[trigger] tr@[i]).0 as int][tr@[i
                            + 1].0 as int] > 0
                },
                None => !fully_massed(*old(self)),
            },
            fully_massed(*old(self)) ==> (r is Some),
    {
        let ghost m = *self;
        let d0 = draw_unit(rng);
        let s0 = match vector_sample(&self.prob_start, d0) {
            Some(s) => s,
            None => {
                proof {
                    if fully_massed(m) {
                        lemma_sample_some(self.prob_start@, d0 as nat, 0);
                    }
                }
                return None;
            },
        };
        self.state = s0;
        let mut result: Vec<(usize, usize)> = Vec::new();
        let mut step: usize = 0;
        while step < steps
            invariant
                step <= steps,
                self.count_state == m.count_state,
                self.count_emiss == m.count_emiss,
                self.prob_start == m.prob_start,
                self.prob_trans == m.prob_trans,
                self.prob_emiss == m.prob_emiss,
                self.wf(),
                self.count_state >= 1,
                self.state < self.count_state,
                result@.len() == step,
                forall|i: int|
                    0 <= i < step ==> (#[trigger] result@[i]).0 < m.count_state && result@[i].1
                        < m.count_emiss && m.emiss()[result@[i].0 as int][result@[i].1 as int] > 0,
                step > 0 ==> m.start()[result@[0].0 as int] > 0,
                step == 0 ==> m.start()[self.state as int] > 0,
                step > 0 ==> m.trans()[result@[step - 1].0 as int][self.state as int] > 0,
                forall|i: int|
                    0 <= i < step - 1 ==> m.trans()[(#[trigger] result@[i]).0 as int][result@[i
                        + 1].0 as int] > 0,
            decreases steps - step,
        {
            proof {
                lemma_mat_index(self.prob_emiss, self.state as int);
            }
            let de = draw_unit(rng);
            let e = match vector_sample(&self.prob_emiss[self.state], de) {
                Some(e) => e,
                None => {
                    proof {
                        if fully_massed(m) {
                            assert(row_mass(m.emiss()[self.state as int]) >= SCALE);
                            if self.prob_emiss@[self.state as int]@.len() == 0 {
                                assert(row_mass(m.emiss()[self.state as int]) == 0);
                            }
                            lemma_sample_some(self.prob_emiss@[self.state as int]@, de as nat, 0);
                        }
                    }
                    return None;
                },
            };
            result.push((self.state, e));
            proof {
                lemma_mat_index(self.prob_trans, self.state as int);
            }
            let dt = draw_unit(rng);
            let ns = match vector_sample(&self.prob_trans[self.state], dt) {
                Some(s) => s,
                None => {
                    proof {
                        if fully_massed(m) {
                            assert(row_mass(m.trans()[self.state as int]) >= SCALE);
                            if self.prob_trans@[self.state as int]@.len() == 0 {
                                assert(row_mass(m.trans()[self.state as int]) == 0);
                            }
                            lemma_sample_some(self.prob_trans@[self.state as int]@, dt as nat, 0);
                        }
                    }
                    return None;
                },
            };
            self.state = ns;
            step = step + 1;
        }
        Some(result)
    }
}

} // verus!
