//! Viterbi decoding: the trellis recurrence in decimal fixed point, its
//! layer rescaling, the backtrace, and the optional forward (total
//! likelihood) computation.
//!
//! Trellis scores live in units of `SCALE * SCALE` (one probability
//! squared): the initial layer is `start * emission`, and every later
//! layer is rescaled by the layer sum back into those units.  All spec
//! functions below mirror that integer arithmetic exactly.

use crate::arith::{
    lemma_rescale_le, lemma_sum_bounds_element, lemma_sum_upper, lemma_sum_zero, sum_of, sum_upto,
};
use crate::hmm::{lemma_mat_index, HMM};
use crate::{DecodeOptions, HmmError, MAX_STATES, SCALE};
use vstd::pervasive::VecAdditionalExecFns;
use vstd::prelude::*;

verus! {

/// The unit of trellis scores: one probability squared.
pub open spec fn scale2() -> nat {
    (SCALE * SCALE) as nat
}

/// The emission probability of symbol `o` in state `s`, with the
/// out-of-vocabulary fallback: a symbol beyond the emission row is given
/// the neutral probability one (`SCALE`), so unseen symbols never
/// collapse every path to zero.
pub open spec fn emiss_prob(m: HMM, s: int, o: int) -> nat {
    if o >= m.emiss()[s].len() {
        SCALE as nat
    } else {
        m.emiss()[s][o] as nat
    }
}

/// The score of state `s` at time zero: start probability times emission.
pub open spec fn init_score(m: HMM, o0: int, s: int) -> nat {
    (m.start()[s] as nat) * emiss_prob(m, s, o0)
}

/// The score of reaching state `b` from state `a`, given the previous
/// layer `prev`.
pub open spec fn cand_score(m: HMM, prev: Seq<nat>, a: int, b: int) -> nat {
    prev[a] * (m.trans()[a][b] as nat)
}

/// The best candidate score for target state `b` over source states
/// `0 .. n`, starting from zero, exactly as the decoder's ascending scan
/// computes it.
pub open spec fn best_cand_upto(m: HMM, prev: Seq<nat>, b: int, n: int) -> nat
    decreases n,
{
    if n <= 0 {
        0
    } else {
        let rest = best_cand_upto(m, prev, b, n - 1);
        if cand_score(m, prev, n - 1, b) > rest {
            cand_score(m, prev, n - 1, b)
        } else {
            rest
        }
    }
}

/// The predecessor recorded for target state `b`: the lowest source
/// state whose candidate attains the maximum (a strictly greater
/// candidate replaces the recorded one).
pub open spec fn best_pred_upto(m: HMM, prev: Seq<nat>, b: int, n: int) -> int
    decreases n,
{
    if n <= 1 {
        0
    } else if cand_score(m, prev, n - 1, b) > best_cand_upto(m, prev, b, n - 1) {
        n - 1
    } else {
        best_pred_upto(m, prev, b, n - 1)
    }
}

/// The forward sum for target state `b` over source states `0 .. n`:
/// a genuine sum over all predecessors, not a maximum.
pub open spec fn fwd_cand_sum(m: HMM, prev: Seq<nat>, b: int, n: int) -> nat
    decreases n,
{
    if n <= 0 {
        0
    } else {
        fwd_cand_sum(m, prev, b, n - 1) + cand_score(m, prev, n - 1, b)
    }
}

/// One unrescaled step of the best-score recurrence: maximum over the
/// predecessors, then the emission factor, applied once after the max.
pub open spec fn raw_step_best(m: HMM, prev: Seq<nat>, o: int) -> Seq<nat> {
    Seq::new(m.k() as nat, |b: int| best_cand_upto(m, prev, b, m.k()) * emiss_prob(m, b, o))
}

/// One unrescaled step of the forward recurrence.
pub open spec fn raw_step_fwd(m: HMM, prev: Seq<nat>, o: int) -> Seq<nat> {
    Seq::new(m.k() as nat, |b: int| fwd_cand_sum(m, prev, b, m.k()) * emiss_prob(m, b, o))
}

/// Layer rescaling: every score is divided by the layer's sum, in fixed
/// point, so the layer is put back into units of `scale2()`.  An all-zero
/// layer is left as it is rather than divided by zero.
pub open spec fn rescale_layer(raw: Seq<nat>) -> Seq<nat> {
    if sum_of(raw) == 0 {
        raw
    } else {
        raw.map_values(|x: nat| x * scale2() / sum_of(raw))
    }
}

/// The rescaled best-score layer at time `t`.
pub open spec fn best_layer(m: HMM, obs: Seq<usize>, t: int) -> Seq<nat>
    decreases t,
{
    if t <= 0 {
        Seq::new(m.k() as nat, |s: int| init_score(m, obs[0] as int, s))
    } else {
        rescale_layer(raw_step_best(m, best_layer(m, obs, t - 1), obs[t] as int))
    }
}

/// The recorded predecessors at time `t >= 1`.
pub open spec fn pred_layer(m: HMM, obs: Seq<usize>, t: int) -> Seq<int> {
    Seq::new(m.k() as nat, |b: int| best_pred_upto(m, best_layer(m, obs, t - 1), b, m.k()))
}

/// The rescaled forward layer at time `t`.
pub open spec fn fwd_layer(m: HMM, obs: Seq<usize>, t: int) -> Seq<nat>
    decreases t,
{
    if t <= 0 {
        Seq::new(m.k() as nat, |s: int| init_score(m, obs[0] as int, s))
    } else {
        rescale_layer(raw_step_fwd(m, fwd_layer(m, obs, t - 1), obs[t] as int))
    }
}

/// The lowest index attaining the maximum of the first `n` entries,
/// exactly as an ascending scan with strict replacement computes it.
pub open spec fn arg_max_upto(s: Seq<nat>, n: int) -> int
    decreases n,
{
    if n <= 1 {
        0
    } else if s[n - 1] > s[arg_max_upto(s, n - 1)] {
        n - 1
    } else {
        arg_max_upto(s, n - 1)
    }
}

/// The lowest index attaining the maximum of `s`.
pub open spec fn arg_max(s: Seq<nat>) -> int {
    arg_max_upto(s, s.len() as int)
}

/// The decoded path up to time `t`, ending in state `s_end`, built by
/// following the recorded predecessors backwards.
pub open spec fn path_to(m: HMM, obs: Seq<usize>, t: int, s_end: int) -> Seq<int>
    decreases t,
{
    if t <= 0 {
        seq![s_end]
    } else {
        path_to(m, obs, t - 1, pred_layer(m, obs, t)[s_end]).push(s_end)
    }
}

/// The most likely state sequence for `obs`: backtrace from the lowest
/// state attaining the maximum of the final layer.
pub open spec fn viterbi_path(m: HMM, obs: Seq<usize>) -> Seq<int> {
    path_to(m, obs, obs.len() - 1, arg_max(best_layer(m, obs, obs.len() - 1)))
}

/// The total-sequence likelihood: the sum of the final forward layer, in
/// the rescaled fixed-point units of that layer.
pub open spec fn total_likelihood(m: HMM, obs: Seq<usize>) -> nat {
    sum_of(fwd_layer(m, obs, obs.len() - 1))
}

/// Law: decoding is deterministic.  Two decoded paths for the same
/// model and the same observations are equal, because `viterbi`
/// guarantees that each equals the one path `viterbi_path` defines, and
/// that function depends on nothing but the model and the observations.
pub proof fn lemma_decode_deterministic(m: HMM, obs: Seq<usize>, p1: Seq<int>, p2: Seq<int>)
    requires
        p1 == viterbi_path(m, obs),
        p2 == viterbi_path(m, obs),
    ensures
        p1 == p2,
{
}

/// Law: a single observation decodes from start and emission alone.
/// The one decoded state is the lowest state maximizing
/// `start[s] * emission(s, obs[0])`; no transition probability enters
/// the layer it is chosen from.
pub proof fn lemma_single_observation(m: HMM, obs: Seq<usize>)
    requires
        obs.len() == 1,
    ensures
        viterbi_path(m, obs) == seq![
            arg_max(Seq::new(m.k() as nat, |s: int| init_score(m, obs[0] as int, s))),
        ],
{
    let layer0 = Seq::new(m.k() as nat, |s: int| init_score(m, obs[0] as int, s));
    assert(viterbi_path(m, obs) =~= seq![arg_max(layer0)]);
}

/// Law: an observation id at or beyond the trained vocabulary is not
/// an error and carries the neutral emission probability one for every
/// state, so an unseen symbol never collapses every path to zero.
pub proof fn lemma_oov_neutral(m: HMM, s: int, o: int)
    requires
        m.wf(),
        0 <= s < m.k(),
        o >= m.v(),
    ensures
        emiss_prob(m, s, o) == SCALE,
{
}

/// The candidate scan computes a true maximum: no candidate exceeds it,
/// and the recorded predecessor attains it.
pub proof fn lemma_best_cand_is_max(m: HMM, prev: Seq<nat>, b: int, n: int)
    ensures
        forall|a: int|
            0 <= a < n ==> cand_score(m, prev, a, b) <= best_cand_upto(m, prev, b, n),
        n >= 1 ==> cand_score(m, prev, best_pred_upto(m, prev, b, n), b) == best_cand_upto(
            m,
            prev,
            b,
            n,
        ),
    decreases n,
{
    if n == 1 {
        assert(best_cand_upto(m, prev, b, 0) == 0);
    }
    if n > 1 {
        lemma_best_cand_is_max(m, prev, b, n - 1);
    }
}

/// The decoded path ends on a state whose final best score no other
/// state exceeds — the lowest such state.
pub proof fn lemma_decoded_end_attains_max(m: HMM, obs: Seq<usize>)
    requires
        m.wf(),
        m.count_state >= 1,
        obs.len() >= 1,
    ensures
        ({
            let last = best_layer(m, obs, obs.len() - 1);
            let end = viterbi_path(m, obs)[obs.len() - 1];
            &&& 0 <= end < m.k()
            &&& forall|s: int| 0 <= s < m.k() ==> #[trigger] last[s] <= last[end]
        }),
{
    let last = best_layer(m, obs, obs.len() - 1);
    lemma_best_layer_bounds(m, obs, obs.len() - 1);
    lemma_arg_max_upto(last, m.k());
    lemma_path_to_basic(m, obs, obs.len() - 1, arg_max(last));
}

/// Every emission probability, including the out-of-vocabulary fallback,
/// is at most one.
proof fn lemma_emiss_prob_le(m: HMM, s: int, o: int)
    requires
        m.wf(),
        0 <= s < m.k(),
        0 <= o,
    ensures
        emiss_prob(m, s, o) <= SCALE,
{
}

/// A maximum over candidates built from a bounded previous layer is at
/// most `bound * SCALE`.
proof fn lemma_best_cand_upto_le(m: HMM, prev: Seq<nat>, b: int, n: int, bound: nat)
    requires
        m.wf(),
        0 <= b < m.k(),
        n <= m.k(),
        forall|a: int| 0 <= a < n ==> prev[a] <= bound,
    ensures
        best_cand_upto(m, prev, b, n) <= bound * SCALE,
    decreases n,
{
    crate::arith::lemma_mul_le(0, bound, 0, SCALE as nat);
    if n > 0 {
        lemma_best_cand_upto_le(m, prev, b, n - 1, bound);
        crate::arith::lemma_mul_le(prev[n - 1], bound, m.trans()[n - 1][b] as nat, SCALE as nat);
    }
}

/// A forward sum over candidates built from a bounded previous layer is
/// at most `n * (bound * SCALE)`.
proof fn lemma_fwd_cand_sum_le(m: HMM, prev: Seq<nat>, b: int, n: int, bound: nat)
    requires
        m.wf(),
        0 <= b < m.k(),
        0 <= n <= m.k(),
        forall|a: int| 0 <= a < n ==> prev[a] <= bound,
    ensures
        fwd_cand_sum(m, prev, b, n) <= n * (bound * SCALE),
    decreases n,
{
    if n == 0 {
    } else {
        lemma_fwd_cand_sum_le(m, prev, b, n - 1, bound);
        crate::arith::lemma_mul_le(prev[n - 1], bound, m.trans()[n - 1][b] as nat, SCALE as nat);
        assert((n - 1) * (bound * SCALE) + bound * SCALE == n * (bound * SCALE))
            by (nonlinear_arith);
    }
}

/// The recorded predecessor is a valid state index.
proof fn lemma_best_pred_range(m: HMM, prev: Seq<nat>, b: int, n: int)
    ensures
        0 <= best_pred_upto(m, prev, b, n),
        best_pred_upto(m, prev, b, n) < n || best_pred_upto(m, prev, b, n) == 0,
    decreases n,
{
    if n > 1 {
        lemma_best_pred_range(m, prev, b, n - 1);
    }
}

/// A rescaled layer keeps its length and every entry is at most one
/// probability squared.
proof fn lemma_rescale_bounds(raw: Seq<nat>)
    ensures
        rescale_layer(raw).len() == raw.len(),
        forall|i: int| 0 <= i < raw.len() ==> #[trigger] rescale_layer(raw)[i] <= scale2(),
{
    if sum_of(raw) == 0 {
        lemma_sum_zero(raw, raw.len() as int);
    } else {
        assert forall|i: int| 0 <= i < raw.len() implies #[trigger] rescale_layer(raw)[i]
            <= scale2() by {
            lemma_sum_bounds_element(raw, raw.len() as int, i);
            lemma_rescale_le(raw[i], sum_of(raw), scale2());
        }
    }
}

/// Every best-score layer has one entry per state, each at most one
/// probability squared.
pub proof fn lemma_best_layer_bounds(m: HMM, obs: Seq<usize>, t: int)
    requires
        m.wf(),
    ensures
        best_layer(m, obs, t).len() == m.k(),
        forall|s: int| 0 <= s < m.k() ==> #[trigger] best_layer(m, obs, t)[s] <= scale2(),
    decreases t,
{
    if t <= 0 {
        assert forall|s: int| 0 <= s < m.k() implies #[trigger] best_layer(m, obs, t)[s]
            <= scale2() by {
            lemma_emiss_prob_le(m, s, obs[0] as int);
            crate::arith::lemma_mul_le(
                m.start()[s] as nat,
                SCALE as nat,
                emiss_prob(m, s, obs[0] as int),
                SCALE as nat,
            );
        }
    } else {
        lemma_best_layer_bounds(m, obs, t - 1);
        lemma_rescale_bounds(raw_step_best(m, best_layer(m, obs, t - 1), obs[t] as int));
    }
}

/// Every forward layer has one entry per state, each at most one
/// probability squared.
pub proof fn lemma_fwd_layer_bounds(m: HMM, obs: Seq<usize>, t: int)
    requires
        m.wf(),
    ensures
        fwd_layer(m, obs, t).len() == m.k(),
        forall|s: int| 0 <= s < m.k() ==> #[trigger] fwd_layer(m, obs, t)[s] <= scale2(),
    decreases t,
{
    if t <= 0 {
        assert forall|s: int| 0 <= s < m.k() implies #[trigger] fwd_layer(m, obs, t)[s]
            <= scale2() by {
            lemma_emiss_prob_le(m, s, obs[0] as int);
            crate::arith::lemma_mul_le(
                m.start()[s] as nat,
                SCALE as nat,
                emiss_prob(m, s, obs[0] as int),
                SCALE as nat,
            );
        }
    } else {
        lemma_fwd_layer_bounds(m, obs, t - 1);
        lemma_rescale_bounds(raw_step_fwd(m, fwd_layer(m, obs, t - 1), obs[t] as int));
    }
}

/// The lowest maximal index is a valid index, and its entry is maximal.
pub proof fn lemma_arg_max_upto(s: Seq<nat>, n: int)
    requires
        n >= 1,
    ensures
        0 <= arg_max_upto(s, n) < n,
        forall|i: int| 0 <= i < n ==> #[trigger] s[i] <= s[arg_max_upto(s, n)],
    decreases n,
{
    if n > 1 {
        lemma_arg_max_upto(s, n - 1);
    }
}

/// A backtraced path has one state per time step and ends in `s_end`.
pub proof fn lemma_path_to_basic(m: HMM, obs: Seq<usize>, t: int, s_end: int)
    requires
        t >= 0,
    ensures
        path_to(m, obs, t, s_end).len() == t + 1,
        path_to(m, obs, t, s_end)[t] == s_end,
    decreases t,
{
    if t > 0 {
        lemma_path_to_basic(m, obs, t - 1, pred_layer(m, obs, t)[s_end]);
    }
}

/// Each state of a backtraced path is the recorded predecessor of the
/// state that follows it.
pub proof fn lemma_path_to_step(m: HMM, obs: Seq<usize>, t: int, s_end: int, j: int)
    requires
        1 <= j <= t,
    ensures
        path_to(m, obs, t, s_end)[j - 1] == pred_layer(m, obs, j)[path_to(m, obs, t, s_end)[j]],
    decreases t,
{
    let p = pred_layer(m, obs, t)[s_end];
    lemma_path_to_basic(m, obs, t - 1, p);
    if j == t {
        lemma_path_to_basic(m, obs, t, s_end);
        if t >= 2 {
            lemma_path_to_basic(m, obs, t - 2, pred_layer(m, obs, t - 1)[p]);
        }
    } else {
        lemma_path_to_step(m, obs, t - 1, p, j);
    }
}

/// Every state of a backtraced path is a valid state index.
pub proof fn lemma_path_to_range(m: HMM, obs: Seq<usize>, t: int, s_end: int)
    requires
        t >= 0,
        0 <= s_end < m.k(),
        m.k() >= 1,
    ensures
        forall|j: int|
            0 <= j <= t ==> 0 <= #[trigger] path_to(m, obs, t, s_end)[j] < m.k(),
    decreases t,
{
    lemma_path_to_basic(m, obs, t, s_end);
    if t > 0 {
        let p = pred_layer(m, obs, t)[s_end];
        lemma_best_pred_range(m, best_layer(m, obs, t - 1), s_end, m.k());
        lemma_path_to_range(m, obs, t - 1, p);
        lemma_path_to_basic(m, obs, t - 1, p);
    }
}

/// One cell of the trellis: the best score of a `(time, state)` pair,
/// the predecessor that attains it, and the forward score.
#[derive(Clone, Copy)]
pub struct TrellisItem {
    pub cum_prob: u128,
    pub max_prob: u128,
    pub max_path: usize,
}

impl TrellisItem {
    /// An empty cell: zero scores, predecessor zero.
    pub fn new() -> (t: TrellisItem)
        ensures
            t.cum_prob == 0,
            t.max_prob == 0,
            t.max_path == 0,
    {
        TrellisItem { cum_prob: 0, max_prob: 0, max_path: 0 }
    }
}

/// The result of a decode call: the most likely state sequence and, when
/// asked for, the total-sequence likelihood in the fixed-point units of
/// the final rescaled forward layer.
#[derive(Debug)]
pub struct Decoded {
    pub path: Vec<usize>,
    pub likelihood: Option<u128>,
}

/// The trellis rows `0 .. filled` agree with the spec layers.
pub open spec fn trellis_ok(
    m: HMM,
    obs: Seq<usize>,
    tr: Seq<Vec<TrellisItem>>,
    filled: int,
    track: bool,
) -> bool {
    &&& forall|t: int| 0 <= t < filled ==> (#[trigger] tr[t])@.len() == m.k()
    &&& forall|t: int, s: int|
        0 <= t < filled && 0 <= s < m.k() ==> {
            &&& (#[trigger] tr[t]@[s]).max_prob as nat == best_layer(m, obs, t)[s]
            &&& (track ==> tr[t]@[s].cum_prob as nat == fwd_layer(m, obs, t)[s])
            &&& (t >= 1 ==> tr[t]@[s].max_path as int == pred_layer(m, obs, t)[s]
                && tr[t]@[s].max_path < m.k())
        }
}

impl HMM {
    /// The emission probability of `observation` in `state`, with the
    /// out-of-vocabulary fallback: an observation id at or beyond the
    /// emission row gets the neutral probability one.
    pub fn prob_emiss_comp(&self, state: usize, observation: usize) -> (p: u64)
        requires
            self.wf(),
            state < self.count_state,
        ensures
            p as nat == emiss_prob(*self, state as int, observation as int),
            p <= SCALE,
    {
        proof {
            lemma_mat_index(self.prob_emiss, state as int);
        }
        if observation >= self.prob_emiss[state].len() {
            SCALE
        } else {
            self.prob_emiss[state][observation]
        }
    }

    /// Decode the most likely hidden-state sequence for `observations`.
    ///
    /// The path equals `viterbi_path`, the exact fixed-point trellis
    /// recurrence with layer rescaling and lowest-id tie-breaking; when
    /// `options.track_likelihood` is set the forward likelihood
    /// `total_likelihood` is returned beside it.  The only error is an
    /// empty observation sequence; observation ids beyond the trained
    /// vocabulary are not an error.
    #[verifier::loop_isolation(false)]
    pub fn viterbi(&self, observations: &[usize], options: DecodeOptions) -> (r: Result<
        Decoded,
        HmmError,
    >)
        requires
            self.wf(),
            self.count_state >= 1,
        ensures
            match r {
                Ok(d) => {
                    &&& observations@.len() > 0
                    &&& d.path@.len() == observations@.len()
                    &&& forall|t: int|
                        0 <= t < observations@.len() ==> #[trigger] d.path@[t]
                            < self.count_state
                    &&& forall|t: int|
                        0 <= t < observations@.len() ==> #[trigger] d.path@[t] as int
                            == viterbi_path(*self, observations@)[t]
                    &&& (options.track_likelihood ==> (d.likelihood matches Some(l) && l as nat
                        == total_likelihood(*self, observations@)))
                    &&& (!options.track_likelihood ==> d.likelihood is None)
                },
                Err(e) => e == HmmError::DecodeInputError && observations@.len() == 0,
            },
    {
        let ghost m = *self;
        let ghost obs = observations@;
        let t_len = observations.len();
        if t_len == 0 {
            return Err(HmmError::DecodeInputError);
        }
        let k = self.count_state;
        let track = options.track_likelihood;

        // Initial layer: start probability times emission, no transition.
        let o0 = observations[0];
        let mut first: Vec<TrellisItem> = Vec::new();
        let mut s0: usize = 0;
        while s0 < k
            invariant
                s0 <= k,
                first@.len() == s0,
                forall|j: int|
                    0 <= j < s0 ==> (#[trigger] first@[j]).max_prob as nat == best_layer(
                        m,
                        obs,
                        0,
                    )[j] && first@[j].cum_prob as nat == fwd_layer(m, obs, 0)[j]
                        && first@[j].max_path == 0,
            decreases k - s0,
        {
            let ep = self.prob_emiss_comp(s0, o0);
            let sp = self.prob_start[s0];
            proof {
                crate::arith::lemma_mul_le(sp as nat, SCALE as nat, ep as nat, SCALE as nat);
            }
            let hop: u128 = (sp as u128) * (ep as u128);
            first.push(TrellisItem { cum_prob: hop, max_prob: hop, max_path: 0 });
            s0 = s0 + 1;
        }

        let mut trellis: Vec<Vec<TrellisItem>> = Vec::new();
        trellis.push(first);

        let mut time: usize = 1;
        while time < t_len
            invariant
                1 <= time <= t_len,
                trellis@.len() == time,
                trellis_ok(m, obs, trellis@, time as int, track),
            decreases t_len - time,
        {
            let o_t = observations[time];
            let ghost prev_best = best_layer(m, obs, time - 1);
            let ghost prev_fwd = fwd_layer(m, obs, time - 1);
            let ghost raw_best = raw_step_best(m, prev_best, o_t as int);
            let ghost raw_fwd = raw_step_fwd(m, prev_fwd, o_t as int);
            proof {
                lemma_best_layer_bounds(m, obs, time - 1);
                lemma_fwd_layer_bounds(m, obs, time - 1);
            }

            let mut cur: Vec<TrellisItem> = Vec::new();
            let mut b: usize = 0;
            while b < k
                invariant
                    b <= k,
                    cur@.len() == b,
                    forall|j: int|
                        0 <= j < b ==> (#[trigger] cur@[j]).max_prob as nat == raw_best[j] && (
                        track ==> cur@[j].cum_prob as nat == raw_fwd[j]) && cur@[j].max_path as int
                            == pred_layer(m, obs, time as int)[j] && cur@[j].max_path < k,
                decreases k - b,
            {
                // Maximum over the predecessors, keeping the lowest state
                // that attains it.
                let mut best: u128 = 0;
                let mut pred: usize = 0;
                let mut a: usize = 0;
                while a < k
                    invariant
                        a <= k,
                        b < k,
                        pred < k,
                        best as nat == best_cand_upto(m, prev_best, b as int, a as int),
                        pred as int == best_pred_upto(m, prev_best, b as int, a as int),
                        best <= 1_000_000_000_000_000_000u128,  // SCALE^3
                    decreases k - a,
                {
                    proof {
                        lemma_mat_index(self.prob_trans, a as int);
                        crate::arith::lemma_mul_le(
                            prev_best[a as int],
                            scale2(),
                            m.trans()[a as int][b as int] as nat,
                            SCALE as nat,
                        );
                    }
                    let c: u128 = trellis[time - 1][a].max_prob * (
                    self.prob_trans[a][b] as u128);
                    if c > best {
                        best = c;
                        pred = a;
                    }
                    a = a + 1;
                }
                let ep = self.prob_emiss_comp(b, o_t);
                proof {
                    crate::arith::lemma_mul_le(
                        best as nat,
                        1_000_000_000_000_000_000u128 as nat,
                        ep as nat,
                        SCALE as nat,
                    );
                }
                let raw_max: u128 = best * (ep as u128);

                // Forward sum over all predecessors, if tracked.
                let mut cum_raw: u128 = 0;
                if track {
                    let mut acc: u128 = 0;
                    let mut a2: usize = 0;
                    while a2 < k
                        invariant
                            a2 <= k,
                            b < k,
                            acc as nat == fwd_cand_sum(m, prev_fwd, b as int, a2 as int),
                        decreases k - a2,
                    {
                        proof {
                            lemma_mat_index(self.prob_trans, a2 as int);
                            crate::arith::lemma_mul_le(
                                prev_fwd[a2 as int],
                                scale2(),
                                m.trans()[a2 as int][b as int] as nat,
                                SCALE as nat,
                            );
                            lemma_fwd_cand_sum_le(m, prev_fwd, b as int, a2 as int, scale2());
                            lemma_fwd_cand_sum_le(m, prev_fwd, b as int, a2 as int + 1, scale2());
                        }
                        acc = acc + trellis[time - 1][a2].cum_prob * (
                        self.prob_trans[a2][b] as u128);
                        a2 = a2 + 1;
                    }
                    proof {
                        lemma_fwd_cand_sum_le(m, prev_fwd, b as int, k as int, scale2());
                        crate::arith::lemma_mul_le(
                            acc as nat,
                            (MAX_STATES as nat) * (scale2() * (SCALE as nat)),
                            ep as nat,
                            SCALE as nat,
                        );
                    }
                    cum_raw = acc * (ep as u128);
                }
                cur.push(TrellisItem { cum_prob: cum_raw, max_prob: raw_max, max_path: pred });
                b = b + 1;
            }

            // Rescale the layer of best scores by its sum.
            proof {
                assert forall|j: int| 0 <= j < k implies #[trigger] raw_best[j]
                    <= 256_000_000_000_000_000_000_000_000u128 as nat by {
                    lemma_best_cand_upto_le(m, prev_best, j, m.k(), scale2());
                    lemma_emiss_prob_le(m, j, o_t as int);
                    crate::arith::lemma_mul_le(
                        best_cand_upto(m, prev_best, j, m.k()),
                        scale2() * (SCALE as nat),
                        emiss_prob(m, j, o_t as int),
                        SCALE as nat,
                    );
                }
                assert forall|j: int| 0 <= j < k implies #[trigger] raw_fwd[j]
                    <= 256_000_000_000_000_000_000_000_000u128 as nat by {
                    lemma_fwd_cand_sum_le(m, prev_fwd, j, m.k(), scale2());
                    vstd::arithmetic::mul::lemma_mul_inequality(
                        m.k(),
                        MAX_STATES as int,
                        (scale2() * (SCALE as nat)) as int,
                    );
                    lemma_emiss_prob_le(m, j, o_t as int);
                    crate::arith::lemma_mul_le(
                        fwd_cand_sum(m, prev_fwd, j, m.k()),
                        (MAX_STATES as nat) * (scale2() * (SCALE as nat)),
                        emiss_prob(m, j, o_t as int),
                        SCALE as nat,
                    );
                }
            }
            rescale_row_max(&mut cur, Ghost(raw_best));
            if track {
                rescale_row_cum(&mut cur, Ghost(raw_fwd));
            }
            let ghost trellis_before = trellis@;
            trellis.push(cur);
            proof {
                assert forall|t2: int| 0 <= t2 < time + 1 implies (#[trigger] trellis@[t2])@.len()
                    == m.k() by {
                    if t2 < time {
                        assert(trellis@[t2] == trellis_before[t2]);
                    } else {
                        assert(trellis@[t2] == cur);
                    }
                }
                assert forall|t2: int, s: int|
                    0 <= t2 < time + 1 && 0 <= s < m.k() implies {
                    &&& (#[trigger] trellis@[t2]@[s]).max_prob as nat == best_layer(m, obs, t2)[s]
                    &&& (track ==> trellis@[t2]@[s].cum_prob as nat == fwd_layer(m, obs, t2)[s])
                    &&& (t2 >= 1 ==> trellis@[t2]@[s].max_path as int == pred_layer(m, obs, t2)[s]
                        && trellis@[t2]@[s].max_path < m.k())
                } by {
                    if t2 < time {
                        assert(trellis@[t2] == trellis_before[t2]);
                    } else {
                        assert(trellis@[t2] == cur);
                        assert(best_layer(m, obs, t2) == rescale_layer(raw_best));
                        assert(fwd_layer(m, obs, t2) == rescale_layer(raw_fwd));
                    }
                }
            }
            time = time + 1;
        }

        // The final state: the lowest id attaining the maximum of the
        // last layer.
        let ghost last_layer = best_layer(m, obs, t_len - 1);
        proof {
            lemma_best_layer_bounds(m, obs, t_len - 1);
        }
        let mut end: usize = 0;
        let mut s3: usize = 1;
        while s3 < k
            invariant
                1 <= s3 <= k,
                end < s3,
                end as int == arg_max_upto(last_layer, s3 as int),
            decreases k - s3,
        {
            if trellis[t_len - 1][s3].max_prob > trellis[t_len - 1][end].max_prob {
                end = s3;
            }
            s3 = s3 + 1;
        }

        // Backtrace along the recorded predecessors.
        let ghost vp = viterbi_path(m, obs);
        proof {
            lemma_arg_max_upto(last_layer, k as int);
            lemma_path_to_basic(m, obs, t_len - 1, end as int);
            lemma_path_to_range(m, obs, t_len - 1, end as int);
        }
        let mut path: Vec<usize> = Vec::new();
        let mut f: usize = 0;
        while f < t_len
            invariant
                f <= t_len,
                path@.len() == f,
            decreases t_len - f,
        {
            path.push(0);
            f = f + 1;
        }
        path.set(t_len - 1, end);
        let mut time2: usize = t_len - 1;
        while time2 > 0
            invariant
                0 <= time2 <= t_len - 1,
                path@.len() == t_len,
                forall|j: int|
                    time2 <= j < t_len ==> #[trigger] path@[j] as int == vp[j] && path@[j] < k,
            decreases time2,
        {
            proof {
                lemma_path_to_step(m, obs, t_len - 1, end as int, time2 as int);
            }
            let nxt = path[time2];
            let p = trellis[time2][nxt].max_path;
            path.set(time2 - 1, p);
            time2 = time2 - 1;
        }

        // The total likelihood, if tracked: the sum of the final forward
        // layer.
        let likelihood: Option<u128> = if track {
            let ghost last_fwd = fwd_layer(m, obs, t_len - 1);
            proof {
                lemma_fwd_layer_bounds(m, obs, t_len - 1);
            }
            let mut lsum: u128 = 0;
            let mut s4: usize = 0;
            while s4 < k
                invariant
                    s4 <= k,
                    lsum as nat == sum_upto(last_fwd, s4 as int),
                    lsum <= s4 as nat * scale2(),
                decreases k - s4,
            {
                proof {
                    lemma_sum_upper(last_fwd, s4 as int + 1, scale2());
                }
                lsum = lsum + trellis[t_len - 1][s4].cum_prob;
                s4 = s4 + 1;
            }
            Some(lsum)
        } else {
            None
        };
        Ok(Decoded { path, likelihood })
    }
}

/// Rescale the best scores of a freshly computed layer by their sum: in
/// fixed point every score is divided by the layer total, so the layer
/// is put back into units of one probability squared.  An all-zero layer
/// is left unchanged.  The forward scores and predecessors of the row
/// are not touched.
#[verifier::loop_isolation(false)]
fn rescale_row_max(row: &mut Vec<TrellisItem>, Ghost(raw): Ghost<Seq<nat>>)
    requires
        old(row)@.len() == raw.len(),
        raw.len() <= MAX_STATES,
        forall|j: int| 0 <= j < raw.len() ==> (#[trigger] old(row)@[j]).max_prob as nat == raw[j],
        forall|j: int| 0 <= j < raw.len() ==> raw[j] <= 256_000_000_000_000_000_000_000_000u128 as nat,
    ensures
        final(row)@.len() == raw.len(),
        forall|j: int|
            0 <= j < raw.len() ==> (#[trigger] final(row)@[j]).max_prob as nat == rescale_layer(
                raw,
            )[j] && final(row)@[j].cum_prob == old(row)@[j].cum_prob && final(row)@[j].max_path
                == old(row)@[j].max_path,
{
    let k = row.len();
    let mut total: u128 = 0;
    let mut i: usize = 0;
    while i < k
        invariant
            i <= k,
            total as nat == sum_upto(raw, i as int),
            total <= (i as nat) * (256_000_000_000_000_000_000_000_000u128 as nat),
        decreases k - i,
    {
        proof {
            lemma_sum_upper(raw, i as int + 1, 256_000_000_000_000_000_000_000_000u128 as nat);
            vstd::arithmetic::mul::lemma_mul_inequality(
                i as int + 1,
                MAX_STATES as int,
                256_000_000_000_000_000_000_000_000,
            );
        }
        total = total + row[i].max_prob;
        i = i + 1;
    }
    if total > 0 {
        let sc2: u128 = (SCALE as u128) * (SCALE as u128);
        let mut j: usize = 0;
        while j < k
            invariant
                j <= k,
                row@.len() == raw.len(),
                total as nat == sum_of(raw),
                total > 0,
                forall|l: int|
                    j <= l < raw.len() ==> (#[trigger] row@[l]).max_prob as nat == raw[l]
                        && row@[l].cum_prob == old(row)@[l].cum_prob && row@[l].max_path == old(
                        row,
                    )@[l].max_path,
                forall|l: int|
                    0 <= l < j ==> (#[trigger] row@[l]).max_prob as nat == rescale_layer(raw)[l]
                        && row@[l].cum_prob == old(row)@[l].cum_prob && row@[l].max_path == old(
                        row,
                    )@[l].max_path,
            decreases k - j,
        {
            let it = row[j];
            proof {
                crate::arith::lemma_mul_le(
                    it.max_prob as nat,
                    256_000_000_000_000_000_000_000_000u128 as nat,
                    sc2 as nat,
                    scale2(),
                );
            }
            let nv: u128 = it.max_prob * sc2 / total;
            row.set(j, TrellisItem { cum_prob: it.cum_prob, max_prob: nv, max_path: it.max_path });
            j = j + 1;
        }
    } else {
        proof {
            lemma_sum_zero(raw, raw.len() as int);
        }
    }
}

/// Rescale the forward scores of a layer by their sum, exactly as
/// `rescale_row_max` does for the best scores.
#[verifier::loop_isolation(false)]
fn rescale_row_cum(row: &mut Vec<TrellisItem>, Ghost(raw): Ghost<Seq<nat>>)
    requires
        old(row)@.len() == raw.len(),
        raw.len() <= MAX_STATES,
        forall|j: int| 0 <= j < raw.len() ==> (#[trigger] old(row)@[j]).cum_prob as nat == raw[j],
        forall|j: int| 0 <= j < raw.len() ==> raw[j] <= 256_000_000_000_000_000_000_000_000u128 as nat,
    ensures
        final(row)@.len() == raw.len(),
        forall|j: int|
            0 <= j < raw.len() ==> (#[trigger] final(row)@[j]).cum_prob as nat == rescale_layer(
                raw,
            )[j] && final(row)@[j].max_prob == old(row)@[j].max_prob && final(row)@[j].max_path
                == old(row)@[j].max_path,
{
    let k = row.len();
    let mut total: u128 = 0;
    let mut i: usize = 0;
    while i < k
        invariant
            i <= k,
            total as nat == sum_upto(raw, i as int),
            total <= (i as nat) * (256_000_000_000_000_000_000_000_000u128 as nat),
        decreases k - i,
    {
        proof {
            lemma_sum_upper(raw, i as int + 1, 256_000_000_000_000_000_000_000_000u128 as nat);
            vstd::arithmetic::mul::lemma_mul_inequality(
                i as int + 1,
                MAX_STATES as int,
                256_000_000_000_000_000_000_000_000,
            );
        }
        total = total + row[i].cum_prob;
        i = i + 1;
    }
    if total > 0 {
        let sc2: u128 = (SCALE as u128) * (SCALE as u128);
        let mut j: usize = 0;
        while j < k
            invariant
                j <= k,
                row@.len() == raw.len(),
                total as nat == sum_of(raw),
                total > 0,
                forall|l: int|
                    j <= l < raw.len() ==> (#[trigger] row@[l]).cum_prob as nat == raw[l]
                        && row@[l].max_prob == old(row)@[l].max_prob && row@[l].max_path == old(
                        row,
                    )@[l].max_path,
                forall|l: int|
                    0 <= l < j ==> (#[trigger] row@[l]).cum_prob as nat == rescale_layer(raw)[l]
                        && row@[l].max_prob == old(row)@[l].max_prob && row@[l].max_path == old(
                        row,
                    )@[l].max_path,
            decreases k - j,
        {
            let it = row[j];
            proof {
                crate::arith::lemma_mul_le(
                    it.cum_prob as nat,
                    256_000_000_000_000_000_000_000_000u128 as nat,
                    sc2 as nat,
                    scale2(),
                );
            }
            let nv: u128 = it.cum_prob * sc2 / total;
            row.set(j, TrellisItem { cum_prob: nv, max_prob: it.max_prob, max_path: it.max_path });
            j = j + 1;
        }
    } else {
        proof {
            lemma_sum_zero(raw, raw.len() as int);
        }
    }
}

} // verus!
