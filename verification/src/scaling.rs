//! The rescaling law: dividing every best score of a trellis layer by
//! the layer's sum does not change which path the decoder finds.
//!
//! The recurrence without rescaling is defined here, and the decoded
//! paths of the two recurrences are proved equal wherever the
//! fixed-point divisions of the rescaled one lose nothing — each
//! rescaled layer is then a positive rational multiple of the
//! unrescaled layer, and a uniform positive factor moves no maximum.

use crate::arith::{sum_of, sum_upto};
use crate::hmm::HMM;
use crate::viterbi::{
    arg_max, arg_max_upto, best_cand_upto, best_layer, best_pred_upto, cand_score, emiss_prob,
    init_score, lemma_best_layer_bounds, path_to, pred_layer, raw_step_best, rescale_layer,
    scale2, viterbi_path,
};
use vstd::arithmetic::mul::{
    lemma_mul_is_commutative, lemma_mul_strict_inequality, lemma_mul_strict_inequality_converse,
};
use vstd::prelude::*;

verus! {

/// The best-score layer at time `t` of the recurrence without layer
/// rescaling, over exact (unbounded) integers.
pub open spec fn best_layer_unscaled(m: HMM, obs: Seq<usize>, t: int) -> Seq<nat>
    decreases t,
{
    if t <= 0 {
        Seq::new(m.k() as nat, |s: int| init_score(m, obs[0] as int, s))
    } else {
        raw_step_best(m, best_layer_unscaled(m, obs, t - 1), obs[t] as int)
    }
}

/// The recorded predecessors of the unrescaled recurrence.
pub open spec fn pred_layer_unscaled(m: HMM, obs: Seq<usize>, t: int) -> Seq<int> {
    Seq::new(
        m.k() as nat,
        |b: int| best_pred_upto(m, best_layer_unscaled(m, obs, t - 1), b, m.k()),
    )
}

/// The backtraced path of the unrescaled recurrence.
pub open spec fn path_to_unscaled(m: HMM, obs: Seq<usize>, t: int, s_end: int) -> Seq<int>
    decreases t,
{
    if t <= 0 {
        seq![s_end]
    } else {
        path_to_unscaled(m, obs, t - 1, pred_layer_unscaled(m, obs, t)[s_end]).push(s_end)
    }
}

/// The decoded path of the unrescaled recurrence.
pub open spec fn viterbi_path_unscaled(m: HMM, obs: Seq<usize>) -> Seq<int> {
    path_to_unscaled(
        m,
        obs,
        obs.len() - 1,
        arg_max(best_layer_unscaled(m, obs, obs.len() - 1)),
    )
}

/// Every fixed-point division of one rescaling loses nothing.
pub open spec fn rescale_divides(raw: Seq<nat>) -> bool {
    sum_of(raw) != 0 ==> forall|b: int|
        0 <= b < raw.len() ==> #[trigger] (raw[b] * scale2()) % sum_of(raw) == 0
}

/// Every rescaling in the decode of `obs` under `m` loses nothing.
pub open spec fn rescaling_exact(m: HMM, obs: Seq<usize>) -> bool {
    forall|t: int|
        1 <= t < obs.len() ==> #[trigger] rescale_divides(
            raw_step_best(m, best_layer(m, obs, t - 1), obs[t] as int),
        )
}

/// A pair of positive factors carries `l1` onto `l2`.
pub open spec fn proportional(l1: Seq<nat>, l2: Seq<nat>, num: nat, den: nat) -> bool {
    &&& num > 0
    &&& den > 0
    &&& l1.len() == l2.len()
    &&& forall|i: int| 0 <= i < l1.len() ==> #[trigger] (l1[i] * den) == l2[i] * num
}

/// Proportional values compare alike.
proof fn lemma_prop_gt(x1: nat, x2: nat, y1: nat, y2: nat, num: nat, den: nat)
    requires
        num > 0,
        den > 0,
        x1 * den == y1 * num,
        x2 * den == y2 * num,
    ensures
        (x1 > x2) == (y1 > y2),
{
    if x1 > x2 {
        lemma_mul_strict_inequality(x2 as int, x1 as int, den as int);
        lemma_mul_strict_inequality_converse(y2 as int, y1 as int, num as int);
    }
    if y1 > y2 {
        lemma_mul_strict_inequality(y2 as int, y1 as int, num as int);
        lemma_mul_strict_inequality_converse(x2 as int, x1 as int, den as int);
    }
}

/// Proportional previous layers give proportional candidate maxima and
/// the same recorded predecessors.
proof fn lemma_cands_proportional(
    m: HMM,
    prev1: Seq<nat>,
    prev2: Seq<nat>,
    num: nat,
    den: nat,
    b: int,
    n: int,
)
    requires
        num > 0,
        den > 0,
        prev1.len() == prev2.len(),
        0 <= n <= prev1.len(),
        forall|i: int| 0 <= i < prev1.len() ==> #[trigger] (prev1[i] * den) == prev2[i] * num,
    ensures
        best_cand_upto(m, prev1, b, n) * den == best_cand_upto(m, prev2, b, n) * num,
        best_pred_upto(m, prev1, b, n) == best_pred_upto(m, prev2, b, n),
    decreases n,
{
    if n <= 0 {
        vstd::arithmetic::mul::lemma_mul_basics(den as int);
        vstd::arithmetic::mul::lemma_mul_basics(num as int);
    } else {
        lemma_cands_proportional(m, prev1, prev2, num, den, b, n - 1);
        let tq = m.trans()[n - 1][b] as nat;
        assert((prev1[n - 1] * tq) * den == (prev2[n - 1] * tq) * num) by (nonlinear_arith)
            requires
                prev1[n - 1] * den == prev2[n - 1] * num,
        ;
        lemma_prop_gt(
            cand_score(m, prev1, n - 1, b),
            best_cand_upto(m, prev1, b, n - 1),
            cand_score(m, prev2, n - 1, b),
            best_cand_upto(m, prev2, b, n - 1),
            num,
            den,
        );
    }
}

/// Proportional layers have the same lowest maximal index.
proof fn lemma_arg_max_proportional(l1: Seq<nat>, l2: Seq<nat>, num: nat, den: nat, n: int)
    requires
        num > 0,
        den > 0,
        l1.len() == l2.len(),
        1 <= n <= l1.len(),
        forall|i: int| 0 <= i < l1.len() ==> #[trigger] (l1[i] * den) == l2[i] * num,
    ensures
        arg_max_upto(l1, n) == arg_max_upto(l2, n),
    decreases n,
{
    if n > 1 {
        lemma_arg_max_proportional(l1, l2, num, den, n - 1);
        let am = arg_max_upto(l1, n - 1);
        crate::viterbi::lemma_arg_max_upto(l1, n - 1);
        lemma_prop_gt(l1[n - 1], l1[am], l2[n - 1], l2[am], num, den);
    }
}

/// A rescaling that loses nothing is an exact proportionality.
proof fn lemma_rescale_proportional(raw: Seq<nat>)
    requires
        rescale_divides(raw),
        sum_of(raw) != 0,
    ensures
        proportional(rescale_layer(raw), raw, scale2(), sum_of(raw)),
{
    let t = sum_of(raw);
    assert forall|i: int| 0 <= i < raw.len() implies #[trigger] (rescale_layer(raw)[i] * t)
        == raw[i] * scale2() by {
        let x = (raw[i] * scale2()) as int;
        vstd::arithmetic::div_mod::lemma_fundamental_div_mod(x, t as int);
        lemma_mul_is_commutative(t as int, x / (t as int));
    }
}

/// The unrescaled layers have one entry per state.
proof fn lemma_unscaled_len(m: HMM, obs: Seq<usize>, t: int)
    ensures
        best_layer_unscaled(m, obs, t).len() == m.k() as nat,
{
}

/// Each rescaled layer is a positive rational multiple of the
/// unrescaled layer of the same time step.
proof fn lemma_layers_proportional(m: HMM, obs: Seq<usize>, t: int)
    requires
        m.wf(),
        rescaling_exact(m, obs),
        0 <= t < obs.len(),
    ensures
        exists|nd: (nat, nat)|
            #[trigger] proportional(
                best_layer(m, obs, t),
                best_layer_unscaled(m, obs, t),
                nd.0,
                nd.1,
            ),
    decreases t,
{
    lemma_best_layer_bounds(m, obs, t);
    lemma_unscaled_len(m, obs, t);
    if t == 0 {
        let w = (1nat, 1nat);
        assert(proportional(best_layer(m, obs, 0), best_layer_unscaled(m, obs, 0), w.0, w.1));
    } else {
        lemma_layers_proportional(m, obs, t - 1);
        let nd0 = choose|nd: (nat, nat)|
            #[trigger] proportional(
                best_layer(m, obs, t - 1),
                best_layer_unscaled(m, obs, t - 1),
                nd.0,
                nd.1,
            );
        let prev_s = best_layer(m, obs, t - 1);
        let prev_u = best_layer_unscaled(m, obs, t - 1);
        let raws = raw_step_best(m, prev_s, obs[t] as int);
        let rawu = raw_step_best(m, prev_u, obs[t] as int);
        assert forall|b: int| 0 <= b < m.k() implies #[trigger] (raws[b] * nd0.1) == rawu[b]
            * nd0.0 by {
            lemma_cands_proportional(m, prev_s, prev_u, nd0.0, nd0.1, b, m.k());
            let ep = emiss_prob(m, b, obs[t as int] as int);
            assert((best_cand_upto(m, prev_s, b, m.k()) * ep) * nd0.1 == (best_cand_upto(
                m,
                prev_u,
                b,
                m.k(),
            ) * ep) * nd0.0) by (nonlinear_arith)
                requires
                    best_cand_upto(m, prev_s, b, m.k()) * nd0.1 == best_cand_upto(
                        m,
                        prev_u,
                        b,
                        m.k(),
                    ) * nd0.0,
            ;
        }
        if sum_of(raws) == 0 {
            assert(best_layer(m, obs, t) == raws);
            assert(proportional(best_layer(m, obs, t), best_layer_unscaled(m, obs, t), nd0.0, nd0.1));
        } else {
            assert(rescale_divides(raws));
            lemma_rescale_proportional(raws);
            let tsum = sum_of(raws);
            let w = ((scale2() * nd0.0) as nat, (tsum * nd0.1) as nat);
            assert forall|i: int| 0 <= i < m.k() implies #[trigger] (best_layer(m, obs, t)[i]
                * w.1) == best_layer_unscaled(m, obs, t)[i] * w.0 by {
                assert(rescale_layer(raws)[i] * tsum == raws[i] * scale2());
                assert((rescale_layer(raws)[i] * (tsum * nd0.1)) == (rawu[i] * (scale2()
                    * nd0.0))) by (nonlinear_arith)
                    requires
                        rescale_layer(raws)[i] * tsum == raws[i] * scale2(),
                        raws[i] * nd0.1 == rawu[i] * nd0.0,
                ;
            }
            assert(scale2() * nd0.0 > 0) by (nonlinear_arith)
                requires
                    nd0.0 > 0,
                    scale2() > 0,
            ;
            assert(tsum * nd0.1 > 0) by (nonlinear_arith)
                requires
                    nd0.1 > 0,
                    tsum > 0,
            ;
            assert(proportional(best_layer(m, obs, t), best_layer_unscaled(m, obs, t), w.0, w.1));
        }
    }
}

/// With exact rescaling, the two recurrences record the same
/// predecessors at every time step.
proof fn lemma_preds_equal(m: HMM, obs: Seq<usize>, t: int)
    requires
        m.wf(),
        rescaling_exact(m, obs),
        1 <= t < obs.len(),
    ensures
        pred_layer(m, obs, t) == pred_layer_unscaled(m, obs, t),
{
    lemma_layers_proportional(m, obs, t - 1);
    let nd0 = choose|nd: (nat, nat)|
        #[trigger] proportional(
            best_layer(m, obs, t - 1),
            best_layer_unscaled(m, obs, t - 1),
            nd.0,
            nd.1,
        );
    assert forall|b: int| 0 <= b < m.k() implies #[trigger] pred_layer(m, obs, t)[b]
        == pred_layer_unscaled(m, obs, t)[b] by {
        lemma_cands_proportional(
            m,
            best_layer(m, obs, t - 1),
            best_layer_unscaled(m, obs, t - 1),
            nd0.0,
            nd0.1,
            b,
            m.k(),
        );
    }
    assert(pred_layer(m, obs, t) =~= pred_layer_unscaled(m, obs, t));
}

/// With exact rescaling, the two recurrences backtrace the same path.
proof fn lemma_paths_equal(m: HMM, obs: Seq<usize>, t: int, s_end: int)
    requires
        m.wf(),
        rescaling_exact(m, obs),
        0 <= t < obs.len(),
    ensures
        path_to(m, obs, t, s_end) == path_to_unscaled(m, obs, t, s_end),
    decreases t,
{
    if t > 0 {
        lemma_preds_equal(m, obs, t);
        lemma_paths_equal(m, obs, t - 1, pred_layer(m, obs, t)[s_end]);
    }
}

/// Law: layer rescaling does not change the decoded path.  Wherever
/// the fixed-point divisions of the rescaled recurrence lose nothing
/// (every score divides evenly by its layer sum), the decoded path
/// equals that of the recurrence over exact integers with no rescaling
/// at all: each rescaled layer is a positive multiple of the
/// unrescaled one, so every maximum, every recorded predecessor and
/// the final arg-max fall on the same states.
pub proof fn lemma_rescaling_preserves_path(m: HMM, obs: Seq<usize>)
    requires
        m.wf(),
        m.count_state >= 1,
        obs.len() >= 1,
        rescaling_exact(m, obs),
    ensures
        viterbi_path(m, obs) == viterbi_path_unscaled(m, obs),
{
    let tl = obs.len() - 1;
    lemma_layers_proportional(m, obs, tl);
    let nd0 = choose|nd: (nat, nat)|
        #[trigger] proportional(
            best_layer(m, obs, tl),
            best_layer_unscaled(m, obs, tl),
            nd.0,
            nd.1,
        );
    lemma_best_layer_bounds(m, obs, tl);
    lemma_unscaled_len(m, obs, tl);
    lemma_arg_max_proportional(
        best_layer(m, obs, tl),
        best_layer_unscaled(m, obs, tl),
        nd0.0,
        nd0.1,
        m.k(),
    );
    lemma_paths_equal(m, obs, tl, arg_max(best_layer(m, obs, tl)));
}

} // verus!
