//! Maximum-likelihood estimation of the model tables from a labelled
//! corpus, and the evaluation of decoded tags against it.
//!
//! Counting is exact: every observed event adds `COUNT_UNIT` (one count
//! in thousandths) to its cell, optional smoothing adds the configured
//! number of thousandths to every transition cell, and each row is then
//! normalized by its own total into fixed point.  A row whose total is
//! zero is left all zero rather than divided by zero.

use crate::arith::{
    lemma_rescale_le, lemma_sum_bounds_element, lemma_sum_upper, lemma_sum_zero, nats_of, sum_of,
    sum_upto,
};
use crate::hmm::{lemma_mat_index, zero_matrix, zero_row, HMM};
use crate::loader::{Loader, Sentence};
use crate::viterbi::viterbi_path;
use crate::{
    DecodeOptions, EstimateOptions, HmmError, COUNT_UNIT, MAX_SMOOTH, MAX_STATES, MAX_SYMBOLS,
    MAX_TOKENS, SCALE,
};
use vstd::arithmetic::mul::{lemma_mul_inequality, lemma_mul_is_distributive_add_other_way};
use vstd::pervasive::VecAdditionalExecFns;
use vstd::prelude::*;

verus! {

/// The number of tokens in the first `n` sentences.
pub open spec fn sent_len_sum(data: Seq<Sentence>, n: int) -> nat
    decreases n,
{
    if n <= 0 {
        0
    } else {
        sent_len_sum(data, n - 1) + data[n - 1].tokens@.len()
    }
}

/// The number of tokens in the whole corpus.
pub open spec fn total_tokens(data: Seq<Sentence>) -> nat {
    sent_len_sum(data, data.len() as int)
}

/// The start count of state `s` over the first `n` sentences, in
/// thousandths: each sentence whose first token is tagged `s` adds one
/// count.
pub open spec fn start_count_upto(data: Seq<Sentence>, s: int, n: int) -> nat
    decreases n,
{
    if n <= 0 {
        0
    } else {
        start_count_upto(data, s, n - 1) + if data[n - 1].tokens@.len() > 0 && data[n
            - 1].tokens@[0].1 as int == s {
            COUNT_UNIT as nat
        } else {
            0
        }
    }
}

/// The start count of state `s` over the whole corpus.
pub open spec fn start_count(data: Seq<Sentence>, s: int) -> nat {
    start_count_upto(data, s, data.len() as int)
}

/// The transition count from `a` to `b` among the first `p` tokens of
/// one sentence: each adjacent pair tagged `(a, b)` adds one count.
pub open spec fn sent_trans_upto(toks: Seq<(usize, usize)>, a: int, b: int, p: int) -> nat
    decreases p,
{
    if p <= 1 {
        0
    } else {
        sent_trans_upto(toks, a, b, p - 1) + if toks[p - 2].1 as int == a && toks[p - 1].1 as int
            == b {
            COUNT_UNIT as nat
        } else {
            0
        }
    }
}

/// The transition count from `a` to `b` over the first `n` sentences.
pub open spec fn trans_count_upto(data: Seq<Sentence>, a: int, b: int, n: int) -> nat
    decreases n,
{
    if n <= 0 {
        0
    } else {
        trans_count_upto(data, a, b, n - 1) + sent_trans_upto(
            data[n - 1].tokens@,
            a,
            b,
            data[n - 1].tokens@.len() as int,
        )
    }
}

/// The transition count from `a` to `b` over the whole corpus.
pub open spec fn trans_count(data: Seq<Sentence>, a: int, b: int) -> nat {
    trans_count_upto(data, a, b, data.len() as int)
}

/// The emission count of symbol `o` from state `s` among the first `p`
/// tokens of one sentence.
pub open spec fn sent_emiss_upto(toks: Seq<(usize, usize)>, s: int, o: int, p: int) -> nat
    decreases p,
{
    if p <= 0 {
        0
    } else {
        sent_emiss_upto(toks, s, o, p - 1) + if toks[p - 1].1 as int == s && toks[p - 1].0 as int
            == o {
            COUNT_UNIT as nat
        } else {
            0
        }
    }
}

/// The emission count of symbol `o` from state `s` over the first `n`
/// sentences.
pub open spec fn emiss_count_upto(data: Seq<Sentence>, s: int, o: int, n: int) -> nat
    decreases n,
{
    if n <= 0 {
        0
    } else {
        emiss_count_upto(data, s, o, n - 1) + sent_emiss_upto(
            data[n - 1].tokens@,
            s,
            o,
            data[n - 1].tokens@.len() as int,
        )
    }
}

/// The emission count of symbol `o` from state `s` over the whole corpus.
pub open spec fn emiss_count(data: Seq<Sentence>, s: int, o: int) -> nat {
    emiss_count_upto(data, s, o, data.len() as int)
}

/// Normalize a row of counts into fixed point by its own total; a row
/// with total zero is left as it is (all zero).
pub open spec fn normalize_counts(counts: Seq<nat>) -> Seq<nat> {
    if sum_of(counts) == 0 {
        counts
    } else {
        counts.map_values(|c: nat| c * (SCALE as nat) / sum_of(counts))
    }
}

/// The row of start counts over all `k` states.
pub open spec fn start_counts_row(data: Seq<Sentence>, k: int) -> Seq<nat> {
    Seq::new(k as nat, |s: int| start_count(data, s))
}

/// The row of transition counts out of state `a`, with the smoothing
/// constant added to every cell.
pub open spec fn trans_counts_row(data: Seq<Sentence>, a: int, k: int, smooth: nat) -> Seq<nat> {
    Seq::new(k as nat, |b: int| trans_count(data, a, b) + smooth)
}

/// The row of emission counts out of state `s` over all `v` symbols.
pub open spec fn emiss_counts_row(data: Seq<Sentence>, s: int, v: int) -> Seq<nat> {
    Seq::new(v as nat, |o: int| emiss_count(data, s, o))
}

/// The estimated start table.
pub open spec fn est_start(data: Seq<Sentence>, k: int) -> Seq<nat> {
    normalize_counts(start_counts_row(data, k))
}

/// The estimated transition row of state `a`.
pub open spec fn est_trans_row(data: Seq<Sentence>, a: int, k: int, smooth: nat) -> Seq<nat> {
    normalize_counts(trans_counts_row(data, a, k, smooth))
}

/// The estimated emission row of state `s`.
pub open spec fn est_emiss_row(data: Seq<Sentence>, s: int, v: int) -> Seq<nat> {
    normalize_counts(emiss_counts_row(data, s, v))
}

/// The sum of a normalized prefix never exceeds the normalized prefix
/// sum.
proof fn lemma_norm_sum_upper(counts: Seq<nat>, i: int)
    requires
        sum_of(counts) > 0,
        0 <= i <= counts.len(),
    ensures
        sum_upto(normalize_counts(counts), i) <= sum_upto(counts, i) * (SCALE as nat) / sum_of(
            counts,
        ),
    decreases i,
{
    let t = sum_of(counts);
    if i > 0 {
        lemma_norm_sum_upper(counts, i - 1);
        crate::arith::lemma_div_add_le(
            sum_upto(counts, i - 1) * (SCALE as nat),
            counts[i - 1] * (SCALE as nat),
            t,
        );
        lemma_mul_is_distributive_add_other_way(
            SCALE as int,
            sum_upto(counts, i - 1) as int,
            counts[i - 1] as int,
        );
    }
}

/// In integers: the total times the normalized prefix sum falls short
/// of the exact value by less than one unit per entry.
proof fn lemma_norm_sum_lower(counts: Seq<nat>, i: int)
    requires
        sum_of(counts) > 0,
        0 <= i <= counts.len(),
    ensures
        sum_upto(counts, i) * (SCALE as int) - i * (sum_of(counts) - 1) <= sum_of(counts) as int
            * (sum_upto(normalize_counts(counts), i) as int),
    decreases i,
{
    let t = sum_of(counts) as int;
    let s = SCALE as int;
    if i > 0 {
        lemma_norm_sum_lower(counts, i - 1);
        let c = counts[i - 1] as int;
        let q = (normalize_counts(counts)[i - 1]) as int;
        vstd::arithmetic::div_mod::lemma_fundamental_div_mod(c * s, t);
        vstd::arithmetic::div_mod::lemma_mod_division_less_than_divisor(c * s, t);
        assert(t * q >= c * s - (t - 1)) by (nonlinear_arith)
            requires
                c * s == t * ((c * s) / t) + (c * s) % t,
                (c * s) % t < t,
                q == (c * s) / t,
        ;
        assert(sum_upto(counts, i) * s == sum_upto(counts, i - 1) * s + c * s) by (nonlinear_arith)
            requires
                sum_upto(counts, i) == sum_upto(counts, i - 1) + counts[i - 1],
                c == counts[i - 1] as int,
        ;
        assert(t * (sum_upto(normalize_counts(counts), i) as int) == t * (sum_upto(
            normalize_counts(counts),
            i - 1,
        ) as int) + t * q) by (nonlinear_arith)
            requires
                sum_upto(normalize_counts(counts), i) == sum_upto(normalize_counts(counts), i - 1)
                    + normalize_counts(counts)[i - 1],
                q == normalize_counts(counts)[i - 1] as int,
        ;
        assert((i - 1) * (t - 1) + (t - 1) == i * (t - 1)) by (nonlinear_arith);
    }
}

/// Law: a normalized row with a nonzero count total sums to one within
/// quantization: more than `SCALE` minus the row length, and at most
/// `SCALE`.  In fractions of one, the row sum differs from one by less
/// than the row length over `SCALE`.
pub proof fn lemma_normalized_row_sum(counts: Seq<nat>)
    requires
        sum_of(counts) > 0,
    ensures
        sum_of(normalize_counts(counts)) <= SCALE,
        SCALE - counts.len() < sum_of(normalize_counts(counts)),
{
    let t = sum_of(counts);
    let n = counts.len() as int;
    let norm = normalize_counts(counts);
    assert(norm.len() == n);

    lemma_norm_sum_upper(counts, n);
    vstd::arithmetic::div_mod::lemma_div_by_multiple(SCALE as int, t as int);
    vstd::arithmetic::mul::lemma_mul_is_commutative(t as int, SCALE as int);

    lemma_norm_sum_lower(counts, n);
    assert(n >= 1) by {
        if n == 0 {
            assert(sum_of(counts) == 0);
        }
    }
    let total_norm = sum_of(norm) as int;
    assert(total_norm > SCALE - n) by (nonlinear_arith)
        requires
            t as int * total_norm >= t as int * (SCALE as int) - n * (t as int - 1),
            t >= 1,
            n >= 1,
            total_norm >= 0,
    ;
}

/// Law: a row whose count total is zero is left exactly as it is, and
/// holds nothing but zeros: no `NaN`-like value can arise from it.
pub proof fn lemma_zero_total_row(counts: Seq<nat>)
    requires
        sum_of(counts) == 0,
    ensures
        normalize_counts(counts) == counts,
        forall|i: int| 0 <= i < counts.len() ==> counts[i] == 0,
{
    lemma_sum_zero(counts, counts.len() as int);
}

/// Law: every trained model is made of normalized rows — the start
/// table, and each transition or emission row of a state with a
/// nonzero training count, sum to one within the row length over
/// `SCALE`; rows of states never seen stay all zero.
pub proof fn lemma_trained_model_rows(data: Seq<Sentence>, k: int, v: int, smooth: nat)
    requires
        k >= 0,
        v >= 0,
    ensures
        sum_of(start_counts_row(data, k)) > 0 ==> SCALE - k < sum_of(est_start(data, k))
            <= SCALE,
        forall|a: int|
            0 <= a < k && sum_of(trans_counts_row(data, a, k, smooth)) > 0 ==> SCALE - k < sum_of(
                #[trigger] est_trans_row(data, a, k, smooth),
            ) <= SCALE,
        forall|s: int|
            0 <= s < k && sum_of(emiss_counts_row(data, s, v)) > 0 ==> SCALE - v < sum_of(
                #[trigger] est_emiss_row(data, s, v),
            ) <= SCALE,
        sum_of(start_counts_row(data, k)) == 0 ==> est_start(data, k) == start_counts_row(
            data,
            k,
        ),
{
    if sum_of(start_counts_row(data, k)) > 0 {
        lemma_normalized_row_sum(start_counts_row(data, k));
    }
    assert forall|a: int|
        0 <= a < k && sum_of(trans_counts_row(data, a, k, smooth)) > 0 implies SCALE - k < sum_of(
        #[trigger] est_trans_row(data, a, k, smooth),
    ) <= SCALE by {
        lemma_normalized_row_sum(trans_counts_row(data, a, k, smooth));
    }
    assert forall|s: int|
        0 <= s < k && sum_of(emiss_counts_row(data, s, v)) > 0 implies SCALE - v < sum_of(
        #[trigger] est_emiss_row(data, s, v),
    ) <= SCALE by {
        lemma_normalized_row_sum(emiss_counts_row(data, s, v));
    }
}

/// Law: smoothing avoids exact-zero transition probabilities, up to
/// quantization.  With a positive smoothing constant, every cell of a
/// smoothed transition row is positive as long as the row's total count
/// (observed transitions plus smoothing, in thousandths) does not exceed
/// `smooth * SCALE`; past that bound the fixed-point division can floor
/// a smoothed cell to zero.
pub proof fn lemma_smoothing_positive(data: Seq<Sentence>, a: int, k: int, smooth: nat)
    requires
        smooth > 0,
        k >= 1,
        sum_of(trans_counts_row(data, a, k, smooth)) <= smooth * SCALE,
    ensures
        forall|b: int| 0 <= b < k ==> #[trigger] est_trans_row(data, a, k, smooth)[b] > 0,
{
    let row = trans_counts_row(data, a, k, smooth);
    let total = sum_of(row);
    lemma_sum_bounds_element(row, k, 0);
    assert(total >= smooth);
    assert forall|b: int| 0 <= b < k implies #[trigger] est_trans_row(data, a, k, smooth)[b]
        > 0 by {
        lemma_mul_inequality(smooth as int, row[b] as int, SCALE as int);
        vstd::arithmetic::div_mod::lemma_div_is_ordered(
            total as int,
            (row[b] * SCALE) as int,
            total as int,
        );
        vstd::arithmetic::div_mod::lemma_div_by_self(total as int);
    }
}

/// Law: a single training sentence of one token `(o, s)` yields a
/// one-hot start distribution at `s`, an unsmoothed transition table
/// that is all zero, and an emission table whose only nonzero row is
/// `s`, one-hot at `o`.
pub proof fn lemma_single_token_training(data: Seq<Sentence>, tok: (usize, usize), k: int, v: int)
    requires
        data.len() == 1,
        data[0].tokens@ =~= seq![tok],
        0 <= tok.1 < k,
        0 <= tok.0 < v,
    ensures
        est_start(data, k)[tok.1 as int] == SCALE,
        forall|s: int| 0 <= s < k && s != tok.1 ==> #[trigger] est_start(data, k)[s] == 0,
        forall|a: int, b: int|
            0 <= a < k && 0 <= b < k ==> #[trigger] est_trans_row(data, a, k, 0)[b] == 0,
        est_emiss_row(data, tok.1 as int, v)[tok.0 as int] == SCALE,
        forall|o: int|
            0 <= o < v && o != tok.0 ==> #[trigger] est_emiss_row(data, tok.1 as int, v)[o] == 0,
        forall|s: int, o: int|
            0 <= s < k && s != tok.1 && 0 <= o < v ==> #[trigger] est_emiss_row(data, s, v)[o]
                == 0,
{
    let srow = start_counts_row(data, k);
    assert forall|s: int| 0 <= s < k implies #[trigger] srow[s] == (if s == tok.1 as int {
        COUNT_UNIT as nat
    } else {
        0nat
    }) by {
        reveal_with_fuel(start_count_upto, 2);
    }
    crate::arith::lemma_sum_single(srow, tok.1 as int, k);
    assert(sum_of(srow) == COUNT_UNIT);
    vstd::arithmetic::div_mod::lemma_div_by_multiple(SCALE as int, COUNT_UNIT as int);
    vstd::arithmetic::mul::lemma_mul_is_commutative(COUNT_UNIT as int, SCALE as int);
    assert(est_start(data, k)[tok.1 as int] == (COUNT_UNIT * SCALE) as nat / (COUNT_UNIT as nat));
    assert forall|s: int| 0 <= s < k && s != tok.1 implies #[trigger] est_start(data, k)[s]
        == 0 by {
        vstd::arithmetic::div_mod::lemma_div_of0(sum_of(srow) as int);
        assert(srow[s] == 0);
    }

    assert forall|a: int, b: int|
        0 <= a < k && 0 <= b < k implies #[trigger] est_trans_row(data, a, k, 0)[b] == 0 by {
        let trow = trans_counts_row(data, a, k, 0);
        assert forall|b2: int| 0 <= b2 < k implies #[trigger] trow[b2] == 0nat by {
            reveal_with_fuel(trans_count_upto, 2);
            reveal_with_fuel(sent_trans_upto, 2);
        }
        lemma_sum_zero_row(trow, k);
        assert(sum_of(trow) == 0);
    }

    let erow = emiss_counts_row(data, tok.1 as int, v);
    assert forall|o: int| 0 <= o < v implies #[trigger] erow[o] == (if o == tok.0 as int {
        COUNT_UNIT as nat
    } else {
        0nat
    }) by {
        reveal_with_fuel(emiss_count_upto, 2);
        reveal_with_fuel(sent_emiss_upto, 2);
    }
    crate::arith::lemma_sum_single(erow, tok.0 as int, v);
    assert(sum_of(erow) == COUNT_UNIT);
    assert(est_emiss_row(data, tok.1 as int, v)[tok.0 as int] == (COUNT_UNIT * SCALE) as nat / (
    COUNT_UNIT as nat));
    assert forall|o: int|
        0 <= o < v && o != tok.0 implies #[trigger] est_emiss_row(data, tok.1 as int, v)[o]
        == 0 by {
        vstd::arithmetic::div_mod::lemma_div_of0(sum_of(erow) as int);
        assert(erow[o] == 0);
    }

    assert forall|s: int, o: int|
        0 <= s < k && s != tok.1 && 0 <= o < v implies #[trigger] est_emiss_row(data, s, v)[o]
        == 0 by {
        let erow2 = emiss_counts_row(data, s, v);
        assert forall|o2: int| 0 <= o2 < v implies #[trigger] erow2[o2] == 0nat by {
            reveal_with_fuel(emiss_count_upto, 2);
            reveal_with_fuel(sent_emiss_upto, 2);
        }
        lemma_sum_zero_row(erow2, v);
        assert(sum_of(erow2) == 0);
    }
}

/// A row of zero entries sums to zero.
proof fn lemma_sum_zero_row(s: Seq<nat>, n: int)
    requires
        forall|i: int| 0 <= i < n ==> s[i] == 0,
        s.len() == n,
    ensures
        sum_of(s) == 0,
    decreases n,
{
    lemma_sum_zero_row_upto(s, n);
}

/// A prefix of zero entries sums to zero.
proof fn lemma_sum_zero_row_upto(s: Seq<nat>, n: int)
    requires
        forall|i: int| 0 <= i < n ==> s[i] == 0,
    ensures
        sum_upto(s, n) == 0,
    decreases n,
{
    if n > 0 {
        lemma_sum_zero_row_upto(s, n - 1);
    }
}

/// Start counts are bounded by the number of sentences counted.
proof fn lemma_start_count_le(data: Seq<Sentence>, s: int, n: int)
    requires
        0 <= n,
    ensures
        start_count_upto(data, s, n) <= n * (COUNT_UNIT as nat),
    decreases n,
{
    if n > 0 {
        lemma_start_count_le(data, s, n - 1);
        assert((n - 1) * (COUNT_UNIT as nat) + COUNT_UNIT == n * (COUNT_UNIT as nat))
            by (nonlinear_arith);
    }
}

/// Transition counts within a sentence are bounded by its token count.
proof fn lemma_sent_trans_le(toks: Seq<(usize, usize)>, a: int, b: int, p: int)
    requires
        0 <= p,
    ensures
        sent_trans_upto(toks, a, b, p) <= p * (COUNT_UNIT as nat),
    decreases p,
{
    if p > 0 {
        lemma_sent_trans_le(toks, a, b, p - 1);
        assert((p - 1) * (COUNT_UNIT as nat) + COUNT_UNIT == p * (COUNT_UNIT as nat))
            by (nonlinear_arith);
    }
}

/// Transition counts are bounded by the tokens counted so far.
proof fn lemma_trans_count_le(data: Seq<Sentence>, a: int, b: int, n: int)
    requires
        0 <= n,
    ensures
        trans_count_upto(data, a, b, n) <= sent_len_sum(data, n) * (COUNT_UNIT as nat),
    decreases n,
{
    if n > 0 {
        lemma_trans_count_le(data, a, b, n - 1);
        let len = data[n - 1].tokens@.len() as int;
        lemma_sent_trans_le(data[n - 1].tokens@, a, b, len);
        lemma_mul_is_distributive_add_other_way(
            COUNT_UNIT as int,
            sent_len_sum(data, n - 1) as int,
            len,
        );
    }
}

/// Emission counts within a sentence are bounded by its token count.
proof fn lemma_sent_emiss_le(toks: Seq<(usize, usize)>, s: int, o: int, p: int)
    requires
        0 <= p,
    ensures
        sent_emiss_upto(toks, s, o, p) <= p * (COUNT_UNIT as nat),
    decreases p,
{
    if p > 0 {
        lemma_sent_emiss_le(toks, s, o, p - 1);
        assert((p - 1) * (COUNT_UNIT as nat) + COUNT_UNIT == p * (COUNT_UNIT as nat))
            by (nonlinear_arith);
    }
}

/// Emission counts are bounded by the tokens counted so far.
proof fn lemma_emiss_count_le(data: Seq<Sentence>, s: int, o: int, n: int)
    requires
        0 <= n,
    ensures
        emiss_count_upto(data, s, o, n) <= sent_len_sum(data, n) * (COUNT_UNIT as nat),
    decreases n,
{
    if n > 0 {
        lemma_emiss_count_le(data, s, o, n - 1);
        let len = data[n - 1].tokens@.len() as int;
        lemma_sent_emiss_le(data[n - 1].tokens@, s, o, len);
        lemma_mul_is_distributive_add_other_way(
            COUNT_UNIT as int,
            sent_len_sum(data, n - 1) as int,
            len,
        );
    }
}

/// With no sentence empty, there are at least as many tokens as
/// sentences.
proof fn lemma_sentences_le_tokens(data: Seq<Sentence>, n: int)
    requires
        0 <= n <= data.len(),
        forall|i: int| 0 <= i < data.len() ==> (#[trigger] data[i]).tokens@.len() > 0,
    ensures
        n <= sent_len_sum(data, n),
    decreases n,
{
    if n > 0 {
        lemma_sentences_le_tokens(data, n - 1);
    }
}

/// Token prefix sums grow with the prefix.
proof fn lemma_sent_len_sum_mono(data: Seq<Sentence>, i: int, j: int)
    requires
        i <= j,
    ensures
        sent_len_sum(data, i) <= sent_len_sum(data, j),
    decreases j - i,
{
    if i < j {
        lemma_sent_len_sum_mono(data, i, j - 1);
    }
}

/// Normalize one row of counts by its total, exactly as
/// `normalize_counts` states it.  Every resulting entry is a probability.
#[verifier::loop_isolation(false)]
fn normalize_row(counts: &Vec<u64>) -> (r: Vec<u64>)
    requires
        counts@.len() <= MAX_SYMBOLS,
    ensures
        r@.len() == counts@.len(),
        forall|i: int|
            0 <= i < r@.len() ==> #[trigger] r@[i] as nat == normalize_counts(nats_of(counts@))[i],
        forall|i: int| 0 <= i < r@.len() ==> #[trigger] r@[i] <= SCALE,
{
    let ghost cnats = nats_of(counts@);
    let n = counts.len();
    let mut total: u128 = 0;
    let mut i: usize = 0;
    while i < n
        invariant
            i <= n,
            total as nat == sum_upto(cnats, i as int),
        decreases n - i,
    {
        proof {
            lemma_sum_upper(cnats, i as int + 1, u64::MAX as nat);
            lemma_mul_inequality(i as int + 1, MAX_SYMBOLS as int, u64::MAX as int);
        }
        total = total + (counts[i] as u128);
        i = i + 1;
    }
    let mut r: Vec<u64> = Vec::new();
    let mut j: usize = 0;
    if total == 0 {
        proof {
            lemma_sum_zero(cnats, n as int);
        }
        while j < n
            invariant
                j <= n,
                r@.len() == j,
                forall|l: int| 0 <= l < j ==> #[trigger] r@[l] == counts@[l] && r@[l] == 0,
            decreases n - j,
        {
            proof {
                assert(cnats[j as int] == 0);
            }
            r.push(counts[j]);
            j = j + 1;
        }
    } else {
        while j < n
            invariant
                j <= n,
                r@.len() == j,
                forall|l: int|
                    0 <= l < j ==> #[trigger] r@[l] as nat == normalize_counts(cnats)[l] && r@[l]
                        <= SCALE,
            decreases n - j,
        {
            proof {
                lemma_sum_bounds_element(cnats, n as int, j as int);
                lemma_rescale_le(cnats[j as int], sum_of(cnats), SCALE as nat);
                crate::arith::lemma_mul_le(
                    cnats[j as int],
                    u64::MAX as nat,
                    SCALE as nat,
                    SCALE as nat,
                );
            }
            let q128: u128 = (counts[j] as u128) * (SCALE as u128) / total;
            let q: u64 = q128 as u64;
            r.push(q);
            j = j + 1;
        }
    }
    r
}

/// Estimate a model from labelled sequences by counting and
/// normalization.
///
/// Start counts take one count per sentence from its first tag;
/// transition counts one per adjacent tag pair; emission counts one per
/// `(word, tag)` token.  Each row is then normalized by its own total,
/// with the smoothing constant of `options` added to every transition
/// cell first.  A row whose total is zero (a state never seen in that
/// role) stays all zero, which makes that state silent or unreachable in
/// decoding; callers that need full ergodicity must switch smoothing on.
/// The positivity smoothing buys is quantization-bounded: a smoothed
/// transition cell is provably positive while the row's total count is
/// at most `smooth * SCALE` thousandths (`lemma_smoothing_positive`);
/// beyond that the fixed-point division can floor a cell to zero.
///
/// Fails with `ConfigurationError` exactly when the corpus is empty or
/// either dimension is zero.
#[verifier::loop_isolation(false)]
pub fn estimate(
    data: &Vec<Sentence>,
    count_state: usize,
    count_emiss: usize,
    options: EstimateOptions,
) -> (r: Result<HMM, HmmError>)
    requires
        count_state <= MAX_STATES,
        count_emiss <= MAX_SYMBOLS,
        options.smooth_millis <= MAX_SMOOTH,
        total_tokens(data@) <= MAX_TOKENS,
        forall|i: int| 0 <= i < data@.len() ==> (#[trigger] data@[i]).tokens@.len() > 0,
        forall|i: int, j: int|
            0 <= i < data@.len() && 0 <= j < (#[trigger] data@[i]).tokens@.len() ==> (
            #[trigger] data@[i].tokens@[j]).0 < count_emiss && data@[i].tokens@[j].1 < count_state,
    ensures
        match r {
            Ok(mm) => {
                &&& data@.len() > 0 && count_state > 0 && count_emiss > 0
                &&& mm.wf()
                &&& mm.count_state == count_state
                &&& mm.count_emiss == count_emiss
                &&& mm.state == 0
                &&& forall|s: int|
                    0 <= s < count_state ==> #[trigger] mm.start()[s] as nat == est_start(
                        data@,
                        count_state as int,
                    )[s]
                &&& forall|a: int, b: int|
                    0 <= a < count_state && 0 <= b < count_state ==> #[trigger] mm.trans()[a][b]
                        as nat == est_trans_row(
                        data@,
                        a,
                        count_state as int,
                        options.smooth_millis as nat,
                    )[b]
                &&& forall|s: int, o: int|
                    0 <= s < count_state && 0 <= o < count_emiss ==> #[trigger] mm.emiss()[s][o]
                        as nat == est_emiss_row(data@, s, count_emiss as int)[o]
            },
            Err(e) => {
                &&& e == HmmError::ConfigurationError
                &&& (data@.len() == 0 || count_state == 0 || count_emiss == 0)
            },
        },
{
    if data.len() == 0 || count_state == 0 || count_emiss == 0 {
        return Err(HmmError::ConfigurationError);
    }
    let n_sent = data.len();
    proof {
        lemma_sentences_le_tokens(data@, n_sent as int);
    }

    // Start counts: one count per sentence from its first tag.
    let mut scounts = zero_row(count_state);
    let mut i: usize = 0;
    while i < n_sent
        invariant
            i <= n_sent,
            scounts@.len() == count_state,
            forall|s: int|
                0 <= s < count_state ==> #[trigger] scounts@[s] as nat == start_count_upto(
                    data@,
                    s,
                    i as int,
                ),
        decreases n_sent - i,
    {
        let key = data[i].tokens[0].1;
        proof {
            lemma_start_count_le(data@, key as int, i as int);
            lemma_mul_inequality(i as int, MAX_TOKENS as int, COUNT_UNIT as int);
        }
        let v = scounts[key];
        scounts.set(key, v + COUNT_UNIT);
        i = i + 1;
    }
    proof {
        assert(nats_of(scounts@) =~= start_counts_row(data@, count_state as int));
    }
    let prob_start = normalize_row(&scounts);

    // Transition counts: one count per adjacent tag pair.
    let mut tcounts = zero_matrix(count_state, count_state);
    let mut i2: usize = 0;
    while i2 < n_sent
        invariant
            i2 <= n_sent,
            tcounts@.len() == count_state,
            forall|a: int| 0 <= a < count_state ==> (#[trigger] tcounts@[a])@.len() == count_state,
            forall|a: int, b: int|
                0 <= a < count_state && 0 <= b < count_state ==> #[trigger] tcounts@[a]@[b] as nat
                    == trans_count_upto(data@, a, b, i2 as int),
        decreases n_sent - i2,
    {
        let slen = data[i2].tokens.len();
        let ghost toks = data@[i2 as int].tokens@;
        let mut pos: usize = 1;
        while pos < slen
            invariant
                1 <= pos <= slen,
                tcounts@.len() == count_state,
                forall|a: int|
                    0 <= a < count_state ==> (#[trigger] tcounts@[a])@.len() == count_state,
                forall|a: int, b: int|
                    0 <= a < count_state && 0 <= b < count_state ==> #[trigger] tcounts@[a]@[b]
                        as nat == trans_count_upto(data@, a, b, i2 as int) + sent_trans_upto(
                        toks,
                        a,
                        b,
                        pos as int,
                    ),
            decreases slen - pos,
        {
            let key1 = data[i2].tokens[pos - 1].1;
            let key2 = data[i2].tokens[pos].1;
            proof {
                lemma_trans_count_le(data@, key1 as int, key2 as int, i2 as int);
                lemma_sent_trans_le(toks, key1 as int, key2 as int, pos as int);
                lemma_sent_len_sum_mono(data@, i2 as int + 1, data@.len() as int);
                lemma_mul_is_distributive_add_other_way(
                    COUNT_UNIT as int,
                    sent_len_sum(data@, i2 as int) as int,
                    pos as int,
                );
                lemma_mul_inequality(
                    (sent_len_sum(data@, i2 as int) + pos) as int,
                    MAX_TOKENS as int,
                    COUNT_UNIT as int,
                );
            }
            let mut row = clone_row(&tcounts[key1]);
            let cv = row[key2];
            row.set(key2, cv + COUNT_UNIT);
            tcounts.set(key1, row);
            pos = pos + 1;
        }
        i2 = i2 + 1;
    }

    // Smoothed, normalized transition rows.
    let mut prob_trans: Vec<Vec<u64>> = Vec::new();
    let mut a: usize = 0;
    while a < count_state
        invariant
            a <= count_state,
            prob_trans@.len() == a,
            forall|x: int| 0 <= x < a ==> (#[trigger] prob_trans@[x])@.len() == count_state,
            forall|x: int, b: int|
                0 <= x < a && 0 <= b < count_state ==> #[trigger] prob_trans@[x]@[b] as nat
                    == est_trans_row(
                    data@,
                    x,
                    count_state as int,
                    options.smooth_millis as nat,
                )[b] && prob_trans@[x]@[b] <= SCALE,
        decreases count_state - a,
    {
        let mut srow: Vec<u64> = Vec::new();
        let mut b: usize = 0;
        while b < count_state
            invariant
                b <= count_state,
                a < count_state,
                srow@.len() == b,
                forall|l: int|
                    0 <= l < b ==> #[trigger] srow@[l] as nat == trans_count(data@, a as int, l)
                        + options.smooth_millis,
            decreases count_state - b,
        {
            proof {
                lemma_trans_count_le(data@, a as int, b as int, data@.len() as int);
                lemma_mul_inequality(
                    total_tokens(data@) as int,
                    MAX_TOKENS as int,
                    COUNT_UNIT as int,
                );
            }
            srow.push(tcounts[a][b] + options.smooth_millis);
            b = b + 1;
        }
        proof {
            assert(nats_of(srow@) =~= trans_counts_row(
                data@,
                a as int,
                count_state as int,
                options.smooth_millis as nat,
            ));
        }
        let nrow = normalize_row(&srow);
        prob_trans.push(nrow);
        a = a + 1;
    }

    // Emission counts: one count per token.
    let mut ecounts = zero_matrix(count_state, count_emiss);
    let mut i3: usize = 0;
    while i3 < n_sent
        invariant
            i3 <= n_sent,
            ecounts@.len() == count_state,
            forall|s: int| 0 <= s < count_state ==> (#[trigger] ecounts@[s])@.len() == count_emiss,
            forall|s: int, o: int|
                0 <= s < count_state && 0 <= o < count_emiss ==> #[trigger] ecounts@[s]@[o] as nat
                    == emiss_count_upto(data@, s, o, i3 as int),
        decreases n_sent - i3,
    {
        let slen = data[i3].tokens.len();
        let ghost toks = data@[i3 as int].tokens@;
        let mut pos: usize = 0;
        while pos < slen
            invariant
                pos <= slen,
                ecounts@.len() == count_state,
                forall|s: int|
                    0 <= s < count_state ==> (#[trigger] ecounts@[s])@.len() == count_emiss,
                forall|s: int, o: int|
                    0 <= s < count_state && 0 <= o < count_emiss ==> #[trigger] ecounts@[s]@[o]
                        as nat == emiss_count_upto(data@, s, o, i3 as int) + sent_emiss_upto(
                        toks,
                        s,
                        o,
                        pos as int,
                    ),
            decreases slen - pos,
        {
            let val = data[i3].tokens[pos].0;
            let key = data[i3].tokens[pos].1;
            proof {
                lemma_emiss_count_le(data@, key as int, val as int, i3 as int);
                lemma_sent_emiss_le(toks, key as int, val as int, pos as int);
                lemma_sent_len_sum_mono(data@, i3 as int + 1, data@.len() as int);
                lemma_mul_is_distributive_add_other_way(
                    COUNT_UNIT as int,
                    sent_len_sum(data@, i3 as int) as int,
                    pos as int,
                );
                lemma_mul_inequality(
                    (sent_len_sum(data@, i3 as int) + pos) as int,
                    MAX_TOKENS as int,
                    COUNT_UNIT as int,
                );
            }
            let mut row = clone_row(&ecounts[key]);
            let cv = row[val];
            row.set(val, cv + COUNT_UNIT);
            ecounts.set(key, row);
            pos = pos + 1;
        }
        i3 = i3 + 1;
    }

    // Normalized emission rows.
    let mut prob_emiss: Vec<Vec<u64>> = Vec::new();
    let mut s2: usize = 0;
    while s2 < count_state
        invariant
            s2 <= count_state,
            prob_emiss@.len() == s2,
            forall|x: int| 0 <= x < s2 ==> (#[trigger] prob_emiss@[x])@.len() == count_emiss,
            forall|x: int, o: int|
                0 <= x < s2 && 0 <= o < count_emiss ==> #[trigger] prob_emiss@[x]@[o] as nat
                    == est_emiss_row(data@, x, count_emiss as int)[o] && prob_emiss@[x]@[o]
                    <= SCALE,
        decreases count_state - s2,
    {
        proof {
            assert(nats_of(ecounts@[s2 as int]@) =~= emiss_counts_row(
                data@,
                s2 as int,
                count_emiss as int,
            ));
        }
        let nrow = normalize_row(&ecounts[s2]);
        prob_emiss.push(nrow);
        s2 = s2 + 1;
    }

    let mm = HMM {
        count_state,
        count_emiss,
        prob_start,
        prob_trans,
        prob_emiss,
        state: 0,
    };
    proof {
        assert forall|x: int| 0 <= x < count_state implies (#[trigger] mm.trans()[x]).len()
            == count_state && (#[trigger] mm.emiss()[x]).len() == count_emiss by {
            lemma_mat_index(mm.prob_trans, x);
            lemma_mat_index(mm.prob_emiss, x);
        }
        assert forall|x: int, b: int|
            0 <= x < count_state && 0 <= b < count_state implies #[trigger] mm.trans()[x][b] as nat
            == est_trans_row(data@, x, count_state as int, options.smooth_millis as nat)[b]
            && mm.trans()[x][b] <= SCALE by {
            lemma_mat_index(mm.prob_trans, x);
        }
        assert forall|x: int, o: int|
            0 <= x < count_state && 0 <= o < count_emiss implies #[trigger] mm.emiss()[x][o] as nat
            == est_emiss_row(data@, x, count_emiss as int)[o] && mm.emiss()[x][o] <= SCALE by {
            lemma_mat_index(mm.prob_emiss, x);
        }
    }
    Ok(mm)
}

/// The observation ids of one sentence.
pub open spec fn sent_obs(toks: Seq<(usize, usize)>) -> Seq<usize> {
    toks.map_values(|t: (usize, usize)| t.0)
}

/// How many of the first `p` tokens of one sentence the decoded path
/// tags as the corpus does.
pub open spec fn sent_correct_upto(m: HMM, toks: Seq<(usize, usize)>, p: int) -> nat
    decreases p,
{
    if p <= 0 {
        0
    } else {
        sent_correct_upto(m, toks, p - 1) + if toks[p - 1].1 as int == viterbi_path(
            m,
            sent_obs(toks),
        )[p - 1] {
            1nat
        } else {
            0
        }
    }
}

/// Correctly decoded tokens over the first `n` sentences.
pub open spec fn correct_upto(m: HMM, data: Seq<Sentence>, n: int) -> nat
    decreases n,
{
    if n <= 0 {
        0
    } else {
        correct_upto(m, data, n - 1) + sent_correct_upto(
            m,
            data[n - 1].tokens@,
            data[n - 1].tokens@.len() as int,
        )
    }
}

/// Correctly decoded tokens over the whole corpus.
pub open spec fn correct_count(m: HMM, data: Seq<Sentence>) -> nat {
    correct_upto(m, data, data.len() as int)
}

/// No more tokens are counted correct than a sentence has.
proof fn lemma_sent_correct_le(m: HMM, toks: Seq<(usize, usize)>, p: int)
    requires
        0 <= p,
    ensures
        sent_correct_upto(m, toks, p) <= p,
    decreases p,
{
    if p > 0 {
        lemma_sent_correct_le(m, toks, p - 1);
    }
}

/// No more tokens are counted correct than the corpus has.
proof fn lemma_correct_le(m: HMM, data: Seq<Sentence>, n: int)
    requires
        0 <= n,
    ensures
        correct_upto(m, data, n) <= sent_len_sum(data, n),
    decreases n,
{
    if n > 0 {
        lemma_correct_le(m, data, n - 1);
        lemma_sent_correct_le(m, data[n - 1].tokens@, data[n - 1].tokens@.len() as int);
    }
}

impl HMM {
    /// Estimate a model from a loaded corpus: the tag mapper gives the
    /// state count, the word mapper the symbol count, and `estimate`
    /// does the counting and normalization.
    ///
    /// Fails with `ConfigurationError` exactly when the corpus is empty
    /// or no tag was ever seen.
    pub fn hmm_tag(loader: &Loader, options: EstimateOptions) -> (r: Result<HMM, HmmError>)
        requires
            loader.wf(),
            total_tokens(loader.data@) <= MAX_TOKENS,
            loader.mapper_t.view_keys().len() <= MAX_STATES,
            loader.mapper_w.view_keys().len() <= MAX_SYMBOLS,
            options.smooth_millis <= MAX_SMOOTH,
        ensures
            match r {
                Ok(mm) => {
                    &&& loader.data@.len() > 0
                    &&& mm.wf()
                    &&& mm.count_state == loader.mapper_t.view_keys().len()
                    &&& mm.count_emiss == loader.mapper_w.view_keys().len()
                    &&& mm.state == 0
                    &&& forall|s: int|
                        0 <= s < mm.k() ==> #[trigger] mm.start()[s] as nat == est_start(
                            loader.data@,
                            mm.k(),
                        )[s]
                    &&& forall|a: int, b: int|
                        0 <= a < mm.k() && 0 <= b < mm.k() ==> #[trigger] mm.trans()[a][b] as nat
                            == est_trans_row(
                            loader.data@,
                            a,
                            mm.k(),
                            options.smooth_millis as nat,
                        )[b]
                    &&& forall|s: int, o: int|
                        0 <= s < mm.k() && 0 <= o < mm.v() ==> #[trigger] mm.emiss()[s][o] as nat
                            == est_emiss_row(loader.data@, s, mm.v())[o]
                },
                Err(e) => {
                    &&& e == HmmError::ConfigurationError
                    &&& (loader.data@.len() == 0 || loader.mapper_t.view_keys().len() == 0)
                },
            },
    {
        let kt = match loader.mapper_t.count() {
            Some(kt) => kt,
            None => {
                return Err(HmmError::ConfigurationError);
            },
        };
        let kw = match loader.mapper_w.count() {
            Some(kw) => kw,
            None => {
                // An empty word mapper leaves no word id for any token,
                // so the corpus must be empty.
                proof {
                    if loader.data@.len() > 0 {
                        assert(loader.data@[0].tokens@[0].0 < 0);
                    }
                }
                return Err(HmmError::ConfigurationError);
            },
        };
        proof {
            assert forall|i: int, j: int|
                0 <= i < loader.data@.len() && 0 <= j < (#[trigger] loader.data@[i]).tokens@.len()
                implies (#[trigger] loader.data@[i].tokens@[j]).0 < kw
                && loader.data@[i].tokens@[j].1 < kt by {}
        }
        estimate(&loader.data, kt, kw, options)
    }

    /// Decode every sentence of `loader` and count how many tokens got
    /// the tag the corpus gives them.  Returns `(correct, total)`; the
    /// caller turns them into a percentage.
    #[verifier::loop_isolation(false)]
    pub fn eval_tag(&self, loader: &Loader) -> (r: (u64, u64))
        requires
            self.wf(),
            self.count_state >= 1,
            forall|i: int|
                0 <= i < loader.data@.len() ==> (#[trigger] loader.data@[i]).tokens@.len() > 0,
            total_tokens(loader.data@) <= MAX_TOKENS,
        ensures
            r.0 as nat == correct_count(*self, loader.data@),
            r.1 as nat == total_tokens(loader.data@),
            r.0 <= r.1,
    {
        let ghost m = *self;
        let n_sent = loader.data.len();
        let mut total: u64 = 0;
        let mut correct: u64 = 0;
        let mut i: usize = 0;
        while i < n_sent
            invariant
                i <= n_sent,
                total as nat == sent_len_sum(loader.data@, i as int),
                correct as nat == correct_upto(m, loader.data@, i as int),
                correct <= total,
            decreases n_sent - i,
        {
            let ghost toks = loader.data@[i as int].tokens@;
            let slen = loader.data[i].tokens.len();
            let mut observations: Vec<usize> = Vec::new();
            let mut p: usize = 0;
            while p < slen
                invariant
                    p <= slen,
                    observations@.len() == p,
                    forall|j: int| 0 <= j < p ==> #[trigger] observations@[j] == toks[j].0,
                decreases slen - p,
            {
                observations.push(loader.data[i].tokens[p].0);
                p = p + 1;
            }
            proof {
                assert(observations@ =~= sent_obs(toks));
            }
            let d = match self.viterbi(
                observations.as_slice(),
                DecodeOptions { track_likelihood: false },
            ) {
                Ok(d) => d,
                Err(_) => {
                    proof {
                        assert(false);
                    }
                    return (0, 0);
                },
            };
            let mut p2: usize = 0;
            while p2 < slen
                invariant
                    p2 <= slen,
                    correct as nat == correct_upto(m, loader.data@, i as int) + sent_correct_upto(
                        m,
                        toks,
                        p2 as int,
                    ),
                decreases slen - p2,
            {
                proof {
                    lemma_correct_le(m, loader.data@, i as int);
                    lemma_sent_correct_le(m, toks, p2 as int);
                    lemma_sent_len_sum_mono(loader.data@, i as int + 1, loader.data@.len() as int);
                }
                if loader.data[i].tokens[p2].1 == d.path[p2] {
                    correct = correct + 1;
                }
                p2 = p2 + 1;
            }
            proof {
                lemma_sent_len_sum_mono(loader.data@, i as int + 1, loader.data@.len() as int);
                lemma_correct_le(m, loader.data@, i as int + 1);
            }
            total = total + (slen as u64);
            i = i + 1;
        }
        (correct, total)
    }
}

/// Copy one row of counts.
fn clone_row(src: &Vec<u64>) -> (r: Vec<u64>)
    ensures
        r@ == src@,
{
    let n = src.len();
    let mut r: Vec<u64> = Vec::new();
    let mut i: usize = 0;
    while i < n
        invariant
            i <= n,
            n == src@.len(),
            r@.len() == i,
            forall|j: int| 0 <= j < i ==> #[trigger] r@[j] == src@[j],
        decreases n - i,
    {
        r.push(src[i]);
        i = i + 1;
    }
    proof {
        assert(r@ =~= src@);
    }
    r
}

} // verus!
