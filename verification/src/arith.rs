//! Sums of sequences of naturals and the small arithmetic facts about
//! products, quotients and sums that the estimation and decoding proofs
//! share.

use vstd::arithmetic::div_mod::{lemma_div_by_multiple, lemma_div_is_ordered};
use vstd::arithmetic::mul::lemma_mul_inequality;
use vstd::prelude::*;

verus! {

/// A row of `u64` values as mathematical naturals.
pub open spec fn nats_of(s: Seq<u64>) -> Seq<nat> {
    s.map_values(|c: u64| c as nat)
}

/// The sum of the first `n` entries of `s`.
pub open spec fn sum_upto(s: Seq<nat>, n: int) -> nat
    decreases n,
{
    if n <= 0 {
        0
    } else {
        sum_upto(s, n - 1) + s[n - 1]
    }
}

/// The sum of all entries of `s`.
pub open spec fn sum_of(s: Seq<nat>) -> nat {
    sum_upto(s, s.len() as int)
}

/// Every entry of a sequence of naturals is at most the sum of a prefix
/// that contains it.
pub proof fn lemma_sum_bounds_element(s: Seq<nat>, n: int, i: int)
    requires
        0 <= i < n,
    ensures
        s[i] <= sum_upto(s, n),
    decreases n,
{
    if i < n - 1 {
        lemma_sum_bounds_element(s, n - 1, i);
    }
}

/// A sum of entries that are each at most `bound` is at most `n * bound`.
pub proof fn lemma_sum_upper(s: Seq<nat>, n: int, bound: nat)
    requires
        0 <= n,
        forall|i: int| 0 <= i < n ==> s[i] <= bound,
    ensures
        sum_upto(s, n) <= n * bound,
    decreases n,
{
    if n > 0 {
        lemma_sum_upper(s, n - 1, bound);
        assert((n - 1) * bound + bound == n * bound) by (nonlinear_arith);
    }
}

/// A zero sum has only zero entries.
pub proof fn lemma_sum_zero(s: Seq<nat>, n: int)
    requires
        sum_upto(s, n) == 0,
    ensures
        forall|i: int| 0 <= i < n ==> s[i] == 0,
{
    assert forall|i: int| 0 <= i < n implies s[i] == 0 by {
        lemma_sum_bounds_element(s, n, i);
    }
}

/// Dividing `v * m` by a total that `v` is part of keeps the quotient at
/// most `m`: rescaling a layer never pushes an entry above the unit.
pub proof fn lemma_rescale_le(v: nat, t: nat, m: nat)
    requires
        v <= t,
        t > 0,
    ensures
        v * m / t <= m,
{
    lemma_mul_inequality(v as int, t as int, m as int);
    vstd::arithmetic::mul::lemma_mul_is_commutative(t as int, m as int);
    lemma_div_is_ordered((v * m) as int, (t * m) as int, t as int);
    lemma_div_by_multiple(m as int, t as int);
}

/// Quotients are superadditive: dividing two summands separately loses
/// at most what dividing their sum does.
pub proof fn lemma_div_add_le(x: nat, y: nat, d: nat)
    requires
        d > 0,
    ensures
        x / d + y / d <= (x + y) / d,
{
    let qx = (x / d) as int;
    let qy = (y / d) as int;
    vstd::arithmetic::div_mod::lemma_fundamental_div_mod(x as int, d as int);
    vstd::arithmetic::div_mod::lemma_fundamental_div_mod(y as int, d as int);
    vstd::arithmetic::div_mod::lemma_mod_division_less_than_divisor(x as int, d as int);
    vstd::arithmetic::div_mod::lemma_mod_division_less_than_divisor(y as int, d as int);
    vstd::arithmetic::mul::lemma_mul_is_distributive_add(d as int, qx, qy);
    lemma_div_is_ordered((d * (qx + qy)) as int, (x + y) as int, d as int);
    lemma_div_by_multiple(qx + qy, d as int);
    vstd::arithmetic::mul::lemma_mul_is_commutative(d as int, qx + qy);
}

/// The sum of a sequence with at most one nonzero entry is that entry.
pub proof fn lemma_sum_single(s: Seq<nat>, idx: int, n: int)
    requires
        0 <= idx < n,
        forall|i: int| 0 <= i < n && i != idx ==> s[i] == 0,
    ensures
        sum_upto(s, n) == s[idx],
    decreases n,
{
    if idx < n - 1 {
        lemma_sum_single(s, idx, n - 1);
    } else {
        lemma_sum_zero_prefix(s, n - 1);
    }
}

/// A prefix of zero entries sums to zero.
proof fn lemma_sum_zero_prefix(s: Seq<nat>, n: int)
    requires
        forall|i: int| 0 <= i < n ==> s[i] == 0,
    ensures
        sum_upto(s, n) == 0,
    decreases n,
{
    if n > 0 {
        lemma_sum_zero_prefix(s, n - 1);
    }
}

/// A product of bounded naturals is bounded by the product of the bounds.
pub proof fn lemma_mul_le(a: nat, ab: nat, b: nat, bb: nat)
    requires
        a <= ab,
        b <= bb,
    ensures
        a * b <= ab * bb,
{
    vstd::arithmetic::mul::lemma_mul_upper_bound(a as int, ab as int, b as int, bb as int);
}

} // verus!
