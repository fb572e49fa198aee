//! The hidden Markov model itself: three probability tables in decimal
//! fixed point (an entry `p` stands for the probability `p / SCALE`) and
//! their dimensions.

use crate::{MAX_STATES, MAX_SYMBOLS, SCALE};
use vstd::prelude::*;

verus! {

/// A hidden Markov model over `count_state` hidden states and
/// `count_emiss` observation symbols.
///
/// `prob_start[s]` is the probability of starting in state `s`,
/// `prob_trans[a][b]` of moving from state `a` to state `b`, and
/// `prob_emiss[s][o]` of emitting symbol `o` from state `s`, each in
/// fixed point with denominator `SCALE`.  `state` is the current state of
/// the stochastic sampler.
#[derive(Debug)]
pub struct HMM {
    pub count_state: usize,
    pub count_emiss: usize,
    pub prob_start: Vec<u64>,
    pub prob_trans: Vec<Vec<u64>>,
    pub prob_emiss: Vec<Vec<u64>>,
    pub state: usize,
}

impl HMM {
    /// The number of hidden states, as a mathematical integer.
    pub open spec fn k(&self) -> int {
        self.count_state as int
    }

    /// The number of observation symbols, as a mathematical integer.
    pub open spec fn v(&self) -> int {
        self.count_emiss as int
    }

    /// The start-probability table.
    pub open spec fn start(&self) -> Seq<u64> {
        self.prob_start@
    }

    /// The transition-probability table.
    pub open spec fn trans(&self) -> Seq<Seq<u64>> {
        self.prob_trans.deep_view()
    }

    /// The emission-probability table.
    pub open spec fn emiss(&self) -> Seq<Seq<u64>> {
        self.prob_emiss.deep_view()
    }

    /// Well-formedness: the tables have the declared dimensions, every
    /// entry is a probability (at most `SCALE`), and the dimensions stay
    /// within the machine limits that keep the trellis arithmetic inside
    /// `u128`.
    pub open spec fn wf(&self) -> bool {
        &&& self.count_state <= MAX_STATES
        &&& self.count_emiss <= MAX_SYMBOLS
        &&& self.start().len() == self.k()
        &&& self.trans().len() == self.k()
        &&& self.emiss().len() == self.k()
        &&& forall|i: int| 0 <= i < self.k() ==> (#[trigger] self.trans()[i]).len() == self.k()
        &&& forall|i: int| 0 <= i < self.k() ==> (#[trigger] self.emiss()[i]).len() == self.v()
        &&& forall|s: int| 0 <= s < self.k() ==> #[trigger] self.start()[s] <= SCALE
        &&& forall|a: int, b: int|
            0 <= a < self.k() && 0 <= b < self.k() ==> #[trigger] self.trans()[a][b] <= SCALE
        &&& forall|s: int, o: int|
            0 <= s < self.k() && 0 <= o < self.v() ==> #[trigger] self.emiss()[s][o] <= SCALE
    }

    /// A model of the given dimensions with every probability zero.
    pub fn zeroes(count_state: usize, count_emiss: usize) -> (m: HMM)
        requires
            count_state <= MAX_STATES,
            count_emiss <= MAX_SYMBOLS,
        ensures
            m.wf(),
            m.count_state == count_state,
            m.count_emiss == count_emiss,
            m.state == 0,
            forall|s: int| 0 <= s < m.k() ==> #[trigger] m.start()[s] == 0,
            forall|a: int, b: int|
                0 <= a < m.k() && 0 <= b < m.k() ==> #[trigger] m.trans()[a][b] == 0,
            forall|s: int, o: int|
                0 <= s < m.k() && 0 <= o < m.v() ==> #[trigger] m.emiss()[s][o] == 0,
    {
        let prob_start = zero_row(count_state);
        let prob_trans = zero_matrix(count_state, count_state);
        let prob_emiss = zero_matrix(count_state, count_emiss);
        HMM { count_state, count_emiss, prob_start, prob_trans, prob_emiss, state: 0 }
    }
}

/// A row of `n` zero probabilities.
pub(crate) fn zero_row(n: usize) -> (r: Vec<u64>)
    ensures
        r@.len() == n,
        forall|i: int| 0 <= i < n ==> r@[i] == 0,
{
    let mut r: Vec<u64> = Vec::new();
    let mut i: usize = 0;
    while i < n
        invariant
            i <= n,
            r@.len() == i,
            forall|j: int| 0 <= j < i ==> r@[j] == 0,
        decreases n - i,
    {
        r.push(0);
        i = i + 1;
    }
    r
}

/// A row of a matrix of probabilities, seen through `deep_view`, is the
/// view of the row vector itself.
pub proof fn lemma_mat_index(m: Vec<Vec<u64>>, i: int)
    requires
        0 <= i < m@.len(),
    ensures
        m.deep_view()[i] == m@[i]@,
{
    assert(m.deep_view()[i] =~= m@[i]@);
}

/// A matrix of `rows` rows of `cols` zero probabilities each.
pub(crate) fn zero_matrix(rows: usize, cols: usize) -> (m: Vec<Vec<u64>>)
    ensures
        m.deep_view().len() == rows,
        forall|i: int| 0 <= i < rows ==> (#[trigger] m.deep_view()[i]).len() == cols,
        forall|i: int, j: int|
            0 <= i < rows && 0 <= j < cols ==> #[trigger] m.deep_view()[i][j] == 0,
        m@.len() == rows,
        forall|i: int| 0 <= i < rows ==> (#[trigger] m@[i])@.len() == cols,
        forall|i: int, j: int| 0 <= i < rows && 0 <= j < cols ==> #[trigger] m@[i]@[j] == 0,
{
    let mut m: Vec<Vec<u64>> = Vec::new();
    let mut i: usize = 0;
    while i < rows
        invariant
            i <= rows,
            m@.len() == i,
            forall|j: int| 0 <= j < i ==> (#[trigger] m@[j])@.len() == cols,
            forall|j: int, l: int|
                0 <= j < i && 0 <= l < cols ==> #[trigger] m@[j]@[l] == 0,
        decreases rows - i,
    {
        let row = zero_row(cols);
        m.push(row);
        i = i + 1;
    }
    proof {
        assert forall|i2: int| 0 <= i2 < rows implies (#[trigger] m.deep_view()[i2]).len()
            == cols by {
            lemma_mat_index(m, i2);
        }
        assert forall|i2: int, j: int|
            0 <= i2 < rows && 0 <= j < cols implies #[trigger] m.deep_view()[i2][j] == 0 by {
            lemma_mat_index(m, i2);
        }
    }
    m
}

} // verus!
