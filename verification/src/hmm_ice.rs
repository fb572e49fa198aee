//! A small fixed model for illustration and regression tests: two
//! weather states emitting how many ice creams were eaten.

use crate::hmm::{lemma_mat_index, HMM};
use vstd::pervasive::VecAdditionalExecFns;
use vstd::prelude::*;

verus! {

impl HMM {
    /// The illustrative weather model: state 0 is hot, state 1 is cold;
    /// observation symbols 0, 1, 2 stand for one, two or three ice
    /// creams.  Start is uniform, and the tables are the classic
    /// textbook values in decimal fixed point.
    pub fn hmm_ice() -> (m: HMM)
        ensures
            m.wf(),
            m.count_state == 2,
            m.count_emiss == 3,
            m.state == 0,
            m.start()[0] == 500_000 && m.start()[1] == 500_000,
            m.trans()[0][0] == 600_000 && m.trans()[0][1] == 400_000,
            m.trans()[1][0] == 500_000 && m.trans()[1][1] == 500_000,
            m.emiss()[0][0] == 200_000 && m.emiss()[0][1] == 400_000 && m.emiss()[0][2]
                == 400_000,
            m.emiss()[1][0] == 600_000 && m.emiss()[1][1] == 500_000 && m.emiss()[1][2] == 0,
    {
        let mut m = HMM::zeroes(2, 3);
        m.prob_start.set(0, 500_000);
        m.prob_start.set(1, 500_000);

        let mut t0: Vec<u64> = Vec::new();
        t0.push(600_000);
        t0.push(400_000);
        m.prob_trans.set(0, t0);
        let mut t1: Vec<u64> = Vec::new();
        t1.push(500_000);
        t1.push(500_000);
        m.prob_trans.set(1, t1);

        let mut e0: Vec<u64> = Vec::new();
        e0.push(200_000);
        e0.push(400_000);
        e0.push(400_000);
        m.prob_emiss.set(0, e0);
        let mut e1: Vec<u64> = Vec::new();
        e1.push(600_000);
        e1.push(500_000);
        e1.push(0);
        m.prob_emiss.set(1, e1);

        proof {
            lemma_mat_index(m.prob_trans, 0);
            lemma_mat_index(m.prob_trans, 1);
            lemma_mat_index(m.prob_emiss, 0);
            lemma_mat_index(m.prob_emiss, 1);
            assert forall|i: int| 0 <= i < 2 implies (#[trigger] m.trans()[i]).len() == 2 by {
                lemma_mat_index(m.prob_trans, i);
            }
            assert forall|i: int| 0 <= i < 2 implies (#[trigger] m.emiss()[i]).len() == 3 by {
                lemma_mat_index(m.prob_emiss, i);
            }
            assert forall|a: int, b: int|
                0 <= a < 2 && 0 <= b < 2 implies #[trigger] m.trans()[a][b] <= crate::SCALE by {
                lemma_mat_index(m.prob_trans, a);
            }
            assert forall|s: int, o: int|
                0 <= s < 2 && 0 <= o < 3 implies #[trigger] m.emiss()[s][o] <= crate::SCALE by {
                lemma_mat_index(m.prob_emiss, s);
            }
        }
        m
    }
}

} // verus!
