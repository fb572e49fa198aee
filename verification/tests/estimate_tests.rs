use hmm_tagger::hmm::HMM;
use hmm_tagger::hmm_tag::estimate;
use hmm_tagger::loader::{Loader, Sentence};
use hmm_tagger::{EstimateOptions, HmmError, SCALE};

fn no_smooth() -> EstimateOptions {
    EstimateOptions { smooth_millis: 0 }
}

#[test]
fn model_rows_sum_to_one_within_quantization() {
    // Two sentences: tags 0 0 / 1, words 0 1 / 0.
    let data = vec![
        Sentence { tokens: vec![(0, 0), (1, 0)] },
        Sentence { tokens: vec![(0, 1)] },
    ];
    let m = estimate(&data, 2, 2, no_smooth()).unwrap();
    // Start counts 1:1 over two sentences: exactly one half each.
    assert_eq!(m.prob_start, vec![500_000u64, 500_000u64]);
    assert_eq!(m.prob_start.iter().sum::<u64>(), SCALE);
    // Every row with a nonzero training count sums to within the row
    // length of SCALE.
    for row in m.prob_trans.iter().chain(m.prob_emiss.iter()) {
        let total: u64 = row.iter().sum();
        assert!(total <= SCALE);
        let k = row.len() as u64;
        assert!(total == 0 || total > SCALE - k);
    }
}

#[test]
fn exact_thirds_round_down() {
    // Start counts 2:1 over three sentences.
    let data = vec![
        Sentence { tokens: vec![(0, 0)] },
        Sentence { tokens: vec![(0, 0)] },
        Sentence { tokens: vec![(0, 1)] },
    ];
    let m = estimate(&data, 2, 1, no_smooth()).unwrap();
    assert_eq!(m.prob_start, vec![666_666u64, 333_333u64]);
}

// A single training sentence of length one yields a one-hot start
// distribution, an all-zero transition table, and an emission table
// with a single nonzero row.
#[test]
fn single_token_training_is_one_hot() {
    let data = vec![Sentence { tokens: vec![(1, 1)] }];
    let m = estimate(&data, 2, 2, no_smooth()).unwrap();
    assert_eq!(m.prob_start, vec![0u64, SCALE]);
    assert_eq!(m.prob_trans, vec![vec![0u64, 0], vec![0u64, 0]]);
    assert_eq!(m.prob_emiss, vec![vec![0u64, 0], vec![0u64, SCALE]]);
}

#[test]
fn smoothing_fills_every_transition_cell() {
    // One observed transition 0 -> 1; smoothing must leave no zero cell.
    let data = vec![Sentence { tokens: vec![(0, 0), (0, 1)] }];
    let m = estimate(&data, 2, 1, EstimateOptions { smooth_millis: 1 }).unwrap();
    for row in m.prob_trans.iter() {
        for p in row.iter() {
            assert!(*p > 0);
        }
    }
    // Row 0 saw one transition to state 1 plus 0.001 per cell:
    // cell(0,0) = 1/1002 and cell(0,1) = 1001/1002 of the row.
    assert_eq!(m.prob_trans[0][0], 1_000_000u64 / 1002);
    assert_eq!(m.prob_trans[0][1], 1_001_000_000u64 / 1002);
    // Row 1 saw nothing: uniform from smoothing alone.
    assert_eq!(m.prob_trans[1], vec![500_000u64, 500_000u64]);
}

#[test]
fn estimation_errors() {
    let none: Vec<Sentence> = Vec::new();
    assert_eq!(estimate(&none, 2, 2, no_smooth()).unwrap_err(), HmmError::ConfigurationError);
    assert_eq!(estimate(&none, 0, 2, no_smooth()).unwrap_err(), HmmError::ConfigurationError);
    let data = vec![Sentence { tokens: vec![(0, 0)] }];
    assert_eq!(estimate(&data, 1, 0, no_smooth()).unwrap_err(), HmmError::ConfigurationError);
}

#[test]
fn hmm_tag_trains_from_loader() {
    let loader = Loader::load("a\tX\nb\tY\n\na\tX\n\n");
    let m = HMM::hmm_tag(&loader, no_smooth()).unwrap();
    assert_eq!(m.count_state, 2);
    assert_eq!(m.count_emiss, 2);
    // Both sentences start with tag X.
    assert_eq!(m.prob_start, vec![SCALE, 0]);
    // The only observed transition is X -> Y.
    assert_eq!(m.prob_trans[0], vec![0u64, SCALE]);
    assert_eq!(m.prob_trans[1], vec![0u64, 0]);
    // X emits only a, Y emits only b.
    assert_eq!(m.prob_emiss[0], vec![SCALE, 0]);
    assert_eq!(m.prob_emiss[1], vec![0, SCALE]);
}

#[test]
fn hmm_tag_errors_on_empty_corpus() {
    let loader = Loader::load("");
    assert_eq!(
        HMM::hmm_tag(&loader, no_smooth()).unwrap_err(),
        HmmError::ConfigurationError
    );
}

#[test]
fn eval_tag_counts_correct_tokens() {
    let loader = Loader::load("a\tX\nb\tY\n\na\tX\n\n");
    let m = HMM::hmm_tag(&loader, no_smooth()).unwrap();
    let (correct, total) = m.eval_tag(&loader);
    assert_eq!(total, 3);
    assert_eq!(correct, 3);
}

#[test]
fn zeroes_builds_empty_tables() {
    let m = HMM::zeroes(3, 4);
    assert_eq!(m.count_state, 3);
    assert_eq!(m.count_emiss, 4);
    assert_eq!(m.prob_start, vec![0u64; 3]);
    assert_eq!(m.prob_trans.len(), 3);
    assert_eq!(m.prob_emiss.len(), 3);
    for row in m.prob_trans.iter() {
        assert_eq!(*row, vec![0u64; 3]);
    }
    for row in m.prob_emiss.iter() {
        assert_eq!(*row, vec![0u64; 4]);
    }
}

#[test]
fn hmm_ice_holds_the_fixture_values() {
    let m = HMM::hmm_ice();
    assert_eq!(m.prob_start, vec![500_000u64, 500_000]);
    assert_eq!(m.prob_trans, vec![vec![600_000u64, 400_000], vec![500_000u64, 500_000]]);
    assert_eq!(
        m.prob_emiss,
        vec![vec![200_000u64, 400_000, 400_000], vec![600_000u64, 500_000, 0]]
    );
}
