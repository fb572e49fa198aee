use hmm_tagger::hmm::HMM;
use hmm_tagger::DecodeOptions;
use rand::SeedableRng;

fn opts() -> DecodeOptions {
    DecodeOptions { track_likelihood: false }
}

#[test]
fn ice_example() {
    let mut model = HMM::hmm_ice();
    let mut rng = rand::rngs::StdRng::seed_from_u64(7);
    println!("-----");
    model.traverse(&mut rng, 3);
    println!("-----");
    model.viterbi(&[1, 2, 0], opts()).unwrap();
}

#[test]
fn main_ice_example() {
    let mut model = HMM::hmm_ice();
    let mut rng = rand::rngs::StdRng::seed_from_u64(11);
    println!("-----");
    model.traverse(&mut rng, 3);
    println!("-----");
    model.viterbi(&[1, 2, 0], opts()).unwrap();
}

// The weather fixture decoded on [1, 2, 0] must reproduce the reference
// Viterbi computation: path hot-cold coded as [1, 0, 1], and the exact
// fixed-point forward scores of the final layer.
#[test]
fn weather_fixture_regression() {
    let model = HMM::hmm_ice();
    let d = model
        .viterbi(&[1, 2, 0], DecodeOptions { track_likelihood: true })
        .unwrap();
    assert_eq!(d.path, vec![1usize, 0, 1]);
    // Final forward layer: [333_333_333_333, 666_666_666_666] in units
    // of SCALE^2; the total likelihood is their sum.
    assert_eq!(d.likelihood, Some(999_999_999_999u128));
}

#[test]
fn decoding_is_deterministic() {
    let model = HMM::hmm_ice();
    let d1 = model.viterbi(&[1, 2, 0, 1, 1, 2], opts()).unwrap();
    let d2 = model.viterbi(&[1, 2, 0, 1, 1, 2], opts()).unwrap();
    assert_eq!(d1.path, d2.path);
}

// A single observation decodes from start and emission alone.
#[test]
fn single_observation_uses_start_times_emission() {
    let model = HMM::hmm_ice();
    // obs 0: hot scores 0.5*0.2, cold 0.5*0.6: cold wins.
    assert_eq!(model.viterbi(&[0], opts()).unwrap().path, vec![1usize]);
    // obs 1: 0.5*0.4 against 0.5*0.5: cold wins.
    assert_eq!(model.viterbi(&[1], opts()).unwrap().path, vec![1usize]);
    // obs 2: 0.5*0.4 against 0.5*0.0: hot wins.
    assert_eq!(model.viterbi(&[2], opts()).unwrap().path, vec![0usize]);
}

// An observation id at or beyond the trained vocabulary decodes without
// error, with the neutral emission probability one for every state.
#[test]
fn out_of_vocabulary_is_neutral() {
    let model = HMM::hmm_ice();
    // Both states score 0.5 * 1.0: the tie breaks to the lowest id.
    let d = model.viterbi(&[7], opts()).unwrap();
    assert_eq!(d.path, vec![0usize]);
    // In a longer sequence the neutral position leaves the rest intact.
    let d2 = model.viterbi(&[1, 2, 0, 99], opts()).unwrap();
    assert_eq!(d2.path.len(), 4);
    for s in d2.path.iter() {
        assert!(*s < 2);
    }
}

#[test]
fn empty_observations_are_an_error() {
    let model = HMM::hmm_ice();
    let r = model.viterbi(&[], opts());
    assert_eq!(r.unwrap_err(), hmm_tagger::HmmError::DecodeInputError);
}

// Rescaled layers must leave the arg-max path where the unscaled
// computation puts it: on this short input the hand-computed unscaled
// trellis (raw products, no layer division) picks cold-hot-cold as
// well.
#[test]
fn rescaling_agrees_with_unscaled_argmax() {
    let model = HMM::hmm_ice();
    // Unscaled: layer0 = [0.20, 0.25]; layer1 best = [0.05, 0.0];
    // layer2 best = [0.006, 0.012]: path [1, 0, 1].
    let d = model.viterbi(&[1, 2, 0], opts()).unwrap();
    assert_eq!(d.path, vec![1usize, 0, 1]);
}

#[test]
fn trellis_item_starts_empty() {
    let cell = hmm_tagger::viterbi::TrellisItem::new();
    assert_eq!(cell.max_prob, 0);
    assert_eq!(cell.cum_prob, 0);
    assert_eq!(cell.max_path, 0);
}

#[test]
fn likelihood_only_when_asked() {
    let model = HMM::hmm_ice();
    assert_eq!(model.viterbi(&[1, 2], opts()).unwrap().likelihood, None);
    assert!(model
        .viterbi(&[1, 2], DecodeOptions { track_likelihood: true })
        .unwrap()
        .likelihood
        .is_some());
}
