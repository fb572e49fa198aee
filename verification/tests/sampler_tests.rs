use hmm_tagger::hmm::HMM;
use hmm_tagger::sampler::vector_sample;
use rand::SeedableRng;

#[test]
fn vector_sample_walks_the_cumulative_distribution() {
    let probs: Vec<u64> = vec![200_000, 300_000, 500_000];
    assert_eq!(vector_sample(&probs, 0), Some(0));
    assert_eq!(vector_sample(&probs, 199_999), Some(0));
    assert_eq!(vector_sample(&probs, 200_000), Some(1));
    assert_eq!(vector_sample(&probs, 499_999), Some(1));
    assert_eq!(vector_sample(&probs, 500_000), Some(2));
    assert_eq!(vector_sample(&probs, 999_999), Some(2));
}

#[test]
fn vector_sample_skips_zero_mass() {
    let probs: Vec<u64> = vec![0, 0, 1_000_000];
    assert_eq!(vector_sample(&probs, 0), Some(2));
    assert_eq!(vector_sample(&probs, 999_999), Some(2));
}

#[test]
fn vector_sample_runs_out_of_mass() {
    let zero: Vec<u64> = vec![0, 0];
    assert_eq!(vector_sample(&zero, 0), None);
    let deficit: Vec<u64> = vec![100_000];
    assert_eq!(vector_sample(&deficit, 100_000), None);
}

// Whatever the random source draws, the trajectory only visits pairs
// the model gives positive probability: the cold state never emits
// symbol 2 in the weather model.
#[test]
fn traverse_respects_the_model_support() {
    let mut model = HMM::hmm_ice();
    for seed in 0..20u64 {
        let mut rng = rand::rngs::StdRng::seed_from_u64(seed);
        let tr = model.traverse(&mut rng, 25).unwrap();
        assert_eq!(tr.len(), 25);
        for (s, e) in tr.iter() {
            assert!(*s < 2);
            assert!(*e < 3);
            assert!(!(*s == 1 && *e == 2));
        }
    }
}

#[test]
fn traverse_is_reproducible_with_one_seed() {
    let mut m1 = HMM::hmm_ice();
    let mut m2 = HMM::hmm_ice();
    let mut r1 = rand::rngs::StdRng::seed_from_u64(42);
    let mut r2 = rand::rngs::StdRng::seed_from_u64(42);
    assert_eq!(m1.traverse(&mut r1, 10).unwrap(), m2.traverse(&mut r2, 10).unwrap());
}

// Every row of the weather model sums to exactly one, so whatever the
// seed draws, a trajectory is guaranteed.
#[test]
fn traverse_succeeds_on_a_fully_massed_model() {
    let mut model = HMM::hmm_ice();
    for seed in 0..50u64 {
        let mut rng = rand::rngs::StdRng::seed_from_u64(seed);
        assert!(model.traverse(&mut rng, 8).is_some());
    }
}

#[test]
fn traverse_fails_on_a_massless_model() {
    // All-zero tables: the very first draw falls beyond the start row.
    let mut model = HMM::zeroes(2, 2);
    let mut rng = rand::rngs::StdRng::seed_from_u64(1);
    assert_eq!(model.traverse(&mut rng, 3), None);
}
