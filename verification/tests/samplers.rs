use dp_noise::compare::{comp_exp_bit, decide_words, extend_bit_decision, BitDecision, Diff};
use dp_noise::params::{SamplerError, Scale, MIN_PRECISION};
use dp_noise::samplers::{
    assemble_laplace, double_uniform_significand, fixed_point_laplace, fixed_point_laplace_batch,
    fp_laplace_bit_biases, sample_exact_exponential_bit,
};

#[test]
fn comp_exp_bit_decides_far_draws() {
    assert_eq!(comp_exp_bit(100, 5), BitDecision::Decided(1));
    assert_eq!(comp_exp_bit(100, 200), BitDecision::Decided(0));
    assert_eq!(comp_exp_bit(u64::MAX, 0), BitDecision::Decided(1));
    assert_eq!(comp_exp_bit(0, u64::MAX), BitDecision::Decided(0));
}

#[test]
fn comp_exp_bit_escalates_near_draws() {
    assert_eq!(
        comp_exp_bit(100, 99),
        BitDecision::NeedMorePrecision(Diff::Below)
    );
    assert_eq!(
        comp_exp_bit(100, 100),
        BitDecision::NeedMorePrecision(Diff::Even)
    );
    assert_eq!(
        comp_exp_bit(100, 101),
        BitDecision::NeedMorePrecision(Diff::Above)
    );
}

#[test]
fn extend_bit_decision_even_behaves_like_first_round() {
    assert_eq!(extend_bit_decision(Diff::Even, 5, 100), BitDecision::Decided(1));
    assert_eq!(extend_bit_decision(Diff::Even, 200, 100), BitDecision::Decided(0));
    assert_eq!(
        extend_bit_decision(Diff::Even, 100, 100),
        BitDecision::NeedMorePrecision(Diff::Even)
    );
}

#[test]
fn extend_bit_decision_above_stays_open_only_on_extreme_words() {
    assert_eq!(
        extend_bit_decision(Diff::Above, 0, u64::MAX),
        BitDecision::NeedMorePrecision(Diff::Above)
    );
    assert_eq!(extend_bit_decision(Diff::Above, 0, u64::MAX - 1), BitDecision::Decided(0));
    assert_eq!(extend_bit_decision(Diff::Above, 1, u64::MAX), BitDecision::Decided(0));
    assert_eq!(extend_bit_decision(Diff::Above, 7, 3), BitDecision::Decided(0));
}

#[test]
fn extend_bit_decision_below_stays_open_only_on_extreme_words() {
    assert_eq!(
        extend_bit_decision(Diff::Below, u64::MAX, 0),
        BitDecision::NeedMorePrecision(Diff::Below)
    );
    assert_eq!(extend_bit_decision(Diff::Below, u64::MAX - 1, 0), BitDecision::Decided(1));
    assert_eq!(extend_bit_decision(Diff::Below, u64::MAX, 1), BitDecision::Decided(1));
    assert_eq!(extend_bit_decision(Diff::Below, 3, 7), BitDecision::Decided(1));
}

#[test]
fn assemble_laplace_merges_sign_and_magnitude() {
    assert_eq!(assemble_laplace(1, 5), 5);
    assert_eq!(assemble_laplace(0, 5), -6);
    assert_eq!(assemble_laplace(1, 0), 0);
    assert_eq!(assemble_laplace(0, 0), -1);
    assert_eq!(assemble_laplace(1, (1u64 << 63) - 1), i64::MAX);
    assert_eq!(assemble_laplace(0, (1u64 << 63) - 1), i64::MIN);
}

#[test]
fn double_uniform_significand_sets_implicit_bit() {
    assert_eq!(double_uniform_significand(0), 1u64 << 52);
    assert_eq!(double_uniform_significand(u64::MAX), (1u64 << 53) - 1);
    let r = double_uniform_significand(0x1234_5678_9abc_def0);
    assert_eq!(r, (0x1234_5678_9abc_def0u64 >> 11) | (1u64 << 52));
    assert!(r >= (1u64 << 52) && r < (1u64 << 53));
}

#[test]
fn scale_rejects_zero_mantissa() {
    assert_eq!(Scale::new(0, 3), Err(SamplerError::InvalidScale));
    let s = Scale::new(1, 0).unwrap();
    assert_eq!(s.mant, 1);
    assert_eq!(s.exp2, 0);
}

#[test]
fn bias_table_rejects_low_precision() {
    let s = Scale::new(1, 0).unwrap();
    assert!(matches!(
        fp_laplace_bit_biases(&s, MIN_PRECISION - 1),
        Err(SamplerError::InvalidPrecision)
    ));
    let t = fp_laplace_bit_biases(&s, 10).unwrap();
    assert_eq!(t.words.len(), 64);
    assert_eq!(t.precision, 10);
}

#[test]
fn bias_table_for_unit_scale_matches_closed_form() {
    let s = Scale::new(1, 0).unwrap();
    let t = fp_laplace_bit_biases(&s, 10).unwrap();
    let two64 = 18446744073709551616.0f64;
    // Sign bit: 1 / (1 + exp(-2^-10)).
    let p = 1.0 / (1.0 + (-(0.5f64.powi(10))).exp());
    assert!((t.words[0] as f64 / two64 - p).abs() < 1e-9);
    // Highest-weight magnitude bit: 1 / (1 + exp(2^52)) vanishes.
    assert_eq!(t.words[1], 0);
    // Lowest-weight magnitude bit: 1 / (1 + exp(2^-10)).
    let q = 1.0 / (1.0 + 0.5f64.powi(10).exp());
    assert!((t.words[63] as f64 / two64 - q).abs() < 1e-9);
}

#[test]
fn batch_reports_errors_before_sampling() {
    let s = Scale::new(3, -2).unwrap();
    assert!(matches!(
        fixed_point_laplace_batch(&s, 10, MIN_PRECISION - 1),
        Err(SamplerError::InvalidPrecision)
    ));
    let v = fixed_point_laplace_batch(&s, 17, 4).unwrap();
    assert_eq!(v.len(), 17);
    let empty = fixed_point_laplace_batch(&s, 0, 4).unwrap();
    assert!(empty.is_empty());
}

// The concrete large-sample scenario: scale 1.0, precision 10, many draws.
// The sample set must match the discretized Laplace law: mean near zero,
// variance near 2 * scale^2, median magnitude near scale * ln 2, and the
// sign split at 1 / (1 + exp(-2^-10)).
#[test]
fn fixed_point_laplace_matches_discretized_laplace_statistics() {
    let s = Scale::new(1, 0).unwrap();
    let samples = fixed_point_laplace_batch(&s, 100_000, 10).unwrap();
    let n = samples.len() as f64;
    let grid = 0.5f64.powi(10);

    let mean: f64 = samples.iter().map(|&v| v as f64 * grid).sum::<f64>() / n;
    assert!(mean.abs() < 0.025, "mean {mean}");

    let var: f64 = samples
        .iter()
        .map(|&v| {
            let x = v as f64 * grid - mean;
            x * x
        })
        .sum::<f64>()
        / n;
    assert!((1.8..2.2).contains(&var), "variance {var}");

    let mut mags: Vec<f64> = samples.iter().map(|&v| (v as f64 * grid).abs()).collect();
    mags.sort_by(|a, b| a.partial_cmp(b).unwrap());
    let median = mags[mags.len() / 2];
    assert!((0.60..0.79).contains(&median), "median magnitude {median}");

    let nonneg = samples.iter().filter(|&&v| v >= 0).count();
    assert!((49200..50900).contains(&nonneg), "nonnegative count {nonneg}");

    // Two-sided exponential decay: each extra unit of magnitude thins the
    // tail by a factor of e.
    let beyond_one = samples.iter().filter(|&&v| v.unsigned_abs() > 1024).count() as f64;
    let beyond_two = samples.iter().filter(|&&v| v.unsigned_abs() > 2048).count() as f64;
    let ratio = beyond_one / beyond_two;
    assert!((ratio - std::f64::consts::E).abs() < 0.15, "tail ratio {ratio}");
}

// The full-width comparison that decides one escalation round, on exact
// word vectors.
#[test]
fn decide_words_classifies_multiword_differences() {
    // Values 2^64 and 2^64 - 1: a difference of exactly one.
    assert_eq!(
        decide_words(&vec![1, 0], &vec![0, u64::MAX]),
        BitDecision::NeedMorePrecision(Diff::Above)
    );
    assert_eq!(
        decide_words(&vec![0, u64::MAX], &vec![1, 0]),
        BitDecision::NeedMorePrecision(Diff::Below)
    );
    assert_eq!(
        decide_words(&vec![7, 9], &vec![7, 9]),
        BitDecision::NeedMorePrecision(Diff::Even)
    );
    // A difference of 2^64 + 3 decides the bit at the first word.
    assert_eq!(decide_words(&vec![1, 5], &vec![0, 2]), BitDecision::Decided(0));
    assert_eq!(decide_words(&vec![0, 2], &vec![1, 5]), BitDecision::Decided(1));
    // The leading words agree; the trailing words decide.
    assert_eq!(decide_words(&vec![4, 10], &vec![4, 2]), BitDecision::Decided(0));
    assert_eq!(decide_words(&vec![4, 2], &vec![4, 10]), BitDecision::Decided(1));
}

// The escalation path, entered deliberately: a first draw equal to the
// table's bias word is undecided, and the exact bit must come up one with
// probability given by the second bias word.
#[test]
fn sample_exact_bit_frequency_matches_second_bias_word() {
    let s = Scale::new(1, 0).unwrap();
    let first = dp_noise::bias::exponential_bias(false, &s, 0, 1)[0];
    let words = dp_noise::bias::exponential_bias(false, &s, 0, 2);
    let expected = words[1] as f64 / 18446744073709551616.0f64;
    let trials = 20_000;
    let mut ones = 0usize;
    for _ in 0..trials {
        if sample_exact_exponential_bit(false, &s, 0, first).0.unwrap() == 1 {
            ones += 1;
        }
    }
    let freq = ones as f64 / trials as f64;
    assert!((freq - expected).abs() < 0.02, "freq {freq} expected {expected}");
}

#[test]
fn fixed_point_laplace_single_draw_uses_table() {
    let s = Scale::new(1, 0).unwrap();
    let t = fp_laplace_bit_biases(&s, 10).unwrap();
    for _ in 0..100 {
        let (v, _, _) = fixed_point_laplace(&t);
        let v = v.unwrap();
        // With scale 1 at precision 10 a sample beyond 40 real units has
        // probability below 1e-17 per draw.
        assert!(v.unsigned_abs() < 40 * 1024, "sample {v}");
    }
}
