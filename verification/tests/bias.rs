use dp_noise::bias::exponential_bias;
use dp_noise::params::Scale;

const TWO64: f64 = 18446744073709551616.0;

#[test]
fn bias_matches_closed_form_at_unit_argument() {
    // scale = 1, pow2 = 0: bias = 1 / (1 + e).
    let s = Scale::new(1, 0).unwrap();
    let w = exponential_bias(false, &s, 0, 1);
    assert_eq!(w.len(), 1);
    let b = w[0] as f64 / TWO64;
    assert!((b - 0.2689414213699951).abs() < 1e-9, "bias {b}");
}

#[test]
fn bias_complement_form_at_unit_argument() {
    // Negated scale: bias = 1 / (1 + exp(-1)).
    let s = Scale::new(1, 0).unwrap();
    let w = exponential_bias(true, &s, 0, 1);
    let b = w[0] as f64 / TWO64;
    assert!((b - 0.7310585786300049).abs() < 1e-9, "bias {b}");
}

#[test]
fn bias_respects_scale_representation() {
    // scale = 3 * 2^-2 = 0.75, pow2 = 1: bias = 1 / (1 + exp(2 / 0.75)).
    let s = Scale::new(3, -2).unwrap();
    let w = exponential_bias(false, &s, 1, 1);
    let b = w[0] as f64 / TWO64;
    let expect = 1.0 / (1.0 + (2.0f64 / 0.75).exp());
    assert!((b - expect).abs() < 1e-9, "bias {b} expected {expect}");
}

#[test]
fn bias_vanishes_for_huge_positive_argument() {
    let s = Scale::new(1, 0).unwrap();
    let w = exponential_bias(false, &s, 120, 2);
    assert_eq!(w, [0, 0]);
}

#[test]
fn bias_saturates_for_huge_negative_argument() {
    let s = Scale::new(1, 0).unwrap();
    let w = exponential_bias(true, &s, 120, 2);
    assert_eq!(w, [u64::MAX, u64::MAX]);
}

// Monotonic refinement: the bias computed at 64k bits must match the first
// 64k bits of the bias computed at 64(k+1) bits, for k = 1, 2, 3.
#[test]
fn bias_refines_monotonically() {
    let s = Scale::new(1, 0).unwrap();
    for pow2 in [-10, -1, 0, 3] {
        for k in 1usize..=3 {
            let shorter = exponential_bias(false, &s, pow2, k);
            let longer = exponential_bias(false, &s, pow2, k + 1);
            assert_eq!(&longer[..k], &shorter[..], "pow2 {pow2} k {k}");
            let shorter_n = exponential_bias(true, &s, pow2, k);
            let longer_n = exponential_bias(true, &s, pow2, k + 1);
            assert_eq!(&longer_n[..k], &shorter_n[..], "neg pow2 {pow2} k {k}");
        }
    }
}

#[test]
fn bias_tiny_argument_approaches_one_half() {
    // pow2 far below the scale: exp argument near zero, bias near 1/2.
    let s = Scale::new(1, 0).unwrap();
    let w = exponential_bias(false, &s, -400, 1);
    let b = w[0] as f64 / TWO64;
    assert!((b - 0.5).abs() < 1e-9, "bias {b}");
}
