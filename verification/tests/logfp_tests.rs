use arbitrage::logfp::{exp10_fp, neg_log10_fp, WEIGHT_MAX};

const SCALE: u64 = 100_000_000;

#[test]
fn weights_of_powers_of_ten_are_exact() {
    assert_eq!(neg_log10_fp(SCALE), 0);
    assert_eq!(neg_log10_fp(10 * SCALE), -(SCALE as i64));
    assert_eq!(neg_log10_fp(SCALE / 10), SCALE as i64);
    assert_eq!(neg_log10_fp(100 * SCALE), -2 * SCALE as i64);
}

#[test]
fn weights_are_bounded_and_antitone_on_samples() {
    let samples: Vec<u64> = vec![1, 10, 12345, SCALE / 7, SCALE, 3 * SCALE, 25000 * SCALE, u64::MAX];
    let mut last = i64::MAX;
    for &r in &samples {
        let w = neg_log10_fp(r);
        assert!(-WEIGHT_MAX <= w && w <= WEIGHT_MAX);
        assert!(w <= last, "weight must not grow with the rate");
        last = w;
    }
}

#[test]
fn weights_match_the_float_logarithm_closely() {
    for &r in &[90_000_000u64, 121_000_000, 75_000_000, 133_000_000, 119_700_000] {
        let w = neg_log10_fp(r);
        let expected = -((r as f64 / SCALE as f64).log10()) * SCALE as f64;
        assert!((w as f64 - expected).abs() < 100.0, "rate {}: {} vs {}", r, w, expected);
    }
}

#[test]
fn exponential_inverts_the_logarithm() {
    assert_eq!(exp10_fp(0), Some(SCALE));
    assert_eq!(exp10_fp(SCALE as i64), Some(10 * SCALE));
    assert_eq!(exp10_fp(-(SCALE as i64)), Some(SCALE / 10));
    for &r in &[50_000_000u64, SCALE, 2 * SCALE, 25000 * SCALE] {
        let w = neg_log10_fp(r);
        let back = exp10_fp(-w).unwrap();
        let err = back as i64 - r as i64;
        assert!(err.abs() <= (r / 1_000_000 + 2) as i64, "rate {} came back as {}", r, back);
    }
}
