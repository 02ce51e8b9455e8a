use maze_core::params::{
    pattern_from_draw, strategy_from_draw, DEFAULT_AMOUNT_NOISE, DEFAULT_HOPS, MAX_HOPS, MIN_HOPS,
};
use maze_core::{DelayPattern, MazeError, MazeParameters, MergeStrategy};

#[test]
fn test_default_params() {
    let params = MazeParameters::default();
    assert_eq!(params.hop_count, DEFAULT_HOPS);
    assert_eq!(params.split_ratio as f64 / 1000.0, 1.618);
    assert_eq!(params.tx_fee, 5_000);
    assert!(params.pool_address.is_none());
    assert!(params.pool_signing_material.is_none());
}

#[test]
fn test_random_params() {
    let a = MazeParameters::random();
    let b = MazeParameters::random();
    assert_ne!(a.seed, b.seed, "random params should have different seeds");
}

#[test]
fn test_validate_valid() {
    let params = MazeParameters::default();
    assert!(params.validate().is_ok());
}

#[test]
fn test_validate_hop_count_too_low() {
    let mut params = MazeParameters::default();
    params.hop_count = 2;
    assert!(params.validate().is_err());
}

#[test]
fn test_validate_hop_count_too_high() {
    let mut params = MazeParameters::default();
    params.hop_count = 20;
    assert!(params.validate().is_err());
}

#[test]
fn test_validate_split_ratio_out_of_range() {
    let mut params = MazeParameters::default();
    params.split_ratio = (0.5 * 1000.0) as u32;
    assert!(params.validate().is_err());
}

#[test]
fn test_validate_zero_tx_fee() {
    let mut params = MazeParameters::default();
    params.tx_fee = 0;
    assert!(params.validate().is_err());
}

fn invalid_text(params: &MazeParameters) -> String {
    match params.validate() {
        Err(MazeError::InvalidParameters(m)) => m,
        other => panic!("expected invalid parameters, got {:?}", other),
    }
}

#[test]
fn validate_messages() {
    let mut params = MazeParameters::default();
    params.hop_count = 2;
    assert_eq!(invalid_text(&params), "hop_count must be between 5 and 10, got 2");
    params.hop_count = 20;
    assert_eq!(invalid_text(&params), "hop_count must be between 5 and 10, got 20");
    params.hop_count = 7;
    params.split_ratio = 500;
    assert_eq!(invalid_text(&params), "split_ratio must be between 1.1 and 3.0, got 0.5");
    params.split_ratio = 3250;
    assert_eq!(invalid_text(&params), "split_ratio must be between 1.1 and 3.0, got 3.25");
    params.split_ratio = 4000;
    assert_eq!(invalid_text(&params), "split_ratio must be between 1.1 and 3.0, got 4");
    params.split_ratio = 1618;
    params.amount_noise = 150;
    assert_eq!(invalid_text(&params), "amount_noise must be between 0.0 and 1.0, got 1.5");
    params.amount_noise = 105;
    assert_eq!(invalid_text(&params), "amount_noise must be between 0.0 and 1.0, got 1.05");
    params.amount_noise = DEFAULT_AMOUNT_NOISE;
    params.tx_fee = 0;
    assert_eq!(invalid_text(&params), "tx_fee must be greater than 0");
}

#[test]
fn validate_bounds_are_inclusive() {
    let mut params = MazeParameters::default();
    params.hop_count = MIN_HOPS;
    params.split_ratio = 1100;
    params.amount_noise = 100;
    assert!(params.validate().is_ok());
    params.hop_count = MAX_HOPS;
    params.split_ratio = 3000;
    params.amount_noise = 0;
    assert!(params.validate().is_ok());
    params.split_ratio = 1099;
    assert!(params.validate().is_err());
}

#[test]
fn random_params_in_range() {
    for _ in 0..50 {
        let p = MazeParameters::random();
        assert!(p.fib_offset < 100);
        assert!(p.split_ratio >= 1100 && p.split_ratio < 3000);
        assert!(p.validate().is_ok());
    }
}

#[test]
fn draws_pick_strategy_and_pattern() {
    assert_eq!(strategy_from_draw(0), MergeStrategy::Early);
    assert_eq!(strategy_from_draw(6), MergeStrategy::Late);
    assert_eq!(strategy_from_draw(12), MergeStrategy::Middle);
    assert_eq!(strategy_from_draw(3), MergeStrategy::Fibonacci);
    assert_eq!(strategy_from_draw(4), MergeStrategy::Random);
    assert_eq!(pattern_from_draw(5), DelayPattern::NoDelay);
    assert_eq!(pattern_from_draw(1), DelayPattern::Linear);
    assert_eq!(pattern_from_draw(2), DelayPattern::Exponential);
    assert_eq!(pattern_from_draw(3), DelayPattern::Fibonacci);
    assert_eq!(pattern_from_draw(253), DelayPattern::Fibonacci);
    assert_eq!(pattern_from_draw(9), DelayPattern::Random);
}

#[test]
fn parameters_follow_their_draws() {
    let p = maze_core::params::random_from_draws([9u8; 32], 250, 12_345, 7, 3);
    assert_eq!(p.seed, [9u8; 32]);
    assert_eq!(p.fib_offset, 50);
    assert_eq!(p.split_ratio, 1100 + 12_345 % 1900);
    assert_eq!(p.merge_strategy, MergeStrategy::Middle);
    assert_eq!(p.delay_pattern, DelayPattern::Fibonacci);
    assert_eq!(p.hop_count, DEFAULT_HOPS);
    assert_eq!(p.amount_noise, DEFAULT_AMOUNT_NOISE);
    assert_eq!(p.tx_fee, 5_000);
    assert!(p.pool_address.is_none());
    let d = maze_core::params::default_from_draws([4u8; 32], 199);
    assert_eq!(d.seed, [4u8; 32]);
    assert_eq!(d.fib_offset, 99);
    assert_eq!(d.split_ratio, 1618);
    assert_eq!(d.merge_strategy, MergeStrategy::Random);
}
