//! Maze routing parameters.
//!
//! Defines the configuration for maze topology generation. All parameters
//! are chain-agnostic. Chain-specific defaults (e.g. transaction fee
//! amounts) are set by adapter crates.
//!
//! Fractional parameters are held in fixed point: the split ratio in
//! thousandths (1618 stands for 1.618) and the amount noise in hundredths of
//! a percent (50 stands for 0.5%).

use vstd::prelude::*;
use crate::error::MazeError;
use crate::rng::{random_byte, random_bytes32, random_word};
use crate::text::{decimal, fixed_point, push_decimal, push_fixed_point};

verus! {

/// Default hop count
pub const DEFAULT_HOPS: u8 = 7;

/// Minimum hops in maze
pub const MIN_HOPS: u8 = 5;

/// Maximum hops in maze
pub const MAX_HOPS: u8 = 10;

/// Default amount noise, in hundredths of a percent (0.5%)
pub const DEFAULT_AMOUNT_NOISE: u32 = 50;

/// Default base delay in milliseconds
pub const DEFAULT_DELAY_MS: u64 = 500;

/// Default split ratio, in thousandths (1.618)
pub const DEFAULT_SPLIT_RATIO: u32 = 1618;

/// Default transaction fee in base units
pub const DEFAULT_TX_FEE: u64 = 5_000;

/// Strategy for when to merge nodes in the maze topology.
#[derive(Debug, Clone, Copy, PartialEq, Eq, Structural)]
pub enum MergeStrategy {
    /// Merge in first half of hops, split in second half
    Early,
    /// Split in first half of hops, merge in second half
    Late,
    /// Split at edges, merge in middle
    Middle,
    /// Deterministic random based on seed
    Random,
    /// Based on fibonacci sequence parity
    Fibonacci,
}

/// Pattern for delays between transactions.
#[derive(Debug, Clone, Copy, PartialEq, Eq, Structural)]
pub enum DelayPattern {
    /// No delay
    NoDelay,
    /// Linear increase
    Linear,
    /// Exponential increase
    Exponential,
    /// Deterministic random delays
    Random,
    /// Fibonacci-based delays
    Fibonacci,
}

/// Scope of delay application.
#[derive(Debug, Clone, Copy, PartialEq, Eq, Structural)]
pub enum DelayScope {
    /// Apply delay per node
    Node,
    /// Apply delay per level
    Level,
}

/// Maze generation parameters
#[derive(Debug, Clone)]
pub struct MazeParameters {
    /// Random seed for deterministic generation (256-bit)
    pub seed: [u8; 32],
    /// Fibonacci offset for path variation (0-100)
    pub fib_offset: u8,
    /// Split ratio based on golden ratio variant, in thousandths (1100-3000)
    pub split_ratio: u32,
    /// Total number of hops/levels in maze
    pub hop_count: u8,
    /// Merge strategy
    pub merge_strategy: MergeStrategy,
    /// Delay pattern between transactions
    pub delay_pattern: DelayPattern,
    /// Amount variation in hundredths of a percent (0-100, i.e. 0% - 1%)
    pub amount_noise: u32,
    /// Base delay in milliseconds (0-5000)
    pub delay_ms: u64,
    /// Delay scope: per node or per level
    pub delay_scope: DelayScope,
    /// Transaction fee per TX in base units (e.g. lamports for Solana)
    pub tx_fee: u64,
    /// Pool address for privacy relay (optional)
    pub pool_address: Option<String>,
    /// Pool signing material bytes (optional)
    pub pool_signing_material: Option<Vec<u8>>,
}

/// The merge strategy drawn from a random byte.
pub open spec fn strategy_of_draw(b: u8) -> MergeStrategy {
    if b % 5 == 0 {
        MergeStrategy::Early
    } else if b % 5 == 1 {
        MergeStrategy::Late
    } else if b % 5 == 2 {
        MergeStrategy::Middle
    } else if b % 5 == 3 {
        MergeStrategy::Fibonacci
    } else {
        MergeStrategy::Random
    }
}

/// The delay pattern drawn from a random byte.
pub open spec fn pattern_of_draw(b: u8) -> DelayPattern {
    if b % 5 == 0 {
        DelayPattern::NoDelay
    } else if b % 5 == 1 {
        DelayPattern::Linear
    } else if b % 5 == 2 {
        DelayPattern::Exponential
    } else if b % 5 == 3 {
        DelayPattern::Fibonacci
    } else {
        DelayPattern::Random
    }
}

/// Merge strategy drawn from a random byte: its value modulo 5 picks
/// Early, Late, Middle, Fibonacci, Random in that order.
pub fn strategy_from_draw(b: u8) -> (r: MergeStrategy)
    ensures
        r == strategy_of_draw(b),
{
    match b % 5 {
        0 => MergeStrategy::Early,
        1 => MergeStrategy::Late,
        2 => MergeStrategy::Middle,
        3 => MergeStrategy::Fibonacci,
        _ => MergeStrategy::Random,
    }
}

/// Delay pattern drawn from a random byte: its value modulo 5 picks
/// None, Linear, Exponential, Fibonacci, Random in that order.
pub fn pattern_from_draw(b: u8) -> (r: DelayPattern)
    ensures
        r == pattern_of_draw(b),
{
    match b % 5 {
        0 => DelayPattern::NoDelay,
        1 => DelayPattern::Linear,
        2 => DelayPattern::Exponential,
        3 => DelayPattern::Fibonacci,
        _ => DelayPattern::Random,
    }
}

/// The settings that `MazeParameters::default` fixes; the seed and the
/// Fibonacci offset are drawn at random.
pub open spec fn has_default_settings(p: MazeParameters) -> bool {
    &&& p.fib_offset < 100
    &&& p.split_ratio == DEFAULT_SPLIT_RATIO
    &&& p.hop_count == DEFAULT_HOPS
    &&& p.merge_strategy == MergeStrategy::Random
    &&& p.delay_pattern == DelayPattern::Random
    &&& p.amount_noise == DEFAULT_AMOUNT_NOISE
    &&& p.delay_ms == DEFAULT_DELAY_MS
    &&& p.delay_scope == DelayScope::Node
    &&& p.tx_fee == DEFAULT_TX_FEE
    &&& p.pool_address is None
    &&& p.pool_signing_material is None
}

/// The Fibonacci offset drawn from a random byte: the byte modulo 100.
pub open spec fn offset_of_draw(b: u8) -> u8 {
    b % 100
}

/// The split ratio drawn from a random word, in thousandths: 1.100 plus
/// the word modulo 1900 thousandths (1.100 to 2.999).
pub open spec fn ratio_of_draw(w: u32) -> u32 {
    (1100 + w % 1900) as u32
}

/// The default parameters for a drawn seed and a drawn byte: the seed as
/// drawn, the Fibonacci offset the byte modulo 100, the rest the defaults.
pub fn default_from_draws(seed: [u8; 32], offset_draw: u8) -> (r: MazeParameters)
    ensures
        has_default_settings(r),
        r.seed == seed,
        r.fib_offset == offset_of_draw(offset_draw),
{
    MazeParameters {
        seed,
        fib_offset: offset_draw % 100,
        split_ratio: DEFAULT_SPLIT_RATIO,
        hop_count: DEFAULT_HOPS,
        merge_strategy: MergeStrategy::Random,
        delay_pattern: DelayPattern::Random,
        amount_noise: DEFAULT_AMOUNT_NOISE,
        delay_ms: DEFAULT_DELAY_MS,
        delay_scope: DelayScope::Node,
        tx_fee: DEFAULT_TX_FEE,
        pool_address: None,
        pool_signing_material: None,
    }
}

impl Default for MazeParameters {
    /// Default parameters with a random seed and Fibonacci offset.
    fn default() -> (r: Self)
        ensures
            has_default_settings(r),
    {
        let seed = random_bytes32();
        let offset_draw = random_byte();
        default_from_draws(seed, offset_draw)
    }
}

/// Why parameters are rejected: the text of the first check that fails,
/// in the order hop count, split ratio, amount noise, transaction fee.
pub open spec fn spec_validation_error(p: MazeParameters) -> Option<Seq<char>> {
    if p.hop_count < MIN_HOPS || p.hop_count > MAX_HOPS {
        Some(
            "hop_count must be between "@ + decimal(MIN_HOPS as nat) + " and "@ + decimal(
                MAX_HOPS as nat,
            ) + ", got "@ + decimal(p.hop_count as nat),
        )
    } else if p.split_ratio < 1100 || p.split_ratio > 3000 {
        Some(
            "split_ratio must be between 1.1 and 3.0, got "@ + fixed_point(p.split_ratio as nat, 3),
        )
    } else if p.amount_noise > 100 {
        Some(
            "amount_noise must be between 0.0 and 1.0, got "@ + fixed_point(
                p.amount_noise as nat,
                2,
            ),
        )
    } else if p.tx_fee == 0 {
        Some("tx_fee must be greater than 0"@)
    } else {
        None
    }
}

/// Randomized parameters from their draws: the seed as drawn, the
/// Fibonacci offset `offset_draw % 100`, the split ratio
/// `1.100 + (ratio_draw % 1900) / 1000`, merge strategy and delay pattern
/// picked by their bytes; the rest as in `default`.
pub fn random_from_draws(
    seed: [u8; 32],
    offset_draw: u8,
    ratio_draw: u32,
    strategy_draw: u8,
    pattern_draw: u8,
) -> (r: MazeParameters)
    ensures
        r.seed == seed,
        r.fib_offset == offset_of_draw(offset_draw),
        r.split_ratio == ratio_of_draw(ratio_draw),
        r.merge_strategy == strategy_of_draw(strategy_draw),
        r.delay_pattern == pattern_of_draw(pattern_draw),
        r.hop_count == DEFAULT_HOPS,
        r.amount_noise == DEFAULT_AMOUNT_NOISE,
        r.delay_ms == DEFAULT_DELAY_MS,
        r.delay_scope == DelayScope::Node,
        r.tx_fee == DEFAULT_TX_FEE,
        r.pool_address is None,
        r.pool_signing_material is None,
{
    let mut params = default_from_draws(seed, offset_draw);
    params.split_ratio = 1100 + ratio_draw % 1900;
    params.merge_strategy = strategy_from_draw(strategy_draw);
    params.delay_pattern = pattern_from_draw(pattern_draw);
    params
}

impl MazeParameters {
    /// Generate parameters with randomized values: seed, Fibonacci offset,
    /// split ratio (1.100 to 2.999), merge strategy and delay pattern, each
    /// from its own draw (see `random_from_draws`); the rest as in `default`.
    pub fn random() -> (r: Self)
        ensures
            exists|o: u8| r.fib_offset == #[trigger] offset_of_draw(o),
            exists|w: u32| r.split_ratio == #[trigger] ratio_of_draw(w),
            exists|m: u8| r.merge_strategy == #[trigger] strategy_of_draw(m),
            exists|d: u8| r.delay_pattern == #[trigger] pattern_of_draw(d),
            r.hop_count == DEFAULT_HOPS,
            r.amount_noise == DEFAULT_AMOUNT_NOISE,
            r.delay_ms == DEFAULT_DELAY_MS,
            r.delay_scope == DelayScope::Node,
            r.tx_fee == DEFAULT_TX_FEE,
            r.pool_address is None,
            r.pool_signing_material is None,
    {
        let seed = random_bytes32();
        let offset_draw = random_byte();
        let ratio_draw = random_word();
        let strategy_draw = random_byte();
        let pattern_draw = random_byte();
        random_from_draws(seed, offset_draw, ratio_draw, strategy_draw, pattern_draw)
    }

    /// Validate parameters are within acceptable ranges: hop count 5-10,
    /// split ratio 1.1-3.0, amount noise 0-1%, nonzero transaction fee.
    pub fn validate(&self) -> (r: Result<(), MazeError>)
        ensures
            match spec_validation_error(*self) {
                None => r is Ok,
                Some(text) => r matches Err(MazeError::InvalidParameters(m)) && m@ == text,
            },
    {
        if self.hop_count < MIN_HOPS || self.hop_count > MAX_HOPS {
            let mut m = String::from_str("hop_count must be between ");
            push_decimal(&mut m, MIN_HOPS as u64);
            m.append(" and ");
            push_decimal(&mut m, MAX_HOPS as u64);
            m.append(", got ");
            push_decimal(&mut m, self.hop_count as u64);
            return Err(MazeError::InvalidParameters(m));
        }
        if self.split_ratio < 1100 || self.split_ratio > 3000 {
            let mut m = String::from_str("split_ratio must be between 1.1 and 3.0, got ");
            push_fixed_point(&mut m, self.split_ratio as u64, 3);
            return Err(MazeError::InvalidParameters(m));
        }
        if self.amount_noise > 100 {
            let mut m = String::from_str("amount_noise must be between 0.0 and 1.0, got ");
            push_fixed_point(&mut m, self.amount_noise as u64, 2);
            return Err(MazeError::InvalidParameters(m));
        }
        if self.tx_fee == 0 {
            return Err(MazeError::InvalidParameters(String::from_str("tx_fee must be greater than 0")));
        }
        Ok(())
    }
}

} // verus!
