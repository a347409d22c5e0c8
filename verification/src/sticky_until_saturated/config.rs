//! Configuration of token-aware cache affinity.
use vstd::prelude::*;

use crate::ieee::{Real64, ONE};

verus! {

/// The bit pattern of 0.8.
pub const DEFAULT_AFFINITY_THRESHOLD: u64 = 0x3fe9_9999_9999_999a;

/// The bit pattern of 15928.
pub const DEFAULT_PEAK_PREFILL_TOKENS_PER_SECOND: u64 = 0x40cf_1c00_0000_0000;

pub const DEFAULT_MAX_TTFT_PENALTY_MS: u64 = 18_000;

#[derive(Debug, Clone, Copy, PartialEq, Eq)]
pub enum ConfigError {
    Invalid(&'static str),
}

/// Parameters for the sticky-until-saturated worker-selection policy.
///
/// `peak_prefill_tokens_per_second * max_ttft_penalty_ms / 1000` is the affinity-break margin, in
/// tokens. The host computes it.
#[derive(Debug, Clone, Copy, PartialEq, Eq, Structural)]
pub struct StickyUntilSaturatedConfig {
    pub affinity_threshold: Real64,
    pub peak_prefill_tokens_per_second: Real64,
    pub max_ttft_penalty_ms: u64,
}

impl Default for StickyUntilSaturatedConfig {
    fn default() -> (config: Self)
        ensures
            config.affinity_threshold.bits == DEFAULT_AFFINITY_THRESHOLD,
            config.peak_prefill_tokens_per_second.bits == DEFAULT_PEAK_PREFILL_TOKENS_PER_SECOND,
            config.max_ttft_penalty_ms == DEFAULT_MAX_TTFT_PENALTY_MS,
            config.affinity_threshold.bits == 0x3fe9_9999_9999_999a,
            config.peak_prefill_tokens_per_second.bits == 0x40cf_1c00_0000_0000,
            config.max_ttft_penalty_ms == 18_000,
    {
        StickyUntilSaturatedConfig {
            affinity_threshold: Real64 { bits: DEFAULT_AFFINITY_THRESHOLD },
            peak_prefill_tokens_per_second: Real64 {
                bits: DEFAULT_PEAK_PREFILL_TOKENS_PER_SECOND,
            },
            max_ttft_penalty_ms: DEFAULT_MAX_TTFT_PENALTY_MS,
        }
    }
}

/// Whether a value is in [0, 1].
pub open spec fn is_fraction(value: Real64) -> bool {
    !value.nan() && 0 <= value.rank() <= (Real64 { bits: ONE }).rank()
}

/// Whether a value is finite and in [0, 1].
pub fn check_fraction(value: &Real64) -> (inside: bool)
    ensures
        inside == is_fraction(*value),
{
    let zero: Real64 = Real64 { bits: 0 };
    let one: Real64 = Real64 { bits: ONE };
    value.is_finite() && zero.le(value) && value.le(&one)
}

impl StickyUntilSaturatedConfig {
    /// What is wrong with the parameters, given the margin that they amount to.
    pub open spec fn problem(self, saturation_tokens: Real64) -> Option<Seq<char>> {
        if !is_fraction(self.affinity_threshold) {
            Some("affinity_threshold must be finite and in [0, 1]"@)
        } else if !(self.peak_prefill_tokens_per_second.finite()
            && self.peak_prefill_tokens_per_second.rank() > 0) {
            Some("peak_prefill_tokens_per_second must be finite and positive"@)
        } else if !saturation_tokens.finite() {
            Some("peak_prefill_tokens_per_second * max_ttft_penalty_ms must be finite"@)
        } else {
            None
        }
    }

    /// Check the parameters and the margin in tokens that they amount to.
    pub fn validate(&self, saturation_tokens: Real64) -> (checked: Result<(), ConfigError>)
        ensures
            self.problem(saturation_tokens) == (match checked {
                Ok(()) => None,
                Err(ConfigError::Invalid(reason)) => Some(reason@),
            }),
    {
        let zero: Real64 = Real64 { bits: 0 };
        if !check_fraction(&self.affinity_threshold) {
            return Err(ConfigError::Invalid("affinity_threshold must be finite and in [0, 1]"));
        }
        if !self.peak_prefill_tokens_per_second.is_finite()
            || self.peak_prefill_tokens_per_second.le(&zero) {
            return Err(
                ConfigError::Invalid("peak_prefill_tokens_per_second must be finite and positive"),
            );
        }
        if !saturation_tokens.is_finite() {
            return Err(
                ConfigError::Invalid(
                    "peak_prefill_tokens_per_second * max_ttft_penalty_ms must be finite",
                ),
            );
        }
        Ok(())
    }
}

} // verus!
