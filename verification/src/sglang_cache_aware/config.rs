//! Configuration of load-gated cache affinity.
use vstd::prelude::*;

use crate::ieee::{Real64, ONE};
use crate::sticky_until_saturated::config::{check_fraction, is_fraction};

verus! {

/// The bit pattern of 0.3.
pub const DEFAULT_CACHE_THRESHOLD: u64 = 0x3fd3_3333_3333_3333;

pub const DEFAULT_BALANCE_ABS_THRESHOLD: usize = 64;

/// The bit pattern of 1.5.
pub const DEFAULT_BALANCE_REL_THRESHOLD: u64 = 0x3ff8_0000_0000_0000;

#[derive(Debug, Clone, Copy, PartialEq, Eq)]
pub enum ConfigError {
    Invalid(&'static str),
}

/// Parameters for cache-aware load-gated worker selection.
#[derive(Debug, Clone, Copy, PartialEq, Eq, Structural)]
pub struct SglangCacheAwareConfig {
    /// Strict device-cache overlap fraction required to prefer cache affinity.
    pub cache_threshold: Real64,
    /// Strict active-request-count gap required for load balancing.
    pub balance_abs_threshold: usize,
    /// Strict active-request-count ratio required for load balancing.
    pub balance_rel_threshold: Real64,
}

impl Default for SglangCacheAwareConfig {
    fn default() -> (config: Self)
        ensures
            config.cache_threshold.bits == DEFAULT_CACHE_THRESHOLD,
            config.balance_abs_threshold == DEFAULT_BALANCE_ABS_THRESHOLD,
            config.balance_rel_threshold.bits == DEFAULT_BALANCE_REL_THRESHOLD,
            config.cache_threshold.bits == 0x3fd3_3333_3333_3333,
            config.balance_abs_threshold == 64,
            config.balance_rel_threshold.bits == 0x3ff8_0000_0000_0000,
    {
        SglangCacheAwareConfig {
            cache_threshold: Real64 { bits: DEFAULT_CACHE_THRESHOLD },
            balance_abs_threshold: DEFAULT_BALANCE_ABS_THRESHOLD,
            balance_rel_threshold: Real64 { bits: DEFAULT_BALANCE_REL_THRESHOLD },
        }
    }
}

impl SglangCacheAwareConfig {
    /// What is wrong with the parameters.
    pub open spec fn problem(self) -> Option<Seq<char>> {
        if !is_fraction(self.cache_threshold) {
            Some("cache_threshold must be finite and in [0, 1]"@)
        } else if !(self.balance_rel_threshold.finite() && self.balance_rel_threshold.rank() >= (
        Real64 { bits: ONE }).rank()) {
            Some("balance_rel_threshold must be finite and greater than or equal to 1"@)
        } else {
            None
        }
    }

    /// Check the parameters.
    pub fn validate(&self) -> (checked: Result<(), ConfigError>)
        ensures
            self.problem() == (match checked {
                Ok(()) => None,
                Err(ConfigError::Invalid(reason)) => Some(reason@),
            }),
    {
        if !check_fraction(&self.cache_threshold) {
            return Err(ConfigError::Invalid("cache_threshold must be finite and in [0, 1]"));
        }
        let one: Real64 = Real64 { bits: ONE };
        if !self.balance_rel_threshold.is_finite() || self.balance_rel_threshold.lt(&one) {
            return Err(
                ConfigError::Invalid(
                    "balance_rel_threshold must be finite and greater than or equal to 1",
                ),
            );
        }
        Ok(())
    }
}

} // verus!
