//! Configuration of program-aware flow control.
use vstd::prelude::*;

use crate::ieee::Real64;

verus! {

#[derive(Debug, Clone, Copy, PartialEq, Eq, Structural)]
pub enum ConfigError {
    /// A fraction or weight is not a finite non-negative number.
    Fraction,
    /// The decay half-life is not a finite positive number.
    DecayHalfLife,
}

/// The parameters of the classifier. Durations are in nanoseconds.
///
/// The fractions are applied by the host, which scales token counts with them.
#[derive(Debug, Clone, Copy, PartialEq, Eq, Structural)]
pub struct ThunderAgentConfig {
    /// Worker usage fraction that begins pausing programs.
    pub pause_threshold: Real64,
    /// Worker usage fraction that a pause cycle drains toward.
    pub pause_target: Real64,
    /// Headroom below the pause threshold required for normal resume.
    pub resume_hysteresis: Real64,
    /// Capacity weight for a program during tool work.
    pub acting_token_weight: Real64,
    /// Half-life in seconds for acting-token usage during timeout fallback placement.
    pub acting_decay_tau_seconds: Real64,
    /// Longest deferral before forced release.
    pub resume_timeout: u64,
    /// Retention period of idle continuing programs.
    pub session_retention: u64,
    /// Cadence of pressure and resume decisions.
    pub scheduler_interval: u64,
    /// Fixed token headroom per active program.
    pub buffer_per_program: usize,
    /// Bound on active requests, and on retained programs.
    pub max_tracked_requests: usize,
}

impl Default for ThunderAgentConfig {
    fn default() -> (config: Self)
        ensures
            config.pause_threshold.bits == 0x3fee_6666_6666_6666,
            config.pause_target.bits == 0x3fe9_9999_9999_999a,
            config.resume_hysteresis.bits == 0x3fb9_9999_9999_999a,
            config.acting_token_weight.bits == 0x3ff0_0000_0000_0000,
            config.acting_decay_tau_seconds.bits == 0x3ff0_0000_0000_0000,
            config.resume_timeout == 1_800_000_000_000,
            config.session_retention == 1_800_000_000_000,
            config.scheduler_interval == 5_000_000_000,
            config.buffer_per_program == 100,
            config.max_tracked_requests == 10_000,
    {
        ThunderAgentConfig {
            pause_threshold: Real64 { bits: 0x3fee_6666_6666_6666 },
            pause_target: Real64 { bits: 0x3fe9_9999_9999_999a },
            resume_hysteresis: Real64 { bits: 0x3fb9_9999_9999_999a },
            acting_token_weight: Real64 { bits: 0x3ff0_0000_0000_0000 },
            acting_decay_tau_seconds: Real64 { bits: 0x3ff0_0000_0000_0000 },
            resume_timeout: 1_800_000_000_000,
            session_retention: 1_800_000_000_000,
            scheduler_interval: 5_000_000_000,
            buffer_per_program: 100,
            max_tracked_requests: 10_000,
        }
    }
}

/// Finite and not below zero.
pub open spec fn is_weight(value: Real64) -> bool {
    value.finite() && value.rank() >= 0
}

impl ThunderAgentConfig {
    /// Whether all fractions and weights are finite and non-negative.
    pub open spec fn weights_ok(self) -> bool {
        is_weight(self.pause_threshold) && is_weight(self.pause_target) && is_weight(
            self.resume_hysteresis,
        ) && is_weight(self.acting_token_weight)
    }

    /// Whether the decay half-life is finite and positive.
    pub open spec fn half_life_ok(self) -> bool {
        self.acting_decay_tau_seconds.finite() && self.acting_decay_tau_seconds.rank() > 0
    }

    /// Check that every number can be scaled with.
    pub fn validate(&self) -> (checked: Result<(), ConfigError>)
        ensures
            checked == (if !self.weights_ok() {
                Err(ConfigError::Fraction)
            } else if !self.half_life_ok() {
                Err(ConfigError::DecayHalfLife)
            } else {
                Ok(())
            }),
    {
        let zero: Real64 = Real64 { bits: 0 };
        if !(self.pause_threshold.is_finite() && zero.le(&self.pause_threshold)
            && self.pause_target.is_finite() && zero.le(&self.pause_target)
            && self.resume_hysteresis.is_finite() && zero.le(&self.resume_hysteresis)
            && self.acting_token_weight.is_finite() && zero.le(&self.acting_token_weight)) {
            return Err(ConfigError::Fraction);
        }
        if !(self.acting_decay_tau_seconds.is_finite() && zero.lt(&self.acting_decay_tau_seconds)) {
            return Err(ConfigError::DecayHalfLife);
        }
        Ok(())
    }
}

/// A weight is positive, or zero of either sign, and below infinity; a half-life is positive and below
/// infinity. A configuration is accepted exactly where its fractions and weights are weights and its
/// half-life is one.
pub proof fn lemma_accepted_parameters(config: ThunderAgentConfig, value: Real64)
    ensures
        is_weight(value) <==> value.bits < 0x7ff0_0000_0000_0000 || value.bits
            == 0x8000_0000_0000_0000,
        config.half_life_ok() <==> 0 < config.acting_decay_tau_seconds.bits
            < 0x7ff0_0000_0000_0000,
        config.weights_ok() <==> is_weight(config.pause_threshold) && is_weight(
            config.pause_target,
        ) && is_weight(config.resume_hysteresis) && is_weight(config.acting_token_weight),
{
}

} // verus!
