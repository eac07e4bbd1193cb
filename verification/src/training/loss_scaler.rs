//! Scaling a loss so that small gradients do not vanish.

use vstd::prelude::*;
use crate::number::{exact, v_count, v_larger, v_milli, v_smaller, v_times, Real};
use crate::reals::unrounded_order;

verus! {

/// How a loss is scaled.
#[derive(Debug, Clone)]
pub struct LossScaleConfig<V> {
    pub init_scale: V,
    /// After how many steps without overflow the scale grows.
    pub grow_interval: u32,
    pub growth_factor: V,
    pub backoff_factor: V,
    pub max_scale: V,
}

impl<V: Real> LossScaleConfig<V> {
    /// The default: from 128 on the scale doubles after 2000 steps, up to 16777216, and is
    /// halved after an overflow.
    pub open spec fn standard() -> LossScaleConfig<V> {
        LossScaleConfig {
            init_scale: v_count(128),
            grow_interval: 2000,
            growth_factor: v_count(2),
            backoff_factor: v_milli(500),
            max_scale: v_count(16777216),
        }
    }
}

impl<V: Real> Default for LossScaleConfig<V> {
    fn default() -> (config: LossScaleConfig<V>)
        ensures
            exact::<V>() ==> config == LossScaleConfig::<V>::standard(),
    {
        LossScaleConfig {
            init_scale: V::count(128),
            grow_interval: 2000,
            growth_factor: V::count(2),
            backoff_factor: V::milli(500),
            max_scale: V::count(16777216),
        }
    }
}

/// What happens to the scale after a step.
#[derive(Debug, Clone, Copy, PartialEq, Eq, Structural)]
pub enum Adjustment {
    /// The gradients overflowed: the step is skipped and the scale shrinks.
    Shrink,
    /// The step is taken.
    Keep,
    /// The step is taken, and the scale grows.
    Grow,
}

/// The scale of a loss, and the steps since it last changed.
pub struct LossScaler<V> {
    pub scale: V,
    pub good_steps: u32,
    pub config: LossScaleConfig<V>,
}

impl<V: Real> LossScaler<V> {
    /// The scale has not been due to grow.
    pub open spec fn wf(&self) -> bool {
        self.good_steps == 0 || self.good_steps < self.config.grow_interval
    }

    /// The scale after an adjustment: it shrinks to no less than 1 and grows to no more than
    /// the largest one.
    pub open spec fn adjusted(self, adjustment: Adjustment) -> V {
        match adjustment {
            Adjustment::Shrink => v_larger(
                v_times(self.scale, self.config.backoff_factor),
                v_count(1),
            ),
            Adjustment::Keep => self.scale,
            Adjustment::Grow => v_smaller(
                v_times(self.scale, self.config.growth_factor),
                self.config.max_scale,
            ),
        }
    }

    /// An overflow multiplies the scale by the backoff factor, but leaves at least 1; growing
    /// multiplies it by the growth factor, up to the largest scale. A scale between 1 and the
    /// largest one stays there, unless a factor goes the wrong way.
    pub proof fn law_adjusted(self, size: spec_fn(V) -> real, adjustment: Adjustment)
        requires
            unrounded_order(size),
        ensures
            ({
                let before = size(self.scale);
                let after = size(self.adjusted(adjustment));
                let backoff = size(self.config.backoff_factor);
                let growth = size(self.config.growth_factor);
                let most = size(self.config.max_scale);
                match adjustment {
                    Adjustment::Shrink => {
                        &&& after >= 1real
                        &&& after > 1real ==> after == before * backoff
                        &&& before >= 1real && 0real <= backoff <= 1real ==> after <= before
                    },
                    Adjustment::Keep => after == before,
                    Adjustment::Grow => {
                        &&& after <= most
                        &&& after < most ==> after == before * growth
                        &&& 1real <= before <= most && growth >= 1real ==> after >= before
                    },
                }
            }),
    {
        let before = size(self.scale);
        let backoff = size(self.config.backoff_factor);
        let growth = size(self.config.growth_factor);
        if before >= 1real && 0real <= backoff <= 1real {
            assert(before * backoff <= before) by (nonlinear_arith)
                requires
                    before >= 1real,
                    0real <= backoff <= 1real,
            ;
        }
        if before >= 1real && growth >= 1real {
            assert(before * growth >= before) by (nonlinear_arith)
                requires
                    before >= 1real,
                    growth >= 1real,
            ;
        }
    }

    /// No step was counted, and the scale is the initial one, but at least 1.
    pub fn new(config: LossScaleConfig<V>) -> (scaler: LossScaler<V>)
        requires
            exact::<V>(),
        ensures
            scaler.wf(),
            scaler.scale == v_larger(config.init_scale, v_count(1)),
            scaler.good_steps == 0,
            scaler.config == config,
    {
        let scale: V = config.init_scale.larger(V::count(1));
        LossScaler { scale, good_steps: 0, config }
    }

    /// The present scale.
    pub fn scale(&self) -> (scale: V)
        ensures
            scale == self.scale,
    {
        self.scale
    }

    /// Counts a step. The scale shrinks after an overflow and grows once `grow_interval`
    /// steps went by without one; after either the steps are counted anew.
    pub fn count_step(&mut self, overflow: bool) -> (adjustment: Adjustment)
        requires
            exact::<V>(),
            old(self).wf(),
        ensures
            final(self).wf(),
            final(self).config == old(self).config,
            adjustment == Adjustment::Shrink <==> overflow,
            adjustment == Adjustment::Grow <==> !overflow && old(self).good_steps + 1 >= old(
                self,
            ).config.grow_interval,
            final(self).good_steps == (if adjustment == Adjustment::Keep {
                old(self).good_steps + 1
            } else {
                0
            }),
            final(self).scale == old(self).adjusted(adjustment),
    {
        if overflow {
            self.scale = self.scale.times(self.config.backoff_factor).larger(V::count(1));
            self.good_steps = 0;
            return Adjustment::Shrink;
        }
        self.good_steps = self.good_steps + 1;
        if self.good_steps >= self.config.grow_interval {
            self.scale = self.scale.times(self.config.growth_factor).smaller(
                self.config.max_scale,
            );
            self.good_steps = 0;
            Adjustment::Grow
        } else {
            Adjustment::Keep
        }
    }
}

} // verus!
