//! Training in steps on a replay buffer of fixed size.

use rand::rngs::StdRng;
use vstd::prelude::*;
use crate::random::draw_indices;

verus! {

/// How many samples the replay buffer keeps.
pub const REPLAY_CAPACITY: usize = 5000;

/// The parameters that are whole numbers.
#[derive(Debug, Clone, Copy, PartialEq, Eq, Structural)]
pub struct ReplayConfig {
    pub num_simulations: usize,
    pub games_per_iteration: usize,
    pub batch_size: usize,
    pub train_steps: usize,
    pub num_iterations: usize,
    /// After how many iterations the model is saved.
    pub save_every: usize,
}

impl Default for ReplayConfig {
    fn default() -> (config: ReplayConfig)
        ensures
            config == (ReplayConfig {
                num_simulations: 200,
                games_per_iteration: 4,
                batch_size: 128,
                train_steps: 25,
                num_iterations: 100,
                save_every: 10,
            }),
    {
        ReplayConfig {
            num_simulations: 200,
            games_per_iteration: 4,
            batch_size: 128,
            train_steps: 25,
            num_iterations: 100,
            save_every: 10,
        }
    }
}

/// How many of the replay buffer's oldest samples are dropped.
pub fn surplus(samples: usize) -> (dropped: usize)
    ensures
        dropped == (if samples > REPLAY_CAPACITY {
            samples - REPLAY_CAPACITY
        } else {
            0
        }),
{
    if samples > REPLAY_CAPACITY {
        samples - REPLAY_CAPACITY
    } else {
        0
    }
}

impl ReplayConfig {
    /// How many samples a step trains on: as many as a batch has, or as there are.
    pub fn step_size(&self, samples: usize) -> (n: usize)
        ensures
            n == (if self.batch_size <= samples {
                self.batch_size
            } else {
                samples
            }),
    {
        if self.batch_size <= samples {
            self.batch_size
        } else {
            samples
        }
    }

    /// Draws the samples of a step: `step_size` different ones out of so many.
    pub fn sample_batch(&self, rng: &mut StdRng, samples: usize) -> (indices: Vec<usize>)
        requires
            samples <= u32::MAX || self.batch_size < samples,
        ensures
            indices@.len() == (if self.batch_size <= samples {
                self.batch_size
            } else {
                samples
            }),
            indices@.no_duplicates(),
            forall|i: int| 0 <= i < indices@.len() ==> (#[trigger] indices@[i]) < samples,
    {
        let n: usize = self.step_size(samples);
        draw_indices(rng, samples, n)
    }

    /// The model is saved after this iteration: in every one that is a multiple of
    /// `save_every`, and in the last one.
    pub fn saves(&self, epoch: usize) -> (save: bool)
        requires
            self.save_every > 0,
        ensures
            save == (epoch as int % (self.save_every as int) == 0 || epoch == self.num_iterations),
    {
        epoch % self.save_every == 0 || epoch == self.num_iterations
    }
}

/// The loss is reported after every fifth step.
pub fn reports(step: usize) -> (report: bool)
    ensures
        report == (step as int % 5 == 0),
{
    step % 5 == 0
}

/// Where a model comes from.
#[derive(Debug, Clone, Copy, PartialEq, Eq, Structural)]
pub enum ModelSource {
    Latest,
    Initial,
    Fresh,
}

/// The model to start with: the latest one that could be loaded, else the initial one, and
/// else a new one.
pub fn choose_model(latest_loads: bool, initial_loads: bool) -> (source: ModelSource)
    ensures
        source == (if latest_loads {
            ModelSource::Latest
        } else if initial_loads {
            ModelSource::Initial
        } else {
            ModelSource::Fresh
        }),
{
    if latest_loads {
        ModelSource::Latest
    } else if initial_loads {
        ModelSource::Initial
    } else {
        ModelSource::Fresh
    }
}

} // verus!
