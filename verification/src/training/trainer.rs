//! What the training loop does in which iteration.

use vstd::prelude::*;
use vstd::string::StringExecFns;
use crate::eval::EvalConfig;
use crate::number::{exact, v_milli, Real};
use crate::selfplay::SelfPlayConfig;
use crate::text::{decimal, push_decimal};

verus! {

/// The parameters of the training loop that are whole numbers.
#[derive(Debug, Clone, Copy, PartialEq, Eq, Structural)]
pub struct TrainConfig {
    pub num_simulations: usize,
    pub games_per_iteration: usize,
    pub batch_size: usize,
    pub mini_batches_per_iteration: usize,
    pub num_iterations: usize,
    /// After how many iterations the model is saved.
    pub save_every: usize,
    pub buffer_capacity: usize,
    /// The model plays matches against the baseline.
    pub eval_enabled: bool,
    pub eval_num_games: usize,
    pub eval_num_simulations: usize,
    /// After how many iterations a match is played.
    pub eval_every: usize,
    pub random_seed: u64,
}

impl Default for TrainConfig {
    fn default() -> (config: TrainConfig)
        ensures
            config == (TrainConfig {
                num_simulations: 64,
                games_per_iteration: 64,
                batch_size: 256,
                mini_batches_per_iteration: 256,
                num_iterations: 100,
                save_every: 5,
                buffer_capacity: 160000,
                eval_enabled: true,
                eval_num_games: 100,
                eval_num_simulations: 64,
                eval_every: 5,
                random_seed: 42,
            }),
    {
        TrainConfig {
            num_simulations: 64,
            games_per_iteration: 64,
            batch_size: 256,
            mini_batches_per_iteration: 256,
            num_iterations: 100,
            save_every: 5,
            buffer_capacity: 160000,
            eval_enabled: true,
            eval_num_games: 100,
            eval_num_simulations: 64,
            eval_every: 5,
            random_seed: 42,
        }
    }
}

/// The temperature of self-play in thousandths: full in the first half of the training, half
/// of that in the third quarter, and a quarter in the last one.
pub open spec fn temperature(iteration: int, num_iterations: int) -> u32 {
    let total = if num_iterations >= 1 {
        num_iterations
    } else {
        1
    };
    if 2 * iteration < total {
        1000
    } else if 4 * iteration < 3 * total {
        500
    } else {
        250
    }
}

/// The temperature of self-play: see `temperature`.
pub fn decayed_temperature(iteration: usize, num_iterations: usize) -> (temp: u32)
    ensures
        temp == temperature(iteration as int, num_iterations as int),
{
    let total: u128 = if num_iterations >= 1 {
        num_iterations as u128
    } else {
        1
    };
    let at: u128 = iteration as u128;
    if 2 * at < total {
        1000
    } else if 4 * at < 3 * total {
        500
    } else {
        250
    }
}

/// The temperature never rises.
pub proof fn law_temperature_falls(earlier: int, later: int, num_iterations: int)
    requires
        earlier <= later,
    ensures
        temperature(later, num_iterations) <= temperature(earlier, num_iterations),
{
}

/// The temperature goes by the part of the training that is over: where the training is
/// `times` as long, it is the same after `times` as many iterations. It is halved at the half
/// and at three quarters.
pub proof fn law_temperature_goes_by_proportion(iteration: int, num_iterations: int, times: int)
    requires
        num_iterations >= 1,
        times >= 1,
    ensures
        temperature(times * iteration, times * num_iterations) == temperature(
            iteration,
            num_iterations,
        ),
        temperature(2 * num_iterations, 4 * num_iterations) * 2 == temperature(
            2 * num_iterations - 1,
            4 * num_iterations,
        ),
        temperature(3 * num_iterations, 4 * num_iterations) * 2 == temperature(
            3 * num_iterations - 1,
            4 * num_iterations,
        ),
        temperature(0, num_iterations) == 1000,
{
    assert((2 * (times * iteration) < times * num_iterations) == (2 * iteration < num_iterations)
        && (4 * (times * iteration) < 3 * (times * num_iterations)) == (4 * iteration < 3
        * num_iterations) && times * num_iterations >= 1) by (nonlinear_arith)
        requires
            times >= 1,
            num_iterations >= 1,
    ;
}

/// How many batches an iteration trains on.
pub open spec fn batches(config: TrainConfig, samples: int) -> int {
    let most = samples / config.batch_size as int;
    if config.mini_batches_per_iteration <= most {
        config.mini_batches_per_iteration as int
    } else {
        most
    }
}

/// What follows the games of an iteration.
#[derive(Debug, Clone, Copy, PartialEq, Eq, Structural)]
pub struct IterationPlan {
    /// The number of the iteration, from 1 on.
    pub epoch: usize,
    /// There are enough samples for a batch; if not, nothing else is done.
    pub train: bool,
    /// How many batches are trained on.
    pub num_batches: usize,
    /// A match against the baseline is played then.
    pub evaluate: bool,
    /// The model is saved then.
    pub save: bool,
}

impl TrainConfig {
    /// The numbers that others are divided by are not zero.
    pub open spec fn valid(self) -> bool {
        &&& self.batch_size > 0
        &&& self.save_every > 0
        &&& self.eval_enabled ==> self.eval_every > 0
    }

    /// What follows the games of an iteration, with so many samples: training, unless there
    /// are too few samples for a batch; then a match, in every iteration that is a multiple
    /// of `eval_every`; then the model is saved, in every iteration that is a multiple of
    /// `save_every`, and in the last one.
    pub open spec fn plan(self, iteration: int, samples: int) -> IterationPlan {
        let epoch = iteration + 1;
        let train = samples >= self.batch_size;
        IterationPlan {
            epoch: epoch as usize,
            train,
            num_batches: (if train {
                batches(self, samples)
            } else {
                0
            }) as usize,
            evaluate: train && self.eval_enabled && epoch % (self.eval_every as int) == 0,
            save: train && (epoch % (self.save_every as int) == 0 || epoch == self.num_iterations),
        }
    }

    /// What follows the games of an iteration: see `plan`.
    pub fn plan_iteration(&self, iteration: usize, buffer_size: usize) -> (plan: IterationPlan)
        requires
            self.valid(),
            iteration < self.num_iterations,
        ensures
            plan == self.plan(iteration as int, buffer_size as int),
    {
        let epoch: usize = iteration + 1;
        if buffer_size < self.batch_size {
            return IterationPlan {
                epoch,
                train: false,
                num_batches: 0,
                evaluate: false,
                save: false,
            };
        }
        let most: usize = buffer_size / self.batch_size;
        let num_batches: usize = if self.mini_batches_per_iteration <= most {
            self.mini_batches_per_iteration
        } else {
            most
        };
        let evaluate: bool = self.eval_enabled && epoch % self.eval_every == 0;
        let save: bool = epoch % self.save_every == 0 || epoch == self.num_iterations;
        IterationPlan { epoch, train: true, num_batches, evaluate, save }
    }

    /// The parameters of self-play in an iteration.
    pub fn self_play_config<V: Real>(&self, iteration: usize) -> (config: SelfPlayConfig<V>)
        requires
            exact::<V>(),
        ensures
            config == (SelfPlayConfig {
                num_simulations: self.num_simulations,
                select_temperature: v_milli::<V>(
                    temperature(iteration as int, self.num_iterations as int),
                ),
            }),
    {
        SelfPlayConfig {
            num_simulations: self.num_simulations,
            select_temperature: V::milli(decayed_temperature(iteration, self.num_iterations)),
        }
    }

    /// The parameters of the matches against the baseline.
    pub fn eval_config(&self) -> (config: EvalConfig)
        ensures
            config == (EvalConfig {
                num_games: self.eval_num_games,
                num_simulations: self.eval_num_simulations,
                eval_every: self.eval_every,
            }),
    {
        EvalConfig {
            num_games: self.eval_num_games,
            num_simulations: self.eval_num_simulations,
            eval_every: self.eval_every,
        }
    }
}

/// The batches of an iteration never ask for more samples than there are, and there is at
/// least one of them unless none is wanted: as many as are wanted, or as there are samples
/// for.
pub proof fn law_batches_fit(config: TrainConfig, iteration: int, samples: int)
    requires
        config.valid(),
        0 <= iteration < config.num_iterations,
        0 <= samples <= usize::MAX,
    ensures
        ({
            let plan = config.plan(iteration, samples);
            &&& plan.num_batches * config.batch_size <= samples
            &&& plan.train && config.mini_batches_per_iteration > 0 ==> plan.num_batches > 0
            &&& plan.num_batches <= config.mini_batches_per_iteration
            &&& plan.train && plan.num_batches < config.mini_batches_per_iteration ==> samples < (
            plan.num_batches + 1) * config.batch_size
        }),
{
    let size = config.batch_size as int;
    let most = samples / size;
    assert(most * size <= samples && (samples >= size ==> most >= 1) && most <= samples
        && most >= 0) by (nonlinear_arith)
        requires
            size > 0,
            samples >= 0,
            most == samples / size,
    ;
    let n = config.plan(iteration, samples).num_batches as int;
    assert(n * size <= most * size) by (nonlinear_arith)
        requires
            0 <= n <= most,
            size > 0,
    ;
    assert(samples < (most + 1) * size) by (nonlinear_arith)
        requires
            size > 0,
            most == samples / size,
    ;
}

/// Matches are played, and models are saved, at equal intervals: in the last of every
/// `eval_every`, and of every `save_every`, iterations that train. The last iteration of the
/// training is the only other one that saves.
pub proof fn law_intervals(config: TrainConfig, iteration: int, samples: int, n: int)
    requires
        config.valid(),
        samples >= config.batch_size,
        n >= 1,
    ensures
        config.eval_enabled ==> config.plan(n * config.eval_every - 1, samples).evaluate,
        config.eval_enabled && n < config.eval_every ==> !config.plan(n - 1, samples).evaluate,
        config.eval_enabled ==> config.plan(iteration, samples).evaluate == config.plan(
            iteration + config.eval_every,
            samples,
        ).evaluate,
        !config.eval_enabled ==> !config.plan(iteration, samples).evaluate,
        config.plan(n * config.save_every - 1, samples).save,
        n < config.save_every && n != config.num_iterations ==> !config.plan(n - 1, samples).save,
        iteration + 1 != config.num_iterations && iteration + 1 + config.save_every
            != config.num_iterations ==> config.plan(iteration, samples).save == config.plan(
            iteration + config.save_every,
            samples,
        ).save,
{
    if config.eval_enabled {
        let e = config.eval_every as int;
        vstd::arithmetic::div_mod::lemma_mod_multiples_basic(n, e);
        vstd::arithmetic::div_mod::lemma_mod_add_multiples_vanish(iteration + 1, e);
        assert(iteration + e + 1 == e + (iteration + 1));
        if n < e {
            vstd::arithmetic::div_mod::lemma_small_mod(n as nat, e as nat);
        }
    }
    let s = config.save_every as int;
    vstd::arithmetic::div_mod::lemma_mod_multiples_basic(n, s);
    vstd::arithmetic::div_mod::lemma_mod_add_multiples_vanish(iteration + 1, s);
    assert(iteration + s + 1 == s + (iteration + 1));
    if n < s {
        vstd::arithmetic::div_mod::lemma_small_mod(n as nat, s as nat);
    }
}

/// The model of the last iteration is saved, if that iteration trains at all.
pub proof fn law_last_model_is_saved(config: TrainConfig, samples: int)
    requires
        config.valid(),
        config.num_iterations > 0,
        samples >= config.batch_size,
    ensures
        config.plan(config.num_iterations - 1, samples).save,
{
}

/// An iteration that does not train changes nothing that a match or a file could show: no
/// match is played and nothing is saved.
pub proof fn law_nothing_without_training(config: TrainConfig, iteration: int, samples: int)
    requires
        samples < config.batch_size,
    ensures
        ({
            let plan = config.plan(iteration, samples);
            !plan.train && !plan.evaluate && !plan.save && plan.num_batches == 0
        }),
{
}

/// The name under which the model of an epoch is saved.
pub fn epoch_label(epoch: usize) -> (label: String)
    ensures
        label@ == "epoch_"@ + decimal(epoch as nat),
{
    let mut label: String = "epoch_".to_owned();
    push_decimal(&mut label, epoch);
    label
}

/// The name of the file that holds the model with this label.
pub fn model_file(label: &str) -> (name: String)
    ensures
        name@ == "gomoku_"@ + label@,
{
    let mut name: String = "gomoku_".to_owned();
    name.append(label);
    name
}

} // verus!
