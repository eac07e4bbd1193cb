//! The parameters of a search.

use vstd::prelude::*;
use crate::number::{exact, v_count, v_milli, Real};

verus! {

/// The parameters of a search.
#[derive(Debug, Clone, Copy)]
pub struct GumbelConfig<V> {
    /// How many simulations a search runs.
    pub num_simulations: usize,
    /// How many actions the first round of sequential halving considers.
    pub max_num_considered_actions: usize,
    /// What is added to the largest visit count to weigh action values.
    pub max_visit_init: usize,
    /// The weight of action values.
    pub value_scale: V,
    /// The weight of the Gumbel noise.
    pub gumbel_scale: V,
    /// Dirichlet noise is mixed into the root's priors.
    pub add_dirichlet_noise: bool,
    /// The temperature at which the final action is drawn: the lower, the greedier.
    pub select_temperature: V,
    /// The concentration of the Dirichlet noise.
    pub dirichlet_alpha: V,
    /// The share of the Dirichlet noise in a mixed prior.
    pub dirichlet_epsilon: V,
}

impl<V: Real> GumbelConfig<V> {
    /// The default parameters.
    pub open spec fn standard() -> GumbelConfig<V> {
        GumbelConfig {
            num_simulations: 64,
            max_num_considered_actions: 16,
            max_visit_init: 50,
            value_scale: v_milli(100),
            gumbel_scale: v_count(1),
            add_dirichlet_noise: true,
            select_temperature: v_count(1),
            dirichlet_alpha: v_milli(300),
            dirichlet_epsilon: v_milli(250),
        }
    }
}

impl<V: Real> Default for GumbelConfig<V> {
    fn default() -> (config: GumbelConfig<V>)
        ensures
            exact::<V>() ==> config == GumbelConfig::<V>::standard(),
    {
        GumbelConfig {
            num_simulations: 64,
            max_num_considered_actions: 16,
            max_visit_init: 50,
            value_scale: V::milli(100),
            gumbel_scale: V::count(1),
            add_dirichlet_noise: true,
            select_temperature: V::count(1),
            dirichlet_alpha: V::milli(300),
            dirichlet_epsilon: V::milli(250),
        }
    }
}

impl<V: Real> GumbelConfig<V> {
    /// Gumbel noise alone, without Dirichlet noise.
    pub fn pure_gumbel(num_simulations: usize) -> (config: GumbelConfig<V>)
        requires
            exact::<V>(),
        ensures
            config == (GumbelConfig {
                num_simulations,
                add_dirichlet_noise: false,
                ..GumbelConfig::<V>::standard()
            }),
    {
        let base: GumbelConfig<V> = GumbelConfig::default();
        GumbelConfig { num_simulations, add_dirichlet_noise: false, ..base }
    }

    /// Gumbel noise alone and a low temperature, to play and to analyse.
    pub fn inference(num_simulations: usize) -> (config: GumbelConfig<V>)
        requires
            exact::<V>(),
        ensures
            config == (GumbelConfig {
                num_simulations,
                add_dirichlet_noise: false,
                select_temperature: v_milli(100),
                ..GumbelConfig::<V>::standard()
            }),
    {
        let base: GumbelConfig<V> = GumbelConfig::default();
        GumbelConfig {
            num_simulations,
            add_dirichlet_noise: false,
            select_temperature: V::milli(100),
            ..base
        }
    }

    /// Gumbel noise and Dirichlet noise.
    pub fn mixed(num_simulations: usize) -> (config: GumbelConfig<V>)
        requires
            exact::<V>(),
        ensures
            config == (GumbelConfig {
                num_simulations,
                add_dirichlet_noise: true,
                ..GumbelConfig::<V>::standard()
            }),
    {
        let base: GumbelConfig<V> = GumbelConfig::default();
        GumbelConfig { num_simulations, add_dirichlet_noise: true, ..base }
    }
}

} // verus!
