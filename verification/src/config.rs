use vstd::prelude::*;

verus! {

/// The scale of the rates: a rate is a number of chances in this many.
pub const RATE_SCALE: u32 = 1_000_000;

/// The settings of a run. A rate is given in chances out of `RATE_SCALE`.
#[derive(Clone, Copy, Debug)]
pub struct Config {
    pub population_size: usize,
    pub population_gen_step: usize,
    pub elite_count: usize,
    pub single_swap_mut_rate: u32,
    pub single_swap_mut_max: usize,
    pub vehicle_remove_mut_rate: u32,
    pub vehicle_remove_mut_max: usize,
    pub crossover_rate: u32,
    pub parent_selection_k: usize,
    pub infeasibility_penalty: u32,
    pub cws_bias: usize,
}

impl Config {
    /// Whether the settings can be worked with: a tournament has a
    /// candidate, and the savings method a pair to draw from.
    pub open spec fn wf(&self) -> bool {
        self.parent_selection_k >= 1 && self.cws_bias >= 1
    }

    /// Whether a vehicle can ever be removed under these settings: the
    /// number of times is drawn below `vehicle_remove_mut_max`.
    pub open spec fn removes_vehicles(&self) -> bool {
        self.vehicle_remove_mut_rate > 0 && self.vehicle_remove_mut_max >= 2
    }

    /// Tests the settings: see [`Config::wf`].
    pub fn is_valid(&self) -> (valid: bool)
        ensures
            valid == self.wf(),
    {
        self.parent_selection_k >= 1 && self.cws_bias >= 1
    }
}

impl Default for Config {
    fn default() -> (config: Config)
        ensures
            config.wf(),
            config.population_size == 50,
            config.population_gen_step == 50,
            config.elite_count == 2,
            config.single_swap_mut_rate == 50_000,
            config.single_swap_mut_max == 2,
            config.vehicle_remove_mut_rate == 50_000,
            config.vehicle_remove_mut_max == 1,
            config.crossover_rate == RATE_SCALE,
            config.parent_selection_k == 5,
            config.infeasibility_penalty == 1000,
            config.cws_bias == 10,
    {
        Config {
            population_size: 50,
            population_gen_step: 50,
            elite_count: 2,
            single_swap_mut_rate: 50_000,
            single_swap_mut_max: 2,
            vehicle_remove_mut_rate: 50_000,
            vehicle_remove_mut_max: 1,
            crossover_rate: RATE_SCALE,
            parent_selection_k: 5,
            infeasibility_penalty: 1000,
            cws_bias: 10,
        }
    }
}

} // verus!
