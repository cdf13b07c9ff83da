use crate::chromosome::{first_depot_at, has_depot, lemma_first_depot_exists, removable};
use crate::config::Config;
use crate::error::GaError;
use crate::model::Model;
use crate::population::{
    arrangement_of, child_of, evaluable, has_entry, lemma_evaluable_arrangement, scored,
    Population,
};
use crate::solution::{all_ended, encoded, routes_of, routes_view, Encode, Solution};
use vstd::prelude::*;

verus! {

/// A run of the search: the current generation and its number.
pub struct Simulation {
    pub population: Population,
    pub generation: i32,
}

impl Simulation {
    /// A run that has not started: the first generation, still empty.
    pub fn new(config: &Config) -> (simulation: Simulation)
        ensures
            simulation.generation == 1,
            simulation.population.chromosomes@.len() == 0,
            simulation.population.scores@.len() == 0,
    {
        Simulation { population: Population::new(config), generation: 1 }
    }

    /// One step of the search: the next generation is bred from the current
    /// one, evaluated, and put in its place.
    ///
    /// The best of the current generation, as many as `elite_count`, are
    /// carried over, and the others are bred, see [`Population::evolve`]: so
    /// where one chromosome or more is carried over and the current
    /// generation has its scores from this model and penalty, the best score
    /// does not get worse.
    ///
    /// Where the step fails, the run is left as it was. It fails with
    /// `GaError::Invariant` where breeding fails, see
    /// [`Population::evolve`], and with the error of the evaluation where a
    /// chromosome of the next generation cannot be evaluated. Neither
    /// happens to a consistent population whose first chromosome can be
    /// evaluated and, where the settings remove vehicles, has a vehicle to
    /// remove.
    pub fn run(&mut self, model: &Model, config: &Config) -> (outcome: Result<(), GaError>)
        requires
            model.wf(),
            old(self).population.ranked(),
            config.elite_count <= old(self).population.chromosomes@.len(),
            config.elite_count < old(self).population.chromosomes@.len() ==> old(self).population.uniform() && config.parent_selection_k >= 1,
            old(self).generation < i32::MAX,
        ensures
            outcome is Err ==> *final(self) == *old(self),
            outcome is Ok ==> {
                &&& final(self).generation == old(self).generation + 1
                &&& final(self).population.ranked()
                &&& old(self).population.uniform() ==> final(self).population.uniform()
                &&& final(self).population.chromosomes@.len() == old(self).population.chromosomes@.len()
                &&& forall|i: int|
                    0 <= i < config.elite_count ==> (#[trigger] final(self).population.chromosomes@[i]).genes@ == old(self).population.chromosomes@[old(self).population.scores@[i].0 as int].genes@
                &&& forall|k: int|
                    config.elite_count <= k < final(self).population.chromosomes@.len()
                        ==> child_of(
                        old(self).population,
                        *config,
                        (#[trigger] final(self).population.chromosomes@[k]).genes@,
                    ) && final(self).population.chromosomes@[k].genes@.len() == old(self).population.chromosomes@[0].genes@.len()
                &&& forall|k: int|
                    0 <= k < final(self).population.chromosomes@.len() ==> scored(
                        model,
                        config.infeasibility_penalty as int,
                        #[trigger] final(self).population.chromosomes@[k],
                    )
                &&& old(self).population.consistent() ==> forall|k: int|
                    0 <= k < final(self).population.chromosomes@.len() ==> arrangement_of(
                        (#[trigger] final(self).population.chromosomes@[k]).genes@,
                        old(self).population.chromosomes@[0].genes@,
                    )
            },
            outcome is Ok && config.elite_count >= 1 && (forall|k: int|
                0 <= k < old(self).population.chromosomes@.len() ==> scored(
                    model,
                    config.infeasibility_penalty as int,
                    #[trigger] old(self).population.chromosomes@[k],
                )) ==> final(self).population.scores@[0].1 <= old(self).population.scores@[0].1,
            old(self).population.consistent() && old(self).population.chromosomes@.len() > 0
                && evaluable(model, old(self).population.chromosomes@[0].genes@) && (
            !config.removes_vehicles() || removable(old(self).population.chromosomes@[0].genes@))
                ==> outcome is Ok,
    {
        let mut new_population = match self.population.evolve(config) {
            Ok(population) => population,
            Err(error) => {
                return Err(error);
            },
        };
        let ghost bred = new_population;
        let ghost pattern = self.population.chromosomes@[0].genes@;
        proof {
            if self.population.consistent() && self.population.chromosomes@.len() > 0 && evaluable(
                model,
                pattern,
            ) {
                assert forall|k: int| 0 <= k < bred.chromosomes@.len() implies evaluable(
                    model,
                    (#[trigger] bred.chromosomes@[k]).genes@,
                ) by {
                    lemma_evaluable_arrangement(model, bred.chromosomes@[k].genes@, pattern);
                }
            }
        }
        match new_population.evaluate(model, config.infeasibility_penalty) {
            Ok(()) => {},
            Err(error) => {
                return Err(error);
            },
        }
        proof {
            let before = self.population;
            let fine = config.infeasibility_penalty as int;
            if config.elite_count >= 1 && (forall|k: int|
                0 <= k < before.chromosomes@.len() ==> scored(
                    model,
                    fine,
                    #[trigger] before.chromosomes@[k],
                )) {
                let best = before.scores@[0].0 as int;
                let kept = new_population.chromosomes@[0];
                assert(bred.chromosomes@[0].genes@ == before.chromosomes@[best].genes@);
                assert(kept.genes@ == before.chromosomes@[best].genes@);
                assert(evaluable(model, bred.chromosomes@[0].genes@));
                lemma_first_depot_exists(kept.genes@);
                let start = choose|start: int| first_depot_at(kept.genes@, start);
                assert(scored(model, fine, kept));
                assert(scored(model, fine, before.chromosomes@[best]));
                assert(first_depot_at(before.chromosomes@[best].genes@, start));
                assert(kept.score == Some(before.scores@[0].1));
                assert(has_entry(new_population.scores@, 0));
                let i = choose|i: int|
                    0 <= i < new_population.scores@.len() && (
                    #[trigger] new_population.scores@[i]).0 == 0;
                assert(new_population.scores@[i].1 == before.scores@[0].1);
                if i > 0 {
                    assert(new_population.scores@[0].1 <= new_population.scores@[i].1);
                }
            }
        }
        self.population = new_population;
        self.generation += 1;
        Ok(())
    }

    /// The routes of the best chromosome, with its score.
    ///
    /// The error is `GaError::Invariant` where the chromosomes have not
    /// been ranked, and `GaError::MalformedChromosome` where the best one
    /// has no depot gene.
    pub fn get_best_solution(&self) -> (outcome: Result<Solution, GaError>)
        ensures
            self.population.scores@.len() == 0 || self.population.scores@[0].0
                >= self.population.chromosomes@.len() ==> outcome == Err::<Solution, GaError>(
                GaError::Invariant,
            ),
            self.population.scores@.len() > 0 && self.population.scores@[0].0
                < self.population.chromosomes@.len() ==> {
                let best = self.population.chromosomes@[self.population.scores@[0].0 as int];
                &&& has_depot(best.genes@) <==> outcome is Ok
                &&& outcome is Err ==> outcome->Err_0 == GaError::MalformedChromosome
                &&& outcome is Ok ==> outcome->Ok_0.score == Some(self.population.scores@[0].1)
                &&& forall|start: int|
                    outcome is Ok && first_depot_at(best.genes@, start) ==> routes_view(
                        outcome->Ok_0.routes@,
                    ) == routes_of(best.genes@, start)
            },
    {
        if self.population.scores.len() == 0 {
            return Err(GaError::Invariant);
        }
        let (index, score) = self.population.scores[0];
        if index >= self.population.chromosomes.len() {
            return Err(GaError::Invariant);
        }
        let chromosome = &self.population.chromosomes[index];
        match chromosome.decode() {
            Ok(decoded) => {
                let solution = Solution { routes: decoded.routes, score: Some(score) };
                Ok(solution)
            },
            Err(error) => Err(error),
        }
    }

    /// Evaluates and ranks the current generation: see
    /// [`Population::evaluate`].
    pub fn evaluate(&mut self, model: &Model, config: &Config) -> (outcome: Result<(), GaError>)
        requires
            model.wf(),
        ensures
            final(self).generation == old(self).generation,
            final(self).population.chromosomes@.len() == old(self).population.chromosomes@.len(),
            forall|k: int|
                0 <= k < old(self).population.chromosomes@.len() ==> (#[trigger] final(self).population.chromosomes@[k]).genes@ == old(self).population.chromosomes@[k].genes@,
            outcome is Ok <==> forall|k: int|
                0 <= k < old(self).population.chromosomes@.len() ==> evaluable(
                    model,
                    (#[trigger] old(self).population.chromosomes@[k]).genes@,
                ),
            outcome is Ok ==> final(self).population.ranked() && forall|k: int|
                0 <= k < old(self).population.chromosomes@.len() ==> scored(
                    model,
                    config.infeasibility_penalty as int,
                    #[trigger] final(self).population.chromosomes@[k],
                ),
            outcome is Err ==> final(self).population.scores@ == old(self).population.scores@,
    {
        self.population.evaluate(model, config.infeasibility_penalty)
    }

    /// Adds the chromosome of these routes to the current generation. A
    /// route with fewer than two stops is refused with
    /// `GaError::MalformedRoute`, and the generation stays as it was.
    pub fn add_solution(&mut self, routes: Vec<Vec<i32>>) -> (outcome: Result<(), GaError>)
        ensures
            final(self).generation == old(self).generation,
            final(self).population.scores@ == old(self).population.scores@,
            all_ended(routes_view(routes@)) <==> outcome is Ok,
            outcome is Err ==> outcome->Err_0 == GaError::MalformedRoute && final(self).population.chromosomes@ == old(self).population.chromosomes@,
            outcome is Ok ==> final(self).population.chromosomes@.len() == old(self).population.chromosomes@.len() + 1 && final(self).population.chromosomes@.last().genes@
                == encoded(routes_view(routes@)) && final(self).population.chromosomes@.last().score is None && forall|k: int|
                0 <= k < old(self).population.chromosomes@.len() ==> (#[trigger] final(self).population.chromosomes@[k]) == old(self).population.chromosomes@[k],
    {
        let solution = Solution::new(routes);
        match solution.encode() {
            Ok(chromosome) => {
                self.population.chromosomes.push(chromosome);
                Ok(())
            },
            Err(error) => Err(error),
        }
    }
}

} // verus!
