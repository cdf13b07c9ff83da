use crate::chromosome::Chromosome;
use crate::config::Config;
use crate::construction::{built_for, savings_init};
use crate::error::GaError;
use crate::fitness::evaluated_as;
use crate::model::Model;
use crate::population::{bred, Population};
use crate::problem::Problem;
use crate::solution::routes_view;
use rayon::iter::{IntoParallelIterator, IntoParallelRefMutIterator, ParallelIterator};
use vstd::prelude::*;

verus! {

/// Evaluates each chromosome of the list, side by side, on the threads of
/// `rayon`: `par_iter_mut` hands the chromosomes out, `map` calls
/// `Chromosome::evaluate` on each, and `collect` gathers what the calls
/// return.
///
/// Believed, not proved: each chromosome is evaluated once, in its place,
/// and the results come back in the order of the chromosomes. What one
/// evaluation does is proved where `Chromosome::evaluate` is.
#[verifier::external_body]
pub(crate) fn evaluate_each(chromosomes: &mut Vec<Chromosome>, model: &Model, penalty: u32) -> (outcomes:
    Vec<Result<u128, GaError>>)
    requires
        model.wf(),
    ensures
        final(chromosomes)@.len() == old(chromosomes)@.len(),
        outcomes@.len() == old(chromosomes)@.len(),
        forall|k: int|
            0 <= k < old(chromosomes)@.len() ==> evaluated_as(
                model,
                penalty as int,
                old(chromosomes)@[k],
                #[trigger] final(chromosomes)@[k],
                outcomes@[k],
            ),
{
    chromosomes.par_iter_mut().map(|chromosome| chromosome.evaluate(model, penalty)).collect()
}

/// Breeds `pairs` pairs of children from the population, side by side, on
/// the threads of `rayon`: `into_par_iter` hands out the numbers of the
/// pairs, `map` calls `Population::offspring` for each, and `collect`
/// gathers what the calls return.
///
/// Believed, not proved: `Population::offspring` is called once for each
/// pair, and what the calls return comes back, one entry for each pair. What
/// one call does is proved where `Population::offspring` is; each call
/// draws from the generator of the thread that it runs on.
#[verifier::external_body]
pub(crate) fn breed_each(population: &Population, config: &Config, pairs: usize) -> (outcomes: Vec<
    Result<(Chromosome, Chromosome), GaError>,
>)
    requires
        pairs > 0 ==> population.chromosomes@.len() > 0 && population.uniform()
            && config.parent_selection_k >= 1,
    ensures
        outcomes@.len() == pairs,
        forall|k: int| 0 <= k < pairs ==> bred(*population, *config, #[trigger] outcomes@[k]),
{
    (0..pairs).into_par_iter().map(|_| population.offspring(config)).collect()
}

/// Builds `count` first solutions of the problem, side by side, on the
/// threads of `rayon`: `into_par_iter` hands out the numbers of the
/// solutions, `map` calls `savings_init` for each, and `collect` gathers
/// what the calls return.
///
/// Believed, not proved: `savings_init` is called once for each solution,
/// and what the calls return comes back, one entry for each solution. What
/// one call does is proved where `savings_init` is; each call draws from
/// the generator of the thread that it runs on.
#[verifier::external_body]
pub(crate) fn construct_each(model: &Model, problem: &Problem, config: &Config, count: usize) -> (solutions:
    Vec<Vec<Vec<i32>>>)
    requires
        count > 0 ==> model.wf() && problem.ready(model) && config.cws_bias >= 1,
    ensures
        solutions@.len() == count,
        forall|k: int|
            0 <= k < count ==> built_for(model, problem, routes_view((#[trigger] solutions@[k])@)),
{
    (0..count).into_par_iter().map(|_| savings_init(model, problem, config)).collect()
}

} // verus!
