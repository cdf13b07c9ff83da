use crate::chromosome::{
    first_depot_at, has_depot, removable, removed_in_turn, swapped, swapped_in_turn,
    swaps_in_range, vehicle_removed, Chromosome,
};
use crate::config::{Config, RATE_SCALE};
use crate::crossover::crossover_child;
use crate::error::GaError;
use crate::fitness::{evaluated_as, fitness, genes_known};
use crate::gene::Gene;
use crate::heuristic::step_limit;
use crate::model::Model;
use crate::order::{ascending, entry_le, sorted_entries};
use crate::parallel::{breed_each, evaluate_each};
use crate::random::random_in_range;
use vstd::prelude::*;

verus! {

/// The chromosomes of one generation, and their ranking once they have been
/// evaluated: for each chromosome its place in `chromosomes` and its score,
/// the best score first.
pub struct Population {
    pub chromosomes: Vec<Chromosome>,
    pub scores: Vec<(usize, u128)>,
}

/// Whether a chromosome of these genes can be evaluated with the model: it
/// has a depot gene to start from, and the model knows each of its nodes.
pub open spec fn evaluable(model: &Model, genes: Seq<Gene>) -> bool {
    has_depot(genes) && genes_known(model, genes)
}

/// The error with which genes that cannot be evaluated are refused.
pub open spec fn refusal(genes: Seq<Gene>) -> GaError {
    if has_depot(genes) {
        GaError::UnknownNode
    } else {
        GaError::MalformedChromosome
    }
}

/// Whether the chromosome carries the fitness of its genes as its score.
pub open spec fn scored(model: &Model, penalty: int, chromosome: Chromosome) -> bool {
    &&& chromosome.score is Some
    &&& forall|start: int| #[trigger]
        first_depot_at(chromosome.genes@, start) ==> chromosome.score->0 as int == fitness(
            model,
            penalty,
            chromosome.genes@,
            start,
        )
}

/// Whether `scores` ranks the chromosomes: each chromosome has one entry,
/// with its score, and a better score comes first; of two equal scores that
/// of the chromosome that stands first.
pub open spec fn ranks(chromosomes: Seq<Chromosome>, scores: Seq<(usize, u128)>) -> bool {
    &&& scores.len() == chromosomes.len()
    &&& forall|i: int|
        0 <= i < scores.len() ==> (#[trigger] scores[i]).0 < chromosomes.len()
            && chromosomes[scores[i].0 as int].score == Some(scores[i].1)
    &&& forall|i: int, j: int|
        0 <= i < j < scores.len() ==> (#[trigger] scores[i]).1 < (#[trigger] scores[j]).1 || (
        scores[i].1 == scores[j].1 && scores[i].0 < scores[j].0)
    &&& forall|k: int| 0 <= k < chromosomes.len() ==> #[trigger] has_entry(scores, k)
}

/// Whether the ranking has an entry for the chromosome at `place`.
pub open spec fn has_entry(scores: Seq<(usize, u128)>, place: int) -> bool {
    exists|i: int| 0 <= i < scores.len() && (#[trigger] scores[i]).0 == place
}

/// The number by which a chromosome is compared in a tournament: its score,
/// or the largest number there is where it has none.
pub open spec fn score_key(chromosome: Chromosome) -> int {
    match chromosome.score {
        Some(score) => score as int,
        None => u128::MAX as int,
    }
}

/// Whether the candidate at `place` wins the tournament: no candidate has a
/// better score, and those before it have a worse one.
pub open spec fn wins(chromosomes: Seq<Chromosome>, candidates: Seq<usize>, place: int) -> bool {
    &&& 0 <= place < candidates.len()
    &&& forall|u: int|
        0 <= u < candidates.len() ==> score_key(chromosomes[candidates[place] as int])
            <= score_key(chromosomes[(#[trigger] candidates[u]) as int])
    &&& forall|u: int|
        0 <= u < place ==> score_key(chromosomes[(#[trigger] candidates[u]) as int]) > score_key(
            chromosomes[candidates[place] as int],
        )
}

/// Whether `parent` is the chromosome that wins the tournament among the
/// chromosomes at the places that `candidates` names.
pub open spec fn selected_by(
    chromosomes: Seq<Chromosome>,
    candidates: Seq<usize>,
    parent: Chromosome,
) -> bool {
    &&& forall|u: int| 0 <= u < candidates.len() ==> (#[trigger] candidates[u]) < chromosomes.len()
    &&& exists|place: int|
        wins(chromosomes, candidates, place) && chromosomes[(#[trigger] candidates[place]) as int]
            == parent
}

/// A tournament with one candidate is won by that candidate, whatever its
/// score: such a tournament selects nothing.
pub proof fn lemma_lone_candidate_wins(chromosomes: Seq<Chromosome>, candidate: usize)
    ensures
        wins(chromosomes, seq![candidate], 0),
        forall|place: int| wins(chromosomes, seq![candidate], place) ==> place == 0,
{
}

/// Whether `genes` are an arrangement of the genes of `pattern`, none of
/// which comes twice.
pub open spec fn arrangement_of(genes: Seq<Gene>, pattern: Seq<Gene>) -> bool {
    &&& pattern.no_duplicates()
    &&& genes.no_duplicates()
    &&& genes.to_multiset() == pattern.to_multiset()
}

/// An arrangement of genes from which a vehicle can be removed is one from
/// which a vehicle can be removed.
pub proof fn lemma_removable_arrangement(genes: Seq<Gene>, pattern: Seq<Gene>)
    requires
        arrangement_of(genes, pattern),
        removable(pattern),
    ensures
        removable(genes),
{
    broadcast use vstd::seq_lib::group_to_multiset_ensures;

    vstd::seq_lib::to_multiset_len(genes);
    vstd::seq_lib::to_multiset_len(pattern);
    if pattern.len() == 1 && pattern[0].is_depot() {
        assert(genes.contains(genes[0]));
        assert(pattern.to_multiset().count(genes[0]) > 0);
        assert(pattern.contains(genes[0]));
    } else {
        let (a, b) = choose|a: int, b: int|
            0 <= a < pattern.len() && 0 <= b < pattern.len() && a != b && (
            #[trigger] pattern[a]).is_depot() && (#[trigger] pattern[b]).is_depot();
        assert(pattern.contains(pattern[a]));
        assert(pattern.contains(pattern[b]));
        assert(genes.to_multiset().count(pattern[a]) > 0);
        assert(genes.to_multiset().count(pattern[b]) > 0);
        assert(genes.contains(pattern[a]));
        assert(genes.contains(pattern[b]));
        let x = choose|x: int| 0 <= x < genes.len() && genes[x] == pattern[a];
        let y = choose|y: int| 0 <= y < genes.len() && genes[y] == pattern[b];
        assert(pattern[a] != pattern[b]);
        assert(x != y);
        assert(genes[x].is_depot() && genes[y].is_depot());
    }
}

/// An arrangement of genes that can be evaluated can be evaluated.
pub proof fn lemma_evaluable_arrangement(model: &Model, genes: Seq<Gene>, pattern: Seq<Gene>)
    requires
        genes.to_multiset() == pattern.to_multiset(),
        evaluable(model, pattern),
    ensures
        evaluable(model, genes),
{
    broadcast use vstd::seq_lib::group_to_multiset_ensures;

    let d = choose|d: int| 0 <= d < pattern.len() && (#[trigger] pattern[d]).is_depot();
    assert(pattern.contains(pattern[d]));
    assert(genes.to_multiset().count(pattern[d]) > 0);
    assert(genes.contains(pattern[d]));
    let x = choose|x: int| 0 <= x < genes.len() && genes[x] == pattern[d];
    assert(genes[x].is_depot());
    assert forall|k: int| 0 <= k < genes.len() implies model.has_node(
        (#[trigger] genes[k]).node(),
    ) by {
        assert(genes.contains(genes[k]));
        assert(pattern.to_multiset().count(genes[k]) > 0);
        assert(pattern.contains(genes[k]));
        let m = choose|m: int| 0 <= m < pattern.len() && pattern[m] == genes[k];
        assert(model.has_node(pattern[m].node()));
    }
}

/// A rearrangement of the scores of the chromosomes, each with its place,
/// ranks the chromosomes once it is ascending.
pub proof fn lemma_ranking(
    chromosomes: Seq<Chromosome>,
    unsorted: Seq<(i128, usize)>,
    sorted: Seq<(i128, usize)>,
    scores: Seq<(usize, u128)>,
)
    requires
        unsorted.len() == chromosomes.len(),
        forall|k: int|
            0 <= k < unsorted.len() ==> (#[trigger] unsorted[k]).1 == k
                && chromosomes[k].score is Some && chromosomes[k].score->0 == unsorted[k].0,
        sorted.to_multiset() == unsorted.to_multiset(),
        ascending(sorted),
        scores.len() == sorted.len(),
        forall|i: int|
            0 <= i < scores.len() ==> (#[trigger] scores[i]).0 == sorted[i].1 && scores[i].1
                == sorted[i].0,
    ensures
        ranks(chromosomes, scores),
{
    broadcast use vstd::seq_lib::group_to_multiset_ensures;

    vstd::seq_lib::to_multiset_len(sorted);
    vstd::seq_lib::to_multiset_len(unsorted);
    assert(unsorted.no_duplicates());
    unsorted.lemma_multiset_has_no_duplicates();
    sorted.lemma_multiset_has_no_duplicates_conv();
    assert forall|i: int| 0 <= i < sorted.len() implies (#[trigger] sorted[i]).1
        < chromosomes.len() && chromosomes[sorted[i].1 as int].score is Some
        && chromosomes[sorted[i].1 as int].score->0 == sorted[i].0 by {
        assert(sorted.contains(sorted[i]));
        assert(unsorted.to_multiset().count(sorted[i]) > 0);
        assert(unsorted.contains(sorted[i]));
        let k = choose|k: int| 0 <= k < unsorted.len() && unsorted[k] == sorted[i];
        assert(unsorted[k].1 == k);
    }
    assert forall|i: int, j: int| 0 <= i < j < scores.len() implies (#[trigger] scores[i]).1 < (
    #[trigger] scores[j]).1 || (scores[i].1 == scores[j].1 && scores[i].0 < scores[j].0) by {
        assert(entry_le(sorted[i], sorted[j]));
        assert(sorted[i] != sorted[j]);
    }
    assert forall|k: int| 0 <= k < chromosomes.len() implies #[trigger] has_entry(scores, k) by {
        assert(unsorted.contains(unsorted[k]));
        assert(sorted.to_multiset().count(unsorted[k]) > 0);
        assert(sorted.contains(unsorted[k]));
        let i = choose|i: int| 0 <= i < sorted.len() && sorted[i] == unsorted[k];
        assert(scores[i].0 == k);
    }
}

/// Whether the next generation holds the chromosome that stands at `place`
/// in this one, with its score, where the ranking puts it.
pub open spec fn survives(population: Population, next: Population, place: int) -> bool {
    exists|i: int|
        0 <= i < next.chromosomes@.len() && i < population.scores@.len() && (
        #[trigger] population.scores@[i]).0 == place && next.chromosomes@[i].genes@
            == population.chromosomes@[place].genes@ && next.chromosomes@[i].score
            == population.chromosomes@[place].score
}

/// Where every chromosome is elite, the next generation is this one: it
/// holds each chromosome of this generation, with its score, at the place
/// that the ranking gives it.
pub proof fn lemma_all_elite_unchanged(population: Population, next: Population)
    requires
        population.ranked(),
        next.chromosomes@.len() == population.chromosomes@.len(),
        forall|i: int|
            0 <= i < next.chromosomes@.len() ==> (#[trigger] next.chromosomes@[i]).genes@
                == population.chromosomes@[population.scores@[i].0 as int].genes@
                && next.chromosomes@[i].score == Some(population.scores@[i].1),
    ensures
        forall|k: int|
            0 <= k < population.chromosomes@.len() ==> #[trigger] survives(population, next, k),
{
    assert forall|k: int| 0 <= k < population.chromosomes@.len() implies #[trigger] survives(
        population,
        next,
        k,
    ) by {
        assert(has_entry(population.scores@, k));
        let i = choose|i: int|
            0 <= i < population.scores@.len() && (#[trigger] population.scores@[i]).0 == k;
        assert(next.chromosomes@[i].genes@ == population.chromosomes@[k].genes@);
    }
}

/// Whether two parents give these two sequences before any mutation: their
/// own, which they give only under a rate of crossover below
/// `RATE_SCALE`, or those of the two children that an order crossover has
/// at some segment, which they give only under a rate above zero.
pub open spec fn crossed_or_copied(
    config: Config,
    parent_one: Seq<Gene>,
    parent_two: Seq<Gene>,
    one: Seq<Gene>,
    two: Seq<Gene>,
) -> bool {
    ||| config.crossover_rate < RATE_SCALE && one == parent_one && two == parent_two
    ||| config.crossover_rate > 0 && exists|begin: int, end: int|
        0 <= begin <= end < parent_one.len() && one == #[trigger] crossover_child(
            parent_one,
            parent_two,
            begin,
            end,
        ) && two == crossover_child(parent_two, parent_one, begin, end)
}

/// What removals of vehicles and then exchanges of genes make of a
/// sequence: see [`removed_in_turn`] and [`swapped_in_turn`].
pub open spec fn varied(base: Seq<Gene>, starts: Seq<int>, swaps: Seq<(int, int)>) -> Option<
    Seq<Gene>,
> {
    match removed_in_turn(base, starts) {
        Some(thinned) => Some(swapped_in_turn(thinned, swaps)),
        None => None,
    }
}

/// Whether the mutations of the settings can make `child` of `base`: by
/// removals of vehicles and then exchanges of genes, each repeated as often
/// as its settings allow, see [`repeats`].
pub open spec fn mutated_from(config: Config, base: Seq<Gene>, child: Seq<Gene>) -> bool {
    exists|starts: Seq<int>, swaps: Seq<(int, int)>|
        #[trigger] varied(base, starts, swaps) == Some(child) && repeats(
            config.vehicle_remove_mut_rate,
            config.vehicle_remove_mut_max,
            starts.len(),
        ) && repeats(config.single_swap_mut_rate, config.single_swap_mut_max, swaps.len())
            && swaps_in_range(swaps, base.len() as int)
}

/// Whether two children can descend from the two parents under the
/// settings: the parents are crossed or copied, see
/// [`crossed_or_copied`], and each of the two sequences that this gives is
/// mutated, see [`mutated_from`].
pub open spec fn descend_from(
    config: Config,
    parent_one: Seq<Gene>,
    parent_two: Seq<Gene>,
    child_one: Seq<Gene>,
    child_two: Seq<Gene>,
) -> bool {
    exists|one: Seq<Gene>, two: Seq<Gene>| #[trigger]
        crossed_or_copied(config, parent_one, parent_two, one, two) && mutated_from(
            config,
            one,
            child_one,
        ) && mutated_from(config, two, child_two)
}

/// Whether the chromosome can be selected as a parent: it wins a tournament
/// among as many candidates as the settings ask for.
pub open spec fn selected(population: Population, config: Config, parent: Chromosome) -> bool {
    exists|candidates: Seq<usize>|
        candidates.len() == config.parent_selection_k && #[trigger] selected_by(
            population.chromosomes@,
            candidates,
            parent,
        )
}

/// With one candidate to a tournament, every chromosome can be selected,
/// whatever its score: the selection puts no pressure on the population.
pub proof fn lemma_one_candidate_selects_any(population: Population, config: Config, place: usize)
    requires
        config.parent_selection_k == 1,
        place < population.chromosomes@.len(),
    ensures
        selected(population, config, population.chromosomes@[place as int]),
{
    let candidates = seq![place];
    assert(candidates[0] == place);
    assert(wins(population.chromosomes@, candidates, 0));
    assert(selected_by(
        population.chromosomes@,
        candidates,
        population.chromosomes@[place as int],
    ));
}

/// Whether two children can descend from two chromosomes of the population
/// that can be selected as parents: see [`descend_from`] and [`selected`].
pub open spec fn bred_from(
    population: Population,
    config: Config,
    child_one: Seq<Gene>,
    child_two: Seq<Gene>,
) -> bool {
    exists|a: int, b: int|
        0 <= a < population.chromosomes@.len() && 0 <= b < population.chromosomes@.len()
            && selected(population, config, population.chromosomes@[a]) && selected(
            population,
            config,
            population.chromosomes@[b],
        ) && #[trigger] descend_from(
            config,
            population.chromosomes@[a].genes@,
            population.chromosomes@[b].genes@,
            child_one,
            child_two,
        )
}

/// Whether a chromosome of these genes can be one of two children that
/// descend from two chromosomes of the population: see [`bred_from`].
pub open spec fn child_of(population: Population, config: Config, genes: Seq<Gene>) -> bool {
    ||| exists|other: Seq<Gene>| #[trigger] bred_from(population, config, genes, other)
    ||| exists|other: Seq<Gene>| #[trigger] bred_from(population, config, other, genes)
}

/// What breeding two children from a population comes to.
///
/// Children that come back descend from two chromosomes of the population
/// that won a tournament each, by crossover and mutations as the settings
/// allow them, see [`bred_from`], and have as many genes as
/// the first chromosome of the population; in a consistent population they
/// are arrangements of its genes. The error is `GaError::Invariant`, and comes only under
/// settings that remove vehicles; it does not come to a consistent
/// population from whose first chromosome a vehicle can be removed.
pub open spec fn bred(
    population: Population,
    config: Config,
    outcome: Result<(Chromosome, Chromosome), GaError>,
) -> bool {
    &&& outcome is Ok ==> bred_from(
        population,
        config,
        outcome->Ok_0.0.genes@,
        outcome->Ok_0.1.genes@,
    )
    &&& outcome is Ok ==> outcome->Ok_0.0.genes@.len() == population.chromosomes@[0].genes@.len()
        && outcome->Ok_0.1.genes@.len() == population.chromosomes@[0].genes@.len()
    &&& outcome is Ok && population.consistent() ==> arrangement_of(
        outcome->Ok_0.0.genes@,
        population.chromosomes@[0].genes@,
    ) && arrangement_of(outcome->Ok_0.1.genes@, population.chromosomes@[0].genes@)
    &&& outcome is Err ==> outcome->Err_0 == GaError::Invariant && config.removes_vehicles()
    &&& population.consistent() && removable(population.chromosomes@[0].genes@) ==> outcome is Ok
}

/// Whether a chance of `rate` in `RATE_SCALE` comes true with the number
/// `drawn`: it does where the number is below the rate.
pub fn comes_true(rate: u32, drawn: usize) -> (hit: bool)
    ensures
        hit == (drawn < rate),
{
    drawn < rate as usize
}

/// Decides a chance of `rate` in `RATE_SCALE` with a number drawn below
/// `RATE_SCALE`, see [`comes_true`]. A rate of `RATE_SCALE` or more always
/// comes true, a rate of zero never.
pub fn chance(rate: u32) -> (hit: bool)
    ensures
        rate == 0 ==> !hit,
        rate >= RATE_SCALE ==> hit,
{
    let drawn = random_in_range(0, RATE_SCALE as usize);
    comes_true(rate, drawn)
}

/// Draws how often a mutation is repeated: a number below `max`, and never
/// where `max` is zero.
pub fn draw_times(max: usize) -> (times: usize)
    ensures
        max == 0 ==> times == 0,
        max > 0 ==> times < max,
{
    if max == 0 {
        0
    } else {
        random_in_range(0, max)
    }
}

/// With the chance that the settings give it, removes a vehicle from the
/// child as often as is drawn.
///
/// Whatever is drawn, the child that comes back is what removing vehicles
/// makes of it, one after the other and each from a place of its own, see
/// [`removed_in_turn`]: as often as [`repeats`] allows, which is never
/// under a rate of zero. A child from which nothing was removed comes back
/// as it was, with its score; any other has no score. The child comes back
/// whenever a vehicle can be removed from it, and whenever the settings
/// never remove one; the error is `GaError::Invariant`.
#[verifier::loop_isolation(false)]
pub fn mutate_vehicles(child: Chromosome, config: &Config) -> (outcome: Result<
    Chromosome,
    GaError,
>)
    requires
        child.genes@.len() > 0,
    ensures
        outcome is Ok ==> outcome->Ok_0.genes@.to_multiset() == child.genes@.to_multiset()
            && outcome->Ok_0.genes@.len() == child.genes@.len(),
        outcome is Ok ==> exists|starts: Seq<int>|
            #[trigger] removed_in_turn(child.genes@, starts) == Some(outcome->Ok_0.genes@)
                && repeats(
                config.vehicle_remove_mut_rate,
                config.vehicle_remove_mut_max,
                starts.len(),
            ) && outcome->Ok_0.score == (if starts.len() == 0 {
                child.score
            } else {
                None
            }),
        outcome is Err ==> outcome->Err_0 == GaError::Invariant && config.removes_vehicles()
            && !removable(child.genes@),
{
    let hit = chance(config.vehicle_remove_mut_rate);
    let times = draw_times(config.vehicle_remove_mut_max);
    let ghost given = child.genes@;
    let ghost mut starts = Seq::<int>::empty();
    let mut current = child;
    if hit {
        let mut done: usize = 0;
        while done < times
            invariant
                given.len() > 0,
                0 <= done <= times,
                times > 0 ==> config.removes_vehicles(),
                current.genes@.to_multiset() == given.to_multiset(),
                current.genes@.len() == given.len(),
                done > 0 ==> removable(current.genes@),
                done == 0 ==> current.genes@ == given,
                starts.len() == done,
                removed_in_turn(given, starts) == Some(current.genes@),
                current.score == (if done == 0 {
                    child.score
                } else {
                    None
                }),
            decreases times - done,
        {
            proof {
                vstd::seq_lib::to_multiset_len(current.genes@);
            }
            match current.remove_vehicle_mutation() {
                Ok(mutant) => {
                    proof {
                        vstd::seq_lib::to_multiset_len(mutant.genes@);
                        vstd::seq_lib::to_multiset_len(current.genes@);
                        let start = choose|start: int|
                            0 <= start < current.genes@.len() && match #[trigger] vehicle_removed(
                                current.genes@,
                                start,
                            ) {
                                Some(genes) => mutant.genes@ == genes && mutant.score is None,
                                None => false,
                            };
                        let longer = starts.push(start);
                        assert(longer.drop_last() =~= starts);
                        assert(removed_in_turn(given, longer) == Some(mutant.genes@));
                        starts = longer;
                    }
                    current = mutant;
                },
                Err(error) => {
                    return Err(error);
                },
            }
            done += 1;
        }
    }
    proof {
        assert(removed_in_turn(given, starts) == Some(current.genes@));
        assert(repeats(config.vehicle_remove_mut_rate, config.vehicle_remove_mut_max, starts.len()));
    }
    Ok(current)
}

/// With the chance that the settings give it, exchanges two genes of the
/// child as often as is drawn.
///
/// Whatever is drawn, the child that comes back is what exchanges of two
/// genes make of it, one after the other and each at two places of its
/// own, see [`swapped_in_turn`]: as often as [`repeats`] allows, which is
/// never under a rate of zero. It is an arrangement of the genes that the
/// child had. A child of which nothing was exchanged comes back as it was,
/// with its score; any other has no score.
#[verifier::loop_isolation(false)]
pub fn mutate_swaps(child: Chromosome, config: &Config) -> (mutant: Chromosome)
    requires
        child.genes@.len() > 0,
    ensures
        mutant.genes@.to_multiset() == child.genes@.to_multiset(),
        mutant.genes@.len() == child.genes@.len(),
        exists|swaps: Seq<(int, int)>|
            mutant.genes@ == #[trigger] swapped_in_turn(child.genes@, swaps) && swaps_in_range(
                swaps,
                child.genes@.len() as int,
            ) && repeats(config.single_swap_mut_rate, config.single_swap_mut_max, swaps.len())
                && mutant.score == (if swaps.len() == 0 {
                child.score
            } else {
                None
            }),
{
    let hit = chance(config.single_swap_mut_rate);
    let times = draw_times(config.single_swap_mut_max);
    let ghost given = child.genes@;
    let ghost mut swaps = Seq::<(int, int)>::empty();
    let mut current = child;
    if hit {
        let mut done: usize = 0;
        while done < times
            invariant
                given.len() > 0,
                0 <= done <= times,
                current.genes@.to_multiset() == given.to_multiset(),
                current.genes@.len() == given.len(),
                swaps.len() == done,
                swaps_in_range(swaps, given.len() as int),
                current.genes@ == swapped_in_turn(given, swaps),
                current.score == (if done == 0 {
                    child.score
                } else {
                    None
                }),
            decreases times - done,
        {
            let mutant = current.single_swap_mutation();
            proof {
                vstd::seq_lib::to_multiset_len(mutant.genes@);
                vstd::seq_lib::to_multiset_len(current.genes@);
                let (i, j) = choose|i: int, j: int|
                    0 <= i < current.genes@.len() && 0 <= j < current.genes@.len() && mutant.genes@
                        == #[trigger] swapped(current.genes@, i, j);
                let longer = swaps.push((i, j));
                assert(longer.drop_last() =~= swaps);
                assert(longer.last() == (i, j));
                assert(mutant.genes@ == swapped_in_turn(given, longer));
                assert(swaps_in_range(longer, given.len() as int)) by {
                    assert forall|k: int| 0 <= k < longer.len() implies 0 <= (
                    #[trigger] longer[k]).0 < given.len() && 0 <= longer[k].1 < given.len() by {
                        if k < swaps.len() {
                            assert(longer[k] == swaps[k]);
                        }
                    }
                }
                swaps = longer;
            }
            current = mutant;
            done += 1;
        }
    }
    proof {
        assert(current.genes@ == swapped_in_turn(given, swaps));
        assert(repeats(config.single_swap_mut_rate, config.single_swap_mut_max, swaps.len()));
    }
    current
}

/// Whether a mutation can be repeated `count` times under these settings:
/// not at all, or, under a rate above zero, fewer than `max` times.
pub open spec fn repeats(rate: u32, max: usize, count: nat) -> bool {
    count == 0 || (rate > 0 && count < max)
}

/// A sequence that removals make of another, and exchanges of a third, is
/// what the mutations make of the first.
pub proof fn lemma_mutated(config: Config, base: Seq<Gene>, thinned: Seq<Gene>, child: Seq<Gene>)
    requires
        base.len() == thinned.len(),
        exists|starts: Seq<int>|
            #[trigger] removed_in_turn(base, starts) == Some(thinned) && repeats(
                config.vehicle_remove_mut_rate,
                config.vehicle_remove_mut_max,
                starts.len(),
            ),
        exists|swaps: Seq<(int, int)>|
            child == #[trigger] swapped_in_turn(thinned, swaps) && swaps_in_range(
                swaps,
                thinned.len() as int,
            ) && repeats(config.single_swap_mut_rate, config.single_swap_mut_max, swaps.len()),
    ensures
        mutated_from(config, base, child),
{
    let starts = choose|starts: Seq<int>|
        #[trigger] removed_in_turn(base, starts) == Some(thinned) && repeats(
            config.vehicle_remove_mut_rate,
            config.vehicle_remove_mut_max,
            starts.len(),
        );
    let swaps = choose|swaps: Seq<(int, int)>|
        child == #[trigger] swapped_in_turn(thinned, swaps) && swaps_in_range(
            swaps,
            thinned.len() as int,
        ) && repeats(config.single_swap_mut_rate, config.single_swap_mut_max, swaps.len());
    assert(varied(base, starts, swaps) == Some(child));
}

/// Genes that hold what genes without repeats hold have no repeats.
pub proof fn lemma_arrangement(genes: Seq<Gene>, pattern: Seq<Gene>)
    requires
        pattern.no_duplicates(),
        genes.to_multiset() == pattern.to_multiset(),
    ensures
        arrangement_of(genes, pattern),
{
    pattern.lemma_multiset_has_no_duplicates();
    genes.lemma_multiset_has_no_duplicates_conv();
}

impl Population {
    /// Whether the chromosomes have been evaluated and ranked: see
    /// [`ranks`].
    pub open spec fn ranked(&self) -> bool {
        ranks(self.chromosomes@, self.scores@)
    }

    /// Whether all chromosomes have as many genes as the first, and at
    /// least one.
    pub open spec fn uniform(&self) -> bool {
        forall|k: int|
            0 <= k < self.chromosomes@.len() ==> (#[trigger] self.chromosomes@[k]).genes@.len()
                == self.chromosomes@[0].genes@.len() && self.chromosomes@[k].genes@.len() > 0
    }

    /// Whether all chromosomes are arrangements of the genes of the first,
    /// none of which comes twice.
    pub open spec fn consistent(&self) -> bool {
        forall|k: int|
            0 <= k < self.chromosomes@.len() ==> arrangement_of(
                (#[trigger] self.chromosomes@[k]).genes@,
                self.chromosomes@[0].genes@,
            )
    }

    /// A population without chromosomes, with room for as many as the
    /// settings ask for.
    pub fn new(config: &Config) -> (population: Population)
        ensures
            population.chromosomes@.len() == 0,
            population.scores@.len() == 0,
    {
        Population { chromosomes: Vec::with_capacity(config.population_size), scores: Vec::new() }
    }

    /// The number of chromosomes.
    pub fn size(&self) -> (size: usize)
        ensures
            size == self.chromosomes@.len(),
    {
        self.chromosomes.len()
    }

    /// Tests whether all chromosomes have as many genes as the first, and
    /// at least one.
    pub fn is_uniform(&self) -> (uniform: bool)
        ensures
            uniform == self.uniform(),
    {
        let mut k: usize = 0;
        while k < self.chromosomes.len()
            invariant
                0 <= k <= self.chromosomes@.len(),
                forall|m: int|
                    0 <= m < k ==> (#[trigger] self.chromosomes@[m]).genes@.len()
                        == self.chromosomes@[0].genes@.len() && self.chromosomes@[m].genes@.len()
                        > 0,
            decreases self.chromosomes@.len() - k,
        {
            let count = self.chromosomes[k].genes.len();
            if count == 0 || count != self.chromosomes[0].genes.len() {
                return false;
            }
            k += 1;
        }
        true
    }

    /// Tests whether the chromosomes have been evaluated and ranked: see
    /// [`ranks`].
    pub fn is_ranked(&self) -> (ranked: bool)
        ensures
            ranked == self.ranked(),
    {
        let size = self.chromosomes.len();
        if self.scores.len() != size {
            return false;
        }
        let mut seen: Vec<bool> = vec![false; size];
        let mut i: usize = 0;
        while i < size
            invariant
                0 <= i <= size,
                size == self.chromosomes@.len(),
                size == self.scores@.len(),
                seen@.len() == size,
                forall|e: int|
                    0 <= e < i ==> (#[trigger] self.scores@[e]).0 < size
                        && self.chromosomes@[self.scores@[e].0 as int].score == Some(
                        self.scores@[e].1,
                    ),
                forall|a: int, b: int|
                    0 <= a < b < i ==> (#[trigger] self.scores@[a]).1 < (
                    #[trigger] self.scores@[b]).1 || (self.scores@[a].1 == self.scores@[b].1
                        && self.scores@[a].0 < self.scores@[b].0),
                forall|k: int|
                    0 <= k < size ==> (#[trigger] seen@[k] <==> exists|e: int|
                        0 <= e < i && (#[trigger] self.scores@[e]).0 == k),
            decreases size - i,
        {
            let (place, score) = self.scores[i];
            if place >= size {
                return false;
            }
            match self.chromosomes[place].score {
                Some(kept) => {
                    if kept != score {
                        return false;
                    }
                },
                None => {
                    return false;
                },
            }
            if i > 0 {
                let (place_before, score_before) = self.scores[i - 1];
                if !(score_before < score || (score_before == score && place_before < place)) {
                    return false;
                }
            }
            let ghost marked = seen@;
            seen.set(place, true);
            proof {
                assert forall|k: int| 0 <= k < size implies (#[trigger] seen@[k] <==> exists|e: int|
                    0 <= e < i + 1 && (#[trigger] self.scores@[e]).0 == k) by {
                    if seen@[k] {
                        if k == place {
                            assert(self.scores@[i as int].0 == k);
                        } else {
                            assert(marked[k]);
                            let e = choose|e: int|
                                0 <= e < i && (#[trigger] self.scores@[e]).0 == k;
                            assert(0 <= e < i + 1);
                        }
                    } else {
                        assert(k != place);
                        assert(!marked[k]);
                    }
                }
            }
            i += 1;
        }
        let mut k: usize = 0;
        while k < size
            invariant
                0 <= k <= size,
                size == self.chromosomes@.len(),
                size == self.scores@.len(),
                seen@.len() == size,
                forall|m: int|
                    0 <= m < size ==> (#[trigger] seen@[m] <==> exists|e: int|
                        0 <= e < size && (#[trigger] self.scores@[e]).0 == m),
                forall|m: int| 0 <= m < k ==> #[trigger] has_entry(self.scores@, m),
            decreases size - k,
        {
            if !seen[k] {
                assert(!has_entry(self.scores@, k as int));
                return false;
            }
            assert(seen@[k as int]);
            k += 1;
        }
        true
    }

    /// Evaluates the chromosomes, side by side, and ranks them by their
    /// scores, the lowest first.
    ///
    /// The genes stay as they are. The error is that of the first
    /// chromosome that cannot be evaluated; the ranking is then left as it
    /// was.
    pub fn evaluate(&mut self, model: &Model, penalty: u32) -> (outcome: Result<(), GaError>)
        requires
            model.wf(),
        ensures
            final(self).chromosomes@.len() == old(self).chromosomes@.len(),
            forall|k: int|
                0 <= k < old(self).chromosomes@.len() ==> (#[trigger] final(self).chromosomes@[k]).genes@ == old(self).chromosomes@[k].genes@,
            outcome is Ok <==> forall|k: int|
                0 <= k < old(self).chromosomes@.len() ==> evaluable(
                    model,
                    (#[trigger] old(self).chromosomes@[k]).genes@,
                ),
            outcome is Ok ==> final(self).ranked() && forall|k: int|
                0 <= k < old(self).chromosomes@.len() ==> scored(
                    model,
                    penalty as int,
                    #[trigger] final(self).chromosomes@[k],
                ),
            outcome is Err ==> final(self).scores@ == old(self).scores@ && exists|k: int|
                0 <= k < old(self).chromosomes@.len() && !evaluable(
                    model,
                    (#[trigger] old(self).chromosomes@[k]).genes@,
                ) && outcome->Err_0 == refusal(old(self).chromosomes@[k].genes@) && forall|m: int|
                    0 <= m < k ==> evaluable(model, (#[trigger] old(self).chromosomes@[m]).genes@),
    {
        let size = self.chromosomes.len();
        let outcomes = evaluate_each(&mut self.chromosomes, model, penalty);
        let mut entries: Vec<(i128, usize)> = Vec::with_capacity(size);
        let mut i: usize = 0;
        while i < size
            invariant
                0 <= i <= size,
                size == old(self).chromosomes@.len(),
                self.chromosomes@.len() == size,
                outcomes@.len() == size,
                self.scores@ == old(self).scores@,
                forall|k: int|
                    0 <= k < size ==> evaluated_as(
                        model,
                        penalty as int,
                        old(self).chromosomes@[k],
                        #[trigger] self.chromosomes@[k],
                        outcomes@[k],
                    ),
                forall|k: int|
                    0 <= k < i ==> evaluable(model, (#[trigger] old(self).chromosomes@[k]).genes@),
                entries@.len() == i,
                forall|k: int|
                    0 <= k < i ==> (#[trigger] entries@[k]).1 == k && self.chromosomes@[k].score
                        is Some && self.chromosomes@[k].score->0 == entries@[k].0,
            decreases size - i,
        {
            assert(evaluated_as(
                model,
                penalty as int,
                old(self).chromosomes@[i as int],
                self.chromosomes@[i as int],
                outcomes@[i as int],
            ));
            match outcomes[i] {
                Ok(score) => {
                    proof {
                        let genes = old(self).chromosomes@[i as int].genes@;
                        assert(genes.len() == old(self).chromosomes@[i as int].genes.len());
                        assert(genes.len() * step_limit() <= 0xffff_ffff_ffff_ffff * step_limit())
                            by (nonlinear_arith)
                            requires
                                genes.len() <= 0xffff_ffff_ffff_ffff,
                        ;
                    }
                    entries.push((score as i128, i));
                },
                Err(error) => {
                    return Err(error);
                },
            }
            i += 1;
        }
        proof {
            assert forall|k: int| 0 <= k < size implies scored(
                model,
                penalty as int,
                #[trigger] self.chromosomes@[k],
            ) by {
                assert(evaluated_as(
                    model,
                    penalty as int,
                    old(self).chromosomes@[k],
                    self.chromosomes@[k],
                    outcomes@[k],
                ));
            }
        }
        let ghost unsorted = entries@;
        let sorted = sorted_entries(entries);
        proof {
            vstd::seq_lib::to_multiset_len(sorted@);
            vstd::seq_lib::to_multiset_len(unsorted);
            broadcast use vstd::seq_lib::group_to_multiset_ensures;

            assert forall|k: int| 0 <= k < sorted@.len() implies (#[trigger] sorted@[k]).0
                >= 0 by {
                assert(sorted@.contains(sorted@[k]));
                assert(unsorted.to_multiset().count(sorted@[k]) > 0);
                assert(unsorted.contains(sorted@[k]));
            }
        }
        let mut scores: Vec<(usize, u128)> = Vec::with_capacity(size);
        let mut j: usize = 0;
        while j < size
            invariant
                0 <= j <= size,
                size == sorted@.len(),
                scores@.len() == j,
                forall|k: int| 0 <= k < sorted@.len() ==> (#[trigger] sorted@[k]).0 >= 0,
                forall|k: int|
                    0 <= k < j ==> (#[trigger] scores@[k]).0 == sorted@[k].1 && scores@[k].1
                        == sorted@[k].0,
            decreases size - j,
        {
            let entry = sorted[j];
            scores.push((entry.1, entry.0 as u128));
            j += 1;
        }
        proof {
            lemma_ranking(self.chromosomes@, unsorted, sorted@, scores@);
        }
        self.scores = scores;
        Ok(())
    }

    /// The winner of a tournament among the chromosomes at the places that
    /// `candidates` names: the one with the lowest score, and of several
    /// such the one named first. A chromosome without a score loses to any
    /// that has one.
    pub fn tournament(&self, candidates: &Vec<usize>) -> (winner: usize)
        requires
            candidates@.len() > 0,
            forall|u: int|
                0 <= u < candidates@.len() ==> (#[trigger] candidates@[u])
                    < self.chromosomes@.len(),
        ensures
            winner < self.chromosomes@.len(),
            exists|place: int|
                wins(self.chromosomes@, candidates@, place) && #[trigger] candidates@[place]
                    == winner,
    {
        let mut best_place: usize = 0;
        let mut best_key: u128 = match self.chromosomes[candidates[0]].score {
            Some(score) => score,
            None => u128::MAX,
        };
        let mut u: usize = 1;
        while u < candidates.len()
            invariant
                1 <= u <= candidates@.len(),
                0 <= best_place < u,
                forall|t: int|
                    0 <= t < candidates@.len() ==> (#[trigger] candidates@[t])
                        < self.chromosomes@.len(),
                best_key as int == score_key(self.chromosomes@[candidates@[best_place as int] as int]),
                forall|t: int|
                    0 <= t < u ==> best_key as int <= score_key(
                        self.chromosomes@[(#[trigger] candidates@[t]) as int],
                    ),
                forall|t: int|
                    0 <= t < best_place ==> score_key(
                        self.chromosomes@[(#[trigger] candidates@[t]) as int],
                    ) > best_key as int,
            decreases candidates@.len() - u,
        {
            let key = match self.chromosomes[candidates[u]].score {
                Some(score) => score,
                None => u128::MAX,
            };
            if key < best_key {
                best_key = key;
                best_place = u;
            }
            u += 1;
        }
        assert(wins(self.chromosomes@, candidates@, best_place as int));
        candidates[best_place]
    }

    /// Selects a parent by a tournament: as many places as the settings ask
    /// for are drawn from all the places, each independently of the others,
    /// and the best of the chromosomes there wins.
    pub fn parent_selection(&self, config: &Config) -> (parent: &Chromosome)
        requires
            self.chromosomes@.len() > 0,
            config.parent_selection_k >= 1,
        ensures
            selected(*self, *config, *parent),
            exists|k: int|
                0 <= k < self.chromosomes@.len() && *parent == #[trigger] self.chromosomes@[k],
    {
        let size = self.chromosomes.len();
        let mut indices: Vec<usize> = Vec::new();
        let mut drawn: usize = 0;
        while drawn < config.parent_selection_k
            invariant
                size == self.chromosomes@.len(),
                size > 0,
                0 <= drawn <= config.parent_selection_k,
                indices@.len() == drawn,
                forall|u: int| 0 <= u < indices@.len() ==> (#[trigger] indices@[u]) < size,
            decreases config.parent_selection_k - drawn,
        {
            indices.push(random_in_range(0, size));
            drawn += 1;
        }
        let winner = self.tournament(&indices);
        assert(selected_by(self.chromosomes@, indices@, self.chromosomes@[winner as int]));
        &self.chromosomes[winner]
    }

    /// Breeds two children: two parents are selected, crossed with the
    /// chance that the settings give or else copied, and each child is
    /// mutated, first by removing vehicles, then by exchanging genes.
    ///
    /// Whatever is drawn, the outcome is as [`bred`] describes it.
    pub fn offspring(&self, config: &Config) -> (outcome: Result<(Chromosome, Chromosome), GaError>)
        requires
            self.chromosomes@.len() > 0,
            self.uniform(),
            config.parent_selection_k >= 1,
        ensures
            bred(*self, *config, outcome),
    {
        let ghost pattern = self.chromosomes@[0].genes@;
        let parent_one: &Chromosome = self.parent_selection(config);
        let parent_two: &Chromosome = self.parent_selection(config);
        let crossover = chance(config.crossover_rate);
        let (child_one, child_two) = if crossover {
            parent_one.order_one_crossover(parent_two)
        } else {
            (parent_one.duplicate(), parent_two.duplicate())
        };
        let ghost first = child_one.genes@;
        let ghost second = child_two.genes@;
        assert(crossed_or_copied(*config, parent_one.genes@, parent_two.genes@, first, second));
        proof {
            vstd::seq_lib::to_multiset_len(child_one.genes@);
            vstd::seq_lib::to_multiset_len(child_two.genes@);
            vstd::seq_lib::to_multiset_len(parent_one.genes@);
            if self.consistent() {
                lemma_arrangement(child_one.genes@, pattern);
                lemma_arrangement(child_two.genes@, pattern);
                if removable(pattern) {
                    lemma_removable_arrangement(child_one.genes@, pattern);
                    lemma_removable_arrangement(child_two.genes@, pattern);
                }
            }
        }
        let child_one = match mutate_vehicles(child_one, config) {
            Ok(child) => child,
            Err(error) => {
                return Err(error);
            },
        };
        let child_two = match mutate_vehicles(child_two, config) {
            Ok(child) => child,
            Err(error) => {
                return Err(error);
            },
        };
        let ghost thinned_one = child_one.genes@;
        let ghost thinned_two = child_two.genes@;
        let child_one = mutate_swaps(child_one, config);
        let child_two = mutate_swaps(child_two, config);
        proof {
            assert(child_one.genes@.to_multiset() == first.to_multiset());
            assert(child_two.genes@.to_multiset() == second.to_multiset());
            lemma_mutated(*config, first, thinned_one, child_one.genes@);
            lemma_mutated(*config, second, thinned_two, child_two.genes@);
            assert(descend_from(
                *config,
                parent_one.genes@,
                parent_two.genes@,
                child_one.genes@,
                child_two.genes@,
            ));
            let a = choose|a: int|
                0 <= a < self.chromosomes@.len() && *parent_one == #[trigger] self.chromosomes@[a];
            let b = choose|b: int|
                0 <= b < self.chromosomes@.len() && *parent_two == #[trigger] self.chromosomes@[b];
            assert(selected(*self, *config, self.chromosomes@[a]));
            assert(selected(*self, *config, self.chromosomes@[b]));
            assert(descend_from(
                *config,
                self.chromosomes@[a].genes@,
                self.chromosomes@[b].genes@,
                child_one.genes@,
                child_two.genes@,
            ));
            if self.consistent() {
                lemma_arrangement(child_one.genes@, pattern);
                lemma_arrangement(child_two.genes@, pattern);
            }
        }
        Ok((child_one, child_two))
    }

    /// The next generation: as many chromosomes as this one has.
    ///
    /// The first `elite_count` of them are the best of this generation, in
    /// the order of the ranking and with their scores. The others are bred
    /// two at a time, the pairs side by side, see [`Population::offspring`],
    /// and the second of the last two is left out where there is room for
    /// one only. The new generation has no ranking.
    ///
    /// Whatever is drawn, each chromosome that is bred descends from two
    /// chromosomes of this generation, see [`child_of`]; the next generation
    /// of a uniform population is uniform, and that of a consistent
    /// population is made of arrangements of its genes. Where all
    /// chromosomes are elite, nothing is drawn.
    pub fn evolve(&self, config: &Config) -> (outcome: Result<Population, GaError>)
        requires
            self.ranked(),
            config.elite_count <= self.chromosomes@.len(),
            config.elite_count < self.chromosomes@.len() ==> self.uniform()
                && config.parent_selection_k >= 1,
        ensures
            outcome is Ok ==> {
                let next = outcome->Ok_0;
                &&& next.chromosomes@.len() == self.chromosomes@.len()
                &&& next.scores@.len() == 0
                &&& forall|i: int|
                    0 <= i < config.elite_count ==> (#[trigger] next.chromosomes@[i]).genes@
                        == self.chromosomes@[self.scores@[i].0 as int].genes@
                        && next.chromosomes@[i].score == Some(self.scores@[i].1)
                &&& forall|k: int|
                    config.elite_count <= k < next.chromosomes@.len() ==> child_of(
                        *self,
                        *config,
                        (#[trigger] next.chromosomes@[k]).genes@,
                    )
                &&& forall|k: int|
                    config.elite_count <= k < next.chromosomes@.len() ==> (
                    #[trigger] next.chromosomes@[k]).genes@.len()
                        == self.chromosomes@[0].genes@.len()
                &&& self.uniform() ==> next.uniform()
                &&& self.consistent() ==> forall|k: int|
                    0 <= k < next.chromosomes@.len() ==> arrangement_of(
                        (#[trigger] next.chromosomes@[k]).genes@,
                        self.chromosomes@[0].genes@,
                    )
            },
            outcome is Err ==> outcome->Err_0 == GaError::Invariant && config.removes_vehicles()
                && config.elite_count < self.chromosomes@.len(),
            config.elite_count == self.chromosomes@.len() ==> outcome is Ok,
            !config.removes_vehicles() ==> outcome is Ok,
            self.consistent() && self.chromosomes@.len() > 0 && removable(
                self.chromosomes@[0].genes@,
            ) ==> outcome is Ok,
    {
        let size = self.chromosomes.len();
        let mut new_chromosomes: Vec<Chromosome> = Vec::with_capacity(size);
        let mut i: usize = 0;
        while i < config.elite_count
            invariant
                self.ranked(),
                size == self.chromosomes@.len(),
                config.elite_count <= size,
                0 <= i <= config.elite_count,
                new_chromosomes@.len() == i,
                forall|e: int|
                    0 <= e < i ==> (#[trigger] new_chromosomes@[e]).genes@
                        == self.chromosomes@[self.scores@[e].0 as int].genes@
                        && new_chromosomes@[e].score == Some(self.scores@[e].1),
            decreases config.elite_count - i,
        {
            assert(self.scores@[i as int].0 < size);
            let elite_chromosome = &self.chromosomes[self.scores[i].0];
            new_chromosomes.push(elite_chromosome.duplicate());
            i += 1;
        }
        let ghost pattern = self.chromosomes@[0].genes@;
        let rest = size - config.elite_count;
        let pairs = rest / 2 + rest % 2;
        let outcomes = breed_each(self, config, pairs);
        let ghost all = outcomes@;
        for outcome in iter: outcomes
            invariant
                iter.seq() == all,
                all.len() == pairs,
                forall|k: int| 0 <= k < pairs ==> bred(*self, *config, #[trigger] all[k]),
                self.ranked(),
                config.elite_count < size ==> self.uniform(),
                size == self.chromosomes@.len(),
                config.elite_count <= size,
                rest == size - config.elite_count,
                pairs == rest / 2 + rest % 2,
                pattern == self.chromosomes@[0].genes@,
                new_chromosomes@.len() == if config.elite_count + 2 * iter.index() <= size {
                    config.elite_count + 2 * iter.index()
                } else {
                    size as int
                },
                forall|e: int|
                    0 <= e < config.elite_count ==> (#[trigger] new_chromosomes@[e]).genes@
                        == self.chromosomes@[self.scores@[e].0 as int].genes@
                        && new_chromosomes@[e].score == Some(self.scores@[e].1),
                forall|k: int|
                    config.elite_count <= k < new_chromosomes@.len() ==> child_of(
                        *self,
                        *config,
                        (#[trigger] new_chromosomes@[k]).genes@,
                    ),
                forall|k: int|
                    config.elite_count <= k < new_chromosomes@.len() ==> (
                    #[trigger] new_chromosomes@[k]).genes@.len() == pattern.len(),
                self.consistent() ==> forall|k: int|
                    0 <= k < new_chromosomes@.len() ==> arrangement_of(
                        (#[trigger] new_chromosomes@[k]).genes@,
                        pattern,
                    ),
        {
            assert(bred(*self, *config, all[iter.index() as int]));
            match outcome {
                Ok((child_one, child_two)) => {
                    proof {
                        assert(bred_from(*self, *config, child_one.genes@, child_two.genes@));
                        assert(child_of(*self, *config, child_one.genes@));
                        assert(child_of(*self, *config, child_two.genes@));
                    }
                    new_chromosomes.push(child_one);
                    if new_chromosomes.len() < size {
                        new_chromosomes.push(child_two);
                    }
                },
                Err(error) => {
                    return Err(error);
                },
            }
        }
        let next = Population { chromosomes: new_chromosomes, scores: Vec::new() };
        proof {
            if self.uniform() {
                assert forall|k: int| 0 <= k < next.chromosomes@.len() implies (
                #[trigger] next.chromosomes@[k]).genes@.len() == next.chromosomes@[0].genes@.len()
                    && next.chromosomes@[k].genes@.len() > 0 by {
                    if k < config.elite_count {
                        assert(self.scores@[k].0 < size);
                    }
                    if 0 < config.elite_count {
                        assert(self.scores@[0].0 < size);
                    }
                }
            }
        }
        Ok(next)
    }
}

} // verus!
