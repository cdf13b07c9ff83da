use crate::chromosome::{ahead, first_depot_at, has_depot, Chromosome};
use crate::error::GaError;
use crate::gene::Gene;
use crate::heuristic::step_limit;
use crate::model::Model;
use vstd::prelude::*;

verus! {

/// Where a tour has come to: the node it stands at, the vehicle that drives,
/// what that vehicle can still load, and the cost so far.
pub struct Tour {
    pub current: int,
    pub vehicle: int,
    pub load: int,
    pub cost: int,
}

/// Whether every gene of the sequence names a node of the model.
pub open spec fn genes_known(model: &Model, genes: Seq<Gene>) -> bool {
    forall|k: int| 0 <= k < genes.len() ==> model.has_node((#[trigger] genes[k]).node())
}

/// A tour that is about to leave with the vehicle of a depot gene.
pub open spec fn tour_start(model: &Model, gene: Gene) -> Tour {
    Tour { current: gene.node(), vehicle: gene.node(), load: model.demand(gene.node()), cost: 0 }
}

/// The tour after one more gene. A customer is driven to and served. A depot
/// gene sends the vehicle home and lets the next one start from its own
/// node with its full capacity. Either way the leg is paid for, and a
/// penalty on top while the load is below zero.
pub open spec fn tour_step(model: &Model, penalty: int, tour: Tour, gene: Gene) -> Tour {
    let leg = match gene {
        Gene::Depot(_) => model.distance(tour.current, tour.vehicle),
        Gene::Customer(node) => model.distance(tour.current, node as int),
    };
    let vehicle = match gene {
        Gene::Depot(node) => node as int,
        Gene::Customer(_) => tour.vehicle,
    };
    let load = match gene {
        Gene::Depot(node) => model.demand(node as int),
        Gene::Customer(node) => tour.load - model.demand(node as int),
    };
    Tour {
        current: gene.node(),
        vehicle,
        load,
        cost: tour.cost + leg + if load < 0 {
            penalty
        } else {
            0
        },
    }
}

/// The tour that starts with the depot gene at `start` and has gone through
/// the `steps` genes after it, round the ring.
pub open spec fn tour_after(
    model: &Model,
    penalty: int,
    genes: Seq<Gene>,
    start: int,
    steps: nat,
) -> Tour
    decreases steps,
{
    if steps == 0 {
        tour_start(model, genes[start])
    } else {
        tour_step(
            model,
            penalty,
            tour_after(model, penalty, genes, start, (steps - 1) as nat),
            genes[ahead(start, steps as int, genes.len() as int)],
        )
    }
}

/// The fitness of a sequence of genes whose first depot gene stands at
/// `start`: the cost of the tour once round the ring and back to that gene,
/// which sends the last vehicle home. Less is better.
pub open spec fn fitness(model: &Model, penalty: int, genes: Seq<Gene>, start: int) -> int {
    tour_after(model, penalty, genes, start, genes.len()).cost
}

/// What evaluating a chromosome with the model comes to: what it leaves of
/// the chromosome and what it returns.
///
/// The genes stay. A chromosome without a depot gene is refused with
/// `GaError::MalformedChromosome`, and otherwise one with a gene that names
/// no node of the model with `GaError::UnknownNode`; a chromosome that is
/// refused keeps the score that it had. Any other chromosome gets its
/// fitness, see [`fitness`], as its score, and that is returned.
pub open spec fn evaluated_as(
    model: &Model,
    penalty: int,
    before: Chromosome,
    after: Chromosome,
    outcome: Result<u128, GaError>,
) -> bool {
    &&& after.genes@ == before.genes@
    &&& !has_depot(before.genes@) ==> outcome == Err::<u128, GaError>(GaError::MalformedChromosome)
    &&& has_depot(before.genes@) && !genes_known(model, before.genes@) ==> outcome == Err::<
        u128,
        GaError,
    >(GaError::UnknownNode)
    &&& has_depot(before.genes@) && genes_known(model, before.genes@) ==> outcome is Ok
    &&& outcome is Err ==> after.score == before.score
    &&& outcome is Ok ==> after.score == Some(outcome->Ok_0)
    &&& outcome is Ok ==> outcome->Ok_0 <= before.genes@.len() * step_limit()
    &&& forall|start: int|
        outcome is Ok && #[trigger] first_depot_at(before.genes@, start) ==> outcome->Ok_0 as int
            == fitness(model, penalty, before.genes@, start)
}

/// A tour stays at nodes of the model, its cost within what its legs can
/// add up to, and its load within what its customers can ask for.
pub proof fn lemma_tour_bounds(
    model: &Model,
    penalty: int,
    genes: Seq<Gene>,
    start: int,
    steps: nat,
)
    requires
        model.wf(),
        genes_known(model, genes),
        0 <= start < genes.len(),
        steps <= genes.len(),
        0 <= penalty <= u32::MAX,
    ensures
        model.has_node(tour_after(model, penalty, genes, start, steps).current),
        model.has_node(tour_after(model, penalty, genes, start, steps).vehicle),
        0 <= tour_after(model, penalty, genes, start, steps).cost <= steps * step_limit(),
        -(steps + 1) * 0x8000_0000 <= tour_after(model, penalty, genes, start, steps).load <= (steps
            + 1) * 0x8000_0000,
    decreases steps,
{
    if steps > 0 {
        lemma_tour_bounds(model, penalty, genes, start, (steps - 1) as nat);
        let gene = genes[ahead(start, steps as int, genes.len() as int)];
        assert(model.has_node(gene.node()));
        assert((steps - 1) * step_limit() + step_limit() == steps * step_limit())
            by (nonlinear_arith);
        assert(steps * 0x8000_0000 + 0x8000_0000 == (steps + 1) * 0x8000_0000)
            by (nonlinear_arith);
        assert(-(steps * 0x8000_0000) - 0x8000_0000 == -(steps + 1) * 0x8000_0000)
            by (nonlinear_arith);
    } else {
        assert(model.has_node(genes[start].node()));
    }
}

impl Chromosome {
    /// Whether every gene names a node of the model.
    pub fn fits(&self, model: &Model) -> (known: bool)
        ensures
            known == genes_known(model, self.genes@),
    {
        let mut k: usize = 0;
        while k < self.genes.len()
            invariant
                0 <= k <= self.genes@.len(),
                forall|m: int| 0 <= m < k ==> model.has_node((#[trigger] self.genes@[m]).node()),
            decreases self.genes@.len() - k,
        {
            if !model.knows(self.genes[k].value()) {
                return false;
            }
            k += 1;
        }
        true
    }

    /// Works out the fitness of the chromosome and keeps it as its score:
    /// see [`evaluated_as`].
    pub fn evaluate(&mut self, model: &Model, penalty: u32) -> (outcome: Result<u128, GaError>)
        requires
            model.wf(),
        ensures
            evaluated_as(model, penalty as int, *old(self), *final(self), outcome),
    {
        let total_genes = self.genes.len();
        let start_index = match self.get_first_depot_index() {
            Some(index) => index,
            None => {
                return Err(GaError::MalformedChromosome);
            },
        };
        if !self.fits(model) {
            return Err(GaError::UnknownNode);
        }
        let ghost genes = self.genes@;
        let ghost len = total_genes as int;
        let mut score: u128 = 0;
        let mut index = start_index;
        let mut current_node = self.genes[index].value();
        let mut vehicle_node = current_node;
        assert(model.has_node(genes[start_index as int].node()));
        let mut capacity_left: i128 = model.get_demand(vehicle_node as usize) as i128;
        let mut steps: usize = 0;
        while steps < total_genes
            invariant
                model.wf(),
                genes == self.genes@,
                genes_known(model, genes),
                len == genes.len(),
                total_genes == len,
                0 <= start_index < len,
                0 <= steps <= total_genes,
                index as int == ahead(start_index as int, steps as int, len),
                0 <= index < len,
                current_node as int == tour_after(
                    model,
                    penalty as int,
                    genes,
                    start_index as int,
                    steps as nat,
                ).current,
                vehicle_node as int == tour_after(
                    model,
                    penalty as int,
                    genes,
                    start_index as int,
                    steps as nat,
                ).vehicle,
                capacity_left as int == tour_after(
                    model,
                    penalty as int,
                    genes,
                    start_index as int,
                    steps as nat,
                ).load,
                score as int == tour_after(
                    model,
                    penalty as int,
                    genes,
                    start_index as int,
                    steps as nat,
                ).cost,
            decreases total_genes - steps,
        {
            proof {
                lemma_tour_bounds(model, penalty as int, genes, start_index as int, steps as nat);
                lemma_tour_bounds(
                    model,
                    penalty as int,
                    genes,
                    start_index as int,
                    (steps + 1) as nat,
                );
                assert((steps + 1) * step_limit() <= 0xffff_ffff_ffff_ffff * step_limit())
                    by (nonlinear_arith)
                    requires
                        steps + 1 <= 0xffff_ffff_ffff_ffff,
                ;
                assert((steps + 2) * 0x8000_0000 <= 0x1_0000_0000_0000_0001 * 0x8000_0000)
                    by (nonlinear_arith)
                    requires
                        steps <= 0xffff_ffff_ffff_ffff,
                ;
            }
            index = if index + 1 >= total_genes {
                0
            } else {
                index + 1
            };
            assert(model.has_node(genes[index as int].node()));
            let distance: u32;
            match self.genes[index] {
                Gene::Depot(node) => {
                    // Back to the depot of the vehicle that is done.
                    distance = model.get_distance(current_node as usize, vehicle_node as usize);
                    current_node = node;
                    vehicle_node = node;
                    capacity_left = model.get_demand(vehicle_node as usize) as i128;
                },
                Gene::Customer(node) => {
                    distance = model.get_distance(current_node as usize, node as usize);
                    current_node = node;
                    capacity_left = capacity_left - model.get_demand(current_node as usize) as i128;
                },
            }
            score = score + distance as u128;
            if capacity_left < 0 {
                score = score + penalty as u128;
            }
            steps += 1;
        }
        proof {
            lemma_tour_bounds(model, penalty as int, genes, start_index as int, steps as nat);
        }
        self.score = Some(score);
        Ok(score)
    }
}

} // verus!
