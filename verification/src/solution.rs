use crate::chromosome::{ahead, first_depot_at, has_depot, Chromosome};
use crate::crossover::rotated;
use crate::error::GaError;
use crate::gene::Gene;
use crate::fitness::{fitness, genes_known, tour_after};
use crate::heuristic::{
    customers_known, load_after, position_after, route_cost, travel_cost, Route,
};
use crate::model::Model;
use crate::problem::Vehicle;
use vstd::multiset::Multiset;
use vstd::prelude::*;

verus! {

/// A set of routes. Each route is the list of its stops, from the vehicle's
/// own node over its customers and back to that node.
pub struct Solution {
    pub routes: Vec<Vec<i32>>,
    pub score: Option<u128>,
}

/// The routes as sequences of stops.
pub open spec fn routes_view(routes: Seq<Vec<i32>>) -> Seq<Seq<i32>> {
    Seq::new(routes.len(), |k: int| routes[k]@)
}

/// Whether a route starts and ends at the same node.
pub open spec fn closed(route: Seq<i32>) -> bool {
    route.len() >= 2 && route.first() == route.last()
}

/// Whether each route of the list has the two stops that open and close it.
pub open spec fn all_ended(routes: Seq<Seq<i32>>) -> bool {
    forall|k: int| 0 <= k < routes.len() ==> (#[trigger] routes[k]).len() >= 2
}

/// Whether each route of the list starts and ends at the same node.
pub open spec fn all_closed(routes: Seq<Seq<i32>>) -> bool {
    forall|k: int| 0 <= k < routes.len() ==> closed(#[trigger] routes[k])
}

/// The genes of a route and the first `served` of its customers: the depot
/// gene of its vehicle, then a gene for each customer.
pub open spec fn route_genes_part(route: Seq<i32>, served: int) -> Seq<Gene> {
    Seq::new((served + 1) as nat, |k: int| if k == 0 {
        Gene::Depot(route[0])
    } else {
        Gene::Customer(route[k])
    })
}

/// The genes of a route: the depot gene of its vehicle, then a gene for each
/// customer. The stop that closes the route has no gene.
pub open spec fn route_genes(route: Seq<i32>) -> Seq<Gene> {
    route_genes_part(route, route.len() - 2)
}

/// The genes of a list of routes: those of each route, one route after the
/// other.
pub open spec fn encoded(routes: Seq<Seq<i32>>) -> Seq<Gene>
    decreases routes.len(),
{
    if routes.len() == 0 {
        Seq::empty()
    } else {
        encoded(routes.drop_last()) + route_genes(routes.last())
    }
}

/// The routes of a sequence of genes that starts with a depot gene. Each
/// depot gene opens a route that starts and ends at its node; each customer
/// joins the route that was opened last, before the stop that closes it.
pub open spec fn decoded(genes: Seq<Gene>) -> Seq<Seq<i32>>
    decreases genes.len(),
{
    if genes.len() == 0 {
        Seq::empty()
    } else {
        let before = decoded(genes.drop_last());
        match genes.last() {
            Gene::Depot(node) => before.push(seq![node, node]),
            Gene::Customer(node) => if before.len() == 0 {
                before
            } else {
                before.drop_last().push(
                    before.last().drop_last().push(node).push(before.last().last()),
                )
            },
        }
    }
}

/// The routes of a chromosome whose first depot gene stands at `start`: the
/// ring of its genes is read from that gene on.
pub open spec fn routes_of(genes: Seq<Gene>, start: int) -> Seq<Seq<i32>> {
    decoded(rotated(genes, start))
}

/// A sequence of genes that starts with a depot gene has routes, and each
/// of them starts and ends at the same node.
pub proof fn lemma_decoded_closed(genes: Seq<Gene>)
    requires
        genes.len() > 0,
        genes[0].is_depot(),
    ensures
        decoded(genes).len() > 0,
        all_closed(decoded(genes)),
    decreases genes.len(),
{
    let before = decoded(genes.drop_last());
    if genes.len() > 1 {
        lemma_decoded_closed(genes.drop_last());
        assert(genes.drop_last()[0] == genes[0]);
    } else {
        assert(genes.drop_last() =~= Seq::<Gene>::empty());
        assert(genes.last() == genes[0]);
    }
    match genes.last() {
        Gene::Depot(node) => {
            assert forall|k: int| 0 <= k < decoded(genes).len() implies closed(
                #[trigger] decoded(genes)[k],
            ) by {
                if k < before.len() {
                    assert(decoded(genes)[k] == before[k]);
                }
            }
        },
        Gene::Customer(node) => {
            let route = before.last();
            assert(closed(route));
            let longer = route.drop_last().push(node).push(route.last());
            assert(longer.first() == route.first());
            assert forall|k: int| 0 <= k < decoded(genes).len() implies closed(
                #[trigger] decoded(genes)[k],
            ) by {
                if k < before.len() - 1 {
                    assert(decoded(genes)[k] == before[k]);
                } else {
                    assert(decoded(genes)[k] == longer);
                }
            }
        },
    }
}

/// The routes of a sequence of genes that is followed by the genes of the
/// start of one more route.
pub proof fn lemma_decoded_route(front: Seq<Gene>, route: Seq<i32>, served: int)
    requires
        closed(route),
        0 <= served <= route.len() - 2,
    ensures
        decoded(front + route_genes_part(route, served)) == decoded(front).push(
            route.subrange(0, served + 1).push(route.last()),
        ),
    decreases served,
{
    let genes = front + route_genes_part(route, served);
    if served == 0 {
        assert(genes.drop_last() =~= front);
        assert(route.subrange(0, 1).push(route.last()) =~= seq![route[0], route[0]]);
    } else {
        lemma_decoded_route(front, route, served - 1);
        assert(genes.drop_last() =~= front + route_genes_part(route, served - 1));
        assert(genes.last() == Gene::Customer(route[served]));
        let before = decoded(genes.drop_last());
        let open = route.subrange(0, served).push(route.last());
        assert(before.last() == open);
        assert(before.drop_last() =~= decoded(front));
        assert(open.drop_last().push(route[served]).push(open.last()) =~= route.subrange(
            0,
            served + 1,
        ).push(route.last()));
    }
}

/// From routes to genes and back: routes that each start and end at the
/// same node are what their genes decode to.
pub proof fn lemma_decode_encode(routes: Seq<Seq<i32>>)
    requires
        all_closed(routes),
    ensures
        decoded(encoded(routes)) == routes,
        routes.len() > 0 ==> encoded(routes).len() > 0 && encoded(routes)[0].is_depot(),
    decreases routes.len(),
{
    if routes.len() > 0 {
        let front = routes.drop_last();
        let route = routes.last();
        assert(closed(route));
        assert(all_closed(front)) by {
            assert forall|k: int| 0 <= k < front.len() implies closed(#[trigger] front[k]) by {
                assert(front[k] == routes[k]);
            }
        }
        lemma_decode_encode(front);
        lemma_decoded_route(encoded(front), route, route.len() - 2);
        assert(route.subrange(0, route.len() - 1).push(route.last()) =~= route);
        assert(decoded(encoded(routes)) =~= routes);
        if front.len() == 0 {
            assert(encoded(routes)[0] == route_genes(route)[0]);
        } else {
            assert(encoded(routes)[0] == encoded(front)[0]);
        }
    }
}

/// The law of the round trip: the routes of a chromosome, encoded and
/// decoded once more, are the same routes.
pub proof fn lemma_round_trip(genes: Seq<Gene>, start: int)
    requires
        first_depot_at(genes, start),
    ensures
        all_closed(routes_of(genes, start)),
        first_depot_at(encoded(routes_of(genes, start)), 0),
        routes_of(encoded(routes_of(genes, start)), 0) == routes_of(genes, start),
{
    let routes = routes_of(genes, start);
    assert(rotated(genes, start)[0] == genes[start]);
    lemma_decoded_closed(rotated(genes, start));
    lemma_decode_encode(routes);
    assert(rotated(encoded(routes), 0) =~= encoded(routes));
}

/// The customers that a route visits: its stops but for the first and the
/// last, which are the vehicle's own node.
pub open spec fn interior(route: Seq<i32>) -> Seq<i32> {
    route.subrange(1, route.len() - 1)
}

/// The customers that the routes of a list visit, each as often as it is
/// visited.
pub open spec fn visits(routes: Seq<Seq<i32>>) -> Multiset<i32>
    decreases routes.len(),
{
    if routes.len() == 0 {
        Multiset::empty()
    } else {
        visits(routes.drop_last()).add(interior(routes.last()).to_multiset())
    }
}

/// The vehicles of the routes of a list: the first stop of each route.
pub open spec fn heads(routes: Seq<Seq<i32>>) -> Seq<i32> {
    Seq::new(routes.len(), |k: int| routes[k][0])
}

/// The genes of a route, counted: a customer gene for each visit that the
/// route pays to the customer, so far as it is served, and one depot gene,
/// that of its vehicle.
pub proof fn lemma_route_genes_counts(route: Seq<i32>, served: int)
    requires
        0 <= served <= route.len() - 2,
    ensures
        forall|c: i32|
            #[trigger] route_genes_part(route, served).to_multiset().count(Gene::Customer(c))
                == route.subrange(1, served + 1).to_multiset().count(c),
        forall|v: i32|
            #[trigger] route_genes_part(route, served).to_multiset().count(Gene::Depot(v)) == if v
                == route[0] {
                1nat
            } else {
                0nat
            },
    decreases served,
{
    broadcast use vstd::seq_lib::group_to_multiset_ensures;

    let genes = route_genes_part(route, served);
    if served == 0 {
        assert(genes =~= Seq::<Gene>::empty().push(Gene::Depot(route[0])));
        assert(route.subrange(1, 1) =~= Seq::<i32>::empty());
        assert(Seq::<Gene>::empty().to_multiset() =~= Multiset::<Gene>::empty());
        assert(Seq::<i32>::empty().to_multiset() =~= Multiset::<i32>::empty());
        vstd::seq_lib::to_multiset_build(Seq::<Gene>::empty(), Gene::Depot(route[0]));
    } else {
        lemma_route_genes_counts(route, served - 1);
        let front = route_genes_part(route, served - 1);
        assert(genes =~= front.push(Gene::Customer(route[served])));
        assert(route.subrange(1, served + 1) =~= route.subrange(1, served).push(route[served]));
        vstd::seq_lib::to_multiset_build(front, Gene::Customer(route[served]));
        vstd::seq_lib::to_multiset_build(route.subrange(1, served), route[served]);
    }
}

/// The genes of a list of routes, counted: a customer gene for each visit
/// that the routes pay to the customer, and a depot gene for each route of
/// the vehicle.
pub proof fn lemma_encoded_counts(routes: Seq<Seq<i32>>)
    requires
        all_ended(routes),
    ensures
        forall|c: i32|
            #[trigger] encoded(routes).to_multiset().count(Gene::Customer(c)) == visits(
                routes,
            ).count(c),
        forall|v: i32|
            #[trigger] encoded(routes).to_multiset().count(Gene::Depot(v)) == heads(
                routes,
            ).to_multiset().count(v),
    decreases routes.len(),
{
    broadcast use vstd::seq_lib::group_to_multiset_ensures;

    if routes.len() == 0 {
        assert(heads(routes) =~= Seq::<i32>::empty());
        assert(Seq::<i32>::empty().to_multiset() =~= Multiset::<i32>::empty());
        assert(Seq::<Gene>::empty().to_multiset() =~= Multiset::<Gene>::empty());
    } else {
        let front = routes.drop_last();
        let route = routes.last();
        assert(all_ended(front)) by {
            assert forall|k: int| 0 <= k < front.len() implies (#[trigger] front[k]).len()
                >= 2 by {
                assert(front[k] == routes[k]);
            }
        }
        lemma_encoded_counts(front);
        assert(route.len() >= 2);
        lemma_route_genes_counts(route, route.len() - 2);
        vstd::seq_lib::lemma_multiset_commutative(encoded(front), route_genes(route));
        assert(heads(routes) =~= heads(front).push(route[0]));
        vstd::seq_lib::to_multiset_build(heads(front), route[0]);
    }
}

/// Two lists of routes with the same vehicles, however ordered, and the
/// same visits have chromosomes that are arrangements of the same genes.
pub proof fn lemma_same_genes(one: Seq<Seq<i32>>, other: Seq<Seq<i32>>)
    requires
        all_ended(one),
        all_ended(other),
        heads(one).to_multiset() == heads(other).to_multiset(),
        visits(one) == visits(other),
    ensures
        encoded(one).to_multiset() == encoded(other).to_multiset(),
{
    lemma_encoded_counts(one);
    lemma_encoded_counts(other);
    assert forall|gene: Gene|
        encoded(one).to_multiset().count(gene) == encoded(other).to_multiset().count(gene) by {
        match gene {
            Gene::Customer(c) => {
                assert(gene == Gene::Customer(c));
            },
            Gene::Depot(v) => {
                assert(gene == Gene::Depot(v));
            },
        }
    }
    assert(encoded(one).to_multiset() =~= encoded(other).to_multiset());
}

/// Routes with different vehicles that visit no customer twice have a
/// chromosome without repeated genes.
pub proof fn lemma_no_repeated_genes(routes: Seq<Seq<i32>>, customers: Seq<i32>)
    requires
        all_ended(routes),
        heads(routes).no_duplicates(),
        customers.no_duplicates(),
        visits(routes) == customers.to_multiset(),
    ensures
        encoded(routes).no_duplicates(),
{
    broadcast use vstd::seq_lib::group_to_multiset_ensures;

    lemma_encoded_counts(routes);
    heads(routes).lemma_multiset_has_no_duplicates();
    customers.lemma_multiset_has_no_duplicates();
    assert forall|gene: Gene| encoded(routes).to_multiset().contains(gene) implies encoded(
        routes,
    ).to_multiset().count(gene) == 1 by {
        match gene {
            Gene::Customer(c) => {
                assert(gene == Gene::Customer(c));
            },
            Gene::Depot(v) => {
                assert(gene == Gene::Depot(v));
            },
        }
    }
    encoded(routes).lemma_multiset_has_no_duplicates_conv();
}

/// The length of a route: from its first stop through the others and back
/// to the first.
pub open spec fn route_length(model: &Model, route: Seq<i32>) -> int {
    route_cost(model, 0, route[0] as int, 0, interior(route))
}

/// What the customers of a route ask for together.
pub open spec fn route_load(model: &Model, route: Seq<i32>) -> int {
    -load_after(model, 0, interior(route), interior(route).len())
}

impl Solution {
    /// A solution of these routes, without a score.
    pub fn new(routes: Vec<Vec<i32>>) -> (solution: Solution)
        ensures
            solution.routes == routes,
            solution.score is None,
    {
        Solution { routes, score: None }
    }
}

/// What can be written as a chromosome.
pub trait Encode {
    /// The chromosome of `self`, or the reason why it has none.
    fn encode(&self) -> Result<Chromosome, GaError>;
}

impl Encode for Solution {
    /// The chromosome of the routes: see [`encoded`]. A route with fewer
    /// than two stops is refused with `GaError::MalformedRoute`.
    fn encode(&self) -> (outcome: Result<Chromosome, GaError>)
        ensures
            all_ended(routes_view(self.routes@)) ==> outcome is Ok && outcome->Ok_0.genes@
                == encoded(routes_view(self.routes@)) && outcome->Ok_0.score is None,
            !all_ended(routes_view(self.routes@)) ==> outcome == Err::<Chromosome, GaError>(
                GaError::MalformedRoute,
            ),
    {
        let ghost routes = routes_view(self.routes@);
        let mut genes: Vec<Gene> = Vec::new();
        let mut r: usize = 0;
        while r < self.routes.len()
            invariant
                routes == routes_view(self.routes@),
                0 <= r <= self.routes@.len(),
                all_ended(routes.take(r as int)),
                genes@ == encoded(routes.take(r as int)),
            decreases self.routes@.len() - r,
        {
            let route = &self.routes[r];
            let num_stops = route.len();
            if num_stops < 2 {
                assert(routes[r as int].len() < 2);
                return Err(GaError::MalformedRoute);
            }
            let ghost front = genes@;
            let depot = route[0];
            genes.push(Gene::Depot(depot));
            assert(genes@ =~= front + route_genes_part(route@, 0));
            let mut i: usize = 1;
            while i < num_stops - 1
                invariant
                    num_stops == route@.len(),
                    num_stops >= 2,
                    1 <= i <= num_stops - 1,
                    genes@ == front + route_genes_part(route@, i - 1),
                decreases num_stops - i,
            {
                genes.push(Gene::Customer(route[i]));
                assert(genes@ =~= front + route_genes_part(route@, i as int));
                i += 1;
            }
            proof {
                assert(routes.take(r + 1).drop_last() =~= routes.take(r as int));
                assert(routes.take(r + 1).last() == route@);
            }
            r += 1;
        }
        assert(routes.take(self.routes@.len() as int) =~= routes);
        Ok(Chromosome { genes, score: None })
    }
}

impl Solution {
    /// Works out the fitness of the chromosome of the routes, see
    /// [`fitness`], and keeps it as the score of the solution.
    ///
    /// The routes are refused, and the score is left as it is, with
    /// `GaError::MalformedRoute` where a route has fewer than two stops,
    /// otherwise with `GaError::MalformedChromosome` where there is no
    /// route, and otherwise with `GaError::UnknownNode` where the first stop
    /// of a route or a stop within it is no node of the model.
    pub fn evaluate(&mut self, model: &Model, penalty: u32) -> (outcome: Result<u128, GaError>)
        requires
            model.wf(),
        ensures
            final(self).routes == old(self).routes,
            !all_ended(routes_view(old(self).routes@)) ==> outcome == Err::<u128, GaError>(
                GaError::MalformedRoute,
            ),
            all_ended(routes_view(old(self).routes@)) && old(self).routes@.len() == 0 ==> outcome
                == Err::<u128, GaError>(GaError::MalformedChromosome),
            all_ended(routes_view(old(self).routes@)) && old(self).routes@.len() > 0 ==> {
                let genes = encoded(routes_view(old(self).routes@));
                &&& !genes_known(model, genes) ==> outcome == Err::<u128, GaError>(
                    GaError::UnknownNode,
                )
                &&& genes_known(model, genes) ==> outcome == Ok::<u128, GaError>(
                    fitness(model, penalty as int, genes, 0) as u128,
                ) && fitness(model, penalty as int, genes, 0) <= u128::MAX
            },
            outcome is Err ==> final(self).score == old(self).score,
            outcome is Ok ==> final(self).score == Some(outcome->Ok_0),
    {
        let mut chromosome = match self.encode() {
            Ok(chromosome) => chromosome,
            Err(error) => {
                return Err(error);
            },
        };
        proof {
            lemma_encoded_start(routes_view(self.routes@));
        }
        match chromosome.evaluate(model, penalty) {
            Ok(score) => {
                self.score = Some(score);
                Ok(score)
            },
            Err(error) => Err(error),
        }
    }

    /// What the customers of a route ask for together, and the length of
    /// the route.
    pub fn evaluate_route(&self, route: &Vec<i32>, model: &Model) -> (outcome: (i128, u128))
        requires
            model.wf(),
            route@.len() >= 2,
            customers_known(model, route@),
        ensures
            outcome.0 == route_load(model, route@),
            outcome.1 == route_length(model, route@),
    {
        let ghost inner = interior(route@);
        let mut customers: Vec<i32> = Vec::new();
        let mut cap_used: i128 = 0;
        let mut index: usize = 1;
        while index < route.len() - 1
            invariant
                model.wf(),
                route@.len() >= 2,
                customers_known(model, route@),
                inner == interior(route@),
                1 <= index <= route@.len() - 1,
                customers@ == inner.take(index - 1),
                cap_used == -load_after(model, 0, inner, (index - 1) as nat),
            decreases route@.len() - index,
        {
            let new_node = route[index];
            proof {
                assert(model.has_node(route@[index as int] as int));
                assert(inner[index - 1] == new_node);
                assert(inner.take(index as int) =~= inner.take(index - 1).push(new_node));
                crate::heuristic::lemma_travel_bounds(
                    model,
                    0,
                    route@[0] as int,
                    0,
                    inner,
                    (index - 1) as nat,
                );
                assert(index * 0x8000_0000 <= 0xffff_ffff_ffff_ffff * 0x8000_0000)
                    by (nonlinear_arith)
                    requires
                        index <= 0xffff_ffff_ffff_ffff,
                ;
            }
            cap_used = cap_used + model.get_demand(new_node as usize) as i128;
            customers.push(new_node);
            index += 1;
        }
        proof {
            assert(inner.take(inner.len() as int) =~= inner);
            assert(customers_known(model, inner)) by {
                assert forall|k: int| 0 <= k < inner.len() implies model.has_node(
                    #[trigger] inner[k] as int,
                ) by {
                    assert(model.has_node(route@[k + 1] as int));
                }
            }
            assert(model.has_node(route@[0] as int));
        }
        let vehicle = Vehicle { capacity: 0, number: route[0], depot: route[0] };
        let mut tour = Route { cost: None, customers };
        tour.evaluate(model, &vehicle, 0);
        match tour.cost {
            Some(score) => (cap_used, score),
            None => (cap_used, 0),
        }
    }
}

/// The genes of routes that each have their two ends start with a depot
/// gene, and with nothing where there is no route.
pub proof fn lemma_encoded_start(routes: Seq<Seq<i32>>)
    requires
        all_ended(routes),
    ensures
        routes.len() == 0 ==> encoded(routes).len() == 0,
        routes.len() > 0 ==> first_depot_at(encoded(routes), 0),
    decreases routes.len(),
{
    if routes.len() > 0 {
        let front = routes.drop_last();
        assert(all_ended(front)) by {
            assert forall|k: int| 0 <= k < front.len() implies (#[trigger] front[k]).len()
                >= 2 by {
                assert(front[k] == routes[k]);
            }
        }
        lemma_encoded_start(front);
        assert(routes.last().len() >= 2);
        if front.len() == 0 {
            assert(encoded(routes)[0] == route_genes(routes.last())[0]);
        } else {
            assert(encoded(routes)[0] == encoded(front)[0]);
        }
    }
}

impl Chromosome {
    /// The routes of the chromosome: see [`routes_of`]. A chromosome without
    /// a depot gene is refused with `GaError::MalformedChromosome`.
    pub fn decode(&self) -> (outcome: Result<Solution, GaError>)
        ensures
            has_depot(self.genes@) <==> outcome is Ok,
            outcome is Err ==> outcome->Err_0 == GaError::MalformedChromosome,
            outcome is Ok ==> outcome->Ok_0.score is None,
            forall|start: int|
                outcome is Ok && first_depot_at(self.genes@, start) ==> routes_view(
                    outcome->Ok_0.routes@,
                ) == routes_of(self.genes@, start),
    {
        let start_index = match self.get_first_depot_index() {
            Some(index) => index,
            None => {
                return Err(GaError::MalformedChromosome);
            },
        };
        let total_genes = self.genes.len();
        let ghost genes = self.genes@;
        let ghost len = total_genes as int;
        let ghost ring = rotated(genes, start_index as int);
        let mut routes: Vec<Vec<i32>> = Vec::new();
        let mut depot: i32 = self.genes[start_index].value();
        let mut route: Vec<i32> = Vec::new();
        route.push(depot);
        let mut index = start_index;
        let mut steps: usize = 1;
        proof {
            let first = ring.take(1);
            assert(first.drop_last() =~= Seq::<Gene>::empty());
            assert(decoded(first.drop_last()) =~= Seq::<Seq<i32>>::empty());
            assert(first.last() == genes[start_index as int]);
            assert(first.last() == Gene::Depot(depot));
            assert(decoded(first) == decoded(first.drop_last()).push(seq![depot, depot]));
            assert(route@.push(depot) =~= seq![depot, depot]);
            assert(routes_view(routes@) =~= Seq::<Seq<i32>>::empty());
            assert(decoded(first) =~= routes_view(routes@).push(route@.push(depot)));
        }
        while steps < total_genes
            invariant
                genes == self.genes@,
                len == genes.len(),
                total_genes == len,
                0 <= start_index < len,
                ring == rotated(genes, start_index as int),
                1 <= steps <= total_genes,
                index as int == ahead(start_index as int, steps - 1, len),
                0 <= index < len,
                route@.len() >= 1,
                decoded(ring.take(steps as int)) == routes_view(routes@).push(route@.push(depot)),
            decreases total_genes - steps,
        {
            index = if index + 1 >= total_genes {
                0
            } else {
                index + 1
            };
            let ghost closed_before = routes_view(routes@);
            let ghost open_before = route@;
            proof {
                assert(ring[steps as int] == genes[index as int]);
                assert(ring.take(steps + 1).drop_last() =~= ring.take(steps as int));
                assert(ring.take(steps + 1).last() == genes[index as int]);
            }
            match self.genes[index] {
                Gene::Depot(val) => {
                    route.push(depot);
                    routes.push(route);
                    depot = val;
                    route = Vec::new();
                    route.push(depot);
                    proof {
                        assert(routes_view(routes@) =~= closed_before.push(routes@.last()@));
                        assert(route@.push(depot) =~= seq![val, val]);
                    }
                },
                Gene::Customer(val) => {
                    route.push(val);
                    proof {
                        let before = decoded(ring.take(steps as int));
                        assert(before.last() == open_before.push(depot));
                        assert(before.drop_last() =~= closed_before);
                        assert(open_before.push(depot).drop_last() =~= open_before);
                    }
                },
            }
            steps += 1;
        }
        route.push(depot);
        routes.push(route);
        proof {
            assert(ring.take(len) =~= ring);
            assert(routes_view(routes@) =~= decoded(ring));
        }
        Ok(Solution::new(routes))
    }
}

/// Routes whose stops are all nodes of the model have a chromosome whose
/// genes all name nodes of the model.
pub proof fn lemma_encoded_known(model: &Model, routes: Seq<Seq<i32>>)
    requires
        all_ended(routes),
        forall|r: int, k: int|
            0 <= r < routes.len() && 0 <= k < routes[r].len() ==> model.has_node(
                #[trigger] routes[r][k] as int,
            ),
    ensures
        genes_known(model, encoded(routes)),
    decreases routes.len(),
{
    if routes.len() > 0 {
        let front = routes.drop_last();
        let route = routes.last();
        assert(all_ended(front)) by {
            assert forall|k: int| 0 <= k < front.len() implies (#[trigger] front[k]).len()
                >= 2 by {
                assert(front[k] == routes[k]);
            }
        }
        assert forall|r: int, k: int|
            0 <= r < front.len() && 0 <= k < front[r].len() implies model.has_node(
            #[trigger] front[r][k] as int,
        ) by {
            assert(front[r] == routes[r]);
            assert(model.has_node(routes[r][k] as int));
        }
        lemma_encoded_known(model, front);
        let genes = encoded(routes);
        assert forall|g: int| 0 <= g < genes.len() implies model.has_node(
            (#[trigger] genes[g]).node(),
        ) by {
            if g < encoded(front).len() {
                assert(genes[g] == encoded(front)[g]);
            } else {
                let k = g - encoded(front).len();
                assert(genes[g] == route_genes(route)[k]);
                assert(model.has_node(routes[routes.len() - 1][k] as int));
            }
        }
    }
}

/// The cost of a route for the vehicle of its first stop, with the capacity
/// that the model gives that vehicle.
pub open spec fn route_cost_of(model: &Model, penalty: int, route: Seq<i32>) -> int {
    route_cost(model, penalty, route[0] as int, model.demand(route[0] as int), interior(route))
}

/// The cost of the routes of a solution, one after the other.
pub open spec fn solution_cost(model: &Model, penalty: int, routes: Seq<Seq<i32>>) -> int
    decreases routes.len(),
{
    if routes.len() == 0 {
        0
    } else {
        solution_cost(model, penalty, routes.drop_last()) + route_cost_of(
            model,
            penalty,
            routes.last(),
        )
    }
}

/// The cost of the routes while the vehicle of the last route has not come
/// home yet.
pub open spec fn cost_so_far(model: &Model, penalty: int, routes: Seq<Seq<i32>>) -> int {
    solution_cost(model, penalty, routes.drop_last()) + travel_cost(
        model,
        penalty,
        routes.last()[0] as int,
        model.demand(routes.last()[0] as int),
        interior(routes.last()),
        interior(routes.last()).len(),
    )
}

/// Whether no vehicle of the genes has a capacity below zero.
pub open spec fn vehicles_can_load(model: &Model, genes: Seq<Gene>) -> bool {
    forall|k: int|
        0 <= k < genes.len() && (#[trigger] genes[k]).is_depot() ==> model.demand(genes[k].node())
            >= 0
}

/// What a vehicle has driven and loaded after some customers does not
/// depend on the customers that follow.
pub proof fn lemma_travel_prefix(
    model: &Model,
    penalty: int,
    home: int,
    capacity: int,
    customers: Seq<i32>,
    longer: Seq<i32>,
    served: nat,
)
    requires
        served <= customers.len() <= longer.len(),
        forall|k: int| 0 <= k < customers.len() ==> customers[k] == longer[k],
    ensures
        travel_cost(model, penalty, home, capacity, customers, served) == travel_cost(
            model,
            penalty,
            home,
            capacity,
            longer,
            served,
        ),
        load_after(model, capacity, customers, served) == load_after(
            model,
            capacity,
            longer,
            served,
        ),
        position_after(home, customers, served as int) == position_after(
            home,
            longer,
            served as int,
        ),
    decreases served,
{
    if served > 0 {
        lemma_travel_prefix(model, penalty, home, capacity, customers, longer, (served - 1) as nat);
    }
}

/// Where a tour stands after some genes, in terms of the routes of these
/// genes: its vehicle is that of the last route, it stands at the last
/// customer of that route, has loaded what the customers of that route ask
/// for, and has cost what the routes before cost and the last one so far.
pub proof fn lemma_tour_follows_routes(
    model: &Model,
    penalty: int,
    genes: Seq<Gene>,
    start: int,
    steps: nat,
)
    requires
        first_depot_at(genes, start),
        vehicles_can_load(model, genes),
        steps < genes.len(),
    ensures
        ({
            let routes = decoded(rotated(genes, start).take(steps + 1 as int));
            let tour = tour_after(model, penalty, genes, start, steps);
            &&& routes.len() > 0
            &&& closed(routes.last())
            &&& tour.vehicle == routes.last()[0]
            &&& tour.current == position_after(
                routes.last()[0] as int,
                interior(routes.last()),
                interior(routes.last()).len() as int,
            )
            &&& tour.load == load_after(
                model,
                model.demand(routes.last()[0] as int),
                interior(routes.last()),
                interior(routes.last()).len(),
            )
            &&& tour.cost == cost_so_far(model, penalty, routes)
        }),
    decreases steps,
{
    let len = genes.len() as int;
    let ring = rotated(genes, start);
    let seen = ring.take(steps + 1 as int);
    let routes = decoded(seen);
    assert(seen.drop_last() =~= ring.take(steps as int));
    assert(seen.last() == genes[ahead(start, steps as int, len)]);
    if steps == 0 {
        let depot = genes[start];
        assert(decoded(seen.drop_last()) =~= Seq::<Seq<i32>>::empty());
        assert(routes.len() == 1);
        assert(interior(routes.last()) =~= Seq::<i32>::empty());
        assert(routes.drop_last() =~= Seq::<Seq<i32>>::empty());
    } else {
        lemma_tour_follows_routes(model, penalty, genes, start, (steps - 1) as nat);
        let before = decoded(ring.take(steps as int));
        let tour = tour_after(model, penalty, genes, start, (steps - 1) as nat);
        let gene = seen.last();
        let route = before.last();
        let inner = interior(route);
        match gene {
            Gene::Depot(node) => {
                assert(routes == before.push(seq![node, node]));
                assert(interior(routes.last()) =~= Seq::<i32>::empty());
                assert(routes.drop_last() =~= before);
                assert(before =~= before.drop_last().push(route));
                assert(model.demand(node as int) >= 0);
            },
            Gene::Customer(node) => {
                let longer = route.drop_last().push(node).push(route.last());
                assert(routes == before.drop_last().push(longer));
                assert(routes.drop_last() =~= before.drop_last());
                assert(interior(longer) =~= inner.push(node));
                assert(longer[0] == route[0]);
                lemma_travel_prefix(
                    model,
                    penalty,
                    route[0] as int,
                    model.demand(route[0] as int),
                    inner,
                    inner.push(node),
                    inner.len(),
                );
            },
        }
    }
}

/// The fitness of a chromosome is the cost of its routes, as long as no
/// vehicle has a capacity below zero: what a tour round the ring of genes
/// costs is what the routes cost that the genes decode to, each for the
/// vehicle of its first stop.
pub proof fn lemma_fitness_is_cost_of_routes(
    model: &Model,
    penalty: int,
    genes: Seq<Gene>,
    start: int,
)
    requires
        first_depot_at(genes, start),
        vehicles_can_load(model, genes),
    ensures
        fitness(model, penalty, genes, start) == solution_cost(
            model,
            penalty,
            routes_of(genes, start),
        ),
{
    let len = genes.len();
    let ring = rotated(genes, start);
    lemma_tour_follows_routes(model, penalty, genes, start, (len - 1) as nat);
    assert(ring.take(len as int) =~= ring);
    let routes = decoded(ring);
    assert(routes =~= routes.drop_last().push(routes.last()));
    assert(genes[ahead(start, len as int, len as int)] == genes[start]);
    assert(model.demand(genes[start].node()) >= 0);
}

} // verus!
