use crate::config::Config;
use crate::error::GaError;
use crate::gene::Gene;
use crate::parallel::construct_each;
use crate::population::{evaluable, scored};
use crate::simulation::Simulation;
use crate::heuristic::{
    all_stops, construct_routes, copy_stops, customers_known, lists_of, no_gain_left,
    picks_within, saving, savings_routes, Route,
};
use crate::model::Model;
use crate::problem::{
    assigned, first_vehicle_at, fleet, nearest_depot, squared_distance, Customer, Depot, Pos,
    Problem, Vehicle,
};
use crate::population::arrangement_of;
use crate::solution::{
    all_closed, all_ended, closed, encoded, heads, interior, lemma_encoded_known,
    lemma_encoded_start, lemma_no_repeated_genes, lemma_same_genes, routes_view, visits, Encode,
    Solution,
};
use vstd::multiset::Multiset;
use vstd::prelude::*;

verus! {

/// The route of a vehicle: from its own node to the customers and back.
pub open spec fn vehicle_route(vehicle: i32, customers: Seq<i32>) -> Seq<i32> {
    seq![vehicle] + customers + seq![vehicle]
}

/// The customers of the route that the vehicle at `place` gets: those of
/// the route at that place, and none where the routes are fewer.
pub open spec fn share(routes: Seq<Route>, place: int) -> Seq<i32> {
    if place < routes.len() {
        routes[place].customers@
    } else {
        Seq::empty()
    }
}

/// The numbers of the vehicles of the first `count` depots, depot by depot.
pub open spec fn fleets_of_first(problem: &Problem, count: nat) -> Seq<i32>
    decreases count,
{
    if count == 0 {
        Seq::empty()
    } else {
        fleets_of_first(problem, (count - 1) as nat) + fleet(
            problem.vehicles@,
            problem.depots@[count - 1].number as int,
        )
    }
}

/// How many vehicles the depots before the one at `place` have together.
pub open spec fn fleet_before(problem: &Problem, place: nat) -> nat {
    fleets_of_first(problem, place).len()
}

/// Whether routes are a first solution of the problem: one route for each
/// vehicle, depot by depot, that starts and ends at the node of the
/// vehicle, and among them a visit to each customer as often as it is among
/// the customers.
pub open spec fn first_solution_of(problem: &Problem, routes: Seq<Seq<i32>>) -> bool {
    &&& all_closed(routes)
    &&& heads(routes) == fleets_of_first(problem, problem.depots@.len())
    &&& visits(routes) == customer_numbers(problem.customers@).to_multiset()
}

/// The chromosomes of two first solutions of a problem whose customers and
/// vehicles all have numbers of their own are arrangements of the same
/// genes, none of which comes twice: a population of them is consistent.
pub proof fn lemma_first_solutions_consistent(
    problem: &Problem,
    one: Seq<Seq<i32>>,
    other: Seq<Seq<i32>>,
)
    requires
        first_solution_of(problem, one),
        first_solution_of(problem, other),
        customer_numbers(problem.customers@).no_duplicates(),
        fleets_of_first(problem, problem.depots@.len()).no_duplicates(),
    ensures
        arrangement_of(encoded(one), encoded(other)),
{
    assert(all_ended(one) && all_ended(other)) by {
        assert forall|k: int| 0 <= k < one.len() implies (#[trigger] one[k]).len() >= 2 by {
            assert(closed(one[k]));
        }
        assert forall|k: int| 0 <= k < other.len() implies (#[trigger] other[k]).len() >= 2 by {
            assert(closed(other[k]));
        }
    }
    lemma_same_genes(one, other);
    lemma_no_repeated_genes(one, customer_numbers(problem.customers@));
    lemma_no_repeated_genes(other, customer_numbers(problem.customers@));
}

/// The most routes that the savings method leaves a depot with: as many as
/// it has vehicles at most, and one where that is none.
pub open spec fn route_limit(problem: &Problem) -> int {
    if problem.max_vehicles > 1 {
        problem.max_vehicles as int
    } else {
        1
    }
}

/// Whether `block` holds routes for the vehicles of the depot at `place`.
///
/// There is one route for each vehicle of the depot, in the order of the
/// vehicles, and it starts and ends at the node of its vehicle. Vehicles
/// beyond the limit of routes have no customers. Where the depot has as
/// many vehicles as the limit of routes, the routes visit each customer
/// that is assigned to the depot as often as it is assigned.
pub open spec fn depot_block(problem: &Problem, place: int, block: Seq<Seq<i32>>) -> bool {
    let numbers = fleet(problem.vehicles@, problem.depots@[place].number as int);
    let customers = assigned(problem.customers@, problem.depots@, place);
    &&& block.len() == numbers.len()
    &&& forall|k: int|
        0 <= k < block.len() ==> closed(#[trigger] block[k]) && block[k][0] == numbers[k]
    &&& forall|k: int|
        route_limit(problem) <= k < block.len() ==> (#[trigger] block[k]).len() == 2
    &&& numbers.len() >= route_limit(problem) ==> visits(block) == customers.to_multiset()
}

/// The numbers of the customers, in their order.
pub open spec fn customer_numbers(customers: Seq<Customer>) -> Seq<i32> {
    Seq::new(customers.len(), |k: int| customers[k].number)
}

/// The customers that are assigned to the first `count` depots, each as
/// often as it is assigned.
pub open spec fn assigned_to_first(customers: Seq<Customer>, depots: Seq<Depot>, count: nat) -> Multiset<
    i32,
>
    decreases count,
{
    if count == 0 {
        Multiset::empty()
    } else {
        assigned_to_first(customers, depots, (count - 1) as nat).add(
            assigned(customers, depots, count - 1).to_multiset(),
        )
    }
}

/// Whether each depot has a vehicle for each route that the savings method
/// may leave it with.
pub open spec fn well_served(problem: &Problem) -> bool {
    forall|d: int|
        0 <= d < problem.depots@.len() ==> fleet(
            problem.vehicles@,
            (#[trigger] problem.depots@[d]).number as int,
        ).len() >= route_limit(problem)
}

/// Among depots, one is the nearest to a point.
pub proof fn lemma_nearest_exists(depots: Seq<Depot>, pos: Pos)
    requires
        depots.len() > 0,
    ensures
        exists|place: int| nearest_depot(depots, pos, place),
    decreases depots.len(),
{
    let last = depots.len() - 1;
    if depots.len() == 1 {
        assert(nearest_depot(depots, pos, 0));
    } else {
        let front = depots.drop_last();
        lemma_nearest_exists(front, pos);
        let before = choose|place: int| nearest_depot(front, pos, place);
        assert(front[before] == depots[before]);
        if squared_distance(pos, depots[last].pos) < squared_distance(pos, depots[before].pos) {
            assert forall|e: int| 0 <= e < last implies squared_distance(
                pos,
                (#[trigger] depots[e]).pos,
            ) > squared_distance(pos, depots[last].pos) by {
                assert(front[e] == depots[e]);
            }
            assert(nearest_depot(depots, pos, last));
        } else {
            assert forall|e: int| 0 <= e < depots.len() implies squared_distance(
                pos,
                depots[before].pos,
            ) <= squared_distance(pos, (#[trigger] depots[e]).pos) by {
                if e < last {
                    assert(front[e] == depots[e]);
                }
            }
            assert forall|e: int| 0 <= e < before implies squared_distance(
                pos,
                (#[trigger] depots[e]).pos,
            ) > squared_distance(pos, depots[before].pos) by {
                assert(front[e] == depots[e]);
            }
            assert(nearest_depot(depots, pos, before));
        }
    }
}

/// One more customer is assigned to the first `count` depots where the
/// depot nearest to it is among them, and only there.
pub proof fn lemma_assigned_one_more(
    customers: Seq<Customer>,
    depots: Seq<Depot>,
    count: nat,
    place: int,
)
    requires
        customers.len() > 0,
        count <= depots.len(),
        nearest_depot(depots, customers.last().pos, place),
    ensures
        assigned_to_first(customers, depots, count) == if place < count {
            assigned_to_first(customers.drop_last(), depots, count).insert(customers.last().number)
        } else {
            assigned_to_first(customers.drop_last(), depots, count)
        },
    decreases count,
{
    broadcast use vstd::seq_lib::group_to_multiset_ensures;

    if count > 0 {
        lemma_assigned_one_more(customers, depots, (count - 1) as nat, place);
        let front = customers.drop_last();
        let d = count - 1;
        if nearest_depot(depots, customers.last().pos, d) {
            assert(d == place);
            vstd::seq_lib::to_multiset_build(assigned(front, depots, d), customers.last().number);
        } else {
            assert(d != place);
        }
        if place < count {
            assert(assigned_to_first(customers, depots, count) =~= assigned_to_first(
                front,
                depots,
                count,
            ).insert(customers.last().number));
        } else {
            assert(assigned_to_first(customers, depots, count) =~= assigned_to_first(
                front,
                depots,
                count,
            ));
        }
    }
}

/// No customer is assigned where there is no customer.
pub proof fn lemma_assigned_none(depots: Seq<Depot>, count: nat)
    ensures
        assigned_to_first(Seq::<Customer>::empty(), depots, count) == Multiset::<i32>::empty(),
    decreases count,
{
    broadcast use vstd::seq_lib::group_to_multiset_ensures;

    if count > 0 {
        lemma_assigned_none(depots, (count - 1) as nat);
        assert(assigned(Seq::<Customer>::empty(), depots, count - 1) =~= Seq::<i32>::empty());
        assert(assigned_to_first(Seq::<Customer>::empty(), depots, count) =~= Multiset::<
            i32,
        >::empty());
    }
}

/// Each customer is assigned to one depot: all the depots together have
/// each customer as often as it is among the customers.
pub proof fn lemma_every_customer_assigned(customers: Seq<Customer>, depots: Seq<Depot>)
    requires
        customers.len() > 0 ==> depots.len() > 0,
    ensures
        assigned_to_first(customers, depots, depots.len()) == customer_numbers(
            customers,
        ).to_multiset(),
    decreases customers.len(),
{
    broadcast use vstd::seq_lib::group_to_multiset_ensures;

    if customers.len() == 0 {
        lemma_assigned_none(depots, depots.len());
        assert(customers =~= Seq::<Customer>::empty());
        assert(customer_numbers(customers) =~= Seq::<i32>::empty());
        assert(Seq::<i32>::empty().to_multiset() =~= Multiset::<i32>::empty());
    } else {
        let front = customers.drop_last();
        lemma_every_customer_assigned(front, depots);
        lemma_nearest_exists(depots, customers.last().pos);
        let place = choose|place: int| nearest_depot(depots, customers.last().pos, place);
        lemma_assigned_one_more(customers, depots, depots.len(), place);
        assert(customer_numbers(customers) =~= customer_numbers(front).push(
            customers.last().number,
        ));
        vstd::seq_lib::to_multiset_build(customer_numbers(front), customers.last().number);
        assert(place < depots.len());
        assert(assigned_to_first(customers, depots, depots.len()) =~= customer_numbers(
            customers,
        ).to_multiset());
    }
}

/// Routes put behind other routes visit what both visit.
pub proof fn lemma_visits_concat(first: Seq<Seq<i32>>, second: Seq<Seq<i32>>)
    ensures
        visits(first + second) == visits(first).add(visits(second)),
    decreases second.len(),
{
    if second.len() == 0 {
        assert(first + second =~= first);
        assert(visits(first + second) =~= visits(first).add(visits(second)));
    } else {
        lemma_visits_concat(first, second.drop_last());
        assert((first + second).drop_last() =~= first + second.drop_last());
        assert((first + second).last() == second.last());
        assert(visits(first + second) =~= visits(first).add(visits(second)));
    }
}

/// The vehicle of a depot by whose node and capacity its routes are
/// costed: the first of its vehicles.
pub open spec fn depot_vehicle(problem: &Problem, place: int) -> Vehicle {
    problem.vehicles@[choose|v: int|
        first_vehicle_at(problem.vehicles@, problem.depots@[place].number as int, v)]
}

/// How many routes the savings method may leave a depot with where nothing
/// more can be saved: as many as the problem allows vehicles.
pub open spec fn route_room(problem: &Problem) -> int {
    if problem.max_vehicles > 0 {
        problem.max_vehicles as int
    } else {
        0
    }
}

/// The routes of the vehicles with these numbers, of which the vehicle at
/// each place has the customers of the list at that place, and none where
/// the lists are fewer.
pub open spec fn block_of(numbers: Seq<i32>, lists: Seq<Seq<i32>>) -> Seq<Seq<i32>> {
    Seq::new(
        numbers.len(),
        |k: int|
            vehicle_route(
                numbers[k],
                if k < lists.len() {
                    lists[k]
                } else {
                    Seq::empty()
                },
            ),
    )
}

/// Whether merging any two different lists of customers into one route
/// would save nothing.
pub open spec fn no_gain_in(
    model: &Model,
    penalty: int,
    vehicle: Vehicle,
    lists: Seq<Seq<i32>>,
) -> bool {
    forall|i: int, j: int|
        0 <= i < lists.len() && 0 <= j < lists.len() && i != j ==> #[trigger] saving(
            model,
            penalty,
            vehicle,
            lists[i],
            lists[j],
        ) <= 0
}

/// Whether `block` holds what the savings method builds for the depot at
/// `place` with some picks below `cws_bias`: the routes of
/// [`savings_routes`] for the customers that are assigned to the depot,
/// costed for its first vehicle and handed to its vehicles in their order,
/// see [`block_of`]. No two of these routes would save anything if they
/// were merged.
pub open spec fn saved_block(
    model: &Model,
    problem: &Problem,
    config: &Config,
    place: int,
    block: Seq<Seq<i32>>,
) -> bool {
    exists|picks: Seq<usize>|
        picks_within(picks, config.cws_bias as int) && block == block_of(
            fleet(problem.vehicles@, problem.depots@[place].number as int),
            #[trigger] savings_routes(
                model,
                config.infeasibility_penalty as int,
                depot_vehicle(problem, place),
                route_room(problem),
                config.cws_bias as int,
                assigned(problem.customers@, problem.depots@, place),
                picks,
            ),
        ) && no_gain_in(
            model,
            config.infeasibility_penalty as int,
            depot_vehicle(problem, place),
            savings_routes(
                model,
                config.infeasibility_penalty as int,
                depot_vehicle(problem, place),
                route_room(problem),
                config.cws_bias as int,
                assigned(problem.customers@, problem.depots@, place),
                picks,
            ),
        )
}

/// The routes of the depot at `place` among routes that stand depot by
/// depot.
pub open spec fn block_at(problem: &Problem, routes: Seq<Seq<i32>>, place: int) -> Seq<Seq<i32>> {
    routes.subrange(
        fleet_before(problem, place as nat) as int,
        fleet_before(problem, (place + 1) as nat) as int,
    )
}

/// Routes that the savings method built for a depot, handed to its
/// vehicles, are a block of saved routes.
pub proof fn lemma_saved_block(
    model: &Model,
    problem: &Problem,
    config: &Config,
    place: int,
    vehicle: Vehicle,
    routes: Seq<Route>,
    numbers: Seq<i32>,
    block: Seq<Seq<i32>>,
)
    requires
        0 <= place < problem.depots@.len(),
        exists|v: int|
            first_vehicle_at(problem.vehicles@, problem.depots@[place].number as int, v) && vehicle
                == #[trigger] problem.vehicles@[v],
        numbers == fleet(problem.vehicles@, problem.depots@[place].number as int),
        exists|picks: Seq<usize>|
            lists_of(routes) == #[trigger] savings_routes(
                model,
                config.infeasibility_penalty as int,
                vehicle,
                route_room(problem),
                config.cws_bias as int,
                assigned(problem.customers@, problem.depots@, place),
                picks,
            ) && picks_within(picks, config.cws_bias as int),
        routes.len() >= 2 ==> no_gain_left(model, config.infeasibility_penalty as int, vehicle, routes),
        block.len() == numbers.len(),
        forall|k: int|
            0 <= k < block.len() ==> #[trigger] block[k] == vehicle_route(
                numbers[k],
                share(routes, k),
            ),
    ensures
        saved_block(model, problem, config, place, block),
{
    let v = choose|v: int|
        first_vehicle_at(problem.vehicles@, problem.depots@[place].number as int, v) && vehicle
            == #[trigger] problem.vehicles@[v];
    let w = choose|w: int|
        first_vehicle_at(problem.vehicles@, problem.depots@[place].number as int, w);
    assert(v == w);
    assert(vehicle == depot_vehicle(problem, place));
    let picks = choose|picks: Seq<usize>|
        lists_of(routes) == #[trigger] savings_routes(
            model,
            config.infeasibility_penalty as int,
            vehicle,
            route_room(problem),
            config.cws_bias as int,
            assigned(problem.customers@, problem.depots@, place),
            picks,
        ) && picks_within(picks, config.cws_bias as int);
    let lists = lists_of(routes);
    assert(block =~= block_of(numbers, lists)) by {
        assert forall|k: int| 0 <= k < block.len() implies block[k] == block_of(
            numbers,
            lists,
        )[k] by {
            if k < routes.len() {
                assert(lists[k] == routes[k].customers@);
            }
        }
    }
    assert(no_gain_in(model, config.infeasibility_penalty as int, vehicle, lists)) by {
        assert forall|i: int, j: int|
            0 <= i < lists.len() && 0 <= j < lists.len() && i != j implies #[trigger] saving(
            model,
            config.infeasibility_penalty as int,
            vehicle,
            lists[i],
            lists[j],
        ) <= 0 by {
            assert(lists[i] == routes[i].customers@);
            assert(lists[j] == routes[j].customers@);
            assert(saving(
                model,
                config.infeasibility_penalty as int,
                vehicle,
                routes[i].customers@,
                routes[j].customers@,
            ) <= 0);
        }
    }
}

/// Whether each stop of each route is a node of the model.
pub open spec fn stops_known(model: &Model, routes: Seq<Seq<i32>>) -> bool {
    forall|r: int, k: int|
        0 <= r < routes.len() && 0 <= k < routes[r].len() ==> model.has_node(
            #[trigger] routes[r][k] as int,
        )
}

/// Whether routes are what the savings method builds for the problem.
///
/// The routes of each depot are a block as [`depot_block`] describes it, and
/// the blocks stand one after the other, in the order of the depots: there
/// is one route for each vehicle, which starts and ends at the node of the
/// vehicle. Each stop is a node of the model. Where each depot has vehicles
/// enough, see [`well_served`], the routes are a first solution of the
/// problem, see [`first_solution_of`]: they visit each customer as often as
/// it is among the customers, which is once where no customer comes twice.
pub open spec fn built_for(model: &Model, problem: &Problem, routes: Seq<Seq<i32>>) -> bool {
    &&& routes.len() == fleet_before(problem, problem.depots@.len())
    &&& forall|d: int|
        0 <= d < problem.depots@.len() ==> #[trigger] depot_block(
            problem,
            d,
            routes.subrange(
                fleet_before(problem, d as nat) as int,
                fleet_before(problem, (d + 1) as nat) as int,
            ),
        )
    &&& all_closed(routes)
    &&& heads(routes) == fleets_of_first(problem, problem.depots@.len())
    &&& stops_known(model, routes)
    &&& well_served(problem) ==> first_solution_of(problem, routes)
}

/// Each vehicle of the fleet of a depot is one of the vehicles.
pub proof fn lemma_fleet_from(vehicles: Seq<Vehicle>, depot: int, k: int)
    requires
        0 <= k < fleet(vehicles, depot).len(),
    ensures
        exists|v: int|
            0 <= v < vehicles.len() && (#[trigger] vehicles[v]).number == fleet(vehicles, depot)[k],
    decreases vehicles.len(),
{
    if vehicles.len() > 0 {
        let front = fleet(vehicles.drop_last(), depot);
        if k < front.len() {
            lemma_fleet_from(vehicles.drop_last(), depot, k);
            let v = choose|v: int|
                0 <= v < vehicles.drop_last().len() && (#[trigger] vehicles.drop_last()[v]).number
                    == front[k];
            assert(vehicles[v].number == front[k]);
        } else {
            assert(vehicles[vehicles.len() - 1].number == fleet(vehicles, depot)[k]);
        }
    }
}

/// Routes that are handed to vehicles, one each, visit what they visited,
/// as long as there is a vehicle for each route.
pub proof fn lemma_block_visits(numbers: Seq<i32>, routes: Seq<Route>, block: Seq<Seq<i32>>)
    requires
        routes.len() <= numbers.len(),
        block.len() == numbers.len(),
        forall|k: int|
            0 <= k < block.len() ==> #[trigger] block[k] == vehicle_route(
                numbers[k],
                share(routes, k),
            ),
    ensures
        visits(block) == all_stops(routes),
    decreases numbers.len(),
{
    broadcast use vstd::seq_lib::group_to_multiset_ensures;

    if numbers.len() == 0 {
        assert(routes.len() == 0);
    } else {
        let last = numbers.len() - 1;
        assert(interior(block[last]) =~= share(routes, last));
        if routes.len() == numbers.len() {
            let front = routes.drop_last();
            assert forall|k: int| 0 <= k < last implies #[trigger] block.drop_last()[k]
                == vehicle_route(numbers.drop_last()[k], share(front, k)) by {
                assert(block.drop_last()[k] == block[k]);
            }
            lemma_block_visits(numbers.drop_last(), front, block.drop_last());
        } else {
            assert forall|k: int| 0 <= k < last implies #[trigger] block.drop_last()[k]
                == vehicle_route(numbers.drop_last()[k], share(routes, k)) by {
                assert(block.drop_last()[k] == block[k]);
            }
            lemma_block_visits(numbers.drop_last(), routes, block.drop_last());
            assert(share(routes, last) =~= Seq::<i32>::empty());
            assert(Seq::<i32>::empty().to_multiset() =~= Multiset::<i32>::empty());
            assert(visits(block) =~= all_stops(routes));
        }
    }
}

/// Hands the routes to the vehicles: the vehicle at each place gets the
/// route at that place, and a route without customers where the routes are
/// fewer than the vehicles.
pub fn vehicle_routes(numbers: &Vec<i32>, routes: &Vec<Route>) -> (block: Vec<Vec<i32>>)
    ensures
        block@.len() == numbers@.len(),
        forall|k: int|
            0 <= k < block@.len() ==> (#[trigger] block@[k])@ == vehicle_route(
                numbers@[k],
                share(routes@, k),
            ),
{
    let mut block: Vec<Vec<i32>> = Vec::new();
    let mut i: usize = 0;
    while i < numbers.len()
        invariant
            0 <= i <= numbers@.len(),
            block@.len() == i,
            forall|k: int|
                0 <= k < i ==> (#[trigger] block@[k])@ == vehicle_route(
                    numbers@[k],
                    share(routes@, k),
                ),
        decreases numbers@.len() - i,
    {
        let v = numbers[i];
        let mut route: Vec<i32> = Vec::new();
        route.push(v);
        if i < routes.len() {
            let mut customers = copy_stops(&routes[i].customers);
            route.append(&mut customers);
        }
        route.push(v);
        assert(route@ =~= vehicle_route(v, share(routes@, i as int)));
        block.push(route);
        i += 1;
    }
    block
}

/// Builds a first solution by the savings method: for each depot, in the
/// order of the depots, routes through the customers to which it is the
/// nearest, one route for each of its vehicles.
///
/// Whatever is drawn on the way, the routes are as [`built_for`] describes
/// them, and those of each depot are what the savings method builds with
/// some picks, no two of which would save anything if they were merged:
/// see [`saved_block`].
pub fn savings_init(model: &Model, problem: &Problem, config: &Config) -> (initial_solution: Vec<
    Vec<i32>,
>)
    requires
        model.wf(),
        problem.ready(model),
        config.cws_bias >= 1,
    ensures
        built_for(model, problem, routes_view(initial_solution@)),
        forall|d: int|
            0 <= d < problem.depots@.len() ==> #[trigger] saved_block(
                model,
                problem,
                config,
                d,
                block_at(problem, routes_view(initial_solution@), d),
            ),
{
    let mut initial_solution: Vec<Vec<i32>> = Vec::new();
    let depot_map = problem.map_customers_to_depot();
    let max_vehicles: usize = if problem.max_vehicles > 0 {
        problem.max_vehicles as usize
    } else {
        0
    };
    let mut d: usize = 0;
    while d < problem.depots.len()
        invariant
            model.wf(),
            problem.ready(model),
            config.cws_bias >= 1,
            0 <= d <= problem.depots@.len(),
            max_vehicles <= route_limit(problem),
            max_vehicles == route_room(problem),
            max_vehicles <= 1 ==> problem.max_vehicles <= 1,
            max_vehicles > 1 ==> max_vehicles == problem.max_vehicles,
            depot_map@.len() == problem.depots@.len(),
            forall|e: int|
                0 <= e < problem.depots@.len() ==> (#[trigger] depot_map@[e])@ == assigned(
                    problem.customers@,
                    problem.depots@,
                    e,
                ),
            initial_solution@.len() == fleet_before(problem, d as nat),
            stops_known(model, routes_view(initial_solution@)),
            all_closed(routes_view(initial_solution@)),
            heads(routes_view(initial_solution@)) == fleets_of_first(problem, d as nat),
            well_served(problem) ==> visits(routes_view(initial_solution@)) == assigned_to_first(
                problem.customers@,
                problem.depots@,
                d as nat,
            ),
            forall|e: int|
                0 <= e < d ==> #[trigger] depot_block(
                    problem,
                    e,
                    routes_view(initial_solution@).subrange(
                        fleet_before(problem, e as nat) as int,
                        fleet_before(problem, (e + 1) as nat) as int,
                    ),
                ),
            forall|e: int|
                0 <= e < d ==> #[trigger] saved_block(
                    model,
                    problem,
                    config,
                    e,
                    block_at(problem, routes_view(initial_solution@), e),
                ),
        decreases problem.depots@.len() - d,
    {
        let depot = &problem.depots[d];
        let customers = copy_stops(&depot_map[d]);
        let ghost wanted = customers@;
        let vehicle = problem.get_vehicle_for_depot(depot);
        proof {
            assert(wanted == assigned(problem.customers@, problem.depots@, d as int));
            lemma_assigned_known(model, problem, d as int);
            lemma_assigned_len(problem.customers@, problem.depots@, d as int);
            assert(customers@.len() * customers@.len() <= problem.customers@.len()
                * problem.customers@.len()) by (nonlinear_arith)
                requires
                    0 <= customers@.len() <= problem.customers@.len(),
            ;
        }
        let routes = construct_routes(
            model,
            vehicle,
            customers,
            max_vehicles,
            config.infeasibility_penalty,
            config.cws_bias,
        );
        let numbers = problem.fleet_of(depot);
        let mut block = vehicle_routes(&numbers, &routes);
        let ghost before = routes_view(initial_solution@);
        let ghost added = routes_view(block@);
        proof {
            assert(depot_block(problem, d as int, added)) by {
                if numbers@.len() >= route_limit(problem) {
                    lemma_block_visits(numbers@, routes@, added);
                }
            }
            lemma_saved_block(model, problem, config, d as int, *vehicle, routes@, numbers@, added);
        }
        initial_solution.append(&mut block);
        proof {
            let after = routes_view(initial_solution@);
            assert(after =~= before + added);
            lemma_visits_concat(before, added);
            assert(heads(added) =~= numbers@);
            assert(heads(after) =~= heads(before) + heads(added));
            assert forall|k: int| 0 <= k < after.len() implies closed(#[trigger] after[k]) by {
                if k < before.len() {
                    assert(after[k] == before[k]);
                } else {
                    assert(after[k] == added[k - before.len()]);
                }
            }
            assert forall|r: int, k: int|
                0 <= r < after.len() && 0 <= k < after[r].len() implies model.has_node(
                #[trigger] after[r][k] as int,
            ) by {
                if r < before.len() {
                    assert(after[r] == before[r]);
                    assert(model.has_node(before[r][k] as int));
                } else {
                    let place = r - before.len();
                    assert(after[r] == added[place]);
                    lemma_fleet_from(problem.vehicles@, depot.number as int, place);
                    let customers = share(routes@, place);
                    assert(customers_known(model, customers));
                    if 0 < k < after[r].len() - 1 {
                        assert(after[r][k] == customers[k - 1]);
                    }
                }
            }
            assert(after.subrange(
                fleet_before(problem, d as nat) as int,
                fleet_before(problem, (d + 1) as nat) as int,
            ) =~= added);
            assert(block_at(problem, after, d as int) =~= added);
            assert forall|e: int| 0 <= e < d implies #[trigger] saved_block(
                model,
                problem,
                config,
                e,
                block_at(problem, after, e),
            ) by {
                lemma_fleet_before_grows(problem, (e + 1) as nat, d as nat);
                lemma_fleet_before_grows(problem, e as nat, (e + 1) as nat);
                assert(block_at(problem, after, e) =~= block_at(problem, before, e));
            }
            assert forall|e: int| 0 <= e < d implies #[trigger] depot_block(
                problem,
                e,
                after.subrange(
                    fleet_before(problem, e as nat) as int,
                    fleet_before(problem, (e + 1) as nat) as int,
                ),
            ) by {
                lemma_fleet_before_grows(problem, (e + 1) as nat, d as nat);
                lemma_fleet_before_grows(problem, e as nat, (e + 1) as nat);
                assert(after.subrange(
                    fleet_before(problem, e as nat) as int,
                    fleet_before(problem, (e + 1) as nat) as int,
                ) =~= before.subrange(
                    fleet_before(problem, e as nat) as int,
                    fleet_before(problem, (e + 1) as nat) as int,
                ));
            }
        }
        d += 1;
    }
    proof {
        lemma_every_customer_assigned(problem.customers@, problem.depots@);
    }
    initial_solution
}

/// The count of the vehicles of the depots before a place does not go down
/// with the place.
pub proof fn lemma_fleet_before_grows(problem: &Problem, low: nat, high: nat)
    requires
        low <= high,
    ensures
        fleet_before(problem, low) <= fleet_before(problem, high),
    decreases high,
{
    if low < high {
        lemma_fleet_before_grows(problem, low, (high - 1) as nat);
    }
}

/// The customers that are assigned to a depot are no more than there are
/// customers.
pub proof fn lemma_assigned_len(
    customers: Seq<crate::problem::Customer>,
    depots: Seq<crate::problem::Depot>,
    place: int,
)
    ensures
        assigned(customers, depots, place).len() <= customers.len(),
    decreases customers.len(),
{
    if customers.len() > 0 {
        lemma_assigned_len(customers.drop_last(), depots, place);
    }
}

/// Each customer that is assigned to a depot is one of the customers.
pub proof fn lemma_assigned_from(
    customers: Seq<crate::problem::Customer>,
    depots: Seq<crate::problem::Depot>,
    place: int,
    k: int,
)
    requires
        0 <= k < assigned(customers, depots, place).len(),
    ensures
        exists|c: int|
            0 <= c < customers.len() && (#[trigger] customers[c]).number == assigned(
                customers,
                depots,
                place,
            )[k],
    decreases customers.len(),
{
    if customers.len() > 0 {
        let front = assigned(customers.drop_last(), depots, place);
        if k < front.len() {
            lemma_assigned_from(customers.drop_last(), depots, place, k);
            let c = choose|c: int|
                0 <= c < customers.drop_last().len() && (#[trigger] customers.drop_last()[c]).number
                    == front[k];
            assert(customers[c].number == front[k]);
        } else {
            assert(customers[customers.len() - 1].number == assigned(customers, depots, place)[k]);
        }
    }
}

/// The model knows the customers that are assigned to a depot of a problem
/// that is ready for it.
pub proof fn lemma_assigned_known(model: &Model, problem: &Problem, place: int)
    requires
        problem.ready(model),
    ensures
        customers_known(model, assigned(problem.customers@, problem.depots@, place)),
{
    let list = assigned(problem.customers@, problem.depots@, place);
    assert forall|k: int| 0 <= k < list.len() implies model.has_node(#[trigger] list[k] as int) by {
        lemma_assigned_from(problem.customers@, problem.depots@, place, k);
    }
}

/// Whether the customers and the vehicles of the problem have numbers of
/// their own: no two customers the same number, and no two vehicles.
pub open spec fn numbered_apart(problem: &Problem) -> bool {
    &&& customer_numbers(problem.customers@).no_duplicates()
    &&& fleets_of_first(problem, problem.depots@.len()).no_duplicates()
}

/// How many chromosomes a generation of `size` has once it is filled in
/// steps of `step` to `wanted` or more: `size` and the fewest steps that
/// reach `wanted`.
pub open spec fn filled_to(size: nat, step: nat, wanted: nat) -> nat
    decreases
            (if size < wanted {
                wanted - size
            } else {
                0
            }),
{
    if size >= wanted || step == 0 {
        size
    } else {
        filled_to(size + step, step, wanted)
    }
}

/// Whether the genes are those of routes that the savings method builds
/// for the problem: see [`built_for`].
pub open spec fn first_chromosome(model: &Model, problem: &Problem, genes: Seq<Gene>) -> bool {
    exists|routes: Seq<Seq<i32>>| #[trigger] built_for(model, problem, routes) && genes == encoded(routes)
}

/// Routes that each start and end at the same node have their two ends.
pub proof fn lemma_closed_ended(routes: Seq<Seq<i32>>)
    requires
        all_closed(routes),
    ensures
        all_ended(routes),
{
    assert forall|k: int| 0 <= k < routes.len() implies (#[trigger] routes[k]).len() >= 2 by {
        assert(closed(routes[k]));
    }
}

/// Puts the chromosomes of first solutions of a problem behind those of
/// the generation of a run.
pub fn add_first_solutions(
    simulation: &mut Simulation,
    model: &Model,
    problem: &Problem,
    solutions: Vec<Vec<Vec<i32>>>,
)
    requires
        forall|k: int|
            0 <= k < solutions@.len() ==> built_for(
                model,
                problem,
                routes_view((#[trigger] solutions@[k])@),
            ),
    ensures
        final(simulation).generation == old(simulation).generation,
        final(simulation).population.scores@ == old(simulation).population.scores@,
        final(simulation).population.chromosomes@.len() == old(simulation).population.chromosomes@.len()
            + solutions@.len(),
        forall|k: int|
            0 <= k < old(simulation).population.chromosomes@.len() ==> #[trigger] final(simulation).population.chromosomes@[k] == old(simulation).population.chromosomes@[k],
        forall|k: int|
            0 <= k < solutions@.len() ==> (#[trigger] final(simulation).population.chromosomes@[old(simulation).population.chromosomes@.len() + k]).genes@ == encoded(routes_view(solutions@[k]@)),
{
    let ghost given = simulation.population.chromosomes@;
    let ghost all = solutions@;
    for route in iter: solutions
        invariant
            iter.seq() == all,
            forall|k: int|
                0 <= k < all.len() ==> built_for(model, problem, routes_view((#[trigger] all[k])@)),
            simulation.generation == old(simulation).generation,
            simulation.population.scores@ == old(simulation).population.scores@,
            given == old(simulation).population.chromosomes@,
            simulation.population.chromosomes@.len() == given.len() + iter.index(),
            forall|k: int|
                0 <= k < given.len() ==> #[trigger] simulation.population.chromosomes@[k]
                    == given[k],
            forall|k: int|
                0 <= k < iter.index() ==> (#[trigger] simulation.population.chromosomes@[given.len()
                    + k]).genes@ == encoded(routes_view(all[k]@)),
    {
        proof {
            assert(built_for(model, problem, routes_view(all[iter.index() as int]@)));
            lemma_closed_ended(routes_view(route@));
        }
        match Solution::new(route).encode() {
            Ok(chromosome) => {
                simulation.population.chromosomes.push(chromosome);
            },
            Err(_) => {
                assert(false);
            },
        }
    }
}

impl Problem {
    /// Fills the generation of a run with first solutions of the problem
    /// and evaluates it.
    ///
    /// As long as the generation has fewer chromosomes than the settings
    /// ask for, `population_gen_step` solutions are built by the savings
    /// method, side by side, and their chromosomes put behind those that
    /// are there: see [`filled_to`] for how many there are in the end. Whatever is drawn, each chromosome that is added is a
    /// first chromosome of the problem, see [`first_chromosome`].
    ///
    /// The error is that of the evaluation, see [`Simulation::evaluate`],
    /// and does not come where the generation was empty and the problem has
    /// a vehicle.
    pub fn generate_population(
        &self,
        simulation: &mut Simulation,
        model: &Model,
        config: &Config,
    ) -> (outcome: Result<(), GaError>)
        requires
            model.wf(),
            self.ready(model),
            config.cws_bias >= 1,
            config.population_gen_step >= 1,
        ensures
            final(simulation).generation == old(simulation).generation,
            final(simulation).population.chromosomes@.len() >= old(simulation).population.chromosomes@.len(),
            final(simulation).population.chromosomes@.len() >= config.population_size,
            final(simulation).population.chromosomes@.len() == filled_to(
                old(simulation).population.chromosomes@.len(),
                config.population_gen_step as nat,
                config.population_size as nat,
            ),
            forall|k: int|
                0 <= k < old(simulation).population.chromosomes@.len() ==> (#[trigger] final(simulation).population.chromosomes@[k]).genes@ == old(simulation).population.chromosomes@[k].genes@,
            forall|k: int|
                old(simulation).population.chromosomes@.len() <= k < final(simulation).population.chromosomes@.len() ==> first_chromosome(
                    model,
                    self,
                    (#[trigger] final(simulation).population.chromosomes@[k]).genes@,
                ),
            outcome is Ok <==> forall|k: int|
                0 <= k < final(simulation).population.chromosomes@.len() ==> evaluable(
                    model,
                    (#[trigger] final(simulation).population.chromosomes@[k]).genes@,
                ),
            outcome is Ok ==> final(simulation).population.ranked() && forall|k: int|
                0 <= k < final(simulation).population.chromosomes@.len() ==> scored(
                    model,
                    config.infeasibility_penalty as int,
                    #[trigger] final(simulation).population.chromosomes@[k],
                ),
            old(simulation).population.chromosomes@.len() == 0 && fleet_before(
                self,
                self.depots@.len(),
            ) > 0 ==> outcome is Ok,
            old(simulation).population.chromosomes@.len() == 0 && well_served(self)
                && numbered_apart(self) ==> final(simulation).population.consistent(),
    {
        let ghost given = simulation.population.chromosomes@;
        let mut size = simulation.population.size();
        while size < config.population_size
            invariant
                size == simulation.population.chromosomes@.len(),
                filled_to(
                    size as nat,
                    config.population_gen_step as nat,
                    config.population_size as nat,
                ) == filled_to(
                    given.len(),
                    config.population_gen_step as nat,
                    config.population_size as nat,
                ),
                simulation.population.scores@ == old(simulation).population.scores@,
                model.wf(),
                self.ready(model),
                config.cws_bias >= 1,
                config.population_gen_step >= 1,
                simulation.generation == old(simulation).generation,
                given == old(simulation).population.chromosomes@,
                simulation.population.chromosomes@.len() >= given.len(),
                forall|k: int|
                    0 <= k < given.len() ==> #[trigger] simulation.population.chromosomes@[k]
                        == given[k],
                forall|k: int|
                    given.len() <= k < simulation.population.chromosomes@.len()
                        ==> first_chromosome(
                        model,
                        self,
                        (#[trigger] simulation.population.chromosomes@[k]).genes@,
                    ),
            decreases
                    if size < config.population_size {
                        config.population_size - size
                    } else {
                        0
                    },
        {
            let solutions = construct_each(model, self, config, config.population_gen_step);
            let ghost before = simulation.population.chromosomes@;
            let ghost all = solutions@;
            add_first_solutions(simulation, model, self, solutions);
            proof {
                assert forall|k: int|
                    given.len() <= k < simulation.population.chromosomes@.len()
                    implies first_chromosome(
                    model,
                    self,
                    (#[trigger] simulation.population.chromosomes@[k]).genes@,
                ) by {
                    if k < before.len() {
                        assert(simulation.population.chromosomes@[k] == before[k]);
                    } else {
                        let added = k - before.len();
                        assert(simulation.population.chromosomes@[before.len() + added].genes@
                            == encoded(routes_view(all[added]@)));
                        assert(built_for(model, self, routes_view(all[added]@)));
                    }
                }
            }
            size = simulation.population.size();
        }
        let ghost filled = simulation.population.chromosomes@;
        proof {
            if given.len() == 0 && fleet_before(self, self.depots@.len()) > 0 {
                assert forall|k: int|
                    0 <= k < simulation.population.chromosomes@.len() implies evaluable(
                    model,
                    (#[trigger] simulation.population.chromosomes@[k]).genes@,
                ) by {
                    let genes = simulation.population.chromosomes@[k].genes@;
                    assert(first_chromosome(model, self, genes));
                    let routes = choose|routes: Seq<Seq<i32>>| #[trigger]
                        built_for(model, self, routes) && genes == encoded(routes);
                    lemma_closed_ended(routes);
                    lemma_encoded_known(model, routes);
                    lemma_encoded_start(routes);
                }
            }
        }
        let outcome = simulation.evaluate(model, config);
        proof {
            if given.len() == 0 && well_served(self) && numbered_apart(self) {
                assert forall|k: int|
                    0 <= k < simulation.population.chromosomes@.len() implies arrangement_of(
                    (#[trigger] simulation.population.chromosomes@[k]).genes@,
                    simulation.population.chromosomes@[0].genes@,
                ) by {
                    let genes = filled[k].genes@;
                    let pattern = filled[0].genes@;
                    assert(simulation.population.chromosomes@[k].genes@ == genes);
                    assert(simulation.population.chromosomes@[0].genes@ == pattern);
                    assert(first_chromosome(model, self, genes));
                    assert(first_chromosome(model, self, pattern));
                    let one = choose|routes: Seq<Seq<i32>>| #[trigger]
                        built_for(model, self, routes) && genes == encoded(routes);
                    let other = choose|routes: Seq<Seq<i32>>| #[trigger]
                        built_for(model, self, routes) && pattern == encoded(routes);
                    lemma_first_solutions_consistent(self, one, other);
                }
            }
            assert forall|k: int| 0 <= k < filled.len() implies (
            #[trigger] simulation.population.chromosomes@[k]).genes@ == filled[k].genes@ by {}
            if outcome is Ok {
                assert forall|k: int|
                    0 <= k < simulation.population.chromosomes@.len() implies evaluable(
                    model,
                    (#[trigger] simulation.population.chromosomes@[k]).genes@,
                ) by {
                    assert(evaluable(model, filled[k].genes@));
                }
            }
            if forall|k: int|
                0 <= k < simulation.population.chromosomes@.len() ==> evaluable(
                    model,
                    (#[trigger] simulation.population.chromosomes@[k]).genes@,
                ) {
                assert forall|k: int| 0 <= k < filled.len() implies evaluable(
                    model,
                    (#[trigger] filled[k]).genes@,
                ) by {
                    assert(evaluable(model, simulation.population.chromosomes@[k].genes@));
                }
            }
        }
        outcome
    }
}

/// Whether the vehicles of the problem stand in blocks, as
/// [`Problem::new`] makes them, and no two depots have the same number.
pub open spec fn fleets_in_blocks(problem: &Problem) -> bool {
    &&& problem.in_blocks()
    &&& forall|a: int, b: int|
        0 <= a < b < problem.depots@.len() ==> (#[trigger] problem.depots@[a]).number != (
        #[trigger] problem.depots@[b]).number
}

/// How many of the first `seen` vehicles stand in the block of the depot at
/// `place`, with `per` vehicles in each block.
pub open spec fn seen_of_block(seen: int, place: int, per: int) -> int {
    if seen <= place * per {
        0
    } else if seen >= (place + 1) * per {
        per
    } else {
        seen - place * per
    }
}

/// Among the first vehicles of a problem whose vehicles stand in blocks,
/// those of a depot are those of its block.
pub proof fn lemma_fleet_of_block(problem: &Problem, place: int, seen: int)
    requires
        fleets_in_blocks(problem),
        0 <= place < problem.depots@.len(),
        0 <= seen <= problem.vehicles@.len(),
    ensures
        fleet(problem.vehicles@.take(seen), problem.depots@[place].number as int) == Seq::new(
            seen_of_block(seen, place, problem.max_vehicles as int) as nat,
            |v: int|
                (problem.customers@.len() + 1 + place * problem.max_vehicles + v) as i32,
        ),
    decreases seen,
{
    let per = problem.max_vehicles as int;
    let vehicles = problem.vehicles@;
    let depot = problem.depots@[place].number as int;
    let base = problem.customers@.len() + 1;
    let wanted = Seq::new(
        seen_of_block(seen, place, per) as nat,
        |v: int| (base + place * per + v) as i32,
    );
    assert(place * per >= 0 && (place + 1) * per == place * per + per) by (nonlinear_arith)
        requires
            place >= 0,
            per >= 0,
    ;
    if seen == 0 {
        assert(vehicles.take(0) =~= Seq::<Vehicle>::empty());
        assert(fleet(vehicles.take(seen), depot) =~= wanted);
    } else {
        lemma_fleet_of_block(problem, place, seen - 1);
        let last = seen - 1;
        assert(vehicles.take(seen).drop_last() =~= vehicles.take(last));
        assert(vehicles.take(seen).last() == vehicles[last]);
        assert(per > 0) by (nonlinear_arith)
            requires
                vehicles.len() == problem.depots@.len() * per,
                vehicles.len() > 0,
                per >= 0,
        ;
        let block = last / per;
        let within = last % per;
        vstd::arithmetic::div_mod::lemma_fundamental_div_mod(last, per);
        vstd::arithmetic::div_mod::lemma_mod_bound(last, per);
        assert(0 <= block < problem.depots@.len()) by (nonlinear_arith)
            requires
                0 <= last < problem.depots@.len() * per,
                per > 0,
                last == per * block + within,
                0 <= within < per,
        ;
        assert(per * block == block * per) by (nonlinear_arith);
        assert(vehicles[block * per + within].depot == problem.depots@[block].number);
        if block == place {
            assert(vehicles[last].number == (base + place * per + within) as i32);
            assert(fleet(vehicles.take(seen), depot) =~= wanted);
        } else {
            assert(problem.depots@[block].number != problem.depots@[place].number);
            if block < place {
                assert(block * per + per <= place * per) by (nonlinear_arith)
                    requires
                        block + 1 <= place,
                        per >= 0,
                ;
            } else {
                assert(block * per >= place * per + per) by (nonlinear_arith)
                    requires
                        block >= place + 1,
                        per >= 0,
                ;
            }
            assert(fleet(vehicles.take(seen), depot) =~= wanted);
        }
    }
}

/// The vehicles of the first depots of a problem whose vehicles stand in
/// blocks are the first vehicles.
pub proof fn lemma_fleets_in_order(problem: &Problem, count: nat)
    requires
        fleets_in_blocks(problem),
        count <= problem.depots@.len(),
    ensures
        fleets_of_first(problem, count) == Seq::new(
            (count * problem.max_vehicles) as nat,
            |i: int| (problem.customers@.len() + 1 + i) as i32,
        ),
    decreases count,
{
    let per = problem.max_vehicles as int;
    let base = problem.customers@.len() + 1;
    assert(count * per >= 0) by (nonlinear_arith)
        requires
            count >= 0,
            per >= 0,
    ;
    if count == 0 {
        assert(count * per == 0) by (nonlinear_arith)
            requires
                count == 0,
        ;
        assert(fleets_of_first(problem, count).len() == 0);
        assert(fleets_of_first(problem, count) =~= Seq::new(
            (count * per) as nat,
            |i: int| (base + i) as i32,
        ));
    } else {
        let place = count - 1;
        lemma_fleets_in_order(problem, place as nat);
        lemma_fleet_of_block(problem, place, problem.vehicles@.len() as int);
        assert(problem.vehicles@.take(problem.vehicles@.len() as int) =~= problem.vehicles@);
        assert(place * per >= 0 && count * per == place * per + per) by (nonlinear_arith)
            requires
                place >= 0,
                per >= 0,
                count == place + 1,
        ;
        assert(count * per <= problem.depots@.len() * per) by (nonlinear_arith)
            requires
                count <= problem.depots@.len(),
                per >= 0,
        ;
        assert((place + 1) * per == place * per + per) by (nonlinear_arith);
        assert(seen_of_block(problem.vehicles@.len() as int, place, per) == per);
        let front = fleets_of_first(problem, place as nat);
        let block = fleet(problem.vehicles@, problem.depots@[place].number as int);
        let wanted = Seq::new((count * per) as nat, |i: int| (base + i) as i32);
        assert(front.len() == place * per);
        assert(block.len() == per);
        assert(fleets_of_first(problem, count) == front + block);
        assert forall|i: int| 0 <= i < count * per implies (front + block)[i] == wanted[i] by {
            if i >= place * per {
                assert((front + block)[i] == block[i - place * per]);
            }
        }
        assert(fleets_of_first(problem, count) =~= wanted);
    }
}

/// A problem as [`Problem::new`] makes it, with a vehicle or more for each
/// depot and different numbers for its depots and for its customers, has
/// vehicles enough and a number of its own for each node: the first
/// generation that is built for it is consistent.
pub proof fn lemma_made_problem_is_sound(problem: &Problem)
    requires
        fleets_in_blocks(problem),
        problem.max_vehicles >= 1,
        customer_numbers(problem.customers@).no_duplicates(),
    ensures
        well_served(problem),
        numbered_apart(problem),
{
    let per = problem.max_vehicles as int;
    let depots = problem.depots@.len();
    lemma_fleets_in_order(problem, depots);
    assert forall|d: int| 0 <= d < depots implies fleet(
        problem.vehicles@,
        (#[trigger] problem.depots@[d]).number as int,
    ).len() >= route_limit(problem) by {
        lemma_fleet_of_block(problem, d, problem.vehicles@.len() as int);
        assert(problem.vehicles@.take(problem.vehicles@.len() as int) =~= problem.vehicles@);
        assert((d + 1) * per <= depots * per) by (nonlinear_arith)
            requires
                d + 1 <= depots,
                per >= 0,
        ;
        assert((d + 1) * per == d * per + per && d * per >= 0) by (nonlinear_arith)
            requires
                d >= 0,
                per >= 0,
        ;
        assert(seen_of_block(problem.vehicles@.len() as int, d, per) == per);
    }
    let all = fleets_of_first(problem, depots);
    assert forall|a: int, b: int| 0 <= a < all.len() && 0 <= b < all.len() && a != b implies all[a]
        != all[b] by {}
}

} // verus!
