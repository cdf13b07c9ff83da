use crate::error::GaError;
use crate::model::Model;
use crate::order::{ascending, entry_le, lemma_sorted_of, sorted_entries, sorted_of};
use crate::problem::Vehicle;
use crate::random::random_in_range;
use vstd::multiset::Multiset;
use vstd::prelude::*;

verus! {

/// The most that one leg and one penalty can add to a cost.
pub open spec fn step_limit() -> int {
    0x2_0000_0000
}

/// Whether every customer of the list is a node of the model.
pub open spec fn customers_known(model: &Model, customers: Seq<i32>) -> bool {
    forall|k: int| 0 <= k < customers.len() ==> model.has_node(#[trigger] customers[k] as int)
}

/// What is left of `capacity` after the first `served` customers have been
/// given what they ask for. It is negative once the vehicle is overloaded.
pub open spec fn load_after(model: &Model, capacity: int, customers: Seq<i32>, served: nat) -> int
    decreases served,
{
    if served == 0 {
        capacity
    } else {
        load_after(model, capacity, customers, (served - 1) as nat) - model.demand(
            customers[served - 1] as int,
        )
    }
}

/// The node at which the vehicle stands after `served` customers: `home`
/// before the first one.
pub open spec fn position_after(home: int, customers: Seq<i32>, served: int) -> int {
    if served == 0 {
        home
    } else {
        customers[served - 1] as int
    }
}

/// The cost of driving from `home` to the first `served` customers in turn:
/// the length of each leg, and `penalty` for each customer served while the
/// vehicle is overloaded.
pub open spec fn travel_cost(
    model: &Model,
    penalty: int,
    home: int,
    capacity: int,
    customers: Seq<i32>,
    served: nat,
) -> int
    decreases served,
{
    if served == 0 {
        0
    } else {
        travel_cost(model, penalty, home, capacity, customers, (served - 1) as nat)
            + model.distance(
            position_after(home, customers, served - 1),
            customers[served - 1] as int,
        ) + if load_after(model, capacity, customers, served) < 0 {
            penalty
        } else {
            0
        }
    }
}

/// The cost of a whole route: out from `home`, to each customer in turn, and
/// back.
pub open spec fn route_cost(
    model: &Model,
    penalty: int,
    home: int,
    capacity: int,
    customers: Seq<i32>,
) -> int {
    travel_cost(model, penalty, home, capacity, customers, customers.len()) + model.distance(
        position_after(home, customers, customers.len() as int),
        home,
    )
}

/// The cost of part of a route stays within what its legs can add up to, and
/// the load within what its customers can ask for.
pub proof fn lemma_travel_bounds(
    model: &Model,
    penalty: int,
    home: int,
    capacity: int,
    customers: Seq<i32>,
    served: nat,
)
    requires
        0 <= penalty <= u32::MAX,
        i32::MIN <= capacity <= i32::MAX,
    ensures
        0 <= travel_cost(model, penalty, home, capacity, customers, served) <= served
            * step_limit(),
        -(served + 1) * 0x8000_0000 <= load_after(model, capacity, customers, served) <= (served
            + 1) * 0x8000_0000,
    decreases served,
{
    if served > 0 {
        lemma_travel_bounds(model, penalty, home, capacity, customers, (served - 1) as nat);
        assert((served - 1) * step_limit() + step_limit() == served * step_limit())
            by (nonlinear_arith);
        assert(served * 0x8000_0000 + 0x8000_0000 == (served + 1) * 0x8000_0000)
            by (nonlinear_arith);
        assert(-(served * 0x8000_0000) - 0x8000_0000 == -(served + 1) * 0x8000_0000)
            by (nonlinear_arith);
    }
}

/// A vehicle's tour through some customers, with its cost once that has been
/// worked out.
pub struct Route {
    pub cost: Option<u128>,
    pub customers: Vec<i32>,
}

impl Route {
    /// Whether the route carries the cost that `vehicle` has for it.
    pub open spec fn costed(&self, model: &Model, penalty: int, vehicle: Vehicle) -> bool {
        &&& self.cost is Some
        &&& self.cost->0 as int == route_cost(
            model,
            penalty,
            vehicle.number as int,
            vehicle.capacity as int,
            self.customers@,
        )
    }

    /// Works out the cost of the route for `vehicle`, unless it has one
    /// already: a cost, once set, stays.
    pub fn evaluate(&mut self, model: &Model, vehicle: &Vehicle, penalty: u32)
        requires
            old(self).cost is None ==> model.wf() && model.has_node(vehicle.number as int)
                && customers_known(model, old(self).customers@),
        ensures
            final(self).customers@ == old(self).customers@,
            old(self).cost is Some ==> final(self).cost == old(self).cost,
            old(self).cost is None ==> final(self).costed(model, penalty as int, *vehicle),
    {
        if self.cost.is_some() {
            return ;
        }
        let ghost home = vehicle.number as int;
        let ghost capacity = vehicle.capacity as int;
        let ghost stops = self.customers@;
        let start_node = vehicle.number as usize;
        let total = self.customers.len();
        let mut score: u128 = 0;
        let mut capacity_left: i128 = vehicle.capacity as i128;
        let mut current_node = start_node;
        let mut served: usize = 0;
        while served < total
            invariant
                model.wf(),
                model.has_node(home),
                customers_known(model, stops),
                stops == self.customers@,
                total == stops.len(),
                home == vehicle.number,
                capacity == vehicle.capacity,
                0 <= served <= total,
                current_node as int == position_after(home, stops, served as int),
                model.has_node(current_node as int),
                score as int == travel_cost(
                    model,
                    penalty as int,
                    home,
                    capacity,
                    stops,
                    served as nat,
                ),
                capacity_left as int == load_after(model, capacity, stops, served as nat),
            decreases total - served,
        {
            proof {
                lemma_travel_bounds(model, penalty as int, home, capacity, stops, served as nat);
                lemma_travel_bounds(
                    model,
                    penalty as int,
                    home,
                    capacity,
                    stops,
                    (served + 1) as nat,
                );
                assert(served * step_limit() <= 0xffff_ffff_ffff_ffff * step_limit())
                    by (nonlinear_arith)
                    requires
                        served <= 0xffff_ffff_ffff_ffff,
                ;
                assert((served + 2) * 0x8000_0000 <= 0x1_0000_0000_0000_0001 * 0x8000_0000)
                    by (nonlinear_arith)
                    requires
                        served <= 0xffff_ffff_ffff_ffff,
                ;
            }
            let customer = self.customers[served];
            assert(model.has_node(stops[served as int] as int));
            let customer_node = customer as usize;
            score = score + model.get_distance(current_node, customer_node) as u128;
            capacity_left = capacity_left - model.get_demand(customer_node) as i128;
            if capacity_left < 0 {
                score = score + penalty as u128;
            }
            current_node = customer_node;
            served += 1;
        }
        proof {
            lemma_travel_bounds(model, penalty as int, home, capacity, stops, served as nat);
            assert(served * step_limit() <= 0xffff_ffff_ffff_ffff * step_limit())
                by (nonlinear_arith)
                requires
                    served <= 0xffff_ffff_ffff_ffff,
            ;
        }
        score = score + model.get_distance(current_node, start_node) as u128;
        self.cost = Some(score);
    }

    /// The cost of the route, or `GaError::Invariant` when it was asked for
    /// before the route was evaluated.
    pub fn get_cost(&self) -> (cost: Result<u128, GaError>)
        ensures
            match self.cost {
                Some(known) => cost == Ok::<u128, GaError>(known),
                None => cost == Err::<u128, GaError>(GaError::Invariant),
            },
    {
        match self.cost {
            Some(cost) => Ok(cost),
            None => Err(GaError::Invariant),
        }
    }
}

/// What a cell of the table of savings holds until a saving is written to it.
pub const UNSET_SAVING: i128 = -100_000;

/// What is saved when one vehicle serves the customers of `first` and then
/// those of `second`, in place of two vehicles that serve them apart.
pub open spec fn saving(
    model: &Model,
    penalty: int,
    vehicle: Vehicle,
    first: Seq<i32>,
    second: Seq<i32>,
) -> int {
    route_cost(model, penalty, vehicle.number as int, vehicle.capacity as int, first) + route_cost(
        model,
        penalty,
        vehicle.number as int,
        vehicle.capacity as int,
        second,
    ) - route_cost(model, penalty, vehicle.number as int, vehicle.capacity as int, first + second)
}

/// Whether every route of the list visits known customers only and carries
/// the cost that `vehicle` has for it.
pub open spec fn routes_ready(
    model: &Model,
    penalty: int,
    vehicle: Vehicle,
    routes: Seq<Route>,
) -> bool {
    forall|k: int|
        0 <= k < routes.len() ==> customers_known(model, (#[trigger] routes[k]).customers@)
            && routes[k].costed(model, penalty, vehicle)
}

/// The cost of a route stays within what its legs can add up to.
pub proof fn lemma_route_cost_bounds(
    model: &Model,
    penalty: int,
    home: int,
    capacity: int,
    customers: Seq<i32>,
)
    requires
        0 <= penalty <= u32::MAX,
        i32::MIN <= capacity <= i32::MAX,
        customers.len() <= usize::MAX,
    ensures
        0 <= route_cost(model, penalty, home, capacity, customers)
            < 0x2_0000_0000_0000_0000_0000_0000,
{
    lemma_travel_bounds(model, penalty, home, capacity, customers, customers.len());
    assert(customers.len() * step_limit() <= 0xffff_ffff_ffff_ffff * step_limit())
        by (nonlinear_arith)
        requires
            customers.len() <= 0xffff_ffff_ffff_ffff,
    ;
}

/// A square table with one saving for each ordered pair of routes, stored
/// row after row.
pub struct Savings {
    pub dim: usize,
    pub vec: Vec<i128>,
}

impl Savings {
    /// The table has `dim` rows of `dim` cells.
    pub open spec fn wf(&self) -> bool {
        self.vec@.len() == self.dim * self.dim <= usize::MAX
    }

    /// A table for `dim` routes in which no saving has been written yet.
    pub fn new(dim: usize) -> (savings: Savings)
        requires
            dim * dim <= usize::MAX,
        ensures
            savings.dim == dim,
            savings.wf(),
            forall|k: int| 0 <= k < dim * dim ==> savings.vec@[k] == UNSET_SAVING,
    {
        Savings { dim, vec: vec![UNSET_SAVING; dim * dim] }
    }

    /// Writes the saving of the pair of route `i` and route `j`.
    pub fn change(&mut self, i: usize, j: usize, new_value: i128)
        requires
            old(self).wf(),
            i < old(self).dim,
            j < old(self).dim,
        ensures
            final(self).dim == old(self).dim,
            final(self).wf(),
            final(self).vec@ == old(self).vec@.update(i * old(self).dim + j, new_value),
    {
        proof {
            lemma_pair_in_table(self.dim as int, i as int, j as int);
        }
        let index = i * self.dim + j;
        self.vec.set(index, new_value);
    }

    /// The row and the column of the cell with this number.
    pub fn get_indices(&self, number: usize) -> (indices: (usize, usize))
        requires
            self.dim > 0,
        ensures
            indices.0 == number / self.dim,
            indices.1 == number % self.dim,
    {
        let row = number / self.dim;
        let col = number % self.dim;
        (row, col)
    }
}

/// The cell of a pair of rows lies inside the table, and the pair can be
/// read back from the cell's number.
pub proof fn lemma_pair_in_table(dim: int, i: int, j: int)
    requires
        0 <= i < dim,
        0 <= j < dim,
    ensures
        0 <= i * dim <= i * dim + j < dim * dim,
        (i * dim + j) / dim == i,
        (i * dim + j) % dim == j,
{
    assert(0 <= i * dim <= (dim - 1) * dim) by (nonlinear_arith)
        requires
            0 <= i <= dim - 1,
            0 < dim,
    ;
    assert((dim - 1) * dim + dim == dim * dim) by (nonlinear_arith);
    vstd::arithmetic::div_mod::lemma_fundamental_div_mod_converse(i * dim + j, dim, i, j);
}

/// One route for each customer, none of them evaluated.
pub fn single_customers_routes(customers: Vec<i32>) -> (routes: Vec<Route>)
    ensures
        routes@.len() == customers@.len(),
        forall|k: int|
            0 <= k < routes@.len() ==> (#[trigger] routes@[k]).customers@ == seq![customers@[k]]
                && routes@[k].cost is None,
{
    let mut routes: Vec<Route> = Vec::new();
    let mut k: usize = 0;
    while k < customers.len()
        invariant
            0 <= k <= customers@.len(),
            routes@.len() == k,
            forall|m: int|
                0 <= m < k ==> (#[trigger] routes@[m]).customers@ == seq![customers@[m]]
                    && routes@[m].cost is None,
        decreases customers@.len() - k,
    {
        let mut alone: Vec<i32> = Vec::new();
        alone.push(customers[k]);
        assert(alone@ =~= seq![customers@[k as int]]);
        routes.push(Route { cost: None, customers: alone });
        k += 1;
    }
    routes
}

/// Evaluates each route of the list that has no cost yet.
pub fn evaluate_routes(routes: &mut Vec<Route>, model: &Model, vehicle: &Vehicle, penalty: u32)
    requires
        model.wf(),
        model.has_node(vehicle.number as int),
        forall|k: int|
            0 <= k < old(routes)@.len() ==> customers_known(
                model,
                (#[trigger] old(routes)@[k]).customers@,
            ),
    ensures
        final(routes)@.len() == old(routes)@.len(),
        forall|k: int|
            0 <= k < old(routes)@.len() ==> {
                &&& (#[trigger] final(routes)@[k]).customers@ == old(routes)@[k].customers@
                &&& old(routes)@[k].cost is Some ==> final(routes)@[k].cost == old(routes)@[k].cost
                &&& old(routes)@[k].cost is None ==> final(routes)@[k].costed(
                    model,
                    penalty as int,
                    *vehicle,
                )
            },
{
    let total = routes.len();
    let mut done: usize = 0;
    while done < total
        invariant
            model.wf(),
            model.has_node(vehicle.number as int),
            0 <= done <= total,
            routes@.len() == total,
            total == old(routes)@.len(),
            forall|k: int|
                0 <= k < total ==> customers_known(model, (#[trigger] old(routes)@[k]).customers@),
            forall|k: int| done <= k < total ==> #[trigger] routes@[k] == old(routes)@[k],
            forall|k: int|
                0 <= k < done ==> {
                    &&& (#[trigger] routes@[k]).customers@ == old(routes)@[k].customers@
                    &&& old(routes)@[k].cost is Some ==> routes@[k].cost == old(routes)@[k].cost
                    &&& old(routes)@[k].cost is None ==> routes@[k].costed(
                        model,
                        penalty as int,
                        *vehicle,
                    )
                },
        decreases total - done,
    {
        let ghost before = routes@;
        let mut route = Route { cost: routes[done].cost, customers: copy_stops(&routes[done].customers) };
        assert(old(routes)@[done as int] == before[done as int]);
        route.evaluate(model, vehicle, penalty);
        routes.set(done, route);
        done += 1;
    }
}

/// A copy of a list of stops.
pub fn copy_stops(stops: &Vec<i32>) -> (copy: Vec<i32>)
    ensures
        copy@ == stops@,
{
    let mut copy: Vec<i32> = Vec::new();
    let mut k: usize = 0;
    while k < stops.len()
        invariant
            0 <= k <= stops@.len(),
            copy@ == stops@.take(k as int),
        decreases stops@.len() - k,
    {
        copy.push(stops[k]);
        assert(stops@.take(k + 1) =~= stops@.take(k as int).push(stops@[k as int]));
        k += 1;
    }
    assert(stops@.take(stops@.len() as int) =~= stops@);
    copy
}

/// The route that serves the customers of `r1` and then those of `r2`, not
/// evaluated yet.
pub fn merge_routes(r1: &Route, r2: &Route) -> (merged: Route)
    ensures
        merged.customers@ == r1.customers@ + r2.customers@,
        merged.cost is None,
{
    let mut customers = copy_stops(&r1.customers);
    let mut k: usize = 0;
    while k < r2.customers.len()
        invariant
            0 <= k <= r2.customers@.len(),
            customers@ == r1.customers@ + r2.customers@.take(k as int),
        decreases r2.customers@.len() - k,
    {
        customers.push(r2.customers[k]);
        assert(r2.customers@.take(k + 1) =~= r2.customers@.take(k as int).push(
            r2.customers@[k as int],
        ));
        assert(customers@ =~= r1.customers@ + r2.customers@.take(k + 1));
        k += 1;
    }
    assert(r2.customers@.take(r2.customers@.len() as int) =~= r2.customers@);
    Route { cost: None, customers }
}

/// Takes two routes out of the list; the others keep their order.
pub fn remove_routes(routes: &mut Vec<Route>, index_one: usize, index_two: usize)
    requires
        index_one != index_two,
        index_one < old(routes)@.len(),
        index_two < old(routes)@.len(),
    ensures
        final(routes)@ == without_pair(old(routes)@, index_one as int, index_two as int),
{
    let min_index = if index_one < index_two {
        index_one
    } else {
        index_two
    };
    let max_index = if index_one < index_two {
        index_two
    } else {
        index_one
    };
    routes.remove(max_index);
    routes.remove(min_index);
}

/// Whether the best of the sorted savings is a gain.
pub fn positive_saving_left(sorted_savings: &Vec<(usize, i128)>) -> (left: bool)
    ensures
        left == (sorted_savings@.len() > 0 && sorted_savings@[0].1 > 0),
{
    if sorted_savings.len() == 0 {
        false
    } else {
        sorted_savings[0].1 > 0
    }
}

/// What the table of savings of these routes holds in the cell with this
/// number: nothing on the diagonal, and elsewhere the saving of the pair.
pub open spec fn expected_saving(
    model: &Model,
    penalty: int,
    vehicle: Vehicle,
    routes: Seq<Route>,
    cell: int,
) -> int {
    let dim = routes.len() as int;
    if cell / dim == cell % dim {
        UNSET_SAVING as int
    } else {
        saving(
            model,
            penalty,
            vehicle,
            routes[cell / dim].customers@,
            routes[cell % dim].customers@,
        )
    }
}

/// Two lists of known customers make a list of known customers.
pub proof fn lemma_known_concat(model: &Model, first: Seq<i32>, second: Seq<i32>)
    requires
        customers_known(model, first),
        customers_known(model, second),
    ensures
        customers_known(model, first + second),
{
    assert forall|k: int| 0 <= k < (first + second).len() implies model.has_node(
        #[trigger] (first + second)[k] as int,
    ) by {
        if k < first.len() {
            assert((first + second)[k] == first[k]);
        } else {
            assert((first + second)[k] == second[k - first.len()]);
        }
    }
}

/// The saving of each ordered pair of different routes.
pub fn calculate_savings(routes: &Vec<Route>, model: &Model, vehicle: &Vehicle, penalty: u32) -> (savings:
    Savings)
    requires
        model.wf(),
        model.has_node(vehicle.number as int),
        routes@.len() * routes@.len() <= usize::MAX,
        routes_ready(model, penalty as int, *vehicle, routes@),
    ensures
        savings.dim == routes@.len(),
        savings.wf(),
        forall|cell: int|
            0 <= cell < routes@.len() * routes@.len() ==> #[trigger] savings.vec@[cell]
                == expected_saving(model, penalty as int, *vehicle, routes@, cell),
{
    let num_routes = routes.len();
    let mut savings = Savings::new(num_routes);
    let mut i1: usize = 0;
    while i1 < num_routes
        invariant
            model.wf(),
            model.has_node(vehicle.number as int),
            num_routes == routes@.len(),
            num_routes * num_routes <= usize::MAX,
            routes_ready(model, penalty as int, *vehicle, routes@),
            0 <= i1 <= num_routes,
            savings.dim == num_routes,
            savings.wf(),
            forall|cell: int|
                0 <= cell < i1 * num_routes ==> #[trigger] savings.vec@[cell] == expected_saving(
                    model,
                    penalty as int,
                    *vehicle,
                    routes@,
                    cell,
                ),
            forall|cell: int|
                i1 * num_routes <= cell < num_routes * num_routes ==> #[trigger] savings.vec@[cell]
                    == UNSET_SAVING,
        decreases num_routes - i1,
    {
        let mut i2: usize = 0;
        while i2 < num_routes
            invariant
                model.wf(),
                model.has_node(vehicle.number as int),
                num_routes == routes@.len(),
                num_routes * num_routes <= usize::MAX,
                routes_ready(model, penalty as int, *vehicle, routes@),
                0 <= i1 < num_routes,
                0 <= i2 <= num_routes,
                savings.dim == num_routes,
                savings.wf(),
                forall|cell: int|
                    0 <= cell < i1 * num_routes + i2 ==> #[trigger] savings.vec@[cell]
                        == expected_saving(model, penalty as int, *vehicle, routes@, cell),
                forall|cell: int|
                    i1 * num_routes + i2 <= cell < num_routes * num_routes
                        ==> #[trigger] savings.vec@[cell] == UNSET_SAVING,
            decreases num_routes - i2,
        {
            proof {
                lemma_pair_in_table(num_routes as int, i1 as int, i2 as int);
            }
            if i1 != i2 {
                let r1 = &routes[i1];
                let r2 = &routes[i2];
                let mut merged_route = merge_routes(r1, r2);
                proof {
                    assert(r1.customers@.len() == r1.customers.len());
                    assert(r2.customers@.len() == r2.customers.len());
                    assert(merged_route.customers@.len() == merged_route.customers.len());
                    lemma_known_concat(model, r1.customers@, r2.customers@);
                    lemma_route_cost_bounds(
                        model,
                        penalty as int,
                        vehicle.number as int,
                        vehicle.capacity as int,
                        r1.customers@,
                    );
                    lemma_route_cost_bounds(
                        model,
                        penalty as int,
                        vehicle.number as int,
                        vehicle.capacity as int,
                        r2.customers@,
                    );
                    lemma_route_cost_bounds(
                        model,
                        penalty as int,
                        vehicle.number as int,
                        vehicle.capacity as int,
                        merged_route.customers@,
                    );
                }
                merged_route.evaluate(model, vehicle, penalty);
                match (r1.cost, r2.cost, merged_route.cost) {
                    (Some(apart_one), Some(apart_two), Some(together)) => {
                        let saved: i128 = apart_one as i128 + apart_two as i128 - together as i128;
                        savings.change(i1, i2, saved);
                    },
                    _ => {
                        assert(false);
                    },
                }
            }
            i2 += 1;
        }
        proof {
            assert(i1 * num_routes + num_routes == (i1 + 1) * num_routes) by (nonlinear_arith);
        }
        i1 += 1;
    }
    savings
}

/// Whether the cell with this number lies in the table and off its diagonal.
pub open spec fn off_diagonal(dim: int, cell: int) -> bool {
    0 <= cell < dim * dim && cell / dim != cell % dim
}

/// Whether a list holds the best savings of a table: cells off the diagonal,
/// none of them twice, each with its saving, the largest saving first, and
/// no cell left out whose saving is larger than one in the list.
pub open spec fn best_savings(savings: Savings, limit: int, top: Seq<(usize, i128)>) -> bool {
    &&& top.len() <= limit
    &&& forall|t: int|
        0 <= t < top.len() ==> off_diagonal(savings.dim as int, (#[trigger] top[t]).0 as int)
            && top[t].1 == savings.vec@[top[t].0 as int]
    &&& forall|a: int, b: int| 0 <= a < b < top.len() ==> top[a].1 >= top[b].1
    &&& forall|a: int, b: int| 0 <= a < b < top.len() ==> top[a].0 != top[b].0
    &&& forall|cell: int| #[trigger]
        off_diagonal(savings.dim as int, cell) ==> listed(top, cell) || (top.len() == limit
            && forall|t: int| 0 <= t < top.len() ==> savings.vec@[cell] <= (#[trigger] top[t]).1)
}

/// The savings of the cells off the diagonal among the first `upto` cells
/// of a table, each with the number of its cell, in the order of the cells.
pub open spec fn entries_of(table: Seq<i128>, dim: int, upto: nat) -> Seq<(i128, usize)>
    decreases upto,
{
    if upto == 0 {
        Seq::empty()
    } else {
        let before = entries_of(table, dim, (upto - 1) as nat);
        let cell = upto - 1;
        if cell / dim != cell % dim {
            before.push((table[cell], cell as usize))
        } else {
            before
        }
    }
}

/// The `limit` best savings of a table of `dim` rows, the largest first and
/// of two equal savings that of the later cell: each entry is the number of
/// a cell off the diagonal and its saving.
pub open spec fn best_list(table: Seq<i128>, dim: int, limit: int) -> Seq<(usize, i128)> {
    let sorted = sorted_of(entries_of(table, dim, table.len()));
    let kept = if limit < sorted.len() {
        limit
    } else {
        sorted.len() as int
    };
    Seq::new(
        kept as nat,
        |t: int| (sorted[sorted.len() - 1 - t].1, sorted[sorted.len() - 1 - t].0),
    )
}

/// Whether the list holds the cell with this number.
pub open spec fn listed(top: Seq<(usize, i128)>, cell: int) -> bool {
    exists|t: int| 0 <= t < top.len() && (#[trigger] top[t]).0 == cell
}

/// The `limit` best savings of the table, the largest first. The cells of
/// the diagonal, which pair a route with itself, are left out.
pub fn sort_savings(savings: &Savings, limit: usize) -> (top: Vec<(usize, i128)>)
    requires
        savings.wf(),
    ensures
        top@ == best_list(savings.vec@, savings.dim as int, limit as int),
        best_savings(*savings, limit as int, top@),
        savings.dim >= 2 && limit >= 1 ==> top@.len() >= 1,
{
    let dim = savings.dim;
    let cells = savings.vec.len();
    let mut entries: Vec<(i128, usize)> = Vec::new();
    let mut cell: usize = 0;
    while cell < cells
        invariant
            savings.wf(),
            dim == savings.dim,
            cells == dim * dim,
            0 <= cell <= cells,
            forall|m: int|
                0 <= m < entries@.len() ==> off_diagonal(dim as int, (#[trigger] entries@[m]).1 as int)
                    && entries@[m].1 < cell && entries@[m].0 == savings.vec@[entries@[m].1 as int],
            forall|a: int, b: int|
                0 <= a < b < entries@.len() ==> (#[trigger] entries@[a]).1 < (
                #[trigger] entries@[b]).1,
            forall|c: int|
                0 <= c < cell && #[trigger] off_diagonal(dim as int, c) ==> has_cell(entries@, c),
            entries@ == entries_of(savings.vec@, dim as int, cell as nat),
        decreases cells - cell,
    {
        if cell / dim != cell % dim {
            let ghost before = entries@;
            entries.push((savings.vec[cell], cell));
            proof {
                assert(entries@[before.len() as int] == (savings.vec@[cell as int], cell));
                assert forall|c: int|
                    0 <= c < cell + 1 && #[trigger] off_diagonal(dim as int, c) implies has_cell(
                    entries@,
                    c,
                ) by {
                    if c < cell {
                        let m = choose|m: int| 0 <= m < before.len() && (#[trigger] before[m]).1 == c;
                        assert(entries@[m] == before[m]);
                    }
                }
            }
        }
        cell += 1;
    }
    proof {
        if dim >= 2 {
            lemma_pair_in_table(dim as int, 0, 1);
            assert(off_diagonal(dim as int, 1));
            assert(has_cell(entries@, 1));
        }
    }
    let ghost unsorted = entries@;
    let sorted = sorted_entries(entries);
    proof {
        lemma_sorted_savings(*savings, unsorted, sorted@);
        lemma_sorted_of(unsorted, sorted@);
    }
    let total = sorted.len();
    let kept = if limit < total {
        limit
    } else {
        total
    };
    let mut top: Vec<(usize, i128)> = Vec::new();
    let mut t: usize = 0;
    while t < kept
        invariant
            0 <= t <= kept <= total,
            total == sorted@.len(),
            top@.len() == t,
            forall|m: int|
                0 <= m < t ==> (#[trigger] top@[m]).0 == sorted@[total - 1 - m].1 && top@[m].1
                    == sorted@[total - 1 - m].0,
        decreases kept - t,
    {
        let entry = sorted[total - 1 - t];
        top.push((entry.1, entry.0));
        t += 1;
    }
    proof {
        lemma_best_of_sorted(*savings, limit as int, sorted@, top@);
        assert(top@ =~= best_list(savings.vec@, savings.dim as int, limit as int));
    }
    top
}

/// What sorting keeps of the entries that were collected from a table: each
/// entry is a cell off the diagonal with its saving, no cell comes twice,
/// and every such cell is there.
pub open spec fn holds_all_cells(savings: Savings, entries: Seq<(i128, usize)>) -> bool {
    &&& forall|m: int|
        0 <= m < entries.len() ==> off_diagonal(savings.dim as int, (#[trigger] entries[m]).1 as int)
            && entries[m].0 == savings.vec@[entries[m].1 as int]
    &&& forall|a: int, b: int|
        0 <= a < b < entries.len() ==> (#[trigger] entries[a]).1 != (#[trigger] entries[b]).1
    &&& forall|c: int| #[trigger] off_diagonal(savings.dim as int, c) ==> has_cell(entries, c)
}

/// Whether the entries hold the cell with this number.
pub open spec fn has_cell(entries: Seq<(i128, usize)>, cell: int) -> bool {
    exists|m: int| 0 <= m < entries.len() && (#[trigger] entries[m]).1 == cell
}

/// A rearrangement of entries that hold all cells holds all cells.
pub proof fn lemma_sorted_savings(
    savings: Savings,
    unsorted: Seq<(i128, usize)>,
    sorted: Seq<(i128, usize)>,
)
    requires
        savings.wf(),
        sorted.to_multiset() == unsorted.to_multiset(),
        forall|m: int|
            0 <= m < unsorted.len() ==> off_diagonal(
                savings.dim as int,
                (#[trigger] unsorted[m]).1 as int,
            ) && unsorted[m].0 == savings.vec@[unsorted[m].1 as int],
        forall|a: int, b: int|
            0 <= a < b < unsorted.len() ==> (#[trigger] unsorted[a]).1 < (#[trigger] unsorted[b]).1,
        forall|c: int| #[trigger] off_diagonal(savings.dim as int, c) ==> has_cell(unsorted, c),
    ensures
        holds_all_cells(savings, sorted),
        sorted.len() == unsorted.len(),
{
    vstd::seq_lib::to_multiset_len(sorted);
    vstd::seq_lib::to_multiset_len(unsorted);
    broadcast use vstd::seq_lib::group_to_multiset_ensures;

    assert(unsorted.no_duplicates());
    unsorted.lemma_multiset_has_no_duplicates();
    sorted.lemma_multiset_has_no_duplicates_conv();
    assert forall|m: int| 0 <= m < sorted.len() implies off_diagonal(
        savings.dim as int,
        (#[trigger] sorted[m]).1 as int,
    ) && sorted[m].0 == savings.vec@[sorted[m].1 as int] by {
        assert(sorted.contains(sorted[m]));
        assert(unsorted.to_multiset().count(sorted[m]) > 0);
        assert(unsorted.contains(sorted[m]));
        let k = choose|k: int| 0 <= k < unsorted.len() && unsorted[k] == sorted[m];
        assert(off_diagonal(savings.dim as int, unsorted[k].1 as int));
    }
    assert forall|c: int| #[trigger] off_diagonal(savings.dim as int, c) implies has_cell(
        sorted,
        c,
    ) by {
        let k = choose|k: int| 0 <= k < unsorted.len() && (#[trigger] unsorted[k]).1 == c;
        assert(unsorted.contains(unsorted[k]));
        assert(sorted.to_multiset().count(unsorted[k]) > 0);
        assert(sorted.contains(unsorted[k]));
        let m = choose|m: int| 0 <= m < sorted.len() && sorted[m] == unsorted[k];
        assert(sorted[m].1 == c);
    }
    assert forall|a: int, b: int| 0 <= a < b < sorted.len() implies (#[trigger] sorted[a]).1 != (
    #[trigger] sorted[b]).1 by {
        assert(sorted[a] != sorted[b]);
    }
}

/// The last entries of an ascending list that holds all cells, read from the
/// end, are the best savings of the table.
pub proof fn lemma_best_of_sorted(
    savings: Savings,
    limit: int,
    sorted: Seq<(i128, usize)>,
    top: Seq<(usize, i128)>,
)
    requires
        savings.wf(),
        holds_all_cells(savings, sorted),
        ascending(sorted),
        top.len() <= sorted.len(),
        top.len() <= limit,
        top.len() == limit || top.len() == sorted.len(),
        forall|m: int|
            0 <= m < top.len() ==> (#[trigger] top[m]).0 == sorted[sorted.len() - 1 - m].1
                && top[m].1 == sorted[sorted.len() - 1 - m].0,
    ensures
        best_savings(savings, limit, top),
{
    let total = sorted.len() as int;
    assert forall|t: int| 0 <= t < top.len() implies off_diagonal(
        savings.dim as int,
        (#[trigger] top[t]).0 as int,
    ) && top[t].1 == savings.vec@[top[t].0 as int] by {
        assert(off_diagonal(savings.dim as int, sorted[total - 1 - t].1 as int));
    }
    assert forall|a: int, b: int| 0 <= a < b < top.len() implies top[a].1 >= top[b].1 && top[a].0
        != top[b].0 by {
        assert(entry_le(sorted[total - 1 - b], sorted[total - 1 - a]));
        assert(sorted[total - 1 - b].1 != sorted[total - 1 - a].1);
    }
    assert forall|cell: int| #[trigger] off_diagonal(savings.dim as int, cell) implies listed(
        top,
        cell,
    ) || (top.len() == limit && forall|t: int|
        0 <= t < top.len() ==> savings.vec@[cell] <= (#[trigger] top[t]).1) by {
        let p = choose|p: int| 0 <= p < total && (#[trigger] sorted[p]).1 == cell;
        if p >= total - top.len() {
            assert(top[total - 1 - p].0 == cell);
        } else {
            assert forall|t: int| 0 <= t < top.len() implies savings.vec@[cell] <= (
            #[trigger] top[t]).1 by {
                assert(entry_le(sorted[p], sorted[total - 1 - t]));
            }
        }
    }
}

/// Draws one of the first `cws_bias` sorted savings and returns the number
/// of its cell.
pub fn select_routes_to_merge(sorted_savings: &Vec<(usize, i128)>, cws_bias: usize) -> (cell: usize)
    requires
        sorted_savings@.len() > 0,
        cws_bias >= 1,
    ensures
        exists|t: int|
            0 <= t < sorted_savings@.len() && t < cws_bias && (#[trigger] sorted_savings@[t]).0
                == cell,
{
    let bias = if cws_bias < sorted_savings.len() {
        cws_bias
    } else {
        sorted_savings.len()
    };
    let index = random_in_range(0, bias);
    sorted_savings[index].0
}

/// The customers of all the routes of a list, each as often as the routes
/// visit it.
pub open spec fn all_stops(routes: Seq<Route>) -> Multiset<i32>
    decreases routes.len(),
{
    if routes.len() == 0 {
        Multiset::empty()
    } else {
        all_stops(routes.drop_last()).add(routes.last().customers@.to_multiset())
    }
}

/// A route added to a list adds its customers to those of the list.
pub proof fn lemma_all_stops_push(routes: Seq<Route>, route: Route)
    ensures
        all_stops(routes.push(route)) == all_stops(routes).add(route.customers@.to_multiset()),
{
    assert(routes.push(route).drop_last() =~= routes);
}

/// A route taken out of a list takes its customers with it.
pub proof fn lemma_all_stops_remove(routes: Seq<Route>, index: int)
    requires
        0 <= index < routes.len(),
    ensures
        all_stops(routes) == all_stops(routes.remove(index)).add(
            routes[index].customers@.to_multiset(),
        ),
    decreases routes.len(),
{
    if index == routes.len() - 1 {
        assert(routes.remove(index) =~= routes.drop_last());
    } else {
        lemma_all_stops_remove(routes.drop_last(), index);
        assert(routes.remove(index).drop_last() =~= routes.drop_last().remove(index));
        assert(routes.remove(index).last() == routes.last());
        assert(all_stops(routes) =~= all_stops(routes.remove(index)).add(
            routes[index].customers@.to_multiset(),
        ));
    }
}

/// Routes of one customer each visit just the customers they were made for.
pub proof fn lemma_all_stops_single(routes: Seq<Route>, customers: Seq<i32>)
    requires
        routes.len() == customers.len(),
        forall|k: int|
            0 <= k < routes.len() ==> (#[trigger] routes[k]).customers@ == seq![customers[k]],
    ensures
        all_stops(routes) == customers.to_multiset(),
    decreases routes.len(),
{
    broadcast use vstd::seq_lib::group_to_multiset_ensures;

    if routes.len() == 0 {
        assert(customers =~= Seq::<i32>::empty());
    } else {
        lemma_all_stops_single(routes.drop_last(), customers.drop_last());
        let last = customers.last();
        assert(customers =~= customers.drop_last().push(last));
        assert(seq![last] =~= Seq::<i32>::empty().push(last));
        assert(routes.last().customers@ == seq![last]);
        assert(all_stops(routes) =~= customers.to_multiset());
    }
}

/// Whether merging any two different routes of the list would save nothing.
pub open spec fn no_gain_left(
    model: &Model,
    penalty: int,
    vehicle: Vehicle,
    routes: Seq<Route>,
) -> bool {
    forall|i: int, j: int|
        0 <= i < routes.len() && 0 <= j < routes.len() && i != j ==> #[trigger] saving(
            model,
            penalty,
            vehicle,
            routes[i].customers@,
            routes[j].customers@,
        ) <= 0
}

/// The customers of each route of a list.
pub open spec fn lists_of(routes: Seq<Route>) -> Seq<Seq<i32>> {
    Seq::new(routes.len(), |k: int| routes[k].customers@)
}

/// One list for each customer, with that customer alone.
pub open spec fn single_lists(customers: Seq<i32>) -> Seq<Seq<i32>> {
    Seq::new(customers.len(), |k: int| seq![customers[k]])
}

/// What the table of savings of routes with these customers holds in the
/// cell with this number: nothing on the diagonal, and elsewhere the saving
/// of the pair.
pub open spec fn pair_saving(
    model: &Model,
    penalty: int,
    vehicle: Vehicle,
    lists: Seq<Seq<i32>>,
    cell: int,
) -> int {
    let dim = lists.len() as int;
    if cell / dim == cell % dim {
        UNSET_SAVING as int
    } else {
        saving(model, penalty, vehicle, lists[cell / dim], lists[cell % dim])
    }
}

/// The table of savings of routes with these customers.
pub open spec fn pair_table(
    model: &Model,
    penalty: int,
    vehicle: Vehicle,
    lists: Seq<Seq<i32>>,
) -> Seq<i128> {
    Seq::new(
        (lists.len() * lists.len()) as nat,
        |cell: int| pair_saving(model, penalty, vehicle, lists, cell) as i128,
    )
}

/// The `cws_bias` best savings of routes with these customers: see
/// [`best_list`].
pub open spec fn best_pairs(
    model: &Model,
    penalty: int,
    vehicle: Vehicle,
    cws_bias: int,
    lists: Seq<Seq<i32>>,
) -> Seq<(usize, i128)> {
    best_list(pair_table(model, penalty, vehicle, lists), lists.len() as int, cws_bias)
}

/// Whether merging stops at routes with these customers: fewer than two are
/// left, or the best saving is no gain and the vehicles suffice.
#[verifier::opaque]
pub open spec fn merging_stops(
    model: &Model,
    penalty: int,
    vehicle: Vehicle,
    max_vehicles: int,
    cws_bias: int,
    lists: Seq<Seq<i32>>,
) -> bool {
    let top = best_pairs(model, penalty, vehicle, cws_bias, lists);
    lists.len() < 2 || (!(top.len() > 0 && top[0].1 > 0) && lists.len() <= max_vehicles)
}

/// The pick of the step with this number: the entry of the list of picks,
/// and the best saving, which is pick 0, where the list has no such entry.
pub open spec fn pick_at(picks: Seq<usize>, step: int) -> int {
    if 0 <= step < picks.len() {
        picks[step] as int
    } else {
        0
    }
}

/// The entry of a list of `count` savings that a pick takes: the entry at
/// its place, and the last where the list is shorter.
pub open spec fn entry_picked(count: int, pick: int) -> int {
    if pick < count {
        pick
    } else {
        count - 1
    }
}

/// The lists without those at `first` and at `second`, and behind them
/// one list of the customers of the first and then those of the second.
pub open spec fn merged_lists(lists: Seq<Seq<i32>>, first: int, second: int) -> Seq<Seq<i32>> {
    (if first < second {
        lists.remove(second).remove(first)
    } else {
        lists.remove(first).remove(second)
    }).push(lists[first] + lists[second])
}

/// What one merge makes of routes with these customers: the pair of the
/// saving that the pick takes among the best is merged.
#[verifier::opaque]
pub open spec fn merged_by(
    model: &Model,
    penalty: int,
    vehicle: Vehicle,
    cws_bias: int,
    lists: Seq<Seq<i32>>,
    pick: int,
) -> Seq<Seq<i32>> {
    let dim = lists.len() as int;
    let top = best_pairs(model, penalty, vehicle, cws_bias, lists);
    let cell = top[entry_picked(top.len() as int, pick)].0 as int;
    merged_lists(lists, cell / dim, cell % dim)
}

/// What merging makes of routes with these customers from the step with
/// this number on: one merge after the other, each by its pick, until
/// merging stops. No more merges are made than `fuel` allows.
pub open spec fn constructed(
    model: &Model,
    penalty: int,
    vehicle: Vehicle,
    max_vehicles: int,
    cws_bias: int,
    lists: Seq<Seq<i32>>,
    picks: Seq<usize>,
    step: nat,
    fuel: nat,
) -> Seq<Seq<i32>>
    decreases fuel,
{
    if fuel == 0 || merging_stops(model, penalty, vehicle, max_vehicles, cws_bias, lists) {
        lists
    } else {
        constructed(
            model,
            penalty,
            vehicle,
            max_vehicles,
            cws_bias,
            merged_by(model, penalty, vehicle, cws_bias, lists, pick_at(picks, step as int)),
            picks,
            step + 1,
            (fuel - 1) as nat,
        )
    }
}

/// The customers of the routes that the savings method builds with these
/// picks: each customer starts in a route of its own, and as long as two
/// routes are left and either the best saving is a gain or the routes are
/// more than `max_vehicles`, the pair that the next pick takes among the
/// `cws_bias` best savings is merged.
pub open spec fn savings_routes(
    model: &Model,
    penalty: int,
    vehicle: Vehicle,
    max_vehicles: int,
    cws_bias: int,
    customers: Seq<i32>,
    picks: Seq<usize>,
) -> Seq<Seq<i32>> {
    constructed(
        model,
        penalty,
        vehicle,
        max_vehicles,
        cws_bias,
        single_lists(customers),
        picks,
        0,
        customers.len(),
    )
}

/// Under a bias of one the picks decide nothing: the best saving is the
/// only one that can be taken, so the routes are the same whatever is
/// picked.
pub proof fn lemma_bias_of_one(
    model: &Model,
    penalty: int,
    vehicle: Vehicle,
    max_vehicles: int,
    lists: Seq<Seq<i32>>,
    picks: Seq<usize>,
    others: Seq<usize>,
    step: nat,
    fuel: nat,
)
    ensures
        constructed(model, penalty, vehicle, max_vehicles, 1, lists, picks, step, fuel)
            == constructed(model, penalty, vehicle, max_vehicles, 1, lists, others, step, fuel),
    decreases fuel,
{
    if fuel == 0 || merging_stops(model, penalty, vehicle, max_vehicles, 1, lists) {
    } else {
        let one = pick_at(picks, step as int);
        let other = pick_at(others, step as int);
        assert(merged_by(model, penalty, vehicle, 1, lists, one) == merged_by(
            model,
            penalty,
            vehicle,
            1,
            lists,
            other,
        )) by {
            reveal(merged_by);
            let top = best_pairs(model, penalty, vehicle, 1, lists);
            assert(top.len() <= 1);
            assert(entry_picked(top.len() as int, one) == entry_picked(top.len() as int, other));
        }
        lemma_bias_of_one(
            model,
            penalty,
            vehicle,
            max_vehicles,
            merged_by(model, penalty, vehicle, 1, lists, one),
            picks,
            others,
            step + 1,
            (fuel - 1) as nat,
        );
    }
}

/// Whether each pick of the list is below `cws_bias`.
pub open spec fn picks_within(picks: Seq<usize>, cws_bias: int) -> bool {
    forall|k: int| 0 <= k < picks.len() ==> (#[trigger] picks[k]) < cws_bias
}

/// The row and the column of a cell of a table lie in the table.
pub proof fn lemma_cell_in_rows(dim: int, cell: int)
    requires
        0 <= dim,
        0 <= cell < dim * dim,
    ensures
        0 <= cell / dim < dim,
        0 <= cell % dim < dim,
{
    assert(dim > 0) by (nonlinear_arith)
        requires
            0 <= dim,
            0 <= cell < dim * dim,
    ;
    vstd::arithmetic::div_mod::lemma_fundamental_div_mod(cell, dim);
    vstd::arithmetic::div_mod::lemma_mod_bound(cell, dim);
    assert(0 <= cell / dim < dim) by (nonlinear_arith)
        requires
            0 <= cell < dim * dim,
            dim > 0,
            cell == dim * (cell / dim) + cell % dim,
            0 <= cell % dim < dim,
    ;
}

/// A table that holds the savings of routes is the table of savings of
/// their customers.
pub proof fn lemma_table_of_lists(
    model: &Model,
    penalty: int,
    vehicle: Vehicle,
    routes: Seq<Route>,
    savings: Savings,
)
    requires
        savings.dim == routes.len(),
        savings.wf(),
        forall|cell: int|
            0 <= cell < routes.len() * routes.len() ==> #[trigger] savings.vec@[cell]
                == expected_saving(model, penalty, vehicle, routes, cell),
    ensures
        savings.vec@ == pair_table(model, penalty, vehicle, lists_of(routes)),
{
    let lists = lists_of(routes);
    let table = pair_table(model, penalty, vehicle, lists);
    assert forall|cell: int| 0 <= cell < table.len() implies savings.vec@[cell] == table[cell] by {
        lemma_cell_in_rows(routes.len() as int, cell);
        assert(savings.vec@[cell] == expected_saving(model, penalty, vehicle, routes, cell));
        assert(lists[cell / (routes.len() as int)] == routes[cell / (routes.len() as int)].customers@);
        assert(lists[cell % (routes.len() as int)] == routes[cell % (routes.len() as int)].customers@);
    }
    assert(savings.vec@ =~= table);
}

/// Routes of which two were merged have the customers that merging makes
/// of theirs.
pub proof fn lemma_lists_after_merge(before: Seq<Route>, after: Seq<Route>, first: int, second: int)
    requires
        0 <= first < before.len(),
        0 <= second < before.len(),
        first != second,
        after.len() == before.len() - 1,
        after.drop_last() == without_pair(before, first, second),
        after.last().customers@ == before[first].customers@ + before[second].customers@,
    ensures
        lists_of(after) == merged_lists(lists_of(before), first, second),
{
    let lists = lists_of(before);
    let merged = merged_lists(lists, first, second);
    assert forall|k: int| 0 <= k < after.len() implies lists_of(after)[k] == merged[k] by {
        if k < after.len() - 1 {
            assert(after[k] == after.drop_last()[k]);
        }
    }
    assert(lists_of(after) =~= merged);
}

/// Merges that were made one after the other, each by its pick and none
/// where merging stops, down to routes at which it stops, make what
/// [`constructed`] makes.
pub proof fn lemma_constructed_by_trace(
    model: &Model,
    penalty: int,
    vehicle: Vehicle,
    max_vehicles: int,
    cws_bias: int,
    states: Seq<Seq<Seq<i32>>>,
    picks: Seq<usize>,
    from: nat,
    fuel: nat,
)
    requires
        from < states.len(),
        forall|k: int|
            0 <= k < states.len() - 1 ==> !merging_stops(
                model,
                penalty,
                vehicle,
                max_vehicles,
                cws_bias,
                #[trigger] states[k],
            ) && states[k + 1] == merged_by(
                model,
                penalty,
                vehicle,
                cws_bias,
                states[k],
                pick_at(picks, k),
            ),
        merging_stops(model, penalty, vehicle, max_vehicles, cws_bias, states.last()),
        forall|k: int| 0 <= k < states.len() ==> (#[trigger] states[k]).len() + k == fuel,
        forall|k: int| 0 <= k < states.len() - 1 ==> (#[trigger] states[k]).len() >= 2,
    ensures
        constructed(
            model,
            penalty,
            vehicle,
            max_vehicles,
            cws_bias,
            states[from as int],
            picks,
            from,
            (fuel - from) as nat,
        ) == states.last(),
    decreases states.len() - from,
{
    if from < states.len() - 1 {
        lemma_constructed_by_trace(
            model,
            penalty,
            vehicle,
            max_vehicles,
            cws_bias,
            states,
            picks,
            from + 1,
            fuel,
        );
        assert(!merging_stops(
            model,
            penalty,
            vehicle,
            max_vehicles,
            cws_bias,
            states[from as int],
        ));
        assert(states[from as int].len() >= 2);
        assert(states[from as int].len() + from == fuel);
        assert(states[from as int + 1] == merged_by(
            model,
            penalty,
            vehicle,
            cws_bias,
            states[from as int],
            pick_at(picks, from as int),
        ));
    }
}

/// The merging of the savings method: with picks that are given, or, where
/// none are given, with picks that are drawn.
#[verifier::rlimit(40)]
fn merge_in_turn(
    model: &Model,
    vehicle: &Vehicle,
    customers: Vec<i32>,
    max_vehicles: usize,
    penalty: u32,
    cws_bias: usize,
    picks: Option<&Vec<usize>>,
) -> (out: (Vec<Route>, Ghost<Seq<usize>>))
    requires
        model.wf(),
        model.has_node(vehicle.number as int),
        customers_known(model, customers@),
        customers@.len() * customers@.len() <= usize::MAX,
        cws_bias >= 1,
    ensures
        routes_ready(model, penalty as int, *vehicle, out.0@),
        all_stops(out.0@) == customers@.to_multiset(),
        forall|k: int| 0 <= k < out.0@.len() ==> (#[trigger] out.0@[k]).customers@.len() > 0,
        out.0@.len() <= 1 || out.0@.len() <= max_vehicles,
        customers@.len() > 0 ==> out.0@.len() >= 1,
        out.0@.len() >= 2 ==> no_gain_left(model, penalty as int, *vehicle, out.0@),
        lists_of(out.0@) == savings_routes(
            model,
            penalty as int,
            *vehicle,
            max_vehicles as int,
            cws_bias as int,
            customers@,
            out.1@,
        ),
        picks is Some ==> out.1@ == picks->0@,
        picks is None ==> picks_within(out.1@, cws_bias as int),
{
    let ghost wanted = customers@;
    let mut routes = single_customers_routes(customers);
    proof {
        lemma_all_stops_single(routes@, wanted);
        assert forall|k: int| 0 <= k < routes@.len() implies customers_known(
            model,
            (#[trigger] routes@[k]).customers@,
        ) by {
            assert(model.has_node(wanted[k] as int));
        }
    }
    evaluate_routes(&mut routes, model, vehicle, penalty);
    proof {
        assert(all_stops(routes@) == wanted.to_multiset()) by {
            lemma_all_stops_single(routes@, wanted);
        }
        assert(lists_of(routes@) =~= single_lists(wanted));
        assert(routes@.len() == routes.len());
    }
    let ghost fleet = max_vehicles as int;
    let ghost bias = cws_bias as int;
    let ghost fine = penalty as int;
    let ghost mut plan: Seq<usize> = match picks {
        Some(list) => list@,
        None => Seq::empty(),
    };
    let ghost mut states: Seq<Seq<Seq<i32>>> = seq![lists_of(routes@)];
    let mut step: usize = 0;
    loop
        invariant
            model.wf(),
            model.has_node(vehicle.number as int),
            cws_bias >= 1,
            wanted.len() * wanted.len() <= usize::MAX,
            wanted.len() <= usize::MAX,
            fleet == max_vehicles,
            bias == cws_bias,
            fine == penalty,
            routes@.len() + step == wanted.len(),
            wanted.len() > 0 ==> routes@.len() >= 1,
            routes_ready(model, fine, *vehicle, routes@),
            all_stops(routes@) == wanted.to_multiset(),
            forall|k: int| 0 <= k < routes@.len() ==> (#[trigger] routes@[k]).customers@.len() > 0,
            states.len() == step + 1,
            states[0] == single_lists(wanted),
            states.last() == lists_of(routes@),
            forall|k: int| 0 <= k < states.len() ==> (#[trigger] states[k]).len() + k == wanted.len(),
            forall|k: int| 0 <= k < step ==> (#[trigger] states[k]).len() >= 2,
            forall|k: int|
                0 <= k < step ==> !merging_stops(
                    model,
                    fine,
                    *vehicle,
                    fleet,
                    bias,
                    #[trigger] states[k],
                ) && states[k + 1] == merged_by(
                    model,
                    fine,
                    *vehicle,
                    bias,
                    states[k],
                    pick_at(plan, k),
                ),
            picks is Some ==> plan == picks->0@,
            picks is None ==> plan.len() == step && picks_within(plan, bias),
        ensures
            routes_ready(model, fine, *vehicle, routes@),
            all_stops(routes@) == wanted.to_multiset(),
            forall|k: int| 0 <= k < routes@.len() ==> (#[trigger] routes@[k]).customers@.len() > 0,
            routes@.len() <= 1 || routes@.len() <= max_vehicles,
            wanted.len() > 0 ==> routes@.len() >= 1,
            routes@.len() >= 2 ==> no_gain_left(model, fine, *vehicle, routes@),
            merging_stops(model, fine, *vehicle, fleet, bias, lists_of(routes@)),
            routes@.len() + step == wanted.len(),
            states.len() == step + 1,
            states[0] == single_lists(wanted),
            states.last() == lists_of(routes@),
            forall|k: int| 0 <= k < states.len() ==> (#[trigger] states[k]).len() + k == wanted.len(),
            forall|k: int| 0 <= k < step ==> (#[trigger] states[k]).len() >= 2,
            forall|k: int|
                0 <= k < step ==> !merging_stops(
                    model,
                    fine,
                    *vehicle,
                    fleet,
                    bias,
                    #[trigger] states[k],
                ) && states[k + 1] == merged_by(
                    model,
                    fine,
                    *vehicle,
                    bias,
                    states[k],
                    pick_at(plan, k),
                ),
            picks is Some ==> plan == picks->0@,
            picks is None ==> plan.len() == step && picks_within(plan, bias),
        decreases routes@.len(),
    {
        let dim = routes.len();
        let ghost lists = lists_of(routes@);
        if dim < 2 {
            assert(merging_stops(model, fine, *vehicle, fleet, bias, lists)) by {
                reveal(merging_stops);
            }
            break ;
        }
        proof {
            assert(dim * dim <= wanted.len() * wanted.len()) by (nonlinear_arith)
                requires
                    0 <= dim <= wanted.len(),
            ;
        }
        let savings_matrix = calculate_savings(&routes, model, vehicle, penalty);
        let sorted_savings = sort_savings(&savings_matrix, cws_bias);
        proof {
            lemma_table_of_lists(model, fine, *vehicle, routes@, savings_matrix);
            assert(sorted_savings@ == best_pairs(model, fine, *vehicle, bias, lists));
        }
        // Merging goes on until the vehicles suffice and nothing can be saved.
        let enough_vehicles = dim <= max_vehicles;
        if !positive_saving_left(&sorted_savings) && enough_vehicles {
            proof {
                lemma_nothing_to_gain(
                    model,
                    fine,
                    *vehicle,
                    routes@,
                    savings_matrix,
                    bias,
                    sorted_savings@,
                );
                assert(merging_stops(model, fine, *vehicle, fleet, bias, lists)) by {
                    reveal(merging_stops);
                }
            }
            break ;
        }
        assert(!merging_stops(model, fine, *vehicle, fleet, bias, lists)) by {
            reveal(merging_stops);
        }
        let cell = match picks {
            Some(list) => {
                let pick = if step < list.len() {
                    list[step]
                } else {
                    0
                };
                let entry = if pick < sorted_savings.len() {
                    pick
                } else {
                    sorted_savings.len() - 1
                };
                sorted_savings[entry].0
            },
            None => {
                let cell = select_routes_to_merge(&sorted_savings, cws_bias);
                proof {
                    let t = choose|t: int|
                        0 <= t < sorted_savings@.len() && t < cws_bias && (
                        #[trigger] sorted_savings@[t]).0 == cell;
                    let longer = plan.push(t as usize);
                    assert forall|k: int| 0 <= k < step implies pick_at(longer, k) == pick_at(
                        plan,
                        k,
                    ) by {}
                    assert(pick_at(longer, step as int) == t);
                    plan = longer;
                }
                cell
            },
        };
        let (i, j) = savings_matrix.get_indices(cell);
        let ghost taken = entry_picked(sorted_savings@.len() as int, pick_at(plan, step as int));
        proof {
            assert(sorted_savings@[taken].0 == cell);
            assert(off_diagonal(dim as int, sorted_savings@[taken].0 as int));
            lemma_cell_to_pair(dim as int, cell as int);
        }
        let ghost before = routes@;
        merge_pair(&mut routes, model, vehicle, penalty, i, j);
        proof {
            let merged = routes@.last();
            lemma_merge_keeps_stops(before, i as int, j as int, merged);
            assert(routes@ =~= without_pair(before, i as int, j as int).push(merged));
            assert forall|k: int| 0 <= k < routes@.len() implies customers_known(
                model,
                (#[trigger] routes@[k]).customers@,
            ) && routes@[k].costed(model, fine, *vehicle) && routes@[k].customers@.len()
                > 0 by {
                if k < routes@.len() - 1 {
                    lemma_thinned_from(before, i as int, j as int, k);
                }
            }
            lemma_lists_after_merge(before, routes@, i as int, j as int);
            assert(lists_of(routes@) == merged_by(
                model,
                fine,
                *vehicle,
                bias,
                lists,
                pick_at(plan, step as int),
            )) by {
                reveal(merged_by);
            }
            let grown = states.push(lists_of(routes@));
            assert forall|k: int| 0 <= k < grown.len() implies (#[trigger] grown[k]).len() + k
                == wanted.len() by {
                if k < states.len() {
                    assert(grown[k] == states[k]);
                }
            }
            assert forall|k: int| 0 <= k < step + 1 implies (#[trigger] grown[k]).len() >= 2 by {
                assert(grown[k] == states[k]);
            }
            assert forall|k: int| 0 <= k < step + 1 implies !merging_stops(
                model,
                fine,
                *vehicle,
                fleet,
                bias,
                #[trigger] grown[k],
            ) && grown[k + 1] == merged_by(
                model,
                fine,
                *vehicle,
                bias,
                grown[k],
                pick_at(plan, k),
            ) by {
                assert(grown[k] == states[k]);
                if k < step {
                    assert(grown[k + 1] == states[k + 1]);
                }
            }
            states = grown;
        }
        step += 1;
    }
    proof {
        lemma_constructed_by_trace(
            model,
            fine,
            *vehicle,
            fleet,
            bias,
            states,
            plan,
            0,
            wanted.len(),
        );
    }
    (routes, Ghost(plan))
}

/// Builds the routes of one depot by the savings method.
///
/// Each customer starts in a route of its own. As long as two routes are
/// left and either a merge would save something or the routes are more than
/// `max_vehicles`, one of the `cws_bias` best pairs is drawn and merged: the
/// customers of its first route, then those of its second.
///
/// Whatever is drawn, the routes that come back are what the savings method
/// builds with some picks below `cws_bias`, see [`savings_routes`]. They
/// visit each customer as often as the list names it, none is empty, each
/// carries its cost, and they are at most `max_vehicles`, or one where that
/// is less. Where two or more come back, no merge would save anything.
pub fn construct_routes(
    model: &Model,
    vehicle: &Vehicle,
    customers: Vec<i32>,
    max_vehicles: usize,
    penalty: u32,
    cws_bias: usize,
) -> (routes: Vec<Route>)
    requires
        model.wf(),
        model.has_node(vehicle.number as int),
        customers_known(model, customers@),
        customers@.len() * customers@.len() <= usize::MAX,
        cws_bias >= 1,
    ensures
        exists|picks: Seq<usize>|
            lists_of(routes@) == #[trigger] savings_routes(
                model,
                penalty as int,
                *vehicle,
                max_vehicles as int,
                cws_bias as int,
                customers@,
                picks,
            ) && picks_within(picks, cws_bias as int),
        routes_ready(model, penalty as int, *vehicle, routes@),
        all_stops(routes@) == customers@.to_multiset(),
        forall|k: int| 0 <= k < routes@.len() ==> (#[trigger] routes@[k]).customers@.len() > 0,
        routes@.len() <= 1 || routes@.len() <= max_vehicles,
        customers@.len() > 0 ==> routes@.len() >= 1,
        routes@.len() >= 2 ==> no_gain_left(model, penalty as int, *vehicle, routes@),
{
    let (routes, _picks) = merge_in_turn(
        model,
        vehicle,
        customers,
        max_vehicles,
        penalty,
        cws_bias,
        None,
    );
    routes
}

/// Builds the routes of one depot by the savings method with the picks that
/// are given: the routes that come back are those of [`savings_routes`],
/// each with its cost. A pick beyond the best savings that there are takes
/// the last of them, and where the picks run out, the best saving is
/// taken.
pub fn construct_routes_from(
    model: &Model,
    vehicle: &Vehicle,
    customers: Vec<i32>,
    max_vehicles: usize,
    penalty: u32,
    cws_bias: usize,
    picks: &Vec<usize>,
) -> (routes: Vec<Route>)
    requires
        model.wf(),
        model.has_node(vehicle.number as int),
        customers_known(model, customers@),
        customers@.len() * customers@.len() <= usize::MAX,
        cws_bias >= 1,
    ensures
        lists_of(routes@) == savings_routes(
            model,
            penalty as int,
            *vehicle,
            max_vehicles as int,
            cws_bias as int,
            customers@,
            picks@,
        ),
        routes_ready(model, penalty as int, *vehicle, routes@),
        all_stops(routes@) == customers@.to_multiset(),
        forall|k: int| 0 <= k < routes@.len() ==> (#[trigger] routes@[k]).customers@.len() > 0,
        routes@.len() <= 1 || routes@.len() <= max_vehicles,
        customers@.len() > 0 ==> routes@.len() >= 1,
        routes@.len() >= 2 ==> no_gain_left(model, penalty as int, *vehicle, routes@),
{
    let (routes, _picks) = merge_in_turn(
        model,
        vehicle,
        customers,
        max_vehicles,
        penalty,
        cws_bias,
        Some(picks),
    );
    routes
}

/// The list of routes without the routes at `first` and at `second`.
pub open spec fn without_pair(routes: Seq<Route>, first: int, second: int) -> Seq<Route> {
    if first < second {
        routes.remove(second).remove(first)
    } else {
        routes.remove(first).remove(second)
    }
}

/// Merges the routes at `first` and at `second`: the two are taken out of
/// the list, and one route that serves the customers of the first and then
/// those of the second is put behind the others, with its cost.
pub fn merge_pair(
    routes: &mut Vec<Route>,
    model: &Model,
    vehicle: &Vehicle,
    penalty: u32,
    first: usize,
    second: usize,
)
    requires
        model.wf(),
        model.has_node(vehicle.number as int),
        first != second,
        first < old(routes)@.len(),
        second < old(routes)@.len(),
        customers_known(model, old(routes)@[first as int].customers@),
        customers_known(model, old(routes)@[second as int].customers@),
    ensures
        final(routes)@.len() == old(routes)@.len() - 1,
        final(routes)@.drop_last() == without_pair(old(routes)@, first as int, second as int),
        final(routes)@.last().customers@ == old(routes)@[first as int].customers@ + old(routes)@[second as int].customers@,
        final(routes)@.last().costed(model, penalty as int, *vehicle),
        customers_known(model, final(routes)@.last().customers@),
{
    let mut new_route = merge_routes(&routes[first], &routes[second]);
    proof {
        lemma_known_concat(
            model,
            routes@[first as int].customers@,
            routes@[second as int].customers@,
        );
    }
    new_route.evaluate(model, vehicle, penalty);
    remove_routes(routes, first, second);
    let ghost thinned = routes@;
    routes.push(new_route);
    assert(routes@.drop_last() =~= thinned);
}

/// The number of a cell off the diagonal gives two different routes.
pub proof fn lemma_cell_to_pair(dim: int, cell: int)
    requires
        0 <= dim,
        off_diagonal(dim, cell),
    ensures
        0 <= cell / dim < dim,
        0 <= cell % dim < dim,
        cell / dim != cell % dim,
{
    assert(dim > 0) by (nonlinear_arith)
        requires
            0 <= dim,
            0 <= cell < dim * dim,
    ;
    vstd::arithmetic::div_mod::lemma_fundamental_div_mod(cell, dim);
    vstd::arithmetic::div_mod::lemma_mod_bound(cell, dim);
    assert(0 <= cell / dim < dim) by (nonlinear_arith)
        requires
            0 <= cell < dim * dim,
            dim > 0,
            cell == dim * (cell / dim) + cell % dim,
            0 <= cell % dim < dim,
    ;
}

/// Each route that is left when two were taken out was there before.
pub proof fn lemma_thinned_from(routes: Seq<Route>, i: int, j: int, k: int)
    requires
        0 <= i < routes.len(),
        0 <= j < routes.len(),
        i != j,
        0 <= k < routes.len() - 2,
    ensures
        exists|m: int| 0 <= m < routes.len() && #[trigger] routes[m] == without_pair(routes, i, j)[k],
{
    let low = if i < j {
        i
    } else {
        j
    };
    let high = if i < j {
        j
    } else {
        i
    };
    let thinned = routes.remove(high).remove(low);
    let m = if k < low {
        k
    } else if k + 1 < high {
        k + 1
    } else {
        k + 2
    };
    assert(routes[m] == thinned[k]);
}

/// Two routes replaced by their merge leave the customers as they were.
pub proof fn lemma_merge_keeps_stops(routes: Seq<Route>, i: int, j: int, merged: Route)
    requires
        0 <= i < routes.len(),
        0 <= j < routes.len(),
        i != j,
        merged.customers@ == routes[i].customers@ + routes[j].customers@,
    ensures
        all_stops(without_pair(routes, i, j).push(merged)) == all_stops(routes),
{
    let low = if i < j {
        i
    } else {
        j
    };
    let high = if i < j {
        j
    } else {
        i
    };
    let thinned = routes.remove(high).remove(low);
    lemma_all_stops_remove(routes, high);
    lemma_all_stops_remove(routes.remove(high), low);
    assert(routes.remove(high)[low] == routes[low]);
    lemma_all_stops_push(thinned, merged);
    vstd::seq_lib::lemma_multiset_commutative(routes[i].customers@, routes[j].customers@);
    assert(all_stops(thinned.push(merged)) =~= all_stops(routes));
}

/// Where the best of the best savings is no gain, no pair of routes gains.
pub proof fn lemma_nothing_to_gain(
    model: &Model,
    penalty: int,
    vehicle: Vehicle,
    routes: Seq<Route>,
    savings: Savings,
    limit: int,
    top: Seq<(usize, i128)>,
)
    requires
        routes.len() >= 2,
        limit >= 1,
        savings.dim == routes.len(),
        savings.wf(),
        forall|cell: int|
            0 <= cell < routes.len() * routes.len() ==> #[trigger] savings.vec@[cell]
                == expected_saving(model, penalty, vehicle, routes, cell),
        best_savings(savings, limit, top),
        !(top.len() > 0 && top[0].1 > 0),
    ensures
        no_gain_left(model, penalty, vehicle, routes),
{
    let dim = routes.len() as int;
    assert forall|i: int, j: int| 0 <= i < dim && 0 <= j < dim && i != j implies #[trigger] saving(
        model,
        penalty,
        vehicle,
        routes[i].customers@,
        routes[j].customers@,
    ) <= 0 by {
        lemma_pair_in_table(dim, i, j);
        let cell = i * dim + j;
        assert(off_diagonal(dim, cell));
        assert(savings.vec@[cell] == expected_saving(model, penalty, vehicle, routes, cell));
        if listed(top, cell) {
            let t = choose|t: int| 0 <= t < top.len() && (#[trigger] top[t]).0 == cell;
            assert(top[t].1 == savings.vec@[cell]);
            if t > 0 {
                assert(top[0].1 >= top[t].1);
            }
        } else {
            assert(top.len() == limit);
            assert(savings.vec@[cell] <= top[0].1);
        }
    }
}

} // verus!
