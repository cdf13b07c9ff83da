use crate::error::GaError;
use crate::model::Model;
use vstd::prelude::*;

verus! {

/// A point of the plane.
#[derive(Clone, Copy, Debug, PartialEq, Eq, Structural)]
pub struct Pos {
    pub x: i32,
    pub y: i32,
}

/// A customer: its node, where it lies, how long it takes to serve and what
/// it asks for.
#[derive(Clone, Copy, Debug)]
pub struct Customer {
    pub number: i32,
    pub pos: Pos,
    pub service_time: Option<i32>,
    pub demand: i32,
}

/// A depot: its number, where it lies and the load that each of its
/// vehicles can take.
#[derive(Clone, Copy, Debug)]
pub struct Depot {
    pub capacity: i32,
    pub number: i32,
    pub pos: Pos,
}

/// One vehicle: its own node, the depot that it belongs to and the load that
/// it can take.
#[derive(Clone, Copy, Debug)]
pub struct Vehicle {
    pub capacity: i32,
    pub number: i32,
    pub depot: i32,
}

/// A problem instance: the customers, the depots and the vehicles of each
/// depot.
pub struct Problem {
    /// How many vehicles each depot has at most.
    pub max_vehicles: i32,
    /// The number of customers.
    pub num_customers: i32,
    /// The number of depots.
    pub num_depots: i32,
    pub customers: Vec<Customer>,
    pub depots: Vec<Depot>,
    pub vehicles: Vec<Vehicle>,
}

/// The square of the distance between two points.
pub open spec fn squared_distance(from: Pos, to: Pos) -> int {
    (from.x - to.x) * (from.x - to.x) + (from.y - to.y) * (from.y - to.y)
}

/// Whether the depot at `place` is the nearest to the point: none is
/// nearer, and those before it are farther.
pub open spec fn nearest_depot(depots: Seq<Depot>, pos: Pos, place: int) -> bool {
    &&& 0 <= place < depots.len()
    &&& forall|e: int|
        0 <= e < depots.len() ==> squared_distance(pos, depots[place].pos) <= squared_distance(
            pos,
            (#[trigger] depots[e]).pos,
        )
    &&& forall|e: int|
        0 <= e < place ==> squared_distance(pos, (#[trigger] depots[e]).pos) > squared_distance(
            pos,
            depots[place].pos,
        )
}

/// The customers, by their numbers and in their order, to which the depot
/// at `place` is the nearest.
pub open spec fn assigned(customers: Seq<Customer>, depots: Seq<Depot>, place: int) -> Seq<i32>
    decreases customers.len(),
{
    if customers.len() == 0 {
        Seq::empty()
    } else if nearest_depot(depots, customers.last().pos, place) {
        assigned(customers.drop_last(), depots, place).push(customers.last().number)
    } else {
        assigned(customers.drop_last(), depots, place)
    }
}

/// The numbers of the vehicles of a depot, in their order.
pub open spec fn fleet(vehicles: Seq<Vehicle>, depot: int) -> Seq<i32>
    decreases vehicles.len(),
{
    if vehicles.len() == 0 {
        Seq::empty()
    } else if vehicles.last().depot == depot {
        fleet(vehicles.drop_last(), depot).push(vehicles.last().number)
    } else {
        fleet(vehicles.drop_last(), depot)
    }
}

/// Whether the first vehicle of the depot stands at `place`.
pub open spec fn first_vehicle_at(vehicles: Seq<Vehicle>, depot: int, place: int) -> bool {
    &&& 0 <= place < vehicles.len()
    &&& vehicles[place].depot == depot
    &&& forall|k: int| 0 <= k < place ==> (#[trigger] vehicles[k]).depot != depot
}

/// Whether the depot has a vehicle.
pub open spec fn has_vehicle(vehicles: Seq<Vehicle>, depot: int) -> bool {
    exists|k: int| 0 <= k < vehicles.len() && (#[trigger] vehicles[k]).depot == depot
}

/// The table of demands and capacities after the first `count` customers
/// have written their demands to it, each at the place of its node.
pub open spec fn demands_written(table: Seq<i32>, customers: Seq<Customer>, count: nat) -> Seq<i32>
    decreases count,
{
    if count == 0 {
        table
    } else {
        demands_written(table, customers, (count - 1) as nat).update(
            customers[count - 1].number - 1,
            customers[count - 1].demand,
        )
    }
}

/// The table of demands and capacities after the first `count` vehicles
/// have written their capacities to it, each at the place of its node.
pub open spec fn loads_written(table: Seq<i32>, vehicles: Seq<Vehicle>, count: nat) -> Seq<i32>
    decreases count,
{
    if count == 0 {
        table
    } else {
        loads_written(table, vehicles, (count - 1) as nat).update(
            vehicles[count - 1].number - 1,
            vehicles[count - 1].capacity,
        )
    }
}

/// The smallest box that holds a box and a point: the least `x`, the least
/// `y`, the greatest `x` and the greatest `y`.
pub open spec fn stretched(bounds: (i32, i32, i32, i32), pos: Pos) -> (i32, i32, i32, i32) {
    (
        if pos.x < bounds.0 {
            pos.x
        } else {
            bounds.0
        },
        if pos.y < bounds.1 {
            pos.y
        } else {
            bounds.1
        },
        if pos.x > bounds.2 {
            pos.x
        } else {
            bounds.2
        },
        if pos.y > bounds.3 {
            pos.y
        } else {
            bounds.3
        },
    )
}

/// The smallest box that holds some points. The box of no points has the
/// greatest number there is for its least sides and the least for its
/// greatest.
pub open spec fn bounds_of(points: Seq<Pos>) -> (i32, i32, i32, i32)
    decreases points.len(),
{
    if points.len() == 0 {
        (i32::MAX, i32::MAX, i32::MIN, i32::MIN)
    } else {
        stretched(bounds_of(points.drop_last()), points.last())
    }
}

/// The box of some points holds each of them.
pub proof fn lemma_bounds_hold(points: Seq<Pos>, k: int)
    requires
        0 <= k < points.len(),
    ensures
        bounds_of(points).0 <= points[k].x <= bounds_of(points).2,
        bounds_of(points).1 <= points[k].y <= bounds_of(points).3,
    decreases points.len(),
{
    if k < points.len() - 1 {
        lemma_bounds_hold(points.drop_last(), k);
    }
}

/// Where the customers and then the depots of a problem lie.
pub open spec fn positions(customers: Seq<Customer>, depots: Seq<Depot>) -> Seq<Pos> {
    Seq::new(
        customers.len() + depots.len(),
        |k: int|
            if k < customers.len() {
                customers[k].pos
            } else {
                depots[k - customers.len()].pos
            },
    )
}

/// The depot of the last vehicle of the list with this number, if there is
/// such a vehicle.
pub open spec fn depot_of_vehicle(vehicles: Seq<Vehicle>, number: int) -> Option<i32>
    decreases vehicles.len(),
{
    if vehicles.len() == 0 {
        None
    } else if vehicles.last().number == number {
        Some(vehicles.last().depot)
    } else {
        depot_of_vehicle(vehicles.drop_last(), number)
    }
}

/// What a stop of a route is shown as: a customer as itself, the node of a
/// vehicle as the depot of the vehicle, and nothing for a node beyond the
/// customers that is no vehicle's.
pub open spec fn shown_stop(num_customers: int, vehicles: Seq<Vehicle>, stop: i32) -> Option<i32> {
    if stop > num_customers {
        depot_of_vehicle(vehicles, stop as int)
    } else {
        Some(stop)
    }
}

/// Whether `shown` are the stops of `route` as they are shown.
pub open spec fn shown_route(
    num_customers: int,
    vehicles: Seq<Vehicle>,
    route: Seq<i32>,
    shown: Seq<i32>,
) -> bool {
    &&& shown.len() == route.len()
    &&& forall|k: int|
        0 <= k < route.len() ==> shown_stop(num_customers, vehicles, #[trigger] route[k]) == Some(
            shown[k],
        )
}

/// Whether each stop of the route can be shown.
pub open spec fn showable(num_customers: int, vehicles: Seq<Vehicle>, route: Seq<i32>) -> bool {
    forall|k: int|
        0 <= k < route.len() ==> shown_stop(num_customers, vehicles, #[trigger] route[k]) is Some
}

impl Pos {
    /// The point with these coordinates.
    pub fn new(x: i32, y: i32) -> (pos: Pos)
        ensures
            pos.x == x,
            pos.y == y,
    {
        Pos { x, y }
    }

    /// The square of the distance to another point. Of two points, the one
    /// with the smaller square is the nearer.
    pub fn squared_distance_to(&self, other: &Pos) -> (square: u128)
        ensures
            square == squared_distance(*self, *other),
    {
        let dx: i64 = self.x as i64 - other.x as i64;
        let dy: i64 = self.y as i64 - other.y as i64;
        assert(0 <= dx * dx <= 0xffff_ffff * 0xffff_ffff) by (nonlinear_arith)
            requires
                -0xffff_ffff <= dx <= 0xffff_ffff,
        ;
        assert(0 <= dy * dy <= 0xffff_ffff * 0xffff_ffff) by (nonlinear_arith)
            requires
                -0xffff_ffff <= dy <= 0xffff_ffff,
        ;
        let dx2: i128 = dx as i128 * dx as i128;
        let dy2: i128 = dy as i128 * dy as i128;
        (dx2 + dy2) as u128
    }
}

impl Vehicle {
    /// The depot of the vehicle: the last in the list with its number.
    pub fn get_depot<'a>(&self, depots: &'a Vec<Depot>) -> (depot: &'a Depot)
        requires
            exists|d: int| 0 <= d < depots@.len() && (#[trigger] depots@[d]).number == self.depot,
        ensures
            exists|d: int|
                0 <= d < depots@.len() && *depot == #[trigger] depots@[d] && depots@[d].number
                    == self.depot && forall|e: int|
                    d < e < depots@.len() ==> (#[trigger] depots@[e]).number != self.depot,
    {
        let mut found: usize = 0;
        let mut any = false;
        let mut k: usize = 0;
        while k < depots.len()
            invariant
                0 <= k <= depots@.len(),
                any ==> found < k && depots@[found as int].number == self.depot,
                any ==> forall|e: int|
                    found < e < k ==> (#[trigger] depots@[e]).number != self.depot,
                !any ==> forall|e: int| 0 <= e < k ==> (#[trigger] depots@[e]).number != self.depot,
            decreases depots@.len() - k,
        {
            if depots[k].number == self.depot {
                found = k;
                any = true;
            }
            k += 1;
        }
        &depots[found]
    }
}

impl Problem {
    /// Whether the savings method can work on the problem with the model:
    /// the model knows the node of each customer and of each vehicle, each
    /// depot has a vehicle, there is a depot where there is a customer, and
    /// a table with a cell for each pair of customers can be held.
    pub open spec fn ready(&self, model: &Model) -> bool {
        &&& forall|k: int|
            0 <= k < self.customers@.len() ==> model.has_node(
                (#[trigger] self.customers@[k]).number as int,
            )
        &&& forall|k: int|
            0 <= k < self.vehicles@.len() ==> model.has_node(
                (#[trigger] self.vehicles@[k]).number as int,
            )
        &&& forall|d: int|
            0 <= d < self.depots@.len() ==> has_vehicle(
                self.vehicles@,
                (#[trigger] self.depots@[d]).number as int,
            )
        &&& self.customers@.len() > 0 ==> self.depots@.len() > 0
        &&& self.customers@.len() * self.customers@.len() <= usize::MAX
    }

    /// Whether the vehicles stand in blocks: as many for each depot as the
    /// problem allows, depot by depot, with the numbers after those of the
    /// customers.
    pub open spec fn in_blocks(&self) -> bool {
        let per = self.max_vehicles as int;
        &&& per >= 0
        &&& self.customers@.len() + self.vehicles@.len() <= i32::MAX
        &&& self.vehicles@.len() == self.depots@.len() * per
        &&& forall|d: int, v: int|
            0 <= d < self.depots@.len() && 0 <= v < per ==> {
                let vehicle = #[trigger] self.vehicles@[d * per + v];
                &&& vehicle.number == self.customers@.len() + 1 + d * per + v
                &&& vehicle.depot == self.depots@[d].number
                &&& vehicle.capacity == self.depots@[d].capacity
            }
    }

    /// Tests whether the savings method can work on the problem with the
    /// model: see [`Problem::ready`].
    pub fn is_ready(&self, model: &Model) -> (ready: bool)
        ensures
            ready == self.ready(model),
    {
        if self.customers.len() > 0 && self.depots.len() == 0 {
            return false;
        }
        if self.customers.len().checked_mul(self.customers.len()).is_none() {
            return false;
        }
        let mut c: usize = 0;
        while c < self.customers.len()
            invariant
                0 <= c <= self.customers@.len(),
                forall|k: int|
                    0 <= k < c ==> model.has_node((#[trigger] self.customers@[k]).number as int),
            decreases self.customers@.len() - c,
        {
            if !model.knows(self.customers[c].number) {
                return false;
            }
            c += 1;
        }
        let mut v: usize = 0;
        while v < self.vehicles.len()
            invariant
                0 <= v <= self.vehicles@.len(),
                forall|k: int|
                    0 <= k < v ==> model.has_node((#[trigger] self.vehicles@[k]).number as int),
            decreases self.vehicles@.len() - v,
        {
            if !model.knows(self.vehicles[v].number) {
                return false;
            }
            v += 1;
        }
        let mut d: usize = 0;
        while d < self.depots.len()
            invariant
                0 <= d <= self.depots@.len(),
                forall|e: int|
                    0 <= e < d ==> has_vehicle(
                        self.vehicles@,
                        (#[trigger] self.depots@[e]).number as int,
                    ),
            decreases self.depots@.len() - d,
        {
            let number = self.depots[d].number;
            let mut found = false;
            let mut k: usize = 0;
            while k < self.vehicles.len() && !found
                invariant
                    0 <= k <= self.vehicles@.len(),
                    found ==> has_vehicle(self.vehicles@, number as int),
                    !found ==> forall|m: int|
                        0 <= m < k ==> (#[trigger] self.vehicles@[m]).depot != number,
                decreases self.vehicles@.len() - k + if found { 0int } else { 1int },
            {
                if self.vehicles[k].depot == number {
                    found = true;
                } else {
                    k += 1;
                }
            }
            if !found {
                assert(!has_vehicle(self.vehicles@, self.depots@[d as int].number as int));
                return false;
            }
            d += 1;
        }
        true
    }

    /// The problem of these customers and depots, with `max_vehicles`
    /// vehicles for each depot. The vehicles get the numbers after those of
    /// the customers, depot by depot: see [`Problem::in_blocks`]. There is no problem where the number
    /// of vehicles is negative, or where the numbers would not fit.
    pub fn new(max_vehicles: i32, customers: Vec<Customer>, depots: Vec<Depot>) -> (problem: Option<
        Problem,
    >)
        ensures
            problem is Some <==> max_vehicles >= 0 && depots@.len() <= i32::MAX
                && customers@.len() + depots@.len() * max_vehicles <= i32::MAX,
            problem is Some ==> {
                let made = problem->0;
                &&& made.max_vehicles == max_vehicles
                &&& made.num_customers == customers@.len()
                &&& made.num_depots == depots@.len()
                &&& made.customers@ == customers@
                &&& made.depots@ == depots@
                &&& made.in_blocks()
            },
    {
        if max_vehicles < 0 {
            return None;
        }
        let num_customers = customers.len();
        let num_depots = depots.len();
        if num_customers > i32::MAX as usize || num_depots > i32::MAX as usize {
            proof {
                assert(depots@.len() * max_vehicles >= 0) by (nonlinear_arith)
                    requires
                        max_vehicles >= 0,
                        depots@.len() >= 0,
                ;
            }
            return None;
        }
        let per_depot = max_vehicles as usize;
        let mut vehicles: Vec<Vehicle> = Vec::new();
        let mut d: usize = 0;
        while d < num_depots
            invariant
                0 <= d <= num_depots,
                num_depots == depots@.len(),
                num_customers == customers@.len(),
                num_customers <= i32::MAX,
                per_depot == max_vehicles,
                max_vehicles >= 0,
                vehicles@.len() == d * per_depot,
                num_customers + d * per_depot <= i32::MAX,
                forall|e: int, v: int|
                    0 <= e < d && 0 <= v < per_depot ==> {
                        let vehicle = #[trigger] vehicles@[e * per_depot + v];
                        &&& vehicle.number == num_customers + 1 + e * per_depot + v
                        &&& vehicle.depot == depots@[e].number
                        &&& vehicle.capacity == depots@[e].capacity
                    },
            decreases num_depots - d,
        {
            proof {
                assert((d + 1) * per_depot == d * per_depot + per_depot) by (nonlinear_arith);
                assert((d + 1) * per_depot <= depots@.len() * per_depot) by (nonlinear_arith)
                    requires
                        d + 1 <= depots@.len(),
                        per_depot >= 0,
                ;
            }
            if per_depot > i32::MAX as usize - num_customers - d * per_depot {
                return None;
            }
            let ghost before = vehicles@;
            let mut v: usize = 0;
            while v < per_depot
                invariant
                    0 <= d < num_depots,
                    num_depots == depots@.len(),
                    0 <= v <= per_depot,
                    num_customers + d * per_depot + per_depot <= i32::MAX,
                    vehicles@.len() == d * per_depot + v,
                    forall|k: int| 0 <= k < before.len() ==> vehicles@[k] == before[k],
                    before.len() == d * per_depot,
                    forall|w: int|
                        0 <= w < v ==> {
                            let vehicle = #[trigger] vehicles@[d * per_depot + w];
                            &&& vehicle.number == num_customers + 1 + d * per_depot + w
                            &&& vehicle.depot == depots@[d as int].number
                            &&& vehicle.capacity == depots@[d as int].capacity
                        },
                decreases per_depot - v,
            {
                let number = (num_customers + 1 + d * per_depot + v) as i32;
                vehicles.push(
                    Vehicle { number, depot: depots[d].number, capacity: depots[d].capacity },
                );
                v += 1;
            }
            proof {
                assert forall|e: int, w: int| 0 <= e < d + 1 && 0 <= w < per_depot implies {
                    let vehicle = #[trigger] vehicles@[e * per_depot + w];
                    &&& vehicle.number == num_customers + 1 + e * per_depot + w
                    &&& vehicle.depot == depots@[e].number
                    &&& vehicle.capacity == depots@[e].capacity
                } by {
                    if e < d {
                        assert(e * per_depot + w < d * per_depot) by (nonlinear_arith)
                            requires
                                0 <= e < d,
                                0 <= w < per_depot,
                        ;
                        assert(vehicles@[e * per_depot + w] == before[e * per_depot + w]);
                    }
                }
            }
            d += 1;
        }
        Some(
            Problem {
                max_vehicles,
                num_customers: num_customers as i32,
                num_depots: num_depots as i32,
                customers,
                depots,
                vehicles,
            },
        )
    }

    /// The first vehicle of a depot.
    pub fn get_vehicle_for_depot(&self, depot: &Depot) -> (vehicle: &Vehicle)
        requires
            has_vehicle(self.vehicles@, depot.number as int),
        ensures
            exists|place: int|
                first_vehicle_at(self.vehicles@, depot.number as int, place) && *vehicle
                    == #[trigger] self.vehicles@[place],
    {
        let mut k: usize = 0;
        while k < self.vehicles.len()
            invariant
                0 <= k <= self.vehicles@.len(),
                has_vehicle(self.vehicles@, depot.number as int),
                forall|e: int| 0 <= e < k ==> (#[trigger] self.vehicles@[e]).depot != depot.number,
            decreases self.vehicles@.len() - k,
        {
            if self.vehicles[k].depot == depot.number {
                assert(first_vehicle_at(self.vehicles@, depot.number as int, k as int));
                return &self.vehicles[k];
            }
            k += 1;
        }
        proof {
            let e = choose|e: int|
                0 <= e < self.vehicles@.len() && (#[trigger] self.vehicles@[e]).depot
                    == depot.number;
            assert(false);
        }
        &self.vehicles[0]
    }

    /// The numbers of the vehicles of a depot, in their order.
    pub fn fleet_of(&self, depot: &Depot) -> (numbers: Vec<i32>)
        ensures
            numbers@ == fleet(self.vehicles@, depot.number as int),
    {
        let mut numbers: Vec<i32> = Vec::new();
        let mut k: usize = 0;
        while k < self.vehicles.len()
            invariant
                0 <= k <= self.vehicles@.len(),
                numbers@ == fleet(self.vehicles@.take(k as int), depot.number as int),
            decreases self.vehicles@.len() - k,
        {
            proof {
                assert(self.vehicles@.take(k + 1).drop_last() =~= self.vehicles@.take(k as int));
            }
            if self.vehicles[k].depot == depot.number {
                numbers.push(self.vehicles[k].number);
            }
            k += 1;
        }
        assert(self.vehicles@.take(self.vehicles@.len() as int) =~= self.vehicles@);
        numbers
    }

    /// The place of the depot that is nearest to a point: of several at the
    /// same distance the first.
    pub fn nearest_depot_to(&self, pos: &Pos) -> (place: usize)
        requires
            self.depots@.len() > 0,
        ensures
            nearest_depot(self.depots@, *pos, place as int),
    {
        let mut best: usize = 0;
        let mut distance = pos.squared_distance_to(&self.depots[0].pos);
        let mut e: usize = 1;
        while e < self.depots.len()
            invariant
                1 <= e <= self.depots@.len(),
                0 <= best < e,
                distance == squared_distance(*pos, self.depots@[best as int].pos),
                forall|k: int|
                    0 <= k < e ==> distance <= squared_distance(
                        *pos,
                        (#[trigger] self.depots@[k]).pos,
                    ),
                forall|k: int|
                    0 <= k < best ==> squared_distance(*pos, (#[trigger] self.depots@[k]).pos)
                        > distance,
            decreases self.depots@.len() - e,
        {
            let new_distance = pos.squared_distance_to(&self.depots[e].pos);
            if new_distance < distance {
                distance = new_distance;
                best = e;
            }
            e += 1;
        }
        best
    }

    /// For each depot, in the order of the depots, the numbers of the
    /// customers to which it is the nearest.
    pub fn map_customers_to_depot(&self) -> (depot_map: Vec<Vec<i32>>)
        requires
            self.customers@.len() > 0 ==> self.depots@.len() > 0,
        ensures
            depot_map@.len() == self.depots@.len(),
            forall|d: int|
                0 <= d < self.depots@.len() ==> (#[trigger] depot_map@[d])@ == assigned(
                    self.customers@,
                    self.depots@,
                    d,
                ),
    {
        let mut nearest: Vec<usize> = Vec::new();
        let mut c: usize = 0;
        while c < self.customers.len()
            invariant
                0 <= c <= self.customers@.len(),
                self.customers@.len() > 0 ==> self.depots@.len() > 0,
                nearest@.len() == c,
                forall|k: int|
                    0 <= k < c ==> nearest_depot(
                        self.depots@,
                        self.customers@[k].pos,
                        (#[trigger] nearest@[k]) as int,
                    ),
            decreases self.customers@.len() - c,
        {
            nearest.push(self.nearest_depot_to(&self.customers[c].pos));
            c += 1;
        }
        let mut depot_map: Vec<Vec<i32>> = Vec::new();
        let mut d: usize = 0;
        while d < self.depots.len()
            invariant
                0 <= d <= self.depots@.len(),
                nearest@.len() == self.customers@.len(),
                forall|k: int|
                    0 <= k < self.customers@.len() ==> nearest_depot(
                        self.depots@,
                        self.customers@[k].pos,
                        (#[trigger] nearest@[k]) as int,
                    ),
                depot_map@.len() == d,
                forall|e: int|
                    0 <= e < d ==> (#[trigger] depot_map@[e])@ == assigned(
                        self.customers@,
                        self.depots@,
                        e,
                    ),
            decreases self.depots@.len() - d,
        {
            let mut depot_list: Vec<i32> = Vec::new();
            let mut k: usize = 0;
            while k < self.customers.len()
                invariant
                    0 <= k <= self.customers@.len(),
                    0 <= d < self.depots@.len(),
                    nearest@.len() == self.customers@.len(),
                    forall|m: int|
                        0 <= m < self.customers@.len() ==> nearest_depot(
                            self.depots@,
                            self.customers@[m].pos,
                            (#[trigger] nearest@[m]) as int,
                        ),
                    depot_list@ == assigned(self.customers@.take(k as int), self.depots@, d as int),
                decreases self.customers@.len() - k,
            {
                proof {
                    assert(self.customers@.take(k + 1).drop_last() =~= self.customers@.take(
                        k as int,
                    ));
                    assert(nearest_depot(
                        self.depots@,
                        self.customers@[k as int].pos,
                        nearest@[k as int] as int,
                    ));
                }
                if nearest[k] == d {
                    depot_list.push(self.customers[k].number);
                }
                k += 1;
            }
            assert(self.customers@.take(self.customers@.len() as int) =~= self.customers@);
            depot_map.push(depot_list);
            d += 1;
        }
        depot_map
    }

    /// The table of demands and capacities of the model: for each node of
    /// a customer its demand, for each node of a vehicle its capacity, and
    /// zero for a node that is neither.
    pub fn calculate_capacities(&self) -> (capacities: Vec<i32>)
        requires
            self.customers@.len() + self.vehicles@.len() <= usize::MAX,
            forall|k: int|
                0 <= k < self.customers@.len() ==> 1 <= (#[trigger] self.customers@[k]).number
                    <= self.customers@.len() + self.vehicles@.len(),
            forall|k: int|
                0 <= k < self.vehicles@.len() ==> 1 <= (#[trigger] self.vehicles@[k]).number
                    <= self.customers@.len() + self.vehicles@.len(),
        ensures
            capacities@ == loads_written(
                demands_written(
                    Seq::new(self.customers@.len() + self.vehicles@.len(), |k: int| 0i32),
                    self.customers@,
                    self.customers@.len(),
                ),
                self.vehicles@,
                self.vehicles@.len(),
            ),
            capacities@.len() == self.customers@.len() + self.vehicles@.len(),
    {
        let num_nodes = self.customers.len() + self.vehicles.len();
        let mut capacities: Vec<i32> = vec![0; num_nodes];
        let ghost empty = Seq::new(num_nodes as nat, |k: int| 0i32);
        assert(capacities@ =~= empty);
        let mut c: usize = 0;
        while c < self.customers.len()
            invariant
                0 <= c <= self.customers@.len(),
                num_nodes == self.customers@.len() + self.vehicles@.len(),
                capacities@.len() == num_nodes,
                forall|k: int|
                    0 <= k < self.customers@.len() ==> 1 <= (#[trigger] self.customers@[k]).number
                        <= num_nodes,
                capacities@ == demands_written(empty, self.customers@, c as nat),
            decreases self.customers@.len() - c,
        {
            let customer = &self.customers[c];
            capacities.set(customer.number as usize - 1, customer.demand);
            c += 1;
        }
        let ghost demands = capacities@;
        let mut v: usize = 0;
        while v < self.vehicles.len()
            invariant
                0 <= v <= self.vehicles@.len(),
                num_nodes == self.customers@.len() + self.vehicles@.len(),
                capacities@.len() == num_nodes,
                forall|k: int|
                    0 <= k < self.vehicles@.len() ==> 1 <= (#[trigger] self.vehicles@[k]).number
                        <= num_nodes,
                capacities@ == loads_written(demands, self.vehicles@, v as nat),
            decreases self.vehicles@.len() - v,
        {
            let vehicle = &self.vehicles[v];
            capacities.set(vehicle.number as usize - 1, vehicle.capacity);
            v += 1;
        }
        capacities
    }

    /// The smallest box that holds the customers and the depots: see
    /// [`bounds_of`].
    pub fn get_boundaries(&self) -> (bounds: (i32, i32, i32, i32))
        ensures
            bounds == bounds_of(positions(self.customers@, self.depots@)),
    {
        let ghost points = positions(self.customers@, self.depots@);
        let mut min_x = i32::MAX;
        let mut min_y = i32::MAX;
        let mut max_x = i32::MIN;
        let mut max_y = i32::MIN;
        let mut c: usize = 0;
        while c < self.customers.len()
            invariant
                0 <= c <= self.customers@.len(),
                points == positions(self.customers@, self.depots@),
                (min_x, min_y, max_x, max_y) == bounds_of(points.take(c as int)),
            decreases self.customers@.len() - c,
        {
            proof {
                assert(points.take(c + 1).drop_last() =~= points.take(c as int));
                assert(points.take(c + 1).last() == self.customers@[c as int].pos);
            }
            let (x, y) = (self.customers[c].pos.x, self.customers[c].pos.y);
            if x < min_x {
                min_x = x;
            }
            if x > max_x {
                max_x = x;
            }
            if y < min_y {
                min_y = y;
            }
            if y > max_y {
                max_y = y;
            }
            c += 1;
        }
        let mut d: usize = 0;
        while d < self.depots.len()
            invariant
                0 <= d <= self.depots@.len(),
                points == positions(self.customers@, self.depots@),
                (min_x, min_y, max_x, max_y) == bounds_of(
                    points.take(self.customers@.len() + d),
                ),
            decreases self.depots@.len() - d,
        {
            proof {
                let seen = self.customers@.len() + d;
                assert(points.take(seen + 1).drop_last() =~= points.take(seen));
                assert(points.take(seen + 1).last() == self.depots@[d as int].pos);
            }
            let (x, y) = (self.depots[d].pos.x, self.depots[d].pos.y);
            if x < min_x {
                min_x = x;
            }
            if x > max_x {
                max_x = x;
            }
            if y < min_y {
                min_y = y;
            }
            if y > max_y {
                max_y = y;
            }
            d += 1;
        }
        assert(points.take(points.len() as int) =~= points);
        (min_x, min_y, max_x, max_y)
    }

    /// What a stop of a route is shown as: see [`shown_stop`].
    pub fn show_stop(&self, stop: i32) -> (shown: Option<i32>)
        ensures
            shown == shown_stop(self.num_customers as int, self.vehicles@, stop),
    {
        if stop <= self.num_customers {
            return Some(stop);
        }
        let mut depot: Option<i32> = None;
        let mut k: usize = 0;
        while k < self.vehicles.len()
            invariant
                0 <= k <= self.vehicles@.len(),
                depot == depot_of_vehicle(self.vehicles@.take(k as int), stop as int),
            decreases self.vehicles@.len() - k,
        {
            proof {
                assert(self.vehicles@.take(k + 1).drop_last() =~= self.vehicles@.take(k as int));
            }
            if self.vehicles[k].number == stop {
                depot = Some(self.vehicles[k].depot);
            }
            k += 1;
        }
        assert(self.vehicles@.take(self.vehicles@.len() as int) =~= self.vehicles@);
        depot
    }

    /// The routes as they are shown: each node of a vehicle is replaced by
    /// the number of its depot. A stop beyond the customers that is no
    /// vehicle's node is refused with `GaError::UnknownNode`.
    pub fn show_routes(&self, routes: &Vec<Vec<i32>>) -> (outcome: Result<Vec<Vec<i32>>, GaError>)
        ensures
            outcome is Ok <==> forall|r: int|
                0 <= r < routes@.len() ==> showable(
                    self.num_customers as int,
                    self.vehicles@,
                    (#[trigger] routes@[r])@,
                ),
            outcome is Err ==> outcome->Err_0 == GaError::UnknownNode,
            outcome is Ok ==> outcome->Ok_0@.len() == routes@.len() && forall|r: int|
                0 <= r < routes@.len() ==> shown_route(
                    self.num_customers as int,
                    self.vehicles@,
                    routes@[r]@,
                    (#[trigger] outcome->Ok_0@[r])@,
                ),
    {
        let mut shown: Vec<Vec<i32>> = Vec::new();
        let mut r: usize = 0;
        while r < routes.len()
            invariant
                0 <= r <= routes@.len(),
                shown@.len() == r,
                forall|e: int|
                    0 <= e < r ==> shown_route(
                        self.num_customers as int,
                        self.vehicles@,
                        routes@[e]@,
                        (#[trigger] shown@[e])@,
                    ),
                forall|e: int|
                    0 <= e < r ==> showable(
                        self.num_customers as int,
                        self.vehicles@,
                        (#[trigger] routes@[e])@,
                    ),
            decreases routes@.len() - r,
        {
            let route = &routes[r];
            let mut stops: Vec<i32> = Vec::new();
            let mut k: usize = 0;
            while k < route.len()
                invariant
                    0 <= r < routes@.len(),
                    route@ == routes@[r as int]@,
                    0 <= k <= route@.len(),
                    stops@.len() == k,
                    forall|m: int|
                        0 <= m < k ==> shown_stop(
                            self.num_customers as int,
                            self.vehicles@,
                            #[trigger] route@[m],
                        ) == Some(stops@[m]),
                decreases route@.len() - k,
            {
                match self.show_stop(route[k]) {
                    Some(stop) => {
                        stops.push(stop);
                    },
                    None => {
                        assert(shown_stop(
                            self.num_customers as int,
                            self.vehicles@,
                            route@[k as int],
                        ) is None);
                        assert(!showable(
                            self.num_customers as int,
                            self.vehicles@,
                            routes@[r as int]@,
                        ));
                        return Err(GaError::UnknownNode);
                    },
                }
                k += 1;
            }
            shown.push(stops);
            r += 1;
        }
        Ok(shown)
    }
}

} // verus!
