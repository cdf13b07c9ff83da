use genetic::config::Config;
use genetic::construction::{savings_init, vehicle_routes};
use genetic::error::GaError;
use genetic::heuristic::Route;
use genetic::model::Model;
use genetic::problem::{Customer, Depot, Pos, Problem, Vehicle};
use genetic::solution::{Encode, Solution};

fn customer(number: i32, x: i32, y: i32, demand: i32) -> Customer {
    Customer { number, pos: Pos::new(x, y), service_time: None, demand }
}

fn depot(number: i32, x: i32, y: i32, capacity: i32) -> Depot {
    Depot { capacity, number, pos: Pos::new(x, y) }
}

fn two_depots() -> Problem {
    let customers = vec![
        customer(1, 10, 0, 10),
        customer(2, 20, 0, 20),
        customer(3, 90, 0, 30),
        customer(4, 50, 0, 5),
    ];
    let depots = vec![depot(1, 0, 0, 100), depot(2, 100, 0, 60)];
    Problem::new(2, customers, depots).unwrap()
}

fn model_of(problem: &Problem) -> Model {
    let nodes = problem.customers.len() + problem.vehicles.len();
    let mut at = vec![0i32; nodes];
    for customer in problem.customers.iter() {
        at[customer.number as usize - 1] = customer.pos.x;
    }
    for vehicle in problem.vehicles.iter() {
        at[vehicle.number as usize - 1] = vehicle.get_depot(&problem.depots).pos.x;
    }
    let mut distances = Vec::new();
    for a in at.iter() {
        for b in at.iter() {
            distances.push((a - b).unsigned_abs());
        }
    }
    Model::new(nodes, distances, problem.calculate_capacities()).unwrap()
}

#[test]
fn squared_distance_is_exact() {
    assert_eq!(Pos::new(0, 0).squared_distance_to(&Pos::new(10, 10)), 200);
    assert_eq!(Pos::new(-3, 4).squared_distance_to(&Pos::new(0, 0)), 25);
    assert_eq!(Pos::new(7, 7).squared_distance_to(&Pos::new(7, 7)), 0);
    assert_eq!(
        Pos::new(i32::MIN, i32::MIN).squared_distance_to(&Pos::new(i32::MAX, i32::MAX)),
        2 * (u32::MAX as u128) * (u32::MAX as u128)
    );
}

#[test]
fn vehicles_are_numbered_after_the_customers() {
    let problem = two_depots();
    assert_eq!(problem.max_vehicles, 2);
    assert_eq!(problem.num_customers, 4);
    assert_eq!(problem.num_depots, 2);
    let numbers: Vec<(i32, i32, i32)> = problem
        .vehicles
        .iter()
        .map(|vehicle| (vehicle.number, vehicle.depot, vehicle.capacity))
        .collect();
    assert_eq!(numbers, vec![(5, 1, 100), (6, 1, 100), (7, 2, 60), (8, 2, 60)]);
}

#[test]
fn problem_refuses_a_negative_fleet() {
    assert!(Problem::new(-1, vec![], vec![]).is_none());
    let empty = Problem::new(0, vec![customer(1, 0, 0, 1)], vec![depot(1, 0, 0, 1)]).unwrap();
    assert!(empty.vehicles.is_empty());
}

#[test]
fn first_vehicle_and_fleet_of_a_depot() {
    let problem = two_depots();
    assert_eq!(problem.get_vehicle_for_depot(&problem.depots[1]).number, 7);
    assert_eq!(problem.get_vehicle_for_depot(&problem.depots[0]).number, 5);
    assert_eq!(problem.fleet_of(&problem.depots[1]), vec![7, 8]);
    assert!(problem.fleet_of(&depot(9, 0, 0, 1)).is_empty());
    let vehicle = Vehicle { capacity: 1, number: 7, depot: 2 };
    assert_eq!(vehicle.get_depot(&problem.depots).pos, Pos::new(100, 0));
}

#[test]
fn customers_go_to_the_nearest_depot() {
    let problem = two_depots();
    // The customer at 50 is as far from one depot as from the other: the
    // first depot has it.
    assert_eq!(problem.map_customers_to_depot(), vec![vec![1, 2, 4], vec![3]]);
    assert_eq!(problem.nearest_depot_to(&Pos::new(51, 0)), 1);
    assert_eq!(problem.nearest_depot_to(&Pos::new(50, 0)), 0);
}

#[test]
fn capacities_hold_demands_and_loads() {
    let problem = two_depots();
    assert_eq!(problem.calculate_capacities(), vec![10, 20, 30, 5, 100, 100, 60, 60]);
}

#[test]
fn boundaries_hold_every_point() {
    let customers = vec![customer(1, 10, -4, 1), customer(2, -7, 12, 1)];
    let depots = vec![depot(1, 3, 40, 1)];
    let problem = Problem::new(1, customers, depots).unwrap();
    assert_eq!(problem.get_boundaries(), (-7, -4, 10, 40));
    let nothing = Problem::new(1, vec![], vec![]).unwrap();
    assert_eq!(nothing.get_boundaries(), (i32::MAX, i32::MAX, i32::MIN, i32::MIN));
}

#[test]
fn stops_are_shown_as_depots() {
    let problem = two_depots();
    assert_eq!(problem.show_stop(3), Some(3));
    assert_eq!(problem.show_stop(6), Some(1));
    assert_eq!(problem.show_stop(8), Some(2));
    assert_eq!(problem.show_stop(9), None);
    assert_eq!(
        problem.show_routes(&vec![vec![5, 1, 2, 5], vec![8, 3, 8]]),
        Ok(vec![vec![1, 1, 2, 1], vec![2, 3, 2]])
    );
    assert_eq!(problem.show_routes(&vec![vec![5, 5], vec![12]]), Err(GaError::UnknownNode));
}

#[test]
fn readiness_is_tested() {
    let problem = two_depots();
    let model = model_of(&problem);
    assert!(problem.is_ready(&model));
    let small = Model::new(1, vec![0], vec![1]).unwrap();
    assert!(!problem.is_ready(&small));
    let stranded = Problem::new(0, vec![customer(1, 0, 0, 1)], vec![depot(1, 0, 0, 1)]).unwrap();
    assert!(!stranded.is_ready(&small));
}

#[test]
fn vehicles_beyond_the_routes_stay_empty() {
    let routes = vec![
        Route { cost: None, customers: vec![1, 2] },
        Route { cost: None, customers: vec![3] },
    ];
    assert_eq!(
        vehicle_routes(&vec![7, 8, 9], &routes),
        vec![vec![7, 1, 2, 7], vec![8, 3, 8], vec![9, 9]]
    );
    assert_eq!(vehicle_routes(&vec![7], &routes), vec![vec![7, 1, 2, 7]]);
}

#[test]
fn first_solution_has_a_route_for_each_vehicle() {
    let problem = two_depots();
    let model = model_of(&problem);
    let mut config = Config::default();
    config.infeasibility_penalty = 1000;
    for _ in 0..30 {
        let routes = savings_init(&model, &problem, &config);
        assert_eq!(routes.len(), 4);
        let heads: Vec<i32> = routes.iter().map(|route| route[0]).collect();
        assert_eq!(heads, vec![5, 6, 7, 8]);
        for route in routes.iter() {
            assert!(route.len() >= 2);
            assert_eq!(route.first(), route.last());
        }
        let mut first: Vec<i32> = routes[0..2]
            .iter()
            .flat_map(|route| route[1..route.len() - 1].to_vec())
            .collect();
        first.sort();
        assert_eq!(first, vec![1, 2, 4]);
        let second: Vec<i32> = routes[2..4]
            .iter()
            .flat_map(|route| route[1..route.len() - 1].to_vec())
            .collect();
        assert_eq!(second, vec![3]);
        let chromosome = Solution::new(routes).encode().unwrap();
        assert_eq!(chromosome.genes.len(), 8);
    }
}

#[test]
fn depot_without_customers_gets_empty_routes() {
    let customers = vec![customer(1, 10, 0, 10)];
    let depots = vec![depot(1, 0, 0, 100), depot(2, 100, 0, 60)];
    let problem = Problem::new(1, customers, depots).unwrap();
    let model = model_of(&problem);
    let routes = savings_init(&model, &problem, &Config::default());
    assert_eq!(routes, vec![vec![2, 1, 2], vec![3, 3]]);
}

#[test]
fn forced_merge_of_a_problem_takes_the_better_order() {
    let customers = vec![customer(1, -10, 0, 120), customer(2, 20, 0, 10)];
    let depots = vec![depot(1, 0, 0, 100)];
    let problem = Problem::new(1, customers, depots).unwrap();
    let model = model_of(&problem);
    let mut config = Config::default();
    config.cws_bias = 1;
    config.infeasibility_penalty = 1000;
    for _ in 0..20 {
        assert_eq!(savings_init(&model, &problem, &config), vec![vec![3, 2, 1, 3]]);
    }
}
