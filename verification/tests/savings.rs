use genetic::error::GaError;
use genetic::heuristic::{
    calculate_savings, construct_routes, construct_routes_from, evaluate_routes, merge_routes,
    positive_saving_left,
    remove_routes, select_routes_to_merge, single_customers_routes, sort_savings, Route, Savings,
    UNSET_SAVING,
};
use genetic::model::Model;
use genetic::problem::Vehicle;

fn line_model(demands: Vec<i32>, at: Vec<i32>) -> Model {
    let mut distances = Vec::new();
    for a in at.iter() {
        for b in at.iter() {
            distances.push((a - b).unsigned_abs());
        }
    }
    Model::new(at.len(), distances, demands).unwrap()
}

fn three_customers() -> (Model, Vehicle) {
    // Customers 1, 2, 3 at 10, 20, 30; the vehicle, node 4, at 0.
    let model = line_model(vec![10, 20, 30, 100], vec![10, 20, 30, 0]);
    (model, Vehicle { capacity: 100, number: 4, depot: 1 })
}

#[test]
fn route_cost_is_the_round_trip() {
    let (model, vehicle) = three_customers();
    let mut route = Route { cost: None, customers: vec![1, 2, 3] };
    route.evaluate(&model, &vehicle, 1000);
    assert_eq!(route.cost, Some(60));
    let mut detour = Route { cost: None, customers: vec![2, 1, 3] };
    detour.evaluate(&model, &vehicle, 1000);
    assert_eq!(detour.cost, Some(80));
}

#[test]
fn route_without_customers_costs_nothing() {
    let (model, vehicle) = three_customers();
    let mut route = Route { cost: None, customers: vec![] };
    route.evaluate(&model, &vehicle, 1000);
    assert_eq!(route.cost, Some(0));
}

#[test]
fn route_cost_once_set_stays() {
    let (model, vehicle) = three_customers();
    let mut route = Route { cost: Some(7), customers: vec![1, 2, 3] };
    route.evaluate(&model, &vehicle, 1000);
    assert_eq!(route.cost, Some(7));
    assert_eq!(route.get_cost(), Ok(7));
}

#[test]
fn route_cost_asked_too_early_is_an_error() {
    let route = Route { cost: None, customers: vec![1] };
    assert_eq!(route.get_cost(), Err(GaError::Invariant));
}

#[test]
fn route_pays_a_penalty_for_each_overloaded_stop() {
    let (model, _) = three_customers();
    let small = Vehicle { capacity: 25, number: 4, depot: 1 };
    let mut route = Route { cost: None, customers: vec![1, 2, 3] };
    route.evaluate(&model, &small, 1000);
    // 10 fits, 20 and 30 do not.
    assert_eq!(route.cost, Some(60 + 2000));
}

#[test]
fn single_routes_hold_one_customer_each() {
    let routes = single_customers_routes(vec![3, 1, 2]);
    assert_eq!(routes.len(), 3);
    assert_eq!(routes[0].customers, vec![3]);
    assert_eq!(routes[1].customers, vec![1]);
    assert_eq!(routes[2].customers, vec![2]);
    assert!(routes.iter().all(|route| route.cost.is_none()));
}

#[test]
fn merged_route_keeps_both_orders() {
    let first = Route { cost: Some(1), customers: vec![1, 2] };
    let second = Route { cost: Some(2), customers: vec![3] };
    let merged = merge_routes(&first, &second);
    assert_eq!(merged.customers, vec![1, 2, 3]);
    assert_eq!(merged.cost, None);
}

#[test]
fn removing_routes_keeps_the_others_in_order() {
    let mut routes = single_customers_routes(vec![5, 6, 7, 8]);
    remove_routes(&mut routes, 2, 0);
    assert_eq!(routes.len(), 2);
    assert_eq!(routes[0].customers, vec![6]);
    assert_eq!(routes[1].customers, vec![8]);
    let mut again = single_customers_routes(vec![5, 6, 7, 8]);
    remove_routes(&mut again, 1, 3);
    assert_eq!(again[0].customers, vec![5]);
    assert_eq!(again[1].customers, vec![7]);
}

#[test]
fn savings_table_reads_rows_and_columns() {
    let mut savings = Savings::new(3);
    assert_eq!(savings.vec, vec![UNSET_SAVING; 9]);
    savings.change(1, 2, 42);
    assert_eq!(savings.vec[5], 42);
    assert_eq!(savings.get_indices(5), (1, 2));
    assert_eq!(savings.get_indices(6), (2, 0));
}

#[test]
fn savings_of_the_line() {
    let (model, vehicle) = three_customers();
    let mut routes = single_customers_routes(vec![1, 2, 3]);
    evaluate_routes(&mut routes, &model, &vehicle, 1000);
    assert_eq!(routes[0].cost, Some(20));
    assert_eq!(routes[1].cost, Some(40));
    assert_eq!(routes[2].cost, Some(60));
    let savings = calculate_savings(&routes, &model, &vehicle, 1000);
    assert_eq!(
        savings.vec,
        vec![UNSET_SAVING, 20, 20, 20, UNSET_SAVING, 40, 20, 40, UNSET_SAVING]
    );
}

#[test]
fn sorted_savings_are_the_best_first() {
    let savings = Savings { dim: 3, vec: vec![-100_000, 5, -7, 30, -100_000, 12, 0, 30, -100_000] };
    let top = sort_savings(&savings, 4);
    assert_eq!(top, vec![(7, 30), (3, 30), (5, 12), (1, 5)]);
    let all = sort_savings(&savings, 10);
    assert_eq!(all, vec![(7, 30), (3, 30), (5, 12), (1, 5), (6, 0), (2, -7)]);
    assert!(sort_savings(&savings, 0).is_empty());
}

#[test]
fn positive_saving_is_found_in_the_first_entry() {
    assert!(positive_saving_left(&vec![(1, 3), (2, -1)]));
    assert!(!positive_saving_left(&vec![(1, 0), (2, -1)]));
    assert!(!positive_saving_left(&vec![(1, -4)]));
    assert!(!positive_saving_left(&vec![]));
}

#[test]
fn selection_stays_within_the_bias() {
    let sorted = vec![(7usize, 30i128), (3, 30), (5, 12), (1, 5)];
    for _ in 0..200 {
        let cell = select_routes_to_merge(&sorted, 2);
        assert!(cell == 7 || cell == 3);
    }
    for _ in 0..50 {
        assert_eq!(select_routes_to_merge(&sorted, 1), 7);
    }
    for _ in 0..200 {
        let cell = select_routes_to_merge(&sorted, 100);
        assert!(sorted.iter().any(|entry| entry.0 == cell));
    }
}

#[test]
fn line_of_three_becomes_one_route_of_cost_sixty() {
    let (model, vehicle) = three_customers();
    for _ in 0..20 {
        let routes = construct_routes(&model, &vehicle, vec![1, 2, 3], 1, 1000, 1);
        assert_eq!(routes.len(), 1);
        assert_eq!(routes[0].cost, Some(60));
        let mut visited = routes[0].customers.clone();
        visited.sort();
        assert_eq!(visited, vec![1, 2, 3]);
    }
}

#[test]
fn biased_construction_still_places_every_customer() {
    let (model, vehicle) = three_customers();
    for _ in 0..50 {
        let routes = construct_routes(&model, &vehicle, vec![1, 2, 3], 1, 1000, 10);
        assert_eq!(routes.len(), 1);
        let cost = routes[0].cost.unwrap();
        assert!(cost == 60 || cost == 80);
        let mut visited = routes[0].customers.clone();
        visited.sort();
        assert_eq!(visited, vec![1, 2, 3]);
    }
}

#[test]
fn overloaded_pair_is_merged_all_the_same() {
    // Two customers that ask for 8 each, a vehicle that takes 10.
    let model = line_model(vec![8, 8, 10], vec![10, 20, 0]);
    let vehicle = Vehicle { capacity: 10, number: 3, depot: 1 };
    for _ in 0..20 {
        let routes = construct_routes(&model, &vehicle, vec![1, 2], 1, 1000, 10);
        assert_eq!(routes.len(), 1);
        // Forty for the way, and one penalty for the second customer.
        assert_eq!(routes[0].cost, Some(40 + 1000));
    }
}

#[test]
fn routes_stay_apart_where_merging_saves_nothing() {
    // Customers on opposite sides of the depot, and vehicles enough.
    let model = line_model(vec![8, 8, 10], vec![-10, 10, 0]);
    let vehicle = Vehicle { capacity: 10, number: 3, depot: 1 };
    let routes = construct_routes(&model, &vehicle, vec![1, 2], 2, 1000, 10);
    assert_eq!(routes.len(), 2);
    assert_eq!(routes[0].customers, vec![1]);
    assert_eq!(routes[1].customers, vec![2]);
    assert_eq!(routes[0].cost, Some(20));
}

#[test]
fn route_count_stays_within_the_vehicles() {
    let at: Vec<i32> = vec![3, -8, 15, 22, -30, 41, 7, 0];
    let model = line_model(vec![5, 5, 5, 5, 5, 5, 5, 12], at);
    let vehicle = Vehicle { capacity: 12, number: 8, depot: 1 };
    for max_vehicles in 0..5usize {
        for _ in 0..10 {
            let routes =
                construct_routes(&model, &vehicle, vec![1, 2, 3, 4, 5, 6, 7], max_vehicles, 50, 3);
            assert!(routes.len() <= std::cmp::max(max_vehicles, 1));
            assert!(!routes.is_empty());
            let mut visited: Vec<i32> =
                routes.iter().flat_map(|route| route.customers.clone()).collect();
            visited.sort();
            assert_eq!(visited, vec![1, 2, 3, 4, 5, 6, 7]);
        }
    }
}

#[test]
fn depot_without_customers_has_no_routes() {
    let (model, vehicle) = three_customers();
    let routes = construct_routes(&model, &vehicle, vec![], 3, 1000, 10);
    assert!(routes.is_empty());
}

fn customers_of(routes: &Vec<Route>) -> Vec<Vec<i32>> {
    routes.iter().map(|route| route.customers.clone()).collect()
}

#[test]
fn picks_decide_the_routes() {
    let (model, vehicle) = three_customers();
    // The best savings of the single routes, best first: the cells 7, 5, 6,
    // 3, 2, 1. The best is always taken where no pick is given.
    let best = construct_routes_from(&model, &vehicle, vec![1, 2, 3], 1, 1000, 10, &vec![]);
    assert_eq!(customers_of(&best), vec![vec![3, 2, 1]]);
    assert_eq!(best[0].cost, Some(60));
    let same = construct_routes_from(&model, &vehicle, vec![1, 2, 3], 1, 1000, 10, &vec![0, 0, 4]);
    assert_eq!(customers_of(&same), vec![vec![3, 2, 1]]);
    // Pick 5 merges 1 and 2; then the second best puts 3 in front.
    let worse = construct_routes_from(&model, &vehicle, vec![1, 2, 3], 1, 1000, 10, &vec![5, 1]);
    assert_eq!(customers_of(&worse), vec![vec![3, 1, 2]]);
    assert_eq!(worse[0].cost, Some(80));
    let better = construct_routes_from(&model, &vehicle, vec![1, 2, 3], 1, 1000, 10, &vec![5, 0]);
    assert_eq!(customers_of(&better), vec![vec![1, 2, 3]]);
    assert_eq!(better[0].cost, Some(60));
    // A pick beyond the savings that there are takes the last of them.
    let last = construct_routes_from(&model, &vehicle, vec![1, 2, 3], 1, 1000, 10, &vec![5, 9]);
    assert_eq!(customers_of(&last), vec![vec![3, 1, 2]]);
    // Under a bias of one only the best saving is there to be picked.
    let narrow = construct_routes_from(&model, &vehicle, vec![1, 2, 3], 1, 1000, 1, &vec![5, 1]);
    assert_eq!(customers_of(&narrow), vec![vec![3, 2, 1]]);
}

#[test]
fn picks_are_not_used_where_merging_stops() {
    let model = line_model(vec![8, 8, 10], vec![-10, 10, 0]);
    let vehicle = Vehicle { capacity: 10, number: 3, depot: 1 };
    let apart = construct_routes_from(&model, &vehicle, vec![1, 2], 2, 1000, 10, &vec![0, 0]);
    assert_eq!(customers_of(&apart), vec![vec![1], vec![2]]);
    let none = construct_routes_from(&model, &vehicle, vec![], 2, 1000, 10, &vec![3]);
    assert!(none.is_empty());
}

#[test]
fn forced_merge_takes_the_better_order() {
    // Customer 1 asks for more than the vehicle takes; customer 2 does not.
    let model = line_model(vec![120, 10, 100], vec![-10, 20, 0]);
    let vehicle = Vehicle { capacity: 100, number: 3, depot: 1 };
    let forced = construct_routes_from(&model, &vehicle, vec![1, 2], 1, 1000, 1, &vec![]);
    assert_eq!(customers_of(&forced), vec![vec![2, 1]]);
    assert_eq!(forced[0].cost, Some(60 + 1000));
    for _ in 0..20 {
        let drawn = construct_routes(&model, &vehicle, vec![1, 2], 1, 1000, 1);
        assert_eq!(customers_of(&drawn), vec![vec![2, 1]]);
    }
}

#[test]
fn drawn_routes_of_the_line_cost_sixty_under_a_bias_of_one() {
    let (model, vehicle) = three_customers();
    for _ in 0..20 {
        let routes = construct_routes(&model, &vehicle, vec![1, 2, 3], 1, 1000, 1);
        assert_eq!(customers_of(&routes), vec![vec![3, 2, 1]]);
    }
}

#[test]
fn route_with_a_cost_is_not_looked_at() {
    let (model, vehicle) = three_customers();
    let mut route = Route { cost: Some(5), customers: vec![77, -4] };
    route.evaluate(&model, &vehicle, 1000);
    assert_eq!(route.cost, Some(5));
    let nowhere = Vehicle { capacity: 1, number: 99, depot: 9 };
    route.evaluate(&model, &nowhere, 1000);
    assert_eq!(route.cost, Some(5));
}
