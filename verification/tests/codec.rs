use genetic::chromosome::Chromosome;
use genetic::error::GaError;
use genetic::gene::Gene;
use genetic::gene::Gene::{Customer, Depot};
use genetic::solution::{Encode, Solution};

fn chromosome(genes: Vec<Gene>) -> Chromosome {
    Chromosome { genes, score: None }
}

#[test]
fn gene_value_is_the_node() {
    assert_eq!(Depot(7).value(), 7);
    assert_eq!(Customer(-2).value(), -2);
    assert!(Depot(7).marks_vehicle());
    assert!(!Customer(7).marks_vehicle());
}

#[test]
fn encode_skips_the_closing_stop() {
    let solution = Solution::new(vec![vec![6, 1, 2, 6], vec![7, 7], vec![8, 3, 8]]);
    let encoded = solution.encode().unwrap();
    assert_eq!(
        encoded.genes,
        vec![Depot(6), Customer(1), Customer(2), Depot(7), Depot(8), Customer(3)]
    );
    assert_eq!(encoded.score, None);
}

#[test]
fn encode_refuses_a_route_without_ends() {
    let short = Solution::new(vec![vec![6, 1, 6], vec![7]]);
    assert_eq!(short.encode().err(), Some(GaError::MalformedRoute));
    let empty = Solution::new(vec![vec![]]);
    assert_eq!(empty.encode().err(), Some(GaError::MalformedRoute));
}

#[test]
fn encode_of_no_routes_is_empty() {
    let nothing = Solution::new(vec![]);
    assert!(nothing.encode().unwrap().genes.is_empty());
}

#[test]
fn decode_starts_at_the_first_depot() {
    let wrapped = chromosome(vec![Customer(1), Depot(6), Customer(2), Depot(7), Customer(3)]);
    let solution = wrapped.decode().unwrap();
    assert_eq!(solution.routes, vec![vec![6, 2, 6], vec![7, 3, 1, 7]]);
    assert_eq!(solution.score, None);
}

#[test]
fn decode_gives_empty_routes_to_idle_vehicles() {
    let idle = chromosome(vec![Depot(6), Depot(7), Customer(1), Depot(8)]);
    assert_eq!(idle.decode().unwrap().routes, vec![vec![6, 6], vec![7, 1, 7], vec![8, 8]]);
}

#[test]
fn decode_refuses_a_chromosome_without_depot() {
    assert_eq!(chromosome(vec![]).decode().err(), Some(GaError::MalformedChromosome));
    assert_eq!(
        chromosome(vec![Customer(1), Customer(2)]).decode().err(),
        Some(GaError::MalformedChromosome)
    );
}

#[test]
fn first_depot_index_is_the_lowest() {
    assert_eq!(chromosome(vec![Customer(1), Depot(6), Depot(7)]).get_first_depot_index(), Some(1));
    assert_eq!(chromosome(vec![Depot(6)]).get_first_depot_index(), Some(0));
    assert_eq!(chromosome(vec![Customer(1)]).get_first_depot_index(), None);
    assert_eq!(chromosome(vec![]).get_first_depot_index(), None);
}

#[test]
fn decode_of_encode_gives_the_routes_back() {
    let routes = vec![vec![6, 1, 2, 6], vec![7, 7], vec![8, 3, 8]];
    let back = Solution::new(routes.clone()).encode().unwrap().decode().unwrap();
    assert_eq!(back.routes, routes);
}

#[test]
fn round_trip_is_stable() {
    let samples = vec![
        vec![Customer(1), Depot(6), Customer(2), Depot(7), Customer(3)],
        vec![Depot(6), Depot(7), Customer(1), Depot(8)],
        vec![Customer(4), Customer(5), Depot(9)],
        vec![Depot(9)],
    ];
    for genes in samples {
        let decoded = chromosome(genes).decode().unwrap();
        let again = Solution::new(decoded.routes.clone()).encode().unwrap().decode().unwrap();
        assert_eq!(again.routes, decoded.routes);
    }
}
