use genetic::chromosome::Chromosome;
use genetic::error::GaError;
use genetic::gene::Gene::{Customer, Depot};
use genetic::model::Model;
use genetic::solution::Solution;

fn line_model(demands: Vec<i32>, at: Vec<i32>) -> Model {
    let mut distances = Vec::new();
    for a in at.iter() {
        for b in at.iter() {
            distances.push((a - b).unsigned_abs());
        }
    }
    Model::new(at.len(), distances, demands).unwrap()
}

fn two_vehicles() -> Model {
    // Customers 1, 2, 3 at 10, 20, 30; vehicles 4 and 5 at 0, each takes 35.
    line_model(vec![10, 20, 30, 35, 35], vec![10, 20, 30, 0, 0])
}

#[test]
fn fitness_is_the_length_of_all_tours() {
    let model = two_vehicles();
    let mut chromosome = Chromosome {
        genes: vec![Depot(4), Customer(1), Customer(2), Depot(5), Customer(3)],
        score: None,
    };
    // 0 -> 10 -> 20 -> 0 and 0 -> 30 -> 0.
    assert_eq!(chromosome.evaluate(&model, 1000), Ok(40 + 60));
    assert_eq!(chromosome.score, Some(100));
}

#[test]
fn fitness_reads_the_ring_from_the_first_depot() {
    let model = two_vehicles();
    let mut chromosome = Chromosome {
        genes: vec![Customer(3), Depot(4), Customer(1), Depot(5), Customer(2)],
        score: None,
    };
    // Vehicle 5 serves 2 and then 3, which stands before the first depot.
    assert_eq!(chromosome.evaluate(&model, 1000), Ok(20 + 60 + 1000));
}

#[test]
fn fitness_pays_for_each_overloaded_stop() {
    let model = two_vehicles();
    let mut chromosome = Chromosome {
        genes: vec![Depot(4), Customer(1), Customer(2), Customer(3), Depot(5)],
        score: None,
    };
    // 10 and 20 fit in 35; 30 does not.
    assert_eq!(chromosome.evaluate(&model, 7), Ok(60 + 7));
    // A penalty of zero leaves the length.
    assert_eq!(chromosome.evaluate(&model, 0), Ok(60));
}

#[test]
fn fitness_is_the_same_each_time() {
    let model = two_vehicles();
    let genes = vec![Depot(5), Customer(3), Customer(1), Depot(4), Customer(2)];
    let mut first = Chromosome { genes: genes.clone(), score: None };
    let mut second = Chromosome { genes, score: Some(1) };
    let score = first.evaluate(&model, 1000);
    for _ in 0..10 {
        assert_eq!(second.evaluate(&model, 1000), score);
        assert_eq!(first.evaluate(&model, 1000), score);
    }
}

#[test]
fn fitness_refuses_a_chromosome_without_depot() {
    let model = two_vehicles();
    let mut chromosome = Chromosome { genes: vec![Customer(1)], score: Some(3) };
    assert_eq!(chromosome.evaluate(&model, 1000), Err(GaError::MalformedChromosome));
    assert_eq!(chromosome.score, Some(3));
    let mut empty = Chromosome { genes: vec![], score: None };
    assert_eq!(empty.evaluate(&model, 1000), Err(GaError::MalformedChromosome));
}

#[test]
fn fitness_refuses_an_unknown_node() {
    let model = two_vehicles();
    let mut chromosome = Chromosome { genes: vec![Depot(4), Customer(9)], score: None };
    assert_eq!(chromosome.evaluate(&model, 1000), Err(GaError::UnknownNode));
    let mut zero = Chromosome { genes: vec![Depot(0)], score: None };
    assert_eq!(zero.evaluate(&model, 1000), Err(GaError::UnknownNode));
    assert!(!chromosome.fits(&model));
    assert!(Chromosome { genes: vec![Depot(4), Customer(1)], score: None }.fits(&model));
}

#[test]
fn solution_is_scored_as_its_chromosome() {
    let model = two_vehicles();
    let mut solution = Solution::new(vec![vec![4, 1, 2, 4], vec![5, 3, 5]]);
    assert_eq!(solution.evaluate(&model, 1000), Ok(100));
    assert_eq!(solution.score, Some(100));
    let mut short = Solution::new(vec![vec![4]]);
    assert_eq!(short.evaluate(&model, 1000), Err(GaError::MalformedRoute));
    let mut none = Solution::new(vec![]);
    assert_eq!(none.evaluate(&model, 1000), Err(GaError::MalformedChromosome));
    let mut unknown = Solution::new(vec![vec![4, 8, 4]]);
    assert_eq!(unknown.evaluate(&model, 1000), Err(GaError::UnknownNode));
    assert_eq!(unknown.score, None);
}

#[test]
fn route_is_measured_without_penalty() {
    let model = two_vehicles();
    let solution = Solution::new(vec![]);
    assert_eq!(solution.evaluate_route(&vec![4, 1, 2, 3, 4], &model), (60, 60));
    assert_eq!(solution.evaluate_route(&vec![4, 2, 1, 4], &model), (30, 40));
    assert_eq!(solution.evaluate_route(&vec![5, 5], &model), (0, 0));
}
