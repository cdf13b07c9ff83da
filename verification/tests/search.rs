use genetic::config::Config;
use genetic::error::GaError;
use genetic::gene::Gene;
use genetic::model::Model;
use genetic::problem::{Customer, Depot, Pos, Problem};
use genetic::simulation::Simulation;

fn customer(number: i32, x: i32, y: i32, demand: i32) -> Customer {
    Customer { number, pos: Pos::new(x, y), service_time: None, demand }
}

fn depot(number: i32, x: i32, y: i32, capacity: i32) -> Depot {
    Depot { capacity, number, pos: Pos::new(x, y) }
}

fn grid() -> Problem {
    let mut customers = Vec::new();
    let mut number = 0;
    for x in 0..4 {
        for y in 0..3 {
            number += 1;
            customers.push(customer(number, 10 * x, 10 * y, 5 + x + y));
        }
    }
    let depots = vec![depot(1, 5, 5, 30), depot(2, 25, 15, 30)];
    Problem::new(3, customers, depots).unwrap()
}

fn model_of(problem: &Problem) -> Model {
    let nodes = problem.customers.len() + problem.vehicles.len();
    let mut at = vec![Pos::new(0, 0); nodes];
    for customer in problem.customers.iter() {
        at[customer.number as usize - 1] = customer.pos;
    }
    for vehicle in problem.vehicles.iter() {
        at[vehicle.number as usize - 1] = vehicle.get_depot(&problem.depots).pos;
    }
    let mut distances = Vec::new();
    for a in at.iter() {
        for b in at.iter() {
            // City blocks: a whole number, the same in both directions.
            distances.push((a.x - b.x).unsigned_abs() + (a.y - b.y).unsigned_abs());
        }
    }
    Model::new(nodes, distances, problem.calculate_capacities()).unwrap()
}

fn settings() -> Config {
    Config {
        population_size: 20,
        population_gen_step: 8,
        elite_count: 3,
        single_swap_mut_rate: 300_000,
        single_swap_mut_max: 3,
        vehicle_remove_mut_rate: 300_000,
        vehicle_remove_mut_max: 3,
        crossover_rate: 800_000,
        parent_selection_k: 4,
        infeasibility_penalty: 500,
        cws_bias: 5,
    }
}

fn sorted(genes: &Vec<Gene>) -> Vec<(bool, i32)> {
    let mut keys: Vec<(bool, i32)> =
        genes.iter().map(|gene| (gene.marks_vehicle(), gene.value())).collect();
    keys.sort();
    keys
}

fn all_genes() -> Vec<(bool, i32)> {
    let mut keys: Vec<(bool, i32)> = (1..=12).map(|customer| (false, customer)).collect();
    keys.extend((13..=18).map(|vehicle| (true, vehicle)));
    keys
}

#[test]
fn first_generation_is_filled_in_steps() {
    let problem = grid();
    let model = model_of(&problem);
    let config = settings();
    let mut simulation = Simulation::new(&config);
    assert_eq!(problem.generate_population(&mut simulation, &model, &config), Ok(()));
    // Three steps of eight reach the twenty that are asked for.
    assert_eq!(simulation.population.size(), 24);
    // Two more steps reach thirty-six from there.
    let mut more = config;
    more.population_size = 36;
    more.population_gen_step = 6;
    assert_eq!(problem.generate_population(&mut simulation, &model, &more), Ok(()));
    assert_eq!(simulation.population.size(), 36);
    assert_eq!(simulation.generation, 1);
    assert!(simulation.population.is_ranked());
    assert!(simulation.population.is_uniform());
    for chromosome in simulation.population.chromosomes.iter() {
        assert_eq!(sorted(&chromosome.genes), all_genes());
        assert!(chromosome.score.is_some());
    }
}

#[test]
fn first_generation_keeps_what_is_there() {
    let problem = grid();
    let model = model_of(&problem);
    let mut config = settings();
    config.population_size = 2;
    config.population_gen_step = 1;
    let mut simulation = Simulation::new(&config);
    simulation.add_solution(vec![vec![13, 1, 13]]).unwrap();
    assert_eq!(problem.generate_population(&mut simulation, &model, &config), Ok(()));
    assert_eq!(simulation.population.size(), 2);
    assert_eq!(
        simulation.population.chromosomes[0].genes,
        vec![Gene::Depot(13), Gene::Customer(1)]
    );
    assert_eq!(sorted(&simulation.population.chromosomes[1].genes), all_genes());
    config.population_size = 0;
    assert_eq!(problem.generate_population(&mut simulation, &model, &config), Ok(()));
    assert_eq!(simulation.population.size(), 2);
}

#[test]
fn problem_without_vehicles_has_nothing_to_evaluate() {
    let problem = Problem::new(0, vec![], vec![]).unwrap();
    let model = Model::new(0, vec![], vec![]).unwrap();
    let mut config = settings();
    config.population_size = 1;
    let mut simulation = Simulation::new(&config);
    assert_eq!(
        problem.generate_population(&mut simulation, &model, &config),
        Err(GaError::MalformedChromosome)
    );
}

#[test]
fn search_never_loses_a_customer_and_never_gets_worse() {
    let problem = grid();
    let model = model_of(&problem);
    let config = settings();
    let mut simulation = Simulation::new(&config);
    problem.generate_population(&mut simulation, &model, &config).unwrap();
    let mut best = simulation.get_best_solution().unwrap().score.unwrap();
    for step in 0..40 {
        assert_eq!(simulation.run(&model, &config), Ok(()));
        assert_eq!(simulation.generation, step + 2);
        assert_eq!(simulation.population.size(), 24);
        assert!(simulation.population.is_ranked());
        for chromosome in simulation.population.chromosomes.iter() {
            assert_eq!(sorted(&chromosome.genes), all_genes());
        }
        // The elite is kept, so the best score cannot go up.
        let solution = simulation.get_best_solution().unwrap();
        let score = solution.score.unwrap();
        assert!(score <= best);
        best = score;
        assert_eq!(solution.routes.len(), 6);
        let mut visited: Vec<i32> = solution
            .routes
            .iter()
            .flat_map(|route| route[1..route.len() - 1].to_vec())
            .collect();
        visited.sort();
        assert_eq!(visited, (1..=12).collect::<Vec<i32>>());
        let shown = problem.show_routes(&solution.routes).unwrap();
        assert!(shown.iter().all(|route| route[0] == 1 || route[0] == 2));
    }
}
