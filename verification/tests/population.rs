use genetic::chromosome::Chromosome;
use genetic::config::{Config, RATE_SCALE};
use genetic::error::GaError;
use genetic::gene::Gene;
use genetic::gene::Gene::{Customer, Depot};
use genetic::model::Model;
use genetic::population::{
    chance, comes_true, draw_times, mutate_swaps, mutate_vehicles, Population,
};
use genetic::simulation::Simulation;

fn line_model(demands: Vec<i32>, at: Vec<i32>) -> Model {
    let mut distances = Vec::new();
    for a in at.iter() {
        for b in at.iter() {
            distances.push((a - b).unsigned_abs());
        }
    }
    Model::new(at.len(), distances, demands).unwrap()
}

fn two_vehicles() -> Model {
    line_model(vec![10, 20, 30, 35, 35], vec![10, 20, 30, 0, 0])
}

fn sorted(genes: &Vec<Gene>) -> Vec<(bool, i32)> {
    let mut keys: Vec<(bool, i32)> =
        genes.iter().map(|gene| (gene.marks_vehicle(), gene.value())).collect();
    keys.sort();
    keys
}

fn arrangements() -> Vec<Vec<Gene>> {
    vec![
        vec![Depot(4), Customer(1), Customer(2), Customer(3), Depot(5)],
        vec![Depot(4), Customer(1), Customer(2), Depot(5), Customer(3)],
        vec![Depot(4), Customer(2), Customer(1), Customer(3), Depot(5)],
        vec![Depot(4), Customer(3), Depot(5), Customer(1), Customer(2)],
        vec![Depot(4), Customer(1), Customer(2), Depot(5), Customer(3)],
    ]
}

fn population() -> Population {
    Population {
        chromosomes: arrangements()
            .into_iter()
            .map(|genes| Chromosome { genes, score: None })
            .collect(),
        scores: vec![],
    }
}

fn settings() -> Config {
    Config {
        population_size: 5,
        population_gen_step: 5,
        elite_count: 2,
        single_swap_mut_rate: 500_000,
        single_swap_mut_max: 3,
        vehicle_remove_mut_rate: 500_000,
        vehicle_remove_mut_max: 3,
        crossover_rate: 700_000,
        parent_selection_k: 3,
        infeasibility_penalty: 1000,
        cws_bias: 10,
    }
}

#[test]
fn default_settings_are_valid() {
    let config = Config::default();
    assert!(config.is_valid());
    assert_eq!(config.population_size, 50);
    assert_eq!(config.elite_count, 2);
    assert_eq!(config.crossover_rate, RATE_SCALE);
    assert_eq!(config.infeasibility_penalty, 1000);
    assert_eq!(config.cws_bias, 10);
    let mut broken = config;
    broken.parent_selection_k = 0;
    assert!(!broken.is_valid());
}

#[test]
fn new_population_is_empty() {
    let population = Population::new(&settings());
    assert_eq!(population.size(), 0);
    assert!(population.scores.is_empty());
    assert!(population.is_uniform());
}

#[test]
fn evaluation_ranks_by_score_and_then_by_place() {
    let mut population = population();
    assert_eq!(population.evaluate(&two_vehicles(), 1000), Ok(()));
    let scores: Vec<Option<u128>> =
        population.chromosomes.iter().map(|chromosome| chromosome.score).collect();
    assert_eq!(scores, vec![Some(1060), Some(100), Some(1080), Some(100), Some(100)]);
    assert_eq!(population.scores, vec![(1, 100), (3, 100), (4, 100), (0, 1060), (2, 1080)]);
}

#[test]
fn evaluation_stops_at_the_first_chromosome_it_cannot_read() {
    let mut population = population();
    population.chromosomes[2].genes = vec![Customer(1)];
    population.chromosomes[3].genes = vec![Depot(4), Customer(77)];
    population.scores = vec![(0, 5)];
    assert_eq!(population.evaluate(&two_vehicles(), 1000), Err(GaError::MalformedChromosome));
    assert_eq!(population.scores, vec![(0, 5)]);
    population.chromosomes[2].genes = vec![Depot(4)];
    assert_eq!(population.evaluate(&two_vehicles(), 1000), Err(GaError::UnknownNode));
}

#[test]
fn ranking_is_tested() {
    let mut population = population();
    assert!(!population.is_ranked());
    population.evaluate(&two_vehicles(), 1000).unwrap();
    assert!(population.is_ranked());
    population.scores.swap(0, 1);
    assert!(!population.is_ranked());
    population.scores.swap(0, 1);
    population.scores[4] = (0, 1060);
    assert!(!population.is_ranked());
    population.scores[4] = (2, 1081);
    assert!(!population.is_ranked());
    population.scores[4] = (2, 1080);
    assert!(population.is_ranked());
    population.scores.pop();
    assert!(!population.is_ranked());
    assert!(Population::new(&settings()).is_ranked());
}

#[test]
fn uniform_population_has_one_length() {
    let mut population = population();
    assert!(population.is_uniform());
    population.chromosomes[4].genes.pop();
    assert!(!population.is_uniform());
    population.chromosomes[4].genes = vec![];
    assert!(!population.is_uniform());
}

#[test]
fn tournament_is_won_by_the_first_of_the_best() {
    let mut population = population();
    population.evaluate(&two_vehicles(), 1000).unwrap();
    assert_eq!(population.tournament(&vec![0, 2]), 0);
    assert_eq!(population.tournament(&vec![2, 0]), 0);
    assert_eq!(population.tournament(&vec![2, 4, 3, 1]), 4);
    assert_eq!(population.tournament(&vec![2, 2]), 2);
}

#[test]
fn tournament_of_one_is_won_by_the_one() {
    let mut population = population();
    population.evaluate(&two_vehicles(), 1000).unwrap();
    for place in 0..5 {
        assert_eq!(population.tournament(&vec![place]), place);
    }
}

#[test]
fn chromosome_without_score_loses() {
    let mut population = population();
    population.chromosomes[0].score = None;
    population.chromosomes[1].score = Some(9000);
    assert_eq!(population.tournament(&vec![0, 1]), 1);
    assert_eq!(population.tournament(&vec![0, 0]), 0);
}

#[test]
fn selection_with_one_candidate_reaches_every_chromosome() {
    let mut population = population();
    population.evaluate(&two_vehicles(), 1000).unwrap();
    let mut config = settings();
    config.parent_selection_k = 1;
    let mut seen_worst = false;
    for _ in 0..500 {
        let parent = population.parent_selection(&config);
        if parent.score == Some(1080) {
            seen_worst = true;
        }
    }
    assert!(seen_worst);
}

#[test]
fn selection_with_many_candidates_finds_the_best() {
    let mut population = population();
    population.evaluate(&two_vehicles(), 1000).unwrap();
    let mut config = settings();
    config.parent_selection_k = 200;
    for _ in 0..20 {
        assert_eq!(population.parent_selection(&config).score, Some(100));
    }
}

#[test]
fn chance_comes_true_below_the_rate() {
    assert!(comes_true(50_000, 49_999));
    assert!(!comes_true(50_000, 50_000));
    assert!(!comes_true(0, 0));
    assert!(comes_true(RATE_SCALE, 999_999));
}

#[test]
fn chance_is_sure_at_the_ends() {
    for _ in 0..200 {
        assert!(!chance(0));
        assert!(chance(RATE_SCALE));
        assert!(chance(u32::MAX));
    }
}

#[test]
fn times_stay_below_the_most() {
    for _ in 0..200 {
        assert_eq!(draw_times(0), 0);
        assert_eq!(draw_times(1), 0);
        assert!(draw_times(4) < 4);
    }
}

#[test]
fn mutations_keep_the_genes() {
    let mut config = settings();
    config.single_swap_mut_rate = RATE_SCALE;
    config.vehicle_remove_mut_rate = RATE_SCALE;
    config.single_swap_mut_max = 5;
    config.vehicle_remove_mut_max = 5;
    for genes in arrangements() {
        for _ in 0..20 {
            let child = Chromosome { genes: genes.clone(), score: None };
            let removed = mutate_vehicles(child, &config).unwrap();
            assert_eq!(sorted(&removed.genes), sorted(&genes));
            let swapped = mutate_swaps(removed, &config);
            assert_eq!(sorted(&swapped.genes), sorted(&genes));
        }
    }
}

#[test]
fn child_that_is_not_mutated_keeps_its_score() {
    let genes = arrangements()[1].clone();
    let mut off = settings();
    off.single_swap_mut_rate = 0;
    off.vehicle_remove_mut_rate = 0;
    off.single_swap_mut_max = 9;
    off.vehicle_remove_mut_max = 9;
    let mut once = settings();
    once.single_swap_mut_rate = RATE_SCALE;
    once.vehicle_remove_mut_rate = RATE_SCALE;
    once.single_swap_mut_max = 1;
    once.vehicle_remove_mut_max = 1;
    for config in [off, once] {
        for _ in 0..50 {
            let child = Chromosome { genes: genes.clone(), score: Some(77) };
            let kept = mutate_vehicles(child, &config).unwrap();
            assert_eq!(kept.genes, genes);
            assert_eq!(kept.score, Some(77));
            let kept = mutate_swaps(kept, &config);
            assert_eq!(kept.genes, genes);
            assert_eq!(kept.score, Some(77));
        }
    }
}

#[test]
fn child_that_is_mutated_loses_its_score() {
    let genes = arrangements()[1].clone();
    let mut config = settings();
    config.single_swap_mut_rate = RATE_SCALE;
    config.vehicle_remove_mut_rate = RATE_SCALE;
    config.single_swap_mut_max = 4;
    config.vehicle_remove_mut_max = 4;
    let mut removed = false;
    let mut swapped = false;
    for _ in 0..200 {
        let child = Chromosome { genes: genes.clone(), score: Some(77) };
        let mutant = mutate_vehicles(child, &config).unwrap();
        if mutant.genes != genes {
            removed = true;
            assert_eq!(mutant.score, None);
            // The vehicle that gave up its customers stands before the other.
            assert!((0..5).any(|place| {
                mutant.genes[place].marks_vehicle()
                    && mutant.genes[(place + 1) % 5].marks_vehicle()
            }));
        } else {
            assert!(mutant.score == Some(77) || mutant.score.is_none());
        }
        let child = Chromosome { genes: genes.clone(), score: Some(77) };
        let mutant = mutate_swaps(child, &config);
        if mutant.genes != genes {
            swapped = true;
            assert_eq!(mutant.score, None);
        }
    }
    assert!(removed);
    assert!(swapped);
}

#[test]
fn vehicle_mutation_fails_only_where_it_is_drawn() {
    let lone = vec![Depot(4), Customer(1), Customer(2)];
    let mut never = settings();
    never.vehicle_remove_mut_max = 1;
    never.vehicle_remove_mut_rate = RATE_SCALE;
    for _ in 0..50 {
        let child = Chromosome { genes: lone.clone(), score: None };
        assert_eq!(mutate_vehicles(child, &never).unwrap().genes, lone);
    }
    let mut off = settings();
    off.vehicle_remove_mut_rate = 0;
    for _ in 0..50 {
        let child = Chromosome { genes: lone.clone(), score: None };
        assert_eq!(mutate_vehicles(child, &off).unwrap().genes, lone);
    }
    let mut always = settings();
    always.vehicle_remove_mut_rate = RATE_SCALE;
    always.vehicle_remove_mut_max = 50;
    let mut failed = false;
    for _ in 0..50 {
        let child = Chromosome { genes: lone.clone(), score: None };
        if mutate_vehicles(child, &always).err() == Some(GaError::Invariant) {
            failed = true;
        }
    }
    assert!(failed);
}

#[test]
fn offspring_are_arrangements() {
    let mut population = population();
    population.evaluate(&two_vehicles(), 1000).unwrap();
    for _ in 0..100 {
        let (one, two) = population.offspring(&settings()).unwrap();
        assert_eq!(sorted(&one.genes), sorted(&arrangements()[0]));
        assert_eq!(sorted(&two.genes), sorted(&arrangements()[0]));
    }
}

#[test]
fn next_generation_keeps_the_elite_and_the_size() {
    let mut population = population();
    population.evaluate(&two_vehicles(), 1000).unwrap();
    for _ in 0..50 {
        let next = population.evolve(&settings()).unwrap();
        assert_eq!(next.size(), 5);
        assert!(next.scores.is_empty());
        assert_eq!(next.chromosomes[0].genes, arrangements()[1]);
        assert_eq!(next.chromosomes[0].score, Some(100));
        assert_eq!(next.chromosomes[1].genes, arrangements()[3]);
        assert_eq!(next.chromosomes[1].score, Some(100));
        for chromosome in next.chromosomes.iter() {
            assert_eq!(sorted(&chromosome.genes), sorted(&arrangements()[0]));
        }
    }
}

#[test]
fn all_elite_leaves_the_population_as_it_is() {
    let mut population = population();
    population.evaluate(&two_vehicles(), 1000).unwrap();
    let mut config = settings();
    config.elite_count = 5;
    let next = population.evolve(&config).unwrap();
    assert_eq!(next.size(), 5);
    for (place, entry) in population.scores.iter().enumerate() {
        assert_eq!(next.chromosomes[place].genes, population.chromosomes[entry.0].genes);
        assert_eq!(next.chromosomes[place].score, Some(entry.1));
    }
    let mut before: Vec<Vec<Gene>> =
        population.chromosomes.iter().map(|chromosome| chromosome.genes.clone()).collect();
    let mut after: Vec<Vec<Gene>> =
        next.chromosomes.iter().map(|chromosome| chromosome.genes.clone()).collect();
    let key = |genes: &Vec<Gene>| -> Vec<(bool, i32)> {
        genes.iter().map(|gene| (gene.marks_vehicle(), gene.value())).collect()
    };
    before.sort_by_key(key);
    after.sort_by_key(key);
    assert_eq!(before, after);
}

#[test]
fn no_elite_breeds_a_whole_generation() {
    let mut population = population();
    population.evaluate(&two_vehicles(), 1000).unwrap();
    let mut config = settings();
    config.elite_count = 0;
    let next = population.evolve(&config).unwrap();
    assert_eq!(next.size(), 5);
}

#[test]
fn simulation_steps_one_generation() {
    let model = two_vehicles();
    let config = settings();
    let mut simulation = Simulation::new(&config);
    assert_eq!(simulation.generation, 1);
    assert_eq!(simulation.get_best_solution().err(), Some(GaError::Invariant));
    simulation.population = population();
    assert_eq!(simulation.evaluate(&model, &config), Ok(()));
    let best = simulation.get_best_solution().unwrap();
    assert_eq!(best.score, Some(100));
    assert_eq!(best.routes, vec![vec![4, 1, 2, 4], vec![5, 3, 5]]);
    for step in 0..30 {
        assert_eq!(simulation.run(&model, &config), Ok(()));
        assert_eq!(simulation.generation, step + 2);
        assert_eq!(simulation.population.size(), 5);
        assert_eq!(simulation.population.scores.len(), 5);
        assert_eq!(simulation.get_best_solution().unwrap().score, Some(100));
    }
}

#[test]
fn simulation_takes_solutions() {
    let config = settings();
    let mut simulation = Simulation::new(&config);
    assert_eq!(simulation.add_solution(vec![vec![4, 1, 4], vec![5, 5]]), Ok(()));
    assert_eq!(simulation.population.size(), 1);
    assert_eq!(
        simulation.population.chromosomes[0].genes,
        vec![Depot(4), Customer(1), Depot(5)]
    );
    assert_eq!(simulation.add_solution(vec![vec![4]]), Err(GaError::MalformedRoute));
    assert_eq!(simulation.population.size(), 1);
}

#[test]
fn failed_step_leaves_the_run_as_it_was() {
    let model = line_model(vec![10, 20, 35], vec![10, 20, 0]);
    let mut config = settings();
    config.vehicle_remove_mut_rate = RATE_SCALE;
    config.vehicle_remove_mut_max = 50;
    config.elite_count = 0;
    let mut simulation = Simulation::new(&config);
    simulation.add_solution(vec![vec![3, 1, 2, 3]]).unwrap();
    simulation.add_solution(vec![vec![3, 2, 1, 3]]).unwrap();
    simulation.evaluate(&model, &config).unwrap();
    let mut failed = false;
    for _ in 0..50 {
        let before = simulation.generation;
        match simulation.run(&model, &config) {
            Ok(()) => assert_eq!(simulation.generation, before + 1),
            Err(error) => {
                assert_eq!(error, GaError::Invariant);
                assert_eq!(simulation.generation, before);
                assert_eq!(simulation.population.scores.len(), 2);
                failed = true;
            }
        }
    }
    assert!(failed);
}

#[test]
fn without_crossover_and_mutation_children_are_copies() {
    let mut population = population();
    population.evaluate(&two_vehicles(), 1000).unwrap();
    let mut config = settings();
    config.crossover_rate = 0;
    config.single_swap_mut_rate = 0;
    config.vehicle_remove_mut_rate = 0;
    config.elite_count = 1;
    for _ in 0..30 {
        let next = population.evolve(&config).unwrap();
        for chromosome in next.chromosomes.iter() {
            assert!(arrangements().contains(&chromosome.genes));
        }
        let (one, two) = population.offspring(&config).unwrap();
        assert!(arrangements().contains(&one.genes));
        assert!(arrangements().contains(&two.genes));
    }
}

#[test]
fn all_elite_needs_neither_one_length_nor_a_tournament() {
    let mut population = population();
    population.chromosomes[4].genes = vec![Depot(4), Customer(1)];
    population.evaluate(&two_vehicles(), 1000).unwrap();
    assert!(!population.is_uniform());
    let mut config = settings();
    config.elite_count = 5;
    config.parent_selection_k = 0;
    let next = population.evolve(&config).unwrap();
    assert_eq!(next.size(), 5);
    for (place, entry) in population.scores.iter().enumerate() {
        assert_eq!(next.chromosomes[place].genes, population.chromosomes[entry.0].genes);
    }
    let mut simulation = Simulation::new(&config);
    simulation.population = population;
    assert_eq!(simulation.run(&two_vehicles(), &config), Ok(()));
    assert_eq!(simulation.generation, 2);
    assert_eq!(simulation.population.size(), 5);
}

#[test]
fn step_carries_the_elite_over() {
    let model = two_vehicles();
    let config = settings();
    let mut simulation = Simulation::new(&config);
    simulation.population = population();
    simulation.evaluate(&model, &config).unwrap();
    for _ in 0..20 {
        let ranking = simulation.population.scores.clone();
        let elite: Vec<Vec<Gene>> = ranking[0..2]
            .iter()
            .map(|entry| simulation.population.chromosomes[entry.0].genes.clone())
            .collect();
        assert_eq!(simulation.run(&model, &config), Ok(()));
        assert_eq!(simulation.population.chromosomes[0].genes, elite[0]);
        assert_eq!(simulation.population.chromosomes[1].genes, elite[1]);
        assert!(simulation.population.scores[0].1 <= ranking[0].1);
    }
}
