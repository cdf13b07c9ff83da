use genetic::chromosome::Chromosome;
use genetic::crossover::{cross_genes, segment_set};
use genetic::error::GaError;
use genetic::gene::Gene;
use genetic::gene::Gene::{Customer, Depot};

fn chromosome(genes: Vec<Gene>) -> Chromosome {
    Chromosome { genes, score: Some(5) }
}

fn sorted(genes: &Vec<Gene>) -> Vec<(bool, i32)> {
    let mut keys: Vec<(bool, i32)> =
        genes.iter().map(|gene| (gene.marks_vehicle(), gene.value())).collect();
    keys.sort();
    keys
}

fn parent_one() -> Chromosome {
    chromosome(vec![Depot(8), Customer(1), Customer(2), Depot(9), Customer(3), Customer(4)])
}

fn parent_two() -> Chromosome {
    chromosome(vec![Customer(4), Depot(9), Customer(2), Customer(1), Depot(8), Customer(3)])
}

#[test]
fn duplicate_is_the_same_chromosome() {
    let copy = parent_one().duplicate();
    assert_eq!(copy.genes, parent_one().genes);
    assert_eq!(copy.score, Some(5));
}

#[test]
fn swap_exchanges_two_genes() {
    let mutant = parent_one().swap_genes(1, 4);
    assert_eq!(
        mutant.genes,
        vec![Depot(8), Customer(3), Customer(2), Depot(9), Customer(1), Customer(4)]
    );
    assert_eq!(mutant.score, None);
    assert_eq!(parent_one().swap_genes(2, 2).genes, parent_one().genes);
}

#[test]
fn single_swap_keeps_the_genes() {
    for _ in 0..100 {
        let mutant = parent_one().single_swap_mutation();
        assert_eq!(sorted(&mutant.genes), sorted(&parent_one().genes));
        let moved =
            mutant.genes.iter().zip(parent_one().genes.iter()).filter(|(a, b)| a != b).count();
        assert!(moved == 0 || moved == 2);
    }
}

#[test]
fn remove_vehicle_moves_the_depot_to_the_next() {
    // The depot at 0 passes its two customers and stops before the depot at 3.
    let mutant = parent_one().remove_vehicle_from(0).unwrap();
    assert_eq!(
        mutant.genes,
        vec![Customer(1), Customer(2), Depot(8), Depot(9), Customer(3), Customer(4)]
    );
    assert_eq!(mutant.score, None);
}

#[test]
fn remove_vehicle_searches_forward_and_wraps() {
    // From place 4 the next depot is the one at 0, found round the end.
    let mutant = parent_one().remove_vehicle_from(4).unwrap();
    assert_eq!(
        mutant.genes,
        vec![Customer(1), Customer(2), Depot(8), Depot(9), Customer(3), Customer(4)]
    );
    // The depot at 3 carries its customers round the end of the ring.
    let wrapped = parent_one().remove_vehicle_from(1).unwrap();
    assert_eq!(
        wrapped.genes,
        vec![Depot(8), Customer(1), Customer(2), Customer(3), Customer(4), Depot(9)]
    );
}

#[test]
fn remove_vehicle_leaves_adjacent_depots_alone() {
    let idle = chromosome(vec![Depot(8), Depot(9), Customer(1)]);
    assert_eq!(idle.remove_vehicle_from(0).unwrap().genes, idle.genes);
}

#[test]
fn remove_vehicle_needs_two_depots() {
    let lone = chromosome(vec![Customer(1), Depot(8), Customer(2)]);
    assert_eq!(lone.remove_vehicle_from(0).err(), Some(GaError::Invariant));
    assert_eq!(lone.remove_vehicle_mutation().err(), Some(GaError::Invariant));
    let none = chromosome(vec![Customer(1), Customer(2)]);
    assert_eq!(none.remove_vehicle_from(1).err(), Some(GaError::Invariant));
    let alone = chromosome(vec![Depot(8)]);
    assert_eq!(alone.remove_vehicle_from(0).unwrap().genes, vec![Depot(8)]);
}

#[test]
fn remove_vehicle_mutation_keeps_the_genes() {
    for _ in 0..100 {
        let mutant = parent_one().remove_vehicle_mutation().unwrap();
        assert_eq!(sorted(&mutant.genes), sorted(&parent_one().genes));
        let adjacent = (0..6).any(|place| {
            mutant.genes[place].marks_vehicle() && mutant.genes[(place + 1) % 6].marks_vehicle()
        });
        assert!(adjacent);
    }
}

#[test]
fn segment_holds_its_genes_only() {
    let genes = parent_one().genes;
    let segment = segment_set(&genes, 1, 4);
    assert_eq!(segment.len(), 3);
    assert!(segment.contains(&Customer(1).code()));
    assert!(segment.contains(&Customer(2).code()));
    assert!(segment.contains(&Depot(9).code()));
    assert!(!segment.contains(&Customer(9).code()));
    assert!(!segment.contains(&Depot(8).code()));
    assert!(segment_set(&genes, 2, 2).is_empty());
}

#[test]
fn genes_have_numbers_of_their_own() {
    assert_eq!(Customer(3).code(), 6);
    assert_eq!(Depot(3).code(), 7);
    assert_eq!(Customer(-1).code(), -2);
    assert_eq!(Depot(i32::MAX).code(), 2 * (i32::MAX as i64) + 1);
    assert_eq!(Customer(i32::MIN).code(), 2 * (i32::MIN as i64));
}

#[test]
fn crossover_keeps_the_segment_and_fills_in_order() {
    let (one, two) = parent_one().order_one_crossover_at(&parent_two(), 1, 3);
    // Kept: C1 C2 at 1 and 2. Filled from place 3 on with what the other
    // parent has from its place 3 on: D8 C3 C4 D9.
    assert_eq!(
        one.genes,
        vec![Depot(9), Customer(1), Customer(2), Depot(8), Customer(3), Customer(4)]
    );
    // Kept: D9 C2. Filled with what the first parent has from place 3 on:
    // C3 C4 D8 C1.
    assert_eq!(
        two.genes,
        vec![Customer(1), Depot(9), Customer(2), Customer(3), Customer(4), Depot(8)]
    );
    assert_eq!(one.score, None);
    assert_eq!(two.score, None);
}

#[test]
fn crossover_with_an_empty_segment_copies_the_other_parent() {
    let (one, two) = parent_one().order_one_crossover_at(&parent_two(), 2, 2);
    assert_eq!(one.genes, parent_two().genes);
    assert_eq!(two.genes, parent_one().genes);
}

#[test]
fn crossover_with_the_whole_as_segment_copies_the_parent() {
    let (one, two) = parent_one().order_one_crossover_at(&parent_two(), 0, 6);
    assert_eq!(one.genes, parent_one().genes);
    assert_eq!(two.genes, parent_two().genes);
}

#[test]
fn crossover_children_are_arrangements_at_every_cut() {
    for begin in 0..=6 {
        for end in begin..=6 {
            let (one, two) = parent_one().order_one_crossover_at(&parent_two(), begin, end);
            assert_eq!(sorted(&one.genes), sorted(&parent_one().genes));
            assert_eq!(sorted(&two.genes), sorted(&parent_one().genes));
            assert_eq!(&one.genes[begin..end], &parent_one().genes[begin..end]);
            assert_eq!(&two.genes[begin..end], &parent_two().genes[begin..end]);
        }
    }
}

#[test]
fn drawn_crossover_keeps_the_genes() {
    for _ in 0..100 {
        let (one, two) = parent_one().order_one_crossover(&parent_two());
        assert_eq!(sorted(&one.genes), sorted(&parent_one().genes));
        assert_eq!(sorted(&two.genes), sorted(&parent_one().genes));
    }
}

#[test]
fn crossover_of_parents_with_repeats_may_lose_a_gene() {
    let keep = vec![Customer(1), Customer(1), Customer(2)];
    let donor = vec![Customer(2), Customer(1), Customer(1)];
    let child = cross_genes(&keep, &donor, 0, 1);
    assert_eq!(child, vec![Customer(1), Customer(2), Customer(2)]);
}
