use genetic::gene::Gene;

#[test]
fn simulation_test_gene_eq() {
    let gene_one = Gene::Depot(1);
    let gene_two = Gene::Depot(1);
    let gene_three = Gene::Customer(1);

    assert_eq!(gene_one, gene_two);
    assert_ne!(gene_one, gene_three);
}
