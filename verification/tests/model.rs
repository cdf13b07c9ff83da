use genetic::model::Model;

fn line_model() -> Model {
    // Nodes 1, 2, 3 lie at 10, 20, 30 on a line; node 4 at 0.
    let at = [10i32, 20, 30, 0];
    let mut distances = Vec::new();
    for a in at.iter() {
        for b in at.iter() {
            distances.push((a - b).unsigned_abs());
        }
    }
    Model::new(4, distances, vec![10, 20, 30, 100]).unwrap()
}

#[test]
fn model_reads_its_tables() {
    let model = line_model();
    assert_eq!(model.get_distance(1, 3), 20);
    assert_eq!(model.get_distance(3, 1), 20);
    assert_eq!(model.get_distance(4, 2), 20);
    assert_eq!(model.get_distance(2, 2), 0);
    assert_eq!(model.get_demand(3), 30);
    assert_eq!(model.get_demand(4), 100);
}

#[test]
fn model_knows_its_nodes_only() {
    let model = line_model();
    assert!(model.knows(1));
    assert!(model.knows(4));
    assert!(!model.knows(0));
    assert!(!model.knows(5));
    assert!(!model.knows(-3));
}

#[test]
fn model_refuses_tables_of_the_wrong_size() {
    assert!(Model::new(2, vec![0, 1, 1], vec![1, 2]).is_none());
    assert!(Model::new(2, vec![0, 1, 1, 0], vec![1]).is_none());
    assert!(Model::new(0, vec![], vec![]).is_some());
}

#[test]
fn model_refuses_distances_that_are_not_symmetric() {
    assert!(Model::new(2, vec![0, 1, 2, 0], vec![1, 2]).is_none());
    assert!(Model::new(2, vec![0, 1, 1, 3], vec![1, 2]).is_none());
    assert!(Model::new(2, vec![0, 7, 7, 0], vec![1, 2]).is_some());
}
