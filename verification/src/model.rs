use vstd::prelude::*;

verus! {

/// The distances between the nodes of one problem instance and what each
/// node asks for or can carry.
///
/// Nodes are numbered from 1. A customer's entry in `capacities` is its
/// demand; a vehicle's entry is the load that it can take. Distances are
/// whole numbers of whatever unit the caller measured them in.
pub struct Model {
    pub num_nodes: usize,
    pub distances: Vec<u32>,
    pub capacities: Vec<i32>,
}

/// Where the distance from `from` to `to` stands in a table of `num_nodes`
/// rows, stored row after row.
pub open spec fn cell(num_nodes: int, from: int, to: int) -> int {
    (from - 1) * num_nodes + (to - 1)
}

/// Whether the table gives the same distance from `a` to `b` as from `b` to
/// `a`, and the distance zero from `a` to itself.
pub open spec fn mirrored(num_nodes: int, distances: Seq<u32>, a: int, b: int) -> bool {
    &&& distances[cell(num_nodes, a, b)] == distances[cell(num_nodes, b, a)]
    &&& distances[cell(num_nodes, a, a)] == 0
}

/// Whether a square table of distances reads the same in both directions and
/// gives every node the distance zero to itself.
pub open spec fn is_symmetric(num_nodes: int, distances: Seq<u32>) -> bool {
    forall|a: int, b: int|
        1 <= a <= num_nodes && 1 <= b <= num_nodes ==> #[trigger] mirrored(
            num_nodes,
            distances,
            a,
            b,
        )
}

/// A cell of the table lies inside it.
pub proof fn lemma_cell_in_table(num_nodes: int, from: int, to: int)
    requires
        1 <= from <= num_nodes,
        1 <= to <= num_nodes,
    ensures
        0 <= (from - 1) * num_nodes <= cell(num_nodes, from, to) < num_nodes * num_nodes,
{
    assert((from - 1) * num_nodes <= (num_nodes - 1) * num_nodes) by (nonlinear_arith)
        requires
            0 <= from - 1 <= num_nodes - 1,
            0 < num_nodes,
    ;
    assert((from - 1) * num_nodes >= 0) by (nonlinear_arith)
        requires
            0 <= from - 1,
            0 < num_nodes,
    ;
    assert((num_nodes - 1) * num_nodes + num_nodes == num_nodes * num_nodes)
        by (nonlinear_arith);
}

impl Model {
    /// The tables have one row and one column for each node, and the
    /// distances are those of a symmetric measure.
    pub open spec fn wf(&self) -> bool {
        &&& self.distances@.len() == self.num_nodes * self.num_nodes
        &&& self.capacities@.len() == self.num_nodes
        &&& is_symmetric(self.num_nodes as int, self.distances@)
    }

    /// Whether `node` is one of the model's nodes.
    pub open spec fn has_node(&self, node: int) -> bool {
        1 <= node <= self.num_nodes
    }

    /// The distance from one node to another.
    pub open spec fn distance(&self, from: int, to: int) -> int {
        self.distances@[cell(self.num_nodes as int, from, to)] as int
    }

    /// The demand of a customer, or the capacity of a vehicle.
    pub open spec fn demand(&self, node: int) -> int {
        self.capacities@[node - 1] as int
    }

    /// Builds a model from its tables, or returns `None` when their sizes do
    /// not fit `num_nodes` or the distances are not symmetric with a zero
    /// diagonal.
    pub fn new(num_nodes: usize, distances: Vec<u32>, capacities: Vec<i32>) -> (model: Option<
        Model,
    >)
        ensures
            model is Some <==> {
                &&& distances@.len() == num_nodes * num_nodes
                &&& capacities@.len() == num_nodes
                &&& is_symmetric(num_nodes as int, distances@)
            },
            model is Some ==> {
                &&& model->0.wf()
                &&& model->0.num_nodes == num_nodes
                &&& model->0.distances@ == distances@
                &&& model->0.capacities@ == capacities@
            },
    {
        if capacities.len() != num_nodes {
            return None;
        }
        let given = distances.len();
        match num_nodes.checked_mul(num_nodes) {
            None => {
                return None;
            },
            Some(cells) => {
                if given != cells {
                    return None;
                }
            },
        }
        let mut a: usize = 0;
        while a < num_nodes
            invariant
                0 <= a <= num_nodes,
                distances@.len() == num_nodes * num_nodes <= usize::MAX,
                forall|x: int, y: int|
                    1 <= x <= a && 1 <= y <= num_nodes ==> #[trigger] mirrored(
                        num_nodes as int,
                        distances@,
                        x,
                        y,
                    ),
            decreases num_nodes - a,
        {
            proof {
                lemma_cell_in_table(num_nodes as int, a + 1, a + 1);
            }
            if distances[a * num_nodes + a] != 0 {
                assert(!mirrored(num_nodes as int, distances@, a + 1, a + 1));
                return None;
            }
            let mut b: usize = 0;
            while b < num_nodes
                invariant
                    0 <= a < num_nodes,
                    0 <= b <= num_nodes,
                    distances@.len() == num_nodes * num_nodes <= usize::MAX,
                    distances@[cell(num_nodes as int, a + 1, a + 1)] == 0,
                    forall|y: int|
                        1 <= y <= b ==> #[trigger] mirrored(
                            num_nodes as int,
                            distances@,
                            a + 1,
                            y,
                        ),
                decreases num_nodes - b,
            {
                proof {
                    lemma_cell_in_table(num_nodes as int, a + 1, b + 1);
                    lemma_cell_in_table(num_nodes as int, b + 1, a + 1);
                }
                let forth = distances[a * num_nodes + b];
                let back = distances[b * num_nodes + a];
                if forth != back {
                    assert(!mirrored(num_nodes as int, distances@, a + 1, b + 1));
                    return None;
                }
                b += 1;
            }
            a += 1;
        }
        Some(Model { num_nodes, distances, capacities })
    }

    /// The distance between two nodes of the model.
    pub fn get_distance(&self, from: usize, to: usize) -> (distance: u32)
        requires
            self.wf(),
            self.has_node(from as int),
            self.has_node(to as int),
        ensures
            distance == self.distance(from as int, to as int),
    {
        proof {
            assert(self.distances@.len() == self.distances.len());
            lemma_cell_in_table(self.num_nodes as int, from as int, to as int);
        }
        let index = (from - 1) * self.num_nodes + (to - 1);
        self.distances[index]
    }

    /// The demand of a customer, or the capacity of a vehicle.
    pub fn get_demand(&self, node: usize) -> (demand: i32)
        requires
            self.wf(),
            self.has_node(node as int),
        ensures
            demand == self.demand(node as int),
    {
        self.capacities[node - 1]
    }

    /// Whether the model has a node with this identifier.
    pub fn knows(&self, node: i32) -> (known: bool)
        ensures
            known == self.has_node(node as int),
    {
        node >= 1 && (node as usize) <= self.num_nodes
    }
}

} // verus!
