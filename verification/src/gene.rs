use vstd::prelude::*;

verus! {

/// One slot of a chromosome: a customer to visit, or the marker of a vehicle
/// that starts from its depot. The number is the node's identifier.
#[derive(Clone, Copy, Debug, PartialEq, Eq, Hash, Structural)]
pub enum Gene {
    Customer(i32),
    Depot(i32),
}

impl Gene {
    /// Whether this gene marks a vehicle.
    pub open spec fn is_depot(self) -> bool {
        self is Depot
    }

    /// The node that this gene names.
    pub open spec fn node(self) -> int {
        match self {
            Gene::Customer(val) => val as int,
            Gene::Depot(val) => val as int,
        }
    }

    /// The identifier of the node, whichever kind of gene this is.
    pub fn value(&self) -> (val: i32)
        ensures
            val == self.node(),
    {
        match self {
            Gene::Customer(val) => *val,
            Gene::Depot(val) => *val,
        }
    }

    /// A number that stands for the gene: no two genes have the same.
    pub open spec fn key(self) -> int {
        match self {
            Gene::Customer(val) => 2 * val,
            Gene::Depot(val) => 2 * val + 1,
        }
    }

    /// The number that stands for the gene in a set of genes.
    pub fn code(&self) -> (code: i64)
        ensures
            code == self.key(),
    {
        match self {
            Gene::Customer(val) => 2 * (*val as i64),
            Gene::Depot(val) => 2 * (*val as i64) + 1,
        }
    }

    /// Tells a vehicle marker from a customer.
    pub fn marks_vehicle(&self) -> (b: bool)
        ensures
            b == self.is_depot(),
    {
        match self {
            Gene::Customer(_) => false,
            Gene::Depot(_) => true,
        }
    }
}

/// Genes with the same number are the same gene.
pub proof fn lemma_key_tells_genes_apart(one: Gene, other: Gene)
    requires
        one.key() == other.key(),
    ensures
        one == other,
{
}

} // verus!
