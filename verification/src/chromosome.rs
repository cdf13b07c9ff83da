use crate::error::GaError;
use crate::gene::Gene;
use crate::random::random_in_range;
use vstd::prelude::*;

verus! {

/// A candidate solution: the customers in the order in which they are
/// visited, with a depot gene in front of the customers of each vehicle. The
/// sequence is read as a ring, so the customers after the last depot gene
/// and those before the first belong to one vehicle.
#[derive(Clone, Debug)]
pub struct Chromosome {
    pub genes: Vec<Gene>,
    pub score: Option<u128>,
}

/// The place after `index` on a ring of `len` places.
pub open spec fn next_index(index: int, len: int) -> int {
    if index + 1 >= len {
        0
    } else {
        index + 1
    }
}

/// The place `steps` after `index` on a ring of `len` places, for at most
/// `len` steps.
pub open spec fn ahead(index: int, steps: int, len: int) -> int {
    if index + steps >= len {
        index + steps - len
    } else {
        index + steps
    }
}

/// How many steps lead from `from` forward to `index` on a ring of `len`
/// places.
pub open spec fn behind(index: int, from: int, len: int) -> int {
    if index >= from {
        index - from
    } else {
        index - from + len
    }
}

/// Whether some gene of the sequence is a depot gene.
pub open spec fn has_depot(genes: Seq<Gene>) -> bool {
    exists|k: int| 0 <= k < genes.len() && (#[trigger] genes[k]).is_depot()
}

/// Whether the first depot gene of the sequence stands at `index`.
pub open spec fn first_depot_at(genes: Seq<Gene>, index: int) -> bool {
    &&& 0 <= index < genes.len()
    &&& genes[index].is_depot()
    &&& forall|k: int| 0 <= k < index ==> !(#[trigger] genes[k]).is_depot()
}

/// The sequence with the genes at `i` and `j` exchanged.
pub open spec fn swapped(genes: Seq<Gene>, i: int, j: int) -> Seq<Gene> {
    genes.update(i, genes[j]).update(j, genes[i])
}

/// The sequence after the exchanges of a list, one after the other: each
/// entry names the two places whose genes are exchanged.
pub open spec fn swapped_in_turn(genes: Seq<Gene>, swaps: Seq<(int, int)>) -> Seq<Gene>
    decreases swaps.len(),
{
    if swaps.len() == 0 {
        genes
    } else {
        swapped(swapped_in_turn(genes, swaps.drop_last()), swaps.last().0, swaps.last().1)
    }
}

/// Whether each exchange of the list names two places of a sequence of
/// `len` genes.
pub open spec fn swaps_in_range(swaps: Seq<(int, int)>, len: int) -> bool {
    forall|k: int|
        0 <= k < swaps.len() ==> 0 <= (#[trigger] swaps[k]).0 < len && 0 <= swaps[k].1 < len
}

/// Exchanging two genes changes their order only: each gene is there as
/// often as before.
pub proof fn lemma_swap_keeps_genes(genes: Seq<Gene>, i: int, j: int)
    requires
        0 <= i < genes.len(),
        0 <= j < genes.len(),
    ensures
        swapped(genes, i, j).to_multiset() == genes.to_multiset(),
{
    broadcast use vstd::seq_lib::group_to_multiset_ensures;

    vstd::seq_lib::to_multiset_update(genes, i, genes[j]);
    vstd::seq_lib::to_multiset_update(genes.update(i, genes[j]), j, genes[i]);
    assert(genes.to_multiset().count(genes[i]) > 0) by {
        assert(genes.contains(genes[i]));
    }
    assert(genes.to_multiset().count(genes[j]) > 0) by {
        assert(genes.contains(genes[j]));
    }
    assert(swapped(genes, i, j).to_multiset() =~= genes.to_multiset());
}

/// How many genes stand between `from` and the next depot gene, going
/// forward round the ring and looking at `limit` genes at most: `limit`
/// when none of them is a depot gene.
pub open spec fn steps_to_depot(genes: Seq<Gene>, from: int, limit: nat) -> nat
    decreases limit,
{
    if limit == 0 || genes[from].is_depot() {
        0
    } else {
        1 + steps_to_depot(genes, next_index(from, genes.len() as int), (limit - 1) as nat)
    }
}

/// The genes that `steps_to_depot` passes are customers, and where it stops
/// short of its limit it stops at a depot gene.
pub proof fn lemma_steps_to_depot(genes: Seq<Gene>, from: int, limit: nat)
    requires
        0 <= from < genes.len(),
        limit <= genes.len(),
    ensures
        steps_to_depot(genes, from, limit) <= limit,
        forall|t: int|
            0 <= t < steps_to_depot(genes, from, limit) ==> !(#[trigger] genes[ahead(
                from,
                t,
                genes.len() as int,
            )]).is_depot(),
        steps_to_depot(genes, from, limit) < limit ==> genes[ahead(
            from,
            steps_to_depot(genes, from, limit) as int,
            genes.len() as int,
        )].is_depot(),
    decreases limit,
{
    let len = genes.len() as int;
    if limit == 0 || genes[from].is_depot() {
    } else {
        let next = next_index(from, len);
        lemma_steps_to_depot(genes, next, (limit - 1) as nat);
        let rest = steps_to_depot(genes, next, (limit - 1) as nat);
        assert forall|t: int| 0 <= t < rest + 1 implies !(#[trigger] genes[ahead(
            from,
            t,
            len,
        )]).is_depot() by {
            if t > 0 {
                assert(ahead(from, t, len) == ahead(next, t - 1, len));
            }
        }
        assert(ahead(from, (rest + 1) as int, len) == ahead(next, rest as int, len));
    }
}

/// A sequence with a depot gene has a first depot gene.
pub proof fn lemma_first_depot_exists(genes: Seq<Gene>)
    requires
        has_depot(genes),
    ensures
        exists|start: int| first_depot_at(genes, start),
{
    let len = genes.len();
    let scan = steps_to_depot(genes, 0, len);
    lemma_steps_to_depot(genes, 0, len);
    assert forall|k: int| 0 <= k < scan implies !(#[trigger] genes[k]).is_depot() by {
        assert(k == ahead(0, k, len as int));
    }
    if scan < len {
        assert(scan as int == ahead(0, scan as int, len as int));
        assert(first_depot_at(genes, scan as int));
    } else {
        let d = choose|d: int| 0 <= d < genes.len() && (#[trigger] genes[d]).is_depot();
        assert(false);
    }
}

/// The sequence in which the depot gene at `place` has moved `gap` places
/// forward round the ring, and each gene that it passed one place back.
pub open spec fn bubbled(genes: Seq<Gene>, place: int, gap: int) -> Seq<Gene> {
    Seq::new(
        genes.len(),
        |m: int|
            {
                let offset = behind(m, place, genes.len() as int);
                if offset < gap {
                    genes[next_index(m, genes.len() as int)]
                } else if offset == gap {
                    genes[place]
                } else {
                    genes[m]
                }
            },
    )
}

/// What removing a vehicle makes of a sequence when the search for the
/// vehicle starts at `start`.
///
/// The first depot gene at or after `start` is moved forward, past the
/// customers that follow it, until the next gene is a depot gene too: its
/// customers then belong to the vehicle before it, and it has none left.
/// There is no result where the sequence has no depot gene, or has just one
/// among other genes, which would go round for ever.
pub open spec fn vehicle_removed(genes: Seq<Gene>, start: int) -> Option<Seq<Gene>> {
    let len = genes.len() as int;
    let scan = steps_to_depot(genes, start, genes.len());
    if scan >= len {
        None
    } else {
        let place = ahead(start, scan as int, len);
        let gap = steps_to_depot(genes, next_index(place, len), (len - 1) as nat);
        if gap == len - 1 && len > 1 {
            None
        } else {
            Some(bubbled(genes, place, gap as int))
        }
    }
}

/// What removing vehicles makes of a sequence, one removal after the other:
/// each entry of `starts` is the place from which the search for the
/// vehicle of one removal starts, see [`vehicle_removed`]. There is no
/// result where one of the removals has none, or starts at no place of the
/// sequence.
pub open spec fn removed_in_turn(genes: Seq<Gene>, starts: Seq<int>) -> Option<Seq<Gene>>
    decreases starts.len(),
{
    if starts.len() == 0 {
        Some(genes)
    } else {
        match removed_in_turn(genes, starts.drop_last()) {
            Some(before) => if 0 <= starts.last() < before.len() {
                vehicle_removed(before, starts.last())
            } else {
                None
            },
            None => None,
        }
    }
}

/// Whether a vehicle can be removed from the sequence: it has two depot
/// genes, or it is one depot gene alone, which has no customers to give up.
pub open spec fn removable(genes: Seq<Gene>) -> bool {
    ||| exists|a: int, b: int|
        0 <= a < genes.len() && 0 <= b < genes.len() && a != b && (#[trigger] genes[a]).is_depot()
            && (#[trigger] genes[b]).is_depot()
    ||| genes.len() == 1 && genes[0].is_depot()
}

/// Removing a vehicle has a result exactly where a vehicle can be removed,
/// wherever the search starts.
pub proof fn lemma_vehicle_removed_when(genes: Seq<Gene>, start: int)
    requires
        0 <= start < genes.len(),
    ensures
        vehicle_removed(genes, start) is Some <==> removable(genes),
        vehicle_removed(genes, start) is Some ==> removable(vehicle_removed(genes, start)->0),
{
    let len = genes.len() as int;
    let scan = steps_to_depot(genes, start, genes.len());
    lemma_steps_to_depot(genes, start, genes.len());
    if scan >= len {
        assert forall|k: int| 0 <= k < len implies !(#[trigger] genes[k]).is_depot() by {
            assert(k == ahead(start, behind(k, start, len), len));
        }
    } else {
        let place = ahead(start, scan as int, len);
        let after = next_index(place, len);
        let gap = steps_to_depot(genes, after, (len - 1) as nat);
        lemma_steps_to_depot(genes, after, (len - 1) as nat);
        if len > 1 {
            if gap == len - 1 {
                assert forall|k: int| 0 <= k < len && k != place implies !(
                #[trigger] genes[k]).is_depot() by {
                    assert(k == ahead(after, behind(k, after, len), len));
                }
            } else {
                let other = ahead(after, gap as int, len);
                assert(genes[other].is_depot());
                assert(other != place);
                assert(genes[place].is_depot());
                let moved = bubbled(genes, place, gap as int);
                let landed = ahead(place, gap as int, len);
                assert(moved[landed] == genes[place]);
                assert(moved[other] == genes[other]);
                assert(landed != other);
            }
        } else {
            assert(bubbled(genes, place, gap as int)[0] == genes[0]);
        }
    }
}

/// A copy of a sequence of genes.
pub fn copy_genes(genes: &Vec<Gene>) -> (copy: Vec<Gene>)
    ensures
        copy@ == genes@,
{
    let mut copy: Vec<Gene> = Vec::with_capacity(genes.len());
    let mut k: usize = 0;
    while k < genes.len()
        invariant
            0 <= k <= genes@.len(),
            copy@ == genes@.take(k as int),
        decreases genes@.len() - k,
    {
        copy.push(genes[k]);
        assert(genes@.take(k + 1) =~= genes@.take(k as int).push(genes@[k as int]));
        k += 1;
    }
    assert(genes@.take(genes@.len() as int) =~= genes@);
    copy
}

impl Chromosome {
    /// A copy of the chromosome, with its score.
    pub fn duplicate(&self) -> (copy: Chromosome)
        ensures
            copy.genes@ == self.genes@,
            copy.score == self.score,
    {
        Chromosome { genes: copy_genes(&self.genes), score: self.score }
    }

    /// Where the first depot gene stands, or `None` when there is none. The
    /// tour of a chromosome is read from this place on.
    pub fn get_first_depot_index(&self) -> (index: Option<usize>)
        ensures
            match index {
                Some(found) => first_depot_at(self.genes@, found as int),
                None => !has_depot(self.genes@),
            },
    {
        let total_genes = self.genes.len();
        let mut i: usize = 0;
        while i < total_genes
            invariant
                0 <= i <= total_genes,
                total_genes == self.genes@.len(),
                forall|k: int| 0 <= k < i ==> !(#[trigger] self.genes@[k]).is_depot(),
            decreases total_genes - i,
        {
            if self.genes[i].marks_vehicle() {
                return Some(i);
            }
            i += 1;
        }
        None
    }

    /// The chromosome with the genes at the two places exchanged. It has no
    /// score: that of `self` is not the score of another order.
    pub fn swap_genes(&self, index_one: usize, index_two: usize) -> (mutant: Chromosome)
        requires
            index_one < self.genes@.len(),
            index_two < self.genes@.len(),
        ensures
            mutant.genes@ == swapped(self.genes@, index_one as int, index_two as int),
            mutant.genes@.to_multiset() == self.genes@.to_multiset(),
            mutant.score is None,
    {
        let mut genes = copy_genes(&self.genes);
        let gene_one = self.genes[index_one];
        let gene_two = self.genes[index_two];
        genes.set(index_one, gene_two);
        genes.set(index_two, gene_one);
        proof {
            lemma_swap_keeps_genes(self.genes@, index_one as int, index_two as int);
        }
        Chromosome { genes, score: None }
    }

    /// Exchanges the genes at two places, each drawn from all the places
    /// independently of the other.
    pub fn single_swap_mutation(&self) -> (mutant: Chromosome)
        requires
            self.genes@.len() > 0,
        ensures
            exists|i: int, j: int|
                0 <= i < self.genes@.len() && 0 <= j < self.genes@.len() && mutant.genes@
                    == #[trigger] swapped(self.genes@, i, j),
            mutant.genes@.to_multiset() == self.genes@.to_multiset(),
            mutant.score is None,
    {
        let chromosome_length = self.genes.len();
        let index_one = random_in_range(0, chromosome_length);
        let index_two = random_in_range(0, chromosome_length);
        self.swap_genes(index_one, index_two)
    }

    /// Removes a vehicle, searching for it from `start` on: see
    /// [`vehicle_removed`]. The error is `GaError::Invariant`.
    pub fn remove_vehicle_from(&self, start: usize) -> (outcome: Result<Chromosome, GaError>)
        requires
            start < self.genes@.len(),
        ensures
            match vehicle_removed(self.genes@, start as int) {
                Some(genes) => outcome is Ok && outcome->Ok_0.genes@ == genes
                    && outcome->Ok_0.score is None && genes.to_multiset()
                    == self.genes@.to_multiset(),
                None => outcome == Err::<Chromosome, GaError>(GaError::Invariant),
            },
            outcome is Ok <==> removable(self.genes@),
            outcome is Ok ==> removable(outcome->Ok_0.genes@),
    {
        proof {
            lemma_vehicle_removed_when(self.genes@, start as int);
        }
        let gene_length = self.genes.len();
        let ghost genes = self.genes@;
        let ghost len = gene_length as int;
        // Find the first vehicle from the start on.
        let mut index = start;
        let mut scanned: usize = 0;
        while scanned < gene_length && !self.genes[index].marks_vehicle()
            invariant
                genes == self.genes@,
                len == genes.len(),
                gene_length == len,
                0 <= start < len,
                0 <= scanned <= gene_length,
                0 <= index < len,
                index as int == ahead(start as int, scanned as int, len) || (scanned == len
                    && index == start),
                steps_to_depot(genes, start as int, genes.len()) == scanned + steps_to_depot(
                    genes,
                    index as int,
                    (len - scanned) as nat,
                ),
            decreases gene_length - scanned,
        {
            index = if index + 1 >= gene_length {
                0
            } else {
                index + 1
            };
            scanned += 1;
        }
        if scanned >= gene_length {
            return Err(GaError::Invariant);
        }
        let place = index;
        let mut child = copy_genes(&self.genes);
        let mut moved: usize = 0;
        let mut vehicle = place;
        loop
            invariant
                genes == self.genes@,
                len == genes.len(),
                gene_length == len,
                0 <= place < len,
                0 <= start < len,
                genes[place as int].is_depot(),
                vehicle_removed(genes, start as int) == (if steps_to_depot(
                    genes,
                    next_index(place as int, len),
                    (len - 1) as nat,
                ) == len - 1 && len > 1 {
                    None
                } else {
                    Some(
                        bubbled(
                            genes,
                            place as int,
                            steps_to_depot(
                                genes,
                                next_index(place as int, len),
                                (len - 1) as nat,
                            ) as int,
                        ),
                    )
                }),
                0 <= moved < len,
                vehicle as int == ahead(place as int, moved as int, len),
                child@ == bubbled(genes, place as int, moved as int),
                child@.to_multiset() == genes.to_multiset(),
                steps_to_depot(genes, next_index(place as int, len), (len - 1) as nat) == moved
                    + steps_to_depot(
                    genes,
                    next_index(vehicle as int, len),
                    (len - 1 - moved) as nat,
                ),
            ensures
                vehicle_removed(genes, start as int) == Some(child@),
                child@.to_multiset() == genes.to_multiset(),
            decreases gene_length - moved,
        {
            if moved + 1 >= gene_length {
                // The vehicle has come round to where it started.
                if gene_length > 1 {
                    proof {
                        lemma_vehicle_removed_when(genes, start as int);
                    }
                    return Err(GaError::Invariant);
                }
                break ;
            }
            let next_index = if vehicle + 1 >= gene_length {
                0
            } else {
                vehicle + 1
            };
            assert(child@[next_index as int] == genes[next_index as int]);
            if child[next_index].marks_vehicle() {
                break ;
            }
            let ghost before = child@;
            let passed = child[next_index];
            let marker = child[vehicle];
            child.set(vehicle, passed);
            child.set(next_index, marker);
            proof {
                lemma_swap_keeps_genes(before, vehicle as int, next_index as int);
                assert(child@ == swapped(before, vehicle as int, next_index as int));
                assert(child@ =~= bubbled(genes, place as int, moved + 1));
            }
            vehicle = next_index;
            moved += 1;
        }
        proof {
            lemma_vehicle_removed_when(genes, start as int);
        }
        Ok(Chromosome { genes: child, score: None })
    }

    /// Removes a vehicle, searching for it from a place drawn from all the
    /// places.
    ///
    /// Whatever place is drawn, a chromosome that comes back holds each gene
    /// as often as `self`. One comes back whenever the chromosome has two
    /// depot genes, or is one depot gene alone; the error is
    /// `GaError::Invariant`.
    pub fn remove_vehicle_mutation(&self) -> (outcome: Result<Chromosome, GaError>)
        requires
            self.genes@.len() > 0,
        ensures
            exists|start: int|
                0 <= start < self.genes@.len() && match #[trigger] vehicle_removed(
                    self.genes@,
                    start,
                ) {
                    Some(genes) => outcome is Ok && outcome->Ok_0.genes@ == genes
                        && outcome->Ok_0.score is None,
                    None => outcome == Err::<Chromosome, GaError>(GaError::Invariant),
                },
            outcome is Ok <==> removable(self.genes@),
            outcome is Ok ==> outcome->Ok_0.genes@.to_multiset() == self.genes@.to_multiset(),
            outcome is Ok ==> removable(outcome->Ok_0.genes@),
            outcome is Err ==> outcome == Err::<Chromosome, GaError>(GaError::Invariant),
    {
        let gene_length = self.genes.len();
        let index = random_in_range(0, gene_length);
        proof {
            lemma_vehicle_removed_when(self.genes@, index as int);
        }
        self.remove_vehicle_from(index)
    }
}

} // verus!
