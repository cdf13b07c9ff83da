use crate::chromosome::{ahead, behind, copy_genes, Chromosome};
use crate::gene::{lemma_key_tells_genes_apart, Gene};
use crate::random::random_in_range;
use std::collections::HashSet;
use vstd::prelude::*;

verus! {

/// The sequence read as a ring from `start` on.
pub open spec fn rotated(genes: Seq<Gene>, start: int) -> Seq<Gene> {
    genes.subrange(start, genes.len() as int) + genes.subrange(0, start)
}

/// The test that a gene passes when the segment does not hold it.
pub open spec fn outside(segment: Seq<Gene>) -> spec_fn(Gene) -> bool {
    |gene: Gene| !segment.contains(gene)
}

/// The place at which filling starts when the segment ends before `end`: the
/// place `end` itself, or the first place where the segment reaches to the
/// end of the sequence.
pub open spec fn fill_start(end: int, len: int) -> int {
    if end >= len {
        0
    } else {
        end
    }
}

/// The genes that a child takes from the donor: those that the segment from
/// `begin` up to `end` of the keeper does not hold, in the order in which
/// the donor has them from the end of the segment on, read as a ring.
pub open spec fn crossover_fill(keep: Seq<Gene>, donor: Seq<Gene>, begin: int, end: int) -> Seq<
    Gene,
> {
    rotated(donor, fill_start(end, donor.len() as int)).filter(outside(keep.subrange(begin, end)))
}

/// The child of an order crossover. It has the genes of the donor that the
/// segment does not hold, see [`crossover_fill`], from the end of the
/// segment on and round the ring, and at every other place the gene of the
/// keeper. With parents that are arrangements of the same genes, those other
/// places are the segment.
pub open spec fn crossover_child(keep: Seq<Gene>, donor: Seq<Gene>, begin: int, end: int) -> Seq<
    Gene,
> {
    let fill = crossover_fill(keep, donor, begin, end);
    let start = fill_start(end, keep.len() as int);
    Seq::new(
        keep.len(),
        |m: int|
            if behind(m, start, keep.len() as int) < fill.len() {
                fill[behind(m, start, keep.len() as int)]
            } else {
                keep[m]
            },
    )
}

/// A sequence read as a ring from another place on holds each gene as often
/// as before.
pub proof fn lemma_rotation_keeps_genes(genes: Seq<Gene>, start: int)
    requires
        0 <= start <= genes.len(),
    ensures
        rotated(genes, start).to_multiset() == genes.to_multiset(),
        rotated(genes, start).len() == genes.len(),
{
    let head = genes.subrange(0, start);
    let tail = genes.subrange(start, genes.len() as int);
    vstd::seq_lib::lemma_multiset_commutative(head, tail);
    vstd::seq_lib::lemma_multiset_commutative(tail, head);
    assert(head + tail =~= genes);
    assert(rotated(genes, start).to_multiset() =~= genes.to_multiset());
}

/// A filter lets a gene through as often as the sequence holds it, or not
/// at all.
pub proof fn lemma_filter_count(genes: Seq<Gene>, pred: spec_fn(Gene) -> bool, gene: Gene)
    ensures
        genes.filter(pred).to_multiset().count(gene) == if pred(gene) {
            genes.to_multiset().count(gene)
        } else {
            0
        },
    decreases genes.len(),
{
    broadcast use vstd::seq_lib::group_to_multiset_ensures;

    reveal(Seq::filter);
    if genes.len() == 0 {
        assert(genes.filter(pred) =~= Seq::<Gene>::empty());
        assert(genes =~= Seq::<Gene>::empty());
    } else {
        let front = genes.drop_last();
        let last = genes.last();
        lemma_filter_count(front, pred, gene);
        assert(genes =~= front.push(last));
        vstd::seq_lib::to_multiset_build(front, last);
        if pred(last) {
            vstd::seq_lib::to_multiset_build(front.filter(pred), last);
        }
    }
}

/// A part of a sequence without repeated genes holds each of its genes
/// once, and the sequence holds it once too.
pub proof fn lemma_segment_count(genes: Seq<Gene>, begin: int, end: int, gene: Gene)
    requires
        0 <= begin <= end <= genes.len(),
        genes.no_duplicates(),
    ensures
        genes.subrange(begin, end).to_multiset().count(gene) == if genes.subrange(
            begin,
            end,
        ).contains(gene) {
            1nat
        } else {
            0nat
        },
        genes.subrange(begin, end).contains(gene) ==> genes.to_multiset().count(gene) == 1,
{
    broadcast use vstd::seq_lib::group_to_multiset_ensures;

    let segment = genes.subrange(begin, end);
    assert(segment.no_duplicates());
    segment.lemma_multiset_has_no_duplicates();
    genes.lemma_multiset_has_no_duplicates();
    if segment.contains(gene) {
        let k = choose|k: int| 0 <= k < segment.len() && segment[k] == gene;
        assert(genes[begin + k] == gene);
        assert(genes.contains(gene));
    }
}

/// The first law of the order crossover: where the parents are arrangements
/// of the same genes, none of them repeated, the child is one more
/// arrangement of these genes, whatever the segment.
pub proof fn lemma_crossover_keeps_genes(keep: Seq<Gene>, donor: Seq<Gene>, begin: int, end: int)
    requires
        0 <= begin <= end <= keep.len(),
        keep.no_duplicates(),
        keep.to_multiset() == donor.to_multiset(),
    ensures
        crossover_child(keep, donor, begin, end).to_multiset() == keep.to_multiset(),
        crossover_child(keep, donor, begin, end).no_duplicates(),
{
    broadcast use vstd::seq_lib::group_to_multiset_ensures;

    let len = keep.len() as int;
    vstd::seq_lib::to_multiset_len(keep);
    vstd::seq_lib::to_multiset_len(donor);
    let start = fill_start(end, len);
    let segment = keep.subrange(begin, end);
    let ring = rotated(donor, start);
    let fill = crossover_fill(keep, donor, begin, end);
    let child = crossover_child(keep, donor, begin, end);
    let joined = fill + segment;
    lemma_rotation_keeps_genes(donor, start);
    vstd::seq_lib::lemma_multiset_commutative(fill, segment);
    assert forall|gene: Gene|
        joined.to_multiset().count(gene) == keep.to_multiset().count(gene) by {
        lemma_filter_count(ring, outside(segment), gene);
        lemma_segment_count(keep, begin, end, gene);
    }
    assert(joined.to_multiset() =~= keep.to_multiset());
    vstd::seq_lib::to_multiset_len(joined);
    assert(fill.len() + segment.len() == len);
    // The child is the joined sequence, read as a ring from another place on.
    let turn = len - start;
    assert(child =~= rotated(joined, turn)) by {
        assert forall|m: int| 0 <= m < len implies child[m] == rotated(joined, turn)[m] by {
            let offset = behind(m, start, len);
            assert(rotated(joined, turn)[m] == joined[offset]);
            if offset >= fill.len() {
                assert(joined[offset] == segment[offset - fill.len()]);
                assert(m == begin + offset - fill.len());
            }
        }
    }
    lemma_rotation_keeps_genes(joined, turn);
    keep.lemma_multiset_has_no_duplicates();
    child.lemma_multiset_has_no_duplicates_conv();
}

/// Whether the set holds the numbers of just the genes of the segment.
pub open spec fn holds_segment(set: Set<i64>, segment: Seq<Gene>) -> bool {
    forall|gene: Gene| set.contains(#[trigger] gene.key() as i64) <==> segment.contains(gene)
}

/// The set of the genes of `keep` from `begin` up to `end`, each by its
/// number.
pub fn segment_set(keep: &Vec<Gene>, begin: usize, end: usize) -> (set: HashSet<i64>)
    requires
        begin <= end <= keep@.len(),
    ensures
        holds_segment(set@, keep@.subrange(begin as int, end as int)),
{
    broadcast use vstd::std_specs::hash::group_hash_axioms;

    let mut set: HashSet<i64> = HashSet::new();
    let mut k = begin;
    while k < end
        invariant
            begin <= k <= end <= keep@.len(),
            holds_segment(set@, keep@.subrange(begin as int, k as int)),
        decreases end - k,
    {
        let ghost before = set@;
        let ghost seen = keep@.subrange(begin as int, k as int);
        let ghost longer = keep@.subrange(begin as int, k + 1);
        set.insert(keep[k].code());
        proof {
            assert(longer =~= seen.push(keep@[k as int]));
            assert forall|gene: Gene| set@.contains(#[trigger] gene.key() as i64)
                <==> longer.contains(gene) by {
                if gene.key() == keep@[k as int].key() {
                    lemma_key_tells_genes_apart(gene, keep@[k as int]);
                    assert(longer[k - begin] == gene);
                } else {
                    assert(set@.contains(gene.key() as i64) == before.contains(gene.key() as i64));
                    if seen.contains(gene) {
                        let m = choose|m: int| 0 <= m < seen.len() && seen[m] == gene;
                        assert(longer[m] == gene);
                    }
                    if longer.contains(gene) {
                        let m = choose|m: int| 0 <= m < longer.len() && longer[m] == gene;
                        assert(m < seen.len());
                        assert(seen[m] == gene);
                    }
                }
            }
        }
        k += 1;
    }
    set
}

/// The genes of one child: see [`crossover_child`].
pub fn cross_genes(keep: &Vec<Gene>, donor: &Vec<Gene>, begin: usize, end: usize) -> (child: Vec<
    Gene,
>)
    requires
        keep@.len() == donor@.len(),
        begin <= end <= keep@.len(),
    ensures
        child@ == crossover_child(keep@, donor@, begin as int, end as int),
{
    broadcast use vstd::std_specs::hash::group_hash_axioms;

    let chromosome_length = keep.len();
    let mut child = copy_genes(keep);
    // The genes of the segment, which the child has from the keeper.
    let segment = segment_set(keep, begin, end);
    let start = if end >= chromosome_length {
        0
    } else {
        end
    };
    let ghost len = chromosome_length as int;
    let ghost ring = rotated(donor@, start as int);
    let ghost pred = outside(keep@.subrange(begin as int, end as int));
    let ghost fill = Seq::<Gene>::empty();
    let mut read = start;
    let mut insert_index = start;
    let mut written: usize = 0;
    let mut i: usize = 0;
    proof {
        reveal(Seq::filter);
        assert(ring.take(0).filter(pred) =~= Seq::<Gene>::empty());
    }
    while i < chromosome_length
        invariant
            len == keep@.len(),
            len == donor@.len(),
            chromosome_length == len,
            begin <= end <= len,
            start as int == fill_start(end as int, len),
            ring == rotated(donor@, start as int),
            pred == outside(keep@.subrange(begin as int, end as int)),
            holds_segment(segment@, keep@.subrange(begin as int, end as int)),
            0 <= i <= len,
            i < len ==> read as int == ahead(start as int, i as int, len),
            fill == ring.take(i as int).filter(pred),
            written == fill.len(),
            written <= i,
            written < len ==> insert_index as int == ahead(start as int, written as int, len),
            child@.len() == len,
            forall|m: int|
                0 <= m < len ==> #[trigger] child@[m] == if behind(m, start as int, len)
                    < written {
                    fill[behind(m, start as int, len)]
                } else {
                    keep@[m]
                },
        decreases chromosome_length - i,
    {
        let new_gene = donor[read];
        proof {
            assert(ring[i as int] == donor@[read as int]);
            assert(ring.take(i + 1) =~= ring.take(i as int).push(new_gene));
            ring.take(i as int).lemma_filter_push(new_gene, pred);
        }
        let new_code = new_gene.code();
        if !segment.contains(&new_code) {
            child.set(insert_index, new_gene);
            proof {
                fill = fill.push(new_gene);
            }
            insert_index = if insert_index + 1 >= chromosome_length {
                0
            } else {
                insert_index + 1
            };
            written += 1;
        }
        read = if read + 1 >= chromosome_length {
            0
        } else {
            read + 1
        };
        i += 1;
    }
    proof {
        assert(ring.take(len) =~= ring);
        assert(child@ =~= crossover_child(keep@, donor@, begin as int, end as int));
    }
    child
}

impl Chromosome {
    /// The two children of an order crossover with the segment from
    /// `index_one` up to `index_two`: the first keeps the segment of `self`
    /// and is filled from `other`, the second the other way round. They have
    /// no scores yet.
    pub fn order_one_crossover_at(
        &self,
        other: &Chromosome,
        index_one: usize,
        index_two: usize,
    ) -> (children: (Chromosome, Chromosome))
        requires
            self.genes@.len() == other.genes@.len(),
            index_one <= index_two <= self.genes@.len(),
        ensures
            children.0.genes@ == crossover_child(
                self.genes@,
                other.genes@,
                index_one as int,
                index_two as int,
            ),
            children.1.genes@ == crossover_child(
                other.genes@,
                self.genes@,
                index_one as int,
                index_two as int,
            ),
            children.0.score is None,
            children.1.score is None,
    {
        let child_one = cross_genes(&self.genes, &other.genes, index_one, index_two);
        let child_two = cross_genes(&other.genes, &self.genes, index_one, index_two);
        (Chromosome { genes: child_one, score: None }, Chromosome { genes: child_two, score: None })
    }

    /// An order crossover with a segment that is drawn: its first place from
    /// all the places, its end from that place on.
    ///
    /// Whatever is drawn, parents that are arrangements of the same genes,
    /// none of them repeated, have children that are arrangements of these
    /// genes too.
    pub fn order_one_crossover(&self, other: &Chromosome) -> (children: (Chromosome, Chromosome))
        requires
            self.genes@.len() == other.genes@.len(),
            self.genes@.len() > 0,
        ensures
            exists|begin: int, end: int|
                0 <= begin <= end < self.genes@.len() && children.0.genes@
                    == #[trigger] crossover_child(self.genes@, other.genes@, begin, end)
                    && children.1.genes@ == crossover_child(other.genes@, self.genes@, begin, end),
            children.0.score is None,
            children.1.score is None,
            self.genes@.no_duplicates() && self.genes@.to_multiset() == other.genes@.to_multiset()
                ==> children.0.genes@.to_multiset() == self.genes@.to_multiset()
                && children.1.genes@.to_multiset() == self.genes@.to_multiset()
                && children.0.genes@.no_duplicates() && children.1.genes@.no_duplicates(),
    {
        let chromosome_length = self.genes.len();
        let index_one = random_in_range(0, chromosome_length);
        let index_two = random_in_range(index_one, chromosome_length);
        proof {
            if self.genes@.no_duplicates() && self.genes@.to_multiset()
                == other.genes@.to_multiset() {
                lemma_crossover_keeps_genes(
                    self.genes@,
                    other.genes@,
                    index_one as int,
                    index_two as int,
                );
                self.genes@.lemma_multiset_has_no_duplicates();
                other.genes@.lemma_multiset_has_no_duplicates_conv();
                lemma_crossover_keeps_genes(
                    other.genes@,
                    self.genes@,
                    index_one as int,
                    index_two as int,
                );
            }
        }
        self.order_one_crossover_at(other, index_one, index_two)
    }
}

} // verus!
