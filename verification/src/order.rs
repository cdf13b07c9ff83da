use lazysort::Sorted;
use vstd::prelude::*;

verus! {

/// The order of two entries: by the first number, and by the second where
/// the first numbers are equal.
pub open spec fn entry_le(a: (i128, usize), b: (i128, usize)) -> bool {
    a.0 < b.0 || (a.0 == b.0 && a.1 <= b.1)
}

/// Whether no entry stands before a smaller one.
pub open spec fn ascending(entries: Seq<(i128, usize)>) -> bool {
    forall|a: int, b: int| 0 <= a < b < entries.len() ==> entry_le(entries[a], entries[b])
}

/// The order of entries as a relation.
pub open spec fn entry_order() -> spec_fn((i128, usize), (i128, usize)) -> bool {
    |a: (i128, usize), b: (i128, usize)| entry_le(a, b)
}

/// The entries in ascending order: the one arrangement of them in which no
/// entry stands before a smaller one.
pub open spec fn sorted_of(entries: Seq<(i128, usize)>) -> Seq<(i128, usize)> {
    choose|sorted: Seq<(i128, usize)>|
        sorted.to_multiset() == entries.to_multiset() && ascending(sorted)
}

/// An ascending arrangement of entries is the ascending arrangement of
/// them: there is no other.
pub proof fn lemma_sorted_of(entries: Seq<(i128, usize)>, sorted: Seq<(i128, usize)>)
    requires
        sorted.to_multiset() == entries.to_multiset(),
        ascending(sorted),
    ensures
        sorted == sorted_of(entries),
{
    let other = sorted_of(entries);
    let order = entry_order();
    assert(vstd::relations::sorted_by(sorted, order)) by {
        assert forall|i: int, j: int| 0 <= i < j < sorted.len() implies #[trigger] order(
            sorted[i],
            sorted[j],
        ) by {
            assert(entry_le(sorted[i], sorted[j]));
        }
    }
    assert(vstd::relations::sorted_by(other, order)) by {
        assert forall|i: int, j: int| 0 <= i < j < other.len() implies #[trigger] order(
            other[i],
            other[j],
        ) by {
            assert(entry_le(other[i], other[j]));
        }
    }
    assert(vstd::relations::total_ordering(order)) by {
        assert(vstd::relations::reflexive(order));
        assert(vstd::relations::antisymmetric(order)) by {
            assert forall|x: (i128, usize), y: (i128, usize)| #[trigger]
                order(x, y) && #[trigger] order(y, x) implies x == y by {
                assert(x.0 == y.0 && x.1 == y.1);
            }
        }
        assert(vstd::relations::transitive(order));
        assert(vstd::relations::strongly_connected(order));
    }
    vstd::seq_lib::lemma_sorted_unique(sorted, other, order);
}

/// Sorts the entries with `lazysort::Sorted::sorted`, and collects all that
/// its iterator yields.
///
/// Believed, not proved: the iterator yields each entry that it was given,
/// as often as it was given, and in ascending order. The order is that of
/// pairs of integers in the standard library: by the first number, then by
/// the second.
#[verifier::external_body]
pub(crate) fn sorted_entries(entries: Vec<(i128, usize)>) -> (sorted: Vec<(i128, usize)>)
    ensures
        sorted@.to_multiset() == entries@.to_multiset(),
        ascending(sorted@),
{
    entries.into_iter().sorted().collect()
}

} // verus!
