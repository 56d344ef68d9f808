//! What holds of every selection, whichever strategy made it: every strategy
//! returns `smallest` of its input, so what is proved of `smallest` here is
//! proved of them all.

use crate::model::{
    ascending, at_most, fitting, lemma_ascending_unique, lemma_fitting_all, lemma_sorted, smallest,
    sorted,
};
use vstd::multiset::*;
use vstd::prelude::*;
use vstd::relations::*;
use vstd::seq_lib::*;

verus! {

/// The selection of `k` from an input of at least `k` values has exactly `k`
/// values; from any input it has as many as there are, up to `k`. It is
/// ascending. Each of its values occurs in it no more often than in the
/// input. And it holds the smallest: whatever the input holds beyond the
/// selection is not below any value of the selection.
pub proof fn lemma_smallest_is_selection(s: Seq<u32>, k: nat)
    ensures
        k <= s.len() ==> smallest(s, k).len() == k,
        s.len() <= k ==> smallest(s, k).len() == s.len(),
        ascending(smallest(s, k)),
        smallest(s, k).to_multiset().subset_of(s.to_multiset()),
        forall|i: int, v: u32|
            0 <= i < smallest(s, k).len() && s.to_multiset().sub(
                smallest(s, k).to_multiset(),
            ).count(v) > 0 ==> smallest(s, k)[i] <= v,
{
    broadcast use group_multiset_axioms;

    let all = sorted(s);
    let out = smallest(s, k);
    let rest = all.skip(out.len() as int);
    lemma_sorted(s);
    assert(out + rest =~= all);
    lemma_multiset_commutative(out, rest);
    assert(s.to_multiset().sub(out.to_multiset()) =~= rest.to_multiset());
    assert forall|i: int, v: u32|
        0 <= i < out.len() && s.to_multiset().sub(out.to_multiset()).count(v) > 0 implies out[i]
        <= v by {
        to_multiset_contains(rest, v);
        let j = choose|j: int| 0 <= j < rest.len() && rest[j] == v;
        assert(all[i] <= all[out.len() + j]);
    }
}

/// The selection of `k` from an input of fewer than `k` values, or of just
/// `k`, is the whole input in ascending order: as long as the input, and
/// holding each value as often as the input does.
pub proof fn lemma_smallest_of_short(s: Seq<u32>, k: nat)
    requires
        s.len() <= k,
    ensures
        smallest(s, k) == sorted(s),
        smallest(s, k).len() == s.len(),
        ascending(smallest(s, k)),
        smallest(s, k).to_multiset() == s.to_multiset(),
{
    lemma_sorted(s);
}

/// On an input whose values all fit into the items of a packed buffer, the
/// packed buffer selects what the plain buffer selects.
pub proof fn lemma_packed_agrees(s: Seq<u32>, k: nat, max: u32)
    requires
        forall|i: int| 0 <= i < s.len() ==> s[i] <= max,
    ensures
        smallest(fitting(s, max), k) == smallest(s, k),
{
    lemma_fitting_all(s, max);
}

/// `sorted` is the sort of `vstd` by the usual order.
pub proof fn lemma_sorted_is_sort_by(s: Seq<u32>)
    ensures
        sorted(s) == s.sort_by(at_most()),
{
    let leq = at_most();
    let other = s.sort_by(leq);
    assert(total_ordering(leq));
    s.lemma_sort_by_ensures(leq);
    lemma_sorted(s);
    assert(ascending(other)) by {
        assert forall|i: int, j: int| 0 <= i <= j < other.len() implies other[i] <= other[j] by {
            if i < j {
                assert(leq(other[i], other[j]));
            }
        }
    }
    lemma_ascending_unique(sorted(s), other);
}

} // verus!
