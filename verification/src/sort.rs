use vstd::prelude::*;
use vstd::relations::sorted_by;
use vstd::relations::total_ordering;
use vstd::seq_lib::lemma_multiset_commutative;
use vstd::seq_lib::lemma_sorted_unique;
use vstd::seq_lib::to_multiset_build;
use vstd::seq_lib::to_multiset_len;

verus! {

/// The order of the natural numbers, as a relation on `u128`.
pub open spec fn ascending() -> spec_fn(u128, u128) -> bool {
    |a: u128, b: u128| a <= b
}

/// `ascending` is a total order.
pub proof fn lemma_ascending_total()
    ensures
        total_ordering(ascending()),
{
    let leq = ascending();
    assert(vstd::relations::reflexive(leq));
    assert(vstd::relations::antisymmetric(leq));
    assert(vstd::relations::transitive(leq));
    assert(vstd::relations::strongly_connected(leq));
}

/// Each value is at most every later one.
pub open spec fn is_ascending(s: Seq<u128>) -> bool {
    forall|i: int, j: int| 0 <= i < j < s.len() ==> s[i] <= s[j]
}

proof fn lemma_is_ascending_sorted_by(s: Seq<u128>)
    ensures
        is_ascending(s) <==> sorted_by(s, ascending()),
{
    let leq = ascending();
    if is_ascending(s) {
        assert forall|i: int, j: int| 0 <= i < j < s.len() implies #[trigger] leq(s[i], s[j]) by {}
    }
    if sorted_by(s, leq) {
        assert forall|i: int, j: int| 0 <= i < j < s.len() implies s[i] <= s[j] by {
            assert(leq(s[i], s[j]));
        }
    }
}

/// Merges two ascending vectors into one.
fn merge(left: &Vec<u128>, right: &Vec<u128>) -> (merged: Vec<u128>)
    requires
        is_ascending(left@),
        is_ascending(right@),
        left@.len() + right@.len() <= usize::MAX,
    ensures
        is_ascending(merged@),
        merged@.len() == left@.len() + right@.len(),
        merged@.to_multiset() == left@.to_multiset().add(right@.to_multiset()),
{
    broadcast use vstd::multiset::group_multiset_axioms;
    broadcast use vstd::seq_lib::group_to_multiset_ensures;

    let mut merged: Vec<u128> = Vec::new();
    let mut i: usize = 0;
    let mut j: usize = 0;
    assert(left@.take(0) =~= Seq::<u128>::empty());
    assert(right@.take(0) =~= Seq::<u128>::empty());
    assert(merged@.to_multiset() =~= left@.take(0).to_multiset().add(
        right@.take(0).to_multiset(),
    ));
    while i < left.len() || j < right.len()
        invariant
            i <= left@.len(),
            j <= right@.len(),
            left@.len() + right@.len() <= usize::MAX,
            is_ascending(left@),
            is_ascending(right@),
            is_ascending(merged@),
            merged@.len() == i + j,
            merged@.to_multiset() == left@.take(i as int).to_multiset().add(
                right@.take(j as int).to_multiset(),
            ),
            forall|k: int| 0 <= k < merged@.len() && i < left@.len() ==> merged@[k] <= left@[i as int],
            forall|k: int|
                0 <= k < merged@.len() && j < right@.len() ==> merged@[k] <= right@[j as int],
        decreases left@.len() + right@.len() - i - j,
    {
        let ghost before = merged@;
        if j >= right.len() || (i < left.len() && left[i] <= right[j]) {
            let x: u128 = left[i];
            merged.push(x);
            proof {
                assert(left@.take(i + 1) =~= left@.take(i as int).push(x));
                to_multiset_build(left@.take(i as int), x);
                to_multiset_build(before, x);
                assert(merged@.to_multiset() =~= left@.take(i + 1).to_multiset().add(
                    right@.take(j as int).to_multiset(),
                ));
            }
            i = i + 1;
        } else {
            let x: u128 = right[j];
            merged.push(x);
            proof {
                assert(right@.take(j + 1) =~= right@.take(j as int).push(x));
                to_multiset_build(right@.take(j as int), x);
                to_multiset_build(before, x);
                assert(merged@.to_multiset() =~= left@.take(i as int).to_multiset().add(
                    right@.take(j + 1).to_multiset(),
                ));
            }
            j = j + 1;
        }
    }
    assert(left@.take(i as int) =~= left@);
    assert(right@.take(j as int) =~= right@);
    merged
}

/// Sorts the values at `lo..hi` of `values` into a new vector.
fn sort_range(values: &Vec<u128>, lo: usize, hi: usize) -> (sorted: Vec<u128>)
    requires
        lo <= hi <= values@.len(),
    ensures
        is_ascending(sorted@),
        sorted@.len() == hi - lo,
        sorted@.to_multiset() == values@.subrange(lo as int, hi as int).to_multiset(),
    decreases hi - lo,
{
    if hi - lo <= 1 {
        let mut sorted: Vec<u128> = Vec::new();
        if hi - lo == 1 {
            sorted.push(values[lo]);
        }
        assert(sorted@ =~= values@.subrange(lo as int, hi as int));
        sorted
    } else {
        let mid: usize = lo + (hi - lo) / 2;
        let left = sort_range(values, lo, mid);
        let right = sort_range(values, mid, hi);
        let merged = merge(&left, &right);
        proof {
            let a = values@.subrange(lo as int, mid as int);
            let b = values@.subrange(mid as int, hi as int);
            assert(a + b =~= values@.subrange(lo as int, hi as int));
            lemma_multiset_commutative(a, b);
        }
        merged
    }
}

/// The values in ascending order.
pub fn sort_ascending(values: &Vec<u128>) -> (sorted: Vec<u128>)
    ensures
        sorted@ == values@.sort_by(ascending()),
{
    let sorted = sort_range(values, 0, values.len());
    proof {
        let leq = ascending();
        assert(values@.subrange(0, values@.len() as int) =~= values@);
        lemma_ascending_total();
        values@.lemma_sort_by_ensures(leq);
        lemma_is_ascending_sorted_by(sorted@);
        lemma_sorted_unique(sorted@, values@.sort_by(leq), leq);
    }
    sorted
}

/// Sorting keeps the length and the values, and puts them in ascending order.
pub proof fn lemma_sort_ascending(values: Seq<u128>)
    ensures
        values.sort_by(ascending()).len() == values.len(),
        is_ascending(values.sort_by(ascending())),
        values.sort_by(ascending()).to_multiset() == values.to_multiset(),
        forall|i: int|
            0 <= i < values.len() ==> values.contains(#[trigger] values.sort_by(ascending())[i]),
{
    let leq = ascending();
    let sorted = values.sort_by(leq);
    lemma_ascending_total();
    values.lemma_sort_by_ensures(leq);
    to_multiset_len(values);
    to_multiset_len(sorted);
    lemma_is_ascending_sorted_by(sorted);
    assert forall|i: int| 0 <= i < values.len() implies values.contains(#[trigger] sorted[i]) by {
        assert(sorted.contains(sorted[i]));
    }
}

} // verus!
