//! Ranking: a merge sort of scored record ids, by ascending score and, among
//! equal scores, by ascending id.

use vstd::prelude::*;
use vstd::relations::{sorted_by, total_ordering};
use vstd::seq_lib::{
    group_to_multiset_ensures, lemma_multiset_commutative, lemma_sorted_unique, to_multiset_build,
};

verus! {

/// Whether the scored id `a` ranks at or before the scored id `b`: its score
/// is smaller, or the scores are equal and its id is not greater.
pub open spec fn ranks_first(a: (u128, usize), b: (u128, usize)) -> bool {
    a.0 < b.0 || (a.0 == b.0 && a.1 <= b.1)
}

/// The order of the ranking, as a relation.
pub open spec fn rank_order() -> spec_fn((u128, usize), (u128, usize)) -> bool {
    |a: (u128, usize), b: (u128, usize)| ranks_first(a, b)
}

/// The order of the ranking is total: no two different scored ids tie.
pub proof fn lemma_rank_order_total()
    ensures
        total_ordering(rank_order()),
{
    let r = rank_order();
    assert forall|x: (u128, usize), y: (u128, usize)| #[trigger] r(x, y) && #[trigger] r(y, x) implies x
        == y by {
        assert(x.0 == y.0 && x.1 == y.1);
    }
    assert(vstd::relations::reflexive(r));
    assert(vstd::relations::antisymmetric(r));
    assert(vstd::relations::transitive(r));
    assert(vstd::relations::strongly_connected(r));
}

/// A copy of the items of `items` from `from` up to, not including, `to`.
fn copy_range(items: &Vec<(u128, usize)>, from: usize, to: usize) -> (part: Vec<(u128, usize)>)
    requires
        from <= to <= items.len(),
    ensures
        part@ == items@.subrange(from as int, to as int),
{
    let mut part: Vec<(u128, usize)> = Vec::new();
    let mut i: usize = from;
    while i < to
        invariant
            from <= i <= to <= items.len(),
            part@ == items@.subrange(from as int, i as int),
        decreases to - i,
    {
        part.push(items[i]);
        i += 1;
    }
    part
}

/// Merges two ranked runs into one.
fn merge(left: &Vec<(u128, usize)>, right: &Vec<(u128, usize)>) -> (out: Vec<(u128, usize)>)
    requires
        sorted_by(left@, rank_order()),
        sorted_by(right@, rank_order()),
    ensures
        sorted_by(out@, rank_order()),
        out@.to_multiset() == left@.to_multiset().add(right@.to_multiset()),
{
    broadcast use group_to_multiset_ensures;

    let ghost order = rank_order();
    let mut out: Vec<(u128, usize)> = Vec::new();
    let mut i: usize = 0;
    let mut j: usize = 0;
    proof {
        lemma_rank_order_total();
        assert(left@.take(0) =~= Seq::empty());
        assert(right@.take(0) =~= Seq::empty());
    }
    while i < left.len() || j < right.len()
        invariant
            i <= left.len(),
            j <= right.len(),
            order == rank_order(),
            total_ordering(order),
            sorted_by(left@, order),
            sorted_by(right@, order),
            sorted_by(out@, order),
            out@.to_multiset() == left@.take(i as int).to_multiset().add(
                right@.take(j as int).to_multiset(),
            ),
            forall|k: int| 0 <= k < out@.len() && i < left.len() ==> order(#[trigger] out@[k], left@[i as int]),
            forall|k: int| 0 <= k < out@.len() && j < right.len() ==> order(#[trigger] out@[k], right@[j as int]),
        decreases left.len() - i + right.len() - j,
    {
        let take_left = if j >= right.len() {
            true
        } else if i >= left.len() {
            false
        } else {
            let a = left[i];
            let b = right[j];
            a.0 < b.0 || (a.0 == b.0 && a.1 <= b.1)
        };
        let ghost before = out@;
        if take_left {
            let item = left[i];
            out.push(item);
            proof {
                assert(left@.take(i as int + 1) =~= left@.take(i as int).push(item));
                assert(out@ =~= before.push(item));
                to_multiset_build(before, item);
                to_multiset_build(left@.take(i as int), item);
                assert(out@.to_multiset() =~= left@.take(i as int + 1).to_multiset().add(
                    right@.take(j as int).to_multiset(),
                ));
                assert forall|k: int| 0 <= k < out@.len() && i + 1 < left.len() implies order(
                    #[trigger] out@[k],
                    left@[i as int + 1],
                ) by {
                    assert(order(left@[i as int], left@[i as int + 1]));
                    if k < before.len() {
                        assert(order(before[k], left@[i as int]));
                    }
                }
                assert forall|k: int| 0 <= k < out@.len() && j < right.len() implies order(
                    #[trigger] out@[k],
                    right@[j as int],
                ) by {
                    if k < before.len() {
                        assert(order(before[k], right@[j as int]));
                    } else {
                        assert(order(item, right@[j as int]));
                    }
                }
                assert forall|a: int, b: int| 0 <= a < b < out@.len() implies #[trigger] order(
                    out@[a],
                    out@[b],
                ) by {
                    if b < before.len() {
                        assert(order(before[a], before[b]));
                    } else {
                        assert(order(before[a], left@[i as int]));
                    }
                }
            }
            i += 1;
        } else {
            let item = right[j];
            out.push(item);
            proof {
                assert(right@.take(j as int + 1) =~= right@.take(j as int).push(item));
                assert(out@ =~= before.push(item));
                to_multiset_build(before, item);
                to_multiset_build(right@.take(j as int), item);
                assert(out@.to_multiset() =~= left@.take(i as int).to_multiset().add(
                    right@.take(j as int + 1).to_multiset(),
                ));
                assert forall|k: int| 0 <= k < out@.len() && j + 1 < right.len() implies order(
                    #[trigger] out@[k],
                    right@[j as int + 1],
                ) by {
                    assert(order(right@[j as int], right@[j as int + 1]));
                    if k < before.len() {
                        assert(order(before[k], right@[j as int]));
                    }
                }
                assert forall|k: int| 0 <= k < out@.len() && i < left.len() implies order(
                    #[trigger] out@[k],
                    left@[i as int],
                ) by {
                    if k < before.len() {
                        assert(order(before[k], left@[i as int]));
                    } else {
                        assert(order(item, left@[i as int]) || order(left@[i as int], item));
                    }
                }
                assert forall|a: int, b: int| 0 <= a < b < out@.len() implies #[trigger] order(
                    out@[a],
                    out@[b],
                ) by {
                    if b < before.len() {
                        assert(order(before[a], before[b]));
                    } else {
                        assert(order(before[a], right@[j as int]));
                    }
                }
            }
            j += 1;
        }
    }
    assert(left@.take(i as int) =~= left@);
    assert(right@.take(j as int) =~= right@);
    out
}

/// Sorts scored ids into ranking order, keeping every item.
fn merge_sort(items: &Vec<(u128, usize)>) -> (out: Vec<(u128, usize)>)
    ensures
        sorted_by(out@, rank_order()),
        out@.to_multiset() == items@.to_multiset(),
    decreases items@.len(),
{
    let n = items.len();
    if n <= 1 {
        let out = copy_range(items, 0, n);
        assert(out@ =~= items@);
        return out;
    }
    let half = n / 2;
    let left = copy_range(items, 0, half);
    let right = copy_range(items, half, n);
    proof {
        assert(items@ =~= left@ + right@);
        lemma_multiset_commutative(left@, right@);
    }
    let left_sorted = merge_sort(&left);
    let right_sorted = merge_sort(&right);
    merge(&left_sorted, &right_sorted)
}

/// The scored ids `items` in ranking order: by ascending score, and among
/// equal scores by ascending id.
pub fn sort_ranked(items: &Vec<(u128, usize)>) -> (out: Vec<(u128, usize)>)
    ensures
        out@ == items@.sort_by(rank_order()),
        sorted_by(out@, rank_order()),
        out@.to_multiset() == items@.to_multiset(),
{
    let out = merge_sort(items);
    proof {
        lemma_rank_order_total();
        items@.lemma_sort_by_ensures(rank_order());
        lemma_sorted_unique(out@, items@.sort_by(rank_order()), rank_order());
    }
    out
}

} // verus!
