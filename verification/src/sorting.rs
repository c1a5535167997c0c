//! Sorting of label lists.
use vstd::prelude::*;

use crate::evaluator::ascending;

verus! {

/// `x` put into an ascending list, behind every label that is not greater.
pub open spec fn insert_sorted(sorted: Seq<u32>, x: u32) -> Seq<u32>
    decreases sorted.len(),
{
    if sorted.len() == 0 || sorted.last() <= x {
        sorted.push(x)
    } else {
        insert_sorted(sorted.drop_last(), x).push(sorted.last())
    }
}

/// The labels of `list` in ascending order, each as often as it occurs there.
pub open spec fn sorted_labels(list: Seq<u32>) -> Seq<u32>
    decreases list.len(),
{
    if list.len() == 0 {
        list
    } else {
        insert_sorted(sorted_labels(list.drop_last()), list.last())
    }
}

/// Where `insert_sorted` puts `x`: the place behind the last label that is not greater.
proof fn lemma_insert_sorted_at(sorted: Seq<u32>, x: u32, at: int)
    requires
        0 <= at <= sorted.len(),
        at > 0 ==> sorted[at - 1] <= x,
        forall|i: int| at <= i < sorted.len() ==> sorted[i] > x,
    ensures
        insert_sorted(sorted, x) == sorted.insert(at, x),
    decreases sorted.len(),
{
    if sorted.len() == 0 || sorted.last() <= x {
        assert(at == sorted.len());
        assert(sorted.insert(at, x) =~= sorted.push(x));
    } else {
        lemma_insert_sorted_at(sorted.drop_last(), x, at);
        assert(sorted.insert(at, x) =~= sorted.drop_last().insert(at, x).push(sorted.last()));
    }
}

proof fn lemma_insert_sorted(sorted: Seq<u32>, x: u32)
    requires
        ascending(sorted),
    ensures
        ascending(insert_sorted(sorted, x)),
        insert_sorted(sorted, x).to_multiset() == sorted.to_multiset().insert(x),
    decreases sorted.len(),
{
    broadcast use vstd::seq_lib::group_to_multiset_ensures;

    if sorted.len() > 0 && sorted.last() > x {
        let rest = sorted.drop_last();
        lemma_insert_sorted(rest, x);
        let inner = insert_sorted(rest, x);
        assert(sorted =~= rest.push(sorted.last()));
        assert forall|i: int, j: int|
            0 <= i < j < insert_sorted(sorted, x).len() implies insert_sorted(sorted, x)[i]
            <= insert_sorted(sorted, x)[j] by {
            if j == inner.len() {
                assert(inner.to_multiset().count(inner[i]) > 0);
                if inner[i] != x {
                    assert(rest.contains(inner[i]));
                }
            }
        }
        assert(insert_sorted(sorted, x).to_multiset() =~= sorted.to_multiset().insert(x));
    }
}

/// Sorting keeps the labels and puts them in ascending order.
pub proof fn lemma_sorted_labels(list: Seq<u32>)
    ensures
        ascending(sorted_labels(list)),
        sorted_labels(list).to_multiset() == list.to_multiset(),
        sorted_labels(list).len() == list.len(),
        forall|x: u32| #[trigger] sorted_labels(list).contains(x) <==> list.contains(x),
    decreases list.len(),
{
    broadcast use vstd::seq_lib::group_to_multiset_ensures;

    if list.len() > 0 {
        lemma_sorted_labels(list.drop_last());
        lemma_insert_sorted(sorted_labels(list.drop_last()), list.last());
        assert(list =~= list.drop_last().push(list.last()));
    }
    assert(sorted_labels(list).to_multiset().len() == list.to_multiset().len());
    assert forall|x: u32| #[trigger] sorted_labels(list).contains(x) <==> list.contains(x) by {
        assert(sorted_labels(list).to_multiset().count(x) == list.to_multiset().count(x));
    }
}

/// The labels of `list` in ascending order.
pub fn sort_labels(list: &[u32]) -> (sorted: Vec<u32>)
    ensures
        sorted@ == sorted_labels(list@),
{
    let n: usize = list.len();
    let mut sorted: Vec<u32> = Vec::with_capacity(n);
    assert(list@.take(0) =~= Seq::<u32>::empty());
    for i in 0..n
        invariant
            n == list@.len(),
            sorted@ == sorted_labels(list@.take(i as int)),
    {
        let x: u32 = list[i];
        let mut at: usize = sorted.len();
        while at > 0 && sorted[at - 1] > x
            invariant
                at <= sorted@.len(),
                forall|j: int| at <= j < sorted@.len() ==> sorted@[j] > x,
            decreases at,
        {
            at = at - 1;
        }
        proof {
            lemma_insert_sorted_at(sorted@, x, at as int);
            assert(list@.take(i + 1).drop_last() =~= list@.take(i as int));
        }
        sorted.insert(at, x);
    }
    assert(list@.take(n as int) =~= list@);
    sorted
}

} // verus!
