//! Brute-force search: the nearest of a set of candidate points.
use bit_set::BitSet;
use vstd::prelude::*;

use crate::bits::{list_bits, members};
use crate::distance::{distance_rank, rank};

verus! {

/// A point and the bit pattern of its distance from the query.
#[derive(Debug, Clone, Copy, PartialEq, Eq, Structural)]
pub struct Neighbor {
    pub id: u32,
    pub distance: u32,
}

/// `x` put into a list from near to far, behind every point that is not farther.
pub open spec fn insert_ranked(list: Seq<Neighbor>, x: Neighbor) -> Seq<Neighbor>
    decreases list.len(),
{
    if list.len() == 0 || rank(list.last().distance) <= rank(x.distance) {
        list.push(x)
    } else {
        insert_ranked(list.drop_last(), x).push(list.last())
    }
}

/// The points from near to far; of points at the same distance the one that came
/// first stays first.
pub open spec fn ranked(points: Seq<Neighbor>) -> Seq<Neighbor>
    decreases points.len(),
{
    if points.len() == 0 {
        points
    } else {
        insert_ranked(ranked(points.drop_last()), points.last())
    }
}

/// No point is farther than one behind it.
pub open spec fn near_to_far(list: Seq<Neighbor>) -> bool {
    forall|i: int, j: int|
        0 <= i < j < list.len() ==> rank(list[i].distance) <= rank(list[j].distance)
}

/// The first `k` entries, or all where there are fewer.
pub open spec fn head(list: Seq<Neighbor>, k: int) -> Seq<Neighbor> {
    if k < list.len() {
        list.take(k)
    } else {
        list
    }
}

/// The `k` nearest points, from near to far.
pub open spec fn nearest(points: Seq<Neighbor>, k: int) -> Seq<Neighbor> {
    head(ranked(points), k)
}

/// Candidate `i` with its distance.
pub open spec fn paired(candidates: Seq<usize>, distances: Seq<u32>) -> Seq<Neighbor> {
    Seq::new(
        candidates.len(),
        |i: int| Neighbor { id: candidates[i] as u32, distance: distances[i] },
    )
}

/// The points of a bitmap for which there is a row of data, in ascending order.
pub fn brute_force_candidates(bitmap: &BitSet, nrows: usize) -> (candidates: Vec<usize>)
    ensures
        candidates@.to_set() == members(*bitmap).filter(|id: usize| id < nrows),
        forall|i: int, j: int|
            0 <= i < j < candidates@.len() ==> candidates@[i] < candidates@[j],
{
    let list = list_bits(bitmap);
    let n: usize = list.len();
    let mut candidates: Vec<usize> = Vec::new();
    for i in 0..n
        invariant
            n == list@.len(),
            forall|a: int, b: int| 0 <= a < b < list@.len() ==> list@[a] < list@[b],
            forall|a: int, b: int|
                0 <= a < b < candidates@.len() ==> candidates@[a] < candidates@[b],
            forall|id: usize| #[trigger]
                candidates@.contains(id) <==> id < nrows && list@.take(i as int).contains(id),
    {
        let id: usize = list[i];
        let ghost before = candidates@;
        let ghost earlier = list@.take(i as int);
        let ghost later = list@.take(i + 1);
        if id < nrows {
            proof {
                assert forall|a: int| 0 <= a < before.len() implies before[a] < id by {
                    assert(before.contains(before[a]));
                    let k = earlier.index_of(before[a]);
                    assert(list@[k] == before[a]);
                }
            }
            candidates.push(id);
        }
        proof {
            assert(later =~= earlier.push(id));
            assert(later[i as int] == id);
            assert forall|x: usize| #[trigger] candidates@.contains(x) <==> x < nrows
                && later.contains(x) by {
                if earlier.contains(x) {
                    let k = earlier.index_of(x);
                    assert(later[k] == x);
                }
                if before.contains(x) {
                    let k = before.index_of(x);
                    assert(candidates@[k] == x);
                }
                if x == id && id < nrows {
                    assert(candidates@[before.len() as int] == x);
                }
            }
        }
    }
    assert(list@.take(n as int) =~= list@);
    assert(candidates@.to_set() =~= members(*bitmap).filter(|id: usize| id < nrows)) by {
        assert forall|id: usize| members(*bitmap).contains(id) <==> list@.contains(id) by {
            assert(list@.to_set().contains(id) <==> list@.contains(id));
        }
    }
    candidates
}

/// The `k` nearest candidates, from near to far. Of candidates at the same distance the one
/// that came first is preferred; what has no distance comes last.
pub fn brute_force_topk(
    candidates: &Vec<usize>,
    distances: &Vec<u32>,
    k: usize,
) -> (best: Vec<Neighbor>)
    requires
        distances@.len() == candidates@.len(),
    ensures
        best@ == nearest(paired(candidates@, distances@), k as int),
{
    let n: usize = candidates.len();
    let mut points: Vec<Neighbor> = Vec::with_capacity(n);
    for i in 0..n
        invariant
            n == candidates@.len(),
            n == distances@.len(),
            points@ == paired(candidates@, distances@).take(i as int),
    {
        points.push(Neighbor { id: candidates[i] as u32, distance: distances[i] });
        assert(points@ =~= paired(candidates@, distances@).take(i + 1));
    }
    assert(points@ =~= paired(candidates@, distances@));
    select_nearest(&points, k)
}

/// The ids of the `k` nearest candidates, from near to far.
pub fn brute_force_knn(candidates: &Vec<usize>, distances: &Vec<u32>, k: usize) -> (ids: Vec<u32>)
    requires
        distances@.len() == candidates@.len(),
    ensures
        ids@ == nearest(paired(candidates@, distances@), k as int).map_values(|x: Neighbor| x.id),
{
    let best = brute_force_topk(candidates, distances, k);
    ids_of_points(&best)
}

/// The `k` nearest of the points, from near to far.
pub(crate) fn select_nearest(points: &Vec<Neighbor>, k: usize) -> (best: Vec<Neighbor>)
    ensures
        best@ == nearest(points@, k as int),
{
    let n: usize = points.len();
    let mut best: Vec<Neighbor> = Vec::new();
    assert(points@.take(0) =~= Seq::<Neighbor>::empty());
    assert(best@ =~= nearest(points@.take(0), k as int));
    for i in 0..n
        invariant
            n == points@.len(),
            best@ == nearest(points@.take(i as int), k as int),
    {
        proof {
            assert(points@.take(i + 1).drop_last() =~= points@.take(i as int));
            lemma_ranked(points@.take(i as int));
        }
        insert_bounded(&mut best, points[i], k, Ghost(ranked(points@.take(i as int))));
    }
    assert(points@.take(n as int) =~= points@);
    best
}

/// The ids of a list of points.
pub(crate) fn ids_of_points(points: &Vec<Neighbor>) -> (ids: Vec<u32>)
    ensures
        ids@ == points@.map_values(|x: Neighbor| x.id),
{
    let n: usize = points.len();
    let mut ids: Vec<u32> = Vec::with_capacity(n);
    for i in 0..n
        invariant
            n == points@.len(),
            ids@ == points@.take(i as int).map_values(|x: Neighbor| x.id),
    {
        ids.push(points[i].id);
        assert(ids@ =~= points@.take(i + 1).map_values(|x: Neighbor| x.id));
    }
    assert(points@.take(n as int) =~= points@);
    ids
}

/// Puts a point into the list of the `k` nearest.
fn insert_bounded(
    best: &mut Vec<Neighbor>,
    point: Neighbor,
    k: usize,
    Ghost(all): Ghost<Seq<Neighbor>>,
)
    requires
        near_to_far(all),
        old(best)@ == head(all, k as int),
    ensures
        final(best)@ == head(insert_ranked(all, point), k as int),
{
    let new_rank: i64 = distance_rank(point.distance);
    let mut at: usize = best.len();
    while at > 0 && distance_rank(best[at - 1].distance) > new_rank
        invariant
            at <= best@.len(),
            new_rank == rank(point.distance),
            forall|j: int| at <= j < best@.len() ==> rank(#[trigger] best@[j].distance) > new_rank,
        decreases at,
    {
        at = at - 1;
    }
    proof {
        lemma_insert_at(best@, point, at as int);
        lemma_insert_head(all, point, k as int);
    }
    best.insert(at, point);
    if best.len() > k {
        best.truncate(k);
    }
}

/// Where `insert_ranked` puts a point: behind the last one that is not farther.
proof fn lemma_insert_at(list: Seq<Neighbor>, x: Neighbor, at: int)
    requires
        0 <= at <= list.len(),
        at > 0 ==> rank(list[at - 1].distance) <= rank(x.distance),
        forall|i: int|
            at <= i < list.len() ==> rank(#[trigger] list[i].distance) > rank(x.distance),
    ensures
        insert_ranked(list, x) == list.insert(at, x),
    decreases list.len(),
{
    if list.len() == 0 || rank(list.last().distance) <= rank(x.distance) {
        assert(at == list.len()) by {
            if at < list.len() {
                assert(rank(list[list.len() - 1].distance) > rank(x.distance));
            }
        }
        assert(list.insert(at, x) =~= list.push(x));
    } else {
        lemma_insert_at(list.drop_last(), x, at);
        assert(list.insert(at, x) =~= list.drop_last().insert(at, x).push(list.last()));
    }
}

/// Inserting keeps the order and every point, and adds one.
proof fn lemma_insert(list: Seq<Neighbor>, x: Neighbor)
    requires
        near_to_far(list),
    ensures
        near_to_far(insert_ranked(list, x)),
        insert_ranked(list, x).len() == list.len() + 1,
        insert_ranked(list, x).to_multiset() == list.to_multiset().insert(x),
    decreases list.len(),
{
    broadcast use vstd::seq_lib::group_to_multiset_ensures;

    if list.len() == 0 || rank(list.last().distance) <= rank(x.distance) {
    } else {
        let rest = list.drop_last();
        let inserted = insert_ranked(rest, x);
        lemma_insert(rest, x);
        assert(rest.push(list.last()) =~= list);
        assert forall|i: int| 0 <= i < inserted.len() implies rank(
            #[trigger] inserted[i].distance,
        ) <= rank(list.last().distance) by {
            assert(inserted.to_multiset().contains(inserted[i])) by {
                assert(inserted.contains(inserted[i]));
            }
            if inserted[i] != x {
                assert(rest.to_multiset().contains(inserted[i]));
                assert(rest.contains(inserted[i]));
                let j = rest.index_of(inserted[i]);
                assert(list[j] == inserted[i]);
            }
        }
    }
}

/// Ranking keeps every point and puts them in order.
pub(crate) proof fn lemma_ranked(points: Seq<Neighbor>)
    ensures
        near_to_far(ranked(points)),
        ranked(points).len() == points.len(),
        ranked(points).to_multiset() == points.to_multiset(),
    decreases points.len(),
{
    broadcast use vstd::seq_lib::group_to_multiset_ensures;

    if points.len() > 0 {
        let rest = points.drop_last();
        lemma_ranked(rest);
        lemma_insert(ranked(rest), points.last());
        assert(rest.push(points.last()) =~= points);
    }
}

/// What is beyond the first `k` entries has no say in the first `k` after an insertion.
proof fn lemma_insert_head(all: Seq<Neighbor>, x: Neighbor, k: int)
    requires
        0 <= k,
        near_to_far(all),
    ensures
        head(insert_ranked(head(all, k), x), k) == head(insert_ranked(all, x), k),
    decreases all.len(),
{
    lemma_insert(all, x);
    if k < all.len() {
        let rest = all.drop_last();
        lemma_insert_head(rest, x, k);
        lemma_insert(rest, x);
        assert(head(rest, k) =~= head(all, k));
        assert(head(insert_ranked(all, x), k) =~= head(insert_ranked(rest, x), k)) by {
            lemma_insert(rest, x);
            if all.len() == 0 || rank(all.last().distance) <= rank(x.distance) {
                // The new point goes behind every entry that is kept.
                lemma_insert_at(rest, x, rest.len() as int);
            }
        }
    }
}

} // verus!
