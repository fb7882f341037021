//! What counts as a duplicate, and what is left when duplicates are taken
//! out.

use std::collections::HashSet;
use vstd::prelude::*;
use crate::craft::components::Rod;
use crate::scalar::Scalar;

verus! {

/// The rods of `rods` that join a pair of nodes which no earlier rod joins,
/// in their old order.
pub open spec fn distinct_pairs(rods: Seq<Rod>) -> Seq<Rod>
    decreases rods.len(),
{
    if rods.len() == 0 {
        rods
    } else {
        let rest = distinct_pairs(rods.drop_last());
        if joined_before(rods, rods.len() - 1) {
            rest
        } else {
            rest.push(rods.last())
        }
    }
}

/// True when a rod before the one at `index` joins the same pair of nodes.
pub open spec fn joined_before(rods: Seq<Rod>, index: int) -> bool {
    exists|j: int| 0 <= j < index && (#[trigger] rods[j]).same_pair(rods[index])
}

/// True when a rod of `rods` joins the pair of nodes that `rod` joins.
pub open spec fn joins_pair_of(rods: Seq<Rod>, rod: Rod) -> bool {
    exists|q: int| 0 <= q < rods.len() && (#[trigger] rods[q]).same_pair(rod)
}

/// True when no two rods of `rods` join the same pair of nodes.
pub open spec fn pairs_are_distinct(rods: Seq<Rod>) -> bool {
    forall|i: int, j: int|
        0 <= i < j < rods.len() ==> !(#[trigger] rods[i]).same_pair(#[trigger] rods[j])
}

/// A number that two rods share exactly when they join the same pair of
/// nodes: the smaller index times 2^64, plus the larger.
pub open spec fn pair_key(rod: Rod) -> int {
    if rod.node_a <= rod.node_b {
        rod.node_a * 0x1_0000_0000_0000_0000 + rod.node_b
    } else {
        rod.node_b * 0x1_0000_0000_0000_0000 + rod.node_a
    }
}

pub proof fn lemma_pair_key(a: Rod, b: Rod)
    ensures
        pair_key(a) == pair_key(b) <==> a.same_pair(b),
{
    assert(usize::MAX < 0x1_0000_0000_0000_0000);
}

/// Every rod that is kept was there before; the pair of every rod that was
/// there is still joined; and no pair is joined twice.
pub proof fn lemma_distinct_pairs(rods: Seq<Rod>)
    ensures
        distinct_pairs(rods).len() <= rods.len(),
        forall|q: int|
            0 <= q < distinct_pairs(rods).len() ==> rods.contains(#[trigger] distinct_pairs(rods)[q]),
        forall|i: int|
            0 <= i < rods.len() ==> joins_pair_of(distinct_pairs(rods), #[trigger] rods[i]),
        pairs_are_distinct(distinct_pairs(rods)),
    decreases rods.len(),
{
    if rods.len() > 0 {
        let front = rods.drop_last();
        let rest = distinct_pairs(front);
        let all = distinct_pairs(rods);
        let last = rods.last();
        lemma_distinct_pairs(front);
        assert forall|q: int| 0 <= q < all.len() implies rods.contains(#[trigger] all[q]) by {
            if q < rest.len() {
                assert(front.contains(rest[q]));
                let at = choose|at: int| 0 <= at < front.len() && front[at] == rest[q];
                assert(rods[at] == all[q]);
            } else {
                assert(rods[rods.len() - 1] == all[q]);
            }
        }
        assert forall|i: int| 0 <= i < rods.len() implies joins_pair_of(all, #[trigger] rods[i]) by {
            if i < front.len() {
                assert(front[i] == rods[i]);
                assert(joins_pair_of(rest, front[i]));
                let q = choose|q: int| 0 <= q < rest.len() && (#[trigger] rest[q]).same_pair(front[i]);
                assert(all[q].same_pair(rods[i]));
            } else if joined_before(rods, rods.len() - 1) {
                let j = choose|j: int| 0 <= j < rods.len() - 1 && (#[trigger] rods[j]).same_pair(last);
                assert(front[j] == rods[j]);
                assert(joins_pair_of(rest, front[j]));
                let q = choose|q: int| 0 <= q < rest.len() && (#[trigger] rest[q]).same_pair(front[j]);
                assert(all[q].same_pair(rods[i]));
            } else {
                assert(all[all.len() - 1].same_pair(rods[i]));
            }
        }
        assert forall|i: int, j: int| 0 <= i < j < all.len() implies !(#[trigger] all[i]).same_pair(
            #[trigger] all[j],
        ) by {
            if j < rest.len() {
                assert(!rest[i].same_pair(rest[j]));
            } else {
                assert(front.contains(rest[i]));
                let at = choose|at: int| 0 <= at < front.len() && front[at] == rest[i];
                assert(rods[at] == rest[i]);
                if rods[at].same_pair(last) {
                    assert(joined_before(rods, rods.len() - 1));
                }
            }
        }
    }
}

/// Where no pair is joined twice there is nothing to take out.
pub proof fn lemma_distinct_pairs_keeps_distinct(rods: Seq<Rod>)
    requires
        pairs_are_distinct(rods),
    ensures
        distinct_pairs(rods) == rods,
    decreases rods.len(),
{
    if rods.len() > 0 {
        let front = rods.drop_last();
        assert forall|i: int, j: int| 0 <= i < j < front.len() implies !(#[trigger] front[i]).same_pair(
            #[trigger] front[j],
        ) by {
            assert(front[i] == rods[i] && front[j] == rods[j]);
        }
        lemma_distinct_pairs_keeps_distinct(front);
        if joined_before(rods, rods.len() - 1) {
            let j = choose|j: int| 0 <= j < rods.len() - 1 && (#[trigger] rods[j]).same_pair(rods.last());
            assert(!rods[j].same_pair(rods[rods.len() - 1]));
        }
        assert(front.push(rods.last()) =~= rods);
    }
}

/// The first position at or after `from` in `kept` whose node is nearer to
/// the node of `row` than `threshold`; the length of `kept` when there is
/// none. `row` holds the distance from one node to every node.
pub open spec fn first_close(kept: Seq<int>, row: Seq<Scalar>, threshold: Scalar, from: int) -> int
    decreases kept.len() - from,
{
    if from >= kept.len() {
        kept.len() as int
    } else if row[kept[from]].lt(threshold) {
        from
    } else {
        first_close(kept, row, threshold, from + 1)
    }
}

/// The nodes among the first `count` that are kept when each node within
/// `threshold` of an earlier kept node is merged into the first such node.
/// `distances[i][j]` is the distance between node `i` and node `j`.
pub open spec fn representatives(distances: Seq<Seq<Scalar>>, threshold: Scalar, count: nat) -> Seq<int>
    decreases count,
{
    if count == 0 {
        Seq::empty()
    } else {
        let kept = representatives(distances, threshold, (count - 1) as nat);
        if first_close(kept, distances[count - 1], threshold, 0) < kept.len() {
            kept
        } else {
            kept.push(count - 1)
        }
    }
}

/// The position, among the kept nodes, of the node that node `index`
/// becomes.
pub open spec fn home(distances: Seq<Seq<Scalar>>, threshold: Scalar, index: int) -> int {
    first_close(representatives(distances, threshold, index as nat), distances[index], threshold, 0)
}

/// A table of distances, row by row.
pub open spec fn table(distances: Seq<Vec<Scalar>>) -> Seq<Seq<Scalar>> {
    distances.map_values(|row: Vec<Scalar>| row@)
}

/// `first_close` answers with a position at or after `from` and at most the
/// length of `kept`; the node there is close, and no node between is.
pub proof fn lemma_first_close(kept: Seq<int>, row: Seq<Scalar>, threshold: Scalar, from: int)
    requires
        0 <= from <= kept.len(),
    ensures
        from <= first_close(kept, row, threshold, from) <= kept.len(),
        first_close(kept, row, threshold, from) < kept.len() ==> row[kept[first_close(
            kept,
            row,
            threshold,
            from,
        )]].lt(threshold),
        forall|q: int|
            from <= q < first_close(kept, row, threshold, from) ==> !row[#[trigger] kept[q]].lt(
                threshold,
            ),
    decreases kept.len() - from,
{
    if from < kept.len() && !row[kept[from]].lt(threshold) {
        lemma_first_close(kept, row, threshold, from + 1);
    }
}

/// The kept nodes are named in ascending order, and every node has a home
/// among the nodes kept up to and including itself.
pub proof fn lemma_representatives(distances: Seq<Seq<Scalar>>, threshold: Scalar, count: nat)
    ensures
        representatives(distances, threshold, count).len() <= count,
        forall|q: int|
            0 <= q < representatives(distances, threshold, count).len() ==> 0
                <= #[trigger] representatives(distances, threshold, count)[q] < count,
        forall|p: int, q: int|
            0 <= p < q < representatives(distances, threshold, count).len() ==> representatives(
                distances,
                threshold,
                count,
            )[p] < representatives(distances, threshold, count)[q],
        forall|i: int|
            0 <= i < count ==> 0 <= #[trigger] home(distances, threshold, i) < representatives(
                distances,
                threshold,
                count,
            ).len(),
    decreases count,
{
    if count > 0 {
        let kept = representatives(distances, threshold, (count - 1) as nat);
        lemma_representatives(distances, threshold, (count - 1) as nat);
        lemma_first_close(kept, distances[count - 1], threshold, 0);
    }
}

/// The nodes kept among the first `count` are the first of the nodes kept
/// among more.
pub proof fn lemma_representatives_grow(
    distances: Seq<Seq<Scalar>>,
    threshold: Scalar,
    count: nat,
    more: nat,
)
    requires
        count <= more,
    ensures
        representatives(distances, threshold, count).len() <= representatives(
            distances,
            threshold,
            more,
        ).len(),
        forall|q: int|
            0 <= q < representatives(distances, threshold, count).len() ==> representatives(
                distances,
                threshold,
                more,
            )[q] == #[trigger] representatives(distances, threshold, count)[q],
    decreases more - count,
{
    if count < more {
        lemma_representatives_grow(distances, threshold, count, (more - 1) as nat);
    }
}

/// Where merged nodes go: a node is kept, and is its own home, when no
/// node kept before it is nearer than `threshold`; else its home is the
/// first kept node that is nearer than `threshold`.
pub proof fn lemma_home(distances: Seq<Seq<Scalar>>, threshold: Scalar, count: nat, index: int)
    requires
        0 <= index < count,
    ensures
        0 <= home(distances, threshold, index) < representatives(distances, threshold, count).len(),
        ({
            let kept = representatives(distances, threshold, count);
            let at = home(distances, threshold, index);
            &&& kept[at] <= index
            &&& kept[at] < index ==> distances[index][kept[at]].lt(threshold)
            &&& forall|q: int| 0 <= q < at ==> !distances[index][#[trigger] kept[q]].lt(threshold)
        }),
{
    let before = representatives(distances, threshold, index as nat);
    let with_it = representatives(distances, threshold, (index + 1) as nat);
    let kept = representatives(distances, threshold, count);
    let at = home(distances, threshold, index);
    lemma_representatives(distances, threshold, index as nat);
    lemma_first_close(before, distances[index], threshold, 0);
    lemma_representatives_grow(distances, threshold, index as nat, (index + 1) as nat);
    lemma_representatives_grow(distances, threshold, (index + 1) as nat, count);
    if at < before.len() {
        assert(kept[at] == with_it[at]);
        assert(with_it[at] == before[at]);
    } else {
        assert(with_it[at] == index);
    }
    assert forall|q: int| 0 <= q < at implies !distances[index][#[trigger] kept[q]].lt(
        threshold,
    ) by {
        assert(kept[q] == with_it[q]);
        assert(with_it[q] == before[q]);
    }
}

/// The key under which the pair of nodes of `rod` is remembered.
fn key_of(rod: Rod) -> (key: u128)
    ensures
        key == pair_key(rod),
{
    let (low, high) = if rod.node_a <= rod.node_b {
        (rod.node_a, rod.node_b)
    } else {
        (rod.node_b, rod.node_a)
    };
    (low as u128) * 0x1_0000_0000_0000_0000u128 + (high as u128)
}

/// True when one of the first `count` rods has the key `key`.
spec fn key_seen(rods: Seq<Rod>, count: int, key: int) -> bool {
    exists|j: int| 0 <= j < count && pair_key(#[trigger] rods[j]) == key
}

/// The rods of `rods` that join a pair of nodes which no earlier rod
/// joins, in their old order.
pub fn first_of_each_pair(rods: &Vec<Rod>) -> (kept: Vec<Rod>)
    ensures
        kept@ == distinct_pairs(rods@),
{
    broadcast use vstd::std_specs::hash::group_hash_axioms;

    let ghost before = rods@;
    let mut seen: HashSet<u128> = HashSet::new();
    let mut kept: Vec<Rod> = Vec::new();
    let mut i: usize = 0;
    proof {
        assert(before.take(0) =~= Seq::<Rod>::empty());
    }
    while i < rods.len()
        invariant
            i <= rods@.len(),
            rods@ == before,
            kept@ == distinct_pairs(before.take(i as int)),
            forall|key: u128| seen@.contains(key) <==> key_seen(before, i as int, key as int),
        decreases rods.len() - i,
    {
        let rod = rods[i];
        let key = key_of(rod);
        let ghost seen_before = seen@;
        let fresh = seen.insert(key);
        proof {
            let front = before.take(i as int);
            let more = before.take(i + 1);
            assert(more.drop_last() =~= front);
            assert(more.last() == rod);
            if joined_before(more, i as int) {
                let j = choose|j: int| 0 <= j < i && (#[trigger] more[j]).same_pair(more[i as int]);
                lemma_pair_key(before[j], rod);
                assert(key_seen(before, i as int, key as int));
            }
            if key_seen(before, i as int, key as int) {
                let j = choose|j: int| 0 <= j < i && pair_key(#[trigger] before[j]) == key;
                lemma_pair_key(before[j], rod);
                assert(more[j].same_pair(more[i as int]));
                assert(joined_before(more, i as int));
            }
            assert(fresh == !joined_before(more, i as int));
            assert forall|other: u128| seen@.contains(other) <==> key_seen(
                before,
                i + 1,
                other as int,
            ) by {
                if key_seen(before, i + 1, other as int) {
                    let j = choose|j: int|
                        0 <= j < i + 1 && pair_key(#[trigger] before[j]) == other;
                    if j < i {
                        assert(key_seen(before, i as int, other as int));
                    }
                }
                if seen_before.contains(other) {
                    let j = choose|j: int|
                        0 <= j < i && pair_key(#[trigger] before[j]) == other;
                    assert(0 <= j < i + 1);
                }
                if other == key {
                    assert(pair_key(before[i as int]) == other);
                }
            }
        }
        if fresh {
            kept.push(rod);
        }
        i += 1;
    }
    proof {
        assert(before.take(before.len() as int) =~= before);
    }
    kept
}


} // verus!
