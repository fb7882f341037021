//! Editing a craft.
//!
//! Every operation here leaves a consistent craft consistent.

use vstd::prelude::*;
use crate::craft::Craft;
use crate::craft::duplicates::{
    first_close, home, lemma_first_close, lemma_representatives, representatives, table,
};
use crate::craft::compaction::{
    batch, compact, identity, ints, lemma_batch, lemma_place, lemma_place_after_swap_pop,
    lemma_place_in_range, lemma_survivors, lemma_swap_pop_step, names_slots, place, redirect,
    survivors, swap_pop, targets,
};
use crate::craft::components::{Node, NodeType, Point, Rod, RodType};
use crate::scalar::Scalar;

verus! {

/// For each slot below `n`, whether `ids` names it.
fn mark_members(ids: &[usize], n: usize) -> (marks: Vec<bool>)
    ensures
        marks@.len() == n,
        forall|x: int| 0 <= x < n ==> marks@[x] == ids@.contains(x as usize),
{
    let mut marks: Vec<bool> = Vec::new();
    let mut x: usize = 0;
    while x < n
        invariant
            x <= n,
            marks@.len() == x,
            forall|y: int| 0 <= y < x ==> !marks@[y],
        decreases n - x,
    {
        marks.push(false);
        x += 1;
    }
    let mut j: usize = 0;
    while j < ids.len()
        invariant
            j <= ids@.len(),
            marks@.len() == n,
            forall|y: int| 0 <= y < n ==> marks@[y] == ids@.take(j as int).contains(y as usize),
        decreases ids.len() - j,
    {
        let id = ids[j];
        let ghost before = ids@.take(j as int);
        let ghost after = ids@.take(j + 1);
        proof {
            assert(after =~= before.push(id));
            assert forall|y: usize| after.contains(y) <==> (before.contains(y) || y == id) by {
                if before.contains(y) {
                    let p = choose|p: int| 0 <= p < before.len() && before[p] == y;
                    assert(after[p] == y);
                }
                if y == id {
                    assert(after[j as int] == y);
                }
            }
        }
        if id < n {
            marks.set(id, true);
        }
        j += 1;
    }
    proof {
        assert(ids@.take(ids@.len() as int) =~= ids@);
    }
    marks
}

/// The marked slots, in ascending order.
fn marked_slots(marks: &Vec<bool>, Ghost(ids): Ghost<Seq<usize>>) -> (pending: Vec<usize>)
    requires
        forall|x: int| 0 <= x < marks@.len() ==> marks@[x] == ids.contains(x as usize),
    ensures
        ints(pending@) == batch(ids, marks@.len()),
{
    let mut pending: Vec<usize> = Vec::new();
    let mut x: usize = 0;
    while x < marks.len()
        invariant
            x <= marks@.len(),
            forall|y: int| 0 <= y < marks@.len() ==> marks@[y] == ids.contains(y as usize),
            ints(pending@) =~= batch(ids, x as nat),
        decreases marks.len() - x,
    {
        if marks[x] {
            pending.push(x);
        }
        x += 1;
    }
    pending
}

/// The rods of which neither end is marked, in their old order.
fn rods_avoiding(rods: &Vec<Rod>, marks: &Vec<bool>, Ghost(ids): Ghost<Seq<usize>>) -> (kept: Vec<
    Rod,
>)
    requires
        forall|x: int| 0 <= x < marks@.len() ==> marks@[x] == ids.contains(x as usize),
        forall|i: int|
            0 <= i < rods@.len() ==> (#[trigger] rods@[i]).node_a < marks@.len() && rods@[i].node_b
                < marks@.len(),
    ensures
        kept@ == rods@.filter(|rod: Rod| rod.avoids(ids)),
{
    let mut kept: Vec<Rod> = Vec::new();
    let mut i: usize = 0;
    proof {
        assert(rods@.take(0) =~= Seq::<Rod>::empty());
        reveal(Seq::filter);
    }
    while i < rods.len()
        invariant
            i <= rods@.len(),
            forall|x: int| 0 <= x < marks@.len() ==> marks@[x] == ids.contains(x as usize),
            forall|j: int|
                0 <= j < rods@.len() ==> (#[trigger] rods@[j]).node_a < marks@.len()
                    && rods@[j].node_b < marks@.len(),
            kept@ == rods@.take(i as int).filter(|rod: Rod| rod.avoids(ids)),
        decreases rods.len() - i,
    {
        let rod = rods[i];
        proof {
            assert(rods@.take(i + 1) =~= rods@.take(i as int).push(rod));
            Seq::lemma_filter_push(rods@.take(i as int), rod, |rod: Rod| rod.avoids(ids));
        }
        if !marks[rod.node_a] && !marks[rod.node_b] {
            kept.push(rod);
        }
        i += 1;
    }
    proof {
        assert(rods@.take(rods@.len() as int) =~= rods@);
    }
    kept
}

/// Makes every rod that ends at `from` end at `to` instead.
fn redirect_rods(rods: &mut Vec<Rod>, from: usize, to: usize)
    ensures
        final(rods)@ == old(rods)@.map_values(|rod: Rod| rod.redirected(from, to)),
{
    let mut i: usize = 0;
    while i < rods.len()
        invariant
            i <= rods@.len(),
            rods@.len() == old(rods)@.len(),
            forall|j: int| 0 <= j < i ==> rods@[j] == old(rods)@[j].redirected(from, to),
            forall|j: int| i <= j < rods@.len() ==> rods@[j] == old(rods)@[j],
        decreases rods.len() - i,
    {
        let rod = rods[i];
        let node_a = if rod.node_a == from {
            to
        } else {
            rod.node_a
        };
        let node_b = if rod.node_b == from {
            to
        } else {
            rod.node_b
        };
        rods.set(i, Rod { node_a, node_b, length: rod.length, rod_type: rod.rod_type });
        i += 1;
    }
    proof {
        assert(rods@ =~= old(rods)@.map_values(|rod: Rod| rod.redirected(from, to)));
    }
}

/// Makes every slot after position `done` that is `from` be `to` instead.
fn redirect_pending(pending: &mut Vec<usize>, done: usize, from: usize, to: usize)
    requires
        done < old(pending)@.len(),
    ensures
        final(pending)@.len() == old(pending)@.len(),
        final(pending)@.take(done + 1) == old(pending)@.take(done + 1),
        ints(final(pending)@.skip(done + 1)) == redirect(
            ints(old(pending)@.skip(done + 1)),
            from as int,
            to as int,
        ),
{
    let len = pending.len();
    let mut p: usize = done + 1;
    while p < len
        invariant
            done < p <= pending@.len(),
            pending@.len() == old(pending)@.len(),
            forall|q: int| 0 <= q <= done ==> pending@[q] == old(pending)@[q],
            forall|q: int|
                done < q < p ==> pending@[q] == if old(pending)@[q] == from {
                    to
                } else {
                    old(pending)@[q]
                },
            forall|q: int| p <= q < pending@.len() ==> pending@[q] == old(pending)@[q],
            len == pending@.len(),
        decreases len - p,
    {
        if pending[p] == from {
            pending.set(p, to);
        }
        p += 1;
    }
    proof {
        assert(pending@.take(done + 1) =~= old(pending)@.take(done + 1));
        assert(ints(pending@.skip(done + 1)) =~= redirect(
            ints(old(pending)@.skip(done + 1)),
            from as int,
            to as int,
        ));
    }
}

/// `index` is the first place of `distances` that holds its least member,
/// by the total order.
pub open spec fn is_first_least(distances: Seq<Scalar>, index: int) -> bool {
    &&& 0 <= index < distances.len()
    &&& forall|j: int|
        0 <= j < distances.len() ==> distances[index].total_le(#[trigger] distances[j])
    &&& forall|j: int| 0 <= j < index ==> distances[index].total_lt(#[trigger] distances[j])
}

/// `index` is the first place of `distances` that holds the least of its
/// members below `threshold`, by the total order.
pub open spec fn is_first_least_below(distances: Seq<Scalar>, threshold: Scalar, index: int) -> bool {
    &&& 0 <= index < distances.len()
    &&& distances[index].lt(threshold)
    &&& forall|j: int|
        0 <= j < distances.len() && (#[trigger] distances[j]).lt(threshold)
            ==> distances[index].total_le(distances[j])
    &&& forall|j: int|
        0 <= j < index && (#[trigger] distances[j]).lt(threshold) ==> distances[index].total_lt(
            distances[j],
        )
}

/// The first place of `distances` that holds the least of its members
/// below `threshold`. `None` when no member is below `threshold`.
pub fn nearest_below(distances: &[Scalar], threshold: Scalar) -> (nearest: Option<usize>)
    ensures
        match nearest {
            Some(index) => is_first_least_below(distances@, threshold, index as int),
            None => forall|j: int|
                0 <= j < distances@.len() ==> !(#[trigger] distances@[j]).lt(threshold),
        },
{
    let mut best: Option<usize> = None;
    let mut i: usize = 0;
    while i < distances.len()
        invariant
            i <= distances@.len(),
            match best {
                Some(index) => is_first_least_below(
                    distances@.take(i as int),
                    threshold,
                    index as int,
                ),
                None => forall|j: int|
                    0 <= j < i ==> !(#[trigger] distances@[j]).lt(threshold),
            },
        decreases distances.len() - i,
    {
        let ghost seen = distances@.take(i as int);
        let ghost more = distances@.take(i + 1);
        proof {
            assert(forall|j: int| 0 <= j < i ==> more[j] == seen[j]);
        }
        if distances[i].lt(threshold) {
            match best {
                Some(index) => {
                    if distances[i].total_lt(distances[index]) {
                        best = Some(i);
                    }
                },
                None => {
                    best = Some(i);
                },
            }
        }
        i += 1;
    }
    proof {
        assert(distances@.take(distances@.len() as int) =~= distances@);
    }
    best
}

/// In a list of distances only one place is the first that holds the least.
pub proof fn lemma_first_least_is_one(distances: Seq<Scalar>, first: int, second: int)
    requires
        is_first_least(distances, first),
        is_first_least(distances, second),
    ensures
        first == second,
{
    if first < second {
        assert(distances[second].total_lt(distances[first]));
        assert(distances[first].total_le(distances[second]));
    }
    if second < first {
        assert(distances[first].total_lt(distances[second]));
        assert(distances[second].total_le(distances[first]));
    }
}

/// In a list of distances only one place is the first that holds the least
/// below `threshold`.
pub proof fn lemma_first_least_below_is_one(
    distances: Seq<Scalar>,
    threshold: Scalar,
    first: int,
    second: int,
)
    requires
        is_first_least_below(distances, threshold, first),
        is_first_least_below(distances, threshold, second),
    ensures
        first == second,
{
    if first < second {
        assert(distances[second].total_lt(distances[first]));
        assert(distances[first].total_le(distances[second]));
    }
    if second < first {
        assert(distances[first].total_lt(distances[second]));
        assert(distances[second].total_le(distances[first]));
    }
}

/// The square of the distance, 50.0, below which two nodes count as one.
pub const THRESHOLD_BITS: u32 = 0x451C_4000;

/// Edits the craft it holds.
#[derive(Debug)]
pub struct CraftManager {
    pub c: Craft,
}

impl CraftManager {
    /// Adds a node at rest at `pos`, and returns its index.
    pub fn add_node(&mut self, pos: Point, node_type: NodeType) -> (index: usize)
        ensures
            index == old(self).c@.nodes.len(),
            final(self).c@ == old(self).c@.with_node(Node { pos, prev_pos: pos, node_type }),
            old(self).c.wf() ==> final(self).c.wf(),
    {
        self.c.nodes.push(Node { pos, prev_pos: pos, node_type });
        self.c.nodes.len() - 1
    }

    /// Adds a rod of the given length between two nodes, and returns its
    /// index. Without two such nodes nothing is added.
    pub fn add_rod(&mut self, node1: usize, node2: usize, length: Scalar, rod_type: RodType) -> (index:
        Option<usize>)
        ensures
            index is Some <==> (node1 < old(self).c@.nodes.len() && node2 < old(
                self,
            ).c@.nodes.len()),
            index is Some ==> index->0 == old(self).c@.rods.len() && final(self).c@ == old(
                self,
            ).c@.with_rod(Rod { node_a: node1, node_b: node2, length, rod_type }),
            index is None ==> final(self).c@ == old(self).c@,
            old(self).c.wf() ==> final(self).c.wf(),
    {
        let n = self.c.nodes.len();
        if node1 >= n || node2 >= n {
            return None;
        }
        self.c.rods.push(Rod { node_a: node1, node_b: node2, length, rod_type });
        Some(self.c.rods.len() - 1)
    }

    /// Removes the nodes that `node_ids` names, and the rods that end at
    /// them. Each removed node gives its slot to the node that is last at
    /// that moment. An index that names no node is passed over, and so is
    /// a second mention of an index.
    pub fn remove_nodes(&mut self, node_ids: &[usize])
        requires
            old(self).c.wf(),
        ensures
            final(self).c@ == old(self).c@.without_nodes(node_ids@),
            final(self).c.wf(),
    {
        let n = self.c.nodes.len();
        let ghost ids = node_ids@;
        let ghost before = self.c@;
        let ghost layout = survivors(n as nat, ids);
        let marks = mark_members(node_ids, n);
        let kept_rods = rods_avoiding(&self.c.rods, &marks, Ghost(ids));
        let ghost kept = kept_rods@;
        self.c.rods = kept_rods;
        let mut pending = marked_slots(&marks, Ghost(ids));
        let ghost mut origin = identity(n as nat);
        proof {
            lemma_batch(ids, n as nat);
            lemma_survivors(n as nat, ids);
            assert(ints(pending@).skip(0) =~= ints(pending@));
            assert(targets(origin, ints(pending@)) =~= ints(pending@));
            assert(self.c.nodes@ =~= origin.map_values(|slot: int| before.nodes[slot]));
            assert forall|q: int| 0 <= q < kept.len() implies {
                &&& (#[trigger] kept[q]).avoids(ids)
                &&& kept[q].node_a < n
                &&& kept[q].node_b < n
            } by {
                let keeps = |rod: Rod| rod.avoids(ids);
                Seq::lemma_filter_pred(before.rods, keeps, q);
                before.rods.lemma_filter_contains_rev(keeps, kept[q]);
                let at = choose|at: int| 0 <= at < before.rods.len() && before.rods[at] == kept[q];
                assert(before.rods[at].node_a < n);
            }
            assert forall|q: int| 0 <= q < kept.len() implies (#[trigger] kept[q]).relocated(origin)
                == kept[q] by {
                lemma_place(origin, kept[q].node_a as int);
                lemma_place(origin, kept[q].node_b as int);
            }
            assert(self.c.rods@ =~= kept.map_values(|rod: Rod| rod.relocated(origin)));
            assert forall|x: int| 0 <= x < n implies origin.contains(x) by {
                assert(origin[x] == x);
            }
        }
        let mut i: usize = 0;
        while i < pending.len()
            invariant
                i <= pending@.len(),
                n <= usize::MAX,
                origin.len() == self.c.nodes@.len(),
                origin.no_duplicates(),
                names_slots(origin, ints(pending@).skip(i as int)),
                compact(origin, ints(pending@).skip(i as int)) == layout,
                forall|j: int| 0 <= j < origin.len() ==> 0 <= #[trigger] origin[j] < n,
                before.nodes.len() == n,
                self.c.nodes@ == origin.map_values(|slot: int| before.nodes[slot]),
                self.c.rods@ == kept.map_values(|rod: Rod| rod.relocated(origin)),
                forall|q: int|
                    0 <= q < kept.len() ==> {
                        &&& (#[trigger] kept[q]).avoids(ids)
                        &&& kept[q].node_a < n
                        &&& kept[q].node_b < n
                    },
                forall|x: int| 0 <= x < n && !ids.contains(x as usize) ==> origin.contains(x),
                forall|p: int|
                    0 <= p < targets(origin, ints(pending@).skip(i as int)).len() ==> ids.contains(
                        #[trigger] targets(origin, ints(pending@).skip(i as int))[p] as usize,
                    ),
            decreases pending@.len() - i,
        {
            let ghost tail = ints(pending@).skip(i as int);
            let ghost named = targets(origin, tail);
            let id = pending[i];
            proof {
                assert(tail[0] == id);
                lemma_swap_pop_step(origin, tail);
                assert(named[0] == origin[id as int]);
                assert(ids.contains(named[0] as usize));
            }
            let ghost pending_before = pending@;
            let last = self.c.nodes.len() - 1;
            if id != last {
                let moved = self.c.nodes[last];
                self.c.nodes.set(id, moved);
                redirect_rods(&mut self.c.rods, last, id);
                redirect_pending(&mut pending, i, last, id);
            }
            self.c.nodes.pop();
            proof {
                let next = swap_pop(origin, id as int);
                let rest = ints(pending@).skip(i + 1);
                assert(tail.drop_first() =~= ints(pending_before.skip(i + 1)));
                assert(rest =~= ints(pending@.skip(i + 1)));
                assert(rest =~= redirect(tail.drop_first(), last as int, id as int));
                assert(self.c.nodes@ =~= next.map_values(|slot: int| before.nodes[slot]));
                assert forall|q: int| 0 <= q < kept.len() implies (#[trigger] self.c.rods@[q])
                    == kept[q].relocated(next) by {
                    let rod = kept[q];
                    assert(origin.contains(rod.node_a as int));
                    assert(origin.contains(rod.node_b as int));
                    lemma_place_in_range(origin, rod.node_a as int);
                    lemma_place_in_range(origin, rod.node_b as int);
                    lemma_place_after_swap_pop(origin, id as int, rod.node_a as int);
                    lemma_place_after_swap_pop(origin, id as int, rod.node_b as int);
                }
                assert(self.c.rods@ =~= kept.map_values(|rod: Rod| rod.relocated(next)));
                assert(targets(next, rest) == named.drop_first());
                assert forall|p: int| 0 <= p < targets(next, rest).len() implies ids.contains(
                    #[trigger] targets(next, rest)[p] as usize,
                ) by {
                    assert(named.drop_first()[p] == named[p + 1]);
                }
                assert forall|j: int| 0 <= j < next.len() implies 0 <= #[trigger] next[j] < n by {
                    if j == id {
                        assert(next[j] == origin[last as int]);
                    } else {
                        assert(next[j] == origin[j]);
                    }
                }
                assert forall|x: int| 0 <= x < n && !ids.contains(x as usize) implies next.contains(
                    x,
                ) by {
                    assert(origin.contains(x));
                    assert(x != origin[tail[0]]);
                }
                origin = next;
            }
            i += 1;
        }
        proof {
            assert(ints(pending@).skip(i as int).len() == 0);
            assert(origin == layout);
            let after = before.without_nodes(ids);
            assert(self.c@.nodes =~= after.nodes);
            assert(self.c@.rods =~= after.rods);
            assert forall|q: int| 0 <= q < self.c@.rods.len() implies {
                &&& (#[trigger] self.c@.rods[q]).node_a < self.c@.nodes.len()
                &&& self.c@.rods[q].node_b < self.c@.nodes.len()
            } by {
                lemma_place_in_range(layout, kept[q].node_a as int);
                lemma_place_in_range(layout, kept[q].node_b as int);
            }
        }
    }

    /// Removes the node at `node_id` and the rods that end at it; the
    /// nodes after it move down by one. Without such a node nothing
    /// changes.
    pub fn remove_node(&mut self, node_id: usize) -> (done: Option<()>)
        ensures
            done is Some <==> node_id < old(self).c@.nodes.len(),
            done is Some ==> final(self).c@ == old(self).c@.without_node(node_id as int),
            done is None ==> final(self).c@ == old(self).c@,
            old(self).c.wf() ==> final(self).c.wf(),
    {
        if node_id >= self.c.nodes.len() {
            return None;
        }
        let ghost before = self.c@;
        let ghost keeps = |rod: Rod| !rod.touches(node_id as int);
        let ghost shifts = |rod: Rod| rod.shifted(node_id as int);
        let mut kept: Vec<Rod> = Vec::new();
        let mut i: usize = 0;
        proof {
            assert(before.rods.take(0) =~= Seq::<Rod>::empty());
            reveal(Seq::filter);
            assert(kept@ =~= before.rods.take(0).filter(keeps).map_values(shifts));
        }
        while i < self.c.rods.len()
            invariant
                i <= self.c.rods@.len(),
                self.c@ == before,
                node_id < before.nodes.len(),
                keeps == (|rod: Rod| !rod.touches(node_id as int)),
                shifts == (|rod: Rod| rod.shifted(node_id as int)),
                kept@ == before.rods.take(i as int).filter(keeps).map_values(shifts),
            decreases self.c.rods.len() - i,
        {
            let rod = self.c.rods[i];
            proof {
                let seen = before.rods.take(i as int);
                assert(before.rods.take(i + 1) =~= seen.push(rod));
                Seq::lemma_filter_push(seen, rod, keeps);
                if keeps(rod) {
                    assert(seen.filter(keeps).push(rod).map_values(shifts) =~= seen.filter(
                        keeps,
                    ).map_values(shifts).push(shifts(rod)));
                }
            }
            if rod.node_a != node_id && rod.node_b != node_id {
                let node_a = if rod.node_a > node_id {
                    rod.node_a - 1
                } else {
                    rod.node_a
                };
                let node_b = if rod.node_b > node_id {
                    rod.node_b - 1
                } else {
                    rod.node_b
                };
                kept.push(Rod { node_a, node_b, length: rod.length, rod_type: rod.rod_type });
            }
            i += 1;
        }
        proof {
            assert(before.rods.take(before.rods.len() as int) =~= before.rods);
        }
        self.c.rods = kept;
        self.c.nodes.remove(node_id);
        proof {
            if before.wf() {
                let chosen = before.rods.filter(keeps);
                assert forall|q: int| 0 <= q < self.c@.rods.len() implies {
                    &&& (#[trigger] self.c@.rods[q]).node_a < self.c@.nodes.len()
                    &&& self.c@.rods[q].node_b < self.c@.nodes.len()
                } by {
                    Seq::lemma_filter_pred(before.rods, keeps, q);
                    before.rods.lemma_filter_contains_rev(keeps, chosen[q]);
                    let at = choose|at: int|
                        0 <= at < before.rods.len() && before.rods[at] == chosen[q];
                    assert(before.rods[at].node_a < before.nodes.len());
                }
            }
        }
        Some(())
    }

    /// Removes the rod at `rod_id`: the last rod takes its place. Without
    /// such a rod nothing changes.
    pub fn remove_rod(&mut self, rod_id: usize) -> (done: Option<()>)
        ensures
            done is Some <==> rod_id < old(self).c@.rods.len(),
            done is Some ==> final(self).c@ == old(self).c@.without_rod(rod_id as int),
            done is None ==> final(self).c@ == old(self).c@,
            old(self).c.wf() ==> final(self).c.wf(),
    {
        if rod_id >= self.c.rods.len() {
            return None;
        }
        self.c.rods.swap_remove(rod_id);
        Some(())
    }

    /// Removes the rods that `rod_ids` names. Each removed rod gives its
    /// slot to the rod that is last at that moment. An index that names no
    /// rod is passed over, and so is a second mention of an index.
    pub fn remove_rods(&mut self, rod_ids: &[usize])
        ensures
            final(self).c@ == old(self).c@.without_rods(rod_ids@),
            old(self).c.wf() ==> final(self).c.wf(),
    {
        let n = self.c.rods.len();
        let ghost ids = rod_ids@;
        let ghost before = self.c@;
        let ghost layout = survivors(n as nat, ids);
        let marks = mark_members(rod_ids, n);
        let mut pending = marked_slots(&marks, Ghost(ids));
        let ghost mut origin = identity(n as nat);
        proof {
            lemma_batch(ids, n as nat);
            assert(ints(pending@).skip(0) =~= ints(pending@));
            assert(self.c.rods@ =~= origin.map_values(|slot: int| before.rods[slot]));
        }
        let mut i: usize = 0;
        while i < pending.len()
            invariant
                i <= pending@.len(),
                origin.len() == self.c.rods@.len(),
                origin.no_duplicates(),
                names_slots(origin, ints(pending@).skip(i as int)),
                compact(origin, ints(pending@).skip(i as int)) == layout,
                forall|j: int| 0 <= j < origin.len() ==> 0 <= #[trigger] origin[j] < n,
                before.rods.len() == n,
                self.c.nodes@ == before.nodes,
                self.c.rods@ == origin.map_values(|slot: int| before.rods[slot]),
            decreases pending@.len() - i,
        {
            let ghost tail = ints(pending@).skip(i as int);
            let id = pending[i];
            proof {
                assert(tail[0] == id);
                lemma_swap_pop_step(origin, tail);
            }
            let ghost pending_before = pending@;
            let last = self.c.rods.len() - 1;
            if id != last {
                redirect_pending(&mut pending, i, last, id);
            }
            self.c.rods.swap_remove(id);
            proof {
                let next = swap_pop(origin, id as int);
                let rest = ints(pending@).skip(i + 1);
                assert(tail.drop_first() =~= ints(pending_before.skip(i + 1)));
                assert(rest =~= ints(pending@.skip(i + 1)));
                assert(rest =~= redirect(tail.drop_first(), last as int, id as int));
                assert(self.c.rods@ =~= next.map_values(|slot: int| before.rods[slot]));
                assert forall|j: int| 0 <= j < next.len() implies 0 <= #[trigger] next[j] < n by {
                    if j == id {
                        assert(next[j] == origin[last as int]);
                    } else {
                        assert(next[j] == origin[j]);
                    }
                }
                origin = next;
            }
            i += 1;
        }
        proof {
            assert(ints(pending@).skip(i as int).len() == 0);
            assert(origin == layout);
            assert(self.c@.rods =~= before.without_rods(ids).rods);
        }
    }

    /// The node nearest to a point, given the distance from each node to
    /// that point: the first node at the least distance. `None` when there
    /// is no node.
    pub fn select_nearest_node(&self, distances: &[Scalar]) -> (nearest: Option<usize>)
        requires
            distances@.len() == self.c@.nodes.len(),
        ensures
            match nearest {
                Some(index) => is_first_least(distances@, index as int),
                None => self.c@.nodes.len() == 0,
            },
    {
        if distances.len() == 0 {
            return None;
        }
        let mut best: usize = 0;
        let mut i: usize = 1;
        while i < distances.len()
            invariant
                1 <= i <= distances@.len(),
                best < i,
                forall|j: int| 0 <= j < i ==> distances@[best as int].total_le(#[trigger] distances@[j]),
                forall|j: int|
                    0 <= j < best ==> distances@[best as int].total_lt(#[trigger] distances@[j]),
            decreases distances.len() - i,
        {
            if distances[i].total_lt(distances[best]) {
                best = i;
            }
            i += 1;
        }
        Some(best)
    }

    /// The rod nearest to a point, given the distance from the midpoint of
    /// each rod to that point: the first rod at the least distance below
    /// `threshold`. `None` when no rod is that near.
    pub fn select_nearest_rod(&self, distances: &[Scalar], threshold: Scalar) -> (nearest: Option<
        usize,
    >)
        requires
            distances@.len() == self.c@.rods.len(),
        ensures
            match nearest {
                Some(index) => is_first_least_below(distances@, threshold, index as int),
                None => forall|j: int|
                    0 <= j < distances@.len() ==> !(#[trigger] distances@[j]).lt(threshold),
            },
    {
        nearest_below(distances, threshold)
    }

    /// Keeps, of the rods that join the same pair of nodes, only the first.
    pub fn remove_duplicate_rods(&mut self)
        ensures
            final(self).c@ == old(self).c@.without_duplicate_rods(),
            old(self).c.wf() ==> final(self).c.wf(),
    {
        self.c.clean_craft();
    }

    /// Merges every node that is nearer than `threshold` to an earlier
    /// kept node into the first such node, and makes every rod end where
    /// its nodes have gone. `distances[i][j]` is the distance between node
    /// `i` and node `j`.
    pub fn remove_duplicate_nodes(&mut self, distances: &Vec<Vec<Scalar>>, threshold: Scalar)
        requires
            old(self).c.wf(),
            distances@.len() == old(self).c@.nodes.len(),
            forall|i: int|
                0 <= i < distances@.len() ==> (#[trigger] distances@[i])@.len() == old(
                    self,
                ).c@.nodes.len(),
        ensures
            final(self).c@ == old(self).c@.without_duplicate_nodes(table(distances@), threshold),
            final(self).c.wf(),
    {
        let n = self.c.nodes.len();
        let ghost before = self.c@;
        let ghost rows = table(distances@);
        let mut unique: Vec<usize> = Vec::new();
        let mut kept: Vec<Node> = Vec::new();
        let mut mapping: Vec<usize> = Vec::new();
        let mut i: usize = 0;
        while i < n
            invariant
                i <= n,
                n == before.nodes.len(),
                self.c@ == before,
                rows == table(distances@),
                distances@.len() == n,
                forall|r: int| 0 <= r < n ==> (#[trigger] distances@[r])@.len() == n,
                ints(unique@) == representatives(rows, threshold, i as nat),
                kept@ == ints(unique@).map_values(|index: int| before.nodes[index]),
                mapping@.len() == i,
                forall|j: int| 0 <= j < i ==> #[trigger] mapping@[j] == home(rows, threshold, j),
            decreases n - i,
        {
            let ghost named = ints(unique@);
            let ghost row = rows[i as int];
            proof {
                lemma_representatives(rows, threshold, i as nat);
                assert(row == distances@[i as int]@);
            }
            let mut q: usize = 0;
            let mut found = false;
            while q < unique.len() && !found
                invariant
                    q <= unique@.len(),
                    i < n,
                    distances@.len() == n,
                    named == ints(unique@),
                    row == distances@[i as int]@,
                    row.len() == n,
                    forall|p: int| 0 <= p < named.len() ==> 0 <= #[trigger] named[p] < i,
                    first_close(named, row, threshold, 0) == first_close(
                        named,
                        row,
                        threshold,
                        q as int,
                    ),
                    found ==> q < unique@.len() && row[named[q as int]].lt(threshold),
                decreases unique@.len() - q + if found { 0int } else { 1int },
            {
                assert(named[q as int] == unique@[q as int]);
                if distances[i][unique[q]].lt(threshold) {
                    found = true;
                } else {
                    q += 1;
                }
            }
            proof {
                lemma_first_close(named, row, threshold, q as int);
                assert(q == home(rows, threshold, i as int));
            }
            mapping.push(q);
            if !found {
                unique.push(i);
                kept.push(self.c.nodes[i]);
                proof {
                    assert(ints(unique@) =~= named.push(i as int));
                    assert(kept@ =~= ints(unique@).map_values(|index: int| before.nodes[index]));
                }
            }
            i += 1;
        }
        proof {
            lemma_representatives(rows, threshold, n as nat);
        }
        let mut k: usize = 0;
        while k < self.c.rods.len()
            invariant
                k <= self.c.rods@.len(),
                self.c.rods@.len() == before.rods.len(),
                before.wf(),
                n == before.nodes.len(),
                mapping@.len() == n,
                forall|j: int| 0 <= j < n ==> #[trigger] mapping@[j] == home(rows, threshold, j),
                forall|j: int|
                    0 <= j < k ==> self.c.rods@[j] == before.rods[j].rehomed(rows, threshold),
                forall|j: int| k <= j < self.c.rods@.len() ==> self.c.rods@[j] == before.rods[j],
            decreases self.c.rods.len() - k,
        {
            let rod = self.c.rods[k];
            assert(before.rods[k as int].node_a < n);
            let moved = Rod {
                node_a: mapping[rod.node_a],
                node_b: mapping[rod.node_b],
                length: rod.length,
                rod_type: rod.rod_type,
            };
            self.c.rods.set(k, moved);
            k += 1;
        }
        self.c.nodes = kept;
        proof {
            let after = before.without_duplicate_nodes(rows, threshold);
            assert(self.c@.nodes =~= after.nodes);
            assert(self.c@.rods =~= after.rods);
        }
    }
}

} // verus!
