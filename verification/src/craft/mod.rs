//! The craft: nodes, and the rods between them.
//!
//! A craft owns two dense arrays. A rod names its two nodes by their index
//! in the node array, so every operation that moves a node has to rewrite
//! the rods that name it. The craft is consistent when every rod names
//! nodes that exist.

pub mod components;
pub mod compaction;
pub mod duplicates;
pub mod editor;

use vstd::prelude::*;
use crate::craft::compaction::{
    lemma_batch_depends_on_members, lemma_place_in_range, lemma_survivors, lemma_survivors_stay,
    place, survivors,
};
use crate::craft::components::{Node, Rod};
use crate::craft::duplicates::{
    distinct_pairs, first_of_each_pair, home, lemma_distinct_pairs,
    lemma_distinct_pairs_keeps_distinct, lemma_home, lemma_representatives, representatives,
};
use crate::scalar::Scalar;

verus! {

/// What a craft holds, as two sequences.
pub struct CraftView {
    pub nodes: Seq<Node>,
    pub rods: Seq<Rod>,
}

impl CraftView {
    /// Every rod names two nodes of the craft.
    pub open spec fn wf(self) -> bool {
        forall|i: int|
            0 <= i < self.rods.len() ==> {
                &&& (#[trigger] self.rods[i]).node_a < self.nodes.len()
                &&& self.rods[i].node_b < self.nodes.len()
            }
    }

    /// The craft with `node` added after its nodes.
    pub open spec fn with_node(self, node: Node) -> CraftView {
        CraftView { nodes: self.nodes.push(node), rods: self.rods }
    }

    /// The craft with `rod` added after its rods.
    pub open spec fn with_rod(self, rod: Rod) -> CraftView {
        CraftView { nodes: self.nodes, rods: self.rods.push(rod) }
    }

    /// The craft without the node at `index`: the nodes after it move down
    /// by one, the rods that end at it are gone, and the other rods, in
    /// their old order, name the same nodes as before.
    pub open spec fn without_node(self, index: int) -> CraftView {
        CraftView {
            nodes: self.nodes.remove(index),
            rods: self.rods.filter(|rod: Rod| !rod.touches(index)).map_values(
                |rod: Rod| rod.shifted(index),
            ),
        }
    }

    /// The craft without the rod at `index`: the last rod takes its place.
    pub open spec fn without_rod(self, index: int) -> CraftView {
        CraftView {
            nodes: self.nodes,
            rods: self.rods.update(index, self.rods.last()).drop_last(),
        }
    }

    /// The craft without the nodes that `ids` names: the nodes that are
    /// left stand where `survivors` puts them, the rods that end at a
    /// removed node are gone, and the other rods, in their old order, name
    /// the same nodes as before.
    pub open spec fn without_nodes(self, ids: Seq<usize>) -> CraftView {
        let layout = survivors(self.nodes.len(), ids);
        CraftView {
            nodes: layout.map_values(|slot: int| self.nodes[slot]),
            rods: self.rods.filter(|rod: Rod| rod.avoids(ids)).map_values(
                |rod: Rod| rod.relocated(layout),
            ),
        }
    }

    /// The craft with, of the rods that join the same pair of nodes, only
    /// the first.
    pub open spec fn without_duplicate_rods(self) -> CraftView {
        CraftView { nodes: self.nodes, rods: distinct_pairs(self.rods) }
    }

    /// The craft with every node that is nearer than `threshold` to an
    /// earlier kept node merged into the first such node: the kept nodes
    /// stand in their old order, and every rod ends where its nodes have
    /// gone. `distances[i][j]` is the distance between node `i` and node
    /// `j`.
    pub open spec fn without_duplicate_nodes(
        self,
        distances: Seq<Seq<Scalar>>,
        threshold: Scalar,
    ) -> CraftView {
        CraftView {
            nodes: representatives(distances, threshold, self.nodes.len()).map_values(
                |index: int| self.nodes[index],
            ),
            rods: self.rods.map_values(|rod: Rod| rod.rehomed(distances, threshold)),
        }
    }

    /// The craft without the rods that `ids` names: the rods that are left
    /// stand where `survivors` puts them.
    pub open spec fn without_rods(self, ids: Seq<usize>) -> CraftView {
        CraftView {
            nodes: self.nodes,
            rods: survivors(self.rods.len(), ids).map_values(|slot: int| self.rods[slot]),
        }
    }
}

impl CraftView {
    /// What a batch removal leaves depends on which nodes the batch names,
    /// not on how it lists them.
    pub proof fn lemma_without_nodes_depends_on_members(
        self,
        first: Seq<usize>,
        second: Seq<usize>,
    )
        requires
            forall|index: usize| first.contains(index) <==> second.contains(index),
        ensures
            self.without_nodes(first) == self.without_nodes(second),
    {
        lemma_batch_depends_on_members(first, second, self.nodes.len());
        let keeps_first = |rod: Rod| rod.avoids(first);
        let keeps_second = |rod: Rod| rod.avoids(second);
        assert(keeps_first =~= keeps_second);
    }

    /// Removing a batch of nodes gives the same craft in whatever order the
    /// batch lists its nodes.
    pub proof fn lemma_without_nodes_any_order(self, first: Seq<usize>, second: Seq<usize>)
        requires
            first.to_multiset() == second.to_multiset(),
        ensures
            self.without_nodes(first) == self.without_nodes(second),
    {
        assert forall|index: usize| first.contains(index) <==> second.contains(index) by {
            vstd::seq_lib::to_multiset_contains(first, index);
            vstd::seq_lib::to_multiset_contains(second, index);
        }
        self.lemma_without_nodes_depends_on_members(first, second);
    }

    /// Removing a batch of rods gives the same craft in whatever order the
    /// batch lists its rods.
    pub proof fn lemma_without_rods_any_order(self, first: Seq<usize>, second: Seq<usize>)
        requires
            first.to_multiset() == second.to_multiset(),
        ensures
            self.without_rods(first) == self.without_rods(second),
    {
        assert forall|index: usize| first.contains(index) <==> second.contains(index) by {
            vstd::seq_lib::to_multiset_contains(first, index);
            vstd::seq_lib::to_multiset_contains(second, index);
        }
        lemma_batch_depends_on_members(first, second, self.rods.len());
    }

    /// After a batch removal the craft is consistent; it holds each node
    /// that the batch does not name exactly once and no other node, a node
    /// whose index is still an index being at that index; and it holds
    /// each rod of which the batch names neither end, in the old order,
    /// between the same two nodes as before.
    pub proof fn lemma_without_nodes_keeps_the_rest(self, ids: Seq<usize>)
        requires
            self.wf(),
            self.nodes.len() <= usize::MAX,
        ensures
            self.without_nodes(ids).wf(),
            survivors(self.nodes.len(), ids).no_duplicates(),
            forall|slot: int|
                0 <= slot < self.without_nodes(ids).nodes.len() ==> {
                    let from = #[trigger] survivors(self.nodes.len(), ids)[slot];
                    &&& 0 <= from < self.nodes.len()
                    &&& !ids.contains(from as usize)
                    &&& self.without_nodes(ids).nodes[slot] == self.nodes[from]
                },
            forall|index: int|
                0 <= index < self.nodes.len() && !ids.contains(index as usize) ==> {
                    let slot = #[trigger] place(survivors(self.nodes.len(), ids), index);
                    &&& 0 <= slot < self.without_nodes(ids).nodes.len()
                    &&& self.without_nodes(ids).nodes[slot] == self.nodes[index]
                },
            forall|index: int|
                0 <= index < self.without_nodes(ids).nodes.len() && !ids.contains(index as usize)
                    ==> #[trigger] self.without_nodes(ids).nodes[index] == self.nodes[index],
            self.without_nodes(ids).rods.len() == self.rods.filter(
                |rod: Rod| rod.avoids(ids),
            ).len(),
            forall|q: int|
                0 <= q < self.without_nodes(ids).rods.len() ==> {
                    let was = self.rods.filter(|rod: Rod| rod.avoids(ids))[q];
                    let is = #[trigger] self.without_nodes(ids).rods[q];
                    &&& was.avoids(ids)
                    &&& self.rods.contains(was)
                    &&& is.length == was.length
                    &&& is.rod_type == was.rod_type
                    &&& self.without_nodes(ids).nodes[is.node_a as int] == self.nodes[was.node_a as int]
                    &&& self.without_nodes(ids).nodes[is.node_b as int] == self.nodes[was.node_b as int]
                },
    {
        let n = self.nodes.len();
        let layout = survivors(n, ids);
        let after = self.without_nodes(ids);
        let keeps = |rod: Rod| rod.avoids(ids);
        let kept = self.rods.filter(keeps);
        lemma_survivors(n, ids);
        assert forall|slot: int| 0 <= slot < after.nodes.len() implies {
            let from = #[trigger] layout[slot];
            &&& 0 <= from < n
            &&& !ids.contains(from as usize)
            &&& after.nodes[slot] == self.nodes[from]
        } by {
            assert(layout.contains(layout[slot]));
        }
        assert forall|index: int| 0 <= index < n && !ids.contains(index as usize) implies {
            let slot = #[trigger] place(layout, index);
            &&& 0 <= slot < after.nodes.len()
            &&& after.nodes[slot] == self.nodes[index]
        } by {
            assert(layout.contains(index));
            lemma_place_in_range(layout, index);
        }
        assert forall|index: int|
            0 <= index < after.nodes.len() && !ids.contains(index as usize) implies #[trigger] after.nodes[index]
            == self.nodes[index] by {
            lemma_survivors_stay(n, ids, index);
        }
        assert forall|q: int| 0 <= q < after.rods.len() implies {
            let was = kept[q];
            let is = #[trigger] after.rods[q];
            &&& was.avoids(ids)
            &&& self.rods.contains(was)
            &&& is.node_a < after.nodes.len()
            &&& is.node_b < after.nodes.len()
            &&& is.length == was.length
            &&& is.rod_type == was.rod_type
            &&& after.nodes[is.node_a as int] == self.nodes[was.node_a as int]
            &&& after.nodes[is.node_b as int] == self.nodes[was.node_b as int]
        } by {
            let was = kept[q];
            Seq::lemma_filter_pred(self.rods, keeps, q);
            self.rods.lemma_filter_contains_rev(keeps, was);
            let at = choose|at: int| 0 <= at < self.rods.len() && self.rods[at] == was;
            assert(self.rods[at].node_a < n);
            assert(layout.contains(was.node_a as int));
            assert(layout.contains(was.node_b as int));
            lemma_place_in_range(layout, was.node_a as int);
            lemma_place_in_range(layout, was.node_b as int);
        }
    }

    /// Taking duplicate rods out a second time changes nothing.
    pub proof fn lemma_without_duplicate_rods_idempotent(self)
        ensures
            self.without_duplicate_rods().without_duplicate_rods()
                == self.without_duplicate_rods(),
    {
        lemma_distinct_pairs(self.rods);
        lemma_distinct_pairs_keeps_distinct(distinct_pairs(self.rods));
    }
}

/// A change to a craft.
pub enum Edit {
    /// A node is added.
    AddNode { node: Node },
    /// A rod is added, if its two nodes exist.
    AddRod { rod: Rod },
    /// The node at `index` is removed, if there is one.
    RemoveNode { index: usize },
    /// The rod at `index` is removed, if there is one.
    RemoveRod { index: usize },
    /// The nodes that `ids` names are removed.
    RemoveNodes { ids: Seq<usize> },
    /// The rods that `ids` names are removed.
    RemoveRods { ids: Seq<usize> },
    /// Of the rods that join the same pair of nodes, only the first stays.
    RemoveDuplicateRods,
    /// Nodes nearer to each other than `threshold` are merged.
    RemoveDuplicateNodes { distances: Seq<Seq<Scalar>>, threshold: Scalar },
}

impl CraftView {
    /// The craft after `edit`.
    pub open spec fn edited(self, edit: Edit) -> CraftView {
        match edit {
            Edit::AddNode { node } => self.with_node(node),
            Edit::AddRod { rod } => if rod.node_a < self.nodes.len() && rod.node_b
                < self.nodes.len() {
                self.with_rod(rod)
            } else {
                self
            },
            Edit::RemoveNode { index } => if index < self.nodes.len() {
                self.without_node(index as int)
            } else {
                self
            },
            Edit::RemoveRod { index } => if index < self.rods.len() {
                self.without_rod(index as int)
            } else {
                self
            },
            Edit::RemoveNodes { ids } => self.without_nodes(ids),
            Edit::RemoveRods { ids } => self.without_rods(ids),
            Edit::RemoveDuplicateRods => self.without_duplicate_rods(),
            Edit::RemoveDuplicateNodes { distances, threshold } => self.without_duplicate_nodes(
                distances,
                threshold,
            ),
        }
    }

    /// The craft after `edits`, first to last.
    pub open spec fn edited_all(self, edits: Seq<Edit>) -> CraftView
        decreases edits.len(),
    {
        if edits.len() == 0 {
            self
        } else {
            self.edited_all(edits.drop_last()).edited(edits.last())
        }
    }

    /// A craft that a machine can hold has at most as many nodes, and as
    /// many rods, as the machine can count.
    pub open spec fn fits(self) -> bool {
        self.nodes.len() <= usize::MAX && self.rods.len() <= usize::MAX
    }

    /// Taking a node out of a consistent craft leaves a consistent craft.
    pub proof fn lemma_without_node_wf(self, index: int)
        requires
            self.wf(),
            0 <= index < self.nodes.len(),
        ensures
            self.without_node(index).wf(),
    {
        let keeps = |rod: Rod| !rod.touches(index);
        let kept = self.rods.filter(keeps);
        let after = self.without_node(index);
        assert forall|q: int| 0 <= q < after.rods.len() implies {
            &&& (#[trigger] after.rods[q]).node_a < after.nodes.len()
            &&& after.rods[q].node_b < after.nodes.len()
        } by {
            Seq::lemma_filter_pred(self.rods, keeps, q);
            self.rods.lemma_filter_contains_rev(keeps, kept[q]);
            let at = choose|at: int| 0 <= at < self.rods.len() && self.rods[at] == kept[q];
            assert(self.rods[at].node_a < self.nodes.len());
        }
    }

    /// Taking rods out of a consistent craft leaves a consistent craft.
    pub proof fn lemma_without_rods_wf(self, ids: Seq<usize>)
        requires
            self.wf(),
            self.fits(),
        ensures
            self.without_rods(ids).wf(),
            self.without_rods(ids).rods.len() <= self.rods.len(),
    {
        let layout = survivors(self.rods.len(), ids);
        let after = self.without_rods(ids);
        lemma_survivors(self.rods.len(), ids);
        assert forall|q: int| 0 <= q < after.rods.len() implies {
            &&& (#[trigger] after.rods[q]).node_a < after.nodes.len()
            &&& after.rods[q].node_b < after.nodes.len()
        } by {
            assert(layout.contains(layout[q]));
            assert(after.rods[q] == self.rods[layout[q]]);
        }
    }

    /// Merging nodes of a consistent craft leaves a consistent craft.
    pub proof fn lemma_without_duplicate_nodes_wf(
        self,
        distances: Seq<Seq<Scalar>>,
        threshold: Scalar,
    )
        requires
            self.wf(),
            self.fits(),
        ensures
            self.without_duplicate_nodes(distances, threshold).wf(),
            self.without_duplicate_nodes(distances, threshold).nodes.len() <= self.nodes.len(),
    {
        lemma_representatives(distances, threshold, self.nodes.len());
        let after = self.without_duplicate_nodes(distances, threshold);
        assert forall|q: int| 0 <= q < after.rods.len() implies {
            &&& (#[trigger] after.rods[q]).node_a < after.nodes.len()
            &&& after.rods[q].node_b < after.nodes.len()
        } by {
            let was = self.rods[q];
            assert(was.node_a < self.nodes.len());
            assert(0 <= home(distances, threshold, was.node_a as int) < after.nodes.len());
            assert(0 <= home(distances, threshold, was.node_b as int) < after.nodes.len());
        }
    }

    /// Where merging puts a node: at its own place among the kept nodes
    /// when no node kept before it is nearer than `threshold`, and else at
    /// the place of the first kept node that is.
    pub proof fn lemma_without_duplicate_nodes_merges_the_near(
        self,
        distances: Seq<Seq<Scalar>>,
        threshold: Scalar,
        index: int,
    )
        requires
            0 <= index < self.nodes.len(),
        ensures
            ({
                let kept = representatives(distances, threshold, self.nodes.len());
                let after = self.without_duplicate_nodes(distances, threshold);
                let at = home(distances, threshold, index);
                &&& 0 <= at < after.nodes.len()
                &&& after.nodes[at] == self.nodes[kept[at]]
                &&& kept[at] <= index
                &&& kept[at] < index ==> distances[index][kept[at]].lt(threshold)
                &&& forall|q: int|
                    0 <= q < at ==> !distances[index][#[trigger] kept[q]].lt(threshold)
            }),
    {
        lemma_home(distances, threshold, self.nodes.len(), index);
    }

    /// A consistent craft is consistent after any edit that leaves it of a
    /// size that a machine can hold.
    pub proof fn lemma_edit_keeps_consistency(self, edit: Edit)
        requires
            self.wf(),
            self.fits(),
        ensures
            self.edited(edit).wf(),
            !(edit is AddNode) && !(edit is AddRod) ==> self.edited(edit).fits(),
    {
        match edit {
            Edit::AddNode { node } => {},
            Edit::AddRod { rod } => {},
            Edit::RemoveNode { index } => {
                if index < self.nodes.len() {
                    self.lemma_without_node_wf(index as int);
                    self.rods.lemma_filter_len(|rod: Rod| !rod.touches(index as int));
                }
            },
            Edit::RemoveRod { index } => {},
            Edit::RemoveNodes { ids } => {
                self.lemma_without_nodes_keeps_the_rest(ids);
                lemma_survivors(self.nodes.len(), ids);
                self.rods.lemma_filter_len(|rod: Rod| rod.avoids(ids));
            },
            Edit::RemoveRods { ids } => {
                self.lemma_without_rods_wf(ids);
            },
            Edit::RemoveDuplicateRods => {
                lemma_distinct_pairs(self.rods);
            },
            Edit::RemoveDuplicateNodes { distances, threshold } => {
                self.lemma_without_duplicate_nodes_wf(distances, threshold);
            },
        }
    }

    /// Every rod of a consistent craft names nodes of the craft after any
    /// sequence of edits, as long as the craft stays of a size that a
    /// machine can hold.
    pub proof fn lemma_edits_keep_consistency(self, edits: Seq<Edit>)
        requires
            self.wf(),
            forall|count: int|
                0 <= count <= edits.len() ==> (#[trigger] self.edited_all(edits.take(count))).fits(),
        ensures
            self.edited_all(edits).wf(),
        decreases edits.len(),
    {
        if edits.len() > 0 {
            let front = edits.drop_last();
            assert(front == edits.take(edits.len() - 1));
            assert forall|count: int| 0 <= count <= front.len() implies (#[trigger] self.edited_all(
                front.take(count),
            )).fits() by {
                assert(front.take(count) == edits.take(count));
            }
            self.lemma_edits_keep_consistency(front);
            self.edited_all(front).lemma_edit_keeps_consistency(edits.last());
        } else {
            assert(edits.take(0) == edits);
        }
    }
}

/// A structure of nodes joined by rods.
#[derive(Debug)]
pub struct Craft {
    pub nodes: Vec<Node>,
    pub rods: Vec<Rod>,
}

impl View for Craft {
    type V = CraftView;

    open spec fn view(&self) -> CraftView {
        CraftView { nodes: self.nodes@, rods: self.rods@ }
    }
}

impl Clone for Craft {
    fn clone(&self) -> (r: Craft)
        ensures
            r@ == self@,
    {
        let nodes = self.nodes.clone();
        let rods = self.rods.clone();
        assert(nodes@ =~= self.nodes@);
        assert(rods@ =~= self.rods@);
        Craft { nodes, rods }
    }
}

impl Craft {
    /// Every rod names two nodes of the craft.
    pub open spec fn wf(&self) -> bool {
        self@.wf()
    }

    /// A craft without nodes or rods.
    pub fn new() -> (r: Craft)
        ensures
            r@.nodes.len() == 0,
            r@.rods.len() == 0,
            r.wf(),
    {
        Craft { nodes: Vec::new(), rods: Vec::new() }
    }

    pub fn node_count(&self) -> (r: usize)
        ensures
            r == self@.nodes.len(),
    {
        self.nodes.len()
    }

    pub fn rod_count(&self) -> (r: usize)
        ensures
            r == self@.rods.len(),
    {
        self.rods.len()
    }

    /// The craft of the given nodes and rods, if every rod names two of
    /// the nodes.
    pub fn from_parts(nodes: Vec<Node>, rods: Vec<Rod>) -> (r: Option<Craft>)
        ensures
            r is Some <==> (CraftView { nodes: nodes@, rods: rods@ }).wf(),
            r is Some ==> r->0@ == (CraftView { nodes: nodes@, rods: rods@ }),
    {
        let craft = Craft { nodes, rods };
        if craft.is_consistent() {
            Some(craft)
        } else {
            None
        }
    }

    /// Keeps, of the rods that join the same pair of nodes, only the first.
    pub fn clean_craft(&mut self)
        ensures
            final(self)@ == old(self)@.without_duplicate_rods(),
            old(self).wf() ==> final(self).wf(),
    {
        proof {
            lemma_distinct_pairs(self.rods@);
        }
        self.rods = first_of_each_pair(&self.rods);
    }

    /// Tells whether every rod names two nodes of the craft.
    pub fn is_consistent(&self) -> (r: bool)
        ensures
            r == self.wf(),
    {
        let n = self.nodes.len();
        let mut i: usize = 0;
        while i < self.rods.len()
            invariant
                n == self.nodes.len(),
                i <= self.rods.len(),
                forall|j: int|
                    0 <= j < i ==> {
                        &&& (#[trigger] self.rods@[j]).node_a < n
                        &&& self.rods@[j].node_b < n
                    },
            decreases self.rods.len() - i,
        {
            if self.rods[i].node_a >= n || self.rods[i].node_b >= n {
                return false;
            }
            i += 1;
        }
        true
    }
}

} // verus!
