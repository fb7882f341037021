//! The editor: a craft, and the points that the user has picked to work on.
//!
//! A picked point is a place in the plane, a node, a rod, or an earlier
//! pick. Distances and midpoints are handed in by the caller, who computes
//! them from the positions of the craft as it is at the call.

use vstd::prelude::*;
use crate::craft::components::{Node, NodeType, Point, Rod, RodType};
use crate::craft::editor::{
    is_first_least, is_first_least_below, lemma_first_least_below_is_one,
    lemma_first_least_is_one, nearest_below, CraftManager,
};
use crate::craft::{Craft, CraftView};
use crate::scalar::Scalar;

verus! {

/// The square of the distance, 20.0, within which a click picks what is
/// there.
pub const THRESHOLD_BITS: u32 = 0x43C8_0000;

/// What the editor is set to work on.
#[derive(Clone, Copy, PartialEq, Eq, Structural, Debug)]
pub enum EditMode {
    EditNodes,
    EditRods,
    EditTriangles,
}

impl EditMode {
    /// The mode after this one: nodes, rods, triangles, and nodes again.
    pub open spec fn swapped(self) -> EditMode {
        match self {
            EditMode::EditNodes => EditMode::EditRods,
            EditMode::EditRods => EditMode::EditTriangles,
            EditMode::EditTriangles => EditMode::EditNodes,
        }
    }

    pub fn swap(&self) -> (r: EditMode)
        ensures
            r == self.swapped(),
    {
        match self {
            EditMode::EditNodes => EditMode::EditRods,
            EditMode::EditRods => EditMode::EditTriangles,
            EditMode::EditTriangles => EditMode::EditNodes,
        }
    }
}

/// A point that the user has picked.
#[derive(Clone, Copy, PartialEq, Eq, Structural, Debug)]
pub enum Selected {
    /// A place where nothing is yet.
    New(Point),
    /// The node at this index.
    Node(usize),
    /// The midpoint of the rod at this index.
    Rod(usize),
    /// The pick at this index of the list of picks.
    Selected(usize),
}

/// What a click has found, and how far from the click it is.
pub type Candidate = Option<(Selected, Scalar)>;

/// The place that stands for a pick that names nothing.
pub open spec fn origin() -> Point {
    Point { x: Scalar { bits: 0 }, y: Scalar { bits: 0 } }
}

/// True when `point` is in the box of which `start` and `end` are two
/// opposite corners, the border counted in.
pub open spec fn inside(point: Point, start: Point, end: Point) -> bool {
    &&& point.x.ge(start.x.min(end.x))
    &&& point.x.le(start.x.max(end.x))
    &&& point.y.ge(start.y.min(end.y))
    &&& point.y.le(start.y.max(end.y))
}

/// The first place of `distances` that holds the least of them.
pub open spec fn first_least(distances: Seq<Scalar>) -> Option<int> {
    if exists|i: int| is_first_least(distances, i) {
        Some(choose|i: int| is_first_least(distances, i))
    } else {
        None
    }
}

/// The first place of `distances` that holds the least of those below
/// `threshold`.
pub open spec fn first_least_below(distances: Seq<Scalar>, threshold: Scalar) -> Option<int> {
    if exists|i: int| is_first_least_below(distances, threshold, i) {
        Some(choose|i: int| is_first_least_below(distances, threshold, i))
    } else {
        None
    }
}

/// The nearest node, if it is nearer than `threshold`.
pub open spec fn picked_node(distances: Seq<Scalar>, threshold: Scalar) -> Candidate {
    match first_least(distances) {
        Some(index) => if distances[index].lt(threshold) {
            Some((Selected::Node(index as usize), distances[index]))
        } else {
            None
        },
        None => None,
    }
}

/// The nearest rod that is nearer than `threshold`.
pub open spec fn picked_rod(distances: Seq<Scalar>, threshold: Scalar) -> Candidate {
    match first_least_below(distances, threshold) {
        Some(index) => Some((Selected::Rod(index as usize), distances[index])),
        None => None,
    }
}

/// The nearest pick that is nearer than `threshold`.
pub open spec fn picked_selection(distances: Seq<Scalar>, threshold: Scalar) -> Candidate {
    match first_least_below(distances, threshold) {
        Some(index) => Some((Selected::Selected(index as usize), distances[index])),
        None => None,
    }
}

/// The nearer of two candidates; the first when they are equally near.
pub open spec fn nearer(first: Candidate, second: Candidate) -> Candidate {
    match (first, second) {
        (None, _) => second,
        (_, None) => first,
        (Some(a), Some(b)) => if b.1.total_lt(a.1) {
            second
        } else {
            first
        },
    }
}

/// The nodes among the first `upto` of `nodes` that are inside the box, as
/// picks, in ascending order.
pub open spec fn nodes_inside(nodes: Seq<Node>, start: Point, end: Point, upto: nat) -> Seq<Selected>
    decreases upto,
{
    if upto == 0 {
        Seq::empty()
    } else {
        let before = nodes_inside(nodes, start, end, (upto - 1) as nat);
        if inside(nodes[upto - 1].pos, start, end) {
            before.push(Selected::Node((upto - 1) as usize))
        } else {
            before
        }
    }
}

/// The rods among the first `upto` whose midpoint is inside the box, as
/// picks, in ascending order.
pub open spec fn rods_inside(midpoints: Seq<Point>, start: Point, end: Point, upto: nat) -> Seq<
    Selected,
>
    decreases upto,
{
    if upto == 0 {
        Seq::empty()
    } else {
        let before = rods_inside(midpoints, start, end, (upto - 1) as nat);
        if inside(midpoints[upto - 1], start, end) {
            before.push(Selected::Rod((upto - 1) as usize))
        } else {
            before
        }
    }
}

/// The nodes that the first `upto` picks name.
pub open spec fn node_ids(picks: Seq<Selected>, upto: nat) -> Seq<usize>
    decreases upto,
{
    if upto == 0 {
        Seq::empty()
    } else {
        let before = node_ids(picks, (upto - 1) as nat);
        match picks[upto - 1] {
            Selected::Node(index) => before.push(index),
            _ => before,
        }
    }
}

/// The rods that the first `upto` picks name.
pub open spec fn rod_ids(picks: Seq<Selected>, upto: nat) -> Seq<usize>
    decreases upto,
{
    if upto == 0 {
        Seq::empty()
    } else {
        let before = rod_ids(picks, (upto - 1) as nat);
        match picks[upto - 1] {
            Selected::Rod(index) => before.push(index),
            _ => before,
        }
    }
}

/// A node at rest at `pos`, free to move.
pub open spec fn joint_at(pos: Point) -> Node {
    Node { pos, prev_pos: pos, node_type: NodeType::Joint }
}

/// The nodes of a craft after a node has been placed for each of the first
/// `upto` picks: at the place of a new pick, at the node of a pick of a
/// node, at the midpoint of a pick of a rod. A pick of a pick, and a pick
/// that names nothing, places no node.
pub open spec fn grown(nodes: Seq<Node>, picks: Seq<Selected>, midpoints: Seq<Point>, upto: nat) -> Seq<
    Node,
>
    decreases upto,
{
    if upto == 0 {
        nodes
    } else {
        let before = grown(nodes, picks, midpoints, (upto - 1) as nat);
        match picks[upto - 1] {
            Selected::New(point) => before.push(joint_at(point)),
            Selected::Node(index) => if index < before.len() {
                before.push(joint_at(before[index as int].pos))
            } else {
                before
            },
            Selected::Rod(index) => if index < midpoints.len() {
                before.push(joint_at(midpoints[index as int]))
            } else {
                before
            },
            Selected::Selected(index) => before,
        }
    }
}

/// The craft after a solid rod has been added between each of the first
/// `upto` pairs of neighbours in `chain`, the rod between the neighbours at
/// `k` and `k + 1` being of length `lengths[k]`. A pair of which one names
/// no node of the craft gets no rod.
pub open spec fn linked(craft: CraftView, chain: Seq<Option<usize>>, lengths: Seq<Scalar>, upto: nat) -> CraftView
    decreases upto,
{
    if upto == 0 {
        craft
    } else {
        let before = linked(craft, chain, lengths, (upto - 1) as nat);
        match (chain[upto - 1], chain[upto as int]) {
            (Some(a), Some(b)) => if a < craft.nodes.len() && b < craft.nodes.len() {
                before.with_rod(
                    Rod { node_a: a, node_b: b, length: lengths[upto - 1], rod_type: RodType::SOLID },
                )
            } else {
                before
            },
            _ => before,
        }
    }
}

/// What an editor holds.
pub struct EditorView {
    pub craft: CraftView,
    pub selected_points: Seq<Selected>,
    pub drag_start: Option<Point>,
    pub drag_current: Option<Point>,
}

impl EditorView {
    /// Where the pick at `index` is. A pick of a pick is where the earlier
    /// pick is; a pick that names nothing, or a pick that is not earlier,
    /// is at the origin. `midpoints` holds the midpoint of every rod.
    pub open spec fn point_at(self, midpoints: Seq<Point>, index: int) -> Point
        decreases index,
    {
        if 0 <= index < self.selected_points.len() {
            match self.selected_points[index] {
                Selected::Selected(earlier) => if earlier < index {
                    self.point_at(midpoints, earlier as int)
                } else {
                    origin()
                },
                other => self.point_of(midpoints, other),
            }
        } else {
            origin()
        }
    }

    /// Where `selected` is.
    pub open spec fn point_of(self, midpoints: Seq<Point>, selected: Selected) -> Point {
        match selected {
            Selected::New(point) => point,
            Selected::Node(index) => if index < self.craft.nodes.len() {
                self.craft.nodes[index as int].pos
            } else {
                origin()
            },
            Selected::Rod(index) => if index < midpoints.len() {
                midpoints[index as int]
            } else {
                origin()
            },
            Selected::Selected(index) => origin(),
        }
    }

    /// The editor after each of the first `upto` picks has been given a
    /// node, and the node of each: a new pick gets a new node at its place
    /// and becomes a pick of that node, a pick of a rod gets a new node at
    /// the midpoint of the rod and becomes a pick of that node, a pick of
    /// a node has its node, and a pick of an earlier pick has the node of
    /// that pick. A pick that names nothing has none.
    pub open spec fn ensured(self, midpoints: Seq<Point>, upto: nat) -> (EditorView, Seq<Option<usize>>)
        decreases upto,
    {
        if upto == 0 {
            (self, Seq::empty())
        } else {
            let (before, chain) = self.ensured(midpoints, (upto - 1) as nat);
            let fresh = before.craft.nodes.len() as usize;
            match before.selected_points[upto - 1] {
                Selected::New(point) => (
                    before.with_node_for(upto - 1, joint_at(point)),
                    chain.push(Some(fresh)),
                ),
                Selected::Node(index) => (before, chain.push(Some(index))),
                Selected::Rod(index) => if index < midpoints.len() {
                    (
                        before.with_node_for(upto - 1, joint_at(midpoints[index as int])),
                        chain.push(Some(fresh)),
                    )
                } else {
                    (before, chain.push(None))
                },
                Selected::Selected(earlier) => (
                    before,
                    chain.push(
                        if earlier < upto - 1 {
                            chain[earlier as int]
                        } else {
                            None
                        },
                    ),
                ),
            }
        }
    }

    /// The editor with `node` added to the craft, and the pick at `index`
    /// turned into a pick of that node.
    pub open spec fn with_node_for(self, index: int, node: Node) -> EditorView {
        EditorView {
            craft: self.craft.with_node(node),
            selected_points: self.selected_points.update(
                index,
                Selected::Node(self.craft.nodes.len() as usize),
            ),
            ..self
        }
    }

    /// Where `selected` is, a pick of a pick being where that pick is.
    pub open spec fn resolved(self, midpoints: Seq<Point>, selected: Selected) -> Point {
        match selected {
            Selected::Selected(index) => self.point_at(midpoints, index as int),
            other => self.point_of(midpoints, other),
        }
    }
}

/// A craft under the user's hands.
#[derive(Debug)]
pub struct Editor {
    pub manager: CraftManager,
    pub selected_points: Vec<Selected>,
    pub drag_start: Option<Point>,
    pub drag_current: Option<Point>,
}

impl View for Editor {
    type V = EditorView;

    open spec fn view(&self) -> EditorView {
        EditorView {
            craft: self.manager.c@,
            selected_points: self.selected_points@,
            drag_start: self.drag_start,
            drag_current: self.drag_current,
        }
    }
}

impl Editor {
    /// An editor of an empty craft.
    pub fn new() -> (r: Editor)
        ensures
            r@.craft.nodes.len() == 0,
            r@.craft.rods.len() == 0,
            r@.selected_points.len() == 0,
            r@.drag_start is None,
            r@.drag_current is None,
    {
        Editor {
            manager: CraftManager { c: Craft::new() },
            selected_points: Vec::new(),
            drag_start: None,
            drag_current: None,
        }
    }

    /// An editor of `craft`.
    pub fn edit_craft(craft: Craft) -> (r: Editor)
        ensures
            r@.craft == craft@,
            r@.selected_points.len() == 0,
            r@.drag_start is None,
            r@.drag_current is None,
    {
        Editor {
            manager: CraftManager { c: craft },
            selected_points: Vec::new(),
            drag_start: None,
            drag_current: None,
        }
    }

    /// The craft as the user has left it.
    pub fn close(self) -> (r: Craft)
        ensures
            r@ == self@.craft,
    {
        self.manager.c
    }

    fn point_of_plain(&self, selected: Selected, midpoints: &[Point]) -> (r: Point)
        ensures
            r == self@.point_of(midpoints@, selected),
    {
        match selected {
            Selected::New(point) => point,
            Selected::Node(index) => if index < self.manager.c.nodes.len() {
                self.manager.c.nodes[index].pos
            } else {
                Point { x: Scalar { bits: 0 }, y: Scalar { bits: 0 } }
            },
            Selected::Rod(index) => if index < midpoints.len() {
                midpoints[index]
            } else {
                Point { x: Scalar { bits: 0 }, y: Scalar { bits: 0 } }
            },
            Selected::Selected(index) => Point { x: Scalar { bits: 0 }, y: Scalar { bits: 0 } },
        }
    }

    /// Where `selected` is, given the midpoint of every rod.
    pub fn resolve_selected_point(&self, selected: &Selected, midpoints: &[Point]) -> (r: Point)
        ensures
            r == self@.resolved(midpoints@, *selected),
    {
        let mut current = *selected;
        let mut bound = self.selected_points.len();
        loop
            invariant
                bound <= self.selected_points@.len(),
                self@.resolved(midpoints@, *selected) == match current {
                    Selected::Selected(index) => if index < bound {
                        self@.point_at(midpoints@, index as int)
                    } else {
                        origin()
                    },
                    other => self@.point_of(midpoints@, other),
                },
            decreases bound,
        {
            match current {
                Selected::Selected(index) => {
                    if index < bound {
                        current = self.selected_points[index];
                        bound = index;
                    } else {
                        return Point { x: Scalar { bits: 0 }, y: Scalar { bits: 0 } };
                    }
                },
                other => {
                    return self.point_of_plain(other, midpoints);
                },
            }
        }
    }

    /// The nearest node that is nearer than `threshold`, given the
    /// distance of every node: the first at the least distance below
    /// `threshold`.
    pub fn find_closest_node(&self, distances: &[Scalar], threshold: Scalar) -> (nearest: Option<
        usize,
    >)
        requires
            distances@.len() == self@.craft.nodes.len(),
        ensures
            match nearest {
                Some(index) => is_first_least_below(distances@, threshold, index as int),
                None => forall|j: int|
                    0 <= j < distances@.len() ==> !(#[trigger] distances@[j]).lt(threshold),
            },
    {
        nearest_below(distances, threshold)
    }

    /// The nearest node, if it is nearer than `threshold`, given the
    /// distance of every node.
    pub fn selected_node(&self, distances: &[Scalar], threshold: Scalar) -> (r: Candidate)
        requires
            distances@.len() == self@.craft.nodes.len(),
        ensures
            r == picked_node(distances@, threshold),
    {
        match self.manager.select_nearest_node(distances) {
            Some(index) => {
                proof {
                    let chosen = choose|i: int| is_first_least(distances@, i);
                    lemma_first_least_is_one(distances@, index as int, chosen);
                }
                if distances[index].lt(threshold) {
                    Some((Selected::Node(index), distances[index]))
                } else {
                    None
                }
            },
            None => None,
        }
    }

    /// The nearest rod that is nearer than `threshold`, given the distance
    /// of the midpoint of every rod.
    pub fn selected_rod(&self, distances: &[Scalar], threshold: Scalar) -> (r: Candidate)
        requires
            distances@.len() == self@.craft.rods.len(),
        ensures
            r == picked_rod(distances@, threshold),
    {
        match self.manager.select_nearest_rod(distances, threshold) {
            Some(index) => {
                proof {
                    let chosen = choose|i: int| is_first_least_below(distances@, threshold, i);
                    lemma_first_least_below_is_one(distances@, threshold, index as int, chosen);
                }
                Some((Selected::Rod(index), distances[index]))
            },
            None => None,
        }
    }

    /// The nearest pick that is nearer than `threshold`, given the
    /// distance of every pick.
    pub fn selected_select(&self, distances: &[Scalar], threshold: Scalar) -> (r: Candidate)
        requires
            distances@.len() == self@.selected_points.len(),
        ensures
            r == picked_selection(distances@, threshold),
    {
        let best = nearest_below(distances, threshold);
        match best {
            Some(index) => {
                proof {
                    let chosen = choose|i: int| is_first_least_below(distances@, threshold, i);
                    lemma_first_least_below_is_one(distances@, threshold, index as int, chosen);
                }
                Some((Selected::Selected(index), distances[index]))
            },
            None => None,
        }
    }

    /// What a click picks: the nearest of the nearest node, the nearest
    /// rod and the nearest pick that are nearer than `threshold`; of two
    /// that are equally near, the one named first here.
    pub fn selected(
        &self,
        node_distances: &[Scalar],
        rod_distances: &[Scalar],
        pick_distances: &[Scalar],
        threshold: Scalar,
    ) -> (r: Candidate)
        requires
            node_distances@.len() == self@.craft.nodes.len(),
            rod_distances@.len() == self@.craft.rods.len(),
            pick_distances@.len() == self@.selected_points.len(),
        ensures
            r == nearer(
                nearer(
                    picked_node(node_distances@, threshold),
                    picked_rod(rod_distances@, threshold),
                ),
                picked_selection(pick_distances@, threshold),
            ),
    {
        let mut best = self.selected_node(node_distances, threshold);
        let rod = self.selected_rod(rod_distances, threshold);
        best = Self::nearer_of(best, rod);
        let pick = self.selected_select(pick_distances, threshold);
        Self::nearer_of(best, pick)
    }

    fn nearer_of(first: Candidate, second: Candidate) -> (r: Candidate)
        ensures
            r == nearer(first, second),
    {
        match (first, second) {
            (None, _) => second,
            (_, None) => first,
            (Some(a), Some(b)) => if b.1.total_lt(a.1) {
                second
            } else {
                first
            },
        }
    }

    /// The button goes down at `at`: what the click has picked, or else
    /// the place itself, joins the picks, and a drag begins.
    pub fn press(&mut self, at: Point, picked: Option<Selected>)
        ensures
            final(self)@.craft == old(self)@.craft,
            final(self)@.selected_points == old(self)@.selected_points.push(
                match picked {
                    Some(found) => found,
                    None => Selected::New(at),
                },
            ),
            final(self)@.drag_start == Some(at),
            final(self)@.drag_current == Some(at),
    {
        let pick = match picked {
            Some(found) => found,
            None => Selected::New(at),
        };
        self.selected_points.push(pick);
        self.drag_start = Some(at);
        self.drag_current = Some(at);
    }

    /// The pointer is at `at` with the button down: a drag that has begun
    /// goes on to there.
    pub fn drag(&mut self, at: Point)
        ensures
            final(self)@.craft == old(self)@.craft,
            final(self)@.selected_points == old(self)@.selected_points,
            final(self)@.drag_start == old(self)@.drag_start,
            final(self)@.drag_current == if old(self)@.drag_start is Some {
                Some(at)
            } else {
                old(self)@.drag_current
            },
    {
        if self.drag_start.is_some() {
            self.drag_current = Some(at);
        }
    }

    /// The button comes up: what is inside the box of the drag joins the
    /// picks, and the drag is over.
    pub fn release(&mut self, midpoints: &[Point])
        requires
            midpoints@.len() == old(self)@.craft.rods.len(),
        ensures
            final(self)@.craft == old(self)@.craft,
            final(self)@.drag_start is None,
            final(self)@.drag_current is None,
            final(self)@.selected_points == match (old(self)@.drag_start, old(self)@.drag_current) {
                (Some(start), Some(end)) => old(self)@.selected_points + nodes_inside(
                    old(self)@.craft.nodes,
                    start,
                    end,
                    old(self)@.craft.nodes.len(),
                ) + rods_inside(midpoints@, start, end, midpoints@.len()),
                _ => old(self)@.selected_points,
            },
    {
        match (self.drag_start, self.drag_current) {
            (Some(start), Some(end)) => {
                self.select_within_box(start, end, midpoints);
            },
            _ => {},
        }
        self.drag_start = None;
        self.drag_current = None;
    }

    fn is_inside(point: Point, start: Point, end: Point) -> (r: bool)
        ensures
            r == inside(point, start, end),
    {
        point.x.ge(start.x.min(end.x)) && point.x.le(start.x.max(end.x)) && point.y.ge(
            start.y.min(end.y),
        ) && point.y.le(start.y.max(end.y))
    }

    /// Adds to the picks every node inside the box of which `start` and
    /// `end` are two opposite corners, and then every rod whose midpoint is
    /// inside it.
    pub fn select_within_box(&mut self, start: Point, end: Point, midpoints: &[Point])
        requires
            midpoints@.len() == old(self)@.craft.rods.len(),
        ensures
            final(self)@.craft == old(self)@.craft,
            final(self)@.drag_start == old(self)@.drag_start,
            final(self)@.drag_current == old(self)@.drag_current,
            final(self)@.selected_points == old(self)@.selected_points + nodes_inside(
                old(self)@.craft.nodes,
                start,
                end,
                old(self)@.craft.nodes.len(),
            ) + rods_inside(midpoints@, start, end, midpoints@.len()),
    {
        let ghost before = self@;
        let mut i: usize = 0;
        while i < self.manager.c.nodes.len()
            invariant
                i <= before.craft.nodes.len(),
                self@.craft == before.craft,
                self@.drag_start == before.drag_start,
                self@.drag_current == before.drag_current,
                self@.selected_points == before.selected_points + nodes_inside(
                    before.craft.nodes,
                    start,
                    end,
                    i as nat,
                ),
            decreases before.craft.nodes.len() - i,
        {
            if Self::is_inside(self.manager.c.nodes[i].pos, start, end) {
                self.selected_points.push(Selected::Node(i));
            }
            i += 1;
        }
        let ghost with_nodes = self@.selected_points;
        let mut k: usize = 0;
        while k < midpoints.len()
            invariant
                k <= midpoints@.len(),
                self@.craft == before.craft,
                self@.drag_start == before.drag_start,
                self@.drag_current == before.drag_current,
                self@.selected_points == with_nodes + rods_inside(midpoints@, start, end, k as nat),
            decreases midpoints@.len() - k,
        {
            if Self::is_inside(midpoints[k], start, end) {
                self.selected_points.push(Selected::Rod(k));
            }
            k += 1;
        }
    }

    /// Starts over with an empty craft. The picks stay.
    pub fn new_craft(&mut self)
        ensures
            final(self)@.craft.nodes.len() == 0,
            final(self)@.craft.rods.len() == 0,
            final(self)@.selected_points == old(self)@.selected_points,
            final(self)@.drag_start == old(self)@.drag_start,
            final(self)@.drag_current == old(self)@.drag_current,
    {
        self.manager.c = Craft::new();
    }

    /// Forgets the picks.
    pub fn clear_points(&mut self)
        ensures
            final(self)@.craft == old(self)@.craft,
            final(self)@.selected_points.len() == 0,
            final(self)@.drag_start == old(self)@.drag_start,
            final(self)@.drag_current == old(self)@.drag_current,
    {
        self.selected_points.clear();
    }

    /// Places a node for every pick, and forgets the picks. `midpoints`
    /// holds the midpoint of every rod.
    pub fn place_nodes(&mut self, midpoints: &[Point])
        ensures
            final(self)@.craft.nodes == grown(
                old(self)@.craft.nodes,
                old(self)@.selected_points,
                midpoints@,
                old(self)@.selected_points.len(),
            ),
            final(self)@.craft.rods == old(self)@.craft.rods,
            final(self)@.selected_points.len() == 0,
            final(self)@.drag_start == old(self)@.drag_start,
            final(self)@.drag_current == old(self)@.drag_current,
            old(self).manager.c.wf() ==> final(self).manager.c.wf(),
    {
        let ghost before = self@;
        let mut i: usize = 0;
        while i < self.selected_points.len()
            invariant
                i <= before.selected_points.len(),
                self@.selected_points == before.selected_points,
                self@.craft.rods == before.craft.rods,
                self@.drag_start == before.drag_start,
                self@.drag_current == before.drag_current,
                self@.craft.nodes == grown(
                    before.craft.nodes,
                    before.selected_points,
                    midpoints@,
                    i as nat,
                ),
                before.craft.wf() ==> self@.craft.wf(),
            decreases before.selected_points.len() - i,
        {
            match self.selected_points[i] {
                Selected::New(point) => {
                    self.manager.add_node(point, NodeType::Joint);
                },
                Selected::Node(index) => {
                    if index < self.manager.c.nodes.len() {
                        let point = self.manager.c.nodes[index].pos;
                        self.manager.add_node(point, NodeType::Joint);
                    }
                },
                Selected::Rod(index) => {
                    if index < midpoints.len() {
                        self.manager.add_node(midpoints[index], NodeType::Joint);
                    }
                },
                Selected::Selected(index) => {},
            }
            i += 1;
        }
        self.selected_points.clear();
    }

    /// Gives every pick a node, when there are two picks or more, and
    /// returns the node of each pick; with fewer picks nothing happens and
    /// nothing is returned. `midpoints` holds the midpoint of every rod.
    pub fn chain_nodes(&mut self, midpoints: &[Point]) -> (chain: Vec<Option<usize>>)
        ensures
            old(self)@.selected_points.len() >= 2 ==> (final(self)@, chain@) == old(self)@.ensured(
                midpoints@,
                old(self)@.selected_points.len(),
            ),
            old(self)@.selected_points.len() < 2 ==> final(self)@ == old(self)@ && chain@.len()
                == 0,
            chain@.len() == 0 || chain@.len() == old(self)@.selected_points.len(),
            final(self)@.selected_points.len() == old(self)@.selected_points.len(),
            final(self)@.craft.rods == old(self)@.craft.rods,
            old(self).manager.c.wf() ==> final(self).manager.c.wf(),
    {
        let mut chain: Vec<Option<usize>> = Vec::new();
        if self.selected_points.len() < 2 {
            return chain;
        }
        let ghost before = self@;
        let count = self.selected_points.len();
        let mut i: usize = 0;
        while i < count
            invariant
                i <= count,
                count == before.selected_points.len(),
                self@.selected_points.len() == count,
                chain@.len() == i,
                (self@, chain@) == before.ensured(midpoints@, i as nat),
                self@.craft.rods == before.craft.rods,
                before.craft.wf() ==> self@.craft.wf(),
            decreases count - i,
        {
            let ghost here = self@;
            match self.selected_points[i] {
                Selected::New(point) => {
                    let fresh = self.manager.add_node(point, NodeType::Joint);
                    self.selected_points.set(i, Selected::Node(fresh));
                    chain.push(Some(fresh));
                    proof {
                        assert(self@.selected_points =~= here.with_node_for(
                            i as int,
                            joint_at(point),
                        ).selected_points);
                    }
                },
                Selected::Node(index) => {
                    chain.push(Some(index));
                },
                Selected::Rod(index) => {
                    if index < midpoints.len() {
                        let fresh = self.manager.add_node(midpoints[index], NodeType::Joint);
                        self.selected_points.set(i, Selected::Node(fresh));
                        chain.push(Some(fresh));
                        proof {
                            assert(self@.selected_points =~= here.with_node_for(
                                i as int,
                                joint_at(midpoints@[index as int]),
                            ).selected_points);
                        }
                    } else {
                        chain.push(None);
                    }
                },
                Selected::Selected(earlier) => {
                    if earlier < i {
                        let node = chain[earlier];
                        chain.push(node);
                    } else {
                        chain.push(None);
                    }
                },
            }
            i += 1;
        }
        chain
    }

    /// Adds a solid rod between each two neighbours of `chain`, when it
    /// names two nodes or more, and forgets the picks; a shorter chain
    /// changes nothing. `lengths[k]` is the distance between the nodes at
    /// `k` and `k + 1` of the chain.
    pub fn link_chain(&mut self, chain: &[Option<usize>], lengths: &[Scalar])
        requires
            chain@.len() <= lengths@.len() + 1,
        ensures
            chain@.len() >= 2 ==> final(self)@.craft == linked(
                old(self)@.craft,
                chain@,
                lengths@,
                (chain@.len() - 1) as nat,
            ) && final(self)@.selected_points.len() == 0,
            chain@.len() < 2 ==> final(self)@ == old(self)@,
            final(self)@.craft.nodes == old(self)@.craft.nodes,
            final(self)@.drag_start == old(self)@.drag_start,
            final(self)@.drag_current == old(self)@.drag_current,
            old(self).manager.c.wf() ==> final(self).manager.c.wf(),
    {
        if chain.len() < 2 {
            return ;
        }
        let ghost before = self@;
        let last = chain.len() - 1;
        let mut k: usize = 0;
        while k < last
            invariant
                k <= last,
                last + 1 == chain@.len(),
                chain@.len() <= lengths@.len() + 1,
                self@.craft == linked(before.craft, chain@, lengths@, k as nat),
                self@.craft.nodes == before.craft.nodes,
                self@.selected_points == before.selected_points,
                self@.drag_start == before.drag_start,
                self@.drag_current == before.drag_current,
                before.craft.wf() ==> self@.craft.wf(),
            decreases last - k,
        {
            match (chain[k], chain[k + 1]) {
                (Some(a), Some(b)) => {
                    self.manager.add_rod(a, b, lengths[k], RodType::SOLID);
                },
                _ => {},
            }
            k += 1;
        }
        self.selected_points.clear();
    }

    /// Removes the rods and the nodes that the picks name, and forgets the
    /// picks.
    pub fn delete_selected(&mut self)
        requires
            old(self).manager.c.wf(),
        ensures
            old(self)@.selected_points.len() > 0 ==> final(self)@.craft == old(
                self,
            )@.craft.without_rods(
                rod_ids(old(self)@.selected_points, old(self)@.selected_points.len()),
            ).without_nodes(
                node_ids(old(self)@.selected_points, old(self)@.selected_points.len()),
            ),
            old(self)@.selected_points.len() == 0 ==> final(self)@.craft == old(self)@.craft,
            final(self)@.selected_points.len() == 0,
            final(self)@.drag_start == old(self)@.drag_start,
            final(self)@.drag_current == old(self)@.drag_current,
            final(self).manager.c.wf(),
    {
        if self.selected_points.len() == 0 {
            return ;
        }
        let ghost picks = self.selected_points@;
        let mut nodes: Vec<usize> = Vec::new();
        let mut rods: Vec<usize> = Vec::new();
        let mut i: usize = 0;
        while i < self.selected_points.len()
            invariant
                i <= picks.len(),
                self.selected_points@ == picks,
                nodes@ == node_ids(picks, i as nat),
                rods@ == rod_ids(picks, i as nat),
            decreases picks.len() - i,
        {
            match self.selected_points[i] {
                Selected::Node(index) => {
                    nodes.push(index);
                },
                Selected::Rod(index) => {
                    rods.push(index);
                },
                _ => {},
            }
            i += 1;
        }
        self.manager.remove_rods(rods.as_slice());
        self.manager.remove_nodes(nodes.as_slice());
        self.selected_points.clear();
    }
}

} // verus!
