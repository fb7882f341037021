//! The parts a craft is made of.

use vstd::prelude::*;
use crate::craft::compaction::place;
use crate::craft::duplicates::home;
use crate::scalar::Scalar;

verus! {

/// A position in the plane.
#[derive(Clone, Copy, PartialEq, Eq, Structural, Debug)]
pub struct Point {
    pub x: Scalar,
    pub y: Scalar,
}

impl Point {
    pub fn new(x: Scalar, y: Scalar) -> (r: Point)
        ensures
            r == (Point { x, y }),
    {
        Point { x, y }
    }
}

/// Whether the solver may move a node.
#[derive(Clone, Copy, PartialEq, Eq, Structural, Debug)]
pub enum NodeType {
    /// Pinned: only an edit repositions it.
    Fixed,
    /// Free to move.
    Joint,
}

impl Default for NodeType {
    fn default() -> (r: NodeType)
        ensures
            r == NodeType::Joint,
    {
        NodeType::Joint
    }
}

/// A point mass. Its velocity is implied by the step from `prev_pos` to
/// `pos`.
#[derive(Clone, Copy, PartialEq, Eq, Structural, Debug)]
pub struct Node {
    pub pos: Point,
    pub prev_pos: Point,
    pub node_type: NodeType,
}

impl Node {
    /// A node at rest at `pos`.
    pub fn new(pos: Point, node_type: NodeType) -> (r: Node)
        ensures
            r == (Node { pos, prev_pos: pos, node_type }),
    {
        Node { pos, prev_pos: pos, node_type }
    }
}

/// How a rod constrains the distance between its two nodes.
#[allow(non_camel_case_types)]
#[derive(Clone, Copy, PartialEq, Eq, Structural, Debug)]
pub enum RodType {
    /// Keeps the distance at the rod's length.
    SOLID,
    /// Keeps the distance from exceeding the rod's length.
    ROPE,
    /// Pulls softly toward a rest length of its own.
    SPRING,
    /// Keeps the distance at a target that moves in time between two bounds.
    PISTON { min_length: Scalar, max_length: Scalar },
}

impl Default for RodType {
    fn default() -> (r: RodType)
        ensures
            r == RodType::SOLID,
    {
        RodType::SOLID
    }
}

/// A link between the nodes at two indices of a craft.
#[derive(Clone, Copy, PartialEq, Eq, Structural, Debug)]
pub struct Rod {
    pub node_a: usize,
    pub node_b: usize,
    pub length: Scalar,
    pub rod_type: RodType,
}

impl Rod {
    pub fn new(node_a: usize, node_b: usize, length: Scalar, rod_type: RodType) -> (r: Rod)
        ensures
            r == (Rod { node_a, node_b, length, rod_type }),
    {
        Rod { node_a, node_b, length, rod_type }
    }

    /// True when the rod ends at node `index`.
    pub open spec fn touches(self, index: int) -> bool {
        self.node_a == index || self.node_b == index
    }

    /// True when neither end of the rod is a member of `ids`.
    pub open spec fn avoids(self, ids: Seq<usize>) -> bool {
        !ids.contains(self.node_a) && !ids.contains(self.node_b)
    }

    /// The rod with each end that is `from` replaced by `to`.
    pub open spec fn redirected(self, from: usize, to: usize) -> Rod {
        Rod {
            node_a: if self.node_a == from {
                to
            } else {
                self.node_a
            },
            node_b: if self.node_b == from {
                to
            } else {
                self.node_b
            },
            length: self.length,
            rod_type: self.rod_type,
        }
    }

    /// The rod between the same two nodes after the nodes have moved to the
    /// slots that `layout` gives them.
    pub open spec fn relocated(self, layout: Seq<int>) -> Rod {
        Rod {
            node_a: place(layout, self.node_a as int) as usize,
            node_b: place(layout, self.node_b as int) as usize,
            length: self.length,
            rod_type: self.rod_type,
        }
    }

    /// The rod between the same two nodes after the node at `index` has
    /// been taken out and every later node has moved down by one.
    pub open spec fn shifted(self, index: int) -> Rod {
        Rod {
            node_a: if self.node_a > index {
                (self.node_a - 1) as usize
            } else {
                self.node_a
            },
            node_b: if self.node_b > index {
                (self.node_b - 1) as usize
            } else {
                self.node_b
            },
            length: self.length,
            rod_type: self.rod_type,
        }
    }

    /// The rod between the nodes that its two nodes become when nodes
    /// nearer than `threshold` are merged.
    pub open spec fn rehomed(self, distances: Seq<Seq<Scalar>>, threshold: Scalar) -> Rod {
        Rod {
            node_a: home(distances, threshold, self.node_a as int) as usize,
            node_b: home(distances, threshold, self.node_b as int) as usize,
            length: self.length,
            rod_type: self.rod_type,
        }
    }

    /// True when `self` and `other` join the same two nodes, in either
    /// direction.
    pub open spec fn same_pair(self, other: Rod) -> bool {
        ||| (self.node_a == other.node_a && self.node_b == other.node_b)
        ||| (self.node_a == other.node_b && self.node_b == other.node_a)
    }
}

/// A colour: red, green, blue and opacity, each from 0.0 to 1.0.
#[derive(Clone, Copy, PartialEq, Eq, Structural, Debug)]
pub struct Color {
    pub r: Scalar,
    pub g: Scalar,
    pub b: Scalar,
    pub a: Scalar,
}

/// A filled panel between the nodes at three indices of a craft.
#[derive(Clone, Copy, PartialEq, Eq, Structural, Debug)]
pub struct Triangle {
    pub node_a: usize,
    pub node_b: usize,
    pub node_c: usize,
    pub color: Color,
}

impl Triangle {
    pub fn new(node_a: usize, node_b: usize, node_c: usize, color: Color) -> (r: Triangle)
        ensures
            r == (Triangle { node_a, node_b, node_c, color }),
    {
        Triangle { node_a, node_b, node_c, color }
    }
}

/// A part with a function of its own.
#[derive(Clone, Copy, PartialEq, Eq, Structural, Debug)]
pub enum Part {
    Wheel { pos: Point, prev_pos: Point, wheel_radius: Scalar },
    JetEngine { pos: Point, prev_pos: Point, angle: Scalar },
}

} // verus!
