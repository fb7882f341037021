//! One step of the solver, as a sequence of decisions.
//!
//! A step moves every free node by Verlet integration, lets it bounce off
//! the floor, and then relaxes every rod a fixed number of times. The
//! simulation decides what is to be computed next and what becomes of the
//! result; the computing itself is the caller's. A step therefore runs as
//! an exchange: `begin` and `resume` hand out a `Task`, the caller works it
//! out on numbers and hands a `Reply` to `resume`, until the task is
//! `Task::Done`. `update` runs the whole exchange with a function that
//! works the tasks out.

use vstd::prelude::*;
use crate::craft::components::{Node, NodeType, Point, RodType};
use crate::craft::{Craft, CraftView};
use crate::scalar::Scalar;

verus! {

/// The height of the floor, 600.0.
pub const FLOOR_BITS: u32 = 0x4416_0000;

/// The downward pull, 500.0.
pub const GRAVITY_BITS: u32 = 0x43FA_0000;

/// The part of its vertical speed that a node keeps when it bounces, 0.3.
pub const RESTITUTION_BITS: u32 = 0x3E99_999A;

/// The part of a rod's error that each of its ends takes up, 0.5.
pub const HALF_BITS: u32 = 0x3F00_0000;

/// The length at which a spring is at rest, 100.0.
pub const SPRING_REST_BITS: u32 = 0x42C8_0000;

/// The part of a spring's error that one pass takes up at each end, 0.2.
pub const SPRING_STIFFNESS_BITS: u32 = 0x3E4C_CCCD;

/// How often a step relaxes every rod.
pub const ITERATIONS: usize = 5;

/// What the simulation is waiting for.
#[derive(Clone, Copy, PartialEq, Eq, Structural, Debug)]
pub enum Phase {
    /// Nothing: no step is under way.
    Idle,
    /// The position to which the node moves.
    Integrating { node: usize },
    /// The previous position that makes the node leave the floor.
    Bouncing { node: usize },
    /// The distance between the two ends of the rod.
    Measuring { pass: usize, rod: usize },
    /// The length that the piston aims at now.
    Extending { pass: usize, rod: usize, distance: Scalar },
    /// The positions of the two ends of the rod after the correction.
    Correcting { pass: usize, rod: usize, distance: Scalar, target: Scalar, share: Scalar },
}

/// What the caller is asked to compute.
#[derive(Clone, Copy, PartialEq, Eq, Structural, Debug)]
pub enum Task {
    /// Nothing: the step is complete.
    Done,
    /// `position + (position - previous) + gravity * dt * dt`, as a
    /// `Reply::Position`.
    Integrate { position: Point, previous: Point, gravity: Point, dt: Scalar },
    /// `position - velocity`, where `velocity` is `position - previous`
    /// with its vertical part multiplied by `-restitution`, as a
    /// `Reply::Position`.
    Bounce { position: Point, previous: Point, restitution: Scalar },
    /// The distance from `a` to `b`, as a `Reply::Length`.
    Measure { a: Point, b: Point },
    /// The length between `min_length` and `max_length` that a piston aims
    /// at at `time`, as a `Reply::Length`. A length beyond a bound is held
    /// to the bound, and a reply that is not a number passes the rod over.
    Extend { min_length: Scalar, max_length: Scalar, time: Scalar },
    /// `a + c` and `b - c`, where `c` is the unit vector from `a` to `b`
    /// times `(distance - target) * share`, as a `Reply::Positions`.
    Correct { a: Point, b: Point, distance: Scalar, target: Scalar, share: Scalar },
}

impl Task {
    /// True when `reply` is of the kind that the task asks for.
    pub open spec fn is_answered_by(self, reply: Reply) -> bool {
        match self {
            Task::Done => false,
            Task::Integrate { position, previous, gravity, dt } => reply is Position,
            Task::Bounce { position, previous, restitution } => reply is Position,
            Task::Measure { a, b } => reply is Length,
            Task::Extend { min_length, max_length, time } => reply is Length,
            Task::Correct { a, b, distance, target, share } => reply is Positions,
        }
    }
}

/// What the caller has computed.
#[derive(Clone, Copy, PartialEq, Eq, Structural, Debug)]
pub enum Reply {
    Position(Point),
    Length(Scalar),
    Positions(Point, Point),
}

/// Something that happens to a simulation.
#[derive(Clone, Copy, PartialEq, Eq, Structural, Debug)]
pub enum Event {
    /// A step of length `dt` is asked for at time `time`.
    Begin { dt: Scalar, time: Scalar },
    /// The caller answers the pending task.
    Resume { reply: Reply },
}

/// The first node at or after `from` that is free to move; the number of
/// nodes when there is none.
pub open spec fn next_free(nodes: Seq<Node>, from: int) -> int
    decreases nodes.len() - from,
{
    if from >= nodes.len() {
        nodes.len() as int
    } else if nodes[from].node_type != NodeType::Fixed {
        from
    } else {
        next_free(nodes, from + 1)
    }
}

/// `target`, or the bound that it oversteps. Between two bounds of which
/// the lower is not above the upper, the result of a `target` that is a
/// number lies between the bounds.
pub open spec fn within(target: Scalar, min_length: Scalar, max_length: Scalar) -> Scalar {
    if target.lt(min_length) {
        min_length
    } else if target.gt(max_length) {
        max_length
    } else {
        target
    }
}

/// `node` after it has moved to `moved`: where it was is its previous
/// position, and it does not go below the floor.
pub open spec fn integrated(node: Node, moved: Point) -> Node {
    Node {
        pos: if lands(moved) {
            Point { x: moved.x, y: Scalar { bits: FLOOR_BITS } }
        } else {
            moved
        },
        prev_pos: node.pos,
        node_type: node.node_type,
    }
}

/// True when the position is below the floor.
pub open spec fn lands(moved: Point) -> bool {
    moved.y.gt(Scalar { bits: FLOOR_BITS })
}

/// `node` at `position`, unless it is fixed.
pub open spec fn placed(node: Node, position: Point) -> Node {
    if node.node_type == NodeType::Fixed {
        node
    } else {
        Node { pos: position, prev_pos: node.prev_pos, node_type: node.node_type }
    }
}

/// What a simulation holds.
pub struct SimulationView {
    pub gravity: Point,
    pub original_craft: CraftView,
    pub craft: CraftView,
    pub phase: Phase,
    pub dt: Scalar,
    pub time: Scalar,
}

impl SimulationView {
    /// The craft is consistent and of a size that a machine can hold, and
    /// the phase speaks of a node or a rod that exists and that the phase
    /// fits.
    pub open spec fn wf(self) -> bool {
        &&& self.craft.wf()
        &&& self.craft.nodes.len() <= usize::MAX
        &&& self.craft.rods.len() <= usize::MAX
        &&& match self.phase {
            Phase::Idle => true,
            Phase::Integrating { node } => node < self.craft.nodes.len()
                && self.craft.nodes[node as int].node_type != NodeType::Fixed,
            Phase::Bouncing { node } => node < self.craft.nodes.len()
                && self.craft.nodes[node as int].node_type != NodeType::Fixed,
            Phase::Measuring { pass, rod } => pass < ITERATIONS && rod < self.craft.rods.len(),
            Phase::Extending { pass, rod, distance } => pass < ITERATIONS && rod
                < self.craft.rods.len() && self.craft.rods[rod as int].rod_type is PISTON,
            Phase::Correcting { pass, rod, distance, target, share } => pass < ITERATIONS && rod
                < self.craft.rods.len(),
        }
    }

    /// The phase in which the nodes from `from` on are still to be moved.
    pub open spec fn integrating_from(self, from: int) -> Phase {
        let node = next_free(self.craft.nodes, from);
        if node < self.craft.nodes.len() {
            Phase::Integrating { node: node as usize }
        } else {
            self.relaxing_from(0, 0)
        }
    }

    /// The phase in which the rods from `rod` on are still to be relaxed
    /// in pass `pass`, and all rods in the passes after it.
    pub open spec fn relaxing_from(self, pass: int, rod: int) -> Phase {
        if self.craft.rods.len() == 0 || pass >= ITERATIONS {
            Phase::Idle
        } else if rod < self.craft.rods.len() {
            Phase::Measuring { pass: pass as usize, rod: rod as usize }
        } else if pass + 1 < ITERATIONS {
            Phase::Measuring { pass: (pass + 1) as usize, rod: 0 }
        } else {
            Phase::Idle
        }
    }

    /// The same simulation in another phase.
    pub open spec fn in_phase(self, phase: Phase) -> SimulationView {
        SimulationView { phase, ..self }
    }

    /// The same simulation with another node at `index`.
    pub open spec fn with_node(self, index: int, node: Node) -> SimulationView {
        SimulationView {
            craft: CraftView {
                nodes: self.craft.nodes.update(index, node),
                rods: self.craft.rods,
            },
            ..self
        }
    }

    /// What the simulation asks of its caller.
    pub open spec fn task(self) -> Task {
        match self.phase {
            Phase::Idle => Task::Done,
            Phase::Integrating { node } => Task::Integrate {
                position: self.craft.nodes[node as int].pos,
                previous: self.craft.nodes[node as int].prev_pos,
                gravity: self.gravity,
                dt: self.dt,
            },
            Phase::Bouncing { node } => Task::Bounce {
                position: self.craft.nodes[node as int].pos,
                previous: self.craft.nodes[node as int].prev_pos,
                restitution: Scalar { bits: RESTITUTION_BITS },
            },
            Phase::Measuring { pass, rod } => Task::Measure {
                a: self.craft.nodes[self.craft.rods[rod as int].node_a as int].pos,
                b: self.craft.nodes[self.craft.rods[rod as int].node_b as int].pos,
            },
            Phase::Extending { pass, rod, distance } => match self.craft.rods[rod as int].rod_type {
                RodType::PISTON { min_length, max_length } => Task::Extend {
                    min_length,
                    max_length,
                    time: self.time,
                },
                _ => Task::Done,
            },
            Phase::Correcting { pass, rod, distance, target, share } => Task::Correct {
                a: self.craft.nodes[self.craft.rods[rod as int].node_a as int].pos,
                b: self.craft.nodes[self.craft.rods[rod as int].node_b as int].pos,
                distance,
                target,
                share,
            },
        }
    }

    /// The simulation after a step has been asked for. A step that is
    /// under way goes on as it was.
    pub open spec fn begun(self, dt: Scalar, time: Scalar) -> SimulationView {
        if self.phase is Idle {
            let timed = SimulationView { dt, time, ..self };
            timed.in_phase(timed.integrating_from(0))
        } else {
            self
        }
    }

    /// The phase after the rod of length `distance` has been measured: a
    /// rod without length is passed over, and so is a rope that is not
    /// taut.
    pub open spec fn measured(self, pass: usize, rod: usize, distance: Scalar) -> Phase {
        let length = self.craft.rods[rod as int].length;
        let half = Scalar { bits: HALF_BITS };
        if distance.is_zero() {
            self.relaxing_from(pass as int, rod + 1)
        } else {
            match self.craft.rods[rod as int].rod_type {
                RodType::SOLID => Phase::Correcting { pass, rod, distance, target: length, share: half },
                RodType::ROPE => if distance.gt(length) {
                    Phase::Correcting { pass, rod, distance, target: length, share: half }
                } else {
                    self.relaxing_from(pass as int, rod + 1)
                },
                RodType::SPRING => Phase::Correcting {
                    pass,
                    rod,
                    distance,
                    target: Scalar { bits: SPRING_REST_BITS },
                    share: Scalar { bits: SPRING_STIFFNESS_BITS },
                },
                RodType::PISTON { min_length, max_length } => Phase::Extending {
                    pass,
                    rod,
                    distance,
                },
            }
        }
    }

    /// The phase after the piston has been told to aim at `target`: the
    /// target is held within the bounds of the piston, and a piston whose
    /// target is not a number is passed over.
    pub open spec fn extended(self, pass: usize, rod: usize, distance: Scalar, target: Scalar) -> Phase {
        match self.craft.rods[rod as int].rod_type {
            RodType::PISTON { min_length, max_length } => if target.is_nan() {
                self.relaxing_from(pass as int, rod + 1)
            } else {
                Phase::Correcting {
                    pass,
                    rod,
                    distance,
                    target: within(target, min_length, max_length),
                    share: Scalar { bits: HALF_BITS },
                }
            },
            _ => self.phase,
        }
    }

    /// The simulation after the caller's reply. A reply that does not
    /// answer the pending task changes nothing.
    pub open spec fn resumed(self, reply: Reply) -> SimulationView {
        match (self.phase, reply) {
            (Phase::Integrating { node }, Reply::Position(moved)) => {
                let next = self.with_node(
                    node as int,
                    integrated(self.craft.nodes[node as int], moved),
                );
                if lands(moved) {
                    next.in_phase(Phase::Bouncing { node })
                } else {
                    next.in_phase(next.integrating_from(node + 1))
                }
            },
            (Phase::Bouncing { node }, Reply::Position(previous)) => {
                let was = self.craft.nodes[node as int];
                let next = self.with_node(
                    node as int,
                    Node { pos: was.pos, prev_pos: previous, node_type: was.node_type },
                );
                next.in_phase(next.integrating_from(node + 1))
            },
            (Phase::Measuring { pass, rod }, Reply::Length(distance)) => self.in_phase(
                self.measured(pass, rod, distance),
            ),
            (Phase::Extending { pass, rod, distance }, Reply::Length(target)) => {
                self.in_phase(self.extended(pass, rod, distance, target))
            },
            (Phase::Correcting { pass, rod, distance, target, share }, Reply::Positions(a, b)) => {
                let ends = self.craft.rods[rod as int];
                let first = self.with_node(
                    ends.node_a as int,
                    placed(self.craft.nodes[ends.node_a as int], a),
                );
                let both = first.with_node(
                    ends.node_b as int,
                    placed(first.craft.nodes[ends.node_b as int], b),
                );
                both.in_phase(both.relaxing_from(pass as int, rod + 1))
            },
            _ => self,
        }
    }

    /// The simulation after `replies`, first to last.
    pub open spec fn resumed_all(self, replies: Seq<Reply>) -> SimulationView
        decreases replies.len(),
    {
        if replies.len() == 0 {
            self
        } else {
            self.resumed_all(replies.drop_last()).resumed(replies.last())
        }
    }

    /// True when each of `replies` is what `solve` gave for the task that
    /// was pending when the replies before it had been taken, and answers
    /// that task.
    pub open spec fn answered_by<F: Fn(Task) -> Reply>(self, solve: F, replies: Seq<Reply>) -> bool
        decreases replies.len(),
    {
        if replies.len() == 0 {
            true
        } else {
            let before = self.resumed_all(replies.drop_last());
            &&& self.answered_by(solve, replies.drop_last())
            &&& before.answers(replies.last())
            &&& call_ensures(solve, (before.task(),), replies.last())
        }
    }

    /// The simulation after `event`.
    pub open spec fn after(self, event: Event) -> SimulationView {
        match event {
            Event::Begin { dt, time } => self.begun(dt, time),
            Event::Resume { reply } => self.resumed(reply),
        }
    }

    /// The simulation after `events`, first to last.
    pub open spec fn after_all(self, events: Seq<Event>) -> SimulationView
        decreases events.len(),
    {
        if events.len() == 0 {
            self
        } else {
            self.after_all(events.drop_last()).after(events.last())
        }
    }
}

/// `next_free` answers with a free node at or after `from`, or with the
/// number of nodes.
pub proof fn lemma_next_free(nodes: Seq<Node>, from: int)
    requires
        0 <= from <= nodes.len(),
    ensures
        from <= next_free(nodes, from) <= nodes.len(),
        next_free(nodes, from) < nodes.len() ==> nodes[next_free(nodes, from)].node_type
            != NodeType::Fixed,
        forall|index: int|
            from <= index < next_free(nodes, from) ==> (#[trigger] nodes[index]).node_type
                == NodeType::Fixed,
    decreases nodes.len() - from,
{
    if from < nodes.len() && nodes[from].node_type == NodeType::Fixed {
        lemma_next_free(nodes, from + 1);
    }
}

impl SimulationView {
    /// No event adds, removes or retypes a node, touches a rod, or breaks
    /// the simulation; and no event moves a fixed node.
    pub proof fn lemma_event_keeps_structure(self, event: Event)
        requires
            self.wf(),
        ensures
            self.after(event).wf(),
            self.after(event).craft.rods == self.craft.rods,
            self.after(event).craft.nodes.len() == self.craft.nodes.len(),
            self.after(event).gravity == self.gravity,
            self.after(event).original_craft == self.original_craft,
            forall|index: int|
                0 <= index < self.craft.nodes.len() ==> (#[trigger] self.after(
                    event,
                ).craft.nodes[index]).node_type == self.craft.nodes[index].node_type,
            forall|index: int|
                0 <= index < self.craft.nodes.len() && self.craft.nodes[index].node_type
                    == NodeType::Fixed ==> #[trigger] self.after(event).craft.nodes[index]
                    == self.craft.nodes[index],
    {
        let n = self.craft.nodes.len() as int;
        match event {
            Event::Begin { dt, time } => {
                lemma_next_free(self.craft.nodes, 0);
            },
            Event::Resume { reply } => {
                match (self.phase, reply) {
                    (Phase::Integrating { node }, Reply::Position(moved)) => {
                        let next = self.with_node(
                            node as int,
                            integrated(self.craft.nodes[node as int], moved),
                        );
                        lemma_next_free(next.craft.nodes, node + 1);
                    },
                    (Phase::Bouncing { node }, Reply::Position(previous)) => {
                        let was = self.craft.nodes[node as int];
                        let next = self.with_node(
                            node as int,
                            Node { pos: was.pos, prev_pos: previous, node_type: was.node_type },
                        );
                        lemma_next_free(next.craft.nodes, node + 1);
                    },
                    _ => {},
                }
            },
        }
    }

    /// A fixed node is bit for bit where it was after any number of events,
    /// and so after any number of steps.
    pub proof fn lemma_fixed_nodes_never_move(self, events: Seq<Event>, index: int)
        requires
            self.wf(),
            0 <= index < self.craft.nodes.len(),
            self.craft.nodes[index].node_type == NodeType::Fixed,
        ensures
            self.after_all(events).wf(),
            self.after_all(events).craft.nodes.len() == self.craft.nodes.len(),
            self.after_all(events).craft.rods == self.craft.rods,
            self.after_all(events).craft.nodes[index] == self.craft.nodes[index],
        decreases events.len(),
    {
        if events.len() > 0 {
            self.lemma_fixed_nodes_never_move(events.drop_last(), index);
            self.after_all(events.drop_last()).lemma_event_keeps_structure(events.last());
        }
    }

    /// True when `reply` is of the kind that the pending task asks for.
    pub open spec fn answers(self, reply: Reply) -> bool {
        match self.phase {
            Phase::Idle => false,
            Phase::Integrating { node } => reply is Position,
            Phase::Bouncing { node } => reply is Position,
            Phase::Measuring { pass, rod } => reply is Length,
            Phase::Extending { pass, rod, distance } => reply is Length,
            Phase::Correcting { pass, rod, distance, target, share } => reply is Positions,
        }
    }

    /// Replies can be taken one at a time from the front: the simulation
    /// after `replies` is the simulation after the first of them, after
    /// the rest; and the replies are what `solve` gave exactly when the
    /// first is what `solve` gave for the pending task and answers it, and
    /// the rest are what `solve` gave from there on.
    pub proof fn lemma_replies_from_the_front<F: Fn(Task) -> Reply>(
        self,
        solve: F,
        replies: Seq<Reply>,
    )
        requires
            replies.len() > 0,
        ensures
            self.resumed_all(replies) == self.resumed(replies[0]).resumed_all(
                replies.drop_first(),
            ),
            self.answered_by(solve, replies) <==> {
                &&& self.answers(replies[0])
                &&& call_ensures(solve, (self.task(),), replies[0])
                &&& self.resumed(replies[0]).answered_by(solve, replies.drop_first())
            },
        decreases replies.len(),
    {
        let front = replies.drop_last();
        let rest = replies.drop_first();
        let next = self.resumed(replies[0]);
        if replies.len() == 1 {
            assert(front.len() == 0);
            assert(rest.len() == 0);
            assert(self.resumed_all(front) == self);
            assert(self.answered_by(solve, front));
            assert(next.answered_by(solve, rest));
            assert(replies.last() == replies[0]);
        } else {
            self.lemma_replies_from_the_front(solve, front);
            assert(front.drop_first() =~= rest.drop_last());
            assert(front[0] == replies[0]);
            assert(rest.last() == replies.last());
            let before = self.resumed_all(front);
            assert(before == next.resumed_all(rest.drop_last()));
            assert(self.answered_by(solve, replies) == (self.answered_by(solve, front)
                && before.answers(replies.last()) && call_ensures(
                solve,
                (before.task(),),
                replies.last(),
            )));
            assert(next.answered_by(solve, rest) == (next.answered_by(solve, rest.drop_last())
                && before.answers(rest.last()) && call_ensures(
                solve,
                (before.task(),),
                rest.last(),
            )));
        }
    }

    /// Between steps no reply is taken.
    pub proof fn lemma_idle_takes_no_reply<F: Fn(Task) -> Reply>(
        self,
        solve: F,
        replies: Seq<Reply>,
    )
        requires
            self.phase is Idle,
            self.answered_by(solve, replies),
        ensures
            replies.len() == 0,
    {
        if replies.len() > 0 {
            self.lemma_replies_from_the_front(solve, replies);
        }
    }

    /// Whether a reply answers goes by the pending task alone.
    pub proof fn lemma_answers_goes_by_the_task(self, reply: Reply)
        requires
            self.wf(),
        ensures
            self.answers(reply) <==> self.task().is_answered_by(reply),
    {
    }

    /// The rods that are still to be relaxed, a rod counting once for each
    /// pass that is still to visit it, when the rod `rod` is next in pass
    /// `pass`.
    pub open spec fn visits_left(self, pass: int, rod: int) -> int {
        (ITERATIONS - pass) * self.craft.rods.len() - rod
    }

    /// A number of replies that the step under way does not need more
    /// than: two for each node that is still to move and three for each
    /// visit of a rod that is still to come, less what the node or the rod
    /// in hand has had already.
    pub open spec fn replies_left(self) -> int {
        let relaxing = 3 * ITERATIONS * self.craft.rods.len();
        match self.phase {
            Phase::Idle => 0,
            Phase::Integrating { node } => 2 * (self.craft.nodes.len() - node) + relaxing,
            Phase::Bouncing { node } => 2 * (self.craft.nodes.len() - node) - 1 + relaxing,
            Phase::Measuring { pass, rod } => 3 * self.visits_left(pass as int, rod as int),
            Phase::Extending { pass, rod, distance } => 3 * self.visits_left(
                pass as int,
                rod as int,
            ) - 1,
            Phase::Correcting { pass, rod, distance, target, share } => 3 * self.visits_left(
                pass as int,
                rod as int,
            ) - 2,
        }
    }

    /// How the visits that are left count down from one rod to the next.
    proof fn lemma_visits_left(self, pass: int, rod: int)
        requires
            0 <= pass < ITERATIONS,
            0 <= rod < self.craft.rods.len(),
        ensures
            1 <= self.visits_left(pass, rod) <= ITERATIONS * self.craft.rods.len(),
            self.visits_left(pass, rod + 1) == self.visits_left(pass, rod) - 1,
            rod + 1 == self.craft.rods.len() ==> self.visits_left(pass + 1, 0) == self.visits_left(
                pass,
                rod,
            ) - 1,
            rod + 1 == self.craft.rods.len() && pass + 1 == ITERATIONS ==> self.visits_left(
                pass,
                rod,
            ) == 1,
    {
        let rods = self.craft.rods.len() as int;
        let left = ITERATIONS - pass;
        assert(left * rods >= rods && left * rods <= 5 * rods && (left - 1) * rods == left * rods
            - rods) by (nonlinear_arith)
            requires
                1 <= left <= 5,
                rods >= 0,
        ;
        if pass + 1 == ITERATIONS {
            assert(left * rods == rods) by (nonlinear_arith)
                requires
                    left == 1,
            ;
        }
    }

    /// A step is under way as long as replies are left, and no longer.
    pub proof fn lemma_replies_left(self)
        requires
            self.wf(),
        ensures
            0 <= self.replies_left(),
            self.replies_left() == 0 <==> self.phase is Idle,
    {
        match self.phase {
            Phase::Measuring { pass, rod } => {
                self.lemma_visits_left(pass as int, rod as int);
            },
            Phase::Extending { pass, rod, distance } => {
                self.lemma_visits_left(pass as int, rod as int);
            },
            Phase::Correcting { pass, rod, distance, target, share } => {
                self.lemma_visits_left(pass as int, rod as int);
            },
            _ => {},
        }
    }

    /// What is left when a rod is done with: three replies fewer than when
    /// it was about to be measured.
    proof fn lemma_after_rod(self, pass: usize, rod: usize)
        requires
            self.craft.rods.len() <= usize::MAX,
            pass < ITERATIONS,
            rod < self.craft.rods.len(),
        ensures
            self.in_phase(self.relaxing_from(pass as int, rod + 1)).replies_left() == 3
                * self.visits_left(pass as int, rod as int) - 3,
            3 * self.visits_left(pass as int, rod as int) - 3 >= 0,
    {
        self.lemma_visits_left(pass as int, rod as int);
        let next = self.relaxing_from(pass as int, rod + 1);
        if rod + 1 < self.craft.rods.len() {
            assert(next == (Phase::Measuring { pass, rod: (rod + 1) as usize }));
        } else if pass + 1 < ITERATIONS {
            assert(next == (Phase::Measuring { pass: (pass + 1) as usize, rod: 0 }));
        } else {
            assert(next == Phase::Idle);
        }
    }

    /// What is left when a node is done with: at least two replies fewer
    /// than when it was about to move.
    proof fn lemma_after_node(self, node: usize)
        requires
            self.craft.nodes.len() <= usize::MAX,
            self.craft.rods.len() <= usize::MAX,
            node < self.craft.nodes.len(),
        ensures
            0 <= self.in_phase(self.integrating_from(node + 1)).replies_left() <= 2 * (
            self.craft.nodes.len() - node) - 2 + 3 * ITERATIONS * self.craft.rods.len(),
    {
        lemma_next_free(self.craft.nodes, node + 1);
        let free = next_free(self.craft.nodes, node + 1);
        let next = self.integrating_from(node + 1);
        if free < self.craft.nodes.len() {
            assert(next == (Phase::Integrating { node: free as usize }));
        } else if self.craft.rods.len() == 0 {
            assert(next == Phase::Idle);
        } else {
            assert(next == (Phase::Measuring { pass: 0, rod: 0 }));
            self.lemma_visits_left(0, 0);
            assert(self.visits_left(0, 0) == ITERATIONS * self.craft.rods.len()) by {
                assert((ITERATIONS - 0) * self.craft.rods.len() == ITERATIONS
                    * self.craft.rods.len());
            }
        }
    }

    /// Every reply that answers the pending task brings the step nearer to
    /// its end: a step that is answered ends.
    pub proof fn lemma_reply_brings_the_end_nearer(self, reply: Reply)
        requires
            self.wf(),
            self.answers(reply),
        ensures
            0 <= self.resumed(reply).replies_left() < self.replies_left(),
    {
        let next = self.resumed(reply);
        match (self.phase, reply) {
            (Phase::Integrating { node }, Reply::Position(moved)) => {
                let moving = self.with_node(
                    node as int,
                    integrated(self.craft.nodes[node as int], moved),
                );
                if lands(moved) {
                    assert(next == moving.in_phase(Phase::Bouncing { node }));
                } else {
                    moving.lemma_after_node(node);
                    assert(next == moving.in_phase(moving.integrating_from(node + 1)));
                }
            },
            (Phase::Bouncing { node }, Reply::Position(previous)) => {
                let was = self.craft.nodes[node as int];
                let moving = self.with_node(
                    node as int,
                    Node { pos: was.pos, prev_pos: previous, node_type: was.node_type },
                );
                moving.lemma_after_node(node);
                assert(next == moving.in_phase(moving.integrating_from(node + 1)));
            },
            (Phase::Measuring { pass, rod }, Reply::Length(distance)) => {
                self.lemma_visits_left(pass as int, rod as int);
                self.lemma_after_rod(pass, rod);
                assert(next == self.in_phase(self.measured(pass, rod, distance)));
            },
            (Phase::Extending { pass, rod, distance }, Reply::Length(target)) => {
                self.lemma_visits_left(pass as int, rod as int);
                self.lemma_after_rod(pass, rod);
                assert(self.craft.rods[rod as int].rod_type is PISTON);
                assert(next == self.in_phase(self.extended(pass, rod, distance, target)));
            },
            (Phase::Correcting { pass, rod, distance, target, share }, Reply::Positions(a, b)) => {
                let ends = self.craft.rods[rod as int];
                let first = self.with_node(
                    ends.node_a as int,
                    placed(self.craft.nodes[ends.node_a as int], a),
                );
                let both = first.with_node(
                    ends.node_b as int,
                    placed(first.craft.nodes[ends.node_b as int], b),
                );
                self.lemma_visits_left(pass as int, rod as int);
                both.lemma_after_rod(pass, rod);
                assert(both.visits_left(pass as int, rod as int) == self.visits_left(
                    pass as int,
                    rod as int,
                ));
                assert(next == both.in_phase(both.relaxing_from(pass as int, rod + 1)));
            },
            _ => {},
        }
    }

    /// A piston never aims beyond its bounds: when the lower bound is not
    /// above the upper, the target of the correction that follows a reply
    /// lies between them, whatever the reply; and a reply that is not a
    /// number moves no node and asks for no correction.
    pub proof fn lemma_piston_target_is_within_bounds(
        self,
        pass: usize,
        rod: usize,
        distance: Scalar,
        target: Scalar,
    )
        requires
            self.wf(),
            self.phase == (Phase::Extending { pass, rod, distance }),
        ensures
            self.resumed(Reply::Length(target)).craft == self.craft,
            target.is_nan() ==> self.resumed(Reply::Length(target)).phase == self.relaxing_from(
                pass as int,
                rod + 1,
            ) && !(self.resumed(Reply::Length(target)).phase is Correcting),
            !target.is_nan() ==> self.resumed(Reply::Length(target)).phase is Correcting,
            self.resumed(Reply::Length(target)).phase is Correcting ==> ({
                let aim = self.resumed(Reply::Length(target)).phase->Correcting_target;
                let low = self.craft.rods[rod as int].rod_type->PISTON_min_length;
                let high = self.craft.rods[rod as int].rod_type->PISTON_max_length;
                &&& aim == within(target, low, high)
                &&& low.le(high) ==> low.le(aim) && aim.le(high)
            }),
    {
    }

    /// A rope that is not longer than its length is left alone: measuring
    /// it moves no node and asks for no correction.
    pub proof fn lemma_slack_rope_is_left_alone(self, pass: usize, rod: usize, distance: Scalar)
        requires
            self.wf(),
            self.phase == (Phase::Measuring { pass, rod }),
            self.craft.rods[rod as int].rod_type == RodType::ROPE,
            distance.le(self.craft.rods[rod as int].length),
        ensures
            self.resumed(Reply::Length(distance)).craft == self.craft,
            self.resumed(Reply::Length(distance)).phase == self.relaxing_from(pass as int, rod + 1),
            !(self.resumed(Reply::Length(distance)).phase is Correcting),
    {
    }
}

/// A craft under the solver.
#[derive(Debug)]
pub struct Simulation {
    pub gravity: Point,
    pub original_craft: Craft,
    pub craft: Craft,
    pub phase: Phase,
    pub dt: Scalar,
    pub time: Scalar,
}

impl View for Simulation {
    type V = SimulationView;

    open spec fn view(&self) -> SimulationView {
        SimulationView {
            gravity: self.gravity,
            original_craft: self.original_craft@,
            craft: self.craft@,
            phase: self.phase,
            dt: self.dt,
            time: self.time,
        }
    }
}

impl Simulation {
    /// The craft is consistent, and the phase fits it.
    pub open spec fn wf(&self) -> bool {
        self@.wf()
    }

    /// A simulation of `craft` between steps, under a pull of 500 downward.
    pub fn new(craft: Craft) -> (r: Simulation)
        requires
            craft.wf(),
        ensures
            r.wf(),
            r@.craft == craft@,
            r@.original_craft == craft@,
            r@.phase == Phase::Idle,
            r@.gravity == (Point { x: Scalar { bits: 0 }, y: Scalar { bits: GRAVITY_BITS } }),
            r@.dt == (Scalar { bits: 0 }),
            r@.time == (Scalar { bits: 0 }),
    {
        let nodes = craft.nodes.len();
        let rods = craft.rods.len();
        Simulation {
            gravity: Point { x: Scalar { bits: 0 }, y: Scalar { bits: GRAVITY_BITS } },
            original_craft: craft.clone(),
            craft,
            phase: Phase::Idle,
            dt: Scalar { bits: 0 },
            time: Scalar { bits: 0 },
        }
    }

    /// Tells whether the craft is consistent and the phase fits it.
    pub fn is_consistent(&self) -> (r: bool)
        ensures
            r == self.wf(),
    {
        if !self.craft.is_consistent() {
            return false;
        }
        let nodes = self.craft.nodes.len();
        let rods = self.craft.rods.len();
        match self.phase {
            Phase::Idle => true,
            Phase::Integrating { node } => node < nodes && self.craft.nodes[node].node_type
                != NodeType::Fixed,
            Phase::Bouncing { node } => node < nodes && self.craft.nodes[node].node_type
                != NodeType::Fixed,
            Phase::Measuring { pass, rod } => pass < ITERATIONS && rod < rods,
            Phase::Extending { pass, rod, distance } => pass < ITERATIONS && rod < rods
                && match self.craft.rods[rod].rod_type {
                RodType::PISTON { min_length, max_length } => true,
                _ => false,
            },
            Phase::Correcting { pass, rod, distance, target, share } => pass < ITERATIONS && rod
                < rods,
        }
    }

    /// The craft as the solver has left it.
    pub fn close(self) -> (r: Craft)
        ensures
            r@ == self@.craft,
    {
        self.craft
    }

    /// True when no step is under way.
    pub fn is_idle(&self) -> (r: bool)
        ensures
            r == (self@.phase is Idle),
    {
        match self.phase {
            Phase::Idle => true,
            _ => false,
        }
    }

    fn first_free(&self, from: usize) -> (node: usize)
        requires
            from <= self.craft@.nodes.len(),
        ensures
            node == next_free(self.craft@.nodes, from as int),
            from <= node <= self.craft@.nodes.len(),
    {
        let mut node = from;
        while node < self.craft.nodes.len() && self.craft.nodes[node].node_type == NodeType::Fixed
            invariant
                from <= node <= self.craft@.nodes.len(),
                next_free(self.craft@.nodes, from as int) == next_free(
                    self.craft@.nodes,
                    node as int,
                ),
            decreases self.craft@.nodes.len() - node,
        {
            node += 1;
        }
        node
    }

    fn phase_relaxing_from(&self, pass: usize, rod: usize) -> (phase: Phase)
        requires
            pass < ITERATIONS,
            rod <= self.craft@.rods.len(),
        ensures
            phase == self@.relaxing_from(pass as int, rod as int),
    {
        if self.craft.rods.len() == 0 {
            Phase::Idle
        } else if rod < self.craft.rods.len() {
            Phase::Measuring { pass, rod }
        } else if pass + 1 < ITERATIONS {
            Phase::Measuring { pass: pass + 1, rod: 0 }
        } else {
            Phase::Idle
        }
    }

    fn phase_integrating_from(&self, from: usize) -> (phase: Phase)
        requires
            from <= self.craft@.nodes.len(),
        ensures
            phase == self@.integrating_from(from as int),
    {
        let node = self.first_free(from);
        if node < self.craft.nodes.len() {
            Phase::Integrating { node }
        } else {
            self.phase_relaxing_from(0, 0)
        }
    }

    /// What the simulation asks of its caller.
    pub fn task(&self) -> (task: Task)
        requires
            self.wf(),
        ensures
            task == self@.task(),
    {
        match self.phase {
            Phase::Idle => Task::Done,
            Phase::Integrating { node } => Task::Integrate {
                position: self.craft.nodes[node].pos,
                previous: self.craft.nodes[node].prev_pos,
                gravity: self.gravity,
                dt: self.dt,
            },
            Phase::Bouncing { node } => Task::Bounce {
                position: self.craft.nodes[node].pos,
                previous: self.craft.nodes[node].prev_pos,
                restitution: Scalar { bits: RESTITUTION_BITS },
            },
            Phase::Measuring { pass, rod } => {
                let ends = self.craft.rods[rod];
                assert(self.craft@.rods[rod as int].node_a < self.craft@.nodes.len());
                Task::Measure {
                    a: self.craft.nodes[ends.node_a].pos,
                    b: self.craft.nodes[ends.node_b].pos,
                }
            },
            Phase::Extending { pass, rod, distance } => match self.craft.rods[rod].rod_type {
                RodType::PISTON { min_length, max_length } => Task::Extend {
                    min_length,
                    max_length,
                    time: self.time,
                },
                _ => Task::Done,
            },
            Phase::Correcting { pass, rod, distance, target, share } => {
                let ends = self.craft.rods[rod];
                assert(self.craft@.rods[rod as int].node_a < self.craft@.nodes.len());
                Task::Correct {
                    a: self.craft.nodes[ends.node_a].pos,
                    b: self.craft.nodes[ends.node_b].pos,
                    distance,
                    target,
                    share,
                }
            },
        }
    }

    /// Asks for a step of length `dt` at time `time`, and returns the first
    /// task of the step. A step that is under way goes on as it was.
    pub fn begin(&mut self, dt: Scalar, time: Scalar) -> (task: Task)
        requires
            old(self).wf(),
        ensures
            final(self)@ == old(self)@.begun(dt, time),
            final(self).wf(),
            task == final(self)@.task(),
    {
        proof {
            self@.lemma_event_keeps_structure(Event::Begin { dt, time });
        }
        if self.is_idle() {
            self.dt = dt;
            self.time = time;
            self.phase = self.phase_integrating_from(0);
        }
        self.task()
    }

    /// Takes the caller's answer to the pending task, and returns the next
    /// task. An answer of the wrong kind changes nothing.
    pub fn resume(&mut self, reply: Reply) -> (task: Task)
        requires
            old(self).wf(),
        ensures
            final(self)@ == old(self)@.resumed(reply),
            final(self).wf(),
            task == final(self)@.task(),
    {
        proof {
            self@.lemma_event_keeps_structure(Event::Resume { reply });
        }
        let ghost before = self@;
        let rods = self.craft.rods.len();
        let nodes = self.craft.nodes.len();
        match (self.phase, reply) {
            (Phase::Integrating { node }, Reply::Position(moved)) => {
                let was = self.craft.nodes[node];
                if moved.y.gt(Scalar { bits: FLOOR_BITS }) {
                    let landed = Point { x: moved.x, y: Scalar { bits: FLOOR_BITS } };
                    self.craft.nodes.set(
                        node,
                        Node { pos: landed, prev_pos: was.pos, node_type: was.node_type },
                    );
                    self.phase = Phase::Bouncing { node };
                } else {
                    self.craft.nodes.set(
                        node,
                        Node { pos: moved, prev_pos: was.pos, node_type: was.node_type },
                    );
                    self.phase = self.phase_integrating_from(node + 1);
                }
            },
            (Phase::Bouncing { node }, Reply::Position(previous)) => {
                let was = self.craft.nodes[node];
                self.craft.nodes.set(
                    node,
                    Node { pos: was.pos, prev_pos: previous, node_type: was.node_type },
                );
                self.phase = self.phase_integrating_from(node + 1);
            },
            (Phase::Measuring { pass, rod }, Reply::Length(distance)) => {
                let ends = self.craft.rods[rod];
                let half = Scalar { bits: HALF_BITS };
                if distance.is_zero() {
                    self.phase = self.phase_relaxing_from(pass, rod + 1);
                } else {
                    match ends.rod_type {
                        RodType::SOLID => {
                            self.phase = Phase::Correcting {
                                pass,
                                rod,
                                distance,
                                target: ends.length,
                                share: half,
                            };
                        },
                        RodType::ROPE => {
                            if distance.gt(ends.length) {
                                self.phase = Phase::Correcting {
                                    pass,
                                    rod,
                                    distance,
                                    target: ends.length,
                                    share: half,
                                };
                            } else {
                                self.phase = self.phase_relaxing_from(pass, rod + 1);
                            }
                        },
                        RodType::SPRING => {
                            self.phase = Phase::Correcting {
                                pass,
                                rod,
                                distance,
                                target: Scalar { bits: SPRING_REST_BITS },
                                share: Scalar { bits: SPRING_STIFFNESS_BITS },
                            };
                        },
                        RodType::PISTON { min_length, max_length } => {
                            self.phase = Phase::Extending { pass, rod, distance };
                        },
                    }
                }
            },
            (Phase::Extending { pass, rod, distance }, Reply::Length(target)) => {
                match self.craft.rods[rod].rod_type {
                    RodType::PISTON { min_length, max_length } => {
                        if target.is_nan() {
                            self.phase = self.phase_relaxing_from(pass, rod + 1);
                        } else {
                            let bounded = if target.lt(min_length) {
                                min_length
                            } else if target.gt(max_length) {
                                max_length
                            } else {
                                target
                            };
                            self.phase = Phase::Correcting {
                                pass,
                                rod,
                                distance,
                                target: bounded,
                                share: Scalar { bits: HALF_BITS },
                            };
                        }
                    },
                    _ => {},
                }
            },
            (Phase::Correcting { pass, rod, distance, target, share }, Reply::Positions(a, b)) => {
                let ends = self.craft.rods[rod];
                assert(before.craft.rods[rod as int].node_a < before.craft.nodes.len());
                let first = self.craft.nodes[ends.node_a];
                if first.node_type != NodeType::Fixed {
                    self.craft.nodes.set(
                        ends.node_a,
                        Node { pos: a, prev_pos: first.prev_pos, node_type: first.node_type },
                    );
                }
                let second = self.craft.nodes[ends.node_b];
                if second.node_type != NodeType::Fixed {
                    self.craft.nodes.set(
                        ends.node_b,
                        Node { pos: b, prev_pos: second.prev_pos, node_type: second.node_type },
                    );
                }
                self.phase = self.phase_relaxing_from(pass, rod + 1);
            },
            _ => {},
        }
        proof {
            assert(self@.craft.nodes =~= before.resumed(reply).craft.nodes);
            assert(self@.craft.rods =~= before.resumed(reply).craft.rods);
        }
        self.task()
    }

    fn is_answered_by(&self, reply: &Reply) -> (r: bool)
        ensures
            r == self@.answers(*reply),
    {
        match self.phase {
            Phase::Idle => false,
            Phase::Integrating { node } => match reply {
                Reply::Position(moved) => true,
                _ => false,
            },
            Phase::Bouncing { node } => match reply {
                Reply::Position(previous) => true,
                _ => false,
            },
            Phase::Measuring { pass, rod } => match reply {
                Reply::Length(distance) => true,
                _ => false,
            },
            Phase::Extending { pass, rod, distance } => match reply {
                Reply::Length(target) => true,
                _ => false,
            },
            Phase::Correcting { pass, rod, distance, target, share } => match reply {
                Reply::Positions(a, b) => true,
                _ => false,
            },
        }
    }

    /// Advances the craft by one step of length `dt` at time `time`, with
    /// `solve` working out each task. The step takes the replies of
    /// `solve` one after the other until no task is left, and is then
    /// done; it stops, not done, at the first reply that does not answer
    /// its task, and at no other. A step that was under way is taken up
    /// where it was.
    pub fn update<F: Fn(Task) -> Reply>(&mut self, dt: Scalar, time: Scalar, solve: F) -> (done:
        bool)
        requires
            old(self).wf(),
            forall|task: Task| call_requires(solve, (task,)),
        ensures
            final(self).wf(),
            exists|replies: Seq<Reply>|
                {
                    &&& #[trigger] old(self)@.begun(dt, time).answered_by(solve, replies)
                    &&& final(self)@ == old(self)@.begun(dt, time).resumed_all(replies)
                },
            done <==> final(self)@.phase is Idle,
            !done ==> exists|reply: Reply|
                #[trigger] call_ensures(solve, (final(self)@.task(),), reply) && !final(self)@.answers(reply),
            (forall|task: Task, reply: Reply|
                #[trigger] call_ensures(solve, (task,), reply) ==> task.is_answered_by(reply))
                ==> done,
            final(self)@.craft.rods == old(self)@.craft.rods,
            final(self)@.craft.nodes.len() == old(self)@.craft.nodes.len(),
            forall|index: int|
                0 <= index < old(self)@.craft.nodes.len() ==> (#[trigger] final(self)@.craft.nodes[index]).node_type == old(self)@.craft.nodes[index].node_type,
            forall|index: int|
                0 <= index < old(self)@.craft.nodes.len() && old(self)@.craft.nodes[index].node_type
                    == NodeType::Fixed ==> #[trigger] final(self)@.craft.nodes[index] == old(
                    self,
                )@.craft.nodes[index],
    {
        let ghost before = self@;
        proof {
            before.lemma_event_keeps_structure(Event::Begin { dt, time });
        }
        let mut task = self.begin(dt, time);
        let ghost start = self@;
        let ghost mut replies: Seq<Reply> = Seq::empty();
        loop
            invariant
                self.wf(),
                task == self@.task(),
                forall|task: Task| call_requires(solve, (task,)),
                before == old(self)@,
                start == before.begun(dt, time),
                start.answered_by(solve, replies),
                self@ == start.resumed_all(replies),
                self@.craft.rods == before.craft.rods,
                self@.craft.nodes.len() == before.craft.nodes.len(),
                forall|index: int|
                    0 <= index < before.craft.nodes.len() ==> (#[trigger] self@.craft.nodes[index]).node_type
                        == before.craft.nodes[index].node_type,
                forall|index: int|
                    0 <= index < before.craft.nodes.len() && before.craft.nodes[index].node_type
                        == NodeType::Fixed ==> #[trigger] self@.craft.nodes[index]
                        == before.craft.nodes[index],
            decreases self@.replies_left(),
        {
            if self.is_idle() {
                return true;
            }
            let reply = solve(task);
            if !self.is_answered_by(&reply) {
                proof {
                    self@.lemma_answers_goes_by_the_task(reply);
                }
                return false;
            }
            proof {
                self@.lemma_reply_brings_the_end_nearer(reply);
                self@.lemma_event_keeps_structure(Event::Resume { reply });
                let more = replies.push(reply);
                assert(more.drop_last() =~= replies);
                replies = more;
            }
            task = self.resume(reply);
        }
    }
}

} // verus!
