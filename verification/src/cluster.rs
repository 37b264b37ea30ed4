//! Cluster solver interface: what an escalated cluster is handed over as, and
//! what comes back.
use vstd::prelude::*;

use crate::net::{NetId, NetState};
use crate::quantity::{Amps, Ohms, Volts};

verus! {

/// A source of a solve: a voltage behind an impedance on a node.
#[derive(Debug, Clone, Copy, PartialEq, Eq, Structural)]
pub struct ClusterSource {
    /// The node it sits on.
    pub node: NetId,
    /// Its open-circuit voltage.
    pub volts: Volts,
    /// Its own impedance.
    pub impedance: Ohms,
}

/// A current injected into a node.
#[derive(Debug, Clone, Copy, PartialEq, Eq, Structural)]
pub struct ClusterInjection {
    /// The node it flows into.
    pub node: NetId,
    /// The current.
    pub amps: Amps,
}

/// A node held at a voltage: a constant of the solve.
#[derive(Debug, Clone, Copy, PartialEq, Eq, Structural)]
pub struct ClusterTerminal {
    /// The node held.
    pub node: NetId,
    /// The voltage it is held at.
    pub volts: Volts,
}

/// A resistor between two nodes.
#[derive(Debug, Clone, Copy, PartialEq, Eq, Structural)]
pub struct ClusterResistor {
    /// One end.
    pub a: NetId,
    /// The other end.
    pub b: NetId,
    /// Its resistance.
    pub ohms: Ohms,
}

/// A piecewise-linear conduction curve.
#[derive(Debug, Clone, Copy, PartialEq, Eq, Structural)]
pub enum PwlCurve {
    /// A diode: open below the knee, a slope above it.
    Diode {
        /// The knee voltage.
        vf: Volts,
        /// The slope resistance.
        r_d: Ohms,
    },
    /// A switched channel.
    Channel {
        /// The resistance when on.
        r_on: Ohms,
    },
}

/// The test a control voltage passes for an element's on region.
#[derive(Debug, Clone, Copy, PartialEq, Eq, Structural)]
pub enum RegionTest {
    /// On at or above a voltage.
    AtLeast(Volts),
    /// On at or below a voltage.
    AtMost(Volts),
}

/// A piecewise-linear element between two nodes.
#[derive(Debug, Clone, Copy, PartialEq, Eq)]
pub struct ClusterElement {
    /// One end.
    pub a: NetId,
    /// The other end.
    pub b: NetId,
    /// Its curve.
    pub curve: PwlCurve,
    /// The node whose voltage selects its region, and the test.
    pub control: Option<(NetId, RegionTest)>,
}

/// The nodes and resistors of one cluster.
#[derive(Debug)]
pub struct Cluster {
    /// Member nodes, then the boundary nodes held at a voltage.
    pub nodes: Vec<NetId>,
    /// The resistors among them.
    pub resistors: Vec<ClusterResistor>,
}

/// What sources a cluster and what sits in it.
#[derive(Debug)]
pub struct ClusterInputs {
    /// The slot sources, in endpoint order.
    pub sources: Vec<ClusterSource>,
    /// The current injections, in endpoint order.
    pub injections: Vec<ClusterInjection>,
    /// The constants.
    pub terminals: Vec<ClusterTerminal>,
    /// The piecewise-linear elements, in declaration order.
    pub elements: Vec<ClusterElement>,
}

/// A solve's operating point.
#[derive(Debug)]
pub struct ClusterSolution {
    /// The state of each solved node.
    pub node_states: Vec<(NetId, NetState)>,
    /// The current through each element, in the order handed over.
    pub branch_currents: Vec<Option<Amps>>,
    /// Whether the elements' regions are consistent.
    pub converged: bool,
    /// How many linear solves it took.
    pub solves: usize,
}

/// A cluster's nodes and resistors as sequences.
#[verifier::ext_equal]
pub struct ClusterView {
    /// The nodes.
    pub nodes: Seq<NetId>,
    /// The resistors.
    pub resistors: Seq<ClusterResistor>,
}

/// A cluster's inputs as sequences.
#[verifier::ext_equal]
pub struct ClusterInputsView {
    /// The slot sources.
    pub sources: Seq<ClusterSource>,
    /// The injections.
    pub injections: Seq<ClusterInjection>,
    /// The constants.
    pub terminals: Seq<ClusterTerminal>,
    /// The elements.
    pub elements: Seq<ClusterElement>,
}

/// A solution as sequences.
#[verifier::ext_equal]
pub struct ClusterSolutionView {
    /// The state of each solved node.
    pub node_states: Seq<(NetId, NetState)>,
    /// The current through each element.
    pub branch_currents: Seq<Option<Amps>>,
    /// Whether the regions are consistent.
    pub converged: bool,
    /// How many linear solves it took.
    pub solves: usize,
}

impl View for Cluster {
    type V = ClusterView;

    open spec fn view(&self) -> ClusterView {
        ClusterView { nodes: self.nodes@, resistors: self.resistors@ }
    }
}

impl View for ClusterInputs {
    type V = ClusterInputsView;

    open spec fn view(&self) -> ClusterInputsView {
        ClusterInputsView {
            sources: self.sources@,
            injections: self.injections@,
            terminals: self.terminals@,
            elements: self.elements@,
        }
    }
}

impl View for ClusterSolution {
    type V = ClusterSolutionView;

    open spec fn view(&self) -> ClusterSolutionView {
        ClusterSolutionView {
            node_states: self.node_states@,
            branch_currents: self.branch_currents@,
            converged: self.converged,
            solves: self.solves,
        }
    }
}

/// The state listed for a node, the first entry deciding.
pub open spec fn state_listed(states: Seq<(NetId, NetState)>, node: NetId) -> Option<NetState>
    decreases states.len(),
{
    if states.len() == 0 {
        None
    } else if states[0].0 == node {
        Some(states[0].1)
    } else {
        state_listed(states.drop_first(), node)
    }
}

/// The voltage a state names as an operating point.
pub open spec fn analog_of(state: Option<NetState>) -> Option<Volts> {
    match state {
        Some(NetState::Analog(v)) => Some(v),
        _ => None,
    }
}

/// The voltage a state names as an operating point.
pub fn analog_volts(state: Option<NetState>) -> (r: Option<Volts>)
    ensures
        r == analog_of(state),
{
    match state {
        Some(NetState::Analog(v)) => Some(v),
        _ => None,
    }
}

impl ClusterSolutionView {
    /// The state the solve gave a node.
    pub open spec fn state_of(self, node: NetId) -> Option<NetState> {
        state_listed(self.node_states, node)
    }

    /// The voltage the solve gave a node.
    pub open spec fn volts_of(self, node: NetId) -> Option<Volts> {
        analog_of(self.state_of(node))
    }

    /// The current through the element at `position`.
    pub open spec fn current_at(self, position: int) -> Option<Amps> {
        if 0 <= position < self.branch_currents.len() {
            self.branch_currents[position]
        } else {
            None
        }
    }
}

impl ClusterSolution {
    /// The state the solve gave a node.
    pub fn state_of(&self, node: NetId) -> (r: Option<NetState>)
        ensures
            r == self@.state_of(node),
    {
        let mut i: usize = 0;
        assert(self.node_states@.skip(0) =~= self.node_states@);
        while i < self.node_states.len()
            invariant
                i <= self.node_states@.len(),
                state_listed(self.node_states@, node) == state_listed(
                    self.node_states@.skip(i as int),
                    node,
                ),
            decreases self.node_states@.len() - i,
        {
            let ghost rest = self.node_states@.skip(i as int);
            assert(rest.drop_first() =~= self.node_states@.skip(i + 1));
            if self.node_states[i].0 == node {
                return Some(self.node_states[i].1);
            }
            i += 1;
        }
        None
    }

    /// The voltage the solve gave a node.
    pub fn volts_of(&self, node: NetId) -> (r: Option<Volts>)
        ensures
            r == self@.volts_of(node),
    {
        analog_volts(self.state_of(node))
    }

    /// The current through the element at `position`.
    pub fn current_at(&self, position: usize) -> (r: Option<Amps>)
        ensures
            r == self@.current_at(position as int),
    {
        if position < self.branch_currents.len() {
            self.branch_currents[position]
        } else {
            None
        }
    }
}

/// A cluster solver: an operating point for every cluster, a function of the
/// cluster and its inputs alone.
pub trait ClusterSolver {
    /// The operating point of a cluster.
    spec fn solution(&self, cluster: ClusterView, inputs: ClusterInputsView) -> ClusterSolutionView;

    /// The impedance an ideal source is stamped behind.
    spec fn floor(&self) -> Ohms;

    /// Solve a cluster.
    fn solve(&self, cluster: &Cluster, inputs: &ClusterInputs) -> (solution: ClusterSolution)
        ensures
            solution@ == self.solution(cluster@, inputs@),
    ;

    /// The impedance an ideal source is stamped behind.
    fn ideal_source_floor(&self) -> (ohms: Ohms)
        ensures
            ohms == self.floor(),
    ;
}

} // verus!
