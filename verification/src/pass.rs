//! One cluster's resolution pass.
use vstd::prelude::*;

use crate::board::Board;
use crate::cluster::{
    Cluster, ClusterElement, ClusterInjection, ClusterInputs, ClusterResistor, ClusterSolution,
    ClusterSolver, ClusterSource, ClusterTerminal,
};
use crate::coupling::{
    arrival_slots, arrivals_valid, arrivals_view, coupling_names, crossed_at, keyed_view,
    overlay_arrivals, refused_crossings, Arrival, ArrivalView,
};
use crate::diagnostics::{names_view, pins_view, Finding, FindingView, SenseKind};
use crate::dsu::is_root_map;
use crate::net::{
    ambiguous_volts, holds_periodic, is_periodic, phase_port, Drive, Level, Net, NetId, NetState,
    NetVolts, Phase, PinRef,
};
use crate::phases::{
    combine_phases, contending_slots, joined_fight, periodic_source, slots_or_none, PhaseRoot,
    RootResult, RootResultView,
};
use crate::quantity::{Amps, Ohms, Quantity, Volts};
use crate::ranking::{
    bar_of, needs_solve, project_root, slots_where, strong_slots, volts_named, ReachingSource,
    RootOutcome,
};
use crate::scene::{
    cluster_findings, fight_findings, position_in, ClusterFindings, HeldTerminal, Names, Scene,
    SlotInjection, SlotSource,
};
use crate::seqs::{
    ascending, position_of, select_properties, slot_union, union_list, union_properties,
};
use crate::terminal::{TerminalDrive, TerminalState};
use crate::topology::{
    boundary_terminal, cluster_count, cluster_topo, control_terminal, layout_is_sound, layout_of,
    layout_sound, member_element, member_net, member_root, roots_in, sense_in, sourcing_slot,
    topology_of, ClusterTopo, ClusterTopoView, Layout, Topology, TopologyView,
};

verus! {

/// Everything a cluster's pass reads.
pub struct ClusterReads<'a> {
    /// The board.
    pub board: &'a Board,
    /// Its structure.
    pub topology: &'a Topology,
    /// The cluster.
    pub cid: usize,
    /// What every terminal holds.
    pub states: &'a Vec<TerminalState>,
    /// The rates arriving at the cluster's roots.
    pub arrivals: &'a Vec<Arrival>,
}

/// The element at `e`, its nets as roots.
pub open spec fn element_at(board: Board, root_of: Seq<usize>, e: int) -> ClusterElement {
    let element = board.elements@[e];
    ClusterElement {
        a: NetId(root_of[element.a as int]),
        b: NetId(root_of[element.b as int]),
        curve: element.curve,
        control: match element.control {
            Some((net, test)) => Some((NetId(root_of[net as int]), test)),
            None => None,
        },
    }
}

/// The nets at the listed positions.
pub open spec fn nets_at(nets: Seq<usize>, positions: Seq<usize>) -> Seq<usize> {
    Seq::new(positions.len(), |k: int| nets[positions[k] as int])
}

/// The states at the listed positions.
pub open spec fn states_at(states: Seq<TerminalState>, positions: Seq<usize>) -> Seq<
    TerminalState,
> {
    Seq::new(positions.len(), |k: int| states[positions[k] as int])
}

/// A cluster and everything its pass reads.
pub open spec fn scene_of(
    board: Board,
    topology: TopologyView,
    states: Seq<TerminalState>,
    arrivals: Seq<ArrivalView>,
    cid: int,
) -> Scene {
    let c = topology.clusters[cid];
    Scene {
        topo: c,
        root_of: topology.root_of,
        terminal_roots: topology.terminal_roots,
        slot_roots: Seq::new(
            c.slots.len(),
            |k: int| topology.root_of[board.slots@[c.slots[k] as int].net as int],
        ),
        elements: Seq::new(
            c.elements.len(),
            |k: int| element_at(board, topology.root_of, c.elements[k] as int),
        ),
        digital_nets: nets_at(board.digital_senses@, c.digital_senses),
        analog_nets: nets_at(board.analog_senses@, c.analog_senses),
        power_nets: nets_at(board.power_senses@, c.power_senses),
        drives: Seq::new(c.slots.len(), |k: int| board.slots@[c.slots[k] as int].drive),
        own: match c.terminal {
            Some(p) => Some(states[p as int]),
            None => None,
        },
        boundary: states_at(states, c.boundary),
        controls: states_at(states, c.boundary_controls),
        arrivals,
    }
}

/// What a board's findings call things.
pub open spec fn names_of(board: Board, nets: Seq<Net>) -> Names {
    Names {
        nets: Seq::new(nets.len(), |i: int| nets[i].name@),
        pins: Seq::new(board.slots@.len(), |i: int| board.slots@[i].pin@),
        slot_nets: Seq::new(board.slots@.len(), |i: int| board.slots@[i].net),
        elements: Seq::new(board.elements@.len(), |i: int| board.elements@[i].reference@),
        capacitors: Seq::new(board.couplings@.len(), |i: int| board.couplings@[i].reference@),
    }
}

/// Every arrival is at a root of the cluster, over crossings the board has.
pub open spec fn arrivals_at(
    arrivals: Seq<ArrivalView>,
    roots: Seq<usize>,
    slots: nat,
    nets: nat,
    couplings: nat,
) -> bool {
    &&& forall|i: int|
        0 <= i < arrivals.len() ==> roots.contains((#[trigger] arrivals[i]).root)
            && arrivals[i].slot < slots
    &&& arrivals_valid(arrivals, nets, couplings)
}

/// The structure describes the board.
pub open spec fn describes(topology: TopologyView, board: Board) -> bool {
    &&& topology.root_of.len() <= usize::MAX
    &&& is_root_map(topology.root_of)
    &&& board.shape().valid(topology.root_of.len())
    &&& topology == topology_of(board.shape(), topology.root_of)
}

impl<'a> ClusterReads<'a> {
    /// The scene the pass plays on.
    pub open spec fn scene(&self) -> Scene {
        scene_of(
            *self.board,
            self.topology@,
            self.states@,
            arrivals_view(self.arrivals@),
            self.cid as int,
        )
    }

    /// Everything read is there.
    pub open spec fn valid(&self) -> bool {
        &&& describes(self.topology@, *self.board)
        &&& self.cid < self.topology.clusters@.len()
        &&& self.states@.len() == self.topology.terminal_roots@.len()
        &&& arrivals_at(
            arrivals_view(self.arrivals@),
            self.topology@.clusters[self.cid as int].roots,
            self.board.slots@.len(),
            self.topology.root_of@.len(),
            self.board.couplings@.len(),
        )
    }
}

/// Every index a scene's pass follows leads somewhere.
pub open spec fn scene_sound(scene: Scene) -> bool {
    let c = scene.topo;
    let k = c.roots.len();
    let n = scene.root_of.len();
    &&& ascending(c.roots)
    &&& k + c.boundary.len() <= usize::MAX
    &&& c.dist.len() == k
    &&& forall|i: int| 0 <= i < k ==> (#[trigger] c.dist[i]).len() == k + c.boundary.len()
    &&& forall|i: int| 0 <= i < c.nets.len() ==> (#[trigger] c.nets[i]) < n && c.roots.contains(
        scene.root_of[c.nets[i] as int],
    )
    &&& scene.slot_roots.len() == c.slots.len()
    &&& scene.drives.len() == c.slots.len()
    &&& forall|i: int| 0 <= i < c.slots.len() ==> c.roots.contains(#[trigger] scene.slot_roots[i])
    &&& scene.boundary.len() == c.boundary.len()
    &&& scene.controls.len() == c.boundary_controls.len()
    &&& forall|i: int|
        0 <= i < c.boundary.len() ==> (#[trigger] c.boundary[i]) < scene.terminal_roots.len()
    &&& forall|i: int|
        0 <= i < c.boundary_controls.len() ==> (#[trigger] c.boundary_controls[i])
            < scene.terminal_roots.len()
    &&& scene.own is Some <==> c.terminal is Some
    &&& c.terminal matches Some(p) ==> p < scene.terminal_roots.len() && k > 0
    &&& forall|i: int|
        0 <= i < scene.digital_nets.len() ==> (#[trigger] scene.digital_nets[i]) < n
            && c.roots.contains(scene.root_of[scene.digital_nets[i] as int])
    &&& forall|i: int|
        0 <= i < scene.analog_nets.len() ==> (#[trigger] scene.analog_nets[i]) < n
            && c.roots.contains(scene.root_of[scene.analog_nets[i] as int])
    &&& forall|i: int|
        0 <= i < scene.power_nets.len() ==> (#[trigger] scene.power_nets[i]) < n
            && c.roots.contains(scene.root_of[scene.power_nets[i] as int])
    &&& c.elements.len() > 0 ==> c.nets.len() > 0
}

/// Every list of a cluster indexes the board.
pub open spec fn cluster_indexes(c: ClusterTopoView, board: Board) -> bool {
    &&& forall|i: int| 0 <= i < c.slots.len() ==> (#[trigger] c.slots[i]) < board.slots@.len()
    &&& forall|i: int|
        0 <= i < c.elements.len() ==> (#[trigger] c.elements[i]) < board.elements@.len()
    &&& forall|i: int|
        0 <= i < c.digital_senses.len() ==> (#[trigger] c.digital_senses[i])
            < board.digital_senses@.len()
    &&& forall|i: int|
        0 <= i < c.analog_senses.len() ==> (#[trigger] c.analog_senses[i])
            < board.analog_senses@.len()
    &&& forall|i: int|
        0 <= i < c.power_senses.len() ==> (#[trigger] c.power_senses[i])
            < board.power_senses@.len()
}

/// What a structure that describes its board says of a cluster.
pub proof fn described_cluster(topology: TopologyView, board: Board, cid: int)
    requires
        describes(topology, board),
        0 <= cid < topology.clusters.len(),
    ensures
        topology.clusters[cid] == cluster_topo(
            board.shape(),
            layout_of(board.shape(), topology.root_of),
            cid,
        ),
        topology.clusters.len() == cluster_count(board.shape(), topology.root_of),
        topology.terminals.len() == topology.terminal_roots.len(),
        topology.terminal_roots == layout_of(board.shape(), topology.root_of).terminals,
        topology.index == layout_of(board.shape(), topology.root_of).index,
{
    let expected = topology_of(board.shape(), topology.root_of);
    assert(topology.clusters.len() == expected.clusters.len());
}

proof fn root_is_member(layout: Layout, count: nat, cid: int, net: usize)
    requires
        layout_sound(layout, count),
        net < layout.root_of.len(),
        layout.index[net as int] == cid,
    ensures
        roots_in(layout, cid).contains(layout.root_of[net as int]),
{
    let keep = member_root(layout, cid);
    select_properties(layout.root_of.len(), keep);
    let root = layout.root_of[net as int];
    assert(layout.root_of[root as int] == root);
    assert(layout.index[root as int] == layout.index[net as int]);
    assert(keep(root as int));
}

/// A cluster of a structure that describes its board is sound.
pub proof fn scene_is_sound(
    board: Board,
    topology: TopologyView,
    states: Seq<TerminalState>,
    arrivals: Seq<ArrivalView>,
    cid: int,
)
    requires
        describes(topology, board),
        0 <= cid < topology.clusters.len(),
        topology.terminal_roots.len() <= usize::MAX,
        board.slots@.len() <= usize::MAX,
        board.elements@.len() <= usize::MAX,
        board.digital_senses@.len() <= usize::MAX,
        board.analog_senses@.len() <= usize::MAX,
        board.power_senses@.len() <= usize::MAX,
        topology.clusters[cid].roots.len() + topology.clusters[cid].boundary.len() <= usize::MAX,
    ensures
        scene_sound(scene_of(board, topology, states, arrivals, cid)),
        cluster_indexes(topology.clusters[cid], board),
{
    let shape = board.shape();
    let layout = layout_of(shape, topology.root_of);
    let count = cluster_count(shape, topology.root_of);
    let scene = scene_of(board, topology, states, arrivals, cid);
    let c = scene.topo;
    let n = topology.root_of.len();
    layout_is_sound(shape, topology.root_of);
    assert(c == cluster_topo(shape, layout, cid));
    select_properties(n, member_root(layout, cid));
    select_properties(n, member_net(layout, cid));
    select_properties(shape.slot_nets.len(), sourcing_slot(shape, layout, cid));
    select_properties(shape.elements.len(), member_element(shape, layout, cid));
    select_properties(layout.terminals.len(), boundary_terminal(shape, layout, cid));
    select_properties(layout.terminals.len(), control_terminal(shape, layout, cid));
    select_properties(
        shape.digital_senses.len(),
        sense_in(layout.index, shape.digital_senses, cid),
    );
    select_properties(
        shape.analog_senses.len(),
        sense_in(layout.index, shape.analog_senses, cid),
    );
    select_properties(
        shape.power_senses.len(),
        sense_in(layout.index, shape.power_senses, cid),
    );
    assert forall|i: int| 0 <= i < c.nets.len() implies (#[trigger] c.nets[i]) < n
        && c.roots.contains(scene.root_of[c.nets[i] as int]) by {
        assert(member_net(layout, cid)(c.nets[i] as int));
        root_is_member(layout, count, cid, c.nets[i]);
    }
    assert forall|i: int| 0 <= i < c.slots.len() implies c.roots.contains(
        #[trigger] scene.slot_roots[i],
    ) by {
        let s = c.slots[i] as int;
        assert(sourcing_slot(shape, layout, cid)(s));
        assert(shape.slot_nets[s] < n);
        root_is_member(layout, count, cid, shape.slot_nets[s]);
    }
    assert forall|i: int| 0 <= i < scene.digital_nets.len() implies (
    #[trigger] scene.digital_nets[i]) < n && c.roots.contains(
        scene.root_of[scene.digital_nets[i] as int],
    ) by {
        let s = c.digital_senses[i] as int;
        assert(sense_in(layout.index, shape.digital_senses, cid)(s));
        assert(shape.digital_senses[s] < n);
        root_is_member(layout, count, cid, shape.digital_senses[s]);
    }
    assert forall|i: int| 0 <= i < scene.analog_nets.len() implies (
    #[trigger] scene.analog_nets[i]) < n && c.roots.contains(
        scene.root_of[scene.analog_nets[i] as int],
    ) by {
        let s = c.analog_senses[i] as int;
        assert(sense_in(layout.index, shape.analog_senses, cid)(s));
        assert(shape.analog_senses[s] < n);
        root_is_member(layout, count, cid, shape.analog_senses[s]);
    }
    assert forall|i: int| 0 <= i < scene.power_nets.len() implies (
    #[trigger] scene.power_nets[i]) < n && c.roots.contains(
        scene.root_of[scene.power_nets[i] as int],
    ) by {
        let s = c.power_senses[i] as int;
        assert(sense_in(layout.index, shape.power_senses, cid)(s));
        assert(shape.power_senses[s] < n);
        root_is_member(layout, count, cid, shape.power_senses[s]);
    }
    if c.elements.len() > 0 {
        let e = c.elements[0] as int;
        assert(member_element(shape, layout, cid)(e));
        assert(crate::topology::element_valid(shape.elements[e], n));
        let home = crate::board::home_root(
            shape.elements[e],
            layout.root_of,
            layout.terminals,
        )->0;
        assert(home < n) by {
            assert(layout.root_of[shape.elements[e].a as int] < n);
            assert(layout.root_of[shape.elements[e].b as int] < n);
            if let Some(net) = shape.elements[e].control {
                assert(layout.root_of[net as int] < n);
            }
        }
        assert(member_net(layout, cid)(home as int));
        assert(c.nets.contains(home));
    }
    if c.terminal is Some {
        let p = choose|p: int|
            0 <= p < layout.terminals.len() && c.roots.contains(#[trigger] layout.terminals[p]);
        assert(c.terminal == Some(p as usize));
        assert(c.roots.len() > 0);
    }
}

/// A cluster's sources, terminals and elements, gathered for its pass.
pub struct Prepared {
    /// Whether a periodic drive sits in the cluster.
    pub periodic: bool,
    /// The slot sources of the first phase.
    pub hi: Vec<SlotSource>,
    /// The slot sources of the low phase; empty without a periodic drive.
    pub lo: Vec<SlotSource>,
    /// The injections.
    pub injections: Vec<SlotInjection>,
    /// The terminals that source the cluster.
    pub held: Vec<HeldTerminal>,
    /// The boundary terminals holding a voltage.
    pub boundary_nodes: Vec<NetId>,
    /// The constants of the solve.
    pub constants: Vec<ClusterTerminal>,
    /// The columns of the unmodelled rails.
    pub unmodelled: Vec<usize>,
    /// The voltage the own terminal's sources fought to.
    pub own_fight: Option<Volts>,
    /// The elements.
    pub elements: Vec<ClusterElement>,
    /// The cluster solves whatever its ranking says.
    pub eager: bool,
    /// The operating point is published.
    pub on_request: bool,
    /// Anything sources the cluster.
    pub sourced: bool,
}

impl Prepared {
    /// The gathered lists are the scene's.
    pub open spec fn stages(&self, scene: Scene) -> bool {
        let boundary = scene.boundary_held(scene.topo.boundary.len());
        &&& self.periodic == scene.periodic()
        &&& self.hi@ == scene.phase_sources(scene.first_phase())
        &&& self.lo@ == (if scene.periodic() {
            scene.phase_sources(Some(Phase::Low))
        } else {
            Seq::empty()
        })
        &&& self.injections@ == scene.all_injections()
        &&& self.held@ == scene.held()
        &&& self.boundary_nodes@ == Seq::new(boundary.len(), |i: int| NetId(boundary[i].root))
        &&& self.constants@ == scene.constants()
        &&& self.unmodelled@ == scene.unmodelled_columns()
        &&& self.own_fight == scene.own_fight()
        &&& self.elements@ == scene.elements
        &&& self.eager == scene.eager()
        &&& self.on_request == scene.on_request()
        &&& self.sourced == scene.sourced()
    }
}

/// The position of a root among a cluster's.
fn root_position(roots: &Vec<usize>, root: usize) -> (pr: usize)
    requires
        ascending(roots@),
        roots@.contains(root),
    ensures
        pr < roots@.len(),
        roots@[pr as int] == root,
        pr == position_in(roots@, root),
{
    match position_of(roots, root) {
        Some(pr) => {
            proof {
                let other = position_in(roots@, root);
                assert(roots@[other] == root);
                if other < pr {
                    assert(roots@[other] < roots@[pr as int]);
                } else if pr < other {
                    assert(roots@[pr as int] < roots@[other]);
                }
            }
            pr
        },
        None => 0,
    }
}

impl<'a> ClusterReads<'a> {
    /// The cluster.
    fn cluster(&self) -> (c: &ClusterTopo)
        requires
            self.valid(),
        ensures
            c@ == self.scene().topo,
            scene_sound(self.scene()),
            cluster_indexes(c@, *self.board),
    {
        let c = &self.topology.clusters[self.cid];
        proof {
            let topology = self.topology@;
            assert(topology.clusters[self.cid as int] == c@);
            assert(self.topology.root_of.len() <= usize::MAX);
            assert(self.topology.terminal_roots.len() <= usize::MAX);
            assert(self.board.slots.len() <= usize::MAX);
            assert(self.board.elements.len() <= usize::MAX);
            assert(self.board.digital_senses.len() <= usize::MAX);
            assert(self.board.analog_senses.len() <= usize::MAX);
            assert(self.board.power_senses.len() <= usize::MAX);
            assert(c.boundary.len() <= usize::MAX);
            if c.roots.len() > 0 {
                let shape = self.board.shape();
                let layout = layout_of(shape, topology.root_of);
                described_cluster(topology, *self.board, self.cid as int);
                assert(c@.dist.len() == c@.roots.len());
                assert(c@.dist[0].len() == c@.roots.len() + c@.boundary.len());
                assert(c.dist@[0]@ == c@.dist[0]);
                assert(c.dist@[0].len() <= usize::MAX);
            }
            scene_is_sound(
                *self.board,
                topology,
                self.states@,
                arrivals_view(self.arrivals@),
                self.cid as int,
            );
        }
        c
    }

    /// Whether a periodic drive sits in the cluster.
    fn is_periodic(&self) -> (r: bool)
        requires
            self.valid(),
        ensures
            r == self.scene().periodic(),
    {
        let c = self.cluster();
        let ghost scene = self.scene();
        let mut k: usize = 0;
        while k < c.slots.len()
            invariant
                k <= c.slots@.len(),
                c@ == scene.topo,
                scene == self.scene(),
                cluster_indexes(c@, *self.board),
                forall|j: int| 0 <= j < k ==> !is_periodic(#[trigger] scene.drives[j]),
            decreases c.slots@.len() - k,
        {
            let si: usize = c.slots[k];
            assert(scene.drives[k as int] == self.board.slots@[si as int].drive);
            if holds_periodic(&self.board.slots[si].drive) {
                assert(is_periodic(scene.drives[k as int]));
                return true;
            }
            k += 1;
        }
        false
    }

    /// The slot sources in a phase.
    fn collect_sources(&self, phase: Option<Phase>) -> (r: Vec<SlotSource>)
        requires
            self.valid(),
        ensures
            r@ == self.scene().phase_sources(phase),
    {
        let c = self.cluster();
        let ghost scene = self.scene();
        let mut r: Vec<SlotSource> = Vec::new();
        let mut k: usize = 0;
        while k < c.slots.len()
            invariant
                k <= c.slots@.len(),
                self.valid(),
                c@ == scene.topo,
                scene == self.scene(),
                cluster_indexes(c@, *self.board),
                r@ == scene.sources(phase, k as nat),
            decreases c.slots@.len() - k,
        {
            let si: usize = c.slots[k];
            let slot = &self.board.slots[si];
            assert(scene.drives[k as int] == slot.drive);
            assert(scene.slot_roots[k as int] == self.topology.root_of@[slot.net as int]);
            assert(self.board.shape().slot_nets[si as int] < self.topology.root_of@.len());
            let root: usize = self.topology.root_of[slot.net];
            if let Some(port) = phase_port(slot.drive, phase) {
                let segment = match slot.drive {
                    Some(Drive::Periodic { segment, .. }) => Some(segment),
                    _ => None,
                };
                r.push(SlotSource { slot: si, root, port, segment });
            }
            k += 1;
        }
        r
    }

    /// The injections.
    fn collect_injections(&self) -> (r: Vec<SlotInjection>)
        requires
            self.valid(),
        ensures
            r@ == self.scene().all_injections(),
    {
        let c = self.cluster();
        let ghost scene = self.scene();
        let mut r: Vec<SlotInjection> = Vec::new();
        let mut k: usize = 0;
        while k < c.slots.len()
            invariant
                k <= c.slots@.len(),
                self.valid(),
                c@ == scene.topo,
                scene == self.scene(),
                cluster_indexes(c@, *self.board),
                r@ == scene.injections(k as nat),
            decreases c.slots@.len() - k,
        {
            let si: usize = c.slots[k];
            let slot = &self.board.slots[si];
            assert(scene.drives[k as int] == slot.drive);
            assert(scene.slot_roots[k as int] == self.topology.root_of@[slot.net as int]);
            assert(self.board.shape().slot_nets[si as int] < self.topology.root_of@.len());
            let root: usize = self.topology.root_of[slot.net];
            if let Some(Drive::Current { amps }) = slot.drive {
                r.push(SlotInjection { slot: si, root, amps });
            }
            k += 1;
        }
        r
    }

    /// The elements, their nets as roots.
    fn collect_elements(&self) -> (r: Vec<ClusterElement>)
        requires
            self.valid(),
        ensures
            r@ == self.scene().elements,
    {
        let c = self.cluster();
        let ghost scene = self.scene();
        let ghost shape = self.board.shape();
        let mut r: Vec<ClusterElement> = Vec::new();
        let mut k: usize = 0;
        while k < c.elements.len()
            invariant
                k <= c.elements@.len(),
                self.valid(),
                c@ == scene.topo,
                scene == self.scene(),
                shape == self.board.shape(),
                cluster_indexes(c@, *self.board),
                r@ =~= scene.elements.take(k as int),
            decreases c.elements@.len() - k,
        {
            let ei: usize = c.elements[k];
            assert(crate::topology::element_valid(
                shape.elements[ei as int],
                self.topology.root_of@.len(),
            ));
            let element = &self.board.elements[ei];
            assert(shape.elements[ei as int] == element.touches());
            let control = match element.control {
                Some((net, test)) => Some((NetId(self.topology.root_of[net]), test)),
                None => None,
            };
            let entry = ClusterElement {
                a: NetId(self.topology.root_of[element.a]),
                b: NetId(self.topology.root_of[element.b]),
                curve: element.curve,
                control,
            };
            assert(entry == scene.elements[k as int]);
            r.push(entry);
            k += 1;
        }
        r
    }

    /// Gather the cluster's sources, terminals and elements.
    fn prepare(&self) -> (r: Prepared)
        requires
            self.valid(),
        ensures
            r.stages(self.scene()),
    {
        let c = self.cluster();
        let ghost scene = self.scene();
        let periodic = self.is_periodic();
        let first = if periodic {
            Some(Phase::High)
        } else {
            None
        };
        let hi = self.collect_sources(first);
        let lo = if periodic {
            self.collect_sources(Some(Phase::Low))
        } else {
            Vec::new()
        };
        let injections = self.collect_injections();
        let elements = self.collect_elements();
        let columns: usize = c.roots.len();
        let mut held: Vec<HeldTerminal> = Vec::new();
        let mut unmodelled: Vec<usize> = Vec::new();
        let mut own_fight: Option<Volts> = None;
        if let Some(p) = c.terminal {
            assert(p < self.topology.terminal_roots@.len());
            let state = self.states[p];
            assert(scene.own == Some(state));
            match state.drive {
                TerminalDrive::Volts(volts) => {
                    held.push(
                        HeldTerminal { root: self.topology.terminal_roots[p], volts, column: 0 },
                    );
                    if state.fought {
                        own_fight = Some(volts);
                    }
                },
                TerminalDrive::Unmodelled => {
                    unmodelled.push(0);
                },
                TerminalDrive::Released => {},
            }
        }
        assert(held@ =~= scene.own_held());
        assert(unmodelled@ =~= scene.unmodelled(0));
        assert(own_fight == scene.own_fight());
        let mut boundary_nodes: Vec<NetId> = Vec::new();
        let mut j: usize = 0;
        while j < c.boundary.len()
            invariant
                j <= c.boundary@.len(),
                self.valid(),
                c@ == scene.topo,
                scene == self.scene(),
                scene_sound(scene),
                columns == c.roots@.len(),
                held@ =~= scene.own_held() + scene.boundary_held(j as nat),
                unmodelled@ == scene.unmodelled(j as nat),
                ({
                    let boundary = scene.boundary_held(j as nat);
                    boundary_nodes@ =~= Seq::new(boundary.len(), |i: int| NetId(boundary[i].root))
                }),
            decreases c.boundary@.len() - j,
        {
            let p: usize = c.boundary[j];
            assert(c@.boundary[j as int] < scene.terminal_roots.len());
            let state = self.states[p];
            assert(scene.boundary[j as int] == state);
            match state.drive {
                TerminalDrive::Volts(volts) => {
                    let root: usize = self.topology.terminal_roots[p];
                    held.push(HeldTerminal { root, volts, column: columns + j });
                    boundary_nodes.push(NetId(root));
                },
                TerminalDrive::Unmodelled => {
                    unmodelled.push(columns + j);
                },
                TerminalDrive::Released => {},
            }
            j += 1;
        }
        let mut constants: Vec<ClusterTerminal> = Vec::new();
        let mut h: usize = 0;
        while h < held.len()
            invariant
                h <= held@.len(),
                constants@ =~= Seq::new(
                    h as nat,
                    |i: int| ClusterTerminal { node: NetId(held@[i].root), volts: held@[i].volts },
                ),
            decreases held@.len() - h,
        {
            constants.push(ClusterTerminal { node: NetId(held[h].root), volts: held[h].volts });
            h += 1;
        }
        let ghost sourced_constants = constants@;
        let mut q: usize = 0;
        while q < c.boundary_controls.len()
            invariant
                q <= c.boundary_controls@.len(),
                self.valid(),
                c@ == scene.topo,
                scene == self.scene(),
                scene_sound(scene),
                constants@ =~= sourced_constants + scene.control_constants(q as nat),
            decreases c.boundary_controls@.len() - q,
        {
            let p: usize = c.boundary_controls[q];
            assert(c@.boundary_controls[q as int] < scene.terminal_roots.len());
            let state = self.states[p];
            assert(scene.controls[q as int] == state);
            if let TerminalDrive::Volts(volts) = state.drive {
                constants.push(
                    ClusterTerminal { node: NetId(self.topology.terminal_roots[p]), volts },
                );
            }
            q += 1;
        }
        assert(constants@ =~= scene.constants());
        let mut injected = false;
        let mut m: usize = 0;
        while m < injections.len()
            invariant
                m <= injections@.len(),
                injections@ == scene.all_injections(),
                injected <==> exists|i: int|
                    0 <= i < m && (#[trigger] scene.all_injections()[i]).amps
                        != Quantity::Finite(0),
            decreases injections@.len() - m,
        {
            if injections[m].amps != Quantity::Finite(0) {
                assert(scene.all_injections()[m as int].amps != Quantity::Finite(0));
                injected = true;
            }
            m += 1;
        }
        let any_source = hi.len() > 0 || lo.len() > 0;
        let numeric = any_source || held.len() > 0;
        let eager = numeric && (injected || c.current_instruments.len() > 0 || c.elements.len()
            > 0);
        let on_request = eager || (numeric && c.analog_senses.len() > 0);
        let sourced = numeric || unmodelled.len() > 0;
        Prepared {
            periodic,
            hi,
            lo,
            injections,
            held,
            boundary_nodes,
            constants,
            unmodelled,
            own_fight,
            elements,
            eager,
            on_request,
            sourced,
        }
    }
}

/// What one phase decided: every root's outcome, the sources that reached it,
/// and the solve, where one ran.
pub struct PhaseRun {
    /// Every root's outcome.
    pub outcomes: Vec<RootOutcome>,
    /// The sources that reached every root.
    pub reaching: Vec<Vec<ReachingSource>>,
    /// The solve.
    pub solution: Option<ClusterSolution>,
}

impl PhaseRun {
    /// The run is the scene's phase.
    pub open spec fn plays<S: ClusterSolver>(
        &self,
        scene: Scene,
        solver: &S,
        phase: Option<Phase>,
    ) -> bool {
        &&& self.outcomes@.len() == scene.topo.roots.len()
        &&& self.reaching@.len() == scene.topo.roots.len()
        &&& forall|pr: int|
            0 <= pr < self.outcomes@.len() ==> (#[trigger] self.outcomes@[pr])@ == scene.outcome(
                solver,
                phase,
                pr,
            )
        &&& forall|pr: int|
            0 <= pr < self.reaching@.len() ==> (#[trigger] self.reaching@[pr])@ == scene.reaching(
                phase,
                pr,
            )
        &&& self.solution is Some <==> scene.solves(phase)
        &&& self.solution matches Some(s) ==> s@ == scene.solution(solver, phase)
    }
}

impl<'a> ClusterReads<'a> {
    /// Escalate the cluster to the solver, with one phase's sources.
    fn solve_cluster<S: ClusterSolver>(
        &self,
        prepared: &Prepared,
        sources: &Vec<SlotSource>,
        Ghost(phase): Ghost<Option<Phase>>,
        solver: &S,
    ) -> (solution: ClusterSolution)
        requires
            self.valid(),
            prepared.stages(self.scene()),
            sources@ == self.scene().phase_sources(phase),
        ensures
            solution@ == self.scene().solution(solver, phase),
    {
        let c = self.cluster();
        let ghost scene = self.scene();
        let mut nodes: Vec<NetId> = Vec::new();
        let mut i: usize = 0;
        while i < c.roots.len()
            invariant
                i <= c.roots@.len(),
                nodes@ =~= Seq::new(i as nat, |x: int| NetId(c.roots@[x])),
            decreases c.roots@.len() - i,
        {
            nodes.push(NetId(c.roots[i]));
            i += 1;
        }
        let ghost members = nodes@;
        let mut b: usize = 0;
        while b < prepared.boundary_nodes.len()
            invariant
                b <= prepared.boundary_nodes@.len(),
                nodes@ =~= members + prepared.boundary_nodes@.take(b as int),
            decreases prepared.boundary_nodes@.len() - b,
        {
            nodes.push(prepared.boundary_nodes[b]);
            b += 1;
        }
        let mut resistors: Vec<ClusterResistor> = Vec::new();
        let mut e: usize = 0;
        while e < c.edges.len()
            invariant
                e <= c.edges@.len(),
                resistors@ =~= Seq::new(
                    e as nat,
                    |x: int|
                        ClusterResistor {
                            a: NetId(c.edges@[x].a),
                            b: NetId(c.edges@[x].b),
                            ohms: c.edges@[x].ohms,
                        },
                ),
            decreases c.edges@.len() - e,
        {
            let edge = c.edges[e];
            resistors.push(
                ClusterResistor { a: NetId(edge.a), b: NetId(edge.b), ohms: edge.ohms },
            );
            e += 1;
        }
        let cluster = Cluster { nodes, resistors };
        assert(cluster@ =~= scene.solver_cluster());
        let mut source_cards: Vec<ClusterSource> = Vec::new();
        let mut s: usize = 0;
        while s < sources.len()
            invariant
                s <= sources@.len(),
                source_cards@ =~= Seq::new(
                    s as nat,
                    |x: int|
                        ClusterSource {
                            node: NetId(sources@[x].root),
                            volts: sources@[x].port.volts,
                            impedance: sources@[x].port.impedance,
                        },
                ),
            decreases sources@.len() - s,
        {
            let source = sources[s];
            source_cards.push(
                ClusterSource {
                    node: NetId(source.root),
                    volts: source.port.volts,
                    impedance: source.port.impedance,
                },
            );
            s += 1;
        }
        let mut injection_cards: Vec<ClusterInjection> = Vec::new();
        let mut m: usize = 0;
        while m < prepared.injections.len()
            invariant
                m <= prepared.injections@.len(),
                injection_cards@ =~= Seq::new(
                    m as nat,
                    |x: int|
                        ClusterInjection {
                            node: NetId(prepared.injections@[x].root),
                            amps: prepared.injections@[x].amps,
                        },
                ),
            decreases prepared.injections@.len() - m,
        {
            let injection = prepared.injections[m];
            injection_cards.push(
                ClusterInjection { node: NetId(injection.root), amps: injection.amps },
            );
            m += 1;
        }
        let mut terminals: Vec<ClusterTerminal> = Vec::new();
        let mut t: usize = 0;
        while t < prepared.constants.len()
            invariant
                t <= prepared.constants@.len(),
                terminals@ =~= prepared.constants@.take(t as int),
            decreases prepared.constants@.len() - t,
        {
            terminals.push(prepared.constants[t]);
            t += 1;
        }
        let mut elements: Vec<ClusterElement> = Vec::new();
        let mut q: usize = 0;
        while q < prepared.elements.len()
            invariant
                q <= prepared.elements@.len(),
                elements@ =~= prepared.elements@.take(q as int),
            decreases prepared.elements@.len() - q,
        {
            elements.push(prepared.elements[q]);
            q += 1;
        }
        let inputs = ClusterInputs {
            sources: source_cards,
            injections: injection_cards,
            terminals,
            elements,
        };
        assert(inputs@ =~= scene.solver_inputs(phase));
        solver.solve(&cluster, &inputs)
    }

    /// The path resistance from the root at `pr` to a column.
    fn path(&self, pr: usize, column: usize) -> (r: Ohms)
        requires
            self.valid(),
            pr < self.scene().topo.roots.len(),
            column < self.scene().topo.roots.len() + self.scene().topo.boundary.len(),
        ensures
            r == self.scene().path(pr as int, column as int),
    {
        let c = self.cluster();
        assert(c@.dist[pr as int].len() == c@.roots.len() + c@.boundary.len());
        assert(c.dist@[pr as int]@ == c@.dist[pr as int]);
        c.dist[pr][column]
    }

    /// Every source that reaches the root at `pr`.
    fn gather(
        &self,
        prepared: &Prepared,
        sources: &Vec<SlotSource>,
        Ghost(phase): Ghost<Option<Phase>>,
        pr: usize,
    ) -> (r: Vec<ReachingSource>)
        requires
            self.valid(),
            prepared.stages(self.scene()),
            sources@ == self.scene().phase_sources(phase),
            pr < self.scene().topo.roots.len(),
        ensures
            r@ == self.scene().reaching(phase, pr as int),
    {
        let c = self.cluster();
        let ghost scene = self.scene();
        let mut r: Vec<ReachingSource> = Vec::new();
        let mut k: usize = 0;
        proof {
            sources_on_roots(scene, phase, scene.drives.len());
            held_columns(scene);
        }
        while k < sources.len()
            invariant
                k <= sources@.len(),
                self.valid(),
                c@ == scene.topo,
                scene == self.scene(),
                scene_sound(scene),
                pr < scene.topo.roots.len(),
                sources@ == scene.phase_sources(phase),
                forall|i: int|
                    0 <= i < sources@.len() ==> scene.topo.roots.contains(
                        (#[trigger] sources@[i]).root,
                    ),
                r@ == scene.reaching_slots(phase, pr as int, k as nat),
            decreases sources@.len() - k,
        {
            let source = sources[k];
            assert(sources@[k as int] == source);
            let column: usize = root_position(&c.roots, source.root);
            let path = self.path(pr, column);
            if path.is_finite() {
                r.push(
                    ReachingSource {
                        slot: Some(source.slot),
                        volts: source.port.volts,
                        impedance: source.port.impedance,
                        path,
                        segment: source.segment,
                    },
                );
            }
            k += 1;
        }
        let ghost slots = r@;
        let mut t: usize = 0;
        while t < prepared.held.len()
            invariant
                t <= prepared.held@.len(),
                self.valid(),
                scene == self.scene(),
                pr < scene.topo.roots.len(),
                prepared.held@ == scene.held(),
                forall|i: int|
                    0 <= i < scene.held().len() ==> (#[trigger] scene.held()[i]).column
                        < scene.topo.roots.len() + scene.topo.boundary.len(),
                r@ =~= slots + scene.reaching_terminals(pr as int, t as nat),
            decreases prepared.held@.len() - t,
        {
            let terminal = prepared.held[t];
            assert(scene.held()[t as int] == terminal);
            let path = self.path(pr, terminal.column);
            if path.is_finite() {
                r.push(
                    ReachingSource {
                        slot: None,
                        volts: terminal.volts,
                        impedance: Quantity::Finite(0),
                        path,
                        segment: None,
                    },
                );
            }
            t += 1;
        }
        r
    }

    /// What a root nothing numeric reaches presents.
    fn unmodelled_or_floating(&self, prepared: &Prepared, pr: usize) -> (r: NetState)
        requires
            self.valid(),
            prepared.stages(self.scene()),
            pr < self.scene().topo.roots.len(),
        ensures
            r == self.scene().unmodelled_or_floating(pr as int),
    {
        let c = self.cluster();
        let ghost scene = self.scene();
        let mut nearest = Quantity::Infinite;
        let mut k: usize = 0;
        proof {
            unmodelled_in_range(scene, scene.topo.boundary.len());
        }
        while k < prepared.unmodelled.len()
            invariant
                k <= prepared.unmodelled@.len(),
                self.valid(),
                scene == self.scene(),
                pr < scene.topo.roots.len(),
                prepared.unmodelled@ == scene.unmodelled_columns(),
                forall|i: int|
                    0 <= i < prepared.unmodelled@.len() ==> (#[trigger] prepared.unmodelled@[i])
                        < scene.topo.roots.len() + scene.topo.boundary.len(),
                nearest == scene.nearest_unmodelled(pr as int, k as nat),
            decreases prepared.unmodelled@.len() - k,
        {
            let path = self.path(pr, prepared.unmodelled[k]);
            if path.is_finite() && path.lt(nearest) {
                nearest = path;
            }
            k += 1;
        }
        if nearest.is_finite() {
            NetState::Pulled(Level::High, nearest)
        } else {
            NetState::Floating
        }
    }

    /// What a phase decides for the root at `pr`. `solution` is there
    /// wherever the root or the cluster asks for it.
    fn decide<S: ClusterSolver>(
        &self,
        prepared: &Prepared,
        reaching: &Vec<ReachingSource>,
        Ghost(phase): Ghost<Option<Phase>>,
        pr: usize,
        solution: &Option<ClusterSolution>,
        Ghost(solver): Ghost<&S>,
    ) -> (r: RootOutcome)
        requires
            self.valid(),
            prepared.stages(self.scene()),
            pr < self.scene().topo.roots.len(),
            reaching@ == self.scene().reaching(phase, pr as int),
            solution matches Some(s) ==> s@ == self.scene().solution(solver, phase),
            self.scene().eager() || self.scene().root_solves(phase, pr as int) ==> solution is Some,
        ensures
            r@ == self.scene().outcome(solver, phase, pr as int),
    {
        let c = self.cluster();
        let ghost scene = self.scene();
        let node = NetId(c.roots[pr]);
        let solved: Option<Volts> = match solution {
            Some(s) => s.volts_of(node),
            None => None,
        };
        let mut ranked: RootOutcome = if c.elements.len() > 0 && prepared.eager {
            let converged = match solution {
                Some(s) => s.converged,
                None => true,
            };
            let state = match solved {
                Some(v) => NetState::Analog(v),
                None => if !converged {
                    NetState::Floating
                } else {
                    self.unmodelled_or_floating(prepared, pr)
                },
            };
            let beside = if reaching.len() == 0 {
                RootOutcome::quiet(state)
            } else {
                project_root(reaching, solved)
            };
            RootOutcome {
                state,
                volts: volts_named(state),
                fight: beside.fight,
                ambiguous: beside.ambiguous,
                solved: beside.solved,
            }
        } else if reaching.len() == 0 {
            RootOutcome::quiet(self.unmodelled_or_floating(prepared, pr))
        } else if reaching.len() == 1 && !prepared.eager && prepared.on_request {
            RootOutcome {
                state: NetState::Analog(reaching[0].volts),
                volts: Some(reaching[0].volts),
                fight: None,
                ambiguous: None,
                solved: false,
            }
        } else if prepared.on_request {
            let listed = match solution {
                Some(s) => s.state_of(node),
                None => None,
            };
            let state = match listed {
                Some(state) => state,
                None => NetState::Floating,
            };
            let beside = project_root(reaching, solved);
            RootOutcome {
                state,
                volts: volts_named(state),
                fight: beside.fight,
                ambiguous: beside.ambiguous,
                solved: beside.solved,
            }
        } else {
            project_root(reaching, solved)
        };
        assert(ranked@ =~= scene.ranked(solver, phase, pr as int));
        if let Some(volts) = prepared.own_fight {
            let in_band = ambiguous_volts(volts);
            let fight = match ranked.fight {
                Some(slots) => slots,
                None => Vec::new(),
            };
            let state = if prepared.on_request {
                ranked.state
            } else if in_band {
                NetState::Contention
            } else {
                NetState::Analog(volts)
            };
            let ambiguous = if in_band {
                Some(volts)
            } else {
                None
            };
            ranked = RootOutcome {
                state,
                volts: Some(volts),
                fight: Some(fight),
                ambiguous,
                solved: false,
            };
        }
        ranked
    }

    /// Resolve every root of the cluster in one phase; the solve is built at
    /// most once, on demand.
    fn run_phase<S: ClusterSolver>(
        &self,
        prepared: &Prepared,
        sources: &Vec<SlotSource>,
        Ghost(phase): Ghost<Option<Phase>>,
        solver: &S,
    ) -> (run: PhaseRun)
        requires
            self.valid(),
            prepared.stages(self.scene()),
            sources@ == self.scene().phase_sources(phase),
        ensures
            run.plays(self.scene(), solver, phase),
    {
        let c = self.cluster();
        let ghost scene = self.scene();
        let mut outcomes: Vec<RootOutcome> = Vec::new();
        let mut reached: Vec<Vec<ReachingSource>> = Vec::new();
        let mut solution: Option<ClusterSolution> = None;
        if prepared.eager {
            solution = Some(self.solve_cluster(prepared, sources, Ghost(phase), solver));
        }
        let mut pr: usize = 0;
        while pr < c.roots.len()
            invariant
                pr <= c.roots@.len(),
                self.valid(),
                c@ == scene.topo,
                scene == self.scene(),
                prepared.stages(scene),
                sources@ == scene.phase_sources(phase),
                outcomes@.len() == pr,
                reached@.len() == pr,
                forall|i: int|
                    0 <= i < pr ==> (#[trigger] outcomes@[i])@ == scene.outcome(solver, phase, i),
                forall|i: int|
                    0 <= i < pr ==> (#[trigger] reached@[i])@ == scene.reaching(phase, i),
                solution is Some <==> (scene.eager() || exists|i: int|
                    0 <= i < pr && #[trigger] scene.root_solves(phase, i)),
                solution matches Some(s) ==> s@ == scene.solution(solver, phase),
            decreases c.roots@.len() - pr,
        {
            let reaching = self.gather(prepared, sources, Ghost(phase), pr);
            let needs = if prepared.on_request {
                reaching.len() >= 2
            } else {
                needs_solve(&reaching)
            };
            assert(needs == scene.root_solves(phase, pr as int));
            if needs && solution.is_none() {
                solution = Some(self.solve_cluster(prepared, sources, Ghost(phase), solver));
            }
            let outcome = self.decide::<S>(
                prepared,
                &reaching,
                Ghost(phase),
                pr,
                &solution,
                Ghost(solver),
            );
            outcomes.push(outcome);
            reached.push(reaching);
            pr += 1;
        }
        PhaseRun { outcomes, reaching: reached, solution }
    }
}

proof fn sources_on_roots(scene: Scene, phase: Option<Phase>, k: nat)
    requires
        scene_sound(scene),
        k <= scene.drives.len(),
    ensures
        forall|i: int|
            0 <= i < scene.sources(phase, k).len() ==> scene.topo.roots.contains(
                (#[trigger] scene.sources(phase, k)[i]).root,
            ),
    decreases k,
{
    if k > 0 {
        sources_on_roots(scene, phase, (k - 1) as nat);
        assert(scene.topo.roots.contains(scene.slot_roots[k - 1]));
    }
}

proof fn boundary_columns(scene: Scene, j: nat)
    requires
        scene_sound(scene),
        j <= scene.topo.boundary.len(),
    ensures
        forall|i: int|
            0 <= i < scene.boundary_held(j).len() ==> (#[trigger] scene.boundary_held(j)[i]).column
                < scene.topo.roots.len() + scene.topo.boundary.len(),
    decreases j,
{
    if j > 0 {
        boundary_columns(scene, (j - 1) as nat);
    }
}

proof fn held_columns(scene: Scene)
    requires
        scene_sound(scene),
    ensures
        forall|i: int|
            0 <= i < scene.held().len() ==> (#[trigger] scene.held()[i]).column
                < scene.topo.roots.len() + scene.topo.boundary.len(),
{
    boundary_columns(scene, scene.topo.boundary.len());
    let boundary = scene.boundary_held(scene.topo.boundary.len());
    assert forall|i: int| 0 <= i < scene.held().len() implies (#[trigger] scene.held()[i]).column
        < scene.topo.roots.len() + scene.topo.boundary.len() by {
        if i >= scene.own_held().len() {
            assert(scene.held()[i] == boundary[i - scene.own_held().len()]);
        }
    }
}

proof fn unmodelled_in_range(scene: Scene, j: nat)
    requires
        scene_sound(scene),
        j <= scene.topo.boundary.len(),
    ensures
        forall|i: int|
            0 <= i < scene.unmodelled(j).len() ==> (#[trigger] scene.unmodelled(j)[i])
                < scene.topo.roots.len() + scene.topo.boundary.len(),
    decreases j,
{
    if j > 0 {
        unmodelled_in_range(scene, (j - 1) as nat);
        let rest = scene.unmodelled((j - 1) as nat);
        assert forall|i: int| 0 <= i < scene.unmodelled(j).len() implies (
        #[trigger] scene.unmodelled(j)[i]) < scene.topo.roots.len() + scene.topo.boundary.len() by {
            if i < rest.len() {
                assert(scene.unmodelled(j)[i] == rest[i]);
            }
        }
    } else if scene.own is Some {
        assert(scene.topo.terminal is Some);
        assert(scene.topo.roots.len() > 0);
    }
}

/// The findings of a pass, each list keyed by what orders it.
pub struct PassFindings {
    /// Fights and ambiguous levels, by first net.
    pub contention: Vec<(usize, Finding)>,
    /// Floating digital senses, by registration.
    pub floating_digital: Vec<(usize, Finding)>,
    /// Floating analog senses, by registration.
    pub floating_analog: Vec<(usize, Finding)>,
    /// Unsourced power senses, by registration.
    pub power: Vec<(usize, Finding)>,
    /// Stranded injections, by endpoint.
    pub injection: Vec<(usize, Finding)>,
    /// Clusters without an operating point, by first net.
    pub nonconvergent: Vec<(usize, Finding)>,
    /// Rates a capacitor refused, by far root.
    pub coupling: Vec<(usize, Finding)>,
}

impl View for PassFindings {
    type V = ClusterFindings;

    open spec fn view(&self) -> ClusterFindings {
        ClusterFindings {
            contention: keyed_view(self.contention@),
            floating_digital: keyed_view(self.floating_digital@),
            floating_analog: keyed_view(self.floating_analog@),
            power: keyed_view(self.power@),
            injection: keyed_view(self.injection@),
            nonconvergent: keyed_view(self.nonconvergent@),
            coupling: keyed_view(self.coupling@),
        }
    }
}

/// What one cluster's pass produces.
pub struct ClusterPass {
    /// What every root publishes.
    pub results: Vec<RootResult>,
    /// What the pass found.
    pub findings: PassFindings,
    /// The current into every slot of the cluster.
    pub slot_currents: Vec<Option<Amps>>,
    /// The current through every element of the cluster.
    pub element_currents: Vec<Option<Amps>>,
    /// How many solves ran.
    pub solves: u64,
}

/// What every root of a scene publishes.
pub open spec fn results_published<S: ClusterSolver>(
    results: Seq<RootResult>,
    scene: Scene,
    solver: &S,
) -> bool {
    &&& results.len() == scene.topo.roots.len()
    &&& forall|pr: int|
        0 <= pr < results.len() ==> (#[trigger] results[pr])@ == scene.published(solver, pr)
}

impl ClusterPass {
    /// The pass is the scene's.
    pub open spec fn concludes<S: ClusterSolver>(
        &self,
        scene: Scene,
        solver: &S,
        names: Names,
    ) -> bool {
        &&& results_published(self.results@, scene, solver)
        &&& self.findings@ == cluster_findings(solver, scene, names)
        &&& self.slot_currents@.len() == scene.drives.len()
        &&& forall|k: int|
            0 <= k < self.slot_currents@.len() ==> #[trigger] self.slot_currents@[k]
                == scene.slot_current(solver, k)
        &&& self.element_currents@.len() == scene.topo.elements.len()
        &&& forall|k: int|
            0 <= k < self.element_currents@.len() ==> #[trigger] self.element_currents@[k]
                == scene.element_current(solver, k)
        &&& self.solves == scene.solve_count()
    }
}

/// Append a keyed finding.
fn push_finding(list: &mut Vec<(usize, Finding)>, key: usize, finding: Finding)
    ensures
        keyed_view(final(list)@) == keyed_view(old(list)@).push((key, finding@)),
{
    let ghost view = finding@;
    list.push((key, finding));
    assert(keyed_view(list@) =~= keyed_view(old(list)@).push((key, view)));
}

impl<'a> ClusterReads<'a> {
    /// What a member net publishes.
    fn result_of<'b>(&self, results: &'b Vec<RootResult>, net: usize) -> (r: &'b RootResult)
        requires
            self.valid(),
            results@.len() == self.scene().topo.roots.len(),
            net < self.scene().root_of.len(),
            self.scene().topo.roots.contains(self.scene().root_of[net as int]),
        ensures
            *r == results@[position_in(
                self.scene().topo.roots,
                self.scene().root_of[net as int],
            )],
    {
        let c = self.cluster();
        let pr: usize = root_position(&c.roots, self.topology.root_of[net]);
        &results[pr]
    }

    /// Whether the net at position `k` of a list is the first on its root.
    fn is_first_on_root(&self, nets: &Vec<usize>, k: usize) -> (r: bool)
        requires
            k < nets@.len(),
            forall|i: int|
                0 <= i < nets@.len() ==> (#[trigger] nets@[i]) < self.topology.root_of@.len(),
        ensures
            r == self.scene().first_on_root(nets@, k as int),
    {
        let root: usize = self.topology.root_of[nets[k]];
        let mut j: usize = 0;
        while j < k
            invariant
                j <= k,
                k < nets@.len(),
                forall|i: int|
                    0 <= i < nets@.len() ==> (#[trigger] nets@[i]) < self.topology.root_of@.len(),
                root == self.topology.root_of@[nets@[k as int] as int],
                forall|i: int|
                    0 <= i < j ==> self.topology.root_of@[(#[trigger] nets@[i]) as int] != root,
            decreases k - j,
        {
            if self.topology.root_of[nets[j]] == root {
                assert(self.scene().root_of[nets@[j as int] as int] == root);
                return false;
            }
            j += 1;
        }
        true
    }

    /// The pins of a list of slots.
    fn pins_of(&self, slots: &Vec<usize>) -> (r: Vec<PinRef>)
        requires
            forall|i: int| 0 <= i < slots@.len() ==> (#[trigger] slots@[i]) < self.board.slots@.len(),
        ensures
            pins_view(r@) == Seq::new(
                slots@.len(),
                |i: int| self.board.slots@[slots@[i] as int].pin@,
            ),
    {
        let mut r: Vec<PinRef> = Vec::new();
        let mut i: usize = 0;
        while i < slots.len()
            invariant
                i <= slots@.len(),
                forall|j: int|
                    0 <= j < slots@.len() ==> (#[trigger] slots@[j]) < self.board.slots@.len(),
                r@.len() == i,
                forall|j: int|
                    0 <= j < i ==> (#[trigger] r@[j])@ == self.board.slots@[slots@[j] as int].pin@,
            decreases slots@.len() - i,
        {
            r.push(self.board.slots[slots[i]].pin.clone());
            i += 1;
        }
        assert(pins_view(r@) =~= Seq::new(
            slots@.len(),
            |i: int| self.board.slots@[slots@[i] as int].pin@,
        ));
        r
    }

    /// Report the fight on a net, and its ambiguous level behind it.
    fn report_fight(
        &self,
        list: &mut Vec<(usize, Finding)>,
        net: usize,
        result: &RootResult,
        nets: &Vec<Net>,
    )
        requires
            net < nets@.len(),
            fight_names_slots(result@, self.board.slots@.len()),
        ensures
            keyed_view(final(list)@) == keyed_view(old(list)@) + fight_findings(
                result@,
                names_of(*self.board, nets@),
                net,
            ),
    {
        let ghost names = names_of(*self.board, nets@);
        let ghost before = keyed_view(list@);
        if let Some(slots) = &result.fight {
            assert(result@.fight == Some(slots@));
            let drivers = self.pins_of(slots);
            assert(pins_view(drivers@) =~= Seq::new(
                slots@.len(),
                |i: int| names.pins[slots@[i] as int],
            ));
            let name = nets[net].name.clone();
            push_finding(list, net, Finding::Contention { net: name, drivers });
            if let Some(volts) = result.ambiguous {
                let again = nets[net].name.clone();
                push_finding(list, net, Finding::AmbiguousLevel { net: again, volts });
            }
        }
        assert(keyed_view(list@) =~= before + fight_findings(result@, names, net));
    }

    /// The fights on the cluster's nets.
    fn find_contention<S: ClusterSolver>(
        &self,
        results: &Vec<RootResult>,
        nets: &Vec<Net>,
        Ghost(solver): Ghost<&S>,
    ) -> (r: Vec<(usize, Finding)>)
        requires
            self.valid(),
            nets@.len() == self.topology.root_of@.len(),
            results_published(results@, self.scene(), solver),
            fights_name_slots(results@, self.board.slots@.len()),
        ensures
            keyed_view(r@) == self.scene().contentions(
                solver,
                names_of(*self.board, nets@),
                self.scene().topo.nets.len(),
            ),
    {
        let c = self.cluster();
        let ghost scene = self.scene();
        let ghost names = names_of(*self.board, nets@);
        let mut r: Vec<(usize, Finding)> = Vec::new();
        let mut k: usize = 0;
        assert(keyed_view(r@) =~= Seq::<(usize, FindingView)>::empty());
        while k < c.nets.len()
            invariant
                k <= c.nets@.len(),
                self.valid(),
                c@ == scene.topo,
                scene == self.scene(),
                scene_sound(scene),
                names == names_of(*self.board, nets@),
                nets@.len() == self.topology.root_of@.len(),
                results_published(results@, scene, solver),
                fights_name_slots(results@, self.board.slots@.len()),
                keyed_view(r@) == scene.contentions(solver, names, k as nat),
            decreases c.nets@.len() - k,
        {
            let net: usize = c.nets[k];
            assert(c@.nets[k as int] == net);
            let result = self.result_of(results, net);
            let ghost pr = position_in(scene.topo.roots, scene.root_of[net as int]);
            assert(0 <= pr < scene.topo.roots.len());
            assert(results@[pr]@ == scene.published(solver, pr));
            assert(result@ == scene.net_result(solver, net));
            if self.is_first_on_root(&c.nets, k) {
                assert(fight_names_slots(results@[pr]@, self.board.slots@.len()));
                self.report_fight(&mut r, net, result, nets);
            }
            k += 1;
        }
        r
    }

    /// The floating senses of a list.
    fn find_floating<S: ClusterSolver>(
        &self,
        results: &Vec<RootResult>,
        nets: &Vec<Net>,
        positions: &Vec<usize>,
        sensed: &Vec<usize>,
        kind: SenseKind,
        Ghost(solver): Ghost<&S>,
    ) -> (r: Vec<(usize, Finding)>)
        requires
            self.valid(),
            nets@.len() == self.topology.root_of@.len(),
            results_published(results@, self.scene(), solver),
            positions@.len() == sensed@.len(),
            forall|i: int|
                0 <= i < sensed@.len() ==> (#[trigger] sensed@[i]) < nets@.len()
                    && self.scene().topo.roots.contains(
                    self.scene().root_of[sensed@[i] as int],
                ),
        ensures
            keyed_view(r@) == self.scene().floating(
                solver,
                names_of(*self.board, nets@),
                positions@,
                sensed@,
                kind,
                sensed@.len(),
            ),
    {
        let ghost scene = self.scene();
        let ghost names = names_of(*self.board, nets@);
        let mut r: Vec<(usize, Finding)> = Vec::new();
        let mut k: usize = 0;
        assert(keyed_view(r@) =~= Seq::<(usize, FindingView)>::empty());
        while k < sensed.len()
            invariant
                k <= sensed@.len(),
                self.valid(),
                scene == self.scene(),
                names == names_of(*self.board, nets@),
                nets@.len() == self.topology.root_of@.len(),
                results_published(results@, scene, solver),
                positions@.len() == sensed@.len(),
                forall|i: int|
                    0 <= i < sensed@.len() ==> (#[trigger] sensed@[i]) < nets@.len()
                        && scene.topo.roots.contains(scene.root_of[sensed@[i] as int]),
                keyed_view(r@) == scene.floating(
                    solver,
                    names,
                    positions@,
                    sensed@,
                    kind,
                    k as nat,
                ),
            decreases sensed@.len() - k,
        {
            let net: usize = sensed[k];
            assert(sensed@[k as int] == net);
            let result = self.result_of(results, net);
            let ghost pr = position_in(scene.topo.roots, scene.root_of[net as int]);
            assert(0 <= pr < scene.topo.roots.len());
            assert(results@[pr]@ == scene.published(solver, pr));
            if result.state == NetState::Floating && self.is_first_on_root(sensed, k) {
                let name = nets[net].name.clone();
                push_finding(&mut r, positions[k], Finding::FloatingSense { net: name, kind });
            }
            k += 1;
        }
        r
    }

    /// The unsourced power senses.
    fn find_unsourced<S: ClusterSolver>(
        &self,
        prepared: &Prepared,
        results: &Vec<RootResult>,
        nets: &Vec<Net>,
        sensed: &Vec<usize>,
        diverged: bool,
        Ghost(solver): Ghost<&S>,
    ) -> (r: Vec<(usize, Finding)>)
        requires
            self.valid(),
            prepared.stages(self.scene()),
            nets@.len() == self.topology.root_of@.len(),
            results_published(results@, self.scene(), solver),
            sensed@ == self.scene().power_nets,
            diverged == (self.scene().divergent(solver) is Some),
        ensures
            keyed_view(r@) == self.scene().powerless(
                solver,
                names_of(*self.board, nets@),
                sensed@.len(),
            ),
    {
        let c = self.cluster();
        let ghost scene = self.scene();
        let ghost names = names_of(*self.board, nets@);
        let mut r: Vec<(usize, Finding)> = Vec::new();
        let mut k: usize = 0;
        assert(keyed_view(r@) =~= Seq::<(usize, FindingView)>::empty());
        while k < sensed.len()
            invariant
                k <= sensed@.len(),
                self.valid(),
                c@ == scene.topo,
                scene == self.scene(),
                scene_sound(scene),
                prepared.stages(scene),
                names == names_of(*self.board, nets@),
                nets@.len() == self.topology.root_of@.len(),
                results_published(results@, scene, solver),
                sensed@ == scene.power_nets,
                diverged == (scene.divergent(solver) is Some),
                keyed_view(r@) == scene.powerless(solver, names, k as nat),
            decreases sensed@.len() - k,
        {
            let net: usize = sensed[k];
            assert(scene.power_nets[k as int] == net);
            let result = self.result_of(results, net);
            let ghost pr = position_in(scene.topo.roots, scene.root_of[net as int]);
            assert(0 <= pr < scene.topo.roots.len());
            assert(results@[pr]@ == scene.published(solver, pr));
            let unsourced = !prepared.sourced || (c.elements.len() > 0 && !diverged && result.state
                == NetState::Floating);
            assert(unsourced == scene.unsourced(solver, net));
            if unsourced && self.is_first_on_root(sensed, k) {
                let name = nets[net].name.clone();
                push_finding(
                    &mut r,
                    c.power_senses[k],
                    Finding::PowerNetUnsourced { net: name },
                );
            }
            k += 1;
        }
        r
    }

    /// The currents that nothing returns.
    fn find_stranded(
        &self,
        prepared: &Prepared,
        hi: &Vec<Vec<ReachingSource>>,
        lo: &Vec<Vec<ReachingSource>>,
        nets: &Vec<Net>,
    ) -> (r: Vec<(usize, Finding)>)
        requires
            self.valid(),
            prepared.stages(self.scene()),
            nets@.len() == self.topology.root_of@.len(),
            hi@.len() == self.scene().topo.roots.len(),
            forall|pr: int|
                0 <= pr < hi@.len() ==> (#[trigger] hi@[pr])@ == self.scene().reaching(
                    self.scene().first_phase(),
                    pr,
                ),
            self.scene().periodic() ==> lo@.len() == self.scene().topo.roots.len(),
            self.scene().periodic() ==> forall|pr: int|
                0 <= pr < lo@.len() ==> (#[trigger] lo@[pr])@ == self.scene().reaching(
                    Some(Phase::Low),
                    pr,
                ),
        ensures
            keyed_view(r@) == self.scene().stranded(
                names_of(*self.board, nets@),
                self.scene().all_injections().len(),
            ),
    {
        let c = self.cluster();
        let ghost scene = self.scene();
        let ghost names = names_of(*self.board, nets@);
        let mut r: Vec<(usize, Finding)> = Vec::new();
        let mut k: usize = 0;
        proof {
            injections_on_roots(scene, *self.board, scene.drives.len());
        }
        assert(keyed_view(r@) =~= Seq::<(usize, FindingView)>::empty());
        while k < prepared.injections.len()
            invariant
                k <= prepared.injections@.len(),
                self.valid(),
                c@ == scene.topo,
                scene == self.scene(),
                scene_sound(scene),
                prepared.stages(scene),
                names == names_of(*self.board, nets@),
                nets@.len() == self.topology.root_of@.len(),
                hi@.len() == scene.topo.roots.len(),
                forall|pr: int|
                    0 <= pr < hi@.len() ==> (#[trigger] hi@[pr])@ == scene.reaching(
                        scene.first_phase(),
                        pr,
                    ),
                scene.periodic() ==> lo@.len() == scene.topo.roots.len(),
                scene.periodic() ==> forall|pr: int|
                    0 <= pr < lo@.len() ==> (#[trigger] lo@[pr])@ == scene.reaching(
                        Some(Phase::Low),
                        pr,
                    ),
                forall|i: int|
                    0 <= i < scene.all_injections().len() ==> scene.topo.roots.contains(
                        (#[trigger] scene.all_injections()[i]).root,
                    ) && scene.all_injections()[i].slot < self.board.slots@.len(),
                keyed_view(r@) == scene.stranded(names, k as nat),
            decreases prepared.injections@.len() - k,
        {
            let injection = prepared.injections[k];
            assert(scene.all_injections()[k as int] == injection);
            let pr: usize = root_position(&c.roots, injection.root);
            assert(hi@[pr as int]@ == scene.reaching(scene.first_phase(), pr as int));
            let mut reached = hi[pr].len() > 0;
            if prepared.periodic {
                assert(lo@[pr as int]@ == scene.reaching(Some(Phase::Low), pr as int));
                if lo[pr].len() > 0 {
                    reached = true;
                }
            }
            assert(reached == scene.reached(pr as int));
            if injection.amps != Quantity::Finite(0) && !reached {
                let slot = &self.board.slots[injection.slot];
                assert(self.board.shape().slot_nets[injection.slot as int] < nets@.len());
                let name = nets[slot.net].name.clone();
                let pin = slot.pin.clone();
                push_finding(
                    &mut r,
                    injection.slot,
                    Finding::CurrentIntoFloatingNode { net: name, pin },
                );
            }
            k += 1;
        }
        r
    }

    /// The solve that found no operating point.
    fn find_divergence<S: ClusterSolver>(
        &self,
        divergent: Option<usize>,
        nets: &Vec<Net>,
        Ghost(solver): Ghost<&S>,
    ) -> (r: Vec<(usize, Finding)>)
        requires
            self.valid(),
            nets@.len() == self.topology.root_of@.len(),
            divergent == (match self.scene().divergent(solver) {
                Some(s) => Some(s.solves),
                None => None,
            }),
        ensures
            keyed_view(r@) == self.scene().nonconvergent(solver, names_of(*self.board, nets@)),
    {
        let c = self.cluster();
        let ghost scene = self.scene();
        let ghost names = names_of(*self.board, nets@);
        let mut r: Vec<(usize, Finding)> = Vec::new();
        assert(keyed_view(r@) =~= Seq::<(usize, FindingView)>::empty());
        if let Some(solves) = divergent {
            assert(c@.elements.len() > 0);
            assert(c@.nets.len() > 0);
            let first: usize = c.nets[0];
            assert(c@.nets[0] < scene.root_of.len());
            let mut elements: Vec<String> = Vec::new();
            let mut k: usize = 0;
            while k < c.elements.len()
                invariant
                    k <= c.elements@.len(),
                    cluster_indexes(c@, *self.board),
                    elements@.len() == k,
                    forall|j: int|
                        0 <= j < k ==> (#[trigger] elements@[j])@
                            == self.board.elements@[c.elements@[j] as int].reference@,
                decreases c.elements@.len() - k,
            {
                let ei: usize = c.elements[k];
                assert(c@.elements[k as int] == ei);
                elements.push(self.board.elements[ei].reference.clone());
                k += 1;
            }
            assert(names_view(elements@) =~= Seq::new(
                scene.topo.elements.len(),
                |i: int| names.elements[scene.topo.elements[i] as int],
            ));
            let cluster = nets[first].name.clone();
            push_finding(&mut r, first, Finding::NonConvergent { cluster, elements, solves });
            assert(keyed_view(r@) =~= scene.nonconvergent(solver, names));
        }
        r
    }

    /// The nets at the listed positions.
    fn sensed_nets(&self, nets: &Vec<usize>, positions: &Vec<usize>) -> (r: Vec<usize>)
        requires
            forall|i: int| 0 <= i < positions@.len() ==> (#[trigger] positions@[i]) < nets@.len(),
        ensures
            r@ == nets_at(nets@, positions@),
    {
        let mut r: Vec<usize> = Vec::new();
        let mut k: usize = 0;
        while k < positions.len()
            invariant
                k <= positions@.len(),
                forall|i: int|
                    0 <= i < positions@.len() ==> (#[trigger] positions@[i]) < nets@.len(),
                r@ =~= nets_at(nets@, positions@).take(k as int),
            decreases positions@.len() - k,
        {
            r.push(nets[positions[k]]);
            k += 1;
        }
        r
    }

    /// The current into every slot of the cluster.
    fn slot_currents<S: ClusterSolver>(
        &self,
        prepared: &Prepared,
        solution: &Option<ClusterSolution>,
        solver: &S,
    ) -> (r: Vec<Option<Amps>>)
        requires
            self.valid(),
            prepared.stages(self.scene()),
            !self.scene().periodic() ==> (solution is Some <==> self.scene().solves(None)),
            !self.scene().periodic() ==> (solution matches Some(s) ==> s@ == self.scene().solution(
                solver,
                None,
            )),
        ensures
            r@.len() == self.scene().drives.len(),
            forall|k: int|
                0 <= k < r@.len() ==> #[trigger] r@[k] == self.scene().slot_current(solver, k),
    {
        let c = self.cluster();
        let ghost scene = self.scene();
        let floor = solver.ideal_source_floor();
        let mut r: Vec<Option<Amps>> = Vec::new();
        let mut k: usize = 0;
        while k < c.slots.len()
            invariant
                k <= c.slots@.len(),
                self.valid(),
                c@ == scene.topo,
                scene == self.scene(),
                cluster_indexes(c@, *self.board),
                prepared.stages(scene),
                floor == solver.floor(),
                !scene.periodic() ==> (solution is Some <==> scene.solves(None)),
                !scene.periodic() ==> (solution matches Some(s) ==> s@ == scene.solution(
                    solver,
                    None,
                )),
                r@.len() == k,
                forall|j: int| 0 <= j < k ==> #[trigger] r@[j] == scene.slot_current(solver, j),
            decreases c.slots@.len() - k,
        {
            let si: usize = c.slots[k];
            let slot = &self.board.slots[si];
            assert(scene.drives[k as int] == slot.drive);
            assert(scene.slot_roots[k as int] == self.topology.root_of@[slot.net as int]);
            assert(self.board.shape().slot_nets[si as int] < self.topology.root_of@.len());
            let node = NetId(self.topology.root_of[slot.net]);
            let mut amps: Option<Amps> = None;
            if !prepared.periodic {
                if let Some(s) = solution {
                    let volts = s.volts_of(node);
                    amps = match slot.drive {
                        Some(Drive::Thevenin(drive)) => match volts {
                            Some(v) => {
                                let impedance = if drive.impedance.lt(floor) {
                                    floor
                                } else {
                                    drive.impedance
                                };
                                Some(v.add_to(drive.volts.negate()).through(impedance))
                            },
                            None => None,
                        },
                        Some(Drive::Current { amps }) => Some(amps.negate()),
                        Some(Drive::Periodic { .. }) => None,
                        None => match volts {
                            Some(_) => Some(Quantity::Finite(0)),
                            None => None,
                        },
                    };
                }
            }
            assert(amps == scene.slot_current(solver, k as int));
            r.push(amps);
            k += 1;
        }
        r
    }

    /// The current through every element of the cluster.
    fn element_currents<S: ClusterSolver>(
        &self,
        prepared: &Prepared,
        solution: &Option<ClusterSolution>,
        Ghost(solver): Ghost<&S>,
    ) -> (r: Vec<Option<Amps>>)
        requires
            self.valid(),
            prepared.stages(self.scene()),
            !self.scene().periodic() ==> (solution is Some <==> self.scene().solves(None)),
            !self.scene().periodic() ==> (solution matches Some(s) ==> s@ == self.scene().solution(
                solver,
                None,
            )),
        ensures
            r@.len() == self.scene().topo.elements.len(),
            forall|k: int|
                0 <= k < r@.len() ==> #[trigger] r@[k] == self.scene().element_current(solver, k),
    {
        let c = self.cluster();
        let ghost scene = self.scene();
        let mut r: Vec<Option<Amps>> = Vec::new();
        let mut k: usize = 0;
        while k < c.elements.len()
            invariant
                k <= c.elements@.len(),
                c@ == scene.topo,
                prepared.stages(scene),
                !scene.periodic() ==> (solution is Some <==> scene.solves(None)),
                !scene.periodic() ==> (solution matches Some(s) ==> s@ == scene.solution(
                    solver,
                    None,
                )),
                r@.len() == k,
                forall|j: int| 0 <= j < k ==> #[trigger] r@[j] == scene.element_current(solver, j),
            decreases c.elements@.len() - k,
        {
            let amps = if prepared.periodic {
                None
            } else {
                match solution {
                    Some(s) => s.current_at(k),
                    None => None,
                }
            };
            assert(amps == scene.element_current(solver, k as int));
            r.push(amps);
            k += 1;
        }
        r
    }
}

proof fn injections_on_roots(scene: Scene, board: Board, k: nat)
    requires
        scene_sound(scene),
        cluster_indexes(scene.topo, board),
        k <= scene.drives.len(),
    ensures
        forall|i: int|
            0 <= i < scene.injections(k).len() ==> scene.topo.roots.contains(
                (#[trigger] scene.injections(k)[i]).root,
            ) && scene.injections(k)[i].slot < board.slots@.len(),
    decreases k,
{
    if k > 0 {
        injections_on_roots(scene, board, (k - 1) as nat);
        let rest = scene.injections((k - 1) as nat);
        assert(scene.topo.roots.contains(scene.slot_roots[k - 1]));
        assert(scene.topo.slots[k - 1] < board.slots@.len());
        assert forall|i: int| 0 <= i < scene.injections(k).len() implies scene.topo.roots.contains(
            (#[trigger] scene.injections(k)[i]).root,
        ) && scene.injections(k)[i].slot < board.slots@.len() by {
            if i < rest.len() {
                assert(scene.injections(k)[i] == rest[i]);
            }
        }
    }
}

/// A fight names slots of the board.
pub open spec fn fight_names_slots(result: RootResultView, slots: nat) -> bool {
    result.fight matches Some(named) ==> forall|i: int|
        0 <= i < named.len() ==> (#[trigger] named[i]) < slots
}

/// Every fight names slots of the board.
pub open spec fn fights_name_slots(results: Seq<RootResult>, slots: nat) -> bool {
    forall|pr: int|
        0 <= pr < results.len() ==> fight_names_slots((#[trigger] results[pr])@, slots)
}

/// Every listed slot is below `n`.
pub open spec fn slots_below(slots: Seq<usize>, n: nat) -> bool {
    forall|i: int| 0 <= i < slots.len() ==> (#[trigger] slots[i]) < n
}

/// Every reaching slot is below `n`.
pub open spec fn reaching_below(reaching: Seq<ReachingSource>, n: nat) -> bool {
    forall|i: int|
        0 <= i < reaching.len() ==> ((#[trigger] reaching[i]).slot matches Some(s) ==> s < n)
}

proof fn slots_where_below(
    reaching: Seq<ReachingSource>,
    keep: spec_fn(ReachingSource) -> bool,
    n: nat,
)
    requires
        reaching_below(reaching, n),
    ensures
        slots_below(slots_where(reaching, keep), n),
    decreases reaching.len(),
{
    if reaching.len() > 0 {
        let rest = reaching.drop_last();
        assert forall|i: int| 0 <= i < rest.len() implies ((#[trigger] rest[i]).slot matches Some(
            s,
        ) ==> s < n) by {
            assert(rest[i] == reaching[i]);
        }
        slots_where_below(rest, keep, n);
        assert(reaching[reaching.len() - 1] == reaching.last());
    }
}

proof fn union_below(a: Seq<usize>, b: Seq<usize>, n: nat)
    requires
        slots_below(a, n),
        slots_below(b, n),
    ensures
        slots_below(union_list(a, b), n),
{
    union_properties(a, b);
    let u = union_list(a, b);
    assert forall|i: int| 0 <= i < u.len() implies (#[trigger] u[i]) < n by {
        assert(u.contains(u[i]));
        if a.contains(u[i]) {
            let j = choose|j: int| 0 <= j < a.len() && a[j] == u[i];
            assert(a[j] < n);
        } else {
            let j = choose|j: int| 0 <= j < b.len() && b[j] == u[i];
            assert(b[j] < n);
        }
    }
}

proof fn sources_below(scene: Scene, phase: Option<Phase>, k: nat, n: nat)
    requires
        scene_sound(scene),
        slots_below(scene.topo.slots, n),
        k <= scene.drives.len(),
    ensures
        forall|i: int|
            0 <= i < scene.sources(phase, k).len() ==> (#[trigger] scene.sources(
                phase,
                k,
            )[i]).slot < n,
    decreases k,
{
    if k > 0 {
        sources_below(scene, phase, (k - 1) as nat, n);
        assert(scene.topo.slots[k - 1] < n);
    }
}

proof fn reaching_slots_below(scene: Scene, phase: Option<Phase>, pr: int, k: nat, n: nat)
    requires
        scene_sound(scene),
        slots_below(scene.topo.slots, n),
        k <= scene.phase_sources(phase).len(),
    ensures
        reaching_below(scene.reaching_slots(phase, pr, k), n),
    decreases k,
{
    if k > 0 {
        reaching_slots_below(scene, phase, pr, (k - 1) as nat, n);
        sources_below(scene, phase, scene.drives.len(), n);
        assert(scene.phase_sources(phase)[k - 1].slot < n);
    }
}

proof fn reaching_terminals_below(scene: Scene, pr: int, k: nat, n: nat)
    ensures
        reaching_below(scene.reaching_terminals(pr, k), n),
    decreases k,
{
    if k > 0 {
        reaching_terminals_below(scene, pr, (k - 1) as nat, n);
    }
}

proof fn scene_reaching_below(scene: Scene, phase: Option<Phase>, pr: int, n: nat)
    requires
        scene_sound(scene),
        slots_below(scene.topo.slots, n),
    ensures
        reaching_below(scene.reaching(phase, pr), n),
{
    let slots = scene.reaching_slots(phase, pr, scene.phase_sources(phase).len());
    let terminals = scene.reaching_terminals(pr, scene.held().len());
    reaching_slots_below(scene, phase, pr, scene.phase_sources(phase).len(), n);
    reaching_terminals_below(scene, pr, scene.held().len(), n);
    let all = scene.reaching(phase, pr);
    assert forall|i: int| 0 <= i < all.len() implies ((#[trigger] all[i]).slot matches Some(s)
        ==> s < n) by {
        if i < slots.len() {
            assert(all[i] == slots[i]);
        } else {
            assert(all[i] == terminals[i - slots.len()]);
        }
    }
}

proof fn outcome_below<S: ClusterSolver>(
    scene: Scene,
    solver: &S,
    phase: Option<Phase>,
    pr: int,
    n: nat,
)
    requires
        scene_sound(scene),
        slots_below(scene.topo.slots, n),
    ensures
        scene.outcome(solver, phase, pr).fight matches Some(named) ==> slots_below(named, n),
        slots_below(strong_slots(scene.reaching(phase, pr)), n),
        slots_below(contending_slots(scene.reaching(phase, pr)), n),
{
    let reaching = scene.reaching(phase, pr);
    scene_reaching_below(scene, phase, pr, n);
    slots_where_below(reaching, |s: ReachingSource| !s.pull(), n);
    let bar = bar_of(reaching);
    slots_where_below(
        reaching,
        |s: ReachingSource| !s.pull() && !s.loses_to(bar) && periodic_source(s),
        n,
    );
}

/// What a root publishes names slots of the board only.
proof fn published_below<S: ClusterSolver>(scene: Scene, solver: &S, pr: int, n: nat)
    requires
        scene_sound(scene),
        slots_below(scene.topo.slots, n),
        forall|i: int| 0 <= i < scene.arrivals.len() ==> (#[trigger] scene.arrivals[i]).slot < n,
    ensures
        fight_names_slots(scene.published(solver, pr), n),
{
    let empty = Seq::<usize>::empty();
    let arrived = crossed_at(scene.arrivals, scene.topo.roots[pr]);
    crossed_below(scene.arrivals, scene.topo.roots[pr], n);
    let resolved = scene.resolved(solver, pr);
    let driving = scene.driving(solver, pr);
    if scene.periodic() {
        outcome_below(scene, solver, Some(Phase::High), pr, n);
        outcome_below(scene, solver, Some(Phase::Low), pr, n);
        let hi = scene.phase_record(solver, Phase::High, pr);
        let lo = scene.phase_record(solver, Phase::Low, pr);
        union_below(slots_or_none(hi.fight), slots_or_none(lo.fight), n);
        union_below(hi.strong, lo.strong, n);
        union_below(hi.contending, lo.contending, n);
        let fight = joined_fight(hi.fight, lo.fight);
        assert(slots_below(slots_or_none(fight), n));
        union_below(union_list(hi.strong, lo.strong), slots_or_none(fight), n);
    } else {
        outcome_below(scene, solver, None, pr, n);
    }
    assert(slots_below(driving, n));
    assert(resolved.fight matches Some(named) ==> slots_below(named, n));
    assert(slots_below(arrival_slots(arrived), n));
    union_below(arrival_slots(arrived), driving, n);
    let named = union_list(arrival_slots(arrived), driving);
    if let Some(existing) = resolved.fight {
        union_below(existing, named, n);
    }
}

proof fn crossed_below(arrivals: Seq<ArrivalView>, root: usize, n: nat)
    requires
        forall|i: int| 0 <= i < arrivals.len() ==> (#[trigger] arrivals[i]).slot < n,
    ensures
        forall|i: int|
            0 <= i < crossed_at(arrivals, root).len() ==> (#[trigger] crossed_at(
                arrivals,
                root,
            )[i]).slot < n,
    decreases arrivals.len(),
{
    if arrivals.len() > 0 {
        let rest = arrivals.drop_last();
        assert forall|i: int| 0 <= i < rest.len() implies (#[trigger] rest[i]).slot < n by {
            assert(rest[i] == arrivals[i]);
        }
        crossed_below(rest, root, n);
        assert(arrivals[arrivals.len() - 1] == arrivals.last());
    }
}

/// Resolve one conduction cluster from what it reads: the sources each root
/// is reached by, the ranking of them, the solve where it is asked for, the
/// state of every root, the findings and the currents.
pub fn resolve_cluster<S: ClusterSolver>(
    reads: &ClusterReads<'_>,
    nets: &Vec<Net>,
    solver: &S,
) -> (r: ClusterPass)
    requires
        reads.valid(),
        nets@.len() == reads.topology.root_of@.len(),
    ensures
        r.concludes(reads.scene(), solver, names_of(*reads.board, nets@)),
{
    let c = reads.cluster();
    let ghost scene = reads.scene();
    let ghost names = names_of(*reads.board, nets@);
    let prepared = reads.prepare();
    let hi = reads.run_phase(&prepared, &prepared.hi, Ghost(scene.first_phase()), solver);
    let lo: Option<PhaseRun> = if prepared.periodic {
        Some(reads.run_phase(&prepared, &prepared.lo, Ghost(Some(Phase::Low)), solver))
    } else {
        None
    };
    let mut divergent: Option<usize> = None;
    if let Some(s) = &hi.solution {
        if c.elements.len() > 0 && !s.converged {
            divergent = Some(s.solves);
        }
    }
    let mut solves: u64 = 0;
    if hi.solution.is_some() {
        solves += 1;
    }
    if let Some(run) = &lo {
        if let Some(s) = &run.solution {
            if divergent.is_none() && c.elements.len() > 0 && !s.converged {
                divergent = Some(s.solves);
            }
            solves += 1;
        }
    }
    proof {
        element_solves_eagerly(scene, scene.first_phase());
        element_solves_eagerly(scene, Some(Phase::Low));
    }
    assert(solves == scene.solve_count());
    assert(divergent == (match scene.divergent(solver) {
        Some(s) => Some(s.solves),
        None => None,
    }));
    let slot_currents = reads.slot_currents(&prepared, &hi.solution, solver);
    let element_currents = reads.element_currents::<S>(
        &prepared,
        &hi.solution,
        Ghost(solver),
    );
    let PhaseRun { outcomes: hi_outcomes, reaching: hi_reaching, solution: _ } = hi;
    let mut lo_outcomes: Vec<RootOutcome> = Vec::new();
    let mut lo_reaching: Vec<Vec<ReachingSource>> = Vec::new();
    if let Some(run) = lo {
        lo_outcomes = run.outcomes;
        lo_reaching = run.reaching;
    }
    let injection = reads.find_stranded(&prepared, &hi_reaching, &lo_reaching, nets);
    let results = reads.combine_roots::<S>(
        &prepared,
        hi_outcomes,
        &hi_reaching,
        lo_outcomes,
        &lo_reaching,
        Ghost(solver),
    );
    proof {
        assert forall|pr: int| 0 <= pr < results@.len() implies fight_names_slots(
            (#[trigger] results@[pr])@,
            reads.board.slots@.len(),
        ) by {
            published_below(scene, solver, pr, reads.board.slots@.len());
        }
    }
    let contention = reads.find_contention::<S>(&results, nets, Ghost(solver));
    let digital = reads.sensed_nets(&reads.board.digital_senses, &c.digital_senses);
    let analog = reads.sensed_nets(&reads.board.analog_senses, &c.analog_senses);
    let power_nets = reads.sensed_nets(&reads.board.power_senses, &c.power_senses);
    assert(digital@ == scene.digital_nets);
    assert(analog@ == scene.analog_nets);
    assert(power_nets@ == scene.power_nets);
    let floating_digital = reads.find_floating::<S>(
        &results,
        nets,
        &c.digital_senses,
        &digital,
        SenseKind::Digital,
        Ghost(solver),
    );
    let floating_analog = reads.find_floating::<S>(
        &results,
        nets,
        &c.analog_senses,
        &analog,
        SenseKind::Analog,
        Ghost(solver),
    );
    let power = reads.find_unsourced::<S>(
        &prepared,
        &results,
        nets,
        &power_nets,
        divergent.is_some(),
        Ghost(solver),
    );
    let nonconvergent = reads.find_divergence::<S>(divergent, nets, Ghost(solver));
    let coupling = refused_crossings(reads.arrivals, nets, &reads.board.couplings);
    let findings = PassFindings {
        contention,
        floating_digital,
        floating_analog,
        power,
        injection,
        nonconvergent,
        coupling,
    };
    assert(findings@ =~= cluster_findings(solver, scene, names)) by {
        let cn = coupling_names(nets@, reads.board.couplings@);
        assert(cn.nets =~= names.nets);
        assert(cn.capacitors =~= names.capacitors);
    }
    ClusterPass { results, findings, slot_currents, element_currents, solves }
}

/// A cluster with elements solves only where it does so eagerly.
proof fn element_solves_eagerly(scene: Scene, phase: Option<Phase>)
    requires
        scene_sound(scene),
        phase == scene.first_phase() || (scene.periodic() && phase == Some(Phase::Low)) || !(
        scene.periodic()),
    ensures
        scene.topo.elements.len() > 0 && (phase == scene.first_phase() || scene.periodic()) ==> (
        scene.solves(phase) <==> scene.eager()),
{
    if scene.topo.elements.len() > 0 && (phase == scene.first_phase() || scene.periodic()) {
        if !scene.eager() {
            assert(!scene.any_source());
            assert(scene.held().len() == 0);
            assert(scene.phase_sources(phase).len() == 0);
            assert forall|pr: int| 0 <= pr < scene.topo.roots.len() implies !(
            #[trigger] scene.root_solves(phase, pr)) by {
                assert(scene.reaching(phase, pr).len() == 0);
            }
        }
    }
}

impl<'a> ClusterReads<'a> {
    /// What every root publishes: its phases combined, and the rates arriving
    /// at it over that.
    fn combine_roots<S: ClusterSolver>(
        &self,
        prepared: &Prepared,
        hi_outcomes: Vec<RootOutcome>,
        hi_reaching: &Vec<Vec<ReachingSource>>,
        lo_outcomes: Vec<RootOutcome>,
        lo_reaching: &Vec<Vec<ReachingSource>>,
        Ghost(solver): Ghost<&S>,
    ) -> (results: Vec<RootResult>)
        requires
            self.valid(),
            prepared.stages(self.scene()),
            hi_outcomes@.len() == self.scene().topo.roots.len(),
            hi_reaching@.len() == self.scene().topo.roots.len(),
            forall|pr: int|
                0 <= pr < hi_outcomes@.len() ==> (#[trigger] hi_outcomes@[pr])@
                    == self.scene().outcome(solver, self.scene().first_phase(), pr),
            forall|pr: int|
                0 <= pr < hi_reaching@.len() ==> (#[trigger] hi_reaching@[pr])@
                    == self.scene().reaching(self.scene().first_phase(), pr),
            self.scene().periodic() ==> {
                &&& lo_outcomes@.len() == self.scene().topo.roots.len()
                &&& lo_reaching@.len() == self.scene().topo.roots.len()
                &&& forall|pr: int|
                    0 <= pr < lo_outcomes@.len() ==> (#[trigger] lo_outcomes@[pr])@
                        == self.scene().outcome(solver, Some(Phase::Low), pr)
                &&& forall|pr: int|
                    0 <= pr < lo_reaching@.len() ==> (#[trigger] lo_reaching@[pr])@
                        == self.scene().reaching(Some(Phase::Low), pr)
            },
        ensures
            results_published(results@, self.scene(), solver),
    {
        let c = self.cluster();
        let ghost scene = self.scene();
        let ghost hi_all = hi_outcomes@;
        let ghost lo_all = lo_outcomes@;
        let mut hi_left = hi_outcomes;
        let mut lo_left = lo_outcomes;
        let mut reversed: Vec<RootResult> = Vec::new();
        let mut left: usize = c.roots.len();
        while left > 0
            invariant
                left <= c.roots@.len(),
                self.valid(),
                c@ == scene.topo,
                scene == self.scene(),
                prepared.stages(scene),
                hi_all.len() == scene.topo.roots.len(),
                hi_left@ =~= hi_all.take(left as int),
                forall|pr: int|
                    0 <= pr < hi_all.len() ==> (#[trigger] hi_all[pr])@ == scene.outcome(
                        solver,
                        scene.first_phase(),
                        pr,
                    ),
                hi_reaching@.len() == scene.topo.roots.len(),
                forall|pr: int|
                    0 <= pr < hi_reaching@.len() ==> (#[trigger] hi_reaching@[pr])@
                        == scene.reaching(scene.first_phase(), pr),
                scene.periodic() ==> {
                    &&& lo_all.len() == scene.topo.roots.len()
                    &&& lo_left@ =~= lo_all.take(left as int)
                    &&& lo_reaching@.len() == scene.topo.roots.len()
                    &&& forall|pr: int|
                        0 <= pr < lo_all.len() ==> (#[trigger] lo_all[pr])@ == scene.outcome(
                            solver,
                            Some(Phase::Low),
                            pr,
                        )
                    &&& forall|pr: int|
                        0 <= pr < lo_reaching@.len() ==> (#[trigger] lo_reaching@[pr])@
                            == scene.reaching(Some(Phase::Low), pr)
                },
                reversed@.len() == c.roots@.len() - left,
                forall|i: int|
                    0 <= i < reversed@.len() ==> (#[trigger] reversed@[i])@ == scene.published(
                        solver,
                        c.roots@.len() - 1 - i,
                    ),
            decreases left,
        {
            left -= 1;
            let ghost pr = left as int;
            let popped = hi_left.pop();
            assert(popped == Some(hi_all[pr]));
            let outcome = match popped {
                Some(o) => o,
                None => RootOutcome::quiet(NetState::Floating),
            };
            assert(outcome@ == scene.outcome(solver, scene.first_phase(), pr));
            assert(hi_reaching@[pr]@ == scene.reaching(scene.first_phase(), pr));
            let mut driving: Vec<usize> = Vec::new();
            let resolved: RootResult = if prepared.periodic {
                let low = lo_left.pop();
                assert(low == Some(lo_all[pr]));
                let low_outcome = match low {
                    Some(o) => o,
                    None => RootOutcome::quiet(NetState::Floating),
                };
                assert(low_outcome@ == scene.outcome(solver, Some(Phase::Low), pr));
                assert(lo_reaching@[pr]@ == scene.reaching(Some(Phase::Low), pr));
                let hi_root = PhaseRoot::of(outcome, &hi_reaching[left]);
                let lo_root = PhaseRoot::of(low_outcome, &lo_reaching[left]);
                assert(hi_root@ == scene.phase_record(solver, Phase::High, pr));
                assert(lo_root@ == scene.phase_record(solver, Phase::Low, pr));
                driving = slot_union(&hi_root.contending, &lo_root.contending);
                combine_phases(&hi_root, &lo_root)
            } else {
                RootResult {
                    state: outcome.state,
                    fight: outcome.fight,
                    ambiguous: outcome.ambiguous,
                    volts: NetVolts::dc(outcome.volts),
                }
            };
            assert(resolved@ == scene.resolved(solver, pr));
            assert(driving@ =~= scene.driving(solver, pr));
            let result = overlay_arrivals(resolved, c.roots[left], self.arrivals, &driving);
            assert(result@ == scene.published(solver, pr));
            reversed.push(result);
        }
        let ghost backwards = reversed@;
        let mut results: Vec<RootResult> = Vec::new();
        while reversed.len() > 0
            invariant
                reversed@.len() + results@.len() == backwards.len(),
                reversed@ =~= backwards.take(reversed@.len() as int),
                backwards.len() == scene.topo.roots.len(),
                forall|i: int|
                    0 <= i < backwards.len() ==> (#[trigger] backwards[i])@ == scene.published(
                        solver,
                        backwards.len() - 1 - i,
                    ),
                forall|i: int|
                    0 <= i < results@.len() ==> (#[trigger] results@[i])@ == scene.published(
                        solver,
                        i,
                    ),
            decreases reversed@.len(),
        {
            let ghost at = reversed@.len() - 1;
            if let Some(result) = reversed.pop() {
                assert(result == backwards[at]);
                results.push(result);
            }
        }
        results
    }
}

} // verus!
