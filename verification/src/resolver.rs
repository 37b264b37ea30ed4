//! The resolver: a board, what it is driven with, and the passes over it.
use vstd::prelude::*;

use crate::board::{empty_board, Board, BoardView, DriveSlot, Element};
use crate::cluster::{ClusterSolver, PwlCurve, RegionTest};
use crate::coupling::{
    arrivals_view, Arrival, ArrivalView, CoupledRoot, CoupledRootView, CouplingCapacitor,
};
use crate::diagnostics::{all_reported, pins_view, Diagnostics, FindingView};
use crate::dsu::{is_root_map, Dsu};
use crate::emission::{emission, joined, no_findings};
use crate::net::{
    holds_periodic, normalise_drive, normalised, same_figure, Drive, EndpointId, Net, NetId, PinRef,
    PinRefView, TheveninDrive,
};
use crate::pass::{
    cluster_indexes, described_cluster, describes, names_of, resolve_cluster, scene_is_sound,
    scene_of, scene_sound, ClusterReads, PassFindings,
};
use crate::paths::Edge;
use crate::quantity::{Amps, Femtofarads, Ohms, Volts};
use crate::reach::{
    arrivals_along, arrivals_from, cluster_arrivals, cluster_arrivals_valid, coupled_view,
    is_clock, note_arrivals, slot_reach, slot_reach_valid, walk_reach,
};
use crate::scene::{cluster_findings, position_in, ClusterFindings, Names, Scene};
use crate::seqs::{ascending, insert_ascending, listed, position_of, select, select_properties};
use crate::terminal::{
    decide_terminal, fights, held_by_slot, held_volts, terminal_state, TerminalDrive, TerminalId,
    TerminalSource, TerminalState,
};
use crate::topology::{
    build_topology, layout_is_sound, layout_of, topology_of, Topology, TopologyView,
};

pub mod dirty;
pub mod drives;
pub mod laws;
pub mod parts;
pub mod plain;
pub mod reads;
pub mod replay;
pub mod within;

verus! {

/// The identity roots of the first `n` nets: a net past the merges is its
/// own.
pub open spec fn grown(identity: Seq<usize>, n: nat) -> Seq<usize> {
    Seq::new(
        n,
        |i: int| if i < identity.len() {
            identity[i]
        } else {
            i as usize
        },
    )
}

/// What the listed sources hold.
pub open spec fn sources_hold(board: Board, sources: Seq<TerminalId>) -> Seq<TerminalDrive> {
    Seq::new(sources.len(), |i: int| board.held_at(sources[i]))
}

/// What every terminal of a board holds.
pub open spec fn states_now<S: ClusterSolver>(
    solver: &S,
    board: Board,
    topology: TopologyView,
) -> Seq<TerminalState> {
    Seq::new(
        topology.terminals.len(),
        |p: int|
            terminal_state(
                solver,
                topology.terminals[p].root,
                sources_hold(board, topology.terminals[p].sources),
            ),
    )
}

/// A cluster as the board drives it, its terminals in `states`.
pub open spec fn scene_in(
    board: Board,
    topology: TopologyView,
    states: Seq<TerminalState>,
    cid: int,
) -> Scene {
    scene_of(board, topology, states, cluster_arrivals(board, topology, cid), cid)
}

/// A cluster as the board drives it now.
pub open spec fn scene_now<S: ClusterSolver>(
    solver: &S,
    board: Board,
    topology: TopologyView,
    cid: int,
) -> Scene {
    scene_in(board, topology, states_now(solver, board, topology), cid)
}

/// Whether a net shows what a scene publishes for it.
pub open spec fn shows<S: ClusterSolver>(net: Net, scene: Scene, solver: &S, i: int) -> bool {
    net.state == scene.net_result(solver, i as usize).state && net.volts == scene.net_result(
        solver,
        i as usize,
    ).volts
}

/// Whether a net shows what a full pass over the board resolves it to.
pub open spec fn resolved<S: ClusterSolver>(
    solver: &S,
    board: Board,
    topology: TopologyView,
    net: Net,
    i: int,
) -> bool {
    shows(net, scene_now(solver, board, topology, topology.index[i] as int), solver, i)
}

/// Nets that differ at most in what they show.
pub open spec fn same_nets(a: Seq<Net>, b: Seq<Net>) -> bool {
    &&& a.len() == b.len()
    &&& forall|i: int|
        0 <= i < a.len() ==> (#[trigger] a[i]).id == b[i].id && a[i].name == b[i].name
            && a[i].nodes == b[i].nodes
}

/// The findings of the first `k` of a list of clusters.
pub open spec fn gathered<S: ClusterSolver>(
    solver: &S,
    board: Board,
    topology: TopologyView,
    states: Seq<TerminalState>,
    names: Names,
    cids: Seq<usize>,
    k: nat,
) -> ClusterFindings
    decreases k,
{
    if k == 0 {
        no_findings()
    } else {
        joined(
            gathered(solver, board, topology, states, names, cids, (k - 1) as nat),
            cluster_findings(
                solver,
                scene_in(board, topology, states, cids[k - 1] as int),
                names,
            ),
        )
    }
}

/// Every cluster of a structure, ascending.
pub open spec fn every_cluster(topology: TopologyView) -> Seq<usize> {
    Seq::new(topology.clusters.len(), |cid: int| cid as usize)
}

/// The findings of a full pass over a board.
pub open spec fn full_findings<S: ClusterSolver>(
    solver: &S,
    board: Board,
    topology: TopologyView,
    names: Names,
) -> ClusterFindings {
    gathered(
        solver,
        board,
        topology,
        states_now(solver, board, topology),
        names,
        every_cluster(topology),
        topology.clusters.len(),
    )
}

/// How many solves the first `k` of a list of clusters take.
pub open spec fn solves_of(
    board: Board,
    topology: TopologyView,
    states: Seq<TerminalState>,
    cids: Seq<usize>,
    k: nat,
) -> nat
    decreases k,
{
    if k == 0 {
        0
    } else {
        solves_of(board, topology, states, cids, (k - 1) as nat) + scene_in(
            board,
            topology,
            states,
            cids[k - 1] as int,
        ).solve_count()
    }
}

/// Whether the terminal at `p` must solve a fight.
pub open spec fn terminal_fights(board: Board, topology: TopologyView, p: int) -> bool {
    fights(sources_hold(board, topology.terminals[p].sources))
}

/// Whether a slot holds a clock.
pub open spec fn clock_at(board: Board) -> spec_fn(int) -> bool {
    |s: int| is_clock(board, s)
}

/// Whether a cluster is one a clock's rate arrives at.
pub open spec fn clock_reaches(board: Board, topology: TopologyView, slot: int, cid: int) -> bool {
    exists|i: int|
        0 <= i < slot_reach(board, topology, slot).len() && topology.index[(#[trigger] slot_reach(
            board,
            topology,
            slot,
        )[i]).root as int] == cid
}

/// The currents the last passes produced: per endpoint and per element.
#[derive(Debug)]
pub struct CurrentTable {
    /// The current into every endpoint.
    pub endpoints: Vec<Option<Amps>>,
    /// The current through every element.
    pub elements: Vec<Option<Amps>>,
}

/// Resolution state: a board, what it is driven with, its cached structure
/// and which clusters a drive touched since the last pass.
pub struct Resolver {
    identity: Dsu,
    net_count: usize,
    board: Board,
    topology: Option<Topology>,
    terminal_states: Vec<TerminalState>,
    terminals_resolved: bool,
    dirty: Vec<usize>,
    periodic_slots: Vec<usize>,
    coupled_cache: Vec<Option<Vec<CoupledRoot>>>,
    reach_clusters: Option<Vec<usize>>,
    endpoint_currents: Vec<Option<Amps>>,
    element_currents: Vec<Option<Amps>>,
    currents_changed: bool,
    escalated_solves: u64,
}

/// A count as a 64-bit counter holds it.
pub open spec fn counted(n: int) -> int {
    n % 0x1_0000_0000_0000_0000
}

impl Resolver {
    /// The board and what it is driven with.
    pub closed spec fn board(&self) -> Board {
        self.board
    }

    /// The identity root of every merged net.
    pub closed spec fn identity(&self) -> Seq<usize> {
        self.identity@
    }

    /// The nets declared at build.
    pub closed spec fn net_count(&self) -> usize {
        self.net_count
    }

    /// Whether a cluster waits for a pass.
    pub closed spec fn awaits(&self, cid: int) -> bool {
        exists|i: int| 0 <= i < self.dirty@.len() && #[trigger] self.dirty@[i] == cid
    }

    spec fn awaiting(&self) -> spec_fn(int) -> bool {
        |cid: int| self.awaits(cid)
    }

    /// The clusters that wait for a pass, ascending.
    pub closed spec fn waiting(&self, topology: TopologyView) -> Seq<usize> {
        select(topology.clusters.len(), self.awaiting())
    }

    /// Whether every terminal of `n` nets has been decided by a pass over the
    /// board as it is declared.
    pub closed spec fn settled_for(&self, n: nat) -> bool {
        &&& self.terminals_resolved
        &&& self.topology matches Some(t) && t.root_of@.len() == n
    }

    /// What the last passes decided the terminals hold.
    pub closed spec fn held_states(&self) -> Seq<TerminalState> {
        self.terminal_states@
    }

    /// The current into an endpoint.
    pub closed spec fn endpoint_current(&self, endpoint: int) -> Option<Amps> {
        if 0 <= endpoint < self.endpoint_currents@.len() {
            self.endpoint_currents@[endpoint]
        } else {
            None
        }
    }

    /// The current through an element.
    pub closed spec fn element_current(&self, element: int) -> Option<Amps> {
        if 0 <= element < self.element_currents@.len() {
            self.element_currents@[element]
        } else {
            None
        }
    }

    /// Whether a current differs from the one it replaced.
    pub closed spec fn currents_moved(&self) -> bool {
        self.currents_changed
    }

    /// How many solves every pass so far has run.
    pub closed spec fn solves_counted(&self) -> int {
        self.escalated_solves as int
    }

    /// The identity root of the first `n` nets.
    pub open spec fn roots(&self, n: nat) -> Seq<usize> {
        grown(self.identity(), n)
    }

    /// The structure of the board over `n` nets.
    pub open spec fn structure(&self, n: nat) -> TopologyView {
        topology_of(self.board().shape(), self.roots(n))
    }

    /// Every part is declared on one of `n` nets; so is whatever reads one,
    /// unless it was declared on a board already resolved.
    pub open spec fn fits(&self, n: nat) -> bool {
        &&& n <= usize::MAX
        &&& self.board().shape().valid(n)
        &&& self.board().shape().readers_known(n) || self.settled_for(n)
        &&& is_root_map(self.roots(n))
    }

    /// Every slot is in normal form, and a terminal's slot names its
    /// terminal.
    pub open spec fn slots_sound(&self) -> bool {
        forall|s: int|
            0 <= s < self.board().slots@.len() ==> {
                let slot = #[trigger] self.board().slots@[s];
                &&& normalised(slot.drive) == slot.drive
                &&& slot.terminal matches Some(id) ==> self.board().declares(id)
                    && self.board().terminal_net(id) == slot.net
            }
    }

    spec fn cache_sound(&self, topology: TopologyView) -> bool {
        forall|s: int|
            0 <= s < self.coupled_cache@.len() && (#[trigger] self.coupled_cache@[s]) is Some
                ==> coupled_view(self.coupled_cache@[s]->0@) == slot_reach(
                self.board,
                topology,
                s,
            )
    }

    spec fn clocks_sound(&self, topology: TopologyView) -> bool {
        self.reach_clusters matches Some(list) ==> {
            &&& forall|cid: usize|
                #[trigger] list@.contains(cid) <==> exists|s: int|
                    0 <= s < self.board.slots@.len() && #[trigger] is_clock(self.board, s)
                        && clock_reaches(self.board, topology, s, cid as int)
            &&& forall|s: int|
                0 <= s < self.board.slots@.len() && #[trigger] is_clock(self.board, s) ==> s
                    < self.coupled_cache@.len() && self.coupled_cache@[s] is Some
        }
    }

    spec fn linked(&self, topology: Topology) -> bool {
        &&& describes(topology@, self.board)
        &&& topology.root_of@ == grown(self.identity@, topology.root_of@.len())
        &&& forall|i: int|
            0 <= i < self.dirty@.len() ==> (#[trigger] self.dirty@[i]) < topology.clusters@.len()
        &&& self.terminals_resolved ==> self.terminal_states@.len() == topology.terminals@.len()
        &&& self.cache_sound(topology@)
        &&& self.clocks_sound(topology@)
    }

    spec fn tables_sound(&self) -> bool {
        &&& self.identity.well_formed()
        &&& self.element_currents@.len() == self.board.elements@.len()
        &&& self.endpoint_currents@.len() <= self.board.slots@.len()
        &&& self.slots_sound()
        &&& self.periodic_slots@ == select(self.board.slots@.len(), clock_at(self.board))
        &&& self.coupled_cache@.len() <= self.board.slots@.len()
    }

    /// The cached structure, the dirty list and the caches describe the
    /// board.
    pub closed spec fn well_formed(&self) -> bool {
        &&& self.tables_sound()
        &&& self.topology matches Some(t) ==> self.linked(t)
    }

    /// New resolver over `net_count` nets with the given identity merges.
    pub fn new(net_count: usize, identity: Dsu) -> (r: Resolver)
        requires
            identity.well_formed(),
        ensures
            r.well_formed(),
            r.identity() == identity@,
            r.net_count() == net_count,
            r.board()@ == empty_board(),
            r.solves_counted() == 0,
            !r.currents_moved(),
    {
        let board = Board::new();
        let r = Resolver {
            identity,
            net_count,
            board,
            topology: None,
            terminal_states: Vec::new(),
            terminals_resolved: false,
            dirty: Vec::new(),
            periodic_slots: Vec::new(),
            coupled_cache: Vec::new(),
            reach_clusters: None,
            endpoint_currents: Vec::new(),
            element_currents: Vec::new(),
            currents_changed: false,
            escalated_solves: 0,
        };
        assert(r.periodic_slots@ =~= select(0, clock_at(r.board)));
        r
    }

    /// Whether the board fits on `n` nets: everything is declared on one of
    /// them, and no merge names a net past them.
    pub fn fits_nets(&self, n: usize) -> (r: bool)
        requires
            self.well_formed(),
        ensures
            r == (self.identity().len() <= n && self.board().shape().valid(n as nat)
                && self.board().shape().readers_known(n as nat)),
            r ==> self.fits(n as nat),
    {
        let merged: usize = self.identity.len();
        let r = merged <= n && self.board.fits_nets(n);
        proof {
            self.identity.roots_are_roots();
            if r {
                let roots = self.roots(n as nat);
                assert forall|i: int| 0 <= i < roots.len() implies (#[trigger] roots[i])
                    < roots.len() && roots[roots[i] as int] == roots[i] by {
                    if i < merged {
                        assert(self.identity()[i] < merged);
                    }
                }
            }
        }
        r
    }

    /// The board and what it is driven with.
    pub fn assembled(&self) -> (board: &Board)
        ensures
            *board == self.board(),
    {
        &self.board
    }

    /// How many cluster solves every pass so far has escalated to the solver.
    pub fn escalated_solves(&self) -> (n: u64)
        ensures
            n == self.solves_counted(),
    {
        self.escalated_solves
    }

    /// Drop every structure derived from the board: the next pass is a full
    /// one.
    fn invalidate(&mut self)
        requires
            old(self).tables_sound(),
        ensures
            final(self).well_formed(),
            final(self).board == old(self).board,
            final(self).identity == old(self).identity,
            final(self).net_count == old(self).net_count,
            final(self).endpoint_currents == old(self).endpoint_currents,
            final(self).element_currents == old(self).element_currents,
            final(self).currents_changed == old(self).currents_changed,
            final(self).escalated_solves == old(self).escalated_solves,
            final(self).topology is None,
    {
        self.topology = None;
        self.terminals_resolved = false;
        self.dirty = Vec::new();
        self.coupled_cache = Vec::new();
        self.reach_clusters = None;
    }
}

/// Sequences equal but in what the board declares.
proof fn grown_twice(identity: Seq<usize>, longer: Seq<usize>, n: nat)
    requires
        longer.len() >= identity.len(),
        forall|i: int| 0 <= i < identity.len() ==> #[trigger] longer[i] == identity[i],
        forall|i: int| identity.len() <= i < longer.len() ==> #[trigger] longer[i] == i,
    ensures
        grown(longer, n) == grown(identity, n),
{
    assert(grown(longer, n) =~= grown(identity, n));
}

impl Resolver {
    /// A declaration kept everything but the board, and the cached structure
    /// is gone.
    pub open spec fn declared(&self, before: &Resolver) -> bool {
        &&& self.well_formed()
        &&& self.identity() == before.identity()
        &&& self.net_count() == before.net_count()
        &&& self.currents_moved() == before.currents_moved()
        &&& self.solves_counted() == before.solves_counted()
        &&& forall|n: nat| !#[trigger] self.settled_for(n)
    }

    /// Add a conduction edge between two nets.
    pub fn add_edge(&mut self, a: usize, b: usize, ohms: Ohms)
        requires
            old(self).well_formed(),
        ensures
            final(self).declared(old(self)),
            final(self).board()@ == (BoardView {
                edges: old(self).board()@.edges.push(Edge { a, b, ohms }),
                ..old(self).board()@
            }),
    {
        self.board.edges.push(Edge { a, b, ohms });
        assert(clock_at(self.board) =~= clock_at(old(self).board));
        self.invalidate();
    }

    /// Add a piecewise-linear element between two nets, with an optional
    /// control net, returning its index.
    pub fn add_element(
        &mut self,
        a: usize,
        b: usize,
        curve: PwlCurve,
        control: Option<(usize, RegionTest)>,
        reference: String,
    ) -> (index: usize)
        requires
            old(self).well_formed(),
        ensures
            final(self).declared(old(self)),
            index == old(self).board()@.elements.len(),
            final(self).element_current(index as int) is None,
            final(self).board()@ == (BoardView {
                elements: old(self).board()@.elements.push(
                    Element { a, b, curve, control, reference },
                ),
                ..old(self).board()@
            }),
    {
        let index: usize = self.board.elements.len();
        self.board.elements.push(Element { a, b, curve, control, reference });
        self.element_currents.push(None);
        assert(clock_at(self.board) =~= clock_at(old(self).board));
        self.invalidate();
        index
    }

    /// Add a coupling capacitor between two nets: a path a rate crosses,
    /// never a conduction edge.
    pub fn add_coupling(&mut self, a: usize, b: usize, farads: Femtofarads, reference: String)
        requires
            old(self).well_formed(),
        ensures
            final(self).declared(old(self)),
            final(self).board()@ == (BoardView {
                couplings: old(self).board()@.couplings.push(
                    CouplingCapacitor { a, b, farads, reference },
                ),
                ..old(self).board()@
            }),
    {
        self.board.couplings.push(CouplingCapacitor { a, b, farads, reference });
        assert(clock_at(self.board) =~= clock_at(old(self).board));
        self.invalidate();
    }

    /// Register a digital sense pin.
    pub fn add_digital_sense(&mut self, net: usize)
        requires
            old(self).well_formed(),
        ensures
            final(self).declared(old(self)),
            final(self).board()@ == (BoardView {
                digital_senses: old(self).board()@.digital_senses.push(net),
                ..old(self).board()@
            }),
    {
        self.board.digital_senses.push(net);
        assert(clock_at(self.board) =~= clock_at(old(self).board));
        self.invalidate();
    }

    /// Register an analog sense pin.
    pub fn add_analog_sense(&mut self, net: usize)
        requires
            old(self).well_formed(),
        ensures
            final(self).declared(old(self)),
            final(self).board()@ == (BoardView {
                analog_senses: old(self).board()@.analog_senses.push(net),
                ..old(self).board()@
            }),
    {
        self.board.analog_senses.push(net);
        assert(clock_at(self.board) =~= clock_at(old(self).board));
        self.invalidate();
    }

    /// Register a current instrument's net: its cluster solves on every pass
    /// that touches it, and nothing is reported for it.
    pub fn add_current_instrument(&mut self, net: usize)
        requires
            old(self).well_formed(),
        ensures
            final(self).declared(old(self)),
            final(self).board()@ == (BoardView {
                current_instruments: old(self).board()@.current_instruments.push(net),
                ..old(self).board()@
            }),
    {
        self.board.current_instruments.push(net);
        assert(clock_at(self.board) =~= clock_at(old(self).board));
        self.invalidate();
    }

    /// Register a power sense pin.
    pub fn add_power_sense(&mut self, net: usize)
        requires
            old(self).well_formed(),
        ensures
            final(self).declared(old(self)),
            final(self).board()@ == (BoardView {
                power_senses: old(self).board()@.power_senses.push(net),
                ..old(self).board()@
            }),
    {
        self.board.power_senses.push(net);
        assert(clock_at(self.board) =~= clock_at(old(self).board));
        self.invalidate();
    }

    /// Add a power-rail source holding `volts`; not-a-number is sourced at an
    /// unmodelled voltage.
    pub fn add_power_source(&mut self, net: usize, volts: Volts) -> (id: TerminalId)
        requires
            old(self).well_formed(),
        ensures
            final(self).declared(old(self)),
            id == TerminalId::Power(old(self).board()@.power_sources.len() as usize),
            final(self).board().declares(id),
            final(self).board()@ == (BoardView {
                power_sources: old(self).board()@.power_sources.push(
                    TerminalSource { net, drive: held_volts(volts) },
                ),
                ..old(self).board()@
            }),
    {
        let id = TerminalId::Power(self.board.power_sources.len());
        self.board.power_sources.push(
            TerminalSource { net, drive: TerminalDrive::from_volts(volts) },
        );
        assert(clock_at(self.board) =~= clock_at(old(self).board));
        self.invalidate();
        id
    }

    /// Add a stuck-net fault source.
    pub fn add_stuck_source(&mut self, net: usize, volts: Volts) -> (id: TerminalId)
        requires
            old(self).well_formed(),
        ensures
            final(self).declared(old(self)),
            id == TerminalId::Stuck(old(self).board()@.stuck_sources.len() as usize),
            final(self).board().declares(id),
            final(self).board()@ == (BoardView {
                stuck_sources: old(self).board()@.stuck_sources.push(
                    TerminalSource { net, drive: held_volts(volts) },
                ),
                ..old(self).board()@
            }),
    {
        let id = TerminalId::Stuck(self.board.stuck_sources.len());
        self.board.stuck_sources.push(
            TerminalSource { net, drive: TerminalDrive::from_volts(volts) },
        );
        assert(clock_at(self.board) =~= clock_at(old(self).board));
        self.invalidate();
        id
    }

    /// Put a slot behind the others.
    fn push_slot(&mut self, slot: DriveSlot) -> (endpoint: EndpointId)
        requires
            old(self).well_formed(),
            normalised(slot.drive) == slot.drive,
            slot.terminal matches Some(id) ==> old(self).board().declares(id) && old(self).board().terminal_net(id) == slot.net,
        ensures
            final(self).declared(old(self)),
            endpoint.0 == old(self).board()@.slots.len(),
            final(self).board()@ == (BoardView {
                slots: old(self).board()@.slots.push(slot),
                ..old(self).board()@
            }),
    {
        let index: usize = self.board.slots.len();
        let clock = slot.terminal.is_none() && holds_periodic(&slot.drive);
        self.board.slots.push(slot);
        proof {
            let before = clock_at(old(self).board);
            let after = clock_at(self.board);
            assert forall|i: int| 0 <= i < index implies #[trigger] before(i) == after(i) by {
                assert(self.board.slots@[i] == old(self).board.slots@[i]);
            }
            crate::seqs::select_congruent(index as nat, before, after);
            assert(clock == after(index as int));
        }
        if clock {
            self.periodic_slots.push(index);
        }
        proof {
            assert forall|s: int| 0 <= s < self.board().slots@.len() implies ({
                let slot = #[trigger] self.board().slots@[s];
                &&& normalised(slot.drive) == slot.drive
                &&& slot.terminal matches Some(id) ==> self.board().declares(id)
                    && self.board().terminal_net(id) == slot.net
            }) by {
                if s < index {
                    assert(self.board.slots@[s] == old(self).board().slots@[s]);
                }
            }
        }
        self.invalidate();
        EndpointId(index)
    }

    /// Register a drive-capable endpoint with its initial contribution.
    pub fn add_endpoint(
        &mut self,
        net: usize,
        pin: PinRef,
        initial: Option<TheveninDrive>,
    ) -> (endpoint: EndpointId)
        requires
            old(self).well_formed(),
        ensures
            final(self).declared(old(self)),
            endpoint.0 == old(self).board()@.slots.len(),
            final(self).board()@ == (BoardView {
                slots: old(self).board()@.slots.push(
                    DriveSlot {
                        net,
                        pin,
                        drive: normalised(
                            match initial {
                                Some(t) => Some(Drive::Thevenin(t)),
                                None => None,
                            },
                        ),
                        terminal: None,
                        port: false,
                    },
                ),
                ..old(self).board()@
            }),
    {
        let drive = match initial {
            Some(t) => Some(Drive::Thevenin(t)),
            None => None,
        };
        self.add_endpoint_with(net, pin, drive)
    }

    /// Register a drive-capable endpoint with any initial drive.
    pub fn add_endpoint_with(
        &mut self,
        net: usize,
        pin: PinRef,
        initial: Option<Drive>,
    ) -> (endpoint: EndpointId)
        requires
            old(self).well_formed(),
        ensures
            final(self).declared(old(self)),
            endpoint.0 == old(self).board()@.slots.len(),
            final(self).board()@ == (BoardView {
                slots: old(self).board()@.slots.push(
                    DriveSlot {
                        net,
                        pin,
                        drive: normalised(initial),
                        terminal: None,
                        port: false,
                    },
                ),
                ..old(self).board()@
            }),
    {
        let drive = normalise_drive(initial);
        self.push_slot(DriveSlot { net, pin, drive, terminal: None, port: false })
    }

    /// Stamp a pin's declared input port: a permanent source no component
    /// holds.
    pub fn add_port(&mut self, net: usize, pin: PinRef, port: TheveninDrive)
        requires
            old(self).well_formed(),
        ensures
            final(self).declared(old(self)),
            final(self).board()@ == (BoardView {
                slots: old(self).board()@.slots.push(
                    DriveSlot {
                        net,
                        pin,
                        drive: normalised(Some(Drive::Thevenin(port))),
                        terminal: None,
                        port: true,
                    },
                ),
                ..old(self).board()@
            }),
    {
        let drive = normalise_drive(Some(Drive::Thevenin(port)));
        self.push_slot(DriveSlot { net, pin, drive, terminal: None, port: true });
    }

    /// Register a power-output pin: its net is a declared terminal, held at
    /// `idle` until the part publishes through the returned slot.
    pub fn add_terminal_endpoint(
        &mut self,
        net: usize,
        pin: PinRef,
        idle: Option<Drive>,
    ) -> (endpoint: EndpointId)
        requires
            old(self).well_formed(),
        ensures
            final(self).declared(old(self)),
            endpoint.0 == old(self).board()@.slots.len(),
            final(self).board()@ == (BoardView {
                slots: old(self).board()@.slots.push(
                    DriveSlot {
                        net,
                        pin,
                        drive: normalised(idle),
                        terminal: Some(
                            TerminalId::Power(old(self).board()@.power_sources.len() as usize),
                        ),
                        port: false,
                    },
                ),
                power_sources: old(self).board()@.power_sources.push(
                    TerminalSource { net, drive: held_by_slot(normalised(idle)) },
                ),
                ..old(self).board()@
            }),
    {
        let id = TerminalId::Power(self.board.power_sources.len());
        let drive = normalise_drive(idle);
        self.board.power_sources.push(
            TerminalSource { net, drive: TerminalDrive::from_slot(drive) },
        );
        assert(clock_at(self.board) =~= clock_at(old(self).board));
        self.invalidate();
        self.push_slot(DriveSlot { net, pin, drive, terminal: Some(id), port: false })
    }

    /// The pins whose slots drive the root `root` right now: a Thevenin or
    /// periodic drive on a slot that is no terminal's and no input port.
    pub open spec fn drives_root(&self, root_of: Seq<usize>, root: usize, s: int) -> bool {
        let slot = self.board()@.slots[s];
        &&& slot.terminal is None
        &&& !slot.port
        &&& slot.drive is Some && !(slot.drive->0 is Current)
        &&& slot.net < root_of.len() && root_of[slot.net as int] == root
    }

    /// The pins of the first `k` slots that drive a root.
    pub open spec fn pins_driving(&self, root_of: Seq<usize>, root: usize, k: nat) -> Seq<
        PinRefView,
    >
        decreases k,
    {
        if k == 0 {
            Seq::empty()
        } else {
            let rest = self.pins_driving(root_of, root, (k - 1) as nat);
            if self.drives_root(root_of, root, k - 1) {
                rest.push(self.board()@.slots[k - 1].pin@)
            } else {
                rest
            }
        }
    }

    /// The pins whose slots drive the root `root` right now.
    pub fn driving_pins(&self, root_of: &Vec<usize>, root: usize) -> (r: Vec<PinRef>)
        ensures
            pins_view(r@) == self.pins_driving(root_of@, root, self.board()@.slots.len()),
    {
        let mut r: Vec<PinRef> = Vec::new();
        let mut s: usize = 0;
        assert(pins_view(r@) =~= Seq::<PinRefView>::empty());
        while s < self.board.slots.len()
            invariant
                s <= self.board.slots@.len(),
                pins_view(r@) == self.pins_driving(root_of@, root, s as nat),
            decreases self.board.slots@.len() - s,
        {
            let slot = &self.board.slots[s];
            let drives = match slot.drive {
                Some(Drive::Thevenin(_)) => true,
                Some(Drive::Periodic { .. }) => true,
                _ => false,
            };
            let ghost before = pins_view(r@);
            if slot.terminal.is_none() && !slot.port && drives && slot.net < root_of.len()
                && root_of[slot.net] == root {
                let pin = slot.pin.clone();
                let ghost view = pin@;
                r.push(pin);
                assert(pins_view(r@) =~= before.push(view));
            }
            s += 1;
        }
        r
    }

    /// The identity root of the first `net_count` nets: two nets are one node
    /// exactly if their roots are equal.
    pub fn identity_roots(&mut self, net_count: usize) -> (roots: Vec<usize>)
        requires
            old(self).well_formed(),
            net_count <= old(self).identity().len(),
        ensures
            roots@ == old(self).identity().take(net_count as int),
            final(self).well_formed(),
            final(self).identity() == old(self).identity(),
            final(self).board() == old(self).board(),
            final(self).net_count() == old(self).net_count(),
            final(self).held_states() == old(self).held_states(),
            forall|cid: int| #[trigger] final(self).awaits(cid) == old(self).awaits(cid),
            forall|n: nat| #[trigger] final(self).settled_for(n) == old(self).settled_for(n),
    {
        let mut roots: Vec<usize> = Vec::new();
        let ghost identity = self.identity@;
        let mut i: usize = 0;
        while i < net_count
            invariant
                i <= net_count,
                net_count <= identity.len(),
                self.identity.well_formed(),
                self.identity@ == identity,
                self.net_count == old(self).net_count,
                self.board == old(self).board,
                self.topology == old(self).topology,
                self.terminal_states == old(self).terminal_states,
                self.terminals_resolved == old(self).terminals_resolved,
                self.dirty == old(self).dirty,
                self.periodic_slots == old(self).periodic_slots,
                self.coupled_cache == old(self).coupled_cache,
                self.reach_clusters == old(self).reach_clusters,
                self.endpoint_currents == old(self).endpoint_currents,
                self.element_currents == old(self).element_currents,
                roots@ =~= identity.take(i as int),
            decreases net_count - i,
        {
            let root: usize = self.identity.find(i);
            roots.push(root);
            i += 1;
        }
        roots
    }
}

impl Resolver {
    /// Everything but the cached structure, what was decided over it and the
    /// dirty list is as it was.
    pub open spec fn same_inputs(&self, before: &Resolver) -> bool {
        &&& self.board() == before.board()
        &&& self.net_count() == before.net_count()
        &&& self.currents_moved() == before.currents_moved()
        &&& self.solves_counted() == before.solves_counted()
        &&& forall|e: int| #[trigger] self.endpoint_current(e) == before.endpoint_current(e)
        &&& forall|e: int| #[trigger] self.element_current(e) == before.element_current(e)
        &&& forall|n: nat| #[trigger] self.roots(n) == before.roots(n)
    }

    /// Whether the cached structure describes the board over `n` nets.
    fn topology_is_current(&self, n: usize) -> (r: bool)
        ensures
            r == (self.topology matches Some(t) && t.root_of@.len() == n),
    {
        match &self.topology {
            Some(t) => t.root_of.len() == n,
            None => false,
        }
    }

    /// Rebuild the cached structure if it does not describe the board over
    /// `n` nets. A rebuilt one has no terminal decided yet.
    fn ensure_topology(&mut self, n: usize)
        requires
            old(self).well_formed(),
            old(self).fits(n as nat),
        ensures
            final(self).well_formed(),
            final(self).same_inputs(old(self)),
            final(self).board == old(self).board,
            final(self).topology matches Some(t) && t.root_of@.len() == n,
            (old(self).topology matches Some(t) && t.root_of@.len() == n) ==> *final(self) == *old(self),
            !(old(self).topology matches Some(t) && t.root_of@.len() == n) ==> !final(self).terminals_resolved && final(self).dirty@.len() == 0,
    {
        if self.topology_is_current(n) {
            return ;
        }
        let ghost before = self.identity@;
        let target: usize = if self.net_count > n {
            self.net_count
        } else {
            n
        };
        self.identity.grow(target);
        let mut root_of: Vec<usize> = Vec::new();
        let mut i: usize = 0;
        let ghost identity = self.identity@;
        while i < n
            invariant
                i <= n,
                n <= identity.len(),
                self.identity.well_formed(),
                self.identity@ == identity,
                self.net_count == old(self).net_count,
                self.board == old(self).board,
                self.periodic_slots == old(self).periodic_slots,
                self.coupled_cache == old(self).coupled_cache,
                self.endpoint_currents == old(self).endpoint_currents,
                self.element_currents == old(self).element_currents,
                self.currents_changed == old(self).currents_changed,
                self.escalated_solves == old(self).escalated_solves,
                root_of@ =~= identity.take(i as int),
            decreases n - i,
        {
            let root: usize = self.identity.find(i);
            root_of.push(root);
            i += 1;
        }
        assert(root_of@ =~= old(self).roots(n as nat)) by {
            grown_twice(before, identity, n as nat);
            assert(root_of@ =~= grown(identity, n as nat));
        }
        let topology = build_topology(&self.board, root_of);
        self.terminal_states = Vec::new();
        self.terminals_resolved = false;
        self.dirty = Vec::new();
        self.coupled_cache = Vec::new();
        self.reach_clusters = None;
        assert(topology.root_of@ == topology@.root_of);
        assert(topology@.root_of =~= grown(identity, n as nat));
        self.topology = Some(topology);
        assert forall|m: nat| #[trigger] self.roots(m) == old(self).roots(m) by {
            grown_twice(before, identity, m);
        }
    }

    /// The census of the board's conduction clusters: the roots each holds,
    /// clusters in ascending cluster-root order, roots ascending within.
    pub fn cluster_roots(&mut self, net_count: usize) -> (census: Vec<Vec<NetId>>)
        requires
            old(self).well_formed(),
            old(self).fits(net_count as nat),
        ensures
            final(self).well_formed(),
            final(self).same_inputs(old(self)),
            census@.len() == old(self).structure(net_count as nat).clusters.len(),
            forall|cid: int|
                0 <= cid < census@.len() ==> (#[trigger] census@[cid])@ == Seq::new(
                    old(self).structure(net_count as nat).clusters[cid].roots.len(),
                    |k: int| NetId(old(self).structure(net_count as nat).clusters[cid].roots[k]),
                ),
    {
        self.ensure_topology(net_count);
        let ghost structure = old(self).structure(net_count as nat);
        let mut census: Vec<Vec<NetId>> = Vec::new();
        if let Some(topology) = &self.topology {
            assert(old(self).roots(net_count as nat) == self.roots(net_count as nat));
            assert(topology@ == structure);
            let mut cid: usize = 0;
            while cid < topology.clusters.len()
                invariant
                    cid <= topology.clusters@.len(),
                    topology@ == structure,
                    census@.len() == cid,
                    forall|x: int|
                        0 <= x < cid ==> (#[trigger] census@[x])@ == Seq::new(
                            structure.clusters[x].roots.len(),
                            |k: int| NetId(structure.clusters[x].roots[k]),
                        ),
                decreases topology.clusters@.len() - cid,
            {
                let c = &topology.clusters[cid];
                assert(structure.clusters[cid as int] == c@);
                let mut roots: Vec<NetId> = Vec::new();
                let mut k: usize = 0;
                while k < c.roots.len()
                    invariant
                        k <= c.roots@.len(),
                        roots@ =~= Seq::new(k as nat, |j: int| NetId(c.roots@[j])),
                    decreases c.roots@.len() - k,
                {
                    roots.push(NetId(c.roots[k]));
                    k += 1;
                }
                census.push(roots);
                cid += 1;
            }
        }
        census
    }

    /// The roots a resistive path reaches from `root`, itself first: the
    /// roots of its cluster and the terminals on its boundary at a finite
    /// series resistance.
    pub open spec fn reached_from(&self, n: nat, root: usize) -> Seq<usize> {
        let topology = self.structure(n);
        let c = topology.clusters[topology.index[root as int] as int];
        if c.roots.contains(root) {
            let row = c.dist[position_in(c.roots, root)];
            seq![root] + finite_members(c.roots, row, root, c.roots.len()) + finite_terminals(
                topology.terminal_roots,
                c.boundary,
                row,
                c.roots.len(),
                c.boundary.len(),
            )
        } else {
            seq![root]
        }
    }

    /// The roots a resistive path reaches from `root`.
    pub fn reached_roots(&mut self, net_count: usize, root: usize) -> (reached: Vec<usize>)
        requires
            old(self).well_formed(),
            old(self).fits(net_count as nat),
            root < net_count,
        ensures
            final(self).well_formed(),
            final(self).same_inputs(old(self)),
            reached@ == old(self).reached_from(net_count as nat, root),
    {
        self.ensure_topology(net_count);
        let ghost structure = old(self).structure(net_count as nat);
        let mut reached: Vec<usize> = Vec::new();
        reached.push(root);
        if let Some(topology) = &self.topology {
            assert(old(self).roots(net_count as nat) == self.roots(net_count as nat));
            assert(topology@ == structure);
            proof {
                layout_is_sound(self.board.shape(), topology.root_of@);
                assert(topology@.index[root as int] < topology@.clusters.len());
            }
            let cid: usize = topology.cluster_index[root];
            let c = &topology.clusters[cid];
            assert(structure.clusters[cid as int] == c@);
            proof {
                described_cluster(structure, self.board, cid as int);
                crate::seqs::select_properties(
                    structure.root_of.len(),
                    crate::topology::member_root(
                        layout_of(self.board.shape(), structure.root_of),
                        cid as int,
                    ),
                );
                assert(topology.terminal_roots.len() <= usize::MAX);
                crate::seqs::select_properties(
                    structure.terminal_roots.len(),
                    crate::topology::boundary_terminal(
                        self.board.shape(),
                        layout_of(self.board.shape(), structure.root_of),
                        cid as int,
                    ),
                );
            }
            match position_of(&c.roots, root) {
                None => {
                    assert(reached@ =~= seq![root]);
                },
                Some(pr) => {
                    proof {
                        let at = position_in(c.roots@, root);
                        assert(c.roots@[at] == root);
                        if at < pr {
                            assert(c.roots@[at] < c.roots@[pr as int]);
                        } else if pr < at {
                            assert(c.roots@[pr as int] < c.roots@[at]);
                        }
                    }
                    assert(c@.dist.len() == c@.roots.len());
                    assert(c.dist@.len() == c@.dist.len());
                    let row = &c.dist[pr];
                    assert(row@ == c@.dist[pr as int]);
                    let k: usize = c.roots.len();
                    let mut j: usize = 0;
                    assert(reached@ =~= seq![root] + finite_members(c.roots@, row@, root, 0));
                    while j < k
                        invariant
                            j <= k,
                            k == c.roots@.len(),
                            row@.len() == k + c.boundary@.len(),
                            reached@ == seq![root] + finite_members(
                                c.roots@,
                                row@,
                                root,
                                j as nat,
                            ),
                        decreases k - j,
                    {
                        if c.roots[j] != root && row[j].is_finite() {
                            reached.push(c.roots[j]);
                        }
                        assert(reached@ =~= seq![root] + finite_members(
                            c.roots@,
                            row@,
                            root,
                            (j + 1) as nat,
                        ));
                        j += 1;
                    }
                    let ghost members = reached@;
                    let mut b: usize = 0;
                    while b < c.boundary.len()
                        invariant
                            b <= c.boundary@.len(),
                            k == c.roots@.len(),
                            row@.len() == k + c.boundary@.len(),
                            forall|i: int|
                                0 <= i < c.boundary@.len() ==> (#[trigger] c.boundary@[i])
                                    < topology.terminal_roots@.len(),
                            reached@ =~= members + finite_terminals(
                                topology.terminal_roots@,
                                c.boundary@,
                                row@,
                                k as nat,
                                b as nat,
                            ),
                        decreases c.boundary@.len() - b,
                    {
                        assert(row.len() == row@.len());
                        if row[k + b].is_finite() {
                            reached.push(topology.terminal_roots[c.boundary[b]]);
                        }
                        b += 1;
                    }
                },
            }
        }
        reached
    }
}

/// The roots among the first `k` at a finite resistance, `root` left out.
pub open spec fn finite_members(roots: Seq<usize>, row: Seq<Ohms>, root: usize, k: nat) -> Seq<
    usize,
>
    decreases k,
{
    if k == 0 {
        Seq::empty()
    } else {
        let rest = finite_members(roots, row, root, (k - 1) as nat);
        if roots[k - 1] != root && row[k - 1].finite() {
            rest.push(roots[k - 1])
        } else {
            rest
        }
    }
}

/// The roots of the first `k` boundary terminals at a finite resistance.
pub open spec fn finite_terminals(
    terminal_roots: Seq<usize>,
    boundary: Seq<usize>,
    row: Seq<Ohms>,
    members: nat,
    k: nat,
) -> Seq<usize>
    decreases k,
{
    if k == 0 {
        Seq::empty()
    } else {
        let rest = finite_terminals(terminal_roots, boundary, row, members, (k - 1) as nat);
        if row[members + k - 1].finite() {
            rest.push(terminal_roots[boundary[k - 1] as int])
        } else {
            rest
        }
    }
}

proof fn no_clock_no_arrivals(board: Board, topology: TopologyView, cid: int, lo: nat, hi: nat)
    requires
        lo <= hi,
        forall|s: int| lo <= s < hi ==> !#[trigger] is_clock(board, s),
    ensures
        arrivals_from(board, topology, cid, hi) == arrivals_from(board, topology, cid, lo),
    decreases hi - lo,
{
    if lo < hi {
        assert(!is_clock(board, hi - 1));
        no_clock_no_arrivals(board, topology, cid, lo, (hi - 1) as nat);
    }
}

proof fn along_elsewhere(
    index: Seq<usize>,
    slot: usize,
    drive: Drive,
    reach: Seq<CoupledRootView>,
    cid: int,
    k: nat,
)
    requires
        k <= reach.len(),
        forall|i: int| 0 <= i < reach.len() ==> index[(#[trigger] reach[i]).root as int] != cid,
    ensures
        arrivals_along(index, slot, drive, reach, cid, k).len() == 0,
    decreases k,
{
    if k > 0 {
        assert(index[reach[k - 1].root as int] != cid);
        along_elsewhere(index, slot, drive, reach, cid, (k - 1) as nat);
    }
}

/// A cluster no clock reaches has no arrivals.
proof fn unreached_has_no_arrivals(board: Board, topology: TopologyView, cid: int, k: nat)
    requires
        k <= board.slots@.len(),
        forall|s: int|
            0 <= s < board.slots@.len() && #[trigger] is_clock(board, s) ==> !clock_reaches(
                board,
                topology,
                s,
                cid,
            ),
    ensures
        arrivals_from(board, topology, cid, k).len() == 0,
    decreases k,
{
    if k > 0 {
        unreached_has_no_arrivals(board, topology, cid, (k - 1) as nat);
        if is_clock(board, k - 1) {
            let reach = slot_reach(board, topology, k - 1);
            assert forall|i: int| 0 <= i < reach.len() implies topology.index[(
            #[trigger] reach[i]).root as int] != cid by {
                if topology.index[reach[i].root as int] == cid {
                    assert(clock_reaches(board, topology, k - 1, cid));
                }
            }
            along_elsewhere(
                topology.index,
                (k - 1) as usize,
                board.slots@[k - 1].drive->0,
                reach,
                cid,
                reach.len(),
            );
        }
    }
}

impl Resolver {
    /// The tables and caches describe the board over a structure in hand.
    spec fn carries(&self, topology: Topology) -> bool {
        &&& self.tables_sound()
        &&& self.linked(topology)
    }

    /// Everything but the caches of the clocks' reach is as it was.
    spec fn same_but_reach(&self, before: &Resolver) -> bool {
        &&& self.identity == before.identity
        &&& self.net_count == before.net_count
        &&& self.board == before.board
        &&& self.topology == before.topology
        &&& self.terminal_states == before.terminal_states
        &&& self.terminals_resolved == before.terminals_resolved
        &&& self.dirty == before.dirty
        &&& self.periodic_slots == before.periodic_slots
        &&& self.endpoint_currents == before.endpoint_currents
        &&& self.element_currents == before.element_currents
        &&& self.currents_changed == before.currents_changed
        &&& self.escalated_solves == before.escalated_solves
    }

    /// Walk a slot's reach unless it is cached.
    fn ensure_reach(&mut self, topology: &Topology, slot: usize)
        requires
            old(self).carries(*topology),
            slot < old(self).board.slots@.len(),
        ensures
            final(self).carries(*topology),
            final(self).same_but_reach(old(self)),
            final(self).reach_clusters == old(self).reach_clusters,
            slot < final(self).coupled_cache@.len(),
            final(self).coupled_cache@[slot as int] is Some,
            final(self).coupled_cache@.len() >= old(self).coupled_cache@.len(),
            forall|s: int|
                0 <= s < old(self).coupled_cache@.len() && (#[trigger] old(self).coupled_cache@[s])
                    is Some ==> final(self).coupled_cache@[s] is Some,
    {
        while self.coupled_cache.len() <= slot
            invariant
                slot < self.board.slots@.len(),
                self.carries(*topology),
                self.same_but_reach(old(self)),
                self.reach_clusters == old(self).reach_clusters,
                self.coupled_cache@.len() >= old(self).coupled_cache@.len(),
                self.coupled_cache@.len() == old(self).coupled_cache@.len() || self.coupled_cache@.len() <= slot + 1,
                forall|s: int|
                    0 <= s < old(self).coupled_cache@.len() ==> #[trigger] self.coupled_cache@[s]
                        == old(self).coupled_cache@[s],
            decreases slot + 1 - self.coupled_cache.len(),
        {
            self.coupled_cache.push(None);
        }
        if self.coupled_cache[slot].is_none() {
            let reach = walk_reach(&self.board, topology, slot);
            self.coupled_cache.set(slot, Some(reach));
        }
    }

    /// Walk every clock's reach and note the clusters they touch.
    fn refresh_reach(&mut self, topology: &Topology)
        requires
            old(self).carries(*topology),
        ensures
            final(self).carries(*topology),
            final(self).same_but_reach(old(self)),
            final(self).reach_clusters is Some,
    {
        if self.reach_clusters.is_some() {
            return ;
        }
        let ghost topo = topology@;
        let mut clusters: Vec<usize> = Vec::new();
        let mut at: usize = 0;
        proof {
            assert(self.board.slots.len() <= usize::MAX);
            select_properties(self.board.slots@.len(), clock_at(self.board));
        }
        while at < self.periodic_slots.len()
            invariant
                at <= self.periodic_slots@.len(),
                self.carries(*topology),
                self.same_but_reach(old(self)),
                self.reach_clusters is None,
                topo == topology@,
                forall|i: int|
                    0 <= i < self.periodic_slots@.len() ==> (#[trigger] self.periodic_slots@[i])
                        < self.board.slots@.len() && is_clock(
                        self.board,
                        self.periodic_slots@[i] as int,
                    ),
                forall|i: int|
                    0 <= i < at ==> (#[trigger] self.periodic_slots@[i])
                        < self.coupled_cache@.len()
                        && self.coupled_cache@[self.periodic_slots@[i] as int] is Some,
                ascending(clusters@),
                forall|cid: usize|
                    #[trigger] clusters@.contains(cid) <==> exists|i: int|
                        0 <= i < at && clock_reaches(
                            self.board,
                            topo,
                            (#[trigger] self.periodic_slots@[i]) as int,
                            cid as int,
                        ),
            decreases self.periodic_slots@.len() - at,
        {
            let slot: usize = self.periodic_slots[at];
            self.ensure_reach(topology, slot);
            proof {
                assert(self.board.couplings.len() <= usize::MAX);
                slot_reach_valid(topo, self.board, slot as int);
                layout_is_sound(self.board.shape(), topo.root_of);
            }
            let ghost before = clusters@;
            let ghost walked = slot_reach(self.board, topo, slot as int);
            if let Some(reach) = &self.coupled_cache[slot] {
                assert(coupled_view(reach@) == walked);
                let mut k: usize = 0;
                while k < reach.len()
                    invariant
                        k <= reach@.len(),
                        coupled_view(reach@) == walked,
                        topo == topology@,
                        topo.index.len() == topo.root_of.len(),
                        forall|i: int|
                            0 <= i < walked.len() ==> (#[trigger] walked[i]).root
                                < topo.root_of.len(),
                        ascending(clusters@),
                        forall|cid: usize|
                            #[trigger] clusters@.contains(cid) <==> before.contains(cid)
                                || exists|i: int|
                                0 <= i < k && topo.index[(#[trigger] walked[i]).root as int] == cid,
                    decreases reach@.len() - k,
                {
                    assert(walked[k as int] == reach@[k as int]@);
                    let ghost mid = clusters@;
                    let cid: usize = topology.cluster_index[reach[k].root];
                    insert_ascending(&mut clusters, cid);
                    assert forall|x: usize| #[trigger] clusters@.contains(x) <==> before.contains(x)
                        || exists|i: int|
                        0 <= i < k + 1 && topo.index[(#[trigger] walked[i]).root as int] == x by {
                        assert(mid.contains(x) <==> before.contains(x) || exists|i: int|
                            0 <= i < k && topo.index[(#[trigger] walked[i]).root as int] == x);
                        if x == cid {
                            assert(topo.index[walked[k as int].root as int] == x);
                        }
                    }
                    k += 1;
                }
            }
            proof {
                assert forall|cid: usize| #[trigger] clusters@.contains(cid) <==> exists|i: int|
                    0 <= i < at + 1 && clock_reaches(
                        self.board,
                        topo,
                        (#[trigger] self.periodic_slots@[i]) as int,
                        cid as int,
                    ) by {
                    assert(before.contains(cid) <==> exists|i: int|
                        0 <= i < at && clock_reaches(
                            self.board,
                            topo,
                            (#[trigger] self.periodic_slots@[i]) as int,
                            cid as int,
                        ));
                    assert(clock_reaches(self.board, topo, slot as int, cid as int)
                        <==> exists|i: int|
                        0 <= i < walked.len() && topo.index[(#[trigger] walked[i]).root as int]
                            == cid);
                    if clock_reaches(self.board, topo, slot as int, cid as int) {
                        assert(self.periodic_slots@[at as int] == slot);
                    }
                }
            }
            at += 1;
        }
        proof {
            assert forall|cid: usize| #[trigger] clusters@.contains(cid) <==> exists|s: int|
                0 <= s < self.board.slots@.len() && #[trigger] is_clock(self.board, s)
                    && clock_reaches(self.board, topo, s, cid as int) by {
                if clusters@.contains(cid) {
                    let i = choose|i: int|
                        0 <= i < at && clock_reaches(
                            self.board,
                            topo,
                            (#[trigger] self.periodic_slots@[i]) as int,
                            cid as int,
                        );
                    assert(is_clock(self.board, self.periodic_slots@[i] as int));
                }
                if exists|s: int|
                    0 <= s < self.board.slots@.len() && #[trigger] is_clock(self.board, s)
                        && clock_reaches(self.board, topo, s, cid as int) {
                    let s = choose|s: int|
                        0 <= s < self.board.slots@.len() && #[trigger] is_clock(self.board, s)
                            && clock_reaches(self.board, topo, s, cid as int);
                    assert(clock_at(self.board)(s));
                    assert(self.periodic_slots@.contains(s as usize));
                    let i = choose|i: int|
                        0 <= i < self.periodic_slots@.len() && self.periodic_slots@[i]
                            == s as usize;
                    assert(self.periodic_slots@[i] as int == s);
                }
            }
            assert forall|s: int|
                0 <= s < self.board.slots@.len() && #[trigger] is_clock(self.board, s) implies s
                < self.coupled_cache@.len() && self.coupled_cache@[s] is Some by {
                assert(clock_at(self.board)(s));
                assert(self.periodic_slots@.contains(s as usize));
                let i = choose|i: int|
                    0 <= i < self.periodic_slots@.len() && self.periodic_slots@[i] == s as usize;
                assert(self.periodic_slots@[i] as int == s);
            }
        }
        self.reach_clusters = Some(clusters);
    }

    /// The rates arriving at a cluster across coupling capacitors, in slot
    /// order.
    fn arrivals(&self, topology: &Topology, cid: usize) -> (arrivals: Vec<Arrival>)
        requires
            self.carries(*topology),
            self.reach_clusters is Some,
            cid < topology.clusters@.len(),
        ensures
            arrivals_view(arrivals@) == cluster_arrivals(self.board, topology@, cid as int),
    {
        let ghost topo = topology@;
        let mut arrivals: Vec<Arrival> = Vec::new();
        assert(arrivals_view(arrivals@) =~= Seq::<ArrivalView>::empty());
        let wanted = match &self.reach_clusters {
            Some(list) => listed(list, cid),
            None => true,
        };
        if !wanted {
            proof {
                assert forall|s: int|
                    0 <= s < self.board.slots@.len() && #[trigger] is_clock(
                        self.board,
                        s,
                    ) implies !clock_reaches(self.board, topo, s, cid as int) by {}
                unreached_has_no_arrivals(
                    self.board,
                    topo,
                    cid as int,
                    self.board.slots@.len(),
                );
                assert(cluster_arrivals(self.board, topo, cid as int) =~= Seq::<
                    ArrivalView,
                >::empty());
            }
            return arrivals;
        }
        proof {
            assert(self.board.slots.len() <= usize::MAX);
            assert(self.board.couplings.len() <= usize::MAX);
            select_properties(self.board.slots@.len(), clock_at(self.board));
            layout_is_sound(self.board.shape(), topo.root_of);
        }
        let mut at: usize = 0;
        let ghost mut done: nat = 0;
        while at < self.periodic_slots.len()
            invariant
                at <= self.periodic_slots@.len(),
                self.carries(*topology),
                self.reach_clusters is Some,
                topo == topology@,
                topo.index.len() == topo.root_of.len(),
                self.board.couplings@.len() <= usize::MAX,
                self.board.slots@.len() <= usize::MAX,
                ascending(self.periodic_slots@),
                forall|x: usize|
                    #[trigger] self.periodic_slots@.contains(x) <==> x < self.board.slots@.len()
                        && clock_at(self.board)(x as int),
                done == (if at == 0 {
                    0nat
                } else {
                    (self.periodic_slots@[at - 1] + 1) as nat
                }),
                done <= self.board.slots@.len(),
                arrivals_view(arrivals@) == arrivals_from(self.board, topo, cid as int, done),
            decreases self.periodic_slots@.len() - at,
        {
            let slot: usize = self.periodic_slots[at];
            assert(self.periodic_slots@.contains(slot));
            assert(clock_at(self.board)(slot as int));
            assert(is_clock(self.board, slot as int));
            proof {
                assert forall|s: int| done <= s < slot implies !#[trigger] is_clock(
                    self.board,
                    s,
                ) by {
                    if is_clock(self.board, s) {
                        assert(clock_at(self.board)(s));
                        assert(self.periodic_slots@.contains(s as usize));
                        let i = choose|i: int|
                            0 <= i < self.periodic_slots@.len() && self.periodic_slots@[i]
                                == s as usize;
                        if i < at {
                            if i < at - 1 {
                                assert(self.periodic_slots@[i] < self.periodic_slots@[at - 1]);
                            }
                        } else if i > at {
                            assert(self.periodic_slots@[at as int] < self.periodic_slots@[i]);
                        }
                    }
                }
                no_clock_no_arrivals(self.board, topo, cid as int, done, slot as nat);
                slot_reach_valid(topo, self.board, slot as int);
            }
            if let Some(drive) = self.board.slots[slot].drive {
                if let Some(reach) = &self.coupled_cache[slot] {
                    assert(coupled_view(reach@) == slot_reach(self.board, topo, slot as int));
                    assert forall|i: int| 0 <= i < reach@.len() implies (#[trigger] reach@[i]).root
                        < topo.index.len() by {
                        assert(coupled_view(reach@)[i] == reach@[i]@);
                    }
                    note_arrivals(
                        &topology.cluster_index,
                        slot,
                        drive,
                        reach,
                        cid,
                        &mut arrivals,
                    );
                }
            }
            proof {
                done = (slot + 1) as nat;
            }
            at += 1;
        }
        proof {
            assert forall|s: int| done <= s < self.board.slots@.len() implies !#[trigger] is_clock(
                self.board,
                s,
            ) by {
                if is_clock(self.board, s) {
                    assert(clock_at(self.board)(s));
                    assert(self.periodic_slots@.contains(s as usize));
                    let i = choose|i: int|
                        0 <= i < self.periodic_slots@.len() && self.periodic_slots@[i]
                            == s as usize;
                    if i < at - 1 {
                        assert(self.periodic_slots@[i] < self.periodic_slots@[at - 1]);
                    }
                }
            }
            no_clock_no_arrivals(self.board, topo, cid as int, done, self.board.slots@.len());
        }
        arrivals
    }

    /// Decide what one terminal holds its root at; also says whether a fight
    /// was solved.
    fn resolve_terminal<S: ClusterSolver>(
        &self,
        topology: &Topology,
        p: usize,
        solver: &S,
    ) -> (r: (TerminalState, bool))
        requires
            self.carries(*topology),
            p < topology.terminals@.len(),
        ensures
            r.0 == states_now(solver, self.board, topology@)[p as int],
            r.1 == terminal_fights(self.board, topology@, p as int),
    {
        let terminal = &topology.terminals[p];
        assert(topology@.terminals[p as int] == terminal@);
        let mut drives: Vec<TerminalDrive> = Vec::new();
        let mut i: usize = 0;
        proof {
            assert(self.board.power_sources.len() <= usize::MAX);
            assert(self.board.stuck_sources.len() <= usize::MAX);
            sources_declared(self.board, topology@, p as int);
            assert(terminal.sources@ == topology@.terminals[p as int].sources);
            assert forall|j: int| 0 <= j < terminal.sources@.len() implies self.board.declares(
                #[trigger] terminal.sources@[j],
            ) by {
                assert(self.board.declares(topology@.terminals[p as int].sources[j]));
            }
        }
        while i < terminal.sources.len()
            invariant
                i <= terminal.sources@.len(),
                forall|j: int|
                    0 <= j < terminal.sources@.len() ==> self.board.declares(
                        #[trigger] terminal.sources@[j],
                    ),
                drives@ =~= sources_hold(self.board, terminal.sources@).take(i as int),
            decreases terminal.sources@.len() - i,
        {
            drives.push(self.board.terminal_source(terminal.sources[i]).drive);
            i += 1;
        }
        assert(drives@ =~= sources_hold(self.board, terminal.sources@));
        decide_terminal(solver, terminal.root, &drives)
    }
}

/// Every source a terminal lists is declared, on a net of its root.
proof fn sources_declared(board: Board, topology: TopologyView, p: int)
    requires
        describes(topology, board),
        0 <= p < topology.terminals.len(),
        board.power_sources@.len() <= usize::MAX,
        board.stuck_sources@.len() <= usize::MAX,
    ensures
        forall|j: int|
            0 <= j < topology.terminals[p].sources.len() ==> board.declares(
                #[trigger] topology.terminals[p].sources[j],
            ) && topology.root_of[board.terminal_net(topology.terminals[p].sources[j]) as int]
                == topology.terminals[p].root,
{
    let shape = board.shape();
    let root = topology.terminals[p].root;
    let power = crate::topology::sources_on(topology.root_of, shape.power_nets, root);
    let stuck = crate::topology::sources_on(topology.root_of, shape.stuck_nets, root);
    let keep_power = crate::topology::source_on(topology.root_of, shape.power_nets, root);
    let keep_stuck = crate::topology::source_on(topology.root_of, shape.stuck_nets, root);
    select_properties(shape.power_nets.len(), keep_power);
    select_properties(shape.stuck_nets.len(), keep_stuck);
    let sources = topology.terminals[p].sources;
    assert(sources == crate::topology::sources_of(shape, topology.root_of, root));
    assert forall|j: int| 0 <= j < sources.len() implies board.declares(#[trigger] sources[j])
        && topology.root_of[board.terminal_net(sources[j]) as int] == root by {
        if j < power.len() {
            assert(sources[j] == TerminalId::Power(power[j]));
            assert(keep_power(power[j] as int));
        } else {
            assert(sources[j] == TerminalId::Stuck(stuck[j - power.len()]));
            assert(keep_stuck(stuck[j - power.len()] as int));
        }
    }
}

/// Whether the nets of the first `k` listed clusters show their scenes, and
/// every other net is as it was.
pub open spec fn pass_shown<S: ClusterSolver>(
    solver: &S,
    board: Board,
    topology: TopologyView,
    states: Seq<TerminalState>,
    cids: Seq<usize>,
    k: int,
    before: Seq<Net>,
    after: Seq<Net>,
) -> bool {
    &&& same_nets(before, after)
    &&& forall|i: int|
        0 <= i < after.len() ==> if cids.take(k).contains(topology.index[i]) {
            shows(
                #[trigger] after[i],
                scene_in(board, topology, states, topology.index[i] as int),
                solver,
                i,
            )
        } else {
            after[i].state == before[i].state && after[i].volts == before[i].volts
        }
}

/// The cluster an endpoint's current is solved in; a terminal's has none.
pub open spec fn endpoint_cluster(board: Board, topology: TopologyView, endpoint: int) -> Option<
    usize,
> {
    if 0 <= endpoint < board.slots@.len() && board.slots@[endpoint].terminal is None {
        Some(topology.index[board.slots@[endpoint].net as int])
    } else {
        None
    }
}

/// The cluster an element's current is solved in; one between terminals has
/// none.
pub open spec fn element_cluster(board: Board, topology: TopologyView, element: int) -> Option<
    usize,
> {
    if 0 <= element < board.elements@.len() {
        match crate::board::home_root(
            board.shape().elements[element],
            topology.root_of,
            topology.terminal_roots,
        ) {
            Some(home) => Some(topology.index[home as int]),
            None => None,
        }
    } else {
        None
    }
}

/// The current a pass over the first `k` listed clusters leaves in an
/// endpoint: its own cluster's, where the pass covered it.
pub open spec fn endpoint_after<S: ClusterSolver>(
    solver: &S,
    board: Board,
    topology: TopologyView,
    states: Seq<TerminalState>,
    cids: Seq<usize>,
    k: int,
    endpoint: int,
    before: Option<Amps>,
) -> Option<Amps> {
    match endpoint_cluster(board, topology, endpoint) {
        Some(cid) => if cids.take(k).contains(cid) {
            scene_in(board, topology, states, cid as int).slot_current(
                solver,
                position_in(topology.clusters[cid as int].slots, endpoint as usize),
            )
        } else {
            before
        },
        None => before,
    }
}

/// The current a pass over the first `k` listed clusters leaves in an
/// element.
pub open spec fn element_after<S: ClusterSolver>(
    solver: &S,
    board: Board,
    topology: TopologyView,
    states: Seq<TerminalState>,
    cids: Seq<usize>,
    k: int,
    element: int,
    before: Option<Amps>,
) -> Option<Amps> {
    match element_cluster(board, topology, element) {
        Some(cid) => if cids.take(k).contains(cid) {
            scene_in(board, topology, states, cid as int).element_current(
                solver,
                position_in(topology.clusters[cid as int].elements, element as usize),
            )
        } else {
            before
        },
        None => before,
    }
}

/// A cluster's slots are the endpoints whose currents it solves.
proof fn cluster_slots(board: Board, topology: TopologyView, cid: int)
    requires
        describes(topology, board),
        0 <= cid < topology.clusters.len(),
        board.slots@.len() <= usize::MAX,
        board.elements@.len() <= usize::MAX,
    ensures
        ascending(topology.clusters[cid].slots),
        ascending(topology.clusters[cid].elements),
        forall|e: usize|
            #[trigger] topology.clusters[cid].slots.contains(e) <==> endpoint_cluster(
                board,
                topology,
                e as int,
            ) == Some(cid as usize),
        forall|e: usize|
            #[trigger] topology.clusters[cid].elements.contains(e) <==> element_cluster(
                board,
                topology,
                e as int,
            ) == Some(cid as usize),
{
    described_cluster(topology, board, cid);
    let shape = board.shape();
    let layout = layout_of(shape, topology.root_of);
    layout_is_sound(shape, topology.root_of);
    let keep = crate::topology::sourcing_slot(shape, layout, cid);
    select_properties(shape.slot_nets.len(), keep);
    let homed = crate::topology::member_element(shape, layout, cid);
    select_properties(shape.elements.len(), homed);
    let c = topology.clusters[cid];
    assert forall|e: usize| #[trigger] c.slots.contains(e) <==> endpoint_cluster(
        board,
        topology,
        e as int,
    ) == Some(cid as usize) by {
        assert(c.slots.contains(e) <==> e < shape.slot_nets.len() && keep(e as int));
    }
    assert forall|e: usize| #[trigger] c.elements.contains(e) <==> element_cluster(
        board,
        topology,
        e as int,
    ) == Some(cid as usize) by {
        assert(c.elements.contains(e) <==> e < shape.elements.len() && homed(e as int));
    }
}

proof fn position_unique(list: Seq<usize>, k: int)
    requires
        ascending(list),
        0 <= k < list.len(),
    ensures
        position_in(list, list[k]) == k,
{
    let at = position_in(list, list[k]);
    assert(list[at] == list[k]);
    if at < k {
        assert(list[at] < list[k]);
    } else if k < at {
        assert(list[k] < list[at]);
    }
}

impl Resolver {
    /// Everything but the currents and the clocks' reach is as it was.
    spec fn same_but_currents(&self, before: &Resolver) -> bool {
        &&& self.identity == before.identity
        &&& self.net_count == before.net_count
        &&& self.board == before.board
        &&& self.topology == before.topology
        &&& self.terminal_states == before.terminal_states
        &&& self.terminals_resolved == before.terminals_resolved
        &&& self.dirty == before.dirty
        &&& self.periodic_slots == before.periodic_slots
        &&& self.coupled_cache == before.coupled_cache
        &&& self.reach_clusters == before.reach_clusters
        &&& self.escalated_solves == before.escalated_solves
    }

    /// Store the current into an endpoint, noting whether it moved.
    fn store_endpoint(&mut self, endpoint: usize, amps: Option<Amps>)
        requires
            old(self).tables_sound(),
            endpoint < old(self).board.slots@.len(),
        ensures
            final(self).tables_sound(),
            final(self).same_but_currents(old(self)),
            final(self).element_currents == old(self).element_currents,
            forall|e: int|
                #[trigger] final(self).endpoint_current(e) == (if e == endpoint {
                    amps
                } else {
                    old(self).endpoint_current(e)
                }),
            final(self).currents_changed == (old(self).currents_changed || old(self).endpoint_current(endpoint as int) != amps),
    {
        let held = if endpoint < self.endpoint_currents.len() {
            self.endpoint_currents[endpoint]
        } else {
            None
        };
        if same_figure(held, amps) {
            return ;
        }
        while self.endpoint_currents.len() <= endpoint
            invariant
                endpoint < self.board.slots@.len(),
                self.tables_sound(),
                self.same_but_currents(old(self)),
                self.element_currents == old(self).element_currents,
                self.currents_changed == old(self).currents_changed,
                forall|e: int|
                    #[trigger] self.endpoint_current(e) == old(self).endpoint_current(e),
            decreases endpoint + 1 - self.endpoint_currents.len(),
        {
            let ghost before = *self;
            self.endpoint_currents.push(None);
            assert forall|e: int|
                #[trigger] self.endpoint_current(e) == old(self).endpoint_current(e) by {
                assert(before.endpoint_current(e) == old(self).endpoint_current(e));
            }
        }
        let ghost before = *self;
        self.endpoint_currents.set(endpoint, amps);
        self.currents_changed = true;
        assert forall|e: int|
            #[trigger] self.endpoint_current(e) == (if e == endpoint {
                amps
            } else {
                old(self).endpoint_current(e)
            }) by {
            assert(before.endpoint_current(e) == old(self).endpoint_current(e));
        }
    }

    /// Store the current through an element, noting whether it moved.
    fn store_element(&mut self, element: usize, amps: Option<Amps>)
        requires
            old(self).tables_sound(),
            element < old(self).board.elements@.len(),
        ensures
            final(self).tables_sound(),
            final(self).same_but_currents(old(self)),
            final(self).endpoint_currents == old(self).endpoint_currents,
            forall|e: int|
                #[trigger] final(self).element_current(e) == (if e == element {
                    amps
                } else {
                    old(self).element_current(e)
                }),
            final(self).currents_changed == (old(self).currents_changed || old(self).element_current(element as int) != amps),
    {
        if same_figure(self.element_currents[element], amps) {
            return ;
        }
        self.element_currents.set(element, amps);
        self.currents_changed = true;
    }
}

impl Resolver {
    /// Store the currents one cluster's pass computed.
    fn apply_currents(
        &mut self,
        topology: &Topology,
        cid: usize,
        slot_currents: &Vec<Option<Amps>>,
        element_currents: &Vec<Option<Amps>>,
    )
        requires
            old(self).carries(*topology),
            cid < topology.clusters@.len(),
            slot_currents@.len() == topology@.clusters[cid as int].slots.len(),
            element_currents@.len() == topology@.clusters[cid as int].elements.len(),
        ensures
            final(self).carries(*topology),
            final(self).same_but_currents(old(self)),
            forall|e: int|
                #[trigger] final(self).endpoint_current(e) == (if endpoint_cluster(
                    old(self).board,
                    topology@,
                    e,
                ) == Some(cid) {
                    slot_currents@[position_in(
                        topology@.clusters[cid as int].slots,
                        e as usize,
                    )]
                } else {
                    old(self).endpoint_current(e)
                }),
            forall|e: int|
                #[trigger] final(self).element_current(e) == (if element_cluster(
                    old(self).board,
                    topology@,
                    e,
                ) == Some(cid) {
                    element_currents@[position_in(
                        topology@.clusters[cid as int].elements,
                        e as usize,
                    )]
                } else {
                    old(self).element_current(e)
                }),
            final(self).currents_changed == (old(self).currents_changed || (exists|e: int|
                #[trigger] final(self).endpoint_current(e) != old(self).endpoint_current(e)) || (
            exists|e: int|
                #[trigger] final(self).element_current(e) != old(self).element_current(e))),
    {
        let c = &topology.clusters[cid];
        let ghost topo = topology@;
        let ghost start = *self;
        proof {
            assert(topo.clusters[cid as int] == c@);
            assert(self.board.slots.len() <= usize::MAX);
            assert(self.board.elements.len() <= usize::MAX);
            cluster_slots(self.board, topo, cid as int);
        }
        let mut k: usize = 0;
        while k < c.slots.len()
            invariant
                k <= c.slots@.len(),
                self.tables_sound(),
                self.same_but_currents(&start),
                self.element_currents == start.element_currents,
                start == *old(self),
                slot_currents@.len() == c.slots@.len(),
                ascending(c.slots@),
                forall|e: usize|
                    #[trigger] c.slots@.contains(e) <==> endpoint_cluster(
                        start.board,
                        topo,
                        e as int,
                    ) == Some(cid),
                forall|j: int|
                    0 <= j < k ==> self.endpoint_current((#[trigger] c.slots@[j]) as int)
                        == slot_currents@[j],
                forall|e: int|
                    (forall|j: int| 0 <= j < k ==> (#[trigger] c.slots@[j]) as int != e)
                        ==> #[trigger] self.endpoint_current(e) == start.endpoint_current(e),
                self.currents_changed == (start.currents_changed || (exists|e: int|
                    #[trigger] self.endpoint_current(e) != start.endpoint_current(e))),
            decreases c.slots@.len() - k,
        {
            let si: usize = c.slots[k];
            assert(c.slots@.contains(si));
            assert(endpoint_cluster(start.board, topo, si as int) == Some(cid));
            let ghost before = *self;
            assert(before.endpoint_current(si as int) == start.endpoint_current(si as int));
            self.store_endpoint(si, slot_currents[k]);
            proof {
                if before.endpoint_current(si as int) != slot_currents@[k as int] {
                    assert(self.endpoint_current(si as int) != start.endpoint_current(
                        si as int,
                    ));
                }
                if exists|e: int|
                    #[trigger] before.endpoint_current(e) != start.endpoint_current(e) {
                    let e = choose|e: int|
                        #[trigger] before.endpoint_current(e) != start.endpoint_current(e);
                    assert(self.endpoint_current(e) != start.endpoint_current(e));
                }
                if exists|e: int| #[trigger] self.endpoint_current(e) != start.endpoint_current(e) {
                    let e = choose|e: int|
                        #[trigger] self.endpoint_current(e) != start.endpoint_current(e);
                    if e != si {
                        assert(before.endpoint_current(e) != start.endpoint_current(e));
                    }
                }
                assert forall|e: int|
                    (forall|j: int| 0 <= j < k + 1 ==> (#[trigger] c.slots@[j]) as int
                        != e) implies #[trigger] self.endpoint_current(e)
                    == start.endpoint_current(e) by {
                    assert(c.slots@[k as int] as int != e);
                    assert(before.endpoint_current(e) == start.endpoint_current(e));
                }
            }
            k += 1;
        }
        let ghost mid = *self;
        let mut m: usize = 0;
        while m < c.elements.len()
            invariant
                m <= c.elements@.len(),
                self.tables_sound(),
                self.same_but_currents(&start),
                self.endpoint_currents == mid.endpoint_currents,
                mid.element_currents == start.element_currents,
                element_currents@.len() == c.elements@.len(),
                ascending(c.elements@),
                forall|e: usize|
                    #[trigger] c.elements@.contains(e) <==> element_cluster(
                        start.board,
                        topo,
                        e as int,
                    ) == Some(cid),
                forall|j: int|
                    0 <= j < m ==> self.element_current((#[trigger] c.elements@[j]) as int)
                        == element_currents@[j],
                forall|e: int|
                    (forall|j: int| 0 <= j < m ==> (#[trigger] c.elements@[j]) as int != e)
                        ==> #[trigger] self.element_current(e) == start.element_current(e),
                self.currents_changed == (mid.currents_changed || (exists|e: int|
                    #[trigger] self.element_current(e) != start.element_current(e))),
            decreases c.elements@.len() - m,
        {
            let ei: usize = c.elements[m];
            assert(c.elements@.contains(ei));
            assert(element_cluster(start.board, topo, ei as int) == Some(cid));
            let ghost before = *self;
            assert(before.element_current(ei as int) == start.element_current(ei as int));
            self.store_element(ei, element_currents[m]);
            proof {
                if before.element_current(ei as int) != element_currents@[m as int] {
                    assert(self.element_current(ei as int) != start.element_current(ei as int));
                }
                if exists|e: int| #[trigger] before.element_current(e) != start.element_current(
                    e,
                ) {
                    let e = choose|e: int|
                        #[trigger] before.element_current(e) != start.element_current(e);
                    assert(self.element_current(e) != start.element_current(e));
                }
                if exists|e: int| #[trigger] self.element_current(e) != start.element_current(e) {
                    let e = choose|e: int|
                        #[trigger] self.element_current(e) != start.element_current(e);
                    if e != ei {
                        assert(before.element_current(e) != start.element_current(e));
                    }
                }
                assert forall|e: int|
                    (forall|j: int| 0 <= j < m + 1 ==> (#[trigger] c.elements@[j]) as int
                        != e) implies #[trigger] self.element_current(e)
                    == start.element_current(e) by {
                    assert(c.elements@[m as int] as int != e);
                    assert(before.element_current(e) == start.element_current(e));
                }
            }
            m += 1;
        }
        proof {
            assert forall|e: int| #[trigger] self.endpoint_current(e) == (if endpoint_cluster(
                start.board,
                topo,
                e,
            ) == Some(cid) {
                slot_currents@[position_in(c.slots@, e as usize)]
            } else {
                start.endpoint_current(e)
            }) by {
                assert(self.endpoint_current(e) == mid.endpoint_current(e));
                if endpoint_cluster(start.board, topo, e) == Some(cid) {
                    assert(c.slots@.contains(e as usize));
                    let j = choose|j: int| 0 <= j < c.slots@.len() && c.slots@[j] == e as usize;
                    position_unique(c.slots@, j);
                    assert(mid.endpoint_current(c.slots@[j] as int) == slot_currents@[j]);
                } else {
                    assert forall|j: int| 0 <= j < k implies (#[trigger] c.slots@[j]) as int
                        != e by {
                        assert(c.slots@.contains(c.slots@[j]));
                    }
                }
            }
            assert forall|e: int| #[trigger] self.element_current(e) == (if element_cluster(
                start.board,
                topo,
                e,
            ) == Some(cid) {
                element_currents@[position_in(c.elements@, e as usize)]
            } else {
                start.element_current(e)
            }) by {
                if element_cluster(start.board, topo, e) == Some(cid) {
                    assert(c.elements@.contains(e as usize));
                    let j = choose|j: int|
                        0 <= j < c.elements@.len() && c.elements@[j] == e as usize;
                    position_unique(c.elements@, j);
                    assert(self.element_current(c.elements@[j] as int) == element_currents@[j]);
                } else {
                    assert forall|j: int| 0 <= j < m implies (#[trigger] c.elements@[j]) as int
                        != e by {
                        assert(c.elements@.contains(c.elements@[j]));
                    }
                }
            }
            if exists|e: int| #[trigger] mid.endpoint_current(e) != start.endpoint_current(e) {
                let e = choose|e: int|
                    #[trigger] mid.endpoint_current(e) != start.endpoint_current(e);
                assert(self.endpoint_current(e) != start.endpoint_current(e));
            }
            if exists|e: int| #[trigger] self.endpoint_current(e) != start.endpoint_current(e) {
                let e = choose|e: int|
                    #[trigger] self.endpoint_current(e) != start.endpoint_current(e);
                assert(mid.endpoint_current(e) != start.endpoint_current(e));
            }
        }
    }
}

/// Give a cluster's nets what its pass published.
fn assign_nets<S: ClusterSolver>(
    topology: &Topology,
    cid: usize,
    results: &Vec<crate::phases::RootResult>,
    nets: &mut Vec<Net>,
    Ghost(board): Ghost<Board>,
    Ghost(scene): Ghost<Scene>,
    Ghost(solver): Ghost<&S>,
)
    requires
        describes(topology@, board),
        cid < topology.clusters@.len(),
        old(nets)@.len() == topology.root_of@.len(),
        scene_sound(scene),
        scene.topo == topology@.clusters[cid as int],
        scene.root_of == topology@.root_of,
        crate::pass::results_published(results@, scene, solver),
    ensures
        same_nets(old(nets)@, final(nets)@),
        forall|i: int|
            0 <= i < final(nets)@.len() ==> if topology@.index[i] == cid {
                shows(#[trigger] final(nets)@[i], scene, solver, i)
            } else {
                final(nets)@[i] == old(nets)@[i]
            },
{
    let c = &topology.clusters[cid];
    let ghost start = nets@;
    let ghost topo = topology@;
    let ghost keep = crate::topology::member_net(
        layout_of(board.shape(), topo.root_of),
        cid as int,
    );
    proof {
        assert(topo.clusters[cid as int] == c@);
        described_cluster(topo, board, cid as int);
        assert(topology.root_of.len() <= usize::MAX);
        select_properties(topo.root_of.len(), keep);
    }
    let mut k: usize = 0;
    while k < c.nets.len()
        invariant
            k <= c.nets@.len(),
            c@ == scene.topo,
            scene_sound(scene),
            scene.root_of == topology@.root_of,
            crate::pass::results_published(results@, scene, solver),
            nets@.len() == topology.root_of@.len(),
            nets@.len() == start.len(),
            ascending(c.nets@),
            same_nets(start, nets@),
            forall|j: int|
                0 <= j < k ==> shows(
                    nets@[(#[trigger] c.nets@[j]) as int],
                    scene,
                    solver,
                    c.nets@[j] as int,
                ),
            forall|i: int|
                0 <= i < nets@.len() && (forall|j: int|
                    0 <= j < k ==> (#[trigger] c.nets@[j]) as int != i) ==> #[trigger] nets@[i]
                    == start[i],
        decreases c.nets@.len() - k,
    {
        let i: usize = c.nets[k];
        assert(c@.nets[k as int] == i);
        let root: usize = topology.root_of[i];
        let ghost before = nets@;
        match position_of(&c.roots, root) {
            Some(pr) => {
                proof {
                    position_unique(c.roots@, pr as int);
                    assert(results@[pr as int]@ == scene.published(solver, pr as int));
                }
                nets[i].state = results[pr].state;
                nets[i].volts = results[pr].volts;
                assert(shows(nets@[i as int], scene, solver, i as int));
            },
            None => {},
        }
        assert forall|x: int|
            0 <= x < nets@.len() && (forall|j: int|
                0 <= j < k + 1 ==> (#[trigger] c.nets@[j]) as int != x) implies #[trigger] nets@[x]
            == start[x] by {
            assert(c.nets@[k as int] as int != x);
            assert(before[x] == start[x]);
        }
        assert forall|j: int| 0 <= j < k implies shows(
            nets@[(#[trigger] c.nets@[j]) as int],
            scene,
            solver,
            c.nets@[j] as int,
        ) by {
            assert(c.nets@[j] < c.nets@[k as int]);
            assert(nets@[c.nets@[j] as int] == before[c.nets@[j] as int]);
        }
        k += 1;
    }
    proof {
        assert forall|i: int| 0 <= i < nets@.len() implies if topo.index[i] == cid {
            shows(#[trigger] nets@[i], scene, solver, i)
        } else {
            nets@[i] == start[i]
        } by {
            assert(c.nets@.contains(i as usize) <==> keep(i));
            if topo.index[i] == cid {
                assert(c.nets@.contains(i as usize));
                let j = choose|j: int| 0 <= j < c.nets@.len() && c.nets@[j] == i as usize;
                assert(c.nets@[j] as int == i);
            } else {
                assert forall|j: int| 0 <= j < k implies (#[trigger] c.nets@[j]) as int != i by {
                    assert(c.nets@.contains(c.nets@[j]));
                    assert(keep(c.nets@[j] as int));
                }
            }
        }
    }
}

proof fn names_kept(board: Board, a: Seq<Net>, b: Seq<Net>)
    requires
        same_nets(a, b),
    ensures
        names_of(board, a) == names_of(board, b),
{
    assert(names_of(board, a).nets =~= names_of(board, b).nets);
    assert(names_of(board, a) =~= names_of(board, b));
}

impl Resolver {
    /// Whether the currents after a cluster's pass are the scene's, and every
    /// other current is as it was.
    spec fn currents_follow<S: ClusterSolver>(
        &self,
        before: &Resolver,
        solver: &S,
        topology: TopologyView,
        states: Seq<TerminalState>,
        cid: usize,
    ) -> bool {
        let scene = scene_in(before.board, topology, states, cid as int);
        let c = topology.clusters[cid as int];
        &&& forall|e: int|
            #[trigger] self.endpoint_current(e) == (if endpoint_cluster(before.board, topology, e)
                == Some(cid) {
                scene.slot_current(solver, position_in(c.slots, e as usize))
            } else {
                before.endpoint_current(e)
            })
        &&& forall|e: int|
            #[trigger] self.element_current(e) == (if element_cluster(before.board, topology, e)
                == Some(cid) {
                scene.element_current(solver, position_in(c.elements, e as usize))
            } else {
                before.element_current(e)
            })
        &&& self.currents_changed == (before.currents_changed || (exists|e: int|
            #[trigger] self.endpoint_current(e) != before.endpoint_current(e)) || (exists|e: int|
            #[trigger] self.element_current(e) != before.element_current(e)))
    }

    /// Resolve one cluster: assign its nets, gather its findings, store its
    /// currents. Returns how many solves ran.
    fn run_cluster<S: ClusterSolver>(
        &mut self,
        topology: &Topology,
        cid: usize,
        states: &Vec<TerminalState>,
        nets: &mut Vec<Net>,
        findings: &mut PassFindings,
        solver: &S,
    ) -> (solves: u64)
        requires
            old(self).carries(*topology),
            old(self).reach_clusters is Some,
            states@.len() == topology.terminals@.len(),
            old(nets)@.len() == topology.root_of@.len(),
            cid < topology.clusters@.len(),
        ensures
            final(self).carries(*topology),
            final(self).same_but_currents(old(self)),
            final(self).currents_follow(old(self), solver, topology@, states@, cid),
            same_nets(old(nets)@, final(nets)@),
            forall|i: int|
                0 <= i < final(nets)@.len() ==> if topology@.index[i] == cid {
                    shows(
                        #[trigger] final(nets)@[i],
                        scene_in(old(self).board, topology@, states@, cid as int),
                        solver,
                        i,
                    )
                } else {
                    final(nets)@[i] == old(nets)@[i]
                },
            final(findings)@ == joined(
                old(findings)@,
                cluster_findings(
                    solver,
                    scene_in(old(self).board, topology@, states@, cid as int),
                    names_of(old(self).board, old(nets)@),
                ),
            ),
            solves == scene_in(old(self).board, topology@, states@, cid as int).solve_count(),
            solves <= 2,
    {
        let ghost topo = topology@;
        let ghost board = self.board;
        let ghost start = *self;
        let arrivals = self.arrivals(topology, cid);
        let ghost scene = scene_in(board, topo, states@, cid as int);
        proof {
            assert(self.board.slots.len() <= usize::MAX);
            assert(self.board.couplings.len() <= usize::MAX);
            assert(self.board.elements.len() <= usize::MAX);
            cluster_arrivals_valid(topo, board, cid as int);
            described_cluster(topo, board, cid as int);
            scene_facts(self.board, topology, states@, cid as int);
            cluster_slots(board, topo, cid as int);
        }
        let pass = {
            let reads = ClusterReads {
                board: &self.board,
                topology,
                cid,
                states,
                arrivals: &arrivals,
            };
            assert(reads.valid());
            assert(reads.scene() == scene);
            resolve_cluster(&reads, nets, solver)
        };
        assign_nets::<S>(
            topology,
            cid,
            &pass.results,
            nets,
            Ghost(board),
            Ghost(scene),
            Ghost(solver),
        );
        self.apply_currents(topology, cid, &pass.slot_currents, &pass.element_currents);
        findings.extend(pass.findings);
        proof {
            let c = topo.clusters[cid as int];
            assert forall|e: int| #[trigger] self.endpoint_current(e) == (if endpoint_cluster(
                board,
                topo,
                e,
            ) == Some(cid) {
                scene.slot_current(solver, position_in(c.slots, e as usize))
            } else {
                start.endpoint_current(e)
            }) by {
                if endpoint_cluster(board, topo, e) == Some(cid) {
                    assert(c.slots.contains(e as usize));
                    let j = choose|j: int| 0 <= j < c.slots.len() && c.slots[j] == e as usize;
                    position_unique(c.slots, j);
                    assert(pass.slot_currents@[j] == scene.slot_current(solver, j));
                }
            }
            assert forall|e: int| #[trigger] self.element_current(e) == (if element_cluster(
                board,
                topo,
                e,
            ) == Some(cid) {
                scene.element_current(solver, position_in(c.elements, e as usize))
            } else {
                start.element_current(e)
            }) by {
                if element_cluster(board, topo, e) == Some(cid) {
                    assert(c.elements.contains(e as usize));
                    let j = choose|j: int|
                        0 <= j < c.elements.len() && c.elements[j] == e as usize;
                    position_unique(c.elements, j);
                    assert(pass.element_currents@[j] == scene.element_current(solver, j));
                }
            }
        }
        pass.solves
    }
}

proof fn taken_once(cids: Seq<usize>, k: int)
    requires
        ascending(cids),
        0 <= k < cids.len(),
    ensures
        !cids.take(k).contains(cids[k]),
        forall|x: usize|
            #![trigger cids.take(k + 1).contains(x)]
            cids.take(k + 1).contains(x) <==> cids.take(k).contains(x) || x == cids[k],
{
    assert forall|x: usize|
        #![trigger cids.take(k + 1).contains(x)]
        cids.take(k + 1).contains(x) <==> cids.take(k).contains(x) || x == cids[k] by {
        crate::seqs::take_contains(cids, k, x);
    }
    if cids.take(k).contains(cids[k]) {
        let j = choose|j: int| 0 <= j < k && cids.take(k)[j] == cids[k];
        assert(cids[j] < cids[k]);
    }
}

proof fn currents_step<S: ClusterSolver>(
    solver: &S,
    start: &Resolver,
    before: &Resolver,
    after: &Resolver,
    topology: TopologyView,
    states: Seq<TerminalState>,
    cids: Seq<usize>,
    k: int,
)
    requires
        0 <= k < cids.len(),
        ascending(cids),
        before.board == start.board,
        forall|e: int|
            #[trigger] before.endpoint_current(e) == endpoint_after(
                solver,
                start.board,
                topology,
                states,
                cids,
                k,
                e,
                start.endpoint_current(e),
            ),
        forall|e: int|
            #[trigger] before.element_current(e) == element_after(
                solver,
                start.board,
                topology,
                states,
                cids,
                k,
                e,
                start.element_current(e),
            ),
        before.currents_changed == (start.currents_changed || (exists|e: int|
            #[trigger] before.endpoint_current(e) != start.endpoint_current(e)) || (exists|e: int|
            #[trigger] before.element_current(e) != start.element_current(e))),
        after.currents_follow(before, solver, topology, states, cids[k]),
    ensures
        forall|e: int|
            #[trigger] after.endpoint_current(e) == endpoint_after(
                solver,
                start.board,
                topology,
                states,
                cids,
                k + 1,
                e,
                start.endpoint_current(e),
            ),
        forall|e: int|
            #[trigger] after.element_current(e) == element_after(
                solver,
                start.board,
                topology,
                states,
                cids,
                k + 1,
                e,
                start.element_current(e),
            ),
        after.currents_changed == (start.currents_changed || (exists|e: int|
            #[trigger] after.endpoint_current(e) != start.endpoint_current(e)) || (exists|e: int|
            #[trigger] after.element_current(e) != start.element_current(e))),
{
    taken_once(cids, k);
    let cid = cids[k];
    assert forall|e: int| #[trigger] after.endpoint_current(e) == endpoint_after(
        solver,
        start.board,
        topology,
        states,
        cids,
        k + 1,
        e,
        start.endpoint_current(e),
    ) by {
        assert(before.endpoint_current(e) == endpoint_after(
            solver,
            start.board,
            topology,
            states,
            cids,
            k,
            e,
            start.endpoint_current(e),
        ));
        if let Some(x) = endpoint_cluster(start.board, topology, e) {
            assert(cids.take(k + 1).contains(x) <==> cids.take(k).contains(x) || x == cid);
        }
    }
    assert forall|e: int| #[trigger] after.element_current(e) == element_after(
        solver,
        start.board,
        topology,
        states,
        cids,
        k + 1,
        e,
        start.element_current(e),
    ) by {
        assert(before.element_current(e) == element_after(
            solver,
            start.board,
            topology,
            states,
            cids,
            k,
            e,
            start.element_current(e),
        ));
        if let Some(x) = element_cluster(start.board, topology, e) {
            assert(cids.take(k + 1).contains(x) <==> cids.take(k).contains(x) || x == cid);
        }
    }
    flag_follows(start, before, after, start.board, topology, cid);
}

impl Resolver {
    /// Resolve the listed clusters, their terminals in `states`: assign their
    /// nets, report what they find, store their currents. Returns how many
    /// solves ran.
    #[verifier::rlimit(40)]
    fn run_pass<S: ClusterSolver>(
        &mut self,
        topology: &Topology,
        cids: &Vec<usize>,
        states: &Vec<TerminalState>,
        nets: &mut Vec<Net>,
        diagnostics: &mut Diagnostics,
        solver: &S,
    ) -> (solves: u128)
        requires
            old(self).carries(*topology),
            states@.len() == topology.terminals@.len(),
            old(nets)@.len() == topology.root_of@.len(),
            ascending(cids@),
            forall|i: int|
                0 <= i < cids@.len() ==> (#[trigger] cids@[i]) < topology.clusters@.len(),
        ensures
            final(self).carries(*topology),
            final(self).board == old(self).board,
            final(self).identity == old(self).identity,
            final(self).net_count == old(self).net_count,
            final(self).topology == old(self).topology,
            final(self).dirty == old(self).dirty,
            final(self).terminal_states == old(self).terminal_states,
            final(self).terminals_resolved == old(self).terminals_resolved,
            final(self).escalated_solves == old(self).escalated_solves,
            pass_shown(
                solver,
                old(self).board,
                topology@,
                states@,
                cids@,
                cids@.len() as int,
                old(nets)@,
                final(nets)@,
            ),
            final(diagnostics)@ == all_reported(
                old(diagnostics)@,
                emission(
                    gathered(
                        solver,
                        old(self).board,
                        topology@,
                        states@,
                        names_of(old(self).board, old(nets)@),
                        cids@,
                        cids@.len(),
                    ),
                ),
            ),
            forall|e: int|
                #[trigger] final(self).endpoint_current(e) == endpoint_after(
                    solver,
                    old(self).board,
                    topology@,
                    states@,
                    cids@,
                    cids@.len() as int,
                    e,
                    old(self).endpoint_current(e),
                ),
            forall|e: int|
                #[trigger] final(self).element_current(e) == element_after(
                    solver,
                    old(self).board,
                    topology@,
                    states@,
                    cids@,
                    cids@.len() as int,
                    e,
                    old(self).element_current(e),
                ),
            final(self).currents_changed == (old(self).currents_changed || (exists|e: int|
                #[trigger] final(self).endpoint_current(e) != old(self).endpoint_current(e)) || (
            exists|e: int|
                #[trigger] final(self).element_current(e) != old(self).element_current(e))),
            solves == solves_of(old(self).board, topology@, states@, cids@, cids@.len()),
            solves <= 2 * cids@.len(),
    {
        let ghost topo = topology@;
        let ghost board = self.board;
        let ghost names = names_of(board, nets@);
        let ghost start = *self;
        let ghost start_nets = nets@;
        self.refresh_reach(topology);
        let mut findings = PassFindings::new();
        let mut solves: u128 = 0;
        let mut k: usize = 0;
        proof {
            let empty = cids@.take(0);
            assert(empty =~= Seq::<usize>::empty());
            assert forall|e: int| #[trigger] self.endpoint_current(e) == endpoint_after(
                solver,
                board,
                topo,
                states@,
                cids@,
                0,
                e,
                start.endpoint_current(e),
            ) by {}
            assert forall|e: int| #[trigger] self.element_current(e) == element_after(
                solver,
                board,
                topo,
                states@,
                cids@,
                0,
                e,
                start.element_current(e),
            ) by {}
        }
        while k < cids.len()
            invariant
                k <= cids@.len(),
                self.carries(*topology),
                self.reach_clusters is Some,
                self.board == board,
                start == *old(self),
                start_nets == old(nets)@,
                board == start.board,
                topo == topology@,
                names == names_of(board, start_nets),
                self.identity == start.identity,
                self.net_count == start.net_count,
                self.topology == start.topology,
                self.dirty == start.dirty,
                self.terminal_states == start.terminal_states,
                self.terminals_resolved == start.terminals_resolved,
                self.escalated_solves == start.escalated_solves,
                states@.len() == topology.terminals@.len(),
                nets@.len() == topology.root_of@.len(),
                ascending(cids@),
                forall|i: int|
                    0 <= i < cids@.len() ==> (#[trigger] cids@[i]) < topology.clusters@.len(),
                pass_shown(solver, board, topo, states@, cids@, k as int, start_nets, nets@),
                findings@ == gathered(solver, board, topo, states@, names, cids@, k as nat),
                solves == solves_of(board, topo, states@, cids@, k as nat),
                solves <= 2 * k,
                forall|e: int|
                    #[trigger] self.endpoint_current(e) == endpoint_after(
                        solver,
                        board,
                        topo,
                        states@,
                        cids@,
                        k as int,
                        e,
                        start.endpoint_current(e),
                    ),
                forall|e: int|
                    #[trigger] self.element_current(e) == element_after(
                        solver,
                        board,
                        topo,
                        states@,
                        cids@,
                        k as int,
                        e,
                        start.element_current(e),
                    ),
                self.currents_changed == (start.currents_changed || (exists|e: int|
                    #[trigger] self.endpoint_current(e) != start.endpoint_current(e)) || (exists|e: int|
                    #[trigger] self.element_current(e) != start.element_current(e))),
            decreases cids@.len() - k,
        {
            let cid: usize = cids[k];
            assert(cids@[k as int] == cid);
            let ghost before_nets = nets@;
            let ghost before = *self;
            proof {
                names_kept(board, start_nets, before_nets);
            }
            let ran: u64 = self.run_cluster(topology, cid, states, nets, &mut findings, solver);
            solves = solves + ran as u128;
            proof {
                taken_once(cids@, k as int);
                pass_shown_step(
                    solver,
                    board,
                    topo,
                    states@,
                    cids@,
                    k as int,
                    start_nets,
                    before_nets,
                    nets@,
                );
                currents_step(solver, &start, &before, self, topo, states@, cids@, k as int);
            }
            k += 1;
        }
        assert(cids@.take(k as int) =~= cids@);
        findings.emit(diagnostics);
        solves
    }
}

/// A cluster's scene is sound, whatever its terminals hold.
proof fn scene_facts(board: Board, topology: &Topology, states: Seq<TerminalState>, cid: int)
    requires
        describes(topology@, board),
        0 <= cid < topology.clusters@.len(),
    ensures
        scene_sound(scene_in(board, topology@, states, cid)),
        cluster_indexes(topology@.clusters[cid], board),
{
    let topo = topology@;
    assert(board.slots.len() <= usize::MAX);
    assert(board.elements.len() <= usize::MAX);
    assert(board.digital_senses.len() <= usize::MAX);
    assert(board.analog_senses.len() <= usize::MAX);
    assert(board.power_senses.len() <= usize::MAX);
    assert(topology.terminal_roots.len() <= usize::MAX);
    assert(topology.clusters[cid]@ == topo.clusters[cid]);
    assert(topology.clusters[cid].boundary.len() <= usize::MAX);
    described_cluster(topo, board, cid);
    if topo.clusters[cid].roots.len() > 0 {
        assert(topo.clusters[cid].dist.len() == topo.clusters[cid].roots.len());
        assert(topo.clusters[cid].dist[0].len() == topo.clusters[cid].roots.len()
            + topo.clusters[cid].boundary.len());
        assert(topology.clusters[cid].dist[0]@ == topo.clusters[cid].dist[0]);
        assert(topology.clusters[cid].dist[0].len() <= usize::MAX);
    }
    scene_is_sound(board, topo, states, cluster_arrivals(board, topo, cid), cid);
}

proof fn pass_shown_step<S: ClusterSolver>(
    solver: &S,
    board: Board,
    topology: TopologyView,
    states: Seq<TerminalState>,
    cids: Seq<usize>,
    k: int,
    start: Seq<Net>,
    before: Seq<Net>,
    after: Seq<Net>,
)
    requires
        0 <= k < cids.len(),
        !cids.take(k).contains(cids[k]),
        forall|x: usize|
            #![trigger cids.take(k + 1).contains(x)]
            cids.take(k + 1).contains(x) <==> cids.take(k).contains(x) || x == cids[k],
        pass_shown(solver, board, topology, states, cids, k, start, before),
        same_nets(before, after),
        forall|i: int|
            0 <= i < after.len() ==> if topology.index[i] == cids[k] {
                shows(
                    #[trigger] after[i],
                    scene_in(board, topology, states, cids[k] as int),
                    solver,
                    i,
                )
            } else {
                after[i] == before[i]
            },
    ensures
        pass_shown(solver, board, topology, states, cids, k + 1, start, after),
{
    assert forall|i: int| 0 <= i < start.len() implies (#[trigger] start[i]).id == after[i].id
        && start[i].name == after[i].name && start[i].nodes == after[i].nodes by {
        assert(before[i].id == after[i].id);
    }
    assert forall|i: int| 0 <= i < after.len() implies if cids.take(k + 1).contains(
        topology.index[i],
    ) {
        shows(
            #[trigger] after[i],
            scene_in(board, topology, states, topology.index[i] as int),
            solver,
            i,
        )
    } else {
        after[i].state == start[i].state && after[i].volts == start[i].volts
    } by {
        assert(before[i].id == after[i].id);
        if topology.index[i] != cids[k] {
            assert(after[i] == before[i]);
        }
    }
}

proof fn flag_follows(
    start: &Resolver,
    before: &Resolver,
    after: &Resolver,
    board: Board,
    topology: TopologyView,
    cid: usize,
)
    requires
        before.currents_changed == (start.currents_changed || (exists|e: int|
            #[trigger] before.endpoint_current(e) != start.endpoint_current(e)) || (exists|e: int|
            #[trigger] before.element_current(e) != start.element_current(e))),
        after.currents_changed == (before.currents_changed || (exists|e: int|
            #[trigger] after.endpoint_current(e) != before.endpoint_current(e)) || (exists|e: int|
            #[trigger] after.element_current(e) != before.element_current(e))),
        forall|e: int|
            endpoint_cluster(board, topology, e) == Some(cid)
                ==> #[trigger] before.endpoint_current(e) == start.endpoint_current(e),
        forall|e: int|
            endpoint_cluster(board, topology, e) != Some(cid)
                ==> #[trigger] after.endpoint_current(e) == before.endpoint_current(e),
        forall|e: int|
            element_cluster(board, topology, e) == Some(cid)
                ==> #[trigger] before.element_current(e) == start.element_current(e),
        forall|e: int|
            element_cluster(board, topology, e) != Some(cid)
                ==> #[trigger] after.element_current(e) == before.element_current(e),
    ensures
        after.currents_changed == (start.currents_changed || (exists|e: int|
            #[trigger] after.endpoint_current(e) != start.endpoint_current(e)) || (exists|e: int|
            #[trigger] after.element_current(e) != start.element_current(e))),
{
    if exists|e: int| #[trigger] before.endpoint_current(e) != start.endpoint_current(e) {
        let e = choose|e: int| #[trigger] before.endpoint_current(e) != start.endpoint_current(e);
        assert(after.endpoint_current(e) != start.endpoint_current(e));
    }
    if exists|e: int| #[trigger] after.endpoint_current(e) != before.endpoint_current(e) {
        let e = choose|e: int| #[trigger] after.endpoint_current(e) != before.endpoint_current(e);
        assert(before.endpoint_current(e) == start.endpoint_current(e));
        assert(after.endpoint_current(e) != start.endpoint_current(e));
    }
    if exists|e: int| #[trigger] after.endpoint_current(e) != start.endpoint_current(e) {
        let e = choose|e: int| #[trigger] after.endpoint_current(e) != start.endpoint_current(e);
        assert(after.endpoint_current(e) != before.endpoint_current(e)
            || before.endpoint_current(e) != start.endpoint_current(e));
    }
    if exists|e: int| #[trigger] before.element_current(e) != start.element_current(e) {
        let e = choose|e: int| #[trigger] before.element_current(e) != start.element_current(e);
        assert(after.element_current(e) != start.element_current(e));
    }
    if exists|e: int| #[trigger] after.element_current(e) != before.element_current(e) {
        let e = choose|e: int| #[trigger] after.element_current(e) != before.element_current(e);
        assert(before.element_current(e) == start.element_current(e));
        assert(after.element_current(e) != start.element_current(e));
    }
    if exists|e: int| #[trigger] after.element_current(e) != start.element_current(e) {
        let e = choose|e: int| #[trigger] after.element_current(e) != start.element_current(e);
        assert(after.element_current(e) != before.element_current(e) || before.element_current(e)
            != start.element_current(e));
    }
}

/// How many of the first `k` terminals must solve a fight.
pub open spec fn fights_among(board: Board, topology: TopologyView, k: nat) -> nat
    decreases k,
{
    if k == 0 {
        0
    } else {
        fights_among(board, topology, (k - 1) as nat) + (if terminal_fights(
            board,
            topology,
            k - 1,
        ) {
            1nat
        } else {
            0
        })
    }
}

/// How many of the first `k` listed clusters are a terminal's that must solve
/// a fight.
pub open spec fn fights_in(board: Board, topology: TopologyView, cids: Seq<usize>, k: nat) -> nat
    decreases k,
{
    if k == 0 {
        0
    } else {
        fights_in(board, topology, cids, (k - 1) as nat) + (match topology.clusters[cids[k
            - 1] as int].terminal {
            Some(p) => if terminal_fights(board, topology, p as int) {
                1nat
            } else {
                0
            },
            None => 0,
        })
    }
}

/// How many solves a full pass over a board takes.
pub open spec fn solves_in_full<S: ClusterSolver>(
    solver: &S,
    board: Board,
    topology: TopologyView,
) -> nat {
    fights_among(board, topology, topology.terminals.len()) + solves_of(
        board,
        topology,
        states_now(solver, board, topology),
        every_cluster(topology),
        topology.clusters.len(),
    )
}

/// What the terminals hold once the listed clusters' own are decided anew.
pub open spec fn redecided<S: ClusterSolver>(
    solver: &S,
    board: Board,
    topology: TopologyView,
    held: Seq<TerminalState>,
    cids: Seq<usize>,
) -> Seq<TerminalState> {
    Seq::new(
        topology.terminals.len(),
        |p: int|
            if cids.contains(topology.terminals[p].cluster) {
                states_now(solver, board, topology)[p]
            } else {
                held[p]
            },
    )
}

/// A cluster is a terminal's exactly if the terminal names it.
proof fn terminal_of_cluster(board: Board, topology: TopologyView, cid: int, p: int)
    requires
        describes(topology, board),
        0 <= cid < topology.clusters.len(),
        topology.terminal_roots.len() <= usize::MAX,
    ensures
        0 <= p < topology.terminals.len() ==> (topology.clusters[cid].terminal == Some(p as usize)
            <==> topology.terminals[p].cluster == cid),
        topology.clusters[cid].terminal matches Some(q) ==> q < topology.terminals.len(),
{
    described_cluster(topology, board, cid);
    let layout = layout_of(board.shape(), topology.root_of);
    let count = crate::topology::cluster_count(board.shape(), topology.root_of);
    layout_is_sound(board.shape(), topology.root_of);
    let keep = crate::topology::member_root(layout, cid);
    select_properties(layout.root_of.len(), keep);
    let c = topology.clusters[cid];
    let t = layout.terminals[p];
    if 0 <= p < topology.terminals.len() && topology.terminals[p].cluster == cid {
        assert(topology.terminals[p].cluster == layout.index[t as int]);
        assert(keep(t as int));
        assert(c.roots.contains(t));
        let q = choose|q: int|
            0 <= q < layout.terminals.len() && c.roots.contains(#[trigger] layout.terminals[q]);
        assert(c.roots.contains(layout.terminals[q]));
        crate::topology::terminal_cluster_is_its_root(layout, count, p, cid);
        assert(layout.terminals[q] == t);
        if q < p {
            assert(layout.terminals[q] < layout.terminals[p]);
        } else if p < q {
            assert(layout.terminals[p] < layout.terminals[q]);
        }
    }
    if c.terminal is Some {
        let q = choose|q: int|
            0 <= q < layout.terminals.len() && c.roots.contains(#[trigger] layout.terminals[q]);
        assert(c.terminal == Some(q as usize));
        assert(keep(layout.terminals[q] as int));
    }
}

impl Resolver {
    /// Every net shows what a pass over the whole board resolves it to, and
    /// every terminal holds what its sources say.
    pub open spec fn fully_resolved<S: ClusterSolver>(&self, solver: &S, nets: Seq<Net>) -> bool {
        let topology = self.structure(nets.len());
        &&& self.settled_for(nets.len())
        &&& self.held_states() == states_now(solver, self.board(), topology)
        &&& forall|cid: int| !#[trigger] self.awaits(cid)
        &&& forall|i: int|
            0 <= i < nets.len() ==> resolved(
                solver,
                self.board(),
                topology,
                #[trigger] nets[i],
                i,
            )
    }

    /// Everything declared and driven is as it was.
    pub open spec fn same_board(&self, before: &Resolver) -> bool {
        &&& self.board() == before.board()
        &&& self.net_count() == before.net_count()
        &&& forall|n: nat| #[trigger] self.roots(n) == before.roots(n)
    }

    /// The currents after a pass over the listed clusters, their terminals in
    /// `states`.
    #[verifier::opaque]
    pub open spec fn currents_after<S: ClusterSolver>(
        &self,
        before: &Resolver,
        solver: &S,
        topology: TopologyView,
        states: Seq<TerminalState>,
        cids: Seq<usize>,
    ) -> bool {
        &&& forall|e: int|
            #[trigger] self.endpoint_current(e) == endpoint_after(
                solver,
                before.board(),
                topology,
                states,
                cids,
                cids.len() as int,
                e,
                before.endpoint_current(e),
            )
        &&& forall|e: int|
            #[trigger] self.element_current(e) == element_after(
                solver,
                before.board(),
                topology,
                states,
                cids,
                cids.len() as int,
                e,
                before.element_current(e),
            )
        &&& self.currents_moved() == (before.currents_moved() || (exists|e: int|
            #[trigger] self.endpoint_current(e) != before.endpoint_current(e)) || (exists|e: int|
            #[trigger] self.element_current(e) != before.element_current(e)))
    }

    /// What a full pass leaves: every terminal decided, every net resolved,
    /// every finding on the bus, every current stored, and no cluster
    /// waiting.
    pub open spec fn swept_fully<S: ClusterSolver>(
        &self,
        before: &Resolver,
        solver: &S,
        old_nets: Seq<Net>,
        nets: Seq<Net>,
        old_bus: Seq<FindingView>,
        bus: Seq<FindingView>,
    ) -> bool {
        let board = before.board();
        let topology = before.structure(old_nets.len());
        &&& self.fully_resolved(solver, nets)
        &&& bus == all_reported(
            old_bus,
            emission(full_findings(solver, board, topology, names_of(board, old_nets))),
        )
        &&& self.currents_after(
            before,
            solver,
            topology,
            states_now(solver, board, topology),
            every_cluster(topology),
        )
        &&& self.solves_counted() == counted(
            before.solves_counted() + solves_in_full(solver, board, topology),
        )
    }

    /// Add to the count of solves.
    fn count_solves(&mut self, solves: u128)
        requires
            solves <= 3 * (usize::MAX as u128),
        ensures
            *final(self) == (Resolver {
                escalated_solves: final(self).escalated_solves,
                ..*old(self)
            }),
            final(self).escalated_solves == counted(old(self).escalated_solves + solves),
    {
        let total: u128 = self.escalated_solves as u128 + solves;
        let wrapped: u128 = total % 0x1_0000_0000_0000_0000;
        self.escalated_solves = wrapped as u64;
    }

    /// Decide every terminal at its own cluster. Returns what they hold and
    /// how many fights were solved.
    fn decide_all<S: ClusterSolver>(&self, topology: &Topology, solver: &S) -> (r: (
        Vec<TerminalState>,
        u128,
    ))
        requires
            self.carries(*topology),
        ensures
            r.0@ == states_now(solver, self.board, topology@),
            r.1 == fights_among(self.board, topology@, topology@.terminals.len()),
            r.1 <= usize::MAX,
    {
        let mut states: Vec<TerminalState> = Vec::new();
        let mut fought: u128 = 0;
        let mut p: usize = 0;
        while p < topology.terminals.len()
            invariant
                p <= topology.terminals@.len(),
                self.carries(*topology),
                states@ =~= states_now(solver, self.board, topology@).take(p as int),
                fought == fights_among(self.board, topology@, p as nat),
                fought <= p,
            decreases topology.terminals@.len() - p,
        {
            let (state, fight) = self.resolve_terminal(topology, p, solver);
            states.push(state);
            if fight {
                fought = fought + 1;
            }
            p += 1;
        }
        assert(states@ =~= states_now(solver, self.board, topology@));
        (states, fought)
    }

    /// Run a pass over the listed clusters with every terminal decided, and
    /// note that no cluster waits any more.
    fn conclude<S: ClusterSolver>(
        &mut self,
        topology: &Topology,
        cids: &Vec<usize>,
        states: Vec<TerminalState>,
        fought: u128,
        nets: &mut Vec<Net>,
        diagnostics: &mut Diagnostics,
        solver: &S,
    )
        requires
            old(self).carries(*topology),
            states@.len() == topology.terminals@.len(),
            old(nets)@.len() == topology.root_of@.len(),
            ascending(cids@),
            fought <= usize::MAX,
            forall|i: int|
                0 <= i < cids@.len() ==> (#[trigger] cids@[i]) < topology.clusters@.len(),
        ensures
            final(self).carries(*topology),
            final(self).board == old(self).board,
            final(self).identity == old(self).identity,
            final(self).net_count == old(self).net_count,
            final(self).dirty@.len() == 0,
            final(self).terminals_resolved,
            final(self).terminal_states == states,
            pass_shown(
                solver,
                old(self).board,
                topology@,
                states@,
                cids@,
                cids@.len() as int,
                old(nets)@,
                final(nets)@,
            ),
            final(diagnostics)@ == all_reported(
                old(diagnostics)@,
                emission(
                    gathered(
                        solver,
                        old(self).board,
                        topology@,
                        states@,
                        names_of(old(self).board, old(nets)@),
                        cids@,
                        cids@.len(),
                    ),
                ),
            ),
            final(self).currents_after(old(self), solver, topology@, states@, cids@),
            final(self).solves_counted() == counted(
                old(self).solves_counted() + fought + solves_of(
                    old(self).board,
                    topology@,
                    states@,
                    cids@,
                    cids@.len(),
                ),
            ),
    {
        let ran: u128 = self.run_pass(topology, cids, &states, nets, diagnostics, solver);
        assert(self.currents_after(old(self), solver, topology@, states@, cids@)) by {
            reveal(Resolver::currents_after);
        }
        let ghost after = *self;
        assert(cids.len() <= usize::MAX);
        self.count_solves(fought + ran);
        self.terminal_states = states;
        self.terminals_resolved = true;
        self.dirty = Vec::new();
        proof {
            same_tables_same_currents(&after, self, old(self), solver, topology@, states@, cids@);
        }
    }

    /// Run a pass over every cluster.
    fn full_pass<S: ClusterSolver>(
        &mut self,
        topology: &Topology,
        nets: &mut Vec<Net>,
        diagnostics: &mut Diagnostics,
        solver: &S,
    )
        requires
            old(self).carries(*topology),
            old(nets)@.len() == topology.root_of@.len(),
        ensures
            final(self).carries(*topology),
            final(self).board == old(self).board,
            final(self).identity == old(self).identity,
            final(self).net_count == old(self).net_count,
            final(self).dirty@.len() == 0,
            final(self).terminals_resolved,
            final(self).terminal_states@ == states_now(solver, old(self).board, topology@),
            same_nets(old(nets)@, final(nets)@),
            forall|i: int|
                0 <= i < final(nets)@.len() ==> resolved(
                    solver,
                    old(self).board,
                    topology@,
                    #[trigger] final(nets)@[i],
                    i,
                ),
            final(diagnostics)@ == all_reported(
                old(diagnostics)@,
                emission(
                    full_findings(
                        solver,
                        old(self).board,
                        topology@,
                        names_of(old(self).board, old(nets)@),
                    ),
                ),
            ),
            final(self).currents_after(
                old(self),
                solver,
                topology@,
                states_now(solver, old(self).board, topology@),
                every_cluster(topology@),
            ),
            final(self).solves_counted() == counted(
                old(self).solves_counted() + solves_in_full(solver, old(self).board, topology@),
            ),
    {
        let (states, fought) = self.decide_all(topology, solver);
        let mut cids: Vec<usize> = Vec::new();
        let mut cid: usize = 0;
        while cid < topology.clusters.len()
            invariant
                cid <= topology.clusters@.len(),
                cids@ =~= Seq::new(cid as nat, |x: int| x as usize),
            decreases topology.clusters@.len() - cid,
        {
            cids.push(cid);
            cid += 1;
        }
        assert(cids@ =~= every_cluster(topology@));
        self.conclude(topology, &cids, states, fought, nets, diagnostics, solver);
        proof {
            full_pass_shows(solver, self.board, topology@, old(nets)@, nets@);
        }
    }

    /// Run one full resolution pass: assign every net a state from the
    /// current drive table and report findings. The terminals are decided
    /// first, each at its own cluster.
    pub fn resolve<S: ClusterSolver>(
        &mut self,
        nets: &mut Vec<Net>,
        diagnostics: &mut Diagnostics,
        solver: &S,
    )
        requires
            old(self).well_formed(),
            old(self).fits(old(nets)@.len()),
        ensures
            final(self).well_formed(),
            final(self).same_board(old(self)),
            same_nets(old(nets)@, final(nets)@),
            final(self).swept_fully(
                old(self),
                solver,
                old(nets)@,
                final(nets)@,
                old(diagnostics)@,
                final(diagnostics)@,
            ),
    {
        let n: usize = nets.len();
        let ghost structure = self.structure(n as nat);
        self.ensure_topology(n);
        let ghost ensured = *self;
        assert(ensured.roots(n as nat) == old(self).roots(n as nat));
        let taken = self.topology.take();
        match taken {
            None => {},
            Some(topology) => {
                assert(topology@ == structure);
                let ghost before = *self;
                self.full_pass(&topology, nets, diagnostics, solver);
                let ghost after = *self;
                self.topology = Some(topology);
                proof {
                    same_tables_same_currents(
                        &after,
                        self,
                        &before,
                        solver,
                        structure,
                        states_now(solver, self.board, structure),
                        every_cluster(structure),
                    );
                    assert forall|m: nat| #[trigger] self.roots(m) == old(self).roots(m) by {
                        assert(ensured.roots(m) == old(self).roots(m));
                    }
                    assert forall|e: int| #[trigger]
                        before.endpoint_current(e) == old(self).endpoint_current(e) by {
                        assert(ensured.endpoint_current(e) == old(self).endpoint_current(e));
                    }
                    assert forall|e: int| #[trigger]
                        before.element_current(e) == old(self).element_current(e) by {
                        assert(ensured.element_current(e) == old(self).element_current(e));
                    }
                    started_the_same(
                        old(self),
                        &before,
                        self,
                        solver,
                        structure,
                        states_now(solver, self.board, structure),
                        every_cluster(structure),
                    );
                }
            },
        }
    }
}

/// The currents of a pass depend on the tables alone.
proof fn same_tables_same_currents<S: ClusterSolver>(
    a: &Resolver,
    b: &Resolver,
    start: &Resolver,
    solver: &S,
    topology: TopologyView,
    states: Seq<TerminalState>,
    cids: Seq<usize>,
)
    requires
        a.endpoint_currents == b.endpoint_currents,
        a.element_currents == b.element_currents,
        a.currents_changed == b.currents_changed,
        a.currents_after(start, solver, topology, states, cids),
    ensures
        b.currents_after(start, solver, topology, states, cids),
{
    reveal(Resolver::currents_after);
    assert forall|e: int| #[trigger] b.endpoint_current(e) == a.endpoint_current(e) by {}
    assert forall|e: int| #[trigger] b.element_current(e) == a.element_current(e) by {}
    moved_alike(a, start, b, start);
}

proof fn started_the_same<S: ClusterSolver>(
    start: &Resolver,
    before: &Resolver,
    after: &Resolver,
    solver: &S,
    topology: TopologyView,
    states: Seq<TerminalState>,
    cids: Seq<usize>,
)
    requires
        before.board() == start.board(),
        forall|e: int| #[trigger] before.endpoint_current(e) == start.endpoint_current(e),
        forall|e: int| #[trigger] before.element_current(e) == start.element_current(e),
        before.currents_moved() == start.currents_moved(),
        after.currents_after(before, solver, topology, states, cids),
    ensures
        after.currents_after(start, solver, topology, states, cids),
{
    reveal(Resolver::currents_after);
    assert forall|e: int| #[trigger] after.endpoint_current(e) == endpoint_after(
        solver,
        start.board(),
        topology,
        states,
        cids,
        cids.len() as int,
        e,
        start.endpoint_current(e),
    ) by {
        assert(before.endpoint_current(e) == start.endpoint_current(e));
    }
    assert forall|e: int| #[trigger] after.element_current(e) == element_after(
        solver,
        start.board(),
        topology,
        states,
        cids,
        cids.len() as int,
        e,
        start.element_current(e),
    ) by {
        assert(before.element_current(e) == start.element_current(e));
    }
    moved_alike(after, before, after, start);
}

/// Whether a current differs between two resolvers depends on their tables
/// alone.
proof fn moved_alike(a: &Resolver, b: &Resolver, c: &Resolver, d: &Resolver)
    requires
        forall|e: int| #[trigger] a.endpoint_current(e) == c.endpoint_current(e),
        forall|e: int| #[trigger] a.element_current(e) == c.element_current(e),
        forall|e: int| #[trigger] b.endpoint_current(e) == d.endpoint_current(e),
        forall|e: int| #[trigger] b.element_current(e) == d.element_current(e),
    ensures
        (exists|e: int| #[trigger] a.endpoint_current(e) != b.endpoint_current(e)) == (exists|
            e: int,
        | #[trigger] c.endpoint_current(e) != d.endpoint_current(e)),
        (exists|e: int| #[trigger] a.element_current(e) != b.element_current(e)) == (exists|
            e: int,
        | #[trigger] c.element_current(e) != d.element_current(e)),
{
    if exists|e: int| #[trigger] a.endpoint_current(e) != b.endpoint_current(e) {
        let e = choose|e: int| #[trigger] a.endpoint_current(e) != b.endpoint_current(e);
        assert(c.endpoint_current(e) != d.endpoint_current(e));
    }
    if exists|e: int| #[trigger] c.endpoint_current(e) != d.endpoint_current(e) {
        let e = choose|e: int| #[trigger] c.endpoint_current(e) != d.endpoint_current(e);
        assert(a.endpoint_current(e) != b.endpoint_current(e));
    }
    if exists|e: int| #[trigger] a.element_current(e) != b.element_current(e) {
        let e = choose|e: int| #[trigger] a.element_current(e) != b.element_current(e);
        assert(c.element_current(e) != d.element_current(e));
    }
    if exists|e: int| #[trigger] c.element_current(e) != d.element_current(e) {
        let e = choose|e: int| #[trigger] c.element_current(e) != d.element_current(e);
        assert(a.element_current(e) != b.element_current(e));
    }
}

/// A pass over every cluster shows every net what the board resolves it to.
proof fn full_pass_shows<S: ClusterSolver>(
    solver: &S,
    board: Board,
    topology: TopologyView,
    before: Seq<Net>,
    after: Seq<Net>,
)
    requires
        describes(topology, board),
        before.len() == topology.root_of.len(),
        topology.clusters.len() <= usize::MAX,
        pass_shown(
            solver,
            board,
            topology,
            states_now(solver, board, topology),
            every_cluster(topology),
            topology.clusters.len() as int,
            before,
            after,
        ),
    ensures
        forall|i: int|
            0 <= i < after.len() ==> resolved(solver, board, topology, #[trigger] after[i], i),
{
    layout_is_sound(board.shape(), topology.root_of);
    let cids = every_cluster(topology);
    assert(cids.take(cids.len() as int) =~= cids);
    assert forall|i: int| 0 <= i < after.len() implies resolved(
        solver,
        board,
        topology,
        #[trigger] after[i],
        i,
    ) by {
        let cid = topology.index[i];
        assert(cids[cid as int] == cid);
    }
}

/// Which clusters wait depends on the list of them alone.
proof fn same_list_same_waiting(a: &Resolver, b: &Resolver)
    requires
        a.dirty@ == b.dirty@,
    ensures
        forall|cid: int| #[trigger] a.awaits(cid) == b.awaits(cid),
        forall|cid: int| #[trigger] b.awaits(cid) == a.awaits(cid),
{
    assert forall|cid: int| #[trigger] a.awaits(cid) == b.awaits(cid) by {
        if a.awaits(cid) {
            let i = choose|i: int| 0 <= i < a.dirty@.len() && #[trigger] a.dirty@[i] == cid;
            assert(b.dirty@[i] == cid);
        }
        if b.awaits(cid) {
            let i = choose|i: int| 0 <= i < b.dirty@.len() && #[trigger] b.dirty@[i] == cid;
            assert(a.dirty@[i] == cid);
        }
    }
}

impl Resolver {
    /// Set a cluster waiting.
    fn mark(&mut self, cid: usize)
        ensures
            *final(self) == (Resolver { dirty: final(self).dirty, ..*old(self) }),
            forall|x: int| #[trigger] final(self).awaits(x) <==> old(self).awaits(x) || x == cid,
            forall|i: int|
                0 <= i < final(self).dirty@.len() ==> (#[trigger] final(self).dirty@[i]) == cid
                    || old(self).dirty@.contains(final(self).dirty@[i]),
    {
        let known = listed(&self.dirty, cid);
        if known {
            proof {
                let k = choose|k: int| 0 <= k < self.dirty@.len() && self.dirty@[k] == cid;
                assert(self.dirty@[k] == cid as int);
            }
            return ;
        }
        let ghost before = self.dirty@;
        self.dirty.push(cid);
        proof {
            assert(self.dirty@[before.len() as int] == cid);
            assert forall|x: int| #[trigger] self.awaits(x) <==> old(self).awaits(x) || x
                == cid by {
                if self.awaits(x) {
                    let i = choose|i: int|
                        0 <= i < self.dirty@.len() && #[trigger] self.dirty@[i] == x;
                    if i < before.len() {
                        assert(old(self).dirty@[i] == x);
                    }
                }
                if old(self).awaits(x) {
                    let i = choose|i: int|
                        0 <= i < old(self).dirty@.len() && #[trigger] old(self).dirty@[i] == x;
                    assert(self.dirty@[i] == x);
                }
            }
            assert forall|i: int| 0 <= i < self.dirty@.len() implies (#[trigger] self.dirty@[i])
                == cid || before.contains(self.dirty@[i]) by {
                if i < before.len() {
                    assert(before[i] == self.dirty@[i]);
                }
            }
        }
    }
}

} // verus!
