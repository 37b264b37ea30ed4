//! Two boards declared alike resolve alike, and a run of changes comes to the
//! same however much of the board each pass covers.
use vstd::prelude::*;

use crate::board::{Board, BoardView, DriveSlot, Element};
use crate::cluster::ClusterSolver;
use crate::coupling::CouplingCapacitor;
use crate::diagnostics::{all_reported, all_reported_properties, FindingView};
use crate::emission::emission;
use crate::net::{normalised, Drive, EndpointId, Net};
use crate::pass::{describes, names_of};
use crate::paths::Edge;
use crate::quantity::Amps;
use crate::reach::{arrivals_from, is_clock, slot_reach};
use crate::resolver::drives::{driven, reheld};
use crate::resolver::laws::{
    clean_changes_keep_step, dirty_pass_matches_full_pass, full_pass_is_in_step, settled_describes,
};
use crate::resolver::{
    element_after, element_cluster, endpoint_after, endpoint_cluster, every_cluster, fights_among,
    full_findings, gathered, resolved, same_nets, scene_facts, scene_in, scene_now, solves_of,
    sources_hold, states_now, Resolver,
};
use crate::scene::Names;
use crate::terminal::{TerminalDrive, TerminalId, TerminalSource, TerminalState};
use crate::topology::{Topology, TopologyView};

verus! {

/// Two capacitors are one but for where their text is kept.
pub open spec fn same_capacitor(a: CouplingCapacitor, b: CouplingCapacitor) -> bool {
    a.a == b.a && a.b == b.b && a.farads == b.farads && a.reference@ == b.reference@
}

/// Two slots are one but for where their text is kept.
pub open spec fn same_slot(a: DriveSlot, b: DriveSlot) -> bool {
    a.net == b.net && a.pin@ == b.pin@ && a.drive == b.drive && a.terminal == b.terminal && a.port
        == b.port
}

/// Two elements are one but for where their text is kept.
pub open spec fn same_element(a: Element, b: Element) -> bool {
    a.a == b.a && a.b == b.b && a.curve == b.curve && a.control == b.control && a.reference@
        == b.reference@
}

/// Two boards declare and drive the same.
#[verifier::opaque]
pub open spec fn alike(a: BoardView, b: BoardView) -> bool {
    &&& a.edges == b.edges
    &&& a.couplings.len() == b.couplings.len()
    &&& forall|i: int|
        0 <= i < a.couplings.len() ==> same_capacitor(
            #[trigger] a.couplings[i],
            #[trigger] b.couplings[i],
        )
    &&& a.slots.len() == b.slots.len()
    &&& forall|i: int|
        0 <= i < a.slots.len() ==> same_slot(#[trigger] a.slots[i], #[trigger] b.slots[i])
    &&& a.elements.len() == b.elements.len()
    &&& forall|i: int|
        0 <= i < a.elements.len() ==> same_element(
            #[trigger] a.elements[i],
            #[trigger] b.elements[i],
        )
    &&& a.power_sources == b.power_sources
    &&& a.stuck_sources == b.stuck_sources
    &&& a.digital_senses == b.digital_senses
    &&& a.analog_senses == b.analog_senses
    &&& a.current_instruments == b.current_instruments
    &&& a.power_senses == b.power_senses
}

/// Nets are called the same.
#[verifier::opaque]
pub open spec fn named_alike(a: Seq<Net>, b: Seq<Net>) -> bool {
    &&& a.len() == b.len()
    &&& forall|i: int| 0 <= i < a.len() ==> (#[trigger] a[i]).name@ == (#[trigger] b[i]).name@
}

/// Nets show the same.
pub open spec fn shown_alike(a: Seq<Net>, b: Seq<Net>) -> bool {
    &&& a.len() == b.len()
    &&& forall|i: int|
        0 <= i < a.len() ==> (#[trigger] a[i]).state == (#[trigger] b[i]).state && a[i].volts
            == b[i].volts
}

/// Two lists hold the same findings.
#[verifier::opaque]
pub open spec fn same_findings(a: Seq<FindingView>, b: Seq<FindingView>) -> bool {
    forall|finding: FindingView| #[trigger] a.contains(finding) <==> #[trigger] b.contains(finding)
}

impl Resolver {
    /// Another resolver over a board declared and driven alike, with the same
    /// merges.
    pub open spec fn built_like(&self, other: &Resolver) -> bool {
        &&& alike(self.board()@, other.board()@)
        &&& forall|n: nat| #[trigger] self.roots(n) == other.roots(n)
    }

    /// The currents stored are another's.
    pub open spec fn carries_like(&self, other: &Resolver) -> bool {
        &&& forall|e: int| #[trigger] self.endpoint_current(e) == other.endpoint_current(e)
        &&& forall|e: int| #[trigger] self.element_current(e) == other.element_current(e)
    }
}

/// Declaring the same part on two boards that are alike leaves them alike.
pub proof fn boards_grow_alike(
    a: BoardView,
    b: BoardView,
    edge: Edge,
    capacitors: (CouplingCapacitor, CouplingCapacitor),
    slots: (DriveSlot, DriveSlot),
    elements: (Element, Element),
    source: TerminalSource,
    net: usize,
)
    requires
        alike(a, b),
        same_capacitor(capacitors.0, capacitors.1),
        same_slot(slots.0, slots.1),
        same_element(elements.0, elements.1),
    ensures
        alike(
            BoardView { edges: a.edges.push(edge), ..a },
            BoardView { edges: b.edges.push(edge), ..b },
        ),
        alike(
            BoardView { couplings: a.couplings.push(capacitors.0), ..a },
            BoardView { couplings: b.couplings.push(capacitors.1), ..b },
        ),
        alike(
            BoardView { slots: a.slots.push(slots.0), ..a },
            BoardView { slots: b.slots.push(slots.1), ..b },
        ),
        alike(
            BoardView { elements: a.elements.push(elements.0), ..a },
            BoardView { elements: b.elements.push(elements.1), ..b },
        ),
        alike(
            BoardView { power_sources: a.power_sources.push(source), ..a },
            BoardView { power_sources: b.power_sources.push(source), ..b },
        ),
        alike(
            BoardView { stuck_sources: a.stuck_sources.push(source), ..a },
            BoardView { stuck_sources: b.stuck_sources.push(source), ..b },
        ),
        alike(
            BoardView { digital_senses: a.digital_senses.push(net), ..a },
            BoardView { digital_senses: b.digital_senses.push(net), ..b },
        ),
        alike(
            BoardView { analog_senses: a.analog_senses.push(net), ..a },
            BoardView { analog_senses: b.analog_senses.push(net), ..b },
        ),
        alike(
            BoardView { current_instruments: a.current_instruments.push(net), ..a },
            BoardView { current_instruments: b.current_instruments.push(net), ..b },
        ),
        alike(
            BoardView { power_senses: a.power_senses.push(net), ..a },
            BoardView { power_senses: b.power_senses.push(net), ..b },
        ),
{
    reveal(alike);
}

/// Boards that are alike have one shape.
proof fn shapes_alike(a: Board, b: Board)
    requires
        alike(a@, b@),
    ensures
        a.shape() == b.shape(),
{
    reveal(alike);
    let (x, y) = (a.shape(), b.shape());
    assert forall|i: int| 0 <= i < x.couplings.len() implies x.couplings[i] == y.couplings[i] by {
        assert(same_capacitor(a@.couplings[i], b@.couplings[i]));
    }
    assert(x.couplings =~= y.couplings);
    assert forall|i: int| 0 <= i < x.slot_nets.len() implies x.slot_nets[i] == y.slot_nets[i]
        && x.slot_is_terminal[i] == y.slot_is_terminal[i] by {
        assert(same_slot(a@.slots[i], b@.slots[i]));
    }
    assert(x.slot_nets =~= y.slot_nets);
    assert(x.slot_is_terminal =~= y.slot_is_terminal);
    assert forall|i: int| 0 <= i < x.elements.len() implies x.elements[i] == y.elements[i] by {
        assert(same_element(a@.elements[i], b@.elements[i]));
    }
    assert(x.elements =~= y.elements);
}

/// Boards that are alike call things the same.
proof fn names_alike(a: Board, b: Board, a_nets: Seq<Net>, b_nets: Seq<Net>)
    requires
        alike(a@, b@),
        named_alike(a_nets, b_nets),
    ensures
        names_of(a, a_nets) == names_of(b, b_nets),
{
    reveal(alike);
    reveal(named_alike);
    let (x, y) = (names_of(a, a_nets), names_of(b, b_nets));
    assert(x.nets =~= y.nets);
    assert forall|i: int| 0 <= i < x.pins.len() implies x.pins[i] == y.pins[i] && x.slot_nets[i]
        == y.slot_nets[i] by {
        assert(same_slot(a@.slots[i], b@.slots[i]));
    }
    assert(x.pins =~= y.pins);
    assert(x.slot_nets =~= y.slot_nets);
    assert forall|i: int| 0 <= i < x.elements.len() implies x.elements[i] == y.elements[i] by {
        assert(same_element(a@.elements[i], b@.elements[i]));
    }
    assert(x.elements =~= y.elements);
    assert forall|i: int| 0 <= i < x.capacitors.len() implies x.capacitors[i]
        == y.capacitors[i] by {
        assert(same_capacitor(a@.couplings[i], b@.couplings[i]));
    }
    assert(x.capacitors =~= y.capacitors);
}

/// The same rates arrive over boards that are alike.
proof fn arrivals_alike(a: Board, b: Board, topology: TopologyView, cid: int, k: nat)
    requires
        alike(a@, b@),
        k <= a.slots@.len(),
    ensures
        arrivals_from(a, topology, cid, k) == arrivals_from(b, topology, cid, k),
    decreases k,
{
    reveal(alike);
    if k > 0 {
        arrivals_alike(a, b, topology, cid, (k - 1) as nat);
        shapes_alike(a, b);
        assert(same_slot(a@.slots[k - 1], b@.slots[k - 1]));
        assert(is_clock(a, k - 1) == is_clock(b, k - 1));
        assert(slot_reach(a, topology, k - 1) == slot_reach(b, topology, k - 1));
    }
}

/// A cluster reads the same of boards that are alike.
proof fn scenes_alike(
    a: Board,
    b: Board,
    topology: &Topology,
    states: Seq<TerminalState>,
    cid: int,
)
    requires
        describes(topology@, a),
        alike(a@, b@),
        0 <= cid < topology@.clusters.len(),
    ensures
        scene_in(a, topology@, states, cid) == scene_in(b, topology@, states, cid),
{
    reveal(alike);
    let topo = topology@;
    scene_facts(a, topology, states, cid);
    arrivals_alike(a, b, topo, cid, a.slots@.len());
    let (x, y) = (scene_in(a, topo, states, cid), scene_in(b, topo, states, cid));
    let c = topo.clusters[cid];
    assert forall|k: int| 0 <= k < c.slots.len() implies x.slot_roots[k] == y.slot_roots[k]
        && x.drives[k] == y.drives[k] by {
        assert(same_slot(a@.slots[c.slots[k] as int], b@.slots[c.slots[k] as int]));
    }
    assert(x.slot_roots =~= y.slot_roots);
    assert(x.drives =~= y.drives);
    assert forall|k: int| 0 <= k < c.elements.len() implies x.elements[k] == y.elements[k] by {
        assert(same_element(
            a@.elements[c.elements[k] as int],
            b@.elements[c.elements[k] as int],
        ));
    }
    assert(x.elements =~= y.elements);
}

/// The terminals of boards that are alike hold the same.
proof fn states_alike<S: ClusterSolver>(solver: &S, a: Board, b: Board, topology: TopologyView)
    requires
        alike(a@, b@),
    ensures
        states_now(solver, a, topology) == states_now(solver, b, topology),
{
    reveal(alike);
    assert forall|p: int| 0 <= p < topology.terminals.len() implies states_now(
        solver,
        a,
        topology,
    )[p] == states_now(solver, b, topology)[p] by {
        assert(sources_hold(a, topology.terminals[p].sources) =~= sources_hold(
            b,
            topology.terminals[p].sources,
        ));
    }
    assert(states_now(solver, a, topology) =~= states_now(solver, b, topology));
}

/// Boards that are alike have the same findings.
proof fn findings_alike<S: ClusterSolver>(
    solver: &S,
    a: Board,
    b: Board,
    topology: &Topology,
    states: Seq<TerminalState>,
    names: Names,
    k: nat,
)
    requires
        describes(topology@, a),
        alike(a@, b@),
        k <= topology@.clusters.len(),
    ensures
        gathered(solver, a, topology@, states, names, every_cluster(topology@), k) == gathered(
            solver,
            b,
            topology@,
            states,
            names,
            every_cluster(topology@),
            k,
        ),
    decreases k,
{
    if k > 0 {
        findings_alike(solver, a, b, topology, states, names, (k - 1) as nat);
        assert(topology.clusters.len() <= usize::MAX);
        assert(every_cluster(topology@)[k - 1] as int == k - 1);
        scenes_alike(a, b, topology, states, k - 1);
    }
}

/// What a pass over boards that are alike resolves and finds.
proof fn passes_alike<S: ClusterSolver>(
    a: &Resolver,
    b: &Resolver,
    solver: &S,
    a_nets: Seq<Net>,
    b_nets: Seq<Net>,
)
    requires
        a.well_formed(),
        a.settled_for(a_nets.len()),
        a.built_like(b),
        named_alike(a_nets, b_nets),
    ensures
        a.structure(a_nets.len()) == b.structure(b_nets.len()),
        states_now(solver, a.board(), a.structure(a_nets.len())) == states_now(
            solver,
            b.board(),
            b.structure(b_nets.len()),
        ),
        full_findings(
            solver,
            a.board(),
            a.structure(a_nets.len()),
            names_of(a.board(), a_nets),
        ) == full_findings(
            solver,
            b.board(),
            b.structure(b_nets.len()),
            names_of(b.board(), b_nets),
        ),
        forall|cid: int|
            0 <= cid < a.structure(a_nets.len()).clusters.len() ==> #[trigger] scene_now(
                solver,
                a.board(),
                a.structure(a_nets.len()),
                cid,
            ) == scene_now(solver, b.board(), b.structure(b_nets.len()), cid),
        forall|i: int|
            0 <= i < a_nets.len() ==> (#[trigger] a.structure(a_nets.len()).index[i])
                < a.structure(a_nets.len()).clusters.len(),
{
    reveal(named_alike);
    let n = a_nets.len();
    settled_describes(a, n);
    shapes_alike(a.board(), b.board());
    assert(a.roots(n) == b.roots(n));
    names_alike(a.board(), b.board(), a_nets, b_nets);
    let structure = a.structure(n);
    states_alike(solver, a.board(), b.board(), structure);
    crate::topology::layout_is_sound(a.board().shape(), structure.root_of);
    if let Some(topology) = a.topology {
        assert(topology@ == structure);
        let states = states_now(solver, a.board(), structure);
        findings_alike(
            solver,
            a.board(),
            b.board(),
            &topology,
            states,
            names_of(a.board(), a_nets),
            structure.clusters.len(),
        );
        assert forall|cid: int| 0 <= cid < structure.clusters.len() implies #[trigger] scene_now(
            solver,
            a.board(),
            structure,
            cid,
        ) == scene_now(solver, b.board(), structure, cid) by {
            scenes_alike(a.board(), b.board(), &topology, states, cid);
        }
    }
}

/// Boards that are alike take as many solves.
proof fn solves_alike(
    a: Board,
    b: Board,
    topology: &Topology,
    states: Seq<TerminalState>,
    k: nat,
)
    requires
        describes(topology@, a),
        alike(a@, b@),
        k <= topology@.clusters.len(),
    ensures
        solves_of(a, topology@, states, every_cluster(topology@), k) == solves_of(
            b,
            topology@,
            states,
            every_cluster(topology@),
            k,
        ),
    decreases k,
{
    if k > 0 {
        solves_alike(a, b, topology, states, (k - 1) as nat);
        assert(topology.clusters.len() <= usize::MAX);
        assert(every_cluster(topology@)[k - 1] as int == k - 1);
        scenes_alike(a, b, topology, states, k - 1);
    }
}

/// The terminals of boards that are alike fight over as much.
proof fn fights_alike(a: Board, b: Board, topology: TopologyView, k: nat)
    requires
        alike(a@, b@),
    ensures
        fights_among(a, topology, k) == fights_among(b, topology, k),
    decreases k,
{
    reveal(alike);
    if k > 0 {
        fights_alike(a, b, topology, (k - 1) as nat);
        assert(sources_hold(a, topology.terminals[k - 1].sources) =~= sources_hold(
            b,
            topology.terminals[k - 1].sources,
        ));
    }
}

/// A full pass over boards that are alike stores the same currents.
proof fn currents_alike<S: ClusterSolver>(
    solver: &S,
    a: Board,
    b: Board,
    topology: &Topology,
    states: Seq<TerminalState>,
    e: int,
    endpoint: Option<Amps>,
    element: Option<Amps>,
)
    requires
        describes(topology@, a),
        alike(a@, b@),
    ensures
        ({
            let cids = every_cluster(topology@);
            let k = cids.len() as int;
            &&& endpoint_after(solver, a, topology@, states, cids, k, e, endpoint)
                == endpoint_after(solver, b, topology@, states, cids, k, e, endpoint)
            &&& element_after(solver, a, topology@, states, cids, k, e, element) == element_after(
                solver,
                b,
                topology@,
                states,
                cids,
                k,
                e,
                element,
            )
        }),
{
    reveal(alike);
    let topo = topology@;
    let cids = every_cluster(topo);
    shapes_alike(a, b);
    assert(topology.clusters.len() <= usize::MAX);
    if 0 <= e < a.slots@.len() {
        assert(same_slot(a@.slots[e], b@.slots[e]));
    }
    assert(cids.take(cids.len() as int) =~= cids);
    assert(endpoint_cluster(a, topo, e) == endpoint_cluster(b, topo, e));
    if let Some(cid) = endpoint_cluster(a, topo, e) {
        if cids.contains(cid) {
            scenes_alike(a, b, topology, states, cid as int);
        }
    }
    assert(element_cluster(a, topo, e) == element_cluster(b, topo, e));
    if let Some(cid) = element_cluster(a, topo, e) {
        if cids.contains(cid) {
            scenes_alike(a, b, topology, states, cid as int);
        }
    }
}

/// A resolver built again by the same calls gives the same: a full pass over
/// each resolves every net alike, finds the same in the same order, stores
/// the same currents and counts the same solves.
pub proof fn built_alike_resolves_alike<S: ClusterSolver>(
    a: (&Resolver, &Resolver),
    b: (&Resolver, &Resolver),
    solver: &S,
    a_nets: (Seq<Net>, Seq<Net>),
    b_nets: (Seq<Net>, Seq<Net>),
    old_bus: Seq<FindingView>,
    a_bus: Seq<FindingView>,
    b_bus: Seq<FindingView>,
)
    requires
        a.0.built_like(b.0),
        a.0.carries_like(b.0),
        a.0.solves_counted() == b.0.solves_counted(),
        named_alike(a_nets.0, b_nets.0),
        a.1.well_formed(),
        a.1.same_board(a.0),
        same_nets(a_nets.0, a_nets.1),
        a.1.swept_fully(a.0, solver, a_nets.0, a_nets.1, old_bus, a_bus),
        b.1.same_board(b.0),
        same_nets(b_nets.0, b_nets.1),
        b.1.swept_fully(b.0, solver, b_nets.0, b_nets.1, old_bus, b_bus),
    ensures
        shown_alike(a_nets.1, b_nets.1),
        a_bus == b_bus,
        a.1.held_states() == b.1.held_states(),
        a.1.carries_like(b.1),
        a.1.solves_counted() == b.1.solves_counted(),
{
    reveal(named_alike);
    let n = a_nets.0.len();
    assert(a.1.roots(n) == a.0.roots(n));
    assert(b.1.roots(n) == b.0.roots(n));
    assert(a.1.built_like(b.1)) by {
        assert forall|m: nat| #[trigger] a.1.roots(m) == b.1.roots(m) by {
            assert(a.1.roots(m) == a.0.roots(m));
            assert(b.1.roots(m) == b.0.roots(m));
            assert(a.0.roots(m) == b.0.roots(m));
        }
    }
    passes_alike(a.1, b.1, solver, a_nets.0, b_nets.0);
    let structure = a.1.structure(n);
    assert forall|i: int| 0 <= i < n implies (#[trigger] a_nets.1[i]).state == (
    #[trigger] b_nets.1[i]).state && a_nets.1[i].volts == b_nets.1[i].volts by {
        assert(structure.index[i] < structure.clusters.len());
        assert(resolved(solver, a.1.board(), structure, a_nets.1[i], i));
        assert(resolved(solver, b.1.board(), structure, b_nets.1[i], i));
        assert(scene_now(solver, a.1.board(), structure, structure.index[i] as int) == scene_now(
            solver,
            b.1.board(),
            structure,
            structure.index[i] as int,
        ));
    }
    settled_describes(a.1, n);
    let states = states_now(solver, a.1.board(), structure);
    if let Some(topology) = a.1.topology {
        assert(topology@ == structure);
        reveal(Resolver::currents_after);
        assert forall|e: int| #[trigger]
            a.1.endpoint_current(e) == b.1.endpoint_current(e) && a.1.element_current(e)
            == b.1.element_current(e) by {
            assert(a.0.endpoint_current(e) == b.0.endpoint_current(e));
            assert(a.0.element_current(e) == b.0.element_current(e));
            currents_alike(
                solver,
                a.1.board(),
                b.1.board(),
                &topology,
                states,
                e,
                a.0.endpoint_current(e),
                a.0.element_current(e),
            );
        }
        assert forall|e: int| #[trigger]
            a.1.element_current(e) == b.1.element_current(e) by {
            assert(a.1.endpoint_current(e) == b.1.endpoint_current(e));
        }
        solves_alike(
            a.1.board(),
            b.1.board(),
            &topology,
            states,
            structure.clusters.len(),
        );
        fights_alike(a.1.board(), b.1.board(), structure, structure.terminals.len());
    }
}

/// A change of what drives a board.
pub enum Change {
    /// An endpoint's drive is replaced.
    Drive {
        /// The endpoint.
        endpoint: EndpointId,
        /// What drives it; `None` releases it.
        drive: Option<Drive>,
    },
    /// What a terminal source holds is replaced.
    Terminal {
        /// The source.
        id: TerminalId,
        /// What it holds.
        drive: TerminalDrive,
    },
}

impl Resolver {
    /// A change was made by [`Resolver::set_drive`] or
    /// [`Resolver::set_terminal`].
    #[verifier::opaque]
    pub open spec fn took(&self, before: &Resolver, change: Change) -> bool {
        &&& self.well_formed()
        &&& self.same_results(before)
        &&& forall|n: nat| #[trigger] before.settled_for(n) ==> self.keeps_clean(before, n)
        &&& match change {
            Change::Drive { endpoint, drive } => {
                let slot = endpoint.0 as int;
                if slot < before.board()@.slots.len() && before.board()@.slots[slot].drive
                    != normalised(drive) {
                    self.board()@ == driven(before.board()@, slot, normalised(drive))
                } else {
                    *self == *before
                }
            },
            Change::Terminal { id, drive } => {
                &&& before.board().declares(id)
                &&& if before.board().held_at(id).holds_same(drive) {
                    *self == *before
                } else {
                    self.board()@ == reheld(before.board()@, id, drive)
                }
            },
        }
    }
}

/// A resolver, the nets it resolves and the findings so far.
pub struct Moment {
    /// The resolver.
    pub resolver: Resolver,
    /// The nets.
    pub nets: Seq<Net>,
    /// The findings so far.
    pub bus: Seq<FindingView>,
}

impl Moment {
    /// [`Resolver::resolve`] led here from `from`, over the nets and onto the
    /// findings of `before`.
    #[verifier::opaque]
    pub open spec fn resolved_from<S: ClusterSolver>(
        &self,
        from: &Resolver,
        before: &Moment,
        solver: &S,
    ) -> bool {
        &&& self.resolver.well_formed()
        &&& self.resolver.same_board(from)
        &&& same_nets(before.nets, self.nets)
        &&& self.resolver.swept_fully(from, solver, before.nets, self.nets, before.bus, self.bus)
    }

    /// [`Resolver::resolve_dirty`] led here from `from`, over the nets and
    /// onto the findings of `before`.
    #[verifier::opaque]
    pub open spec fn resolved_dirty_from<S: ClusterSolver>(
        &self,
        from: &Resolver,
        before: &Moment,
        solver: &S,
    ) -> bool {
        let n = before.nets.len();
        &&& self.resolver.well_formed()
        &&& self.resolver.same_board(from)
        &&& same_nets(before.nets, self.nets)
        &&& self.resolver.settled_for(n)
        &&& forall|cid: int| !#[trigger] self.resolver.awaits(cid)
        &&& from.settled_for(n) ==> self.resolver.swept(
            from,
            solver,
            from.structure(n),
            before.nets,
            self.nets,
            before.bus,
            self.bus,
        )
        &&& !from.settled_for(n) ==> self.resolver.swept_fully(
            from,
            solver,
            before.nets,
            self.nets,
            before.bus,
            self.bus,
        )
    }

    /// Every net shows the same as another's, and the same has been found.
    pub open spec fn agrees_with(&self, other: &Moment) -> bool {
        &&& shown_alike(self.nets, other.nets)
        &&& same_findings(self.bus, other.bus)
    }

    /// What two runs over boards that are alike keep.
    #[verifier::opaque]
    spec fn in_pace_with<S: ClusterSolver>(&self, other: &Moment, solver: &S) -> bool {
        &&& self.resolver.well_formed()
        &&& self.resolver.built_like(&other.resolver)
        &&& named_alike(self.nets, other.nets)
        &&& self.resolver.fully_resolved(solver, self.nets)
        &&& self.resolver.in_step(solver, self.nets)
        &&& self.resolver.on_bus(solver, self.nets, self.bus)
        &&& other.resolver.fully_resolved(solver, other.nets)
        &&& same_findings(self.bus, other.bus)
    }
}

/// A run of changes, each followed by a pass over the clusters it touched.
pub open spec fn runs_dirty<S: ClusterSolver>(
    run: Seq<Moment>,
    changed: Seq<Resolver>,
    changes: Seq<Change>,
    solver: &S,
) -> bool {
    &&& run.len() == changes.len() + 1
    &&& changed.len() == changes.len()
    &&& forall|k: int|
        0 <= k < changes.len() ==> (#[trigger] changed[k]).took(&run[k].resolver, changes[k])
            && run[k + 1].resolved_dirty_from(&changed[k], &run[k], solver)
}

/// A run of changes, each followed by a full pass.
pub open spec fn runs_fully<S: ClusterSolver>(
    run: Seq<Moment>,
    changed: Seq<Resolver>,
    changes: Seq<Change>,
    solver: &S,
) -> bool {
    &&& run.len() == changes.len() + 1
    &&& changed.len() == changes.len()
    &&& forall|k: int|
        0 <= k < changes.len() ==> (#[trigger] changed[k]).took(&run[k].resolver, changes[k])
            && run[k + 1].resolved_from(&changed[k], &run[k], solver)
}

/// The same change leaves boards that are alike so.
proof fn changes_alike(
    a: &Resolver,
    b: &Resolver,
    a_after: &Resolver,
    b_after: &Resolver,
    change: Change,
)
    requires
        a.built_like(b),
        a_after.took(a, change),
        b_after.took(b, change),
    ensures
        a_after.built_like(b_after),
{
    reveal(Resolver::took);
    reveal(alike);
    assert forall|n: nat| #[trigger] a_after.roots(n) == b_after.roots(n) by {
        assert(a_after.roots(n) == a.roots(n));
        assert(b_after.roots(n) == b.roots(n));
        assert(a.roots(n) == b.roots(n));
    }
    let (x, y) = (a.board()@, b.board()@);
    match change {
        Change::Drive { endpoint, drive } => {
            let slot = endpoint.0 as int;
            if slot < x.slots.len() {
                assert(same_slot(x.slots[slot], y.slots[slot]));
            }
        },
        Change::Terminal { id, drive } => {},
    }
}

/// A run that starts with a full pass over boards that are alike is in pace.
proof fn opening_in_pace<S: ClusterSolver>(
    a_start: &Moment,
    b_start: &Moment,
    a: &Moment,
    b: &Moment,
    solver: &S,
)
    requires
        a_start.resolver.well_formed(),
        a_start.resolver.fits(a_start.nets.len()),
        a_start.resolver.built_like(&b_start.resolver),
        named_alike(a_start.nets, b_start.nets),
        same_findings(a_start.bus, b_start.bus),
        a.resolved_from(&a_start.resolver, a_start, solver),
        b.resolved_from(&b_start.resolver, b_start, solver),
    ensures
        a.in_pace_with(b, solver),
{
    reveal(Moment::resolved_from);
    reveal(Moment::in_pace_with);
    full_pass_is_in_step(
        &a_start.resolver,
        &a.resolver,
        solver,
        a_start.nets,
        a.nets,
        a_start.bus,
        a.bus,
    );
    assert(a.resolver.built_like(&b.resolver)) by {
        same_boards_alike(&a_start.resolver, &b_start.resolver, &a.resolver, &b.resolver);
    }
    assert(named_alike(a.nets, b.nets)) by {
        names_stay_alike(a_start, b_start, a, b);
    }
    assert(same_findings(a.bus, b.bus)) by {
        bus_in_pace(&a_start.resolver, &b_start.resolver, a_start, b_start, a, b, solver);
    }
}

/// A pass leaves boards that are alike so.
proof fn same_boards_alike(a: &Resolver, b: &Resolver, a_after: &Resolver, b_after: &Resolver)
    requires
        a.built_like(b),
        a_after.same_board(a),
        b_after.same_board(b),
    ensures
        a_after.built_like(b_after),
{
    assert forall|n: nat| #[trigger] a_after.roots(n) == b_after.roots(n) by {
        assert(a_after.roots(n) == a.roots(n));
        assert(b_after.roots(n) == b.roots(n));
        assert(a.roots(n) == b.roots(n));
    }
}

/// Passes leave the nets' names.
proof fn names_stay_alike(a: &Moment, b: &Moment, a_after: &Moment, b_after: &Moment)
    requires
        named_alike(a.nets, b.nets),
        same_nets(a.nets, a_after.nets),
        same_nets(b.nets, b_after.nets),
    ensures
        named_alike(a_after.nets, b_after.nets),
{
    reveal(named_alike);
    assert forall|i: int| 0 <= i < a_after.nets.len() implies (#[trigger] a_after.nets[i]).name@
        == (#[trigger] b_after.nets[i]).name@ by {
        assert(a.nets[i].name@ == b.nets[i].name@);
    }
}

/// Where each bus comes to hold what it held and what a full pass finds, both
/// hold the same.
proof fn bus_in_pace<S: ClusterSolver>(
    from_a: &Resolver,
    from_b: &Resolver,
    a: &Moment,
    b: &Moment,
    a_after: &Moment,
    b_after: &Moment,
    solver: &S,
)
    requires
        from_a.built_like(from_b),
        named_alike(a.nets, b.nets),
        same_nets(a.nets, a_after.nets),
        a_after.resolver.well_formed(),
        a_after.resolver.settled_for(a.nets.len()),
        a_after.resolver.same_board(from_a),
        b_after.resolver.same_board(from_b),
        same_findings(a.bus, b.bus),
        forall|finding: FindingView|
            #[trigger] a_after.bus.contains(finding) <==> all_reported(
                a.bus,
                emission(
                    full_findings(
                        solver,
                        from_a.board(),
                        from_a.structure(a.nets.len()),
                        names_of(from_a.board(), a.nets),
                    ),
                ),
            ).contains(finding),
        b_after.bus == all_reported(
            b.bus,
            emission(
                full_findings(
                    solver,
                    from_b.board(),
                    from_b.structure(b.nets.len()),
                    names_of(from_b.board(), b.nets),
                ),
            ),
        ),
    ensures
        same_findings(a_after.bus, b_after.bus),
{
    reveal(same_findings);
    let n = a.nets.len();
    same_boards_alike(from_a, from_b, &a_after.resolver, &b_after.resolver);
    assert(a_after.resolver.roots(n) == from_a.roots(n));
    assert(b_after.resolver.roots(n) == from_b.roots(n));
    passes_alike(&a_after.resolver, &b_after.resolver, solver, a.nets, b.nets);
    let found = emission(
        full_findings(
            solver,
            from_a.board(),
            from_a.structure(n),
            names_of(from_a.board(), a.nets),
        ),
    );
    all_reported_properties(a.bus, found);
    all_reported_properties(b.bus, found);
    assert forall|finding: FindingView| #[trigger]
        a_after.bus.contains(finding) <==> #[trigger] b_after.bus.contains(finding) by {
        assert(a.bus.contains(finding) <==> b.bus.contains(finding));
        assert(all_reported(a.bus, found).contains(finding) <==> all_reported(
            b.bus,
            found,
        ).contains(finding));
    }
}

/// One more change leaves two runs in pace.
proof fn step_in_pace<S: ClusterSolver>(
    a: &Moment,
    b: &Moment,
    from_a: &Resolver,
    from_b: &Resolver,
    a_after: &Moment,
    b_after: &Moment,
    change: Change,
    solver: &S,
)
    requires
        a.in_pace_with(b, solver),
        from_a.took(&a.resolver, change),
        from_b.took(&b.resolver, change),
        a_after.resolved_dirty_from(from_a, a, solver),
        b_after.resolved_from(from_b, b, solver),
    ensures
        a_after.in_pace_with(b_after, solver),
{
    reveal(Resolver::took);
    reveal(Moment::resolved_from);
    reveal(Moment::resolved_dirty_from);
    reveal(Moment::in_pace_with);
    let n = a.nets.len();
    assert(a.resolver.settled_for(n));
    assert(from_a.settled_for(n));
    assert(from_a.keeps_clean(&a.resolver, n));
    clean_changes_keep_step(&a.resolver, from_a, solver, a.nets, a.bus);
    dirty_pass_matches_full_pass(
        from_a,
        &a_after.resolver,
        solver,
        a.nets,
        a_after.nets,
        a.bus,
        a_after.bus,
    );
    assert(from_a.built_like(from_b)) by {
        changes_alike(&a.resolver, &b.resolver, from_a, from_b, change);
    }
    assert(a_after.resolver.built_like(&b_after.resolver)) by {
        same_boards_alike(from_a, from_b, &a_after.resolver, &b_after.resolver);
    }
    assert(named_alike(a_after.nets, b_after.nets)) by {
        names_stay_alike(a, b, a_after, b_after);
    }
    assert(same_findings(a_after.bus, b_after.bus)) by {
        bus_in_pace(from_a, from_b, a, b, a_after, b_after, solver);
    }
}

/// Two runs in pace agree.
proof fn in_pace_agrees<S: ClusterSolver>(a: &Moment, b: &Moment, solver: &S)
    requires
        a.in_pace_with(b, solver),
    ensures
        a.agrees_with(b),
{
    reveal(Moment::in_pace_with);
    reveal(named_alike);
    let structure = a.resolver.structure(a.nets.len());
    passes_alike(&a.resolver, &b.resolver, solver, a.nets, b.nets);
    assert forall|i: int| 0 <= i < a.nets.len() implies (#[trigger] a.nets[i]).state == (
    #[trigger] b.nets[i]).state && a.nets[i].volts == b.nets[i].volts by {
        assert(structure.index[i] < structure.clusters.len());
        assert(resolved(solver, a.resolver.board(), structure, a.nets[i], i));
        assert(resolved(solver, b.resolver.board(), structure, b.nets[i], i));
        assert(scene_now(solver, a.resolver.board(), structure, structure.index[i] as int)
            == scene_now(solver, b.resolver.board(), structure, structure.index[i] as int));
    }
}

/// Two runs are in pace after every change.
proof fn runs_in_pace<S: ClusterSolver>(
    a: Seq<Moment>,
    b: Seq<Moment>,
    a_changed: Seq<Resolver>,
    b_changed: Seq<Resolver>,
    changes: Seq<Change>,
    solver: &S,
    k: int,
)
    requires
        0 <= k <= changes.len(),
        runs_dirty(a, a_changed, changes, solver),
        runs_fully(b, b_changed, changes, solver),
        a[0].in_pace_with(&b[0], solver),
    ensures
        a[k].in_pace_with(&b[k], solver),
    decreases k,
{
    if k > 0 {
        runs_in_pace(a, b, a_changed, b_changed, changes, solver, k - 1);
        assert(a_changed[k - 1].took(&a[k - 1].resolver, changes[k - 1]));
        assert(b_changed[k - 1].took(&b[k - 1].resolver, changes[k - 1]));
        step_in_pace(
            &a[k - 1],
            &b[k - 1],
            &a_changed[k - 1],
            &b_changed[k - 1],
            &a[k],
            &b[k],
            changes[k - 1],
            solver,
        );
    }
}

/// Two boards built alike and resolved once, then given the same changes, the
/// one with a pass over what each change touched, the other with a full pass:
/// after every change every net shows the same on both, and the same has been
/// found.
pub proof fn dirty_passes_keep_pace_with_full_passes<S: ClusterSolver>(
    a_start: &Moment,
    b_start: &Moment,
    a: Seq<Moment>,
    b: Seq<Moment>,
    a_changed: Seq<Resolver>,
    b_changed: Seq<Resolver>,
    changes: Seq<Change>,
    solver: &S,
)
    requires
        a_start.resolver.well_formed(),
        a_start.resolver.fits(a_start.nets.len()),
        a_start.resolver.built_like(&b_start.resolver),
        named_alike(a_start.nets, b_start.nets),
        same_findings(a_start.bus, b_start.bus),
        runs_dirty(a, a_changed, changes, solver),
        runs_fully(b, b_changed, changes, solver),
        a[0].resolved_from(&a_start.resolver, a_start, solver),
        b[0].resolved_from(&b_start.resolver, b_start, solver),
    ensures
        forall|k: int|
            0 <= k <= changes.len() ==> (#[trigger] a[k]).agrees_with(&#[trigger] b[k]),
{
    opening_in_pace(a_start, b_start, &a[0], &b[0], solver);
    assert forall|k: int| 0 <= k <= changes.len() implies (#[trigger] a[k]).agrees_with(
        &#[trigger] b[k],
    ) by {
        runs_in_pace(a, b, a_changed, b_changed, changes, solver, k);
        in_pace_agrees(&a[k], &b[k], solver);
    }
}

} // verus!
