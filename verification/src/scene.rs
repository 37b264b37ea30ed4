//! What one cluster's pass decides, as a function of what the cluster is and
//! what it reads.
pub mod laws;

use vstd::prelude::*;

use crate::cluster::{
    ClusterElement, ClusterInjection, ClusterInputsView, ClusterResistor, ClusterSolutionView,
    ClusterSolver, ClusterSource, ClusterTerminal, ClusterView,
};
use crate::coupling::{crossed_at, overlaid, refusals, ArrivalView, CouplingNames};
use crate::diagnostics::{FindingView, SenseKind};
use crate::net::{
    in_dead_band, is_periodic, port_in, Drive, Level, NetId, NetState, NetVolts,
    PeriodicSchedule, Phase, PinRefView, TheveninDrive,
};
use crate::phases::{combined, phase_root, PhaseRootView, RootResultView};
use crate::quantity::{Amps, Ohms, Quantity, Volts};
use crate::ranking::{
    contest_disagrees, named_volts, quiet_outcome, root_outcome, ReachingSource, RootOutcomeView,
};
use crate::seqs::union_list;
use crate::terminal::{TerminalDrive, TerminalState};
use crate::topology::ClusterTopoView;

verus! {

/// A cluster and everything its pass reads: its structure, what its slots
/// hold, what its terminals hold and the rates arriving at it.
#[verifier::ext_equal]
pub struct Scene {
    /// The cluster's members.
    pub topo: ClusterTopoView,
    /// The identity root of every net.
    pub root_of: Seq<usize>,
    /// The terminal roots, ascending.
    pub terminal_roots: Seq<usize>,
    /// The root each of the cluster's slots sits on.
    pub slot_roots: Seq<usize>,
    /// The cluster's elements, their nets as roots.
    pub elements: Seq<ClusterElement>,
    /// The nets of the cluster's digital senses.
    pub digital_nets: Seq<usize>,
    /// The nets of the cluster's analog senses.
    pub analog_nets: Seq<usize>,
    /// The nets of the cluster's power senses.
    pub power_nets: Seq<usize>,
    /// What each of the cluster's slots holds.
    pub drives: Seq<Option<Drive>>,
    /// What the cluster's own terminal holds.
    pub own: Option<TerminalState>,
    /// What each boundary terminal holds.
    pub boundary: Seq<TerminalState>,
    /// What each control terminal holds.
    pub controls: Seq<TerminalState>,
    /// The rates arriving across capacitors.
    pub arrivals: Seq<ArrivalView>,
}

/// What a pass's findings call things.
#[verifier::ext_equal]
pub struct Names {
    /// Every net's name.
    pub nets: Seq<Seq<char>>,
    /// Every slot's pin.
    pub pins: Seq<PinRefView>,
    /// The net each slot is on.
    pub slot_nets: Seq<usize>,
    /// Every element's reference.
    pub elements: Seq<Seq<char>>,
    /// Every capacitor's reference.
    pub capacitors: Seq<Seq<char>>,
}

/// A slot's port in a phase.
#[derive(Debug, Clone, Copy, PartialEq, Eq, Structural)]
pub struct SlotSource {
    /// The slot.
    pub slot: usize,
    /// The root it sits on.
    pub root: usize,
    /// The port it presents.
    pub port: TheveninDrive,
    /// The segment it follows, for a periodic slot.
    pub segment: Option<PeriodicSchedule>,
}

/// A current a slot injects.
#[derive(Debug, Clone, Copy, PartialEq, Eq, Structural)]
pub struct SlotInjection {
    /// The slot.
    pub slot: usize,
    /// The root it flows into.
    pub root: usize,
    /// The current.
    pub amps: Amps,
}

/// A terminal holding a voltage, and the column it is reached through.
#[derive(Debug, Clone, Copy, PartialEq, Eq, Structural)]
pub struct HeldTerminal {
    /// Its root.
    pub root: usize,
    /// The voltage.
    pub volts: Volts,
    /// Its column of the path resistances.
    pub column: usize,
}

/// The segment of a periodic drive.
pub open spec fn segment_of(drive: Option<Drive>) -> Option<PeriodicSchedule> {
    match drive {
        Some(Drive::Periodic { segment, .. }) => Some(segment),
        _ => None,
    }
}

/// The position of a root in a list.
pub open spec fn position_in(roots: Seq<usize>, root: usize) -> int {
    choose|i: int| 0 <= i < roots.len() && roots[i] == root
}

/// A fight on a net as findings: the fight, and its ambiguous level behind
/// it.
pub open spec fn fight_findings(result: RootResultView, names: Names, net: usize) -> Seq<
    (usize, FindingView),
> {
    match result.fight {
        Some(slots) => {
            let fight = seq![
                (
                    net,
                    FindingView::Contention {
                        net: names.nets[net as int],
                        drivers: Seq::new(slots.len(), |i: int| names.pins[slots[i] as int]),
                    },
                ),
            ];
            match result.ambiguous {
                Some(volts) => fight.push(
                    (net, FindingView::AmbiguousLevel { net: names.nets[net as int], volts }),
                ),
                None => fight,
            }
        },
        None => Seq::empty(),
    }
}

impl Scene {
    /// Whether a periodic drive sits in the cluster, so it resolves once per
    /// phase.
    pub open spec fn periodic(self) -> bool {
        exists|k: int| 0 <= k < self.drives.len() && is_periodic(#[trigger] self.drives[k])
    }

    /// The phase the first resolution stands on.
    pub open spec fn first_phase(self) -> Option<Phase> {
        if self.periodic() {
            Some(Phase::High)
        } else {
            None
        }
    }

    /// The slot sources among the first `k` slots, in endpoint order.
    pub open spec fn sources(self, phase: Option<Phase>, k: nat) -> Seq<SlotSource>
        decreases k,
    {
        if k == 0 {
            Seq::empty()
        } else {
            let rest = self.sources(phase, (k - 1) as nat);
            match port_in(self.drives[k - 1], phase) {
                Some(port) => rest.push(
                    SlotSource {
                        slot: self.topo.slots[k - 1],
                        root: self.slot_roots[k - 1],
                        port,
                        segment: segment_of(self.drives[k - 1]),
                    },
                ),
                None => rest,
            }
        }
    }

    /// Every slot source in a phase.
    pub open spec fn phase_sources(self, phase: Option<Phase>) -> Seq<SlotSource> {
        self.sources(phase, self.drives.len())
    }

    /// The injections among the first `k` slots, in endpoint order.
    pub open spec fn injections(self, k: nat) -> Seq<SlotInjection>
        decreases k,
    {
        if k == 0 {
            Seq::empty()
        } else {
            let rest = self.injections((k - 1) as nat);
            match self.drives[k - 1] {
                Some(Drive::Current { amps }) => rest.push(
                    SlotInjection {
                        slot: self.topo.slots[k - 1],
                        root: self.slot_roots[k - 1],
                        amps,
                    },
                ),
                _ => rest,
            }
        }
    }

    /// Every injection.
    pub open spec fn all_injections(self) -> Seq<SlotInjection> {
        self.injections(self.drives.len())
    }

    /// The own terminal's voltage.
    pub open spec fn own_held(self) -> Seq<HeldTerminal> {
        match (self.topo.terminal, self.own) {
            (Some(p), Some(state)) => match state.drive {
                TerminalDrive::Volts(volts) => seq![
                    HeldTerminal { root: self.terminal_roots[p as int], volts, column: 0 },
                ],
                _ => Seq::empty(),
            },
            _ => Seq::empty(),
        }
    }

    /// The voltages among the first `j` boundary terminals.
    pub open spec fn boundary_held(self, j: nat) -> Seq<HeldTerminal>
        decreases j,
    {
        if j == 0 {
            Seq::empty()
        } else {
            let rest = self.boundary_held((j - 1) as nat);
            match self.boundary[j - 1].drive {
                TerminalDrive::Volts(volts) => rest.push(
                    HeldTerminal {
                        root: self.terminal_roots[self.topo.boundary[j - 1] as int],
                        volts,
                        column: (self.topo.roots.len() + j - 1) as usize,
                    },
                ),
                _ => rest,
            }
        }
    }

    /// Every terminal that sources the cluster at a voltage.
    pub open spec fn held(self) -> Seq<HeldTerminal> {
        self.own_held() + self.boundary_held(self.topo.boundary.len())
    }

    /// The constants among the first `j` control terminals.
    pub open spec fn control_constants(self, j: nat) -> Seq<ClusterTerminal>
        decreases j,
    {
        if j == 0 {
            Seq::empty()
        } else {
            let rest = self.control_constants((j - 1) as nat);
            match self.controls[j - 1].drive {
                TerminalDrive::Volts(volts) => rest.push(
                    ClusterTerminal {
                        node: NetId(
                            self.terminal_roots[self.topo.boundary_controls[j - 1] as int],
                        ),
                        volts,
                    },
                ),
                _ => rest,
            }
        }
    }

    /// The constants of the cluster's solve.
    pub open spec fn constants(self) -> Seq<ClusterTerminal> {
        let held = self.held();
        Seq::new(
            held.len(),
            |i: int| ClusterTerminal { node: NetId(held[i].root), volts: held[i].volts },
        ) + self.control_constants(self.topo.boundary_controls.len())
    }

    /// The columns of the unmodelled rails among the first `j` boundary
    /// terminals, the own terminal's first.
    pub open spec fn unmodelled(self, j: nat) -> Seq<usize>
        decreases j,
    {
        if j == 0 {
            if self.own matches Some(state) && state.drive is Unmodelled {
                seq![0usize]
            } else {
                Seq::empty()
            }
        } else {
            let rest = self.unmodelled((j - 1) as nat);
            if self.boundary[j - 1].drive is Unmodelled {
                rest.push((self.topo.roots.len() + j - 1) as usize)
            } else {
                rest
            }
        }
    }

    /// The columns of every unmodelled rail.
    pub open spec fn unmodelled_columns(self) -> Seq<usize> {
        self.unmodelled(self.topo.boundary.len())
    }

    /// The voltage the own terminal's sources fought to.
    pub open spec fn own_fight(self) -> Option<Volts> {
        match self.own {
            Some(state) => match state.drive {
                TerminalDrive::Volts(volts) => if state.fought {
                    Some(volts)
                } else {
                    None
                },
                _ => None,
            },
            None => None,
        }
    }

    /// Whether a slot sources the cluster in either phase.
    pub open spec fn any_source(self) -> bool {
        self.phase_sources(self.first_phase()).len() > 0 || (self.periodic()
            && self.phase_sources(Some(Phase::Low)).len() > 0)
    }

    /// Whether anything sources the cluster, an unmodelled rail included.
    pub open spec fn sourced(self) -> bool {
        self.any_source() || self.held().len() > 0 || self.unmodelled_columns().len() > 0
    }

    /// Whether a current other than zero is injected.
    pub open spec fn injected(self) -> bool {
        exists|i: int|
            0 <= i < self.all_injections().len() && (#[trigger] self.all_injections()[i]).amps
                != Quantity::Finite(0)
    }

    /// Whether the cluster solves whatever its ranking says: an injection,
    /// an instrument or an element asks, and something sources it.
    pub open spec fn eager(self) -> bool {
        (self.any_source() || self.held().len() > 0) && (self.injected()
            || self.topo.current_instruments.len() > 0 || self.topo.elements.len() > 0)
    }

    /// Whether the operating point is published: the cluster solves, or an
    /// analog sense asks.
    pub open spec fn on_request(self) -> bool {
        self.eager() || ((self.any_source() || self.held().len() > 0)
            && self.topo.analog_senses.len() > 0)
    }

    /// The cluster as a solver is handed it.
    pub open spec fn solver_cluster(self) -> ClusterView {
        let roots = self.topo.roots;
        let boundary = self.boundary_held(self.topo.boundary.len());
        let edges = self.topo.edges;
        ClusterView {
            nodes: Seq::new(roots.len(), |i: int| NetId(roots[i])) + Seq::new(
                boundary.len(),
                |i: int| NetId(boundary[i].root),
            ),
            resistors: Seq::new(
                edges.len(),
                |i: int|
                    ClusterResistor {
                        a: NetId(edges[i].a),
                        b: NetId(edges[i].b),
                        ohms: edges[i].ohms,
                    },
            ),
        }
    }

    /// The inputs of a phase's solve.
    pub open spec fn solver_inputs(self, phase: Option<Phase>) -> ClusterInputsView {
        let sources = self.phase_sources(phase);
        let injections = self.all_injections();
        ClusterInputsView {
            sources: Seq::new(
                sources.len(),
                |i: int|
                    ClusterSource {
                        node: NetId(sources[i].root),
                        volts: sources[i].port.volts,
                        impedance: sources[i].port.impedance,
                    },
            ),
            injections: Seq::new(
                injections.len(),
                |i: int|
                    ClusterInjection { node: NetId(injections[i].root), amps: injections[i].amps },
            ),
            terminals: self.constants(),
            elements: self.elements,
        }
    }

    /// The operating point of a phase.
    pub open spec fn solution<S: ClusterSolver>(
        self,
        solver: &S,
        phase: Option<Phase>,
    ) -> ClusterSolutionView {
        solver.solution(self.solver_cluster(), self.solver_inputs(phase))
    }

    /// The path resistance from the root at `pr` to a column.
    pub open spec fn path(self, pr: int, column: int) -> Ohms {
        self.topo.dist[pr][column]
    }

    /// The slot sources among the first `k` that reach the root at `pr`.
    pub open spec fn reaching_slots(self, phase: Option<Phase>, pr: int, k: nat) -> Seq<
        ReachingSource,
    >
        decreases k,
    {
        if k == 0 {
            Seq::empty()
        } else {
            let rest = self.reaching_slots(phase, pr, (k - 1) as nat);
            let source = self.phase_sources(phase)[k - 1];
            let path = self.path(pr, position_in(self.topo.roots, source.root));
            if path.finite() {
                rest.push(
                    ReachingSource {
                        slot: Some(source.slot),
                        volts: source.port.volts,
                        impedance: source.port.impedance,
                        path,
                        segment: source.segment,
                    },
                )
            } else {
                rest
            }
        }
    }

    /// The terminals among the first `k` that reach the root at `pr`.
    pub open spec fn reaching_terminals(self, pr: int, k: nat) -> Seq<ReachingSource>
        decreases k,
    {
        if k == 0 {
            Seq::empty()
        } else {
            let rest = self.reaching_terminals(pr, (k - 1) as nat);
            let terminal = self.held()[k - 1];
            let path = self.path(pr, terminal.column as int);
            if path.finite() {
                rest.push(
                    ReachingSource {
                        slot: None,
                        volts: terminal.volts,
                        impedance: Quantity::Finite(0),
                        path,
                        segment: None,
                    },
                )
            } else {
                rest
            }
        }
    }

    /// Every source that reaches the root at `pr`: slots by endpoint, then
    /// terminals.
    pub open spec fn reaching(self, phase: Option<Phase>, pr: int) -> Seq<ReachingSource> {
        self.reaching_slots(phase, pr, self.phase_sources(phase).len()) + self.reaching_terminals(
            pr,
            self.held().len(),
        )
    }

    /// The shortest finite path from the root at `pr` to the first `k`
    /// unmodelled rails; infinite where none reaches it.
    pub open spec fn nearest_unmodelled(self, pr: int, k: nat) -> Ohms
        decreases k,
    {
        if k == 0 {
            Quantity::Infinite
        } else {
            let rest = self.nearest_unmodelled(pr, (k - 1) as nat);
            let path = self.path(pr, self.unmodelled_columns()[k - 1] as int);
            if path.finite() && path.below(rest) {
                path
            } else {
                rest
            }
        }
    }

    /// What a root nothing numeric reaches presents: an unmodelled rail as up
    /// through the path to it, or nothing.
    pub open spec fn unmodelled_or_floating(self, pr: int) -> NetState {
        let nearest = self.nearest_unmodelled(pr, self.unmodelled_columns().len());
        if nearest.finite() {
            NetState::Pulled(Level::High, nearest)
        } else {
            NetState::Floating
        }
    }

    /// What the sources and the solve make of the root at `pr`.
    pub open spec fn ranked<S: ClusterSolver>(
        self,
        solver: &S,
        phase: Option<Phase>,
        pr: int,
    ) -> RootOutcomeView {
        let node = NetId(self.topo.roots[pr]);
        let reaching = self.reaching(phase, pr);
        let solution = self.solution(solver, phase);
        if self.topo.elements.len() > 0 && self.eager() {
            let state = match solution.volts_of(node) {
                Some(v) => NetState::Analog(v),
                None => if !solution.converged {
                    NetState::Floating
                } else {
                    self.unmodelled_or_floating(pr)
                },
            };
            let beside = if reaching.len() == 0 {
                quiet_outcome(state)
            } else {
                root_outcome(reaching, solution.volts_of(node))
            };
            RootOutcomeView { state, volts: named_volts(state), ..beside }
        } else if reaching.len() == 0 {
            quiet_outcome(self.unmodelled_or_floating(pr))
        } else if reaching.len() == 1 && !self.eager() && self.on_request() {
            RootOutcomeView {
                state: NetState::Analog(reaching[0].volts),
                volts: Some(reaching[0].volts),
                fight: None,
                ambiguous: None,
                solved: false,
            }
        } else if self.on_request() {
            let state = match solution.state_of(node) {
                Some(state) => state,
                None => NetState::Floating,
            };
            RootOutcomeView {
                state,
                volts: named_volts(state),
                ..root_outcome(reaching, solution.volts_of(node))
            }
        } else {
            root_outcome(reaching, solution.volts_of(node))
        }
    }

    /// What a phase decides for the root at `pr`: a terminal two of its own
    /// sources fought over is decided once, at the fight's operating point.
    pub open spec fn outcome<S: ClusterSolver>(
        self,
        solver: &S,
        phase: Option<Phase>,
        pr: int,
    ) -> RootOutcomeView {
        let ranked = self.ranked(solver, phase, pr);
        match self.own_fight() {
            Some(volts) => RootOutcomeView {
                state: if self.on_request() {
                    ranked.state
                } else if in_dead_band(volts) {
                    NetState::Contention
                } else {
                    NetState::Analog(volts)
                },
                volts: Some(volts),
                fight: Some(
                    match ranked.fight {
                        Some(slots) => slots,
                        None => Seq::empty(),
                    },
                ),
                ambiguous: if in_dead_band(volts) {
                    Some(volts)
                } else {
                    None
                },
                solved: false,
            },
            None => ranked,
        }
    }

    /// Whether the root at `pr` asks for the solve.
    pub open spec fn root_solves(self, phase: Option<Phase>, pr: int) -> bool {
        let reaching = self.reaching(phase, pr);
        if self.on_request() {
            reaching.len() >= 2
        } else {
            reaching.len() > 0 && contest_disagrees(reaching)
        }
    }

    /// Whether a phase's solve ran: the cluster solves eagerly, or a root
    /// asked for it.
    pub open spec fn solves(self, phase: Option<Phase>) -> bool {
        self.eager() || exists|pr: int|
            0 <= pr < self.topo.roots.len() && #[trigger] self.root_solves(phase, pr)
    }

    /// A phase's record of the root at `pr`.
    pub open spec fn phase_record<S: ClusterSolver>(
        self,
        solver: &S,
        phase: Phase,
        pr: int,
    ) -> PhaseRootView {
        phase_root(
            self.outcome(solver, Some(phase), pr),
            self.reaching(Some(phase), pr),
        )
    }

    /// What the cluster's own sources make of the root at `pr`.
    pub open spec fn resolved<S: ClusterSolver>(self, solver: &S, pr: int) -> RootResultView {
        if self.periodic() {
            combined(
                self.phase_record(solver, Phase::High, pr),
                self.phase_record(solver, Phase::Low, pr),
            )
        } else {
            let outcome = self.outcome(solver, None, pr);
            RootResultView {
                state: outcome.state,
                fight: outcome.fight,
                ambiguous: outcome.ambiguous,
                volts: NetVolts { dc: outcome.volts, phases: None },
            }
        }
    }

    /// The periodic slots of the cluster that contend on the root at `pr`.
    pub open spec fn driving<S: ClusterSolver>(self, solver: &S, pr: int) -> Seq<usize> {
        if self.periodic() {
            union_list(
                self.phase_record(solver, Phase::High, pr).contending,
                self.phase_record(solver, Phase::Low, pr).contending,
            )
        } else {
            Seq::empty()
        }
    }

    /// What the root at `pr` publishes, the arriving rates included.
    pub open spec fn published<S: ClusterSolver>(self, solver: &S, pr: int) -> RootResultView {
        overlaid(
            self.resolved(solver, pr),
            crossed_at(self.arrivals, self.topo.roots[pr]),
            self.driving(solver, pr),
        )
    }

    /// What a member net publishes.
    pub open spec fn net_result<S: ClusterSolver>(self, solver: &S, net: usize) -> RootResultView {
        self.published(solver, position_in(self.topo.roots, self.root_of[net as int]))
    }

    /// Whether the net at position `k` of a list is the first on its root.
    pub open spec fn first_on_root(self, nets: Seq<usize>, k: int) -> bool {
        forall|j: int|
            0 <= j < k ==> self.root_of[(#[trigger] nets[j]) as int] != self.root_of[nets[k] as int]
    }

    /// The fights on the first `k` member nets, one per root, each keyed by
    /// its net and followed by its ambiguous level.
    pub open spec fn contentions<S: ClusterSolver>(self, solver: &S, names: Names, k: nat) -> Seq<
        (usize, FindingView),
    >
        decreases k,
    {
        if k == 0 {
            Seq::empty()
        } else {
            let rest = self.contentions(solver, names, (k - 1) as nat);
            let net = self.topo.nets[k - 1];
            let result = self.net_result(solver, net);
            if self.first_on_root(self.topo.nets, k - 1) {
                rest + fight_findings(result, names, net)
            } else {
                rest
            }
        }
    }

    /// The floating senses among the first `k` of a list, one per root, each
    /// keyed by its registration position.
    pub open spec fn floating<S: ClusterSolver>(
        self,
        solver: &S,
        names: Names,
        positions: Seq<usize>,
        nets: Seq<usize>,
        kind: SenseKind,
        k: nat,
    ) -> Seq<(usize, FindingView)>
        decreases k,
    {
        if k == 0 {
            Seq::empty()
        } else {
            let rest = self.floating(solver, names, positions, nets, kind, (k - 1) as nat);
            let net = nets[k - 1];
            if self.net_result(solver, net).state == NetState::Floating && self.first_on_root(
                nets,
                k - 1,
            ) {
                rest.push(
                    (
                        positions[k - 1],
                        FindingView::FloatingSense { net: names.nets[net as int], kind },
                    ),
                )
            } else {
                rest
            }
        }
    }

    /// Whether a phase's solve of an element cluster found no operating
    /// point.
    pub open spec fn diverges<S: ClusterSolver>(self, solver: &S, phase: Option<Phase>) -> bool {
        self.topo.elements.len() > 0 && self.eager() && !self.solution(solver, phase).converged
    }

    /// The solve that found no operating point, the high phase's first.
    pub open spec fn divergent<S: ClusterSolver>(self, solver: &S) -> Option<ClusterSolutionView> {
        if self.diverges(solver, self.first_phase()) {
            Some(self.solution(solver, self.first_phase()))
        } else if self.periodic() && self.diverges(solver, Some(Phase::Low)) {
            Some(self.solution(solver, Some(Phase::Low)))
        } else {
            None
        }
    }

    /// Whether a power sense on a net has no source: the cluster has none, or
    /// the net floats behind an element in a cluster that has an operating
    /// point.
    pub open spec fn unsourced<S: ClusterSolver>(self, solver: &S, net: usize) -> bool {
        !self.sourced() || (self.topo.elements.len() > 0 && self.divergent(solver) is None
            && self.net_result(solver, net).state == NetState::Floating)
    }

    /// The unsourced power senses among the first `k`, one per root.
    pub open spec fn powerless<S: ClusterSolver>(self, solver: &S, names: Names, k: nat) -> Seq<
        (usize, FindingView),
    >
        decreases k,
    {
        if k == 0 {
            Seq::empty()
        } else {
            let rest = self.powerless(solver, names, (k - 1) as nat);
            let net = self.power_nets[k - 1];
            if self.unsourced(solver, net) && self.first_on_root(self.power_nets, k - 1) {
                rest.push(
                    (
                        self.topo.power_senses[k - 1],
                        FindingView::PowerNetUnsourced { net: names.nets[net as int] },
                    ),
                )
            } else {
                rest
            }
        }
    }

    /// Whether a source reaches the root at `pr` in either phase.
    pub open spec fn reached(self, pr: int) -> bool {
        self.reaching(self.first_phase(), pr).len() > 0 || (self.periodic() && self.reaching(
            Some(Phase::Low),
            pr,
        ).len() > 0)
    }

    /// The currents among the first `k` injections that nothing returns.
    pub open spec fn stranded(self, names: Names, k: nat) -> Seq<(usize, FindingView)>
        decreases k,
    {
        if k == 0 {
            Seq::empty()
        } else {
            let rest = self.stranded(names, (k - 1) as nat);
            let injection = self.all_injections()[k - 1];
            if injection.amps != Quantity::Finite(0) && !self.reached(
                position_in(self.topo.roots, injection.root),
            ) {
                rest.push(
                    (
                        injection.slot,
                        FindingView::CurrentIntoFloatingNode {
                            net: names.nets[names.slot_nets[injection.slot as int] as int],
                            pin: names.pins[injection.slot as int],
                        },
                    ),
                )
            } else {
                rest
            }
        }
    }

    /// The solve that found no operating point, as a finding.
    pub open spec fn nonconvergent<S: ClusterSolver>(self, solver: &S, names: Names) -> Seq<
        (usize, FindingView),
    > {
        match self.divergent(solver) {
            Some(solution) => seq![
                (
                    self.topo.nets[0],
                    FindingView::NonConvergent {
                        cluster: names.nets[self.topo.nets[0] as int],
                        elements: Seq::new(
                            self.topo.elements.len(),
                            |i: int| names.elements[self.topo.elements[i] as int],
                        ),
                        solves: solution.solves,
                    },
                ),
            ],
            None => Seq::empty(),
        }
    }

    /// The current into the slot at position `k`, from the cluster's solve;
    /// none where it was projected, and none in a periodic cluster.
    pub open spec fn slot_current<S: ClusterSolver>(self, solver: &S, k: int) -> Option<Amps> {
        if self.periodic() || !self.solves(None) {
            None
        } else {
            let volts = self.solution(solver, None).volts_of(NetId(self.slot_roots[k]));
            match self.drives[k] {
                Some(Drive::Thevenin(drive)) => match volts {
                    Some(v) => Some(
                        v.plus(drive.volts.negated()).over(
                            if drive.impedance.below(solver.floor()) {
                                solver.floor()
                            } else {
                                drive.impedance
                            },
                        ),
                    ),
                    None => None,
                },
                Some(Drive::Current { amps }) => Some(amps.negated()),
                Some(Drive::Periodic { .. }) => None,
                None => match volts {
                    Some(_) => Some(Quantity::Finite(0)),
                    None => None,
                },
            }
        }
    }

    /// The current through the element at position `k`.
    pub open spec fn element_current<S: ClusterSolver>(self, solver: &S, k: int) -> Option<Amps> {
        if self.periodic() || !self.solves(None) {
            None
        } else {
            self.solution(solver, None).current_at(k)
        }
    }

    /// How many solves the pass ran.
    pub open spec fn solve_count(self) -> nat {
        (if self.solves(self.first_phase()) {
            1nat
        } else {
            0
        }) + (if self.periodic() && self.solves(Some(Phase::Low)) {
            1nat
        } else {
            0
        })
    }
}

/// The findings of one cluster's pass, each list keyed by what orders it.
#[verifier::ext_equal]
pub struct ClusterFindings {
    /// Fights and ambiguous levels, by first net.
    pub contention: Seq<(usize, FindingView)>,
    /// Floating digital senses, by registration.
    pub floating_digital: Seq<(usize, FindingView)>,
    /// Floating analog senses, by registration.
    pub floating_analog: Seq<(usize, FindingView)>,
    /// Unsourced power senses, by registration.
    pub power: Seq<(usize, FindingView)>,
    /// Stranded injections, by endpoint.
    pub injection: Seq<(usize, FindingView)>,
    /// Clusters without an operating point, by first net.
    pub nonconvergent: Seq<(usize, FindingView)>,
    /// Rates a capacitor refused, by far root.
    pub coupling: Seq<(usize, FindingView)>,
}

/// What a cluster's pass finds.
pub open spec fn cluster_findings<S: ClusterSolver>(
    solver: &S,
    scene: Scene,
    names: Names,
) -> ClusterFindings {
    ClusterFindings {
        contention: scene.contentions(solver, names, scene.topo.nets.len()),
        floating_digital: scene.floating(
            solver,
            names,
            scene.topo.digital_senses,
            scene.digital_nets,
            SenseKind::Digital,
            scene.digital_nets.len(),
        ),
        floating_analog: scene.floating(
            solver,
            names,
            scene.topo.analog_senses,
            scene.analog_nets,
            SenseKind::Analog,
            scene.analog_nets.len(),
        ),
        power: scene.powerless(solver, names, scene.power_nets.len()),
        injection: scene.stranded(names, scene.all_injections().len()),
        nonconvergent: scene.nonconvergent(solver, names),
        coupling: refusals(
            CouplingNames { nets: names.nets, capacitors: names.capacitors },
            scene.arrivals,
        ),
    }
}

} // verus!
