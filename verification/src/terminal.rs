//! Declared terminals: rails, harness supplies and stuck nets, each held by
//! the sources declared on it.
pub mod laws;

use vstd::prelude::*;

use crate::cluster::{
    Cluster, ClusterInputs, ClusterInputsView, ClusterResistor, ClusterSolver, ClusterSource,
    ClusterView,
};
use crate::net::{Drive, NetId, TheveninDrive};
use crate::quantity::{Quantity, Volts};

verus! {

/// A declared terminal source, by position in its list. The canonical order
/// is every power source, then every stuck fault.
#[derive(Debug, Clone, Copy, PartialEq, Eq, Hash, Structural)]
pub enum TerminalId {
    /// A supply or a power-output pin.
    Power(usize),
    /// A stuck net.
    Stuck(usize),
}

/// What a declared terminal source holds its net at.
#[derive(Debug, Clone, Copy, PartialEq, Eq, Structural)]
pub enum TerminalDrive {
    /// Nothing: a rail that is down.
    Released,
    /// Sourced at a voltage no model declares.
    Unmodelled,
    /// Held at a voltage.
    Volts(Volts),
}

/// What a terminal's root is held at once its sources are reconciled.
#[derive(Debug, Clone, Copy, PartialEq, Eq, Structural)]
pub struct TerminalState {
    /// What it holds.
    pub drive: TerminalDrive,
    /// Two of its sources disagreed.
    pub fought: bool,
}

/// One declared terminal source: its net and what it holds.
#[derive(Debug, Clone, Copy, PartialEq, Eq, Structural)]
pub struct TerminalSource {
    /// The net it is declared on.
    pub net: usize,
    /// What it holds.
    pub drive: TerminalDrive,
}

/// A voltage as a terminal holds it: not-a-number is an unmodelled rail.
pub open spec fn held_volts(volts: Volts) -> TerminalDrive {
    if volts is Nan {
        TerminalDrive::Unmodelled
    } else {
        TerminalDrive::Volts(volts)
    }
}

/// A power-output pin's drive as what its terminal holds.
pub open spec fn held_by_slot(drive: Option<Drive>) -> TerminalDrive {
    match drive {
        Some(Drive::Thevenin(t)) => held_volts(t.volts),
        _ => TerminalDrive::Released,
    }
}

/// The slot drive that holds a terminal state behind no impedance.
pub open spec fn idle_drive(drive: TerminalDrive) -> Option<Drive> {
    match drive {
        TerminalDrive::Released => None,
        TerminalDrive::Unmodelled => Some(
            Drive::Thevenin(TheveninDrive { volts: Quantity::Nan, impedance: Quantity::Finite(0) }),
        ),
        TerminalDrive::Volts(volts) => Some(
            Drive::Thevenin(TheveninDrive { volts, impedance: Quantity::Finite(0) }),
        ),
    }
}

impl TerminalDrive {
    /// A voltage as a terminal holds it.
    pub fn from_volts(volts: Volts) -> (r: TerminalDrive)
        ensures
            r == held_volts(volts),
    {
        if volts.is_nan() {
            TerminalDrive::Unmodelled
        } else {
            TerminalDrive::Volts(volts)
        }
    }

    /// A power-output pin's drive as what its terminal holds: a Thevenin
    /// drive is its open-circuit voltage; a release, a current injection and
    /// a periodic drive release it.
    pub fn from_slot(drive: Option<Drive>) -> (r: TerminalDrive)
        ensures
            r == held_by_slot(drive),
    {
        match drive {
            Some(Drive::Thevenin(t)) => TerminalDrive::from_volts(t.volts),
            _ => TerminalDrive::Released,
        }
    }

    /// The slot drive that holds this terminal state behind no impedance.
    pub fn idle_slot_drive(self) -> (r: Option<Drive>)
        ensures
            r == idle_drive(self),
    {
        match self {
            TerminalDrive::Released => None,
            TerminalDrive::Unmodelled => Some(
                Drive::Thevenin(
                    TheveninDrive { volts: Quantity::Nan, impedance: Quantity::Finite(0) },
                ),
            ),
            TerminalDrive::Volts(volts) => Some(
                Drive::Thevenin(TheveninDrive { volts, impedance: Quantity::Finite(0) }),
            ),
        }
    }

    /// Whether two terminals hold the same, as numbers compare.
    pub open spec fn holds_same(self, other: TerminalDrive) -> bool {
        match (self, other) {
            (TerminalDrive::Volts(a), TerminalDrive::Volts(b)) => a.equals(b),
            _ => self == other,
        }
    }

    /// Whether two terminals hold the same, as numbers compare.
    pub fn same(self, other: TerminalDrive) -> (r: bool)
        ensures
            r == self.holds_same(other),
    {
        match (self, other) {
            (TerminalDrive::Volts(a), TerminalDrive::Volts(b)) => a.eq_number(b),
            _ => self == other,
        }
    }
}

/// A terminal's idle slot drive holds the terminal where it was.
pub proof fn idle_drive_round_trip(drive: TerminalDrive)
    requires
        !(drive matches TerminalDrive::Volts(v) && v is Nan),
    ensures
        held_by_slot(idle_drive(drive)) == drive,
{
}

/// The voltages among what the sources hold, in order.
pub open spec fn numeric_volts(drives: Seq<TerminalDrive>) -> Seq<Volts>
    decreases drives.len(),
{
    if drives.len() == 0 {
        Seq::empty()
    } else {
        let rest = numeric_volts(drives.drop_last());
        match drives.last() {
            TerminalDrive::Volts(v) => rest.push(v),
            _ => rest,
        }
    }
}

/// Whether every declared voltage is one number.
pub open spec fn one_voltage(volts: Seq<Volts>) -> bool {
    forall|i: int| 0 <= i < volts.len() ==> (#[trigger] volts[i]).equals(volts[0])
}

/// What a terminal holds its root at, from its sources alone, `fight` being
/// the operating point of its voltages where they disagree.
///
/// A released source holds nothing; an unmodelled one makes the terminal
/// unmodelled where no voltage is declared; agreeing voltages are held;
/// disagreeing ones are a fight.
pub open spec fn decided(drives: Seq<TerminalDrive>, fight: Volts) -> TerminalState {
    let volts = numeric_volts(drives);
    if volts.len() == 0 {
        TerminalState {
            drive: if drives.contains(TerminalDrive::Unmodelled) {
                TerminalDrive::Unmodelled
            } else {
                TerminalDrive::Released
            },
            fought: false,
        }
    } else if one_voltage(volts) {
        TerminalState { drive: TerminalDrive::Volts(volts[0]), fought: false }
    } else {
        TerminalState { drive: held_volts(fight), fought: true }
    }
}

/// Whether a terminal's sources disagree, so its fight must be solved.
pub open spec fn fights(drives: Seq<TerminalDrive>) -> bool {
    numeric_volts(drives).len() > 0 && !one_voltage(numeric_volts(drives))
}

/// The cluster a terminal's fight is solved as: its root alone.
pub open spec fn fight_cluster(root: usize) -> ClusterView {
    ClusterView { nodes: seq![NetId(root)], resistors: Seq::empty() }
}

/// The fight's sources: every voltage as an ideal source on the root.
pub open spec fn fight_inputs(root: usize, volts: Seq<Volts>) -> ClusterInputsView {
    ClusterInputsView {
        sources: Seq::new(
            volts.len(),
            |i: int|
                ClusterSource {
                    node: NetId(root),
                    volts: volts[i],
                    impedance: Quantity::Finite(0),
                },
        ),
        injections: Seq::empty(),
        terminals: Seq::empty(),
        elements: Seq::empty(),
    }
}

/// The operating point of a terminal's fight; not a number where the solver
/// has none.
pub open spec fn fight_volts<S: ClusterSolver>(solver: &S, root: usize, volts: Seq<Volts>) -> Volts {
    match solver.solution(fight_cluster(root), fight_inputs(root, volts)).volts_of(NetId(root)) {
        Some(v) => v,
        None => Quantity::Nan,
    }
}

/// What a terminal at `root` holds.
pub open spec fn terminal_state<S: ClusterSolver>(
    solver: &S,
    root: usize,
    drives: Seq<TerminalDrive>,
) -> TerminalState {
    decided(drives, fight_volts(solver, root, numeric_volts(drives)))
}

/// Solve a terminal's fight as the one-node cluster it is.
pub fn solve_fight<S: ClusterSolver>(solver: &S, root: usize, volts: &Vec<Volts>) -> (r: Volts)
    ensures
        r == fight_volts(solver, root, volts@),
{
    let node = NetId(root);
    let mut sources: Vec<ClusterSource> = Vec::new();
    let mut i: usize = 0;
    while i < volts.len()
        invariant
            i <= volts@.len(),
            node == NetId(root),
            sources@.len() == i,
            forall|j: int|
                0 <= j < i ==> #[trigger] sources@[j] == (ClusterSource {
                    node: NetId(root),
                    volts: volts@[j],
                    impedance: Quantity::Finite(0),
                }),
        decreases volts@.len() - i,
    {
        sources.push(ClusterSource { node, volts: volts[i], impedance: Quantity::Finite(0) });
        i += 1;
    }
    let mut nodes: Vec<NetId> = Vec::new();
    nodes.push(node);
    let resistors: Vec<ClusterResistor> = Vec::new();
    let cluster = Cluster { nodes, resistors };
    let inputs = ClusterInputs {
        sources,
        injections: Vec::new(),
        terminals: Vec::new(),
        elements: Vec::new(),
    };
    assert(cluster@ =~= fight_cluster(root));
    assert(inputs@ =~= fight_inputs(root, volts@));
    let solution = solver.solve(&cluster, &inputs);
    match solution.volts_of(node) {
        Some(v) => v,
        None => Quantity::Nan,
    }
}

/// Decide what a terminal holds its root at; also says whether a fight was
/// solved.
pub fn decide_terminal<S: ClusterSolver>(
    solver: &S,
    root: usize,
    drives: &Vec<TerminalDrive>,
) -> (r: (TerminalState, bool))
    ensures
        r.0 == terminal_state(solver, root, drives@),
        r.1 == fights(drives@),
{
    let mut volts: Vec<Volts> = Vec::new();
    let mut unmodelled = false;
    let mut i: usize = 0;
    assert(drives@.take(0) =~= Seq::<TerminalDrive>::empty());
    while i < drives.len()
        invariant
            i <= drives@.len(),
            volts@ == numeric_volts(drives@.take(i as int)),
            unmodelled <==> exists|j: int|
                0 <= j < i && #[trigger] drives@[j] == TerminalDrive::Unmodelled,
        decreases drives@.len() - i,
    {
        assert(drives@.take(i + 1).drop_last() =~= drives@.take(i as int));
        assert(drives@.take(i + 1).last() == drives@[i as int]);
        match drives[i] {
            TerminalDrive::Released => {},
            TerminalDrive::Unmodelled => {
                assert(drives@[i as int] == TerminalDrive::Unmodelled);
                unmodelled = true;
            },
            TerminalDrive::Volts(v) => {
                volts.push(v);
            },
        }
        i += 1;
    }
    assert(drives@.take(i as int) =~= drives@);
    if volts.len() == 0 {
        let drive = if unmodelled {
            TerminalDrive::Unmodelled
        } else {
            TerminalDrive::Released
        };
        return (TerminalState { drive, fought: false }, false);
    }
    let first = volts[0];
    let mut k: usize = 0;
    while k < volts.len()
        invariant
            k <= volts@.len(),
            first == volts@[0],
            volts@.len() > 0,
            volts@ == numeric_volts(drives@),
            forall|j: int| 0 <= j < k ==> (#[trigger] volts@[j]).equals(first),
        decreases volts@.len() - k,
    {
        if !volts[k].eq_number(first) {
            assert(!volts@[k as int].equals(volts@[0]));
            let fight = solve_fight(solver, root, &volts);
            return (
                TerminalState { drive: TerminalDrive::from_volts(fight), fought: true },
                true,
            );
        }
        k += 1;
    }
    (TerminalState { drive: TerminalDrive::Volts(first), fought: false }, false)
}

/// A bench strap on a released or unmodelled rail sources it without a fight.
pub proof fn strap_sources_a_down_rail(rail: TerminalDrive, strap: Volts, fight: Volts)
    requires
        rail is Released || rail is Unmodelled,
        !(strap is Nan),
    ensures
        decided(seq![rail, TerminalDrive::Volts(strap)], fight) == (TerminalState {
            drive: TerminalDrive::Volts(strap),
            fought: false,
        }),
{
    let drives = seq![rail, TerminalDrive::Volts(strap)];
    assert(drives.drop_last() =~= seq![rail]);
    assert(seq![rail].drop_last() =~= Seq::<TerminalDrive>::empty());
    reveal_with_fuel(numeric_volts, 3);
    assert(numeric_volts(drives) =~= seq![strap]);
}

} // verus!
