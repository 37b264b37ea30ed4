//! Net state model: one mechanism, digital as a projection.
//!
//! Every driver is a Thevenin source (voltage and impedance); nets joined
//! through passives form clusters, and resolution happens cluster by cluster.
//! The digital states are a derived view of the node voltage.
pub mod laws;

use vstd::prelude::*;

use crate::quantity::Quantity;
pub use crate::quantity::{Amps, Ohms, Volts};

verus! {

/// Default push-pull digital drive impedance, 25 ohms, in micro-ohms.
pub const DEFAULT_PUSH_PULL_IMPEDANCE: i64 = 25_000_000;

/// Rail a push-pull digital output drives high at, 3.3 V, in picovolts.
pub const LOGIC_HIGH_VOLTS: i64 = 3_300_000_000_000;

/// The split of a voltage into a level for the report, 1.5 V, in picovolts.
pub const LOGIC_THRESHOLD_VOLTS: i64 = 1_500_000_000_000;

/// A source this many times weaker than the strongest at a node has lost
/// there; one closer that disagrees sends the cluster to the solver.
pub const ESCALATION_IMPEDANCE_RATIO: u16 = 10;

/// A capacitor passes a rate where its reactance is no more than this part of
/// what the far side presents.
pub const COUPLING_REACTANCE_RATIO: u16 = ESCALATION_IMPEDANCE_RATIO;

/// How far a periodic drive reaches across a coupling capacitor, 1 kilo-ohm
/// of conduction resistance, in micro-ohms.
pub const COUPLED_REACH_OHMS: i64 = 1_000_000_000;

/// Weak-drive boundary, 1 kilo-ohm, in micro-ohms: a source whose total ohms
/// are at or above this is a pull.
pub const WEAK_DRIVE_OHMS: i64 = COUPLED_REACH_OHMS;

/// Upper bound of a valid logic low, 0.8 V, in picovolts.
pub const V_IL: i64 = 800_000_000_000;

/// Lower bound of a valid logic high, 2.0 V, in picovolts.
pub const V_IH: i64 = 2_000_000_000_000;

/// Index of a resolved net within a built board or system.
#[derive(Debug, Clone, Copy, PartialEq, Eq, Hash, PartialOrd, Ord, Structural)]
pub struct NetId(pub usize);

/// A drive-capable endpoint's index in the drive table.
#[derive(Debug, Clone, Copy, PartialEq, Eq, Hash, Structural)]
pub struct EndpointId(pub usize);

/// A registered component's index.
#[derive(Debug, Clone, Copy, PartialEq, Eq, Hash, Structural)]
pub struct ComponentId(pub usize);

/// One component pin as named by the netlist.
#[derive(Debug, PartialEq, Eq, Hash)]
pub struct PinRef {
    /// Component reference designator (`"U1"`).
    pub reference: String,
    /// Netlist pin number (`"3"`).
    pub pin: String,
}

/// A pin's two names as characters.
#[verifier::ext_equal]
pub struct PinRefView {
    /// The reference designator.
    pub reference: Seq<char>,
    /// The pin number.
    pub pin: Seq<char>,
}

impl View for PinRef {
    type V = PinRefView;

    open spec fn view(&self) -> PinRefView {
        PinRefView { reference: self.reference@, pin: self.pin@ }
    }
}

impl PinRef {
    /// The pin `pin` of the component `reference`.
    pub fn new(reference: &str, pin: &str) -> (r: PinRef)
        ensures
            r@ == (PinRefView { reference: reference@, pin: pin@ }),
    {
        PinRef { reference: reference.to_owned(), pin: pin.to_owned() }
    }

    /// Whether two pins carry the same names.
    pub fn same(&self, other: &PinRef) -> (r: bool)
        ensures
            r == (self@ == other@),
    {
        self.reference == other.reference && self.pin == other.pin
    }
}

impl Clone for PinRef {
    fn clone(&self) -> (r: PinRef)
        ensures
            r@ == self@,
    {
        PinRef { reference: self.reference.clone(), pin: self.pin.clone() }
    }
}

/// Logic level of a rail-adjacent net.
#[derive(Debug, Clone, Copy, PartialEq, Eq, Hash, Structural)]
pub enum Level {
    /// At or near the low rail.
    Low,
    /// At or near the high rail.
    High,
}

/// A constant-rate segment of a pulse train: how many pulses it had emitted
/// at its anchor, its rate, its ceiling and the instant it is anchored at. A
/// rate of zero is a held clock.
#[derive(Debug, Clone, Copy, PartialEq, Eq, Structural)]
pub struct PeriodicSchedule {
    /// Pulses emitted before the anchor.
    pub emitted: u64,
    /// Rate from the anchor on, in hertz.
    pub freq_hz: u32,
    /// Pulse count the train stops at, if any.
    pub total: Option<u64>,
    /// The anchor, in virtual nanoseconds.
    pub since_ns: u64,
}

/// Resolved state of a net.
#[derive(Debug, Clone, Copy, PartialEq, Eq, Structural)]
pub enum NetState {
    /// No source reaches this node.
    Floating,
    /// A strong push-pull source on the node itself wins it.
    Driven(Level),
    /// The winning source reaches the node through resistance: its level and
    /// the ohms of the winner's series path.
    Pulled(Level, Ohms),
    /// A raw node voltage: an ideal source on the node, a solved operating
    /// point, a divided voltage that is a valid level.
    Analog(Volts),
    /// Sources of comparable strength disagree and the voltage they fight to
    /// is no level.
    Contention,
    /// A square wave: the level in each phase and the segment that says when
    /// each phase is.
    Periodic {
        /// The level in the high phase.
        hi: Level,
        /// The level in the low phase.
        lo: Level,
        /// The rate, count, ceiling and anchor.
        segment: PeriodicSchedule,
    },
}

/// A Thevenin drive contribution from one pin.
#[derive(Debug, Clone, Copy, PartialEq, Eq, Structural)]
pub struct TheveninDrive {
    /// Open-circuit source voltage.
    pub volts: Volts,
    /// Source impedance.
    pub impedance: Ohms,
}

/// What a pin publishes on its net.
#[derive(Debug, Clone, Copy, PartialEq, Eq, Structural)]
pub enum Drive {
    /// A voltage behind an impedance.
    Thevenin(TheveninDrive),
    /// A current injected into the net.
    Current {
        /// The injected current.
        amps: Amps,
    },
    /// A square wave between two ports.
    Periodic {
        /// The port of the high phase.
        hi: TheveninDrive,
        /// The port of the low phase.
        lo: TheveninDrive,
        /// The segment the wave follows.
        segment: PeriodicSchedule,
    },
}

/// The voltage a resolved net sits at, beside its state.
#[derive(Debug, Clone, Copy, PartialEq, Eq)]
pub struct NetVolts {
    /// The node's voltage at this instant, where a source names one.
    pub dc: Option<Volts>,
    /// A periodic node's voltage in the high phase and in the low phase.
    pub phases: Option<(Option<Volts>, Option<Volts>)>,
}

impl NetVolts {
    /// No voltage named.
    pub open spec fn unnamed() -> NetVolts {
        NetVolts { dc: None, phases: None }
    }

    /// No voltage named.
    pub fn none() -> (r: NetVolts)
        ensures
            r == NetVolts::unnamed(),
    {
        NetVolts { dc: None, phases: None }
    }

    /// A node at one voltage, or at none.
    pub fn dc(volts: Option<Volts>) -> (r: NetVolts)
        ensures
            r == (NetVolts { dc: volts, phases: None }),
    {
        NetVolts { dc: volts, phases: None }
    }
}

/// A resolved net: identity, membership, and the state assigned by the most
/// recent pass.
#[derive(Debug, PartialEq, Eq)]
pub struct Net {
    /// Build-assigned dense index.
    pub id: NetId,
    /// Netlist net name; merged nets each keep their own.
    pub name: String,
    /// Member pins.
    pub nodes: Vec<PinRef>,
    /// State from the most recent pass.
    pub state: NetState,
    /// The voltage the same pass resolved the net to.
    pub volts: NetVolts,
}

impl Net {
    /// An unresolved net named `name`.
    pub fn new(id: NetId, name: &str) -> (net: Net)
        ensures
            net.id == id,
            net.name@ == name@,
            net.nodes@.len() == 0,
            net.state == NetState::Floating,
            net.volts == NetVolts::unnamed(),
    {
        Net {
            id,
            name: name.to_owned(),
            nodes: Vec::new(),
            state: NetState::Floating,
            volts: NetVolts::none(),
        }
    }
}

/// The level a voltage projects to: high at the threshold and above.
pub open spec fn volts_level(volts: Volts) -> Level {
    if volts.at_least(Quantity::Finite(LOGIC_THRESHOLD_VOLTS)) {
        Level::High
    } else {
        Level::Low
    }
}

/// Whether a voltage lies strictly inside the dead band.
pub open spec fn in_dead_band(volts: Volts) -> bool {
    Quantity::Finite(V_IL).below(volts) && volts.below(Quantity::Finite(V_IH))
}

/// The level a resolved net presents in the report; none for a floating, a
/// contended or a periodic net.
pub open spec fn state_level(state: NetState) -> Option<Level> {
    match state {
        NetState::Driven(level) => Some(level),
        NetState::Pulled(level, _) => Some(level),
        NetState::Analog(volts) => Some(volts_level(volts)),
        _ => None,
    }
}

/// The level a voltage projects to.
pub fn level_of_volts(volts: Volts) -> (r: Level)
    ensures
        r == volts_level(volts),
{
    if volts.ge(Quantity::Finite(LOGIC_THRESHOLD_VOLTS)) {
        Level::High
    } else {
        Level::Low
    }
}

/// Whether a voltage lies strictly inside the dead band.
pub fn ambiguous_volts(volts: Volts) -> (r: bool)
    ensures
        r == in_dead_band(volts),
{
    Quantity::Finite(V_IL).lt(volts) && volts.lt(Quantity::Finite(V_IH))
}

/// The logic level a resolved net presents in the report.
pub fn level_of(state: NetState) -> (r: Option<Level>)
    ensures
        r == state_level(state),
{
    match state {
        NetState::Driven(level) => Some(level),
        NetState::Pulled(level, _) => Some(level),
        NetState::Analog(volts) => Some(level_of_volts(volts)),
        NetState::Floating => None,
        NetState::Contention => None,
        NetState::Periodic { .. } => None,
    }
}

/// The contribution of a push-pull digital output at `level`.
pub open spec fn push_pull(level: Level) -> TheveninDrive {
    TheveninDrive {
        volts: Quantity::Finite(
            match level {
                Level::High => LOGIC_HIGH_VOLTS,
                Level::Low => 0,
            },
        ),
        impedance: Quantity::Finite(DEFAULT_PUSH_PULL_IMPEDANCE),
    }
}

/// The contribution of a push-pull digital output at `level`.
pub fn digital_drive(level: Level) -> (drive: TheveninDrive)
    ensures
        drive == push_pull(level),
{
    let volts: i64 = match level {
        Level::High => LOGIC_HIGH_VOLTS,
        Level::Low => 0,
    };
    TheveninDrive {
        volts: Quantity::Finite(volts),
        impedance: Quantity::Finite(DEFAULT_PUSH_PULL_IMPEDANCE),
    }
}

/// A digital output reads back as the level it drives.
pub proof fn digital_drive_reads_back(level: Level)
    ensures
        volts_level(push_pull(level).volts) == level,
        !in_dead_band(push_pull(level).volts),
{
}

/// The form a drive takes in the slot table: a Thevenin drive behind a
/// non-finite impedance is a released pin, and so is a non-finite injection.
pub open spec fn normalised(drive: Option<Drive>) -> Option<Drive> {
    match drive {
        Some(Drive::Thevenin(t)) => if t.impedance.finite() {
            drive
        } else {
            None
        },
        Some(Drive::Current { amps }) => if amps.finite() {
            drive
        } else {
            None
        },
        _ => drive,
    }
}

/// The form a drive takes in the slot table.
pub fn normalise_drive(drive: Option<Drive>) -> (r: Option<Drive>)
    ensures
        r == normalised(drive),
{
    match drive {
        Some(Drive::Thevenin(t)) => if t.impedance.is_finite() {
            drive
        } else {
            None
        },
        Some(Drive::Current { amps }) => if amps.is_finite() {
            drive
        } else {
            None
        },
        _ => drive,
    }
}

/// Normalising twice is normalising once, and an open circuit is a release.
pub proof fn normalised_is_stable(drive: Option<Drive>, volts: Volts)
    ensures
        normalised(normalised(drive)) == normalised(drive),
        normalised(
            Some(Drive::Thevenin(TheveninDrive { volts, impedance: Quantity::Infinite })),
        ) == None::<Drive>,
{
}

/// Whether two drive contributions are the same, not-a-number equal to
/// itself, so a re-driven rail is no change.
pub fn same_drive(a: &Option<Drive>, b: &Option<Drive>) -> (r: bool)
    ensures
        r == (*a == *b),
{
    match (a, b) {
        (None, None) => true,
        (Some(x), Some(y)) => *x == *y,
        _ => false,
    }
}

/// Whether two optional figures are the same, not-a-number equal to itself.
pub fn same_figure(a: Option<Quantity>, b: Option<Quantity>) -> (r: bool)
    ensures
        r == (a == b),
{
    match (a, b) {
        (None, None) => true,
        (Some(x), Some(y)) => x == y,
        _ => false,
    }
}

/// Whether two resolved voltages are the same, not-a-number equal to itself.
pub fn same_volts(a: &NetVolts, b: &NetVolts) -> (r: bool)
    ensures
        r == (*a == *b),
{
    if !same_figure(a.dc, b.dc) {
        return false;
    }
    match (a.phases, b.phases) {
        (None, None) => true,
        (Some((ah, al)), Some((bh, bl))) => same_figure(ah, bh) && same_figure(al, bl),
        _ => false,
    }
}

/// Whether two states are the same: not-a-number equal to itself, a periodic
/// state by its segment, the anchor included.
pub fn same_state(a: &NetState, b: &NetState) -> (r: bool)
    ensures
        r == (*a == *b),
{
    *a == *b
}

/// How a net moved in one pass.
#[derive(Debug, Clone, Copy, PartialEq, Eq, Structural)]
pub enum NetMove {
    /// Its state changed: recorded in the report, and its senses delivered.
    State,
    /// Only the voltage behind an unchanged state moved: its senses are
    /// delivered.
    Volts,
}

impl NetMove {
    /// How a net at `after` moved from `before`.
    pub open spec fn between(
        before: (NetState, NetVolts),
        after: (NetState, NetVolts),
    ) -> Option<NetMove> {
        if before.0 != after.0 {
            Some(NetMove::State)
        } else if before.1 != after.1 {
            Some(NetMove::Volts)
        } else {
            None
        }
    }

    /// How `net` moved from `state` at `volts`, or `None` if it did not.
    pub fn of(state: &NetState, volts: &NetVolts, net: &Net) -> (r: Option<NetMove>)
        ensures
            r == NetMove::between((*state, *volts), (net.state, net.volts)),
    {
        if !same_state(state, &net.state) {
            Some(NetMove::State)
        } else if !same_volts(volts, &net.volts) {
            Some(NetMove::Volts)
        } else {
            None
        }
    }
}

/// A net that a pass left as it was has not moved, whatever it holds.
pub proof fn unchanged_net_does_not_move(at: (NetState, NetVolts))
    ensures
        NetMove::between(at, at) == None::<NetMove>,
{
}

/// Which port of every periodic drive a resolution pass stands on.
#[derive(Debug, Clone, Copy, PartialEq, Eq, Structural)]
pub enum Phase {
    /// Every periodic drive at its high port.
    High,
    /// Every periodic drive at its low port.
    Low,
}

/// The Thevenin port a slot's drive presents in `phase`.
pub open spec fn port_in(drive: Option<Drive>, phase: Option<Phase>) -> Option<TheveninDrive> {
    let port = match (drive, phase) {
        (Some(Drive::Thevenin(port)), _) => Some(port),
        (Some(Drive::Periodic { hi, .. }), Some(Phase::High)) => Some(hi),
        (Some(Drive::Periodic { lo, .. }), Some(Phase::Low)) => Some(lo),
        _ => None,
    };
    match port {
        Some(p) => if p.impedance.finite() {
            Some(p)
        } else {
            None
        },
        None => None,
    }
}

/// The Thevenin port a slot's drive presents in `phase`: its own in every
/// phase, a periodic drive's high or low one, none where that port is
/// released, and none for an injection or a released slot.
pub fn phase_port(drive: Option<Drive>, phase: Option<Phase>) -> (r: Option<TheveninDrive>)
    ensures
        r == port_in(drive, phase),
{
    let port = match (drive, phase) {
        (Some(Drive::Thevenin(port)), _) => Some(port),
        (Some(Drive::Periodic { hi, .. }), Some(Phase::High)) => Some(hi),
        (Some(Drive::Periodic { lo, .. }), Some(Phase::Low)) => Some(lo),
        _ => None,
    };
    match port {
        Some(p) => if p.impedance.is_finite() {
            Some(p)
        } else {
            None
        },
        None => None,
    }
}

/// Whether a slot holds a square wave.
pub open spec fn is_periodic(drive: Option<Drive>) -> bool {
    drive is Some && drive->0 is Periodic
}

/// Whether a slot holds a square wave.
pub fn holds_periodic(drive: &Option<Drive>) -> (r: bool)
    ensures
        r == is_periodic(*drive),
{
    match drive {
        Some(Drive::Periodic { .. }) => true,
        _ => false,
    }
}

} // verus!
