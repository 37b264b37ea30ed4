//! The engine: what a board's run keeps, publishes and delivers.
use vstd::prelude::*;

use crate::board::ReadKind;
use crate::cluster::ClusterSolver;
use crate::diagnostics::{reported, CallbackKind, Diagnostics, Finding, FindingView};
use crate::event_log::{logged, EngineEvent, EventLog, EventView, RecordView};
use crate::net::{ComponentId, Net, NetState, NetVolts};
use crate::quantity::Amps;
use crate::resolver::{CurrentTable, Resolver};
use crate::senses::{SenseStep, SenseSub, SenseTable};
use crate::sequencer::DriveQueue;
use crate::text::{decimal, push_decimal, push_text, text_of};
use crate::volts::VoltsTable;
use crate::wheel::{in_deadline_order, TimerWheel};

pub mod commands;
pub mod laws;
pub mod service;
pub mod passes;
pub mod timers;

verus! {

/// The virtual clock as a call finds it.
#[derive(Debug, Clone, Copy, PartialEq, Eq, Structural)]
pub struct Clock {
    /// Whether it has an origin.
    pub ready: bool,
    /// Virtual nanoseconds.
    pub ns: u64,
    /// Virtual microseconds.
    pub us: u64,
}

impl Clock {
    /// What a record written now is stamped with; a clock without an origin
    /// stamps nought.
    pub open spec fn stamp(&self) -> u64 {
        if self.ready {
            self.us
        } else {
            0
        }
    }

    fn stamped(&self) -> (us: u64)
        ensures
            us == self.stamp(),
    {
        if self.ready {
            self.us
        } else {
            0
        }
    }
}

/// A current instrument: the net it reads at, and what it was last delivered.
#[derive(Debug, Clone, Copy, PartialEq, Eq)]
pub struct CurrentSub {
    /// The net of the pin it reads through.
    pub net: usize,
    /// The current it was last delivered.
    pub last: Option<Amps>,
}

/// What a sense subscription is handed.
#[derive(Debug, Clone, Copy, PartialEq, Eq)]
pub struct Delivery {
    /// The net's state.
    pub state: NetState,
    /// The voltage behind it.
    pub node: NetVolts,
    /// The voltage of the reference it is measured against.
    pub reference: Option<NetVolts>,
}

/// Who is called back.
#[derive(Debug, Clone, Copy, PartialEq, Eq, Structural)]
pub enum Subscriber {
    /// A sense or an instrument on a net.
    Net(usize),
    /// A component's wake handler.
    Component(ComponentId),
    /// A topology observer.
    Topology,
}

/// The published currents, as sequences.
#[verifier::ext_equal]
pub struct CurrentsView {
    /// The current into every endpoint.
    pub endpoints: Seq<Option<Amps>>,
    /// The current through every element.
    pub elements: Seq<Option<Amps>>,
}

/// The currents a resolver's last passes produced.
pub open spec fn currents_of(resolver: Resolver) -> CurrentsView {
    CurrentsView {
        endpoints: Seq::new(
            resolver.board()@.slots.len(),
            |e: int| resolver.endpoint_current(e),
        ),
        elements: Seq::new(
            resolver.board()@.elements.len(),
            |e: int| resolver.element_current(e),
        ),
    }
}

/// What an engine keeps, published and has yet to deliver.
#[verifier::reject_recursive_types(S)]
pub struct EngineView<S> {
    /// The resolver.
    pub resolver: Resolver,
    /// The nets, as the last pass left them.
    pub nets: Seq<Net>,
    /// What solves a cluster.
    pub solver: S,
    /// The published states.
    pub states: Seq<NetState>,
    /// The published voltages.
    pub volts: Seq<NetVolts>,
    /// The published currents.
    pub currents: CurrentsView,
    /// The current instruments, in registration order.
    pub instruments: Seq<CurrentSub>,
    /// Every finding so far.
    pub bus: Seq<FindingView>,
    /// The sense subscriptions, in registration order.
    pub senses: Seq<SenseSub>,
    /// The components with a wake handler.
    pub wakers: Set<usize>,
    /// The topology epoch.
    pub epoch: u64,
    /// The armed wakes.
    pub wheel: TimerWheel,
    /// The drives that wait for their turn.
    pub drives: DriveQueue,
    /// Whether virtual time may advance.
    pub released: bool,
    /// The reads declared since the last pass.
    pub reads: Seq<(usize, ReadKind)>,
    /// Whether actors are known never to park.
    pub stalled: bool,
    /// The event log.
    pub log: Option<Seq<RecordView>>,
    /// What the last pass has yet to report and deliver.
    pub steps: Seq<SenseStep>,
    /// The next instrument to read, while the last pass changed a current.
    pub walk: Option<usize>,
}

/// The states of nets.
pub open spec fn states_of(nets: Seq<Net>) -> Seq<NetState> {
    Seq::new(nets.len(), |i: int| nets[i].state)
}

/// The voltages of nets.
pub open spec fn volts_of(nets: Seq<Net>) -> Seq<NetVolts> {
    Seq::new(nets.len(), |i: int| nets[i].volts)
}

/// Whether a step names a net and a subscription there are.
pub open spec fn step_known(step: SenseStep, nets: nat, subs: nat) -> bool {
    match step {
        SenseStep::Resolved(net) => net < nets,
        SenseStep::Deliver(sub) => sub < subs,
    }
}

/// Whether a subscription reads nets there are.
pub open spec fn sub_known(sub: SenseSub, nets: nat) -> bool {
    &&& sub.net < nets
    &&& sub.reference matches Some(r) ==> r < nets
}

/// Whether every step names a net and a subscription there are.
pub open spec fn steps_known(steps: Seq<SenseStep>, nets: nat, subs: nat) -> bool {
    forall|i: int| 0 <= i < steps.len() ==> step_known(#[trigger] steps[i], nets, subs)
}

/// Whether every subscription reads nets there are.
pub open spec fn subs_known(senses: Seq<SenseSub>, nets: nat) -> bool {
    forall|s: int| 0 <= s < senses.len() ==> sub_known(#[trigger] senses[s], nets)
}

/// Every net and finding of a cluster that does not wait is as a full pass
/// over the board would leave it.
#[verifier::opaque]
pub open spec fn partly_resolved<S: ClusterSolver>(
    resolver: Resolver,
    solver: S,
    nets: Seq<Net>,
    bus: Seq<FindingView>,
) -> bool {
    &&& resolver.well_formed()
    &&& resolver.in_step(&solver, nets)
    &&& resolver.on_bus(&solver, nets, bus)
    &&& !resolver.currents_moved()
}

/// Every net and finding is as a full pass over the board would leave it.
#[verifier::opaque]
pub open spec fn resolved<S: ClusterSolver>(
    resolver: Resolver,
    solver: S,
    nets: Seq<Net>,
    bus: Seq<FindingView>,
) -> bool {
    &&& resolver.well_formed()
    &&& resolver.in_step(&solver, nets)
    &&& resolver.on_bus(&solver, nets, bus)
    &&& !resolver.currents_moved()
    &&& resolver.fully_resolved(&solver, nets)
}

impl<S: ClusterSolver> EngineView<S> {
    /// Everything but the clusters that wait is as a full pass over the board
    /// would leave it, and is published.
    pub open spec fn in_step(&self) -> bool {
        &&& partly_resolved(self.resolver, self.solver, self.nets, self.bus)
        &&& self.published()
    }

    /// The tables hold what the nets and the resolver do, and every
    /// subscription and step names nets there are.
    pub open spec fn published(&self) -> bool {
        &&& self.states == states_of(self.nets)
        &&& self.volts == volts_of(self.nets)
        &&& self.currents == currents_of(self.resolver)
        &&& steps_known(self.steps, self.nets.len(), self.senses.len())
        &&& subs_known(self.senses, self.nets.len())
        &&& self.wheel.well_formed()
        &&& self.drives.well_formed()
    }

    /// No cluster waits: what is published is what a full pass over the board
    /// as it is driven publishes.
    pub open spec fn sound(&self) -> bool {
        &&& resolved(self.resolver, self.solver, self.nets, self.bus)
        &&& self.published()
    }

    /// What a subscription is handed now.
    pub open spec fn delivery(&self, sub: SenseSub) -> Delivery {
        Delivery {
            state: self.nets[sub.net as int].state,
            node: self.nets[sub.net as int].volts,
            reference: match sub.reference {
                Some(r) => Some(self.nets[r as int].volts),
                None => None,
            },
        }
    }

    /// What a subscriber is called in a finding.
    pub open spec fn name(&self, who: Subscriber) -> Seq<char> {
        match who {
            Subscriber::Net(net) => if net < self.nets.len() {
                self.nets[net as int].name@
            } else {
                "net "@ + decimal(net as nat)
            },
            Subscriber::Component(component) => "component "@ + decimal(component.0 as nat),
            Subscriber::Topology => "topology observer"@,
        }
    }
}

/// What kind of callback a subscriber has.
pub open spec fn callback_of(who: Subscriber) -> CallbackKind {
    match who {
        Subscriber::Net(_) => CallbackKind::Sense,
        Subscriber::Component(_) => CallbackKind::Wake,
        Subscriber::Topology => CallbackKind::Topology,
    }
}

/// An engine with a finding reported: on the bus and in the log the first
/// time, nothing after that.
pub open spec fn found<S>(e: EngineView<S>, finding: FindingView, us: u64) -> EngineView<S> {
    EngineView {
        bus: reported(e.bus, finding),
        log: if e.bus.contains(finding) {
            e.log
        } else {
            logged(e.log, EventView::Finding(finding), us)
        },
        ..e
    }
}

/// A log with findings written behind it.
pub open spec fn findings_logged(
    log: Option<Seq<RecordView>>,
    findings: Seq<FindingView>,
    us: u64,
) -> Option<Seq<RecordView>>
    decreases findings.len(),
{
    if findings.len() == 0 {
        log
    } else {
        logged(
            findings_logged(log, findings.drop_last(), us),
            EventView::Finding(findings.last()),
            us,
        )
    }
}

/// All net state, and what the last pass has yet to deliver.
pub struct EngineCore<S: ClusterSolver> {
    resolver: Resolver,
    nets: Vec<Net>,
    solver: S,
    states: Vec<NetState>,
    volts: VoltsTable,
    currents: CurrentTable,
    current_subs: Vec<CurrentSub>,
    diagnostics: Diagnostics,
    senses: SenseTable,
    wake_subs: Vec<usize>,
    topology_epoch: u64,
    wheel: TimerWheel,
    drives: DriveQueue,
    clock_released: bool,
    pending_reads: Vec<(usize, ReadKind)>,
    quiescence_stalled: bool,
    event_log: EventLog,
    steps: Vec<SenseStep>,
    /// How many of the steps are done.
    done: usize,
    walk: Option<usize>,
}

impl<S: ClusterSolver> View for EngineCore<S> {
    type V = EngineView<S>;

    closed spec fn view(&self) -> EngineView<S> {
        EngineView {
            resolver: self.resolver,
            nets: self.nets@,
            solver: self.solver,
            states: self.states@,
            volts: self.volts@,
            currents: CurrentsView {
                endpoints: self.currents.endpoints@,
                elements: self.currents.elements@,
            },
            instruments: self.current_subs@,
            bus: self.diagnostics@,
            senses: self.senses.list(),
            wakers: self.wake_subs@.to_set(),
            epoch: self.topology_epoch,
            wheel: self.wheel,
            drives: self.drives,
            released: self.clock_released,
            reads: self.pending_reads@,
            stalled: self.quiescence_stalled,
            log: self.event_log@,
            steps: self.steps@.skip(self.done as int),
            walk: self.walk,
        }
    }
}

impl<S: ClusterSolver> EngineCore<S> {
    /// The lists are in step with one another.
    pub closed spec fn kept(&self) -> bool {
        &&& self.senses.well_formed()
        &&& self.done <= self.steps@.len()
    }

    /// No cluster waits, and what is published is what a full pass over the
    /// board as it is driven publishes.
    pub closed spec fn well_formed(&self) -> bool {
        &&& self.kept()
        &&& self@.sound()
    }

    /// What is published is what a full pass over the board as it is driven
    /// publishes, and the wakes fire in deadline order.
    pub proof fn is_sound(&self)
        requires
            self.well_formed(),
        ensures
            self@.sound(),
            in_deadline_order(self@.wheel.pending()),
    {
        self.wheel.fires_in_deadline_order();
    }

    /// Put a finding on the bus, and in the log the first time.
    fn report_finding(&mut self, finding: Finding, us: u64)
        requires
            old(self).kept(),
        ensures
            final(self).kept(),
            final(self)@ == found(old(self)@, finding@, us),
            *final(self) == (EngineCore {
                diagnostics: final(self).diagnostics,
                event_log: final(self).event_log,
                ..*old(self)
            }),
    {
        if !self.event_log.is_enabled() {
            self.diagnostics.report(finding);
            return ;
        }
        let copy = finding.clone();
        if self.diagnostics.report(finding) {
            let event = move || -> (event: EngineEvent)
                ensures
                    event@ == EventView::Finding(copy@),
                { EngineEvent::Finding(copy) };
            self.event_log.record(event, us);
        }
    }

    /// What a subscriber is called in a finding.
    fn subscriber_name(&self, who: Subscriber) -> (name: String)
        ensures
            name@ == self@.name(who),
    {
        let mut out: Vec<char> = Vec::new();
        match who {
            Subscriber::Net(net) => {
                if net < self.nets.len() {
                    return self.nets[net].name.clone();
                }
                push_text(&mut out, "net ");
                push_decimal(&mut out, net as u128);
            },
            Subscriber::Component(component) => {
                push_text(&mut out, "component ");
                push_decimal(&mut out, component.0 as u128);
            },
            Subscriber::Topology => push_text(&mut out, "topology observer"),
        }
        assert(out@ =~= self@.name(who));
        text_of(&out)
    }
}

} // verus!
