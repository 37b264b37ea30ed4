//! Commands, and what they and the passes have delivered.
use vstd::prelude::*;

use crate::board::ReadKind;
use crate::cluster::ClusterSolver;
use crate::diagnostics::{reported, CallbackKind, Diagnostics, Finding, FindingView};
use crate::engine::passes::{dirty_passed, fully_passed};
use crate::engine::{
    callback_of, currents_of, found, partly_resolved, resolved, states_of, step_known, sub_known,
    volts_of, Clock, CurrentSub, Delivery, EngineCore, EngineView, Subscriber,
};
use crate::event_log::{logged, EngineEvent, EventLog, EventView, RecordView};
use crate::net::{
    normalised, same_figure, ComponentId, Drive, EndpointId, Net, NetId, NetState, NetVolts,
};
use crate::quantity::Amps;
use crate::resolver::drives::driven;
use crate::resolver::laws::clean_changes_keep_step;
use crate::resolver::Resolver;
use crate::senses::{known_reference, known_supply, SenseStep, SenseSub, SenseTable};
use crate::sequencer::{at_place, enqueued, place_after, without, DriveQueue, PendingDrive};
use crate::volts::VoltsTable;
use crate::wheel::{capped, sum_capped, with_entry, TimerEntry, TimerWheel};

verus! {

/// What a step of a pass's script writes into the log.
pub open spec fn told(
    log: Option<Seq<RecordView>>,
    nets: Seq<Net>,
    senses: Seq<SenseSub>,
    step: SenseStep,
    us: u64,
) -> Option<Seq<RecordView>> {
    match step {
        SenseStep::Resolved(net) => logged(
            log,
            EventView::NetResolved { net: NetId(net), state: nets[net as int].state },
            us,
        ),
        SenseStep::Deliver(sub) => logged(
            log,
            EventView::SenseDelivered {
                net: NetId(senses[sub as int].net),
                state: nets[senses[sub as int].net as int].state,
            },
            us,
        ),
    }
}

/// What a whole script writes into the log.
pub open spec fn all_told(
    log: Option<Seq<RecordView>>,
    nets: Seq<Net>,
    senses: Seq<SenseSub>,
    steps: Seq<SenseStep>,
    us: u64,
) -> Option<Seq<RecordView>>
    decreases steps.len(),
{
    if steps.len() == 0 {
        log
    } else {
        told(all_told(log, nets, senses, steps.drop_last(), us), nets, senses, steps.last(), us)
    }
}

/// An engine over an assembled board, before its first pass.
pub open spec fn fresh<S>(
    e: EngineView<S>,
    resolver: Resolver,
    nets: Seq<Net>,
    solver: S,
    log: Option<Seq<RecordView>>,
) -> bool {
    &&& e.wheel.well_formed()
    &&& e.wheel.pending().len() == 0
    &&& forall|c: usize, t: u64| !#[trigger] e.wheel.is_armed(c, t)
    &&& e.drives.well_formed()
    &&& e.drives.waiting().len() == 0
    &&& e.drives.next_place() == 0
    &&& e.drives.watched() is None
    &&& e == EngineView {
        resolver,
        nets,
        solver,
        states: states_of(nets),
        volts: volts_of(nets),
        currents: currents_of(resolver),
        instruments: Seq::empty(),
        bus: Seq::empty(),
        senses: Seq::empty(),
        wakers: Set::empty(),
        epoch: 0,
        wheel: e.wheel,
        drives: e.drives,
        released: false,
        reads: Seq::empty(),
        stalled: false,
        log,
        steps: Seq::empty(),
        walk: None,
    }
}

/// An engine's start: a full pass over the board, its changed nets and the
/// first topology epoch in the log.
pub open spec fn started<S: ClusterSolver>(
    e: EngineView<S>,
    passed: Resolver,
    f: EngineView<S>,
    us: u64,
    core: EngineView<S>,
) -> bool {
    &&& fully_passed(e, passed, f, us)
    &&& core == EngineView {
        log: logged(
            all_told(f.log, f.nets, f.senses, f.steps, us),
            EventView::Reroute { epoch: 0 },
            us,
        ),
        steps: Seq::empty(),
        ..f
    }
}

impl<S: ClusterSolver> EngineCore<S> {
    /// Start an engine over an assembled board: the first full pass is run
    /// and reported, so that never-driven nets are on the bus before any
    /// traffic, and the topology epoch is published behind it.
    pub fn new(
        resolver: Resolver,
        nets: Vec<Net>,
        solver: S,
        event_log: EventLog,
        clock: Clock,
    ) -> (core: EngineCore<S>)
        requires
            resolver.well_formed(),
            resolver.fits(nets@.len()),
        ensures
            core.well_formed(),
            exists|e: EngineView<S>, passed: Resolver, f: EngineView<S>|
                fresh(e, resolver, nets@, solver, event_log@) && #[trigger] started(
                    e,
                    passed,
                    f,
                    clock.stamp(),
                    core@,
                ),
    {
        let us = clock.stamped();
        let mut states: Vec<NetState> = Vec::new();
        let mut volts: Vec<NetVolts> = Vec::new();
        let mut i: usize = 0;
        while i < nets.len()
            invariant
                i <= nets@.len(),
                states@ =~= states_of(nets@.take(i as int)),
                volts@ =~= volts_of(nets@.take(i as int)),
            decreases nets@.len() - i,
        {
            states.push(nets[i].state);
            volts.push(nets[i].volts);
            i += 1;
        }
        assert(nets@.take(i as int) =~= nets@);
        let currents = resolver.current_table();
        let ghost held = nets@;
        let mut core = EngineCore {
            resolver,
            nets,
            solver,
            states,
            volts: VoltsTable::of(volts),
            currents,
            current_subs: Vec::new(),
            diagnostics: Diagnostics::new(),
            senses: SenseTable::new(),
            wake_subs: Vec::new(),
            topology_epoch: 0,
            wheel: TimerWheel::new(),
            drives: DriveQueue::new(),
            clock_released: false,
            pending_reads: Vec::new(),
            quiescence_stalled: false,
            event_log,
            steps: Vec::new(),
            done: 0,
            walk: None,
        };
        let ghost e = core@;
        proof {
            assert(e.wakers =~= Set::<usize>::empty());
            assert(e.steps =~= Seq::<SenseStep>::empty());
            assert(e.currents =~= currents_of(resolver));
            assert(fresh(e, resolver, held, solver, event_log@));
        }
        core.resolve_and_publish(us);
        let ghost f = core@;
        core.report_all(us);
        proof {
            let passed = choose|passed: Resolver| fully_passed(e, passed, f, us);
            assert(started(e, passed, f, us, core@));
        }
        core
    }

    /// Report everything a pass over a board nobody senses has to report.
    fn report_all(&mut self, us: u64)
        requires
            old(self).kept(),
            old(self)@.sound(),
        ensures
            final(self).kept(),
            final(self)@.sound(),
            final(self)@ == (EngineView {
                log: logged(
                    all_told(
                        old(self)@.log,
                        old(self)@.nets,
                        old(self)@.senses,
                        old(self)@.steps,
                        us,
                    ),
                    EventView::Reroute { epoch: old(self)@.epoch },
                    us,
                ),
                steps: Seq::empty(),
                ..old(self)@
            }),
    {
        let ghost f = self@;
        let ghost from = self.done as int;
        assert(f.steps.take(0) =~= Seq::<SenseStep>::empty());
        while self.done < self.steps.len()
            invariant
                self.kept(),
                self@.sound(),
                f == old(self)@,
                self.steps@ == old(self).steps@,
                from == old(self).done,
                from <= self.done <= self.steps@.len(),
                f.steps == self.steps@.skip(from),
                self@ == (EngineView { steps: self@.steps, log: self@.log, ..f }),
                self@.log == all_told(
                    f.log,
                    f.nets,
                    f.senses,
                    f.steps.take(self.done - from),
                    us,
                ),
            decreases self.steps@.len() - self.done,
        {
            proof {
                let front = f.steps.take(self.done - from + 1);
                assert(front.drop_last() =~= f.steps.take(self.done - from));
                assert(front.last() == self@.steps[0]);
            }
            let step = self.next_step(us);
        }
        assert(f.steps.take(self.done - from) =~= f.steps);
        assert(self@.steps =~= Seq::<SenseStep>::empty());
        let epoch = self.topology_epoch;
        let event = || -> (event: EngineEvent)
            ensures
                event == (EngineEvent::Reroute { epoch }),
            { EngineEvent::Reroute { epoch } };
        self.event_log.record(event, us);
    }

    /// Take the next step of the last pass's script, its report in the log.
    fn next_step(&mut self, us: u64) -> (step: SenseStep)
        requires
            old(self).kept(),
            old(self)@.sound(),
            old(self).done < old(self).steps@.len(),
        ensures
            final(self).kept(),
            final(self)@.sound(),
            step == old(self)@.steps[0],
            final(self)@ == (EngineView {
                steps: old(self)@.steps.drop_first(),
                log: told(old(self)@.log, old(self)@.nets, old(self)@.senses, step, us),
                ..old(self)@
            }),
            final(self).done == old(self).done + 1,
            final(self).steps == old(self).steps,
    {
        let step = self.steps[self.done];
        assert(step == self@.steps[0]);
        match step {
            SenseStep::Resolved(net) => {
                let state = self.nets[net].state;
                let event = || -> (event: EngineEvent)
                    ensures
                        event == (EngineEvent::NetResolved { net: NetId(net), state }),
                    { EngineEvent::NetResolved { net: NetId(net), state } };
                self.event_log.record(event, us);
            },
            SenseStep::Deliver(sub) => {
                let net = self.senses.sub(sub).net;
                let state = self.nets[net].state;
                let event = || -> (event: EngineEvent)
                    ensures
                        event == (EngineEvent::SenseDelivered { net: NetId(net), state }),
                    { EngineEvent::SenseDelivered { net: NetId(net), state } };
                self.event_log.record(event, us);
            },
        }
        assert(self.steps.len() <= usize::MAX);
        self.done += 1;
        assert(self@.steps =~= old(self)@.steps.drop_first());
        step
    }
}

/// What the engine asks of its caller.
#[derive(Debug, Clone, Copy, PartialEq, Eq)]
pub enum Action {
    /// Nothing is left to deliver or to apply.
    Idle,
    /// Something was done that calls nobody back: go on.
    Continue,
    /// Hand a subscription its net's resolution.
    Sense {
        /// The subscription.
        sub: usize,
        /// What it is handed.
        delivery: Delivery,
    },
    /// Read an instrument against the published currents, and say what it
    /// reads.
    Measure {
        /// The instrument.
        instrument: usize,
    },
}

/// The queue of drives behind the one that was taken.
pub open spec fn moved_on(before: DriveQueue, after: DriveQueue) -> bool {
    &&& after.well_formed()
    &&& after.watched() == before.watched()
    &&& after.next_place() == place_after(before.next_place())
    &&& after.waiting() == without(before.waiting(), before.next_place())
}

/// Whether a drive changes what an endpoint contributes.
pub open spec fn changes(resolver: Resolver, entry: PendingDrive) -> bool {
    entry.endpoint.0 < resolver.board()@.slots.len()
        && resolver.board()@.slots[entry.endpoint.0 as int].drive != normalised(entry.drive)
}

/// A resolver once it took a drive that changes it.
pub open spec fn took_drive(before: Resolver, after: Resolver, entry: PendingDrive) -> bool {
    &&& after.well_formed()
    &&& after.same_results(&before)
    &&& after.board()@ == driven(before.board()@, entry.endpoint.0 as int, normalised(entry.drive))
    &&& forall|n: nat| #[trigger]
        before.settled_for(n) ==> after.touched_waits(
            &before,
            n,
            entry.endpoint.0 as int,
            normalised(entry.drive),
        ) && after.keeps_clean(&before, n)
}

/// An engine that took its next drive: the drive in the log, and where it
/// changes the board a pass over what it touched.
pub open spec fn applied<S: ClusterSolver>(
    e: EngineView<S>,
    entry: PendingDrive,
    f: EngineView<S>,
    us: u64,
) -> bool {
    let taken = EngineView {
        drives: f.drives,
        log: logged(
            e.log,
            EventView::DriveApplied {
                seq: entry.seq,
                endpoint: entry.endpoint,
                drive: entry.drive,
            },
            us,
        ),
        ..e
    };
    &&& moved_on(e.drives, f.drives)
    &&& if changes(e.resolver, entry) {
        exists|driven: Resolver| #[trigger]
            took_drive(e.resolver, driven, entry) && dirty_passed(
                EngineView { resolver: driven, ..taken },
                f,
                us,
            )
    } else {
        f == taken
    }
}

/// A drive leaves everything it does not set waiting in step.
proof fn a_drive_keeps_step<S: ClusterSolver>(
    e: EngineView<S>,
    driven: Resolver,
    entry: PendingDrive,
)
    requires
        e.sound(),
        changes(e.resolver, entry),
        took_drive(e.resolver, driven, entry),
    ensures
        (EngineView { resolver: driven, ..e }).in_step(),
{
    reveal(resolved);
    reveal(partly_resolved);
    let n = e.nets.len();
    assert(e.resolver.settled_for(n));
    assert(driven.keeps_clean(&e.resolver, n));
    clean_changes_keep_step(&e.resolver, &driven, &e.solver, e.nets, e.bus);
    assert(currents_of(driven) =~= currents_of(e.resolver));
}

/// An engine that did the next thing there is to do.
pub open spec fn advanced<S: ClusterSolver>(
    e: EngineView<S>,
    us: u64,
    f: EngineView<S>,
    action: Action,
) -> bool {
    let ready = at_place(e.drives.waiting(), e.drives.next_place());
    if e.steps.len() > 0 {
        &&& f == EngineView {
            steps: e.steps.drop_first(),
            log: told(e.log, e.nets, e.senses, e.steps[0], us),
            ..e
        }
        &&& action == match e.steps[0] {
            SenseStep::Resolved(_) => Action::Continue,
            SenseStep::Deliver(sub) => Action::Sense {
                sub,
                delivery: e.delivery(e.senses[sub as int]),
            },
        }
    } else if let Some(instrument) = e.walk {
        if instrument < e.instruments.len() {
            &&& f == EngineView { walk: Some((instrument + 1) as usize), ..e }
            &&& action == Action::Measure { instrument }
        } else {
            &&& f == EngineView { walk: None, ..e }
            &&& action == Action::Continue
        }
    } else if let Some(entry) = ready {
        &&& applied(e, entry, f, us)
        &&& action == Action::Continue
    } else {
        &&& f == e
        &&& action == Action::Idle
    }
}

impl<S: ClusterSolver> EngineCore<S> {
    /// Do the next thing there is to do: report or deliver what the last pass
    /// moved, read the instruments it may have changed, or apply the next
    /// drive in enqueue order and resolve what it touched.
    pub fn advance(&mut self, clock: Clock) -> (action: Action)
        requires
            old(self).well_formed(),
        ensures
            final(self).well_formed(),
            advanced(old(self)@, clock.stamp(), final(self)@, action),
    {
        let us = clock.stamped();
        if self.done < self.steps.len() {
            assert(self@.steps[0] == self.steps@[self.done as int]);
            let step = self.next_step(us);
            return match step {
                SenseStep::Resolved(_) => Action::Continue,
                SenseStep::Deliver(sub) => Action::Sense { sub, delivery: self.delivery_to(sub) },
            };
        }
        if let Some(instrument) = self.walk {
            if instrument < self.current_subs.len() {
                self.walk = Some(instrument + 1);
                return Action::Measure { instrument };
            }
            self.walk = None;
            return Action::Continue;
        }
        let ghost e = self@;
        match self.drives.take_ready() {
            None => Action::Idle,
            Some(entry) => {
                let PendingDrive { seq, endpoint, drive } = entry;
                let event = || -> (event: EngineEvent)
                    ensures
                        event == (EngineEvent::DriveApplied { seq, endpoint, drive }),
                    { EngineEvent::DriveApplied { seq, endpoint, drive } };
                self.event_log.record(event, us);
                self.apply(entry, us);
                Action::Continue
            },
        }
    }

    /// Put a drive into the table, and resolve what it touches.
    fn apply(&mut self, entry: PendingDrive, us: u64)
        requires
            old(self).kept(),
            old(self)@.sound(),
        ensures
            final(self).kept(),
            final(self)@.sound(),
            final(self)@.drives == old(self)@.drives,
            if changes(old(self)@.resolver, entry) {
                exists|driven: Resolver| #[trigger]
                    took_drive(old(self)@.resolver, driven, entry) && dirty_passed(
                        EngineView { resolver: driven, ..old(self)@ },
                        final(self)@,
                        us,
                    )
            } else {
                final(self)@ == old(self)@
            },
    {
        let ghost e = self@;
        proof {
            reveal(resolved);
        }
        if self.resolver.set_drive(entry.endpoint, entry.drive) {
            let ghost driven = self.resolver;
            proof {
                assert(took_drive(e.resolver, driven, entry));
                a_drive_keeps_step(e, driven, entry);
            }
            self.resolve_and_publish_dirty(us);
            assert(self@.drives == e.drives) by {
                if (EngineView { resolver: driven, ..e }).resolver.scope(e.nets.len()).len() > 0 {
                    let passed = choose|passed: Resolver|
                        crate::engine::passes::passed_over(
                            EngineView { resolver: driven, ..e },
                            passed,
                            self@,
                            us,
                        );
                }
            }
        }
    }

    /// What a subscription is handed now.
    fn delivery_to(&self, sub: usize) -> (delivery: Delivery)
        requires
            self.kept(),
            self@.sound(),
            sub < self@.senses.len(),
        ensures
            delivery == self@.delivery(self@.senses[sub as int]),
    {
        let sense = self.senses.sub(sub);
        let reference = match sense.reference {
            Some(r) => Some(self.nets[r].volts),
            None => None,
        };
        Delivery { state: self.nets[sense.net].state, node: self.nets[sense.net].volts, reference }
    }

    /// Take what an instrument reads. Returns whether to deliver it: the
    /// reading differs from the one it was last delivered.
    pub fn measured(&mut self, instrument: usize, now: Option<Amps>) -> (deliver: bool)
        requires
            old(self).well_formed(),
            instrument < old(self)@.instruments.len(),
        ensures
            final(self).well_formed(),
            deliver == reading_moved(old(self)@, instrument, now),
            final(self)@ == read_anew(old(self)@, instrument, now),
    {
        let sub = self.current_subs[instrument];
        if same_figure(sub.last, now) {
            assert(self@.instruments =~= self@.instruments.update(instrument as int, sub));
            return false;
        }
        self.current_subs.set(instrument, CurrentSub { net: sub.net, last: now });
        true
    }
}

/// Whether what an instrument reads is another than it was last delivered.
pub open spec fn reading_moved<S>(e: EngineView<S>, instrument: usize, now: Option<Amps>) -> bool {
    e.instruments[instrument as int].last != now
}

/// An engine whose instrument read anew.
pub open spec fn read_anew<S>(
    e: EngineView<S>,
    instrument: usize,
    now: Option<Amps>,
) -> EngineView<S> {
    EngineView {
        instruments: e.instruments.update(
            instrument as int,
            CurrentSub { last: now, ..e.instruments[instrument as int] },
        ),
        ..e
    }
}

/// One message to the engine.
#[derive(Debug, Clone, Copy, PartialEq, Eq)]
pub enum Command {
    /// A pin drive, numbered in the order of the enqueues.
    Drive {
        /// Its place in the order.
        seq: u64,
        /// The endpoint.
        endpoint: EndpointId,
        /// The contribution; `None` releases.
        drive: Option<Drive>,
    },
    /// Subscribe to a net.
    RegisterSense {
        /// The net.
        net: NetId,
        /// The net the sense is measured against.
        reference: Option<NetId>,
        /// The net its thresholds scale with.
        supply: Option<NetId>,
    },
    /// Declare a net read; one the board does not have touches nothing.
    DeclareRead {
        /// The net.
        net: NetId,
        /// What it is read as.
        kind: ReadKind,
    },
    /// Subscribe to a pin's current.
    RegisterCurrent {
        /// The pin's net.
        net: NetId,
        /// What the instrument reads as the command is handled.
        now: Option<Amps>,
    },
    /// Register a component's wake handler.
    RegisterWake {
        /// The component.
        component: ComponentId,
    },
    /// Wake a component at a virtual instant.
    ScheduleAt {
        /// The component.
        component: ComponentId,
        /// The instant; a past one is due at once.
        at_ns: u64,
    },
    /// Wake a component periodically.
    ScheduleEvery {
        /// The component.
        component: ComponentId,
        /// The period.
        period_ns: u64,
    },
    /// Observe the topology.
    RegisterTopologyObserver,
    /// The system is assembled: virtual time may advance.
    ReleaseTime,
    /// End.
    Shutdown,
}

/// What a command asks of the engine's caller.
#[derive(Debug, Clone, Copy, PartialEq, Eq)]
pub enum Response {
    /// Nothing.
    Nothing,
    /// Hand a new subscription its net's resolution.
    Sense {
        /// The subscription; none for a net the board does not have.
        sub: Option<usize>,
        /// What it is handed.
        delivery: Delivery,
    },
    /// Hand a new instrument its reading.
    Current {
        /// The instrument.
        instrument: usize,
        /// The reading.
        amps: Option<Amps>,
    },
    /// Hand a new observer the topology epoch.
    Topology {
        /// The epoch.
        epoch: u64,
    },
    /// End.
    Stop,
}

/// A wheel with a wake armed.
pub open spec fn armed(
    before: TimerWheel,
    after: TimerWheel,
    deadline_ns: u64,
    component: ComponentId,
    period_ns: Option<u64>,
) -> bool {
    &&& after.pending() == if before.is_armed(component.0, deadline_ns) && period_ns is None {
        before.pending()
    } else {
        with_entry(before.pending(), TimerEntry { deadline_ns, component, period_ns })
    }
    &&& forall|c: usize, t: u64| #[trigger]
        after.is_armed(c, t) <==> before.is_armed(c, t) || (c == component.0 && t == deadline_ns)
}

/// A net's index, where one is named.
pub open spec fn index_of(net: Option<NetId>) -> Option<usize> {
    match net {
        Some(net) => Some(net.0),
        None => None,
    }
}

fn index(net: Option<NetId>) -> (r: Option<usize>)
    ensures
        r == index_of(net),
{
    match net {
        Some(net) => Some(net.0),
        None => None,
    }
}

/// What a new subscription is handed: a net the board does not have floats.
pub open spec fn first_delivery<S>(
    e: EngineView<S>,
    net: NetId,
    reference: Option<NetId>,
) -> Delivery {
    let known = net.0 < e.nets.len();
    Delivery {
        state: if known {
            e.nets[net.0 as int].state
        } else {
            NetState::Floating
        },
        node: if known {
            e.nets[net.0 as int].volts
        } else {
            NetVolts::unnamed()
        },
        reference: match known_reference(index_of(reference), e.nets.len()) {
            Some(r) => Some(e.nets[r as int].volts),
            None => None,
        },
    }
}

/// A request that found the virtual clock without an origin.
pub open spec fn clock_missing(context: Seq<char>) -> FindingView {
    FindingView::VirtualClockUninitialized { context }
}

/// An engine that handled a command.
pub open spec fn handled<S>(
    e: EngineView<S>,
    command: Command,
    clock: Clock,
    f: EngineView<S>,
    response: Response,
) -> bool {
    let us = clock.stamp();
    match command {
        Command::Drive { seq, endpoint, drive } => {
            &&& f == EngineView { drives: f.drives, ..e }
            &&& f.drives.waiting() == enqueued(
                e.drives.waiting(),
                PendingDrive { seq, endpoint, drive },
            )
            &&& f.drives.next_place() == e.drives.next_place()
            &&& f.drives.watched() == e.drives.watched()
            &&& response == Response::Nothing
        },
        Command::RegisterSense { net, reference, supply } => {
            let delivery = first_delivery(e, net, reference);
            let known = net.0 < e.nets.len();
            &&& f == EngineView {
                senses: if known {
                    e.senses.push(
                        SenseSub {
                            net: net.0,
                            reference: known_reference(index_of(reference), e.nets.len()),
                            supply: known_supply(
                                index_of(supply),
                                net.0,
                                index_of(reference),
                                e.nets.len(),
                            ),
                        },
                    )
                } else {
                    e.senses
                },
                log: logged(
                    e.log,
                    EventView::SenseDelivered { net, state: delivery.state },
                    us,
                ),
                ..e
            }
            &&& response == Response::Sense {
                sub: if known {
                    Some(e.senses.len() as usize)
                } else {
                    None
                },
                delivery,
            }
        },
        Command::DeclareRead { net, kind } => {
            &&& f == EngineView { reads: e.reads.push((net.0, kind)), ..e }
            &&& response == Response::Nothing
        },
        Command::RegisterCurrent { net, now } => {
            &&& f == EngineView {
                instruments: e.instruments.push(CurrentSub { net: net.0, last: now }),
                ..e
            }
            &&& response == Response::Current {
                instrument: e.instruments.len() as usize,
                amps: now,
            }
        },
        Command::RegisterWake { component } => {
            &&& f == EngineView { wakers: e.wakers.insert(component.0), ..e }
            &&& response == Response::Nothing
        },
        Command::ScheduleAt { component, at_ns } => {
            &&& response == Response::Nothing
            &&& if clock.ready {
                &&& f == EngineView { wheel: f.wheel, ..e }
                &&& armed(e.wheel, f.wheel, at_ns, component, None)
            } else {
                f == found(e, clock_missing("schedule_at"@), us)
            }
        },
        Command::ScheduleEvery { component, period_ns } => {
            &&& response == Response::Nothing
            &&& if period_ns == 0 {
                f == e
            } else if clock.ready {
                &&& f == EngineView { wheel: f.wheel, ..e }
                &&& armed(
                    e.wheel,
                    f.wheel,
                    sum_capped(clock.ns, period_ns),
                    component,
                    Some(period_ns),
                )
            } else {
                f == found(e, clock_missing("schedule_every"@), us)
            }
        },
        Command::RegisterTopologyObserver => {
            &&& f == e
            &&& response == Response::Topology { epoch: e.epoch }
        },
        Command::ReleaseTime => {
            &&& f == EngineView { released: true, ..e }
            &&& response == Response::Nothing
        },
        Command::Shutdown => {
            &&& f == e
            &&& response == Response::Stop
        },
    }
}

/// A finding more on the bus leaves every net in step.
proof fn a_finding_keeps_step<S: ClusterSolver>(e: EngineView<S>, finding: FindingView, us: u64)
    requires
        e.sound(),
    ensures
        found(e, finding, us).sound(),
{
    reveal(resolved);
    let bus = reported(e.bus, finding);
    assert forall|x: FindingView| e.bus.contains(x) implies bus.contains(x) by {
        let i = choose|i: int| 0 <= i < e.bus.len() && e.bus[i] == x;
        assert(bus[i] == x);
    }
}

impl<S: ClusterSolver> EngineCore<S> {
    /// Put a finding on the bus of an engine in step.
    pub(crate) fn report(&mut self, finding: Finding, us: u64)
        requires
            old(self).well_formed(),
        ensures
            final(self).well_formed(),
            final(self)@ == found(old(self)@, finding@, us),
    {
        proof {
            a_finding_keeps_step(self@, finding@, us);
        }
        self.report_finding(finding, us);
    }

    /// Handle one command.
    pub fn handle(&mut self, command: Command, clock: Clock) -> (response: Response)
        requires
            old(self).well_formed(),
        ensures
            final(self).well_formed(),
            handled(old(self)@, command, clock, final(self)@, response),
    {
        let us = clock.stamped();
        match command {
            Command::Drive { seq, endpoint, drive } => {
                self.drives.enqueue(PendingDrive { seq, endpoint, drive });
                Response::Nothing
            },
            Command::RegisterSense { net, reference, supply } => {
                self.register_sense(net, reference, supply, us)
            },
            Command::DeclareRead { net, kind } => {
                self.pending_reads.push((net.0, kind));
                Response::Nothing
            },
            Command::RegisterCurrent { net, now } => {
                let instrument = self.current_subs.len();
                self.current_subs.push(CurrentSub { net: net.0, last: now });
                Response::Current { instrument, amps: now }
            },
            Command::RegisterWake { component } => {
                let ghost before = self.wake_subs@;
                self.wake_subs.push(component.0);
                proof {
                    pushed_set(before, component.0);
                }
                Response::Nothing
            },
            Command::ScheduleAt { component, at_ns } => {
                if clock.ready {
                    self.wheel.arm(at_ns, component, None);
                } else {
                    self.report(
                        Finding::VirtualClockUninitialized { context: "schedule_at".to_owned() },
                        us,
                    );
                }
                Response::Nothing
            },
            Command::ScheduleEvery { component, period_ns } => {
                if period_ns != 0 {
                    if clock.ready {
                        let first = capped(clock.ns, period_ns);
                        self.wheel.arm(first, component, Some(period_ns));
                    } else {
                        self.report(
                            Finding::VirtualClockUninitialized {
                                context: "schedule_every".to_owned(),
                            },
                            us,
                        );
                    }
                }
                Response::Nothing
            },
            Command::RegisterTopologyObserver => Response::Topology { epoch: self.topology_epoch },
            Command::ReleaseTime => {
                self.clock_released = true;
                Response::Nothing
            },
            Command::Shutdown => Response::Stop,
        }
    }

    /// Subscribe to a net; the subscription is handed the net's resolution
    /// once at its registration.
    fn register_sense(
        &mut self,
        net: NetId,
        reference: Option<NetId>,
        supply: Option<NetId>,
        us: u64,
    ) -> (response: Response)
        requires
            old(self).well_formed(),
        ensures
            final(self).well_formed(),
            forall|clock: Clock|
                clock.stamp() == us ==> #[trigger] handled(
                    old(self)@,
                    Command::RegisterSense { net, reference, supply },
                    clock,
                    final(self)@,
                    response,
                ),
    {
        let n = self.nets.len();
        let known = net.0 < n;
        let state = if known {
            self.nets[net.0].state
        } else {
            NetState::Floating
        };
        let node = if known {
            self.nets[net.0].volts
        } else {
            NetVolts::none()
        };
        let event = || -> (event: EngineEvent)
            ensures
                event == (EngineEvent::SenseDelivered { net, state }),
            { EngineEvent::SenseDelivered { net, state } };
        self.event_log.record(event, us);
        let registered = self.senses.register(net.0, index(reference), index(supply), n);
        let measured = match registered.reference {
            Some(r) => Some(self.nets[r].volts),
            None => None,
        };
        proof {
            let (e, f) = (old(self)@, self@);
            assert forall|i: int| 0 <= i < f.steps.len() implies step_known(
                #[trigger] f.steps[i],
                f.nets.len(),
                f.senses.len(),
            ) by {
                assert(step_known(e.steps[i], e.nets.len(), e.senses.len()));
            }
            assert forall|x: int| 0 <= x < f.senses.len() implies sub_known(
                #[trigger] f.senses[x],
                f.nets.len(),
            ) by {
                if x < e.senses.len() {
                    assert(f.senses[x] == e.senses[x]);
                }
            }
        }
        Response::Sense {
            sub: registered.sub,
            delivery: Delivery { state, node, reference: measured },
        }
    }

    /// A subscriber's callback panicked: the engine goes on, and reports whose
    /// it was.
    pub fn contain(&mut self, who: Subscriber, clock: Clock)
        requires
            old(self).well_formed(),
        ensures
            final(self).well_formed(),
            final(self)@ == found(
                old(self)@,
                FindingView::CallbackPanic {
                    kind: callback_of(who),
                    subscriber: old(self)@.name(who),
                },
                clock.stamp(),
            ),
    {
        let us = clock.stamped();
        let subscriber = self.subscriber_name(who);
        let kind = match who {
            Subscriber::Net(_) => CallbackKind::Sense,
            Subscriber::Component(_) => CallbackKind::Wake,
            Subscriber::Topology => CallbackKind::Topology,
        };
        self.report(Finding::CallbackPanic { kind, subscriber }, us);
    }
}

/// A list with one more names one more.
proof fn pushed_set(list: Seq<usize>, x: usize)
    ensures
        list.push(x).to_set() == list.to_set().insert(x),
{
    let left = list.push(x).to_set();
    let right = list.to_set().insert(x);
    assert forall|y: usize| left.contains(y) == right.contains(y) by {
        if list.push(x).contains(y) {
            let i = choose|i: int| 0 <= i < list.push(x).len() && list.push(x)[i] == y;
            if i < list.len() {
                assert(list[i] == y);
                assert(list.contains(y));
            }
        }
        if list.contains(y) {
            let i = choose|i: int| 0 <= i < list.len() && list[i] == y;
            assert(list.push(x)[i] == y);
        }
        assert(list.push(x)[list.len() as int] == x);
    }
    assert(left =~= right);
}

} // verus!
