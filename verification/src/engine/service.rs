//! What an engine does with what it is asked.
use vstd::prelude::*;

use crate::cluster::ClusterSolver;
use crate::diagnostics::{CallbackKind, FindingView};
use crate::engine::commands::{
    advanced, all_told, applied, changes, handled, read_anew, reading_moved, started, told,
    took_drive, Action, Command, Response,
};
use crate::engine::passes::{dirty_passed, moves_below, passed_over, published};
use crate::engine::timers::{
    earlier, first_deadline, fired_next, polled, stalled_by, state_at, Fired,
};
use crate::engine::{callback_of, findings_logged, found, Clock, EngineView, Subscriber};
use crate::event_log::{logged, EventView, RecordView};
use crate::net::{ComponentId, Drive, EndpointId, Net, NetId, NetMove, NetState};
use crate::quantity::Amps;
use crate::resolver::Resolver;
use crate::senses::{SenseStep, SenseSub};
use crate::sequencer::laws::the_drive_at_a_place;
use crate::sequencer::{at_place, by_place, enqueued_by_place, DriveQueue, GapPoll, PendingDrive};
use crate::text::decimal;
use crate::wheel::laws::{an_armed_wake_is_added, the_earliest_wake_fires_first};
use crate::wheel::{in_deadline_order, on_wheel, TimerEntry};

verus! {

/// A drive that is sent waits at its own place, as it was sent, and moves no
/// other; nothing is applied out of its turn.
pub proof fn a_sent_drive_waits_at_its_place<S>(
    e: EngineView<S>,
    f: EngineView<S>,
    clock: Clock,
    response: Response,
    seq: u64,
    endpoint: EndpointId,
    drive: Option<Drive>,
    place: u64,
)
    requires
        by_place(e.drives.waiting()),
        handled(e, Command::Drive { seq, endpoint, drive }, clock, f, response),
    ensures
        at_place(f.drives.waiting(), seq) == Some(PendingDrive { seq, endpoint, drive }),
        place != seq ==> at_place(f.drives.waiting(), place) == at_place(
            e.drives.waiting(),
            place,
        ),
        f.drives.next_place() == e.drives.next_place(),
        f.nets == e.nets,
        f.resolver == e.resolver,
        f.bus == e.bus,
        f.log == e.log,
        response == Response::Nothing,
{
    enqueued_by_place(e.drives.waiting(), PendingDrive { seq, endpoint, drive });
}

/// Whoever subscribes is told at once: the net's state and voltage as they are,
/// or that a net the board does not have floats, at no voltage; the reference's
/// voltage where the board has its net. It is told later exactly if the board
/// has the net, and behind those that subscribed before.
pub proof fn a_subscriber_is_told_at_once<S>(
    e: EngineView<S>,
    f: EngineView<S>,
    clock: Clock,
    response: Response,
    net: NetId,
    reference: Option<NetId>,
    supply: Option<NetId>,
)
    requires
        handled(e, Command::RegisterSense { net, reference, supply }, clock, f, response),
    ensures
        response is Sense,
        net.0 < e.nets.len() ==> response->delivery.state == e.nets[net.0 as int].state
            && response->delivery.node == e.nets[net.0 as int].volts && f.senses.len()
            == e.senses.len() + 1 && f.senses.drop_last() == e.senses && f.senses.last().net
            == net.0 && response->sub == Some(e.senses.len() as usize),
        net.0 >= e.nets.len() ==> response->delivery.state == NetState::Floating
            && response->delivery.node.dc is None && response->delivery.node.phases is None
            && f.senses == e.senses && response->sub is None,
        (reference matches Some(r) && r.0 < e.nets.len()) ==> response->delivery.reference == Some(
            e.nets[(reference->0).0 as int].volts,
        ),
        !(reference matches Some(r) && r.0 < e.nets.len()) ==> response->delivery.reference is None,
        net.0 < e.nets.len() && (reference matches Some(r) && r.0 < e.nets.len()) ==> f.senses.last().reference
            == Some((reference->0).0),
        net.0 < e.nets.len() && (supply matches Some(s) && s.0 < e.nets.len() && s.0 != net.0
            && !(reference matches Some(r) && r.0 == s.0)) ==> f.senses.last().supply == Some(
            (supply->0).0,
        ),
        f.nets == e.nets,
        f.bus == e.bus,
{
    if net.0 < e.nets.len() {
        assert(f.senses.drop_last() =~= e.senses);
    }
}

/// A wake that is asked for is on the wheel at its instant, for its component,
/// once; every wake that was stays, and the first of all is the next deadline.
pub proof fn a_wake_asked_for_is_on_the_wheel<S>(
    e: EngineView<S>,
    f: EngineView<S>,
    clock: Clock,
    response: Response,
    component: ComponentId,
    at_ns: u64,
    other: TimerEntry,
)
    requires
        e.wheel.well_formed(),
        clock.ready,
        handled(e, Command::ScheduleAt { component, at_ns }, clock, f, response),
    ensures
        f.wheel.is_armed(component.0, at_ns),
        on_wheel(f.wheel.pending(), (component.0, at_ns)),
        e.wheel.pending().contains(other) ==> f.wheel.pending().contains(other),
        f.wheel.pending().len() <= e.wheel.pending().len() + 1,
        first_deadline(f.wheel) matches Some(next) && next <= at_ns,
        (first_deadline(e.wheel) matches Some(was) ==> at_ns < was) ==> first_deadline(f.wheel)
            == Some(at_ns),
        (first_deadline(e.wheel) matches Some(was) && was <= at_ns) ==> first_deadline(f.wheel)
            == first_deadline(e.wheel),
        f.nets == e.nets,
        f.bus == e.bus,
{
    e.wheel.fires_in_deadline_order();
    let entry = TimerEntry { deadline_ns: at_ns, component, period_ns: None };
    let pending = e.wheel.pending();
    if e.wheel.is_armed(component.0, at_ns) {
        assert(on_wheel(pending, (component.0, at_ns)));
        let j = choose|j: int|
            0 <= j < pending.len() && (#[trigger] pending[j]).component.0 == component.0
                && pending[j].deadline_ns == at_ns;
        assert(pending[0].deadline_ns <= pending[j].deadline_ns);
    } else {
        an_armed_wake_is_added(pending, entry, other);
        the_earliest_wake_fires_first(pending, entry);
        let after = f.wheel.pending();
        let j = choose|j: int| 0 <= j < after.len() && after[j] == entry;
        assert(after[j].component.0 == component.0);
    }
}

/// A periodic wake first comes a period from now, and carries its period; a
/// period of nought is no period.
pub proof fn a_periodic_wake_first_comes_a_period_on<S>(
    e: EngineView<S>,
    f: EngineView<S>,
    clock: Clock,
    response: Response,
    component: ComponentId,
    period_ns: u64,
)
    requires
        e.wheel.well_formed(),
        clock.ready,
        clock.ns + period_ns <= u64::MAX,
        handled(e, Command::ScheduleEvery { component, period_ns }, clock, f, response),
    ensures
        period_ns == 0 ==> f == e,
        period_ns > 0 ==> f.wheel.is_armed(component.0, (clock.ns + period_ns) as u64)
            && f.wheel.pending().contains(
            TimerEntry {
                deadline_ns: (clock.ns + period_ns) as u64,
                component,
                period_ns: Some(period_ns),
            },
        ),
{
    e.wheel.fires_in_deadline_order();
    if period_ns > 0 {
        let entry = TimerEntry {
            deadline_ns: (clock.ns + period_ns) as u64,
            component,
            period_ns: Some(period_ns),
        };
        an_armed_wake_is_added(e.wheel.pending(), entry, entry);
    }
}

/// A wake asked for before the clock has an origin is reported, and armed
/// nowhere.
pub proof fn a_clock_without_an_origin_arms_nothing<S>(
    e: EngineView<S>,
    f: EngineView<S>,
    clock: Clock,
    response: Response,
    component: ComponentId,
    at_ns: u64,
)
    requires
        !clock.ready,
        handled(e, Command::ScheduleAt { component, at_ns }, clock, f, response),
    ensures
        f.wheel == e.wheel,
        exists|i: int|
            0 <= i < f.bus.len() && #[trigger] f.bus[i] == (FindingView::VirtualClockUninitialized {
                context: "schedule_at"@,
            }),
{
    let finding = FindingView::VirtualClockUninitialized { context: "schedule_at"@ };
    if e.bus.contains(finding) {
        let i = choose|i: int| 0 <= i < e.bus.len() && e.bus[i] == finding;
        assert(f.bus[i] == finding);
    } else {
        assert(f.bus[e.bus.len() as int] == finding);
    }
}

/// What is only noted: time is released and stays so, a handler is known from
/// here on, an observer is told the epoch, an instrument what it read, and a
/// shutdown ends the engine; nothing else is touched.
pub proof fn what_is_noted_touches_nothing_else<S>(
    e: EngineView<S>,
    f: EngineView<S>,
    clock: Clock,
    response: Response,
    command: Command,
)
    requires
        handled(e, command, clock, f, response),
        command is ReleaseTime || command is RegisterWake || command is RegisterTopologyObserver
            || command is Shutdown || command is RegisterCurrent || command is DeclareRead,
    ensures
        f.nets == e.nets,
        f.resolver == e.resolver,
        f.wheel == e.wheel,
        f.drives == e.drives,
        f.bus == e.bus,
        f.log == e.log,
        f.released == (e.released || command is ReleaseTime),
        command matches Command::RegisterWake { component } ==> f.wakers.contains(component.0),
        command is RegisterTopologyObserver ==> response == (Response::Topology { epoch: e.epoch }),
        response is Stop <==> command is Shutdown,
        command matches Command::RegisterCurrent { net, now } ==> f.instruments.len()
            == e.instruments.len() + 1 && f.instruments.last().net == net.0
            && f.instruments.last().last == now && response == (Response::Current {
            instrument: e.instruments.len() as usize,
            amps: now,
        }),
        command matches Command::DeclareRead { net, kind } ==> f.reads == e.reads.push(
            (net.0, kind),
        ),
{
}

/// A wake that is due fires: the first of the wheel, for its component, and
/// its handler is called where there is one and the wake was asked for. A
/// one-shot is gone; a periodic one comes again later, with its period.
pub proof fn a_due_wake_fires<S>(
    e: EngineView<S>,
    clock: Clock,
    f: EngineView<S>,
    fired: Option<Fired>,
)
    requires
        e.wheel.well_formed(),
        fired_next(e, clock, f, fired),
    ensures
        fired is None <==> forall|i: int|
            0 <= i < e.wheel.pending().len() ==> (#[trigger] e.wheel.pending()[i]).deadline_ns
                > clock.ns,
        fired is None ==> f == e,
        fired matches Some(wake) ==> {
            let head = e.wheel.pending()[0];
            &&& e.wheel.pending().len() > 0
            &&& head.deadline_ns <= clock.ns
            &&& wake.component == head.component
            &&& wake.deliver <==> e.wheel.is_armed(head.component.0, head.deadline_ns)
                && e.wakers.contains(head.component.0)
            &&& head.period_ns is None ==> f.wheel.pending() == e.wheel.pending().drop_first()
            &&& head.period_ns matches Some(period) ==> period > 0 && clock.ns + period <= u64::MAX
                ==> f.wheel.pending().len() == e.wheel.pending().len() && f.wheel.pending().contains(
                TimerEntry {
                    deadline_ns: (if head.deadline_ns + period > clock.ns {
                        head.deadline_ns + period
                    } else {
                        clock.ns + period
                    }) as u64,
                    component: head.component,
                    period_ns: Some(period),
                },
            )
            &&& f.nets == e.nets
            &&& f.resolver == e.resolver
            &&& f.bus == e.bus
        },
{
    e.wheel.fires_in_deadline_order();
    if let Some(wake) = fired {
        let pending = e.wheel.pending();
        let head = pending[0];
        let rest = pending.drop_first();
        assert(in_deadline_order(rest));
        if let Some(period) = head.period_ns {
            if period > 0 && clock.ns + period <= u64::MAX {
                let entry = TimerEntry {
                    deadline_ns: (if head.deadline_ns + period > clock.ns {
                        head.deadline_ns + period
                    } else {
                        clock.ns + period
                    }) as u64,
                    component: head.component,
                    period_ns: Some(period),
                };
                an_armed_wake_is_added(rest, entry, entry);
            }
        }
        assert(!(pending[0].deadline_ns > clock.ns));
    }
}

/// The next instant anything waits for is the earlier of the first wake and
/// the first park, and none where nothing waits.
pub proof fn the_next_instant_is_the_earliest(a: Option<u64>, b: Option<u64>)
    ensures
        earlier(a, b) is None <==> a is None && b is None,
        earlier(a, b) == a || earlier(a, b) == b,
        earlier(a, b) matches Some(t) ==> (a matches Some(x) ==> t <= x) && (b matches Some(y) ==> t
            <= y),
{
}

/// The drive that is applied is the one at the next place: it is logged as it
/// was sent, and the place behind it is next.
pub proof fn drives_apply_in_their_order<S: ClusterSolver>(
    e: EngineView<S>,
    entry: PendingDrive,
    f: EngineView<S>,
    us: u64,
)
    requires
        applied(e, entry, f, us),
        e.drives.next_place() < u64::MAX,
    ensures
        f.drives.next_place() == e.drives.next_place() + 1,
        f.drives.waiting() == e.drives.waiting().filter(
            |d: PendingDrive| d.seq != e.drives.next_place(),
        ),
{
    crate::sequencer::laws::taking_a_drive_leaves_the_others(
        e.drives.waiting(),
        e.drives.next_place(),
    );
}

/// Giving up a missing drive goes on at the first that arrived and loses none;
/// a poll that does not give up changes no order.
pub proof fn giving_up_loses_no_drive(before: DriveQueue, after: DriveQueue, poll: GapPoll)
    requires
        polled(before, after, poll),
    ensures
        after.waiting() == before.waiting(),
        poll is Skipped ==> after.next_place() == before.waiting()[0].seq,
        !(poll is Skipped) ==> after.next_place() == before.next_place(),
        poll is Waiting && before.watched() is None ==> after.watched() == Some(
            (before.next_place(), 1u32),
        ),
        poll is Waiting && (before.watched() matches Some((place, polls)) && place
            == before.next_place() && polls < u32::MAX) ==> after.watched() == Some(
            (before.next_place(), ((before.watched()->0).1 + 1) as u32),
        ),
        !(poll is Waiting) ==> after.watched() is None,
{
}

/// A finding is on the bus and in the log from the first time it is reported,
/// and once: reporting it again changes nothing.
pub proof fn a_finding_is_logged_once<S>(e: EngineView<S>, finding: FindingView, us: u64)
    ensures
        found(e, finding, us).bus.contains(finding),
        e.bus.contains(finding) ==> found(e, finding, us).bus == e.bus && found(
            e,
            finding,
            us,
        ).log == e.log,
        !e.bus.contains(finding) ==> found(e, finding, us).bus == e.bus.push(finding),
        !e.bus.contains(finding) && e.log is Some ==> found(e, finding, us).log == Some(
            e.log->0.push(
                RecordView {
                    seq: e.log->0.len() as u64,
                    v_us: us,
                    event: EventView::Finding(finding),
                },
            ),
        ),
        found(found(e, finding, us), finding, us) == found(e, finding, us),
        found(e, finding, us).nets == e.nets,
{
    let after = found(e, finding, us);
    if !e.bus.contains(finding) {
        assert(after.bus[e.bus.len() as int] == finding);
    }
}

/// What a pass delivers is written as it is delivered: a changed net with its
/// new state, a subscription with its net and that net's state.
pub proof fn a_delivery_is_written_as_it_is(
    log: Seq<RecordView>,
    nets: Seq<Net>,
    senses: Seq<SenseSub>,
    net: usize,
    sub: usize,
    us: u64,
)
    ensures
        told(Some(log), nets, senses, SenseStep::Resolved(net), us) == Some(
            log.push(
                RecordView {
                    seq: log.len() as u64,
                    v_us: us,
                    event: EventView::NetResolved {
                        net: NetId(net),
                        state: nets[net as int].state,
                    },
                },
            ),
        ),
        told(Some(log), nets, senses, SenseStep::Deliver(sub), us) == Some(
            log.push(
                RecordView {
                    seq: log.len() as u64,
                    v_us: us,
                    event: EventView::SenseDelivered {
                        net: NetId(senses[sub as int].net),
                        state: nets[senses[sub as int].net as int].state,
                    },
                },
            ),
        ),
        told(None, nets, senses, SenseStep::Resolved(net), us) is None,
{
}

/// A script is written step by step, in its order: every record that was
/// stays, and there is one more for every step.
pub proof fn a_script_is_written_in_order(
    log: Seq<RecordView>,
    nets: Seq<Net>,
    senses: Seq<SenseSub>,
    steps: Seq<SenseStep>,
    us: u64,
)
    ensures
        all_told(Some(log), nets, senses, steps, us) is Some,
        all_told(Some(log), nets, senses, steps, us)->0.len() == log.len() + steps.len(),
        log.is_prefix_of(all_told(Some(log), nets, senses, steps, us)->0),
        forall|i: int|
            0 <= i < steps.len() ==> (#[trigger] all_told(
                Some(log),
                nets,
                senses,
                steps,
                us,
            )->0[log.len() + i]).event == (match steps[i] {
                SenseStep::Resolved(net) => EventView::NetResolved {
                    net: NetId(net),
                    state: nets[net as int].state,
                },
                SenseStep::Deliver(sub) => EventView::SenseDelivered {
                    net: NetId(senses[sub as int].net),
                    state: nets[senses[sub as int].net as int].state,
                },
            }),
    decreases steps.len(),
{
    if steps.len() > 0 {
        let front = steps.drop_last();
        a_script_is_written_in_order(log, nets, senses, front, us);
        let before = all_told(Some(log), nets, senses, front, us)->0;
        let after = all_told(Some(log), nets, senses, steps, us)->0;
        assert forall|i: int| 0 <= i < steps.len() implies (#[trigger] after[log.len() + i]).event
            == (match steps[i] {
            SenseStep::Resolved(net) => EventView::NetResolved {
                net: NetId(net),
                state: nets[net as int].state,
            },
            SenseStep::Deliver(sub) => EventView::SenseDelivered {
                net: NetId(senses[sub as int].net),
                state: nets[senses[sub as int].net as int].state,
            },
        }) by {
            if i < front.len() {
                assert(after[log.len() + i] == before[log.len() + i]);
                assert(front[i] == steps[i]);
            }
        }
        assert(log =~= after.take(log.len() as int));
    } else {
        assert(log =~= log.take(log.len() as int));
    }
}

/// Every net that moved is told of, ascending, and no other.
pub proof fn every_move_is_told(before: Seq<Net>, after: Seq<Net>, k: nat)
    requires
        k <= usize::MAX,
    ensures
        forall|i: int, j: int|
            0 <= i < j < moves_below(before, after, k).len() ==> moves_below(before, after, k)[i].0
                < moves_below(before, after, k)[j].0,
        forall|net: usize, how: NetMove| #[trigger]
            moves_below(before, after, k).contains((net, how)) <==> net < k && (
            before[net as int].state != after[net as int].state && how == NetMove::State
                || before[net as int].state == after[net as int].state
                && before[net as int].volts != after[net as int].volts && how == NetMove::Volts),
        forall|i: int|
            0 <= i < moves_below(before, after, k).len() ==> (#[trigger] moves_below(
                before,
                after,
                k,
            )[i]).0 < k,
    decreases k,
{
    if k > 0 {
        let m = (k - 1) as nat;
        every_move_is_told(before, after, m);
        let some = moves_below(before, after, m);
        let all = moves_below(before, after, k);
        assert forall|net: usize, how: NetMove| #[trigger]
            all.contains((net, how)) <==> net < k && (before[net as int].state
                != after[net as int].state && how == NetMove::State || before[net as int].state
                == after[net as int].state && before[net as int].volts != after[net as int].volts
                && how == NetMove::Volts) by {
            if some.contains((net, how)) {
                let i = choose|i: int| 0 <= i < some.len() && some[i] == (net, how);
                assert(all[i] == (net, how));
            }
            if all.contains((net, how)) {
                let i = choose|i: int| 0 <= i < all.len() && all[i] == (net, how);
                if i < some.len() {
                    assert(some[i] == (net, how));
                    assert(some.contains((net, how)));
                }
            }
            if net == m && all.len() > some.len() {
                assert(all[some.len() as int].0 == m);
                if all[some.len() as int].1 == how {
                    assert(all[some.len() as int] == (net, how));
                }
            }
        }
    }
}

/// What a pass leaves is published: every table shows every net as the pass
/// left it, and each finding that is new on the bus is in the log behind what
/// was, in the order it was found.
pub proof fn a_pass_publishes_what_it_left<S>(
    e: EngineView<S>,
    resolver: Resolver,
    nets: Seq<Net>,
    bus: Seq<FindingView>,
    us: u64,
    i: int,
)
    requires
        0 <= i < nets.len(),
    ensures
        ({
            let f = published(e, resolver, nets, bus, us);
            &&& f.nets == nets
            &&& f.bus == bus
            &&& f.states.len() == nets.len()
            &&& f.states[i] == nets[i].state
            &&& f.volts.len() == nets.len()
            &&& f.volts[i] == nets[i].volts
            &&& f.senses == e.senses
            &&& f.wheel == e.wheel
            &&& f.drives == e.drives
            &&& f.released == e.released
        }),
{
}

/// Findings are written behind what is in the log, one record each, in order.
pub proof fn findings_are_written_in_order(
    log: Seq<RecordView>,
    findings: Seq<FindingView>,
    us: u64,
)
    ensures
        findings_logged(Some(log), findings, us) is Some,
        findings_logged(Some(log), findings, us)->0.len() == log.len() + findings.len(),
        log.is_prefix_of(findings_logged(Some(log), findings, us)->0),
        forall|i: int|
            0 <= i < findings.len() ==> (#[trigger] findings_logged(
                Some(log),
                findings,
                us,
            )->0[log.len() + i]).event == EventView::Finding(findings[i]),
    decreases findings.len(),
{
    if findings.len() > 0 {
        let front = findings.drop_last();
        findings_are_written_in_order(log, front, us);
        let before = findings_logged(Some(log), front, us)->0;
        let after = findings_logged(Some(log), findings, us)->0;
        assert forall|i: int| 0 <= i < findings.len() implies (
        #[trigger] after[log.len() + i]).event == EventView::Finding(findings[i]) by {
            if i < front.len() {
                assert(after[log.len() + i] == before[log.len() + i]);
                assert(front[i] == findings[i]);
            }
        }
        assert(log =~= after.take(log.len() as int));
    } else {
        assert(log =~= log.take(log.len() as int));
    }
}

/// A subscription is handed its own net's state and voltage, and its
/// reference's voltage; a subscriber is called by its net's name.
pub proof fn a_delivery_is_of_its_own_net<S: ClusterSolver>(
    e: EngineView<S>,
    sub: SenseSub,
    net: usize,
    component: ComponentId,
)
    ensures
        e.delivery(sub).state == e.nets[sub.net as int].state,
        e.delivery(sub).node == e.nets[sub.net as int].volts,
        sub.reference matches Some(r) ==> e.delivery(sub).reference == Some(
            e.nets[r as int].volts,
        ),
        sub.reference is None ==> e.delivery(sub).reference is None,
        net < e.nets.len() ==> e.name(Subscriber::Net(net)) == e.nets[net as int].name@,
        net >= e.nets.len() ==> e.name(Subscriber::Net(net)) == "net "@ + decimal(net as nat),
        e.name(Subscriber::Component(component)) == "component "@ + decimal(component.0 as nat),
        callback_of(Subscriber::Net(net)) == CallbackKind::Sense,
        callback_of(Subscriber::Component(component)) == CallbackKind::Wake,
        callback_of(Subscriber::Topology) == CallbackKind::Topology,
{
}

/// A record is stamped with the microseconds of a clock that has an origin, and
/// with nought by one that has none.
pub proof fn a_record_is_stamped_by_its_clock(clock: Clock)
    ensures
        clock.ready ==> clock.stamp() == clock.us,
        !clock.ready ==> clock.stamp() == 0,
{
}

/// What a pass moved is told before anything else: the next step of its script,
/// and a subscription is handed its own net as it is now.
pub proof fn what_moved_is_told_first<S: ClusterSolver>(
    e: EngineView<S>,
    us: u64,
    f: EngineView<S>,
    action: Action,
)
    requires
        advanced(e, us, f, action),
        e.steps.len() > 0,
    ensures
        f.steps == e.steps.drop_first(),
        f.drives == e.drives,
        f.nets == e.nets,
        e.steps[0] matches SenseStep::Deliver(sub) ==> action is Sense && action->sub == sub
            && action->delivery.state == e.nets[e.senses[sub as int].net as int].state
            && action->delivery.node == e.nets[e.senses[sub as int].net as int].volts,
        e.steps[0] is Resolved ==> action == Action::Continue,
{
}

/// Once everything is told, every instrument is read, one after the other; a
/// reading is delivered exactly if it is another than the last, which it then
/// is.
pub proof fn every_instrument_is_read<S: ClusterSolver>(
    e: EngineView<S>,
    us: u64,
    f: EngineView<S>,
    action: Action,
    instrument: usize,
    now: Option<Amps>,
)
    requires
        advanced(e, us, f, action),
        e.steps.len() == 0,
        e.walk == Some(instrument),
    ensures
        instrument < e.instruments.len() ==> action == (Action::Measure { instrument }) && (
        instrument < usize::MAX ==> f.walk == Some((instrument + 1) as usize)),
        instrument >= e.instruments.len() ==> f.walk is None,
        f.drives == e.drives,
        instrument < e.instruments.len() ==> {
            &&& reading_moved(e, instrument, now) <==> e.instruments[instrument as int].last != now
            &&& read_anew(e, instrument, now).instruments[instrument as int].last == now
            &&& read_anew(e, instrument, now).instruments[instrument as int].net
                == e.instruments[instrument as int].net
            &&& !reading_moved(read_anew(e, instrument, now), instrument, now)
            &&& forall|i: int|
                0 <= i < e.instruments.len() && i != instrument ==> #[trigger] read_anew(
                    e,
                    instrument,
                    now,
                ).instruments[i] == e.instruments[i]
        },
{
}

/// With nothing left to tell or to read, the drive at the next place is
/// applied where it has arrived, and otherwise there is nothing to do.
pub proof fn then_the_next_drive_is_applied<S: ClusterSolver>(
    e: EngineView<S>,
    us: u64,
    f: EngineView<S>,
    action: Action,
    entry: PendingDrive,
)
    requires
        advanced(e, us, f, action),
        e.steps.len() == 0,
        e.walk is None,
        e.drives.next_place() < u64::MAX,
    ensures
        (forall|i: int|
            0 <= i < e.drives.waiting().len() ==> (#[trigger] e.drives.waiting()[i]).seq
                != e.drives.next_place()) ==> f == e && action == Action::Idle,
        by_place(e.drives.waiting()) && e.drives.waiting().contains(entry) && entry.seq
            == e.drives.next_place() ==> f.drives.next_place() == e.drives.next_place() + 1
            && action == Action::Continue,
{
    let waiting = e.drives.waiting();
    the_drive_at_a_place(waiting, e.drives.next_place());
    if waiting.contains(entry) && entry.seq == e.drives.next_place() {
        let i = choose|i: int| 0 <= i < waiting.len() && waiting[i] == entry;
        assert(waiting[i].seq == e.drives.next_place());
    }
}

/// Actors that never park are found by name once, and not waited for again.
pub proof fn a_stall_is_found_once<S>(e: EngineView<S>, actors: Seq<Seq<char>>, us: u64)
    ensures
        stalled_by(e, actors, us).stalled,
        e.stalled ==> stalled_by(e, actors, us) == e,
        !e.stalled ==> exists|i: int|
            0 <= i < stalled_by(e, actors, us).bus.len() && #[trigger] stalled_by(
                e,
                actors,
                us,
            ).bus[i] == (FindingView::QuiescenceTimeout { actors }),
        stalled_by(stalled_by(e, actors, us), actors, us) == stalled_by(e, actors, us),
{
    let finding = FindingView::QuiescenceTimeout { actors };
    let f = stalled_by(e, actors, us);
    if !e.stalled {
        if e.bus.contains(finding) {
            let i = choose|i: int| 0 <= i < e.bus.len() && e.bus[i] == finding;
            assert(f.bus[i] == finding);
        } else {
            assert(f.bus[e.bus.len() as int] == finding);
        }
    }
}

/// A net's state is read as it was published, and a net the board does not have
/// has none.
pub proof fn a_state_is_read_as_published(states: Seq<NetState>, net: NetId)
    ensures
        net.0 < states.len() ==> state_at(states, net) == Some(states[net.0 as int]),
        net.0 >= states.len() ==> state_at(states, net) is None,
{
}

/// The drive that is applied is written as it was sent, right behind what the
/// log held, whether it changes anything or not.
#[verifier::rlimit(40)]
pub proof fn an_applied_drive_is_written<S: ClusterSolver>(
    e: EngineView<S>,
    entry: PendingDrive,
    f: EngineView<S>,
    us: u64,
)
    requires
        applied(e, entry, f, us),
        e.log is Some,
    ensures
        f.log is Some,
        f.log->0.len() > e.log->0.len(),
        f.log->0[e.log->0.len() as int].event == (EventView::DriveApplied {
            seq: entry.seq,
            endpoint: entry.endpoint,
            drive: entry.drive,
        }),
        f.log->0[e.log->0.len() as int].v_us == us,
        e.log->0.is_prefix_of(f.log->0),
{
    let log = e.log->0;
    let taken = EngineView {
        drives: f.drives,
        log: logged(
            e.log,
            EventView::DriveApplied {
                seq: entry.seq,
                endpoint: entry.endpoint,
                drive: entry.drive,
            },
            us,
        ),
        ..e
    };
    let written = taken.log->0;
    assert(written[log.len() as int].v_us == us);
    assert(log =~= written.take(log.len() as int));
    if changes(e.resolver, entry) {
        let driven = choose|driven: Resolver| #[trigger]
            took_drive(e.resolver, driven, entry) && dirty_passed(
                EngineView { resolver: driven, ..taken },
                f,
                us,
            );
        let mid = EngineView { resolver: driven, ..taken };
        if mid.resolver.scope(mid.nets.len()).len() != 0 {
            let passed = choose|passed: Resolver| passed_over(mid, passed, f, us);
            findings_are_written_in_order(written, f.bus.skip(mid.bus.len() as int), us);
            assert(written =~= f.log->0.take(written.len() as int));
            assert(f.log->0[log.len() as int] == f.log->0.take(written.len() as int)[log.len() as int]);
            assert(log =~= f.log->0.take(log.len() as int));
        }
    }
}

/// An engine starts with its board resolved and told of: the first pass's
/// findings and nets are in the log, then the first epoch, and nothing waits
/// to be told.
pub proof fn an_engine_starts_resolved<S: ClusterSolver>(
    e: EngineView<S>,
    passed: Resolver,
    f: EngineView<S>,
    us: u64,
    core: EngineView<S>,
)
    requires
        started(e, passed, f, us, core),
        e.log is Some,
        e.bus.len() == 0,
    ensures
        core.nets == f.nets,
        core.steps.len() == 0,
        core.log is Some,
        core.log->0.len() == e.log->0.len() + f.bus.len() + f.steps.len() + 1,
        core.log->0.last().event == (EventView::Reroute { epoch: 0 }),
        forall|i: int|
            0 <= i < f.bus.len() ==> (#[trigger] core.log->0[e.log->0.len() + i]).event
                == EventView::Finding(f.bus[i]),
        core.bus == f.bus,
{
    let log = e.log->0;
    let new = f.bus.skip(0);
    assert(new =~= f.bus);
    findings_are_written_in_order(log, new, us);
    let found = f.log->0;
    a_script_is_written_in_order(found, f.nets, f.senses, f.steps, us);
    let told = all_told(f.log, f.nets, f.senses, f.steps, us)->0;
    assert forall|i: int| 0 <= i < f.bus.len() implies (
    #[trigger] core.log->0[log.len() + i]).event == EventView::Finding(f.bus[i]) by {
        assert(core.log->0[log.len() + i] == told[log.len() + i]);
        assert(told[log.len() + i] == told.take(found.len() as int)[log.len() + i]);
        assert(found =~= told.take(found.len() as int));
        assert(found[log.len() + i].event == EventView::Finding(new[i]));
    }
}

} // verus!
