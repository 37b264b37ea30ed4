//! Wakes, declared reads, and what an idle engine watches for.
use vstd::prelude::*;

use crate::board::{BoardView, ReadKind};
use crate::cluster::ClusterSolver;
use crate::diagnostics::{copy_names, names_view, Finding, FindingView};
use crate::engine::passes::dirty_passed;
use crate::engine::{
    currents_of, found, partly_resolved, resolved, Clock, EngineCore, EngineView,
};
use crate::event_log::{logged, EngineEvent, EventLog, EventView};
use crate::net::{ComponentId, NetId, NetState, NetVolts};
use crate::resolver::laws::clean_changes_keep_step;
use crate::resolver::reads::with_reads;
use crate::resolver::Resolver;
use crate::sequencer::{gap_poll, DriveQueue, GapPoll};
use crate::wheel::{next_instant, with_entry, TimerEntry, TimerWheel};

verus! {

/// A wake that fired.
#[derive(Debug, Clone, Copy, PartialEq, Eq, Structural)]
pub struct Fired {
    /// Whom it wakes.
    pub component: ComponentId,
    /// Whether the component's handler is to be called.
    pub deliver: bool,
}

/// A wheel whose head was due and taken off, put back a period on where it is
/// periodic.
pub open spec fn turned(before: TimerWheel, after: TimerWheel, now_ns: u64) -> bool {
    let head = before.pending()[0];
    let rest = before.pending().drop_first();
    let next = match head.period_ns {
        Some(period) => Some(next_instant(head.deadline_ns, period, now_ns)),
        None => None,
    };
    &&& after.pending() == match next {
        Some(instant) => with_entry(
            rest,
            TimerEntry {
                deadline_ns: instant,
                component: head.component,
                period_ns: head.period_ns,
            },
        ),
        None => rest,
    }
    &&& forall|c: usize, t: u64| #[trigger]
        after.is_armed(c, t) <==> (before.is_armed(c, t) && !(c == head.component.0 && t
            == head.deadline_ns)) || (c == head.component.0 && next == Some(t))
}

/// An engine that fired its next wake where one is due.
pub open spec fn fired_next<S>(
    e: EngineView<S>,
    clock: Clock,
    f: EngineView<S>,
    fired: Option<Fired>,
) -> bool {
    &&& fired is Some == is_due(e.wheel, clock.ns)
    &&& match fired {
        None => {
            &&& f == e
            &&& forall|i: int|
                0 <= i < e.wheel.pending().len() ==> (
                #[trigger] e.wheel.pending()[i]).deadline_ns > clock.ns
        },
        Some(fired) => {
            let head = e.wheel.pending()[0];
            &&& fired.component == head.component
            &&& fired.deliver == (e.wheel.is_armed(head.component.0, head.deadline_ns)
                && e.wakers.contains(head.component.0))
            &&& turned(e.wheel, f.wheel, clock.ns)
            &&& f == EngineView {
                wheel: f.wheel,
                log: if fired.deliver {
                    logged(e.log, EventView::Wake { component: head.component }, clock.stamp())
                } else {
                    e.log
                },
                ..e
            }
        },
    }
}

/// Whether a wake is due.
pub open spec fn is_due(wheel: TimerWheel, now_ns: u64) -> bool {
    wheel.pending().len() > 0 && wheel.pending()[0].deadline_ns <= now_ns
}

/// A resolver with nets declared read.
pub open spec fn took_reads(
    before: Resolver,
    after: Resolver,
    reads: Seq<(usize, ReadKind)>,
) -> bool {
    &&& after.well_formed()
    &&& after.board()@ == with_reads(before.board()@, reads, reads.len())
    &&& after.net_count() == before.net_count()
    &&& after.currents_moved() == before.currents_moved()
    &&& after.solves_counted() == before.solves_counted()
    &&& forall|e: int| #[trigger] after.endpoint_current(e) == before.endpoint_current(e)
    &&& forall|e: int| #[trigger] after.element_current(e) == before.element_current(e)
    &&& forall|n: nat| #[trigger] after.roots(n) == before.roots(n)
    &&& forall|n: nat| #[trigger] after.settled_for(n) == before.settled_for(n)
    &&& forall|n: nat| #[trigger] before.settled_for(n) ==> after.keeps_clean(&before, n)
    &&& forall|n: nat, cid: int|
        #![trigger after.awaits(cid), before.settled_for(n)]
        before.settled_for(n) ==> (after.awaits(cid) <==> before.awaits(cid)
            || before.touched_by_reads(n, reads, cid))
}

/// Readers leave the slots and the elements of a board alone.
proof fn readers_carry_no_current(board: BoardView, reads: Seq<(usize, ReadKind)>, k: nat)
    ensures
        with_reads(board, reads, k).slots == board.slots,
        with_reads(board, reads, k).elements == board.elements,
    decreases k,
{
    if k > 0 {
        readers_carry_no_current(board, reads, (k - 1) as nat);
    }
}

/// Declaring nets read leaves everything it does not set waiting in step.
proof fn reads_keep_step<S: ClusterSolver>(
    e: EngineView<S>,
    declared: Resolver,
    reads: Seq<(usize, ReadKind)>,
)
    requires
        e.sound(),
        took_reads(e.resolver, declared, reads),
    ensures
        (EngineView { resolver: declared, reads: Seq::empty(), ..e }).in_step(),
{
    reveal(resolved);
    reveal(partly_resolved);
    let n = e.nets.len();
    assert(e.resolver.settled_for(n));
    assert(declared.keeps_clean(&e.resolver, n));
    clean_changes_keep_step(&e.resolver, &declared, &e.solver, e.nets, e.bus);
    readers_carry_no_current(e.resolver.board()@, reads, reads.len());
    assert(currents_of(declared) =~= currents_of(e.resolver));
}

impl<S: ClusterSolver> EngineCore<S> {
    /// Declare the nets read since the last pass, together, and resolve the
    /// clusters they sit in. Returns whether there were any.
    pub fn declare_pending(&mut self, clock: Clock) -> (any: bool)
        requires
            old(self).well_formed(),
        ensures
            final(self).well_formed(),
            any == (old(self)@.reads.len() > 0),
            !any ==> final(self)@ == old(self)@,
            any ==> exists|declared: Resolver| #[trigger]
                took_reads(old(self)@.resolver, declared, old(self)@.reads) && dirty_passed(
                    EngineView { resolver: declared, reads: Seq::empty(), ..old(self)@ },
                    final(self)@,
                    clock.stamp(),
                ),
    {
        if self.pending_reads.len() == 0 {
            return false;
        }
        let us = clock.stamped();
        let ghost e = self@;
        proof {
            reveal(resolved);
        }
        self.resolver.declare_reads(&self.pending_reads);
        let ghost declared = self.resolver;
        self.pending_reads = Vec::new();
        proof {
            assert(took_reads(e.resolver, declared, e.reads));
            reads_keep_step(e, declared, e.reads);
            assert(self@.reads =~= Seq::empty());
        }
        self.resolve_and_publish_dirty(us);
        true
    }

    /// Fire the next wake where it is due. A wake is delivered where it was
    /// asked for and not delivered since, and its component has a handler;
    /// a periodic one is armed again either way.
    pub fn fire_next(&mut self, clock: Clock) -> (fired: Option<Fired>)
        requires
            old(self).well_formed(),
        ensures
            final(self).well_formed(),
            fired_next(old(self)@, clock, final(self)@, fired),
    {
        let us = clock.stamped();
        proof {
            self.wheel.fires_in_deadline_order();
        }
        match self.wheel.pop_due(clock.ns) {
            None => None,
            Some(due) => {
                let component = due.entry.component;
                let handled = crate::seqs::listed(&self.wake_subs, component.0);
                let deliver = due.deliver && handled;
                if deliver {
                    let event = || -> (event: EngineEvent)
                        ensures
                            event == (EngineEvent::Wake { component }),
                        { EngineEvent::Wake { component } };
                    self.event_log.record(event, us);
                }
                self.wheel.rearm(due, clock.ns);
                Some(Fired { component, deliver })
            },
        }
    }

    /// The next instant anything waits for: the earlier of the wheel's and of
    /// the earliest park's.
    pub fn next_virtual_deadline(&self, parked: Option<u64>) -> (deadline: Option<u64>)
        ensures
            deadline == earlier(first_deadline(self@.wheel), parked),
    {
        match (self.wheel.next_deadline(), parked) {
            (Some(a), Some(b)) => Some(
                if b < a {
                    b
                } else {
                    a
                },
            ),
            (Some(a), None) => Some(a),
            (None, b) => b,
        }
    }

    /// An idle poll for a drive that was reserved and never sent. One that
    /// survived many is given up, and reported; the order goes on at the
    /// lowest drive that arrived.
    pub fn poll_gap(&mut self, clock: Clock) -> (poll: GapPoll)
        requires
            old(self).well_formed(),
        ensures
            final(self).well_formed(),
            poll == gap_poll(
                old(self)@.drives.waiting(),
                old(self)@.drives.next_place(),
                old(self)@.drives.watched(),
            ),
            polled(old(self)@.drives, final(self)@.drives, poll),
            final(self)@ == ({
                let e = EngineView { drives: final(self)@.drives, ..old(self)@ };
                match poll {
                    GapPoll::Skipped(seq) => found(
                        e,
                        FindingView::DriveSeqGap { seq },
                        clock.stamp(),
                    ),
                    _ => e,
                }
            }),
    {
        let us = clock.stamped();
        let poll = self.drives.poll_gap();
        if let GapPoll::Skipped(seq) = poll {
            self.report(Finding::DriveSeqGap { seq }, us);
        }
        poll
    }

    /// Whether to wait for the actors to park: not once some are known never
    /// to.
    pub fn awaits_actors(&self) -> (r: bool)
        ensures
            r == !self@.stalled,
    {
        !self.quiescence_stalled
    }

    /// Actors never parked: reported once, and not waited for again.
    pub fn note_stall(&mut self, actors: &Vec<String>, clock: Clock)
        requires
            old(self).well_formed(),
        ensures
            final(self).well_formed(),
            final(self)@ == stalled_by(old(self)@, names_view(actors@), clock.stamp()),
    {
        if self.quiescence_stalled {
            return ;
        }
        let us = clock.stamped();
        self.quiescence_stalled = true;
        self.report(Finding::QuiescenceTimeout { actors: copy_names(actors) }, us);
    }

    /// Whether virtual time may advance at all.
    pub fn time_released(&self) -> (r: bool)
        ensures
            r == self@.released,
    {
        self.clock_released
    }

    /// The event log.
    pub fn event_log(&self) -> (log: &EventLog)
        ensures
            log@ == self@.log,
    {
        &self.event_log
    }

    /// A net's most recently published state.
    pub fn net_state(&self, net: NetId) -> (state: Option<NetState>)
        ensures
            state == state_at(self@.states, net),
    {
        if net.0 < self.states.len() {
            Some(self.states[net.0])
        } else {
            None
        }
    }

    /// A net's most recently published voltage.
    pub fn net_volts(&self, net: NetId) -> (volts: NetVolts)
        ensures
            volts == crate::volts::named_at(self@.volts, net.0 as int),
    {
        self.volts.load(net.0)
    }

    /// Every finding so far.
    pub fn findings(&self) -> (findings: &Vec<Finding>)
        ensures
            crate::diagnostics::findings_view(findings@) == self@.bus,
    {
        self.diagnostics.findings()
    }

    /// How many cluster solves the passes so far have escalated.
    pub fn escalated_solves(&self) -> (n: u64)
        ensures
            n == self@.resolver.solves_counted(),
    {
        self.resolver.escalated_solves()
    }

    /// The published currents.
    pub fn currents(&self) -> (table: &crate::resolver::CurrentTable)
        ensures
            table.endpoints@ == self@.currents.endpoints,
            table.elements@ == self@.currents.elements,
    {
        &self.currents
    }
}

/// An engine whose actors never parked: found once, and not waited for again.
pub open spec fn stalled_by<S>(e: EngineView<S>, actors: Seq<Seq<char>>, us: u64) -> EngineView<S> {
    if e.stalled {
        e
    } else {
        found(EngineView { stalled: true, ..e }, FindingView::QuiescenceTimeout { actors }, us)
    }
}

/// The state published for a net, where there is one.
pub open spec fn state_at(states: Seq<NetState>, net: NetId) -> Option<NetState> {
    if net.0 < states.len() {
        Some(states[net.0 as int])
    } else {
        None
    }
}

/// The first deadline of a wheel.
pub open spec fn first_deadline(wheel: TimerWheel) -> Option<u64> {
    if wheel.pending().len() > 0 {
        Some(wheel.pending()[0].deadline_ns)
    } else {
        None
    }
}

/// The earlier of two instants, where there are any.
pub open spec fn earlier(a: Option<u64>, b: Option<u64>) -> Option<u64> {
    match (a, b) {
        (Some(x), Some(y)) => Some(
            if y < x {
                y
            } else {
                x
            },
        ),
        (Some(x), None) => Some(x),
        (None, y) => y,
    }
}

/// The queue of drives after an idle poll.
pub open spec fn polled(before: DriveQueue, after: DriveQueue, poll: GapPoll) -> bool {
    &&& after.waiting() == before.waiting()
    &&& after.next_place() == (if poll is Skipped {
        before.waiting()[0].seq
    } else {
        before.next_place()
    })
    &&& after.watched() == (match poll {
        GapPoll::Clear => None,
        GapPoll::Skipped(_) => None,
        GapPoll::Waiting => Some(
            (
                before.next_place(),
                (match before.watched() {
                    Some((place, polls)) => if place == before.next_place() {
                        polls + 1
                    } else {
                        1
                    },
                    None => 1,
                }) as u32,
            ),
        ),
    })
}

} // verus!
