//! What holds of every engine.
use vstd::prelude::*;

use crate::cluster::ClusterSolver;
use crate::diagnostics::{reported, FindingView};
use crate::emission::holds_finding;
use crate::engine::commands::{applied, changes};
use crate::engine::passes::{fully_passed, moves_below, passed_over};
use crate::engine::timers::{is_due, turned};
use crate::engine::{found, resolved, EngineView};
use crate::net::Net;
use crate::pass::names_of;
use crate::resolver::{scene_now, Resolver};
use crate::scene::cluster_findings;
use crate::sequencer::PendingDrive;
use crate::wheel::{next_instant, place_for, place_splits, TimerEntry, TimerWheel};

verus! {

/// What an engine publishes is always what a full pass over the board, as it
/// is driven, resolves every net to.
pub proof fn the_published_is_a_full_pass<S: ClusterSolver>(e: EngineView<S>)
    requires
        e.sound(),
    ensures
        e.states.len() == e.nets.len(),
        e.volts.len() == e.nets.len(),
        forall|i: int|
            0 <= i < e.nets.len() ==> ({
                let topology = e.resolver.structure(e.nets.len());
                let result = scene_now(
                    &e.solver,
                    e.resolver.board(),
                    topology,
                    topology.index[i] as int,
                ).net_result(&e.solver, i as usize);
                #[trigger] e.states[i] == result.state && e.volts[i] == result.volts
            }),
{
    reveal(resolved);
    let topology = e.resolver.structure(e.nets.len());
    assert forall|i: int| 0 <= i < e.nets.len() implies ({
        let result = scene_now(
            &e.solver,
            e.resolver.board(),
            topology,
            topology.index[i] as int,
        ).net_result(&e.solver, i as usize);
        #[trigger] e.states[i] == result.state && e.volts[i] == result.volts
    }) by {
        assert(crate::resolver::resolved(
            &e.solver,
            e.resolver.board(),
            topology,
            e.nets[i],
            i,
        ));
    }
}

/// Every finding of the board as it is driven is on the bus.
pub proof fn every_finding_is_on_the_bus<S: ClusterSolver>(
    e: EngineView<S>,
    cid: int,
    finding: FindingView,
)
    requires
        e.sound(),
        0 <= cid < e.resolver.structure(e.nets.len()).clusters.len(),
        holds_finding(
            cluster_findings(
                &e.solver,
                scene_now(
                    &e.solver,
                    e.resolver.board(),
                    e.resolver.structure(e.nets.len()),
                    cid,
                ),
                names_of(e.resolver.board(), e.nets),
            ),
            finding,
        ),
    ensures
        e.bus.contains(finding),
{
    reveal(resolved);
    assert(!e.resolver.awaits(cid));
}

/// A finding is put on the bus and in the log once: reporting it again
/// changes nothing.
pub proof fn a_finding_is_reported_once<S>(
    e: EngineView<S>,
    finding: FindingView,
    us: u64,
    later: u64,
)
    ensures
        found(found(e, finding, us), finding, later) == found(e, finding, us),
{
    let bus = reported(e.bus, finding);
    assert(bus.contains(finding)) by {
        if !e.bus.contains(finding) {
            assert(bus[e.bus.len() as int] == finding);
        }
    }
}

/// A drive that is already held resolves nothing: nothing moves, nothing is
/// found and nothing is to be delivered.
pub proof fn a_held_drive_resolves_nothing<S: ClusterSolver>(
    e: EngineView<S>,
    entry: PendingDrive,
    f: EngineView<S>,
    us: u64,
)
    requires
        applied(e, entry, f, us),
        !changes(e.resolver, entry),
    ensures
        f.resolver == e.resolver,
        f.nets == e.nets,
        f.states == e.states,
        f.volts == e.volts,
        f.currents == e.currents,
        f.bus == e.bus,
        f.steps == e.steps,
{
}

/// Nets that came out alike moved alike.
proof fn alike_moves(before: Seq<Net>, a: Seq<Net>, b: Seq<Net>, k: nat)
    requires
        forall|i: int|
            0 <= i < k ==> (#[trigger] a[i]).state == b[i].state && a[i].volts == b[i].volts,
    ensures
        moves_below(before, a, k) == moves_below(before, b, k),
    decreases k,
{
    if k > 0 {
        assert(a[k - 1].state == b[k - 1].state);
        alike_moves(before, a, b, (k - 1) as nat);
    }
}

/// A pass over what a change touched publishes and delivers what a full pass
/// would.
pub proof fn a_dirty_pass_delivers_as_a_full_one<S: ClusterSolver>(
    e: EngineView<S>,
    dirty: Resolver,
    f: EngineView<S>,
    full: Resolver,
    g: EngineView<S>,
    us: u64,
)
    requires
        passed_over(e, dirty, f, us),
        f.sound(),
        fully_passed(e, full, g, us),
        g.sound(),
    ensures
        f.states == g.states,
        f.volts == g.volts,
        f.steps == g.steps,
{
    reveal(resolved);
    let n = e.nets.len();
    assert(f.resolver.roots(n) == e.resolver.roots(n)) by {
        assert(dirty.roots(n) == e.resolver.roots(n));
        assert(f.resolver.roots(n) == dirty.roots(n));
    }
    assert(g.resolver.roots(n) == e.resolver.roots(n)) by {
        assert(full.roots(n) == e.resolver.roots(n));
        assert(g.resolver.roots(n) == full.roots(n));
    }
    assert forall|i: int| 0 <= i < n implies (#[trigger] f.nets[i]).state == g.nets[i].state
        && f.nets[i].volts == g.nets[i].volts by {
        let topology = e.resolver.structure(n);
        assert(crate::resolver::resolved(&e.solver, e.resolver.board(), topology, f.nets[i], i));
        assert(crate::resolver::resolved(&e.solver, e.resolver.board(), topology, g.nets[i], i));
    }
    alike_moves(e.nets, f.nets, g.nets, n);
    assert(f.states =~= g.states);
    assert(f.volts =~= g.volts);
}

/// Wheels, each the one before with its head, which was due, fired at one
/// instant.
pub open spec fn fired_in_turn(wheels: Seq<TimerWheel>, now_ns: u64) -> bool {
    &&& forall|i: int| 0 <= i < wheels.len() ==> (#[trigger] wheels[i]).well_formed()
    &&& forall|i: int|
        0 <= i < wheels.len() - 1 ==> is_due(#[trigger] wheels[i], now_ns) && turned(
            wheels[i],
            wheels[i + 1],
            now_ns,
        )
}

/// Whether every periodic wake of a wheel that is due comes again later than
/// now: its period is not nought, and the last instant is not near.
pub open spec fn comes_later(wheel: TimerWheel, now_ns: u64) -> bool {
    wheel.pending()[0].period_ns matches Some(period) ==> next_instant(
        wheel.pending()[0].deadline_ns,
        period,
        now_ns,
    ) > now_ns
}

/// Where nothing is due at the head of a wheel, nothing is due.
pub proof fn no_due_wake_is_left(wheel: TimerWheel, now_ns: u64)
    requires
        wheel.well_formed(),
        !is_due(wheel, now_ns),
    ensures
        forall|i: int|
            0 <= i < wheel.pending().len() ==> (#[trigger] wheel.pending()[i]).deadline_ns
                > now_ns,
{
    wheel.fires_in_deadline_order();
}

/// Wakes fire in deadline order.
pub proof fn wakes_fire_in_deadline_order(wheels: Seq<TimerWheel>, now_ns: u64, i: int, j: int)
    requires
        fired_in_turn(wheels, now_ns),
        0 <= i <= j < wheels.len() - 1,
    ensures
        wheels[i].pending()[0].deadline_ns <= wheels[j].pending()[0].deadline_ns,
    decreases j - i,
{
    if i < j {
        wakes_fire_in_deadline_order(wheels, now_ns, i, j - 1);
        let (before, after) = (wheels[j - 1], wheels[j]);
        assert(is_due(before, now_ns) && turned(before, after, now_ns));
        assert(is_due(after, now_ns));
        before.fires_in_deadline_order();
        let head = before.pending()[0];
        let rest = before.pending().drop_first();
        if let Some(period) = head.period_ns {
            let entry = TimerEntry {
                deadline_ns: next_instant(head.deadline_ns, period, now_ns),
                component: head.component,
                period_ns: head.period_ns,
            };
            place_splits(rest, entry.deadline_ns);
            if place_for(rest, entry.deadline_ns) > 0 {
                assert(after.pending()[0] == rest[0]);
            }
        }
    }
}

/// How many entries of a list are due.
pub open spec fn due_count(pending: Seq<TimerEntry>, now_ns: u64) -> nat
    decreases pending.len(),
{
    if pending.len() == 0 {
        0
    } else {
        due_count(pending.drop_last(), now_ns) + if pending.last().deadline_ns <= now_ns {
            1nat
        } else {
            0nat
        }
    }
}

proof fn due_count_first(pending: Seq<TimerEntry>, now_ns: u64)
    requires
        pending.len() > 0,
    ensures
        due_count(pending, now_ns) == due_count(pending.drop_first(), now_ns) + if pending[0].deadline_ns
            <= now_ns {
            1nat
        } else {
            0nat
        },
    decreases pending.len(),
{
    if pending.len() > 1 {
        due_count_first(pending.drop_last(), now_ns);
        assert(pending.drop_last().drop_first() =~= pending.drop_first().drop_last());
    } else {
        assert(pending.drop_last() =~= Seq::<TimerEntry>::empty());
        assert(pending.drop_first() =~= Seq::<TimerEntry>::empty());
    }
}

proof fn due_count_insert(pending: Seq<TimerEntry>, at: int, entry: TimerEntry, now_ns: u64)
    requires
        0 <= at <= pending.len(),
        entry.deadline_ns > now_ns,
    ensures
        due_count(pending.insert(at, entry), now_ns) == due_count(pending, now_ns),
    decreases pending.len(),
{
    let all = pending.insert(at, entry);
    if at == pending.len() {
        assert(all.drop_last() =~= pending);
    } else {
        due_count_insert(pending.drop_last(), at, entry, now_ns);
        assert(all.drop_last() =~= pending.drop_last().insert(at, entry));
    }
}

/// Firing ends: each wake that fires leaves one fewer due.
pub proof fn a_firing_leaves_one_fewer_due(before: TimerWheel, after: TimerWheel, now_ns: u64)
    requires
        before.well_formed(),
        is_due(before, now_ns),
        turned(before, after, now_ns),
        comes_later(before, now_ns),
    ensures
        due_count(after.pending(), now_ns) + 1 == due_count(before.pending(), now_ns),
{
    before.fires_in_deadline_order();
    let head = before.pending()[0];
    let rest = before.pending().drop_first();
    due_count_first(before.pending(), now_ns);
    if let Some(period) = head.period_ns {
        let entry = TimerEntry {
            deadline_ns: next_instant(head.deadline_ns, period, now_ns),
            component: head.component,
            period_ns: head.period_ns,
        };
        place_splits(rest, entry.deadline_ns);
        due_count_insert(rest, place_for(rest, entry.deadline_ns), entry, now_ns);
    }
}

/// A component is woken at most once for an instant, however many entries of
/// its share it: behind the first that fires the wake is no longer asked for.
pub proof fn a_shared_instant_wakes_once(wheels: Seq<TimerWheel>, now_ns: u64, i: int, j: int)
    requires
        fired_in_turn(wheels, now_ns),
        0 <= i < j < wheels.len(),
        forall|k: int| 0 <= k < wheels.len() - 1 ==> comes_later(#[trigger] wheels[k], now_ns),
    ensures
        !wheels[j].is_armed(
            wheels[i].pending()[0].component.0,
            wheels[i].pending()[0].deadline_ns,
        ),
    decreases j - i,
{
    let head = wheels[i].pending()[0];
    assert(is_due(wheels[i], now_ns));
    if j > i + 1 {
        a_shared_instant_wakes_once(wheels, now_ns, i, j - 1);
    }
    assert(is_due(wheels[j - 1], now_ns) && turned(wheels[j - 1], wheels[j], now_ns));
    assert(comes_later(wheels[j - 1], now_ns));
}

} // verus!
