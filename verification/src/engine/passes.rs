//! Resolution passes and what they publish.
use vstd::prelude::*;

use crate::cluster::ClusterSolver;
use crate::diagnostics::{
    all_reported, all_reported_properties, findings_view, gathered_findings_report_alike,
    Diagnostics, Finding, FindingView,
};
use crate::engine::{
    currents_of, findings_logged, partly_resolved, resolved, states_of, step_known,
    subs_known, volts_of, EngineCore, EngineView,
};
use crate::event_log::{EngineEvent, EventView};
use crate::emission::emission;
use crate::net::{Net, NetMove, NetState, NetVolts};
use crate::resolver::dirty::{scope_is_what_waits, the_scope_is_what_moves};
use crate::resolver::laws::{
    dirty_pass_matches_full_pass, full_pass_is_in_step, settled_describes,
};
use crate::pass::names_of;
use crate::resolver::{
    full_findings, gathered, redecided, same_nets, states_now, Resolver,
};
use crate::resolver::reads::currents_are_the_boards;
use crate::senses::{dependent_steps, own_steps, sense_script, SenseStep, SenseSub};

verus! {

/// How a net moved from one pass to the next.
pub open spec fn move_of(before: Net, after: Net) -> Option<NetMove> {
    NetMove::between((before.state, before.volts), (after.state, after.volts))
}

/// How the first `k` nets moved, ascending.
pub open spec fn moves_below(before: Seq<Net>, after: Seq<Net>, k: nat) -> Seq<(usize, NetMove)>
    decreases k,
{
    if k == 0 {
        Seq::empty()
    } else {
        let rest = moves_below(before, after, (k - 1) as nat);
        match move_of(before[k - 1], after[k - 1]) {
            Some(how) => rest.push(((k - 1) as usize, how)),
            None => rest,
        }
    }
}

/// What a pass that left the nets and the resolver so publishes: the tables,
/// the findings that are new on the bus in the log, and what is to be
/// delivered.
pub open spec fn published<S>(
    e: EngineView<S>,
    resolver: Resolver,
    nets: Seq<Net>,
    bus: Seq<FindingView>,
    us: u64,
) -> EngineView<S> {
    EngineView {
        resolver,
        nets,
        states: states_of(nets),
        volts: volts_of(nets),
        currents: currents_of(resolver),
        bus,
        log: findings_logged(e.log, bus.skip(e.bus.len() as int), us),
        steps: sense_script(e.senses, moves_below(e.nets, nets, nets.len())),
        walk: if e.instruments.len() > 0 && currents_of(resolver) != e.currents {
            Some(0)
        } else {
            None
        },
        ..e
    }
}

/// A resolver whose changed currents have been published.
pub open spec fn taken_up(resolver: Resolver, passed: Resolver) -> bool {
    &&& resolver.well_formed()
    &&& !resolver.currents_moved()
    &&& resolver.same_board(&passed)
    &&& resolver.solves_counted() == passed.solves_counted()
    &&& resolver.held_states() == passed.held_states()
    &&& forall|e: int| #[trigger]
        resolver.endpoint_current(e) == passed.endpoint_current(e)
    &&& forall|e: int| #[trigger] resolver.element_current(e) == passed.element_current(e)
    &&& forall|n: nat| #[trigger] resolver.settled_for(n) == passed.settled_for(n)
    &&& forall|cid: int| #[trigger] resolver.awaits(cid) == passed.awaits(cid)
}

/// A full pass over an engine's board, published.
pub open spec fn fully_passed<S: ClusterSolver>(
    e: EngineView<S>,
    passed: Resolver,
    f: EngineView<S>,
    us: u64,
) -> bool {
    &&& passed.same_board(&e.resolver)
    &&& same_nets(e.nets, f.nets)
    &&& passed.swept_fully(&e.resolver, &e.solver, e.nets, f.nets, e.bus, f.bus)
    &&& taken_up(f.resolver, passed)
    &&& f == published(e, f.resolver, f.nets, f.bus, us)
}

/// A pass over the clusters that waited, published.
pub open spec fn passed_over<S: ClusterSolver>(
    e: EngineView<S>,
    passed: Resolver,
    f: EngineView<S>,
    us: u64,
) -> bool {
    &&& passed.same_board(&e.resolver)
    &&& same_nets(e.nets, f.nets)
    &&& passed.swept(
        &e.resolver,
        &e.solver,
        e.resolver.structure(e.nets.len()),
        e.nets,
        f.nets,
        e.bus,
        f.bus,
    )
    &&& taken_up(f.resolver, passed)
    &&& f == published(e, f.resolver, f.nets, f.bus, us)
}

/// What a dirty pass comes to: where no cluster waits nothing, else a pass
/// over those that do.
pub open spec fn dirty_passed<S: ClusterSolver>(
    e: EngineView<S>,
    f: EngineView<S>,
    us: u64,
) -> bool {
    if e.resolver.scope(e.nets.len()).len() == 0 {
        f == e
    } else {
        exists|passed: Resolver| passed_over(e, passed, f, us)
    }
}

/// Only nets there are move.
proof fn moved_nets_are_known(before: Seq<Net>, after: Seq<Net>, k: nat)
    requires
        k <= usize::MAX,
    ensures
        forall|i: int|
            0 <= i < moves_below(before, after, k).len() ==> (#[trigger] moves_below(
                before,
                after,
                k,
            )[i]).0 < k,
    decreases k,
{
    if k > 0 {
        moved_nets_are_known(before, after, (k - 1) as nat);
        let rest = moves_below(before, after, (k - 1) as nat);
        let all = moves_below(before, after, k);
        assert forall|i: int| 0 <= i < all.len() implies (#[trigger] all[i]).0 < k by {
            if i < rest.len() {
                assert(all[i] == rest[i]);
            }
        }
    }
}

/// A script reports only nets that moved.
proof fn reported_nets_moved(subs: Seq<SenseSub>, moves: Seq<(usize, NetMove)>, n: nat, k: nat)
    requires
        k <= moves.len(),
        forall|i: int| 0 <= i < moves.len() ==> (#[trigger] moves[i]).0 < n,
    ensures
        forall|i: int|
            0 <= i < own_steps(subs, moves, k).len() ==> ((#[trigger] own_steps(
                subs,
                moves,
                k,
            )[i]) matches SenseStep::Resolved(net) ==> net < n),
    decreases k,
{
    if k > 0 {
        reported_nets_moved(subs, moves, n, (k - 1) as nat);
        let rest = own_steps(subs, moves, (k - 1) as nat);
        let all = own_steps(subs, moves, k);
        assert forall|i: int| 0 <= i < all.len() implies ((
        #[trigger] all[i]) matches SenseStep::Resolved(net) ==> net < n) by {
            if i < rest.len() {
                assert(all[i] == rest[i]);
            }
        }
    }
}

/// What depends on a moved net is only delivered.
proof fn dependents_are_delivered(subs: Seq<SenseSub>, moves: Seq<(usize, NetMove)>, k: nat)
    ensures
        forall|i: int|
            0 <= i < dependent_steps(subs, moves, k).len() ==> (#[trigger] dependent_steps(
                subs,
                moves,
                k,
            )[i]) is Deliver,
    decreases k,
{
    if k > 0 {
        dependents_are_delivered(subs, moves, (k - 1) as nat);
        let rest = dependent_steps(subs, moves, (k - 1) as nat);
        let all = dependent_steps(subs, moves, k);
        assert forall|i: int| 0 <= i < all.len() implies (#[trigger] all[i]) is Deliver by {
            if i < rest.len() {
                assert(all[i] == rest[i]);
            }
        }
    }
}

/// Every step of a pass's script names a net and a subscription there are.
proof fn script_is_known(subs: Seq<SenseSub>, before: Seq<Net>, after: Seq<Net>)
    requires
        after.len() <= usize::MAX,
        forall|i: int|
            0 <= i < sense_script(subs, moves_below(before, after, after.len())).len() ==> ((
            #[trigger] sense_script(
                subs,
                moves_below(before, after, after.len()),
            )[i]) matches SenseStep::Deliver(s) ==> s < subs.len()),
    ensures
        forall|i: int|
            0 <= i < sense_script(subs, moves_below(before, after, after.len())).len()
                ==> step_known(
                #[trigger] sense_script(subs, moves_below(before, after, after.len()))[i],
                after.len(),
                subs.len(),
            ),
{
    let moves = moves_below(before, after, after.len());
    moved_nets_are_known(before, after, after.len());
    reported_nets_moved(subs, moves, after.len(), moves.len());
    dependents_are_delivered(subs, moves, moves.len());
    let own = own_steps(subs, moves, moves.len());
    let script = sense_script(subs, moves);
    assert forall|i: int| 0 <= i < script.len() implies step_known(
        #[trigger] script[i],
        after.len(),
        subs.len(),
    ) by {
        if i < own.len() {
            assert(script[i] == own[i]);
        } else {
            assert(script[i] == dependent_steps(subs, moves, moves.len())[i - own.len()]);
        }
    }
}

/// A pass changed a current exactly where the table of them differs.
proof fn a_changed_current_shows(before: &Resolver, passed: &Resolver, resolver: &Resolver)
    requires
        before.well_formed(),
        passed.well_formed(),
        passed.same_board(before),
        taken_up(*resolver, *passed),
        !before.currents_moved(),
        passed.currents_moved() == (before.currents_moved() || (exists|e: int|
            #[trigger] passed.endpoint_current(e) != before.endpoint_current(e)) || (exists|e: int|
            #[trigger] passed.element_current(e) != before.element_current(e))),
    ensures
        passed.currents_moved() <==> currents_of(*resolver) != currents_of(*before),
        currents_of(*resolver) == currents_of(*passed),
{
    currents_are_the_boards(before);
    currents_are_the_boards(passed);
    let a = currents_of(*before);
    let b = currents_of(*resolver);
    assert(b =~= currents_of(*passed));
    if passed.currents_moved() {
        if exists|e: int|
            #[trigger] passed.endpoint_current(e) != before.endpoint_current(e) {
            let e = choose|e: int|
                #[trigger] passed.endpoint_current(e) != before.endpoint_current(e);
            assert(b.endpoints[e] != a.endpoints[e]);
        } else {
            let e = choose|e: int|
                #[trigger] passed.element_current(e) != before.element_current(e);
            assert(b.elements[e] != a.elements[e]);
        }
    } else {
        assert(a.endpoints =~= b.endpoints) by {
            assert forall|e: int| 0 <= e < a.endpoints.len() implies a.endpoints[e]
                == b.endpoints[e] by {
                assert(passed.endpoint_current(e) == before.endpoint_current(e));
            }
        }
        assert(a.elements =~= b.elements) by {
            assert forall|e: int| 0 <= e < a.elements.len() implies a.elements[e]
                == b.elements[e] by {
                assert(passed.element_current(e) == before.element_current(e));
            }
        }
    }
}

/// Nets that did not move are passed over.
proof fn still_nets(before: Seq<Net>, after: Seq<Net>, a: nat, b: nat)
    requires
        a <= b,
        forall|i: int| a <= i < b ==> move_of(#[trigger] before[i], after[i]) is None,
    ensures
        moves_below(before, after, b) == moves_below(before, after, a),
    decreases b - a,
{
    if a < b {
        assert(move_of(before[b - 1], after[b - 1]) is None);
        still_nets(before, after, a, (b - 1) as nat);
    }
}

impl<S: ClusterSolver> EngineCore<S> {
    /// Merge one pass's findings into the bus; one that is new there goes
    /// into the log.
    fn merge_findings(&mut self, pass: &Diagnostics, us: u64)
        requires
            old(self).kept(),
        ensures
            final(self)@ == (EngineView {
                bus: all_reported(old(self)@.bus, pass@),
                log: findings_logged(
                    old(self)@.log,
                    all_reported(old(self)@.bus, pass@).skip(old(self)@.bus.len() as int),
                    us,
                ),
                ..old(self)@
            }),
            *final(self) == (EngineCore {
                diagnostics: final(self).diagnostics,
                event_log: final(self).event_log,
                ..*old(self)
            }),
    {
        let found: &Vec<Finding> = pass.findings();
        let ghost bus = self@.bus;
        let ghost log = self@.log;
        assert(bus.skip(bus.len() as int) =~= Seq::<FindingView>::empty());
        let mut i: usize = 0;
        while i < found.len()
            invariant
                i <= found@.len(),
                findings_view(found@) == pass@,
                bus == old(self)@.bus,
                log == old(self)@.log,
                *self == (EngineCore {
                    diagnostics: self.diagnostics,
                    event_log: self.event_log,
                    ..*old(self)
                }),
                self@ == (EngineView { bus: self@.bus, log: self@.log, ..old(self)@ }),
                self@.bus == all_reported(bus, pass@.take(i as int)),
                bus.is_prefix_of(self@.bus),
                self@.log == findings_logged(log, self@.bus.skip(bus.len() as int), us),
            decreases found@.len() - i,
        {
            let ghost mid = self@;
            proof {
                let front = pass@.take(i + 1);
                assert(front.drop_last() =~= pass@.take(i as int));
                assert(front.last() == found@[i as int]@);
                all_reported_properties(bus, front);
            }
            let novel = self.diagnostics.report(found[i].clone());
            if novel {
                let finding = &found[i];
                let event = || -> (event: EngineEvent)
                    ensures
                        event@ == EventView::Finding(finding@),
                    { EngineEvent::Finding(finding.clone()) };
                self.event_log.record(event, us);
            }
            proof {
                let finding = found@[i as int]@;
                if novel {
                    let fresh = self@.bus.skip(bus.len() as int);
                    assert(self@.bus =~= mid.bus.push(finding));
                    assert(fresh =~= mid.bus.skip(bus.len() as int).push(finding));
                    assert(fresh.drop_last() =~= mid.bus.skip(bus.len() as int));
                }
            }
            i += 1;
        }
        assert(pass@.take(i as int) =~= pass@);
    }

    /// Publish the currents the last passes produced, where a pass changed
    /// one. Returns whether it did.
    fn publish_currents(&mut self) -> (published: bool)
        requires
            old(self).resolver.well_formed(),
        ensures
            taken_up(final(self).resolver, old(self).resolver),
            published == old(self).resolver.currents_moved(),
            final(self)@ == (EngineView {
                resolver: final(self).resolver,
                currents: if published {
                    currents_of(final(self).resolver)
                } else {
                    old(self)@.currents
                },
                ..old(self)@
            }),
            *final(self) == (EngineCore {
                resolver: final(self).resolver,
                currents: final(self).currents,
                ..*old(self)
            }),
    {
        if !self.resolver.take_currents_changed() {
            return false;
        }
        self.resolver.copy_current_table_into(&mut self.currents);
        true
    }

    /// The states and the voltages the nets hold.
    fn held(&self) -> (held: Vec<(NetState, NetVolts)>)
        ensures
            held@ == Seq::new(
                self.nets@.len(),
                |i: int| (self.nets@[i].state, self.nets@[i].volts),
            ),
    {
        let mut held: Vec<(NetState, NetVolts)> = Vec::new();
        let mut i: usize = 0;
        while i < self.nets.len()
            invariant
                i <= self.nets@.len(),
                held@ =~= Seq::new(
                    i as nat,
                    |j: int| (self.nets@[j].state, self.nets@[j].volts),
                ),
            decreases self.nets@.len() - i,
        {
            held.push((self.nets[i].state, self.nets[i].volts));
            i += 1;
        }
        held
    }

    /// Write every net's state and voltage into the published tables.
    fn publish_nets(&mut self)
        requires
            old(self).volts@.len() == old(self).nets@.len(),
        ensures
            final(self)@ == (EngineView {
                states: states_of(old(self)@.nets),
                volts: volts_of(old(self)@.nets),
                ..old(self)@
            }),
            *final(self) == (EngineCore {
                states: final(self).states,
                volts: final(self).volts,
                ..*old(self)
            }),
    {
        self.states.clear();
        let mut i: usize = 0;
        while i < self.nets.len()
            invariant
                i <= self.nets@.len(),
                self.volts@.len() == self.nets@.len(),
                self.states@ =~= states_of(self.nets@.take(i as int)),
                forall|j: int| 0 <= j < i ==> #[trigger] self.volts@[j] == self.nets@[j].volts,
                *self == (EngineCore { states: self.states, volts: self.volts, ..*old(self) }),
            decreases self.nets@.len() - i,
        {
            self.states.push(self.nets[i].state);
            self.volts.store(i, self.nets[i].volts);
            i += 1;
        }
        assert(self.nets@.take(i as int) =~= self.nets@);
        assert(self.volts@ =~= volts_of(self.nets@));
    }

    /// Set out what is to be delivered.
    fn set_out(&mut self, moves: &Vec<(usize, NetMove)>, currents: bool)
        requires
            old(self).kept(),
        ensures
            final(self).kept(),
            final(self)@ == (EngineView {
                steps: sense_script(old(self)@.senses, moves@),
                walk: if old(self)@.instruments.len() > 0 && currents {
                    Some(0)
                } else {
                    None
                },
                ..old(self)@
            }),
            *final(self) == (EngineCore {
                steps: final(self).steps,
                done: final(self).done,
                walk: final(self).walk,
                ..*old(self)
            }),
            forall|i: int|
                0 <= i < final(self)@.steps.len() ==> ((
                #[trigger] final(self)@.steps[i]) matches SenseStep::Deliver(s) ==> s
                    < old(self)@.senses.len()),
    {
        self.steps = self.senses.script(moves);
        self.done = 0;
        self.walk = if self.current_subs.len() > 0 && currents {
            Some(0)
        } else {
            None
        };
        assert(self.steps@.skip(0) =~= self.steps@);
    }
}

/// Whether the lists a pass leaves alone are in order.
pub open spec fn lists_known<S: ClusterSolver>(e: EngineView<S>) -> bool {
    &&& subs_known(e.senses, e.nets.len())
    &&& e.wheel.well_formed()
    &&& e.drives.well_formed()
}

/// Whether a full pass can be run and published.
pub open spec fn can_pass<S: ClusterSolver>(e: EngineView<S>) -> bool {
    &&& e.resolver.well_formed()
    &&& e.resolver.fits(e.nets.len())
    &&& e.resolver.currents_moved() ==> e.instruments.len() == 0
    &&& e.currents == currents_of(e.resolver)
    &&& e.volts.len() == e.nets.len()
    &&& lists_known(e)
}

/// A pass's publication holds what its nets and its resolver do.
proof fn publication_holds<S: ClusterSolver>(e: EngineView<S>, f: EngineView<S>, us: u64)
    requires
        f.nets.len() == e.nets.len(),
        f.nets.len() <= usize::MAX,
        lists_known(e),
        f == published(e, f.resolver, f.nets, f.bus, us),
        forall|i: int|
            0 <= i < f.steps.len() ==> ((#[trigger] f.steps[i]) matches SenseStep::Deliver(s) ==> s
                < e.senses.len()),
    ensures
        f.published(),
{
    assert(f.steps == sense_script(e.senses, moves_below(e.nets, f.nets, f.nets.len())));
    script_is_known(e.senses, e.nets, f.nets);
}

/// What a full pass publishes is what a full pass leaves.
proof fn fully_passed_is_sound<S: ClusterSolver>(
    e: EngineView<S>,
    passed: Resolver,
    f: EngineView<S>,
    us: u64,
)
    requires
        can_pass(e),
        fully_passed(e, passed, f, us),
        forall|i: int|
            0 <= i < f.steps.len() ==> ((#[trigger] f.steps[i]) matches SenseStep::Deliver(s) ==> s
                < e.senses.len()),
    ensures
        f.sound(),
{
    assert(f.published()) by {
        publication_holds(e, f, us);
    }
    assert(f.resolver.in_step(&f.solver, f.nets) && f.resolver.on_bus(&f.solver, f.nets, f.bus)
        && f.resolver.fully_resolved(&f.solver, f.nets)) by {
        full_pass_is_in_step(&e.resolver, &passed, &e.solver, e.nets, f.nets, e.bus, f.bus);
        taken_up_is_in_step(passed, f.resolver, &e.solver, f.nets, f.bus);
    }
    reveal(resolved);
}

/// Taking up the changed currents leaves every net in step.
proof fn taken_up_is_in_step<S: ClusterSolver>(
    passed: Resolver,
    resolver: Resolver,
    solver: &S,
    nets: Seq<Net>,
    bus: Seq<FindingView>,
)
    requires
        taken_up(resolver, passed),
        passed.in_step(solver, nets),
        passed.on_bus(solver, nets, bus),
    ensures
        resolver.in_step(solver, nets),
        resolver.on_bus(solver, nets, bus),
        passed.fully_resolved(solver, nets) ==> resolver.fully_resolved(solver, nets),
{
    assert(resolver.roots(nets.len()) == passed.roots(nets.len()));
}

impl<S: ClusterSolver> EngineCore<S> {
    /// One full pass: resolve every net, publish, merge the findings, and set
    /// out what is to be delivered.
    pub(crate) fn resolve_and_publish(&mut self, us: u64)
        requires
            old(self).kept(),
            can_pass(old(self)@),
        ensures
            final(self).kept(),
            final(self)@.sound(),
            exists|passed: Resolver| fully_passed(old(self)@, passed, final(self)@, us),
    {
        let ghost e = self@;
        let old_held = self.held();
        let mut pass = Diagnostics::new();
        self.resolver.resolve(&mut self.nets, &mut pass, &self.solver);
        let ghost passed = self.resolver;
        self.publish_nets();
        let currents = self.publish_currents();
        self.merge_findings(&pass, us);
        let mut moves: Vec<(usize, NetMove)> = Vec::new();
        let mut i: usize = 0;
        while i < self.nets.len()
            invariant
                i <= self.nets@.len(),
                old_held@.len() == self.nets@.len(),
                e.nets.len() == self.nets@.len(),
                forall|j: int|
                    0 <= j < old_held@.len() ==> #[trigger] old_held@[j] == (
                        e.nets[j].state,
                        e.nets[j].volts,
                    ),
                moves@ == moves_below(e.nets, self.nets@, i as nat),
            decreases self.nets@.len() - i,
        {
            let (state, volts) = old_held[i];
            if let Some(how) = NetMove::of(&state, &volts, &self.nets[i]) {
                moves.push((i, how));
            }
            i += 1;
        }
        self.set_out(&moves, currents);
        proof {
            full_pass_adds_up(e, passed, self@, pass@, us);
        }
    }
}

/// A pass's parts make a publication.
pub open spec fn pieced<S: ClusterSolver>(
    e: EngineView<S>,
    passed: Resolver,
    f: EngineView<S>,
    pass: Seq<FindingView>,
    us: u64,
) -> bool {
    &&& f.bus == all_reported(e.bus, pass)
    &&& f == EngineView {
        resolver: f.resolver,
        nets: f.nets,
        states: states_of(f.nets),
        volts: volts_of(f.nets),
        currents: if passed.currents_moved() {
            currents_of(f.resolver)
        } else {
            e.currents
        },
        bus: f.bus,
        log: findings_logged(e.log, f.bus.skip(e.bus.len() as int), us),
        steps: sense_script(e.senses, moves_below(e.nets, f.nets, f.nets.len())),
        walk: if e.instruments.len() > 0 && passed.currents_moved() {
            Some(0)
        } else {
            None
        },
        ..e
    }
}

/// The parts of a full pass make its publication.
proof fn full_pass_adds_up<S: ClusterSolver>(
    e: EngineView<S>,
    passed: Resolver,
    f: EngineView<S>,
    pass: Seq<FindingView>,
    us: u64,
)
    requires
        can_pass(e),
        passed.well_formed(),
        passed.same_board(&e.resolver),
        same_nets(e.nets, f.nets),
        passed.swept_fully(&e.resolver, &e.solver, e.nets, f.nets, Seq::empty(), pass),
        taken_up(f.resolver, passed),
        pieced(e, passed, f, pass, us),
        forall|i: int|
            0 <= i < f.steps.len() ==> ((#[trigger] f.steps[i]) matches SenseStep::Deliver(s) ==> s
                < e.senses.len()),
    ensures
        fully_passed(e, passed, f, us),
        f.sound(),
{
    let board = e.resolver.board();
    let topology = e.resolver.structure(e.nets.len());
    assert(f.bus == all_reported(
        e.bus,
        emission(full_findings(&e.solver, board, topology, names_of(board, e.nets))),
    )) by {
        gathered_findings_report_alike(
            e.bus,
            emission(full_findings(&e.solver, board, topology, names_of(board, e.nets))),
        );
    }
    assert(f == published(e, f.resolver, f.nets, f.bus, us)) by {
        if !e.resolver.currents_moved() {
            reveal(Resolver::currents_after);
            a_changed_current_shows(&e.resolver, &passed, &f.resolver);
        } else {
            reveal(Resolver::currents_after);
        }
    }
    assert(passed.swept_fully(&e.resolver, &e.solver, e.nets, f.nets, e.bus, f.bus));
    assert(fully_passed(e, passed, f, us));
    fully_passed_is_sound(e, passed, f, us);
}

/// A board that is in step and on which nothing waits is fully resolved.
proof fn nothing_waits<S: ClusterSolver>(e: EngineView<S>)
    requires
        e.in_step(),
        forall|cid: int| !#[trigger] e.resolver.awaits(cid),
    ensures
        e.sound(),
{
    reveal(partly_resolved);
    reveal(resolved);
    let n = e.nets.len();
    settled_describes(&e.resolver, n);
    let now = states_now(&e.solver, e.resolver.board(), e.resolver.structure(n));
    assert forall|p: int| 0 <= p < now.len() implies e.resolver.held_states()[p] == now[p] by {
        assert(!e.resolver.awaits(e.resolver.structure(n).terminals[p].cluster as int));
    }
    assert(e.resolver.held_states() =~= now);
}

/// The parts of a pass over the clusters that waited make its publication.
proof fn dirty_pass_adds_up<S: ClusterSolver>(
    e: EngineView<S>,
    passed: Resolver,
    f: EngineView<S>,
    pass: Seq<FindingView>,
    us: u64,
)
    requires
        e.in_step(),
        passed.well_formed(),
        passed.same_board(&e.resolver),
        passed.settled_for(e.nets.len()),
        forall|cid: int| !#[trigger] passed.awaits(cid),
        same_nets(e.nets, f.nets),
        passed.swept(
            &e.resolver,
            &e.solver,
            e.resolver.structure(e.nets.len()),
            e.nets,
            f.nets,
            Seq::empty(),
            pass,
        ),
        taken_up(f.resolver, passed),
        pieced(e, passed, f, pass, us),
        forall|i: int|
            0 <= i < f.steps.len() ==> ((#[trigger] f.steps[i]) matches SenseStep::Deliver(s) ==> s
                < e.senses.len()),
    ensures
        passed_over(e, passed, f, us),
        f.sound(),
{
    reveal(partly_resolved);
    let board = e.resolver.board();
    let topology = e.resolver.structure(e.nets.len());
    let cids = e.resolver.waiting(topology);
    let states = redecided(&e.solver, board, topology, e.resolver.held_states(), cids);
    let all = emission(
        gathered(&e.solver, board, topology, states, names_of(board, e.nets), cids, cids.len()),
    );
    assert(f.bus == all_reported(e.bus, all)) by {
        gathered_findings_report_alike(e.bus, all);
    }
    assert(f == published(e, f.resolver, f.nets, f.bus, us)) by {
        reveal(Resolver::currents_after);
        a_changed_current_shows(&e.resolver, &passed, &f.resolver);
    }
    assert(passed.swept(&e.resolver, &e.solver, topology, e.nets, f.nets, e.bus, f.bus));
    assert(passed_over(e, passed, f, us));
    assert(f.published()) by {
        settled_describes(&e.resolver, e.nets.len());
        publication_holds(e, f, us);
    }
    assert(f.resolver.in_step(&f.solver, f.nets) && f.resolver.on_bus(&f.solver, f.nets, f.bus)
        && f.resolver.fully_resolved(&f.solver, f.nets)) by {
        dirty_pass_matches_full_pass(
            &e.resolver,
            &passed,
            &e.solver,
            e.nets,
            f.nets,
            e.bus,
            f.bus,
        );
        taken_up_is_in_step(passed, f.resolver, &e.solver, f.nets, f.bus);
    }
    reveal(resolved);
}

impl<S: ClusterSolver> EngineCore<S> {
    /// The states and the voltages the listed nets hold.
    fn held_at(&self, scope: &Vec<usize>) -> (held: Vec<(NetState, NetVolts)>)
        requires
            forall|i: int| 0 <= i < scope@.len() ==> (#[trigger] scope@[i]) < self.nets@.len(),
        ensures
            held@ == Seq::new(
                scope@.len(),
                |i: int| (self.nets@[scope@[i] as int].state, self.nets@[scope@[i] as int].volts),
            ),
    {
        let mut held: Vec<(NetState, NetVolts)> = Vec::new();
        let mut i: usize = 0;
        while i < scope.len()
            invariant
                i <= scope@.len(),
                forall|j: int| 0 <= j < scope@.len() ==> (#[trigger] scope@[j]) < self.nets@.len(),
                held@ =~= Seq::new(
                    i as nat,
                    |j: int|
                        (self.nets@[scope@[j] as int].state, self.nets@[scope@[j] as int].volts),
                ),
            decreases scope@.len() - i,
        {
            let net: usize = scope[i];
            held.push((self.nets[net].state, self.nets[net].volts));
            i += 1;
        }
        held
    }

    /// Write the listed nets' states and voltages into the published tables.
    fn publish_scope(&mut self, scope: &Vec<usize>)
        requires
            forall|i: int| 0 <= i < scope@.len() ==> (#[trigger] scope@[i]) < old(self).nets@.len(),
            old(self).states@.len() == old(self).nets@.len(),
            old(self).volts@.len() == old(self).nets@.len(),
            forall|i: int|
                0 <= i < old(self).nets@.len() && !scope@.contains(i as usize) ==> #[trigger] old(
                    self,
                ).states@[i] == old(self).nets@[i].state && old(self).volts@[i] == old(
                    self,
                ).nets@[i].volts,
        ensures
            final(self)@ == (EngineView {
                states: states_of(old(self)@.nets),
                volts: volts_of(old(self)@.nets),
                ..old(self)@
            }),
            *final(self) == (EngineCore {
                states: final(self).states,
                volts: final(self).volts,
                ..*old(self)
            }),
    {
        let mut k: usize = 0;
        assert(scope@.skip(0) =~= scope@);
        while k < scope.len()
            invariant
                k <= scope@.len(),
                forall|i: int| 0 <= i < scope@.len() ==> (#[trigger] scope@[i]) < self.nets@.len(),
                self.states@.len() == self.nets@.len(),
                self.volts@.len() == self.nets@.len(),
                forall|i: int|
                    0 <= i < self.nets@.len() && !scope@.skip(k as int).contains(i as usize)
                        ==> #[trigger] self.states@[i] == self.nets@[i].state && self.volts@[i]
                        == self.nets@[i].volts,
                *self == (EngineCore { states: self.states, volts: self.volts, ..*old(self) }),
            decreases scope@.len() - k,
        {
            let net: usize = scope[k];
            self.states.set(net, self.nets[net].state);
            self.volts.store(net, self.nets[net].volts);
            proof {
                let rest = scope@.skip(k as int);
                assert(self.nets.len() <= usize::MAX);
                assert forall|i: int|
                    0 <= i < self.nets@.len() && !scope@.skip(k + 1).contains(
                        i as usize,
                    ) implies #[trigger] self.states@[i] == self.nets@[i].state && self.volts@[i]
                    == self.nets@[i].volts by {
                    if i != net && rest.contains(i as usize) {
                        let j = choose|j: int| 0 <= j < rest.len() && rest[j] == i as usize;
                        assert(scope@.skip(k + 1)[j - 1] == i as usize);
                    }
                }
            }
            k += 1;
        }
        assert(scope@.skip(k as int) =~= Seq::<usize>::empty());
        assert(self.states@ =~= states_of(self.nets@));
        assert forall|i: int| 0 <= i < self.nets@.len() implies self.volts@[i]
            == self.nets@[i].volts by {
            assert(self.states@[i] == self.nets@[i].state);
        }
        assert(self.volts@ =~= volts_of(self.nets@));
    }

    /// How the listed nets moved.
    fn moves_in(
        &self,
        scope: &Vec<usize>,
        held: &Vec<(NetState, NetVolts)>,
        Ghost(before): Ghost<Seq<Net>>,
    ) -> (moves: Vec<(usize, NetMove)>)
        requires
            before.len() == self.nets@.len(),
            crate::seqs::ascending(scope@),
            forall|i: int| 0 <= i < scope@.len() ==> (#[trigger] scope@[i]) < self.nets@.len(),
            held@ == Seq::new(
                scope@.len(),
                |i: int| (before[scope@[i] as int].state, before[scope@[i] as int].volts),
            ),
            forall|i: int|
                0 <= i < before.len() && !scope@.contains(i as usize) ==> move_of(
                    #[trigger] before[i],
                    self.nets@[i],
                ) is None,
        ensures
            moves@ == moves_below(before, self.nets@, self.nets@.len()),
    {
        let mut moves: Vec<(usize, NetMove)> = Vec::new();
        let mut k: usize = 0;
        let ghost mut upto: nat = 0;
        while k < scope.len()
            invariant
                k <= scope@.len(),
                before.len() == self.nets@.len(),
                crate::seqs::ascending(scope@),
                forall|i: int| 0 <= i < scope@.len() ==> (#[trigger] scope@[i]) < self.nets@.len(),
                held@ == Seq::new(
                    scope@.len(),
                    |i: int| (before[scope@[i] as int].state, before[scope@[i] as int].volts),
                ),
                forall|i: int|
                    0 <= i < before.len() && !scope@.contains(i as usize) ==> move_of(
                        #[trigger] before[i],
                        self.nets@[i],
                    ) is None,
                upto <= self.nets@.len(),
                k == 0 ==> upto == 0,
                k > 0 ==> upto == scope@[k - 1] + 1,
                moves@ == moves_below(before, self.nets@, upto),
            decreases scope@.len() - k,
        {
            let net: usize = scope[k];
            proof {
                assert(self.nets.len() <= usize::MAX);
                between_listed(scope@, k as int);
                still_nets(before, self.nets@, upto, net as nat);
                upto = (net + 1) as nat;
            }
            let (state, volts) = held[k];
            if let Some(how) = NetMove::of(&state, &volts, &self.nets[net]) {
                moves.push((net, how));
            }
            k += 1;
        }
        proof {
            assert(self.nets.len() <= usize::MAX);
            between_listed(scope@, scope@.len() as int);
            still_nets(before, self.nets@, upto, self.nets@.len());
        }
        moves
    }

    /// A pass over the clusters that wait: the same resolution, publication
    /// and delivery, over the nets that can have changed.
    pub(crate) fn resolve_and_publish_dirty(&mut self, us: u64)
        requires
            old(self).kept(),
            old(self)@.in_step(),
        ensures
            final(self).kept(),
            final(self)@.sound(),
            dirty_passed(old(self)@, final(self)@, us),
    {
        let ghost e = self@;
        let ghost n = self.nets@.len();
        let mut scope: Vec<usize> = Vec::new();
        proof {
            reveal(partly_resolved);
        }
        self.resolver.dirty_scope(self.nets.len(), &mut scope);
        proof {
            scope_is_what_waits(&self.resolver, n);
            settled_describes(&self.resolver, n);
        }
        if scope.len() == 0 {
            proof {
                nothing_waits(e);
            }
            return ;
        }
        let held = self.held_at(&scope);
        let mut pass = Diagnostics::new();
        self.resolver.resolve_dirty(&mut self.nets, &mut pass, &self.solver);
        let ghost passed = self.resolver;
        proof {
            assert forall|i: int|
                0 <= i < n && !scope@.contains(i as usize) implies #[trigger] self.nets@[i].state
                == e.nets[i].state && self.nets@[i].volts == e.nets[i].volts by {
                the_scope_is_what_moves(
                    &e.resolver,
                    &passed,
                    &e.solver,
                    e.nets,
                    self.nets@,
                    Seq::empty(),
                    pass@,
                    i,
                );
            }
            assert forall|i: int| 0 <= i < n && !scope@.contains(i as usize) implies move_of(
                #[trigger] e.nets[i],
                self.nets@[i],
            ) is None by {
                assert(self.nets@[i].state == e.nets[i].state);
            }
        }
        self.publish_scope(&scope);
        let currents = self.publish_currents();
        self.merge_findings(&pass, us);
        let moves = self.moves_in(&scope, &held, Ghost(e.nets));
        self.set_out(&moves, currents);
        proof {
            dirty_pass_adds_up(e, passed, self@, pass@, us);
        }
    }
}

/// Nothing lies between two neighbours of an ascending list, ahead of its
/// first or behind its last.
proof fn between_listed(list: Seq<usize>, k: int)
    requires
        crate::seqs::ascending(list),
        0 <= k <= list.len(),
    ensures
        forall|x: usize|
            (k > 0 ==> list[k - 1] < x) && (k < list.len() ==> x < list[k]) ==> !list.contains(x),
{
    assert forall|x: usize|
        (k > 0 ==> list[k - 1] < x) && (k < list.len() ==> x < list[k]) implies !list.contains(
        x,
    ) by {
        if list.contains(x) {
            let j = choose|j: int| 0 <= j < list.len() && list[j] == x;
            if j < k - 1 {
                assert(list[j] < list[k - 1]);
            }
            if j > k {
                assert(list[k] < list[j]);
            }
        }
    }
}

} // verus!
