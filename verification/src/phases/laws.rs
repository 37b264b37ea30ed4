//! What two phases make of one root.
use vstd::prelude::*;

use crate::net::{state_level, NetState};
use crate::phases::{
    combined, contending_slots, joined_fight, leading_segment, leads, periodic_reach,
    periodic_source, phase_root, slots_or_none, PeriodicReach, PhaseRootView, RootResult,
};
use crate::ranking::laws::{slots_are_filtered, total, weak, winner_is_strongest, wins};
use crate::ranking::{bar_of, ReachingSource, RootOutcomeView};
use crate::seqs::{ascending, union_list, union_properties};

verus! {

/// The periodic slots that reach a root are listed in order, each with its own
/// ohms and segment.
pub proof fn every_clock_that_reaches_is_listed(reaching: Seq<ReachingSource>)
    ensures
        periodic_reach(reaching) == reaching.filter(
            |s: ReachingSource| s.slot is Some && s.segment is Some,
        ).map_values(
            |s: ReachingSource|
                PeriodicReach {
                    slot: s.slot->0,
                    ohms: s.impedance.plus(s.path),
                    segment: s.segment->0,
                },
        ),
    decreases reaching.len(),
{
    reveal(Seq::filter);
    let clock = |s: ReachingSource| s.slot is Some && s.segment is Some;
    let reach = |s: ReachingSource|
        PeriodicReach { slot: s.slot->0, ohms: s.impedance.plus(s.path), segment: s.segment->0 };
    if reaching.len() > 0 {
        every_clock_that_reaches_is_listed(reaching.drop_last());
    }
    assert(periodic_reach(reaching) =~= reaching.filter(clock).map_values(reach));
}

/// The segment that leads is that of a slot no other has fewer ohms than.
pub proof fn the_nearest_clock_leads(list: Seq<PeriodicReach>, at: int)
    requires
        0 <= at < list.len(),
        forall|j: int|
            0 <= j < list.len() && j != at ==> (#[trigger] list[j]).ohms.key()
                > list[at].ohms.key() || (list[j].ohms.key() == list[at].ohms.key() && list[j].slot
                > list[at].slot),
    ensures
        leading_segment(list) == Some(list[at].segment),
{
    assert(leads(list, at));
    let other = choose|k: int| leads(list, k);
    assert(leads(list, other));
    if other != at {
        assert(list[other].ohms.key() > list[at].ohms.key() || (list[other].ohms.key()
            == list[at].ohms.key() && list[other].slot > list[at].slot));
        assert(list[at].ohms.key() > list[other].ohms.key() || (list[at].ohms.key()
            == list[other].ohms.key() && list[at].slot >= list[other].slot));
    }
}

/// A root one clock decides, its two phases at two levels or two voltages, is a
/// square wave: the high phase's level high, the low phase's low, each phase's
/// own voltage, and no one voltage unless the wave is held, which rests low.
pub proof fn a_decided_clock_is_a_square_wave(
    r: RootResult,
    hi: PhaseRootView,
    lo: PhaseRootView,
)
    requires
        r@ == combined(hi, lo),
        union_list(hi.contending, lo.contending).len() < 2,
        !hi.fought,
        !lo.fought,
        hi.periodic_decides || lo.periodic_decides,
        state_level(hi.state) is Some,
        state_level(lo.state) is Some,
        hi.volts != lo.volts || state_level(hi.state) != state_level(lo.state),
        hi.periodic.len() + lo.periodic.len() > 0,
    ensures
        r.state is Periodic,
        r.state->hi == state_level(hi.state)->0,
        r.state->lo == state_level(lo.state)->0,
        Some(r.state->segment) == leading_segment(hi.periodic + lo.periodic),
        r.volts.phases == Some((hi.volts, lo.volts)),
        r.state->segment.freq_hz == 0 ==> r.volts.dc == lo.volts,
        r.state->segment.freq_hz != 0 ==> r.volts.dc is None,
        r.ambiguous is None,
{
    assert((hi.periodic + lo.periodic).len() > 0);
}

/// A root that is the same in both phases publishes what it is: its state and
/// its one voltage.
pub proof fn a_root_no_phase_moves_is_no_wave(r: RootResult, phase: PhaseRootView)
    requires
        r@ == combined(phase, phase),
        union_list(phase.contending, phase.contending).len() < 2,
        !phase.fought,
    ensures
        r.state == phase.state,
        r.volts.dc == phase.volts,
        r.volts.phases is None,
        r.ambiguous is None,
{
}

/// A phase that fought, or two clocks that contend, leave the root no level and
/// no voltage.
pub proof fn a_fought_phase_names_no_voltage(r: RootResult, hi: PhaseRootView, lo: PhaseRootView)
    requires
        r@ == combined(hi, lo),
        hi.fought || lo.fought || union_list(hi.contending, lo.contending).len() >= 2,
    ensures
        r.state == NetState::Contention,
        r.volts.dc is None,
        r.volts.phases is None,
        r.fight is Some,
{
    assert(r@.fight is Some);
}

/// A root a clock decides floats where one of its phases has no level.
pub proof fn a_phase_without_a_level_floats_the_root(
    r: RootResult,
    hi: PhaseRootView,
    lo: PhaseRootView,
)
    requires
        r@ == combined(hi, lo),
        union_list(hi.contending, lo.contending).len() < 2,
        !hi.fought,
        !lo.fought,
        hi.periodic_decides || lo.periodic_decides,
        hi.volts != lo.volts || hi.state != lo.state,
        state_level(hi.state) is None || state_level(lo.state) is None,
    ensures
        r.state == NetState::Floating,
        r.volts.dc is None,
        r.volts.phases is None,
{
}

/// The clocks that contend on a root are the periodic slots of less than a
/// kilo-ohm in all that no source outweighs ten times, in order.
pub proof fn the_clocks_that_contend(reaching: Seq<ReachingSource>, at: int)
    requires
        wins(reaching, at),
    ensures
        contending_slots(reaching) == reaching.filter(
            |s: ReachingSource|
                s.slot is Some && !weak(s) && !(total(reaching[at]).below(total(s)) && total(
                    s,
                ).at_least(total(reaching[at]).multiplied(10))) && s.segment is Some,
        ).map_values(|s: ReachingSource| s.slot->0),
{
    winner_is_strongest(reaching, at);
    let bar = bar_of(reaching);
    let keep = |s: ReachingSource| !s.pull() && !s.loses_to(bar) && periodic_source(s);
    slots_are_filtered(reaching, keep);
    let a = |s: ReachingSource| s.slot is Some && keep(s);
    let b = |s: ReachingSource|
        s.slot is Some && !weak(s) && !(total(reaching[at]).below(total(s)) && total(s).at_least(
            total(reaching[at]).multiplied(10),
        )) && s.segment is Some;
    assert forall|s: ReachingSource| #[trigger] a(s) == b(s) by {}
    assert(a =~= b);
}

/// A phase's record is its outcome: its state, its voltage, its fight and the
/// voltage no input reads; it was a fight where it is contention, has such a
/// voltage, or was solved among drivers.
pub proof fn a_phase_records_its_outcome(outcome: RootOutcomeView, reaching: Seq<ReachingSource>)
    ensures
        phase_root(outcome, reaching).state == outcome.state,
        phase_root(outcome, reaching).volts == outcome.volts,
        phase_root(outcome, reaching).fight == outcome.fight,
        phase_root(outcome, reaching).ambiguous == outcome.ambiguous,
        phase_root(outcome, reaching).fought <==> outcome.state == NetState::Contention
            || outcome.ambiguous is Some || (outcome.solved && outcome.fight is Some),
        phase_root(outcome, reaching).contending == contending_slots(reaching),
        phase_root(outcome, reaching).periodic == periodic_reach(reaching),
{
}

/// What a fight over two phases names: every slot either phase names, and where
/// two clocks contend every strong slot of either, ascending and once.
pub proof fn a_fight_names_both_phases(
    hi: PhaseRootView,
    lo: PhaseRootView,
    slot: usize,
)
    ensures
        ({
            let r = combined(hi, lo);
            let contend = union_list(hi.contending, lo.contending).len() >= 2;
            let named = (hi.fight matches Some(a) && a.contains(slot)) || (lo.fight matches Some(b)
                && b.contains(slot));
            &&& r.fight matches Some(slots) ==> ascending(slots) || slots.len() == 0
            &&& contend ==> r.fight is Some && (r.fight->0.contains(slot) <==> named
                || hi.strong.contains(slot) || lo.strong.contains(slot))
            &&& !contend && (r.fight matches Some(slots)) ==> (r.fight->0.contains(slot) <==> named)
            &&& !contend && !hi.fought && !lo.fought ==> (r.fight is None <==> hi.fight is None
                && lo.fight is None)
            &&& !contend && (hi.fought || lo.fought) ==> r.ambiguous == (if hi.ambiguous is Some {
                hi.ambiguous
            } else {
                lo.ambiguous
            })
        }),
{
    union_properties(hi.contending, lo.contending);
    union_properties(hi.strong, lo.strong);
    let a = slots_or_none(hi.fight);
    let b = slots_or_none(lo.fight);
    union_properties(a, b);
    let fight = joined_fight(hi.fight, lo.fight);
    union_properties(union_list(hi.strong, lo.strong), slots_or_none(fight));
}

/// A clock decides a root exactly if a periodic slot is in the contest there: no
/// source outweighs it ten times, and it is less than a kilo-ohm in all or the
/// strongest source is not either.
pub proof fn a_clock_in_the_contest_decides(
    outcome: RootOutcomeView,
    reaching: Seq<ReachingSource>,
    at: int,
)
    requires
        wins(reaching, at),
    ensures
        phase_root(outcome, reaching).periodic_decides <==> exists|i: int|
            {
                let s = #[trigger] reaching[i];
                &&& 0 <= i < reaching.len()
                &&& s.slot is Some
                &&& s.segment is Some
                &&& !weak(s) || weak(reaching[at])
                &&& !(total(reaching[at]).below(total(s)) && total(s).at_least(
                    total(reaching[at]).multiplied(10),
                ))
            },
{
    winner_is_strongest(reaching, at);
    let bar = bar_of(reaching);
}

} // verus!
