//! What a rate that arrives makes of a root, and which rates do not.
use vstd::prelude::*;

use crate::coupling::{
    arrival_slots, crossed_at, first_refusal, overlaid, port_volts, refusal, refusals, refuses,
    ArrivalView, CouplingCrossing, CouplingNames,
};
use crate::diagnostics::FindingView;
use crate::net::{NetState, TheveninDrive};
use crate::phases::{RootResult, RootResultView};
use crate::quantity::{reactance_of, Quantity};
use crate::seqs::{ascending, union_list, union_properties};

verus! {

/// A capacitor stops a rate exactly where ten times its reactance is more than
/// what the far side presents, nothing rounded: `10 / (2 * pi * f * C)` over
/// the far ohms. A held wave passes, and so does any onto an open node.
pub proof fn a_capacitor_stops_what_it_impedes(crossing: CouplingCrossing, hz: u32, far: i64)
    ensures
        !refuses(crossing, 0),
        hz > 0 && crossing.far_ohms == Quantity::Finite(far) ==> (refuses(crossing, hz) <==> far * (
        6_283_185_307_179_586 * (hz as int * crossing.farads as int))
            < 10_000_000_000_000_000_000_000_000_000_000_000_000),
        crossing.far_ohms is Infinite ==> !refuses(crossing, hz),
{
}

/// The first capacitor that stops a rate is the one that is found; one that
/// none stops is refused by none.
pub proof fn the_first_capacitor_that_stops_is_found(
    crossings: Seq<CouplingCrossing>,
    hz: u32,
)
    ensures
        first_refusal(crossings, hz) is None <==> forall|i: int|
            0 <= i < crossings.len() ==> !refuses(#[trigger] crossings[i], hz),
        forall|i: int|
            0 <= i < crossings.len() && refuses(#[trigger] crossings[i], hz) && (forall|j: int|
                0 <= j < i ==> !refuses(#[trigger] crossings[j], hz)) ==> first_refusal(
                crossings,
                hz,
            ) == Some(crossings[i]),
    decreases crossings.len(),
{
    if crossings.len() > 0 {
        let rest = crossings.drop_first();
        the_first_capacitor_that_stops_is_found(rest, hz);
        if !refuses(crossings[0], hz) {
            assert forall|i: int| 0 <= i < crossings.len() && refuses(#[trigger] crossings[i], hz)
                && (forall|j: int|
                0 <= j < i ==> !refuses(#[trigger] crossings[j], hz)) implies first_refusal(
                crossings,
                hz,
            ) == Some(crossings[i]) by {
                assert(rest[i - 1] == crossings[i]);
                assert forall|j: int| 0 <= j < i - 1 implies !refuses(#[trigger] rest[j], hz) by {
                    assert(rest[j] == crossings[j + 1]);
                }
            }
            if first_refusal(rest, hz) is None {
                assert forall|i: int| 0 <= i < crossings.len() implies !refuses(
                    #[trigger] crossings[i],
                    hz,
                ) by {
                    if i > 0 {
                        assert(rest[i - 1] == crossings[i]);
                    }
                }
            } else {
                let i = choose|i: int| 0 <= i < rest.len() && refuses(#[trigger] rest[i], hz);
                assert(rest[i] == crossings[i + 1]);
            }
        }
    }
}

/// The rates that reach a root are those that arrive there and no capacitor
/// stopped, in order.
pub proof fn the_rates_that_cross_are_those_not_stopped(
    arrivals: Seq<ArrivalView>,
    root: usize,
)
    ensures
        crossed_at(arrivals, root) == arrivals.filter(
            |a: ArrivalView| a.root == root && refusal(a) is None,
        ),
    decreases arrivals.len(),
{
    reveal(Seq::filter);
    let keep = |a: ArrivalView| a.root == root && refusal(a) is None;
    if arrivals.len() > 0 {
        the_rates_that_cross_are_those_not_stopped(arrivals.drop_last(), root);
    }
    assert(crossed_at(arrivals, root) =~= arrivals.filter(keep));
}

/// Every rate a capacitor stops is found, once, by the net on its far side, the
/// capacitor, the rate, its reactance and what the far side presents; and
/// nothing else is.
pub proof fn every_stopped_rate_is_found(names: CouplingNames, arrivals: Seq<ArrivalView>)
    ensures
        refusals(names, arrivals) == arrivals.filter(
            |a: ArrivalView| refusal(a) is Some,
        ).map_values(
            |a: ArrivalView|
                (
                    refusal(a)->0.far_root,
                    FindingView::PeriodicNotCoupled {
                        net: names.nets[refusal(a)->0.far_root as int],
                        capacitor: names.capacitors[refusal(a)->0.capacitor as int],
                        hz: a.segment.freq_hz,
                        reactance_ohms: reactance_of(a.segment.freq_hz, refusal(a)->0.farads),
                        far_ohms: refusal(a)->0.far_ohms,
                    },
                ),
        ),
    decreases arrivals.len(),
{
    reveal(Seq::filter);
    let keep = |a: ArrivalView| refusal(a) is Some;
    let finding = |a: ArrivalView|
        (
            refusal(a)->0.far_root,
            FindingView::PeriodicNotCoupled {
                net: names.nets[refusal(a)->0.far_root as int],
                capacitor: names.capacitors[refusal(a)->0.capacitor as int],
                hz: a.segment.freq_hz,
                reactance_ohms: reactance_of(a.segment.freq_hz, refusal(a)->0.farads),
                far_ohms: refusal(a)->0.far_ohms,
            },
        );
    if arrivals.len() > 0 {
        every_stopped_rate_is_found(names, arrivals.drop_last());
    }
    assert(refusals(names, arrivals) =~= arrivals.filter(keep).map_values(finding));
}

/// A root no rate reaches, and one that is fought over, publishes what its own
/// cluster made of it.
pub proof fn a_root_without_a_rate_is_as_resolved(
    r: RootResult,
    result: RootResultView,
    driving: Seq<usize>,
    arrived: Seq<ArrivalView>,
)
    requires
        r@ == overlaid(result, arrived, driving),
        arrived.len() == 0 || result.state == NetState::Contention,
    ensures
        r.state == result.state,
        r.volts == result.volts,
        r.ambiguous == result.ambiguous,
        r@.fight == result.fight,
{
}

/// One rate alone on a root no clock drives shows with its own levels, its own
/// segment and its own swing, and at no one voltage.
pub proof fn one_rate_alone_shows_as_it_is(
    r: RootResult,
    result: RootResultView,
    arrival: ArrivalView,
)
    requires
        r@ == overlaid(result, seq![arrival], Seq::empty()),
        result.state != NetState::Contention,
    ensures
        r.state is Periodic,
        r.state->hi == arrival.hi,
        r.state->lo == arrival.lo,
        r.state->segment == arrival.segment,
        r.volts.dc is None,
        r.volts.phases == Some(arrival.swing),
        r@.fight == result.fight,
        r.ambiguous == result.ambiguous,
{
}

/// Two rates, or one onto a root a clock drives, contend: no level, no voltage,
/// and every slot among them is named, ascending, with those named already.
pub proof fn rates_that_meet_contend(
    r: RootResult,
    result: RootResultView,
    arrived: Seq<ArrivalView>,
    driving: Seq<usize>,
    slot: usize,
)
    requires
        r@ == overlaid(result, arrived, driving),
        result.state != NetState::Contention,
        arrived.len() >= 2 || (arrived.len() == 1 && driving.len() > 0),
    ensures
        r.state == NetState::Contention,
        r.volts.dc is None,
        r.volts.phases is None,
        r.fight is Some,
        ascending(r.fight->0@),
        r.fight->0@.contains(slot) <==> driving.contains(slot) || (exists|i: int|
            0 <= i < arrived.len() && (#[trigger] arrived[i]).slot == slot) || (result.fight matches Some(
            existing,
        ) && existing.contains(slot)),
{
    let slots = arrival_slots(arrived);
    let named = union_list(slots, driving);
    union_properties(slots, driving);
    assert(r@.fight is Some);
    assert(r.fight->0@ == r@.fight->0);
    assert(slots.contains(slot) <==> exists|i: int|
        0 <= i < arrived.len() && (#[trigger] arrived[i]).slot == slot) by {
        if slots.contains(slot) {
            let i = choose|i: int| 0 <= i < slots.len() && slots[i] == slot;
            assert(arrived[i].slot == slot);
        }
        if exists|i: int| 0 <= i < arrived.len() && (#[trigger] arrived[i]).slot == slot {
            let i = choose|i: int| 0 <= i < arrived.len() && (#[trigger] arrived[i]).slot == slot;
            assert(slots[i] == slot);
        }
    }
    if let Some(existing) = result.fight {
        union_properties(existing, named);
    }
}

/// A swing is the two ports' voltages, where they are numbers.
pub proof fn a_swing_is_between_the_ports(port: TheveninDrive)
    ensures
        port.volts is Finite ==> port_volts(port) == Some(port.volts),
        !(port.volts is Finite) ==> port_volts(port) is None,
{
}

} // verus!
