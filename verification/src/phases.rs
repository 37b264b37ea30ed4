//! Periodic drives: a root resolved once per phase, combined into one state.
pub mod laws;

use vstd::prelude::*;

use crate::net::{
    level_of, same_figure, same_state, state_level, NetState, NetVolts, PeriodicSchedule,
};
use crate::quantity::{Ohms, Volts};
use crate::ranking::{
    bar_of, contest_bar, fight_view, slots_where, strong_slot_list, strong_slots, ReachingSource,
    RootOutcome, RootOutcomeView,
};
use crate::seqs::{slot_union, union_list};

verus! {

/// A periodic slot reaching a root: the slot, its total ohms in a phase, and
/// the segment it follows.
#[derive(Debug, Clone, Copy, PartialEq, Eq, Structural)]
pub struct PeriodicReach {
    /// The slot.
    pub slot: usize,
    /// Its total ohms.
    pub ohms: Ohms,
    /// Its segment.
    pub segment: PeriodicSchedule,
}

/// What one phase decided for one root, with what combining the phases needs
/// of the ranking beside it.
#[derive(Debug)]
pub struct PhaseRoot {
    /// The phase's state.
    pub state: NetState,
    /// The voltage the phase resolved the root to.
    pub volts: Option<Volts>,
    /// The slots that fought.
    pub fight: Option<Vec<usize>>,
    /// The voltage inside the dead band.
    pub ambiguous: Option<Volts>,
    /// The phase was itself a fight.
    pub fought: bool,
    /// Every strong slot reaching the root in this phase.
    pub strong: Vec<usize>,
    /// The periodic slots that contend: strong, and not losing.
    pub contending: Vec<usize>,
    /// Every periodic slot reaching the root.
    pub periodic: Vec<PeriodicReach>,
    /// A periodic slot is in this phase's contest.
    pub periodic_decides: bool,
}

/// [`PhaseRoot`] with its lists as sequences.
#[verifier::ext_equal]
pub struct PhaseRootView {
    /// The phase's state.
    pub state: NetState,
    /// The voltage the phase resolved the root to.
    pub volts: Option<Volts>,
    /// The slots that fought.
    pub fight: Option<Seq<usize>>,
    /// The voltage inside the dead band.
    pub ambiguous: Option<Volts>,
    /// The phase was itself a fight.
    pub fought: bool,
    /// Every strong slot reaching the root.
    pub strong: Seq<usize>,
    /// The periodic slots that contend.
    pub contending: Seq<usize>,
    /// Every periodic slot reaching the root.
    pub periodic: Seq<PeriodicReach>,
    /// A periodic slot is in this phase's contest.
    pub periodic_decides: bool,
}

impl View for PhaseRoot {
    type V = PhaseRootView;

    open spec fn view(&self) -> PhaseRootView {
        PhaseRootView {
            state: self.state,
            volts: self.volts,
            fight: fight_view(self.fight),
            ambiguous: self.ambiguous,
            fought: self.fought,
            strong: self.strong@,
            contending: self.contending@,
            periodic: self.periodic@,
            periodic_decides: self.periodic_decides,
        }
    }
}

/// Whether a source is a periodic slot.
pub open spec fn periodic_source(source: ReachingSource) -> bool {
    source.slot is Some && source.segment is Some
}

/// Every periodic slot among the sources, in order.
pub open spec fn periodic_reach(reaching: Seq<ReachingSource>) -> Seq<PeriodicReach>
    decreases reaching.len(),
{
    if reaching.len() == 0 {
        Seq::empty()
    } else {
        let rest = periodic_reach(reaching.drop_last());
        let last = reaching.last();
        match (last.slot, last.segment) {
            (Some(slot), Some(segment)) => rest.push(
                PeriodicReach { slot, ohms: last.ohms(), segment },
            ),
            _ => rest,
        }
    }
}

/// The periodic slots that contend on the root.
pub open spec fn contending_slots(reaching: Seq<ReachingSource>) -> Seq<usize> {
    let bar = bar_of(reaching);
    slots_where(
        reaching,
        |s: ReachingSource| !s.pull() && !s.loses_to(bar) && periodic_source(s),
    )
}

/// Whether a periodic slot is in the contest.
pub open spec fn periodic_in_contest(reaching: Seq<ReachingSource>) -> bool {
    exists|i: int|
        0 <= i < reaching.len() && (#[trigger] reaching[i]).in_contest(bar_of(reaching))
            && periodic_source(reaching[i])
}

/// A phase's record: the outcome, and what the ranking says of the periodic
/// slots. A fight inside the dead band carries its ambiguous level whether
/// the root publishes contention or the operating point beside it.
pub open spec fn phase_root(
    outcome: RootOutcomeView,
    reaching: Seq<ReachingSource>,
) -> PhaseRootView {
    PhaseRootView {
        state: outcome.state,
        volts: outcome.volts,
        fight: outcome.fight,
        ambiguous: outcome.ambiguous,
        fought: outcome.state == NetState::Contention || outcome.ambiguous is Some || (
        outcome.solved && outcome.fight is Some),
        strong: strong_slots(reaching),
        contending: contending_slots(reaching),
        periodic: periodic_reach(reaching),
        periodic_decides: periodic_in_contest(reaching),
    }
}

impl PhaseRoot {
    /// The phase record of an outcome over the sources that reached it.
    pub fn of(outcome: RootOutcome, reaching: &Vec<ReachingSource>) -> (r: PhaseRoot)
        ensures
            r@ == phase_root(outcome@, reaching@),
    {
        let fought = outcome.state == NetState::Contention || outcome.ambiguous.is_some() || (
        outcome.solved && outcome.fight.is_some());
        let bar = contest_bar(reaching);
        let mut contending: Vec<usize> = Vec::new();
        let mut periodic: Vec<PeriodicReach> = Vec::new();
        let mut periodic_decides = false;
        let mut i: usize = 0;
        let ghost keep = |s: ReachingSource|
            !s.pull() && !s.loses_to(bar) && periodic_source(s);
        assert(reaching@.take(0) =~= Seq::<ReachingSource>::empty());
        while i < reaching.len()
            invariant
                i <= reaching@.len(),
                bar == bar_of(reaching@),
                keep == (|s: ReachingSource|
                    !s.pull() && !s.loses_to(bar) && periodic_source(s)),
                contending@ == slots_where(reaching@.take(i as int), keep),
                periodic@ == periodic_reach(reaching@.take(i as int)),
                periodic_decides <==> exists|j: int|
                    0 <= j < i && (#[trigger] reaching@[j]).in_contest(bar) && periodic_source(
                        reaching@[j],
                    ),
            decreases reaching@.len() - i,
        {
            assert(reaching@.take(i + 1).drop_last() =~= reaching@.take(i as int));
            assert(reaching@.take(i + 1).last() == reaching@[i as int]);
            let source = reaching[i];
            if let Some(slot) = source.slot {
                if let Some(segment) = source.segment {
                    if !source.is_pull() && !source.loses(bar) {
                        contending.push(slot);
                    }
                    periodic.push(PeriodicReach { slot, ohms: source.total(), segment });
                    if source.contends(bar) {
                        assert(reaching@[i as int].in_contest(bar));
                        periodic_decides = true;
                    }
                }
            }
            i += 1;
        }
        assert(reaching@.take(i as int) =~= reaching@);
        PhaseRoot {
            state: outcome.state,
            volts: outcome.volts,
            fight: outcome.fight,
            ambiguous: outcome.ambiguous,
            fought,
            strong: strong_slot_list(reaching),
            contending,
            periodic,
            periodic_decides,
        }
    }
}

/// What a pass publishes for one root.
#[derive(Debug)]
pub struct RootResult {
    /// The state.
    pub state: NetState,
    /// The slots to name, when sources fought.
    pub fight: Option<Vec<usize>>,
    /// The voltage inside the dead band.
    pub ambiguous: Option<Volts>,
    /// The voltage the node is handed.
    pub volts: NetVolts,
}

/// [`RootResult`] with its fight as a sequence.
#[verifier::ext_equal]
pub struct RootResultView {
    /// The state.
    pub state: NetState,
    /// The slots to name.
    pub fight: Option<Seq<usize>>,
    /// The voltage inside the dead band.
    pub ambiguous: Option<Volts>,
    /// The voltage the node is handed.
    pub volts: NetVolts,
}

impl View for RootResult {
    type V = RootResultView;

    open spec fn view(&self) -> RootResultView {
        RootResultView {
            state: self.state,
            fight: fight_view(self.fight),
            ambiguous: self.ambiguous,
            volts: self.volts,
        }
    }
}

/// An absent slot list is an empty one.
pub open spec fn slots_or_none(fight: Option<Seq<usize>>) -> Seq<usize> {
    match fight {
        Some(slots) => slots,
        None => Seq::empty(),
    }
}

/// The slots either phase names, ascending.
pub open spec fn joined_fight(hi: Option<Seq<usize>>, lo: Option<Seq<usize>>) -> Option<
    Seq<usize>,
> {
    if hi is None && lo is None {
        None
    } else {
        Some(union_list(slots_or_none(hi), slots_or_none(lo)))
    }
}

/// The strongest periodic reach: the least total ohms, then the earliest
/// slot, then the first listed.
pub open spec fn leads(list: Seq<PeriodicReach>, at: int) -> bool {
    &&& 0 <= at < list.len()
    &&& forall|j: int|
        0 <= j < list.len() ==> (#[trigger] list[j]).ohms.key() > list[at].ohms.key() || (
        list[j].ohms.key() == list[at].ohms.key() && list[j].slot >= list[at].slot)
    &&& forall|j: int|
        0 <= j < at ==> (#[trigger] list[j]).ohms.key() > list[at].ohms.key() || (
        list[j].ohms.key() == list[at].ohms.key() && list[j].slot > list[at].slot)
}

/// The segment of the strongest periodic slot.
pub open spec fn leading_segment(list: Seq<PeriodicReach>) -> Option<PeriodicSchedule> {
    if list.len() == 0 {
        None
    } else {
        Some(list[choose|at: int| leads(list, at)].segment)
    }
}

/// A root's two phases combined into what it publishes.
///
/// 1. Two periodic slots contend: contention, naming every strong slot.
/// 2. A phase that fought: contention for half of every cycle.
/// 3. No periodic slot decided the root, or the phases agree on one state at
///    one voltage: the high phase's state.
/// 4. A phase with no level floats the root.
/// 5. Both phases at one voltage and one level: the high phase's state.
/// 6. Otherwise a square wave with each phase's level and voltage, following
///    the strongest periodic slot's segment; a held segment rests at the low
///    phase's voltage.
pub open spec fn combined(hi: PhaseRootView, lo: PhaseRootView) -> RootResultView {
    let fight = joined_fight(hi.fight, lo.fight);
    let high = NetVolts { dc: hi.volts, phases: None };
    let high_result = RootResultView { state: hi.state, fight, ambiguous: None, volts: high };
    let one_voltage = hi.volts == lo.volts;
    if union_list(hi.contending, lo.contending).len() >= 2 {
        RootResultView {
            state: NetState::Contention,
            fight: Some(union_list(union_list(hi.strong, lo.strong), slots_or_none(fight))),
            ambiguous: None,
            volts: NetVolts::unnamed(),
        }
    } else if hi.fought || lo.fought {
        RootResultView {
            state: NetState::Contention,
            fight: Some(slots_or_none(fight)),
            ambiguous: if hi.ambiguous is Some {
                hi.ambiguous
            } else {
                lo.ambiguous
            },
            volts: NetVolts::unnamed(),
        }
    } else if !(hi.periodic_decides || lo.periodic_decides) || (one_voltage && hi.state
        == lo.state) {
        high_result
    } else if state_level(hi.state) is None || state_level(lo.state) is None {
        RootResultView {
            state: NetState::Floating,
            fight,
            ambiguous: None,
            volts: NetVolts::unnamed(),
        }
    } else if one_voltage && state_level(hi.state) == state_level(lo.state) {
        high_result
    } else {
        match leading_segment(hi.periodic + lo.periodic) {
            Some(segment) => RootResultView {
                state: NetState::Periodic {
                    hi: state_level(hi.state)->0,
                    lo: state_level(lo.state)->0,
                    segment,
                },
                fight,
                ambiguous: None,
                volts: NetVolts {
                    dc: if segment.freq_hz == 0 {
                        lo.volts
                    } else {
                        None
                    },
                    phases: Some((hi.volts, lo.volts)),
                },
            },
            None => high_result,
        }
    }
}

/// Whether `a` leads `b` among periodic slots.
fn before(a: &PeriodicReach, b: &PeriodicReach) -> (r: bool)
    ensures
        r == (a.ohms.key() < b.ohms.key() || (a.ohms.key() == b.ohms.key() && a.slot < b.slot)),
{
    a.ohms.precedes(b.ohms) || (!b.ohms.precedes(a.ohms) && a.slot < b.slot)
}

/// The segment of the strongest periodic slot of either phase.
fn leading(hi: &Vec<PeriodicReach>, lo: &Vec<PeriodicReach>) -> (r: Option<PeriodicSchedule>)
    ensures
        r == leading_segment(hi@ + lo@),
{
    let mut all: Vec<PeriodicReach> = Vec::new();
    let mut i: usize = 0;
    while i < hi.len()
        invariant
            i <= hi@.len(),
            all@ =~= hi@.take(i as int),
        decreases hi@.len() - i,
    {
        all.push(hi[i]);
        i += 1;
    }
    let mut k: usize = 0;
    while k < lo.len()
        invariant
            k <= lo@.len(),
            all@ =~= hi@ + lo@.take(k as int),
        decreases lo@.len() - k,
    {
        all.push(lo[k]);
        k += 1;
    }
    assert(all@ =~= hi@ + lo@);
    if all.len() == 0 {
        return None;
    }
    let mut at: usize = 0;
    let mut j: usize = 1;
    while j < all.len()
        invariant
            at < j <= all@.len(),
            forall|m: int|
                0 <= m < j ==> (#[trigger] all@[m]).ohms.key() > all@[at as int].ohms.key() || (
                all@[m].ohms.key() == all@[at as int].ohms.key() && all@[m].slot
                    >= all@[at as int].slot),
            forall|m: int|
                0 <= m < at ==> (#[trigger] all@[m]).ohms.key() > all@[at as int].ohms.key() || (
                all@[m].ohms.key() == all@[at as int].ohms.key() && all@[m].slot
                    > all@[at as int].slot),
        decreases all@.len() - j,
    {
        if before(&all[j], &all[at]) {
            at = j;
        }
        j += 1;
    }
    proof {
        assert(leads(all@, at as int));
        let other = choose|x: int| leads(all@, x);
        assert(leads(all@, other));
        if other < at {
            assert(all@[other].ohms.key() > all@[at as int].ohms.key() || all@[other].slot
                > all@[at as int].slot);
        } else if at < other {
            assert(all@[at as int].ohms.key() > all@[other].ohms.key() || all@[at as int].slot
                > all@[other].slot);
        }
    }
    Some(all[at].segment)
}

/// The slots either phase names.
fn join_fights(hi: &Option<Vec<usize>>, lo: &Option<Vec<usize>>) -> (r: Option<Vec<usize>>)
    ensures
        fight_view(r) == joined_fight(fight_view(*hi), fight_view(*lo)),
{
    let empty: Vec<usize> = Vec::new();
    match (hi, lo) {
        (None, None) => None,
        (Some(a), None) => Some(slot_union(a, &empty)),
        (None, Some(b)) => Some(slot_union(&empty, b)),
        (Some(a), Some(b)) => Some(slot_union(a, b)),
    }
}

/// Combine a root's two phases into the one state it publishes, with the
/// fight to report and the ambiguous level beside it.
pub fn combine_phases(hi: &PhaseRoot, lo: &PhaseRoot) -> (r: RootResult)
    ensures
        r@ == combined(hi@, lo@),
{
    let fight = join_fights(&hi.fight, &lo.fight);
    let contending = slot_union(&hi.contending, &lo.contending);
    if contending.len() >= 2 {
        let strong = slot_union(&hi.strong, &lo.strong);
        let empty: Vec<usize> = Vec::new();
        let named = match &fight {
            Some(slots) => slot_union(&strong, slots),
            None => slot_union(&strong, &empty),
        };
        return RootResult {
            state: NetState::Contention,
            fight: Some(named),
            ambiguous: None,
            volts: NetVolts::none(),
        };
    }
    if hi.fought || lo.fought {
        let named = match fight {
            Some(slots) => slots,
            None => Vec::new(),
        };
        let ambiguous = if hi.ambiguous.is_some() {
            hi.ambiguous
        } else {
            lo.ambiguous
        };
        return RootResult {
            state: NetState::Contention,
            fight: Some(named),
            ambiguous,
            volts: NetVolts::none(),
        };
    }
    let one_voltage = same_figure(hi.volts, lo.volts);
    let decided = hi.periodic_decides || lo.periodic_decides;
    if !decided || (one_voltage && same_state(&hi.state, &lo.state)) {
        return RootResult {
            state: hi.state,
            fight,
            ambiguous: None,
            volts: NetVolts::dc(hi.volts),
        };
    }
    match (level_of(hi.state), level_of(lo.state)) {
        (Some(level_hi), Some(level_lo)) => {
            if one_voltage && level_hi == level_lo {
                return RootResult {
                    state: hi.state,
                    fight,
                    ambiguous: None,
                    volts: NetVolts::dc(hi.volts),
                };
            }
            match leading(&hi.periodic, &lo.periodic) {
                Some(segment) => {
                    let dc = if segment.freq_hz == 0 {
                        lo.volts
                    } else {
                        None
                    };
                    RootResult {
                        state: NetState::Periodic { hi: level_hi, lo: level_lo, segment },
                        fight,
                        ambiguous: None,
                        volts: NetVolts { dc, phases: Some((hi.volts, lo.volts)) },
                    }
                },
                None => RootResult {
                    state: hi.state,
                    fight,
                    ambiguous: None,
                    volts: NetVolts::dc(hi.volts),
                },
            }
        },
        _ => RootResult {
            state: NetState::Floating,
            fight,
            ambiguous: None,
            volts: NetVolts::none(),
        },
    }
}

/// A root two periodic drivers contend on is contention in every phase
/// combination, whatever their segments say.
pub proof fn two_clocks_contend(hi: PhaseRootView, lo: PhaseRootView)
    requires
        union_list(hi.contending, lo.contending).len() >= 2,
    ensures
        combined(hi, lo).state == NetState::Contention,
{
}

/// A root no periodic drive decides publishes its high phase, unless a phase
/// fought.
pub proof fn losing_clock_is_no_clock(hi: PhaseRootView, lo: PhaseRootView)
    requires
        union_list(hi.contending, lo.contending).len() < 2,
        !hi.fought,
        !lo.fought,
        !hi.periodic_decides,
        !lo.periodic_decides,
    ensures
        combined(hi, lo).state == hi.state,
        combined(hi, lo).volts == (NetVolts { dc: hi.volts, phases: None }),
{
}

/// A clock a static driver fights in either phase is contention.
pub proof fn a_fought_clock_is_contention(hi: PhaseRootView, lo: PhaseRootView)
    requires
        hi.fought || lo.fought,
    ensures
        combined(hi, lo).state == NetState::Contention,
        combined(hi, lo).fight is Some,
{
}

/// A net publishes a square wave only where a periodic drive decides it, with
/// each phase's own level and the segment of the strongest periodic drive.
pub proof fn a_square_wave_follows_its_drive(hi: PhaseRootView, lo: PhaseRootView)
    requires
        !(hi.state is Periodic),
        combined(hi, lo).state is Periodic,
    ensures
        hi.periodic_decides || lo.periodic_decides,
        !hi.fought && !lo.fought,
        combined(hi, lo).state matches NetState::Periodic { hi: h, lo: l, segment } && state_level(
            hi.state,
        ) == Some(h) && state_level(lo.state) == Some(l) && leading_segment(
            hi.periodic + lo.periodic,
        ) == Some(segment),
{
}

} // verus!
