//! Source-strength projection: which source sets a node, and when a node
//! must be solved.
pub mod laws;

use vstd::prelude::*;

use crate::net::{
    ambiguous_volts, in_dead_band, level_of_volts, volts_level, Level, NetState, PeriodicSchedule,
    ESCALATION_IMPEDANCE_RATIO, WEAK_DRIVE_OHMS,
};
use crate::quantity::{Ohms, Quantity, Volts};

verus! {

/// One Thevenin source reaching a root, ranked by its total ohms.
#[derive(Debug, Clone, Copy, PartialEq, Eq, Structural)]
pub struct ReachingSource {
    /// The drive slot of a pad; `None` for a terminal.
    pub slot: Option<usize>,
    /// Open-circuit voltage.
    pub volts: Volts,
    /// The slot's own impedance; 0 for a terminal.
    pub impedance: Ohms,
    /// Minimum series resistance from the source's root to the ranked root.
    pub path: Ohms,
    /// The segment a periodic slot follows; `None` for every other source.
    pub segment: Option<PeriodicSchedule>,
}

/// A pull's lower bound.
pub open spec fn weak_drive() -> Ohms {
    Quantity::Finite(WEAK_DRIVE_OHMS)
}

impl ReachingSource {
    /// The source's own impedance and the path to it.
    pub open spec fn ohms(self) -> Ohms {
        self.impedance.plus(self.path)
    }

    /// The level its open-circuit voltage projects to.
    pub open spec fn spec_level(self) -> Level {
        volts_level(self.volts)
    }

    /// Whether it sits on the root, or reaches it through no resistance.
    pub open spec fn at_root(self) -> bool {
        self.path == Quantity::Finite(0)
    }

    /// Whether it is a pull: it never contends.
    pub open spec fn pull(self) -> bool {
        self.ohms().at_least(weak_drive())
    }

    /// Whether it loses to a source of `bar` ohms.
    pub open spec fn loses_to(self, bar: Ohms) -> bool {
        bar.below(self.ohms()) && self.ohms().at_least(bar.multiplied(ESCALATION_IMPEDANCE_RATIO as int))
    }

    /// Whether it takes part in a contest the strongest source of which has
    /// `bar` ohms: it does not lose, and it is no pull against a driver.
    pub open spec fn in_contest(self, bar: Ohms) -> bool {
        !self.loses_to(bar) && (bar.at_least(weak_drive()) || !self.pull())
    }

    /// The ohms a `Pulled` projection reports with this source as the winner.
    pub open spec fn reported_ohms(self) -> Ohms {
        if self.impedance.at_least(weak_drive()) {
            self.ohms()
        } else {
            self.path
        }
    }

    /// Total ohms: the source's own impedance and the path to it.
    pub fn total(&self) -> (r: Ohms)
        ensures
            r == self.ohms(),
    {
        self.impedance.add_to(self.path)
    }

    /// The level its open-circuit voltage projects to.
    pub fn level(&self) -> (r: Level)
        ensures
            r == self.spec_level(),
    {
        level_of_volts(self.volts)
    }

    /// Whether it sits on the root.
    pub fn on_root(&self) -> (r: bool)
        ensures
            r == self.at_root(),
    {
        self.path == Quantity::Finite(0)
    }

    /// Whether it is a pull.
    pub fn is_pull(&self) -> (r: bool)
        ensures
            r == self.pull(),
    {
        self.total().ge(Quantity::Finite(WEAK_DRIVE_OHMS))
    }

    /// Whether it loses to a source of `bar` ohms.
    pub fn loses(&self, bar: Ohms) -> (r: bool)
        ensures
            r == self.loses_to(bar),
    {
        bar.lt(self.total()) && self.total().ge(bar.times(ESCALATION_IMPEDANCE_RATIO))
    }

    /// Whether it takes part in a contest against a bar.
    pub fn contends(&self, bar: Ohms) -> (r: bool)
        ensures
            r == self.in_contest(bar),
    {
        !self.loses(bar) && (bar.ge(Quantity::Finite(WEAK_DRIVE_OHMS)) || !self.is_pull())
    }

    /// The ohms a `Pulled` projection reports with this source as the winner.
    pub fn pulled_ohms(&self) -> (r: Ohms)
        ensures
            r == self.reported_ohms(),
    {
        if self.impedance.ge(Quantity::Finite(WEAK_DRIVE_OHMS)) {
            self.total()
        } else {
            self.path
        }
    }
}

/// The strongest source: the least total ohms, the earliest among equals.
pub open spec fn is_strongest(reaching: Seq<ReachingSource>, at: int) -> bool {
    &&& 0 <= at < reaching.len()
    &&& forall|j: int|
        0 <= j < reaching.len() ==> (#[trigger] reaching[j]).ohms().key()
            >= reaching[at].ohms().key()
    &&& forall|j: int| 0 <= j < at ==> (#[trigger] reaching[j]).ohms().key() > reaching[at].ohms().key()
}

/// The position of the strongest source.
pub open spec fn strongest_at(reaching: Seq<ReachingSource>) -> int {
    choose|at: int| is_strongest(reaching, at)
}

/// There is at most one strongest source.
pub proof fn strongest_unique(reaching: Seq<ReachingSource>, a: int, b: int)
    requires
        is_strongest(reaching, a),
        is_strongest(reaching, b),
    ensures
        a == b,
{
    if a < b {
        assert(reaching[a].ohms().key() > reaching[b].ohms().key());
    } else if b < a {
        assert(reaching[b].ohms().key() > reaching[a].ohms().key());
    }
}

/// The bar a contest is judged against: the strongest source's total ohms.
pub open spec fn bar_of(reaching: Seq<ReachingSource>) -> Ohms {
    if reaching.len() == 0 {
        Quantity::Infinite
    } else {
        reaching[strongest_at(reaching)].ohms()
    }
}

/// The slots of the sources `keep` holds of, in order; a terminal has none.
pub open spec fn slots_where(
    reaching: Seq<ReachingSource>,
    keep: spec_fn(ReachingSource) -> bool,
) -> Seq<usize>
    decreases reaching.len(),
{
    if reaching.len() == 0 {
        Seq::empty()
    } else {
        let rest = slots_where(reaching.drop_last(), keep);
        let last = reaching.last();
        match last.slot {
            Some(slot) => if keep(last) {
                rest.push(slot)
            } else {
                rest
            },
            None => rest,
        }
    }
}

/// The slots that drive the root strongly.
pub open spec fn strong_slots(reaching: Seq<ReachingSource>) -> Seq<usize> {
    slots_where(reaching, |s: ReachingSource| !s.pull())
}

/// Whether two sources of the contest project to different levels, so the
/// root must be solved.
pub open spec fn contest_disagrees(reaching: Seq<ReachingSource>) -> bool {
    let bar = bar_of(reaching);
    let level = reaching[strongest_at(reaching)].spec_level();
    exists|i: int|
        0 <= i < reaching.len() && (#[trigger] reaching[i]).in_contest(bar)
            && reaching[i].spec_level() != level
}

/// Whether a driver lost to the strongest one while disagreeing with it.
pub open spec fn driver_silenced(reaching: Seq<ReachingSource>) -> bool {
    let bar = bar_of(reaching);
    let level = reaching[strongest_at(reaching)].spec_level();
    &&& !bar.at_least(weak_drive())
    &&& exists|i: int|
        0 <= i < reaching.len() && (#[trigger] reaching[i]).loses_to(bar) && !reaching[i].pull()
            && reaching[i].spec_level() != level
}

/// What the ranking decided for one root.
#[derive(Debug)]
pub struct RootOutcome {
    /// The state.
    pub state: NetState,
    /// The voltage the node is handed, where one is named.
    pub volts: Option<Volts>,
    /// The slots to name, when strong sources fought.
    pub fight: Option<Vec<usize>>,
    /// The solved voltage, when it fell inside the dead band.
    pub ambiguous: Option<Volts>,
    /// The contest disagreed and the root was solved.
    pub solved: bool,
}

/// [`RootOutcome`] with its fight as a sequence.
#[verifier::ext_equal]
pub struct RootOutcomeView {
    /// The state.
    pub state: NetState,
    /// The voltage the node is handed.
    pub volts: Option<Volts>,
    /// The slots to name.
    pub fight: Option<Seq<usize>>,
    /// The solved voltage inside the dead band.
    pub ambiguous: Option<Volts>,
    /// Whether the root was solved.
    pub solved: bool,
}

/// An optional slot list as a sequence.
pub open spec fn fight_view(fight: Option<Vec<usize>>) -> Option<Seq<usize>> {
    match fight {
        Some(slots) => Some(slots@),
        None => None,
    }
}

impl View for RootOutcome {
    type V = RootOutcomeView;

    open spec fn view(&self) -> RootOutcomeView {
        RootOutcomeView {
            state: self.state,
            volts: self.volts,
            fight: fight_view(self.fight),
            ambiguous: self.ambiguous,
            solved: self.solved,
        }
    }
}

/// The voltage a state names by itself.
pub open spec fn named_volts(state: NetState) -> Option<Volts> {
    match state {
        NetState::Analog(v) => Some(v),
        _ => None,
    }
}

/// The voltage a state names by itself.
pub fn volts_named(state: NetState) -> (r: Option<Volts>)
    ensures
        r == named_volts(state),
{
    match state {
        NetState::Analog(v) => Some(v),
        _ => None,
    }
}

/// A state with nothing to report.
pub open spec fn quiet_outcome(state: NetState) -> RootOutcomeView {
    RootOutcomeView {
        state,
        volts: named_volts(state),
        fight: None,
        ambiguous: None,
        solved: false,
    }
}

impl RootOutcome {
    /// A state with nothing to report, and the voltage it names.
    pub fn quiet(state: NetState) -> (r: RootOutcome)
        ensures
            r@ == quiet_outcome(state),
    {
        RootOutcome {
            state,
            volts: volts_named(state),
            fight: None,
            ambiguous: None,
            solved: false,
        }
    }
}

/// The state the strongest source projects where the contest agrees: a
/// terminal on the root is its voltage, a slot inside the dead band has no
/// level and is its voltage too, a strong slot on the root drives it, and
/// anything else pulls it.
pub open spec fn projected_state(strongest: ReachingSource) -> NetState {
    if strongest.at_root() && strongest.slot is None {
        NetState::Analog(strongest.volts)
    } else if strongest.slot is Some && in_dead_band(strongest.volts) {
        NetState::Analog(strongest.volts)
    } else if strongest.at_root() && strongest.impedance.below(weak_drive()) {
        NetState::Driven(strongest.spec_level())
    } else {
        NetState::Pulled(strongest.spec_level(), strongest.reported_ohms())
    }
}

/// Rule 2 for one root: what the sources reaching it, in canonical order,
/// make of it, `solved` being the voltage the cluster solve gave the root
/// (read only where the contest disagrees).
///
/// - Nothing reaches it: it floats.
/// - The contest agrees: the strongest source wins, and a driver that lost
///   while disagreeing is a fight.
/// - The contest disagrees: the root takes the solved voltage. Among drivers
///   that is a fight, and a voltage inside the dead band is contention; among
///   pulls alone it is a divider and no finding.
pub open spec fn root_outcome(
    reaching: Seq<ReachingSource>,
    solved: Option<Volts>,
) -> RootOutcomeView {
    if reaching.len() == 0 {
        quiet_outcome(NetState::Floating)
    } else {
        let strongest = reaching[strongest_at(reaching)];
        let strong_contest = !bar_of(reaching).at_least(weak_drive());
        if !contest_disagrees(reaching) {
            RootOutcomeView {
                state: projected_state(strongest),
                volts: Some(strongest.volts),
                fight: if driver_silenced(reaching) {
                    Some(strong_slots(reaching))
                } else {
                    None
                },
                ambiguous: None,
                solved: false,
            }
        } else {
            match solved {
                None => quiet_outcome(NetState::Floating),
                Some(volts) => if !strong_contest {
                    RootOutcomeView { solved: true, ..quiet_outcome(NetState::Analog(volts)) }
                } else {
                    RootOutcomeView {
                        state: if in_dead_band(volts) {
                            NetState::Contention
                        } else {
                            NetState::Analog(volts)
                        },
                        volts: Some(volts),
                        fight: Some(strong_slots(reaching)),
                        ambiguous: if in_dead_band(volts) {
                            Some(volts)
                        } else {
                            None
                        },
                        solved: true,
                    }
                },
            }
        }
    }
}

/// The position of the strongest source.
pub fn strongest(reaching: &Vec<ReachingSource>) -> (at: usize)
    requires
        reaching@.len() > 0,
    ensures
        is_strongest(reaching@, at as int),
        at == strongest_at(reaching@),
{
    let mut at: usize = 0;
    let mut i: usize = 1;
    while i < reaching.len()
        invariant
            at < i <= reaching@.len(),
            forall|j: int|
                0 <= j < i ==> (#[trigger] reaching@[j]).ohms().key()
                    >= reaching@[at as int].ohms().key(),
            forall|j: int|
                0 <= j < at ==> (#[trigger] reaching@[j]).ohms().key()
                    > reaching@[at as int].ohms().key(),
        decreases reaching@.len() - i,
    {
        if reaching[i].total().precedes(reaching[at].total()) {
            at = i;
        }
        i += 1;
    }
    assert(is_strongest(reaching@, at as int));
    proof {
        strongest_unique(reaching@, at as int, strongest_at(reaching@));
    }
    at
}

/// The bar a contest is judged against.
pub fn contest_bar(reaching: &Vec<ReachingSource>) -> (bar: Ohms)
    ensures
        bar == bar_of(reaching@),
{
    if reaching.len() == 0 {
        Quantity::Infinite
    } else {
        let at: usize = strongest(reaching);
        reaching[at].total()
    }
}

/// The slots of the strong sources, in order.
pub fn strong_slot_list(reaching: &Vec<ReachingSource>) -> (r: Vec<usize>)
    ensures
        r@ == strong_slots(reaching@),
{
    let mut r: Vec<usize> = Vec::new();
    let mut i: usize = 0;
    let ghost keep = |s: ReachingSource| !s.pull();
    assert(reaching@.take(0) =~= Seq::<ReachingSource>::empty());
    while i < reaching.len()
        invariant
            i <= reaching@.len(),
            keep == (|s: ReachingSource| !s.pull()),
            r@ == slots_where(reaching@.take(i as int), keep),
        decreases reaching@.len() - i,
    {
        assert(reaching@.take(i + 1).drop_last() =~= reaching@.take(i as int));
        if let Some(slot) = reaching[i].slot {
            if !reaching[i].is_pull() {
                r.push(slot);
            }
        }
        i += 1;
    }
    assert(reaching@.take(i as int) =~= reaching@);
    r
}

/// Whether the root must be solved: two sources of its contest disagree.
pub fn needs_solve(reaching: &Vec<ReachingSource>) -> (r: bool)
    ensures
        r == (reaching@.len() > 0 && contest_disagrees(reaching@)),
{
    if reaching.len() == 0 {
        return false;
    }
    let at: usize = strongest(reaching);
    let bar = reaching[at].total();
    let level = reaching[at].level();
    let mut i: usize = 0;
    while i < reaching.len()
        invariant
            i <= reaching@.len(),
            reaching@.len() > 0,
            bar == bar_of(reaching@),
            level == reaching@[strongest_at(reaching@)].spec_level(),
            forall|j: int|
                0 <= j < i ==> !((#[trigger] reaching@[j]).in_contest(bar)
                    && reaching@[j].spec_level() != level),
        decreases reaching@.len() - i,
    {
        if reaching[i].contends(bar) && reaching[i].level() != level {
            assert(reaching@[i as int].in_contest(bar));
            return true;
        }
        i += 1;
    }
    false
}

/// Whether a driver lost to the strongest one while disagreeing with it.
fn silenced(reaching: &Vec<ReachingSource>) -> (r: bool)
    requires
        reaching@.len() > 0,
    ensures
        r == driver_silenced(reaching@),
{
    let at: usize = strongest(reaching);
    let bar = reaching[at].total();
    let level = reaching[at].level();
    if bar.ge(Quantity::Finite(WEAK_DRIVE_OHMS)) {
        return false;
    }
    let mut i: usize = 0;
    while i < reaching.len()
        invariant
            i <= reaching@.len(),
            reaching@.len() > 0,
            bar == bar_of(reaching@),
            !bar.at_least(weak_drive()),
            level == reaching@[strongest_at(reaching@)].spec_level(),
            forall|j: int|
                0 <= j < i ==> !((#[trigger] reaching@[j]).loses_to(bar) && !reaching@[j].pull()
                    && reaching@[j].spec_level() != level),
        decreases reaching@.len() - i,
    {
        if reaching[i].loses(bar) && !reaching[i].is_pull() && reaching[i].level() != level {
            assert(reaching@[i as int].loses_to(bar));
            return true;
        }
        i += 1;
    }
    false
}

/// The source-strength projection for one root. `solved` is read only where
/// [`needs_solve`] says the contest disagrees.
pub fn project_root(reaching: &Vec<ReachingSource>, solved: Option<Volts>) -> (r: RootOutcome)
    ensures
        r@ == root_outcome(reaching@, solved),
{
    if reaching.len() == 0 {
        return RootOutcome::quiet(NetState::Floating);
    }
    let at: usize = strongest(reaching);
    let top = reaching[at];
    let strong_contest = !top.total().ge(Quantity::Finite(WEAK_DRIVE_OHMS));
    if !needs_solve(reaching) {
        let state = if top.on_root() && top.slot.is_none() {
            NetState::Analog(top.volts)
        } else if top.slot.is_some() && ambiguous_volts(top.volts) {
            NetState::Analog(top.volts)
        } else if top.on_root() && top.impedance.lt(Quantity::Finite(WEAK_DRIVE_OHMS)) {
            NetState::Driven(top.level())
        } else {
            NetState::Pulled(top.level(), top.pulled_ohms())
        };
        let fight = if silenced(reaching) {
            Some(strong_slot_list(reaching))
        } else {
            None
        };
        return RootOutcome { state, volts: Some(top.volts), fight, ambiguous: None, solved: false };
    }
    match solved {
        None => RootOutcome::quiet(NetState::Floating),
        Some(volts) => if !strong_contest {
            RootOutcome {
                state: NetState::Analog(volts),
                volts: Some(volts),
                fight: None,
                ambiguous: None,
                solved: true,
            }
        } else if ambiguous_volts(volts) {
            RootOutcome {
                state: NetState::Contention,
                volts: Some(volts),
                fight: Some(strong_slot_list(reaching)),
                ambiguous: Some(volts),
                solved: true,
            }
        } else {
            RootOutcome {
                state: NetState::Analog(volts),
                volts: Some(volts),
                fight: Some(strong_slot_list(reaching)),
                ambiguous: None,
                solved: true,
            }
        },
    }
}

/// A pull never contends: beside a driver it takes no part in the contest.
pub proof fn pull_never_contends(reaching: Seq<ReachingSource>, at: int)
    requires
        0 <= at < reaching.len(),
        reaching[at].pull(),
        !bar_of(reaching).at_least(weak_drive()),
    ensures
        !reaching[at].in_contest(bar_of(reaching)),
{
}

/// A root one source reaches is never solved and never fought over.
pub proof fn single_source_never_fights(source: ReachingSource, solved: Option<Volts>)
    requires
        source.impedance.finite(),
        source.path.finite(),
    ensures
        !contest_disagrees(seq![source]),
        root_outcome(seq![source], solved).fight is None,
        root_outcome(seq![source], solved).volts == Some(source.volts),
{
    let reaching = seq![source];
    assert(is_strongest(reaching, 0));
    strongest_unique(reaching, 0, strongest_at(reaching));
    assert(!contest_disagrees(reaching));
    assert(!driver_silenced(reaching));
}

/// A driver that disagrees with one at least the escalation ratio stronger
/// loses to it: where no closer source disagrees, the root takes the strongest
/// source's own projection whatever a solve would say, and the fight names
/// every driver.
pub proof fn a_far_weaker_driver_loses(
    reaching: Seq<ReachingSource>,
    at: int,
    solved: Option<Volts>,
)
    requires
        0 <= at < reaching.len(),
        !bar_of(reaching).at_least(weak_drive()),
        reaching[at].loses_to(bar_of(reaching)),
        !reaching[at].pull(),
        reaching[at].spec_level() != reaching[strongest_at(reaching)].spec_level(),
        forall|i: int|
            0 <= i < reaching.len() && (#[trigger] reaching[i]).spec_level()
                != reaching[strongest_at(reaching)].spec_level() ==> reaching[i].loses_to(
                bar_of(reaching),
            ) || reaching[i].pull(),
    ensures
        root_outcome(reaching, solved).state == projected_state(reaching[strongest_at(reaching)]),
        root_outcome(reaching, solved).fight == Some(strong_slots(reaching)),
        !root_outcome(reaching, solved).solved,
{
    assert(!contest_disagrees(reaching));
    assert(driver_silenced(reaching));
}

/// Drivers that disagree within the escalation ratio divide the node: it takes
/// the solved voltage, a fight is reported, and a voltage no input reads as a
/// level is contention.
pub proof fn comparable_drivers_divide_the_node(
    reaching: Seq<ReachingSource>,
    at: int,
    solved: Volts,
)
    requires
        0 <= at < reaching.len(),
        !bar_of(reaching).at_least(weak_drive()),
        reaching[at].in_contest(bar_of(reaching)),
        reaching[at].spec_level() != reaching[strongest_at(reaching)].spec_level(),
    ensures
        root_outcome(reaching, Some(solved)).solved,
        root_outcome(reaching, Some(solved)).volts == Some(solved),
        root_outcome(reaching, Some(solved)).fight == Some(strong_slots(reaching)),
        root_outcome(reaching, Some(solved)).state == (if in_dead_band(solved) {
            NetState::Contention
        } else {
            NetState::Analog(solved)
        }),
{
    assert(contest_disagrees(reaching));
}

/// Pulls that disagree are a divider and no finding.
pub proof fn disagreeing_pulls_are_a_divider(reaching: Seq<ReachingSource>, solved: Volts)
    requires
        reaching.len() > 0,
        bar_of(reaching).at_least(weak_drive()),
        contest_disagrees(reaching),
    ensures
        root_outcome(reaching, Some(solved)).state == NetState::Analog(solved),
        root_outcome(reaching, Some(solved)).fight is None,
        root_outcome(reaching, Some(solved)).ambiguous is None,
{
}

/// What the solve says is read only where the contest disagrees.
pub proof fn an_agreeing_contest_reads_no_solve(
    reaching: Seq<ReachingSource>,
    one: Option<Volts>,
    other: Option<Volts>,
)
    requires
        reaching.len() == 0 || !contest_disagrees(reaching),
    ensures
        root_outcome(reaching, one) == root_outcome(reaching, other),
{
}

} // verus!
