//! What the sources that reach a root make of it, in terms of their voltages
//! and ohms alone.
use vstd::prelude::*;

use crate::net::{Level, NetState};
use crate::quantity::{Ohms, Quantity, Volts};
use crate::ranking::{
    contest_disagrees, driver_silenced, is_strongest, root_outcome, slots_where, strong_slots,
    strongest_at, strongest_unique, ReachingSource, RootOutcome, RootOutcomeView,
};

verus! {

/// A source's own impedance and the path to it.
pub open spec fn total(source: ReachingSource) -> Ohms {
    source.impedance.plus(source.path)
}

/// One kilo-ohm or more in all.
pub open spec fn weak(source: ReachingSource) -> bool {
    total(source).at_least(Quantity::Finite(1_000_000_000))
}

/// A volt and a half or more.
pub open spec fn high(volts: Volts) -> bool {
    volts.at_least(Quantity::Finite(1_500_000_000_000))
}

/// More than eight tenths of a volt and less than two.
pub open spec fn no_level(volts: Volts) -> bool {
    Quantity::Finite(800_000_000_000).below(volts) && volts.below(
        Quantity::Finite(2_000_000_000_000),
    )
}

/// The source of least ohms, the first of those that have them.
pub open spec fn wins(reaching: Seq<ReachingSource>, at: int) -> bool {
    &&& 0 <= at < reaching.len()
    &&& forall|j: int|
        0 <= j < reaching.len() ==> total(reaching[at]).key() <= total(#[trigger] reaching[j]).key()
    &&& forall|j: int|
        0 <= j < at ==> total(reaching[at]).key() < total(#[trigger] reaching[j]).key()
}

/// Whether a source is out of the contest with the winner: ten times its ohms
/// away, or a pull beside a driver.
pub open spec fn out_of_contest(winner: ReachingSource, source: ReachingSource) -> bool {
    ||| total(winner).below(total(source)) && total(source).at_least(
        total(winner).multiplied(10),
    )
    ||| !weak(winner) && weak(source)
}

/// The slots of the strong sources, in order.
spec fn drivers(reaching: Seq<ReachingSource>) -> Seq<usize> {
    reaching.filter(|s: ReachingSource| s.slot is Some && !weak(s)).map_values(
        |s: ReachingSource| s.slot->0,
    )
}

/// The source of least ohms is the one that is ranked first.
pub proof fn winner_is_strongest(reaching: Seq<ReachingSource>, at: int)
    requires
        wins(reaching, at),
    ensures
        strongest_at(reaching) == at,
{
    assert forall|j: int| 0 <= j < reaching.len() implies (#[trigger] reaching[j]).ohms().key()
        >= reaching[at].ohms().key() by {
        assert(total(reaching[at]).key() <= total(reaching[j]).key());
    }
    assert forall|j: int| 0 <= j < at implies (#[trigger] reaching[j]).ohms().key()
        > reaching[at].ohms().key() by {
        assert(total(reaching[at]).key() < total(reaching[j]).key());
    }
    assert(is_strongest(reaching, at));
    strongest_unique(reaching, at, strongest_at(reaching));
}

/// The slots kept are those of the sources kept, in order.
pub proof fn slots_are_filtered(
    reaching: Seq<ReachingSource>,
    keep: spec_fn(ReachingSource) -> bool,
)
    ensures
        slots_where(reaching, keep) == reaching.filter(
            |s: ReachingSource| s.slot is Some && keep(s),
        ).map_values(|s: ReachingSource| s.slot->0),
    decreases reaching.len(),
{
    reveal(Seq::filter);
    let both = |s: ReachingSource| s.slot is Some && keep(s);
    let slot = |s: ReachingSource| s.slot->0;
    if reaching.len() > 0 {
        let front = reaching.drop_last();
        slots_are_filtered(front, keep);
        assert(slots_where(reaching, keep) =~= reaching.filter(both).map_values(slot));
    } else {
        assert(slots_where(reaching, keep) =~= reaching.filter(both).map_values(slot));
    }
}

proof fn drivers_are_strong_slots(reaching: Seq<ReachingSource>)
    ensures
        strong_slots(reaching) == drivers(reaching),
{
    let keep = |s: ReachingSource| !s.pull();
    slots_are_filtered(reaching, keep);
    let a = |s: ReachingSource| s.slot is Some && keep(s);
    let b = |s: ReachingSource| s.slot is Some && !weak(s);
    assert forall|s: ReachingSource| #[trigger] a(s) == b(s) by {}
    assert(a =~= b);
}

proof fn the_agreeing_do_not_disagree(reaching: Seq<ReachingSource>, at: int)
    requires
        wins(reaching, at),
        forall|j: int|
            0 <= j < reaching.len() && high((#[trigger] reaching[j]).volts) != high(
                reaching[at].volts,
            ) ==> out_of_contest(reaching[at], reaching[j]),
    ensures
        !contest_disagrees(reaching),
{
    winner_is_strongest(reaching, at);
    assert forall|i: int|
        0 <= i < reaching.len() && (#[trigger] reaching[i]).in_contest(
            reaching[at].ohms(),
        ) implies reaching[i].spec_level() == reaching[at].spec_level() by {
        if high(reaching[i].volts) != high(reaching[at].volts) {
            assert(out_of_contest(reaching[at], reaching[i]));
        }
    }
}

/// What an agreeing contest makes of a root: it takes the source of
/// least total ohms: the voltage handed on is its open-circuit voltage, and
/// the state is that voltage's own projection. A terminal on the root, and a
/// pad between the levels, is the voltage itself; a pad of less than a
/// kilo-ohm on the root drives its level; anything else pulls to it, through
/// the path, or through pad and path where the pad itself is weak.
pub proof fn the_strongest_source_ranks_the_root(
    r: RootOutcomeView,
    reaching: Seq<ReachingSource>,
    solved: Option<Volts>,
    at: int,
)
    requires
        r == root_outcome(reaching, solved),
        wins(reaching, at),
        forall|j: int|
            0 <= j < reaching.len() && high((#[trigger] reaching[j]).volts) != high(
                reaching[at].volts,
            ) ==> out_of_contest(reaching[at], reaching[j]),
    ensures
        r.volts == Some(reaching[at].volts),
        !r.solved,
        r.ambiguous is None,
        ({
            let top = reaching[at];
            let level = if high(top.volts) {
                Level::High
            } else {
                Level::Low
            };
            let on_root = top.path == Quantity::Finite(0);
            let weak_pad = top.impedance.at_least(Quantity::Finite(1_000_000_000));
            &&& r.state matches NetState::Driven(l) ==> l == level
            &&& r.state matches NetState::Pulled(l, _) ==> l == level
            &&& top.slot is None && on_root ==> r.state == NetState::Analog(top.volts)
            &&& top.slot is Some && no_level(top.volts) ==> r.state == NetState::Analog(top.volts)
            &&& top.slot is Some && !no_level(top.volts) && on_root && top.impedance.below(
                Quantity::Finite(1_000_000_000),
            ) ==> r.state == NetState::Driven(level)
            &&& !on_root && (top.slot is None || !no_level(top.volts)) ==> r.state
                == NetState::Pulled(
                level,
                if weak_pad {
                    total(top)
                } else {
                    top.path
                },
            )
            &&& top.slot is Some && !no_level(top.volts) && on_root && weak_pad ==> r.state
                == NetState::Pulled(level, total(top))
        }),
{
    winner_is_strongest(reaching, at);
    the_agreeing_do_not_disagree(reaching, at);
}

/// Where no two sources in the contest disagree, the root takes the source of
/// least total ohms: the voltage handed on is its open-circuit voltage, and
/// the state is that voltage's own projection. A terminal on the root, and a
/// pad between the levels, is the voltage itself; a pad of less than a
/// kilo-ohm on the root drives its level; anything else pulls to it, through
/// the path, or through pad and path where the pad itself is weak.
pub proof fn the_strongest_source_sets_the_root(
    r: RootOutcome,
    reaching: Seq<ReachingSource>,
    solved: Option<Volts>,
    at: int,
)
    requires
        r@ == root_outcome(reaching, solved),
        wins(reaching, at),
        forall|j: int|
            0 <= j < reaching.len() && high((#[trigger] reaching[j]).volts) != high(
                reaching[at].volts,
            ) ==> out_of_contest(reaching[at], reaching[j]),
    ensures
        r.volts == Some(reaching[at].volts),
        !r.solved,
        r.ambiguous is None,
        ({
            let top = reaching[at];
            let level = if high(top.volts) {
                Level::High
            } else {
                Level::Low
            };
            let on_root = top.path == Quantity::Finite(0);
            let weak_pad = top.impedance.at_least(Quantity::Finite(1_000_000_000));
            &&& r.state matches NetState::Driven(l) ==> l == level
            &&& r.state matches NetState::Pulled(l, _) ==> l == level
            &&& top.slot is None && on_root ==> r.state == NetState::Analog(top.volts)
            &&& top.slot is Some && no_level(top.volts) ==> r.state == NetState::Analog(top.volts)
            &&& top.slot is Some && !no_level(top.volts) && on_root && top.impedance.below(
                Quantity::Finite(1_000_000_000),
            ) ==> r.state == NetState::Driven(level)
            &&& !on_root && (top.slot is None || !no_level(top.volts)) ==> r.state
                == NetState::Pulled(
                level,
                if weak_pad {
                    total(top)
                } else {
                    top.path
                },
            )
            &&& top.slot is Some && !no_level(top.volts) && on_root && weak_pad ==> r.state
                == NetState::Pulled(level, total(top))
        }),
{
    the_strongest_source_ranks_the_root(r@, reaching, solved, at);
}

/// A driver that disagrees and lost is a fight, and nothing else is: it names
/// every pad of less than a kilo-ohm in all, in order.
pub proof fn a_silenced_driver_is_a_fight(
    r: RootOutcome,
    reaching: Seq<ReachingSource>,
    solved: Option<Volts>,
    at: int,
)
    requires
        r@ == root_outcome(reaching, solved),
        wins(reaching, at),
        forall|j: int|
            0 <= j < reaching.len() && high((#[trigger] reaching[j]).volts) != high(
                reaching[at].volts,
            ) ==> out_of_contest(reaching[at], reaching[j]),
    ensures
        r.fight is Some <==> !weak(reaching[at]) && exists|j: int|
            0 <= j < reaching.len() && high((#[trigger] reaching[j]).volts) != high(
                reaching[at].volts,
            ) && !weak(reaching[j]),
        r.fight matches Some(slots) ==> slots@ == reaching.filter(
            |s: ReachingSource| s.slot is Some && !weak(s),
        ).map_values(|s: ReachingSource| s.slot->0),
{
    the_strongest_source_ranks_the_root(r@, reaching, solved, at);
    winner_is_strongest(reaching, at);
    drivers_are_strong_slots(reaching);
    the_agreeing_do_not_disagree(reaching, at);
    let bar = reaching[at].ohms();
    assert(driver_silenced(reaching) <==> !weak(reaching[at]) && exists|j: int|
        0 <= j < reaching.len() && high((#[trigger] reaching[j]).volts) != high(
            reaching[at].volts,
        ) && !weak(reaching[j])) by {
        if driver_silenced(reaching) {
            let i = choose|i: int|
                0 <= i < reaching.len() && (#[trigger] reaching[i]).loses_to(bar)
                    && !reaching[i].pull() && reaching[i].spec_level()
                    != reaching[at].spec_level();
            assert(high(reaching[i].volts) != high(reaching[at].volts));
        }
        if !weak(reaching[at]) && exists|j: int|
            0 <= j < reaching.len() && high((#[trigger] reaching[j]).volts) != high(
                reaching[at].volts,
            ) && !weak(reaching[j]) {
            let j = choose|j: int|
                0 <= j < reaching.len() && high((#[trigger] reaching[j]).volts) != high(
                    reaching[at].volts,
                ) && !weak(reaching[j]);
            assert(out_of_contest(reaching[at], reaching[j]));
            assert(reaching[j].loses_to(bar));
            assert(reaching[j].spec_level() != reaching[at].spec_level());
        }
    }
    assert(fight_of(r) == r@.fight);
}

/// A fight's slots as a sequence.
spec fn fight_of(r: RootOutcome) -> Option<Seq<usize>> {
    match r.fight {
        Some(slots) => Some(slots@),
        None => None,
    }
}

/// Where two sources in the contest disagree the root takes what the solve
/// says: no source's own voltage is handed on. Among drivers it is a fight
/// that names them all, and a voltage between the levels is contention;
/// among pulls it is a divided voltage and nothing more.
pub proof fn a_disagreement_takes_the_solved_voltage(
    r: RootOutcome,
    reaching: Seq<ReachingSource>,
    solved: Option<Volts>,
    at: int,
    other: int,
)
    requires
        r@ == root_outcome(reaching, solved),
        wins(reaching, at),
        0 <= other < reaching.len(),
        high(reaching[other].volts) != high(reaching[at].volts),
        !out_of_contest(reaching[at], reaching[other]),
    ensures
        r.solved == (solved is Some),
        solved is None ==> r.state == NetState::Floating && r.volts is None && r.fight is None
            && r.ambiguous is None,
        solved matches Some(volts) ==> {
            let fought = !weak(reaching[at]);
            &&& r.volts == Some(volts)
            &&& r.state == (if fought && no_level(volts) {
                NetState::Contention
            } else {
                NetState::Analog(volts)
            })
            &&& r.ambiguous == (if fought && no_level(volts) {
                Some(volts)
            } else {
                None
            })
            &&& r.fight is Some <==> fought
            &&& r.fight matches Some(slots) ==> slots@ == reaching.filter(
                |s: ReachingSource| s.slot is Some && !weak(s),
            ).map_values(|s: ReachingSource| s.slot->0)
        },
{
    winner_is_strongest(reaching, at);
    drivers_are_strong_slots(reaching);
    assert(reaching[other].in_contest(reaching[at].ohms()));
    assert(reaching[other].spec_level() != reaching[at].spec_level());
    assert(contest_disagrees(reaching));
    assert(fight_of(r) == r@.fight);
}

/// A root nothing reaches floats, at no voltage.
pub proof fn an_unreached_root_floats(r: RootOutcome, solved: Option<Volts>)
    requires
        r@ == root_outcome(Seq::empty(), solved),
    ensures
        r.state == NetState::Floating,
        r.volts is None,
        r.fight is None,
        r.ambiguous is None,
        !r.solved,
{
    assert(fight_of(r) == r@.fight);
}

/// A pull beside a driver changes neither the state nor the voltage, wherever
/// it leads: an open-drain line that is pulled low is low, and is handed the
/// sink's voltage.
pub proof fn a_pull_beside_a_driver_changes_nothing(
    reaching: Seq<ReachingSource>,
    pull: ReachingSource,
    solved: Option<Volts>,
    at: int,
)
    requires
        wins(reaching, at),
        !weak(reaching[at]),
        !(total(reaching[at]) is Nan),
        weak(pull),
    ensures
        root_outcome(reaching.push(pull), solved).state == root_outcome(reaching, solved).state,
        root_outcome(reaching.push(pull), solved).volts == root_outcome(reaching, solved).volts,
        root_outcome(reaching.push(pull), solved).solved == root_outcome(reaching, solved).solved,
{
    let more = reaching.push(pull);
    assert(more[at] == reaching[at]);
    assert forall|j: int| 0 <= j < more.len() implies total(more[at]).key() <= total(
        #[trigger] more[j],
    ).key() by {
        if j < reaching.len() {
            assert(more[j] == reaching[j]);
        }
    }
    assert forall|j: int| 0 <= j < at implies total(more[at]).key() < total(
        #[trigger] more[j],
    ).key() by {
        assert(more[j] == reaching[j]);
    }
    winner_is_strongest(reaching, at);
    winner_is_strongest(more, at);
    let bar = reaching[at].ohms();
    if contest_disagrees(reaching) {
        let i = choose|i: int|
            0 <= i < reaching.len() && (#[trigger] reaching[i]).in_contest(bar)
                && reaching[i].spec_level() != reaching[at].spec_level();
        assert(more[i] == reaching[i]);
        assert(contest_disagrees(more));
    }
    if contest_disagrees(more) {
        let i = choose|i: int|
            0 <= i < more.len() && (#[trigger] more[i]).in_contest(bar) && more[i].spec_level()
                != more[at].spec_level();
        assert(more[i] == reaching[i]);
        assert(contest_disagrees(reaching));
    }
}

} // verus!
