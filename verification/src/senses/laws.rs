//! What a pass tells, and whom.
use vstd::prelude::*;

use crate::net::NetMove;
use crate::senses::{
    deliveries, dependent_steps, first_moved, known_reference, known_supply, moved, on_net,
    own_steps, sense_script, told_at, SenseStep, SenseSub,
};
use crate::seqs::{select, select_properties};

verus! {

proof fn deliveries_report_nothing(subs: Seq<usize>, net: usize)
    ensures
        !deliveries(subs).contains(SenseStep::Resolved(net)),
{
    let steps = deliveries(subs);
    assert forall|i: int| 0 <= i < steps.len() implies steps[i] != SenseStep::Resolved(net) by {}
}

proof fn joined_contains(a: Seq<SenseStep>, b: Seq<SenseStep>, step: SenseStep)
    ensures
        (a + b).contains(step) <==> a.contains(step) || b.contains(step),
{
    if a.contains(step) {
        let i = choose|i: int| 0 <= i < a.len() && a[i] == step;
        assert((a + b)[i] == step);
    }
    if b.contains(step) {
        let i = choose|i: int| 0 <= i < b.len() && b[i] == step;
        assert((a + b)[a.len() + i] == step);
    }
    if (a + b).contains(step) {
        let i = choose|i: int| 0 <= i < (a + b).len() && (a + b)[i] == step;
        if i < a.len() {
            assert(a[i] == step);
        } else {
            assert(b[i - a.len()] == step);
        }
    }
}

proof fn own_steps_report(
    subs: Seq<SenseSub>,
    moves: Seq<(usize, NetMove)>,
    k: nat,
    net: usize,
)
    requires
        k <= moves.len(),
    ensures
        own_steps(subs, moves, k).contains(SenseStep::Resolved(net)) <==> exists|i: int|
            0 <= i < k && #[trigger] moves[i] == (net, NetMove::State),
    decreases k,
{
    if k > 0 {
        let m = (k - 1) as nat;
        own_steps_report(subs, moves, m, net);
        let rest = own_steps(subs, moves, m);
        let (moved, how) = moves[k - 1];
        let step = SenseStep::Resolved(net);
        let list = deliveries(select(subs.len(), on_net(subs, moved)));
        deliveries_report_nothing(select(subs.len(), on_net(subs, moved)), net);
        let reported = if how == NetMove::State {
            rest.push(SenseStep::Resolved(moved))
        } else {
            rest
        };
        joined_contains(reported, list, step);
        if how == NetMove::State {
            assert(rest.push(SenseStep::Resolved(moved)) =~= rest + seq![
                SenseStep::Resolved(moved),
            ]);
            joined_contains(rest, seq![SenseStep::Resolved(moved)], step);
            assert(seq![SenseStep::Resolved(moved)].contains(step) <==> moved == net) by {
                assert(seq![SenseStep::Resolved(moved)][0] == SenseStep::Resolved(moved));
            }
        }
        if exists|i: int| 0 <= i < k && #[trigger] moves[i] == (net, NetMove::State) {
            let i = choose|i: int| 0 <= i < k && #[trigger] moves[i] == (net, NetMove::State);
            if i == k - 1 {
                assert(moved == net && how == NetMove::State);
            } else {
                assert(0 <= i < m);
            }
        }
        if moved == net && how == NetMove::State {
            assert(moves[k - 1] == (net, NetMove::State));
        }
    }
}

proof fn dependents_report_nothing(
    subs: Seq<SenseSub>,
    moves: Seq<(usize, NetMove)>,
    k: nat,
    net: usize,
)
    ensures
        !dependent_steps(subs, moves, k).contains(SenseStep::Resolved(net)),
    decreases k,
{
    if k > 0 {
        dependents_report_nothing(subs, moves, (k - 1) as nat, net);
        let list = select(subs.len(), told_at(subs, moves, moves[k - 1].0));
        deliveries_report_nothing(list, net);
        joined_contains(
            dependent_steps(subs, moves, (k - 1) as nat),
            deliveries(list),
            SenseStep::Resolved(net),
        );
    }
}

/// A pass reports exactly the nets whose state changed: one whose voltage alone
/// moved is delivered and not reported.
pub proof fn exactly_the_changed_states_are_reported(
    subs: Seq<SenseSub>,
    moves: Seq<(usize, NetMove)>,
    net: usize,
)
    ensures
        sense_script(subs, moves).contains(SenseStep::Resolved(net)) <==> moves.contains(
            (net, NetMove::State),
        ),
{
    own_steps_report(subs, moves, moves.len(), net);
    dependents_report_nothing(subs, moves, moves.len(), net);
    joined_contains(
        own_steps(subs, moves, moves.len()),
        dependent_steps(subs, moves, moves.len()),
        SenseStep::Resolved(net),
    );
}

/// One net that changed reports itself, then tells its own subscriptions in
/// the order they were made, then those that depend on it.
pub proof fn a_changed_net_tells_its_own_first(subs: Seq<SenseSub>, net: usize, how: NetMove)
    requires
        subs.len() <= usize::MAX,
    ensures
        ({
            let moves = seq![(net, how)];
            let own = select(subs.len(), on_net(subs, net));
            let script = sense_script(subs, moves);
            let head = if how == NetMove::State {
                1int
            } else {
                0
            };
            &&& script.len() >= head + own.len()
            &&& how == NetMove::State ==> script[0] == SenseStep::Resolved(net)
            &&& forall|i: int|
                0 <= i < own.len() ==> script[head + i] == SenseStep::Deliver(#[trigger] own[i])
            &&& forall|i: int|
                0 <= i < own.len() ==> subs[(#[trigger] own[i]) as int].net == net
            &&& forall|i: int, j: int| 0 <= i < j < own.len() ==> own[i] < own[j]
            &&& forall|s: int|
                0 <= s < subs.len() && (#[trigger] subs[s]).net == net ==> own.contains(s as usize)
        }),
{
    reveal_with_fuel(own_steps, 2);
    let moves = seq![(net, how)];
    let keep = on_net(subs, net);
    select_properties(subs.len(), keep);
    let own = select(subs.len(), keep);
    let steps = own_steps(subs, moves, 1);
    let head = if how == NetMove::State {
        Seq::<SenseStep>::empty().push(SenseStep::Resolved(net))
    } else {
        Seq::<SenseStep>::empty()
    };
    assert(steps == head + deliveries(own));
    let script = sense_script(subs, moves);
    assert forall|i: int| 0 <= i < own.len() implies script[head.len() + i] == SenseStep::Deliver(
        #[trigger] own[i],
    ) by {
        assert(script[head.len() + i] == steps[head.len() + i]);
        assert(steps[head.len() + i] == deliveries(own)[i]);
    }
    if how == NetMove::State {
        assert(script[0] == steps[0]);
        assert(steps[0] == head[0]);
    }
    assert forall|i: int| 0 <= i < own.len() implies subs[(#[trigger] own[i]) as int].net == net by {
        assert(own.contains(own[i]));
        assert(keep(own[i] as int));
    }
    assert forall|s: int| 0 <= s < subs.len() && (#[trigger] subs[s]).net == net implies own.contains(
        s as usize,
    ) by {
        assert(keep(s));
    }
}

/// A reference is kept where the board has its net, and a supply where it has
/// its net and that is neither the net read nor the reference's.
pub proof fn a_subscription_keeps_what_the_board_has(
    net: usize,
    reference: usize,
    supply: usize,
    n: nat,
)
    ensures
        known_reference(Some(reference), n) == (if reference < n {
            Some(reference)
        } else {
            None
        }),
        known_reference(None, n) is None,
        known_supply(None, net, Some(reference), n) is None,
        known_supply(Some(supply), net, None, n) == (if supply < n && supply != net {
            Some(supply)
        } else {
            None
        }),
        reference < n ==> known_supply(Some(supply), net, Some(reference), n) == (if supply < n
            && supply != net && supply != reference {
            Some(supply)
        } else {
            None
        }),
{
}

/// A subscription is told with the lowest of its dependencies that moved.
pub proof fn the_lowest_dependency_tells(sub: SenseSub, moves: Seq<(usize, NetMove)>, net: usize)
    ensures
        first_moved(sub, moves) == Some(net) <==> {
            &&& sub.reference == Some(net) || sub.supply == Some(net)
            &&& exists|i: int| 0 <= i < moves.len() && (#[trigger] moves[i]).0 == net
            &&& forall|i: int|
                0 <= i < moves.len() && (#[trigger] moves[i]).0 < net ==> sub.reference != Some(
                    moves[i].0,
                ) && sub.supply != Some(moves[i].0)
        },
{
    if let Some(r) = sub.reference {
        if moved(moves, r) {
            let i = choose|i: int| 0 <= i < moves.len() && (#[trigger] moves[i]).0 == r;
            assert(moves[i].0 == r);
        }
    }
    if let Some(s) = sub.supply {
        if moved(moves, s) {
            let i = choose|i: int| 0 <= i < moves.len() && (#[trigger] moves[i]).0 == s;
            assert(moves[i].0 == s);
        }
    }
}

} // verus!
