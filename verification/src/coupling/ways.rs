//! The way a rate takes is a way there is.
use vstd::prelude::*;

use crate::coupling::{
    after_coupling, after_couplings, after_edge, after_edges, after_rounds, couplings_valid,
    offered, reach_of, rounds_settle, start_reach, ReachView, RootCoupling, Step,
};
use crate::paths::{edges_valid, leads_over, passable, Edge};
use crate::quantity::Quantity;

verus! {

/// Whether a capacitor joins two roots.
pub open spec fn joins(coupling: RootCoupling, x: usize, y: usize) -> bool {
    (coupling.a == x && coupling.b == y) || (coupling.a == y && coupling.b == x)
}

/// The last leg of a way from `x` to `to`: an edge, at its resistance, or a
/// capacitor at none, which is then the last that is crossed.
pub open spec fn last_leg(
    edges: Seq<Edge>,
    couplings: Seq<RootCoupling>,
    x: usize,
    to: usize,
    before: ReachView,
    after: ReachView,
) -> bool {
    ||| exists|e: int|
        0 <= e < edges.len() && #[trigger] leads_over(edges[e], x, to) && after.ohms
            == before.ohms.plus(edges[e].ohms) && after.path == before.path
    ||| exists|c: int|
        0 <= c < couplings.len() && #[trigger] joins(couplings[c], x, to) && after.ohms
            == before.ohms && after.path == before.path.push(
            Step { capacitor: couplings[c].capacitor, far_root: to },
        )
}

/// Whether a way of `legs` legs leads from `from` to `to`, past no barrier, at
/// the resistance and across the capacitors that `reach` says.
pub open spec fn way(
    edges: Seq<Edge>,
    couplings: Seq<RootCoupling>,
    barriers: Seq<usize>,
    from: usize,
    to: usize,
    reach: ReachView,
    legs: nat,
) -> bool
    decreases legs,
{
    if legs == 0 {
        to == from && reach.ohms == Quantity::Finite(0) && reach.path.len() == 0
    } else {
        exists|x: usize, before: ReachView|
            passable(barriers, from, x) && #[trigger] last_leg(
                edges,
                couplings,
                x,
                to,
                before,
                reach,
            ) && way(edges, couplings, barriers, from, x, before, (legs - 1) as nat)
    }
}

/// Whether every root that is reached is reached by a way there is.
pub open spec fn by_ways(
    reach: Seq<Option<ReachView>>,
    edges: Seq<Edge>,
    couplings: Seq<RootCoupling>,
    barriers: Seq<usize>,
    from: usize,
) -> bool {
    forall|i: int|
        0 <= i < reach.len() && (#[trigger] reach[i]) is Some ==> exists|legs: nat| #[trigger]
            way(edges, couplings, barriers, from, i as usize, reach[i]->0, legs)
}

proof fn one_more_leg(
    reach: Seq<Option<ReachView>>,
    edges: Seq<Edge>,
    couplings: Seq<RootCoupling>,
    barriers: Seq<usize>,
    from: usize,
    x: usize,
    y: usize,
    candidate: ReachView,
)
    requires
        reach.len() <= usize::MAX,
        by_ways(reach, edges, couplings, barriers, from),
        x < reach.len(),
        y < reach.len(),
        reach[x as int] is Some,
        passable(barriers, from, x),
        last_leg(edges, couplings, x, y, reach[x as int]->0, candidate),
    ensures
        by_ways(offered(reach, y, candidate), edges, couplings, barriers, from),
        offered(reach, y, candidate).len() == reach.len(),
{
    let after = offered(reach, y, candidate);
    let here = reach[x as int]->0;
    let legs = choose|legs: nat| #[trigger]
        way(edges, couplings, barriers, from, x, here, legs);
    assert(way(edges, couplings, barriers, from, y, candidate, legs + 1));
    assert forall|i: int| 0 <= i < after.len() && (#[trigger] after[i]) is Some implies exists|
        legs: nat,
    | #[trigger] way(edges, couplings, barriers, from, i as usize, after[i]->0, legs) by {
        if i == y && after[i] == Some(candidate) {
            assert(i as usize == y);
            assert(way(edges, couplings, barriers, from, i as usize, after[i]->0, legs + 1));
        } else {
            assert(after[i] == reach[i]);
            assert(reach[i] is Some);
            let taken = choose|legs: nat| #[trigger]
                way(edges, couplings, barriers, from, i as usize, reach[i]->0, legs);
            assert(way(edges, couplings, barriers, from, i as usize, after[i]->0, taken));
        }
    }
}

proof fn an_edge_goes_on(
    reach: Seq<Option<ReachView>>,
    edges: Seq<Edge>,
    couplings: Seq<RootCoupling>,
    barriers: Seq<usize>,
    from: usize,
    e: int,
    x: usize,
    y: usize,
)
    requires
        reach.len() <= usize::MAX,
        by_ways(reach, edges, couplings, barriers, from),
        0 <= e < edges.len(),
        leads_over(edges[e], x, y),
        x < reach.len(),
        y < reach.len(),
    ensures
        by_ways(
            after_edge(reach, barriers, from, x, y, edges[e].ohms),
            edges,
            couplings,
            barriers,
            from,
        ),
        after_edge(reach, barriers, from, x, y, edges[e].ohms).len() == reach.len(),
{
    if passable(barriers, from, x) && reach[x as int] is Some {
        let here = reach[x as int]->0;
        let candidate = ReachView { ohms: here.ohms.plus(edges[e].ohms), path: here.path };
        assert(last_leg(edges, couplings, x, y, here, candidate));
        one_more_leg(reach, edges, couplings, barriers, from, x, y, candidate);
    }
}

proof fn a_crossing_goes_on(
    reach: Seq<Option<ReachView>>,
    edges: Seq<Edge>,
    couplings: Seq<RootCoupling>,
    barriers: Seq<usize>,
    from: usize,
    c: int,
    x: usize,
    y: usize,
)
    requires
        reach.len() <= usize::MAX,
        by_ways(reach, edges, couplings, barriers, from),
        0 <= c < couplings.len(),
        joins(couplings[c], x, y),
        x < reach.len(),
        y < reach.len(),
    ensures
        by_ways(
            after_coupling(reach, barriers, from, x, y, couplings[c].capacitor),
            edges,
            couplings,
            barriers,
            from,
        ),
        after_coupling(reach, barriers, from, x, y, couplings[c].capacitor).len() == reach.len(),
{
    if passable(barriers, from, x) && reach[x as int] is Some {
        let here = reach[x as int]->0;
        let candidate = ReachView {
            ohms: here.ohms,
            path: here.path.push(Step { capacitor: couplings[c].capacitor, far_root: y }),
        };
        assert(last_leg(edges, couplings, x, y, here, candidate));
        one_more_leg(reach, edges, couplings, barriers, from, x, y, candidate);
    }
}

proof fn edges_go_on(
    reach: Seq<Option<ReachView>>,
    edges: Seq<Edge>,
    couplings: Seq<RootCoupling>,
    barriers: Seq<usize>,
    from: usize,
    k: nat,
)
    requires
        reach.len() <= usize::MAX,
        by_ways(reach, edges, couplings, barriers, from),
        edges_valid(edges, reach.len()),
        k <= edges.len(),
    ensures
        by_ways(after_edges(reach, edges, barriers, from, k), edges, couplings, barriers, from),
        after_edges(reach, edges, barriers, from, k).len() == reach.len(),
    decreases k,
{
    if k > 0 {
        edges_go_on(reach, edges, couplings, barriers, from, (k - 1) as nat);
        let edge = edges[k - 1];
        let before = after_edges(reach, edges, barriers, from, (k - 1) as nat);
        assert(leads_over(edges[k - 1], edge.a, edge.b));
        assert(leads_over(edges[k - 1], edge.b, edge.a));
        an_edge_goes_on(before, edges, couplings, barriers, from, k - 1, edge.a, edge.b);
        let there = after_edge(before, barriers, from, edge.a, edge.b, edge.ohms);
        an_edge_goes_on(there, edges, couplings, barriers, from, k - 1, edge.b, edge.a);
    }
}

proof fn crossings_go_on(
    reach: Seq<Option<ReachView>>,
    edges: Seq<Edge>,
    couplings: Seq<RootCoupling>,
    barriers: Seq<usize>,
    from: usize,
    k: nat,
)
    requires
        reach.len() <= usize::MAX,
        by_ways(reach, edges, couplings, barriers, from),
        couplings_valid(couplings, reach.len()),
        k <= couplings.len(),
    ensures
        by_ways(
            after_couplings(reach, couplings, barriers, from, k),
            edges,
            couplings,
            barriers,
            from,
        ),
        after_couplings(reach, couplings, barriers, from, k).len() == reach.len(),
    decreases k,
{
    if k > 0 {
        crossings_go_on(reach, edges, couplings, barriers, from, (k - 1) as nat);
        let c = couplings[k - 1];
        let before = after_couplings(reach, couplings, barriers, from, (k - 1) as nat);
        assert(joins(couplings[k - 1], c.a, c.b));
        assert(joins(couplings[k - 1], c.b, c.a));
        a_crossing_goes_on(before, edges, couplings, barriers, from, k - 1, c.a, c.b);
        let there = after_coupling(before, barriers, from, c.a, c.b, c.capacitor);
        a_crossing_goes_on(there, edges, couplings, barriers, from, k - 1, c.b, c.a);
    }
}

proof fn rounds_go_on(
    n: nat,
    edges: Seq<Edge>,
    couplings: Seq<RootCoupling>,
    barriers: Seq<usize>,
    from: usize,
    rounds: nat,
)
    requires
        edges_valid(edges, n),
        couplings_valid(couplings, n),
        n <= usize::MAX,
    ensures
        by_ways(
            after_rounds(n, edges, couplings, barriers, from, rounds),
            edges,
            couplings,
            barriers,
            from,
        ),
        after_rounds(n, edges, couplings, barriers, from, rounds).len() == n,
    decreases rounds,
{
    if rounds == 0 {
        let reach = start_reach(n, from);
        assert forall|i: int| 0 <= i < reach.len() && (#[trigger] reach[i]) is Some implies exists|
            legs: nat,
        | #[trigger] way(edges, couplings, barriers, from, i as usize, reach[i]->0, legs) by {
            assert(way(edges, couplings, barriers, from, i as usize, reach[i]->0, 0));
        }
    } else {
        rounds_go_on(n, edges, couplings, barriers, from, (rounds - 1) as nat);
        let reach = after_rounds(n, edges, couplings, barriers, from, (rounds - 1) as nat);
        edges_go_on(reach, edges, couplings, barriers, from, edges.len());
        let mid = after_edges(reach, edges, barriers, from, edges.len());
        crossings_go_on(mid, edges, couplings, barriers, from, couplings.len());
    }
}

/// A root that is reached is reached by a way there is, edge by edge and
/// capacitor by capacitor: its ohms are that way's, and the capacitors listed
/// are the ones it crosses, in the order it crosses them, each with the root
/// on its far side.
pub proof fn a_reach_is_a_way_there_is(
    n: nat,
    edges: Seq<Edge>,
    couplings: Seq<RootCoupling>,
    barriers: Seq<usize>,
    from: usize,
    to: usize,
)
    requires
        edges_valid(edges, n),
        couplings_valid(couplings, n),
        n <= usize::MAX,
        to < n,
        reach_of(n, edges, couplings, barriers, from)[to as int] is Some,
    ensures
        exists|legs: nat| #[trigger]
            way(
                edges,
                couplings,
                barriers,
                from,
                to,
                reach_of(n, edges, couplings, barriers, from)[to as int]->0,
                legs,
            ),
{
    let rounds = choose|rounds: nat| rounds_settle(n, edges, couplings, barriers, from, rounds);
    rounds_go_on(n, edges, couplings, barriers, from, rounds);
}

} // verus!
