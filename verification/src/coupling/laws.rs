//! What a reach over conduction edges and capacitors comes to: the least
//! series resistance there is.
use vstd::prelude::*;

use crate::coupling::{
    after_coupling, after_couplings, after_edge, after_edges, after_round, after_rounds,
    couplings_valid, crosses, offer_decreases, offered, reach_non_negative, reach_of, reach_ohms,
    rounds_settle, start_reach, ReachView, RootCoupling, Step,
};
use crate::paths::{
    attained, edges_valid, leads_over, passable, path_cost, path_ohms, settled,
    settled_costs_are_least, total_weight, walk_extends, walks, Edge,
};
use crate::quantity::{Ohms, Quantity};

verus! {

/// The conduction edges, with every capacitor an edge of no resistance.
pub open spec fn bridged(edges: Seq<Edge>, couplings: Seq<RootCoupling>) -> Seq<Edge> {
    edges + Seq::new(
        couplings.len(),
        |i: int| Edge { a: couplings[i].a, b: couplings[i].b, ohms: Quantity::Finite(0) },
    )
}

/// Every capacitor is named once.
pub open spec fn named_once(couplings: Seq<RootCoupling>) -> bool {
    forall|i: int, j: int|
        0 <= i < couplings.len() && 0 <= j < couplings.len() && (
        #[trigger] couplings[i]).capacitor == (#[trigger] couplings[j]).capacitor ==> i == j
}

/// Whether `end` is reached at no more than `ohms`.
spec fn within(reach: Seq<Option<ReachView>>, end: usize, ohms: Ohms) -> bool {
    reach[end as int] is Some && reach[end as int]->0.ohms.key() <= ohms.key()
}

/// Whether both ends of every capacitor a path crosses are reached at no more
/// than `ohms`; `y` counts as reached.
spec fn ends_within(
    reach: Seq<Option<ReachView>>,
    couplings: Seq<RootCoupling>,
    path: Seq<Step>,
    ohms: Ohms,
    y: Option<usize>,
) -> bool {
    forall|j: int, k: int|
        #![trigger path[j], couplings[k]]
        0 <= j < path.len() && 0 <= k < couplings.len() && couplings[k].capacitor
            == path[j].capacitor ==> (y == Some(couplings[k].a) || within(
            reach,
            couplings[k].a,
            ohms,
        )) && (y == Some(couplings[k].b) || within(reach, couplings[k].b, ohms))
}

/// What every step of a round keeps.
spec fn table_kept(
    reach: Seq<Option<ReachView>>,
    edges: Seq<Edge>,
    couplings: Seq<RootCoupling>,
    barriers: Seq<usize>,
    from: usize,
) -> bool {
    &&& from < reach.len()
    &&& reach.len() <= usize::MAX
    &&& reach[from as int] is Some
    &&& reach[from as int]->0.ohms.key() <= 0
    &&& reach_non_negative(reach)
    &&& attained(bridged(edges, couplings), barriers, from, reach_ohms(reach))
    &&& forall|i: int|
        0 <= i < reach.len() && (#[trigger] reach[i]) is Some ==> ends_within(
            reach,
            couplings,
            reach[i]->0.path,
            reach[i]->0.ohms,
            None,
        )
}

/// One offer keeps what every step keeps, and lowers the weights if it changes
/// anything.
proof fn an_offer_keeps(
    reach: Seq<Option<ReachView>>,
    edges: Seq<Edge>,
    couplings: Seq<RootCoupling>,
    barriers: Seq<usize>,
    from: usize,
    y: usize,
    candidate: ReachView,
)
    requires
        table_kept(reach, edges, couplings, barriers, from),
        couplings_valid(couplings, reach.len()),
        y < reach.len(),
        candidate.ohms.non_negative(),
        path_cost(bridged(edges, couplings), barriers, from, y, candidate.ohms),
        ends_within(reach, couplings, candidate.path, candidate.ohms, Some(y)),
    ensures
        table_kept(offered(reach, y, candidate), edges, couplings, barriers, from),
        offered(reach, y, candidate).len() == reach.len(),
        offered(reach, y, candidate) == reach || total_weight(
            reach_ohms(offered(reach, y, candidate)),
        ) < total_weight(reach_ohms(reach)),
        offered(reach, y, candidate) == reach ==> within(reach, y, candidate.ohms),
{
    let after = offered(reach, y, candidate);
    if reach[y as int] is None || candidate.ohms.below(reach[y as int]->0.ohms) {
        offer_decreases(reach, y, candidate);
        let all = bridged(edges, couplings);
        let dist = reach_ohms(after);
        assert forall|i: int| 0 <= i < dist.len() && (#[trigger] dist[i]) is Some implies dist[i]->0
            .non_negative() && path_cost(all, barriers, from, i as usize, dist[i]->0) by {
            if i != y {
                assert(reach_ohms(reach)[i] == dist[i]);
            }
        }
        assert forall|i: int| 0 <= i < after.len() && (
        #[trigger] after[i]) is Some implies ends_within(
            after,
            couplings,
            after[i]->0.path,
            after[i]->0.ohms,
            None,
        ) by {
            let (path, ohms) = (after[i]->0.path, after[i]->0.ohms);
            if i != y {
                assert(ends_within(reach, couplings, reach[i]->0.path, reach[i]->0.ohms, None));
            }
            assert forall|j: int, k: int|
                #![trigger path[j], couplings[k]]
                0 <= j < path.len() && 0 <= k < couplings.len() && couplings[k].capacitor
                    == path[j].capacitor implies within(after, couplings[k].a, ohms) && within(
                after,
                couplings[k].b,
                ohms,
            ) by {
                assert(couplings[k].a < reach.len() && couplings[k].b < reach.len());
            }
        }
    }
}

/// A walk along an edge keeps what every step keeps.
proof fn an_edge_keeps(
    reach: Seq<Option<ReachView>>,
    edges: Seq<Edge>,
    couplings: Seq<RootCoupling>,
    barriers: Seq<usize>,
    from: usize,
    e: int,
    x: usize,
    y: usize,
)
    requires
        table_kept(reach, edges, couplings, barriers, from),
        edges_valid(edges, reach.len()),
        couplings_valid(couplings, reach.len()),
        0 <= e < edges.len(),
        leads_over(edges[e], x, y),
    ensures
        ({
            let after = after_edge(reach, barriers, from, x, y, edges[e].ohms);
            &&& table_kept(after, edges, couplings, barriers, from)
            &&& after.len() == reach.len()
            &&& after == reach || total_weight(reach_ohms(after)) < total_weight(reach_ohms(reach))
            &&& after == reach && passable(barriers, from, x) && reach[x as int] is Some ==> within(
                reach,
                y,
                reach[x as int]->0.ohms.plus(edges[e].ohms),
            )
        }),
{
    if passable(barriers, from, x) && reach[x as int] is Some {
        let here = reach[x as int]->0;
        let ohms = here.ohms.plus(edges[e].ohms);
        let all = bridged(edges, couplings);
        assert(all[e] == edges[e]);
        assert(reach_ohms(reach)[x as int] == Some(here.ohms));
        walk_extends(all, barriers, from, x, y, e, here.ohms);
        assert(ends_within(reach, couplings, here.path, here.ohms, None));
        assert(here.ohms.key() <= ohms.key());
        an_offer_keeps(
            reach,
            edges,
            couplings,
            barriers,
            from,
            y,
            ReachView { ohms, path: here.path },
        );
    }
}

/// A crossing keeps what every step keeps; one that is left out as the path
/// crosses the capacitor already would have been no cheaper.
proof fn a_crossing_keeps(
    reach: Seq<Option<ReachView>>,
    edges: Seq<Edge>,
    couplings: Seq<RootCoupling>,
    barriers: Seq<usize>,
    from: usize,
    c: int,
    x: usize,
    y: usize,
)
    requires
        table_kept(reach, edges, couplings, barriers, from),
        couplings_valid(couplings, reach.len()),
        named_once(couplings),
        0 <= c < couplings.len(),
        (couplings[c].a == x && couplings[c].b == y) || (couplings[c].a == y && couplings[c].b
            == x),
    ensures
        ({
            let after = after_coupling(reach, barriers, from, x, y, couplings[c].capacitor);
            &&& table_kept(after, edges, couplings, barriers, from)
            &&& after.len() == reach.len()
            &&& after == reach || total_weight(reach_ohms(after)) < total_weight(reach_ohms(reach))
            &&& after == reach && passable(barriers, from, x) && reach[x as int] is Some ==> within(
                reach,
                y,
                reach[x as int]->0.ohms,
            )
        }),
{
    let capacitor = couplings[c].capacitor;
    if passable(barriers, from, x) && reach[x as int] is Some {
        let here = reach[x as int]->0;
        assert(ends_within(reach, couplings, here.path, here.ohms, None));
        if crosses(here.path, capacitor) {
            let j = choose|j: int|
                0 <= j < here.path.len() && (#[trigger] here.path[j]).capacitor == capacitor;
            assert(here.path[j].capacitor == couplings[c].capacitor);
        } else {
            let all = bridged(edges, couplings);
            let e = edges.len() + c;
            assert(all[e] == Edge {
                a: couplings[c].a,
                b: couplings[c].b,
                ohms: Quantity::Finite(0),
            });
            assert(reach_ohms(reach)[x as int] == Some(here.ohms));
            walk_extends(all, barriers, from, x, y, e, here.ohms);
            assert(here.ohms.plus(Quantity::Finite(0)) == here.ohms);
            let path = here.path.push(Step { capacitor, far_root: y });
            assert forall|j: int, k: int|
                #![trigger path[j], couplings[k]]
                0 <= j < path.len() && 0 <= k < couplings.len() && couplings[k].capacitor
                    == path[j].capacitor implies (y == couplings[k].a || within(
                reach,
                couplings[k].a,
                here.ohms,
            )) && (y == couplings[k].b || within(reach, couplings[k].b, here.ohms)) by {
                if j < here.path.len() {
                    assert(path[j] == here.path[j]);
                } else {
                    assert(couplings[k].capacitor == couplings[c].capacitor);
                }
            }
            an_offer_keeps(
                reach,
                edges,
                couplings,
                barriers,
                from,
                y,
                ReachView { ohms: here.ohms, path },
            );
        }
    }
}

/// Whether the first `k` edges improve no path.
spec fn edges_rest(
    reach: Seq<Option<ReachView>>,
    edges: Seq<Edge>,
    barriers: Seq<usize>,
    from: usize,
    k: int,
) -> bool {
    forall|e: int, x: usize, y: usize|
        #![trigger leads_over(edges[e], x, y)]
        0 <= e < k && leads_over(edges[e], x, y) && passable(barriers, from, x)
            && reach[x as int] is Some ==> within(
            reach,
            y,
            reach[x as int]->0.ohms.plus(edges[e].ohms),
        )
}

/// Whether a capacitor leads from `x` to `y`, in either direction.
spec fn crosses_over(coupling: RootCoupling, x: usize, y: usize) -> bool {
    (coupling.a == x && coupling.b == y) || (coupling.a == y && coupling.b == x)
}

/// Whether the first `k` capacitors improve no path.
spec fn couplings_rest(
    reach: Seq<Option<ReachView>>,
    couplings: Seq<RootCoupling>,
    barriers: Seq<usize>,
    from: usize,
    k: int,
) -> bool {
    forall|c: int, x: usize, y: usize|
        #![trigger crosses_over(couplings[c], x, y)]
        0 <= c < k && crosses_over(couplings[c], x, y) && passable(barriers, from, x)
            && reach[x as int] is Some ==> within(reach, y, reach[x as int]->0.ohms)
}

/// What a run over the edges keeps; one that leaves the weights has improved
/// nothing.
proof fn edges_keep(
    reach: Seq<Option<ReachView>>,
    edges: Seq<Edge>,
    couplings: Seq<RootCoupling>,
    barriers: Seq<usize>,
    from: usize,
    k: nat,
)
    requires
        table_kept(reach, edges, couplings, barriers, from),
        edges_valid(edges, reach.len()),
        couplings_valid(couplings, reach.len()),
        k <= edges.len(),
    ensures
        ({
            let after = after_edges(reach, edges, barriers, from, k);
            &&& table_kept(after, edges, couplings, barriers, from)
            &&& after.len() == reach.len()
            &&& total_weight(reach_ohms(after)) <= total_weight(reach_ohms(reach))
            &&& total_weight(reach_ohms(after)) == total_weight(reach_ohms(reach)) ==> after
                == reach && edges_rest(reach, edges, barriers, from, k as int)
        }),
    decreases k,
{
    if k > 0 {
        edges_keep(reach, edges, couplings, barriers, from, (k - 1) as nat);
        let edge = edges[k - 1];
        let before = after_edges(reach, edges, barriers, from, (k - 1) as nat);
        let there = after_edge(before, barriers, from, edge.a, edge.b, edge.ohms);
        assert(leads_over(edge, edge.a, edge.b));
        an_edge_keeps(before, edges, couplings, barriers, from, k - 1, edge.a, edge.b);
        an_edge_keeps(there, edges, couplings, barriers, from, k - 1, edge.b, edge.a);
    }
}

/// What a run over the capacitors keeps; one that leaves the weights has
/// improved nothing.
proof fn couplings_keep(
    reach: Seq<Option<ReachView>>,
    edges: Seq<Edge>,
    couplings: Seq<RootCoupling>,
    barriers: Seq<usize>,
    from: usize,
    k: nat,
)
    requires
        table_kept(reach, edges, couplings, barriers, from),
        couplings_valid(couplings, reach.len()),
        named_once(couplings),
        k <= couplings.len(),
    ensures
        ({
            let after = after_couplings(reach, couplings, barriers, from, k);
            &&& table_kept(after, edges, couplings, barriers, from)
            &&& after.len() == reach.len()
            &&& total_weight(reach_ohms(after)) <= total_weight(reach_ohms(reach))
            &&& total_weight(reach_ohms(after)) == total_weight(reach_ohms(reach)) ==> after
                == reach && couplings_rest(reach, couplings, barriers, from, k as int)
        }),
    decreases k,
{
    if k > 0 {
        couplings_keep(reach, edges, couplings, barriers, from, (k - 1) as nat);
        let c = couplings[k - 1];
        let before = after_couplings(reach, couplings, barriers, from, (k - 1) as nat);
        let there = after_coupling(before, barriers, from, c.a, c.b, c.capacitor);
        a_crossing_keeps(before, edges, couplings, barriers, from, k - 1, c.a, c.b);
        a_crossing_keeps(there, edges, couplings, barriers, from, k - 1, c.b, c.a);
    }
}

/// What a round keeps; one that leaves the weights leaves the table.
proof fn a_round_keeps(
    reach: Seq<Option<ReachView>>,
    edges: Seq<Edge>,
    couplings: Seq<RootCoupling>,
    barriers: Seq<usize>,
    from: usize,
)
    requires
        table_kept(reach, edges, couplings, barriers, from),
        edges_valid(edges, reach.len()),
        couplings_valid(couplings, reach.len()),
        named_once(couplings),
    ensures
        ({
            let after = after_round(reach, edges, couplings, barriers, from);
            &&& table_kept(after, edges, couplings, barriers, from)
            &&& after.len() == reach.len()
            &&& after == reach || total_weight(reach_ohms(after)) < total_weight(reach_ohms(reach))
            &&& after == reach ==> edges_rest(
                reach,
                edges,
                barriers,
                from,
                edges.len() as int,
            ) && couplings_rest(reach, couplings, barriers, from, couplings.len() as int)
        }),
{
    let mid = after_edges(reach, edges, barriers, from, edges.len());
    edges_keep(reach, edges, couplings, barriers, from, edges.len());
    couplings_keep(mid, edges, couplings, barriers, from, couplings.len());
}

/// What the rounds keep.
proof fn rounds_keep(
    n: nat,
    edges: Seq<Edge>,
    couplings: Seq<RootCoupling>,
    barriers: Seq<usize>,
    from: usize,
    rounds: nat,
)
    requires
        edges_valid(edges, n),
        couplings_valid(couplings, n),
        named_once(couplings),
        from < n <= usize::MAX,
    ensures
        after_rounds(n, edges, couplings, barriers, from, rounds).len() == n,
        table_kept(
            after_rounds(n, edges, couplings, barriers, from, rounds),
            edges,
            couplings,
            barriers,
            from,
        ),
    decreases rounds,
{
    if rounds == 0 {
        let reach = start_reach(n, from);
        let all = bridged(edges, couplings);
        assert(walks(all, barriers, from, from, Quantity::Finite(0), 0));
        assert(path_cost(all, barriers, from, from, Quantity::Finite(0)));
        let dist = reach_ohms(reach);
        assert forall|i: int| 0 <= i < dist.len() && (#[trigger] dist[i]) is Some implies dist[i]->0
            .non_negative() && path_cost(all, barriers, from, i as usize, dist[i]->0) by {
            assert(i == from);
        }
    } else {
        rounds_keep(n, edges, couplings, barriers, from, (rounds - 1) as nat);
        a_round_keeps(
            after_rounds(n, edges, couplings, barriers, from, (rounds - 1) as nat),
            edges,
            couplings,
            barriers,
            from,
        );
    }
}

/// Some number of rounds leaves nothing to improve.
proof fn rounds_come_to_rest(
    n: nat,
    edges: Seq<Edge>,
    couplings: Seq<RootCoupling>,
    barriers: Seq<usize>,
    from: usize,
    rounds: nat,
)
    requires
        edges_valid(edges, n),
        couplings_valid(couplings, n),
        named_once(couplings),
        from < n <= usize::MAX,
    ensures
        exists|enough: nat| #[trigger]
            rounds_settle(n, edges, couplings, barriers, from, enough),
    decreases
            total_weight(
                reach_ohms(after_rounds(n, edges, couplings, barriers, from, rounds)),
            ),
{
    let reach = after_rounds(n, edges, couplings, barriers, from, rounds);
    rounds_keep(n, edges, couplings, barriers, from, rounds);
    a_round_keeps(reach, edges, couplings, barriers, from);
    if after_round(reach, edges, couplings, barriers, from) == reach {
        assert(rounds_settle(n, edges, couplings, barriers, from, rounds));
    } else {
        assert(after_rounds(n, edges, couplings, barriers, from, rounds + 1) == after_round(
            reach,
            edges,
            couplings,
            barriers,
            from,
        ));
        rounds_come_to_rest(n, edges, couplings, barriers, from, rounds + 1);
    }
}

/// A root is reached at the least series resistance of all the walks that
/// lead there over conduction edges and over capacitors at no resistance,
/// past no barrier, and not at all where no such walk does: that no path
/// crosses a capacitor twice makes none of them dearer.
pub proof fn reach_is_the_least_over_walks(
    n: nat,
    edges: Seq<Edge>,
    couplings: Seq<RootCoupling>,
    barriers: Seq<usize>,
    from: usize,
    to: usize,
)
    requires
        edges_valid(edges, n),
        couplings_valid(couplings, n),
        named_once(couplings),
        from < n <= usize::MAX,
        to < n,
    ensures
        reach_ohms(reach_of(n, edges, couplings, barriers, from))[to as int] == path_ohms(
            bridged(edges, couplings),
            barriers,
            from,
            to,
        ),
{
    rounds_come_to_rest(n, edges, couplings, barriers, from, 0);
    let rounds = choose|rounds: nat| rounds_settle(n, edges, couplings, barriers, from, rounds);
    let reach = after_rounds(n, edges, couplings, barriers, from, rounds);
    rounds_keep(n, edges, couplings, barriers, from, rounds);
    a_round_keeps(reach, edges, couplings, barriers, from);
    let all = bridged(edges, couplings);
    let dist = reach_ohms(reach);
    assert forall|e: int, x: usize, y: usize|
        #![trigger leads_over(all[e], x, y)]
        0 <= e < all.len() && leads_over(all[e], x, y) && passable(barriers, from, x)
            && dist[x as int] is Some implies dist[y as int] is Some && dist[y as int]->0.key()
        <= dist[x as int]->0.plus(all[e].ohms).key() by {
        if e < edges.len() {
            assert(all[e] == edges[e]);
            assert(leads_over(edges[e], x, y));
        } else {
            let c = e - edges.len();
            assert(all[e] == Edge {
                a: couplings[c].a,
                b: couplings[c].b,
                ohms: Quantity::Finite(0),
            });
            assert(crosses_over(couplings[c], x, y));
            assert(dist[x as int]->0.plus(Quantity::Finite(0)) == dist[x as int]->0);
        }
    }
    assert(settled(all, barriers, from, dist, all.len() as int));
    assert(edges_valid(all, n)) by {
        assert forall|i: int| 0 <= i < all.len() implies (#[trigger] all[i]).a < n && all[i].b < n
            && all[i].ohms.non_negative() by {
            if i < edges.len() {
                assert(all[i] == edges[i]);
            } else {
                assert(couplings[i - edges.len()].a < n);
            }
        }
    }
    settled_costs_are_least(all, barriers, from, dist);
}

} // verus!
