//! Minimum series resistance between roots.
use vstd::prelude::*;

use crate::quantity::{Ohms, Quantity};
use crate::seqs::listed;

verus! {

/// A conduction edge between two nets.
#[derive(Debug, Clone, Copy, PartialEq, Eq, Structural)]
pub struct Edge {
    /// One end.
    pub a: usize,
    /// The other end.
    pub b: usize,
    /// Its resistance.
    pub ohms: Ohms,
}

/// Every edge joins indices below `n` with a resistance of zero or more:
/// that none is less, and each is a number or infinite, is why relaxing them
/// comes to an end at the least.
pub open spec fn edges_valid(edges: Seq<Edge>, n: nat) -> bool {
    forall|i: int|
        0 <= i < edges.len() ==> (#[trigger] edges[i]).a < n && edges[i].b < n
            && edges[i].ohms.non_negative()
}

/// Whether an edge leads from `x` to `y`, in either direction.
pub open spec fn leads_over(edge: Edge, x: usize, y: usize) -> bool {
    (edge.a == x && edge.b == y) || (edge.a == y && edge.b == x)
}

/// Whether a walk from `from` continues past `x`: a barrier ends every walk
/// but one that starts on it.
pub open spec fn passable(barriers: Seq<usize>, from: usize, x: usize) -> bool {
    x == from || !barriers.contains(x)
}

/// Whether a walk of `steps` edges leads from `from` to `to` at `cost` ohms
/// in series, continuing past no barrier.
pub open spec fn walks(
    edges: Seq<Edge>,
    barriers: Seq<usize>,
    from: usize,
    to: usize,
    cost: Ohms,
    steps: nat,
) -> bool
    decreases steps,
{
    if steps == 0 {
        to == from && cost == Quantity::Finite(0)
    } else {
        exists|e: int, x: usize, c: Ohms|
            #![trigger leads_over(edges[e], x, to), c.plus(edges[e].ohms)]
            0 <= e < edges.len() && leads_over(edges[e], x, to) && passable(barriers, from, x)
                && walks(edges, barriers, from, x, c, (steps - 1) as nat) && cost == c.plus(
                edges[e].ohms,
            )
    }
}

/// Whether some walk leads from `from` to `to` at `cost` ohms.
pub open spec fn path_cost(
    edges: Seq<Edge>,
    barriers: Seq<usize>,
    from: usize,
    to: usize,
    cost: Ohms,
) -> bool {
    exists|steps: nat| #[trigger] walks(edges, barriers, from, to, cost, steps)
}

/// Whether `cost` is the least cost of a walk from `from` to `to`.
pub open spec fn least_cost(
    edges: Seq<Edge>,
    barriers: Seq<usize>,
    from: usize,
    to: usize,
    cost: Ohms,
) -> bool {
    &&& path_cost(edges, barriers, from, to, cost)
    &&& forall|other: Ohms|
        #[trigger] path_cost(edges, barriers, from, to, other) ==> cost.key() <= other.key()
}

/// The minimum series resistance from `from` to `to`; none where no walk
/// leads there.
pub open spec fn path_ohms(
    edges: Seq<Edge>,
    barriers: Seq<usize>,
    from: usize,
    to: usize,
) -> Option<Ohms> {
    if exists|cost: Ohms| path_cost(edges, barriers, from, to, cost) {
        Some(choose|cost: Ohms| least_cost(edges, barriers, from, to, cost))
    } else {
        None
    }
}

/// Nothing is reached past a barrier: a place every edge to which comes from
/// one is no walk's end.
pub proof fn a_barrier_ends_every_path(
    edges: Seq<Edge>,
    barriers: Seq<usize>,
    from: usize,
    to: usize,
)
    requires
        to != from,
        forall|e: int, x: usize|
            0 <= e < edges.len() && #[trigger] leads_over(edges[e], x, to) ==> x != from
                && barriers.contains(x),
    ensures
        path_ohms(edges, barriers, from, to) is None,
{
    assert forall|cost: Ohms| !path_cost(edges, barriers, from, to, cost) by {
        if path_cost(edges, barriers, from, to, cost) {
            let steps = choose|steps: nat| walks(edges, barriers, from, to, cost, steps);
            assert(steps > 0);
        }
    }
}

/// A least cost is the minimum series resistance.
pub proof fn least_cost_is_path_ohms(
    edges: Seq<Edge>,
    barriers: Seq<usize>,
    from: usize,
    to: usize,
    cost: Ohms,
)
    requires
        least_cost(edges, barriers, from, to, cost),
    ensures
        path_ohms(edges, barriers, from, to) == Some(cost),
{
    let other = choose|c: Ohms| least_cost(edges, barriers, from, to, c);
    assert(least_cost(edges, barriers, from, to, other));
    assert(path_cost(edges, barriers, from, to, other));
    assert(other.key() == cost.key());
    assert(other == cost);
}

proof fn walks_cost_no_less_than_nought(
    edges: Seq<Edge>,
    barriers: Seq<usize>,
    from: usize,
    to: usize,
    cost: Ohms,
    steps: nat,
    n: nat,
)
    requires
        edges_valid(edges, n),
        walks(edges, barriers, from, to, cost, steps),
    ensures
        cost.non_negative(),
    decreases steps,
{
    if steps > 0 {
        let (e, x, c) = choose|e: int, x: usize, c: Ohms|
            #![trigger leads_over(edges[e], x, to), c.plus(edges[e].ohms)]
            0 <= e < edges.len() && leads_over(edges[e], x, to) && passable(barriers, from, x)
                && walks(edges, barriers, from, x, c, (steps - 1) as nat) && cost == c.plus(
                edges[e].ohms,
            );
        walks_cost_no_less_than_nought(edges, barriers, from, x, c, (steps - 1) as nat, n);
    }
}

/// A place is no resistance away from itself.
pub proof fn a_place_is_at_itself(
    edges: Seq<Edge>,
    barriers: Seq<usize>,
    from: usize,
    n: nat,
)
    requires
        edges_valid(edges, n),
    ensures
        path_ohms(edges, barriers, from, from) == Some(Quantity::Finite(0)),
{
    let nought = Quantity::Finite(0);
    assert(walks(edges, barriers, from, from, nought, 0));
    assert(path_cost(edges, barriers, from, from, nought));
    assert forall|other: Ohms| #[trigger] path_cost(
        edges,
        barriers,
        from,
        from,
        other,
    ) implies nought.key() <= other.key() by {
        let steps = choose|steps: nat| #[trigger]
            walks(edges, barriers, from, from, other, steps);
        walks_cost_no_less_than_nought(edges, barriers, from, from, other, steps, n);
    }
    least_cost_is_path_ohms(edges, barriers, from, from, nought);
}

/// One edge alone leads from one of its ends to the other at its own
/// resistance.
pub proof fn an_edge_leads_at_its_resistance(
    edge: Edge,
    barriers: Seq<usize>,
    n: nat,
)
    requires
        edge.a != edge.b,
        edge.a < n,
        edge.b < n,
        n <= usize::MAX,
        edge.ohms.non_negative(),
    ensures
        path_ohms(seq![edge], barriers, edge.a, edge.b) == Some(edge.ohms),
        path_ohms(seq![edge], barriers, edge.b, edge.a) == Some(edge.ohms),
{
    one_edge_leads(edge, barriers, edge.a, edge.b, n);
    one_edge_leads(edge, barriers, edge.b, edge.a, n);
}

proof fn one_edge_leads(edge: Edge, barriers: Seq<usize>, from: usize, to: usize, n: nat)
    requires
        from != to,
        leads_over(edge, from, to),
        edge.a < n,
        edge.b < n,
        n <= usize::MAX,
        edge.ohms.non_negative(),
    ensures
        path_ohms(seq![edge], barriers, from, to) == Some(edge.ohms),
{
    let edges = seq![edge];
    let nought = Quantity::Finite(0);
    let dist = Seq::new(
        n,
        |i: int|
            if i == from {
                Some(nought)
            } else if i == to {
                Some(edge.ohms)
            } else {
                None
            },
    );
    assert(edges[0] == edge);
    assert(walks(edges, barriers, from, from, nought, 0));
    assert(path_cost(edges, barriers, from, from, nought));
    walk_extends(edges, barriers, from, from, to, 0, nought);
    assert(nought.plus(edge.ohms) == edge.ohms);
    assert(attained(edges, barriers, from, dist)) by {
        assert forall|i: int| 0 <= i < dist.len() && (#[trigger] dist[i]) is Some implies dist[i]->0
            .non_negative() && path_cost(edges, barriers, from, i as usize, dist[i]->0) by {}
    }
    assert(settled(edges, barriers, from, dist, 1));
    settled_costs_are_least(edges, barriers, from, dist);
    assert(dist[to as int] == path_ohms(edges, barriers, from, to));
}

/// Distances no edge improves.
pub open spec fn settled(
    edges: Seq<Edge>,
    barriers: Seq<usize>,
    from: usize,
    dist: Seq<Option<Ohms>>,
    upto: int,
) -> bool {
    forall|e: int, x: usize, y: usize|
        #![trigger leads_over(edges[e], x, y)]
        0 <= e < upto && leads_over(edges[e], x, y) && passable(barriers, from, x)
            && dist[x as int] is Some ==> dist[y as int] is Some && dist[y as int]->0.key()
            <= dist[x as int]->0.plus(edges[e].ohms).key()
}

proof fn settled_bounds_walks(
    edges: Seq<Edge>,
    barriers: Seq<usize>,
    from: usize,
    dist: Seq<Option<Ohms>>,
    to: usize,
    cost: Ohms,
    steps: nat,
)
    requires
        edges_valid(edges, dist.len()),
        from < dist.len(),
        dist[from as int] is Some,
        dist[from as int]->0.key() <= 0,
        forall|i: int|
            0 <= i < dist.len() && (#[trigger] dist[i]) is Some ==> dist[i]->0.non_negative(),
        settled(edges, barriers, from, dist, edges.len() as int),
        walks(edges, barriers, from, to, cost, steps),
    ensures
        to < dist.len(),
        cost.non_negative(),
        dist[to as int] is Some,
        dist[to as int]->0.key() <= cost.key(),
    decreases steps,
{
    if steps > 0 {
        let (e, x, c) = choose|e: int, x: usize, c: Ohms|
            #![trigger leads_over(edges[e], x, to), c.plus(edges[e].ohms)]
            0 <= e < edges.len() && leads_over(edges[e], x, to) && passable(barriers, from, x)
                && walks(edges, barriers, from, x, c, (steps - 1) as nat) && cost == c.plus(
                edges[e].ohms,
            );
        settled_bounds_walks(edges, barriers, from, dist, x, c, (steps - 1) as nat);
        assert(leads_over(edges[e], x, to));
        assert(dist[x as int]->0.plus(edges[e].ohms).key() <= c.plus(edges[e].ohms).key());
    }
}

/// A walk goes on over an edge.
pub proof fn walk_extends(
    edges: Seq<Edge>,
    barriers: Seq<usize>,
    from: usize,
    x: usize,
    y: usize,
    e: int,
    cost: Ohms,
)
    requires
        0 <= e < edges.len(),
        leads_over(edges[e], x, y),
        passable(barriers, from, x),
        path_cost(edges, barriers, from, x, cost),
    ensures
        path_cost(edges, barriers, from, y, cost.plus(edges[e].ohms)),
{
    let steps = choose|steps: nat| #[trigger] walks(edges, barriers, from, x, cost, steps);
    assert(leads_over(edges[e], x, y));
    assert(walks(edges, barriers, from, y, cost.plus(edges[e].ohms), steps + 1));
}

/// A distance's share of the measure a relaxation decreases.
pub open spec fn weight(entry: Option<Ohms>) -> nat {
    match entry {
        Some(q) => if q.key() >= 0 {
            q.key() as nat
        } else {
            0
        },
        None => (i64::MAX + 3) as nat,
    }
}

/// The sum of the weights.
pub open spec fn total_weight(dist: Seq<Option<Ohms>>) -> nat
    decreases dist.len(),
{
    if dist.len() == 0 {
        0
    } else {
        total_weight(dist.drop_last()) + weight(dist.last())
    }
}

/// Lowering one weight lowers the sum by as much.
pub proof fn total_weight_update(dist: Seq<Option<Ohms>>, i: int, entry: Option<Ohms>)
    requires
        0 <= i < dist.len(),
    ensures
        total_weight(dist.update(i, entry)) + weight(dist[i]) == total_weight(dist) + weight(entry),
    decreases dist.len(),
{
    let updated = dist.update(i, entry);
    if i == dist.len() - 1 {
        assert(updated.drop_last() =~= dist.drop_last());
    } else {
        total_weight_update(dist.drop_last(), i, entry);
        assert(updated.drop_last() =~= dist.drop_last().update(i, entry));
    }
}

/// The distances hold costs of real walks.
pub open spec fn attained(
    edges: Seq<Edge>,
    barriers: Seq<usize>,
    from: usize,
    dist: Seq<Option<Ohms>>,
) -> bool {
    forall|i: int|
        0 <= i < dist.len() && (#[trigger] dist[i]) is Some ==> dist[i]->0.non_negative()
            && path_cost(edges, barriers, from, i as usize, dist[i]->0)
}

/// Costs of real walks that no edge improves are the minimum series
/// resistances.
pub proof fn settled_costs_are_least(
    edges: Seq<Edge>,
    barriers: Seq<usize>,
    from: usize,
    dist: Seq<Option<Ohms>>,
)
    requires
        edges_valid(edges, dist.len()),
        dist.len() <= usize::MAX,
        from < dist.len(),
        dist[from as int] is Some,
        dist[from as int]->0.key() <= 0,
        attained(edges, barriers, from, dist),
        settled(edges, barriers, from, dist, edges.len() as int),
    ensures
        forall|to: int|
            0 <= to < dist.len() ==> #[trigger] dist[to] == path_ohms(
                edges,
                barriers,
                from,
                to as usize,
            ),
{
    assert forall|to: int| 0 <= to < dist.len() implies #[trigger] dist[to] == path_ohms(
        edges,
        barriers,
        from,
        to as usize,
    ) by {
        let t = to as usize;
        assert forall|other: Ohms| #[trigger] path_cost(
            edges,
            barriers,
            from,
            t,
            other,
        ) implies dist[to] is Some && dist[to]->0.key() <= other.key() by {
            let steps = choose|steps: nat| #[trigger]
                walks(edges, barriers, from, t, other, steps);
            settled_bounds_walks(edges, barriers, from, dist, t, other, steps);
        }
        if dist[to] is Some {
            assert(path_cost(edges, barriers, from, t, dist[to]->0));
            least_cost_is_path_ohms(edges, barriers, from, t, dist[to]->0);
        }
    }
}

/// Relax one edge in one direction; true if a distance improved.
fn relax(
    edges: &Vec<Edge>,
    barriers: &Vec<usize>,
    from: usize,
    dist: &mut Vec<Option<Ohms>>,
    e: usize,
    x: usize,
    y: usize,
) -> (changed: bool)
    requires
        edges_valid(edges@, old(dist)@.len()),
        e < edges@.len(),
        leads_over(edges@[e as int], x, y),
        attained(edges@, barriers@, from, old(dist)@),
    ensures
        final(dist)@.len() == old(dist)@.len(),
        attained(edges@, barriers@, from, final(dist)@),
        !changed ==> final(dist)@ == old(dist)@,
        changed ==> total_weight(final(dist)@) < total_weight(old(dist)@),
        forall|i: int|
            0 <= i < old(dist)@.len() && (#[trigger] old(dist)@[i]) is Some ==> final(dist)@[i]
                is Some && final(dist)@[i]->0.key() <= old(dist)@[i]->0.key(),
        !changed && passable(barriers@, from, x) && old(dist)@[x as int] is Some ==> old(
            dist,
        )@[y as int] is Some && old(dist)@[y as int]->0.key() <= old(
            dist,
        )@[x as int]->0.plus(edges@[e as int].ohms).key(),
{
    if x != from && listed(barriers, x) {
        return false;
    }
    let ghost before = dist@;
    if let Some(dx) = dist[x] {
        assert(before[x as int] is Some);
        let candidate = dx.add_to(edges[e].ohms);
        let improves = match dist[y] {
            None => true,
            Some(dy) => candidate.lt(dy),
        };
        if improves {
            proof {
                walk_extends(edges@, barriers@, from, x, y, e as int, dx);
                total_weight_update(before, y as int, Some(candidate));
                assert(before[y as int] is Some ==> before[y as int]->0.non_negative());
                assert(candidate.non_negative());
            }
            dist.set(y, Some(candidate));
            assert(dist@ == before.update(y as int, Some(candidate)));
            return true;
        }
        assert(before[y as int] is Some);
    }
    false
}

/// Minimum series resistance from `from` to every root below `n`, over walks
/// that may end on a barrier and never continue past one.
pub fn min_path_ohms(edges: &Vec<Edge>, from: usize, barriers: &Vec<usize>, n: usize) -> (dist: Vec<
    Option<Ohms>,
>)
    requires
        edges_valid(edges@, n as nat),
        from < n,
    ensures
        dist@.len() == n,
        forall|to: int|
            0 <= to < n ==> #[trigger] dist@[to] == path_ohms(
                edges@,
                barriers@,
                from,
                to as usize,
            ),
{
    let mut dist: Vec<Option<Ohms>> = Vec::new();
    let mut k: usize = 0;
    while k < n
        invariant
            k <= n,
            dist@.len() == k,
            forall|i: int| 0 <= i < k ==> (#[trigger] dist@[i]) is None,
        decreases n - k,
    {
        dist.push(None);
        k += 1;
    }
    dist.set(from, Some(Quantity::Finite(0)));
    assert(walks(edges@, barriers@, from, from, Quantity::Finite(0), 0));
    let mut changed = true;
    while changed
        invariant
            edges_valid(edges@, n as nat),
            from < n,
            dist@.len() == n,
            attained(edges@, barriers@, from, dist@),
            dist@[from as int] is Some,
            dist@[from as int]->0.key() <= 0,
            !changed ==> settled(edges@, barriers@, from, dist@, edges@.len() as int),
        decreases total_weight(dist@), changed as int,
    {
        changed = false;
        let ghost start = dist@;
        let mut e: usize = 0;
        while e < edges.len()
            invariant
                e <= edges@.len(),
                edges_valid(edges@, n as nat),
                from < n,
                dist@.len() == n,
                attained(edges@, barriers@, from, dist@),
                dist@[from as int] is Some,
                dist@[from as int]->0.key() <= 0,
                changed ==> total_weight(dist@) < total_weight(start),
                !changed ==> dist@ == start && settled(edges@, barriers@, from, dist@, e as int),
            decreases edges@.len() - e,
        {
            let edge = edges[e];
            let forward = relax(edges, barriers, from, &mut dist, e, edge.a, edge.b);
            let backward = relax(edges, barriers, from, &mut dist, e, edge.b, edge.a);
            if forward || backward {
                changed = true;
            }
            e += 1;
        }
    }
    proof {
        settled_costs_are_least(edges@, barriers@, from, dist@);
    }
    dist
}

/// No way is shorter than the least: where one leads to a place that may be
/// passed and an edge goes on from it, the place beyond is no farther than the
/// two in series.
pub proof fn an_edge_in_series_bounds_the_path(
    edges: Seq<Edge>,
    barriers: Seq<usize>,
    from: usize,
    x: usize,
    y: usize,
    e: int,
    near: Ohms,
    far: Ohms,
)
    requires
        least_cost(edges, barriers, from, x, near),
        least_cost(edges, barriers, from, y, far),
        0 <= e < edges.len(),
        leads_over(edges[e], x, y),
        passable(barriers, from, x),
    ensures
        path_ohms(edges, barriers, from, x) == Some(near),
        path_ohms(edges, barriers, from, y) == Some(far),
        far.key() <= near.plus(edges[e].ohms).key(),
{
    least_cost_is_path_ohms(edges, barriers, from, x, near);
    least_cost_is_path_ohms(edges, barriers, from, y, far);
    walk_extends(edges, barriers, from, x, y, e, near);
}

} // verus!
