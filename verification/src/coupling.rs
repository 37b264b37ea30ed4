//! Coupling capacitors: how far a rate reaches across them, which crossings
//! it survives, and what it makes of the node it arrives at.
pub mod arrivals;
pub mod laws;
pub mod ways;

use vstd::prelude::*;

use crate::diagnostics::{Finding, FindingView};
use crate::net::{
    Level, Net, NetState, NetVolts, PeriodicSchedule, TheveninDrive, COUPLING_REACTANCE_RATIO,
};
use crate::paths::{edges_valid, passable, total_weight, total_weight_update, Edge};
use crate::phases::{RootResult, RootResultView};
use crate::quantity::{
    reactance, reactance_divisor, reactance_exceeds, reactance_of, Femtofarads, Ohms, Quantity,
    Volts, REACTANCE_SCALE,
};
use crate::seqs::{listed, slot_union, union_list};

verus! {

/// One coupling capacitor between two nets: a path for a rate, open for
/// everything else.
#[derive(Debug)]
pub struct CouplingCapacitor {
    /// One end.
    pub a: usize,
    /// The other end.
    pub b: usize,
    /// Its capacitance.
    pub farads: Femtofarads,
    /// Its reference designator.
    pub reference: String,
}

/// A coupling capacitor between two roots, by its index.
#[derive(Debug, Clone, Copy, PartialEq, Eq, Structural)]
pub struct RootCoupling {
    /// One end's root.
    pub a: usize,
    /// The other end's root.
    pub b: usize,
    /// The capacitor.
    pub capacitor: usize,
}

/// One capacitor crossed on the way from a source, and the root it was
/// crossed into.
#[derive(Debug, Clone, Copy, PartialEq, Eq, Structural)]
pub struct Step {
    /// The capacitor.
    pub capacitor: usize,
    /// The root on its far side.
    pub far_root: usize,
}

/// How a root is reached: the series ohms of the cheapest path, and the
/// capacitors it crosses, source side first.
#[derive(Debug)]
pub struct Reach {
    /// The conduction resistance of the path.
    pub ohms: Ohms,
    /// The capacitors crossed.
    pub path: Vec<Step>,
}

/// [`Reach`] with its path as a sequence.
#[verifier::ext_equal]
pub struct ReachView {
    /// The conduction resistance of the path.
    pub ohms: Ohms,
    /// The capacitors crossed.
    pub path: Seq<Step>,
}

/// A reach table as sequences.
pub open spec fn reach_view(reach: Seq<Option<Reach>>) -> Seq<Option<ReachView>> {
    Seq::new(
        reach.len(),
        |i: int|
            match reach[i] {
                Some(r) => Some(ReachView { ohms: r.ohms, path: r.path@ }),
                None => None,
            },
    )
}

/// Whether a path crosses a capacitor.
pub open spec fn crosses(path: Seq<Step>, capacitor: usize) -> bool {
    exists|i: int| 0 <= i < path.len() && (#[trigger] path[i]).capacitor == capacitor
}

/// The table with `y` reached as `candidate`, if that is strictly cheaper.
pub open spec fn offered(
    reach: Seq<Option<ReachView>>,
    y: usize,
    candidate: ReachView,
) -> Seq<Option<ReachView>> {
    if reach[y as int] is None || candidate.ohms.below(reach[y as int]->0.ohms) {
        reach.update(y as int, Some(candidate))
    } else {
        reach
    }
}

/// The table after a walk along a conduction edge from `x` to `y`.
pub open spec fn after_edge(
    reach: Seq<Option<ReachView>>,
    barriers: Seq<usize>,
    from: usize,
    x: usize,
    y: usize,
    ohms: Ohms,
) -> Seq<Option<ReachView>> {
    if passable(barriers, from, x) && reach[x as int] is Some {
        let here = reach[x as int]->0;
        offered(reach, y, ReachView { ohms: here.ohms.plus(ohms), path: here.path })
    } else {
        reach
    }
}

/// The table after a crossing of a capacitor from `x` to `y`: no path crosses
/// the same capacitor twice.
pub open spec fn after_coupling(
    reach: Seq<Option<ReachView>>,
    barriers: Seq<usize>,
    from: usize,
    x: usize,
    y: usize,
    capacitor: usize,
) -> Seq<Option<ReachView>> {
    if passable(barriers, from, x) && reach[x as int] is Some && !crosses(
        reach[x as int]->0.path,
        capacitor,
    ) {
        let here = reach[x as int]->0;
        offered(
            reach,
            y,
            ReachView { ohms: here.ohms, path: here.path.push(Step { capacitor, far_root: y }) },
        )
    } else {
        reach
    }
}

/// The table after the first `k` edges, each in both directions.
pub open spec fn after_edges(
    reach: Seq<Option<ReachView>>,
    edges: Seq<Edge>,
    barriers: Seq<usize>,
    from: usize,
    k: nat,
) -> Seq<Option<ReachView>>
    decreases k,
{
    if k == 0 {
        reach
    } else {
        let edge = edges[k - 1];
        let before = after_edges(reach, edges, barriers, from, (k - 1) as nat);
        let there = after_edge(before, barriers, from, edge.a, edge.b, edge.ohms);
        after_edge(there, barriers, from, edge.b, edge.a, edge.ohms)
    }
}

/// The table after the first `k` capacitors, each in both directions.
pub open spec fn after_couplings(
    reach: Seq<Option<ReachView>>,
    couplings: Seq<RootCoupling>,
    barriers: Seq<usize>,
    from: usize,
    k: nat,
) -> Seq<Option<ReachView>>
    decreases k,
{
    if k == 0 {
        reach
    } else {
        let c = couplings[k - 1];
        let before = after_couplings(reach, couplings, barriers, from, (k - 1) as nat);
        let there = after_coupling(before, barriers, from, c.a, c.b, c.capacitor);
        after_coupling(there, barriers, from, c.b, c.a, c.capacitor)
    }
}

/// The table after one round over every edge and every capacitor.
pub open spec fn after_round(
    reach: Seq<Option<ReachView>>,
    edges: Seq<Edge>,
    couplings: Seq<RootCoupling>,
    barriers: Seq<usize>,
    from: usize,
) -> Seq<Option<ReachView>> {
    after_couplings(
        after_edges(reach, edges, barriers, from, edges.len()),
        couplings,
        barriers,
        from,
        couplings.len(),
    )
}

/// Only the start is reached.
pub open spec fn start_reach(n: nat, from: usize) -> Seq<Option<ReachView>> {
    Seq::new(
        n,
        |i: int|
            if i == from {
                Some(ReachView { ohms: Quantity::Finite(0), path: Seq::empty() })
            } else {
                None
            },
    )
}

/// The table after `rounds` rounds.
pub open spec fn after_rounds(
    n: nat,
    edges: Seq<Edge>,
    couplings: Seq<RootCoupling>,
    barriers: Seq<usize>,
    from: usize,
    rounds: nat,
) -> Seq<Option<ReachView>>
    decreases rounds,
{
    if rounds == 0 {
        start_reach(n, from)
    } else {
        after_round(
            after_rounds(n, edges, couplings, barriers, from, (rounds - 1) as nat),
            edges,
            couplings,
            barriers,
            from,
        )
    }
}

/// Whether `rounds` rounds leave nothing for another to improve.
pub open spec fn rounds_settle(
    n: nat,
    edges: Seq<Edge>,
    couplings: Seq<RootCoupling>,
    barriers: Seq<usize>,
    from: usize,
    rounds: nat,
) -> bool {
    let reach = after_rounds(n, edges, couplings, barriers, from, rounds);
    after_round(reach, edges, couplings, barriers, from) == reach
}

/// How every root below `n` is reached from `from` over conduction edges and
/// over capacitors at no resistance: a strictly cheaper path replaces, an
/// equal one does not, until no round improves a path.
pub open spec fn reach_of(
    n: nat,
    edges: Seq<Edge>,
    couplings: Seq<RootCoupling>,
    barriers: Seq<usize>,
    from: usize,
) -> Seq<Option<ReachView>> {
    after_rounds(
        n,
        edges,
        couplings,
        barriers,
        from,
        choose|rounds: nat| rounds_settle(n, edges, couplings, barriers, from, rounds),
    )
}

proof fn rounds_stay_settled(
    n: nat,
    edges: Seq<Edge>,
    couplings: Seq<RootCoupling>,
    barriers: Seq<usize>,
    from: usize,
    rounds: nat,
    more: nat,
)
    requires
        rounds_settle(n, edges, couplings, barriers, from, rounds),
        rounds <= more,
    ensures
        after_rounds(n, edges, couplings, barriers, from, more) == after_rounds(
            n,
            edges,
            couplings,
            barriers,
            from,
            rounds,
        ),
    decreases more - rounds,
{
    if rounds < more {
        rounds_stay_settled(n, edges, couplings, barriers, from, rounds, (more - 1) as nat);
    }
}

proof fn settled_rounds_give_reach(
    n: nat,
    edges: Seq<Edge>,
    couplings: Seq<RootCoupling>,
    barriers: Seq<usize>,
    from: usize,
    rounds: nat,
)
    requires
        rounds_settle(n, edges, couplings, barriers, from, rounds),
    ensures
        after_rounds(n, edges, couplings, barriers, from, rounds) == reach_of(
            n,
            edges,
            couplings,
            barriers,
            from,
        ),
{
    let other = choose|r: nat| rounds_settle(n, edges, couplings, barriers, from, r);
    assert(rounds_settle(n, edges, couplings, barriers, from, other));
    if rounds <= other {
        rounds_stay_settled(n, edges, couplings, barriers, from, rounds, other);
    } else {
        rounds_stay_settled(n, edges, couplings, barriers, from, other, rounds);
    }
}

/// Every path of the table crosses each capacitor at most once, and starts
/// and ends where it says.
pub open spec fn crosses_once(reach: Seq<Option<ReachView>>) -> bool {
    forall|i: int, j: int, k: int|
        #![trigger reach[i]->0.path[j], reach[i]->0.path[k]]
        0 <= i < reach.len() && reach[i] is Some && 0 <= j < k < reach[i]->0.path.len()
            ==> reach[i]->0.path[j].capacitor != reach[i]->0.path[k].capacitor
}

proof fn after_coupling_crosses_once(
    reach: Seq<Option<ReachView>>,
    barriers: Seq<usize>,
    from: usize,
    x: usize,
    y: usize,
    capacitor: usize,
)
    requires
        crosses_once(reach),
        x < reach.len(),
        y < reach.len(),
    ensures
        crosses_once(after_coupling(reach, barriers, from, x, y, capacitor)),
{
    let after = after_coupling(reach, barriers, from, x, y, capacitor);
    if after != reach {
        let path = reach[x as int]->0.path;
        assert forall|i: int, j: int, k: int|
            #![trigger after[i]->0.path[j], after[i]->0.path[k]]
            0 <= i < after.len() && after[i] is Some && 0 <= j < k
                < after[i]->0.path.len() implies after[i]->0.path[j].capacitor
            != after[i]->0.path[k].capacitor by {
            if i == y {
                let longer = path.push(Step { capacitor, far_root: y });
                assert(after[i]->0.path == longer);
                assert(longer[j] == path[j]);
                if k < path.len() {
                    assert(reach[x as int]->0.path[j].capacitor
                        != reach[x as int]->0.path[k].capacitor);
                } else {
                    assert(path[j].capacitor != capacitor);
                }
            } else {
                assert(reach[i]->0.path[j].capacitor != reach[i]->0.path[k].capacitor);
            }
        }
    }
}

proof fn after_edge_crosses_once(
    reach: Seq<Option<ReachView>>,
    barriers: Seq<usize>,
    from: usize,
    x: usize,
    y: usize,
    ohms: Ohms,
)
    requires
        crosses_once(reach),
        x < reach.len(),
        y < reach.len(),
    ensures
        crosses_once(after_edge(reach, barriers, from, x, y, ohms)),
{
    let after = after_edge(reach, barriers, from, x, y, ohms);
    assert forall|i: int, j: int, k: int|
        #![trigger after[i]->0.path[j], after[i]->0.path[k]]
        0 <= i < after.len() && after[i] is Some && 0 <= j < k
            < after[i]->0.path.len() implies after[i]->0.path[j].capacitor
        != after[i]->0.path[k].capacitor by {
        if i == y && after != reach {
            assert(after[i]->0.path == reach[x as int]->0.path);
            assert(reach[x as int]->0.path[j].capacitor != reach[x as int]->0.path[k].capacitor);
        } else {
            assert(reach[i]->0.path[j].capacitor != reach[i]->0.path[k].capacitor);
        }
    }
}

/// Every coupling joins indices below `n`.
pub open spec fn couplings_valid(couplings: Seq<RootCoupling>, n: nat) -> bool {
    forall|i: int|
        0 <= i < couplings.len() ==> (#[trigger] couplings[i]).a < n && couplings[i].b < n
}

proof fn after_edges_crosses_once(
    reach: Seq<Option<ReachView>>,
    edges: Seq<Edge>,
    barriers: Seq<usize>,
    from: usize,
    k: nat,
)
    requires
        crosses_once(reach),
        edges_valid(edges, reach.len()),
        k <= edges.len(),
    ensures
        crosses_once(after_edges(reach, edges, barriers, from, k)),
        after_edges(reach, edges, barriers, from, k).len() == reach.len(),
    decreases k,
{
    if k > 0 {
        let edge = edges[k - 1];
        after_edges_crosses_once(reach, edges, barriers, from, (k - 1) as nat);
        let before = after_edges(reach, edges, barriers, from, (k - 1) as nat);
        after_edge_crosses_once(before, barriers, from, edge.a, edge.b, edge.ohms);
        let there = after_edge(before, barriers, from, edge.a, edge.b, edge.ohms);
        after_edge_crosses_once(there, barriers, from, edge.b, edge.a, edge.ohms);
    }
}

proof fn after_couplings_crosses_once(
    reach: Seq<Option<ReachView>>,
    couplings: Seq<RootCoupling>,
    barriers: Seq<usize>,
    from: usize,
    k: nat,
)
    requires
        crosses_once(reach),
        couplings_valid(couplings, reach.len()),
        k <= couplings.len(),
    ensures
        crosses_once(after_couplings(reach, couplings, barriers, from, k)),
        after_couplings(reach, couplings, barriers, from, k).len() == reach.len(),
    decreases k,
{
    if k > 0 {
        let c = couplings[k - 1];
        after_couplings_crosses_once(reach, couplings, barriers, from, (k - 1) as nat);
        let before = after_couplings(reach, couplings, barriers, from, (k - 1) as nat);
        after_coupling_crosses_once(before, barriers, from, c.a, c.b, c.capacitor);
        let there = after_coupling(before, barriers, from, c.a, c.b, c.capacitor);
        after_coupling_crosses_once(there, barriers, from, c.b, c.a, c.capacitor);
    }
}

proof fn after_rounds_crosses_once(
    n: nat,
    edges: Seq<Edge>,
    couplings: Seq<RootCoupling>,
    barriers: Seq<usize>,
    from: usize,
    rounds: nat,
)
    requires
        edges_valid(edges, n),
        couplings_valid(couplings, n),
    ensures
        crosses_once(after_rounds(n, edges, couplings, barriers, from, rounds)),
        after_rounds(n, edges, couplings, barriers, from, rounds).len() == n,
    decreases rounds,
{
    if rounds > 0 {
        after_rounds_crosses_once(n, edges, couplings, barriers, from, (rounds - 1) as nat);
        let reach = after_rounds(n, edges, couplings, barriers, from, (rounds - 1) as nat);
        after_edges_crosses_once(reach, edges, barriers, from, edges.len());
        let mid = after_edges(reach, edges, barriers, from, edges.len());
        after_couplings_crosses_once(mid, couplings, barriers, from, couplings.len());
    } else {
        let reach = after_rounds(n, edges, couplings, barriers, from, 0);
        assert forall|i: int| 0 <= i < reach.len() && reach[i] is Some implies (
        #[trigger] reach[i])->0.path.len() == 0 by {}
    }
}

/// No path crosses the same capacitor twice.
pub proof fn reach_crosses_each_capacitor_once(
    n: nat,
    edges: Seq<Edge>,
    couplings: Seq<RootCoupling>,
    barriers: Seq<usize>,
    from: usize,
)
    requires
        edges_valid(edges, n),
        couplings_valid(couplings, n),
    ensures
        crosses_once(reach_of(n, edges, couplings, barriers, from)),
{
    let rounds = choose|rounds: nat|
        rounds_settle(n, edges, couplings, barriers, from, rounds);
    after_rounds_crosses_once(n, edges, couplings, barriers, from, rounds);
}

/// The resistances of a reach table.
pub open spec fn reach_ohms(reach: Seq<Option<ReachView>>) -> Seq<Option<Ohms>> {
    Seq::new(
        reach.len(),
        |i: int|
            match reach[i] {
                Some(r) => Some(r.ohms),
                None => None,
            },
    )
}

/// Every resistance is zero or more.
pub open spec fn reach_non_negative(reach: Seq<Option<ReachView>>) -> bool {
    forall|i: int|
        0 <= i < reach.len() && (#[trigger] reach[i]) is Some ==> reach[i]->0.ohms.non_negative()
}

/// A cheaper path lowers the sum of the weights.
pub proof fn offer_decreases(reach: Seq<Option<ReachView>>, y: usize, candidate: ReachView)
    requires
        y < reach.len(),
        reach_non_negative(reach),
        candidate.ohms.non_negative(),
        reach[y as int] is None || candidate.ohms.below(reach[y as int]->0.ohms),
    ensures
        total_weight(reach_ohms(offered(reach, y, candidate))) < total_weight(reach_ohms(reach)),
        reach_non_negative(offered(reach, y, candidate)),
{
    let ohms = reach_ohms(reach);
    total_weight_update(ohms, y as int, Some(candidate.ohms));
    assert(reach_ohms(offered(reach, y, candidate)) =~= ohms.update(
        y as int,
        Some(candidate.ohms),
    ));
}

fn copy_path(path: &Vec<Step>) -> (r: Vec<Step>)
    ensures
        r@ == path@,
{
    let mut r: Vec<Step> = Vec::new();
    let mut i: usize = 0;
    while i < path.len()
        invariant
            i <= path@.len(),
            r@ =~= path@.take(i as int),
        decreases path@.len() - i,
    {
        r.push(path[i]);
        i += 1;
    }
    r
}

fn path_crosses(path: &Vec<Step>, capacitor: usize) -> (r: bool)
    ensures
        r == crosses(path@, capacitor),
{
    let mut i: usize = 0;
    while i < path.len()
        invariant
            i <= path@.len(),
            forall|j: int| 0 <= j < i ==> (#[trigger] path@[j]).capacitor != capacitor,
        decreases path@.len() - i,
    {
        if path[i].capacitor == capacitor {
            assert(path@[i as int].capacitor == capacitor);
            return true;
        }
        i += 1;
    }
    false
}

/// Relax one link from `x` to `y`: a conduction edge of `ohms`, or, where
/// `capacitor` is given, a crossing at no resistance. True if a path
/// improved.
fn relax_link(
    reach: &mut Vec<Option<Reach>>,
    barriers: &Vec<usize>,
    from: usize,
    x: usize,
    y: usize,
    ohms: Ohms,
    capacitor: Option<usize>,
) -> (changed: bool)
    requires
        x < old(reach)@.len(),
        y < old(reach)@.len(),
        ohms.non_negative(),
        reach_non_negative(reach_view(old(reach)@)),
    ensures
        final(reach)@.len() == old(reach)@.len(),
        reach_non_negative(reach_view(final(reach)@)),
        reach_view(final(reach)@) == (match capacitor {
            Some(ci) => after_coupling(reach_view(old(reach)@), barriers@, from, x, y, ci),
            None => after_edge(reach_view(old(reach)@), barriers@, from, x, y, ohms),
        }),
        !changed ==> reach_view(final(reach)@) == reach_view(old(reach)@),
        changed ==> total_weight(reach_ohms(reach_view(final(reach)@))) < total_weight(
            reach_ohms(reach_view(old(reach)@)),
        ),
{
    let ghost before = reach_view(reach@);
    if x != from && listed(barriers, x) {
        return false;
    }
    let candidate: Reach = match &reach[x] {
        None => {
            assert(before[x as int] is None);
            return false;
        },
        Some(here) => {
            assert(before[x as int] == Some(ReachView { ohms: here.ohms, path: here.path@ }));
            match capacitor {
                Some(ci) => {
                    if path_crosses(&here.path, ci) {
                        return false;
                    }
                    let mut path = copy_path(&here.path);
                    path.push(Step { capacitor: ci, far_root: y });
                    Reach { ohms: here.ohms, path }
                },
                None => Reach { ohms: here.ohms.add_to(ohms), path: copy_path(&here.path) },
            }
        },
    };
    let improves = match &reach[y] {
        None => {
            assert(before[y as int] is None);
            true
        },
        Some(there) => {
            assert(before[y as int] == Some(ReachView { ohms: there.ohms, path: there.path@ }));
            candidate.ohms.lt(there.ohms)
        },
    };
    if improves {
        let ghost view = ReachView { ohms: candidate.ohms, path: candidate.path@ };
        proof {
            offer_decreases(before, y, view);
        }
        reach.set(y, Some(candidate));
        assert(reach_view(reach@) =~= before.update(y as int, Some(view)));
        true
    } else {
        false
    }
}

/// How every root below `n` is reached from `from` over conduction edges and
/// over coupling capacitors as links of no resistance.
pub fn coupled_reach(
    edges: &Vec<Edge>,
    couplings: &Vec<RootCoupling>,
    from: usize,
    barriers: &Vec<usize>,
    n: usize,
) -> (reach: Vec<Option<Reach>>)
    requires
        edges_valid(edges@, n as nat),
        couplings_valid(couplings@, n as nat),
        from < n,
    ensures
        reach@.len() == n,
        reach_view(reach@) == reach_of(n as nat, edges@, couplings@, barriers@, from),
{
    let mut reach: Vec<Option<Reach>> = Vec::new();
    let mut k: usize = 0;
    while k < n
        invariant
            k <= n,
            reach@.len() == k,
            reach_view(reach@) == Seq::new(
                k as nat,
                |i: int| start_reach(n as nat, from)[i],
            ),
        decreases n - k,
    {
        let ghost before = reach_view(reach@);
        if k == from {
            reach.push(Some(Reach { ohms: Quantity::Finite(0), path: Vec::new() }));
        } else {
            reach.push(None);
        }
        assert(reach_view(reach@) =~= before.push(start_reach(n as nat, from)[k as int]));
        assert(reach_view(reach@) =~= Seq::new(
            (k + 1) as nat,
            |i: int| start_reach(n as nat, from)[i],
        ));
        k += 1;
    }
    assert(reach_view(reach@) =~= start_reach(n as nat, from));
    let ghost mut rounds: nat = 0;
    let mut changed = true;
    while changed
        invariant
            edges_valid(edges@, n as nat),
            couplings_valid(couplings@, n as nat),
            from < n,
            reach@.len() == n,
            reach_non_negative(reach_view(reach@)),
            reach_view(reach@) == after_rounds(
                n as nat,
                edges@,
                couplings@,
                barriers@,
                from,
                rounds,
            ),
            !changed ==> after_round(reach_view(reach@), edges@, couplings@, barriers@, from)
                == reach_view(reach@),
        decreases total_weight(reach_ohms(reach_view(reach@))), changed as int,
    {
        changed = false;
        let ghost start = reach_view(reach@);
        let mut e: usize = 0;
        while e < edges.len()
            invariant
                e <= edges@.len(),
                edges_valid(edges@, n as nat),
                from < n,
                reach@.len() == n,
                reach_non_negative(reach_view(reach@)),
                reach_view(reach@) == after_edges(start, edges@, barriers@, from, e as nat),
                changed ==> total_weight(reach_ohms(reach_view(reach@))) < total_weight(
                    reach_ohms(start),
                ),
                !changed ==> reach_view(reach@) == start,
            decreases edges@.len() - e,
        {
            let edge = edges[e];
            let there = relax_link(&mut reach, barriers, from, edge.a, edge.b, edge.ohms, None);
            let back = relax_link(&mut reach, barriers, from, edge.b, edge.a, edge.ohms, None);
            if there || back {
                changed = true;
            }
            e += 1;
        }
        let ghost mid = reach_view(reach@);
        let mut c: usize = 0;
        while c < couplings.len()
            invariant
                c <= couplings@.len(),
                couplings_valid(couplings@, n as nat),
                from < n,
                reach@.len() == n,
                reach_non_negative(reach_view(reach@)),
                reach_view(reach@) == after_couplings(mid, couplings@, barriers@, from, c as nat),
                changed ==> total_weight(reach_ohms(reach_view(reach@))) < total_weight(
                    reach_ohms(start),
                ),
                !changed ==> reach_view(reach@) == start,
            decreases couplings@.len() - c,
        {
            let link = couplings[c];
            let zero = Quantity::Finite(0);
            let there = relax_link(
                &mut reach,
                barriers,
                from,
                link.a,
                link.b,
                zero,
                Some(link.capacitor),
            );
            let back = relax_link(
                &mut reach,
                barriers,
                from,
                link.b,
                link.a,
                zero,
                Some(link.capacitor),
            );
            if there || back {
                changed = true;
            }
            c += 1;
        }
        proof {
            assert(reach_view(reach@) == after_round(start, edges@, couplings@, barriers@, from));
            rounds = rounds + 1;
        }
    }
    proof {
        assert(rounds_settle(n as nat, edges@, couplings@, barriers@, from, rounds));
        settled_rounds_give_reach(n as nat, edges@, couplings@, barriers@, from, rounds);
    }
    reach
}

/// One capacitor a rate crosses on its way to a node, with the far node's
/// resistance its reactance is judged against.
#[derive(Debug, Clone, Copy, PartialEq, Eq, Structural)]
pub struct CouplingCrossing {
    /// The capacitor.
    pub capacitor: usize,
    /// The root on its far side.
    pub far_root: usize,
    /// Its capacitance.
    pub farads: Femtofarads,
    /// The far node's resistance: its smallest conduction edge, or infinite
    /// where nothing resistive touches it.
    pub far_ohms: Ohms,
}

/// Whether a crossing stops a rate: the reactance, `1/(2 * pi * f * C)`, is
/// more than a tenth of the far node's resistance. A held segment crosses
/// everything.
pub open spec fn refuses(crossing: CouplingCrossing, hz: u32) -> bool {
    hz > 0 && match crossing.far_ohms {
        Quantity::Finite(far) => far * reactance_divisor(hz, crossing.farads)
            < COUPLING_REACTANCE_RATIO * REACTANCE_SCALE,
        Quantity::NegInfinite => true,
        _ => false,
    }
}

/// One root a slot's rate reaches across capacitors, and the crossings on the
/// way.
#[derive(Debug)]
pub struct CoupledRoot {
    /// The root reached.
    pub root: usize,
    /// The crossings, source side first.
    pub crossings: Vec<CouplingCrossing>,
}

/// [`CoupledRoot`] with its crossings as a sequence.
#[verifier::ext_equal]
pub struct CoupledRootView {
    /// The root reached.
    pub root: usize,
    /// The crossings.
    pub crossings: Seq<CouplingCrossing>,
}

impl View for CoupledRoot {
    type V = CoupledRootView;

    open spec fn view(&self) -> CoupledRootView {
        CoupledRootView { root: self.root, crossings: self.crossings@ }
    }
}

/// A periodic drive's rate arriving at a root across capacitors.
#[derive(Debug)]
pub struct Arrival {
    /// The root it arrives at.
    pub root: usize,
    /// The slot it comes from.
    pub slot: usize,
    /// The capacitors it crosses.
    pub crossings: Vec<CouplingCrossing>,
    /// The level its high phase projects to at the source.
    pub hi: Level,
    /// The level its low phase projects to at the source.
    pub lo: Level,
    /// The source's two port voltages: the swing a capacitor passes.
    pub swing: (Option<Volts>, Option<Volts>),
    /// Its segment.
    pub segment: PeriodicSchedule,
}

/// [`Arrival`] with its crossings as a sequence.
#[verifier::ext_equal]
pub struct ArrivalView {
    /// The root it arrives at.
    pub root: usize,
    /// The slot it comes from.
    pub slot: usize,
    /// The capacitors it crosses.
    pub crossings: Seq<CouplingCrossing>,
    /// The level of its high phase.
    pub hi: Level,
    /// The level of its low phase.
    pub lo: Level,
    /// The swing.
    pub swing: (Option<Volts>, Option<Volts>),
    /// Its segment.
    pub segment: PeriodicSchedule,
}

impl View for Arrival {
    type V = ArrivalView;

    open spec fn view(&self) -> ArrivalView {
        ArrivalView {
            root: self.root,
            slot: self.slot,
            crossings: self.crossings@,
            hi: self.hi,
            lo: self.lo,
            swing: self.swing,
            segment: self.segment,
        }
    }
}

/// Arrivals as their views.
pub open spec fn arrivals_view(arrivals: Seq<Arrival>) -> Seq<ArrivalView> {
    Seq::new(arrivals.len(), |i: int| arrivals[i]@)
}

/// A port's voltage, where it is a number.
pub open spec fn port_volts(port: TheveninDrive) -> Option<Volts> {
    if port.volts.finite() {
        Some(port.volts)
    } else {
        None
    }
}

impl Arrival {
    /// A periodic drive's two port voltages as the swing a capacitor passes,
    /// none for a port whose voltage is no number.
    pub fn swing_of(hi: TheveninDrive, lo: TheveninDrive) -> (r: (Option<Volts>, Option<Volts>))
        ensures
            r == (port_volts(hi), port_volts(lo)),
    {
        let high = if hi.volts.is_finite() {
            Some(hi.volts)
        } else {
            None
        };
        let low = if lo.volts.is_finite() {
            Some(lo.volts)
        } else {
            None
        };
        (high, low)
    }
}

/// The first of the crossings that stops the rate.
pub open spec fn first_refusal(crossings: Seq<CouplingCrossing>, hz: u32) -> Option<
    CouplingCrossing,
>
    decreases crossings.len(),
{
    if crossings.len() == 0 {
        None
    } else if refuses(crossings[0], hz) {
        Some(crossings[0])
    } else {
        first_refusal(crossings.drop_first(), hz)
    }
}

/// The first of an arrival's crossings that stops its rate.
pub open spec fn refusal(arrival: ArrivalView) -> Option<CouplingCrossing> {
    first_refusal(arrival.crossings, arrival.segment.freq_hz)
}

/// What names a net and a capacitor in a finding.
pub struct CouplingNames {
    /// Every net's name.
    pub nets: Seq<Seq<char>>,
    /// Every capacitor's reference.
    pub capacitors: Seq<Seq<char>>,
}

/// The finding a refused crossing is.
pub open spec fn refusal_finding(
    names: CouplingNames,
    crossing: CouplingCrossing,
    hz: u32,
) -> FindingView {
    FindingView::PeriodicNotCoupled {
        net: names.nets[crossing.far_root as int],
        capacitor: names.capacitors[crossing.capacitor as int],
        hz,
        reactance_ohms: reactance_of(hz, crossing.farads),
        far_ohms: crossing.far_ohms,
    }
}

/// The refused crossings of a list of arrivals, each with the far root.
pub open spec fn refusals(names: CouplingNames, arrivals: Seq<ArrivalView>) -> Seq<
    (usize, FindingView),
>
    decreases arrivals.len(),
{
    if arrivals.len() == 0 {
        Seq::empty()
    } else {
        let rest = refusals(names, arrivals.drop_last());
        let last = arrivals.last();
        match refusal(last) {
            Some(crossing) => rest.push(
                (crossing.far_root, refusal_finding(names, crossing, last.segment.freq_hz)),
            ),
            None => rest,
        }
    }
}

/// The arrivals at a root that nothing on the way refused.
pub open spec fn crossed_at(arrivals: Seq<ArrivalView>, root: usize) -> Seq<ArrivalView>
    decreases arrivals.len(),
{
    if arrivals.len() == 0 {
        Seq::empty()
    } else {
        let rest = crossed_at(arrivals.drop_last(), root);
        let last = arrivals.last();
        if last.root == root && refusal(last) is None {
            rest.push(last)
        } else {
            rest
        }
    }
}

/// The slots of a list of arrivals.
pub open spec fn arrival_slots(arrivals: Seq<ArrivalView>) -> Seq<usize> {
    Seq::new(arrivals.len(), |i: int| arrivals[i].slot)
}

/// What a root publishes with the rates arriving at it over what its own
/// cluster resolved, `driving` being the periodic slots of its own cluster
/// that contend on it.
///
/// A fought root takes no rate. One rate alone makes the root that rate's
/// square wave. Two rates, or one onto a root a clock already drives, are
/// contention naming every slot.
pub open spec fn overlaid(
    result: RootResultView,
    arrived: Seq<ArrivalView>,
    driving: Seq<usize>,
) -> RootResultView {
    if result.state == NetState::Contention || arrived.len() == 0 {
        result
    } else if arrived.len() == 1 && driving.len() == 0 {
        let only = arrived[0];
        RootResultView {
            state: NetState::Periodic { hi: only.hi, lo: only.lo, segment: only.segment },
            volts: NetVolts { dc: None, phases: Some(only.swing) },
            ..result
        }
    } else {
        let named = union_list(arrival_slots(arrived), driving);
        RootResultView {
            state: NetState::Contention,
            volts: NetVolts::unnamed(),
            fight: Some(
                match result.fight {
                    Some(existing) => union_list(existing, named),
                    None => named,
                },
            ),
            ..result
        }
    }
}

/// Whether a crossing stops a rate.
fn crossing_refuses(crossing: &CouplingCrossing, hz: u32) -> (r: bool)
    ensures
        r == refuses(*crossing, hz),
{
    hz > 0 && match crossing.far_ohms {
        Quantity::Finite(far) => reactance_exceeds(hz, crossing.farads, far, COUPLING_REACTANCE_RATIO),
        Quantity::NegInfinite => true,
        _ => false,
    }
}

/// The first crossing that stops an arrival's rate.
fn refused_by(arrival: &Arrival) -> (r: Option<CouplingCrossing>)
    ensures
        r == refusal(arrival@),
{
    let mut i: usize = 0;
    let ghost all = arrival.crossings@;
    assert(all.skip(0) =~= all);
    while i < arrival.crossings.len()
        invariant
            i <= arrival.crossings@.len(),
            all == arrival.crossings@,
            first_refusal(all, arrival.segment.freq_hz) == first_refusal(
                all.skip(i as int),
                arrival.segment.freq_hz,
            ),
        decreases arrival.crossings@.len() - i,
    {
        assert(all.skip(i as int).drop_first() =~= all.skip(i + 1));
        if crossing_refuses(&arrival.crossings[i], arrival.segment.freq_hz) {
            return Some(arrival.crossings[i]);
        }
        i += 1;
    }
    None
}

/// The names a board's nets and capacitors carry.
pub open spec fn coupling_names(nets: Seq<Net>, couplings: Seq<CouplingCapacitor>) -> CouplingNames {
    CouplingNames {
        nets: Seq::new(nets.len(), |i: int| nets[i].name@),
        capacitors: Seq::new(couplings.len(), |i: int| couplings[i].reference@),
    }
}

/// A keyed list of findings as views.
pub open spec fn keyed_view(list: Seq<(usize, Finding)>) -> Seq<(usize, FindingView)> {
    Seq::new(list.len(), |i: int| (list[i].0, list[i].1@))
}

/// Whether every crossing names a net and a capacitor of the board.
pub open spec fn arrivals_valid(arrivals: Seq<ArrivalView>, nets: nat, couplings: nat) -> bool {
    forall|i: int, j: int|
        #![trigger arrivals[i].crossings[j]]
        0 <= i < arrivals.len() && 0 <= j < arrivals[i].crossings.len()
            ==> arrivals[i].crossings[j].far_root < nets && arrivals[i].crossings[j].capacitor
            < couplings
}

proof fn refusal_is_a_crossing(crossings: Seq<CouplingCrossing>, hz: u32)
    ensures
        first_refusal(crossings, hz) matches Some(c) ==> exists|j: int|
            0 <= j < crossings.len() && #[trigger] crossings[j] == c,
    decreases crossings.len(),
{
    if crossings.len() > 0 {
        if refuses(crossings[0], hz) {
            assert(crossings[0] == first_refusal(crossings, hz)->0);
        } else {
            refusal_is_a_crossing(crossings.drop_first(), hz);
            if let Some(c) = first_refusal(crossings, hz) {
                let j = choose|j: int|
                    0 <= j < crossings.drop_first().len() && #[trigger] crossings.drop_first()[j]
                        == c;
                assert(crossings[j + 1] == c);
            }
        }
    }
}

/// The refused crossings of a list of arrivals, each keyed by its far root.
pub fn refused_crossings(
    arrivals: &Vec<Arrival>,
    nets: &Vec<Net>,
    couplings: &Vec<CouplingCapacitor>,
) -> (r: Vec<(usize, Finding)>)
    requires
        arrivals_valid(arrivals_view(arrivals@), nets@.len(), couplings@.len()),
    ensures
        keyed_view(r@) == refusals(
            coupling_names(nets@, couplings@),
            arrivals_view(arrivals@),
        ),
{
    let mut r: Vec<(usize, Finding)> = Vec::new();
    let ghost names = coupling_names(nets@, couplings@);
    let ghost all = arrivals_view(arrivals@);
    let mut i: usize = 0;
    assert(all.take(0) =~= Seq::<ArrivalView>::empty());
    assert(keyed_view(r@) =~= Seq::<(usize, FindingView)>::empty());
    while i < arrivals.len()
        invariant
            i <= arrivals@.len(),
            all == arrivals_view(arrivals@),
            names == coupling_names(nets@, couplings@),
            arrivals_valid(all, nets@.len(), couplings@.len()),
            keyed_view(r@) == refusals(names, all.take(i as int)),
        decreases arrivals@.len() - i,
    {
        assert(all.take(i + 1).drop_last() =~= all.take(i as int));
        assert(all.take(i + 1).last() == all[i as int]);
        let arrival = &arrivals[i];
        if let Some(crossing) = refused_by(arrival) {
            proof {
                refusal_is_a_crossing(arrival.crossings@, arrival.segment.freq_hz);
                let j = choose|j: int|
                    0 <= j < arrival.crossings@.len() && #[trigger] arrival.crossings@[j]
                        == crossing;
                assert(all[i as int].crossings[j] == crossing);
            }
            let hz: u32 = arrival.segment.freq_hz;
            let ghost before = keyed_view(r@);
            let finding = Finding::PeriodicNotCoupled {
                net: nets[crossing.far_root].name.clone(),
                capacitor: couplings[crossing.capacitor].reference.clone(),
                hz,
                reactance_ohms: reactance(hz, crossing.farads),
                far_ohms: crossing.far_ohms,
            };
            let ghost view = finding@;
            r.push((crossing.far_root, finding));
            assert(keyed_view(r@) =~= before.push((crossing.far_root, view)));
        }
        i += 1;
    }
    assert(all.take(i as int) =~= all);
    r
}

/// What a root publishes with the rates arriving at it.
pub fn overlay_arrivals(
    result: RootResult,
    root: usize,
    arrivals: &Vec<Arrival>,
    driving: &Vec<usize>,
) -> (r: RootResult)
    ensures
        r@ == overlaid(result@, crossed_at(arrivals_view(arrivals@), root), driving@),
{
    let ghost all = arrivals_view(arrivals@);
    let mut slots: Vec<usize> = Vec::new();
    let mut last: Option<usize> = None;
    let mut i: usize = 0;
    assert(all.take(0) =~= Seq::<ArrivalView>::empty());
    while i < arrivals.len()
        invariant
            i <= arrivals@.len(),
            all == arrivals_view(arrivals@),
            slots@ =~= arrival_slots(crossed_at(all.take(i as int), root)),
            last is None <==> slots@.len() == 0,
            match last {
                Some(k) => k < i && crossed_at(all.take(i as int), root).last() == all[k as int],
                None => true,
            },
        decreases arrivals@.len() - i,
    {
        assert(all.take(i + 1).drop_last() =~= all.take(i as int));
        assert(all.take(i + 1).last() == all[i as int]);
        if arrivals[i].root == root && refused_by(&arrivals[i]).is_none() {
            slots.push(arrivals[i].slot);
            last = Some(i);
        }
        i += 1;
    }
    assert(all.take(i as int) =~= all);
    let ghost arrived = crossed_at(all, root);
    if result.state == NetState::Contention {
        return result;
    }
    match last {
        None => result,
        Some(k) => {
            if slots.len() == 1 && driving.len() == 0 {
                assert(arrived[0] == all[k as int]);
                let only = &arrivals[k];
                RootResult {
                    state: NetState::Periodic { hi: only.hi, lo: only.lo, segment: only.segment },
                    fight: result.fight,
                    ambiguous: result.ambiguous,
                    volts: NetVolts { dc: None, phases: Some(only.swing) },
                }
            } else {
                let named = slot_union(&slots, driving);
                let fight = match &result.fight {
                    Some(existing) => slot_union(existing, &named),
                    None => named,
                };
                RootResult {
                    state: NetState::Contention,
                    fight: Some(fight),
                    ambiguous: result.ambiguous,
                    volts: NetVolts::none(),
                }
            }
        },
    }
}

/// A fought node takes no rate, and a held segment crosses every capacitor.
pub proof fn coupling_limits(
    result: RootResultView,
    arrived: Seq<ArrivalView>,
    driving: Seq<usize>,
    crossing: CouplingCrossing,
)
    ensures
        result.state == NetState::Contention ==> overlaid(result, arrived, driving) == result,
        !refuses(crossing, 0),
{
}

/// What a root is overlaid with arrived at that root, and no capacitor on its
/// way refused it: a rate stops where one does.
pub proof fn a_refused_rate_stops(arrivals: Seq<ArrivalView>, root: usize)
    ensures
        forall|i: int|
            0 <= i < crossed_at(arrivals, root).len() ==> {
                let arrival = #[trigger] crossed_at(arrivals, root)[i];
                arrivals.contains(arrival) && arrival.root == root && refusal(arrival) is None
            },
    decreases arrivals.len(),
{
    if arrivals.len() > 0 {
        let rest = arrivals.drop_last();
        a_refused_rate_stops(rest, root);
        let all = crossed_at(arrivals, root);
        let before = crossed_at(rest, root);
        assert forall|i: int| 0 <= i < all.len() implies {
            let arrival = #[trigger] all[i];
            arrivals.contains(arrival) && arrival.root == root && refusal(arrival) is None
        } by {
            if i < before.len() {
                assert(all[i] == before[i]);
                let j = choose|j: int| 0 <= j < rest.len() && rest[j] == before[i];
                assert(arrivals[j] == before[i]);
            } else {
                assert(all[i] == arrivals[arrivals.len() - 1]);
            }
        }
    }
}

/// A rate that crosses alone onto a node nothing fights over and no clock
/// drives shows there with its source's levels and its segment.
pub proof fn a_crossed_rate_carries_its_segment(result: RootResultView, arrival: ArrivalView)
    requires
        result.state != NetState::Contention,
    ensures
        overlaid(result, seq![arrival], Seq::empty()).state == (NetState::Periodic {
            hi: arrival.hi,
            lo: arrival.lo,
            segment: arrival.segment,
        }),
        overlaid(result, seq![arrival], Seq::empty()).fight == result.fight,
{
}

} // verus!
