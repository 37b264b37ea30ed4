//! How far a periodic slot's rate reaches, and the arrivals at a cluster.
use vstd::prelude::*;

use crate::board::Board;
use crate::coupling::laws::{bridged, named_once, reach_is_the_least_over_walks};
use crate::coupling::{
    arrivals_view, coupled_reach, couplings_valid, port_volts, reach_of, reach_ohms, reach_view,
    Arrival, ArrivalView, CoupledRoot, CoupledRootView, CouplingCrossing, ReachView, RootCoupling,
    Step,
};
use crate::dsu::is_root_map;
use crate::net::{is_periodic, level_of_volts, volts_level, Drive, COUPLED_REACH_OHMS};
use crate::pass::{describes, described_cluster, arrivals_at};
use crate::paths::{edges_valid, path_ohms, Edge};
use crate::quantity::{Ohms, Quantity};
use crate::seqs::{listed, select, select_properties};
use crate::topology::{
    layout_is_sound, layout_of, member_root, root_couplings_of, Topology, TopologyView,
};

verus! {

/// How every root is reached from the root `from`.
pub open spec fn reach_from(topology: TopologyView, from: usize) -> Seq<Option<ReachView>> {
    reach_of(
        topology.root_of.len(),
        topology.root_edges,
        topology.root_couplings,
        topology.terminal_roots,
        from,
    )
}

/// Whether a rate from `from` arrives at a root: across at least one
/// capacitor, within the coupled reach, in another cluster, and on no
/// terminal.
pub open spec fn arrives(topology: TopologyView, from: usize) -> spec_fn(int) -> bool {
    |r: int|
        {
            let entry = reach_from(topology, from)[r];
            &&& entry is Some
            &&& entry->0.ohms.below(Quantity::Finite(COUPLED_REACH_OHMS))
            &&& entry->0.path.len() > 0
            &&& !topology.terminal_roots.contains(r as usize)
            &&& topology.index[r] != topology.index[from as int]
        }
}

/// A step of a path as the crossing a rate is judged on.
pub open spec fn crossing_of(
    topology: TopologyView,
    farads: Seq<(usize, usize, u64)>,
    step: Step,
) -> CouplingCrossing {
    CouplingCrossing {
        capacitor: step.capacitor,
        far_root: step.far_root,
        farads: farads[step.capacitor as int].2,
        far_ohms: topology.smallest_edges[step.far_root as int],
    }
}

/// The roots a rate from `from` arrives at, ascending, each with the
/// crossings on its cheapest path.
pub open spec fn coupled_roots(
    topology: TopologyView,
    couplings: Seq<(usize, usize, u64)>,
    from: usize,
) -> Seq<CoupledRootView> {
    let roots = select(topology.root_of.len(), arrives(topology, from));
    let reach = reach_from(topology, from);
    Seq::new(
        roots.len(),
        |i: int|
            {
                let path = reach[roots[i] as int]->0.path;
                CoupledRootView {
                    root: roots[i],
                    crossings: Seq::new(
                        path.len(),
                        |j: int| crossing_of(topology, couplings, path[j]),
                    ),
                }
            },
    )
}

/// The roots a slot's rate arrives at.
pub open spec fn slot_reach(board: Board, topology: TopologyView, slot: int) -> Seq<
    CoupledRootView,
> {
    coupled_roots(
        topology,
        board.shape().couplings,
        topology.root_of[board.slots@[slot].net as int],
    )
}

/// A periodic drive's rate at a root.
pub open spec fn arrival_of(slot: usize, drive: Drive, coupled: CoupledRootView) -> ArrivalView {
    ArrivalView {
        root: coupled.root,
        slot,
        crossings: coupled.crossings,
        hi: volts_level(drive->hi.volts),
        lo: volts_level(drive->lo.volts),
        swing: (port_volts(drive->hi), port_volts(drive->lo)),
        segment: drive->segment,
    }
}

/// The arrivals at a cluster among the first `k` of a slot's coupled roots.
pub open spec fn arrivals_along(
    index: Seq<usize>,
    slot: usize,
    drive: Drive,
    reach: Seq<CoupledRootView>,
    cid: int,
    k: nat,
) -> Seq<ArrivalView>
    decreases k,
{
    if k == 0 {
        Seq::empty()
    } else {
        let rest = arrivals_along(index, slot, drive, reach, cid, (k - 1) as nat);
        if index[reach[k - 1].root as int] == cid {
            rest.push(arrival_of(slot, drive, reach[k - 1]))
        } else {
            rest
        }
    }
}

/// Whether a slot is a clock: a periodic drive on a pin that is no
/// terminal's.
pub open spec fn is_clock(board: Board, slot: int) -> bool {
    board.slots@[slot].terminal is None && is_periodic(board.slots@[slot].drive)
}

/// The arrivals at a cluster from the first `k` slots, in slot order.
pub open spec fn arrivals_from(
    board: Board,
    topology: TopologyView,
    cid: int,
    k: nat,
) -> Seq<ArrivalView>
    decreases k,
{
    if k == 0 {
        Seq::empty()
    } else {
        let rest = arrivals_from(board, topology, cid, (k - 1) as nat);
        if is_clock(board, k - 1) {
            let reach = slot_reach(board, topology, k - 1);
            rest + arrivals_along(
                topology.index,
                (k - 1) as usize,
                board.slots@[k - 1].drive->0,
                reach,
                cid,
                reach.len(),
            )
        } else {
            rest
        }
    }
}

/// The rates arriving at a cluster.
pub open spec fn cluster_arrivals(board: Board, topology: TopologyView, cid: int) -> Seq<
    ArrivalView,
> {
    arrivals_from(board, topology, cid, board.slots@.len())
}

/// Coupled roots as views.
pub open spec fn coupled_view(roots: Seq<CoupledRoot>) -> Seq<CoupledRootView> {
    Seq::new(roots.len(), |i: int| roots[i]@)
}

/// Every reached index is a root, and every step crosses a capacitor of the
/// board into a net of it.
pub open spec fn steps_valid(
    reach: Seq<Option<ReachView>>,
    couplings: nat,
    root_of: Seq<usize>,
) -> bool {
    &&& forall|i: int| 0 <= i < reach.len() && (#[trigger] reach[i]) is Some ==> root_of[i] == i
    &&& forall|i: int, j: int|
        #![trigger reach[i]->0.path[j]]
        0 <= i < reach.len() && reach[i] is Some && 0 <= j < reach[i]->0.path.len()
            ==> reach[i]->0.path[j].capacitor < couplings && reach[i]->0.path[j].far_root
            < reach.len()
}

/// Every edge joins two roots.
pub open spec fn edges_on_roots(edges: Seq<Edge>, root_of: Seq<usize>) -> bool {
    forall|i: int|
        0 <= i < edges.len() ==> root_of[(#[trigger] edges[i]).a as int] == edges[i].a
            && root_of[edges[i].b as int] == edges[i].b
}

/// Every coupling joins two roots and names a capacitor below `m`.
pub open spec fn couplings_name(
    couplings: Seq<RootCoupling>,
    root_of: Seq<usize>,
    m: nat,
) -> bool {
    forall|i: int|
        0 <= i < couplings.len() ==> (#[trigger] couplings[i]).a < root_of.len()
            && couplings[i].b < root_of.len() && couplings[i].capacitor < m
            && root_of[couplings[i].a as int] == couplings[i].a
            && root_of[couplings[i].b as int] == couplings[i].b
}

proof fn after_edges_steps(
    reach: Seq<Option<ReachView>>,
    edges: Seq<Edge>,
    barriers: Seq<usize>,
    from: usize,
    k: nat,
    m: nat,
    root_of: Seq<usize>,
)
    requires
        steps_valid(reach, m, root_of),
        edges_valid(edges, reach.len()),
        edges_on_roots(edges, root_of),
        k <= edges.len(),
    ensures
        steps_valid(crate::coupling::after_edges(reach, edges, barriers, from, k), m, root_of),
        crate::coupling::after_edges(reach, edges, barriers, from, k).len() == reach.len(),
    decreases k,
{
    if k > 0 {
        after_edges_steps(reach, edges, barriers, from, (k - 1) as nat, m, root_of);
        let edge = edges[k - 1];
        let before = crate::coupling::after_edges(reach, edges, barriers, from, (k - 1) as nat);
        after_edge_steps(before, barriers, from, edge.a, edge.b, edge.ohms, m, root_of);
        let there = crate::coupling::after_edge(
            before,
            barriers,
            from,
            edge.a,
            edge.b,
            edge.ohms,
        );
        after_edge_steps(there, barriers, from, edge.b, edge.a, edge.ohms, m, root_of);
    }
}

proof fn after_edge_steps(
    reach: Seq<Option<ReachView>>,
    barriers: Seq<usize>,
    from: usize,
    x: usize,
    y: usize,
    ohms: Ohms,
    m: nat,
    root_of: Seq<usize>,
)
    requires
        steps_valid(reach, m, root_of),
        x < reach.len(),
        y < reach.len(),
        root_of[y as int] == y,
    ensures
        steps_valid(crate::coupling::after_edge(reach, barriers, from, x, y, ohms), m, root_of),
{
    let after = crate::coupling::after_edge(reach, barriers, from, x, y, ohms);
    assert forall|i: int, j: int|
        #![trigger after[i]->0.path[j]]
        0 <= i < after.len() && after[i] is Some && 0 <= j
            < after[i]->0.path.len() implies after[i]->0.path[j].capacitor < m
        && after[i]->0.path[j].far_root < after.len() by {
        if i == y && after != reach {
            assert(after[i]->0.path == reach[x as int]->0.path);
            assert(reach[x as int]->0.path[j].capacitor < m);
        } else {
            assert(reach[i]->0.path[j].capacitor < m);
        }
    }
}

proof fn after_coupling_steps(
    reach: Seq<Option<ReachView>>,
    barriers: Seq<usize>,
    from: usize,
    x: usize,
    y: usize,
    capacitor: usize,
    m: nat,
    root_of: Seq<usize>,
)
    requires
        steps_valid(reach, m, root_of),
        x < reach.len(),
        y < reach.len(),
        root_of[y as int] == y,
        capacitor < m,
    ensures
        steps_valid(
            crate::coupling::after_coupling(reach, barriers, from, x, y, capacitor),
            m,
            root_of,
        ),
{
    let after = crate::coupling::after_coupling(reach, barriers, from, x, y, capacitor);
    if after != reach {
        let path = reach[x as int]->0.path;
        let longer = path.push(Step { capacitor, far_root: y });
        assert forall|i: int, j: int|
            #![trigger after[i]->0.path[j]]
            0 <= i < after.len() && after[i] is Some && 0 <= j
                < after[i]->0.path.len() implies after[i]->0.path[j].capacitor < m
            && after[i]->0.path[j].far_root < after.len() by {
            if i == y {
                assert(after[i]->0.path == longer);
                if j < path.len() {
                    assert(longer[j] == path[j]);
                    assert(reach[x as int]->0.path[j].capacitor < m);
                }
            } else {
                assert(reach[i]->0.path[j].capacitor < m);
            }
        }
    }
}

proof fn after_couplings_steps(
    reach: Seq<Option<ReachView>>,
    couplings: Seq<RootCoupling>,
    barriers: Seq<usize>,
    from: usize,
    k: nat,
    m: nat,
    root_of: Seq<usize>,
)
    requires
        steps_valid(reach, m, root_of),
        reach.len() == root_of.len(),
        couplings_name(couplings, root_of, m),
        k <= couplings.len(),
    ensures
        steps_valid(
            crate::coupling::after_couplings(reach, couplings, barriers, from, k),
            m,
            root_of,
        ),
        crate::coupling::after_couplings(reach, couplings, barriers, from, k).len()
            == reach.len(),
    decreases k,
{
    if k > 0 {
        after_couplings_steps(reach, couplings, barriers, from, (k - 1) as nat, m, root_of);
        let c = couplings[k - 1];
        let before = crate::coupling::after_couplings(
            reach,
            couplings,
            barriers,
            from,
            (k - 1) as nat,
        );
        after_coupling_steps(before, barriers, from, c.a, c.b, c.capacitor, m, root_of);
        let there = crate::coupling::after_coupling(
            before,
            barriers,
            from,
            c.a,
            c.b,
            c.capacitor,
        );
        after_coupling_steps(there, barriers, from, c.b, c.a, c.capacitor, m, root_of);
    }
}

proof fn after_rounds_steps(
    n: nat,
    edges: Seq<Edge>,
    couplings: Seq<RootCoupling>,
    barriers: Seq<usize>,
    from: usize,
    rounds: nat,
    m: nat,
    root_of: Seq<usize>,
)
    requires
        n == root_of.len(),
        edges_valid(edges, n),
        edges_on_roots(edges, root_of),
        couplings_name(couplings, root_of, m),
        root_of[from as int] == from,
    ensures
        steps_valid(
            crate::coupling::after_rounds(n, edges, couplings, barriers, from, rounds),
            m,
            root_of,
        ),
        crate::coupling::after_rounds(n, edges, couplings, barriers, from, rounds).len() == n,
    decreases rounds,
{
    if rounds > 0 {
        after_rounds_steps(n, edges, couplings, barriers, from, (rounds - 1) as nat, m, root_of);
        let reach = crate::coupling::after_rounds(
            n,
            edges,
            couplings,
            barriers,
            from,
            (rounds - 1) as nat,
        );
        after_edges_steps(reach, edges, barriers, from, edges.len(), m, root_of);
        let mid = crate::coupling::after_edges(reach, edges, barriers, from, edges.len());
        after_couplings_steps(mid, couplings, barriers, from, couplings.len(), m, root_of);
    } else {
        let reach = crate::coupling::after_rounds(n, edges, couplings, barriers, from, 0);
        assert forall|i: int| 0 <= i < reach.len() && reach[i] is Some implies (
        #[trigger] reach[i])->0.path.len() == 0 by {}
    }
}

proof fn root_couplings_name(couplings: Seq<(usize, usize, u64)>, root_of: Seq<usize>)
    requires
        is_root_map(root_of),
        couplings.len() <= usize::MAX,
        forall|i: int|
            0 <= i < couplings.len() ==> (#[trigger] couplings[i]).0 < root_of.len()
                && couplings[i].1 < root_of.len(),
    ensures
        couplings_name(root_couplings_of(couplings, root_of), root_of, couplings.len()),
    decreases couplings.len(),
{
    if couplings.len() > 0 {
        let rest = couplings.drop_last();
        assert forall|i: int| 0 <= i < rest.len() implies (#[trigger] rest[i]).0 < root_of.len()
            && rest[i].1 < root_of.len() by {
            assert(rest[i] == couplings[i]);
        }
        root_couplings_name(rest, root_of);
        let last = couplings[couplings.len() - 1];
        assert(root_of[last.0 as int] < root_of.len());
        assert(root_of[last.1 as int] < root_of.len());
        let all = root_couplings_of(couplings, root_of);
        let before = root_couplings_of(rest, root_of);
        assert(root_of[root_of[last.0 as int] as int] == root_of[last.0 as int]);
        assert(root_of[root_of[last.1 as int] as int] == root_of[last.1 as int]);
        assert forall|i: int| 0 <= i < all.len() implies (#[trigger] all[i]).a < root_of.len()
            && all[i].b < root_of.len() && all[i].capacitor < couplings.len()
            && root_of[all[i].a as int] == all[i].a && root_of[all[i].b as int] == all[i].b by {
            if i < before.len() {
                assert(all[i] == before[i]);
            }
        }
    }
}

proof fn root_edges_on_roots(edges: Seq<Edge>, root_of: Seq<usize>)
    requires
        is_root_map(root_of),
        edges_valid(edges, root_of.len()),
    ensures
        edges_on_roots(crate::topology::root_edges_of(edges, root_of), root_of),
    decreases edges.len(),
{
    if edges.len() > 0 {
        let rest = edges.drop_last();
        assert forall|i: int| 0 <= i < rest.len() implies (#[trigger] rest[i]).a < root_of.len()
            && rest[i].b < root_of.len() && rest[i].ohms.non_negative() by {
            assert(rest[i] == edges[i]);
        }
        root_edges_on_roots(rest, root_of);
        let last = edges[edges.len() - 1];
        assert(root_of[root_of[last.a as int] as int] == root_of[last.a as int]);
        assert(root_of[root_of[last.b as int] as int] == root_of[last.b as int]);
        let all = crate::topology::root_edges_of(edges, root_of);
        let before = crate::topology::root_edges_of(rest, root_of);
        assert forall|i: int| 0 <= i < all.len() implies root_of[(#[trigger] all[i]).a as int]
            == all[i].a && root_of[all[i].b as int] == all[i].b by {
            if i < before.len() {
                assert(all[i] == before[i]);
            }
        }
    }
}

/// What the walk behind a reach rests on.
pub proof fn reach_is_valid(topology: TopologyView, board: Board, from: usize)
    requires
        describes(topology, board),
        board.couplings@.len() <= usize::MAX,
        from < topology.root_of.len(),
        topology.root_of[from as int] == from,
    ensures
        edges_valid(topology.root_edges, topology.root_of.len()),
        couplings_valid(topology.root_couplings, topology.root_of.len()),
        reach_from(topology, from).len() == topology.root_of.len(),
        steps_valid(reach_from(topology, from), board.couplings@.len(), topology.root_of),
        topology.index.len() == topology.root_of.len(),
        topology.smallest_edges.len() == topology.root_of.len(),
        forall|i: int|
            0 <= i < topology.root_of.len() ==> (#[trigger] topology.index[i])
                < topology.clusters.len(),
{
    let shape = board.shape();
    let n = topology.root_of.len();
    layout_is_sound(shape, topology.root_of);
    root_couplings_name(shape.couplings, topology.root_of);
    root_edges_on_roots(shape.edges, topology.root_of);
    let rounds = choose|rounds: nat|
        crate::coupling::rounds_settle(
            n,
            topology.root_edges,
            topology.root_couplings,
            topology.terminal_roots,
            from,
            rounds,
        );
    after_rounds_steps(
        n,
        topology.root_edges,
        topology.root_couplings,
        topology.terminal_roots,
        from,
        rounds,
        board.couplings@.len(),
        topology.root_of,
    );
    assert forall|i: int| 0 <= i < n implies (#[trigger] topology.index[i])
        < topology.clusters.len() by {
        let layout = layout_of(shape, topology.root_of);
        assert(layout.index[i] < crate::topology::cluster_count(shape, topology.root_of));
    }
}

proof fn root_couplings_named_once(couplings: Seq<(usize, usize, u64)>, root_of: Seq<usize>)
    requires
        couplings.len() <= usize::MAX,
    ensures
        named_once(root_couplings_of(couplings, root_of)),
        forall|i: int|
            0 <= i < root_couplings_of(couplings, root_of).len() ==> (
            #[trigger] root_couplings_of(couplings, root_of)[i]).capacitor < couplings.len(),
    decreases couplings.len(),
{
    if couplings.len() > 0 {
        root_couplings_named_once(couplings.drop_last(), root_of);
    }
}

/// A rate reaches a root at the least series resistance of all the ways that
/// lead there over the conduction edges and the capacitors, and past no
/// terminal.
pub proof fn a_rate_takes_the_least_resistance(
    topology: TopologyView,
    board: Board,
    from: usize,
    to: usize,
)
    requires
        describes(topology, board),
        board.couplings@.len() <= usize::MAX,
        topology.root_of.len() <= usize::MAX,
        from < topology.root_of.len(),
        topology.root_of[from as int] == from,
        to < topology.root_of.len(),
    ensures
        reach_ohms(reach_from(topology, from))[to as int] == path_ohms(
            bridged(topology.root_edges, topology.root_couplings),
            topology.terminal_roots,
            from,
            to,
        ),
{
    reach_is_valid(topology, board, from);
    root_couplings_named_once(board.shape().couplings, topology.root_of);
    reach_is_the_least_over_walks(
        topology.root_of.len(),
        topology.root_edges,
        topology.root_couplings,
        topology.terminal_roots,
        from,
        to,
    );
}

/// The roots a slot's rate arrives at: a function of the structure alone.
pub fn walk_reach(board: &Board, topology: &Topology, slot: usize) -> (r: Vec<CoupledRoot>)
    requires
        describes(topology@, *board),
        slot < board.slots@.len(),
    ensures
        coupled_view(r@) == slot_reach(*board, topology@, slot as int),
{
    let ghost topo = topology@;
    let ghost couplings = board.shape().couplings;
    let n: usize = topology.root_of.len();
    assert(board.shape().slot_nets[slot as int] < n);
    let from: usize = topology.root_of[board.slots[slot].net];
    assert(from < n && topo.root_of[from as int] == from);
    proof {
        assert(board.couplings.len() <= usize::MAX);
        reach_is_valid(topo, *board, from);
    }
    let reach = coupled_reach(
        &topology.root_edges,
        &topology.root_couplings,
        from,
        &topology.terminal_roots,
        n,
    );
    let own: usize = topology.cluster_index[from];
    let limit = Quantity::Finite(COUPLED_REACH_OHMS);
    let mut r: Vec<CoupledRoot> = Vec::new();
    let mut root: usize = 0;
    let ghost keep = arrives(topo, from);
    let ghost walked = reach_from(topo, from);
    while root < n
        invariant
            root <= n,
            n == topo.root_of.len(),
            topo == topology@,
            describes(topo, *board),
            from < n,
            own == topo.index[from as int],
            limit == Quantity::Finite(COUPLED_REACH_OHMS),
            couplings == board.shape().couplings,
            keep == arrives(topo, from),
            walked == reach_from(topo, from),
            reach@.len() == n,
            reach_view(reach@) == walked,
            walked.len() == n,
            topo.index.len() == n,
            topo.smallest_edges.len() == n,
            steps_valid(walked, board.couplings@.len(), topo.root_of),
            ({
                let roots = select(root as nat, keep);
                coupled_view(r@) =~= Seq::new(
                    roots.len(),
                    |i: int|
                        {
                            let path = walked[roots[i] as int]->0.path;
                            CoupledRootView {
                                root: roots[i],
                                crossings: Seq::new(
                                    path.len(),
                                    |j: int| crossing_of(topo, couplings, path[j]),
                                ),
                            }
                        },
                )
            }),
        decreases n - root,
    {
        let ghost before = coupled_view(r@);
        if let Some(entry) = &reach[root] {
            assert(walked[root as int] == Some(
                ReachView { ohms: entry.ohms, path: entry.path@ },
            ));
            if entry.ohms.lt(limit) && entry.path.len() > 0 && !listed(
                &topology.terminal_roots,
                root,
            ) && topology.cluster_index[root] != own {
                assert(keep(root as int));
                let mut crossings: Vec<CouplingCrossing> = Vec::new();
                let mut j: usize = 0;
                while j < entry.path.len()
                    invariant
                        j <= entry.path@.len(),
                        root < n,
                        n == topo.root_of.len(),
                        topo == topology@,
                        walked.len() == n,
                        topo.smallest_edges.len() == n,
                        couplings == board.shape().couplings,
                        walked[root as int] == Some(
                            ReachView { ohms: entry.ohms, path: entry.path@ },
                        ),
                        steps_valid(walked, board.couplings@.len(), topo.root_of),
                        crossings@ =~= Seq::new(
                            j as nat,
                            |x: int| crossing_of(topo, couplings, entry.path@[x]),
                        ),
                    decreases entry.path@.len() - j,
                {
                    let step = entry.path[j];
                    assert(walked[root as int]->0.path[j as int] == step);
                    crossings.push(
                        CouplingCrossing {
                            capacitor: step.capacitor,
                            far_root: step.far_root,
                            farads: board.couplings[step.capacitor].farads,
                            far_ohms: topology.smallest_edges[step.far_root],
                        },
                    );
                    j += 1;
                }
                let coupled = CoupledRoot { root, crossings };
                let ghost view = coupled@;
                r.push(coupled);
                assert(coupled_view(r@) =~= before.push(view));
            } else {
                assert(!keep(root as int));
            }
        } else {
            assert(walked[root as int] is None);
            assert(!keep(root as int));
        }
        root += 1;
    }
    r
}

/// A copy of a list of crossings.
fn copy_crossings(crossings: &Vec<CouplingCrossing>) -> (r: Vec<CouplingCrossing>)
    ensures
        r@ == crossings@,
{
    let mut r: Vec<CouplingCrossing> = Vec::new();
    let mut i: usize = 0;
    while i < crossings.len()
        invariant
            i <= crossings@.len(),
            r@ =~= crossings@.take(i as int),
        decreases crossings@.len() - i,
    {
        r.push(crossings[i]);
        i += 1;
    }
    r
}

/// Append a clock's arrivals at a cluster.
pub fn note_arrivals(
    index: &Vec<usize>,
    slot: usize,
    drive: Drive,
    reach: &Vec<CoupledRoot>,
    cid: usize,
    arrivals: &mut Vec<Arrival>,
)
    requires
        drive is Periodic,
        forall|i: int| 0 <= i < reach@.len() ==> (#[trigger] reach@[i]).root < index@.len(),
    ensures
        arrivals_view(final(arrivals)@) == arrivals_view(old(arrivals)@) + arrivals_along(
            index@,
            slot,
            drive,
            coupled_view(reach@),
            cid as int,
            reach@.len(),
        ),
{
    let ghost start = arrivals_view(arrivals@);
    let ghost views = coupled_view(reach@);
    if let Drive::Periodic { hi, lo, segment } = drive {
        let high = level_of_volts(hi.volts);
        let low = level_of_volts(lo.volts);
        let swing = Arrival::swing_of(hi, lo);
        let mut k: usize = 0;
        assert(arrivals_view(arrivals@) =~= start + arrivals_along(
            index@,
            slot,
            drive,
            views,
            cid as int,
            0,
        ));
        while k < reach.len()
            invariant
                k <= reach@.len(),
                drive == (Drive::Periodic { hi, lo, segment }),
                high == volts_level(hi.volts),
                low == volts_level(lo.volts),
                swing == (port_volts(hi), port_volts(lo)),
                views == coupled_view(reach@),
                forall|i: int| 0 <= i < reach@.len() ==> (#[trigger] reach@[i]).root < index@.len(),
                arrivals_view(arrivals@) == start + arrivals_along(
                    index@,
                    slot,
                    drive,
                    views,
                    cid as int,
                    k as nat,
                ),
            decreases reach@.len() - k,
        {
            let coupled = &reach[k];
            assert(views[k as int] == coupled@);
            let ghost before = arrivals_view(arrivals@);
            if index[coupled.root] == cid {
                let arrival = Arrival {
                    root: coupled.root,
                    slot,
                    crossings: copy_crossings(&coupled.crossings),
                    hi: high,
                    lo: low,
                    swing,
                    segment,
                };
                let ghost view = arrival@;
                arrivals.push(arrival);
                assert(arrivals_view(arrivals@) =~= before.push(view));
                assert(view == arrival_of(slot, drive, coupled@));
            }
            assert(arrivals_view(arrivals@) =~= start + arrivals_along(
                index@,
                slot,
                drive,
                views,
                cid as int,
                (k + 1) as nat,
            ));
            k += 1;
        }
    }
}

/// Every coupled root is a root in another cluster, over crossings the board
/// has.
pub proof fn slot_reach_valid(topology: TopologyView, board: Board, slot: int)
    requires
        describes(topology, board),
        board.couplings@.len() <= usize::MAX,
        0 <= slot < board.slots@.len(),
    ensures
        forall|i: int|
            0 <= i < slot_reach(board, topology, slot).len() ==> (#[trigger] slot_reach(
                board,
                topology,
                slot,
            )[i]).root < topology.root_of.len() && topology.root_of[slot_reach(
                board,
                topology,
                slot,
            )[i].root as int] == slot_reach(board, topology, slot)[i].root,
        forall|i: int, j: int|
            #![trigger slot_reach(board, topology, slot)[i].crossings[j]]
            0 <= i < slot_reach(board, topology, slot).len() && 0 <= j < slot_reach(
                board,
                topology,
                slot,
            )[i].crossings.len() ==> slot_reach(board, topology, slot)[i].crossings[j].far_root
                < topology.root_of.len() && slot_reach(
                board,
                topology,
                slot,
            )[i].crossings[j].capacitor < board.couplings@.len(),
{
    let from = topology.root_of[board.slots@[slot].net as int];
    assert(board.shape().slot_nets[slot] < topology.root_of.len());
    assert(topology.root_of[from as int] == from);
    reach_is_valid(topology, board, from);
    let n = topology.root_of.len();
    select_properties(n, arrives(topology, from));
    let roots = select(n, arrives(topology, from));
    let walked = reach_from(topology, from);
    let all = slot_reach(board, topology, slot);
    assert forall|i: int| 0 <= i < all.len() implies (#[trigger] all[i]).root < n
        && topology.root_of[all[i].root as int] == all[i].root by {
        assert(arrives(topology, from)(roots[i] as int));
        assert(walked[roots[i] as int] is Some);
    }
    assert forall|i: int, j: int|
        #![trigger all[i].crossings[j]]
        0 <= i < all.len() && 0 <= j < all[i].crossings.len() implies all[i].crossings[j].far_root
        < n && all[i].crossings[j].capacitor < board.couplings@.len() by {
        assert(arrives(topology, from)(roots[i] as int));
        assert(walked[roots[i] as int]->0.path[j].capacitor < board.couplings@.len());
    }
}

proof fn along_valid(
    topology: TopologyView,
    board: Board,
    slot: int,
    cid: int,
    k: nat,
)
    requires
        describes(topology, board),
        board.couplings@.len() <= usize::MAX,
        0 <= slot < board.slots@.len(),
        board.slots@.len() <= usize::MAX,
        0 <= cid < topology.clusters.len(),
        k <= slot_reach(board, topology, slot).len(),
    ensures
        arrivals_at(
            arrivals_along(
                topology.index,
                slot as usize,
                board.slots@[slot].drive->0,
                slot_reach(board, topology, slot),
                cid,
                k,
            ),
            topology.clusters[cid].roots,
            board.slots@.len(),
            topology.root_of.len(),
            board.couplings@.len(),
        ),
    decreases k,
{
    if k > 0 {
        along_valid(topology, board, slot, cid, (k - 1) as nat);
        slot_reach_valid(topology, board, slot);
        let reach = slot_reach(board, topology, slot);
        let drive = board.slots@[slot].drive->0;
        let last = reach[k - 1];
        let before = arrivals_along(
            topology.index,
            slot as usize,
            drive,
            reach,
            cid,
            (k - 1) as nat,
        );
        let all = arrivals_along(topology.index, slot as usize, drive, reach, cid, k);
        if topology.index[last.root as int] == cid {
            described_cluster(topology, board, cid);
            let layout = layout_of(board.shape(), topology.root_of);
            layout_is_sound(board.shape(), topology.root_of);
            select_properties(topology.root_of.len(), member_root(layout, cid));
            assert(member_root(layout, cid)(last.root as int));
            assert(topology.clusters[cid].roots.contains(last.root));
            assert forall|i: int| 0 <= i < all.len() implies topology.clusters[cid].roots.contains(
                (#[trigger] all[i]).root,
            ) && all[i].slot < board.slots@.len() by {
                if i < before.len() {
                    assert(all[i] == before[i]);
                }
            }
            assert forall|i: int, j: int|
                #![trigger all[i].crossings[j]]
                0 <= i < all.len() && 0 <= j
                    < all[i].crossings.len() implies all[i].crossings[j].far_root
                < topology.root_of.len() && all[i].crossings[j].capacitor
                < board.couplings@.len() by {
                if i < before.len() {
                    assert(all[i] == before[i]);
                    assert(before[i].crossings[j].far_root < topology.root_of.len());
                } else {
                    assert(all[i].crossings == last.crossings);
                    assert(reach[k - 1].crossings[j].far_root < topology.root_of.len());
                }
            }
        }
    }
}

proof fn from_valid(topology: TopologyView, board: Board, cid: int, k: nat)
    requires
        describes(topology, board),
        board.couplings@.len() <= usize::MAX,
        board.slots@.len() <= usize::MAX,
        0 <= cid < topology.clusters.len(),
        k <= board.slots@.len(),
    ensures
        arrivals_at(
            arrivals_from(board, topology, cid, k),
            topology.clusters[cid].roots,
            board.slots@.len(),
            topology.root_of.len(),
            board.couplings@.len(),
        ),
    decreases k,
{
    if k > 0 {
        from_valid(topology, board, cid, (k - 1) as nat);
        let before = arrivals_from(board, topology, cid, (k - 1) as nat);
        let all = arrivals_from(board, topology, cid, k);
        if is_clock(board, k - 1) {
            let reach = slot_reach(board, topology, k - 1);
            along_valid(topology, board, k - 1, cid, reach.len());
            let more = arrivals_along(
                topology.index,
                (k - 1) as usize,
                board.slots@[k - 1].drive->0,
                reach,
                cid,
                reach.len(),
            );
            assert(all == before + more);
            assert forall|i: int| 0 <= i < all.len() implies topology.clusters[cid].roots.contains(
                (#[trigger] all[i]).root,
            ) && all[i].slot < board.slots@.len() by {
                if i < before.len() {
                    assert(all[i] == before[i]);
                } else {
                    assert(all[i] == more[i - before.len()]);
                }
            }
            assert forall|i: int, j: int|
                #![trigger all[i].crossings[j]]
                0 <= i < all.len() && 0 <= j
                    < all[i].crossings.len() implies all[i].crossings[j].far_root
                < topology.root_of.len() && all[i].crossings[j].capacitor
                < board.couplings@.len() by {
                if i < before.len() {
                    assert(all[i] == before[i]);
                    assert(before[i].crossings[j].far_root < topology.root_of.len());
                } else {
                    assert(all[i] == more[i - before.len()]);
                    assert(more[i - before.len()].crossings[j].far_root < topology.root_of.len());
                }
            }
        }
    }
}

/// Every arrival at a cluster is at one of its roots, over crossings the
/// board has.
pub proof fn cluster_arrivals_valid(topology: TopologyView, board: Board, cid: int)
    requires
        describes(topology, board),
        board.couplings@.len() <= usize::MAX,
        board.slots@.len() <= usize::MAX,
        0 <= cid < topology.clusters.len(),
    ensures
        arrivals_at(
            cluster_arrivals(board, topology, cid),
            topology.clusters[cid].roots,
            board.slots@.len(),
            topology.root_of.len(),
            board.couplings@.len(),
        ),
{
    from_valid(topology, board, cid, board.slots@.len());
}

} // verus!
