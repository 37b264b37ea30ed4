//! What every change keeps and every pass restores.
use vstd::prelude::*;

use crate::board::Board;
use crate::cluster::ClusterSolver;
use crate::diagnostics::{
    all_reported, all_reported_properties, known_findings_change_nothing, FindingView,
};
use crate::emission::{emission, emission_holds, holds_finding, joined_holds, no_findings};
use crate::net::Net;
use crate::pass::{described_cluster, describes, names_of};
use crate::resolver::{
    every_cluster, full_findings, gathered, names_kept, redecided, resolved, same_nets, scene_in,
    scene_now, sources_hold, states_now, terminal_of_cluster, Resolver,
};
use crate::scene::{cluster_findings, Names};
use crate::seqs::select_properties;
use crate::terminal::TerminalState;
use crate::topology::{layout_is_sound, layout_of, TopologyView};

verus! {

/// A cluster's pass reads the same of two boards, whatever its terminals
/// hold.
pub open spec fn reads_alike(
    a: Board,
    a_topology: TopologyView,
    b: Board,
    b_topology: TopologyView,
    cid: int,
) -> bool {
    forall|states: Seq<TerminalState>| #[trigger]
        scene_in(b, b_topology, states, cid) == scene_in(a, a_topology, states, cid)
}

/// What a terminal's sources hold is the same over two boards.
pub open spec fn held_alike(a: Board, b: Board, topology: TopologyView, p: int) -> bool {
    sources_hold(b, topology.terminals[p].sources) == sources_hold(
        a,
        topology.terminals[p].sources,
    )
}

/// What of two structures no run-time declaration changes.
pub open spec fn same_frame(a: TopologyView, b: TopologyView) -> bool {
    &&& a.root_of == b.root_of
    &&& a.index == b.index
    &&& a.clusters.len() == b.clusters.len()
    &&& a.terminals == b.terminals
    &&& a.terminal_roots == b.terminal_roots
}

impl Resolver {
    /// Whether a cluster, and every terminal it reads, is as it was: what a
    /// change must leave of every cluster it does not set waiting.
    pub open spec fn undisturbed(&self, before: &Resolver, n: nat, cid: int) -> bool {
        reads_alike(before.board(), before.structure(n), self.board(), self.structure(n), cid)
    }

    /// A change kept the structure's frame and the decided terminals, and
    /// every cluster it touched waits: a cluster that does not wait reads
    /// what it read, and neither does a terminal's cluster or a reader of it
    /// unless its sources hold what they held.
    pub open spec fn keeps_clean(&self, before: &Resolver, n: nat) -> bool {
        let a = before.structure(n);
        let b = self.structure(n);
        &&& self.settled_for(n)
        &&& self.held_states() == before.held_states()
        &&& same_frame(a, b)
        &&& forall|nets: Seq<Net>| #[trigger]
            names_of(self.board(), nets) == names_of(before.board(), nets)
        &&& forall|cid: int| #[trigger] before.awaits(cid) ==> self.awaits(cid)
        &&& forall|cid: int|
            0 <= cid < a.clusters.len() && !#[trigger] self.awaits(cid) ==> self.undisturbed(
                before,
                n,
                cid,
            )
        &&& forall|p: int|
            0 <= p < a.terminals.len() && !#[trigger] held_alike(
                before.board(),
                self.board(),
                a,
                p,
            ) ==> {
                &&& self.awaits(a.terminals[p].cluster as int)
                &&& forall|i: int|
                    0 <= i < a.terminals[p].dependents.len() ==> self.awaits(
                        #[trigger] a.terminals[p].dependents[i] as int,
                    )
            }
    }

    /// Every terminal and net whose cluster does not wait is as a full pass
    /// would leave it.
    pub open spec fn in_step<S: ClusterSolver>(&self, solver: &S, nets: Seq<Net>) -> bool {
        let topology = self.structure(nets.len());
        &&& self.settled_for(nets.len())
        &&& forall|p: int|
            0 <= p < topology.terminals.len() && !self.awaits(
                (#[trigger] topology.terminals[p]).cluster as int,
            ) ==> self.held_states()[p] == states_now(solver, self.board(), topology)[p]
        &&& forall|i: int|
            0 <= i < nets.len() && !self.awaits(topology.index[i] as int) ==> resolved(
                solver,
                self.board(),
                topology,
                #[trigger] nets[i],
                i,
            )
    }

    /// Every finding of a cluster that does not wait is on the bus.
    pub open spec fn on_bus<S: ClusterSolver>(
        &self,
        solver: &S,
        nets: Seq<Net>,
        bus: Seq<FindingView>,
    ) -> bool {
        let topology = self.structure(nets.len());
        forall|cid: int, finding: FindingView|
            0 <= cid < topology.clusters.len() && !self.awaits(cid) && #[trigger] holds_finding(
                cluster_findings(
                    solver,
                    scene_now(solver, self.board(), topology, cid),
                    names_of(self.board(), nets),
                ),
                finding,
            ) ==> bus.contains(finding)
    }
}

/// A full pass leaves every net in step and every finding on the bus.
pub proof fn full_pass_is_in_step<S: ClusterSolver>(
    before: &Resolver,
    after: &Resolver,
    solver: &S,
    old_nets: Seq<Net>,
    nets: Seq<Net>,
    old_bus: Seq<FindingView>,
    bus: Seq<FindingView>,
)
    requires
        before.well_formed(),
        before.fits(old_nets.len()),
        same_nets(old_nets, nets),
        after.same_board(before),
        after.swept_fully(before, solver, old_nets, nets, old_bus, bus),
    ensures
        after.in_step(solver, nets),
        after.on_bus(solver, nets, bus),
{
    let board = before.board();
    let n = old_nets.len();
    let topology = before.structure(n);
    assert(after.roots(n) == before.roots(n));
    let names = names_of(board, old_nets);
    names_kept(board, old_nets, nets);
    let all = full_findings(solver, board, topology, names);
    all_reported_properties(old_bus, emission(all));
    assert forall|cid: int, finding: FindingView|
        0 <= cid < topology.clusters.len() && !after.awaits(cid) && #[trigger] holds_finding(
            cluster_findings(
                solver,
                scene_now(solver, after.board(), topology, cid),
                names_of(after.board(), nets),
            ),
            finding,
        ) implies bus.contains(finding) by {
        let states = states_now(solver, board, topology);
        gathered_holds(
            solver,
            board,
            topology,
            states,
            names,
            every_cluster(topology),
            topology.clusters.len(),
            finding,
        );
        assert(every_cluster(topology)[cid] == cid as usize);
        cluster_ids_fit(board, topology);
        emission_holds(all, finding);
    }
}

/// Resolving a board again, nothing driven since, resolves every net to what
/// it was and finds nothing new.
pub proof fn repeated_passes_agree<S: ClusterSolver>(
    before: &Resolver,
    once: &Resolver,
    twice: &Resolver,
    solver: &S,
    old_nets: Seq<Net>,
    nets: Seq<Net>,
    again: Seq<Net>,
    old_bus: Seq<FindingView>,
    bus: Seq<FindingView>,
    later_bus: Seq<FindingView>,
)
    requires
        same_nets(old_nets, nets),
        once.same_board(before),
        once.swept_fully(before, solver, old_nets, nets, old_bus, bus),
        same_nets(nets, again),
        twice.same_board(once),
        twice.swept_fully(once, solver, nets, again, bus, later_bus),
    ensures
        again.len() == nets.len(),
        forall|i: int|
            0 <= i < nets.len() ==> (#[trigger] again[i]).state == nets[i].state && again[i].volts
                == nets[i].volts,
        later_bus == bus,
{
    let board = before.board();
    let n = old_nets.len();
    let topology = before.structure(n);
    assert(once.roots(n) == before.roots(n));
    assert(twice.roots(n) == once.roots(n));
    names_kept(board, old_nets, nets);
    let found = emission(
        full_findings(solver, board, topology, names_of(board, old_nets)),
    );
    all_reported_properties(old_bus, found);
    known_findings_change_nothing(bus, found);
    assert forall|i: int| 0 <= i < nets.len() implies (#[trigger] again[i]).state == nets[i].state
        && again[i].volts == nets[i].volts by {
        assert(resolved(solver, board, topology, nets[i], i));
        assert(resolved(solver, board, topology, again[i], i));
    }
}

/// Cluster ids are machine words.
proof fn cluster_ids_fit(board: Board, topology: TopologyView)
    requires
        topology.root_of.len() <= usize::MAX,
        crate::dsu::is_root_map(topology.root_of),
        board.shape().valid(topology.root_of.len()),
        topology == crate::topology::topology_of(board.shape(), topology.root_of),
    ensures
        topology.clusters.len() <= topology.root_of.len(),
{
    crate::seqs::select_grows(
        0,
        topology.root_of.len(),
        crate::topology::cluster_root(crate::topology::cluster_of(board.shape(), topology.root_of)),
    );
}

/// The findings of a list of clusters are those of each.
proof fn gathered_holds<S: ClusterSolver>(
    solver: &S,
    board: Board,
    topology: TopologyView,
    states: Seq<TerminalState>,
    names: Names,
    cids: Seq<usize>,
    k: nat,
    finding: FindingView,
)
    requires
        k <= cids.len(),
    ensures
        holds_finding(gathered(solver, board, topology, states, names, cids, k), finding)
            <==> exists|j: int|
            0 <= j < k && holds_finding(
                cluster_findings(
                    solver,
                    scene_in(board, topology, states, #[trigger] cids[j] as int),
                    names,
                ),
                finding,
            ),
    decreases k,
{
    if k == 0 {
        assert(!holds_finding(no_findings(), finding));
    } else {
        let m = (k - 1) as nat;
        gathered_holds(solver, board, topology, states, names, cids, m, finding);
        joined_holds(
            gathered(solver, board, topology, states, names, cids, m),
            cluster_findings(solver, scene_in(board, topology, states, cids[k - 1] as int), names),
            finding,
        );
        assert(cids[m as int] == cids[k - 1]);
    }
}

/// The cached structure describes the board.
pub proof fn settled_describes(resolver: &Resolver, n: nat)
    requires
        resolver.well_formed(),
        resolver.settled_for(n),
    ensures
        describes(resolver.structure(n), resolver.board()),
        resolver.held_states().len() == resolver.structure(n).terminals.len(),
        resolver.structure(n).terminal_roots.len() <= usize::MAX,
        resolver.structure(n).clusters.len() <= usize::MAX,
        forall|cid: int| #[trigger]
            resolver.awaits(cid) ==> 0 <= cid < resolver.structure(n).clusters.len(),
{
    if let Some(t) = resolver.topology {
        assert(t@ == resolver.structure(n));
        assert(t.terminal_roots.len() <= usize::MAX);
        assert(t.clusters.len() <= usize::MAX);
    }
}

/// A cluster's scene reads its own terminal and the terminals it depends on,
/// and no other.
proof fn scene_reads_its_terminals(
    board: Board,
    topology: TopologyView,
    a: Seq<TerminalState>,
    b: Seq<TerminalState>,
    cid: int,
)
    requires
        describes(topology, board),
        0 <= cid < topology.clusters.len(),
        topology.terminal_roots.len() <= usize::MAX,
        topology.clusters.len() <= usize::MAX,
        forall|p: int|
            0 <= p < topology.terminals.len() && ((#[trigger] topology.terminals[p]).cluster == cid
                || topology.terminals[p].dependents.contains(cid as usize)) ==> a[p] == b[p],
    ensures
        scene_in(board, topology, a, cid) == scene_in(board, topology, b, cid),
{
    let shape = board.shape();
    let layout = layout_of(shape, topology.root_of);
    let count = crate::topology::cluster_count(shape, topology.root_of);
    layout_is_sound(shape, topology.root_of);
    described_cluster(topology, board, cid);
    let c = topology.clusters[cid];
    if let Some(p) = c.terminal {
        terminal_of_cluster(board, topology, cid, p as int);
        assert(topology.terminals[p as int].cluster == cid);
    }
    select_properties(
        layout.terminals.len(),
        crate::topology::boundary_terminal(shape, layout, cid),
    );
    select_properties(
        layout.terminals.len(),
        crate::topology::control_terminal(shape, layout, cid),
    );
    assert forall|k: int| 0 <= k < c.boundary.len() implies a[#[trigger] c.boundary[k] as int]
        == b[c.boundary[k] as int] by {
        let p = c.boundary[k] as int;
        assert(crate::topology::boundary_terminal(shape, layout, cid)(p));
        select_properties(count, crate::topology::reads_terminal(shape, layout, p));
        assert(crate::topology::reads_terminal(shape, layout, p)(cid));
        assert(topology.terminals[p].dependents.contains(cid as usize));
    }
    assert forall|k: int| 0 <= k < c.boundary_controls.len() implies a[
    #[trigger] c.boundary_controls[k] as int] == b[c.boundary_controls[k] as int] by {
        let p = c.boundary_controls[k] as int;
        assert(crate::topology::control_terminal(shape, layout, cid)(p));
        select_properties(count, crate::topology::reads_terminal(shape, layout, p));
        assert(crate::topology::reads_terminal(shape, layout, p)(cid));
        assert(topology.terminals[p].dependents.contains(cid as usize));
    }
    let left = scene_in(board, topology, a, cid);
    let right = scene_in(board, topology, b, cid);
    assert(left.boundary =~= right.boundary);
    assert(left.controls =~= right.controls);
}

/// A cluster a change left alone is one a full pass resolves as before.
proof fn undisturbed_is_unchanged<S: ClusterSolver>(
    before: &Resolver,
    after: &Resolver,
    solver: &S,
    n: nat,
    cid: int,
)
    requires
        before.well_formed(),
        before.settled_for(n),
        after.keeps_clean(before, n),
        0 <= cid < before.structure(n).clusters.len(),
        !after.awaits(cid),
    ensures
        scene_now(solver, after.board(), after.structure(n), cid) == scene_now(
            solver,
            before.board(),
            before.structure(n),
            cid,
        ),
{
    settled_describes(before, n);
    let a = before.structure(n);
    let b = after.structure(n);
    let was = states_now(solver, before.board(), a);
    let now = states_now(solver, after.board(), b);
    assert forall|p: int|
        0 <= p < a.terminals.len() && ((#[trigger] a.terminals[p]).cluster == cid
            || a.terminals[p].dependents.contains(cid as usize)) implies now[p] == was[p] by {
        if !held_alike(before.board(), after.board(), a, p) {
            if a.terminals[p].dependents.contains(cid as usize) {
                let i = choose|i: int|
                    0 <= i < a.terminals[p].dependents.len() && a.terminals[p].dependents[i]
                        == cid as usize;
                assert(after.awaits(a.terminals[p].dependents[i] as int));
            }
        }
    }
    assert(after.undisturbed(before, n, cid));
    assert(scene_in(after.board(), b, now, cid) == scene_in(before.board(), a, now, cid));
    scene_reads_its_terminals(before.board(), a, now, was, cid);
}

/// A change that sets every cluster it touches waiting leaves every other
/// one in step, and its findings on the bus.
pub proof fn clean_changes_keep_step<S: ClusterSolver>(
    before: &Resolver,
    after: &Resolver,
    solver: &S,
    nets: Seq<Net>,
    bus: Seq<FindingView>,
)
    requires
        before.well_formed(),
        after.keeps_clean(before, nets.len()),
        before.in_step(solver, nets),
        before.on_bus(solver, nets, bus),
    ensures
        after.in_step(solver, nets),
        after.on_bus(solver, nets, bus),
{
    let n = nets.len();
    settled_describes(before, n);
    let a = before.structure(n);
    let b = after.structure(n);
    layout_is_sound(before.board().shape(), a.root_of);
    assert forall|p: int|
        0 <= p < b.terminals.len() && !after.awaits(
            (#[trigger] b.terminals[p]).cluster as int,
        ) implies after.held_states()[p] == states_now(solver, after.board(), b)[p] by {
        assert(held_alike(before.board(), after.board(), a, p));
        assert(a.terminals[p].cluster == b.terminals[p].cluster);
        assert(!before.awaits(a.terminals[p].cluster as int));
    }
    assert forall|i: int|
        0 <= i < nets.len() && !after.awaits(b.index[i] as int) implies resolved(
        solver,
        after.board(),
        b,
        #[trigger] nets[i],
        i,
    ) by {
        assert(!before.awaits(a.index[i] as int));
        assert(resolved(solver, before.board(), a, nets[i], i));
        undisturbed_is_unchanged(before, after, solver, n, a.index[i] as int);
    }
    assert forall|cid: int, finding: FindingView|
        0 <= cid < b.clusters.len() && !after.awaits(cid) && #[trigger] holds_finding(
            cluster_findings(
                solver,
                scene_now(solver, after.board(), b, cid),
                names_of(after.board(), nets),
            ),
            finding,
        ) implies bus.contains(finding) by {
        assert(!before.awaits(cid));
        undisturbed_is_unchanged(before, after, solver, n, cid);
        assert(names_of(after.board(), nets) == names_of(before.board(), nets));
        assert(holds_finding(
            cluster_findings(
                solver,
                scene_now(solver, before.board(), a, cid),
                names_of(before.board(), nets),
            ),
            finding,
        ));
    }
}

/// No change is a clean one.
pub proof fn unchanged_is_clean(resolver: &Resolver, n: nat)
    requires
        resolver.settled_for(n),
    ensures
        resolver.keeps_clean(resolver, n),
{
    let topology = resolver.structure(n);
    assert forall|p: int| 0 <= p < topology.terminals.len() implies #[trigger] held_alike(
        resolver.board(),
        resolver.board(),
        topology,
        p,
    ) by {}
}

/// Two clean changes make a clean one.
pub proof fn clean_changes_compose(before: &Resolver, mid: &Resolver, after: &Resolver, n: nat)
    requires
        mid.keeps_clean(before, n),
        after.keeps_clean(mid, n),
    ensures
        after.keeps_clean(before, n),
{
    let a = before.structure(n);
    let m = mid.structure(n);
    assert forall|nets: Seq<Net>| #[trigger]
        names_of(after.board(), nets) == names_of(before.board(), nets) by {
        assert(names_of(mid.board(), nets) == names_of(before.board(), nets));
    }
    assert forall|cid: int|
        0 <= cid < a.clusters.len() && !#[trigger] after.awaits(cid) implies after.undisturbed(
        before,
        n,
        cid,
    ) by {
        assert(!mid.awaits(cid));
        assert(mid.undisturbed(before, n, cid));
        assert(after.undisturbed(mid, n, cid));
        assert forall|states: Seq<TerminalState>| #[trigger]
            scene_in(after.board(), after.structure(n), states, cid) == scene_in(
                before.board(),
                a,
                states,
                cid,
            ) by {
            assert(scene_in(mid.board(), m, states, cid) == scene_in(
                before.board(),
                a,
                states,
                cid,
            ));
        }
    }
    assert forall|p: int|
        0 <= p < a.terminals.len() && !#[trigger] held_alike(
            before.board(),
            after.board(),
            a,
            p,
        ) implies {
        &&& after.awaits(a.terminals[p].cluster as int)
        &&& forall|i: int|
            0 <= i < a.terminals[p].dependents.len() ==> after.awaits(
                #[trigger] a.terminals[p].dependents[i] as int,
            )
    } by {
        assert(m.terminals[p] == a.terminals[p]);
        if held_alike(before.board(), mid.board(), a, p) {
            assert(!held_alike(mid.board(), after.board(), m, p));
            assert forall|i: int| 0 <= i < a.terminals[p].dependents.len() implies after.awaits(
                #[trigger] a.terminals[p].dependents[i] as int,
            ) by {
                assert(m.terminals[p].dependents[i] == a.terminals[p].dependents[i]);
            }
        } else {
            assert(mid.awaits(a.terminals[p].cluster as int));
            assert forall|i: int| 0 <= i < a.terminals[p].dependents.len() implies after.awaits(
                #[trigger] a.terminals[p].dependents[i] as int,
            ) by {
                assert(mid.awaits(a.terminals[p].dependents[i] as int));
            }
        }
    }
}

/// Resolving only the touched clusters matches a full pass: after it every
/// net and every terminal is as a full pass would leave it, and the bus holds
/// exactly what a full pass would have put on it.
pub proof fn dirty_pass_matches_full_pass<S: ClusterSolver>(
    before: &Resolver,
    after: &Resolver,
    solver: &S,
    old_nets: Seq<Net>,
    nets: Seq<Net>,
    old_bus: Seq<FindingView>,
    bus: Seq<FindingView>,
)
    requires
        before.well_formed(),
        before.in_step(solver, old_nets),
        before.on_bus(solver, old_nets, old_bus),
        after.same_board(before),
        after.settled_for(old_nets.len()),
        forall|cid: int| !#[trigger] after.awaits(cid),
        after.swept(
            before,
            solver,
            before.structure(old_nets.len()),
            old_nets,
            nets,
            old_bus,
            bus,
        ),
    ensures
        after.fully_resolved(solver, nets),
        after.in_step(solver, nets),
        after.on_bus(solver, nets, bus),
        forall|finding: FindingView|
            #[trigger] bus.contains(finding) <==> all_reported(
                old_bus,
                emission(
                    full_findings(
                        solver,
                        before.board(),
                        before.structure(old_nets.len()),
                        names_of(before.board(), old_nets),
                    ),
                ),
            ).contains(finding),
{
    let n = old_nets.len();
    settled_describes(before, n);
    let board = before.board();
    let topology = before.structure(n);
    assert(after.roots(n) == before.roots(n));
    assert(after.structure(nets.len()) == topology);
    layout_is_sound(board.shape(), topology.root_of);
    let cids = before.waiting(topology);
    select_properties(topology.clusters.len(), before.awaiting());
    assert forall|x: usize| #[trigger] cids.contains(x) <==> before.awaits(x as int) by {
        assert(cids.contains(x) <==> x < topology.clusters.len() && before.awaiting()(x as int));
    }
    let states = redecided(solver, board, topology, before.held_states(), cids);
    let now = states_now(solver, board, topology);
    assert(states =~= now) by {
        assert forall|p: int| 0 <= p < topology.terminals.len() implies states[p] == now[p] by {
            assert(cids.contains(topology.terminals[p].cluster) <==> before.awaits(
                topology.terminals[p].cluster as int,
            ));
        }
    }
    assert(cids.take(cids.len() as int) =~= cids);
    assert forall|i: int| 0 <= i < nets.len() implies resolved(
        solver,
        after.board(),
        topology,
        #[trigger] nets[i],
        i,
    ) by {
        assert(cids.contains(topology.index[i]) <==> before.awaits(topology.index[i] as int));
        if !cids.contains(topology.index[i]) {
            assert(resolved(solver, board, topology, old_nets[i], i));
        }
    }
    let names = names_of(board, old_nets);
    let touched = gathered(solver, board, topology, states, names, cids, cids.len());
    let all = full_findings(solver, board, topology, names);
    all_reported_properties(old_bus, emission(touched));
    all_reported_properties(old_bus, emission(all));
    names_kept(board, old_nets, nets);
    assert forall|finding: FindingView|
        #[trigger] bus.contains(finding) <==> all_reported(old_bus, emission(all)).contains(
            finding,
        ) by {
        same_bus(before, solver, topology, old_nets, old_bus, finding);
        emission_holds(touched, finding);
        emission_holds(all, finding);
    }
    assert forall|cid: int, finding: FindingView|
        0 <= cid < topology.clusters.len() && !after.awaits(cid) && #[trigger] holds_finding(
            cluster_findings(
                solver,
                scene_now(solver, after.board(), topology, cid),
                names_of(after.board(), nets),
            ),
            finding,
        ) implies bus.contains(finding) by {
        gathered_holds(
            solver,
            board,
            topology,
            now,
            names,
            every_cluster(topology),
            topology.clusters.len(),
            finding,
        );
        assert(every_cluster(topology)[cid] == cid as usize);
        emission_holds(all, finding);
    }
}

/// What the clusters that wait find, beside what is on the bus, is what every
/// cluster finds.
proof fn same_bus<S: ClusterSolver>(
    before: &Resolver,
    solver: &S,
    topology: TopologyView,
    nets: Seq<Net>,
    bus: Seq<FindingView>,
    finding: FindingView,
)
    requires
        before.on_bus(solver, nets, bus),
        topology == before.structure(nets.len()),
        topology.clusters.len() <= usize::MAX,
        forall|x: usize|
            #[trigger] before.waiting(topology).contains(x) <==> before.awaits(x as int),
        forall|cid: int| #[trigger] before.awaits(cid) ==> 0 <= cid < topology.clusters.len(),
    ensures
        bus.contains(finding) || holds_finding(
            gathered(
                solver,
                before.board(),
                topology,
                states_now(solver, before.board(), topology),
                names_of(before.board(), nets),
                before.waiting(topology),
                before.waiting(topology).len(),
            ),
            finding,
        ) <==> bus.contains(finding) || holds_finding(
            full_findings(
                solver,
                before.board(),
                topology,
                names_of(before.board(), nets),
            ),
            finding,
        ),
{
    let board = before.board();
    let names = names_of(board, nets);
    let now = states_now(solver, board, topology);
    let cids = before.waiting(topology);
    let every = every_cluster(topology);
    gathered_holds(solver, board, topology, now, names, cids, cids.len(), finding);
    gathered_holds(solver, board, topology, now, names, every, every.len(), finding);
    if exists|j: int|
        0 <= j < cids.len() && holds_finding(
            cluster_findings(
                solver,
                scene_in(board, topology, now, #[trigger] cids[j] as int),
                names,
            ),
            finding,
        ) {
        let j = choose|j: int|
            0 <= j < cids.len() && holds_finding(
                cluster_findings(
                    solver,
                    scene_in(board, topology, now, #[trigger] cids[j] as int),
                    names,
                ),
                finding,
            );
        assert(cids.contains(cids[j]));
        assert(before.awaits(cids[j] as int));
        assert(every[cids[j] as int] == cids[j]);
    }
    if exists|j: int|
        0 <= j < every.len() && holds_finding(
            cluster_findings(
                solver,
                scene_in(board, topology, now, #[trigger] every[j] as int),
                names,
            ),
            finding,
        ) {
        let j = choose|j: int|
            0 <= j < every.len() && holds_finding(
                cluster_findings(
                    solver,
                    scene_in(board, topology, now, #[trigger] every[j] as int),
                    names,
                ),
                finding,
            );
        assert(every[j] == j);
        if before.awaits(j) {
            assert(cids.contains(j as usize));
            let k = choose|k: int| 0 <= k < cids.len() && cids[k] == j as usize;
            assert(cids[k] as int == j);
        } else {
            assert(holds_finding(
                cluster_findings(solver, scene_now(solver, board, topology, j), names),
                finding,
            ));
        }
    }
}

} // verus!
