//! Passes over the clusters a drive touched.
use vstd::prelude::*;

use crate::cluster::ClusterSolver;
use crate::diagnostics::{all_reported, Diagnostics, FindingView};
use crate::emission::emission;
use crate::net::Net;
use crate::pass::names_of;
use crate::resolver::{
    counted, fights_in, gathered, pass_shown, redecided, same_nets,
    same_tables_same_currents, solves_of, started_the_same, terminal_of_cluster,
    Resolver,
};
use crate::resolver::laws::settled_describes;
use crate::seqs::{
    ascending, insert_ascending, listed, select, select_properties, select_rank, select_unique,
};
use crate::terminal::TerminalState;
use crate::topology::{
    cluster_of, cluster_root, clusters_join, dense_index_names, layout_is_sound, roots_below,
    Topology, TopologyView,
};

verus! {

impl Resolver {
    spec fn in_scope(&self, index: Seq<usize>) -> spec_fn(int) -> bool {
        |i: int| self.awaits(index[i] as int)
    }

    /// The nets the next dirty pass will touch, ascending: the members of
    /// every waiting cluster, or every net where the next pass must be a full
    /// one.
    pub closed spec fn scope(&self, n: nat) -> Seq<usize> {
        if self.settled_for(n) {
            select(n, self.in_scope(self.structure(n).index))
        } else {
            Seq::new(n, |i: int| i as usize)
        }
    }

    /// The clusters that wait, ascending.
    fn waiting_list(&self, topology: &Topology) -> (list: Vec<usize>)
        requires
            self.linked(*topology),
        ensures
            list@ == self.waiting(topology@),
            ascending(list@),
            forall|i: int|
                0 <= i < list@.len() ==> (#[trigger] list@[i]) < topology.clusters@.len(),
    {
        let mut list: Vec<usize> = Vec::new();
        let mut i: usize = 0;
        while i < self.dirty.len()
            invariant
                i <= self.dirty@.len(),
                ascending(list@),
                forall|x: usize|
                    #[trigger] list@.contains(x) <==> self.dirty@.take(i as int).contains(x),
            decreases self.dirty@.len() - i,
        {
            let x: usize = self.dirty[i];
            insert_ascending(&mut list, x);
            proof {
                assert forall|y: usize|
                    #[trigger] list@.contains(y) <==> self.dirty@.take(i + 1).contains(y) by {
                    crate::seqs::take_contains(self.dirty@, i as int, y);
                }
            }
            i += 1;
        }
        proof {
            assert(self.dirty@.take(i as int) =~= self.dirty@);
            assert(topology.clusters.len() <= usize::MAX);
            let keep = self.awaiting();
            assert forall|x: usize| #[trigger] list@.contains(x) <==> x < topology@.clusters.len()
                && keep(x as int) by {
                if list@.contains(x) {
                    let k = choose|k: int| 0 <= k < self.dirty@.len() && self.dirty@[k] == x;
                    assert(self.dirty@[k] == x);
                }
                if keep(x as int) {
                    let k = choose|k: int|
                        0 <= k < self.dirty@.len() && #[trigger] self.dirty@[k] == x as int;
                    assert(self.dirty@[k] == x);
                    assert(self.dirty@.contains(x));
                }
            }
            select_unique(list@, topology@.clusters.len(), keep);
            select_properties(topology@.clusters.len(), keep);
        }
        list
    }

    /// The nets the next dirty pass will touch, ascending, written into a
    /// list the caller keeps between passes.
    pub fn dirty_scope(&self, n: usize, scope: &mut Vec<usize>)
        requires
            self.well_formed(),
        ensures
            final(scope)@ == self.scope(n as nat),
    {
        scope.clear();
        let settled: bool = self.terminals_resolved && self.topology_is_current(n);
        let mut i: usize = 0;
        if settled {
            if let Some(topology) = &self.topology {
                let ghost keep = self.in_scope(topology@.index);
                assert(topology@ == self.structure(n as nat));
                proof {
                    layout_is_sound(self.board.shape(), topology@.root_of);
                }
                while i < n
                    invariant
                        i <= n,
                        n == topology.root_of@.len(),
                        n == topology.cluster_index@.len(),
                        self.linked(*topology),
                        keep == self.in_scope(topology@.index),
                        scope@ == select(i as nat, keep),
                    decreases n - i,
                {
                    let cid: usize = topology.cluster_index[i];
                    if listed(&self.dirty, cid) {
                        assert(self.awaits(cid as int));
                        scope.push(i);
                    } else {
                        assert(!self.awaits(cid as int)) by {
                            if self.awaits(cid as int) {
                                let k = choose|k: int|
                                    0 <= k < self.dirty@.len() && #[trigger] self.dirty@[k]
                                        == cid as int;
                                assert(self.dirty@.contains(cid));
                            }
                        }
                    }
                    assert(keep(i as int) == self.awaits(cid as int));
                    i += 1;
                }
            }
        } else {
            while i < n
                invariant
                    i <= n,
                    scope@ =~= Seq::new(i as nat, |x: int| x as usize),
                decreases n - i,
            {
                scope.push(i);
                i += 1;
            }
        }
    }

    /// Decide the terminals of the listed clusters anew. Returns what every
    /// terminal holds and how many fights were solved.
    fn decide_listed<S: ClusterSolver>(
        &self,
        topology: &Topology,
        cids: &Vec<usize>,
        solver: &S,
    ) -> (r: (Vec<TerminalState>, u128))
        requires
            self.carries(*topology),
            self.terminals_resolved,
            forall|i: int|
                0 <= i < cids@.len() ==> (#[trigger] cids@[i]) < topology.clusters@.len(),
        ensures
            r.0@ == redecided(solver, self.board, topology@, self.terminal_states@, cids@),
            r.1 == fights_in(self.board, topology@, cids@, cids@.len()),
            r.1 <= usize::MAX,
    {
        let ghost topo = topology@;
        let mut states: Vec<TerminalState> = Vec::new();
        let mut p: usize = 0;
        while p < self.terminal_states.len()
            invariant
                p <= self.terminal_states@.len(),
                states@ =~= self.terminal_states@.take(p as int),
            decreases self.terminal_states@.len() - p,
        {
            states.push(self.terminal_states[p]);
            p += 1;
        }
        let mut fought: u128 = 0;
        let mut k: usize = 0;
        proof {
            assert(cids@.take(0) =~= Seq::<usize>::empty());
            assert(states@ =~= redecided(
                solver,
                self.board,
                topo,
                self.terminal_states@,
                cids@.take(0),
            ));
        }
        while k < cids.len()
            invariant
                k <= cids@.len(),
                self.carries(*topology),
                self.terminals_resolved,
                topo == topology@,
                forall|i: int|
                    0 <= i < cids@.len() ==> (#[trigger] cids@[i]) < topology.clusters@.len(),
                states@ == redecided(
                    solver,
                    self.board,
                    topo,
                    self.terminal_states@,
                    cids@.take(k as int),
                ),
                fought == fights_in(self.board, topo, cids@, k as nat),
                fought <= k,
            decreases cids@.len() - k,
        {
            let cid: usize = cids[k];
            let ghost before = states@;
            let c = &topology.clusters[cid];
            assert(c@ == topo.clusters[cid as int]);
            assert(cids@[k as int] == cid);
            assert(topology.terminal_roots.len() <= usize::MAX);
            if let Some(position) = c.terminal {
                proof {
                    terminal_of_cluster(self.board, topo, cid as int, 0);
                }
                let (state, fight) = self.resolve_terminal(topology, position, solver);
                states.set(position, state);
                if fight {
                    fought = fought + 1;
                }
            }
            proof {
                let next = redecided(
                    solver,
                    self.board,
                    topo,
                    self.terminal_states@,
                    cids@.take(k + 1),
                );
                assert forall|q: int| 0 <= q < topo.terminals.len() implies states@[q]
                    == #[trigger] next[q] by {
                    terminal_of_cluster(self.board, topo, cid as int, q);
                    crate::seqs::take_contains(cids@, k as int, topo.terminals[q].cluster);
                    assert(before[q] == redecided(
                        solver,
                        self.board,
                        topo,
                        self.terminal_states@,
                        cids@.take(k as int),
                    )[q]);
                }
                assert(states@ =~= next);
            }
            k += 1;
        }
        assert(cids@.take(k as int) =~= cids@);
        (states, fought)
    }

    /// Run a pass over the clusters that wait.
    fn waiting_pass<S: ClusterSolver>(
        &mut self,
        topology: &Topology,
        nets: &mut Vec<Net>,
        diagnostics: &mut Diagnostics,
        solver: &S,
    )
        requires
            old(self).carries(*topology),
            old(self).terminals_resolved,
            old(nets)@.len() == topology.root_of@.len(),
        ensures
            final(self).carries(*topology),
            final(self).board == old(self).board,
            final(self).identity == old(self).identity,
            final(self).net_count == old(self).net_count,
            final(self).dirty@.len() == 0,
            final(self).terminals_resolved,
            final(self).swept(
                old(self),
                solver,
                topology@,
                old(nets)@,
                final(nets)@,
                old(diagnostics)@,
                final(diagnostics)@,
            ),
    {
        let cids = self.waiting_list(topology);
        let (states, fought) = self.decide_listed(topology, &cids, solver);
        self.conclude(topology, &cids, states, fought, nets, diagnostics, solver);
    }

    /// What a pass over the clusters that waited leaves: their terminals
    /// decided anew, their nets resolved, their findings on the bus, their
    /// currents stored; everything else as it was.
    pub open spec fn swept<S: ClusterSolver>(
        &self,
        before: &Resolver,
        solver: &S,
        topology: TopologyView,
        old_nets: Seq<Net>,
        nets: Seq<Net>,
        old_bus: Seq<FindingView>,
        bus: Seq<FindingView>,
    ) -> bool {
        let board = before.board();
        let cids = before.waiting(topology);
        let states = redecided(solver, board, topology, before.held_states(), cids);
        &&& self.held_states() == states
        &&& pass_shown(solver, board, topology, states, cids, cids.len() as int, old_nets, nets)
        &&& bus == all_reported(
            old_bus,
            emission(
                gathered(
                    solver,
                    board,
                    topology,
                    states,
                    names_of(board, old_nets),
                    cids,
                    cids.len(),
                ),
            ),
        )
        &&& self.currents_after(before, solver, topology, states, cids)
        &&& self.solves_counted() == counted(
            before.solves_counted() + fights_in(board, topology, cids, cids.len()) + solves_of(
                board,
                topology,
                states,
                cids,
                cids.len(),
            ),
        )
    }

    /// Resolve only the clusters a drive changed since the last pass,
    /// reporting their findings; every other net keeps its state. Falls back
    /// to a full pass where the structure changed underneath. A waiting
    /// terminal's cluster is decided before any waiting dependent is
    /// resolved.
    pub fn resolve_dirty<S: ClusterSolver>(
        &mut self,
        nets: &mut Vec<Net>,
        diagnostics: &mut Diagnostics,
        solver: &S,
    )
        requires
            old(self).well_formed(),
            old(self).fits(old(nets)@.len()),
        ensures
            final(self).well_formed(),
            final(self).same_board(old(self)),
            same_nets(old(nets)@, final(nets)@),
            final(self).settled_for(old(nets)@.len()),
            forall|cid: int| !#[trigger] final(self).awaits(cid),
            old(self).settled_for(old(nets)@.len()) ==> final(self).swept(
                old(self),
                solver,
                old(self).structure(old(nets)@.len()),
                old(nets)@,
                final(nets)@,
                old(diagnostics)@,
                final(diagnostics)@,
            ),
            !old(self).settled_for(old(nets)@.len()) ==> final(self).swept_fully(
                old(self),
                solver,
                old(nets)@,
                final(nets)@,
                old(diagnostics)@,
                final(diagnostics)@,
            ),
    {
        let n: usize = nets.len();
        if !(self.terminals_resolved && self.topology_is_current(n)) {
            self.resolve(nets, diagnostics, solver);
            return ;
        }
        let ghost structure = self.structure(n as nat);
        let taken = self.topology.take();
        match taken {
            None => {},
            Some(topology) => {
                assert(topology@ == structure);
                let ghost before = *self;
                self.waiting_pass(&topology, nets, diagnostics, solver);
                let ghost after = *self;
                self.topology = Some(topology);
                proof {
                    swept_alike(
                        old(self),
                        &before,
                        &after,
                        self,
                        solver,
                        structure,
                        old(nets)@,
                        nets@,
                        old(diagnostics)@,
                        diagnostics@,
                    );
                }
            },
        }
    }
}

/// A sweep depends on the board and the tables, not on where the structure
/// is kept.
proof fn swept_alike<S: ClusterSolver>(
    start: &Resolver,
    before: &Resolver,
    after: &Resolver,
    kept: &Resolver,
    solver: &S,
    topology: TopologyView,
    old_nets: Seq<Net>,
    nets: Seq<Net>,
    old_bus: Seq<FindingView>,
    bus: Seq<FindingView>,
)
    requires
        *before == (Resolver { topology: before.topology, ..*start }),
        *kept == (Resolver { topology: kept.topology, ..*after }),
        after.swept(before, solver, topology, old_nets, nets, old_bus, bus),
    ensures
        kept.swept(start, solver, topology, old_nets, nets, old_bus, bus),
{
    assert forall|cid: int| #[trigger] start.awaiting()(cid) == before.awaiting()(cid) by {
        if start.awaits(cid) {
            let i = choose|i: int| 0 <= i < start.dirty@.len() && #[trigger] start.dirty@[i] == cid;
            assert(before.dirty@[i] == cid);
        }
        if before.awaits(cid) {
            let i = choose|i: int|
                0 <= i < before.dirty@.len() && #[trigger] before.dirty@[i] == cid;
            assert(start.dirty@[i] == cid);
        }
    }
    crate::seqs::select_congruent(
        topology.clusters.len(),
        start.awaiting(),
        before.awaiting(),
    );
    let cids = before.waiting(topology);
    let states = redecided(solver, before.board(), topology, before.held_states(), cids);
    assert forall|e: int| #[trigger] before.endpoint_current(e) == start.endpoint_current(e) by {}
    assert forall|e: int| #[trigger] before.element_current(e) == start.element_current(e) by {}
    same_tables_same_currents(after, kept, before, solver, topology, states, cids);
    started_the_same(start, before, kept, solver, topology, states, cids);
}

/// The next dirty pass touches exactly the nets whose cluster waits; where it
/// touches none, nothing waits.
pub proof fn scope_is_what_waits(resolver: &Resolver, n: nat)
    requires
        resolver.well_formed(),
        resolver.settled_for(n),
    ensures
        ascending(resolver.scope(n)),
        forall|i: int|
            0 <= i < resolver.scope(n).len() ==> (#[trigger] resolver.scope(n)[i]) < n,
        forall|x: usize|
            #[trigger] resolver.scope(n).contains(x) <==> x < n && resolver.awaits(
                resolver.structure(n).index[x as int] as int,
            ),
        resolver.scope(n).len() == 0 ==> forall|cid: int| !#[trigger] resolver.awaits(cid),
{
    settled_describes(resolver, n);
    let topology = resolver.structure(n);
    let shape = resolver.board().shape();
    let keep = resolver.in_scope(topology.index);
    select_properties(n, keep);
    if resolver.scope(n).len() == 0 {
        assert forall|cid: int| !#[trigger] resolver.awaits(cid) by {
            if resolver.awaits(cid) {
                let c = cluster_of(shape, topology.root_of);
                let roots = roots_below(c, n);
                clusters_join(shape, topology.root_of);
                select_properties(n, cluster_root(c));
                select_rank(n, cluster_root(c), cid);
                let r = roots[cid];
                assert(cluster_root(c)(r as int));
                dense_index_names(c, r as int, r as int);
                assert(topology.index[r as int] == cid);
                assert(keep(r as int));
                assert(resolver.scope(n).contains(r));
            }
        }
    }
}

/// A pass over the clusters that waited leaves every net outside its scope as
/// it was.
pub proof fn the_scope_is_what_moves<S: ClusterSolver>(
    before: &Resolver,
    after: &Resolver,
    solver: &S,
    old_nets: Seq<Net>,
    nets: Seq<Net>,
    old_bus: Seq<FindingView>,
    bus: Seq<FindingView>,
    i: int,
)
    requires
        before.well_formed(),
        before.settled_for(old_nets.len()),
        after.swept(
            before,
            solver,
            before.structure(old_nets.len()),
            old_nets,
            nets,
            old_bus,
            bus,
        ),
        0 <= i < old_nets.len(),
        !before.scope(old_nets.len()).contains(i as usize),
    ensures
        nets[i].state == old_nets[i].state,
        nets[i].volts == old_nets[i].volts,
{
    let n = old_nets.len();
    let topology = before.structure(n);
    settled_describes(before, n);
    scope_is_what_waits(before, n);
    let cids = before.waiting(topology);
    select_properties(topology.clusters.len(), before.awaiting());
    assert(cids.take(cids.len() as int) =~= cids);
    assert(!cids.contains(topology.index[i])) by {
        assert(!before.awaits(topology.index[i] as int));
        if cids.contains(topology.index[i]) {
            assert(before.awaiting()(topology.index[i] as int));
        }
    }
    assert(nets[i].state == nets[i].state);
}

} // verus!
