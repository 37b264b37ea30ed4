//! Reads declared at run time, and the currents a pass leaves.
use vstd::prelude::*;

use crate::board::{Board, BoardView, ReadKind, Shape};
use crate::net::Net;
use crate::pass::{described_cluster, describes, names_of};
use crate::reach::{arrivals_from, arrives, coupled_view, is_clock, slot_reach};
use crate::resolver::laws::{
    clean_changes_compose, held_alike, reads_alike, same_frame, settled_describes, unchanged_is_clean,
};
use crate::resolver::{
    clock_at, clock_reaches, same_list_same_waiting, scene_in, sources_hold, CurrentTable, Resolver,
};
use crate::seqs::{select_congruent, select_properties};
use crate::terminal::TerminalState;
use crate::topology::{
    boundary_terminal, cluster_count, cluster_of, cluster_topo, control_terminal, layout_is_sound,
    layout_of, member_element, on_terminal, reads_terminal, sense_in, senses_in, sourcing_slot,
    terminal_root, topology_of, ClusterTopoView, Topology, TopologyView,
};

verus! {

/// A board with one more reader.
pub open spec fn with_read(board: BoardView, net: usize, kind: ReadKind) -> BoardView {
    match kind {
        ReadKind::Digital => BoardView {
            digital_senses: board.digital_senses.push(net),
            ..board
        },
        ReadKind::Instrument => BoardView {
            current_instruments: board.current_instruments.push(net),
            ..board
        },
    }
}

/// A board with the first `k` of a list of readers.
pub open spec fn with_reads(board: BoardView, reads: Seq<(usize, ReadKind)>, k: nat) -> BoardView
    decreases k,
{
    if k == 0 {
        board
    } else {
        with_read(
            with_reads(board, reads, (k - 1) as nat),
            reads[k - 1].0,
            reads[k - 1].1,
        )
    }
}

/// A cluster with one more reader, at a position of its list.
pub open spec fn read_at(c: ClusterTopoView, position: usize, kind: ReadKind) -> ClusterTopoView {
    match kind {
        ReadKind::Digital => ClusterTopoView {
            digital_senses: c.digital_senses.push(position),
            ..c
        },
        ReadKind::Instrument => ClusterTopoView {
            current_instruments: c.current_instruments.push(position),
            ..c
        },
    }
}

/// Whether a net lies in a cluster; one past the others lies in none.
pub open spec fn lies_in(topology: TopologyView, net: usize, cid: int) -> bool {
    net < topology.index.len() && topology.index[net as int] == cid
}

/// How many readers of a kind a board has.
pub open spec fn readers(board: BoardView, kind: ReadKind) -> nat {
    match kind {
        ReadKind::Digital => board.digital_senses.len(),
        ReadKind::Instrument => board.current_instruments.len(),
    }
}

/// Shapes that differ at most in who reads them.
spec fn same_but_readers(a: Shape, b: Shape) -> bool {
    b == (Shape {
        digital_senses: b.digital_senses,
        current_instruments: b.current_instruments,
        ..a
    })
}

/// Readers are no part of a board's layout.
proof fn layout_ignores_readers(a: Shape, b: Shape, root_of: Seq<usize>)
    requires
        same_but_readers(a, b),
    ensures
        layout_of(b, root_of) == layout_of(a, root_of),
        cluster_count(b, root_of) == cluster_count(a, root_of),
{
    assert(b.power_nets == a.power_nets);
    assert(b.stuck_nets == a.stuck_nets);
    assert forall|r: int| #[trigger] terminal_root(b, root_of)(r) == terminal_root(a, root_of)(
        r,
    ) by {
        assert(on_terminal(b, root_of, r as usize) == on_terminal(a, root_of, r as usize));
    }
    assert(terminal_root(b, root_of) =~= terminal_root(a, root_of));
    assert(cluster_of(b, root_of) == cluster_of(a, root_of));
}

/// Whether the positions of a list that lie in a cluster grow by one entry
/// pushed behind it.
proof fn senses_push(index: Seq<usize>, nets: Seq<usize>, net: usize, cid: int)
    requires
        nets.len() < usize::MAX,
    ensures
        senses_in(index, nets.push(net), cid) == (if net < index.len() && index[net as int]
            == cid {
            senses_in(index, nets, cid).push(nets.len() as usize)
        } else {
            senses_in(index, nets, cid)
        }),
{
    let grown = nets.push(net);
    let p = sense_in(index, grown, cid);
    let q = sense_in(index, nets, cid);
    assert forall|k: int| 0 <= k < nets.len() implies #[trigger] p(k) == q(k) by {
        assert(grown[k] == nets[k]);
    }
    select_congruent(nets.len(), p, q);
    assert(p(nets.len() as int) == (net < index.len() && index[net as int] == cid));
}

/// One more reader changes one cluster's list of them, and nothing else of
/// the structure.
proof fn read_changes_one_cluster(
    a: Board,
    b: Board,
    root_of: Seq<usize>,
    net: usize,
    kind: ReadKind,
)
    requires
        b@ == with_read(a@, net, kind),
        readers(a@, kind) < usize::MAX,
    ensures
        ({
            let before = topology_of(a.shape(), root_of);
            let after = topology_of(b.shape(), root_of);
            &&& same_frame(before, after)
            &&& after.root_edges == before.root_edges
            &&& after.root_couplings == before.root_couplings
            &&& after.smallest_edges == before.smallest_edges
            &&& forall|cid: int|
                0 <= cid < before.clusters.len() ==> #[trigger] after.clusters[cid] == (
                if lies_in(before, net, cid) {
                    read_at(before.clusters[cid], readers(a@, kind) as usize, kind)
                } else {
                    before.clusters[cid]
                })
        }),
{
    let s = a.shape();
    let t = b.shape();
    assert(b.slots@ == a.slots@);
    assert(b.couplings@ == a.couplings@);
    assert(b.elements@ == a.elements@);
    assert(b.power_sources@ == a.power_sources@);
    assert(b.stuck_sources@ == a.stuck_sources@);
    assert(t =~= (Shape {
        digital_senses: t.digital_senses,
        current_instruments: t.current_instruments,
        ..s
    }));
    layout_ignores_readers(s, t, root_of);
    let layout = layout_of(s, root_of);
    let before = topology_of(s, root_of);
    let after = topology_of(t, root_of);
    let count = cluster_count(s, root_of);
    assert(after.smallest_edges =~= before.smallest_edges);
    assert forall|p: int| 0 <= p < before.terminals.len() implies #[trigger] after.terminals[p]
        == before.terminals[p] by {
        assert(reads_terminal(t, layout, p) =~= reads_terminal(s, layout, p)) by {
            assert forall|cid: int|
                #[trigger] reads_terminal(t, layout, p)(cid) == reads_terminal(s, layout, p)(
                    cid,
                ) by {}
        }
    }
    assert(after.terminals =~= before.terminals);
    assert forall|cid: int| 0 <= cid < before.clusters.len() implies #[trigger] after.clusters[cid]
        == (if lies_in(before, net, cid) {
        read_at(before.clusters[cid], readers(a@, kind) as usize, kind)
    } else {
        before.clusters[cid]
    }) by {
        assert(sourcing_slot(t, layout, cid) =~= sourcing_slot(s, layout, cid));
        assert(member_element(t, layout, cid) =~= member_element(s, layout, cid));
        assert(boundary_terminal(t, layout, cid) =~= boundary_terminal(s, layout, cid));
        assert(control_terminal(t, layout, cid) =~= control_terminal(s, layout, cid));
        match kind {
            ReadKind::Digital => {
                senses_push(layout.index, s.digital_senses, net, cid);
            },
            ReadKind::Instrument => {
                senses_push(layout.index, s.current_instruments, net, cid);
            },
        }
        assert(cluster_topo(t, layout, cid) =~= (if lies_in(before, net, cid) {
            read_at(cluster_topo(s, layout, cid), readers(a@, kind) as usize, kind)
        } else {
            cluster_topo(s, layout, cid)
        }));
    }
}

/// A rate's reach depends on the structure's frame, not on who reads it.
proof fn reach_ignores_readers(a: Board, b: Board, t: TopologyView, u: TopologyView)
    requires
        b.slots@ == a.slots@,
        b.couplings@ == a.couplings@,
        same_frame(t, u),
        u.root_edges == t.root_edges,
        u.root_couplings == t.root_couplings,
        u.smallest_edges == t.smallest_edges,
    ensures
        forall|s: int| #[trigger] slot_reach(b, u, s) == slot_reach(a, t, s),
        forall|s: int, cid: int| #[trigger] clock_reaches(b, u, s, cid) == clock_reaches(
            a,
            t,
            s,
            cid,
        ),
        forall|s: int| #[trigger] is_clock(b, s) == is_clock(a, s),
{
    assert(b.shape().couplings =~= a.shape().couplings);
    assert forall|s: int| #[trigger] slot_reach(b, u, s) == slot_reach(a, t, s) by {
        let from = t.root_of[a.slots@[s].net as int];
        assert(arrives(u, from) =~= arrives(t, from));
        assert(slot_reach(b, u, s) =~= slot_reach(a, t, s)) by {
            let left = slot_reach(b, u, s);
            let right = slot_reach(a, t, s);
            assert(left.len() == right.len());
            assert forall|i: int| 0 <= i < left.len() implies left[i] == right[i] by {
                assert(left[i].crossings =~= right[i].crossings);
            }
        }
    }
    assert forall|s: int, cid: int| #[trigger] clock_reaches(b, u, s, cid) == clock_reaches(
        a,
        t,
        s,
        cid,
    ) by {
        assert(slot_reach(b, u, s) == slot_reach(a, t, s));
    }
}

proof fn arrivals_ignore_readers(
    a: Board,
    b: Board,
    t: TopologyView,
    u: TopologyView,
    cid: int,
    k: nat,
)
    requires
        b.slots@ == a.slots@,
        u.index == t.index,
        forall|s: int| #[trigger] slot_reach(b, u, s) == slot_reach(a, t, s),
    ensures
        arrivals_from(b, u, cid, k) == arrivals_from(a, t, cid, k),
    decreases k,
{
    if k > 0 {
        arrivals_ignore_readers(a, b, t, u, cid, (k - 1) as nat);
        assert(slot_reach(b, u, k - 1) == slot_reach(a, t, k - 1));
    }
}

/// What one more reader leaves of every other cluster's scene.
proof fn other_scenes_kept(a: Board, b: Board, root_of: Seq<usize>, net: usize, kind: ReadKind)
    requires
        describes(topology_of(a.shape(), root_of), a),
        b@ == with_read(a@, net, kind),
        readers(a@, kind) < usize::MAX,
    ensures
        forall|cid: int|
            0 <= cid < topology_of(a.shape(), root_of).clusters.len() && !lies_in(
                topology_of(a.shape(), root_of),
                net,
                cid,
            ) ==> #[trigger] reads_alike(
                a,
                topology_of(a.shape(), root_of),
                b,
                topology_of(b.shape(), root_of),
                cid,
            ),
{
    let t = topology_of(a.shape(), root_of);
    let u = topology_of(b.shape(), root_of);
    read_changes_one_cluster(a, b, root_of, net, kind);
    assert(b.slots@ == a.slots@);
    assert(b.couplings@ == a.couplings@);
    assert(b.elements@ == a.elements@);
    assert(b.analog_senses@ == a.analog_senses@);
    assert(b.power_senses@ == a.power_senses@);
    reach_ignores_readers(a, b, t, u);
    assert forall|cid: int|
        0 <= cid < t.clusters.len() && !lies_in(t, net, cid) implies #[trigger] reads_alike(
        a,
        t,
        b,
        u,
        cid,
    ) by {
        arrivals_ignore_readers(a, b, t, u, cid, a.slots@.len());
        assert(u.clusters[cid] == t.clusters[cid]);
        described_cluster(t, a, cid);
        let c = t.clusters[cid];
        assert(a.digital_senses.len() <= usize::MAX);
        let keep = sense_in(t.index, a.digital_senses@, cid);
        select_properties(a.digital_senses@.len(), keep);
        assert forall|k: int| 0 <= k < c.digital_senses.len() implies b.digital_senses@[
        #[trigger] c.digital_senses[k] as int] == a.digital_senses@[c.digital_senses[k] as int] by {
            assert(c.digital_senses[k] < a.digital_senses@.len());
        }
        assert forall|states: Seq<TerminalState>| #[trigger] scene_in(b, u, states, cid)
            == scene_in(a, t, states, cid) by {
            let left = scene_in(b, u, states, cid);
            let right = scene_in(a, t, states, cid);
            assert(left.digital_nets =~= right.digital_nets);
            assert(left.slot_roots =~= right.slot_roots);
            assert(left.drives =~= right.drives);
            assert(left.elements =~= right.elements);
        }
    }
}

impl Resolver {
    /// Whether a list of reads touches a cluster: one of their nets lies in it.
    pub open spec fn touched_by_reads(
        &self,
        n: nat,
        reads: Seq<(usize, ReadKind)>,
        cid: int,
    ) -> bool {
        exists|i: int|
            0 <= i < reads.len() && lies_in(self.structure(n), (#[trigger] reads[i]).0, cid)
    }

    /// Put one more reader on a net of a resolved board; one past its nets is
    /// listed, and lies in no cluster.
    fn declare_live(&mut self, topology: &mut Topology, net: usize, kind: ReadKind)
        requires
            old(self).carries(*old(topology)),
            old(self).terminals_resolved,
        ensures
            final(self).carries(*final(topology)),
            final(self).board@ == with_read(old(self).board@, net, kind),
            final(self).identity == old(self).identity,
            final(self).net_count == old(self).net_count,
            final(self).topology == old(self).topology,
            final(self).terminal_states == old(self).terminal_states,
            final(self).terminals_resolved,
            final(self).endpoint_currents == old(self).endpoint_currents,
            final(self).element_currents == old(self).element_currents,
            final(self).currents_changed == old(self).currents_changed,
            final(self).escalated_solves == old(self).escalated_solves,
            final(topology).root_of == old(topology).root_of,
            forall|cid: int| #[trigger]
                final(self).awaits(cid) <==> old(self).awaits(cid) || lies_in(
                    old(topology)@,
                    net,
                    cid,
                ),
    {
        let ghost before = topology@;
        let ghost a = self.board;
        proof {
            layout_is_sound(a.shape(), before.root_of);
        }
        let home: Option<usize> = if net < topology.cluster_index.len() {
            assert(before.index[net as int] < before.clusters.len());
            Some(topology.cluster_index[net])
        } else {
            None
        };
        match kind {
            ReadKind::Digital => {
                let position: usize = self.board.digital_senses.len();
                self.board.digital_senses.push(net);
                assert(self.board.digital_senses.len() <= usize::MAX);
                if let Some(cid) = home {
                    let c = &mut topology.clusters[cid];
                    c.digital_senses.push(position);
                }
            },
            ReadKind::Instrument => {
                let position: usize = self.board.current_instruments.len();
                self.board.current_instruments.push(net);
                assert(self.board.current_instruments.len() <= usize::MAX);
                if let Some(cid) = home {
                    let c = &mut topology.clusters[cid];
                    c.current_instruments.push(position);
                }
            },
        }
        let ghost b = self.board;
        let ghost after = topology_of(b.shape(), before.root_of);
        proof {
            assert(b@ =~= with_read(a@, net, kind));
            read_changes_one_cluster(a, b, before.root_of, net, kind);
            assert(topology@.clusters =~= after.clusters) by {
                assert forall|x: int| 0 <= x < after.clusters.len() implies topology@.clusters[x]
                    == #[trigger] after.clusters[x] by {
                    if !lies_in(before, net, x) {
                        assert(topology.clusters@[x] == old(topology).clusters@[x]);
                        assert(before.clusters[x] == old(topology).clusters@[x]@);
                    } else {
                        assert(before.clusters[x] == old(topology).clusters@[x]@);
                        assert(topology@.clusters[x] =~= read_at(
                            before.clusters[x],
                            readers(a@, kind) as usize,
                            kind,
                        ));
                    }
                }
            }
            assert(topology@ =~= after);
            assert(b.slots@ == a.slots@);
            assert(b.couplings@ == a.couplings@);
            reach_ignores_readers(a, b, before, after);
            assert(clock_at(b) =~= clock_at(a));
            assert(b.shape().valid(before.root_of.len())) by {
                valid_with_read(a, b, net, kind, before.root_of.len());
            }
            readers_keep_clocks(old(self), self, before, after);
            assert forall|s: int| 0 <= s < self.board().slots@.len() implies ({
                let slot = #[trigger] self.board().slots@[s];
                &&& crate::net::normalised(slot.drive) == slot.drive
                &&& slot.terminal matches Some(id) ==> self.board().declares(id)
                    && self.board().terminal_net(id) == slot.net
            }) by {
                assert(old(self).board().slots@[s] == self.board.slots@[s]);
            }
        }
        let ghost unmarked = *self;
        if let Some(cid) = home {
            self.mark(cid);
        }
        proof {
            same_list_same_waiting(old(self), &unmarked);
            assert forall|i: int| 0 <= i < self.dirty@.len() implies (#[trigger] self.dirty@[i])
                < topology.clusters@.len() by {
                if home != Some(self.dirty@[i]) {
                    let j = choose|j: int|
                        0 <= j < unmarked.dirty@.len() && unmarked.dirty@[j] == self.dirty@[i];
                    assert(old(self).dirty@[j] < old(topology).clusters@.len());
                }
            }
            assert forall|x: int| #[trigger]
                self.awaits(x) <==> old(self).awaits(x) || lies_in(before, net, x) by {
                assert(unmarked.awaits(x) == old(self).awaits(x));
            }
        }
    }
}

proof fn valid_with_read(a: Board, b: Board, net: usize, kind: ReadKind, n: nat)
    requires
        a.shape().valid(n),
        b@ == with_read(a@, net, kind),
    ensures
        b.shape().valid(n),
{
    let s = a.shape();
    let t = b.shape();
    assert(b.slots@ == a.slots@);
    assert(b.couplings@ == a.couplings@);
    assert(b.elements@ == a.elements@);
    assert(b.power_sources@ == a.power_sources@);
    assert(b.stuck_sources@ == a.stuck_sources@);
    assert(t =~= (Shape {
        digital_senses: t.digital_senses,
        current_instruments: t.current_instruments,
        ..s
    }));
}

proof fn readers_keep_clocks(
    before: &Resolver,
    after: &Resolver,
    t: TopologyView,
    u: TopologyView,
)
    requires
        before.cache_sound(t),
        before.clocks_sound(t),
        after.board.slots@ == before.board.slots@,
        after.coupled_cache == before.coupled_cache,
        after.reach_clusters == before.reach_clusters,
        forall|s: int| #[trigger] slot_reach(after.board, u, s) == slot_reach(before.board, t, s),
        forall|s: int, cid: int| #[trigger] clock_reaches(after.board, u, s, cid) == clock_reaches(
            before.board,
            t,
            s,
            cid,
        ),
        forall|s: int| #[trigger] is_clock(after.board, s) == is_clock(before.board, s),
    ensures
        after.cache_sound(u),
        after.clocks_sound(u),
{
    assert forall|s: int|
        0 <= s < after.coupled_cache@.len() && (#[trigger] after.coupled_cache@[s])
            is Some implies coupled_view(after.coupled_cache@[s]->0@) == slot_reach(
        after.board,
        u,
        s,
    ) by {
        assert(before.coupled_cache@[s] is Some);
    }
    if after.reach_clusters is Some {
        let list = after.reach_clusters->0;
        assert forall|cid: usize| #[trigger] list@.contains(cid) <==> exists|s: int|
            0 <= s < after.board.slots@.len() && #[trigger] is_clock(after.board, s)
                && clock_reaches(after.board, u, s, cid as int) by {
            if list@.contains(cid) {
                let s = choose|s: int|
                    0 <= s < before.board.slots@.len() && #[trigger] is_clock(before.board, s)
                        && clock_reaches(before.board, t, s, cid as int);
                assert(is_clock(after.board, s));
                assert(clock_reaches(after.board, u, s, cid as int));
            }
            if exists|s: int|
                0 <= s < after.board.slots@.len() && #[trigger] is_clock(after.board, s)
                    && clock_reaches(after.board, u, s, cid as int) {
                let s = choose|s: int|
                    0 <= s < after.board.slots@.len() && #[trigger] is_clock(after.board, s)
                        && clock_reaches(after.board, u, s, cid as int);
                assert(is_clock(before.board, s));
                assert(clock_reaches(before.board, t, s, cid as int));
            }
        }
        assert forall|s: int|
            0 <= s < after.board.slots@.len() && #[trigger] is_clock(after.board, s) implies s
            < after.coupled_cache@.len() && after.coupled_cache@[s] is Some by {
            assert(is_clock(before.board, s));
        }
    }
}

/// One more reader touches its own cluster and no other.
proof fn read_keeps_clean(before: &Resolver, after: &Resolver, n: nat, net: usize, kind: ReadKind)
    requires
        before.well_formed(),
        before.settled_for(n),
        after.settled_for(n),
        after.roots(n) == before.roots(n),
        after.held_states() == before.held_states(),
        after.board()@ == with_read(before.board()@, net, kind),
        readers(before.board()@, kind) < usize::MAX,
        forall|cid: int| #[trigger]
            after.awaits(cid) <==> before.awaits(cid) || lies_in(before.structure(n), net, cid),
    ensures
        after.keeps_clean(before, n),
        after.structure(n).index == before.structure(n).index,
{
    let a = before.board();
    let b = after.board();
    settled_describes(before, n);
    let t = before.structure(n);
    let u = after.structure(n);
    read_changes_one_cluster(a, b, before.roots(n), net, kind);
    other_scenes_kept(a, b, before.roots(n), net, kind);
    assert(b.slots@ == a.slots@);
    assert(b.couplings@ == a.couplings@);
    assert(b.elements@ == a.elements@);
    assert(b.power_sources@ == a.power_sources@);
    assert(b.stuck_sources@ == a.stuck_sources@);
    assert forall|nets: Seq<Net>| #[trigger] names_of(b, nets) == names_of(a, nets) by {
        assert(names_of(b, nets).pins =~= names_of(a, nets).pins);
    }
    assert forall|cid: int|
        0 <= cid < t.clusters.len() && !#[trigger] after.awaits(cid) implies after.undisturbed(
        before,
        n,
        cid,
    ) by {
        assert(reads_alike(a, t, b, u, cid));
    }
    assert forall|p: int| 0 <= p < t.terminals.len() implies #[trigger] held_alike(
        a,
        b,
        t,
        p,
    ) by {
        assert(sources_hold(b, t.terminals[p].sources) =~= sources_hold(
            a,
            t.terminals[p].sources,
        ));
    }
}

impl Resolver {
    /// Declare one reader on a resolved board.
    fn declare_one(&mut self, net: usize, kind: ReadKind)
        requires
            old(self).well_formed(),
            old(self).terminals_resolved,
            old(self).topology is Some,
        ensures
            final(self).well_formed(),
            final(self).same_results(old(self)),
            final(self).terminals_resolved,
            final(self).topology matches Some(t) && t.root_of == old(self).topology->0.root_of,
            final(self).board()@ == with_read(old(self).board()@, net, kind),
            forall|n: nat| #[trigger]
                old(self).settled_for(n) ==> final(self).keeps_clean(old(self), n)
                    && final(self).structure(n).index == old(self).structure(n).index,
            forall|n: nat, cid: int|
                #![trigger final(self).awaits(cid), old(self).settled_for(n)]
                old(self).settled_for(n) ==> (final(self).awaits(cid) <==> old(self).awaits(cid)
                    || lies_in(old(self).structure(n), net, cid)),
    {
        let taken = self.topology.take();
        match taken {
            None => {
                self.topology = None;
            },
            Some(topology) => {
                let mut topology = topology;
                let ghost bare = *self;
                self.declare_live(&mut topology, net, kind);
                let ghost live = *self;
                self.topology = Some(topology);
                proof {
                    same_list_same_waiting(old(self), &bare);
                    same_list_same_waiting(&live, self);
                    assert(live.board.digital_senses.len() <= usize::MAX);
                    assert(live.board.current_instruments.len() <= usize::MAX);
                    assert(readers(live.board@, kind) == readers(bare.board@, kind) + 1);
                    assert forall|n: nat| #[trigger]
                        old(self).settled_for(n) implies self.keeps_clean(old(self), n)
                        && self.structure(n).index == old(self).structure(n).index by {
                        assert(self.roots(n) == old(self).roots(n));
                        assert(old(self).topology->0@ == old(self).structure(n));
                        assert forall|cid: int| #[trigger]
                            self.awaits(cid) <==> old(self).awaits(cid) || lies_in(
                                old(self).structure(n),
                                net,
                                cid,
                            ) by {
                            assert(live.awaits(cid) == self.awaits(cid));
                            assert(bare.awaits(cid) == old(self).awaits(cid));
                        }
                        read_keeps_clean(old(self), self, n, net, kind);
                    }
                    assert forall|n: nat, cid: int|
                        #![trigger self.awaits(cid), old(self).settled_for(n)]
                        old(self).settled_for(n) implies (self.awaits(cid) <==> old(self).awaits(
                        cid,
                    ) || lies_in(old(self).structure(n), net, cid)) by {
                        assert(old(self).topology->0@ == old(self).structure(n));
                        assert(live.awaits(cid) == self.awaits(cid));
                        assert(bare.awaits(cid) == old(self).awaits(cid));
                    }
                }
            },
        }
    }

    /// Declare nets read at run time, and set the clusters they sit in
    /// waiting: a read changes what its own cluster reports or solves, and no
    /// other cluster's inputs. A net past the board's lies in no cluster: its
    /// read is listed and sets nothing waiting. On a board no pass has resolved
    /// the reads join the lists the next full pass reads.
    pub fn declare_reads(&mut self, reads: &Vec<(usize, ReadKind)>)
        requires
            old(self).well_formed(),
        ensures
            final(self).well_formed(),
            final(self).board()@ == with_reads(old(self).board()@, reads@, reads@.len()),
            final(self).net_count() == old(self).net_count(),
            final(self).currents_moved() == old(self).currents_moved(),
            final(self).solves_counted() == old(self).solves_counted(),
            forall|e: int| #[trigger]
                final(self).endpoint_current(e) == old(self).endpoint_current(e),
            forall|e: int| #[trigger]
                final(self).element_current(e) == old(self).element_current(e),
            forall|n: nat| #[trigger] final(self).roots(n) == old(self).roots(n),
            forall|n: nat| #[trigger] final(self).settled_for(n) == old(self).settled_for(n),
            forall|n: nat| #[trigger]
                old(self).settled_for(n) ==> final(self).keeps_clean(old(self), n),
            forall|n: nat, cid: int|
                #![trigger final(self).awaits(cid), old(self).settled_for(n)]
                old(self).settled_for(n) ==> (final(self).awaits(cid) <==> old(self).awaits(cid)
                    || old(self).touched_by_reads(n, reads@, cid)),
    {
        let current: bool = self.terminals_resolved && self.topology.is_some();
        let mut i: usize = 0;
        if current {
            let ghost n = self.topology->0.root_of@.len();
            let ghost topology = self.structure(n);
            proof {
                assert(self.settled_for(n));
                unchanged_is_clean(self, n);
            }
            while i < reads.len()
                invariant
                    i <= reads@.len(),
                    self.well_formed(),
                    self.terminals_resolved,
                    self.topology matches Some(t) && t.root_of@.len() == n,
                    old(self).settled_for(n),
                    topology == old(self).structure(n),
                    self.structure(n).index == topology.index,
                    self.board()@ == with_reads(old(self).board()@, reads@, i as nat),
                    self.same_results(old(self)),
                    self.keeps_clean(old(self), n),
                    forall|cid: int| #[trigger]
                        self.awaits(cid) <==> old(self).awaits(cid) || exists|k: int|
                            0 <= k < i && lies_in(topology, (#[trigger] reads@[k]).0, cid),
                decreases reads@.len() - i,
            {
                let (net, kind) = reads[i];
                let ghost mid = *self;
                self.declare_one(net, kind);
                proof {
                    assert(mid.settled_for(n));
                    clean_changes_compose(old(self), &mid, self, n);
                    assert forall|cid: int| #[trigger]
                        self.awaits(cid) <==> old(self).awaits(cid) || exists|k: int|
                            0 <= k < i + 1 && lies_in(topology, (#[trigger] reads@[k]).0, cid) by {
                        assert(mid.awaits(cid) <==> old(self).awaits(cid) || exists|k: int|
                            0 <= k < i && lies_in(topology, (#[trigger] reads@[k]).0, cid));
                        assert(reads@[i as int].0 == net);
                    }
                }
                i += 1;
            }
            proof {
                assert forall|m: nat| #[trigger] old(self).settled_for(m) implies m == n by {}
                assert forall|m: nat, cid: int|
                    #![trigger self.awaits(cid), old(self).settled_for(m)]
                    old(self).settled_for(m) implies (self.awaits(cid) <==> old(self).awaits(cid)
                    || old(self).touched_by_reads(m, reads@, cid)) by {
                    assert(m == n);
                }
            }
        } else {
            while i < reads.len()
                invariant
                    i <= reads@.len(),
                    self.tables_sound(),
                    *self == (Resolver { board: self.board, ..*old(self) }),
                    self.board@ == with_reads(old(self).board@, reads@, i as nat),
                decreases reads@.len() - i,
            {
                let (net, kind) = reads[i];
                let ghost mid = *self;
                match kind {
                    ReadKind::Digital => {
                        self.board.digital_senses.push(net);
                    },
                    ReadKind::Instrument => {
                        self.board.current_instruments.push(net);
                    },
                }
                proof {
                    assert(self.board@ =~= with_read(mid.board@, net, kind));
                    assert(clock_at(self.board) =~= clock_at(mid.board));
                    assert forall|s: int| 0 <= s < self.board().slots@.len() implies ({
                        let slot = #[trigger] self.board().slots@[s];
                        &&& crate::net::normalised(slot.drive) == slot.drive
                        &&& slot.terminal matches Some(id) ==> self.board().declares(id)
                            && self.board().terminal_net(id) == slot.net
                    }) by {
                        assert(mid.board().slots@[s] == self.board.slots@[s]);
                    }
                }
                i += 1;
            }
            self.invalidate();
        }
    }

    /// The currents the last passes produced, one for every endpoint and
    /// every element.
    pub open spec fn currents(&self, table: CurrentTable) -> bool {
        &&& table.endpoints@ == Seq::new(
            self.board()@.slots.len(),
            |e: int| self.endpoint_current(e),
        )
        &&& table.elements@ == Seq::new(
            self.board()@.elements.len(),
            |e: int| self.element_current(e),
        )
    }

    /// The currents the last passes produced.
    pub fn current_table(&self) -> (table: CurrentTable)
        requires
            self.well_formed(),
        ensures
            self.currents(table),
    {
        let mut table = CurrentTable { endpoints: Vec::new(), elements: Vec::new() };
        self.copy_current_table_into(&mut table);
        table
    }

    /// Copy the current table into one the caller keeps between
    /// publications.
    pub fn copy_current_table_into(&self, table: &mut CurrentTable)
        requires
            self.well_formed(),
        ensures
            self.currents(*final(table)),
    {
        table.endpoints.clear();
        table.elements.clear();
        let mut e: usize = 0;
        while e < self.board.slots.len()
            invariant
                e <= self.board.slots@.len(),
                table.elements@.len() == 0,
                table.endpoints@ =~= Seq::new(e as nat, |x: int| self.endpoint_current(x)),
            decreases self.board.slots@.len() - e,
        {
            if e < self.endpoint_currents.len() {
                table.endpoints.push(self.endpoint_currents[e]);
            } else {
                table.endpoints.push(None);
            }
            e += 1;
        }
        let mut k: usize = 0;
        while k < self.element_currents.len()
            invariant
                k <= self.element_currents@.len(),
                self.element_currents@.len() == self.board.elements@.len(),
                table.endpoints@ =~= Seq::new(
                    self.board.slots@.len(),
                    |x: int| self.endpoint_current(x),
                ),
                table.elements@ =~= Seq::new(k as nat, |x: int| self.element_current(x)),
            decreases self.element_currents@.len() - k,
        {
            table.elements.push(self.element_currents[k]);
            k += 1;
        }
    }

    /// Whether a pass since the last call stored a current that differs from
    /// the one it replaced; clears the flag.
    pub fn take_currents_changed(&mut self) -> (changed: bool)
        requires
            old(self).well_formed(),
        ensures
            final(self).well_formed(),
            changed == old(self).currents_moved(),
            !final(self).currents_moved(),
            final(self).same_board(old(self)),
            final(self).solves_counted() == old(self).solves_counted(),
            final(self).held_states() == old(self).held_states(),
            forall|e: int| #[trigger]
                final(self).endpoint_current(e) == old(self).endpoint_current(e),
            forall|e: int| #[trigger]
                final(self).element_current(e) == old(self).element_current(e),
            forall|n: nat| #[trigger] final(self).settled_for(n) == old(self).settled_for(n),
            forall|cid: int| #[trigger] final(self).awaits(cid) == old(self).awaits(cid),
    {
        let changed = self.currents_changed;
        self.currents_changed = false;
        proof {
            same_list_same_waiting(old(self), self);
        }
        changed
    }
}

/// Only an endpoint and an element the board has carry a current.
pub proof fn currents_are_the_boards(resolver: &Resolver)
    requires
        resolver.well_formed(),
    ensures
        forall|e: int|
            !(0 <= e < resolver.board()@.slots.len()) ==> #[trigger] resolver.endpoint_current(e)
                is None,
        forall|e: int|
            !(0 <= e < resolver.board()@.elements.len()) ==> #[trigger] resolver.element_current(e)
                is None,
{
}

} // verus!
