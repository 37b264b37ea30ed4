//! What is driven, and which clusters a change of it touches.
use vstd::prelude::*;

use crate::board::{Board, BoardView, DriveSlot};
use crate::net::{
    holds_periodic, is_periodic, normalise_drive, normalised, same_drive, Drive, EndpointId, Net,
};
use crate::pass::{describes, names_of};
use crate::reach::{arrivals_from, coupled_view, is_clock, slot_reach};
use crate::resolver::laws::{
    clean_changes_compose, held_alike, reads_alike, settled_describes, unchanged_is_clean,
};
use crate::resolver::replay::Change;
use crate::resolver::{
    along_elsewhere, clock_at, clock_reaches, cluster_slots, endpoint_cluster, scene_in,
    same_list_same_waiting, sources_declared, sources_hold, Resolver,
};
use crate::seqs::{
    insert_ascending, position_of, remove_listed, select, select_properties, select_unique,
};
use crate::terminal::{held_by_slot, TerminalDrive, TerminalId, TerminalSource, TerminalState};
use crate::topology::{layout_is_sound, layout_of, Topology, TopologyView};

verus! {

/// A board with one slot's drive replaced.
pub open spec fn redriven(board: BoardView, slot: int, drive: Option<Drive>) -> BoardView {
    BoardView {
        slots: board.slots.update(slot, DriveSlot { drive, ..board.slots[slot] }),
        ..board
    }
}

/// A board with what one terminal source holds replaced.
pub open spec fn reheld(board: BoardView, id: TerminalId, drive: TerminalDrive) -> BoardView {
    match id {
        TerminalId::Power(i) => BoardView {
            power_sources: board.power_sources.update(
                i as int,
                TerminalSource { drive, ..board.power_sources[i as int] },
            ),
            ..board
        },
        TerminalId::Stuck(i) => BoardView {
            stuck_sources: board.stuck_sources.update(
                i as int,
                TerminalSource { drive, ..board.stuck_sources[i as int] },
            ),
            ..board
        },
    }
}

/// Whether a change of the terminal a net is on touches a cluster: the
/// terminal's own, and every one that reads it.
pub open spec fn terminal_touches(topology: TopologyView, net: usize, cid: int) -> bool {
    exists|p: int|
        0 <= p < topology.terminals.len() && (#[trigger] topology.terminals[p]).root
            == topology.root_of[net as int] && (topology.terminals[p].cluster == cid
            || dependent_on(topology, p, cid))
}

/// Whether a cluster reads the terminal at a position.
pub open spec fn dependent_on(topology: TopologyView, p: int, cid: int) -> bool {
    exists|i: int|
        0 <= i < topology.terminals[p].dependents.len()
            && #[trigger] topology.terminals[p].dependents[i] == cid
}

proof fn redriven_shape(before: Board, after: Board, slot: int, drive: Option<Drive>)
    requires
        0 <= slot < before.slots@.len(),
        after@ == redriven(before@, slot, drive),
    ensures
        after.shape() == before.shape(),
        forall|topology: TopologyView, s: int|
            0 <= s < before.slots@.len() ==> #[trigger] slot_reach(after, topology, s)
                == slot_reach(before, topology, s),
{
    assert(after.couplings@ == before.couplings@);
    assert(after.shape() =~= before.shape());
}

proof fn reheld_shape(before: Board, after: Board, id: TerminalId, drive: TerminalDrive)
    requires
        before.declares(id),
        after@ == reheld(before@, id, drive),
    ensures
        after.shape() == before.shape(),
        after.slots@ == before.slots@,
{
    assert(after.couplings@ == before.couplings@);
    assert(after.shape() =~= before.shape());
}

impl Resolver {
    /// Whether a change of what a terminal source holds touches a cluster.
    pub open spec fn touched_by_terminal(&self, n: nat, id: TerminalId, cid: int) -> bool {
        terminal_touches(self.structure(n), self.board().terminal_net(id), cid)
    }

    /// Whether a change of an endpoint's drive touches a cluster: its own,
    /// and every one a clock's rate reaches; a terminal's, where it holds its
    /// net otherwise.
    pub open spec fn touched_by_drive(
        &self,
        n: nat,
        slot: int,
        drive: Option<Drive>,
        cid: int,
    ) -> bool {
        let topology = self.structure(n);
        let held = self.board().slots@[slot];
        match held.terminal {
            None => topology.index[held.net as int] == cid || ((is_periodic(held.drive)
                || is_periodic(drive)) && clock_reaches(self.board(), topology, slot, cid)),
            Some(id) => !self.board().held_at(id).holds_same(held_by_slot(drive))
                && self.touched_by_terminal(n, id, cid),
        }
    }

    /// Everything but the board, the waiting clusters and the caches of the
    /// clocks' reach is as it was.
    spec fn same_but_drive(&self, before: &Resolver) -> bool {
        &&& self.identity == before.identity
        &&& self.net_count == before.net_count
        &&& self.topology == before.topology
        &&& self.terminal_states == before.terminal_states
        &&& self.terminals_resolved == before.terminals_resolved
        &&& self.endpoint_currents == before.endpoint_currents
        &&& self.element_currents == before.element_currents
        &&& self.currents_changed == before.currents_changed
        &&& self.escalated_solves == before.escalated_solves
    }

    /// Replace a slot's drive, and keep the list of clocks in step with it.
    fn replace_drive(&mut self, slot: usize, drive: Option<Drive>)
        requires
            old(self).well_formed(),
            slot < old(self).board.slots@.len(),
            normalised(drive) == drive,
        ensures
            final(self).well_formed(),
            final(self).same_but_drive(old(self)),
            final(self).dirty == old(self).dirty,
            final(self).board@ == redriven(old(self).board@, slot as int, drive),
    {
        let clock_before = self.board.slots[slot].terminal.is_none() && holds_periodic(
            &self.board.slots[slot].drive,
        );
        let clock_after = self.board.slots[slot].terminal.is_none() && holds_periodic(&drive);
        let held = &mut self.board.slots[slot];
        held.drive = drive;
        let ghost before = old(self).board;
        proof {
            assert(self.board@ =~= redriven(before@, slot as int, drive));
            redriven_shape(before, self.board, slot as int, drive);
            assert forall|s: int| 0 <= s < before.slots@.len() && s != slot implies #[trigger]
                is_clock(self.board, s) == is_clock(before, s) by {
                assert(self.board.slots@[s] == before.slots@[s]);
            }
            assert(before.slots.len() <= usize::MAX);
            select_properties(before.slots@.len(), clock_at(before));
        }
        if clock_after && !clock_before {
            insert_ascending(&mut self.periodic_slots, slot);
            self.reach_clusters = None;
        } else if clock_before && !clock_after {
            remove_listed(&mut self.periodic_slots, slot);
            self.reach_clusters = None;
        }
        proof {
            assert(self.board.slots.len() <= usize::MAX);
            let keep = clock_at(self.board);
            assert forall|x: usize|
                #[trigger] self.periodic_slots@.contains(x) <==> x < self.board.slots@.len()
                    && keep(x as int) by {
                assert(select(before.slots@.len(), clock_at(before)).contains(x) <==> x
                    < before.slots@.len() && clock_at(before)(x as int));
                if x != slot && x < before.slots@.len() {
                    assert(is_clock(self.board, x as int) == is_clock(before, x as int));
                }
            }
            select_unique(self.periodic_slots@, self.board.slots@.len(), keep);
            assert forall|s: int| 0 <= s < self.board().slots@.len() implies ({
                let slot = #[trigger] self.board().slots@[s];
                &&& normalised(slot.drive) == slot.drive
                &&& slot.terminal matches Some(id) ==> self.board().declares(id)
                    && self.board().terminal_net(id) == slot.net
            }) by {
                assert(old(self).board().slots@[s].net == self.board.slots@[s].net);
            }
            if self.topology is Some {
                clocks_kept(old(self), self, self.topology->0, slot as int, drive);
            }
        }
    }
}

/// The caches of the clocks' reach outlive a drive that starts or stops no
/// clock.
proof fn clocks_kept(
    before: &Resolver,
    after: &Resolver,
    topology: Topology,
    slot: int,
    drive: Option<Drive>,
)
    requires
        before.linked(topology),
        0 <= slot < before.board.slots@.len(),
        after.board@ == redriven(before.board@, slot, drive),
        after.coupled_cache == before.coupled_cache,
        after.coupled_cache@.len() <= after.board.slots@.len(),
        after.reach_clusters is Some ==> after.reach_clusters == before.reach_clusters && is_clock(
            before.board,
            slot,
        ) == is_clock(after.board, slot),
    ensures
        after.cache_sound(topology@),
        after.clocks_sound(topology@),
{
    redriven_shape(before.board, after.board, slot, drive);
    assert forall|s: int| 0 <= s < before.board.slots@.len() && s != slot implies #[trigger]
        is_clock(after.board, s) == is_clock(before.board, s) by {
        assert(after.board.slots@[s] == before.board.slots@[s]);
    }
    assert forall|s: int|
        0 <= s < after.coupled_cache@.len() && (#[trigger] after.coupled_cache@[s])
            is Some implies coupled_view(after.coupled_cache@[s]->0@) == slot_reach(
        after.board,
        topology@,
        s,
    ) by {
        assert(before.coupled_cache@[s] is Some);
        assert(slot_reach(after.board, topology@, s) == slot_reach(before.board, topology@, s));
    }
    if after.reach_clusters is Some {
        let list = after.reach_clusters->0;
        assert forall|s: int| 0 <= s < before.board.slots@.len() implies #[trigger] is_clock(
            after.board,
            s,
        ) == is_clock(before.board, s) by {}
        assert forall|s: int, cid: int|
            0 <= s < before.board.slots@.len() implies #[trigger] clock_reaches(
            after.board,
            topology@,
            s,
            cid,
        ) == clock_reaches(before.board, topology@, s, cid) by {
            assert(slot_reach(after.board, topology@, s) == slot_reach(before.board, topology@, s));
        }
        assert forall|cid: usize| #[trigger] list@.contains(cid) <==> exists|s: int|
            0 <= s < after.board.slots@.len() && #[trigger] is_clock(after.board, s)
                && clock_reaches(after.board, topology@, s, cid as int) by {
            if list@.contains(cid) {
                let s = choose|s: int|
                    0 <= s < before.board.slots@.len() && #[trigger] is_clock(before.board, s)
                        && clock_reaches(before.board, topology@, s, cid as int);
                assert(is_clock(after.board, s));
                assert(clock_reaches(after.board, topology@, s, cid as int));
            }
            if exists|s: int|
                0 <= s < after.board.slots@.len() && #[trigger] is_clock(after.board, s)
                    && clock_reaches(after.board, topology@, s, cid as int) {
                let s = choose|s: int|
                    0 <= s < after.board.slots@.len() && #[trigger] is_clock(after.board, s)
                        && clock_reaches(after.board, topology@, s, cid as int);
                assert(is_clock(before.board, s));
                assert(clock_reaches(before.board, topology@, s, cid as int));
            }
        }
        assert forall|s: int|
            0 <= s < after.board.slots@.len() && #[trigger] is_clock(after.board, s) implies s
            < after.coupled_cache@.len() && after.coupled_cache@[s] is Some by {
            assert(is_clock(before.board, s));
        }
    }
}

impl Resolver {
    /// A periodic drive changed on a slot, or stopped being one: every
    /// cluster its rate reaches across a coupling capacitor waits too.
    fn mark_coupled_dirty(&mut self, slot: usize)
        requires
            old(self).well_formed(),
            slot < old(self).board.slots@.len(),
        ensures
            final(self).well_formed(),
            final(self).same_but_drive(old(self)),
            final(self).board == old(self).board,
            final(self).topology matches Some(t) ==> forall|cid: int| #[trigger]
                final(self).awaits(cid) <==> old(self).awaits(cid) || clock_reaches(
                    old(self).board,
                    t@,
                    slot as int,
                    cid,
                ),
    {
        let taken = self.topology.take();
        match taken {
            None => {
                self.topology = None;
            },
            Some(topology) => {
                self.ensure_reach(&topology, slot);
                let mut reached: Vec<usize> = Vec::new();
                let ghost reach = slot_reach(self.board, topology@, slot as int);
                if let Some(coupled) = &self.coupled_cache[slot] {
                    proof {
                        assert(self.board.couplings.len() <= usize::MAX);
                        layout_is_sound(self.board.shape(), topology@.root_of);
                        crate::reach::slot_reach_valid(topology@, self.board, slot as int);
                        assert(coupled_view(coupled@) == reach);
                    }
                    let mut i: usize = 0;
                    while i < coupled.len()
                        invariant
                            i <= coupled@.len(),
                            coupled_view(coupled@) == reach,
                            topology.cluster_index@.len() == topology.root_of@.len(),
                            forall|k: int|
                                0 <= k < reach.len() ==> (#[trigger] reach[k]).root
                                    < topology.root_of@.len(),
                            reached@ =~= Seq::new(
                                i as nat,
                                |k: int| topology.cluster_index@[reach[k].root as int],
                            ),
                        decreases coupled@.len() - i,
                    {
                        assert(coupled_view(coupled@)[i as int] == coupled@[i as int]@);
                        assert(reach[i as int].root < topology.root_of@.len());
                        reached.push(topology.cluster_index[coupled[i].root]);
                        i += 1;
                    }
                }
                let ghost before = *self;
                let mut k: usize = 0;
                assert forall|j: int| 0 <= j < reached@.len() implies (#[trigger] reached@[j])
                    < topology.clusters@.len() by {
                    assert(topology@.index[reach[j].root as int] < topology@.clusters.len());
                }
                while k < reached.len()
                    invariant
                        k <= reached@.len(),
                        *self == (Resolver { dirty: self.dirty, ..before }),
                        reached@ =~= Seq::new(
                            reach.len(),
                            |j: int| topology.cluster_index@[reach[j].root as int],
                        ),
                        forall|j: int|
                            0 <= j < reached@.len() ==> (#[trigger] reached@[j])
                                < topology.clusters@.len(),
                        forall|i: int|
                            0 <= i < self.dirty@.len() ==> (#[trigger] self.dirty@[i])
                                < topology.clusters@.len(),
                        forall|cid: int| #[trigger]
                            self.awaits(cid) <==> before.awaits(cid) || exists|j: int|
                                0 <= j < k && #[trigger] reached@[j] == cid,
                    decreases reached@.len() - k,
                {
                    let ghost now = *self;
                    self.mark(reached[k]);
                    proof {
                        assert forall|cid: int| #[trigger]
                            self.awaits(cid) <==> before.awaits(cid) || exists|j: int|
                                0 <= j < k + 1 && #[trigger] reached@[j] == cid by {
                            assert(now.awaits(cid) <==> before.awaits(cid) || exists|j: int|
                                0 <= j < k && #[trigger] reached@[j] == cid);
                        }
                        assert forall|i: int| 0 <= i < self.dirty@.len() implies (
                        #[trigger] self.dirty@[i]) < topology.clusters@.len() by {
                            if self.dirty@[i] != reached@[k as int] {
                                let j = choose|j: int|
                                    0 <= j < now.dirty@.len() && now.dirty@[j] == self.dirty@[i];
                                assert(now.dirty@[j] < topology.clusters@.len());
                            }
                        }
                    }
                    k += 1;
                }
                proof {
                    assert forall|cid: int| #[trigger]
                        self.awaits(cid) <==> old(self).awaits(cid) || clock_reaches(
                            self.board,
                            topology@,
                            slot as int,
                            cid,
                        ) by {
                        assert(before.awaits(cid) == old(self).awaits(cid));
                        if clock_reaches(self.board, topology@, slot as int, cid) {
                            let j = choose|j: int|
                                0 <= j < reach.len() && topology@.index[(#[trigger] reach[j]).root
                                    as int] == cid;
                            assert(reached@[j] == cid);
                        }
                        if exists|j: int| 0 <= j < reached@.len() && #[trigger] reached@[j] == cid {
                            let j = choose|j: int|
                                0 <= j < reached@.len() && #[trigger] reached@[j] == cid;
                            assert(topology@.index[reach[j].root as int] == cid);
                        }
                    }
                }
                let ghost marked = *self;
                self.topology = Some(topology);
                proof {
                    same_list_same_waiting(&marked, self);
                }
            },
        }
    }

    /// A slot's drive changed: its own cluster waits.
    fn mark_cluster_of(&mut self, net: usize)
        requires
            old(self).well_formed(),
            old(self).topology matches Some(t) ==> net < t.root_of@.len(),
        ensures
            final(self).well_formed(),
            final(self).same_but_drive(old(self)),
            final(self).board == old(self).board,
            final(self).topology matches Some(t) ==> forall|cid: int| #[trigger]
                final(self).awaits(cid) <==> old(self).awaits(cid) || t@.index[net as int] == cid,
    {
        let mut found: Option<usize> = None;
        if let Some(topology) = &self.topology {
            proof {
                layout_is_sound(self.board.shape(), topology@.root_of);
            }
            assert(topology@.index[net as int] < topology@.clusters.len());
            found = Some(topology.cluster_index[net]);
        }
        if let Some(cid) = found {
            self.mark(cid);
            proof {
                assert forall|i: int| 0 <= i < self.dirty@.len() implies (
                #[trigger] self.dirty@[i]) < self.topology->0.clusters@.len() by {
                    if self.dirty@[i] != cid {
                        let j = choose|j: int|
                            0 <= j < old(self).dirty@.len() && old(self).dirty@[j]
                                == self.dirty@[i];
                        assert(old(self).dirty@[j] < self.topology->0.clusters@.len());
                    }
                }
            }
        }
    }
}

impl Resolver {
    /// Replace what a terminal source holds.
    fn replace_source(&mut self, id: TerminalId, drive: TerminalDrive)
        requires
            old(self).well_formed(),
            old(self).board.declares(id),
        ensures
            final(self).well_formed(),
            final(self).same_but_drive(old(self)),
            final(self).dirty == old(self).dirty,
            final(self).board@ == reheld(old(self).board@, id, drive),
    {
        let ghost before = self.board;
        match id {
            TerminalId::Power(i) => {
                let net: usize = self.board.power_sources[i].net;
                self.board.power_sources.set(i, TerminalSource { net, drive });
            },
            TerminalId::Stuck(i) => {
                let net: usize = self.board.stuck_sources[i].net;
                self.board.stuck_sources.set(i, TerminalSource { net, drive });
            },
        }
        proof {
            assert(self.board@ =~= reheld(before@, id, drive));
            reheld_shape(before, self.board, id, drive);
            assert(clock_at(self.board) =~= clock_at(before));
            assert forall|s: int| 0 <= s < self.board().slots@.len() implies ({
                let slot = #[trigger] self.board().slots@[s];
                &&& normalised(slot.drive) == slot.drive
                &&& slot.terminal matches Some(id) ==> self.board().declares(id)
                    && self.board().terminal_net(id) == slot.net
            }) by {
                assert(old(self).board().slots@[s] == self.board.slots@[s]);
            }
            if self.topology is Some {
                assert forall|s: int| #[trigger] is_clock(self.board, s) == is_clock(
                    before,
                    s,
                ) by {}
                let topo = self.topology->0@;
                assert forall|s: int| #[trigger] slot_reach(self.board, topo, s) == slot_reach(
                    before,
                    topo,
                    s,
                ) by {}
                sources_keep_clocks(old(self), self, self.topology->0);
            }
        }
    }

    /// A terminal changed: its own cluster waits, and every cluster that
    /// reads it.
    fn mark_terminal_dirty(&mut self, id: TerminalId)
        requires
            old(self).well_formed(),
            old(self).board.declares(id),
        ensures
            final(self).well_formed(),
            final(self).same_but_drive(old(self)),
            final(self).board == old(self).board,
            final(self).topology matches Some(t) ==> forall|cid: int| #[trigger]
                final(self).awaits(cid) <==> old(self).awaits(cid) || terminal_touches(
                    t@,
                    old(self).board.terminal_net(id),
                    cid,
                ),
    {
        let net: usize = self.board.terminal_source(id).net;
        let taken = self.topology.take();
        match taken {
            None => {
                self.topology = None;
            },
            Some(topology) => {
                proof {
                    declared_net_fits(self.board, topology@, id);
                }
                let root: usize = topology.root_of[net];
                let ghost before = *self;
                match position_of(&topology.terminal_roots, root) {
                    None => {
                        proof {
                            declared_root_listed(self.board, topology@, id);
                        }
                    },
                    Some(p) => {
                        proof {
                            assert(topology@.terminals.len() == topology.terminals@.len());
                            assert(topology@.terminals.len() == topology@.terminal_roots.len());
                            same_list_same_waiting(old(self), self);
                            terminal_clusters_fit(self.board, topology, p as int);
                        }
                        let terminal = &topology.terminals[p];
                        assert(terminal@ == topology@.terminals[p as int]);
                        let ghost dependents = terminal.dependents@;
                        self.mark(terminal.cluster);
                        let mut k: usize = 0;
                        assert forall|i: int| 0 <= i < self.dirty@.len() implies (
                        #[trigger] self.dirty@[i]) < topology.clusters@.len() by {
                            if self.dirty@[i] != terminal.cluster {
                                let j = choose|j: int|
                                    0 <= j < before.dirty@.len() && before.dirty@[j]
                                        == self.dirty@[i];
                                assert(before.dirty@[j] < topology.clusters@.len());
                            }
                        }
                        while k < terminal.dependents.len()
                            invariant
                                k <= terminal.dependents@.len(),
                                terminal.dependents@ == dependents,
                                *self == (Resolver { dirty: self.dirty, ..before }),
                                forall|j: int|
                                    0 <= j < dependents.len() ==> (#[trigger] dependents[j])
                                        < topology.clusters@.len(),
                                forall|i: int|
                                    0 <= i < self.dirty@.len() ==> (#[trigger] self.dirty@[i])
                                        < topology.clusters@.len(),
                                forall|cid: int| #[trigger]
                                    self.awaits(cid) <==> before.awaits(cid) || cid
                                        == terminal.cluster || exists|j: int|
                                        0 <= j < k && #[trigger] dependents[j] == cid,
                            decreases terminal.dependents@.len() - k,
                        {
                            let ghost now = *self;
                            self.mark(terminal.dependents[k]);
                            proof {
                                assert forall|cid: int| #[trigger]
                                    self.awaits(cid) <==> before.awaits(cid) || cid
                                        == terminal.cluster || exists|j: int|
                                        0 <= j < k + 1 && #[trigger] dependents[j] == cid by {
                                    assert(now.awaits(cid) <==> before.awaits(cid) || cid
                                        == terminal.cluster || exists|j: int|
                                        0 <= j < k && #[trigger] dependents[j] == cid);
                                }
                                assert forall|i: int| 0 <= i < self.dirty@.len() implies (
                                #[trigger] self.dirty@[i]) < topology.clusters@.len() by {
                                    if self.dirty@[i] != dependents[k as int] {
                                        let j = choose|j: int|
                                            0 <= j < now.dirty@.len() && now.dirty@[j]
                                                == self.dirty@[i];
                                        assert(now.dirty@[j] < topology.clusters@.len());
                                    }
                                }
                            }
                            k += 1;
                        }
                        proof {
                            assert forall|cid: int| #[trigger]
                                self.awaits(cid) <==> old(self).awaits(cid) || terminal_touches(
                                    topology@,
                                    net,
                                    cid,
                                ) by {
                                assert(before.awaits(cid) == old(self).awaits(cid));
                                only_terminal_on(self.board, topology@, net, p as int, cid);
                            }
                        }
                    },
                }
                let ghost marked = *self;
                self.topology = Some(topology);
                proof {
                    same_list_same_waiting(&marked, self);
                }
            },
        }
    }
}

proof fn sources_keep_clocks(before: &Resolver, after: &Resolver, topology: Topology)
    requires
        before.linked(topology),
        after.board.slots@ == before.board.slots@,
        after.board.shape() == before.board.shape(),
        after.coupled_cache == before.coupled_cache,
        after.reach_clusters == before.reach_clusters,
    ensures
        after.cache_sound(topology@),
        after.clocks_sound(topology@),
{
    let topo = topology@;
    assert forall|s: int| #[trigger] is_clock(after.board, s) == is_clock(before.board, s) by {}
    assert forall|s: int| #[trigger] slot_reach(after.board, topo, s) == slot_reach(
        before.board,
        topo,
        s,
    ) by {}
    assert forall|s: int, cid: int| #[trigger] clock_reaches(after.board, topo, s, cid)
        == clock_reaches(before.board, topo, s, cid) by {
        assert(slot_reach(after.board, topo, s) == slot_reach(before.board, topo, s));
    }
    assert forall|s: int|
        0 <= s < after.coupled_cache@.len() && (#[trigger] after.coupled_cache@[s])
            is Some implies coupled_view(after.coupled_cache@[s]->0@) == slot_reach(
        after.board,
        topo,
        s,
    ) by {
        assert(before.coupled_cache@[s] is Some);
    }
    if after.reach_clusters is Some {
        let list = after.reach_clusters->0;
        assert forall|cid: usize| #[trigger] list@.contains(cid) <==> exists|s: int|
            0 <= s < after.board.slots@.len() && #[trigger] is_clock(after.board, s)
                && clock_reaches(after.board, topo, s, cid as int) by {
            if list@.contains(cid) {
                let s = choose|s: int|
                    0 <= s < before.board.slots@.len() && #[trigger] is_clock(before.board, s)
                        && clock_reaches(before.board, topo, s, cid as int);
                assert(is_clock(after.board, s));
                assert(clock_reaches(after.board, topo, s, cid as int));
            }
            if exists|s: int|
                0 <= s < after.board.slots@.len() && #[trigger] is_clock(after.board, s)
                    && clock_reaches(after.board, topo, s, cid as int) {
                let s = choose|s: int|
                    0 <= s < after.board.slots@.len() && #[trigger] is_clock(after.board, s)
                        && clock_reaches(after.board, topo, s, cid as int);
                assert(is_clock(before.board, s));
                assert(clock_reaches(before.board, topo, s, cid as int));
            }
        }
        assert forall|s: int|
            0 <= s < after.board.slots@.len() && #[trigger] is_clock(after.board, s) implies s
            < after.coupled_cache@.len() && after.coupled_cache@[s] is Some by {
            assert(is_clock(before.board, s));
        }
    }
}

/// A declared terminal's net is one of the board's.
proof fn declared_net_fits(board: Board, topology: TopologyView, id: TerminalId)
    requires
        describes(topology, board),
        board.declares(id),
    ensures
        board.terminal_net(id) < topology.root_of.len(),
{
    match id {
        TerminalId::Power(i) => {
            assert(board.shape().power_nets[i as int] == board.terminal_net(id));
        },
        TerminalId::Stuck(i) => {
            assert(board.shape().stuck_nets[i as int] == board.terminal_net(id));
        },
    }
}

/// A declared terminal's root is a terminal root.
proof fn declared_root_listed(board: Board, topology: TopologyView, id: TerminalId)
    requires
        describes(topology, board),
        board.declares(id),
    ensures
        topology.terminal_roots.contains(topology.root_of[board.terminal_net(id) as int]),
{
    declared_net_fits(board, topology, id);
    let shape = board.shape();
    let root = topology.root_of[board.terminal_net(id) as int];
    let keep = crate::topology::terminal_root(shape, topology.root_of);
    select_properties(topology.root_of.len(), keep);
    match id {
        TerminalId::Power(i) => {
            assert(shape.power_nets[i as int] == board.terminal_net(id));
        },
        TerminalId::Stuck(i) => {
            assert(shape.stuck_nets[i as int] == board.terminal_net(id));
        },
    }
    assert(keep(root as int));
}

/// A terminal's own cluster and its readers are clusters of the board.
proof fn terminal_clusters_fit(board: Board, topology: Topology, p: int)
    requires
        describes(topology@, board),
        0 <= p < topology.terminals@.len(),
    ensures
        topology.terminals@[p].cluster < topology.clusters@.len(),
        forall|i: int|
            0 <= i < topology.terminals@[p].dependents@.len() ==> (
            #[trigger] topology.terminals@[p].dependents@[i]) < topology.clusters@.len(),
{
    let topo = topology@;
    let shape = board.shape();
    let layout = layout_of(shape, topo.root_of);
    layout_is_sound(shape, topo.root_of);
    let count = crate::topology::cluster_count(shape, topo.root_of);
    assert(topo.terminals.len() == topology.terminals@.len());
    assert(topo.terminals[p] == topology.terminals@[p]@);
    assert(layout.root_of[layout.terminals[p] as int] == layout.terminals[p]);
    assert(layout.index[layout.terminals[p] as int] < count);
    assert(topology.clusters.len() <= usize::MAX);
    assert(topo.clusters.len() == topology.clusters@.len());
    assert(topo.clusters.len() == count);
    select_properties(count, crate::topology::reads_terminal(shape, layout, p));
}

/// A net is on one terminal at most.
proof fn only_terminal_on(board: Board, topology: TopologyView, net: usize, p: int, cid: int)
    requires
        describes(topology, board),
        0 <= p < topology.terminals.len(),
        topology.terminal_roots[p] == topology.root_of[net as int],
    ensures
        terminal_touches(topology, net, cid) <==> topology.terminals[p].cluster == cid || (exists|
            i: int,
        |
            0 <= i < topology.terminals[p].dependents.len()
                && #[trigger] topology.terminals[p].dependents[i] == cid),
{
    layout_is_sound(board.shape(), topology.root_of);
    assert(topology.terminals[p].root == topology.terminal_roots[p]);
    if terminal_touches(topology, net, cid) {
        let q = choose|q: int|
            0 <= q < topology.terminals.len() && (#[trigger] topology.terminals[q]).root
                == topology.root_of[net as int] && (topology.terminals[q].cluster == cid
                || dependent_on(topology, q, cid));
        assert(topology.terminals[q].root == topology.terminal_roots[q]);
        if q < p {
            assert(topology.terminal_roots[q] < topology.terminal_roots[p]);
        } else if p < q {
            assert(topology.terminal_roots[p] < topology.terminal_roots[q]);
        }
    }
}

/// What a terminal's sources hold is untouched by a slot's drive.
proof fn redriven_keeps_clean(
    before: &Resolver,
    after: &Resolver,
    n: nat,
    slot: int,
    drive: Option<Drive>,
)
    requires
        before.well_formed(),
        before.settled_for(n),
        0 <= slot < before.board().slots@.len(),
        before.board().slots@[slot].terminal is None,
        after.same_but_drive(before),
        after.board()@ == redriven(before.board()@, slot, drive),
        forall|cid: int| #[trigger]
            after.awaits(cid) <==> before.awaits(cid) || before.touched_by_drive(
                n,
                slot,
                drive,
                cid,
            ),
    ensures
        after.keeps_clean(before, n),
{
    let a = before.board();
    let b = after.board();
    redriven_shape(a, b, slot, drive);
    settled_describes(before, n);
    let topology = before.structure(n);
    assert(after.structure(n) == topology);
    names_unmoved(a, b, slot, drive);
    assert forall|cid: int|
        0 <= cid < topology.clusters.len() && !#[trigger] after.awaits(cid) implies after.undisturbed(
        before,
        n,
        cid,
    ) by {
        assert(!before.touched_by_drive(n, slot, drive, cid));
        untouched_reads_alike(a, b, topology, slot, drive, cid);
    }
    assert forall|p: int| 0 <= p < topology.terminals.len() implies #[trigger] held_alike(
        a,
        b,
        topology,
        p,
    ) by {
        assert(sources_hold(b, topology.terminals[p].sources) =~= sources_hold(
            a,
            topology.terminals[p].sources,
        ));
    }
}

proof fn names_unmoved(a: Board, b: Board, slot: int, drive: Option<Drive>)
    requires
        0 <= slot < a.slots@.len(),
        b@ == redriven(a@, slot, drive),
    ensures
        forall|nets: Seq<Net>| #[trigger] names_of(b, nets) == names_of(a, nets),
{
    assert(b.elements@ == a.elements@);
    assert(b.couplings@ == a.couplings@);
    assert forall|nets: Seq<Net>| #[trigger] names_of(b, nets) == names_of(a, nets) by {
        assert(names_of(b, nets).pins =~= names_of(a, nets).pins);
        assert(names_of(b, nets).slot_nets =~= names_of(a, nets).slot_nets);
        assert(names_of(b, nets).elements =~= names_of(a, nets).elements);
        assert(names_of(b, nets).capacitors =~= names_of(a, nets).capacitors);
    }
}

/// A cluster a slot neither sources nor reaches reads the same whatever
/// drives it.
proof fn untouched_reads_alike(
    a: Board,
    b: Board,
    topology: TopologyView,
    slot: int,
    drive: Option<Drive>,
    cid: int,
)
    requires
        describes(topology, a),
        0 <= slot < a.slots@.len(),
        0 <= cid < topology.clusters.len() <= usize::MAX,
        b@ == redriven(a@, slot, drive),
        a.slots@[slot].terminal is None ==> topology.index[a.slots@[slot].net as int] != cid && !((
        is_periodic(a.slots@[slot].drive) || is_periodic(drive)) && clock_reaches(
            a,
            topology,
            slot,
            cid,
        )),
    ensures
        reads_alike(a, topology, b, topology, cid),
{
    redriven_shape(a, b, slot, drive);
    assert(a.slots.len() <= usize::MAX);
    assert(a.elements.len() <= usize::MAX);
    arrivals_unmoved(a, b, topology, slot, drive, cid, a.slots@.len());
    cluster_slots(a, topology, cid);
    let c = topology.clusters[cid];
    assert forall|k: int| 0 <= k < c.slots.len() implies b.slots@[#[trigger] c.slots[k] as int]
        == a.slots@[c.slots[k] as int] by {
        assert(c.slots.contains(c.slots[k]));
        assert(endpoint_cluster(a, topology, c.slots[k] as int) == Some(cid as usize));
    }
    assert(b.elements@ == a.elements@);
    assert(b.digital_senses@ == a.digital_senses@);
    assert(b.analog_senses@ == a.analog_senses@);
    assert(b.power_senses@ == a.power_senses@);
    assert forall|states: Seq<TerminalState>| #[trigger]
        scene_in(b, topology, states, cid) == scene_in(a, topology, states, cid) by {
        let left = scene_in(b, topology, states, cid);
        let right = scene_in(a, topology, states, cid);
        assert(left.slot_roots =~= right.slot_roots);
        assert(left.drives =~= right.drives);
        assert(left.elements =~= right.elements);
    }
}

proof fn arrivals_unmoved(
    a: Board,
    b: Board,
    topology: TopologyView,
    slot: int,
    drive: Option<Drive>,
    cid: int,
    k: nat,
)
    requires
        0 <= slot < a.slots@.len(),
        k <= a.slots@.len(),
        b@ == redriven(a@, slot, drive),
        a.slots@[slot].terminal is None ==> !((is_periodic(a.slots@[slot].drive) || is_periodic(
            drive,
        )) && clock_reaches(a, topology, slot, cid)),
    ensures
        arrivals_from(b, topology, cid, k) == arrivals_from(a, topology, cid, k),
    decreases k,
{
    if k > 0 {
        arrivals_unmoved(a, b, topology, slot, drive, cid, (k - 1) as nat);
        redriven_shape(a, b, slot, drive);
        let reach = slot_reach(a, topology, k - 1);
        assert(slot_reach(b, topology, k - 1) == reach);
        if k - 1 == slot {
            if is_clock(a, slot) || is_clock(b, slot) {
                assert forall|i: int| 0 <= i < reach.len() implies topology.index[(
                #[trigger] reach[i]).root as int] != cid by {
                    if topology.index[reach[i].root as int] == cid {
                        assert(clock_reaches(a, topology, slot, cid));
                    }
                }
                let rest = arrivals_from(a, topology, cid, (k - 1) as nat);
                if is_clock(a, slot) {
                    let d = a.slots@[slot].drive->0;
                    along_elsewhere(topology.index, slot as usize, d, reach, cid, reach.len());
                    assert(arrivals_from(a, topology, cid, k) =~= rest);
                }
                if is_clock(b, slot) {
                    let d = b.slots@[slot].drive->0;
                    along_elsewhere(topology.index, slot as usize, d, reach, cid, reach.len());
                    assert(arrivals_from(b, topology, cid, k) =~= rest);
                }
            }
        } else {
            assert(b.slots@[k - 1] == a.slots@[k - 1]);
        }
    }
}

/// A change of what one terminal source holds touches no cluster but its
/// terminal's and its readers.
proof fn reheld_keeps_clean(
    before: &Resolver,
    after: &Resolver,
    n: nat,
    id: TerminalId,
    drive: TerminalDrive,
)
    requires
        before.well_formed(),
        before.settled_for(n),
        before.board().declares(id),
        after.same_but_drive(before),
        after.board()@ == reheld(before.board()@, id, drive),
        forall|cid: int| #[trigger]
            after.awaits(cid) <==> before.awaits(cid) || before.touched_by_terminal(n, id, cid),
    ensures
        after.keeps_clean(before, n),
{
    let a = before.board();
    let b = after.board();
    assert(a.power_sources.len() <= usize::MAX);
    assert(a.stuck_sources.len() <= usize::MAX);
    reheld_shape(a, b, id, drive);
    settled_describes(before, n);
    let topology = before.structure(n);
    assert(after.structure(n) == topology);
    assert(b.elements@ == a.elements@);
    assert(b.couplings@ == a.couplings@);
    assert forall|nets: Seq<Net>| #[trigger] names_of(b, nets) == names_of(a, nets) by {
        assert(names_of(b, nets).pins =~= names_of(a, nets).pins);
    }
    assert forall|cid: int|
        0 <= cid < topology.clusters.len() && !#[trigger] after.awaits(cid) implies after.undisturbed(
        before,
        n,
        cid,
    ) by {
        same_slots_same_scenes(a, b, topology, cid);
    }
    assert forall|p: int|
        0 <= p < topology.terminals.len() && !#[trigger] held_alike(a, b, topology, p) implies {
        &&& after.awaits(topology.terminals[p].cluster as int)
        &&& forall|i: int|
            0 <= i < topology.terminals[p].dependents.len() ==> after.awaits(
                #[trigger] topology.terminals[p].dependents[i] as int,
            )
    } by {
        let sources = topology.terminals[p].sources;
        sources_declared(a, topology, p);
        if forall|i: int| 0 <= i < sources.len() ==> #[trigger] sources[i] != id {
            assert(sources_hold(b, sources) =~= sources_hold(a, sources)) by {
                assert forall|i: int| 0 <= i < sources.len() implies b.held_at(
                    #[trigger] sources[i],
                ) == a.held_at(sources[i]) by {
                    assert(sources[i] != id);
                    assert(a.declares(sources[i]));
                }
            }
        } else {
            let i = choose|i: int| 0 <= i < sources.len() && #[trigger] sources[i] == id;
            assert(before.touched_by_terminal(n, id, topology.terminals[p].cluster as int));
            assert forall|j: int|
                0 <= j < topology.terminals[p].dependents.len() implies after.awaits(
                #[trigger] topology.terminals[p].dependents[j] as int,
            ) by {
                let cid = topology.terminals[p].dependents[j] as int;
                assert(dependent_on(topology, p, cid));
                assert(before.touched_by_terminal(n, id, cid));
            }
        }
    }
}

/// What the terminals hold is no part of what a scene reads of the board.
proof fn same_slots_same_scenes(a: Board, b: Board, topology: TopologyView, cid: int)
    requires
        b.slots@ == a.slots@,
        b.shape() == a.shape(),
        b.elements@ == a.elements@,
        b.digital_senses@ == a.digital_senses@,
        b.analog_senses@ == a.analog_senses@,
        b.power_senses@ == a.power_senses@,
    ensures
        reads_alike(a, topology, b, topology, cid),
{
    same_slots_same_arrivals(a, b, topology, cid, a.slots@.len());
    assert forall|states: Seq<TerminalState>| #[trigger]
        scene_in(b, topology, states, cid) == scene_in(a, topology, states, cid) by {
        let left = scene_in(b, topology, states, cid);
        let right = scene_in(a, topology, states, cid);
        assert(left.slot_roots =~= right.slot_roots);
        assert(left.drives =~= right.drives);
        assert(left.elements =~= right.elements);
    }
}

proof fn same_slots_same_arrivals(a: Board, b: Board, topology: TopologyView, cid: int, k: nat)
    requires
        b.slots@ == a.slots@,
        b.shape() == a.shape(),
    ensures
        arrivals_from(b, topology, cid, k) == arrivals_from(a, topology, cid, k),
    decreases k,
{
    if k > 0 {
        same_slots_same_arrivals(a, b, topology, cid, (k - 1) as nat);
        assert(slot_reach(b, topology, k - 1) == slot_reach(a, topology, k - 1));
    }
}

impl Resolver {
    /// Everything but the board and the waiting clusters is as it was.
    pub open spec fn same_results(&self, before: &Resolver) -> bool {
        &&& self.net_count() == before.net_count()
        &&& self.held_states() == before.held_states()
        &&& self.currents_moved() == before.currents_moved()
        &&& self.solves_counted() == before.solves_counted()
        &&& forall|e: int| #[trigger] self.endpoint_current(e) == before.endpoint_current(e)
        &&& forall|e: int| #[trigger] self.element_current(e) == before.element_current(e)
        &&& forall|n: nat| #[trigger] self.roots(n) == before.roots(n)
        &&& forall|n: nat| #[trigger] self.settled_for(n) == before.settled_for(n)
    }

    /// Change what a declared terminal source holds its net at. Returns
    /// whether it changed; a change sets the terminal's cluster and every
    /// reader of it waiting.
    pub fn set_terminal(&mut self, id: TerminalId, drive: TerminalDrive) -> (changed: bool)
        requires
            old(self).well_formed(),
            old(self).board().declares(id),
        ensures
            final(self).well_formed(),
            final(self).same_results(old(self)),
            changed == !old(self).board().held_at(id).holds_same(drive),
            !changed ==> *final(self) == *old(self),
            changed ==> final(self).board()@ == reheld(old(self).board()@, id, drive),
            forall|n: nat|
                changed && #[trigger] old(self).settled_for(n) ==> (forall|cid: int| #[trigger]
                    final(self).awaits(cid) <==> old(self).awaits(cid)
                        || old(self).touched_by_terminal(n, id, cid)),
            forall|n: nat| #[trigger]
                old(self).settled_for(n) ==> final(self).keeps_clean(old(self), n),
            final(self).took(old(self), (Change::Terminal { id, drive })),
    {
        proof {
            reveal(Resolver::took);
        }
        if self.board.terminal_source(id).drive.same(drive) {
            proof {
                assert forall|n: nat| #[trigger]
                    old(self).settled_for(n) implies self.keeps_clean(old(self), n) by {
                    unchanged_is_clean(self, n);
                }
            }
            return false;
        }
        self.replace_source(id, drive);
        let ghost reheld_self = *self;
        self.mark_terminal_dirty(id);
        proof {
            reheld_shape(old(self).board, self.board, id, drive);
            same_list_same_waiting(old(self), &reheld_self);
            assert forall|n: nat| #[trigger] old(self).settled_for(n) implies self.keeps_clean(
                old(self),
                n,
            ) && (forall|cid: int| #[trigger]
                self.awaits(cid) <==> old(self).awaits(cid) || old(self).touched_by_terminal(
                    n,
                    id,
                    cid,
                )) by {
                settled_describes(old(self), n);
                assert(self.topology->0@ == old(self).structure(n));
                assert(self.board.terminal_net(id) == old(self).board.terminal_net(id));
                assert forall|cid: int| #[trigger]
                    self.awaits(cid) <==> old(self).awaits(cid) || old(self).touched_by_terminal(
                        n,
                        id,
                        cid,
                    ) by {
                    assert(reheld_self.awaits(cid) == old(self).awaits(cid));
                }
                reheld_keeps_clean(old(self), self, n, id, drive);
            }
        }
        true
    }
}

/// A board once an endpoint's drive is replaced: a power-output pin's is what
/// its terminal holds.
pub open spec fn driven(board: BoardView, slot: int, drive: Option<Drive>) -> BoardView {
    match board.slots[slot].terminal {
        None => redriven(board, slot, drive),
        Some(id) => reheld(redriven(board, slot, drive), id, held_by_slot(drive)),
    }
}

/// Replacing what a source holds by the same changes nothing.
proof fn same_source_unmoved(board: Board, id: TerminalId, drive: TerminalDrive)
    requires
        board.declares(id),
        board.held_at(id).holds_same(drive),
    ensures
        reheld(board@, id, drive) == board@,
{
    assert(board.held_at(id) == drive);
    assert(reheld(board@, id, drive) =~= board@);
}

/// A power-output pin's own slot is read by no cluster.
proof fn terminal_slot_keeps_clean(
    before: &Resolver,
    after: &Resolver,
    n: nat,
    slot: int,
    drive: Option<Drive>,
)
    requires
        before.well_formed(),
        before.settled_for(n),
        0 <= slot < before.board().slots@.len(),
        before.board().slots@[slot].terminal is Some,
        after.same_but_drive(before),
        after.dirty@ == before.dirty@,
        after.board()@ == redriven(before.board()@, slot, drive),
    ensures
        after.keeps_clean(before, n),
{
    let a = before.board();
    let b = after.board();
    redriven_shape(a, b, slot, drive);
    settled_describes(before, n);
    same_list_same_waiting(before, after);
    let topology = before.structure(n);
    assert(after.structure(n) == topology);
    names_unmoved(a, b, slot, drive);
    assert forall|cid: int|
        0 <= cid < topology.clusters.len() && !#[trigger] after.awaits(cid) implies after.undisturbed(
        before,
        n,
        cid,
    ) by {
        untouched_reads_alike(a, b, topology, slot, drive, cid);
    }
    assert forall|p: int| 0 <= p < topology.terminals.len() implies #[trigger] held_alike(
        a,
        b,
        topology,
        p,
    ) by {
        assert(sources_hold(b, topology.terminals[p].sources) =~= sources_hold(
            a,
            topology.terminals[p].sources,
        ));
    }
}

impl Resolver {
    /// What a change of drive leaves waiting: what waited, and what it
    /// touches.
    pub open spec fn touched_waits(
        &self,
        before: &Resolver,
        n: nat,
        slot: int,
        drive: Option<Drive>,
    ) -> bool {
        forall|cid: int| #[trigger]
            self.awaits(cid) <==> before.awaits(cid) || before.touched_by_drive(
                n,
                slot,
                drive,
                cid,
            )
    }

    /// Replace a pin's drive where it differs.
    fn drive_pin(&mut self, slot: usize, drive: Option<Drive>)
        requires
            old(self).well_formed(),
            slot < old(self).board.slots@.len(),
            old(self).board.slots@[slot as int].terminal is None,
            normalised(drive) == drive,
        ensures
            final(self).well_formed(),
            final(self).same_but_drive(old(self)),
            final(self).board@ == redriven(old(self).board@, slot as int, drive),
            forall|n: nat| #[trigger]
                old(self).settled_for(n) ==> final(self).touched_waits(
                    old(self),
                    n,
                    slot as int,
                    drive,
                ) && final(self).keeps_clean(old(self), n),
    {
        let was_periodic = holds_periodic(&self.board.slots[slot].drive);
        let now_periodic = holds_periodic(&drive);
        let net: usize = self.board.slots[slot].net;
        self.replace_drive(slot, drive);
        let ghost replaced = *self;
        if was_periodic || now_periodic {
            self.mark_coupled_dirty(slot);
        }
        let ghost coupled = *self;
        proof {
            redriven_shape(old(self).board, self.board, slot as int, drive);
            if self.topology is Some {
                assert(self.board.shape().slot_nets[slot as int] == net);
            }
        }
        self.mark_cluster_of(net);
        proof {
            same_list_same_waiting(old(self), &replaced);
            assert forall|n: nat| #[trigger] old(self).settled_for(n) implies self.touched_waits(
                old(self),
                n,
                slot as int,
                drive,
            ) && self.keeps_clean(old(self), n) by {
                settled_describes(old(self), n);
                let topology = old(self).structure(n);
                assert(self.topology->0@ == topology);
                assert forall|cid: int| #[trigger]
                    self.awaits(cid) <==> old(self).awaits(cid) || old(self).touched_by_drive(
                        n,
                        slot as int,
                        drive,
                        cid,
                    ) by {
                    assert(replaced.awaits(cid) == old(self).awaits(cid));
                    assert(slot_reach(self.board, topology, slot as int) == slot_reach(
                        old(self).board,
                        topology,
                        slot as int,
                    ));
                    if was_periodic || now_periodic {
                        assert(coupled.awaits(cid) <==> replaced.awaits(cid) || clock_reaches(
                            replaced.board,
                            topology,
                            slot as int,
                            cid,
                        ));
                    }
                    assert(self.awaits(cid) <==> coupled.awaits(cid) || topology.index[net as int]
                        == cid);
                }
                redriven_keeps_clean(old(self), self, n, slot as int, drive);
            }
        }
    }

    /// Replace an endpoint's drive contribution; `None` releases it, and so
    /// does a Thevenin drive behind a non-finite impedance. Returns whether
    /// the table changed: an identical drive sets nothing waiting, and a
    /// drive for an endpoint nobody declared is dropped.
    ///
    /// A power-output pin's drive is what its terminal holds: a change of it
    /// sets the terminal's cluster and every reader waiting. Any other pin's
    /// sets its own cluster waiting, and every cluster a rate on it reaches.
    pub fn set_drive(&mut self, endpoint: EndpointId, drive: Option<Drive>) -> (changed: bool)
        requires
            old(self).well_formed(),
        ensures
            final(self).well_formed(),
            final(self).same_results(old(self)),
            changed == (endpoint.0 < old(self).board()@.slots.len()
                && old(self).board()@.slots[endpoint.0 as int].drive != normalised(drive)),
            !changed ==> *final(self) == *old(self),
            changed ==> final(self).board()@ == driven(
                old(self).board()@,
                endpoint.0 as int,
                normalised(drive),
            ),
            forall|n: nat|
                changed && #[trigger] old(self).settled_for(n) ==> final(self).touched_waits(
                    old(self),
                    n,
                    endpoint.0 as int,
                    normalised(drive),
                ),
            forall|n: nat| #[trigger]
                old(self).settled_for(n) ==> final(self).keeps_clean(old(self), n),
            final(self).took(old(self), (Change::Drive { endpoint, drive })),
    {
        proof {
            reveal(Resolver::took);
        }
        let drive = normalise_drive(drive);
        let slot: usize = endpoint.0;
        if slot >= self.board.slots.len() || same_drive(&self.board.slots[slot].drive, &drive) {
            proof {
                assert forall|n: nat| #[trigger]
                    old(self).settled_for(n) implies self.keeps_clean(old(self), n) by {
                    unchanged_is_clean(self, n);
                }
            }
            return false;
        }
        match self.board.slots[slot].terminal {
            None => {
                self.drive_pin(slot, drive);
                assert forall|n: nat| #[trigger] self.roots(n) == old(self).roots(n) by {}
            },
            Some(id) => {
                assert(old(self).slots_sound());
                assert(old(self).board().slots@[slot as int].terminal == Some(id));
                self.replace_drive(slot, drive);
                let ghost mid = *self;
                let held = TerminalDrive::from_slot(drive);
                let moved = self.set_terminal(id, held);
                proof {
                    redriven_shape(old(self).board, mid.board, slot as int, drive);
                    same_list_same_waiting(old(self), &mid);
                    assert(mid.board@ == redriven(old(self).board@, slot as int, drive));
                    if !moved {
                        same_source_unmoved(mid.board, id, held);
                    }
                    assert forall|n: nat| #[trigger]
                        old(self).settled_for(n) implies self.touched_waits(
                        old(self),
                        n,
                        slot as int,
                        drive,
                    ) && self.keeps_clean(old(self), n) by {
                        assert(mid.settled_for(n));
                        terminal_slot_keeps_clean(old(self), &mid, n, slot as int, drive);
                        clean_changes_compose(old(self), &mid, self, n);
                        assert(mid.structure(n) == old(self).structure(n));
                        assert forall|cid: int| #[trigger]
                            self.awaits(cid) <==> old(self).awaits(cid) || old(self).touched_by_drive(
                                n,
                                slot as int,
                                drive,
                                cid,
                            ) by {
                            assert(mid.awaits(cid) == old(self).awaits(cid));
                            if moved {
                                assert(self.awaits(cid) <==> mid.awaits(cid)
                                    || mid.touched_by_terminal(n, id, cid));
                            }
                        }
                    }
                }
            },
        }
        true
    }
}

} // verus!
