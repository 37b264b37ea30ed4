//! What a board with one pad that drives it shows, from the board alone.
use vstd::prelude::*;

use crate::board::Board;
use crate::cluster::ClusterSolver;
use crate::coupling::crossed_at;
use crate::net::{Drive, Level, Net, NetState, TheveninDrive};
use crate::pass::described_cluster;
use crate::paths::{a_place_is_at_itself, path_ohms};
use crate::quantity::Quantity;
use crate::ranking::laws::{high, no_level, wins};
use crate::ranking::ReachingSource;
use crate::reach::{arrivals_from, is_clock};
use crate::resolver::laws::settled_describes;
use crate::resolver::{
    cluster_slots, resolved, scene_facts, scene_in, sources_hold, states_now, Resolver,
};
use crate::scene::laws::{
    a_net_nothing_reaches_floats, a_ranked_net_takes_its_strongest_source, only_ranked,
};
use crate::scene::{position_in, HeldTerminal, Scene, SlotSource};
use crate::seqs::select_properties;
use crate::terminal::laws::agreeing_sources_hold_their_voltage;
use crate::terminal::{fight_volts, numeric_volts, TerminalDrive};
use crate::topology::laws::a_cluster_holds_every_path;
use crate::topology::{layout_is_sound, layout_of, member_root, or_infinite, TopologyView};

verus! {

proof fn nothing_arrives(board: Board, topology: TopologyView, cid: int, k: nat)
    requires
        k <= board.slots@.len(),
        forall|x: int| 0 <= x < board.slots@.len() ==> !#[trigger] is_clock(board, x),
    ensures
        arrivals_from(board, topology, cid, k).len() == 0,
    decreases k,
{
    if k > 0 {
        nothing_arrives(board, topology, cid, (k - 1) as nat);
        assert(!is_clock(board, k - 1));
    }
}

proof fn one_source(scene: Scene, at: int, port: TheveninDrive, k: nat)
    requires
        0 <= at < scene.drives.len(),
        k <= scene.drives.len(),
        scene.drives[at] == Some(Drive::Thevenin(port)),
        port.impedance is Finite,
        forall|j: int|
            0 <= j < scene.drives.len() && j != at ==> (#[trigger] scene.drives[j]) is None,
    ensures
        scene.sources(None, k) == (if k > at {
            seq![
                SlotSource {
                    slot: scene.topo.slots[at],
                    root: scene.slot_roots[at],
                    port,
                    segment: None,
                },
            ]
        } else {
            Seq::empty()
        }),
    decreases k,
{
    if k > 0 {
        one_source(scene, at, port, (k - 1) as nat);
        if k - 1 == at {
            assert(scene.sources(None, k) =~= seq![
                SlotSource {
                    slot: scene.topo.slots[at],
                    root: scene.slot_roots[at],
                    port,
                    segment: None,
                },
            ]);
        } else {
            assert(scene.drives[k - 1] is None);
        }
    }
}

/// The series resistance from a net to a pad, over every edge of the board.
pub open spec fn resistance_to(topology: TopologyView, board: Board, net: int, slot: int) -> Option<
    Quantity,
> {
    path_ohms(
        topology.root_edges,
        topology.terminal_roots,
        topology.root_of[net],
        topology.root_of[board.slots@[slot].net as int],
    )
}

/// Whether one pad drives a board and nothing else does: every other is
/// released, and the net's cluster borders on no rail and asks for no solve.
pub open spec fn driven_by_one_pad(
    topology: TopologyView,
    board: Board,
    net: int,
    slot: int,
    port: TheveninDrive,
) -> bool {
    let c = topology.clusters[topology.index[net] as int];
    &&& c.elements.len() == 0
    &&& c.current_instruments.len() == 0
    &&& c.analog_senses.len() == 0
    &&& c.boundary.len() == 0
    &&& c.terminal is None
    &&& !topology.terminal_roots.contains(topology.root_of[net])
    &&& 0 <= slot < board.slots@.len()
    &&& board.slots@[slot].terminal is None
    &&& board.slots@[slot].drive == Some(Drive::Thevenin(port))
    &&& port.impedance is Finite
    &&& topology.index[board.slots@[slot].net as int] == topology.index[net]
    &&& forall|x: int|
        0 <= x < board.slots@.len() && x != slot ==> (#[trigger] board.slots@[x]).drive is None
}

/// A board that one pad drives shows that pad on every net it conducts to: the
/// pad's voltage, its level, and the resistance between; on the pad's own net
/// a strong pad drives. A net it does not conduct to floats, at no voltage.
pub proof fn a_pad_alone_sets_what_it_conducts_to<S: ClusterSolver>(
    r: &Resolver,
    solver: &S,
    nets: Seq<Net>,
    net: int,
    slot: int,
    port: TheveninDrive,
)
    requires
        r.well_formed(),
        r.fully_resolved(solver, nets),
        0 <= net < nets.len(),
        driven_by_one_pad(r.structure(nets.len()), r.board(), net, slot, port),
    ensures
        ({
            let path = resistance_to(r.structure(nets.len()), r.board(), net, slot);
            let level = if high(port.volts) {
                Level::High
            } else {
                Level::Low
            };
            let strong = port.impedance.below(Quantity::Finite(1_000_000_000));
            &&& (path matches Some(ohms) && ohms is Finite) ==> {
                &&& nets[net].volts.dc == Some(port.volts)
                &&& nets[net].volts.phases is None
                &&& no_level(port.volts) ==> nets[net].state == NetState::Analog(port.volts)
                &&& !no_level(port.volts) && strong && path == Some(Quantity::Finite(0))
                    ==> nets[net].state == NetState::Driven(level)
                &&& !no_level(port.volts) && strong && path != Some(Quantity::Finite(0))
                    ==> nets[net].state == NetState::Pulled(level, path->0)
            }
            &&& !(path matches Some(ohms) && ohms is Finite) ==> nets[net].state
                == NetState::Floating && nets[net].volts.dc is None
        }),
        r.structure(nets.len()).root_of[net] == r.structure(
            nets.len(),
        ).root_of[r.board().slots@[slot].net as int] ==> resistance_to(
            r.structure(nets.len()),
            r.board(),
            net,
            slot,
        ) == Some(Quantity::Finite(0)),
{
    let n = nets.len();
    let t = r.structure(n);
    let board = r.board();
    settled_describes(r, n);
    layout_is_sound(board.shape(), t.root_of);
    let layout = layout_of(board.shape(), t.root_of);
    let cid = t.index[net] as int;
    assert(cid < t.clusters.len());
    described_cluster(t, board, cid);
    let states = states_now(solver, board, t);
    if let Some(topology) = r.topology {
        assert(topology@ == t);
        scene_facts(board, &topology, states, cid);
    }
    assert(board.slots.len() <= usize::MAX);
    assert(board.elements.len() <= usize::MAX);
    cluster_slots(board, t, cid);
    let scene = scene_in(board, t, states, cid);
    let c = t.clusters[cid];
    // The pad's place among the cluster's slots.
    assert(board.shape().slot_nets[slot] == board.slots@[slot].net);
    assert(c.slots.contains(slot as usize));
    let at = choose|k: int| 0 <= k < c.slots.len() && c.slots[k] == slot as usize;
    assert forall|j: int| 0 <= j < scene.drives.len() && j != at implies (
    #[trigger] scene.drives[j]) is None by {
        assert(c.slots[j] != c.slots[at]);
        assert(c.slots[j] < board.slots@.len());
        assert(board.slots@[c.slots[j] as int].drive is None);
    }
    assert(scene.drives[at] == Some(Drive::Thevenin(port)));
    one_source(scene, at, port, scene.drives.len());
    let source = SlotSource {
        slot: slot as usize,
        root: t.root_of[board.slots@[slot].net as int],
        port,
        segment: None,
    };
    assert(scene.phase_sources(None) == seq![source]);
    // Nothing arrives, and no rail is near.
    assert forall|x: int| 0 <= x < board.slots@.len() implies !#[trigger] is_clock(board, x) by {
        if x != slot {
            assert(board.slots@[x].drive is None);
        }
    }
    nothing_arrives(board, t, cid, board.slots@.len());
    assert(scene.arrivals.len() == 0);
    assert(only_ranked(scene)) by {
        assert forall|k: int| 0 <= k < scene.drives.len() implies !((
        #[trigger] scene.drives[k]) is Some && (scene.drives[k]->0 is Periodic
            || scene.drives[k]->0 is Current)) by {}
    }
    // The net's place among the cluster's roots, and the pad's.
    let keep = member_root(layout, cid);
    select_properties(t.root_of.len(), keep);
    let root = t.root_of[net];
    let other = source.root;
    assert(t.root_of[root as int] == root);
    assert(t.index[root as int] == t.index[net]);
    assert(keep(root as int));
    assert(c.roots.contains(root));
    assert(t.root_of[other as int] == other);
    assert(t.index[other as int] == t.index[board.slots@[slot].net as int]);
    assert(keep(other as int));
    assert(c.roots.contains(other));
    let pr = position_in(c.roots, root);
    let ps = position_in(c.roots, other);
    assert(c.roots[pr] == root && 0 <= pr < c.roots.len()) by {
        let k = choose|k: int| 0 <= k < c.roots.len() && c.roots[k] == root;
        assert(c.roots[k] == root);
    }
    assert(c.roots[ps] == other && 0 <= ps < c.roots.len()) by {
        let k = choose|k: int| 0 <= k < c.roots.len() && c.roots[k] == other;
        assert(c.roots[k] == other);
    }
    a_cluster_holds_every_path(board.shape(), t.root_of, root, other);
    let path = resistance_to(t, board, net, slot);
    assert(c.dist[pr][ps] == or_infinite(path));
    if root == other {
        a_place_is_at_itself(t.root_edges, t.terminal_roots, root, t.root_of.len());
    }
    assert(scene.held().len() == 0) by {
        assert(scene.own_held().len() == 0);
        assert(scene.boundary_held(0).len() == 0);
    }
    reveal_with_fuel(Scene::reaching_slots, 3);
    let reaching = scene.reaching(None, pr);
    assert(resolved(solver, board, t, nets[net], net));
    assert(scene.root_of[net] == root);
    if path matches Some(ohms) && ohms is Finite {
        let top = ReachingSource {
            slot: Some(slot as usize),
            volts: port.volts,
            impedance: port.impedance,
            path: path->0,
            segment: None,
        };
        assert(reaching =~= seq![top]);
        assert(wins(reaching, 0));
        assert(crossed_at(scene.arrivals, c.roots[pr]).len() == 0);
        a_ranked_net_takes_its_strongest_source(scene, solver, net as usize, pr, 0);
    } else {
        assert(reaching =~= Seq::empty());
        assert(scene.unmodelled_columns().len() == 0) by {
            assert(scene.own is None);
        }
        a_net_nothing_reaches_floats(scene, solver, net as usize, pr);
    }
}

proof fn no_sources(scene: Scene, k: nat)
    requires
        k <= scene.drives.len(),
        forall|j: int| 0 <= j < scene.drives.len() ==> (#[trigger] scene.drives[j]) is None,
    ensures
        scene.sources(None, k).len() == 0,
    decreases k,
{
    if k > 0 {
        no_sources(scene, (k - 1) as nat);
        assert(scene.drives[k - 1] is None);
    }
}

/// Whether one rail sources a net's cluster and no pad of the board drives: the
/// cluster borders on that rail alone, whose every source holds one voltage.
pub open spec fn sourced_by_one_rail(
    topology: TopologyView,
    board: Board,
    net: int,
    p: int,
    volts: Quantity,
) -> bool {
    let c = topology.clusters[topology.index[net] as int];
    &&& c.elements.len() == 0
    &&& c.current_instruments.len() == 0
    &&& c.analog_senses.len() == 0
    &&& c.boundary.len() == 1
    &&& c.boundary[0] == p
    &&& 0 <= p < topology.terminals.len()
    &&& c.terminal is None
    &&& !topology.terminal_roots.contains(topology.root_of[net])
    &&& !(volts is Nan)
    &&& topology.terminals[p].sources.len() > 0
    &&& forall|i: int|
        0 <= i < topology.terminals[p].sources.len() ==> board.held_at(
            #[trigger] topology.terminals[p].sources[i],
        ) == TerminalDrive::Volts(volts)
    &&& forall|x: int| 0 <= x < board.slots@.len() ==> (#[trigger] board.slots@[x]).drive is None
}

/// A net that one rail sources and no pad drives is pulled to that rail: it is
/// at the rail's voltage, with its level, through the resistance between them;
/// a net that does not conduct to it floats.
pub proof fn a_rail_alone_pulls_what_it_conducts_to<S: ClusterSolver>(
    r: &Resolver,
    solver: &S,
    nets: Seq<Net>,
    net: int,
    p: int,
    volts: Quantity,
)
    requires
        r.well_formed(),
        r.fully_resolved(solver, nets),
        0 <= net < nets.len(),
        sourced_by_one_rail(r.structure(nets.len()), r.board(), net, p, volts),
    ensures
        ({
            let t = r.structure(nets.len());
            let path = path_ohms(
                t.root_edges,
                t.terminal_roots,
                t.root_of[net],
                t.terminal_roots[p],
            );
            let level = if high(volts) {
                Level::High
            } else {
                Level::Low
            };
            &&& (path matches Some(ohms) && ohms is Finite) ==> {
                &&& nets[net].volts.dc == Some(volts)
                &&& nets[net].volts.phases is None
                &&& path == Some(Quantity::Finite(0)) ==> nets[net].state == NetState::Analog(volts)
                &&& path != Some(Quantity::Finite(0)) ==> nets[net].state == NetState::Pulled(
                    level,
                    path->0,
                )
            }
            &&& !(path matches Some(ohms) && ohms is Finite) ==> nets[net].state
                == NetState::Floating && nets[net].volts.dc is None
        }),
{
    let n = nets.len();
    let t = r.structure(n);
    let board = r.board();
    settled_describes(r, n);
    layout_is_sound(board.shape(), t.root_of);
    let layout = layout_of(board.shape(), t.root_of);
    let cid = t.index[net] as int;
    assert(cid < t.clusters.len());
    described_cluster(t, board, cid);
    let states = states_now(solver, board, t);
    let c = t.clusters[cid];
    if let Some(topology) = r.topology {
        assert(topology@ == t);
        scene_facts(board, &topology, states, cid);
        assert(topology.clusters[cid]@ == t.clusters[cid]);
        assert(c.dist.len() == c.roots.len());
        assert(topology.clusters[cid].roots.len() <= usize::MAX);
    }
    assert(board.slots.len() <= usize::MAX);
    assert(board.elements.len() <= usize::MAX);
    cluster_slots(board, t, cid);
    let scene = scene_in(board, t, states, cid);
    // What the rail holds.
    let held = sources_hold(board, t.terminals[p].sources);
    assert forall|i: int| 0 <= i < held.len() && (#[trigger] held[i]) is Volts implies held[i]->Volts_0
        == volts by {
        assert(held[i] == board.held_at(t.terminals[p].sources[i]));
    }
    assert(held[0] == board.held_at(t.terminals[p].sources[0]));
    assert(held.contains(TerminalDrive::Volts(volts)));
    agreeing_sources_hold_their_voltage(
        held,
        fight_volts(solver, t.terminals[p].root, numeric_volts(held)),
        volts,
    );
    assert(states[p].drive == TerminalDrive::Volts(volts));
    assert(scene.boundary[0] == states[p]);
    // No pad drives, and nothing arrives.
    assert forall|j: int| 0 <= j < scene.drives.len() implies (#[trigger] scene.drives[j]) is None by {
        assert(c.slots[j] < board.slots@.len());
        assert(board.slots@[c.slots[j] as int].drive is None);
    }
    no_sources(scene, scene.drives.len());
    assert forall|x: int| 0 <= x < board.slots@.len() implies !#[trigger] is_clock(board, x) by {
        assert(board.slots@[x].drive is None);
    }
    nothing_arrives(board, t, cid, board.slots@.len());
    assert(only_ranked(scene)) by {
        assert forall|k: int| 0 <= k < scene.drives.len() implies !((
        #[trigger] scene.drives[k]) is Some && (scene.drives[k]->0 is Periodic
            || scene.drives[k]->0 is Current)) by {}
    }
    // The net's place among the cluster's roots.
    let keep = member_root(layout, cid);
    select_properties(t.root_of.len(), keep);
    let root = t.root_of[net];
    assert(t.root_of[root as int] == root);
    assert(t.index[root as int] == t.index[net]);
    assert(keep(root as int));
    assert(c.roots.contains(root));
    let pr = position_in(c.roots, root);
    assert(c.roots[pr] == root && 0 <= pr < c.roots.len()) by {
        let k = choose|k: int| 0 <= k < c.roots.len() && c.roots[k] == root;
        assert(c.roots[k] == root);
    }
    let rail = t.terminal_roots[p];
    a_cluster_holds_every_path(board.shape(), t.root_of, root, rail);
    let path = path_ohms(t.root_edges, t.terminal_roots, root, rail);
    let column = c.roots.len() as int;
    assert(c.dist[pr][column] == or_infinite(path));
    reveal_with_fuel(Scene::boundary_held, 2);
    let terminal = HeldTerminal { root: rail, volts, column: column as usize };
    assert(scene.own_held().len() == 0);
    assert(scene.held() =~= seq![terminal]);
    reveal_with_fuel(Scene::reaching_terminals, 2);
    let reaching = scene.reaching(None, pr);
    assert(resolved(solver, board, t, nets[net], net));
    assert(scene.root_of[net] == root);
    if path matches Some(ohms) && ohms is Finite {
        let top = ReachingSource {
            slot: None,
            volts,
            impedance: Quantity::Finite(0),
            path: path->0,
            segment: None,
        };
        assert(reaching =~= seq![top]);
        assert(wins(reaching, 0));
        a_ranked_net_takes_its_strongest_source(scene, solver, net as usize, pr, 0);
    } else {
        assert(reaching =~= Seq::empty());
        reveal_with_fuel(Scene::unmodelled, 2);
        assert(scene.unmodelled_columns().len() == 0);
        a_net_nothing_reaches_floats(scene, solver, net as usize, pr);
    }
}

} // verus!
