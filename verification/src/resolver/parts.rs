//! What is declared and driven stays as it was declared and driven.
use vstd::prelude::*;

use crate::board::{Board, BoardView, ReadKind};
use crate::cluster::{state_listed, ClusterSolver};
use crate::coupling::{ArrivalView, CoupledRootView};
use crate::net::{Drive, Level, Net, NetId, NetState, TheveninDrive};
use crate::pass::{names_of, scene_of};
use crate::paths::Edge;
use crate::quantity::{Ohms, Quantity};
use crate::reach::{
    arrival_of, arrivals_along, arrivals_from, arrives, coupled_roots, reach_from, slot_reach,
};
use crate::resolver::drives::{driven, reheld};
use crate::resolver::reads::with_read;
use crate::resolver::{endpoint_after, finite_members, scene_in, Resolver};
use crate::scene::laws::counted_to;
use crate::scene::position_in;
use crate::seqs::{ascending, select_properties};
use crate::terminal::{TerminalDrive, TerminalId, TerminalState};
use crate::topology::{smallest_edge, TopologyView};

verus! {

/// A pin that is driven holds what it is driven with, on its own net, and no
/// other pin holds another.
pub proof fn a_driven_pin_holds_its_drive(
    board: BoardView,
    slot: int,
    drive: Option<Drive>,
    other: int,
)
    requires
        0 <= slot < board.slots.len(),
        board.slots[slot].terminal is None,
    ensures
        driven(board, slot, drive).slots.len() == board.slots.len(),
        driven(board, slot, drive).slots[slot].drive == drive,
        driven(board, slot, drive).slots[slot].net == board.slots[slot].net,
        driven(board, slot, drive).slots[slot].pin == board.slots[slot].pin,
        0 <= other < board.slots.len() && other != slot ==> driven(
            board,
            slot,
            drive,
        ).slots[other] == board.slots[other],
        driven(board, slot, drive).power_sources == board.power_sources,
        driven(board, slot, drive).stuck_sources == board.stuck_sources,
        driven(board, slot, drive).edges == board.edges,
{
}

/// A power-output pin that is driven has its terminal hold its open-circuit
/// voltage, and one that is released holds nothing.
pub proof fn a_driven_supply_holds_its_voltage(
    board: BoardView,
    slot: int,
    i: usize,
    drive: Option<Drive>,
)
    requires
        0 <= slot < board.slots.len(),
        board.slots[slot].terminal == Some(TerminalId::Power(i)),
        i < board.power_sources.len(),
    ensures
        driven(board, slot, drive).slots[slot].drive == drive,
        (drive matches Some(Drive::Thevenin(port)) && !(port.volts is Nan)) ==> driven(
            board,
            slot,
            drive,
        ).power_sources[i as int].drive == TerminalDrive::Volts(drive->0->Thevenin_0.volts),
        drive is None ==> driven(board, slot, drive).power_sources[i as int].drive
            == TerminalDrive::Released,
        driven(board, slot, drive).power_sources[i as int].net == board.power_sources[i as int].net,
        forall|j: int|
            0 <= j < board.power_sources.len() && j != i ==> #[trigger] driven(
                board,
                slot,
                drive,
            ).power_sources[j] == board.power_sources[j],
{
}

/// A terminal source that is set holds what it is set to, and no other holds
/// another.
pub proof fn a_set_source_holds_its_drive(board: BoardView, i: usize, drive: TerminalDrive)
    ensures
        i < board.power_sources.len() ==> {
            let after = reheld(board, TerminalId::Power(i), drive);
            &&& after.power_sources[i as int].drive == drive
            &&& after.power_sources[i as int].net == board.power_sources[i as int].net
            &&& forall|j: int|
                0 <= j < board.power_sources.len() && j != i ==> #[trigger] after.power_sources[j]
                    == board.power_sources[j]
            &&& after.stuck_sources == board.stuck_sources
            &&& after.slots == board.slots
        },
        i < board.stuck_sources.len() ==> {
            let after = reheld(board, TerminalId::Stuck(i), drive);
            &&& after.stuck_sources[i as int].drive == drive
            &&& after.stuck_sources[i as int].net == board.stuck_sources[i as int].net
            &&& forall|j: int|
                0 <= j < board.stuck_sources.len() && j != i ==> #[trigger] after.stuck_sources[j]
                    == board.stuck_sources[j]
            &&& after.power_sources == board.power_sources
        },
{
}

/// A read that is declared is one more reader of its kind, behind the others.
pub proof fn a_declared_read_is_one_more(board: BoardView, net: usize)
    ensures
        with_read(board, net, ReadKind::Digital).digital_senses == board.digital_senses.push(net),
        with_read(board, net, ReadKind::Digital).current_instruments
            == board.current_instruments,
        with_read(board, net, ReadKind::Instrument).current_instruments
            == board.current_instruments.push(net),
        with_read(board, net, ReadKind::Instrument).digital_senses == board.digital_senses,
        with_read(board, net, ReadKind::Digital).slots == board.slots,
        with_read(board, net, ReadKind::Instrument).slots == board.slots,
{
}

/// The pins that drive a root are those on it that hold a voltage or a clock,
/// supplies and input ports left out, in order.
pub proof fn the_pins_that_drive_a_root(
    r: &Resolver,
    root_of: Seq<usize>,
    root: usize,
    k: nat,
)
    ensures
        r.pins_driving(root_of, root, k) == counted_to(k).filter(
            |s: int|
                {
                    let slot = r.board()@.slots[s];
                    &&& slot.terminal is None
                    &&& !slot.port
                    &&& slot.net < root_of.len()
                    &&& root_of[slot.net as int] == root
                    &&& slot.drive is Some
                    &&& slot.drive->0 is Thevenin || slot.drive->0 is Periodic
                },
        ).map_values(|s: int| r.board()@.slots[s].pin@),
    decreases k,
{
    reveal(Seq::filter);
    let keep = |s: int|
        {
            let slot = r.board()@.slots[s];
            &&& slot.terminal is None
            &&& !slot.port
            &&& slot.net < root_of.len()
            &&& root_of[slot.net as int] == root
            &&& slot.drive is Some
            &&& slot.drive->0 is Thevenin || slot.drive->0 is Periodic
        };
    let pin = |s: int| r.board()@.slots[s].pin@;
    if k > 0 {
        the_pins_that_drive_a_root(r, root_of, root, (k - 1) as nat);
        assert(counted_to(k).drop_last() =~= counted_to((k - 1) as nat));
        assert(counted_to(k).last() == k - 1);
        assert(keep(k - 1) == r.drives_root(root_of, root, k - 1));
    }
    assert(r.pins_driving(root_of, root, k) =~= counted_to(k).filter(keep).map_values(pin));
}

/// The roots of a cluster that one reaches are those at a finite resistance,
/// itself left out, in order.
pub proof fn the_roots_within_reach(roots: Seq<usize>, row: Seq<Ohms>, root: usize, k: nat)
    ensures
        finite_members(roots, row, root, k) == counted_to(k).filter(
            |i: int| roots[i] != root && row[i] is Finite,
        ).map_values(|i: int| roots[i]),
    decreases k,
{
    reveal(Seq::filter);
    let keep = |i: int| roots[i] != root && row[i] is Finite;
    let at = |i: int| roots[i];
    if k > 0 {
        the_roots_within_reach(roots, row, root, (k - 1) as nat);
        assert(counted_to(k).drop_last() =~= counted_to((k - 1) as nat));
        assert(counted_to(k).last() == k - 1);
    }
    assert(finite_members(roots, row, root, k) =~= counted_to(k).filter(keep).map_values(at));
}

/// Findings call a net, a pin, an element and a capacitor by the names they
/// were declared with.
pub proof fn things_are_called_by_their_names(board: Board, nets: Seq<Net>, i: int)
    ensures
        0 <= i < nets.len() ==> names_of(board, nets).nets[i] == nets[i].name@,
        names_of(board, nets).nets.len() == nets.len(),
        0 <= i < board.slots@.len() ==> names_of(board, nets).pins[i].reference
            == board.slots@[i].pin.reference@ && names_of(board, nets).pins[i].pin
            == board.slots@[i].pin.pin@ && names_of(board, nets).slot_nets[i]
            == board.slots@[i].net,
        0 <= i < board.elements@.len() ==> names_of(board, nets).elements[i]
            == board.elements@[i].reference@,
        0 <= i < board.couplings@.len() ==> names_of(board, nets).capacitors[i]
            == board.couplings@[i].reference@,
{
}

/// What a node presents is the least of the resistances that touch it, and an
/// open circuit where none does.
pub proof fn a_node_presents_its_least_resistance(edges: Seq<Edge>, root: usize)
    requires
        forall|i: int| 0 <= i < edges.len() ==> (#[trigger] edges[i]).ohms.non_negative(),
    ensures
        smallest_edge(edges, root).non_negative(),
        forall|i: int|
            0 <= i < edges.len() && ((#[trigger] edges[i]).a == root || edges[i].b == root)
                ==> smallest_edge(edges, root).key() <= edges[i].ohms.key(),
        smallest_edge(edges, root) is Finite ==> exists|i: int|
            0 <= i < edges.len() && ((#[trigger] edges[i]).a == root || edges[i].b == root)
                && edges[i].ohms == smallest_edge(edges, root),
    decreases edges.len(),
{
    if edges.len() > 0 {
        let rest = edges.drop_last();
        assert forall|i: int| 0 <= i < rest.len() implies (
        #[trigger] rest[i]).ohms.non_negative() by {
            assert(rest[i] == edges[i]);
        }
        a_node_presents_its_least_resistance(rest, root);
        let last = edges[edges.len() - 1];
        assert(last.ohms.non_negative());
        assert forall|i: int|
            0 <= i < edges.len() && ((#[trigger] edges[i]).a == root || edges[i].b
                == root) implies smallest_edge(edges, root).key() <= edges[i].ohms.key() by {
            if i < rest.len() {
                assert(rest[i] == edges[i]);
            }
        }
        if smallest_edge(rest, root) is Finite {
            let i = choose|i: int|
                0 <= i < rest.len() && ((#[trigger] rest[i]).a == root || rest[i].b == root)
                    && rest[i].ohms == smallest_edge(rest, root);
            assert(edges[i] == rest[i]);
        }
    }
}

/// A rate arrives at a root exactly if it is reached across a capacitor within
/// a kilo-ohm, holds no rail, and is in another cluster than its source; each
/// arrival lists the capacitors on the way, in order.
pub proof fn where_a_rate_arrives(
    topology: TopologyView,
    couplings: Seq<(usize, usize, u64)>,
    from: usize,
)
    requires
        topology.root_of.len() <= usize::MAX,
    ensures
        forall|i: int|
            0 <= i < coupled_roots(topology, couplings, from).len() ==> {
                let at = #[trigger] coupled_roots(topology, couplings, from)[i];
                let entry = reach_from(topology, from)[at.root as int];
                &&& at.root < topology.root_of.len()
                &&& entry is Some
                &&& entry->0.ohms.below(Quantity::Finite(1_000_000_000))
                &&& entry->0.path.len() > 0
                &&& !topology.terminal_roots.contains(at.root)
                &&& topology.index[at.root as int] != topology.index[from as int]
                &&& at.crossings.len() == entry->0.path.len()
                &&& forall|j: int|
                    0 <= j < at.crossings.len() ==> (#[trigger] at.crossings[j]).capacitor
                        == entry->0.path[j].capacitor && at.crossings[j].far_root
                        == entry->0.path[j].far_root && at.crossings[j].farads
                        == couplings[entry->0.path[j].capacitor as int].2
                        && at.crossings[j].far_ohms
                        == topology.smallest_edges[entry->0.path[j].far_root as int]
            },
        forall|root: usize|
            root < topology.root_of.len() && (#[trigger] reach_from(
                topology,
                from,
            )[root as int]) is Some && reach_from(topology, from)[root as int]->0.ohms.below(
                Quantity::Finite(1_000_000_000),
            ) && reach_from(topology, from)[root as int]->0.path.len() > 0
                && !topology.terminal_roots.contains(root) && topology.index[root as int]
                != topology.index[from as int] ==> exists|i: int|
                0 <= i < coupled_roots(topology, couplings, from).len() && (
                #[trigger] coupled_roots(topology, couplings, from)[i]).root == root,
{
    let keep = arrives(topology, from);
    select_properties(topology.root_of.len(), keep);
    let roots = crate::seqs::select(topology.root_of.len(), keep);
    let all = coupled_roots(topology, couplings, from);
    assert forall|i: int| 0 <= i < all.len() implies {
        let at = #[trigger] all[i];
        let entry = reach_from(topology, from)[at.root as int];
        &&& at.root < topology.root_of.len()
        &&& entry is Some
        &&& entry->0.ohms.below(Quantity::Finite(1_000_000_000))
        &&& entry->0.path.len() > 0
        &&& !topology.terminal_roots.contains(at.root)
        &&& topology.index[at.root as int] != topology.index[from as int]
        &&& at.crossings.len() == entry->0.path.len()
    } by {
        assert(all[i].root == roots[i]);
        assert(keep(roots[i] as int));
    }
    assert forall|root: usize|
        root < topology.root_of.len() && (#[trigger] reach_from(topology, from)[root as int])
            is Some && reach_from(topology, from)[root as int]->0.ohms.below(
            Quantity::Finite(1_000_000_000),
        ) && reach_from(topology, from)[root as int]->0.path.len() > 0
            && !topology.terminal_roots.contains(root) && topology.index[root as int]
            != topology.index[from as int] implies exists|i: int|
        0 <= i < all.len() && (#[trigger] all[i]).root == root by {
        assert(keep(root as int));
        assert(roots.contains(root));
        let i = choose|i: int| 0 <= i < roots.len() && roots[i] == root;
        assert(all[i].root == root);
    }
}

/// A rate arrives as its source drives it: the levels and the voltages of its
/// two ports, and its segment.
pub proof fn a_rate_arrives_as_it_is_driven(
    slot: usize,
    hi: TheveninDrive,
    lo: TheveninDrive,
    segment: crate::net::PeriodicSchedule,
    coupled: CoupledRootView,
)
    ensures
        ({
            let a = arrival_of(slot, Drive::Periodic { hi, lo, segment }, coupled);
            let threshold = Quantity::Finite(1_500_000_000_000);
            &&& a.slot == slot
            &&& a.root == coupled.root
            &&& a.crossings == coupled.crossings
            &&& a.segment == segment
            &&& a.hi == Level::High <==> hi.volts.at_least(threshold)
            &&& a.lo == Level::High <==> lo.volts.at_least(threshold)
            &&& hi.volts is Finite ==> a.swing.0 == Some(hi.volts)
            &&& lo.volts is Finite ==> a.swing.1 == Some(lo.volts)
        }),
{
}

/// A solve's state of a node is the first it lists for it, and none where it
/// lists none.
pub proof fn a_solve_is_read_by_node(states: Seq<(NetId, NetState)>, node: NetId, i: int)
    ensures
        0 <= i < states.len() && states[i].0 == node && (forall|j: int|
            0 <= j < i ==> (#[trigger] states[j]).0 != node) ==> state_listed(states, node) == Some(
            states[i].1,
        ),
        (forall|j: int| 0 <= j < states.len() ==> (#[trigger] states[j]).0 != node)
            ==> state_listed(states, node) is None,
    decreases states.len(),
{
    if states.len() > 0 {
        let rest = states.drop_first();
        if states[0].0 != node {
            a_solve_is_read_by_node(rest, node, i - 1);
            if 0 <= i < states.len() && states[i].0 == node && (forall|j: int|
                0 <= j < i ==> (#[trigger] states[j]).0 != node) {
                assert(rest[i - 1] == states[i]);
                assert forall|j: int| 0 <= j < i - 1 implies (#[trigger] rest[j]).0 != node by {
                    assert(rest[j] == states[j + 1]);
                }
            }
            if forall|j: int| 0 <= j < states.len() ==> (#[trigger] states[j]).0 != node {
                assert forall|j: int| 0 <= j < rest.len() implies (
                #[trigger] rest[j]).0 != node by {
                    assert(rest[j] == states[j + 1]);
                }
            }
        }
    }
}

/// A clock's rate arrives at a cluster once for each root there it reaches, and
/// nothing arrives but what a clock drives.
pub proof fn what_arrives_at_a_cluster(
    index: Seq<usize>,
    slot: usize,
    drive: Drive,
    reach: Seq<CoupledRootView>,
    cid: int,
    k: nat,
)
    requires
        k <= reach.len(),
    ensures
        arrivals_along(index, slot, drive, reach, cid, k) == reach.take(k as int).filter(
            |c: CoupledRootView| index[c.root as int] == cid,
        ).map_values(|c: CoupledRootView| arrival_of(slot, drive, c)),
    decreases k,
{
    reveal(Seq::filter);
    let keep = |c: CoupledRootView| index[c.root as int] == cid;
    let arrival = |c: CoupledRootView| arrival_of(slot, drive, c);
    let list = reach.take(k as int);
    if k > 0 {
        what_arrives_at_a_cluster(index, slot, drive, reach, cid, (k - 1) as nat);
        assert(list.drop_last() =~= reach.take(k - 1));
        assert(list.last() == reach[k - 1]);
    }
    assert(arrivals_along(index, slot, drive, reach, cid, k) =~= list.filter(keep).map_values(
        arrival,
    ));
}

/// The rates that arrive come slot by slot: a clock adds what it brings, behind
/// those before it, and any other slot nothing.
pub proof fn rates_arrive_slot_by_slot(
    board: Board,
    topology: TopologyView,
    cid: int,
    k: nat,
)
    requires
        k < board.slots@.len(),
    ensures
        arrivals_from(board, topology, cid, 0).len() == 0,
        ({
            let slot = board.slots@[k as int];
            let clock = slot.terminal is None && slot.drive is Some && slot.drive->0 is Periodic;
            let reach = slot_reach(board, topology, k as int);
            arrivals_from(board, topology, cid, k + 1) == arrivals_from(board, topology, cid, k) + (
            if clock {
                arrivals_along(
                    topology.index,
                    k as usize,
                    slot.drive->0,
                    reach,
                    cid,
                    reach.len(),
                )
            } else {
                Seq::empty()
            })
        }),
{
    let rest = arrivals_from(board, topology, cid, k);
    assert(rest + Seq::empty() =~= rest);
}

/// A pass leaves in an endpoint its own slot's current, of the cluster its net
/// is in, and keeps what it held where the pass did not cover it.
pub proof fn an_endpoint_carries_its_slots_current<S: ClusterSolver>(
    solver: &S,
    board: Board,
    topology: TopologyView,
    states: Seq<TerminalState>,
    cids: Seq<usize>,
    endpoint: int,
    at: int,
    before: Option<Quantity>,
)
    requires
        0 <= endpoint < board.slots@.len() <= usize::MAX,
        board.slots@[endpoint].terminal is None,
        ({
            let slots = topology.clusters[topology.index[board.slots@[endpoint].net as int] as int]
                .slots;
            0 <= at < slots.len() && slots[at] == endpoint && ascending(slots)
        }),
    ensures
        ({
            let cid = topology.index[board.slots@[endpoint].net as int];
            let after = endpoint_after(
                solver,
                board,
                topology,
                states,
                cids,
                cids.len() as int,
                endpoint,
                before,
            );
            &&& cids.contains(cid) ==> after == scene_in(
                board,
                topology,
                states,
                cid as int,
            ).slot_current(solver, at)
            &&& !cids.contains(cid) ==> after == before
        }),
{
    let slots = topology.clusters[topology.index[board.slots@[endpoint].net as int] as int].slots;
    assert(cids.take(cids.len() as int) =~= cids);
    let other = position_in(slots, endpoint as usize);
    assert(slots[at] == endpoint as usize);
    assert(0 <= other < slots.len() && slots[other] == endpoint as usize);
    if other < at {
        assert(slots[other] < slots[at]);
    } else if at < other {
        assert(slots[at] < slots[other]);
    }
}

/// A board's structure rests on what is declared: each part on the nets it was
/// declared on.
pub proof fn a_shape_is_as_declared(board: Board, i: int)
    ensures
        board.shape().edges == board.edges@,
        board.shape().couplings.len() == board.couplings@.len(),
        0 <= i < board.couplings@.len() ==> board.shape().couplings[i] == (
            board.couplings@[i].a,
            board.couplings@[i].b,
            board.couplings@[i].farads,
        ),
        board.shape().slot_nets.len() == board.slots@.len(),
        0 <= i < board.slots@.len() ==> board.shape().slot_nets[i] == board.slots@[i].net
            && board.shape().slot_is_terminal[i] == (board.slots@[i].terminal is Some),
        board.shape().elements.len() == board.elements@.len(),
        0 <= i < board.elements@.len() ==> board.shape().elements[i].a == board.elements@[i].a
            && board.shape().elements[i].b == board.elements@[i].b,
        0 <= i < board.elements@.len() && board.elements@[i].control is Some
            ==> board.shape().elements[i].control == Some((board.elements@[i].control->0).0),
        0 <= i < board.elements@.len() && board.elements@[i].control is None
            ==> board.shape().elements[i].control is None,
        board.shape().power_nets.len() == board.power_sources@.len(),
        0 <= i < board.power_sources@.len() ==> board.shape().power_nets[i]
            == board.power_sources@[i].net,
        board.shape().stuck_nets.len() == board.stuck_sources@.len(),
        0 <= i < board.stuck_sources@.len() ==> board.shape().stuck_nets[i]
            == board.stuck_sources@[i].net,
        board.shape().digital_senses == board.digital_senses@,
        board.shape().analog_senses == board.analog_senses@,
        board.shape().current_instruments == board.current_instruments@,
        board.shape().power_senses == board.power_senses@,
{
}

/// A pass sees a cluster's parts as they stand on the board: a pad with its
/// drive on its conductor, an element with its curve between its conductors and
/// read by its control, a reader on its net, and a terminal as it is held.
pub proof fn a_scene_is_as_it_stands(
    board: Board,
    topology: TopologyView,
    states: Seq<TerminalState>,
    arrivals: Seq<ArrivalView>,
    cid: int,
    k: int,
)
    ensures
        ({
            let c = topology.clusters[cid];
            let scene = scene_of(board, topology, states, arrivals, cid);
            let root_of = topology.root_of;
            &&& scene.arrivals == arrivals
            &&& scene.drives.len() == c.slots.len()
            &&& 0 <= k < c.slots.len() ==> scene.drives[k] == board.slots@[c.slots[k] as int].drive
                && scene.slot_roots[k] == root_of[board.slots@[c.slots[k] as int].net as int]
            &&& scene.elements.len() == c.elements.len()
            &&& 0 <= k < c.elements.len() ==> {
                let element = board.elements@[c.elements[k] as int];
                &&& scene.elements[k].a.0 == root_of[element.a as int]
                &&& scene.elements[k].b.0 == root_of[element.b as int]
                &&& scene.elements[k].curve == element.curve
                &&& scene.elements[k].control is Some <==> element.control is Some
                &&& element.control is Some ==> (scene.elements[k].control->0).1 == (
                element.control->0).1
                &&& element.control is Some ==> ({
                    let (read, _) = scene.elements[k].control->0;
                    read.0 == root_of[(element.control->0).0 as int]
                })
            }
            &&& 0 <= k < c.digital_senses.len() ==> scene.digital_nets[k]
                == board.digital_senses@[c.digital_senses[k] as int]
            &&& 0 <= k < c.analog_senses.len() ==> scene.analog_nets[k]
                == board.analog_senses@[c.analog_senses[k] as int]
            &&& 0 <= k < c.power_senses.len() ==> scene.power_nets[k]
                == board.power_senses@[c.power_senses[k] as int]
            &&& c.terminal is Some ==> scene.own == Some(states[c.terminal->0 as int])
            &&& c.terminal is None ==> scene.own is None
            &&& 0 <= k < c.boundary.len() ==> scene.boundary[k] == states[c.boundary[k] as int]
            &&& 0 <= k < c.boundary_controls.len() ==> scene.controls[k]
                == states[c.boundary_controls[k] as int]
        }),
{
}

} // verus!
