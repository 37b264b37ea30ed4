//! What a board's structure is made of, in terms of what is declared on it.
use vstd::prelude::*;

use crate::board::Shape;
use crate::coupling::RootCoupling;
use crate::dsu::is_root_map;
use crate::paths::Edge;
use crate::scene::laws::counted_to;
use crate::seqs::select_properties;
use crate::terminal::TerminalId;
use crate::topology::{
    cluster_edges, cluster_topo, layout_of, root_couplings_of, root_edges_of, sense_in, source_on,
    sources_of, sources_on, sourcing_slot, terminal_list, terminals_are_roots, topology_of, Layout,
};

verus! {

/// The edges between conductors are the declared edges, each at its own
/// resistance between the roots of its ends, but for those that join a
/// conductor to itself.
pub proof fn edges_join_the_roots_of_their_ends(edges: Seq<Edge>, root_of: Seq<usize>)
    ensures
        root_edges_of(edges, root_of) == edges.filter(
            |e: Edge| root_of[e.a as int] != root_of[e.b as int],
        ).map_values(
            |e: Edge| Edge { a: root_of[e.a as int], b: root_of[e.b as int], ohms: e.ohms },
        ),
    decreases edges.len(),
{
    reveal(Seq::filter);
    let keep = |e: Edge| root_of[e.a as int] != root_of[e.b as int];
    let rooted = |e: Edge| Edge { a: root_of[e.a as int], b: root_of[e.b as int], ohms: e.ohms };
    if edges.len() > 0 {
        edges_join_the_roots_of_their_ends(edges.drop_last(), root_of);
    }
    assert(root_edges_of(edges, root_of) =~= edges.filter(keep).map_values(rooted));
}

/// The capacitors between conductors are the declared ones, each by its own
/// place between the roots of its ends, but for those across one conductor.
pub proof fn capacitors_join_the_roots_of_their_ends(
    couplings: Seq<(usize, usize, u64)>,
    root_of: Seq<usize>,
)
    ensures
        root_couplings_of(couplings, root_of) == counted_to(couplings.len()).filter(
            |i: int| root_of[couplings[i].0 as int] != root_of[couplings[i].1 as int],
        ).map_values(
            |i: int|
                RootCoupling {
                    a: root_of[couplings[i].0 as int],
                    b: root_of[couplings[i].1 as int],
                    capacitor: i as usize,
                },
        ),
    decreases couplings.len(),
{
    reveal(Seq::filter);
    let keep = |i: int| root_of[couplings[i].0 as int] != root_of[couplings[i].1 as int];
    let rooted = |i: int|
        RootCoupling {
            a: root_of[couplings[i].0 as int],
            b: root_of[couplings[i].1 as int],
            capacitor: i as usize,
        };
    if couplings.len() > 0 {
        let front = couplings.drop_last();
        capacitors_join_the_roots_of_their_ends(front, root_of);
        let n = couplings.len();
        assert(counted_to(n).drop_last() =~= counted_to((n - 1) as nat));
        assert(counted_to(n).last() == n - 1);
        let front_keep = |i: int| root_of[front[i].0 as int] != root_of[front[i].1 as int];
        let front_rooted = |i: int|
            RootCoupling {
                a: root_of[front[i].0 as int],
                b: root_of[front[i].1 as int],
                capacitor: i as usize,
            };
        alike_below(counted_to((n - 1) as nat), keep, front_keep);
        let kept = counted_to((n - 1) as nat).filter(keep);
        assert forall|j: int| 0 <= j < kept.len() implies rooted(kept[j]) == front_rooted(
            kept[j],
        ) by {
            filtered_are_members(counted_to((n - 1) as nat), keep, j);
        }
        assert(kept.map_values(rooted) =~= kept.map_values(front_rooted));
    }
    assert(root_couplings_of(couplings, root_of) =~= counted_to(couplings.len()).filter(
        keep,
    ).map_values(rooted));
}

proof fn alike_below(list: Seq<int>, p: spec_fn(int) -> bool, q: spec_fn(int) -> bool)
    requires
        forall|j: int| 0 <= j < list.len() ==> p(#[trigger] list[j]) == q(list[j]),
    ensures
        list.filter(p) == list.filter(q),
    decreases list.len(),
{
    reveal(Seq::filter);
    if list.len() > 0 {
        alike_below(list.drop_last(), p, q);
    }
}

proof fn filtered_are_members(list: Seq<int>, p: spec_fn(int) -> bool, j: int)
    requires
        0 <= j < list.filter(p).len(),
    ensures
        list.contains(list.filter(p)[j]),
        p(list.filter(p)[j]),
    decreases list.len(),
{
    reveal(Seq::filter);
    if list.len() > 0 {
        let front = list.drop_last();
        if j < front.filter(p).len() {
            filtered_are_members(front, p, j);
            let i = choose|i: int| 0 <= i < front.len() && front[i] == front.filter(p)[j];
            assert(list[i] == front[i]);
        } else {
            assert(list[list.len() - 1] == list.last());
        }
    }
}

/// A conductor is held by a terminal exactly if a supply or a fault is declared
/// on it.
pub proof fn a_terminal_is_where_a_source_is_declared(
    shape: Shape,
    root_of: Seq<usize>,
    root: usize,
)
    requires
        shape.valid(root_of.len()),
        is_root_map(root_of),
        root_of.len() <= usize::MAX,
    ensures
        terminal_list(shape, root_of).contains(root) <==> (exists|i: int|
            0 <= i < shape.power_nets.len() && root_of[(#[trigger] shape.power_nets[i]) as int]
                == root) || (exists|i: int|
            0 <= i < shape.stuck_nets.len() && root_of[(#[trigger] shape.stuck_nets[i]) as int]
                == root),
{
    terminals_are_roots(shape, root_of);
    if exists|i: int|
        0 <= i < shape.power_nets.len() && root_of[(#[trigger] shape.power_nets[i]) as int]
            == root {
        let i = choose|i: int|
            0 <= i < shape.power_nets.len() && root_of[(#[trigger] shape.power_nets[i]) as int]
                == root;
        assert(shape.power_nets[i] < root_of.len());
        assert(root_of[shape.power_nets[i] as int] < root_of.len());
    }
    if exists|i: int|
        0 <= i < shape.stuck_nets.len() && root_of[(#[trigger] shape.stuck_nets[i]) as int]
            == root {
        let i = choose|i: int|
            0 <= i < shape.stuck_nets.len() && root_of[(#[trigger] shape.stuck_nets[i]) as int]
                == root;
        assert(shape.stuck_nets[i] < root_of.len());
        assert(root_of[shape.stuck_nets[i] as int] < root_of.len());
    }
}

/// A terminal's sources are every supply and every fault on its conductor,
/// supplies first.
pub proof fn a_terminals_sources_are_those_on_it(
    shape: Shape,
    root_of: Seq<usize>,
    root: usize,
    i: usize,
)
    requires
        shape.power_nets.len() <= usize::MAX,
        shape.stuck_nets.len() <= usize::MAX,
    ensures
        i < shape.power_nets.len() ==> (sources_of(shape, root_of, root).contains(
            TerminalId::Power(i),
        ) <==> root_of[shape.power_nets[i as int] as int] == root),
        i < shape.stuck_nets.len() ==> (sources_of(shape, root_of, root).contains(
            TerminalId::Stuck(i),
        ) <==> root_of[shape.stuck_nets[i as int] as int] == root),
        forall|a: int, b: int|
            0 <= a < sources_of(shape, root_of, root).len() && 0 <= b < sources_of(
                shape,
                root_of,
                root,
            ).len() && (#[trigger] sources_of(shape, root_of, root)[a]) is Power && (
            #[trigger] sources_of(shape, root_of, root)[b]) is Stuck ==> a < b,
{
    let power = sources_on(root_of, shape.power_nets, root);
    let stuck = sources_on(root_of, shape.stuck_nets, root);
    let on_power = source_on(root_of, shape.power_nets, root);
    let on_stuck = source_on(root_of, shape.stuck_nets, root);
    select_properties(shape.power_nets.len(), on_power);
    select_properties(shape.stuck_nets.len(), on_stuck);
    let all = sources_of(shape, root_of, root);
    if i < shape.power_nets.len() {
        assert(power.contains(i) <==> on_power(i as int));
        if power.contains(i) {
            let k = choose|k: int| 0 <= k < power.len() && power[k] == i;
            assert(all[k] == TerminalId::Power(i));
        }
        if all.contains(TerminalId::Power(i)) {
            let k = choose|k: int| 0 <= k < all.len() && all[k] == TerminalId::Power(i);
            assert(k < power.len());
            assert(power[k] == i);
        }
    }
    if i < shape.stuck_nets.len() {
        assert(stuck.contains(i) <==> on_stuck(i as int));
        if stuck.contains(i) {
            let k = choose|k: int| 0 <= k < stuck.len() && stuck[k] == i;
            assert(all[power.len() + k] == TerminalId::Stuck(i));
        }
        if all.contains(TerminalId::Stuck(i)) {
            let k = choose|k: int| 0 <= k < all.len() && all[k] == TerminalId::Stuck(i);
            assert(k >= power.len());
            assert(stuck[k - power.len()] == i);
        }
    }
}

/// The edges of a cluster are those with an end in it that no terminal holds,
/// in order.
pub proof fn a_clusters_edges_end_in_it(layout: Layout, edges: Seq<Edge>, cid: int)
    ensures
        cluster_edges(layout, edges, cid) == edges.filter(
            |e: Edge|
                (layout.index[e.a as int] == cid && !layout.terminals.contains(e.a)) || (
                layout.index[e.b as int] == cid && !layout.terminals.contains(e.b)),
        ),
    decreases edges.len(),
{
    reveal(Seq::filter);
    let keep = |e: Edge|
        (layout.index[e.a as int] == cid && !layout.terminals.contains(e.a)) || (
        layout.index[e.b as int] == cid && !layout.terminals.contains(e.b));
    if edges.len() > 0 {
        a_clusters_edges_end_in_it(layout, edges.drop_last(), cid);
    }
    assert(cluster_edges(layout, edges, cid) =~= edges.filter(keep));
}

/// A pad is in the cluster of its net unless it is a supply's, and a reader is
/// in the cluster of the net it reads.
pub proof fn pads_and_readers_are_in_their_nets_cluster(
    shape: Shape,
    root_of: Seq<usize>,
    cid: int,
    i: usize,
)
    requires
        shape.slot_nets.len() <= usize::MAX,
        shape.digital_senses.len() <= usize::MAX,
        shape.analog_senses.len() <= usize::MAX,
        shape.current_instruments.len() <= usize::MAX,
        shape.power_senses.len() <= usize::MAX,
    ensures
        ({
            let layout = layout_of(shape, root_of);
            let c = cluster_topo(shape, layout, cid);
            let n = layout.index.len();
            &&& i < shape.slot_nets.len() ==> (c.slots.contains(i) <==> !shape.slot_is_terminal[i as int]
                && layout.index[shape.slot_nets[i as int] as int] == cid)
            &&& i < shape.digital_senses.len() ==> (c.digital_senses.contains(i)
                <==> shape.digital_senses[i as int] < n
                && layout.index[shape.digital_senses[i as int] as int] == cid)
            &&& i < shape.analog_senses.len() ==> (c.analog_senses.contains(i)
                <==> shape.analog_senses[i as int] < n
                && layout.index[shape.analog_senses[i as int] as int] == cid)
            &&& i < shape.current_instruments.len() ==> (c.current_instruments.contains(i)
                <==> shape.current_instruments[i as int] < n
                && layout.index[shape.current_instruments[i as int] as int] == cid)
            &&& i < shape.power_senses.len() ==> (c.power_senses.contains(i)
                <==> shape.power_senses[i as int] < n
                && layout.index[shape.power_senses[i as int] as int] == cid)
        }),
{
    let layout = layout_of(shape, root_of);
    let slots = sourcing_slot(shape, layout, cid);
    let digital = sense_in(layout.index, shape.digital_senses, cid);
    let analog = sense_in(layout.index, shape.analog_senses, cid);
    let current = sense_in(layout.index, shape.current_instruments, cid);
    let power = sense_in(layout.index, shape.power_senses, cid);
    select_properties(shape.slot_nets.len(), slots);
    select_properties(shape.digital_senses.len(), digital);
    select_properties(shape.analog_senses.len(), analog);
    select_properties(shape.current_instruments.len(), current);
    select_properties(shape.power_senses.len(), power);
    let c = cluster_topo(shape, layout, cid);
    assert(c.slots.contains(i) <==> i < shape.slot_nets.len() && slots(i as int));
    assert(c.digital_senses.contains(i) <==> i < shape.digital_senses.len() && digital(i as int));
    assert(c.analog_senses.contains(i) <==> i < shape.analog_senses.len() && analog(i as int));
    assert(c.current_instruments.contains(i) <==> i < shape.current_instruments.len() && current(
        i as int,
    ));
    assert(c.power_senses.contains(i) <==> i < shape.power_senses.len() && power(i as int));
}

/// A structure is its board's: the declared edges and capacitors between
/// conductors, and for every terminal its conductor and its sources.
pub proof fn a_structure_is_its_boards(shape: Shape, root_of: Seq<usize>, p: int)
    ensures
        topology_of(shape, root_of).root_of == root_of,
        topology_of(shape, root_of).root_edges == root_edges_of(shape.edges, root_of),
        topology_of(shape, root_of).root_couplings == root_couplings_of(shape.couplings, root_of),
        topology_of(shape, root_of).terminal_roots == terminal_list(shape, root_of),
        topology_of(shape, root_of).terminals.len() == terminal_list(shape, root_of).len(),
        0 <= p < terminal_list(shape, root_of).len() ==> topology_of(
            shape,
            root_of,
        ).terminals[p].root == terminal_list(shape, root_of)[p] && topology_of(
            shape,
            root_of,
        ).terminals[p].sources == sources_of(shape, root_of, terminal_list(shape, root_of)[p]),
{
}

} // verus!
